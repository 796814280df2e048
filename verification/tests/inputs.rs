use std::path::PathBuf;

use wing_extract::error::ExtractError;
use wing_extract::inputs::{collect_wavs, is_refused, resolve_inputs, sort_once, Found};
use wing_extract::paths::{compare_paths, is_wav_path, names_wav, path_parts, PathPart, PathPrefix};

fn file(path: &str) -> Found {
    Found::File(PathBuf::from(path))
}

fn spelled(paths: &[PathBuf]) -> Vec<String> {
    paths.iter().map(|path| path.to_str().unwrap().to_string()).collect()
}

fn is_wav(path: &str) -> bool {
    is_wav_path(&PathBuf::from(path))
}

fn name(text: &str) -> PathPart<Vec<u8>> {
    PathPart::Normal(text.as_bytes().to_vec())
}

#[test]
fn wav_paths() {
    assert!(is_wav("00000001.WAV"));
    assert!(is_wav("/Volumes/WING_SD/X_LIVE/5C5C992D/00000001.wav"));
    assert!(is_wav("a.b.WaV"));
    assert!(is_wav("..wav"));
    assert!(is_wav("take.wav/"));
    assert!(is_wav("take.wav/."));
    assert!(!is_wav("take.wav/.."));
    assert!(!is_wav(".wav"));
    assert!(!is_wav("wav"));
    assert!(!is_wav("take.wave"));
    assert!(!is_wav("take.wav.bak"));
    assert!(!is_wav("take."));
    assert!(!is_wav("take.wa"));
    assert!(!is_wav("dir.wav/take"));
    assert!(!is_wav("/"));
    assert!(!is_wav(""));
}

#[test]
fn wav_names() {
    assert!(names_wav(&vec![PathPart::RootDir, name("a.wav")]));
    assert!(!names_wav(&vec![name("a.wav"), PathPart::ParentDir]));
    assert!(!names_wav(&vec![]));
}

#[test]
fn paths_compare_by_components() {
    let a = vec![name("a"), name("b")];
    assert_eq!(compare_paths(&a, &vec![name("a"), name("b")]), 0);
    assert_eq!(compare_paths(&a, &vec![name("a")]), 1);
    assert_eq!(compare_paths(&a, &vec![name("a-"), name("a")]), -1);
    assert_eq!(compare_paths(&vec![PathPart::RootDir], &vec![PathPart::CurDir]), -1);
    assert_eq!(compare_paths(&vec![PathPart::ParentDir], &vec![PathPart::CurDir]), 1);
    assert_eq!(compare_paths(&vec![PathPart::ParentDir], &vec![name("")]), -1);
    let drive = PathPart::Prefix(PathPrefix::Disk(b'C'));
    assert_eq!(compare_paths(&vec![drive], &vec![PathPart::RootDir]), -1);
}

#[test]
fn prefixes_compare_by_their_parts() {
    let text = |s: &str| s.as_bytes().to_vec();
    let order = |a: PathPrefix<Vec<u8>>, b: PathPrefix<Vec<u8>>| {
        compare_paths(&vec![PathPart::Prefix(a)], &vec![PathPart::Prefix(b)])
    };
    let verbatim_share = PathPrefix::VerbatimUNC(text("a"), text("a"));
    assert_eq!(order(PathPrefix::Verbatim(text("z")), verbatim_share), -1);
    let verbatim_share = PathPrefix::VerbatimUNC(text("z"), text("z"));
    assert_eq!(order(verbatim_share, PathPrefix::VerbatimDisk(b'A')), -1);
    assert_eq!(order(PathPrefix::VerbatimDisk(b'Z'), PathPrefix::DeviceNS(text("a"))), -1);
    assert_eq!(order(PathPrefix::DeviceNS(text("z")), PathPrefix::UNC(text("a"), text("a"))), -1);
    assert_eq!(order(PathPrefix::UNC(text("z"), text("z")), PathPrefix::Disk(b'A')), -1);
    assert_eq!(order(PathPrefix::Disk(b'D'), PathPrefix::Disk(b'C')), 1);
    assert_eq!(order(PathPrefix::Disk(b'C'), PathPrefix::Disk(b'C')), 0);
    let share = |server: &str, name: &str| PathPrefix::UNC(text(server), text(name));
    assert_eq!(order(share("a", "z"), share("b", "a")), -1);
    assert_eq!(order(share("a", "z"), share("a", "y")), 1);
    assert_eq!(order(share("a", "z"), share("a", "z")), 0);
}

#[test]
fn parts_of_paths() {
    let parts = |path: &str| path_parts(&PathBuf::from(path));
    assert_eq!(
        parts("/a//b/./../c.wav"),
        vec![PathPart::RootDir, name("a"), name("b"), PathPart::ParentDir, name("c.wav")]
    );
    assert_eq!(parts("./x"), vec![PathPart::CurDir, name("x")]);
    assert!(parts("").is_empty());
}

#[test]
fn files_are_sorted_as_paths_are() {
    let spellings = [
        "b.wav", "a/c.wav", "a-/b.wav", "a/b.wav", "/z.wav", "./b.wav", "../b.wav", "a//b.wav",
        "B.wav", "a/./c.wav", "a/b.wav",
    ];
    let paths: Vec<PathBuf> = spellings.iter().map(PathBuf::from).collect();
    let mut expected = paths.clone();
    expected.sort();
    expected.dedup();
    assert_eq!(spelled(&sort_once(paths)), spelled(&expected));
}

#[test]
fn first_spelling_stays() {
    let paths = vec![PathBuf::from("a//b.wav"), PathBuf::from("a/b.wav")];
    assert_eq!(spelled(&sort_once(paths)), ["a//b.wav"]);
}

#[test]
fn directories_are_scanned() {
    let entries = |_: ()| {
        vec![
            file("d/2.wav"),
            file("d/notes.txt"),
            Found::Directory(vec![file("d/s/1.WAV"), Found::Other]),
            Found::Other,
        ]
    };
    let mut plain = vec![PathBuf::from("x.wav")];
    collect_wavs(entries(()), false, &mut plain);
    assert_eq!(spelled(&plain), ["x.wav", "d/2.wav"]);
    let mut deep = Vec::new();
    collect_wavs(entries(()), true, &mut deep);
    assert_eq!(spelled(&deep), ["d/2.wav", "d/s/1.WAV"]);
}

#[test]
fn inputs_are_resolved() {
    let inputs = vec![
        file("b.wav"),
        Found::Directory(vec![file("a/2.wav"), file("a/1.wav"), file("b.wav")]),
    ];
    let files = resolve_inputs(inputs, false).unwrap();
    assert_eq!(spelled(&files), ["a/1.wav", "a/2.wav", "b.wav"]);
    assert!(resolve_inputs(vec![], true).unwrap().is_empty());
    assert!(resolve_inputs(vec![Found::Directory(vec![])], true).unwrap().is_empty());
}

#[test]
fn order_of_inputs_is_irrelevant() {
    let one = resolve_inputs(vec![file("3.wav"), file("1.wav"), file("2.wav")], false).unwrap();
    let two = resolve_inputs(
        vec![file("2.wav"), file("3.wav"), file("1.wav"), file("2.wav")],
        false,
    )
    .unwrap();
    assert_eq!(spelled(&one), ["1.wav", "2.wav", "3.wav"]);
    assert_eq!(spelled(&one), spelled(&two));
}

#[test]
fn refused_inputs() {
    assert_eq!(
        resolve_inputs(vec![file("a.wav"), file("b.txt"), Found::Other], false),
        Err(ExtractError::NotWav(1))
    );
    assert_eq!(
        resolve_inputs(vec![Found::Other, file("b.txt")], false),
        Err(ExtractError::MissingInput(0))
    );
    assert!(resolve_inputs(vec![Found::Directory(vec![file("b.txt")])], false).is_ok());
}

#[test]
fn directory_stands_for_its_wavs() {
    let by_directory = resolve_inputs(
        vec![Found::Directory(vec![
            file("d/2.wav"),
            file("d/x.txt"),
            Found::Directory(vec![file("d/s/1.wav")]),
        ])],
        true,
    )
    .unwrap();
    let by_file = resolve_inputs(vec![file("d/2.wav"), file("d/s/1.wav")], true).unwrap();
    assert_eq!(spelled(&by_directory), ["d/2.wav", "d/s/1.wav"]);
    assert_eq!(spelled(&by_directory), spelled(&by_file));
}

#[test]
fn inputs_that_end_the_look_up() {
    assert!(is_refused(&file("b.txt")));
    assert!(is_refused(&Found::Other));
    assert!(!is_refused(&file("b.WAV")));
    assert!(!is_refused(&Found::Directory(vec![file("b.txt"), Found::Other])));
}
