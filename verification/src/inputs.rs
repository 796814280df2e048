//! Which files are read.
use vstd::prelude::*;

use std::path::PathBuf;

use crate::error::ExtractError;
use crate::paths::{compare_paths, is_wav_path, path_parts, PathPart};

verus! {

/// What stands on disk at a path.
#[derive(Debug)]
pub enum Found {
    /// A file, with its path.
    File(PathBuf),
    /// A directory, with what stands in it.
    Directory(Vec<Found>),
    /// Nothing, or something that is neither a file nor a directory.
    Other,
}

/// Whether `path` leads to something whose name has the extension `wav`.
pub open spec fn path_is_wav(path: PathBuf) -> bool {
    crate::paths::is_wav(crate::paths::components_of(path))
}

/// The WAV files among the entries of a directory, and, where the scan is recursive, among those
/// of the directories in it.
pub open spec fn wavs_in(entries: Seq<Found>, recursive: bool) -> Seq<PathBuf>
    decreases entries,
{
    if entries.len() == 0 {
        Seq::empty()
    } else {
        let found = match entries.last() {
            Found::File(path) => if path_is_wav(path) {
                seq![path]
            } else {
                Seq::empty()
            },
            Found::Directory(inner) => if recursive {
                wavs_in(inner@, recursive)
            } else {
                Seq::empty()
            },
            Found::Other => Seq::empty(),
        };
        wavs_in(entries.drop_last(), recursive) + found
    }
}

/// Appends the WAV files among the entries of a directory, and, where the scan is recursive,
/// among those of the directories in it.
pub fn collect_wavs(entries: Vec<Found>, recursive: bool, out: &mut Vec<PathBuf>)
    ensures
        final(out)@ == old(out)@ + wavs_in(entries@, recursive),
    decreases entries,
{
    let ghost before = out@;
    let ghost all = entries@;
    for entry in iter: entries
        invariant
            iter.seq() == all,
            out@ == before + wavs_in(all.take(iter.index()), recursive),
    {
        let ghost taken = all.take(iter.index() + 1);
        assert(taken.drop_last() =~= all.take(iter.index()));
        assert(taken.last() == entry);
        match entry {
            Found::File(path) => {
                if is_wav_path(&path) {
                    out.push(path);
                }
            },
            Found::Directory(inner) => {
                if recursive {
                    collect_wavs(inner, true, out);
                }
            },
            Found::Other => {},
        }
        assert(out@ =~= before + wavs_in(taken, recursive));
    }
    assert(all.take(all.len() as int) =~= all);
}

/// Why the input at index `i` cannot be read, if it cannot.
pub open spec fn input_fault(input: Found, i: int) -> Option<ExtractError> {
    match input {
        Found::File(path) => if path_is_wav(path) {
            None
        } else {
            Some(ExtractError::NotWav(i as usize))
        },
        Found::Directory(_) => None,
        Found::Other => Some(ExtractError::MissingInput(i as usize)),
    }
}

/// The WAV files that an input stands for.
pub open spec fn wavs_of(input: Found, recursive: bool) -> Seq<PathBuf> {
    match input {
        Found::File(path) => seq![path],
        Found::Directory(entries) => wavs_in(entries@, recursive),
        Found::Other => Seq::empty(),
    }
}

/// The WAV files that the inputs stand for, in the order in which they are found, or why the
/// first input that cannot be read cannot.
pub open spec fn gathered(inputs: Seq<Found>, recursive: bool) -> Result<
    Seq<PathBuf>,
    ExtractError,
>
    decreases inputs.len(),
{
    if inputs.len() == 0 {
        Ok(Seq::empty())
    } else {
        match gathered(inputs.drop_last(), recursive) {
            Ok(files) => match input_fault(inputs.last(), inputs.len() - 1) {
                Some(error) => Err(error),
                None => Ok(files + wavs_of(inputs.last(), recursive)),
            },
            Err(error) => Err(error),
        }
    }
}

/// Inputs behind one that cannot be read do not matter.
proof fn lemma_gathered_fails(inputs: Seq<Found>, recursive: bool, n: int)
    requires
        0 <= n <= inputs.len(),
        gathered(inputs.take(n), recursive) is Err,
    ensures
        gathered(inputs, recursive) == gathered(inputs.take(n), recursive),
    decreases inputs.len(),
{
    if n == inputs.len() {
        assert(inputs.take(n) =~= inputs);
    } else {
        assert(inputs.drop_last().take(n) =~= inputs.take(n));
        lemma_gathered_fails(inputs.drop_last(), recursive, n);
    }
}

/// Whether two paths have the same components.
pub open spec fn same_path(a: PathBuf, b: PathBuf) -> bool {
    crate::paths::components_of(a) == crate::paths::components_of(b)
}

/// Whether the components of `a` come before those of `b`.
pub open spec fn comes_before(a: PathBuf, b: PathBuf) -> bool {
    crate::paths::path_order(crate::paths::components_of(a), crate::paths::components_of(b)) < 0
}

/// Whether `path` is at `k`, and no path before it has the same components.
pub open spec fn first_at(found: Seq<PathBuf>, k: int, path: PathBuf) -> bool {
    &&& 0 <= k < found.len()
    &&& found[k] == path
    &&& forall|m: int| #![trigger found[m]] 0 <= m < k ==> !same_path(found[m], path)
}

/// Whether `path` was found before all others with the same components.
pub open spec fn found_first(found: Seq<PathBuf>, path: PathBuf) -> bool {
    exists|k: int| first_at(found, k, path)
}

/// Whether `path` has the same components as one of `files`.
pub open spec fn has_path(files: Seq<PathBuf>, path: PathBuf) -> bool {
    exists|i: int| #![trigger files[i]] 0 <= i < files.len() && same_path(files[i], path)
}

/// Whether `files` are the paths that were found, in order, each once: of those with the same
/// components, the one that was found first.
pub open spec fn in_order_once(found: Seq<PathBuf>, files: Seq<PathBuf>) -> bool {
    &&& in_order(files)
    &&& forall|i: int|
        #![trigger files[i]]
        0 <= i < files.len() ==> found_first(found, files[i])
    &&& forall|k: int| #![trigger found[k]] 0 <= k < found.len() ==> has_path(files, found[k])
}

/// Whether the components of each of `files` come before those of the ones behind it.
pub open spec fn in_order(files: Seq<PathBuf>) -> bool {
    forall|i: int, j: int|
        #![trigger files[i], files[j]]
        0 <= i < j < files.len() ==> comes_before(files[i], files[j])
}

/// Files stay in order where one is added between those that come before it and the rest.
proof fn lemma_insert_in_order(files: Seq<PathBuf>, at: int, path: PathBuf)
    requires
        in_order(files),
        0 <= at <= files.len(),
        forall|i: int| #![trigger files[i]] 0 <= i < at ==> comes_before(files[i], path),
        forall|i: int| #![trigger files[i]] at <= i < files.len() ==> comes_before(path, files[i]),
    ensures
        in_order(files.insert(at, path)),
{
    let new = files.insert(at, path);
    assert forall|i: int, j: int|
        #![trigger new[i], new[j]]
        0 <= i < j < new.len() implies comes_before(new[i], new[j]) by {
        let old_i = if i <= at {
            i
        } else {
            i - 1
        };
        let old_j = if j <= at {
            j
        } else {
            j - 1
        };
        if i != at {
            assert(new[i] == files[old_i]);
        }
        if j != at {
            assert(new[j] == files[old_j]);
        }
    }
}

/// What was found first is still first when more is found.
proof fn lemma_found_first_grows(found: Seq<PathBuf>, n: int, path: PathBuf)
    requires
        0 <= n < found.len(),
        found_first(found.take(n), path),
    ensures
        found_first(found.take(n + 1), path),
{
    let before = found.take(n);
    let after = found.take(n + 1);
    let k = choose|k: int| first_at(before, k, path);
    assert forall|m: int| #![trigger after[m]] 0 <= m < k implies !same_path(after[m], path) by {
        assert(before[m] == after[m]);
    }
    assert(before[k] == after[k]);
    assert(first_at(after, k, path));
}

/// A path is found first where no file has its components yet.
proof fn lemma_new_found_first(found: Seq<PathBuf>, files: Seq<PathBuf>, n: int)
    requires
        0 <= n < found.len(),
        forall|k: int|
            #![trigger found.take(n)[k]]
            0 <= k < n ==> has_path(files, found.take(n)[k]),
        !has_path(files, found[n]),
    ensures
        found_first(found.take(n + 1), found[n]),
{
    let before = found.take(n);
    let after = found.take(n + 1);
    assert forall|m: int| #![trigger after[m]] 0 <= m < n implies !same_path(
        after[m],
        found[n],
    ) by {
        assert(before[m] == after[m]);
        assert(has_path(files, before[m]));
        let j = choose|j: int|
            #![trigger files[j]]
            0 <= j < files.len() && same_path(files[j], before[m]);
        if same_path(after[m], found[n]) {
            assert(same_path(files[j], found[n]));
        }
    }
    assert(first_at(after, n, found[n]));
}

/// No file has the components of a path that it comes before or that comes before it.
proof fn lemma_apart(files: Seq<PathBuf>, at: int, path: PathBuf)
    requires
        0 <= at <= files.len(),
        forall|i: int| #![trigger files[i]] 0 <= i < at ==> comes_before(files[i], path),
        forall|i: int| #![trigger files[i]] at <= i < files.len() ==> comes_before(path, files[i]),
    ensures
        !has_path(files, path),
{
    if has_path(files, path) {
        let j = choose|j: int|
            #![trigger files[j]]
            0 <= j < files.len() && same_path(files[j], path);
        crate::paths::law_path_order_total(
            crate::paths::components_of(path),
            crate::paths::components_of(files[j]),
        );
    }
}

/// Adding the next path that was found to the files at its place keeps them in order.
proof fn lemma_insert_keeps_order(found: Seq<PathBuf>, files: Seq<PathBuf>, n: int, at: int)
    requires
        0 <= n < found.len(),
        in_order_once(found.take(n), files),
        0 <= at <= files.len(),
        forall|i: int| #![trigger files[i]] 0 <= i < at ==> comes_before(files[i], found[n]),
        forall|i: int|
            #![trigger files[i]]
            at <= i < files.len() ==> comes_before(found[n], files[i]),
    ensures
        in_order_once(found.take(n + 1), files.insert(at, found[n])),
{
    let before = found.take(n);
    let after = found.take(n + 1);
    let path = found[n];
    let new = files.insert(at, path);
    lemma_insert_in_order(files, at, path);
    lemma_apart(files, at, path);
    lemma_new_found_first(found, files, n);
    assert forall|i: int| #![trigger new[i]] 0 <= i < new.len() implies found_first(
        after,
        new[i],
    ) by {
        if i != at {
            let old_i = if i < at {
                i
            } else {
                i - 1
            };
            assert(files[old_i] == new[i]);
            lemma_found_first_grows(found, n, files[old_i]);
        }
    }
    assert forall|k: int| #![trigger after[k]] 0 <= k < after.len() implies has_path(
        new,
        after[k],
    ) by {
        if k == n {
            assert(same_path(new[at], after[k]));
        } else {
            assert(before[k] == after[k]);
            assert(has_path(files, before[k]));
            let j = choose|j: int|
                #![trigger files[j]]
                0 <= j < files.len() && same_path(files[j], before[k]);
            let new_j = if j < at {
                j
            } else {
                j + 1
            };
            assert(new[new_j] == files[j]);
        }
    }
}

/// A path whose components are there already changes nothing.
proof fn lemma_known_keeps_order(found: Seq<PathBuf>, files: Seq<PathBuf>, n: int)
    requires
        0 <= n < found.len(),
        in_order_once(found.take(n), files),
        has_path(files, found[n]),
    ensures
        in_order_once(found.take(n + 1), files),
{
    let before = found.take(n);
    let after = found.take(n + 1);
    assert forall|i: int| #![trigger files[i]] 0 <= i < files.len() implies found_first(
        after,
        files[i],
    ) by {
        lemma_found_first_grows(found, n, files[i]);
    }
    assert forall|k: int| #![trigger after[k]] 0 <= k < after.len() implies has_path(
        files,
        after[k],
    ) by {
        if k < n {
            assert(before[k] == after[k]);
        }
    }
}

/// Whether `keys` are the components of `files`.
spec fn keys_of(keys: Seq<Vec<PathPart<Vec<u8>>>>, files: Seq<PathBuf>) -> bool {
    &&& keys.len() == files.len()
    &&& forall|i: int|
        #![trigger keys[i]]
        #![trigger files[i]]
        0 <= i < files.len() ==> crate::paths::part_views(keys[i]@)
            == crate::paths::components_of(files[i])
}

/// Whether those of `files` before `n` come before `path`.
spec fn all_before(files: Seq<PathBuf>, n: int, path: PathBuf) -> bool {
    forall|i: int| #![trigger files[i]] 0 <= i < n ==> comes_before(files[i], path)
}

/// Whether `path` comes before those of `files` from `n` on.
spec fn before_all(files: Seq<PathBuf>, n: int, path: PathBuf) -> bool {
    forall|i: int| #![trigger files[i]] n <= i < files.len() ==> comes_before(path, files[i])
}

/// A path that comes before a file in order comes before those behind it.
#[verifier::spinoff_prover]
proof fn lemma_before_rest(files: Seq<PathBuf>, middle: int, path: PathBuf)
    requires
        in_order(files),
        0 <= middle < files.len(),
        comes_before(path, files[middle]),
    ensures
        before_all(files, middle, path),
{
    assert forall|i: int| #![trigger files[i]] middle <= i < files.len() implies comes_before(
        path,
        files[i],
    ) by {
        if i > middle {
            crate::paths::law_path_order_transitive(
                crate::paths::components_of(path),
                crate::paths::components_of(files[middle]),
                crate::paths::components_of(files[i]),
            );
        }
    }
}

/// A path that a file in order comes before is behind those before the file.
#[verifier::spinoff_prover]
proof fn lemma_behind_first(files: Seq<PathBuf>, middle: int, path: PathBuf)
    requires
        in_order(files),
        0 <= middle < files.len(),
        comes_before(files[middle], path),
    ensures
        all_before(files, middle + 1, path),
{
    assert forall|i: int| #![trigger files[i]] 0 <= i < middle + 1 implies comes_before(
        files[i],
        path,
    ) by {
        if i < middle {
            crate::paths::law_path_order_transitive(
                crate::paths::components_of(files[i]),
                crate::paths::components_of(files[middle]),
                crate::paths::components_of(path),
            );
        }
    }
}

/// The place of `path`, whose components are `key`, among `files`, whose components are `keys`, or
/// nothing where one of them has the same components.
#[verifier::spinoff_prover]
fn place_of(
    files: &Vec<PathBuf>,
    keys: &Vec<Vec<PathPart<Vec<u8>>>>,
    path: &PathBuf,
    key: &Vec<PathPart<Vec<u8>>>,
) -> (place: Option<usize>)
    requires
        in_order(files@),
        keys_of(keys@, files@),
        crate::paths::part_views(key@) == crate::paths::components_of(*path),
    ensures
        match place {
            Some(at) => at <= files@.len() && all_before(files@, at as int, *path) && before_all(
                files@,
                at as int,
                *path,
            ),
            None => has_path(files@, *path),
        },
{
    let mut low: usize = 0;
    let mut high: usize = files.len();
    while low < high
        invariant
            low <= high <= files@.len(),
            in_order(files@),
            keys_of(keys@, files@),
            crate::paths::part_views(key@) == crate::paths::components_of(*path),
            all_before(files@, low as int, *path),
            before_all(files@, high as int, *path),
        decreases high - low,
    {
        let middle: usize = low + (high - low) / 2;
        let order: i8 = compare_paths(key, &keys[middle]);
        let ghost there = files@[middle as int];
        proof {
            crate::paths::law_path_order_total(
                crate::paths::components_of(*path),
                crate::paths::components_of(there),
            );
        }
        if order == 0 {
            assert(same_path(there, *path));
            return None;
        } else if order < 0 {
            proof {
                lemma_before_rest(files@, middle as int, *path);
            }
            high = middle;
        } else {
            proof {
                lemma_behind_first(files@, middle as int, *path);
            }
            low = middle + 1;
        }
    }
    Some(low)
}

/// The components of files to which one is added.
proof fn lemma_insert_key(
    keys: Seq<Vec<PathPart<Vec<u8>>>>,
    files: Seq<PathBuf>,
    at: int,
    key: Vec<PathPart<Vec<u8>>>,
    path: PathBuf,
)
    requires
        keys_of(keys, files),
        0 <= at <= files.len(),
        crate::paths::part_views(key@) == crate::paths::components_of(path),
    ensures
        keys_of(keys.insert(at, key), files.insert(at, path)),
{
    let new_keys = keys.insert(at, key);
    let new_files = files.insert(at, path);
    assert forall|i: int|
        #![trigger new_keys[i]]
        #![trigger new_files[i]]
        0 <= i < new_files.len() implies crate::paths::part_views(new_keys[i]@)
        == crate::paths::components_of(new_files[i]) by {
        if i < at {
            assert(new_keys[i] == keys[i] && new_files[i] == files[i]);
        } else if i > at {
            assert(new_keys[i] == keys[i - 1] && new_files[i] == files[i - 1]);
        }
    }
}

/// The paths that were found, in order, each once: of those with the same components, the one that
/// was found first.
#[verifier::spinoff_prover]
pub fn sort_once(found: Vec<PathBuf>) -> (files: Vec<PathBuf>)
    ensures
        in_order_once(found@, files@),
{
    let ghost all = found@;
    let mut files: Vec<PathBuf> = Vec::new();
    let mut keys: Vec<Vec<PathPart<Vec<u8>>>> = Vec::new();
    for path in iter: found
        invariant
            iter.seq() == all,
            in_order_once(all.take(iter.index()), files@),
            keys_of(keys@, files@),
    {
        let ghost n = iter.index();
        assert(path == all[n]);
        let key = path_parts(&path);
        match place_of(&files, &keys, &path, &key) {
            Some(at) => {
                proof {
                    lemma_insert_keeps_order(all, files@, n, at as int);
                    lemma_insert_key(keys@, files@, at as int, key, path);
                }
                files.insert(at, path);
                keys.insert(at, key);
            },
            None => {
                proof {
                    lemma_known_keeps_order(all, files@, n);
                }
            },
        }
    }
    assert(all.take(all.len() as int) =~= all);
    files
}

/// Whether an input cannot be read.
pub fn is_refused(input: &Found) -> (refused: bool)
    ensures
        refused <==> input_fault(*input, 0) is Some,
{
    match input {
        Found::File(path) => !is_wav_path(path),
        Found::Directory(_) => false,
        Found::Other => true,
    }
}

/// The WAV files that the inputs stand for, in order and each once.
pub fn resolve_inputs(inputs: Vec<Found>, recursive: bool) -> (result: Result<
    Vec<PathBuf>,
    ExtractError,
>)
    ensures
        match result {
            Ok(files) => gathered(inputs@, recursive) is Ok && in_order_once(
                gathered(inputs@, recursive)->Ok_0,
                files@,
            ),
            Err(error) => gathered(inputs@, recursive) == Err::<Seq<PathBuf>, ExtractError>(error),
        },
{
    let ghost all = inputs@;
    let mut files: Vec<PathBuf> = Vec::new();
    let count: usize = inputs.len();
    let mut i: usize = 0;
    for input in iter: inputs
        invariant
            all == inputs@,
            iter.seq() == all,
            i == iter.index(),
            all.len() == count,
            gathered(all.take(iter.index()), recursive) == Ok::<Seq<PathBuf>, ExtractError>(
                files@,
            ),
    {
        proof {
            assert(all.take(i + 1).drop_last() =~= all.take(i as int));
            if input_fault(input, i as int) is Some {
                lemma_gathered_fails(all, recursive, i + 1);
            }
        }
        let ghost so_far = files@;
        match input {
            Found::File(path) => {
                if !is_wav_path(&path) {
                    return Err(ExtractError::NotWav(i));
                }
                files.push(path);
            },
            Found::Directory(entries) => {
                collect_wavs(entries, recursive, &mut files);
            },
            Found::Other => {
                return Err(ExtractError::MissingInput(i));
            },
        }
        assert(files@ =~= so_far + wavs_of(input, recursive));
        i = i + 1;
    }
    assert(all.take(all.len() as int) =~= all);
    Ok(sort_once(files))
}

/// Whether every path in `a` has the same components as one in `b`.
#[verifier::opaque]
pub open spec fn paths_among(a: Seq<PathBuf>, b: Seq<PathBuf>) -> bool {
    forall|k: int| #![trigger a[k]] 0 <= k < a.len() ==> has_path(b, a[k])
}

/// Where the components of `a[k]` are among `b`.
proof fn lemma_among_at(a: Seq<PathBuf>, b: Seq<PathBuf>, k: int) -> (m: int)
    requires
        paths_among(a, b),
        0 <= k < a.len(),
    ensures
        0 <= m < b.len(),
        same_path(b[m], a[k]),
{
    reveal(paths_among);
    assert(has_path(b, a[k]));
    choose|m: int| #![trigger b[m]] 0 <= m < b.len() && same_path(b[m], a[k])
}

/// Each file has the components of a path that was found, and those are among the files.
proof fn lemma_files_among(
    found_a: Seq<PathBuf>,
    a: Seq<PathBuf>,
    found_b: Seq<PathBuf>,
    b: Seq<PathBuf>,
)
    requires
        in_order_once(found_a, a),
        in_order_once(found_b, b),
        paths_among(found_a, found_b),
    ensures
        paths_among(a, b),
{
    assert forall|i: int| #![trigger a[i]] 0 <= i < a.len() implies has_path(b, a[i]) by {
        assert(found_first(found_a, a[i]));
        let k = choose|k: int| first_at(found_a, k, a[i]);
        let m = lemma_among_at(found_a, found_b, k);
        assert(has_path(b, found_b[m]));
        let j = choose|j: int| #![trigger b[j]] 0 <= j < b.len() && same_path(b[j], found_b[m]);
        assert(same_path(b[j], a[i]));
    }
    reveal(paths_among);
}

/// No file has the components of one that it comes before.
proof fn lemma_in_order_apart(files: Seq<PathBuf>, i: int, j: int)
    requires
        in_order(files),
        0 <= i < j < files.len(),
    ensures
        !same_path(files[i], files[j]),
{
    assert(comes_before(files[i], files[j]));
    crate::paths::law_path_order_total(
        crate::paths::components_of(files[i]),
        crate::paths::components_of(files[j]),
    );
}

/// Where `a[i]` is at `m` among `b`, and `b[i]` at `k` among `a`, at or behind `i`, they are the
/// same path.
#[verifier::spinoff_prover]
proof fn lemma_same_at(a: Seq<PathBuf>, b: Seq<PathBuf>, i: int, m: int, k: int)
    requires
        in_order(a),
        in_order(b),
        0 <= i < a.len(),
        i < b.len(),
        i <= m < b.len(),
        i <= k < a.len(),
        same_path(b[m], a[i]),
        same_path(a[k], b[i]),
    ensures
        same_path(a[i], b[i]),
{
    if m > i && k > i {
        assert(comes_before(b[i], b[m]));
        assert(comes_before(a[i], a[k]));
        crate::paths::law_path_order_total(
            crate::paths::components_of(a[i]),
            crate::paths::components_of(b[i]),
        );
    }
}

/// Files in order that lead to the same places lead to them in the same order, up to `n`.
#[verifier::spinoff_prover]
proof fn lemma_same_up_to(a: Seq<PathBuf>, b: Seq<PathBuf>, n: int)
    requires
        in_order(a),
        in_order(b),
        paths_among(a, b),
        paths_among(b, a),
        0 <= n <= a.len(),
        n <= b.len(),
    ensures
        forall|i: int| #![trigger a[i]] 0 <= i < n ==> same_path(a[i], b[i]),
    decreases n,
{
    if n > 0 {
        let i = n - 1;
        lemma_same_up_to(a, b, i);
        let m = lemma_among_at(a, b, i);
        let k = lemma_among_at(b, a, i);
        if m < i {
            assert(same_path(a[m], b[m]));
            lemma_in_order_apart(a, m, i);
        } else if k < i {
            assert(same_path(a[k], b[k]));
            lemma_in_order_apart(b, k, i);
        } else {
            lemma_same_at(a, b, i, m, k);
        }
    }
}

/// Files in order that lead to the same places are as many.
proof fn lemma_not_longer(a: Seq<PathBuf>, b: Seq<PathBuf>)
    requires
        in_order(a),
        in_order(b),
        paths_among(a, b),
        paths_among(b, a),
    ensures
        b.len() <= a.len(),
{
    if b.len() > a.len() {
        let n = a.len() as int;
        lemma_same_up_to(a, b, n);
        let k = lemma_among_at(b, a, n);
        assert(same_path(a[k], b[k]));
        lemma_in_order_apart(b, k, n);
    }
}

/// In which order, how often and under which spelling files are found does not matter: the files
/// that are read lead to the same places in the same order.
pub proof fn law_order_of_finding_is_irrelevant(
    found_a: Seq<PathBuf>,
    a: Seq<PathBuf>,
    found_b: Seq<PathBuf>,
    b: Seq<PathBuf>,
)
    requires
        in_order_once(found_a, a),
        in_order_once(found_b, b),
        paths_among(found_a, found_b),
        paths_among(found_b, found_a),
    ensures
        a.len() == b.len(),
        forall|i: int| #![trigger a[i]] 0 <= i < a.len() ==> same_path(a[i], b[i]),
{
    lemma_files_among(found_a, a, found_b, b);
    lemma_files_among(found_b, b, found_a, a);
    lemma_not_longer(a, b);
    lemma_not_longer(b, a);
    lemma_same_up_to(a, b, a.len() as int);
}

/// What is found determines the files that are read, down to the spelling of their paths.
pub proof fn law_found_determines_files(
    found: Seq<PathBuf>,
    a: Seq<PathBuf>,
    b: Seq<PathBuf>,
)
    requires
        in_order_once(found, a),
        in_order_once(found, b),
    ensures
        a == b,
{
    assert forall|k: int| #![trigger found[k]] 0 <= k < found.len() implies has_path(
        found,
        found[k],
    ) by {
        assert(same_path(found[k], found[k]));
    }
    assert(paths_among(found, found)) by {
        reveal(paths_among);
    }
    law_order_of_finding_is_irrelevant(found, a, found, b);
    assert forall|i: int| 0 <= i < a.len() implies a[i] == b[i] by {
        assert(same_path(a[i], b[i]));
        assert(found_first(found, a[i]) && found_first(found, b[i]));
        let k = choose|k: int| first_at(found, k, a[i]);
        let m = choose|m: int| first_at(found, m, b[i]);
        if k < m {
            assert(!same_path(found[k], b[i]));
        } else if m < k {
            assert(!same_path(found[m], a[i]));
        }
    }
    assert(a =~= b);
}

/// What is found is what some input stands for.
proof fn lemma_gathered_contains(inputs: Seq<Found>, recursive: bool, path: PathBuf)
    requires
        gathered(inputs, recursive) is Ok,
    ensures
        gathered(inputs, recursive)->Ok_0.contains(path) <==> exists|i: int|
            #![trigger inputs[i]]
            0 <= i < inputs.len() && wavs_of(inputs[i], recursive).contains(path),
    decreases inputs.len(),
{
    if inputs.len() > 0 {
        let rest = inputs.drop_last();
        let last = inputs.last();
        lemma_gathered_contains(rest, recursive, path);
        let before = gathered(rest, recursive)->Ok_0;
        let here = wavs_of(last, recursive);
        let all = before + here;
        if before.contains(path) {
            let k = choose|k: int| 0 <= k < before.len() && before[k] == path;
            assert(all[k] == path);
            let i = choose|i: int|
                #![trigger rest[i]]
                0 <= i < rest.len() && wavs_of(rest[i], recursive).contains(path);
            assert(inputs[i] == rest[i]);
        }
        if here.contains(path) {
            let k = choose|k: int| 0 <= k < here.len() && here[k] == path;
            assert(all[before.len() + k] == path);
            assert(inputs[inputs.len() - 1] == last);
        }
        if all.contains(path) {
            let k = choose|k: int| 0 <= k < all.len() && all[k] == path;
            if k < before.len() {
                assert(before[k] == path);
            } else {
                assert(here[k - before.len()] == path);
            }
        }
        if exists|i: int|
            #![trigger inputs[i]]
            0 <= i < inputs.len() && wavs_of(inputs[i], recursive).contains(path) {
            let i = choose|i: int|
                #![trigger inputs[i]]
                0 <= i < inputs.len() && wavs_of(inputs[i], recursive).contains(path);
            if i < rest.len() {
                assert(rest[i] == inputs[i]);
            }
        }
    }
}

/// Inputs are refused only for one that cannot be read.
pub proof fn law_readable_inputs_are_accepted(inputs: Seq<Found>, recursive: bool)
    ensures
        gathered(inputs, recursive) is Ok <==> forall|i: int|
            #![trigger inputs[i]]
            0 <= i < inputs.len() ==> input_fault(inputs[i], i) is None,
    decreases inputs.len(),
{
    if inputs.len() > 0 {
        let rest = inputs.drop_last();
        law_readable_inputs_are_accepted(rest, recursive);
        assert forall|i: int| #![trigger rest[i]] 0 <= i < rest.len() implies rest[i]
            == inputs[i] by {}
        if gathered(rest, recursive) is Ok && input_fault(inputs.last(), inputs.len() - 1) is None {
            assert forall|i: int| #![trigger inputs[i]] 0 <= i < inputs.len() implies input_fault(
                inputs[i],
                i,
            ) is None by {
                if i < rest.len() {
                    assert(rest[i] == inputs[i]);
                }
            }
        } else if gathered(rest, recursive) is Err {
            let i = choose|i: int|
                #![trigger rest[i]]
                0 <= i < rest.len() && input_fault(rest[i], i) is Some;
            assert(inputs[i] == rest[i]);
        } else {
            assert(inputs[inputs.len() - 1] == inputs.last());
        }
    }
}

/// Whether every input in `a` is also in `b`.
pub open spec fn inputs_among(a: Seq<Found>, b: Seq<Found>) -> bool {
    forall|i: int| #![trigger a[i]] 0 <= i < a.len() ==> b.contains(a[i])
}

proof fn lemma_gathered_among(a: Seq<Found>, b: Seq<Found>, recursive: bool)
    requires
        gathered(a, recursive) is Ok,
        gathered(b, recursive) is Ok,
        inputs_among(a, b),
    ensures
        paths_among(gathered(a, recursive)->Ok_0, gathered(b, recursive)->Ok_0),
{
    let found_a = gathered(a, recursive)->Ok_0;
    let found_b = gathered(b, recursive)->Ok_0;
    assert forall|k: int| #![trigger found_a[k]] 0 <= k < found_a.len() implies has_path(
        found_b,
        found_a[k],
    ) by {
        let path = found_a[k];
        assert(found_a.contains(path));
        lemma_gathered_contains(a, recursive, path);
        let i = choose|i: int|
            #![trigger a[i]]
            0 <= i < a.len() && wavs_of(a[i], recursive).contains(path);
        assert(b.contains(a[i]));
        let j = choose|j: int| 0 <= j < b.len() && b[j] == a[i];
        assert(wavs_of(b[j], recursive).contains(path));
        lemma_gathered_contains(b, recursive, path);
        let m = choose|m: int| 0 <= m < found_b.len() && found_b[m] == path;
        assert(same_path(found_b[m], path));
    }
    reveal(paths_among);
}

/// In which order and how often inputs are given does not matter: the files that are read lead to
/// the same places in the same order.
pub proof fn law_order_of_inputs_is_irrelevant(
    inputs_a: Seq<Found>,
    a: Seq<PathBuf>,
    inputs_b: Seq<Found>,
    b: Seq<PathBuf>,
    recursive: bool,
)
    requires
        gathered(inputs_a, recursive) is Ok,
        gathered(inputs_b, recursive) is Ok,
        in_order_once(gathered(inputs_a, recursive)->Ok_0, a),
        in_order_once(gathered(inputs_b, recursive)->Ok_0, b),
        inputs_among(inputs_a, inputs_b),
        inputs_among(inputs_b, inputs_a),
    ensures
        a.len() == b.len(),
        forall|i: int| #![trigger a[i]] 0 <= i < a.len() ==> same_path(a[i], b[i]),
{
    lemma_gathered_among(inputs_a, inputs_b, recursive);
    lemma_gathered_among(inputs_b, inputs_a, recursive);
    law_order_of_finding_is_irrelevant(
        gathered(inputs_a, recursive)->Ok_0,
        a,
        gathered(inputs_b, recursive)->Ok_0,
        b,
    );
}

proof fn lemma_wavs_in_are_wavs(entries: Seq<Found>, recursive: bool)
    ensures
        forall|k: int|
            #![trigger wavs_in(entries, recursive)[k]]
            0 <= k < wavs_in(entries, recursive).len() ==> path_is_wav(
                wavs_in(entries, recursive)[k],
            ),
    decreases entries,
{
    if entries.len() > 0 {
        let before = wavs_in(entries.drop_last(), recursive);
        let all = wavs_in(entries, recursive);
        lemma_wavs_in_are_wavs(entries.drop_last(), recursive);
        if let Found::Directory(inner) = entries.last() {
            if recursive {
                lemma_wavs_in_are_wavs(inner@, recursive);
            }
        }
        assert forall|k: int| #![trigger all[k]] 0 <= k < all.len() implies path_is_wav(all[k]) by {
            if k < before.len() {
                assert(all[k] == before[k]);
            } else if let Found::Directory(inner) = entries.last() {
                assert(all[k] == wavs_in(inner@, recursive)[k - before.len()]);
            }
        }
    }
}

/// Every file that is found is a WAV file.
pub proof fn law_only_wavs_are_found(inputs: Seq<Found>, recursive: bool)
    requires
        gathered(inputs, recursive) is Ok,
    ensures
        forall|k: int|
            #![trigger gathered(inputs, recursive)->Ok_0[k]]
            0 <= k < gathered(inputs, recursive)->Ok_0.len() ==> path_is_wav(
                gathered(inputs, recursive)->Ok_0[k],
            ),
    decreases inputs.len(),
{
    if inputs.len() > 0 {
        law_only_wavs_are_found(inputs.drop_last(), recursive);
        if let Found::Directory(entries) = inputs.last() {
            lemma_wavs_in_are_wavs(entries@, recursive);
        }
    }
}

/// A recursive scan of a directory finds all that a plain one finds.
pub proof fn law_recursive_scan_finds_more(entries: Seq<Found>, path: PathBuf)
    requires
        wavs_in(entries, false).contains(path),
    ensures
        wavs_in(entries, true).contains(path),
    decreases entries.len(),
{
    let rest = entries.drop_last();
    let plain = wavs_in(rest, false);
    let deep = wavs_in(rest, true);
    let k = choose|k: int|
        0 <= k < wavs_in(entries, false).len() && wavs_in(entries, false)[k] == path;
    if k < plain.len() {
        assert(plain[k] == path);
        law_recursive_scan_finds_more(rest, path);
        let m = choose|m: int| 0 <= m < deep.len() && deep[m] == path;
        assert(wavs_in(entries, true)[m] == path);
    } else {
        assert(wavs_in(entries, true)[deep.len() as int] == path);
    }
}

/// Inputs that are each a file at one of `paths`.
pub open spec fn as_files(paths: Seq<PathBuf>) -> Seq<Found> {
    paths.map_values(|path: PathBuf| Found::File(path))
}

/// Passing a directory is passing the WAV files that a scan of it finds, one by one.
pub proof fn law_directory_stands_for_its_wavs(entries: Vec<Found>, recursive: bool)
    ensures
        gathered(seq![Found::Directory(entries)], recursive) == gathered(
            as_files(wavs_in(entries@, recursive)),
            recursive,
        ),
        gathered(seq![Found::Directory(entries)], recursive) == Ok::<Seq<PathBuf>, ExtractError>(
            wavs_in(entries@, recursive),
        ),
{
    let wavs = wavs_in(entries@, recursive);
    let one = seq![Found::Directory(entries)];
    assert(one.drop_last() =~= Seq::empty());
    assert(gathered(one.drop_last(), recursive) == Ok::<Seq<PathBuf>, ExtractError>(Seq::empty()));
    assert(Seq::<PathBuf>::empty() + wavs =~= wavs);
    lemma_wavs_in_are_wavs(entries@, recursive);
    assert forall|k: int| #![trigger wavs[k]] 0 <= k < wavs.len() implies path_is_wav(wavs[k]) by {}
    lemma_gathered_files(wavs, recursive);
}

proof fn lemma_gathered_files(wavs: Seq<PathBuf>, recursive: bool)
    requires
        forall|k: int| #![trigger wavs[k]] 0 <= k < wavs.len() ==> path_is_wav(wavs[k]),
    ensures
        gathered(as_files(wavs), recursive) == Ok::<Seq<PathBuf>, ExtractError>(wavs),
    decreases wavs.len(),
{
    if wavs.len() == 0 {
        assert(wavs =~= Seq::empty());
    } else {
        let rest = wavs.drop_last();
        assert forall|k: int| #![trigger rest[k]] 0 <= k < rest.len() implies path_is_wav(
            rest[k],
        ) by {
            assert(rest[k] == wavs[k]);
        }
        lemma_gathered_files(rest, recursive);
        assert(as_files(wavs).drop_last() =~= as_files(rest));
        assert(wavs[wavs.len() - 1] == wavs.last());
        assert(as_files(wavs).last() == Found::File(wavs.last()));
        assert(rest + seq![wavs.last()] =~= wavs);
    }
}

/// The files that are read come in the order of their paths, none with the components of another.
pub proof fn law_files_in_order(found: Seq<PathBuf>, files: Seq<PathBuf>, i: int, j: int)
    requires
        in_order_once(found, files),
        0 <= i < j < files.len(),
    ensures
        crate::paths::path_order(
            crate::paths::components_of(files[i]),
            crate::paths::components_of(files[j]),
        ) < 0,
        crate::paths::components_of(files[i]) != crate::paths::components_of(files[j]),
{
    assert(comes_before(files[i], files[j]));
    lemma_in_order_apart(files, i, j);
}

/// Each file that is read was found, before all others with its components.
pub proof fn law_file_was_found_first(found: Seq<PathBuf>, files: Seq<PathBuf>, i: int) -> (k: int)
    requires
        in_order_once(found, files),
        0 <= i < files.len(),
    ensures
        0 <= k < found.len(),
        found[k] == files[i],
        forall|m: int|
            #![trigger found[m]]
            0 <= m < k ==> crate::paths::components_of(found[m]) != crate::paths::components_of(
                files[i],
            ),
{
    assert(found_first(found, files[i]));
    choose|k: int| first_at(found, k, files[i])
}

/// No file that was found is missing: one with its components is read.
pub proof fn law_no_file_is_missing(found: Seq<PathBuf>, files: Seq<PathBuf>, k: int) -> (i: int)
    requires
        in_order_once(found, files),
        0 <= k < found.len(),
    ensures
        0 <= i < files.len(),
        crate::paths::components_of(files[i]) == crate::paths::components_of(found[k]),
{
    assert(has_path(files, found[k]));
    choose|i: int| #![trigger files[i]] 0 <= i < files.len() && same_path(files[i], found[k])
}

/// What a scan finds in a group of entries and what it finds in the rest follow each other.
pub proof fn law_scan_goes_entry_by_entry(a: Seq<Found>, b: Seq<Found>, recursive: bool)
    ensures
        wavs_in(a + b, recursive) == wavs_in(a, recursive) + wavs_in(b, recursive),
        a.len() == 0 ==> wavs_in(a, recursive).len() == 0,
    decreases b.len(),
{
    if b.len() == 0 {
        assert(a + b =~= a);
        assert(wavs_in(a, recursive) + wavs_in(b, recursive) =~= wavs_in(a, recursive));
    } else {
        let rest = b.drop_last();
        assert((a + b).drop_last() =~= a + rest);
        law_scan_goes_entry_by_entry(a, rest, recursive);
        assert((a + b).last() == b.last());
        assert(wavs_in(a + b, recursive) =~= wavs_in(a, recursive) + wavs_in(b, recursive));
    }
}

/// A scan of one entry finds a file where that is a WAV file, and what stands in a directory
/// exactly where the scan is recursive: then all that a recursive scan of that directory finds.
pub proof fn law_scan_of_one_entry(path: PathBuf, inner: Vec<Found>, recursive: bool)
    ensures
        crate::paths::is_wav(crate::paths::components_of(path)) ==> wavs_in(
            seq![Found::File(path)],
            recursive,
        ) == seq![path],
        !crate::paths::is_wav(crate::paths::components_of(path)) ==> wavs_in(
            seq![Found::File(path)],
            recursive,
        ).len() == 0,
        wavs_in(seq![Found::Directory(inner)], true) == wavs_in(inner@, true),
        wavs_in(seq![Found::Directory(inner)], false).len() == 0,
        wavs_in(seq![Found::Other], recursive).len() == 0,
{
    let file = seq![Found::File(path)];
    let directory = seq![Found::Directory(inner)];
    let other = seq![Found::Other];
    assert(file.drop_last() =~= Seq::empty() && directory.drop_last() =~= Seq::empty()
        && other.drop_last() =~= Seq::empty());
    assert(wavs_in(Seq::empty(), recursive) =~= Seq::empty() && wavs_in(Seq::empty(), true)
        =~= Seq::empty() && wavs_in(Seq::empty(), false) =~= Seq::empty());
    assert(Seq::<PathBuf>::empty() + seq![path] =~= seq![path]);
    assert(Seq::<PathBuf>::empty() + Seq::<PathBuf>::empty() =~= Seq::<PathBuf>::empty());
    assert(Seq::<PathBuf>::empty() + wavs_in(inner@, true) =~= wavs_in(inner@, true));
}

/// Whether `path` is a WAV file that stands among `entries`, or within `depth` folders below them.
pub open spec fn stands_below(entries: Seq<Found>, path: PathBuf, depth: nat) -> bool
    decreases depth,
{
    exists|i: int|
        #![trigger entries[i]]
        0 <= i < entries.len() && match entries[i] {
            Found::File(file) => file == path && crate::paths::is_wav(
                crate::paths::components_of(path),
            ),
            Found::Directory(inner) => depth > 0 && stands_below(
                inner@,
                path,
                (depth - 1) as nat,
            ),
            Found::Other => false,
        }
}

/// The entry at which `path` stands.
proof fn lemma_stands_at(entries: Seq<Found>, path: PathBuf, depth: nat) -> (i: int)
    requires
        stands_below(entries, path, depth),
    ensures
        0 <= i < entries.len(),
        match entries[i] {
            Found::File(file) => file == path && crate::paths::is_wav(
                crate::paths::components_of(path),
            ),
            Found::Directory(inner) => depth > 0 && stands_below(
                inner@,
                path,
                (depth - 1) as nat,
            ),
            Found::Other => false,
        },
{
    choose|i: int|
        #![trigger entries[i]]
        0 <= i < entries.len() && match entries[i] {
            Found::File(file) => file == path && crate::paths::is_wav(
                crate::paths::components_of(path),
            ),
            Found::Directory(inner) => depth > 0 && stands_below(
                inner@,
                path,
                (depth - 1) as nat,
            ),
            Found::Other => false,
        }
}

/// Where a scan finds a path among its entries.
proof fn lemma_scan_finds(entries: Seq<Found>, i: int, recursive: bool, path: PathBuf)
    requires
        0 <= i < entries.len(),
        wavs_in(seq![entries[i]], recursive).contains(path),
    ensures
        wavs_in(entries, recursive).contains(path),
{
    let a = entries.take(i);
    let b = seq![entries[i]];
    let c = entries.skip(i + 1);
    assert(entries =~= (a + b) + c);
    law_scan_goes_entry_by_entry(a + b, c, recursive);
    law_scan_goes_entry_by_entry(a, b, recursive);
    let found = wavs_in(b, recursive);
    let k = choose|k: int| 0 <= k < found.len() && found[k] == path;
    assert(wavs_in(entries, recursive)[wavs_in(a, recursive).len() + k] == path);
}

/// A path that a scan finds is found at one of its entries.
proof fn lemma_scan_found_at(entries: Seq<Found>, recursive: bool, path: PathBuf) -> (i: int)
    requires
        wavs_in(entries, recursive).contains(path),
    ensures
        0 <= i < entries.len(),
        wavs_in(seq![entries[i]], recursive).contains(path),
    decreases entries.len(),
{
    let all = wavs_in(entries, recursive);
    if entries.len() == 0 {
        0
    } else {
        let rest = entries.drop_last();
        let last = seq![entries.last()];
        assert(entries =~= rest + last);
        law_scan_goes_entry_by_entry(rest, last, recursive);
        let before = wavs_in(rest, recursive);
        let k = choose|k: int| 0 <= k < all.len() && all[k] == path;
        if k < before.len() {
            assert(before[k] == path);
            let i = lemma_scan_found_at(rest, recursive, path);
            assert(rest[i] == entries[i]);
            i
        } else {
            assert(wavs_in(last, recursive)[k - before.len()] == path);
            entries.len() - 1
        }
    }
}

/// A scan that is not recursive finds exactly the WAV files among the entries themselves.
pub proof fn law_plain_scan(entries: Seq<Found>, path: PathBuf)
    ensures
        wavs_in(entries, false).contains(path) <==> stands_below(entries, path, 0),
{
    if wavs_in(entries, false).contains(path) {
        let i = lemma_scan_found_at(entries, false, path);
        lemma_entry_found(entries[i], false, path);
    }
    if stands_below(entries, path, 0) {
        let i = lemma_stands_at(entries, path, 0);
        lemma_entry_found(entries[i], false, path);
        lemma_scan_finds(entries, i, false, path);
    }
}

/// What one entry holds is found there.
proof fn lemma_entry_found(entry: Found, recursive: bool, path: PathBuf)
    ensures
        wavs_in(seq![entry], recursive).contains(path) <==> match entry {
            Found::File(file) => file == path && crate::paths::is_wav(
                crate::paths::components_of(path),
            ),
            Found::Directory(inner) => recursive && wavs_in(inner@, true).contains(path),
            Found::Other => false,
        },
{
    match entry {
        Found::File(file) => {
            law_scan_of_one_entry(file, vstd::pervasive::arbitrary(), recursive);
            if path_is_wav(file) {
                assert(seq![file][0] == file);
                assert(seq![file].contains(file));
            }
        },
        Found::Directory(inner) => {
            law_scan_of_one_entry(vstd::pervasive::arbitrary(), inner, recursive);
        },
        Found::Other => {
            law_scan_of_one_entry(
                vstd::pervasive::arbitrary(),
                vstd::pervasive::arbitrary(),
                recursive,
            );
        },
    }
}

/// Whatever stands within `depth` folders below the entries is found by a recursive scan.
pub proof fn law_recursive_scan_finds_all(entries: Seq<Found>, path: PathBuf, depth: nat)
    requires
        stands_below(entries, path, depth),
    ensures
        wavs_in(entries, true).contains(path),
    decreases depth,
{
    let i = lemma_stands_at(entries, path, depth);
    if let Found::Directory(inner) = entries[i] {
        law_recursive_scan_finds_all(inner@, path, (depth - 1) as nat);
    }
    lemma_entry_found(entries[i], true, path);
    lemma_scan_finds(entries, i, true, path);
}

/// Whatever a recursive scan finds is a WAV file that stands at some depth below the entries.
pub proof fn law_recursive_scan_finds_only(entries: Seq<Found>, path: PathBuf) -> (depth: nat)
    requires
        wavs_in(entries, true).contains(path),
    ensures
        stands_below(entries, path, depth),
    decreases entries,
{
    let i = lemma_scan_found_at(entries, true, path);
    lemma_entry_found(entries[i], true, path);
    match entries[i] {
        Found::Directory(inner) => {
            let below = law_recursive_scan_finds_only(inner@, path);
            assert(stands_below(entries, path, below + 1));
            below + 1
        },
        _ => {
            assert(stands_below(entries, path, 0));
            0
        },
    }
}

/// The inputs are accepted exactly where each is a directory or a WAV file.
pub proof fn law_accepted_inputs(inputs: Seq<Found>, recursive: bool)
    ensures
        gathered(inputs, recursive) is Ok <==> forall|i: int|
            #![trigger inputs[i]]
            0 <= i < inputs.len() ==> match inputs[i] {
                Found::File(path) => crate::paths::is_wav(crate::paths::components_of(path)),
                Found::Directory(_) => true,
                Found::Other => false,
            },
{
    law_readable_inputs_are_accepted(inputs, recursive);
    if gathered(inputs, recursive) is Ok {
        assert forall|i: int| #![trigger inputs[i]] 0 <= i < inputs.len() implies match inputs[i] {
            Found::File(path) => crate::paths::is_wav(crate::paths::components_of(path)),
            Found::Directory(_) => true,
            Found::Other => false,
        } by {
            assert(input_fault(inputs[i], i) is None);
        }
    } else {
        let i = choose|i: int|
            #![trigger inputs[i]]
            0 <= i < inputs.len() && input_fault(inputs[i], i) is Some;
        assert(match inputs[i] {
            Found::File(path) => !crate::paths::is_wav(crate::paths::components_of(path)),
            Found::Directory(_) => false,
            Found::Other => true,
        });
    }
}

/// The first input that is neither a directory nor a WAV file is named, whatever follows it.
pub proof fn law_first_refused_input_is_named(inputs: Seq<Found>, recursive: bool, i: int)
    requires
        0 <= i < inputs.len() <= usize::MAX,
        gathered(inputs.take(i), recursive) is Ok,
    ensures
        inputs[i] is Other ==> gathered(inputs, recursive) == Err::<Seq<PathBuf>, ExtractError>(
            ExtractError::MissingInput(i as usize),
        ),
        inputs[i] matches Found::File(path) ==> !crate::paths::is_wav(
            crate::paths::components_of(path),
        ) ==> gathered(inputs, recursive) == Err::<Seq<PathBuf>, ExtractError>(
            ExtractError::NotWav(i as usize),
        ),
{
    let start = inputs.take(i + 1);
    assert(start.drop_last() =~= inputs.take(i));
    assert(start.last() == inputs[i]);
    if input_fault(inputs[i], i) is Some {
        lemma_gathered_fails(inputs, recursive, i + 1);
    }
}

/// What the inputs stand for is found in their order: a file input is that file, and a directory
/// is what a scan of it finds.
pub proof fn law_inputs_stand_for_files(inputs: Seq<Found>, last: Found, recursive: bool)
    requires
        gathered(inputs.push(last), recursive) is Ok,
    ensures
        gathered(Seq::empty(), recursive) == Ok::<Seq<PathBuf>, ExtractError>(Seq::empty()),
        gathered(inputs, recursive) is Ok,
        match last {
            Found::File(path) => gathered(inputs.push(last), recursive)->Ok_0 == gathered(
                inputs,
                recursive,
            )->Ok_0.push(path),
            Found::Directory(entries) => gathered(inputs.push(last), recursive)->Ok_0 == gathered(
                inputs,
                recursive,
            )->Ok_0 + wavs_in(entries@, recursive),
            Found::Other => false,
        },
{
    assert(inputs.push(last).drop_last() =~= inputs);
    let before = gathered(inputs, recursive)->Ok_0;
    if let Found::File(path) = last {
        assert(before + seq![path] =~= before.push(path));
    }
}

} // verus!
