//! Paths, and how they compare.
use vstd::prelude::*;

use std::path::Component::{CurDir, Normal, ParentDir, RootDir};
use std::path::Prefix::{DeviceNS, Disk, Verbatim, VerbatimDisk, VerbatimUNC, UNC};
use std::path::{Component, PathBuf};

verus! {

/// `std::path::PathBuf`, a path of the platform. What it holds is given by [`components_of`].
#[verifier::external_type_specification]
#[verifier::external_body]
pub struct ExPathBuf(PathBuf);

/// A prefix that only some platforms put before a path. The text `T` of a name is its bytes.
#[derive(Debug, PartialEq, Eq)]
pub enum PathPrefix<T> {
    /// A name that is taken as it is.
    Verbatim(T),
    /// A server and a share, taken as they are.
    VerbatimUNC(T, T),
    /// A drive, before a path that is taken as it is.
    VerbatimDisk(u8),
    /// A device.
    DeviceNS(T),
    /// A server and a share.
    UNC(T, T),
    /// A drive.
    Disk(u8),
}

/// One component of a path. The text `T` of a component is its bytes.
#[derive(Debug, PartialEq, Eq)]
pub enum PathPart<T> {
    /// A prefix that only some platforms have, such as a drive.
    Prefix(PathPrefix<T>),
    /// The root directory.
    RootDir,
    /// The current directory.
    CurDir,
    /// The directory above.
    ParentDir,
    /// A name.
    Normal(T),
}

impl<T: View<V = Seq<u8>>> View for PathPrefix<T> {
    type V = PathPrefix<Seq<u8>>;

    open spec fn view(&self) -> PathPrefix<Seq<u8>> {
        match self {
            PathPrefix::Verbatim(a) => PathPrefix::Verbatim(a@),
            PathPrefix::VerbatimUNC(a, b) => PathPrefix::VerbatimUNC(a@, b@),
            PathPrefix::VerbatimDisk(d) => PathPrefix::VerbatimDisk(*d),
            PathPrefix::DeviceNS(a) => PathPrefix::DeviceNS(a@),
            PathPrefix::UNC(a, b) => PathPrefix::UNC(a@, b@),
            PathPrefix::Disk(d) => PathPrefix::Disk(*d),
        }
    }
}

impl<T: View<V = Seq<u8>>> View for PathPart<T> {
    type V = PathPart<Seq<u8>>;

    open spec fn view(&self) -> PathPart<Seq<u8>> {
        match self {
            PathPart::Prefix(prefix) => PathPart::Prefix(prefix@),
            PathPart::RootDir => PathPart::RootDir,
            PathPart::CurDir => PathPart::CurDir,
            PathPart::ParentDir => PathPart::ParentDir,
            PathPart::Normal(text) => PathPart::Normal(text@),
        }
    }
}

/// The components that a path holds, in order.
pub uninterp spec fn components_of(path: PathBuf) -> Seq<PathPart<Seq<u8>>>;

/// Components as mathematical values.
pub open spec fn part_views<T: View<V = Seq<u8>>>(parts: Seq<PathPart<T>>) -> Seq<
    PathPart<Seq<u8>>,
> {
    parts.map_values(|part: PathPart<T>| part@)
}

/// Calls `std::path::Path::components`: what it hands out, one after the other, is what the path
/// holds. Each component is turned into a [`PathPart`] of the same kind, a prefix into the kind of
/// prefix that it is parsed as, and texts into their bytes.
#[verifier::external_body]
fn borrowed_parts<'a>(path: &'a PathBuf) -> (parts: Vec<PathPart<&'a [u8]>>)
    ensures
        part_views(parts@) == components_of(*path),
{
    path.components().map(|part| match part {
        Component::Prefix(p) => PathPart::Prefix(match p.kind() {
            Verbatim(a) => PathPrefix::Verbatim(a.as_encoded_bytes()),
            VerbatimUNC(a, b) => PathPrefix::VerbatimUNC(a.as_encoded_bytes(), b.as_encoded_bytes()),
            VerbatimDisk(d) => PathPrefix::VerbatimDisk(d),
            DeviceNS(a) => PathPrefix::DeviceNS(a.as_encoded_bytes()),
            UNC(a, b) => PathPrefix::UNC(a.as_encoded_bytes(), b.as_encoded_bytes()),
            Disk(d) => PathPrefix::Disk(d),
        }),
        RootDir => PathPart::RootDir,
        CurDir => PathPart::CurDir,
        ParentDir => PathPart::ParentDir,
        Normal(text) => PathPart::Normal(text.as_encoded_bytes()),
    }).collect()
}

/// A component with a copy of its text.
fn owned_part(part: &PathPart<&[u8]>) -> (owned: PathPart<Vec<u8>>)
    ensures
        owned@ == part@,
{
    match part {
        PathPart::Prefix(prefix) => PathPart::Prefix(
            match prefix {
                PathPrefix::Verbatim(a) => PathPrefix::Verbatim(vstd::slice::slice_to_vec(a)),
                PathPrefix::VerbatimUNC(a, b) => PathPrefix::VerbatimUNC(
                    vstd::slice::slice_to_vec(a),
                    vstd::slice::slice_to_vec(b),
                ),
                PathPrefix::VerbatimDisk(d) => PathPrefix::VerbatimDisk(*d),
                PathPrefix::DeviceNS(a) => PathPrefix::DeviceNS(vstd::slice::slice_to_vec(a)),
                PathPrefix::UNC(a, b) => PathPrefix::UNC(
                    vstd::slice::slice_to_vec(a),
                    vstd::slice::slice_to_vec(b),
                ),
                PathPrefix::Disk(d) => PathPrefix::Disk(*d),
            },
        ),
        PathPart::RootDir => PathPart::RootDir,
        PathPart::CurDir => PathPart::CurDir,
        PathPart::ParentDir => PathPart::ParentDir,
        PathPart::Normal(text) => PathPart::Normal(vstd::slice::slice_to_vec(text)),
    }
}

/// The components of a path.
pub fn path_parts(path: &PathBuf) -> (parts: Vec<PathPart<Vec<u8>>>)
    ensures
        part_views(parts@) == components_of(*path),
{
    let borrowed = borrowed_parts(path);
    let mut parts: Vec<PathPart<Vec<u8>>> = Vec::new();
    for i in 0..borrowed.len()
        invariant
            parts@.len() == i,
            forall|k: int| #![trigger parts@[k]] 0 <= k < i ==> parts@[k]@ == borrowed@[k]@,
    {
        parts.push(owned_part(&borrowed[i]));
    }
    assert(part_views(parts@) =~= part_views(borrowed@));
    parts
}

/// The name of what a path leads to: its last component, where that is a name.
pub open spec fn file_name(parts: Seq<PathPart<Seq<u8>>>) -> Option<Seq<u8>> {
    if parts.len() > 0 {
        match parts.last() {
            PathPart::Normal(text) => Some(text),
            _ => None,
        }
    } else {
        None
    }
}

/// What stands behind the last dot of `name` at or before `i`. A dot that starts the name does
/// not count.
pub open spec fn extension_from(name: Seq<u8>, i: int) -> Option<Seq<u8>>
    decreases i,
{
    if i <= 0 {
        None
    } else if name[i] == 0x2e {
        Some(name.skip(i + 1))
    } else {
        extension_from(name, i - 1)
    }
}

/// The extension of a file name: what stands behind its last dot, unless that dot starts it.
pub open spec fn extension(name: Seq<u8>) -> Option<Seq<u8>> {
    extension_from(name, name.len() - 1)
}

/// An ASCII letter in lower case; any other byte as it is.
pub open spec fn lower(b: u8) -> u8 {
    if 0x41 <= b <= 0x5a {
        (b + 0x20) as u8
    } else {
        b
    }
}

/// Whether `text` is `wav`, in any mix of cases.
pub open spec fn spells_wav(text: Seq<u8>) -> bool {
    text.len() == 3 && lower(text[0]) == 0x77 && lower(text[1]) == 0x61 && lower(text[2]) == 0x76
}

/// Whether a path leads to something whose name has the extension `wav`, in any mix of cases.
pub open spec fn is_wav(parts: Seq<PathPart<Seq<u8>>>) -> bool {
    match file_name(parts) {
        Some(name) => match extension(name) {
            Some(text) => spells_wav(text),
            None => false,
        },
        None => false,
    }
}

/// Computes [`lower`].
fn to_lower(b: u8) -> (l: u8)
    ensures
        l == lower(b),
{
    if 0x41 <= b && b <= 0x5a {
        b + 0x20
    } else {
        b
    }
}

/// Whether the extension of `name` is `wav`, in any mix of cases.
fn has_wav_extension(name: &Vec<u8>) -> (has: bool)
    ensures
        has == (match extension(name@) {
            Some(text) => spells_wav(text),
            None => false,
        }),
{
    let mut i: usize = name.len();
    while i > 1
        invariant
            i <= name@.len(),
            extension(name@) == extension_from(name@, i - 1),
        decreases i,
    {
        i = i - 1;
        if name[i] == 0x2e {
            return name.len() - i == 4 && to_lower(name[i + 1]) == 0x77 && to_lower(name[i + 2])
                == 0x61 && to_lower(name[i + 3]) == 0x76;
        }
    }
    false
}

/// Whether the components are those of a path to something whose name has the extension `wav`,
/// in any mix of cases.
pub fn names_wav(parts: &Vec<PathPart<Vec<u8>>>) -> (is: bool)
    ensures
        is == is_wav(part_views(parts@)),
{
    if parts.len() == 0 {
        return false;
    }
    let last = &parts[parts.len() - 1];
    assert(part_views(parts@).last() == last@);
    match last {
        PathPart::Normal(name) => has_wav_extension(name),
        _ => false,
    }
}

/// Whether `path` leads to something whose name has the extension `wav`, in any mix of cases.
pub fn is_wav_path(path: &PathBuf) -> (is: bool)
    ensures
        is == is_wav(components_of(*path)),
{
    let parts = path_parts(path);
    names_wav(&parts)
}

/// How two texts compare: -1 where `a` comes first, 1 where `b` does, 0 where they are the same.
/// The first byte in which they differ decides; a text comes before its continuations.
pub open spec fn text_order(a: Seq<u8>, b: Seq<u8>) -> int
    decreases a.len(),
{
    if a.len() == 0 || b.len() == 0 {
        if b.len() > 0 {
            -1
        } else if a.len() > 0 {
            1
        } else {
            0
        }
    } else if a[0] < b[0] {
        -1
    } else if a[0] > b[0] {
        1
    } else {
        text_order(a.drop_first(), b.drop_first())
    }
}

impl<T> PathPart<T> {
    /// The place of the kind of component among the kinds, those of prefixes first.
    pub open spec fn rank(self) -> int {
        match self {
            PathPart::Prefix(PathPrefix::Verbatim(_)) => 0,
            PathPart::Prefix(PathPrefix::VerbatimUNC(_, _)) => 1,
            PathPart::Prefix(PathPrefix::VerbatimDisk(_)) => 2,
            PathPart::Prefix(PathPrefix::DeviceNS(_)) => 3,
            PathPart::Prefix(PathPrefix::UNC(_, _)) => 4,
            PathPart::Prefix(PathPrefix::Disk(_)) => 5,
            PathPart::RootDir => 6,
            PathPart::CurDir => 7,
            PathPart::ParentDir => 8,
            PathPart::Normal(_) => 9,
        }
    }
}

/// The text of a component, or the first of its two texts. That of a drive is its letter.
pub open spec fn text_of(part: PathPart<Seq<u8>>) -> Seq<u8> {
    match part {
        PathPart::Prefix(PathPrefix::Verbatim(a)) => a,
        PathPart::Prefix(PathPrefix::VerbatimUNC(a, _)) => a,
        PathPart::Prefix(PathPrefix::VerbatimDisk(d)) => seq![d],
        PathPart::Prefix(PathPrefix::DeviceNS(a)) => a,
        PathPart::Prefix(PathPrefix::UNC(a, _)) => a,
        PathPart::Prefix(PathPrefix::Disk(d)) => seq![d],
        PathPart::Normal(text) => text,
        _ => Seq::empty(),
    }
}

/// The second text of a component, where it has two.
pub open spec fn second_text_of(part: PathPart<Seq<u8>>) -> Seq<u8> {
    match part {
        PathPart::Prefix(PathPrefix::VerbatimUNC(_, b)) => b,
        PathPart::Prefix(PathPrefix::UNC(_, b)) => b,
        _ => Seq::empty(),
    }
}

/// How two components compare: by their kind, and within a kind by their text, then by their
/// second text.
pub open spec fn part_order(a: PathPart<Seq<u8>>, b: PathPart<Seq<u8>>) -> int {
    if a.rank() < b.rank() {
        -1
    } else if a.rank() > b.rank() {
        1
    } else if text_order(text_of(a), text_of(b)) != 0 {
        text_order(text_of(a), text_of(b))
    } else {
        text_order(second_text_of(a), second_text_of(b))
    }
}

/// How two paths compare: the first component in which they differ decides; a path comes before
/// those that lead on from it.
pub open spec fn path_order(a: Seq<PathPart<Seq<u8>>>, b: Seq<PathPart<Seq<u8>>>) -> int
    decreases a.len(),
{
    if a.len() == 0 || b.len() == 0 {
        if b.len() > 0 {
            -1
        } else if a.len() > 0 {
            1
        } else {
            0
        }
    } else if part_order(a[0], b[0]) != 0 {
        part_order(a[0], b[0])
    } else {
        path_order(a.drop_first(), b.drop_first())
    }
}

/// Texts are totally ordered.
pub proof fn lemma_text_order(a: Seq<u8>, b: Seq<u8>)
    ensures
        -1 <= text_order(a, b) <= 1,
        text_order(b, a) == -text_order(a, b),
        text_order(a, b) == 0 <==> a == b,
    decreases a.len(),
{
    if a.len() > 0 && b.len() > 0 {
        lemma_text_order(a.drop_first(), b.drop_first());
        if a[0] == b[0] {
            assert(a =~= seq![a[0]] + a.drop_first());
            assert(b =~= seq![b[0]] + b.drop_first());
        }
    } else if a.len() == 0 && b.len() == 0 {
        assert(a =~= b);
    }
}

proof fn lemma_text_order_transitive(a: Seq<u8>, b: Seq<u8>, c: Seq<u8>)
    requires
        text_order(a, b) < 0,
        text_order(b, c) < 0,
    ensures
        text_order(a, c) < 0,
    decreases a.len(),
{
    if a.len() > 0 && b.len() > 0 && c.len() > 0 && a[0] == b[0] && b[0] == c[0] {
        lemma_text_order_transitive(a.drop_first(), b.drop_first(), c.drop_first());
    }
}

/// Components are totally ordered.
pub proof fn lemma_part_order(a: PathPart<Seq<u8>>, b: PathPart<Seq<u8>>)
    ensures
        -1 <= part_order(a, b) <= 1,
        part_order(b, a) == -part_order(a, b),
        part_order(a, b) == 0 <==> a == b,
{
    lemma_text_order(text_of(a), text_of(b));
    lemma_text_order(second_text_of(a), second_text_of(b));
    if part_order(a, b) == 0 {
        assert(text_of(a) == text_of(b));
        assert(second_text_of(a) == second_text_of(b));
        if let PathPart::Prefix(PathPrefix::VerbatimDisk(d)) = a {
            assert(text_of(a)[0] == d);
        } else if let PathPart::Prefix(PathPrefix::Disk(d)) = a {
            assert(text_of(a)[0] == d);
        }
    }
}

proof fn lemma_part_order_transitive(
    a: PathPart<Seq<u8>>,
    b: PathPart<Seq<u8>>,
    c: PathPart<Seq<u8>>,
)
    requires
        part_order(a, b) < 0,
        part_order(b, c) < 0,
    ensures
        part_order(a, c) < 0,
{
    if a.rank() == b.rank() && b.rank() == c.rank() {
        let (x, y, z) = (text_of(a), text_of(b), text_of(c));
        lemma_text_order(x, y);
        lemma_text_order(y, z);
        if x != y && y != z {
            lemma_text_order_transitive(x, y, z);
        } else if x == y && y == z {
            lemma_text_order_transitive(second_text_of(a), second_text_of(b), second_text_of(c));
        }
    }
}

/// Paths are totally ordered, and only a path itself compares as the same.
pub proof fn law_path_order_total(a: Seq<PathPart<Seq<u8>>>, b: Seq<PathPart<Seq<u8>>>)
    ensures
        -1 <= path_order(a, b) <= 1,
        path_order(b, a) == -path_order(a, b),
        path_order(a, b) == 0 <==> a == b,
    decreases a.len(),
{
    if a.len() > 0 && b.len() > 0 {
        lemma_part_order(a[0], b[0]);
        law_path_order_total(a.drop_first(), b.drop_first());
        if a[0] == b[0] {
            assert(a =~= seq![a[0]] + a.drop_first());
            assert(b =~= seq![b[0]] + b.drop_first());
        }
    } else if a.len() == 0 && b.len() == 0 {
        assert(a =~= b);
    }
}

/// A path that comes before another comes before all that follow the other.
pub proof fn law_path_order_transitive(
    a: Seq<PathPart<Seq<u8>>>,
    b: Seq<PathPart<Seq<u8>>>,
    c: Seq<PathPart<Seq<u8>>>,
)
    requires
        path_order(a, b) < 0,
        path_order(b, c) < 0,
    ensures
        path_order(a, c) < 0,
    decreases a.len(),
{
    if a.len() > 0 && b.len() > 0 && c.len() > 0 {
        lemma_part_order(a[0], b[0]);
        lemma_part_order(b[0], c[0]);
        lemma_part_order(a[0], c[0]);
        if a[0] == b[0] && b[0] == c[0] {
            law_path_order_transitive(a.drop_first(), b.drop_first(), c.drop_first());
        } else if a[0] != b[0] && b[0] != c[0] {
            lemma_part_order_transitive(a[0], b[0], c[0]);
        }
    }
}

/// Compares two texts.
fn compare_texts(a: &Vec<u8>, b: &Vec<u8>) -> (order: i8)
    ensures
        order == text_order(a@, b@),
{
    let mut i: usize = 0;
    assert(a@.skip(0) =~= a@ && b@.skip(0) =~= b@);
    while i < a.len() && i < b.len()
        invariant
            i <= a@.len(),
            i <= b@.len(),
            text_order(a@, b@) == text_order(a@.skip(i as int), b@.skip(i as int)),
        decreases a@.len() - i,
    {
        if a[i] < b[i] {
            return -1;
        }
        if a[i] > b[i] {
            return 1;
        }
        assert(a@.skip(i as int).drop_first() =~= a@.skip(i + 1));
        assert(b@.skip(i as int).drop_first() =~= b@.skip(i + 1));
        i = i + 1;
    }
    if i < b.len() {
        -1
    } else if i < a.len() {
        1
    } else {
        0
    }
}

/// Computes [`PathPart::rank`].
fn rank_of(part: &PathPart<Vec<u8>>) -> (rank: u8)
    ensures
        rank == part@.rank(),
{
    match part {
        PathPart::Prefix(prefix) => match prefix {
            PathPrefix::Verbatim(_) => 0,
            PathPrefix::VerbatimUNC(_, _) => 1,
            PathPrefix::VerbatimDisk(_) => 2,
            PathPrefix::DeviceNS(_) => 3,
            PathPrefix::UNC(_, _) => 4,
            PathPrefix::Disk(_) => 5,
        },
        PathPart::RootDir => 6,
        PathPart::CurDir => 7,
        PathPart::ParentDir => 8,
        PathPart::Normal(_) => 9,
    }
}

/// Compares two bytes as texts.
fn compare_bytes(a: u8, b: u8) -> (order: i8)
    ensures
        order == text_order(seq![a], seq![b]),
{
    proof {
        reveal_with_fuel(text_order, 2);
    }
    if a < b {
        -1
    } else if a > b {
        1
    } else {
        0
    }
}

/// Compares two pairs of texts, by the first texts where they differ.
fn compare_pairs(a: &Vec<u8>, a2: &Vec<u8>, b: &Vec<u8>, b2: &Vec<u8>) -> (order: i8)
    ensures
        order == (if text_order(a@, b@) != 0 {
            text_order(a@, b@)
        } else {
            text_order(a2@, b2@)
        }),
{
    let order: i8 = compare_texts(a, b);
    if order != 0 {
        order
    } else {
        compare_texts(a2, b2)
    }
}

/// Compares two components.
fn compare_parts(a: &PathPart<Vec<u8>>, b: &PathPart<Vec<u8>>) -> (order: i8)
    ensures
        order == part_order(a@, b@),
{
    let a_rank: u8 = rank_of(a);
    let b_rank: u8 = rank_of(b);
    if a_rank < b_rank {
        return -1;
    }
    if a_rank > b_rank {
        return 1;
    }
    match (a, b) {
        (PathPart::Prefix(p), PathPart::Prefix(q)) => match (p, q) {
            (PathPrefix::Verbatim(x), PathPrefix::Verbatim(y)) => compare_texts(x, y),
            (PathPrefix::VerbatimUNC(x, x2), PathPrefix::VerbatimUNC(y, y2)) => compare_pairs(
                x,
                x2,
                y,
                y2,
            ),
            (PathPrefix::VerbatimDisk(x), PathPrefix::VerbatimDisk(y)) => compare_bytes(*x, *y),
            (PathPrefix::DeviceNS(x), PathPrefix::DeviceNS(y)) => compare_texts(x, y),
            (PathPrefix::UNC(x, x2), PathPrefix::UNC(y, y2)) => compare_pairs(x, x2, y, y2),
            (PathPrefix::Disk(x), PathPrefix::Disk(y)) => compare_bytes(*x, *y),
            _ => 0,
        },
        (PathPart::Normal(x), PathPart::Normal(y)) => compare_texts(x, y),
        _ => 0,
    }
}

/// Compares the components of two paths.
pub fn compare_paths(a: &Vec<PathPart<Vec<u8>>>, b: &Vec<PathPart<Vec<u8>>>) -> (order: i8)
    ensures
        order == path_order(part_views(a@), part_views(b@)),
{
    let ghost av = part_views(a@);
    let ghost bv = part_views(b@);
    let mut i: usize = 0;
    assert(av.skip(0) =~= av && bv.skip(0) =~= bv);
    while i < a.len() && i < b.len()
        invariant
            av == part_views(a@),
            bv == part_views(b@),
            i <= a@.len(),
            i <= b@.len(),
            path_order(av, bv) == path_order(av.skip(i as int), bv.skip(i as int)),
        decreases a@.len() - i,
    {
        let order: i8 = compare_parts(&a[i], &b[i]);
        assert(av[i as int] == a@[i as int]@ && bv[i as int] == b@[i as int]@);
        if order != 0 {
            return order;
        }
        assert(av.skip(i as int).drop_first() =~= av.skip(i + 1));
        assert(bv.skip(i as int).drop_first() =~= bv.skip(i + 1));
        i = i + 1;
    }
    if i < b.len() {
        -1
    } else if i < a.len() {
        1
    } else {
        0
    }
}

/// Whether `a` and `b` are the same up to `i`, where `a` has the lesser byte.
pub open spec fn lesser_at(a: Seq<u8>, b: Seq<u8>, i: int) -> bool {
    &&& 0 <= i < a.len()
    &&& i < b.len()
    &&& a[i] < b[i]
    &&& forall|j: int| #![trigger a[j]] 0 <= j < i ==> a[j] == b[j]
}

/// Texts are ordered as in a dictionary: one comes before another exactly where it is a shorter
/// start of it, or has the lesser byte in the first place where the two differ.
pub proof fn law_texts_in_dictionary_order(a: Seq<u8>, b: Seq<u8>)
    ensures
        text_order(a, b) < 0 <==> (a.len() < b.len() && a.is_prefix_of(b)) || exists|i: int|
            lesser_at(a, b, i),
        text_order(a, b) > 0 <==> text_order(b, a) < 0,
        text_order(a, b) == 0 <==> a == b,
    decreases a.len(),
{
    lemma_text_order(a, b);
    if a.len() == 0 || b.len() == 0 {
        assert(a.len() == 0 ==> a =~= b.take(0));
    } else if a[0] < b[0] {
        assert(lesser_at(a, b, 0));
    } else if a[0] > b[0] {
        if a.len() < b.len() && a.is_prefix_of(b) {
            assert(b.take(a.len() as int)[0] == a[0]);
        }
    } else {
        let x = a.drop_first();
        let y = b.drop_first();
        law_texts_in_dictionary_order(x, y);
        if exists|i: int| lesser_at(x, y, i) {
            let i = choose|i: int| lesser_at(x, y, i);
            assert forall|j: int| #![trigger a[j]] 0 <= j < i + 1 implies a[j] == b[j] by {
                if j > 0 {
                    assert(x[j - 1] == y[j - 1]);
                }
            }
            assert(lesser_at(a, b, i + 1));
        }
        if exists|i: int| lesser_at(a, b, i) {
            let i = choose|i: int| lesser_at(a, b, i);
            assert forall|j: int| #![trigger x[j]] 0 <= j < i - 1 implies x[j] == y[j] by {
                assert(a[j + 1] == b[j + 1]);
            }
            assert(lesser_at(x, y, i - 1));
        }
        if x.is_prefix_of(y) {
            assert(a =~= seq![a[0]] + x);
            assert(b.take(a.len() as int) =~= seq![b[0]] + y.take(x.len() as int));
        }
        if a.is_prefix_of(b) {
            assert(x =~= b.take(a.len() as int).drop_first());
            assert(b.take(a.len() as int).drop_first() =~= y.take(x.len() as int));
        }
    }
}

/// Names are ordered as their texts are. Of different kinds of components a prefix comes first,
/// then the root, the current directory, the one above, and names.
pub proof fn law_components_by_kind(a: PathPart<Seq<u8>>, b: PathPart<Seq<u8>>)
    ensures
        a is Prefix && !(b is Prefix) ==> part_order(a, b) < 0,
        a is RootDir && (b is CurDir || b is ParentDir || b is Normal) ==> part_order(a, b) < 0,
        a is CurDir && (b is ParentDir || b is Normal) ==> part_order(a, b) < 0,
        a is ParentDir && b is Normal ==> part_order(a, b) < 0,
        a is Normal && b is Normal ==> part_order(a, b) == text_order(
            a->Normal_0,
            b->Normal_0,
        ),
        part_order(a, b) > 0 <==> part_order(b, a) < 0,
        part_order(a, b) == 0 <==> a == b,
{
    lemma_part_order(a, b);
    assert(text_order(Seq::empty(), Seq::empty()) == 0);
}

/// Prefixes are ordered by their kind, and those of one kind by what they name, the server before
/// the share.
pub proof fn law_prefixes_by_kind(a: PathPrefix<Seq<u8>>, b: PathPrefix<Seq<u8>>)
    ensures
        ({
            let order = part_order(PathPart::Prefix(a), PathPart::Prefix(b));
            &&& a is Verbatim && !(b is Verbatim) ==> order < 0
            &&& a is VerbatimUNC && !(b is Verbatim || b is VerbatimUNC) ==> order < 0
            &&& a is VerbatimDisk && (b is DeviceNS || b is UNC || b is Disk) ==> order < 0
            &&& a is DeviceNS && (b is UNC || b is Disk) ==> order < 0
            &&& a is UNC && b is Disk ==> order < 0
            &&& a matches PathPrefix::Verbatim(x) ==> b matches PathPrefix::Verbatim(y) ==> order
                == text_order(x, y)
            &&& a matches PathPrefix::DeviceNS(x) ==> b matches PathPrefix::DeviceNS(y) ==> order
                == text_order(x, y)
            &&& a matches PathPrefix::Disk(x) ==> b matches PathPrefix::Disk(y) ==> (order < 0
                <==> x < y)
            &&& a matches PathPrefix::VerbatimDisk(x) ==> b matches PathPrefix::VerbatimDisk(y)
                ==> (order < 0 <==> x < y)
            &&& a matches PathPrefix::UNC(x, s) ==> b matches PathPrefix::UNC(y, t) ==> (order < 0
                <==> text_order(x, y) < 0 || x == y && text_order(s, t) < 0)
            &&& a matches PathPrefix::VerbatimUNC(x, s) ==> b matches PathPrefix::VerbatimUNC(y, t)
                ==> (order < 0 <==> text_order(x, y) < 0 || x == y && text_order(s, t) < 0)
        }),
{
    let p = PathPart::Prefix(a);
    let q = PathPart::Prefix(b);
    lemma_part_order(p, q);
    lemma_text_order(text_of(p), text_of(q));
    lemma_text_order(second_text_of(p), second_text_of(q));
    reveal_with_fuel(text_order, 2);
    assert(text_order(Seq::empty(), Seq::empty()) == 0);
}

/// Whether `a` and `b` are the same up to `i`, where the component of `a` comes first.
pub open spec fn before_at(
    a: Seq<PathPart<Seq<u8>>>,
    b: Seq<PathPart<Seq<u8>>>,
    i: int,
) -> bool {
    &&& 0 <= i < a.len()
    &&& i < b.len()
    &&& part_order(a[i], b[i]) < 0
    &&& forall|j: int| #![trigger a[j]] 0 <= j < i ==> a[j] == b[j]
}

/// Paths are ordered by the first component in which they differ: one comes before another exactly
/// where it is a shorter start of it, or its component there comes first.
pub proof fn law_paths_by_first_difference(
    a: Seq<PathPart<Seq<u8>>>,
    b: Seq<PathPart<Seq<u8>>>,
)
    ensures
        path_order(a, b) < 0 <==> (a.len() < b.len() && a.is_prefix_of(b)) || exists|i: int|
            before_at(a, b, i),
    decreases a.len(),
{
    if a.len() == 0 || b.len() == 0 {
        assert(a.len() == 0 ==> a =~= b.take(0));
    } else {
        lemma_part_order(a[0], b[0]);
        if part_order(a[0], b[0]) < 0 {
            assert(before_at(a, b, 0));
        } else if part_order(a[0], b[0]) > 0 {
            if a.len() < b.len() && a.is_prefix_of(b) {
                assert(b.take(a.len() as int)[0] == a[0]);
            }
        } else {
            let x = a.drop_first();
            let y = b.drop_first();
            law_paths_by_first_difference(x, y);
            if exists|i: int| before_at(x, y, i) {
                let i = choose|i: int| before_at(x, y, i);
                assert forall|j: int| #![trigger a[j]] 0 <= j < i + 1 implies a[j] == b[j] by {
                    if j > 0 {
                        assert(x[j - 1] == y[j - 1]);
                    }
                }
                assert(before_at(a, b, i + 1));
            }
            if exists|i: int| before_at(a, b, i) {
                let i = choose|i: int| before_at(a, b, i);
                assert forall|j: int| #![trigger x[j]] 0 <= j < i - 1 implies x[j] == y[j] by {
                    assert(a[j + 1] == b[j + 1]);
                }
                assert(before_at(x, y, i - 1));
            }
            if x.is_prefix_of(y) {
                assert(a =~= seq![a[0]] + x);
                assert(b.take(a.len() as int) =~= seq![b[0]] + y.take(x.len() as int));
            }
            if a.is_prefix_of(b) {
                assert(x =~= b.take(a.len() as int).drop_first());
                assert(b.take(a.len() as int).drop_first() =~= y.take(x.len() as int));
            }
        }
    }
}

/// Of two texts that go on differently behind one start, the one with the lesser byte there comes
/// first, whatever follows that byte.
pub proof fn law_first_difference_decides(start: Seq<u8>, x: u8, y: u8, a: Seq<u8>, b: Seq<u8>)
    requires
        x < y,
    ensures
        text_order(start.push(x) + a, start.push(y) + b) < 0,
{
    let p = start.push(x) + a;
    let q = start.push(y) + b;
    let n = start.len() as int;
    assert(p[n] == x && q[n] == y);
    assert forall|j: int| #![trigger p[j]] 0 <= j < n implies p[j] == q[j] by {}
    assert(lesser_at(p, q, n));
    law_texts_in_dictionary_order(p, q);
}

proof fn lemma_extension_from(name: Seq<u8>, i: int, dot: int)
    requires
        0 <= dot <= i < name.len(),
        dot > 0 ==> name[dot] == 0x2e,
        forall|j: int| #![trigger name[j]] dot < j <= i ==> name[j] != 0x2e,
    ensures
        extension_from(name, i) == (if dot > 0 {
            Some(name.skip(dot + 1))
        } else {
            None
        }),
    decreases i,
{
    if i > dot {
        lemma_extension_from(name, i - 1, dot);
    }
}

/// The extension of a name is what stands behind its last dot. A name without a dot, or whose only
/// dot is its first byte, has none.
pub proof fn law_extension_behind_last_dot(name: Seq<u8>, dot: int)
    requires
        0 <= dot < name.len(),
        dot > 0 ==> name[dot] == 0x2e,
        forall|j: int| #![trigger name[j]] dot < j < name.len() ==> name[j] != 0x2e,
    ensures
        extension(name) == (if dot > 0 {
            Some(name.skip(dot + 1))
        } else {
            None
        }),
{
    lemma_extension_from(name, name.len() - 1, dot);
}

/// What an extension is: it stands behind a dot that does not start the name.
proof fn lemma_extension_found(name: Seq<u8>, i: int) -> (dot: int)
    requires
        i < name.len(),
        extension_from(name, i) is Some,
    ensures
        0 < dot <= i,
        name[dot] == 0x2e,
        extension_from(name, i) == Some(name.skip(dot + 1)),
    decreases i,
{
    if name[i] == 0x2e {
        i
    } else {
        lemma_extension_found(name, i - 1)
    }
}

/// A path leads to a WAV file exactly where its last component is a name that ends in `.wav`, in
/// any mix of cases, behind at least one byte.
pub proof fn law_wav_names(parts: Seq<PathPart<Seq<u8>>>)
    ensures
        is_wav(parts) <==> {
            &&& parts.len() > 0
            &&& parts.last() matches PathPart::Normal(name)
            &&& name.len() >= 5
            &&& name[name.len() - 4] == '.' as u8
            &&& name[name.len() - 3] == 'w' as u8 || name[name.len() - 3] == 'W' as u8
            &&& name[name.len() - 2] == 'a' as u8 || name[name.len() - 2] == 'A' as u8
            &&& name[name.len() - 1] == 'v' as u8 || name[name.len() - 1] == 'V' as u8
        },
{
    if parts.len() > 0 {
        if let PathPart::Normal(name) = parts.last() {
            let n = name.len() as int;
            if is_wav(parts) {
                let dot = lemma_extension_found(name, n - 1);
                let text = name.skip(dot + 1);
                assert(text.len() == 3);
                assert(text[0] == name[n - 3] && text[1] == name[n - 2] && text[2] == name[n - 1]);
            }
            if n >= 5 && name[n - 4] == 0x2e && lower(name[n - 3]) == 0x77 && lower(name[n - 2])
                == 0x61 && lower(name[n - 1]) == 0x76 {
                law_extension_behind_last_dot(name, n - 4);
                let text = name.skip(n - 3);
                assert(text[0] == name[n - 3] && text[1] == name[n - 2] && text[2] == name[n - 1]);
            }
        }
    }
}

/// Components are seen as they stand, in their order, with their texts byte for byte.
pub proof fn law_components_as_they_stand(parts: Seq<PathPart<Vec<u8>>>, i: int)
    requires
        0 <= i < parts.len(),
    ensures
        part_views(parts).len() == parts.len(),
        match parts[i] {
            PathPart::Prefix(prefix) => part_views(parts)[i] == PathPart::Prefix(
                match prefix {
                    PathPrefix::Verbatim(a) => PathPrefix::Verbatim(a@),
                    PathPrefix::VerbatimUNC(a, b) => PathPrefix::VerbatimUNC(a@, b@),
                    PathPrefix::VerbatimDisk(d) => PathPrefix::VerbatimDisk(d),
                    PathPrefix::DeviceNS(a) => PathPrefix::DeviceNS(a@),
                    PathPrefix::UNC(a, b) => PathPrefix::UNC(a@, b@),
                    PathPrefix::Disk(d) => PathPrefix::Disk(d),
                },
            ),
            PathPart::RootDir => part_views(parts)[i] is RootDir,
            PathPart::CurDir => part_views(parts)[i] is CurDir,
            PathPart::ParentDir => part_views(parts)[i] is ParentDir,
            PathPart::Normal(text) => part_views(parts)[i] == PathPart::Normal(text@),
        },
{
}

} // verus!
