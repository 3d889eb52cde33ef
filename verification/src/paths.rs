//! File paths, and the collections of paths that a scan works with.

use vstd::prelude::*;
#[allow(unused_imports)]
use vstd::utf8::{decode_utf8, valid_utf8};

#[allow(unused_imports)]
use crate::text::utf8_lossy;
use crate::text::{same_text, text_from_bytes};

verus! {

/// A component of a path.
#[derive(Debug)]
pub enum PathPart {
    RootDir,
    CurDir,
    ParentDir,
    /// The name of a directory or a file, as the system spells it.
    Normal(Vec<u8>),
}

/// The value of a [`PathPart`].
pub enum PartView {
    RootDir,
    CurDir,
    ParentDir,
    Normal(Seq<u8>),
}

/// A path, taken apart into its components. Two paths are the same where their
/// components are.
#[derive(Debug)]
pub struct FilePath {
    pub parts: Vec<PathPart>,
}

impl PathPart {
    pub open spec fn value(self) -> PartView {
        match self {
            PathPart::RootDir => PartView::RootDir,
            PathPart::CurDir => PartView::CurDir,
            PathPart::ParentDir => PartView::ParentDir,
            PathPart::Normal(name) => PartView::Normal(name@),
        }
    }

    /// A component with the same value.
    fn copy(&self) -> (r: PathPart)
        ensures
            r.value() == self.value(),
    {
        match self {
            PathPart::RootDir => PathPart::RootDir,
            PathPart::CurDir => PathPart::CurDir,
            PathPart::ParentDir => PathPart::ParentDir,
            PathPart::Normal(name) => PathPart::Normal(copy_bytes(name)),
        }
    }
}

impl FilePath {
    pub open spec fn value(self) -> Seq<PartView> {
        self.parts@.map_values(|p: PathPart| p.value())
    }

    /// A path with the same value.
    pub fn copy(&self) -> (r: FilePath)
        ensures
            r.value() == self.value(),
    {
        let mut parts: Vec<PathPart> = Vec::new();
        let mut i: usize = 0;
        while i < self.parts.len()
            invariant
                i <= self.parts.len(),
                parts.len() == i,
                forall|j: int|
                    0 <= j < i ==> (#[trigger] parts@[j]).value() == self.parts@[j].value(),
            decreases self.parts.len() - i,
        {
            parts.push(self.parts[i].copy());
            i += 1;
        }
        let r = FilePath { parts };
        assert(r.value() =~= self.value());
        r
    }
}

/// The same bytes once more.
fn copy_bytes(b: &Vec<u8>) -> (r: Vec<u8>)
    ensures
        r@ == b@,
{
    let mut r: Vec<u8> = Vec::new();
    let mut i: usize = 0;
    while i < b.len()
        invariant
            i <= b.len(),
            r@ == b@.take(i as int),
        decreases b.len() - i,
    {
        r.push(b[i]);
        i += 1;
        assert(r@ =~= b@.take(i as int));
    }
    assert(b@.take(i as int) =~= b@);
    r
}

/// The order of byte strings: by the first byte in which they differ, and a
/// string before those that it begins.
pub open spec fn bytes_ordered(a: Seq<u8>, b: Seq<u8>) -> bool
    decreases a.len(),
{
    if a.len() == 0 {
        true
    } else if b.len() == 0 {
        false
    } else {
        a[0] < b[0] || (a[0] == b[0] && bytes_ordered(a.drop_first(), b.drop_first()))
    }
}

/// The place of a component's kind in the order of components.
pub open spec fn part_rank(p: PartView) -> int {
    match p {
        PartView::RootDir => 0,
        PartView::CurDir => 1,
        PartView::ParentDir => 2,
        PartView::Normal(name) => 3,
    }
}

/// The order of components: by kind, and names among each other by their bytes.
pub open spec fn part_ordered(a: PartView, b: PartView) -> bool {
    match (a, b) {
        (PartView::Normal(x), PartView::Normal(y)) => bytes_ordered(x, y),
        _ => part_rank(a) <= part_rank(b),
    }
}

/// The order of paths: by the first component in which they differ, and a path
/// before those that it begins.
pub open spec fn path_ordered(a: Seq<PartView>, b: Seq<PartView>) -> bool
    decreases a.len(),
{
    if a.len() == 0 {
        true
    } else if b.len() == 0 {
        false
    } else if a[0] == b[0] {
        path_ordered(a.drop_first(), b.drop_first())
    } else {
        part_ordered(a[0], b[0])
    }
}

/// Byte strings are in order one way or the other, and both ways only where
/// they are equal.
proof fn lemma_bytes_total(a: Seq<u8>, b: Seq<u8>)
    ensures
        bytes_ordered(a, b) || bytes_ordered(b, a),
        bytes_ordered(a, b) && bytes_ordered(b, a) ==> a == b,
    decreases a.len(),
{
    if a.len() > 0 && b.len() > 0 {
        lemma_bytes_total(a.drop_first(), b.drop_first());
        if bytes_ordered(a, b) && bytes_ordered(b, a) {
            assert(a =~= seq![a[0]] + a.drop_first());
            assert(b =~= seq![b[0]] + b.drop_first());
        }
    } else if a.len() == 0 && b.len() == 0 {
        assert(a =~= b);
    }
}

/// The order of byte strings is transitive.
proof fn lemma_bytes_transitive(a: Seq<u8>, b: Seq<u8>, c: Seq<u8>)
    requires
        bytes_ordered(a, b),
        bytes_ordered(b, c),
    ensures
        bytes_ordered(a, c),
    decreases a.len(),
{
    if a.len() > 0 && a[0] == b[0] && b[0] == c[0] {
        lemma_bytes_transitive(a.drop_first(), b.drop_first(), c.drop_first());
    }
}

/// Components are in order one way or the other, and both ways only where they
/// are equal.
proof fn lemma_part_total(a: PartView, b: PartView)
    ensures
        part_ordered(a, b) || part_ordered(b, a),
        part_ordered(a, b) && part_ordered(b, a) ==> a == b,
{
    if let (PartView::Normal(x), PartView::Normal(y)) = (a, b) {
        lemma_bytes_total(x, y);
    }
}

/// The order of components is transitive.
proof fn lemma_part_transitive(a: PartView, b: PartView, c: PartView)
    requires
        part_ordered(a, b),
        part_ordered(b, c),
    ensures
        part_ordered(a, c),
{
    if let (PartView::Normal(x), PartView::Normal(y)) = (a, b) {
        if let PartView::Normal(z) = c {
            lemma_bytes_transitive(x, y, z);
        }
    }
}

/// Law: paths are in order one way or the other, and both ways only where they
/// are equal.
pub proof fn lemma_path_total(a: Seq<PartView>, b: Seq<PartView>)
    ensures
        path_ordered(a, b) || path_ordered(b, a),
        path_ordered(a, b) && path_ordered(b, a) ==> a == b,
    decreases a.len(),
{
    if a.len() > 0 && b.len() > 0 {
        lemma_part_total(a[0], b[0]);
        lemma_path_total(a.drop_first(), b.drop_first());
        if path_ordered(a, b) && path_ordered(b, a) {
            assert(a =~= seq![a[0]] + a.drop_first());
            assert(b =~= seq![b[0]] + b.drop_first());
        }
    } else if a.len() == 0 && b.len() == 0 {
        assert(a =~= b);
    }
}

/// Law: the order of paths is transitive.
pub proof fn lemma_path_transitive(a: Seq<PartView>, b: Seq<PartView>, c: Seq<PartView>)
    requires
        path_ordered(a, b),
        path_ordered(b, c),
    ensures
        path_ordered(a, c),
    decreases a.len(),
{
    if a.len() > 0 {
        if a[0] == b[0] && b[0] == c[0] {
            lemma_path_transitive(a.drop_first(), b.drop_first(), c.drop_first());
        } else if a[0] != b[0] && b[0] != c[0] {
            lemma_part_transitive(a[0], b[0], c[0]);
            lemma_part_total(a[0], b[0]);
        }
    }
}

/// How two values compare.
#[derive(Clone, Copy, PartialEq, Eq, Structural)]
enum Place {
    Before,
    Same,
    Behind,
}

/// How two byte strings compare.
fn place_bytes(a: &Vec<u8>, b: &Vec<u8>) -> (r: Place)
    ensures
        r == Place::Same <==> a@ == b@,
        r == Place::Behind <==> !bytes_ordered(a@, b@),
{
    let mut i: usize = 0;
    proof {
        assert(a@.skip(0) =~= a@);
        assert(b@.skip(0) =~= b@);
    }
    while i < a.len() && i < b.len()
        invariant
            i <= a.len(),
            i <= b.len(),
            forall|j: int| 0 <= j < i ==> a@[j] == b@[j],
            bytes_ordered(a@, b@) == bytes_ordered(a@.skip(i as int), b@.skip(i as int)),
        decreases a.len() - i,
    {
        assert(a@.skip(i as int).drop_first() =~= a@.skip(i + 1));
        assert(b@.skip(i as int).drop_first() =~= b@.skip(i + 1));
        if a[i] < b[i] {
            return Place::Before;
        }
        if b[i] < a[i] {
            return Place::Behind;
        }
        i += 1;
    }
    if i < a.len() {
        Place::Behind
    } else if i < b.len() {
        Place::Before
    } else {
        assert(a@ =~= b@);
        Place::Same
    }
}

/// How two components compare.
fn place_part(a: &PathPart, b: &PathPart) -> (r: Place)
    ensures
        r == Place::Same <==> a.value() == b.value(),
        r == Place::Behind <==> !part_ordered(a.value(), b.value()),
{
    match (a, b) {
        (PathPart::Normal(x), PathPart::Normal(y)) => place_bytes(x, y),
        (PathPart::RootDir, PathPart::RootDir) => Place::Same,
        (PathPart::CurDir, PathPart::CurDir) => Place::Same,
        (PathPart::ParentDir, PathPart::ParentDir) => Place::Same,
        (PathPart::RootDir, _) => Place::Before,
        (_, PathPart::RootDir) => Place::Behind,
        (PathPart::CurDir, _) => Place::Before,
        (_, PathPart::CurDir) => Place::Behind,
        (PathPart::ParentDir, _) => Place::Before,
        (_, PathPart::ParentDir) => Place::Behind,
    }
}

/// How two paths compare.
fn place_path(a: &FilePath, b: &FilePath) -> (r: Place)
    ensures
        r == Place::Same <==> a.value() == b.value(),
        r == Place::Behind <==> !path_ordered(a.value(), b.value()),
{
    let ghost av = a.value();
    let ghost bv = b.value();
    let mut i: usize = 0;
    proof {
        assert(av.skip(0) =~= av);
        assert(bv.skip(0) =~= bv);
    }
    while i < a.parts.len() && i < b.parts.len()
        invariant
            i <= a.parts.len(),
            i <= b.parts.len(),
            av == a.value(),
            bv == b.value(),
            forall|j: int| 0 <= j < i ==> av[j] == bv[j],
            path_ordered(av, bv) == path_ordered(av.skip(i as int), bv.skip(i as int)),
        decreases a.parts.len() - i,
    {
        proof {
            assert(av.skip(i as int).drop_first() =~= av.skip(i + 1));
            assert(bv.skip(i as int).drop_first() =~= bv.skip(i + 1));
            assert(av.skip(i as int)[0] == a.parts@[i as int].value());
            assert(bv.skip(i as int)[0] == b.parts@[i as int].value());
        }
        match place_part(&a.parts[i], &b.parts[i]) {
            Place::Same => {},
            Place::Before => {
                assert(av[i as int] != bv[i as int]);
                return Place::Before;
            },
            Place::Behind => {
                proof {
                    lemma_part_total(av[i as int], bv[i as int]);
                    assert(av[i as int] != bv[i as int]);
                }
                return Place::Behind;
            },
        }
        i += 1;
    }
    if i < a.parts.len() {
        assert(av.len() > bv.len());
        Place::Behind
    } else if i < b.parts.len() {
        assert(av.len() < bv.len());
        Place::Before
    } else {
        assert(av =~= bv);
        Place::Same
    }
}

/// Whether two paths are the same.
pub fn same_path(a: &FilePath, b: &FilePath) -> (r: bool)
    ensures
        r == (a.value() == b.value()),
{
    match place_path(a, b) {
        Place::Same => true,
        _ => false,
    }
}

/// Whether a path is no further back in the order of paths than another.
pub(crate) fn in_order(a: &FilePath, b: &FilePath) -> (r: bool)
    ensures
        r == path_ordered(a.value(), b.value()),
{
    match place_path(a, b) {
        Place::Behind => false,
        _ => true,
    }
}

/// Where the last dot stands in a name.
pub open spec fn last_dot(name: Seq<u8>) -> Option<nat>
    decreases name.len(),
{
    if name.len() == 0 {
        None
    } else if name.last() == 46 {
        Some((name.len() - 1) as nat)
    } else {
        last_dot(name.drop_last())
    }
}

/// The extension of a file name: what follows its last dot, unless that dot is
/// the first character.
pub open spec fn extension(name: Seq<u8>) -> Option<Seq<u8>> {
    match last_dot(name) {
        Some(n) => if n > 0 {
            Some(name.skip(n as int + 1))
        } else {
            None
        },
        None => None,
    }
}

/// The extension of the file that a path leads to.
pub open spec fn path_extension(path: Seq<PartView>) -> Option<Seq<u8>> {
    if path.len() == 0 {
        None
    } else {
        match path.last() {
            PartView::Normal(name) => extension(name),
            _ => None,
        }
    }
}

/// The extension of a file name.
fn extension_of(name: &Vec<u8>) -> (r: Option<Vec<u8>>)
    ensures
        (match r {
            Some(e) => Some(e@),
            None => None,
        }) == extension(name@),
{
    let mut i: usize = name.len();
    assert(name@.take(name.len() as int) =~= name@);
    while i > 0 && name[i - 1] != 46
        invariant
            i <= name.len(),
            last_dot(name@) == last_dot(name@.take(i as int)),
        decreases i,
    {
        i -= 1;
        assert(name@.take(i + 1).drop_last() =~= name@.take(i as int));
    }
    if i <= 1 {
        return None;
    }
    let mut e: Vec<u8> = Vec::new();
    let mut j: usize = i;
    while j < name.len()
        invariant
            i <= j <= name.len(),
            e@ == name@.subrange(i as int, j as int),
        decreases name.len() - j,
    {
        e.push(name[j]);
        j += 1;
        assert(e@ =~= name@.subrange(i as int, j as int));
    }
    assert(e@ =~= name@.skip(i as int));
    Some(e)
}

/// What a walk through a directory comes across.
#[derive(Debug)]
pub struct DirEntry {
    pub is_file: bool,
    pub path: FilePath,
}

/// Whether an entry is a file whose extension reads as `ext`.
pub open spec fn file_with_ext(entry: DirEntry, ext: Seq<char>) -> bool {
    &&& entry.is_file
    &&& path_extension(entry.path.value()) matches Some(e) && utf8_lossy(e) == ext
}

/// Whether the entry is a file with the given extension.
pub fn is_file_with_ext(entry: &DirEntry, file_ext: &str) -> (r: bool)
    ensures
        r == file_with_ext(*entry, file_ext@),
        match path_extension(entry.path.value()) {
            Some(e) => valid_utf8(e) ==> utf8_lossy(e) == decode_utf8(e),
            None => true,
        },
{
    let n: usize = entry.path.parts.len();
    if n == 0 {
        return false;
    }
    assert(entry.path.value().last() == entry.path.parts@[n - 1].value());
    match &entry.path.parts[n - 1] {
        PathPart::Normal(name) => match extension_of(name) {
            Some(ext) => {
                let text = text_from_bytes(&ext);
                entry.is_file && same_text(text.as_str(), file_ext)
            },
            None => false,
        },
        _ => false,
    }
}

/// Law: byte strings are in order where one begins the other, or where the first byte
/// in which they differ is the smaller one.
pub proof fn lemma_bytes_by_first_difference(a: Seq<u8>, b: Seq<u8>)
    ensures
        bytes_ordered(a, b) <==> a.is_prefix_of(b) || exists|k: int|
            {
                &&& 0 <= k < a.len()
                &&& k < b.len()
                &&& #[trigger] a.take(k) == b.take(k)
                &&& a[k] < b[k]
            },
    decreases a.len(),
{
    if a.len() == 0 {
        assert(a =~= b.take(0));
    } else if b.len() > 0 {
        let x = a.drop_first();
        let y = b.drop_first();
        lemma_bytes_by_first_difference(x, y);
        if a.is_prefix_of(b) {
            assert(a[0] == b[0]);
            assert(x =~= y.take(x.len() as int));
        }
        if a[0] < b[0] {
            assert(a.take(0) =~= b.take(0));
        }
        if a[0] == b[0] && x.is_prefix_of(y) {
            assert(a =~= b.take(a.len() as int)) by {
                assert forall|i: int| 0 < i < a.len() implies a[i] == b[i] by {
                    assert(x[i - 1] == y[i - 1]);
                }
            }
        }
        if a[0] == b[0] && exists|k: int|
            0 <= k < x.len() && k < y.len() && #[trigger] x.take(k) == y.take(k) && x[k] < y[k] {
            let k = choose|k: int|
                0 <= k < x.len() && k < y.len() && #[trigger] x.take(k) == y.take(k) && x[k] < y[k];
            assert(a.take(k + 1) =~= seq![a[0]] + x.take(k));
            assert(b.take(k + 1) =~= seq![b[0]] + y.take(k));
            assert(a[k + 1] < b[k + 1]);
        }
        if exists|k: int|
            0 <= k < a.len() && k < b.len() && #[trigger] a.take(k) == b.take(k) && a[k] < b[k] {
            let k = choose|k: int|
                0 <= k < a.len() && k < b.len() && #[trigger] a.take(k) == b.take(k) && a[k] < b[k];
            if k > 0 {
                assert(a.take(k)[0] == a[0] && b.take(k)[0] == b[0]);
                assert(x.take(k - 1) =~= a.take(k).drop_first());
                assert(y.take(k - 1) =~= b.take(k).drop_first());
                assert(x[k - 1] < y[k - 1]);
            }
        }
    }
}

/// Law: the root comes before the current directory, that before the directory above,
/// and that before all names, which are ordered by their bytes.
pub proof fn lemma_order_of_components(x: Seq<u8>, y: Seq<u8>)
    ensures
        part_ordered(PartView::RootDir, PartView::CurDir),
        part_ordered(PartView::CurDir, PartView::ParentDir),
        part_ordered(PartView::ParentDir, PartView::Normal(x)),
        !part_ordered(PartView::CurDir, PartView::RootDir),
        !part_ordered(PartView::ParentDir, PartView::CurDir),
        !part_ordered(PartView::Normal(x), PartView::ParentDir),
        part_ordered(PartView::Normal(x), PartView::Normal(y)) <==> bytes_ordered(x, y),
{
}

/// Law: the order of components is transitive, and two components are in order one way
/// or the other, and both ways only where they are equal.
pub proof fn lemma_components_in_order(a: PartView, b: PartView, c: PartView)
    ensures
        part_ordered(a, b) || part_ordered(b, a),
        part_ordered(a, b) && part_ordered(b, a) ==> a == b,
        part_ordered(a, b) && part_ordered(b, c) ==> part_ordered(a, c),
{
    lemma_part_total(a, b);
    if part_ordered(a, b) && part_ordered(b, c) {
        lemma_part_transitive(a, b, c);
    }
}

/// Law: a path comes before those that it begins, and paths that begin alike are
/// ordered by the first component in which they differ.
pub proof fn lemma_paths_by_first_difference(
    dir: Seq<PartView>,
    a: PartView,
    b: PartView,
    x: Seq<PartView>,
    y: Seq<PartView>,
)
    requires
        a != b,
    ensures
        path_ordered(dir, dir + x),
        x.len() > 0 ==> !path_ordered(dir + x, dir),
        path_ordered(dir.push(a) + x, dir.push(b) + y) <==> part_ordered(a, b),
    decreases dir.len(),
{
    if dir.len() == 0 {
        assert((dir.push(a) + x)[0] == a);
        assert((dir.push(b) + y)[0] == b);
    } else {
        let rest = dir.drop_first();
        lemma_paths_by_first_difference(rest, a, b, x, y);
        assert((dir + x).drop_first() =~= rest + x);
        assert((dir + x)[0] == dir[0]);
        let p = dir.push(a) + x;
        let q = dir.push(b) + y;
        assert(p[0] == dir[0] && q[0] == dir[0]);
        assert(p.drop_first() =~= rest.push(a) + x);
        assert(q.drop_first() =~= rest.push(b) + y);
    }
}

/// Law: the extension of a name is what follows its last dot, where something stands
/// before that dot; other names have none.
pub proof fn lemma_extension(name: Seq<u8>, e: Seq<u8>)
    ensures
        extension(name) == Some(e) <==> exists|stem: Seq<u8>|
            {
                &&& #[trigger] stem.len() > 0
                &&& !e.contains(46)
                &&& name == stem.push(46) + e
            },
{
    lemma_last_dot(name);
    if extension(name) == Some(e) {
        let n = last_dot(name)->0 as int;
        let stem = name.take(n);
        assert(name =~= stem.push(46) + e);
        assert forall|i: int| 0 <= i < e.len() implies e[i] != 46 by {
            assert(e[i] == name[n + 1 + i]);
        }
        assert(stem.len() > 0 && !e.contains(46) && name == stem.push(46) + e);
    }
    if exists|stem: Seq<u8>|
        #[trigger] stem.len() > 0 && !e.contains(46) && name == stem.push(46) + e {
        let stem = choose|stem: Seq<u8>|
            #[trigger] stem.len() > 0 && !e.contains(46) && name == stem.push(46) + e;
        let n = stem.len() as int;
        assert(name[n] == 46);
        let m = last_dot(name)->0 as int;
        if m < n {
            assert(name[n] != 46);
        }
        if m > n {
            assert(name[m] == e[m - n - 1]);
            assert(e.contains(46));
        }
        assert(name.skip(n + 1) =~= e);
    }
}

proof fn lemma_last_dot(name: Seq<u8>)
    ensures
        match last_dot(name) {
            Some(n) => {
                &&& n < name.len()
                &&& name[n as int] == 46
                &&& forall|i: int| n < i < name.len() ==> #[trigger] name[i] != 46
            },
            None => forall|i: int| 0 <= i < name.len() ==> #[trigger] name[i] != 46,
        },
    decreases name.len(),
{
    if name.len() > 0 && name.last() != 46 {
        let rest = name.drop_last();
        lemma_last_dot(rest);
        assert forall|i: int|
            0 <= i < name.len() && (last_dot(name) is None || last_dot(name)->0 < i) implies
            #[trigger] name[i] != 46 by {
            if i < rest.len() {
                assert(rest[i] == name[i]);
            }
        }
    }
}

/// Law: a file has an extension where the last component of its path is a name that has
/// it; what is no file has none, nor has a path that ends in anything but a name.
pub proof fn lemma_file_with_ext(dir: Seq<PartView>, name: Seq<u8>, entry: DirEntry, ext: Seq<char>)
    ensures
        path_extension(dir.push(PartView::Normal(name))) == extension(name),
        path_extension(dir.push(PartView::ParentDir)) is None,
        path_extension(dir.push(PartView::CurDir)) is None,
        path_extension(dir.push(PartView::RootDir)) is None,
        path_extension(seq![]) is None,
        file_with_ext(entry, ext) <==> entry.is_file && path_extension(entry.path.value()) is Some
            && utf8_lossy(path_extension(entry.path.value())->0) == ext,
{
}

/// Law: a path is made up of its components, one for each, in order, and names are told
/// apart from what is no name.
pub proof fn lemma_path_value(path: FilePath, i: int)
    ensures
        path.value().len() == path.parts@.len(),
        0 <= i < path.parts@.len() ==> path.value()[i] == (match path.parts@[i] {
            PathPart::RootDir => PartView::RootDir,
            PathPart::CurDir => PartView::CurDir,
            PathPart::ParentDir => PartView::ParentDir,
            PathPart::Normal(name) => PartView::Normal(name@),
        }),
{
}

}
