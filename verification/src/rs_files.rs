//! The source files that a build has read, and how often each was scanned.

use vstd::prelude::*;

#[allow(unused_imports)]
use crate::paths::{
    lemma_path_total, lemma_path_transitive, path_ordered, PartView,
};
use crate::paths::{in_order, same_path, FilePath};

verus! {

/// The values of some paths.
pub open spec fn path_values(paths: Seq<FilePath>) -> Seq<Seq<PartView>> {
    paths.map_values(|p: FilePath| p.value())
}

/// A set of paths.
#[derive(Debug)]
pub struct PathSet {
    paths: Vec<FilePath>,
}

impl View for PathSet {
    type V = Set<Seq<PartView>>;

    closed spec fn view(&self) -> Set<Seq<PartView>> {
        path_values(self.paths@).to_set()
    }
}

impl PathSet {
    /// No path is held twice.
    #[verifier::type_invariant]
    spec fn inv(self) -> bool {
        path_values(self.paths@).no_duplicates()
    }

    /// The empty set.
    pub fn new() -> (r: PathSet)
        ensures
            r@ == Set::<Seq<PartView>>::empty(),
    {
        let r = PathSet { paths: Vec::new() };
        assert(r@ =~= Set::<Seq<PartView>>::empty());
        r
    }

    /// The paths of the set, each once.
    pub fn paths(&self) -> (r: &Vec<FilePath>)
        ensures
            path_values(r@).to_set() == self@,
            path_values(r@).no_duplicates(),
    {
        proof {
            use_type_invariant(self);
        }
        &self.paths
    }

    /// Whether the set holds a path.
    pub fn contains(&self, path: &FilePath) -> (r: bool)
        ensures
            r == self@.contains(path.value()),
    {
        let mut i: usize = 0;
        while i < self.paths.len()
            invariant
                i <= self.paths.len(),
                forall|j: int| 0 <= j < i ==> path_values(self.paths@)[j] != path.value(),
            decreases self.paths.len() - i,
        {
            if same_path(&self.paths[i], path) {
                assert(path_values(self.paths@)[i as int] == path.value());
                return true;
            }
            i += 1;
        }
        false
    }

    /// Adds a path to the set. Tells whether it was new.
    pub fn insert(&mut self, path: FilePath) -> (r: bool)
        ensures
            r == !old(self)@.contains(path.value()),
            final(self)@ == old(self)@.insert(path.value()),
    {
        if self.contains(&path) {
            assert(self@.insert(path.value()) =~= self@);
            return false;
        }
        proof {
            use_type_invariant(&*self);
        }
        let ghost before = self.paths@;
        let mut paths: Vec<FilePath> = Vec::new();
        std::mem::swap(&mut paths, &mut self.paths);
        let ghost value = path.value();
        paths.push(path);
        proof {
            let old_values = path_values(before);
            let new_values = path_values(paths@);
            assert(new_values =~= old_values.push(value));
            assert(!old_values.contains(value));
            assert(new_values.to_set() =~= old_values.to_set().insert(value)) by {
                assert forall|v: Seq<PartView>| new_values.contains(v) == (old_values.contains(v)
                    || v == value) by {
                    assert(new_values[new_values.len() - 1] == value);
                    if old_values.contains(v) {
                        let i = old_values.index_of(v);
                        assert(new_values[i] == v);
                    }
                }
            }
        }
        self.paths = paths;
        true
    }
}

/// The source files that a build has read, each with the number of times that
/// it was scanned.
#[derive(Debug)]
pub struct RsFiles {
    entries: Vec<(FilePath, u32)>,
}

spec fn entry_keys(entries: Seq<(FilePath, u32)>) -> Seq<Seq<PartView>> {
    entries.map_values(|e: (FilePath, u32)| e.0.value())
}

spec fn entry_map(entries: Seq<(FilePath, u32)>) -> Map<Seq<PartView>, u32> {
    Map::new(
        |k: Seq<PartView>| entry_keys(entries).contains(k),
        |k: Seq<PartView>| entries[entry_keys(entries).index_of(k)].1,
    )
}

/// An entry stands in the map under its path.
proof fn lemma_entry(entries: Seq<(FilePath, u32)>, i: int)
    requires
        entry_keys(entries).no_duplicates(),
        0 <= i < entries.len(),
    ensures
        entry_map(entries).contains_key(entries[i].0.value()),
        entry_map(entries)[entries[i].0.value()] == entries[i].1,
{
    let keys = entry_keys(entries);
    assert(keys[i] == entries[i].0.value());
    assert(keys.contains(keys[i]));
    assert(keys[keys.index_of(keys[i])] == keys[i]);
}

/// A path that the map holds stands in an entry.
proof fn lemma_key(entries: Seq<(FilePath, u32)>, k: Seq<PartView>) -> (i: int)
    requires
        entry_map(entries).contains_key(k),
    ensures
        0 <= i < entries.len(),
        entries[i].0.value() == k,
        entry_map(entries)[k] == entries[i].1,
{
    let keys = entry_keys(entries);
    let i = keys.index_of(k);
    assert(keys[i] == k);
    i
}

/// Changing the number of an entry changes what the map holds under its path.
proof fn lemma_update(entries: Seq<(FilePath, u32)>, i: int, path: FilePath, n: u32)
    requires
        entry_keys(entries).no_duplicates(),
        0 <= i < entries.len(),
        path.value() == entries[i].0.value(),
    ensures
        entry_keys(entries.update(i, (path, n))).no_duplicates(),
        entry_map(entries.update(i, (path, n))) == entry_map(entries).insert(path.value(), n),
{
    let after = entries.update(i, (path, n));
    assert(entry_keys(after) =~= entry_keys(entries));
    let expected = entry_map(entries).insert(path.value(), n);
    assert(entry_map(after) =~= expected) by {
        lemma_entry(entries, i);
        assert forall|k: Seq<PartView>| entry_map(after).contains_key(k) implies expected[k]
            == entry_map(after)[k] by {
            let j = lemma_key(after, k);
            lemma_entry(after, i);
            if j != i {
                lemma_entry(entries, j);
                assert(entry_keys(entries)[j] != entry_keys(entries)[i]);
            }
        }
    }
}

/// A new entry adds its path to the map.
proof fn lemma_push(entries: Seq<(FilePath, u32)>, path: FilePath, n: u32)
    requires
        entry_keys(entries).no_duplicates(),
        !entry_map(entries).contains_key(path.value()),
    ensures
        entry_keys(entries.push((path, n))).no_duplicates(),
        entry_map(entries.push((path, n))) == entry_map(entries).insert(path.value(), n),
{
    let after = entries.push((path, n));
    let keys = entry_keys(entries);
    assert(entry_keys(after) =~= keys.push(path.value()));
    assert(!keys.contains(path.value()));
    assert forall|i: int, j: int| 0 <= i < j < after.len() implies entry_keys(after)[i]
        != entry_keys(after)[j] by {
        if j == entries.len() {
            assert(keys.contains(keys[i]));
        }
    }
    let expected = entry_map(entries).insert(path.value(), n);
    assert(entry_map(after) =~= expected) by {
        assert forall|k: Seq<PartView>| entry_map(after).contains_key(k)
            == expected.contains_key(k) by {
            if entry_map(entries).contains_key(k) {
                let i = lemma_key(entries, k);
                lemma_entry(after, i);
            }
            lemma_entry(after, entries.len() as int);
            if entry_map(after).contains_key(k) {
                let i = lemma_key(after, k);
                if i < entries.len() {
                    lemma_entry(entries, i);
                }
            }
        }
        assert forall|k: Seq<PartView>| entry_map(after).contains_key(k) implies expected[k]
            == entry_map(after)[k] by {
            let i = lemma_key(after, k);
            if i < entries.len() {
                lemma_entry(entries, i);
            }
        }
    }
}

impl View for RsFiles {
    type V = Map<Seq<PartView>, u32>;

    closed spec fn view(&self) -> Map<Seq<PartView>, u32> {
        entry_map(self.entries@)
    }
}

impl RsFiles {
    /// No path is held twice.
    #[verifier::type_invariant]
    spec fn inv(self) -> bool {
        entry_keys(self.entries@).no_duplicates()
    }

    /// No file at all.
    pub fn new() -> (r: RsFiles)
        ensures
            r@ == Map::<Seq<PartView>, u32>::empty(),
    {
        let r = RsFiles { entries: Vec::new() };
        assert(r@ =~= Map::<Seq<PartView>, u32>::empty());
        r
    }

    /// Where a path stands among the entries.
    fn find(&self, path: &FilePath) -> (r: Option<usize>)
        ensures
            r is Some == self@.contains_key(path.value()),
            r matches Some(i) ==> i < self.entries@.len() && self.entries@[i as int].0.value()
                == path.value(),
    {
        let mut i: usize = 0;
        while i < self.entries.len()
            invariant
                i <= self.entries.len(),
                forall|j: int|
                    0 <= j < i ==> (#[trigger] self.entries@[j]).0.value() != path.value(),
            decreases self.entries.len() - i,
        {
            if same_path(&self.entries[i].0, path) {
                proof {
                    use_type_invariant(self);
                    lemma_entry(self.entries@, i as int);
                }
                return Some(i);
            }
            i += 1;
        }
        proof {
            if self@.contains_key(path.value()) {
                let j = lemma_key(self.entries@, path.value());
            }
        }
        None
    }

    /// How often a file was scanned, where it is among these.
    pub fn scans(&self, path: &FilePath) -> (r: Option<u32>)
        ensures
            r == (if self@.contains_key(path.value()) {
                Some(self@[path.value()])
            } else {
                None
            }),
    {
        match self.find(path) {
            Some(i) => {
                proof {
                    use_type_invariant(self);
                    lemma_entry(self.entries@, i as int);
                }
                Some(self.entries[i].1)
            },
            None => None,
        }
    }

    /// Enters a number for a file, in place of the one it had.
    pub fn insert(&mut self, path: FilePath, n: u32)
        ensures
            final(self)@ == old(self)@.insert(path.value(), n),
    {
        let found = self.find(&path);
        proof {
            use_type_invariant(&*self);
        }
        let ghost before = self.entries@;
        let mut entries: Vec<(FilePath, u32)> = Vec::new();
        std::mem::swap(&mut entries, &mut self.entries);
        match found {
            Some(i) => {
                proof {
                    lemma_update(before, i as int, path, n);
                }
                entries.set(i, (path, n));
            },
            None => {
                proof {
                    lemma_push(before, path, n);
                }
                entries.push((path, n));
            },
        }
        self.entries = entries;
    }

    /// Counts one more scan of a file, where it is among these. Tells whether it
    /// is.
    pub fn mark_scanned(&mut self, path: &FilePath) -> (r: bool)
        requires
            old(self)@.contains_key(path.value()) ==> old(self)@[path.value()] < u32::MAX,
        ensures
            r == old(self)@.contains_key(path.value()),
            final(self)@ == (if r {
                old(self)@.insert(path.value(), (old(self)@[path.value()] + 1) as u32)
            } else {
                old(self)@
            }),
    {
        match self.scans(path) {
            Some(n) => {
                self.insert(path.copy(), n + 1);
                true
            },
            None => false,
        }
    }

    /// Whether every file can be marked `n` more times.
    pub fn room_for(&self, n: usize) -> (r: bool)
        ensures
            r == forall|k: Seq<PartView>|
                self@.contains_key(k) ==> #[trigger] self@[k] + n <= u32::MAX,
    {
        proof {
            use_type_invariant(self);
        }
        let mut i: usize = 0;
        while i < self.entries.len()
            invariant
                i <= self.entries.len(),
                entry_keys(self.entries@).no_duplicates(),
                forall|j: int| 0 <= j < i ==> (#[trigger] self.entries@[j]).1 + n <= u32::MAX,
            decreases self.entries.len() - i,
        {
            let e: u32 = self.entries[i].1;
            if n > (u32::MAX - e) as usize {
                proof {
                    lemma_entry(self.entries@, i as int);
                    let k = self.entries@[i as int].0.value();
                    assert(self@.contains_key(k) && self@[k] + n > u32::MAX);
                }
                return false;
            }
            i += 1;
        }
        proof {
            assert forall|k: Seq<PartView>| self@.contains_key(k) implies #[trigger] self@[k] + n
                <= u32::MAX by {
                let j = lemma_key(self.entries@, k);
            }
        }
        true
    }
}

/// Whether paths follow each other in the order of paths.
pub open spec fn sorted(paths: Seq<Seq<PartView>>) -> bool {
    forall|i: int, j: int|
        0 <= i < j < paths.len() ==> path_ordered(#[trigger] paths[i], #[trigger] paths[j])
}

/// The paths that the map holds the given number for.
pub open spec fn with_scans(files: Map<Seq<PartView>, u32>, n: u32) -> Set<Seq<PartView>> {
    Set::new(|k: Seq<PartView>| files.contains_key(k) && files[k] == n)
}

/// Puts a path into a sorted list of paths, where it belongs.
fn insert_sorted(paths: &mut Vec<FilePath>, path: FilePath)
    requires
        sorted(path_values(old(paths)@)),
    ensures
        sorted(path_values(final(paths)@)),
        exists|at: int|
            0 <= at <= old(paths).len() && path_values(final(paths)@) == #[trigger] path_values(
                old(paths)@,
            ).insert(at, path.value()),
{
    let ghost before = path_values(paths@);
    let ghost value = path.value();
    let mut at: usize = paths.len();
    while at > 0 && !in_order(&paths[at - 1], &path)
        invariant
            at <= paths.len(),
            before == path_values(paths@),
            value == path.value(),
            forall|j: int| at <= j < paths.len() ==> path_ordered(value, #[trigger] before[j]),
        decreases at,
    {
        at -= 1;
        proof {
            lemma_path_total(before[at as int], value);
        }
    }
    let ghost at_int = at as int;
    proof {
        assert forall|j: int| 0 <= j < at implies path_ordered(#[trigger] before[j], value) by {
            if j < at - 1 {
                lemma_path_transitive(before[j], before[at - 1], value);
            }
        }
    }
    paths.insert(at, path);
    proof {
        let after = path_values(paths@);
        assert(after =~= before.insert(at_int, value));
        assert forall|i: int, j: int| 0 <= i < j < after.len() implies path_ordered(
            #[trigger] after[i],
            #[trigger] after[j],
        ) by {
            let oi = if i < at_int { i } else { i - 1 };
            let oj = if j < at_int { j } else { j - 1 };
            if i != at_int && j != at_int {
                assert(path_ordered(before[oi], before[oj]));
            }
        }
    }
}

impl RsFiles {
    /// The paths of the files, in the order of paths.
    pub fn sorted_paths(&self) -> (r: Vec<FilePath>)
        ensures
            path_values(r@).to_set() == self@.dom(),
            path_values(r@).no_duplicates(),
            sorted(path_values(r@)),
    {
        proof {
            use_type_invariant(self);
        }
        let mut r: Vec<FilePath> = Vec::new();
        let mut i: usize = 0;
        let ghost keys = entry_keys(self.entries@);
        while i < self.entries.len()
            invariant
                i <= self.entries.len(),
                keys == entry_keys(self.entries@),
                keys.no_duplicates(),
                sorted(path_values(r@)),
                path_values(r@).no_duplicates(),
                forall|k: Seq<PartView>|
                    path_values(r@).contains(k) == keys.take(i as int).contains(k),
            decreases self.entries.len() - i,
        {
            let ghost before = path_values(r@);
            let path = self.entries[i].0.copy();
            let ghost value = path.value();
            insert_sorted(&mut r, path);
            proof {
                let at = choose|at: int|
                    0 <= at <= before.len() && path_values(r@) == #[trigger] before.insert(
                        at,
                        value,
                    );
                let after = path_values(r@);
                assert(keys[i as int] == value);
                let seen = keys.take(i as int);
                let more = keys.take(i + 1);
                assert(more =~= seen.push(value));
                assert(!seen.contains(value));
                assert forall|k: Seq<PartView>| after.contains(k) == (before.contains(k) || k
                    == value) by {
                    assert(after[at] == value);
                    if before.contains(k) {
                        let j = before.index_of(k);
                        assert(after[if j < at { j } else { j + 1 }] == k);
                    }
                    if after.contains(k) {
                        let j = after.index_of(k);
                        if j < at {
                            assert(before[j] == k);
                        } else if j > at {
                            assert(before[j - 1] == k);
                        }
                    }
                }
                assert forall|k: Seq<PartView>| more.contains(k) == (seen.contains(k) || k
                    == value) by {
                    assert(more[i as int] == value);
                    if seen.contains(k) {
                        let j = seen.index_of(k);
                        assert(more[j] == k);
                    }
                }
                assert(!before.contains(value));
                assert forall|a: int, b: int| 0 <= a < b < after.len() implies after[a]
                    != after[b] by {
                    let oa = if a < at { a } else { a - 1 };
                    let ob = if b < at { b } else { b - 1 };
                    if a == at {
                        assert(before[ob] == after[b]);
                    } else if b == at {
                        assert(before[oa] == after[a]);
                    } else {
                        assert(before[oa] != before[ob]);
                    }
                }
            }
            i += 1;
        }
        assert(keys.take(i as int) =~= keys);
        assert(path_values(r@).to_set() =~= self@.dom());
        r
    }

    /// The files that were not scanned at all.
    pub fn never_scanned(&self) -> (r: Vec<FilePath>)
        ensures
            path_values(r@).to_set() == with_scans(self@, 0),
            path_values(r@).no_duplicates(),
    {
        proof {
            use_type_invariant(self);
        }
        let mut r: Vec<FilePath> = Vec::new();
        let mut i: usize = 0;
        let ghost keys = entry_keys(self.entries@);
        while i < self.entries.len()
            invariant
                i <= self.entries.len(),
                keys == entry_keys(self.entries@),
                keys.no_duplicates(),
                path_values(r@).no_duplicates(),
                forall|k: Seq<PartView>|
                    path_values(r@).contains(k) == (exists|j: int|
                        0 <= j < i && #[trigger] keys[j] == k && self.entries@[j].1 == 0),
            decreases self.entries.len() - i,
        {
            let ghost before = path_values(r@);
            assert(keys[i as int] == self.entries@[i as int].0.value());
            if self.entries[i].1 == 0 {
                let path = self.entries[i].0.copy();
                let ghost value = path.value();
                r.push(path);
                proof {
                    let after = path_values(r@);
                    assert(after =~= before.push(value));
                    assert(!before.contains(value));
                    assert forall|k: Seq<PartView>| after.contains(k) == (before.contains(k) || k
                        == value) by {
                        assert(after[before.len() as int] == value);
                        if before.contains(k) {
                            let j = before.index_of(k);
                            assert(after[j] == k);
                        }
                    }
                }
            }
            i += 1;
        }
        proof {
            assert forall|k: Seq<PartView>| path_values(r@).contains(k) == with_scans(
                self@,
                0,
            ).contains(k) by {
                if self@.contains_key(k) {
                    let j = lemma_key(self.entries@, k);
                    assert(keys[j] == k);
                }
                if path_values(r@).contains(k) {
                    let j = choose|j: int|
                        0 <= j < i && #[trigger] keys[j] == k && self.entries@[j].1 == 0;
                    lemma_entry(self.entries@, j);
                }
            }
            assert(path_values(r@).to_set() =~= with_scans(self@, 0));
        }
        r
    }
}

/// The files that a build has read, none of them scanned yet: those that its
/// dependency files list, and those that were handed to the compiler.
pub open spec fn files_read(
    listed: Seq<Seq<PartView>>,
    handed: Set<Seq<PartView>>,
) -> Map<Seq<PartView>, u32> {
    Map::new(|k: Seq<PartView>| listed.contains(k) || handed.contains(k), |k: Seq<PartView>| 0u32)
}

/// Enters files as not scanned yet.
fn insert_unscanned(files: &mut RsFiles, paths: &Vec<FilePath>)
    ensures
        final(files)@ == old(files)@.union_prefer_right(
            files_read(path_values(paths@), Set::empty()),
        ),
{
    let ghost start = files@;
    let ghost values = path_values(paths@);
    let mut i: usize = 0;
    assert(files@ =~= start.union_prefer_right(files_read(values.take(0), Set::empty())));
    while i < paths.len()
        invariant
            i <= paths.len(),
            values == path_values(paths@),
            files@ == start.union_prefer_right(files_read(values.take(i as int), Set::empty())),
        decreases paths.len() - i,
    {
        files.insert(paths[i].copy(), 0);
        proof {
            let seen = values.take(i as int);
            let more = values.take(i + 1);
            assert(more =~= seen.push(values[i as int]));
            assert forall|k: Seq<PartView>| more.contains(k) == (seen.contains(k) || k
                == values[i as int]) by {
                assert(more[i as int] == values[i as int]);
                if seen.contains(k) {
                    let j = seen.index_of(k);
                    assert(more[j] == k);
                }
            }
            assert(files@ =~= start.union_prefer_right(files_read(more, Set::empty())));
        }
        i += 1;
    }
    assert(values.take(i as int) =~= values);
}

/// Gathers the files that a build has read: the canonical paths of the files that
/// its dependency files list, and the files that were handed to the compiler.
pub fn resolve_rs_file_deps(listed: &Vec<FilePath>, rs_file_args: &PathSet) -> (r: RsFiles)
    ensures
        r@ == files_read(path_values(listed@), rs_file_args@),
{
    let mut files = RsFiles::new();
    insert_unscanned(&mut files, listed);
    let handed = rs_file_args.paths();
    insert_unscanned(&mut files, handed);
    proof {
        assert forall|k: Seq<PartView>| path_values(handed@).contains(k)
            == rs_file_args@.contains(k) by {
            assert(path_values(handed@).to_set().contains(k) == rs_file_args@.contains(k));
        }
        assert(files@ =~= files_read(path_values(listed@), rs_file_args@));
    }
    files
}

/// Law: a file counts as read by a build where its dependency files list it or it was
/// handed to the compiler, and as never scanned before.
pub proof fn lemma_files_read(
    listed: Seq<Seq<PartView>>,
    handed: Set<Seq<PartView>>,
    k: Seq<PartView>,
    build: Map<Seq<PartView>, u32>,
    n: u32,
)
    ensures
        files_read(listed, handed).contains_key(k) <==> listed.contains(k) || handed.contains(k),
        files_read(listed, handed).contains_key(k) ==> files_read(listed, handed)[k] == 0,
        with_scans(build, n).contains(k) <==> build.contains_key(k) && build[k] == n,
        with_scans(files_read(listed, handed), 0).contains(k) <==> listed.contains(k)
            || handed.contains(k),
{
}

/// Law: a sorted list of paths without duplicates has each path before those that it
/// does not come behind, so that two such lists of the same paths are the same.
pub proof fn lemma_sorted_is_unique(a: Seq<Seq<PartView>>, b: Seq<Seq<PartView>>)
    requires
        sorted(a),
        sorted(b),
        a.no_duplicates(),
        b.no_duplicates(),
        a.to_set() == b.to_set(),
    ensures
        a == b,
    decreases a.len(),
{
    a.unique_seq_to_set();
    b.unique_seq_to_set();
    if a.len() > 0 {
        let x = a.last();
        let y = b.last();
        assert(a.to_set().contains(x) && b.to_set().contains(y));
        assert(a.contains(y) && b.contains(x));
        let i = a.index_of(y);
        let j = b.index_of(x);
        if i < a.len() - 1 {
            assert(path_ordered(a[i], a[a.len() - 1]));
        }
        if j < b.len() - 1 {
            assert(path_ordered(b[j], b[b.len() - 1]));
        }
        lemma_path_total(x, y);
        assert(x == y);
        let c = a.drop_last();
        let d = b.drop_last();
        assert forall|k: Seq<PartView>| c.contains(k) == d.contains(k) by {
            assert(a.to_set().contains(k) == b.to_set().contains(k));
            if c.contains(k) {
                let m = c.index_of(k);
                assert(a[m] == k);
                assert(k != x);
                assert(a.contains(k) && a.to_set().contains(k));
                assert(b.contains(k));
                let q = b.index_of(k);
                assert(d[q] == k);
            }
            if d.contains(k) {
                let m = d.index_of(k);
                assert(b[m] == k);
                assert(k != y);
                assert(b.contains(k) && b.to_set().contains(k));
                assert(a.contains(k));
                let q = a.index_of(k);
                assert(c[q] == k);
            }
        }
        assert(c.to_set() =~= d.to_set());
        assert forall|p: int, q: int| 0 <= p < q < c.len() implies path_ordered(
            #[trigger] c[p],
            #[trigger] c[q],
        ) by {
            assert(path_ordered(a[p], a[q]));
        }
        assert forall|p: int, q: int| 0 <= p < q < d.len() implies path_ordered(
            #[trigger] d[p],
            #[trigger] d[q],
        ) by {
            assert(path_ordered(b[p], b[q]));
        }
        lemma_sorted_is_unique(c, d);
        assert(a =~= c.push(x));
        assert(b =~= d.push(y));
    } else {
        assert(a =~= b);
    }
}

/// Law: lists of paths show their paths one for each, in order.
pub proof fn lemma_path_values(a: Seq<FilePath>, b: Seq<FilePath>, p: FilePath)
    ensures
        path_values(a + b) == path_values(a) + path_values(b),
        path_values(seq![p]) == seq![p.value()],
{
    assert(path_values(a + b) =~= path_values(a) + path_values(b));
    assert(path_values(seq![p]) =~= seq![p.value()]);
}

}
