//! What is printed: the line of a package, whose files are scanned for it, and the
//! lines before and after the tree.

use vstd::prelude::*;

use crate::count::CounterBlock;
use crate::options::{Flags, PrintConfig};
use crate::paths::FilePath;
#[allow(unused_imports)]
use crate::paths::{path_ordered, PartView};
use crate::rs_files::RsFiles;
#[allow(unused_imports)]
use crate::rs_files::{path_values, sorted, with_scans};
use crate::scan::{find_unsafe, room_to_scan, LogLine, ScanFailure, SourceFile};
#[allow(unused_imports)]
use crate::scan::{log_values, room_to_mark, rs_sources, scan_result};
#[allow(unused_imports)]
use crate::table::{line_of, spaced, style, styled, titles};
use crate::table::{dependency_line, header_line, totals_fit};

verus! {

/// Why there is no line for a package.
pub enum LineError {
    /// The scan of its files has stopped.
    Scan(ScanFailure),
    /// There are too many unsafe items to tell their number.
    TotalsTooLarge,
}

/// Whether `r` is what comes of a scan: the line of the package, or why there is
/// none.
pub open spec fn told(
    scanned: Result<CounterBlock, ScanFailure>,
    treevines: Seq<char>,
    name: Seq<char>,
    r: Result<String, LineError>,
) -> bool {
    match scanned {
        Err(f) => r == Err::<String, LineError>(LineError::Scan(f)),
        Ok(counters) => if counters.totals_fit() {
            r matches Ok(text) && line_of(counters, treevines, name, text@)
        } else {
            r == Err::<String, LineError>(LineError::TotalsTooLarge)
        },
    }
}

/// Tells what comes of a scan.
pub fn tell(scanned: Result<CounterBlock, ScanFailure>, treevines: &str, name: &str) -> (r: Result<
    String,
    LineError,
>)
    ensures
        told(scanned, treevines@, name@, r),
{
    match scanned {
        Err(f) => Err(LineError::Scan(f)),
        Ok(counters) => {
            if totals_fit(&counters) {
                Ok(dependency_line(&counters, treevines, name))
            } else {
                Err(LineError::TotalsTooLarge)
            }
        },
    }
}

/// Scans the files of a package and makes its line.
pub fn package_line(
    files: &Vec<SourceFile>,
    treevines: &str,
    name: &str,
    rs_files_used: &mut RsFiles,
    pc: &PrintConfig,
    log: &mut Vec<LogLine>,
) -> (r: Result<String, LineError>)
    requires
        room_to_mark(old(rs_files_used)@, rs_sources(files@)),
    ensures
        log_values(old(log)@).is_prefix_of(log_values(final(log)@)),
        exists|scanned: Result<CounterBlock, ScanFailure>|
            {
                &&& #[trigger] told(scanned, treevines@, name@, r)
                &&& scan_result(
                    rs_sources(files@),
                    old(rs_files_used)@,
                    pc.allow_partial_results,
                    pc.include_tests,
                    pc.verbosity,
                    scanned,
                    final(rs_files_used)@,
                    log_values(final(log)@).skip(old(log)@.len() as int),
                )
            },
{
    let scanned = find_unsafe(
        files,
        rs_files_used,
        pc.allow_partial_results,
        pc.include_tests,
        pc.verbosity,
        log,
    );
    tell(scanned, treevines, name)
}

/// Scans the files of a package and makes its line, where the numbers of scans
/// have room for that; where they do not, nothing is changed.
pub fn try_package_line(
    files: &Vec<SourceFile>,
    treevines: &str,
    name: &str,
    rs_files_used: &mut RsFiles,
    pc: &PrintConfig,
    log: &mut Vec<LogLine>,
) -> (r: Option<Result<String, LineError>>)
    ensures
        r is Some <==> room_to_mark(old(rs_files_used)@, rs_sources(files@)),
        log_values(old(log)@).is_prefix_of(log_values(final(log)@)),
        match r {
            None => {
                &&& final(rs_files_used)@ == old(rs_files_used)@
                &&& log_values(final(log)@) == log_values(old(log)@)
            },
            Some(line) => exists|scanned: Result<CounterBlock, ScanFailure>|
                {
                    &&& #[trigger] told(scanned, treevines@, name@, line)
                    &&& scan_result(
                        rs_sources(files@),
                        old(rs_files_used)@,
                        pc.allow_partial_results,
                        pc.include_tests,
                        pc.verbosity,
                        scanned,
                        final(rs_files_used)@,
                        log_values(final(log)@).skip(old(log)@.len() as int),
                    )
                },
        },
{
    if room_to_scan(rs_files_used, files) {
        Some(package_line(files, treevines, name, rs_files_used, pc, log))
    } else {
        None
    }
}

/// A line before or after the tree.
#[derive(Debug)]
pub enum Note {
    /// The line as it is printed.
    Text(String),
    /// A file that the build has read.
    UsedByBuild(FilePath),
    /// A file that the build has read and that belongs to no package of the tree.
    NeverScanned(FilePath),
}

/// The value of a [`Note`].
pub enum NoteView {
    Text(Seq<char>),
    UsedByBuild(Seq<PartView>),
    NeverScanned(Seq<PartView>),
}

impl Note {
    /// The value of the line.
    pub open spec fn value(self) -> NoteView {
        match self {
            Note::Text(t) => NoteView::Text(t@),
            Note::UsedByBuild(p) => NoteView::UsedByBuild(p.value()),
            Note::NeverScanned(p) => NoteView::NeverScanned(p.value()),
        }
    }
}

/// The values of lines.
pub open spec fn note_values(s: Seq<Note>) -> Seq<NoteView> {
    s.map_values(|n: Note| n.value())
}

/// A line for each file that the build has read.
pub open spec fn used_lines(paths: Seq<Seq<PartView>>) -> Seq<NoteView> {
    paths.map_values(|p: Seq<PartView>| NoteView::UsedByBuild(p))
}

/// The legend of the table and its header, between empty lines.
pub open spec fn table_head(header: Seq<char>) -> Seq<NoteView> {
    seq![
        NoteView::Text(""@),
        NoteView::Text("Metric output format: x/y"@),
        NoteView::Text("x = unsafe code used by the build"@),
        NoteView::Text("y = total unsafe code found in the crate"@),
        NoteView::Text(""@),
        NoteView::Text(header),
        NoteView::Text(""@),
    ]
}

/// A line for each file that was never scanned.
pub open spec fn warnings(paths: Seq<Seq<PartView>>) -> Seq<NoteView> {
    paths.map_values(|p: Seq<PartView>| NoteView::NeverScanned(p))
}

/// Whether lines are those before the tree: none where the output is to be quiet,
/// else the head of the table, behind the sorted files of the build where the
/// output is to be verbose.
pub open spec fn stand_before_tree(
    flags: Flags,
    build: Map<Seq<PartView>, u32>,
    lines: Seq<NoteView>,
) -> bool {
    if flags.quiet {
        lines.len() == 0
    } else {
        exists|paths: Seq<Seq<PartView>>, header: Seq<char>|
            {
                &&& lines == #[trigger] used_lines(paths) + #[trigger] table_head(header)
                &&& styled(spaced(titles()), style(seq!['1']), header)
                &&& if flags.verbose == 0 {
                    paths.len() == 0
                } else {
                    &&& paths.to_set() == build.dom()
                    &&& paths.no_duplicates()
                    &&& sorted(paths)
                }
            }
    }
}

/// Whether lines are those after the tree: none where the output is to be quiet,
/// else one for each file of the build that was never scanned.
pub open spec fn stand_after_tree(
    flags: Flags,
    build: Map<Seq<PartView>, u32>,
    lines: Seq<NoteView>,
) -> bool {
    if flags.quiet {
        lines.len() == 0
    } else {
        exists|paths: Seq<Seq<PartView>>|
            {
                &&& lines == #[trigger] warnings(paths)
                &&& paths.to_set() == with_scans(build, 0)
                &&& paths.no_duplicates()
            }
    }
}

/// The lines before the tree.
pub fn lines_before_tree(flags: &Flags, rs_files_used: &RsFiles) -> (r: Vec<Note>)
    ensures
        stand_before_tree(*flags, rs_files_used@, note_values(r@)),
{
    let mut r: Vec<Note> = Vec::new();
    if flags.quiet {
        return r;
    }
    let paths: Vec<FilePath> = if flags.verbose == 0 {
        Vec::new()
    } else {
        rs_files_used.sorted_paths()
    };
    let ghost values = path_values(paths@);
    let mut i: usize = 0;
    assert(note_values(r@) =~= used_lines(values.take(0)));
    while i < paths.len()
        invariant
            i <= paths.len(),
            values == path_values(paths@),
            note_values(r@) == used_lines(values.take(i as int)),
        decreases paths.len() - i,
    {
        let ghost before = note_values(r@);
        r.push(Note::UsedByBuild(paths[i].copy()));
        i += 1;
        proof {
            let shown = NoteView::UsedByBuild(values[i - 1]);
            assert(note_values(r@) =~= before.push(shown));
            assert(used_lines(values.take(i as int)) =~= before.push(shown));
        }
    }
    assert(values.take(i as int) =~= values);
    let header = header_line();
    let ghost h = header@;
    r.push(Note::Text("".to_owned()));
    r.push(Note::Text("Metric output format: x/y".to_owned()));
    r.push(Note::Text("x = unsafe code used by the build".to_owned()));
    r.push(Note::Text("y = total unsafe code found in the crate".to_owned()));
    r.push(Note::Text("".to_owned()));
    r.push(Note::Text(header));
    r.push(Note::Text("".to_owned()));
    assert(note_values(r@) =~= used_lines(values) + table_head(h));
    r
}

/// The lines after the tree.
pub fn lines_after_tree(flags: &Flags, rs_files_used: &RsFiles) -> (r: Vec<Note>)
    ensures
        stand_after_tree(*flags, rs_files_used@, note_values(r@)),
{
    let mut r: Vec<Note> = Vec::new();
    if flags.quiet {
        return r;
    }
    let paths = rs_files_used.never_scanned();
    let ghost values = path_values(paths@);
    let mut i: usize = 0;
    assert(note_values(r@) =~= warnings(values.take(0)));
    while i < paths.len()
        invariant
            i <= paths.len(),
            values == path_values(paths@),
            note_values(r@) == warnings(values.take(i as int)),
        decreases paths.len() - i,
    {
        let ghost before = note_values(r@);
        r.push(Note::NeverScanned(paths[i].copy()));
        i += 1;
        proof {
            let shown = NoteView::NeverScanned(values[i - 1]);
            assert(note_values(r@) =~= before.push(shown));
            assert(warnings(values.take(i as int)) =~= before.push(shown));
        }
    }
    assert(values.take(i as int) =~= values);
    r
}

/// Law: what is told of a scan that has stopped is where and why; of one that went
/// through, it is the line of the package, unless a total of unsafe items of some kind
/// is too large to be told.
pub proof fn lemma_told(
    failure: ScanFailure,
    counters: CounterBlock,
    treevines: Seq<char>,
    name: Seq<char>,
    r: Result<String, LineError>,
)
    ensures
        told(Err(failure), treevines, name, r) <==> r == Err::<String, LineError>(
            LineError::Scan(failure),
        ),
        told(Ok(counters), treevines, name, r) <==> {
            ||| !counters.totals_fit() && r == Err::<String, LineError>(LineError::TotalsTooLarge)
            ||| counters.totals_fit() && r is Ok && line_of(
                counters,
                treevines,
                name,
                r->Ok_0@,
            )
        },
{
}

/// Law: quiet output has no lines before the tree. Other output has the legend and the
/// header right before it, and, where it is verbose, one line for each file of the
/// build before these, in the order of paths, and no others.
pub proof fn lemma_lines_before_tree(
    flags: Flags,
    build: Map<Seq<PartView>, u32>,
    lines: Seq<NoteView>,
    p: Seq<PartView>,
)
    requires
        stand_before_tree(flags, build, lines),
    ensures
        flags.quiet ==> lines.len() == 0,
        !flags.quiet ==> {
            let n = lines.len() - 7;
            &&& n == if flags.verbose > 0 { build.dom().len() } else { 0 }
            &&& lines.contains(NoteView::UsedByBuild(p)) <==> flags.verbose > 0
                && build.contains_key(p)
            &&& forall|i: int| 0 <= i < n ==> (#[trigger] lines[i]) is UsedByBuild
            &&& forall|i: int, j: int|
                0 <= i < j < n ==> path_ordered(
                    (#[trigger] lines[i])->UsedByBuild_0,
                    (#[trigger] lines[j])->UsedByBuild_0,
                )
            &&& lines[n] == NoteView::Text(""@)
            &&& lines[n + 1] == NoteView::Text("Metric output format: x/y"@)
            &&& lines[n + 2] == NoteView::Text("x = unsafe code used by the build"@)
            &&& lines[n + 3] == NoteView::Text("y = total unsafe code found in the crate"@)
            &&& lines[n + 4] == NoteView::Text(""@)
            &&& lines[n + 5] is Text
            &&& styled(spaced(titles()), style(seq!['1']), lines[n + 5]->Text_0)
            &&& lines[n + 6] == NoteView::Text(""@)
        },
{
    if !flags.quiet {
        let (paths, header) = choose|paths: Seq<Seq<PartView>>, header: Seq<char>|
            {
                &&& lines == #[trigger] used_lines(paths) + #[trigger] table_head(header)
                &&& styled(spaced(titles()), style(seq!['1']), header)
                &&& if flags.verbose == 0 {
                    paths.len() == 0
                } else {
                    &&& paths.to_set() == build.dom()
                    &&& paths.no_duplicates()
                    &&& sorted(paths)
                }
            };
        let used = used_lines(paths);
        let head = table_head(header);
        let n = lines.len() - 7;
        assert(n == paths.len());
        if flags.verbose > 0 {
            paths.unique_seq_to_set();
        }
        assert forall|i: int| 0 <= i < n implies #[trigger] lines[i] == NoteView::UsedByBuild(
            paths[i],
        ) by {
            assert(lines[i] == used[i]);
        }
        assert forall|i: int| n <= i < lines.len() implies #[trigger] lines[i] == head[i - n] by {}
        if lines.contains(NoteView::UsedByBuild(p)) {
            let i = lines.index_of(NoteView::UsedByBuild(p));
            assert(i < n);
            assert(paths[i] == p);
            assert(paths.to_set().contains(p));
        }
        if flags.verbose > 0 && build.contains_key(p) {
            assert(paths.to_set().contains(p));
            let i = paths.index_of(p);
            assert(lines[i] == NoteView::UsedByBuild(p));
        }
        assert forall|i: int, j: int| 0 <= i < j < n implies path_ordered(
            (#[trigger] lines[i])->UsedByBuild_0,
            (#[trigger] lines[j])->UsedByBuild_0,
        ) by {
            assert(path_ordered(paths[i], paths[j]));
        }
    }
}

/// Law: quiet output has no lines after the tree. Other output has one for each file of
/// the build that was never scanned, and no others.
pub proof fn lemma_lines_after_tree(
    flags: Flags,
    build: Map<Seq<PartView>, u32>,
    lines: Seq<NoteView>,
    p: Seq<PartView>,
)
    requires
        stand_after_tree(flags, build, lines),
    ensures
        flags.quiet ==> lines.len() == 0,
        !flags.quiet ==> {
            &&& lines.contains(NoteView::NeverScanned(p)) <==> build.contains_key(p) && build[p]
                == 0
            &&& forall|i: int| 0 <= i < lines.len() ==> (#[trigger] lines[i]) is NeverScanned
            &&& lines.no_duplicates()
        },
{
    if !flags.quiet {
        let paths = choose|paths: Seq<Seq<PartView>>|
            {
                &&& lines == #[trigger] warnings(paths)
                &&& paths.to_set() == with_scans(build, 0)
                &&& paths.no_duplicates()
            };
        assert(with_scans(build, 0).contains(p) == (build.contains_key(p) && build[p] == 0));
        assert(paths.to_set().contains(p) == paths.contains(p));
        if paths.contains(p) {
            assert(lines[paths.index_of(p)] == NoteView::NeverScanned(p));
        }
        if lines.contains(NoteView::NeverScanned(p)) {
            assert(paths[lines.index_of(NoteView::NeverScanned(p))] == p);
        }
        assert forall|i: int, j: int| 0 <= i < j < lines.len() implies lines[i] != lines[j] by {
            assert(paths[i] != paths[j]);
        }
    }
}

/// Law: lines of text show one for each, in order, as what they are.
pub proof fn lemma_note_values(a: Seq<Note>, b: Seq<Note>, n: Note)
    ensures
        note_values(a + b) == note_values(a) + note_values(b),
        note_values(seq![n]) == seq![
            match n {
                Note::Text(t) => NoteView::Text(t@),
                Note::UsedByBuild(p) => NoteView::UsedByBuild(p.value()),
                Note::NeverScanned(p) => NoteView::NeverScanned(p.value()),
            },
        ],
{
    assert(note_values(a + b) =~= note_values(a) + note_values(b));
    assert(note_values(seq![n]) =~= seq![n.value()]);
}

}
