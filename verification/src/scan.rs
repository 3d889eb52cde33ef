//! Counting the unsafe code in the files of a crate.

use vstd::prelude::*;

use crate::count::CounterBlock;
#[allow(unused_imports)]
use crate::count::{Count, Split, Tally};
use crate::paths::{is_file_with_ext, same_path, DirEntry, FilePath};
#[allow(unused_imports)]
use crate::paths::{file_with_ext, PartView};
#[allow(unused_imports)]
use crate::rs_files::with_scans;
use crate::rs_files::RsFiles;
use crate::syntax::{parse_file, SyntaxNode};
#[allow(unused_imports)]
use crate::syntax::{parse_result, reading, trees, Tree};
use crate::text::text_from_bytes;
#[allow(unused_imports)]
use crate::text::utf8_lossy;
use crate::visitor::{GeigerSynVisitor, IncludeTests, ScanError, Verbosity};
#[allow(unused_imports)]
use crate::visitor::{lemma_walk_ends_outside, tally};
#[allow(unused_imports)]
use crate::count::lemma_tallies_add;

verus! {

/// What a walk through the directory of a crate came across, with what it holds
/// where it is a file.
pub struct SourceFile {
    pub entry: DirEntry,
    pub contents: Vec<u8>,
}

/// A source file, read as Rust.
pub struct ParsedFile {
    pub path: FilePath,
    /// The parts of the file, or the debug form of the error where it is no Rust.
    pub parsed: Result<Vec<SyntaxNode>, String>,
}

/// The value of a [`ParsedFile`].
pub type Source = (Seq<PartView>, Result<Seq<Tree>, Seq<char>>);

impl ParsedFile {
    pub open spec fn value(self) -> Source {
        (self.path.value(), parse_result(self.parsed))
    }
}

/// The values of files.
pub open spec fn sources(files: Seq<ParsedFile>) -> Seq<Source> {
    files.map_values(|f: ParsedFile| f.value())
}

/// What is reported of a file.
pub enum Event {
    UsedInBuild,
    NotUsedInBuild,
    /// It could not be read as Rust; the debug form of the error.
    ParseFailed(String),
}

/// The value of an [`Event`].
pub enum EventView {
    UsedInBuild,
    NotUsedInBuild,
    ParseFailed(Seq<char>),
}

/// A line of the log that a scan keeps.
pub struct LogLine {
    pub event: Event,
    pub path: FilePath,
}

/// The value of a [`LogLine`].
pub type LogLineView = (EventView, Seq<PartView>);

impl LogLine {
    pub open spec fn value(self) -> LogLineView {
        (
            match self.event {
                Event::UsedInBuild => EventView::UsedInBuild,
                Event::NotUsedInBuild => EventView::NotUsedInBuild,
                Event::ParseFailed(e) => EventView::ParseFailed(e@),
            },
            self.path.value(),
        )
    }
}

/// The values of log lines.
pub open spec fn log_values(log: Seq<LogLine>) -> Seq<LogLineView> {
    log.map_values(|l: LogLine| l.value())
}

/// The file that a scan stopped at, and why.
pub struct ScanFailure {
    pub path: FilePath,
    pub error: ScanError,
}

/// What a file is counted as; nothing where it is no Rust.
pub open spec fn file_tally(f: Source, tests: IncludeTests) -> Tally {
    match f.1 {
        Ok(s) => tally(s, tests, false),
        Err(e) => Tally::none(),
    }
}

/// What those of the files that the build uses, or those that it does not use,
/// are counted as.
pub open spec fn files_tally(
    files: Seq<Source>,
    build: Set<Seq<PartView>>,
    used: bool,
    tests: IncludeTests,
) -> Tally
    decreases files.len(),
{
    if files.len() == 0 {
        Tally::none()
    } else {
        let rest = files_tally(files.drop_last(), build, used, tests);
        if build.contains(files.last().0) == used {
            rest.plus(file_tally(files.last(), tests))
        } else {
            rest
        }
    }
}

/// How many of the files have the given path.
pub open spec fn times(files: Seq<Source>, path: Seq<PartView>) -> nat
    decreases files.len(),
{
    if files.len() == 0 {
        0
    } else {
        times(files.drop_last(), path) + if files.last().0 == path {
            1nat
        } else {
            0nat
        }
    }
}

/// The numbers of scans after one more scan of each of the files.
pub open spec fn scans_after(
    files: Seq<Source>,
    build: Map<Seq<PartView>, u32>,
) -> Map<Seq<PartView>, u32> {
    Map::new(
        |k: Seq<PartView>| build.contains_key(k),
        |k: Seq<PartView>| (build[k] + times(files, k)) as u32,
    )
}

/// What is reported of a file: whether the build uses it, where that is asked
/// for, and then that it is no Rust, where that is so and is no failure.
pub open spec fn file_log(
    f: Source,
    build: Set<Seq<PartView>>,
    allow_partial_results: bool,
    verbosity: Verbosity,
) -> Seq<LogLineView> {
    let used: EventView = if build.contains(f.0) {
        EventView::UsedInBuild
    } else {
        EventView::NotUsedInBuild
    };
    let first = if verbosity == Verbosity::Verbose {
        seq![(used, f.0)]
    } else {
        seq![]
    };
    match f.1 {
        Err(e) => if allow_partial_results {
            first.push((EventView::ParseFailed(e), f.0))
        } else {
            first
        },
        Ok(s) => first,
    }
}

/// What is reported of the files, one after the other.
pub open spec fn files_log(
    files: Seq<Source>,
    build: Set<Seq<PartView>>,
    allow_partial_results: bool,
    verbosity: Verbosity,
) -> Seq<LogLineView>
    decreases files.len(),
{
    if files.len() == 0 {
        seq![]
    } else {
        files_log(files.drop_last(), build, allow_partial_results, verbosity) + file_log(
            files.last(),
            build,
            allow_partial_results,
            verbosity,
        )
    }
}

/// Whether a counter has no room for what the file at place `i` adds to those
/// before it.
pub open spec fn too_large(
    files: Seq<Source>,
    i: int,
    build: Set<Seq<PartView>>,
    tests: IncludeTests,
) -> bool {
    !files_tally(files.take(i + 1), build, build.contains(files[i].0), tests).fits()
}

/// Whether a scan stops at the file at place `i`, with the given error: a file
/// that is no Rust where that is not allowed, or one that is too large.
pub open spec fn stops_with(
    files: Seq<Source>,
    i: int,
    build: Set<Seq<PartView>>,
    allow_partial_results: bool,
    tests: IncludeTests,
    error: ScanError,
) -> bool {
    match files[i].1 {
        Err(e) => !allow_partial_results && (error matches ScanError::Parse(text) && text@ == e),
        Ok(s) => too_large(files, i, build, tests) && error == ScanError::TooLarge,
    }
}

/// Whether a scan goes on past the file at place `i`.
pub open spec fn passes(
    files: Seq<Source>,
    i: int,
    build: Set<Seq<PartView>>,
    allow_partial_results: bool,
    tests: IncludeTests,
) -> bool {
    match files[i].1 {
        Err(e) => allow_partial_results,
        Ok(s) => !too_large(files, i, build, tests),
    }
}

/// The numbers that a scan fills in, file after file.
pub open spec fn counted(
    files: Seq<Source>,
    build: Set<Seq<PartView>>,
    tests: IncludeTests,
    counters: CounterBlock,
) -> bool {
    counters.holds(
        files_tally(files, build, true, tests),
        files_tally(files, build, false, tests),
    )
}

/// Counting one more file leaves the domain of the map alone and raises a single
/// number by one.
proof fn lemma_scan_one_more(
    files: Seq<Source>,
    build: Map<Seq<PartView>, u32>,
    before: Map<Seq<PartView>, u32>,
    after: Map<Seq<PartView>, u32>,
)
    requires
        files.len() > 0,
        room_to_mark(build, files),
        before == scans_after(files.drop_last(), build),
        after == (if before.contains_key(files.last().0) {
            before.insert(files.last().0, (before[files.last().0] + 1) as u32)
        } else {
            before
        }),
    ensures
        after == scans_after(files, build),
{
    assert forall|k: Seq<PartView>| build.contains_key(k) implies after[k] == scans_after(
        files,
        build,
    )[k] by {
        assert(build[k] + times(files, k) <= u32::MAX);
    }
    assert(after =~= scans_after(files, build));
}

/// No path occurs more often than there are files.
proof fn lemma_times_bound(files: Seq<Source>, path: Seq<PartView>)
    ensures
        times(files, path) <= files.len(),
    decreases files.len(),
{
    if files.len() > 0 {
        lemma_times_bound(files.drop_last(), path);
    }
}

/// Counts one file: marks it as scanned where the build uses it, and adds what it
/// holds to the counters of the visitor. Hands on why a file was not counted, but
/// for a file that is no Rust where that is allowed.
#[verifier::rlimit(40)]
pub fn count_file(
    vis: &mut GeigerSynVisitor,
    file: &ParsedFile,
    rs_files_used: &mut RsFiles,
    allow_partial_results: bool,
    log: &mut Vec<LogLine>,
) -> (r: Result<(), ScanError>)
    requires
        !old(vis).in_unsafe_block,
        old(rs_files_used)@.contains_key(file.path.value()) ==> old(
            rs_files_used,
        )@[file.path.value()] < u32::MAX,
    ensures
        final(vis).include_tests == old(vis).include_tests,
        final(vis).verbosity == old(vis).verbosity,
        final(vis).used_by_build == old(rs_files_used)@.contains_key(file.path.value()),
        !final(vis).in_unsafe_block,
        match file.value().1 {
            Err(e) => {
                &&& final(vis).counters == old(vis).counters
                &&& allow_partial_results ==> r is Ok
                &&& !allow_partial_results ==> (r matches Err(ScanError::Parse(text)) && text@
                    == e)
            },
            Ok(s) => if !old(vis).counters.has_room(
                final(vis).used_by_build,
                tally(s, old(vis).include_tests, false),
            ) {
                &&& final(vis).counters == old(vis).counters
                &&& r matches Err(ScanError::TooLarge)
            } else {
                &&& old(vis).counters.grown(
                    final(vis).used_by_build,
                    tally(s, old(vis).include_tests, false),
                    final(vis).counters,
                )
                &&& r is Ok
            },
        },
        final(rs_files_used)@ == (if old(rs_files_used)@.contains_key(file.path.value()) {
            old(rs_files_used)@.insert(
                file.path.value(),
                (old(rs_files_used)@[file.path.value()] + 1) as u32,
            )
        } else {
            old(rs_files_used)@
        }),
        log_values(final(log)@) == log_values(old(log)@) + file_log(
            file.value(),
            old(rs_files_used)@.dom(),
            allow_partial_results,
            old(vis).verbosity,
        ),
{
    let ghost before = log_values(log@);
    let used: bool = rs_files_used.mark_scanned(&file.path);
    vis.used_by_build = used;
    if vis.verbosity == Verbosity::Verbose {
        let event = if used {
            Event::UsedInBuild
        } else {
            Event::NotUsedInBuild
        };
        log.push(LogLine { event, path: file.path.copy() });
    }
    let ghost middle = log_values(log@);
    proof {
        assert(vis.verbosity == Verbosity::Verbose ==> middle =~= before.push(
            (
                if used {
                    EventView::UsedInBuild
                } else {
                    EventView::NotUsedInBuild
                },
                file.path.value(),
            ),
        ));
        if let Ok(s) = file.value().1 {
            lemma_walk_ends_outside(s, vis.include_tests);
        }
    }
    let r = match vis.scan_parsed(&file.parsed) {
        Err(ScanError::Parse(e)) => {
            if allow_partial_results {
                log.push(LogLine { event: Event::ParseFailed(e), path: file.path.copy() });
                assert(log_values(log@) =~= middle.push(
                    (EventView::ParseFailed(e@), file.path.value()),
                ));
                Ok(())
            } else {
                Err(ScanError::Parse(e))
            }
        },
        other => other,
    };
    proof {
        assert(log_values(log@) =~= before + file_log(
            file.value(),
            old(rs_files_used)@.dom(),
            allow_partial_results,
            old(vis).verbosity,
        ));
    }
    r
}

/// Whether every number of scans can be raised by one for each of the files that
/// it is for.
pub open spec fn room_to_mark(build: Map<Seq<PartView>, u32>, files: Seq<Source>) -> bool {
    forall|k: Seq<PartView>|
        build.contains_key(k) ==> #[trigger] build[k] + times(files, k) <= u32::MAX
}

/// The first files have no path more often than all of them.
proof fn lemma_times_prefix(files: Seq<Source>, n: int, path: Seq<PartView>)
    requires
        0 <= n <= files.len(),
    ensures
        times(files.take(n), path) <= times(files, path),
    decreases files.len(),
{
    if n == files.len() {
        assert(files.take(n) =~= files);
    } else {
        lemma_times_prefix(files.drop_last(), n, path);
        assert(files.drop_last().take(n) =~= files.take(n));
    }
}

/// What a scan of files comes to: the counters of all the files, or the first
/// file that it stops at, and, up to there, the numbers of scans and the log.
pub open spec fn scan_result(
    files: Seq<Source>,
    build: Map<Seq<PartView>, u32>,
    allow_partial_results: bool,
    tests: IncludeTests,
    verbosity: Verbosity,
    r: Result<CounterBlock, ScanFailure>,
    build_after: Map<Seq<PartView>, u32>,
    reported: Seq<LogLineView>,
) -> bool {
    let used = build.dom();
    match r {
        Ok(counters) => {
            &&& forall|i: int|
                0 <= i < files.len() ==> passes(files, i, used, allow_partial_results, tests)
            &&& counted(files, used, tests, counters)
            &&& build_after == scans_after(files, build)
            &&& reported == files_log(files, used, allow_partial_results, verbosity)
        },
        Err(f) => exists|n: int|
            {
                &&& 0 <= n < files.len()
                &&& forall|i: int|
                    0 <= i < n ==> passes(files, i, used, allow_partial_results, tests)
                &&& #[trigger] stops_with(files, n, used, allow_partial_results, tests, f.error)
                &&& f.path.value() == files[n].0
                &&& build_after == scans_after(files.take(n + 1), build)
                &&& reported == files_log(
                    files.take(n + 1),
                    used,
                    allow_partial_results,
                    verbosity,
                )
            },
    }
}

/// Counts the files of a crate one after the other.
#[verifier::rlimit(40)]
#[verifier::spinoff_prover]
pub fn count_files(
    files: &Vec<ParsedFile>,
    rs_files_used: &mut RsFiles,
    allow_partial_results: bool,
    include_tests: IncludeTests,
    verbosity: Verbosity,
    log: &mut Vec<LogLine>,
) -> (r: Result<CounterBlock, ScanFailure>)
    requires
        room_to_mark(old(rs_files_used)@, sources(files@)),
    ensures
        log_values(old(log)@).is_prefix_of(log_values(final(log)@)),
        scan_result(
            sources(files@),
            old(rs_files_used)@,
            allow_partial_results,
            include_tests,
            verbosity,
            r,
            final(rs_files_used)@,
            log_values(final(log)@).skip(old(log)@.len() as int),
        ),
{
    let ghost all = sources(files@);
    let ghost build = rs_files_used@;
    let ghost used = build.dom();
    let ghost start = log_values(log@);
    let mut vis = GeigerSynVisitor::new(include_tests, verbosity);
    let mut i: usize = 0;
    proof {
        assert(scans_after(all.take(0), build) =~= build);
        assert(start + files_log(all.take(0), used, allow_partial_results, verbosity) =~= start);
    }
    while i < files.len()
        invariant
            i <= files.len(),
            all == sources(files@),
            build == old(rs_files_used)@,
            used == build.dom(),
            room_to_mark(build, all),
            start == log_values(old(log)@),
            vis.include_tests == include_tests,
            vis.verbosity == verbosity,
            !vis.in_unsafe_block,
            forall|j: int|
                0 <= j < i ==> passes(all, j, used, allow_partial_results, include_tests),
            counted(all.take(i as int), used, include_tests, vis.counters),
            rs_files_used@ == scans_after(all.take(i as int), build),
            log_values(log@) == start + files_log(
                all.take(i as int),
                used,
                allow_partial_results,
                verbosity,
            ),
        decreases files.len() - i,
    {
        let ghost done = all.take(i as int);
        let ghost next = all.take(i + 1);
        let ghost before = rs_files_used@;
        proof {
            assert(next.drop_last() =~= done);
            assert(next.last() == files@[i as int].value());
            assert(before.dom() =~= used);
            assert(room_to_mark(build, next)) by {
                assert forall|k: Seq<PartView>| build.contains_key(k) implies #[trigger] build[k]
                    + times(next, k) <= u32::MAX by {
                    lemma_times_prefix(all, i + 1, k);
                    assert(build[k] + times(all, k) <= u32::MAX);
                }
            }
            if build.contains_key(files@[i as int].path.value()) {
                assert(build[files@[i as int].path.value()] + times(
                    next,
                    files@[i as int].path.value(),
                ) <= u32::MAX);
            }
        }
        let outcome = count_file(&mut vis, &files[i], rs_files_used, allow_partial_results, log);
        proof {
            lemma_scan_one_more(next, build, before, rs_files_used@);
            assert(log_values(log@) =~= start + files_log(
                next,
                used,
                allow_partial_results,
                verbosity,
            ));
        }
        match outcome {
            Ok(()) => {},
            Err(error) => {
                let failure = ScanFailure { path: files[i].path.copy(), error };
                proof {
                    assert(stops_with(
                        all,
                        i as int,
                        used,
                        allow_partial_results,
                        include_tests,
                        failure.error,
                    ));
                    assert(log_values(log@).skip(start.len() as int) =~= files_log(
                        next,
                        used,
                        allow_partial_results,
                        verbosity,
                    ));
                }
                return Err(failure);
            },
        }
        i += 1;
    }
    proof {
        assert(all.take(i as int) =~= all);
        assert(log_values(log@).skip(start.len() as int) =~= files_log(
            all,
            used,
            allow_partial_results,
            verbosity,
        ));
    }
    Ok(vis.counters)
}

/// The Rust sources among what a walk came across: the files with the extension
/// `rs`, each with what it reads as.
pub open spec fn rs_sources(files: Seq<SourceFile>) -> Seq<Source>
    decreases files.len(),
{
    if files.len() == 0 {
        seq![]
    } else {
        let rest = rs_sources(files.drop_last());
        let f = files.last();
        if file_with_ext(f.entry, "rs"@) {
            rest.push((f.entry.path.value(), reading(utf8_lossy(f.contents@))))
        } else {
            rest
        }
    }
}

/// No more sources than files.
proof fn lemma_rs_sources_len(files: Seq<SourceFile>)
    ensures
        rs_sources(files).len() <= files.len(),
    decreases files.len(),
{
    if files.len() > 0 {
        lemma_rs_sources_len(files.drop_last());
    }
}

/// Reads the Rust sources among what a walk came across.
fn parse_sources(files: &Vec<SourceFile>) -> (r: Vec<ParsedFile>)
    ensures
        sources(r@) == rs_sources(files@),
{
    let mut r: Vec<ParsedFile> = Vec::new();
    let mut i: usize = 0;
    assert(sources(r@) =~= rs_sources(files@.take(0)));
    while i < files.len()
        invariant
            i <= files.len(),
            sources(r@) == rs_sources(files@.take(i as int)),
        decreases files.len() - i,
    {
        let ghost seen = sources(r@);
        assert(files@.take(i + 1).drop_last() =~= files@.take(i as int));
        if is_file_with_ext(&files[i].entry, "rs") {
            let text = text_from_bytes(&files[i].contents);
            let parsed = parse_file(text.as_str());
            r.push(ParsedFile { path: files[i].entry.path.copy(), parsed });
            assert(sources(r@) =~= seen.push(r@.last().value()));
        }
        i += 1;
    }
    assert(files@.take(i as int) =~= files@);
    r
}

/// Counts the unsafe code in the Rust sources among what a walk through the
/// directory of a crate came across. Those that the build uses are marked as
/// scanned.
pub fn find_unsafe(
    files: &Vec<SourceFile>,
    rs_files_used: &mut RsFiles,
    allow_partial_results: bool,
    include_tests: IncludeTests,
    verbosity: Verbosity,
    log: &mut Vec<LogLine>,
) -> (r: Result<CounterBlock, ScanFailure>)
    requires
        room_to_mark(old(rs_files_used)@, rs_sources(files@)),
    ensures
        log_values(old(log)@).is_prefix_of(log_values(final(log)@)),
        scan_result(
            rs_sources(files@),
            old(rs_files_used)@,
            allow_partial_results,
            include_tests,
            verbosity,
            r,
            final(rs_files_used)@,
            log_values(final(log)@).skip(old(log)@.len() as int),
        ),
{
    let parsed = parse_sources(files);
    count_files(&parsed, rs_files_used, allow_partial_results, include_tests, verbosity, log)
}

/// How many of the Rust sources among what a walk came across have a path.
fn times_found(files: &Vec<SourceFile>, path: &FilePath) -> (n: usize)
    ensures
        n == times(rs_sources(files@), path.value()),
{
    let mut n: usize = 0;
    let mut i: usize = 0;
    while i < files.len()
        invariant
            i <= files.len(),
            n <= i,
            n == times(rs_sources(files@.take(i as int)), path.value()),
        decreases files.len() - i,
    {
        proof {
            let part = files@.take(i + 1);
            assert(part.drop_last() =~= files@.take(i as int));
            let found = rs_sources(part);
            let rest = rs_sources(files@.take(i as int));
            if found.len() > rest.len() {
                assert(found.drop_last() =~= rest);
            }
        }
        if is_file_with_ext(&files[i].entry, "rs") && same_path(&files[i].entry.path, path) {
            n += 1;
        }
        i += 1;
    }
    assert(files@.take(i as int) =~= files@);
    n
}

/// A path that Rust sources have is that of one of the files.
proof fn lemma_source_found(files: Seq<SourceFile>, path: Seq<PartView>) -> (i: int)
    requires
        times(rs_sources(files), path) > 0,
    ensures
        0 <= i < files.len(),
        file_with_ext(files[i].entry, "rs"@),
        files[i].entry.path.value() == path,
    decreases files.len(),
{
    let rest = files.drop_last();
    let f = files.last();
    if file_with_ext(f.entry, "rs"@) {
        assert(rs_sources(files).drop_last() =~= rs_sources(rest));
    }
    if file_with_ext(f.entry, "rs"@) && f.entry.path.value() == path {
        files.len() - 1
    } else {
        lemma_source_found(rest, path)
    }
}

/// Whether the Rust sources among what a walk came across can be marked as
/// scanned.
pub fn room_to_scan(rs_files_used: &RsFiles, files: &Vec<SourceFile>) -> (r: bool)
    ensures
        r == room_to_mark(rs_files_used@, rs_sources(files@)),
{
    let ghost all = rs_sources(files@);
    let ghost build = rs_files_used@;
    if rs_files_used.room_for(files.len()) {
        proof {
            lemma_rs_sources_len(files@);
            assert forall|k: Seq<PartView>| build.contains_key(k) implies #[trigger] build[k]
                + times(all, k) <= u32::MAX by {
                lemma_times_bound(all, k);
                assert(build[k] + files@.len() <= u32::MAX);
            }
        }
        return true;
    }
    let mut i: usize = 0;
    while i < files.len()
        invariant
            i <= files.len(),
            all == rs_sources(files@),
            build == rs_files_used@,
            forall|j: int|
                0 <= j < i && file_with_ext((#[trigger] files@[j]).entry, "rs"@)
                    && build.contains_key(files@[j].entry.path.value())
                    ==> build[files@[j].entry.path.value()] + times(
                    all,
                    files@[j].entry.path.value(),
                ) <= u32::MAX,
        decreases files.len() - i,
    {
        if is_file_with_ext(&files[i].entry, "rs") {
            if let Some(scans) = rs_files_used.scans(&files[i].entry.path) {
                let n: usize = times_found(files, &files[i].entry.path);
                if n > (u32::MAX - scans) as usize {
                    assert(build[files@[i as int].entry.path.value()] + times(
                        all,
                        files@[i as int].entry.path.value(),
                    ) > u32::MAX);
                    return false;
                }
            }
        }
        i += 1;
    }
    proof {
        assert forall|k: Seq<PartView>| build.contains_key(k) implies #[trigger] build[k] + times(
            all,
            k,
        ) <= u32::MAX by {
            if times(all, k) > 0 {
                let j = lemma_source_found(files@, k);
                assert(file_with_ext(files@[j].entry, "rs"@));
            }
        }
    }
    true
}

/// Law: what two groups of files are counted as is the sum of what each is
/// counted as, so that the order of the files does not matter.
pub proof fn lemma_tally_of_both(
    a: Seq<Source>,
    b: Seq<Source>,
    build: Set<Seq<PartView>>,
    used: bool,
    tests: IncludeTests,
)
    ensures
        files_tally(a + b, build, used, tests) == files_tally(a, build, used, tests).plus(
            files_tally(b, build, used, tests),
        ),
        files_tally(a + b, build, used, tests) == files_tally(b + a, build, used, tests),
{
    lemma_tally_concat(a, b, build, used, tests);
    lemma_tally_concat(b, a, build, used, tests);
}

proof fn lemma_tally_concat(
    a: Seq<Source>,
    b: Seq<Source>,
    build: Set<Seq<PartView>>,
    used: bool,
    tests: IncludeTests,
)
    ensures
        files_tally(a + b, build, used, tests) == files_tally(a, build, used, tests).plus(
            files_tally(b, build, used, tests),
        ),
    decreases b.len(),
{
    if b.len() == 0 {
        assert(a + b =~= a);
    } else {
        assert((a + b).drop_last() =~= a + b.drop_last());
        lemma_tally_concat(a, b.drop_last(), build, used, tests);
    }
}

/// Law: which files the build uses decides how the items are told apart, but not
/// how many there are.
pub proof fn lemma_total_of_any_build(
    files: Seq<Source>,
    build: Set<Seq<PartView>>,
    other: Set<Seq<PartView>>,
    tests: IncludeTests,
)
    ensures
        files_tally(files, build, true, tests).plus(files_tally(files, build, false, tests))
            == files_tally(files, other, true, tests).plus(
            files_tally(files, other, false, tests),
        ),
    decreases files.len(),
{
    if files.len() > 0 {
        lemma_total_of_any_build(files.drop_last(), build, other, tests);
    }
}

/// Law: a crate counts as one that uses unsafe code exactly where a file that the
/// build uses holds an unsafe item.
pub proof fn lemma_unsafe_found(
    files: Seq<Source>,
    build: Set<Seq<PartView>>,
    tests: IncludeTests,
    counters: CounterBlock,
)
    requires
        counted(files, build, tests, counters),
    ensures
        counters.uses_unsafe() <==> exists|i: int|
            0 <= i < files.len() && build.contains(files[i].0) && file_tally(
                #[trigger] files[i],
                tests,
            ).unsafe_total() > 0,
{
    lemma_unsafe_total(files, build, tests);
}

proof fn lemma_unsafe_total(
    files: Seq<Source>,
    build: Set<Seq<PartView>>,
    tests: IncludeTests,
)
    ensures
        files_tally(files, build, true, tests).unsafe_total() > 0 <==> exists|i: int|
            0 <= i < files.len() && build.contains(files[i].0) && file_tally(
                #[trigger] files[i],
                tests,
            ).unsafe_total() > 0,
    decreases files.len(),
{
    if files.len() > 0 {
        let rest = files.drop_last();
        lemma_unsafe_total(rest, build, tests);
        assert forall|i: int| 0 <= i < rest.len() implies rest[i] == files[i] by {}
        if files_tally(rest, build, true, tests).unsafe_total() > 0 {
            let i = choose|i: int|
                0 <= i < rest.len() && build.contains(rest[i].0) && file_tally(
                    #[trigger] rest[i],
                    tests,
                ).unsafe_total() > 0;
            assert(files[i] == rest[i]);
        }
        if exists|i: int|
            0 <= i < files.len() && build.contains(files[i].0) && file_tally(
                #[trigger] files[i],
                tests,
            ).unsafe_total() > 0 {
            let i = choose|i: int|
                0 <= i < files.len() && build.contains(files[i].0) && file_tally(
                    #[trigger] files[i],
                    tests,
                ).unsafe_total() > 0;
            if i < rest.len() {
                assert(rest[i] == files[i]);
            }
        }
    }
}

/// Law: after a scan, the files of the build that count as never scanned are
/// those that did so before and that are not among the files of the scan.
pub proof fn lemma_never_scanned(files: Seq<Source>, build: Map<Seq<PartView>, u32>)
    requires
        room_to_mark(build, files),
    ensures
        with_scans(scans_after(files, build), 0) == with_scans(build, 0).difference(
            files.map_values(|f: Source| f.0).to_set(),
        ),
{
    let paths = files.map_values(|f: Source| f.0);
    assert forall|k: Seq<PartView>| build.contains_key(k) implies (scans_after(files, build)[k]
        == 0) == (build[k] == 0 && !paths.contains(k)) by {
        assert(build[k] + times(files, k) <= u32::MAX);
        lemma_times_none(files, k);
    }
    assert(with_scans(scans_after(files, build), 0) =~= with_scans(build, 0).difference(
        paths.to_set(),
    ));
}

/// A path occurs among files where it occurs at least once.
pub proof fn lemma_times_none(files: Seq<Source>, path: Seq<PartView>)
    ensures
        times(files, path) == 0 <==> !files.map_values(|f: Source| f.0).contains(path),
    decreases files.len(),
{
    let paths = files.map_values(|f: Source| f.0);
    if files.len() > 0 {
        let rest = files.drop_last();
        let rest_paths = rest.map_values(|f: Source| f.0);
        lemma_times_none(rest, path);
        assert(paths =~= rest_paths.push(files.last().0));
        assert(paths[rest.len() as int] == files.last().0);
        if rest_paths.contains(path) {
            let i = rest_paths.index_of(path);
            assert(paths[i] == path);
        }
    }
}

/// Law: a scan keeps the files of the build, lowers no number of scans, and raises
/// each by one for every file of the scan that it is for, so those of files among
/// them by one at least.
pub proof fn lemma_scan_only_raises(
    files: Seq<Source>,
    build: Map<Seq<PartView>, u32>,
    k: Seq<PartView>,
)
    requires
        room_to_mark(build, files),
    ensures
        scans_after(files, build).dom() == build.dom(),
        build.contains_key(k) ==> {
            &&& scans_after(files, build)[k] == build[k] + times(files, k)
            &&& scans_after(files, build)[k] >= build[k]
            &&& files.map_values(|f: Source| f.0).contains(k) ==> scans_after(files, build)[k]
                >= build[k] + 1
        },
{
    lemma_times_none(files, k);
    assert(scans_after(files, build).dom() =~= build.dom());
    if build.contains_key(k) {
        assert(build[k] + times(files, k) <= u32::MAX);
    }
}

/// Law: whatever a scan comes to, it keeps the files of the build and lowers no
/// number of scans; where it goes through, it raises those of the files among its
/// own by one at least.
pub proof fn lemma_scan_result_only_raises(
    files: Seq<Source>,
    build: Map<Seq<PartView>, u32>,
    allow_partial_results: bool,
    tests: IncludeTests,
    verbosity: Verbosity,
    r: Result<CounterBlock, ScanFailure>,
    build_after: Map<Seq<PartView>, u32>,
    reported: Seq<LogLineView>,
    k: Seq<PartView>,
)
    requires
        room_to_mark(build, files),
        scan_result(
            files,
            build,
            allow_partial_results,
            tests,
            verbosity,
            r,
            build_after,
            reported,
        ),
    ensures
        build_after.dom() == build.dom(),
        build.contains_key(k) ==> build_after[k] >= build[k],
        build.contains_key(k) && r is Ok && files.map_values(|f: Source| f.0).contains(k)
            ==> build_after[k] >= build[k] + 1,
{
    match r {
        Ok(counters) => {
            lemma_scan_only_raises(files, build, k);
        },
        Err(f) => {
            let n = choose|n: int|
                {
                    &&& 0 <= n < files.len()
                    &&& #[trigger] stops_with(
                        files,
                        n,
                        build.dom(),
                        allow_partial_results,
                        tests,
                        f.error,
                    )
                    &&& build_after == scans_after(files.take(n + 1), build)
                };
            let part = files.take(n + 1);
            assert forall|p: Seq<PartView>| build.contains_key(p) implies #[trigger] build[p]
                + times(part, p) <= u32::MAX by {
                lemma_times_prefix(files, n + 1, p);
                assert(build[p] + times(files, p) <= u32::MAX);
            }
            lemma_scan_only_raises(part, build, k);
        },
    }
}

/// Law: where partial results are allowed, a file that is no Rust does not stop a
/// scan and adds nothing to the counters.
pub proof fn lemma_partial_results(
    files: Seq<Source>,
    i: int,
    build: Set<Seq<PartView>>,
    tests: IncludeTests,
)
    requires
        0 <= i < files.len(),
        files[i].1 is Err,
    ensures
        passes(files, i, build, true, tests),
        forall|used: bool|
            #![auto]
            files_tally(files, build, used, tests) == files_tally(
                files.remove(i),
                build,
                used,
                tests,
            ),
{
    assert forall|used: bool|
        #![auto]
        files_tally(files, build, used, tests) == files_tally(
            files.remove(i),
            build,
            used,
            tests,
        ) by {
        lemma_tally_without(files, i, build, used, tests);
    }
}

proof fn lemma_tally_without(
    files: Seq<Source>,
    i: int,
    build: Set<Seq<PartView>>,
    used: bool,
    tests: IncludeTests,
)
    requires
        0 <= i < files.len(),
        files[i].1 is Err,
    ensures
        files_tally(files, build, used, tests) == files_tally(
            files.remove(i),
            build,
            used,
            tests,
        ),
    decreases files.len(),
{
    if i == files.len() - 1 {
        assert(files.remove(i) =~= files.drop_last());
    } else {
        lemma_tally_without(files.drop_last(), i, build, used, tests);
        assert(files.remove(i).drop_last() =~= files.drop_last().remove(i));
        assert(files.remove(i).last() == files.last());
    }
}

/// Law: a file counts among those that the build uses where its path is among those of
/// the build, and among the others where it is not, as what it holds, and as nothing
/// where it is no Rust.
pub proof fn lemma_single_file_counts(
    f: Source,
    build: Set<Seq<PartView>>,
    used: bool,
    tests: IncludeTests,
)
    ensures
        build.contains(f.0) != used ==> files_tally(seq![f], build, used, tests) == Tally::none(),
        build.contains(f.0) == used ==> files_tally(seq![f], build, used, tests) == (match f.1 {
            Ok(s) => tally(s, tests, false),
            Err(e) => Tally::none(),
        }),
        files_tally(seq![], build, used, tests) == Tally::none(),
{
    assert(seq![f].drop_last() =~= seq![]);
    assert(files_tally(seq![f].drop_last(), build, used, tests) == Tally::none());
    lemma_tallies_add(
        file_tally(f, tests),
        Tally::none(),
        Tally::none().functions,
        Tally::none().functions,
    );
}

/// Law: a path occurs among files as often as it does among the first and among the
/// others, once in a file that has it, and not at all in one that does not.
pub proof fn lemma_times_join(a: Seq<Source>, b: Seq<Source>, f: Source, path: Seq<PartView>)
    ensures
        times(a + b, path) == times(a, path) + times(b, path),
        times(seq![f], path) == if f.0 == path { 1nat } else { 0nat },
        times(seq![], path) == 0,
    decreases b.len(),
{
    assert(seq![f].drop_last() =~= seq![]);
    assert(times(seq![f].drop_last(), path) == 0);
    if b.len() == 0 {
        assert(a + b =~= a);
    } else {
        assert((a + b).drop_last() =~= a + b.drop_last());
        lemma_times_join(a, b.drop_last(), f, path);
    }
}

/// Law: the log is kept file after file. Of a file it says, where that is to be said,
/// whether the build uses it, and then, where that is no failure, that it is no Rust.
pub proof fn lemma_log_joins(
    a: Seq<Source>,
    b: Seq<Source>,
    path: Seq<PartView>,
    parts: Seq<Tree>,
    e: Seq<char>,
    build: Set<Seq<PartView>>,
    allow_partial_results: bool,
    verbosity: Verbosity,
)
    ensures
        files_log(a + b, build, allow_partial_results, verbosity) == files_log(
            a,
            build,
            allow_partial_results,
            verbosity,
        ) + files_log(b, build, allow_partial_results, verbosity),
        files_log(seq![], build, allow_partial_results, verbosity) == Seq::<LogLineView>::empty(),
        files_log(seq![(path, Ok(parts))], build, allow_partial_results, Verbosity::Verbose)
            == seq![
            (
                if build.contains(path) {
                    EventView::UsedInBuild
                } else {
                    EventView::NotUsedInBuild
                },
                path,
            ),
        ],
        verbosity != Verbosity::Verbose ==> files_log(
            seq![(path, Ok(parts))],
            build,
            allow_partial_results,
            verbosity,
        ) == Seq::<LogLineView>::empty(),
        files_log(seq![(path, Err(e))], build, false, verbosity) == files_log(
            seq![(path, Ok(parts))],
            build,
            false,
            verbosity,
        ),
        files_log(seq![(path, Err(e))], build, true, verbosity) == files_log(
            seq![(path, Ok(parts))],
            build,
            true,
            verbosity,
        ).push((EventView::ParseFailed(e), path)),
    decreases b.len(),
{
    let good: Source = (path, Ok(parts));
    let bad: Source = (path, Err(e));
    assert(seq![good].drop_last() =~= seq![]);
    assert(seq![bad].drop_last() =~= seq![]);
    let none = Seq::<Source>::empty();
    assert forall|allow: bool, v: Verbosity|
        #![auto]
        files_log(seq![good], build, allow, v) == file_log(good, build, allow, v) && files_log(
            seq![bad],
            build,
            allow,
            v,
        ) == file_log(bad, build, allow, v) by {
        assert(files_log(none, build, allow, v) =~= seq![]);
        assert(files_log(seq![good], build, allow, v) =~= file_log(good, build, allow, v));
        assert(files_log(seq![bad], build, allow, v) =~= file_log(bad, build, allow, v));
    }
    assert(file_log(good, build, allow_partial_results, Verbosity::Verbose).len() == 1);
    if b.len() == 0 {
        assert(a + b =~= a);
        assert(files_log(a, build, allow_partial_results, verbosity) + files_log(
            b,
            build,
            allow_partial_results,
            verbosity,
        ) =~= files_log(a, build, allow_partial_results, verbosity));
    } else {
        assert((a + b).drop_last() =~= a + b.drop_last());
        lemma_log_joins(
            a,
            b.drop_last(),
            path,
            parts,
            e,
            build,
            allow_partial_results,
            verbosity,
        );
        assert(files_log(a + b, build, allow_partial_results, verbosity) =~= files_log(
            a,
            build,
            allow_partial_results,
            verbosity,
        ) + files_log(b, build, allow_partial_results, verbosity));
    }
}

/// Law: the Rust sources among what a walk came across are found one after the other: a
/// file with the extension `rs` is one, with its path and with what its bytes read as,
/// anything else is none.
pub proof fn lemma_sources_join(a: Seq<SourceFile>, b: Seq<SourceFile>, f: SourceFile)
    ensures
        rs_sources(a + b) == rs_sources(a) + rs_sources(b),
        rs_sources(seq![]) == Seq::<Source>::empty(),
        rs_sources(seq![f]) == if file_with_ext(f.entry, "rs"@) {
            seq![(f.entry.path.value(), reading(utf8_lossy(f.contents@)))]
        } else {
            Seq::<Source>::empty()
        },
    decreases b.len(),
{
    assert(seq![f].drop_last() =~= seq![]);
    assert(rs_sources(seq![f].drop_last()) =~= seq![]);
    assert(rs_sources(seq![f]) =~= if file_with_ext(f.entry, "rs"@) {
        seq![(f.entry.path.value(), reading(utf8_lossy(f.contents@)))]
    } else {
        Seq::<Source>::empty()
    });
    if b.len() == 0 {
        assert(a + b =~= a);
        assert(rs_sources(a) + rs_sources(b) =~= rs_sources(a));
    } else {
        assert((a + b).drop_last() =~= a + b.drop_last());
        lemma_sources_join(a, b.drop_last(), f);
        assert(rs_sources(a + b) =~= rs_sources(a) + rs_sources(b));
    }
}

/// Law: a scan either goes on past a file or stops at it. It stops at a file that is no
/// Rust where partial results are not allowed, with what was said of it, and at a file
/// with which the items of its kind of use no longer fit, and at no other.
pub proof fn lemma_where_a_scan_stops(
    files: Seq<Source>,
    i: int,
    build: Set<Seq<PartView>>,
    allow_partial_results: bool,
    tests: IncludeTests,
    error: ScanError,
)
    requires
        0 <= i < files.len(),
    ensures
        files[i].1 matches Err(e) ==> {
            &&& passes(files, i, build, allow_partial_results, tests) <==> allow_partial_results
            &&& stops_with(files, i, build, allow_partial_results, tests, error) <==> (
            !allow_partial_results && (error matches ScanError::Parse(text) && text@ == e))
        },
        files[i].1 is Ok ==> {
            &&& passes(files, i, build, allow_partial_results, tests) <==> files_tally(
                files.take(i + 1),
                build,
                build.contains(files[i].0),
                tests,
            ).fits()
            &&& stops_with(files, i, build, allow_partial_results, tests, error) <==> (!passes(
                files,
                i,
                build,
                allow_partial_results,
                tests,
            ) && error == ScanError::TooLarge)
        },
{
}

/// Law: a scan that goes through has passed every file, holds what those used by the
/// build and what the others count as, has raised the numbers of scans of all of them,
/// and has reported on all of them. One that does not has passed all files before the
/// one that it stopped at, and has raised numbers and reported up to that one.
pub proof fn lemma_what_a_scan_comes_to(
    files: Seq<Source>,
    build: Map<Seq<PartView>, u32>,
    allow_partial_results: bool,
    tests: IncludeTests,
    verbosity: Verbosity,
    r: Result<CounterBlock, ScanFailure>,
    build_after: Map<Seq<PartView>, u32>,
    reported: Seq<LogLineView>,
)
    requires
        scan_result(
            files,
            build,
            allow_partial_results,
            tests,
            verbosity,
            r,
            build_after,
            reported,
        ),
    ensures
        r matches Ok(counters) ==> {
            &&& forall|i: int|
                #![trigger files[i]]
                0 <= i < files.len() ==> passes(
                    files,
                    i,
                    build.dom(),
                    allow_partial_results,
                    tests,
                )
            &&& counters.holds(
                files_tally(files, build.dom(), true, tests),
                files_tally(files, build.dom(), false, tests),
            )
            &&& build_after == scans_after(files, build)
            &&& reported == files_log(files, build.dom(), allow_partial_results, verbosity)
        },
        r matches Err(failure) ==> exists|n: int|
            {
                &&& 0 <= n < files.len()
                &&& !passes(files, n, build.dom(), allow_partial_results, tests)
                &&& stops_with(
                    files,
                    n,
                    build.dom(),
                    allow_partial_results,
                    tests,
                    failure.error,
                )
                &&& forall|i: int|
                    #![trigger files[i]]
                    0 <= i < n ==> passes(files, i, build.dom(), allow_partial_results, tests)
                &&& failure.path.value() == (#[trigger] files[n]).0
                &&& build_after == scans_after(files.take(n + 1), build)
                &&& reported == files_log(
                    files.take(n + 1),
                    build.dom(),
                    allow_partial_results,
                    verbosity,
                )
            },
{
    if let Err(failure) = r {
        let n = choose|n: int|
            {
                &&& 0 <= n < files.len()
                &&& forall|i: int|
                    0 <= i < n ==> passes(files, i, build.dom(), allow_partial_results, tests)
                &&& #[trigger] stops_with(
                    files,
                    n,
                    build.dom(),
                    allow_partial_results,
                    tests,
                    failure.error,
                )
                &&& failure.path.value() == files[n].0
                &&& build_after == scans_after(files.take(n + 1), build)
                &&& reported == files_log(
                    files.take(n + 1),
                    build.dom(),
                    allow_partial_results,
                    verbosity,
                )
            };
        assert(files[n].0 == failure.path.value());
    }
}

/// Law: there is room to mark files as scanned where every number of scans of the
/// build can be raised as often as its path occurs among the files.
pub proof fn lemma_room_to_mark(build: Map<Seq<PartView>, u32>, files: Seq<Source>)
    ensures
        !room_to_mark(build, files) <==> exists|k: Seq<PartView>|
            build.contains_key(k) && #[trigger] build[k] + times(files, k) > u32::MAX,
{
}

/// Law: a log shows its lines one for each, in order, each with its file and with what
/// is reported of it.
pub proof fn lemma_log_values(a: Seq<LogLine>, b: Seq<LogLine>, l: LogLine)
    ensures
        log_values(a + b) == log_values(a) + log_values(b),
        log_values(seq![l]) == seq![l.value()],
        l.value().1 == l.path.value(),
        l.value().0 is UsedInBuild <==> l.event is UsedInBuild,
        l.value().0 is NotUsedInBuild <==> l.event is NotUsedInBuild,
        l.event matches Event::ParseFailed(e) ==> l.value().0 == EventView::ParseFailed(e@),
{
    assert(log_values(a + b) =~= log_values(a) + log_values(b));
    assert(log_values(seq![l]) =~= seq![l.value()]);
}

/// Law: files that were read show their paths and what was read, one for each, in order.
pub proof fn lemma_source_values(a: Seq<ParsedFile>, b: Seq<ParsedFile>, f: ParsedFile)
    ensures
        sources(a + b) == sources(a) + sources(b),
        sources(seq![f]) == seq![f.value()],
        f.value().0 == f.path.value(),
        match f.parsed {
            Ok(nodes) => f.value().1 == Ok::<Seq<Tree>, Seq<char>>(trees(nodes@)),
            Err(e) => f.value().1 == Err::<Seq<Tree>, Seq<char>>(e@),
        },
{
    assert(sources(a + b) =~= sources(a) + sources(b));
    assert(sources(seq![f]) =~= seq![f.value()]);
}

}
