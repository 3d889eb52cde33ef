use geiger::count::{Count, CounterBlock};
use geiger::options::{print_config, Charset, Flags};
use geiger::paths::{is_file_with_ext, same_path, DirEntry, FilePath, PathPart};
use geiger::report::{
    lines_after_tree, lines_before_tree, package_line, tell, try_package_line, LineError, Note,
};
use geiger::rs_files::{resolve_rs_file_deps, PathSet, RsFiles};
use geiger::scan::{
    count_file, count_files, find_unsafe, room_to_scan, Event, LogLine, ParsedFile, ScanFailure, SourceFile,
};
use geiger::syntax::parse_file;
use geiger::visitor::{GeigerSynVisitor, IncludeTests, ScanError, Verbosity};

fn part(s: &str) -> PathPart {
    match s {
        "" => PathPart::RootDir,
        "." => PathPart::CurDir,
        ".." => PathPart::ParentDir,
        _ => PathPart::Normal(s.as_bytes().to_vec()),
    }
}

fn path(s: &str) -> FilePath {
    FilePath {
        parts: s.split('/').map(part).collect(),
    }
}

fn text(p: &FilePath) -> String {
    let parts: Vec<String> = p
        .parts
        .iter()
        .map(|p| match p {
            PathPart::RootDir => "".to_string(),
            PathPart::CurDir => ".".to_string(),
            PathPart::ParentDir => "..".to_string(),
            PathPart::Normal(n) => String::from_utf8(n.clone()).unwrap(),
        })
        .collect();
    parts.join("/")
}

fn texts(ps: &[FilePath]) -> Vec<String> {
    ps.iter().map(text).collect()
}

fn entry(is_file: bool, s: &str) -> DirEntry {
    DirEntry {
        is_file,
        path: path(s),
    }
}

fn source(s: &str, contents: &str) -> SourceFile {
    SourceFile {
        entry: entry(true, s),
        contents: contents.as_bytes().to_vec(),
    }
}

fn parsed(s: &str, contents: &str) -> ParsedFile {
    ParsedFile {
        path: path(s),
        parsed: parse_file(contents),
    }
}

fn used(paths: &[&str]) -> RsFiles {
    let mut r = RsFiles::new();
    for p in paths {
        r.insert(path(p), 0);
    }
    r
}

fn events(log: &[LogLine]) -> Vec<String> {
    log.iter()
        .map(|l| {
            let e = match &l.event {
                Event::UsedInBuild => "used".to_string(),
                Event::NotUsedInBuild => "not used".to_string(),
                Event::ParseFailed(e) => {
                    assert!(e.contains("Error"));
                    "failed".to_string()
                }
            };
            format!("{} {}", e, text(&l.path))
        })
        .collect()
}

fn functions(safe_unused: u64, safe_used: u64, unsafe_unused: u64, unsafe_used: u64) -> Count {
    Count {
        safe_unused,
        safe_used,
        unsafe_unused,
        unsafe_used,
    }
}

#[test]
fn extensions() {
    assert!(is_file_with_ext(&entry(true, "/a/b.rs"), "rs"));
    assert!(!is_file_with_ext(&entry(false, "/a/b.rs"), "rs"));
    assert!(!is_file_with_ext(&entry(true, "/a/b.RS"), "rs"));
    assert!(!is_file_with_ext(&entry(true, "/a/.rs"), "rs"));
    assert!(!is_file_with_ext(&entry(true, "/a/rs"), "rs"));
    assert!(is_file_with_ext(&entry(true, "a.d.rs"), "rs"));
    assert!(!is_file_with_ext(&entry(true, "a.rs.d"), "rs"));
    assert!(is_file_with_ext(&entry(true, "a."), ""));
    assert!(is_file_with_ext(&entry(true, "..rs"), "rs"));
    assert!(!is_file_with_ext(&entry(true, "a.rs/.."), "rs"));
    assert!(!is_file_with_ext(
        &DirEntry {
            is_file: true,
            path: FilePath { parts: vec![] }
        },
        "rs"
    ));
}

#[test]
fn an_extension_that_is_no_text_is_read_lossily() {
    let e = DirEntry {
        is_file: true,
        path: FilePath {
            parts: vec![PathPart::Normal(vec![b'a', b'.', 0xff])],
        },
    };
    assert!(is_file_with_ext(&e, "\u{fffd}"));
    assert!(!is_file_with_ext(&e, "\u{ff}"));
}

#[test]
fn paths_are_compared_by_their_parts() {
    assert!(same_path(&path("/a/b"), &path("/a/b")));
    assert!(!same_path(&path("/a/b"), &path("a/b")));
    assert!(!same_path(&path("/a"), &path("/a/b")));
    assert!(same_path(&path("a").copy(), &path("a")));
}

#[test]
fn a_set_holds_a_path_once() {
    let mut s = PathSet::new();
    assert!(s.insert(path("/a")));
    assert!(s.insert(path("/b")));
    assert!(!s.insert(path("/a")));
    assert!(s.contains(&path("/b")));
    assert!(!s.contains(&path("/c")));
    assert_eq!(texts(s.paths()), vec!["/a", "/b"]);
}

#[test]
fn scans_of_files() {
    let mut r = used(&["/a", "/b"]);
    assert_eq!(r.scans(&path("/a")), Some(0));
    assert_eq!(r.scans(&path("/c")), None);
    assert!(r.mark_scanned(&path("/a")));
    assert!(r.mark_scanned(&path("/a")));
    assert!(!r.mark_scanned(&path("/c")));
    assert_eq!(r.scans(&path("/a")), Some(2));
    assert_eq!(r.scans(&path("/c")), None);
    assert_eq!(texts(&r.never_scanned()), vec!["/b"]);
    assert!(r.room_for(u32::MAX as usize - 2));
    assert!(!r.room_for(u32::MAX as usize - 1));
    r.insert(path("/a"), 0);
    assert_eq!(r.scans(&path("/a")), Some(0));
}

#[test]
fn paths_are_sorted_as_std_sorts_them() {
    let names = [
        "/b", "a", "/a/b", "/a-b", "/a", "../x", "./x", "/a/b/c", "Z", "/é", "/a.b/c",
    ];
    let mut expected: Vec<std::path::PathBuf> =
        names.iter().map(std::path::PathBuf::from).collect();
    expected.sort();
    let got: Vec<std::path::PathBuf> = texts(&used(&names).sorted_paths())
        .iter()
        .map(std::path::PathBuf::from)
        .collect();
    assert_eq!(got, expected);
    assert!(used(&[]).sorted_paths().is_empty());
}

#[test]
fn files_that_a_build_has_read() {
    let mut handed = PathSet::new();
    handed.insert(path("/a"));
    handed.insert(path("/c"));
    let listed = vec![path("/a"), path("/b"), path("/a")];
    let r = resolve_rs_file_deps(&listed, &handed);
    assert_eq!(texts(&r.sorted_paths()), vec!["/a", "/b", "/c"]);
    assert_eq!(r.never_scanned().len(), 3);
    assert_eq!(r.scans(&path("/b")), Some(0));
}

#[test]
fn files_are_told_apart_by_their_use() {
    let files = vec![
        source("/c/a.rs", "unsafe fn f() {}"),
        source("/c/b.rs", "unsafe fn g() {} fn h() {}"),
        source("/c/a.txt", "unsafe fn i() {}"),
    ];
    let mut rs = used(&["/c/a.rs", "/d/x.rs"]);
    let mut log = vec![];
    let r = find_unsafe(
        &files,
        &mut rs,
        true,
        IncludeTests::No,
        Verbosity::Verbose,
        &mut log,
    );
    let b = match r {
        Ok(b) => b,
        Err(_) => panic!(),
    };
    assert_eq!(b.functions, functions(1, 0, 1, 1));
    assert_eq!(events(&log), vec!["used /c/a.rs", "not used /c/b.rs"]);
    assert_eq!(rs.scans(&path("/c/a.rs")), Some(1));
    assert_eq!(rs.scans(&path("/c/b.rs")), None);
    assert_eq!(texts(&rs.never_scanned()), vec!["/d/x.rs"]);
}

#[test]
fn bytes_that_are_no_text_are_read_lossily() {
    let files = vec![SourceFile {
        entry: entry(true, "/a.rs"),
        contents: b"// \xff\nfn f() {}".to_vec(),
    }];
    let mut rs = used(&[]);
    let mut log = vec![];
    let r = find_unsafe(
        &files,
        &mut rs,
        false,
        IncludeTests::No,
        Verbosity::Normal,
        &mut log,
    );
    assert!(matches!(r, Ok(b) if b.functions == functions(1, 0, 0, 0)));
}

#[test]
fn partial_results() {
    let files = vec![
        parsed("/a.rs", "unsafe fn f() {}"),
        parsed("/b.rs", "fn ("),
        parsed("/c.rs", "fn g() {}"),
    ];
    let mut rs = used(&["/b.rs"]);
    let mut log = vec![];
    let r = count_files(
        &files,
        &mut rs,
        true,
        IncludeTests::No,
        Verbosity::Normal,
        &mut log,
    );
    assert!(matches!(r, Ok(b) if b.functions == functions(1, 0, 1, 0)));
    assert_eq!(events(&log), vec!["failed /b.rs"]);
    assert_eq!(rs.scans(&path("/b.rs")), Some(1));

    let mut rs = used(&["/b.rs", "/c.rs"]);
    let mut log = vec![];
    let r = count_files(
        &files,
        &mut rs,
        false,
        IncludeTests::No,
        Verbosity::Verbose,
        &mut log,
    );
    match r {
        Err(ScanFailure {
            path: p,
            error: ScanError::Parse(_),
        }) => assert_eq!(text(&p), "/b.rs"),
        _ => panic!(),
    }
    assert_eq!(events(&log), vec!["not used /a.rs", "used /b.rs"]);
    assert_eq!(rs.scans(&path("/b.rs")), Some(1));
    assert_eq!(rs.scans(&path("/c.rs")), Some(0));
}

#[test]
fn one_file() {
    let mut vis = GeigerSynVisitor::new(IncludeTests::No, Verbosity::Verbose);
    let mut rs = used(&["/a.rs"]);
    let mut log = vec![];
    let f = parsed("/a.rs", "unsafe fn f() { unsafe { g() } }");
    assert!(count_file(&mut vis, &f, &mut rs, false, &mut log).is_ok());
    assert!(vis.used_by_build);
    assert_eq!(vis.counters.functions, functions(0, 0, 0, 1));
    assert_eq!(vis.counters.exprs, functions(0, 0, 0, 1));
    vis.counters.functions.unsafe_used = u64::MAX;
    assert!(matches!(
        count_file(&mut vis, &f, &mut rs, true, &mut log),
        Err(ScanError::TooLarge)
    ));
    assert_eq!(events(&log), vec!["used /a.rs", "used /a.rs"]);
    assert_eq!(rs.scans(&path("/a.rs")), Some(2));
}

#[test]
fn which_files_are_used_does_not_change_the_sum() {
    let files = vec![
        parsed("/a.rs", "unsafe fn f() {} fn g() {}"),
        parsed("/b.rs", "unsafe fn h() {}"),
    ];
    for build in [vec![], vec!["/a.rs"], vec!["/a.rs", "/b.rs"]] {
        let mut rs = used(&build);
        let mut log = vec![];
        let r = count_files(
            &files,
            &mut rs,
            true,
            IncludeTests::No,
            Verbosity::Quiet,
            &mut log,
        );
        match r {
            Ok(b) => {
                assert_eq!(b.functions.unsafe_used + b.functions.unsafe_unused, 2);
                assert_eq!(b.functions.safe_used + b.functions.safe_unused, 1);
                assert_eq!(b.has_unsafe(), !build.is_empty());
            }
            Err(_) => panic!(),
        }
        assert!(log.is_empty());
    }
}

#[test]
fn the_line_of_a_package() {
    colored::control::set_override(false);
    let pc = print_config(&Flags {
        verbose: 1,
        quiet: false,
        invert: false,
        no_indent: false,
        prefix_depth: false,
        all: false,
        charset: Charset::Utf8,
        include_tests: false,
    });
    let files = vec![source("/a.rs", "unsafe fn f() {}"), source("/b.rs", "]")];
    let mut rs = used(&["/a.rs"]);
    let mut log = vec![];
    let r = package_line(&files, "└── ", "x v1.0.0", &mut rs, &pc, &mut log);
    match r {
        Ok(line) => assert_eq!(
            line,
            "1/1        0/0          0/0    0/0     0/0      ☢ └── x v1.0.0"
        ),
        Err(_) => panic!(),
    }
    assert_eq!(
        events(&log),
        vec!["used /a.rs", "not used /b.rs", "failed /b.rs"]
    );
}

#[test]
fn only_files_that_are_scanned_need_room() {
    let mut rs = RsFiles::new();
    rs.insert(path("/a.rs"), u32::MAX - 1);
    rs.insert(path("/b.rs"), u32::MAX);
    let a = || source("/a.rs", "fn f() {}");
    assert!(room_to_scan(&rs, &vec![a(), source("/c.rs", "fn g() {}")]));
    assert!(!room_to_scan(&rs, &vec![a(), a()]));
    assert!(!room_to_scan(&rs, &vec![source("/b.rs", "")]));
    let dir = SourceFile {
        entry: entry(false, "/b.rs"),
        contents: vec![],
    };
    assert!(room_to_scan(&rs, &vec![dir]));
    assert!(room_to_scan(&rs, &vec![]));

    colored::control::set_override(false);
    let pc = print_config(&Flags {
        verbose: 1,
        quiet: false,
        invert: false,
        no_indent: false,
        prefix_depth: false,
        all: false,
        charset: Charset::Utf8,
        include_tests: false,
    });
    let mut log = vec![];
    match try_package_line(&vec![a()], "", "x", &mut rs, &pc, &mut log) {
        Some(Ok(line)) => assert_eq!(
            line,
            "0/0        0/0          0/0    0/0     0/0        x"
        ),
        _ => panic!(),
    }
    assert_eq!(rs.scans(&path("/a.rs")), Some(u32::MAX));
    assert_eq!(rs.scans(&path("/b.rs")), Some(u32::MAX));
    assert_eq!(events(&log), vec!["used /a.rs"]);
    assert!(try_package_line(&vec![a()], "", "x", &mut rs, &pc, &mut log).is_none());
    assert_eq!(rs.scans(&path("/a.rs")), Some(u32::MAX));
    assert_eq!(log.len(), 1);
}

#[test]
fn scans_only_add_up() {
    let files = vec![
        parsed("/a.rs", "fn f() {}"),
        parsed("/b.rs", "fn ("),
        parsed("/c.rs", "fn g() {}"),
    ];
    let mut rs = used(&["/a.rs", "/b.rs", "/d.rs"]);
    for n in 1..4 {
        let mut log = vec![];
        let r = count_files(
            &files,
            &mut rs,
            true,
            IncludeTests::No,
            Verbosity::Quiet,
            &mut log,
        );
        assert!(r.is_ok());
        assert_eq!(rs.scans(&path("/a.rs")), Some(n));
        assert_eq!(rs.scans(&path("/b.rs")), Some(n));
        assert_eq!(rs.scans(&path("/c.rs")), None);
        assert_eq!(rs.scans(&path("/d.rs")), Some(0));
    }
    assert_eq!(texts(&rs.sorted_paths()), vec!["/a.rs", "/b.rs", "/d.rs"]);
}

#[test]
fn no_line_of_a_package() {
    colored::control::set_override(false);
    let failure = ScanFailure {
        path: path("/a.rs"),
        error: ScanError::TooLarge,
    };
    assert!(matches!(
        tell(Err(failure), "", "x"),
        Err(LineError::Scan(ScanFailure {
            error: ScanError::TooLarge,
            ..
        }))
    ));
    let mut b = CounterBlock::default();
    b.methods.unsafe_used = u64::MAX;
    assert!(tell(Ok(b), "", "x").is_ok());
    b.methods.unsafe_unused = 1;
    assert!(matches!(
        tell(Ok(b), "", "x"),
        Err(LineError::TotalsTooLarge)
    ));
}

#[test]
fn lines_round_the_tree() {
    colored::control::set_override(false);
    let shown = |notes: Vec<Note>| -> Vec<String> {
        notes
            .iter()
            .map(|n| match n {
                Note::Text(t) => t.clone(),
                Note::UsedByBuild(p) => format!("used {}", text(p)),
                Note::NeverScanned(p) => format!("never {}", text(p)),
            })
            .collect()
    };
    let flags = |verbose: u32, quiet: bool| Flags {
        verbose,
        quiet,
        invert: false,
        no_indent: false,
        prefix_depth: false,
        all: false,
        charset: Charset::Utf8,
        include_tests: false,
    };
    let mut rs = used(&["/b.rs", "/a.rs", "/c.rs"]);
    rs.mark_scanned(&path("/b.rs"));
    let head = vec![
        "",
        "Metric output format: x/y",
        "x = unsafe code used by the build",
        "y = total unsafe code found in the crate",
        "",
        "Functions  Expressions  Impls  Traits  Methods  Dependency",
        "",
    ];
    assert_eq!(shown(lines_before_tree(&flags(0, false), &rs)), head);
    let mut long = vec!["used /a.rs", "used /b.rs", "used /c.rs"];
    long.extend(head);
    assert_eq!(shown(lines_before_tree(&flags(2, false), &rs)), long);
    assert!(lines_before_tree(&flags(2, true), &rs).is_empty());
    let mut after = shown(lines_after_tree(&flags(0, false), &rs));
    after.sort();
    assert_eq!(after, vec!["never /a.rs", "never /c.rs"]);
    assert!(lines_after_tree(&flags(1, true), &rs).is_empty());
}
