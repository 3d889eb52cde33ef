use geiger::executor::{
    ends_with_rs, find_out_dir, find_rs_files, plan_exec, record, record_call,
    ArgsError, CustomExecutorInnerContext,
};
use geiger::graph::{
    build_graph, links_fit, package_links, Dependency, EdgeDirection, Kind, Package, PackageGraph,
    Resolve,
};
use geiger::options::{print_config, Charset, Flags, PrintConfig};
use geiger::paths::{FilePath, PathPart};
use geiger::platform::{collect_cfgs, get_cfgs, Cfg, CfgExpr, Platform};
use geiger::tree::{
    print_dependency, print_dependency_kind, print_tree, tree_is_finite, TreeLine,
};
use std::collections::HashSet;
use std::str::FromStr;

fn dep(matching: &[usize], kind: Kind) -> Dependency {
    Dependency {
        matching: matching.to_vec(),
        platform: None,
        kind,
    }
}

fn package(dependencies: Vec<Dependency>, deps: &[usize]) -> Option<Package> {
    Some(Package {
        dependencies,
        deps: deps.to_vec(),
    })
}

fn resolve(packages: Vec<Option<Package>>) -> Resolve {
    let n = packages.len();
    Resolve {
        packages,
        replacements: vec![None; n],
    }
}

fn circle() -> Resolve {
    resolve(vec![
        package(
            vec![dep(&[2], Kind::Normal), dep(&[1], Kind::Normal)],
            &[2, 1],
        ),
        package(vec![dep(&[2], Kind::Build)], &[2]),
        package(vec![dep(&[1], Kind::Development)], &[1]),
        package(vec![dep(&[0], Kind::Normal)], &[0]),
    ])
}

fn diamond() -> Resolve {
    resolve(vec![
        package(
            vec![dep(&[1], Kind::Normal), dep(&[2], Kind::Normal)],
            &[1, 2],
        ),
        package(vec![dep(&[3], Kind::Normal)], &[3]),
        package(
            vec![dep(&[3], Kind::Normal), dep(&[3], Kind::Build)],
            &[3],
        ),
        package(vec![], &[]),
    ])
}

fn graph(r: &Resolve, root: usize) -> PackageGraph {
    match build_graph(r, root, None, &None) {
        Ok(g) => g,
        Err(_) => panic!(),
    }
}

fn config(all: bool, invert: bool) -> PrintConfig {
    print_config(&Flags {
        verbose: 0,
        quiet: false,
        invert,
        no_indent: false,
        prefix_depth: false,
        all,
        charset: Charset::Utf8,
        include_tests: false,
    })
}

fn shown(lines: &[TreeLine]) -> Vec<String> {
    lines
        .iter()
        .map(|l| match l {
            TreeLine::Package(p, vines) => format!("{}{}", vines, p),
            TreeLine::Heading(h) => h.clone(),
        })
        .collect()
}

fn listed(lines: &[TreeLine]) -> Vec<usize> {
    lines
        .iter()
        .filter_map(|l| match l {
            TreeLine::Package(p, _) => Some(*p),
            TreeLine::Heading(_) => None,
        })
        .collect()
}

fn name(s: &str) -> Cfg {
    Cfg::Name(s.to_string())
}

fn pair(k: &str, v: &str) -> Cfg {
    Cfg::KeyPair(k.to_string(), v.to_string())
}

fn bytes(args: &[&str]) -> Vec<Vec<u8>> {
    args.iter().map(|a| a.as_bytes().to_vec()).collect()
}

#[test]
fn packages_of_a_graph() {
    let r = circle();
    assert!(links_fit(&r, None, &None));
    let g = graph(&r, 0);
    assert_eq!(g.len(), 3);
    assert!(g.contains(0) && g.contains(1) && g.contains(2));
    assert!(!g.contains(3));
    let g = graph(&r, 1);
    assert_eq!(g.len(), 2);
    assert!(!g.contains(0));
}

#[test]
fn neighbours_come_latest_first() {
    let g = graph(&circle(), 0);
    assert_eq!(
        g.neighbors(0, EdgeDirection::Outgoing),
        vec![(1, Kind::Normal), (2, Kind::Normal)]
    );
    assert_eq!(g.neighbors(0, EdgeDirection::Incoming), vec![]);
    let mut into = g.neighbors(2, EdgeDirection::Incoming);
    into.sort_by_key(|l| l.0);
    assert_eq!(into, vec![(0, Kind::Normal), (1, Kind::Build)]);
    let g = graph(&diamond(), 0);
    assert_eq!(
        g.neighbors(2, EdgeDirection::Outgoing),
        vec![(3, Kind::Build), (3, Kind::Normal)]
    );
}

#[test]
fn a_package_that_is_not_loaded_is_asked_for() {
    let mut r = circle();
    r.packages[2] = None;
    assert!(matches!(build_graph(&r, 0, None, &None), Err(2)));
    assert!(matches!(build_graph(&r, 2, None, &None), Err(2)));
    r.packages[3] = None;
    r.packages[2] = package(vec![], &[]);
    assert!(build_graph(&r, 0, None, &None).is_ok());
}

#[test]
fn replacements_stand_in() {
    let mut r = diamond();
    r.replacements[1] = Some(3);
    let g = graph(&r, 0);
    assert!(!g.contains(1));
    assert_eq!(
        g.neighbors(0, EdgeDirection::Outgoing),
        vec![(2, Kind::Normal), (3, Kind::Normal)]
    );
}

#[test]
fn declared_dependencies_have_to_match() {
    let d = vec![
        dep(&[1], Kind::Normal),
        dep(&[2], Kind::Build),
        dep(&[1, 2], Kind::Development),
    ];
    let r = resolve(vec![
        package(d, &[2, 1]),
        package(vec![], &[]),
        package(vec![], &[]),
    ]);
    let p = r.packages[0].as_ref().unwrap();
    assert_eq!(
        package_links(&r, p, None, &None),
        vec![
            (2, Kind::Build),
            (2, Kind::Development),
            (1, Kind::Normal),
            (1, Kind::Development)
        ]
    );
}

#[test]
fn platforms_limit_dependencies() {
    let mut d = dep(&[1], Kind::Normal);
    d.platform = Some(Platform::Cfg(CfgExpr::Value(name("unix"))));
    let r = resolve(vec![package(vec![d], &[1]), package(vec![], &[])]);
    let reached = |target: Option<&str>, cfgs: &Option<Vec<Cfg>>| {
        match build_graph(&r, 0, target, cfgs) {
            Ok(g) => g.contains(1),
            Err(_) => panic!(),
        }
    };
    assert!(reached(Some("t"), &Some(vec![name("unix")])));
    assert!(!reached(Some("t"), &Some(vec![name("windows")])));
    assert!(!reached(Some("t"), &None));
    assert!(reached(None, &None));
    assert!(reached(None, &Some(vec![])));
}

#[test]
fn a_tree_with_headings() {
    let g = graph(&circle(), 0);
    let lines = print_tree(0, &g, &config(false, false));
    let empty = " ".repeat(50);
    assert_eq!(
        shown(&lines),
        vec![
            "0".to_string(),
            "├── 1".to_string(),
            format!("{}│   [build-dependencies]", empty),
            "│   └── 2".to_string(),
            format!("{}│       [dev-dependencies]", empty),
            "│       └── 1".to_string(),
            "└── 2".to_string(),
        ]
    );
    let mut pc = config(false, false);
    pc.prefix = geiger::options::Prefix::Depth;
    assert_eq!(
        shown(&print_tree(0, &g, &pc)),
        vec!["0 0", "1 1", "2 2", "3 1", "1 2"]
    );
    pc.prefix = geiger::options::Prefix::Plain;
    assert_eq!(
        shown(&print_tree(0, &g, &pc)),
        vec!["0", "1", "2", "1", "2"]
    );
}

#[test]
fn one_line_for_each_edge_unless_all_is_shown() {
    let g = graph(&diamond(), 0);
    assert_eq!(
        listed(&print_tree(0, &g, &config(false, false))),
        vec![0, 1, 3, 2, 3, 3]
    );
    let mut r = diamond();
    r.packages.push(package(vec![], &[]));
    r.replacements.push(None);
    r.packages[3] = package(vec![dep(&[4], Kind::Normal)], &[4]);
    let g = graph(&r, 0);
    assert!(tree_is_finite(&g, 0, EdgeDirection::Outgoing));
    assert_eq!(
        listed(&print_tree(0, &g, &config(true, false))),
        vec![0, 1, 3, 4, 2, 3, 4, 3, 4]
    );
    assert_eq!(
        listed(&print_tree(0, &g, &config(false, false))),
        vec![0, 1, 3, 4, 2, 3, 3]
    );
}

#[test]
fn an_inverted_tree() {
    let g = graph(&diamond(), 0);
    assert_eq!(
        listed(&print_tree(3, &g, &config(false, true))),
        vec![3, 1, 0, 2, 0, 2]
    );
    assert_eq!(listed(&print_tree(0, &g, &config(false, true))), vec![0]);
}

#[test]
fn circles_have_no_end() {
    let g = graph(&circle(), 0);
    assert!(!tree_is_finite(&g, 0, EdgeDirection::Outgoing));
    assert!(!tree_is_finite(&g, 2, EdgeDirection::Incoming));
    assert!(tree_is_finite(&g, 0, EdgeDirection::Incoming));
    let g = graph(&diamond(), 0);
    assert!(tree_is_finite(&g, 0, EdgeDirection::Outgoing));
}

#[test]
fn the_order_of_edges_does_not_show() {
    let mut r = diamond();
    let a = listed(&print_tree(0, &graph(&r, 0), &config(false, false)));
    if let Some(p) = r.packages[0].as_mut() {
        p.deps.reverse();
        p.dependencies.reverse();
    }
    if let Some(p) = r.packages[2].as_mut() {
        p.dependencies.reverse();
    }
    let b = listed(&print_tree(0, &graph(&r, 0), &config(false, false)));
    assert_eq!(a, b);
}

#[test]
fn conditions() {
    let cfgs = vec![name("unix"), pair("target_os", "linux")];
    let v = |c: Cfg| CfgExpr::Value(c);
    assert!(v(name("unix")).matches(&cfgs));
    assert!(!v(name("linux")).matches(&cfgs));
    assert!(v(pair("target_os", "linux")).matches(&cfgs));
    assert!(!v(pair("target_os", "unix")).matches(&cfgs));
    assert!(!v(name("target_os")).matches(&cfgs));
    assert!(CfgExpr::Not(Box::new(v(name("windows")))).matches(&cfgs));
    assert!(CfgExpr::All(vec![]).matches(&cfgs));
    assert!(!CfgExpr::Any(vec![]).matches(&cfgs));
    assert!(CfgExpr::Any(vec![v(name("windows")), v(name("unix"))]).matches(&cfgs));
    assert!(!CfgExpr::All(vec![v(name("unix")), v(name("windows"))]).matches(&cfgs));
    assert!(CfgExpr::All(vec![
        v(name("unix")),
        CfgExpr::Not(Box::new(CfgExpr::Any(vec![v(name("windows"))])))
    ])
    .matches(&cfgs));
}

#[test]
fn platforms() {
    let p = Platform::Name("x86_64-unknown-linux-gnu".to_string());
    assert!(p.matches("x86_64-unknown-linux-gnu", &None));
    assert!(!p.matches("x86_64-apple-darwin", &Some(vec![])));
    let p = Platform::Cfg(CfgExpr::Not(Box::new(CfgExpr::Value(name("unix")))));
    assert!(p.matches("t", &Some(vec![])));
    assert!(!p.matches("t", &None));
    assert!(!p.matches("t", &Some(vec![name("unix")])));
}

#[test]
fn settings_are_matched_as_by_cargo() {
    let cfgs = vec![
        cargo_platform::Cfg::from_str("unix").unwrap(),
        cargo_platform::Cfg::from_str("target_os = \"linux\"").unwrap(),
    ];
    let own = get_cfgs(Some("unix\ntarget_os=\"linux\"\n")).unwrap();
    for (text, expr) in [
        ("unix", CfgExpr::Value(name("unix"))),
        (
            "not(all(unix, windows))",
            CfgExpr::Not(Box::new(CfgExpr::All(vec![
                CfgExpr::Value(name("unix")),
                CfgExpr::Value(name("windows")),
            ]))),
        ),
        (
            "any(windows, target_os = \"linux\")",
            CfgExpr::Any(vec![
                CfgExpr::Value(name("windows")),
                CfgExpr::Value(pair("target_os", "linux")),
            ]),
        ),
    ] {
        let theirs = cargo_platform::CfgExpr::from_str(text).unwrap();
        assert_eq!(
            Platform::Cfg(expr).matches("t", &own),
            theirs.matches(&cfgs)
        );
    }
}

#[test]
fn settings_that_the_compiler_prints() {
    assert!(matches!(get_cfgs(None), Ok(None)));
    match get_cfgs(Some("debug_assertions\r\ntarget_arch=\"x86_64\"")) {
        Ok(Some(c)) => {
            assert_eq!(c.len(), 2);
            assert!(c[0].same(&name("debug_assertions")));
            assert!(c[1].same(&pair("target_arch", "x86_64")));
        }
        _ => panic!(),
    }
    assert!(matches!(get_cfgs(Some("")), Ok(Some(c)) if c.is_empty()));
    match get_cfgs(Some("unix\na b\n\"")) {
        Err(e) => assert_eq!(
            e,
            "failed to parse `a b` as a cfg expression: \
             unexpected content `b` found after cfg expression"
        ),
        _ => panic!(),
    }
}

#[test]
fn the_first_error_counts() {
    let read = vec![
        Ok(name("a")),
        Err("first".to_string()),
        Err("second".to_string()),
    ];
    assert!(matches!(collect_cfgs(&read), Err(e) if e == "first"));
    let read = vec![Ok(name("a")), Ok(pair("b", "c"))];
    match collect_cfgs(&read) {
        Ok(c) => assert!(c.len() == 2 && c[1].same(&pair("b", "c"))),
        Err(_) => panic!(),
    }
}

#[test]
fn arguments_of_the_compiler() {
    let args = bytes(&[
        "--crate-name",
        "x",
        "src/LIB.RS",
        "--out-dir",
        "/t/deps",
        "--out-dir",
        "a.rs",
        "b.rs.d",
    ]);
    let plan = plan_exec(&args, "rustc").unwrap();
    assert_eq!(plan.out_dir, 4);
    assert_eq!(plan.rs_files, vec![2, 6]);
    assert_eq!(find_out_dir(&args, "rustc").unwrap(), 4);
    match plan_exec(&bytes(&["a.rs"]), "rustc a.rs") {
        Err(ArgsError::OutDirKeyMissing(cmd)) => assert_eq!(cmd, "rustc a.rs"),
        _ => panic!(),
    }
    match plan_exec(&bytes(&["--out-dir"]), "rustc") {
        Err(ArgsError::OutDirValueMissing(cmd)) => assert_eq!(cmd, "rustc"),
        _ => panic!(),
    }
    assert!(find_rs_files(&vec![vec![0xff, b'.', b'R', b's'], vec![]]) == vec![0]);
    assert_eq!(
        find_rs_files(&bytes(&["SRC/Main.rS", "@[`{.rs", "a.r5"])),
        vec![0, 1]
    );
}

#[test]
fn endings() {
    assert!(ends_with_rs("a.rs"));
    assert!(ends_with_rs(".rs"));
    assert!(!ends_with_rs("a.RS"));
    assert!(!ends_with_rs("rs"));
    assert!(!ends_with_rs("a.rs "));
}

#[test]
fn a_new_context_is_empty() {
    let c = CustomExecutorInnerContext::new();
    assert!(c.rs_file_args.paths().is_empty());
    assert!(c.out_dir_args.paths().is_empty());
}

#[test]
fn calls_are_recorded() {
    let path = |s: &str| FilePath {
        parts: vec![PathPart::Normal(s.as_bytes().to_vec())],
    };
    let mut c = CustomExecutorInnerContext::new();
    record(&mut c, &vec![path("a.rs"), path("b.rs")], Some(&path("out")));
    record(&mut c, &vec![path("b.rs"), path("c.rs")], None);
    record(&mut c, &vec![], Some(&path("out")));
    assert_eq!(c.rs_file_args.paths().len(), 3);
    for f in ["a.rs", "b.rs", "c.rs"] {
        assert!(c.rs_file_args.contains(&path(f)));
    }
    assert!(!c.rs_file_args.contains(&path("out")));
    assert_eq!(c.out_dir_args.paths().len(), 1);
    assert!(c.out_dir_args.contains(&path("out")));
}

#[test]
fn a_call_is_recorded_up_to_the_first_failure() {
    let path = |s: &str| FilePath {
        parts: vec![PathPart::Normal(s.as_bytes().to_vec())],
    };
    let mut c = CustomExecutorInnerContext::new();
    let found = vec![Some(path("a.rs")), None, Some(path("b.rs"))];
    assert!(!record_call(&mut c, &found, &path("out")));
    assert!(c.rs_file_args.contains(&path("a.rs")));
    assert!(!c.rs_file_args.contains(&path("b.rs")));
    assert!(c.out_dir_args.paths().is_empty());
    let found = vec![Some(path("a.rs")), Some(path("b.rs"))];
    assert!(record_call(&mut c, &found, &path("out")));
    assert_eq!(c.rs_file_args.paths().len(), 2);
    assert!(c.out_dir_args.contains(&path("out")));
    assert!(record_call(&mut c, &vec![], &path("other")));
    assert_eq!(c.out_dir_args.paths().len(), 2);
}

#[test]
fn what_drawing_a_package_leaves_behind() {
    let g = graph(&diamond(), 0);
    let pc = config(false, false);
    let mut visited = HashSet::new();
    let mut levels = vec![true];
    let mut lines = vec![];
    print_dependency(2, &g, &mut visited, &mut levels, &pc, &mut lines);
    assert_eq!(levels, vec![true]);
    assert_eq!(visited.len(), 2);
    assert_eq!(listed(&lines), vec![2, 3, 3]);
    print_dependency(2, &g, &mut visited, &mut levels, &pc, &mut lines);
    assert_eq!(visited.len(), 2);
    assert_eq!(listed(&lines), vec![2, 3, 3, 2]);
}

#[test]
fn dependencies_of_a_kind_are_drawn_sorted() {
    let g = graph(&diamond(), 0);
    let pc = config(false, false);
    let drawn = |deps: Vec<usize>| {
        let mut visited = HashSet::new();
        let mut levels = vec![];
        let mut lines = vec![];
        print_dependency_kind(
            Kind::Normal,
            &deps,
            &g,
            &mut visited,
            &mut levels,
            &pc,
            &mut lines,
        );
        assert!(levels.is_empty());
        assert!(visited.contains(&1) && visited.contains(&2) && visited.contains(&3));
        shown(&lines)
    };
    let rows = drawn(vec![2, 1, 2]);
    assert_eq!(
        rows[..4],
        ["├── 1", "│   └── 3", "├── 2", "│   └── 3"]
    );
    assert_eq!(rows.last().unwrap(), "└── 2");
    assert_eq!(drawn(vec![1, 2, 2]), rows);
    assert_eq!(drawn(vec![2, 2, 1]), rows);
}
