use geiger::count::CounterBlock;
use geiger::graph::EdgeDirection;
use geiger::options::{
    print_config, prints_more_than_tree, selected_target, symbols, Charset, Flags, Prefix,
};
use geiger::table::{
    colorize, compose_line, dependency_line, header_line, header_text, table_row,
    table_row_empty, totals_fit, unsafe_counters_header,
};
use geiger::tree::treevines;
use geiger::visitor::{IncludeTests, Verbosity};

fn flags() -> Flags {
    Flags {
        verbose: 0,
        quiet: false,
        invert: false,
        no_indent: false,
        prefix_depth: false,
        all: false,
        charset: Charset::Utf8,
        include_tests: false,
    }
}

fn counters() -> CounterBlock {
    let mut b = CounterBlock::default();
    b.functions.unsafe_used = 1;
    b.functions.unsafe_unused = 11;
    b.exprs.unsafe_unused = 1234;
    b.exprs.safe_used = 9;
    b.methods.unsafe_used = 10;
    b
}

#[test]
fn names_of_charsets() {
    assert_eq!(Charset::parse("utf8"), Ok(Charset::Utf8));
    assert_eq!("ascii".parse::<Charset>(), Ok(Charset::Ascii));
    assert_eq!(Charset::parse("UTF8"), Err("invalid charset"));
    assert_eq!("".parse::<Charset>(), Err("invalid charset"));
}

#[test]
fn symbols_of_charsets() {
    let s = symbols(Charset::Utf8);
    assert_eq!((s.down, s.tee, s.ell, s.right), ("│", "├", "└", "─"));
    let s = symbols(Charset::Ascii);
    assert_eq!((s.down, s.tee, s.ell, s.right), ("|", "|", "`", "-"));
}

#[test]
fn configurations() {
    let pc = print_config(&flags());
    assert!(!pc.all);
    assert!(pc.allow_partial_results);
    assert_eq!(pc.verbosity, Verbosity::Normal);
    assert_eq!(pc.direction, EdgeDirection::Outgoing);
    assert_eq!(pc.prefix, Prefix::Indent);
    assert_eq!(pc.include_tests, IncludeTests::No);
    assert_eq!(pc.symbols.down, "│");
    let pc = print_config(&Flags {
        verbose: 2,
        quiet: false,
        invert: true,
        no_indent: true,
        prefix_depth: false,
        all: true,
        charset: Charset::Ascii,
        include_tests: true,
    });
    assert!(pc.all);
    assert_eq!(pc.verbosity, Verbosity::Verbose);
    assert_eq!(pc.direction, EdgeDirection::Incoming);
    assert_eq!(pc.prefix, Prefix::Plain);
    assert_eq!(pc.include_tests, IncludeTests::Yes);
    assert_eq!(pc.symbols.down, "|");
    let pc = print_config(&Flags {
        no_indent: true,
        prefix_depth: true,
        ..flags()
    });
    assert_eq!(pc.prefix, Prefix::Depth);
}

#[test]
fn quiet_output_is_the_tree_alone() {
    assert!(prints_more_than_tree(&flags()));
    assert!(!prints_more_than_tree(&Flags {
        quiet: true,
        verbose: 2,
        ..flags()
    }));
}

#[test]
fn targets() {
    assert_eq!(selected_target(true, Some("a"), "h"), None);
    assert_eq!(selected_target(false, Some("a"), "h"), Some("a"));
    assert_eq!(selected_target(false, None, "h"), Some("h"));
}

#[test]
fn vines() {
    let s = symbols(Charset::Utf8);
    assert_eq!(treevines(&vec![], Prefix::Indent, &s), "");
    assert_eq!(treevines(&vec![true], Prefix::Indent, &s), "├── ");
    assert_eq!(
        treevines(&vec![true, false, false], Prefix::Indent, &s),
        "│       └── "
    );
    assert_eq!(treevines(&vec![true, false], Prefix::Depth, &s), "2 ");
    assert_eq!(treevines(&vec![true; 10], Prefix::Depth, &s), "10 ");
    assert_eq!(treevines(&vec![true, false], Prefix::Plain, &s), "");
    let s = symbols(Charset::Ascii);
    assert_eq!(treevines(&vec![true, true], Prefix::Indent, &s), "|   |-- ");
    assert_eq!(treevines(&vec![false], Prefix::Indent, &s), "`-- ");
}

#[test]
fn rows() {
    assert_eq!(
        table_row(&counters()),
        "1/12       0/1234       0/0    0/0     10/10  "
    );
    assert_eq!(
        table_row(&CounterBlock::default()),
        "0/0        0/0          0/0    0/0     0/0    "
    );
    assert_eq!(table_row_empty(), " ".repeat(50));
    assert!(totals_fit(&counters()));
}

#[test]
fn a_wide_cell_moves_the_others() {
    let mut b = CounterBlock::default();
    b.itemimpls.unsafe_used = 1000;
    assert_eq!(
        table_row(&b),
        "0/0        0/0          1000/1000 0/0     0/0    "
    );
}

#[test]
fn totals_that_are_too_large() {
    let mut b = CounterBlock::default();
    b.itemtraits.unsafe_used = u64::MAX;
    assert!(totals_fit(&b));
    b.itemtraits.unsafe_unused = 1;
    assert!(!totals_fit(&b));
}

#[test]
fn headers() {
    assert_eq!(unsafe_counters_header().len(), 6);
    assert_eq!(
        header_text(),
        "Functions  Expressions  Impls  Traits  Methods  Dependency"
    );
}

#[test]
fn lines_from_their_parts() {
    assert_eq!(compose_line("row", true, "└── ", "x"), "row  ☢ └── x");
    assert_eq!(compose_line("row", false, "", "x"), "row    x");
}

#[test]
fn colours() {
    colored::control::set_override(true);
    assert_eq!(
        header_line(),
        "\u{1b}[1mFunctions  Expressions  Impls  Traits  Methods  Dependency\u{1b}[0m"
    );
    assert_eq!(colorize("a", true), "\u{1b}[1;31ma\u{1b}[0m");
    assert_eq!(colorize("a", false), "\u{1b}[32ma\u{1b}[0m");
    assert_eq!(
        colorize("a\u{1b}[0mb", false),
        "\u{1b}[32ma\u{1b}[0m\u{1b}[32mb\u{1b}[0m"
    );
    assert_eq!(
        colorize("\u{1b}[0\u{1b}[0m\u{1b}[0m", true),
        "\u{1b}[1;31m\u{1b}[0\u{1b}[0m\u{1b}[1;31m\u{1b}[0m\u{1b}[1;31m\u{1b}[0m"
    );
    assert_eq!(
        dependency_line(&CounterBlock::default(), "", "x"),
        "\u{1b}[32m0/0        0/0          0/0    0/0     0/0    \u{1b}[0m    \u{1b}[32mx\u{1b}[0m"
    );

    colored::control::set_override(false);
    assert_eq!(header_line(), header_text());
    assert_eq!(colorize("a", true), "a");
    assert_eq!(colorize("a", false), "a");
    let line = dependency_line(&counters(), "", "x v0.1.0");
    assert_eq!(
        line,
        "1/12       0/1234       0/0    0/0     10/10    ☢ x v0.1.0"
    );
    assert_eq!(line.find('x').unwrap() - "☢".len() + 1, table_row_empty().len());
}
