use geiger::dep_info::{
    files_of_rules, listed_files, parse_rustc_dep_info, try_parse_rustc_dep_info, DepFile,
};
use geiger::paths::{DirEntry, FilePath, PathPart};
use geiger::text::{
    chars_of, decimal_text, is_whitespace, lines_of, pad_right, push_spaces, same_text,
    text_between, words_of,
};

fn rule(target: &str, files: &[&str]) -> (String, Vec<String>) {
    (
        target.to_string(),
        files.iter().map(|f| f.to_string()).collect(),
    )
}

#[test]
fn rules_of_a_dep_file() {
    let text = "/t/lib.rlib: src/lib.rs src/a.rs\n\nsrc/lib.rs:\n# a: comment\nx: \r\n";
    assert_eq!(
        parse_rustc_dep_info(text),
        vec![
            rule("/t/lib.rlib", &["src/lib.rs", "src/a.rs"]),
            rule("# a", &["comment"]),
            rule("x", &[]),
        ]
    );
    assert_eq!(parse_rustc_dep_info(""), vec![]);
}

#[test]
fn escaped_spaces_are_part_of_a_file() {
    let text = "t: a\\ b\\ c d\\\\ e";
    assert_eq!(
        parse_rustc_dep_info(text),
        vec![rule("t", &["a b c", "d\\ e"])]
    );
    let trailing = "t: a b\\";
    assert!(try_parse_rustc_dep_info(trailing).is_none());
    assert!(try_parse_rustc_dep_info("t:a b\\").unwrap().is_empty());
}

#[test]
fn the_first_separator_counts() {
    assert_eq!(
        parse_rustc_dep_info("C:\\x: a: b"),
        vec![rule("C:\\x", &["a:", "b"])]
    );
}

#[test]
fn written_rules_read_back() {
    let rules = vec![
        rule("out/x.d", &["src/my file.rs", "a b c.rs"]),
        rule("y", &["z.rs"]),
        rule("none", &[]),
        rule("C:\\out", &["src\\a b.rs", "x  y", " z", "\\\\server\\é"]),
    ];
    let mut text = String::new();
    for (target, files) in &rules {
        text.push_str(target);
        text.push(':');
        if files.is_empty() {
            text.push(' ');
        }
        for f in files {
            text.push(' ');
            text.push_str(&f.replace(' ', "\\ "));
        }
        text.push('\n');
    }
    assert_eq!(try_parse_rustc_dep_info(&text), Some(rules));
}

#[test]
fn files_of_all_rules() {
    let rules = vec![rule("a", &["x", "y"]), rule("b", &[]), rule("c", &["x"])];
    assert_eq!(files_of_rules(&rules), vec!["x", "y", "x"]);
}

#[test]
fn lines_are_those_of_std() {
    for text in [
        "", "\n", "a", "a\n", "a\r\nb", "a\rb\n\n", "\r\n", "a\n\r", "x\r\r\n", "é\n☢",
    ] {
        let expected: Vec<String> = text.lines().map(|l| l.to_string()).collect();
        assert_eq!(lines_of(text), expected);
    }
}

#[test]
fn words_are_those_of_std() {
    for text in ["", " ", "a", " a  b\tc\u{a0}d\u{3000}e ", "x\u{200b}y"] {
        let expected: Vec<String> = text.split_whitespace().map(|l| l.to_string()).collect();
        assert_eq!(words_of(text), expected);
    }
}

#[test]
fn whitespace_is_that_of_std() {
    for n in 0..=0x10ffffu32 {
        if let Some(c) = char::from_u32(n) {
            assert_eq!(is_whitespace(c), c.is_whitespace());
        }
    }
}

#[test]
fn numbers_are_those_of_std() {
    for n in [0, 7, 10, 99, 100, 12345, u64::MAX] {
        assert_eq!(decimal_text(n), n.to_string());
    }
}

#[test]
fn small_text_operations() {
    let chars = chars_of("a☢b");
    assert_eq!(chars, vec!['a', '☢', 'b']);
    assert_eq!(text_between(&chars, 1, 3), "☢b");
    assert_eq!(text_between(&chars, 2, 2), "");
    assert!(same_text("ab", "ab"));
    assert!(!same_text("ab", "aB"));
    assert_eq!(pad_right("☢", 3), format!("{: <3}", "☢"));
    assert_eq!(pad_right("abcd", 3), "abcd");
    let mut s = "x".to_string();
    push_spaces(&mut s, 3);
    assert_eq!(s, "x   ");
}

#[test]
fn files_that_dependency_files_list() {
    let found = |name: &str, contents: &str| DepFile {
        entry: DirEntry {
            is_file: true,
            path: FilePath {
                parts: vec![PathPart::Normal(name.as_bytes().to_vec())],
            },
        },
        contents: contents.to_string(),
    };
    let names = listed_files(&vec![
        found("a.d", "a: x.rs y.rs\nb: z.rs\n"),
        found("a.rlib", "c: w\\"),
        found("b.d", "a: x.rs"),
    ]);
    assert_eq!(
        names.unwrap(),
        vec!["x.rs", "y.rs", "z.rs", "x.rs"]
    );
    assert!(listed_files(&vec![found("a.d", "a: x"), found("b.d", "b: x\\")]).is_none());
    assert!(listed_files(&vec![]).unwrap().is_empty());
}
