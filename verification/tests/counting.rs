use geiger::count::{Count, CounterBlock};
use geiger::syntax::{
    parse_file, Attr, ExprKind, ExprNode, FnNode, ImplNode, MetaItem, MetaItems,
    MethodNode, ModNode, NestedItem, SyntaxNode, TraitNode,
};
use geiger::visitor::{
    is_test_fn, is_test_mod, meta_is_word_test, meta_list_is_cfg_test, GeigerSynVisitor,
    IncludeTests, ScanError, Verbosity,
};

fn count(safe_unused: u64, safe_used: u64, unsafe_unused: u64, unsafe_used: u64) -> Count {
    Count {
        safe_unused,
        safe_used,
        unsafe_unused,
        unsafe_used,
    }
}

fn scanned(source: &str, tests: IncludeTests, used: bool) -> CounterBlock {
    let mut vis = GeigerSynVisitor::new(tests, Verbosity::Normal);
    vis.used_by_build = used;
    let parsed = parse_file(source);
    assert!(vis.scan_parsed(&parsed).is_ok());
    assert!(!vis.in_unsafe_block);
    vis.counters
}

fn word(s: &str) -> MetaItem {
    MetaItem::Word(s.to_string())
}

fn list(name: &str, nested: Vec<NestedItem>) -> MetaItems {
    MetaItems {
        ident: name.to_string(),
        nested,
    }
}

fn call() -> SyntaxNode {
    SyntaxNode::Expr(ExprNode {
        kind: ExprKind::Other,
        children: vec![SyntaxNode::Expr(ExprNode {
            kind: ExprKind::Path,
            children: vec![],
        })],
    })
}

fn block(children: Vec<SyntaxNode>) -> SyntaxNode {
    SyntaxNode::Expr(ExprNode {
        kind: ExprKind::Unsafe,
        children,
    })
}

const SOURCE: &str = "
unsafe fn f() { let x = 1; g(x); }
fn g(y: u32) { unsafe { *p.add(1) } }
#[test]
fn t() { h(1); }
#[cfg(test)]
mod tests { fn u() { k(); } }
mod plain { fn v() {} }
unsafe impl Send for S {}
unsafe trait T { fn d() { x(); } }
trait U {}
impl S { unsafe fn m(&self) -> u32 { 1 + 2 } fn n(&self) {} }
";

#[test]
fn count_has_four_counters() {
    let mut c = Count::default();
    c.count(false, false);
    c.count(false, true);
    c.count(false, true);
    c.count(true, false);
    c.count(true, false);
    c.count(true, false);
    c.count(true, true);
    assert_eq!(c, count(1, 2, 3, 1));
}

#[test]
fn only_unsafe_code_in_used_files_counts() {
    let mut b = CounterBlock::default();
    assert!(!b.has_unsafe());
    b.exprs.unsafe_unused = 5;
    b.exprs.safe_used = 5;
    assert!(!b.has_unsafe());
    for i in 0..5 {
        let mut b = CounterBlock::default();
        let c = count(0, 0, 0, 1);
        match i {
            0 => b.functions = c,
            1 => b.exprs = c,
            2 => b.itemimpls = c,
            3 => b.itemtraits = c,
            _ => b.methods = c,
        }
        assert!(b.has_unsafe());
    }
}

#[test]
fn source_is_counted_without_tests() {
    let b = scanned(SOURCE, IncludeTests::No, true);
    assert_eq!(b.functions, count(0, 2, 0, 1));
    assert_eq!(b.exprs, count(0, 3, 0, 2));
    assert_eq!(b.itemimpls, count(0, 1, 0, 1));
    assert_eq!(b.itemtraits, count(0, 1, 0, 1));
    assert_eq!(b.methods, count(0, 1, 0, 1));
    assert!(b.has_unsafe());
}

#[test]
fn source_is_counted_with_tests() {
    let b = scanned(SOURCE, IncludeTests::Yes, false);
    assert_eq!(b.functions, count(4, 0, 1, 0));
    assert_eq!(b.exprs, count(5, 0, 2, 0));
    assert_eq!(b.itemimpls, count(1, 0, 1, 0));
    assert_eq!(b.itemtraits, count(1, 0, 1, 0));
    assert_eq!(b.methods, count(1, 0, 1, 0));
    assert!(!b.has_unsafe());
}

#[test]
fn the_end_of_an_inner_block_ends_the_outer_one() {
    let b = scanned(
        "fn f() { unsafe { unsafe { a(); } b(); } }",
        IncludeTests::No,
        true,
    );
    assert_eq!(b.exprs, count(0, 1, 0, 1));
}

#[test]
fn paths_and_literals_are_not_counted() {
    let b = scanned("fn f() { unsafe { x; 1; f(x, 2); } }", IncludeTests::No, true);
    assert_eq!(b.exprs, count(0, 0, 0, 1));
}

#[test]
fn what_is_no_rust_is_not_counted() {
    let mut vis = GeigerSynVisitor::new(IncludeTests::No, Verbosity::Normal);
    let parsed = parse_file("fn (");
    assert!(parsed.is_err());
    match vis.scan_parsed(&parsed) {
        Err(ScanError::Parse(text)) => assert!(text.contains("Error")),
        _ => panic!(),
    }
    assert_eq!(vis.counters, CounterBlock::default());
}

#[test]
fn a_counter_at_its_limit_stops_the_scan() {
    let mut vis = GeigerSynVisitor::new(IncludeTests::No, Verbosity::Normal);
    vis.counters.functions.safe_unused = u64::MAX;
    let before = vis.counters;
    let parsed = parse_file("unsafe trait T {} fn f() {}");
    assert!(matches!(vis.scan_parsed(&parsed), Err(ScanError::TooLarge)));
    assert_eq!(vis.counters, before);
    vis.counters.functions.safe_unused = u64::MAX - 1;
    assert!(vis.scan_parsed(&parsed).is_ok());
    assert_eq!(vis.counters.functions.safe_unused, u64::MAX);
    assert_eq!(vis.counters.itemtraits, count(0, 0, 1, 0));
}

#[test]
fn a_full_counter_does_not_hinder_the_others() {
    let mut vis = GeigerSynVisitor::new(IncludeTests::No, Verbosity::Normal);
    vis.counters.functions = count(0, u64::MAX, u64::MAX, u64::MAX);
    vis.counters.exprs.safe_unused = u64::MAX;
    vis.counters.methods.safe_unused = u64::MAX;
    let parsed = parse_file("fn f() { unsafe { g(); } } #[test] fn t() { h(); }");
    assert!(vis.scan_parsed(&parsed).is_ok());
    assert_eq!(
        vis.counters.functions,
        count(1, u64::MAX, u64::MAX, u64::MAX)
    );
    assert_eq!(vis.counters.exprs, count(u64::MAX, 0, 1, 0));
}

#[test]
fn files_count_alike_in_any_order() {
    let a = parse_file(SOURCE);
    let b = parse_file("unsafe fn z() { 1 + 1; }");
    let mut ab = GeigerSynVisitor::new(IncludeTests::No, Verbosity::Normal);
    assert!(ab.scan_parsed(&a).is_ok());
    assert!(ab.scan_parsed(&b).is_ok());
    let mut ba = GeigerSynVisitor::new(IncludeTests::No, Verbosity::Normal);
    assert!(ba.scan_parsed(&b).is_ok());
    assert!(ba.scan_parsed(&a).is_ok());
    assert_eq!(ab.counters, ba.counters);
    assert_eq!(ab.counters.functions, count(2, 0, 2, 0));
}

#[test]
fn nodes_of_a_source() {
    let nodes = parse_file("mod a { fn f() { g(1); } }").unwrap();
    assert_eq!(nodes.len(), 1);
    match &nodes[0] {
        SyntaxNode::Mod(m) => {
            assert_eq!(m.attrs.len(), 0);
            assert_eq!(m.children.len(), 1);
            match &m.children[0] {
                SyntaxNode::Fn(f) => {
                    assert!(!f.unsafety);
                    assert_eq!(f.children.len(), 1);
                    match &f.children[0] {
                        SyntaxNode::Expr(e) => {
                            assert_eq!(e.kind, ExprKind::Other);
                            assert_eq!(e.children.len(), 2);
                        }
                        _ => panic!(),
                    }
                }
                _ => panic!(),
            }
        }
        _ => panic!(),
    }
}

#[test]
fn attributes_of_a_source() {
    let nodes = parse_file(
        "#[test] #[cfg(any(test), \"x\", unix)] #[path = \"a\"] #[a b] fn f() {}",
    )
    .unwrap();
    match &nodes[0] {
        SyntaxNode::Fn(f) => {
            assert_eq!(f.attrs.len(), 4);
            match &f.attrs[0].meta {
                Some(MetaItem::Word(w)) => assert_eq!(w, "test"),
                _ => panic!(),
            }
            match &f.attrs[1].meta {
                Some(MetaItem::List(l)) => {
                    assert_eq!(l.ident, "cfg");
                    assert_eq!(l.nested.len(), 3);
                    assert!(matches!(&l.nested[0], NestedItem::Meta(MetaItem::List(_))));
                    assert!(matches!(&l.nested[1], NestedItem::Literal));
                    assert!(matches!(&l.nested[2], NestedItem::Meta(MetaItem::Word(_))));
                }
                _ => panic!(),
            }
            match &f.attrs[2].meta {
                Some(MetaItem::NameValue(n)) => assert_eq!(n, "path"),
                _ => panic!(),
            }
            assert!(f.attrs[3].meta.is_none());
        }
        _ => panic!(),
    }
}

#[test]
fn test_attributes() {
    assert!(meta_is_word_test(&word("test")));
    assert!(!meta_is_word_test(&word("tests")));
    assert!(!meta_is_word_test(&MetaItem::NameValue("test".to_string())));
    assert!(meta_list_is_cfg_test(&list(
        "cfg",
        vec![NestedItem::Literal, NestedItem::Meta(word("test"))]
    )));
    assert!(!meta_list_is_cfg_test(&list(
        "cfg_attr",
        vec![NestedItem::Meta(word("test"))]
    )));
    assert!(!meta_list_is_cfg_test(&list(
        "cfg",
        vec![NestedItem::Meta(MetaItem::List(list(
            "all",
            vec![NestedItem::Meta(word("test"))]
        )))]
    )));
    let attr = |m: MetaItem| Attr { meta: Some(m) };
    let module = |attrs: Vec<Attr>| ModNode {
        attrs,
        children: vec![],
    };
    let function = |attrs: Vec<Attr>| FnNode {
        attrs,
        unsafety: false,
        children: vec![],
    };
    let cfg_test = || MetaItem::List(list("cfg", vec![NestedItem::Meta(word("test"))]));
    assert!(is_test_mod(&module(vec![
        Attr { meta: None },
        attr(cfg_test())
    ])));
    assert!(!is_test_mod(&module(vec![attr(word("test"))])));
    assert!(is_test_fn(&function(vec![
        attr(word("inline")),
        attr(word("test"))
    ])));
    assert!(!is_test_fn(&function(vec![attr(cfg_test())])));
    assert!(!is_test_fn(&function(vec![])));
}

#[test]
fn nodes_by_hand() {
    let mut vis = GeigerSynVisitor::new(IncludeTests::No, Verbosity::Quiet);
    vis.used_by_build = true;
    vis.visit_expr(&ExprNode {
        kind: ExprKind::Lit,
        children: vec![call()],
    });
    assert_eq!(vis.counters, CounterBlock::default());
    vis.visit_nodes(&vec![
        call(),
        block(vec![call(), block(vec![call()]), call()]),
        call(),
    ]);
    assert_eq!(vis.counters.exprs, count(0, 3, 0, 2));
    assert!(!vis.in_unsafe_block);
    vis.visit_item_impl(&ImplNode {
        unsafety: false,
        children: vec![SyntaxNode::Method(MethodNode {
            unsafety: true,
            children: vec![],
        })],
    });
    vis.visit_item_trait(&TraitNode {
        unsafety: true,
        children: vec![],
    });
    vis.visit_impl_item_method(&MethodNode {
        unsafety: false,
        children: vec![],
    });
    assert_eq!(vis.counters.itemimpls, count(0, 1, 0, 0));
    assert_eq!(vis.counters.itemtraits, count(0, 0, 0, 1));
    assert_eq!(vis.counters.methods, count(0, 1, 0, 1));
}

#[test]
fn without_the_keyword_nothing_is_unsafe() {
    let b = scanned(
        "fn f() { g(|| h(1) + 2); } trait T {} impl T for S { fn m() { f(); } }",
        IncludeTests::Yes,
        true,
    );
    assert!(!b.has_unsafe());
    assert_eq!(b.exprs, count(0, 5, 0, 0));
    assert_eq!(b.methods, count(0, 1, 0, 0));
}

#[test]
fn a_block_makes_expressions_unsafe_only() {
    let plain = scanned("fn f() { { fn g() { a(); } b(); } }", IncludeTests::No, true);
    let marked = scanned(
        "fn f() { unsafe { fn g() { a(); } b(); } }",
        IncludeTests::No,
        true,
    );
    assert_eq!(plain.functions, marked.functions);
    assert_eq!(marked.functions, count(0, 2, 0, 0));
    assert_eq!(plain.exprs, count(0, 3, 0, 0));
    assert_eq!(marked.exprs, count(0, 0, 0, 2));
}

fn functions_of(source: &str) -> Result<usize, String> {
    parse_file(source).map(|nodes| {
        nodes
            .iter()
            .filter(|n| matches!(n, SyntaxNode::Fn(_)))
            .count()
    })
}

#[test]
fn lifetimes_before_dyn_and_a_lifetime() {
    for source in [
        "type T = for<'a> dyn 'static + Foo<'a>; fn f() {}",
        "\u{feff}#!/bin/sh '\ntype T = for /* c */ <'a,> dyn // c\n 'static + Foo<'a>; fn f() {}",
        "#!/bin/sh\n#![a]\nimpl for<> dyn 'a + 'b + Foo { } fn f() {}",
        "mod m { type T = Vec<(u8, for<#[x] 'a: 'b + 'c> dyn 'a + Foo)>; } fn f() {}",
        "struct S<T> where for<'a> dyn 'a + Foo<'a>: Bar, T: Baz { t: T } fn f() {}",
        "fn f() { m!(for<'a> dyn 'a + Foo); }",
        "#[a(for<'a> dyn 'a + Foo)] fn f() { \"for<'a> dyn 'a + Foo\"; }",
        "type T = dyn 'static + Foo; fn f() -> dyn 'a + Foo {}",
        "impl<'a> dyn 'a + Foo { } fn f() {}",
    ] {
        assert_eq!(functions_of(source), Ok(1));
    }
    for source in [
        "type T = for<'a> dyn 'static + 'a; fn f() {}",
        "type T = for<'a> for<'b> dyn 'static + Foo; fn f() {}",
        "type T = for<'a b> dyn 'static + Foo; fn f() {}",
        "fn f<T: for<'a> dyn 'a + Foo>() {}",
        "fn f() { for<'a> dyn 'a + Foo }",
        "impl A for<'a> dyn 'a + Foo {} fn f() {}",
    ] {
        assert!(functions_of(source).is_err());
    }
    assert_eq!(
        functions_of("type T = for<'a> dyn 'b + 'c; fn f() {}"),
        functions_of("type T = dyn 'b + 'c; fn f() {}")
    );
}

#[test]
fn another_spelling_counts_alike() {
    let odd = "
#![a]
//! Inner.
type T = for<'a> dyn 'static + Foo<'a, { 1 + 2 }>;
macro_rules! r#try { ($x:expr) => { for<'a> dyn 'a + $x }; }
";
    let plain = "type T = Foo<'static, { 1 + 2 }>;";
    let rest = "
/// Outer \\ \"doc\".
pub unsafe fn f<'a, T: 'a + Copy>(r#in: &'a [T; 3], n: u64) -> Result<T, ()> {
    let s = (r#\"raw \" \"#, b\"\\xff\", 'c', b'\\'', '\\u{e9}', 1.5e3f64, 0xff_u8, 1..=2);
    if n >= 1 && !(n == 2) || n << 2 != 3 { n.checked_add(1).map(|x| x -= -1)?; }
    unsafe { *r#in.as_ptr().offset(1); }
    'l: loop { break 'l; }
    Ok(r#in[0])
}
impl<'a> Tr for S<'a> { unsafe fn m(&self) {} }
#[cfg(test)] mod tests { fn t() { g(); } }
";
    let a = scanned(&[odd, rest].concat(), IncludeTests::No, true);
    let b = scanned(&[plain, rest].concat(), IncludeTests::No, true);
    assert_eq!(a, b);
    assert_eq!(a.functions, count(0, 0, 0, 1));
    assert_eq!(a.methods, count(0, 0, 0, 1));
    assert!(a.exprs.safe_used > 10 && a.exprs.unsafe_used > 1);
}
