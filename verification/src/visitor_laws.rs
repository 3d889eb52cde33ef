//! What is proved of every walk through source code: which of its parts count, and
//! as what.

use vstd::prelude::*;

#[allow(unused_imports)]
use crate::count::{Count, CounterBlock, Split, Tally};
#[allow(unused_imports)]
use crate::syntax::{ExprKind, MetaItemsView, MetaView, NestedItemView, Tree};
#[allow(unused_imports)]
use crate::visitor::{
    cfg_test, left_out, looked_into, marks_test_mod, nested_word_test, own_tally, tally, test_fn,
    test_mod, tree_tally, unsafe_after, unsafe_behind, unsafe_block, word_test, GeigerSynVisitor,
    IncludeTests,
};

verus! {

/// Whether a part stands at a position. A position is a place among the parts of a
/// file, a place among the parts directly below that one, and so on.
pub open spec fn stands(s: Seq<Tree>, p: Seq<int>) -> bool
    decreases p.len(),
{
    &&& p.len() > 0
    &&& 0 <= p[0] < s.len()
    &&& p.len() == 1 || stands(s[p[0]].below(), p.drop_first())
}

/// The part that stands at a position.
pub open spec fn part(s: Seq<Tree>, p: Seq<int>) -> Tree
    decreases p.len(),
{
    if p.len() <= 1 {
        s[p[0]]
    } else {
        part(s[p[0]].below(), p.drop_first())
    }
}

/// Whether a part is a function with `#[test]` among its attributes, or a module
/// with a `#[cfg(..)]` that lists `test`.
pub open spec fn is_test(t: Tree) -> bool {
    match t {
        Tree::Fn { attrs, unsafety, children } => attrs.contains(Some(MetaView::Word("test"@))),
        Tree::Mod { attrs, children } => exists|nested: Seq<NestedItemView>|
            {
                &&& #[trigger] nested.contains(NestedItemView::Meta(MetaView::Word("test"@)))
                &&& attrs.contains(
                    Some(MetaView::List(MetaItemsView { ident: "cfg"@, nested })),
                )
            },
        _ => false,
    }
}

/// Whether a part is a path or a literal.
pub open spec fn is_path_or_literal(t: Tree) -> bool {
    match t {
        Tree::Expr { kind, children } => kind == ExprKind::Path || kind == ExprKind::Lit,
        _ => false,
    }
}

/// Whether a part is an `unsafe` block.
pub open spec fn is_block(t: Tree) -> bool {
    match t {
        Tree::Expr { kind, children } => kind == ExprKind::Unsafe,
        _ => false,
    }
}

/// Whether the walk comes to a position: no test that is left out stands there or
/// above, and no path and no literal above.
pub open spec fn comes_to(s: Seq<Tree>, tests: IncludeTests, p: Seq<int>) -> bool {
    &&& stands(s, p)
    &&& forall|k: int|
        1 <= k <= p.len() ==> !(tests == IncludeTests::No && is_test(part(s, #[trigger] p.take(k))))
    &&& forall|k: int| 1 <= k < p.len() ==> !is_path_or_literal(part(s, #[trigger] p.take(k)))
}

/// Whether the walk is through with position `e` when it comes to position `p`.
pub open spec fn passed(e: Seq<int>, p: Seq<int>) -> bool
    decreases e.len(),
{
    &&& e.len() > 0
    &&& p.len() > 0
    &&& e[0] < p[0] || (e[0] == p[0] && passed(e.drop_first(), p.drop_first()))
}

/// Whether an `unsafe` block that the walk has come to at position `e` has ended
/// when it comes to position `p`.
pub open spec fn ended(s: Seq<Tree>, tests: IncludeTests, p: Seq<int>, e: Seq<int>) -> bool {
    comes_to(s, tests, e) && is_block(part(s, e)) && passed(e, p)
}

/// Whether what stands at a position counts as standing in an `unsafe` block: it
/// stands in one in which no other has ended before, or the walk began in one and
/// none has ended before.
pub open spec fn in_block(s: Seq<Tree>, tests: IncludeTests, begins_in: bool, p: Seq<int>) -> bool {
    ||| exists|k: int|
        {
            &&& 1 <= k < p.len()
            &&& is_block(part(s, #[trigger] p.take(k)))
            &&& forall|e: Seq<int>|
                #[trigger] ended(s, tests, p, e) ==> !(e.len() > k && e.take(k) == p.take(k))
        }
    ||| begins_in && forall|e: Seq<int>| !#[trigger] ended(s, tests, p, e)
}

/// What is counted.
pub enum Item {
    Function,
    Expr,
    Impl,
    Trait,
    Method,
}

/// Whether a part is an item of a kind.
pub open spec fn is_item(t: Tree, item: Item) -> bool {
    match (t, item) {
        (Tree::Fn { attrs, unsafety, children }, Item::Function) => true,
        (Tree::Expr { kind, children }, Item::Expr) => kind == ExprKind::Other,
        (Tree::Impl { unsafety, children }, Item::Impl) => true,
        (Tree::Trait { unsafety, children }, Item::Trait) => true,
        (Tree::Method { unsafety, children }, Item::Method) => true,
        _ => false,
    }
}

/// Whether the keyword `unsafe` stands before a function, an `impl` block, a trait or
/// a method.
pub open spec fn has_keyword(t: Tree) -> bool {
    match t {
        Tree::Fn { attrs, unsafety, children } => unsafety,
        Tree::Impl { unsafety, children } => unsafety,
        Tree::Trait { unsafety, children } => unsafety,
        Tree::Method { unsafety, children } => unsafety,
        _ => false,
    }
}

/// How many items of a kind a tally holds.
pub open spec fn number(t: Tally, item: Item, is_unsafe: bool) -> nat {
    let split = match item {
        Item::Function => t.functions,
        Item::Expr => t.exprs,
        Item::Impl => t.itemimpls,
        Item::Trait => t.itemtraits,
        Item::Method => t.methods,
    };
    if is_unsafe {
        split.unsafe_items
    } else {
        split.safe_items
    }
}

/// Whether the part at a position counts as a safe, or as an unsafe, item of a kind.
pub open spec fn counts_as(
    s: Seq<Tree>,
    tests: IncludeTests,
    begins_in: bool,
    item: Item,
    is_unsafe: bool,
    p: Seq<int>,
) -> bool {
    &&& comes_to(s, tests, p)
    &&& is_item(part(s, p), item)
    &&& is_unsafe == if item is Expr {
        in_block(s, tests, begins_in, p)
    } else {
        has_keyword(part(s, p))
    }
}

/// Law: a function is a test where any of its attributes is the word `test`, and a
/// module is one of tests where any of its attributes is a `cfg` that lists that
/// word, wherever it stands among the others.
pub proof fn lemma_any_attribute_makes_a_test(attrs: Seq<Option<MetaView>>)
    ensures
        test_fn(attrs) <==> attrs.contains(Some(MetaView::Word("test"@))),
        test_mod(attrs) <==> exists|nested: Seq<NestedItemView>|
            {
                &&& #[trigger] nested.contains(NestedItemView::Meta(MetaView::Word("test"@)))
                &&& attrs.contains(
                    Some(MetaView::List(MetaItemsView { ident: "cfg"@, nested })),
                )
            },
{
    if attrs.contains(Some(MetaView::Word("test"@))) {
        let i = attrs.index_of(Some(MetaView::Word("test"@)));
        assert(attrs[i] == Some(MetaView::Word("test"@)));
    }
    let word = NestedItemView::Meta(MetaView::Word("test"@));
    if exists|nested: Seq<NestedItemView>|
        #[trigger] nested.contains(word) && attrs.contains(
            Some(MetaView::List(MetaItemsView { ident: "cfg"@, nested })),
        ) {
        let nested = choose|nested: Seq<NestedItemView>|
            #[trigger] nested.contains(word) && attrs.contains(
                Some(MetaView::List(MetaItemsView { ident: "cfg"@, nested })),
            );
        let i = attrs.index_of(Some(MetaView::List(MetaItemsView { ident: "cfg"@, nested })));
        assert(attrs[i] == Some(MetaView::List(MetaItemsView { ident: "cfg"@, nested })));
        let l = MetaItemsView { ident: "cfg"@, nested };
        assert(nested_word_test(l.nested[nested.index_of(word)]));
        assert(cfg_test(l));
        assert(marks_test_mod(attrs[i]));
        assert(test_mod(attrs));
    }
    if test_mod(attrs) {
        let i = choose|i: int| 0 <= i < attrs.len() && marks_test_mod(#[trigger] attrs[i]);
        if let Some(MetaView::List(l)) = attrs[i] {
            let j = choose|j: int| 0 <= j < l.nested.len() && nested_word_test(
                #[trigger] l.nested[j],
            );
            assert(l.nested[j] == word);
            assert(l.nested.contains(word));
            assert(l == MetaItemsView { ident: "cfg"@, nested: l.nested });
            assert(attrs.contains(attrs[i]));
            let nested = l.nested;
            assert(nested.contains(word) && attrs.contains(
                Some(MetaView::List(MetaItemsView { ident: "cfg"@, nested })),
            ));
        }
    }
}

/// Law: further attributes, before or behind, never turn a test into what is none,
/// and what is a test among both is one among either.
pub proof fn lemma_attributes_join(a: Seq<Option<MetaView>>, b: Seq<Option<MetaView>>)
    ensures
        test_fn(a + b) == (test_fn(a) || test_fn(b)),
        test_mod(a + b) == (test_mod(a) || test_mod(b)),
        test_fn(seq![Some(MetaView::Word("test"@))]),
        !test_fn(seq![]),
        !test_mod(seq![]),
{
    let all = a + b;
    assert forall|i: int| 0 <= i < a.len() implies all[i] == a[i] by {}
    assert forall|i: int| 0 <= i < b.len() implies #[trigger] b[i] == all[a.len() + i] by {}
    assert forall|i: int| a.len() <= i < all.len() implies #[trigger] all[i] == b[i - a.len()] by {}
    let word = seq![Some(MetaView::Word("test"@))];
    assert(word[0] == Some(MetaView::Word("test"@)));
}

/// What is left out, and what is not looked into, in other words.
proof fn lemma_left_out(t: Tree, tests: IncludeTests)
    ensures
        left_out(t, tests) == (tests == IncludeTests::No && is_test(t)),
        looked_into(t, tests) == !(left_out(t, tests) || is_path_or_literal(t)),
        unsafe_block(t) == is_block(t),
{
    match t {
        Tree::Fn { attrs, unsafety, children } => {
            lemma_any_attribute_makes_a_test(attrs);
        },
        Tree::Mod { attrs, children } => {
            lemma_any_attribute_makes_a_test(attrs);
        },
        _ => {},
    }
}

/// [`comes_to`], from the top down.
spec fn met(s: Seq<Tree>, tests: IncludeTests, p: Seq<int>) -> bool
    decreases p.len(),
{
    &&& p.len() > 0
    &&& 0 <= p[0] < s.len()
    &&& !left_out(s[p[0]], tests)
    &&& p.len() == 1 || (looked_into(s[p[0]], tests) && met(
        s[p[0]].below(),
        tests,
        p.drop_first(),
    ))
}

proof fn lemma_met(s: Seq<Tree>, tests: IncludeTests, p: Seq<int>)
    ensures
        met(s, tests, p) == comes_to(s, tests, p),
    decreases p.len(),
{
    if p.len() > 0 && 0 <= p[0] < s.len() {
        let t = s[p[0]];
        let rest = p.drop_first();
        lemma_left_out(t, tests);
        assert(p.take(1)[0] == p[0]);
        assert(part(s, p.take(1)) == t);
        if p.len() > 1 {
            lemma_met(t.below(), tests, rest);
            assert forall|k: int| 1 <= k < p.len() implies #[trigger] part(t.below(), rest.take(k))
                == part(s, p.take(k + 1)) by {
                assert(p.take(k + 1).drop_first() =~= rest.take(k));
                assert(p.take(k + 1)[0] == p[0]);
            }
            if comes_to(s, tests, p) {
                assert forall|k: int| 1 <= k <= rest.len() implies !(tests == IncludeTests::No
                    && is_test(part(t.below(), #[trigger] rest.take(k)))) by {
                    assert(part(t.below(), rest.take(k)) == part(s, p.take(k + 1)));
                }
                assert forall|k: int| 1 <= k < rest.len() implies !is_path_or_literal(
                    part(t.below(), #[trigger] rest.take(k)),
                ) by {
                    assert(part(t.below(), rest.take(k)) == part(s, p.take(k + 1)));
                }
                assert(comes_to(t.below(), tests, rest));
            }
            if met(s, tests, p) {
                assert forall|k: int| 1 <= k <= p.len() implies !(tests == IncludeTests::No
                    && is_test(part(s, #[trigger] p.take(k)))) by {
                    if k > 1 {
                        assert(part(t.below(), rest.take(k - 1)) == part(s, p.take(k)));
                    }
                }
                assert forall|k: int| 1 <= k < p.len() implies !is_path_or_literal(
                    part(s, #[trigger] p.take(k)),
                ) by {
                    if k > 1 {
                        assert(part(t.below(), rest.take(k - 1)) == part(s, p.take(k)));
                    }
                }
            }
        } else {
            assert(p.take(1) =~= p);
        }
    }
}

/// Whether the walk comes to an `unsafe` block.
spec fn has_blocks(s: Seq<Tree>, tests: IncludeTests) -> bool {
    exists|e: Seq<int>| #[trigger] met(s, tests, e) && is_block(part(s, e))
}

/// What follows the parts counts as standing in an `unsafe` block where the parts do
/// and hold none themselves.
proof fn lemma_after(s: Seq<Tree>, tests: IncludeTests, begins_in: bool)
    ensures
        unsafe_after(s, tests, begins_in) == (begins_in && !has_blocks(s, tests)),
    decreases s,
{
    if s.len() == 0 {
        assert forall|e: Seq<int>| !#[trigger] met(s, tests, e) by {}
    } else {
        let front = s.drop_last();
        let n = front.len() as int;
        let t = s.last();
        assert(s[n] == t);
        lemma_after(front, tests, begins_in);
        lemma_behind(t, tests, unsafe_after(front, tests, begins_in));
        lemma_left_out(t, tests);
        if has_blocks(front, tests) {
            let e = choose|e: Seq<int>| #[trigger] met(front, tests, e) && is_block(part(front, e));
            assert(front[e[0]] == s[e[0]]);
            assert(met(s, tests, e) && part(s, e) == part(front, e));
        }
        if tree_has_blocks(t, tests) {
            if is_block(t) {
                let e = seq![n];
                assert(met(s, tests, e) && part(s, e) == t);
            } else {
                let d = choose|d: Seq<int>|
                    #[trigger] met(t.below(), tests, d) && is_block(part(t.below(), d));
                let e = seq![n] + d;
                assert(e.drop_first() =~= d);
                assert(met(s, tests, e) && part(s, e) == part(t.below(), d));
            }
        }
        if has_blocks(s, tests) {
            let e = choose|e: Seq<int>| #[trigger] met(s, tests, e) && is_block(part(s, e));
            if e[0] < n {
                assert(front[e[0]] == s[e[0]]);
                assert(met(front, tests, e) && part(s, e) == part(front, e));
            } else if e.len() > 1 {
                assert(met(t.below(), tests, e.drop_first()));
            }
        }
    }
}

/// Whether the walk comes to an `unsafe` block in a part.
spec fn tree_has_blocks(t: Tree, tests: IncludeTests) -> bool {
    !left_out(t, tests) && (is_block(t) || (looked_into(t, tests) && has_blocks(t.below(), tests)))
}

proof fn lemma_behind(t: Tree, tests: IncludeTests, begins_in: bool)
    ensures
        unsafe_behind(t, tests, begins_in) == (begins_in && !tree_has_blocks(t, tests)),
    decreases t,
{
    lemma_left_out(t, tests);
    lemma_after(t.below(), tests, begins_in);
}

/// [`in_block`], from the top down.
spec fn state(s: Seq<Tree>, tests: IncludeTests, begins_in: bool, p: Seq<int>) -> bool
    decreases p.len(),
{
    let before = unsafe_after(s.take(p[0]), tests, begins_in);
    if p.len() <= 1 {
        before
    } else {
        state(s[p[0]].below(), tests, before || unsafe_block(s[p[0]]), p.drop_first())
    }
}

/// An `unsafe` block that has ended below the part that a position leads through has
/// ended among all the parts, and the other way round.
proof fn lemma_ended_below(s: Seq<Tree>, tests: IncludeTests, p: Seq<int>, e: Seq<int>)
    requires
        met(s, tests, p),
        p.len() > 1,
        e.len() > 1,
        e[0] == p[0],
    ensures
        ended(s, tests, p, e) == ended(s[p[0]].below(), tests, p.drop_first(), e.drop_first()),
{
    lemma_met(s, tests, e);
    lemma_met(s[p[0]].below(), tests, e.drop_first());
}

/// No `unsafe` block has ended before a part that stands in none of those before it
/// and that has not itself ended.
proof fn lemma_ended_before(s: Seq<Tree>, tests: IncludeTests, p: Seq<int>, e: Seq<int>)
    requires
        met(s, tests, p),
        ended(s, tests, p, e),
    ensures
        e[0] < p[0] ==> has_blocks(s.take(p[0]), tests),
        e[0] >= p[0] ==> e[0] == p[0] && e.len() > 1 && p.len() > 1,
{
    lemma_met(s, tests, e);
    if e[0] < p[0] {
        let front = s.take(p[0]);
        assert(front[e[0]] == s[e[0]]);
        assert(met(front, tests, e) && part(front, e) == part(s, e));
    } else if e.len() <= 1 || p.len() <= 1 {
        assert(!passed(e.drop_first(), p.drop_first()));
    }
}

proof fn lemma_state(s: Seq<Tree>, tests: IncludeTests, begins_in: bool, p: Seq<int>)
    requires
        met(s, tests, p),
    ensures
        state(s, tests, begins_in, p) == in_block(s, tests, begins_in, p),
    decreases p.len(),
{
    let i = p[0];
    let t = s[i];
    let front = s.take(i);
    lemma_after(front, tests, begins_in);
    lemma_left_out(t, tests);
    let before = unsafe_after(front, tests, begins_in);
    if has_blocks(front, tests) {
        let e = choose|e: Seq<int>| #[trigger] met(front, tests, e) && is_block(part(front, e));
        assert(front[e[0]] == s[e[0]]);
        assert(met(s, tests, e) && part(front, e) == part(s, e));
        lemma_met(s, tests, e);
        assert(ended(s, tests, p, e));
    }
    if p.len() == 1 {
        assert forall|e: Seq<int>| begins_in && !has_blocks(front, tests) implies !#[trigger] ended(
            s,
            tests,
            p,
            e,
        ) by {
            if ended(s, tests, p, e) {
                lemma_ended_before(s, tests, p, e);
            }
        }
    } else {
        let rest = p.drop_first();
        let inner = t.below();
        let inside = before || is_block(t);
        lemma_state(inner, tests, inside, rest);
        assert(p.take(1)[0] == i);
        assert(part(s, p.take(1)) == t);
        assert forall|k: int| 1 <= k < p.len() implies #[trigger] part(inner, rest.take(k)) == part(
            s,
            p.take(k + 1),
        ) by {
            assert(p.take(k + 1).drop_first() =~= rest.take(k));
            assert(p.take(k + 1)[0] == i);
        }
        if in_block(inner, tests, inside, rest) {
            if exists|k: int|
                {
                    &&& 1 <= k < rest.len()
                    &&& is_block(part(inner, #[trigger] rest.take(k)))
                    &&& forall|e: Seq<int>|
                        #[trigger] ended(inner, tests, rest, e) ==> !(e.len() > k && e.take(k)
                            == rest.take(k))
                } {
                let k = choose|k: int|
                    {
                        &&& 1 <= k < rest.len()
                        &&& is_block(part(inner, #[trigger] rest.take(k)))
                        &&& forall|e: Seq<int>|
                            #[trigger] ended(inner, tests, rest, e) ==> !(e.len() > k && e.take(k)
                                == rest.take(k))
                    };
                assert forall|e: Seq<int>| #[trigger] ended(s, tests, p, e) implies !(e.len() > k
                    + 1 && e.take(k + 1) == p.take(k + 1)) by {
                    if e.len() > k + 1 && e.take(k + 1) == p.take(k + 1) {
                        assert(e[0] == e.take(k + 1)[0]);
                        assert(p[0] == p.take(k + 1)[0]);
                        lemma_ended_below(s, tests, p, e);
                        let d = e.drop_first();
                        assert(d.take(k) =~= e.take(k + 1).drop_first());
                        assert(rest.take(k) =~= p.take(k + 1).drop_first());
                    }
                }
                assert(part(inner, rest.take(k)) == part(s, p.take(k + 1)));
            } else if is_block(t) {
                assert forall|e: Seq<int>| #[trigger] ended(s, tests, p, e) implies !(e.len() > 1
                    && e.take(1) == p.take(1)) by {
                    if e.len() > 1 && e.take(1) == p.take(1) {
                        assert(e[0] == e.take(1)[0]);
                        lemma_ended_below(s, tests, p, e);
                    }
                }
            } else {
                assert forall|e: Seq<int>| !#[trigger] ended(s, tests, p, e) by {
                    if ended(s, tests, p, e) {
                        lemma_ended_before(s, tests, p, e);
                        lemma_ended_below(s, tests, p, e);
                    }
                }
            }
        }
        if in_block(s, tests, begins_in, p) {
            if exists|k: int|
                {
                    &&& 1 <= k < p.len()
                    &&& is_block(part(s, #[trigger] p.take(k)))
                    &&& forall|e: Seq<int>|
                        #[trigger] ended(s, tests, p, e) ==> !(e.len() > k && e.take(k) == p.take(
                            k,
                        ))
                } {
                let k = choose|k: int|
                    {
                        &&& 1 <= k < p.len()
                        &&& is_block(part(s, #[trigger] p.take(k)))
                        &&& forall|e: Seq<int>|
                            #[trigger] ended(s, tests, p, e) ==> !(e.len() > k && e.take(k)
                                == p.take(k))
                    };
                assert forall|d: Seq<int>| #[trigger] ended(inner, tests, rest, d) implies !(d.len()
                    > k - 1 && d.take(k - 1) == rest.take(k - 1)) by {
                    if d.len() > k - 1 && d.take(k - 1) == rest.take(k - 1) {
                        let e = seq![i] + d;
                        assert(e.drop_first() =~= d);
                        lemma_ended_below(s, tests, p, e);
                        assert(e.take(k) =~= seq![i] + d.take(k - 1));
                        assert(p.take(k) =~= seq![i] + rest.take(k - 1));
                    }
                }
                if k > 1 {
                    assert(part(inner, rest.take(k - 1)) == part(s, p.take(k)));
                } else {
                    assert forall|d: Seq<int>| !#[trigger] ended(inner, tests, rest, d) by {
                        if ended(inner, tests, rest, d) {
                            assert(d.take(0) =~= rest.take(0));
                        }
                    }
                }
            } else {
                assert forall|d: Seq<int>| !#[trigger] ended(inner, tests, rest, d) by {
                    let e = seq![i] + d;
                    assert(e.drop_first() =~= d);
                    if ended(inner, tests, rest, d) {
                        lemma_ended_below(s, tests, p, e);
                    }
                }
            }
        }
    }
}

/// [`counts_as`], from the top down.
spec fn hit(
    s: Seq<Tree>,
    tests: IncludeTests,
    begins_in: bool,
    item: Item,
    is_unsafe: bool,
    p: Seq<int>,
) -> bool
    decreases p.len(), 0int,
{
    &&& p.len() > 0
    &&& 0 <= p[0] < s.len()
    &&& hit_in(
        s[p[0]],
        tests,
        unsafe_after(s.take(p[0]), tests, begins_in),
        item,
        is_unsafe,
        p.drop_first(),
    )
}

/// The same of a single part, whose own position is the empty one.
spec fn hit_in(
    t: Tree,
    tests: IncludeTests,
    begins_in: bool,
    item: Item,
    is_unsafe: bool,
    p: Seq<int>,
) -> bool
    decreases p.len(), 1int,
{
    &&& !left_out(t, tests)
    &&& if p.len() == 0 {
        is_item(t, item) && is_unsafe == if item is Expr {
            begins_in
        } else {
            has_keyword(t)
        }
    } else {
        looked_into(t, tests) && hit(
            t.below(),
            tests,
            begins_in || unsafe_block(t),
            item,
            is_unsafe,
            p,
        )
    }
}

proof fn lemma_hit(
    s: Seq<Tree>,
    tests: IncludeTests,
    begins_in: bool,
    item: Item,
    is_unsafe: bool,
    p: Seq<int>,
)
    ensures
        hit(s, tests, begins_in, item, is_unsafe, p) == (met(s, tests, p) && is_item(
            part(s, p),
            item,
        ) && is_unsafe == if item is Expr {
            state(s, tests, begins_in, p)
        } else {
            has_keyword(part(s, p))
        }),
    decreases p.len(),
{
    if p.len() > 1 && 0 <= p[0] < s.len() {
        lemma_hit(
            s[p[0]].below(),
            tests,
            unsafe_after(s.take(p[0]), tests, begins_in) || unsafe_block(s[p[0]]),
            item,
            is_unsafe,
            p.drop_first(),
        );
    }
}

/// The positions of the parts that count as an item of a kind.
#[verifier::spinoff_prover]
#[verifier::rlimit(40)]
proof fn lemma_hits(
    s: Seq<Tree>,
    tests: IncludeTests,
    begins_in: bool,
    item: Item,
    is_unsafe: bool,
) -> (ps: Seq<Seq<int>>)
    ensures
        ps.no_duplicates(),
        forall|p: Seq<int>|
            #[trigger] ps.contains(p) == hit(s, tests, begins_in, item, is_unsafe, p),
        ps.len() == number(tally(s, tests, begins_in), item, is_unsafe),
    decreases s,
{
    if s.len() == 0 {
        seq![]
    } else {
        let front = s.drop_last();
        let n = front.len() as int;
        let t = s.last();
        let x = unsafe_after(front, tests, begins_in);
        let a = lemma_hits(front, tests, begins_in, item, is_unsafe);
        let b = lemma_hits_in(t, tests, x, item, is_unsafe);
        let c = b.map_values(|q: Seq<int>| seq![n] + q);
        let ps = a + c;
        assert(s.take(n) =~= front);
        assert forall|p: Seq<int>| #[trigger] ps.contains(p) == hit(
            s,
            tests,
            begins_in,
            item,
            is_unsafe,
            p,
        ) by {
            if a.contains(p) {
                assert(ps[a.index_of(p)] == p);
                assert(front[p[0]] == s[p[0]]);
                assert(front.take(p[0]) =~= s.take(p[0]));
            }
            if hit(s, tests, begins_in, item, is_unsafe, p) {
                if p[0] < n {
                    assert(front[p[0]] == s[p[0]]);
                    assert(front.take(p[0]) =~= s.take(p[0]));
                    assert(a.contains(p));
                } else {
                    let q = p.drop_first();
                    assert(b.contains(q));
                    let j = b.index_of(q);
                    assert(seq![n] + q =~= p);
                    assert(c[j] == p);
                    assert(ps[a.len() + j] == p);
                }
            }
            if ps.contains(p) && !a.contains(p) {
                let j = ps.index_of(p);
                if j < a.len() {
                    assert(a[j] == p);
                }
                let q = b[j - a.len()];
                assert(b.contains(q));
                assert(p == seq![n] + q);
                assert(p.drop_first() =~= q);
            }
        }
        assert forall|i: int, j: int| 0 <= i < j < ps.len() implies ps[i] != ps[j] by {
            if j < a.len() {
                assert(a[i] != a[j]);
            } else if i >= a.len() {
                let q = b[i - a.len()];
                let r = b[j - a.len()];
                assert(q != r);
                assert(ps[i] == seq![n] + q);
                assert(ps[j] == seq![n] + r);
                if ps[i] == ps[j] {
                    assert((seq![n] + q).drop_first() =~= q);
                    assert((seq![n] + r).drop_first() =~= r);
                }
            } else {
                assert(a.contains(a[i]));
                assert(a[i][0] < n);
                assert(ps[j][0] == n);
            }
        }
        ps
    }
}

/// What a part counts as by itself.
proof fn lemma_own_hit(
    t: Tree,
    tests: IncludeTests,
    begins_in: bool,
    item: Item,
    is_unsafe: bool,
)
    requires
        !left_out(t, tests),
    ensures
        number(own_tally(t, begins_in), item, is_unsafe) == if hit_in(
            t,
            tests,
            begins_in,
            item,
            is_unsafe,
            Seq::<int>::empty(),
        ) {
            1nat
        } else {
            0nat
        },
{
}

/// Tallies are added kind by kind.
proof fn lemma_number_plus(a: Tally, b: Tally, item: Item, is_unsafe: bool)
    ensures
        number(a.plus(b), item, is_unsafe) == number(a, item, is_unsafe) + number(
            b,
            item,
            is_unsafe,
        ),
{
}

#[verifier::spinoff_prover]
#[verifier::rlimit(40)]
proof fn lemma_hits_in(
    t: Tree,
    tests: IncludeTests,
    begins_in: bool,
    item: Item,
    is_unsafe: bool,
) -> (ps: Seq<Seq<int>>)
    ensures
        ps.no_duplicates(),
        forall|p: Seq<int>|
            #[trigger] ps.contains(p) == hit_in(t, tests, begins_in, item, is_unsafe, p),
        ps.len() == number(tree_tally(t, tests, begins_in), item, is_unsafe),
    decreases t,
{
    let none = Seq::<Seq<int>>::empty();
    let here = Seq::<int>::empty();
    if left_out(t, tests) {
        none
    } else {
        let own = if hit_in(t, tests, begins_in, item, is_unsafe, here) {
            seq![here]
        } else {
            none
        };
        assert(own.len() > 0 ==> own[0] == here);
        lemma_own_hit(t, tests, begins_in, item, is_unsafe);
        if looked_into(t, tests) {
            let b = lemma_hits(t.below(), tests, begins_in || unsafe_block(t), item, is_unsafe);
            let ps = own + b;
            lemma_number_plus(
                own_tally(t, begins_in),
                tally(t.below(), tests, begins_in || unsafe_block(t)),
                item,
                is_unsafe,
            );
            assert forall|p: Seq<int>| #[trigger] ps.contains(p) == hit_in(
                t,
                tests,
                begins_in,
                item,
                is_unsafe,
                p,
            ) by {
                if p.len() == 0 {
                    assert(p =~= here);
                }
                if own.contains(p) {
                    assert(ps[own.index_of(p)] == p);
                }
                if b.contains(p) {
                    assert(ps[own.len() + b.index_of(p)] == p);
                }
                if ps.contains(p) {
                    let j = ps.index_of(p);
                    if j < own.len() {
                        assert(own[j] == p);
                    } else {
                        assert(b[j - own.len()] == p);
                        assert(b.contains(p));
                    }
                }
            }
            assert forall|i: int, j: int| 0 <= i < j < ps.len() implies ps[i] != ps[j] by {
                assert(b.contains(b[j - own.len()]));
                if i >= own.len() {
                    assert(b[i - own.len()] != b[j - own.len()]);
                }
            }
            ps
        } else {
            assert forall|p: Seq<int>| #[trigger] own.contains(p) == hit_in(
                t,
                tests,
                begins_in,
                item,
                is_unsafe,
                p,
            ) by {
                if p.len() == 0 {
                    assert(p =~= here);
                }
            }
            own
        }
    }
}

/// Law: what source code counts as is the number of the positions in it at which a
/// part stands that counts. A function, an `impl` block, a trait and a method counts
/// wherever the walk comes to it, as unsafe where its keyword says so; so does every
/// expression but `unsafe` blocks, paths and literals, as unsafe where it stands in
/// an `unsafe` block.
pub proof fn lemma_every_part_counts_once(
    s: Seq<Tree>,
    tests: IncludeTests,
    begins_in: bool,
    item: Item,
    is_unsafe: bool,
) -> (ps: Seq<Seq<int>>)
    ensures
        ps.no_duplicates(),
        forall|p: Seq<int>|
            #[trigger] ps.contains(p) <==> counts_as(s, tests, begins_in, item, is_unsafe, p),
        number(tally(s, tests, begins_in), item, is_unsafe) == ps.len(),
{
    let ps = lemma_hits(s, tests, begins_in, item, is_unsafe);
    assert forall|p: Seq<int>| #[trigger] ps.contains(p) <==> counts_as(
        s,
        tests,
        begins_in,
        item,
        is_unsafe,
        p,
    ) by {
        lemma_hit(s, tests, begins_in, item, is_unsafe, p);
        lemma_met(s, tests, p);
        if met(s, tests, p) {
            lemma_state(s, tests, begins_in, p);
        }
    }
    ps
}

/// Law: what follows the parts of a file counts as standing in an `unsafe` block
/// where the walk began in one and came to none.
pub proof fn lemma_any_block_ends_it(s: Seq<Tree>, tests: IncludeTests, begins_in: bool)
    ensures
        unsafe_after(s, tests, begins_in) <==> begins_in && forall|e: Seq<int>|
            !(#[trigger] comes_to(s, tests, e) && is_block(part(s, e))),
{
    lemma_after(s, tests, begins_in);
    assert forall|e: Seq<int>| met(s, tests, e) == #[trigger] comes_to(s, tests, e) by {
        lemma_met(s, tests, e);
    }
    if has_blocks(s, tests) {
        let e = choose|e: Seq<int>| #[trigger] met(s, tests, e) && is_block(part(s, e));
        assert(comes_to(s, tests, e));
    }
}

/// Law: what stands directly below a part is what it was written with, of whatever
/// kind the part is.
pub proof fn lemma_below_is_what_is_written(t: Tree)
    ensures
        match t {
            Tree::Fn { attrs, unsafety, children } => t.below() == children,
            Tree::Mod { attrs, children } => t.below() == children,
            Tree::Impl { unsafety, children } => t.below() == children,
            Tree::Trait { unsafety, children } => t.below() == children,
            Tree::Method { unsafety, children } => t.below() == children,
            Tree::Expr { kind, children } => t.below() == children,
        },
{
}

/// Law: an attribute's content is the word `test` where it is spelled so, and a list is
/// a `cfg` with that word where it has that name and the word stands anywhere in it.
pub proof fn lemma_what_marks_tests(m: MetaView, l: MetaItemsView)
    ensures
        word_test(m) <==> m == MetaView::Word("test"@),
        cfg_test(l) <==> l.ident == "cfg"@ && l.nested.contains(
            NestedItemView::Meta(MetaView::Word("test"@)),
        ),
{
    let word = NestedItemView::Meta(MetaView::Word("test"@));
    if l.nested.contains(word) {
        assert(nested_word_test(l.nested[l.nested.index_of(word)]));
    }
    if cfg_test(l) {
        let i = choose|i: int| 0 <= i < l.nested.len() && nested_word_test(#[trigger] l.nested[i]);
        assert(l.nested[i] == word);
    }
}

/// The counter of a kind of items, in files that the build uses or in others.
pub open spec fn counter(b: CounterBlock, item: Item, is_unsafe: bool, used: bool) -> u64 {
    let c = match item {
        Item::Function => b.functions,
        Item::Expr => b.exprs,
        Item::Impl => b.itemimpls,
        Item::Trait => b.itemtraits,
        Item::Method => b.methods,
    };
    match (is_unsafe, used) {
        (false, false) => c.safe_unused,
        (false, true) => c.safe_used,
        (true, false) => c.unsafe_unused,
        (true, true) => c.unsafe_used,
    }
}

/// Law: a walk raises the counters of files like the one it goes through by what the
/// parts of the file count as, and leaves the counters of other files and the settings
/// as they were. A part is walked through as a file of that part alone is.
pub proof fn lemma_walk_raises_counters(
    v: GeigerSynVisitor,
    s: Seq<Tree>,
    t: Tree,
    after: GeigerSynVisitor,
    item: Item,
    is_unsafe: bool,
)
    ensures
        v.visited(t, after) == v.visited_all(seq![t], after),
        v.visited_all(s, after) ==> {
            &&& counter(after.counters, item, is_unsafe, v.used_by_build) == counter(
                v.counters,
                item,
                is_unsafe,
                v.used_by_build,
            ) + number(tally(s, v.include_tests, v.in_unsafe_block), item, is_unsafe)
            &&& counter(after.counters, item, is_unsafe, !v.used_by_build) == counter(
                v.counters,
                item,
                is_unsafe,
                !v.used_by_build,
            )
            &&& after.include_tests == v.include_tests
            &&& after.verbosity == v.verbosity
            &&& after.used_by_build == v.used_by_build
            &&& after.in_unsafe_block == unsafe_after(s, v.include_tests, v.in_unsafe_block)
        },
{
    let one = seq![t];
    let none = one.drop_last();
    assert(none =~= seq![]);
    assert(one.last() == t);
    assert(tally(none, v.include_tests, v.in_unsafe_block) == Tally::none());
    assert(unsafe_after(none, v.include_tests, v.in_unsafe_block) == v.in_unsafe_block);
    assert(tally(one, v.include_tests, v.in_unsafe_block) == tree_tally(
        t,
        v.include_tests,
        v.in_unsafe_block,
    ));
}

}
