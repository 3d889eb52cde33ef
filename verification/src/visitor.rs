//! The walk through source code that fills the metrics.

use vstd::prelude::*;

use crate::count::{CappedTally, CounterBlock};
#[allow(unused_imports)]
use crate::count::{Split, Tally};
use crate::syntax::{
    Attr, ExprKind, ExprNode, FnNode, ImplNode, MetaItem, MetaItems,
    MethodNode, ModNode, NestedItem, SyntaxNode, TraitNode,
};
#[allow(unused_imports)]
use crate::syntax::{
    attr_values, lemma_nested_values, lemma_trees, parse_result, trees, MetaItemsView,
    MetaView, NestedItemView, Tree,
};
use crate::text::same_text;

verus! {

/// Whether the code of tests is counted.
#[derive(Debug, Clone, Copy, PartialEq, Eq, Structural)]
pub enum IncludeTests {
    Yes,
    No,
}

/// How much is printed.
#[derive(Debug, Clone, Copy, PartialEq, Eq, Structural)]
pub enum Verbosity {
    Verbose,
    Normal,
    Quiet,
}

/// Whether an attribute's content is the word `test`.
pub open spec fn word_test(m: MetaView) -> bool {
    m == MetaView::Word("test"@)
}

/// Whether an attribute's content is `cfg(..)` with the word `test` in the list.
pub open spec fn cfg_test(l: MetaItemsView) -> bool {
    &&& l.ident == "cfg"@
    &&& exists|i: int| 0 <= i < l.nested.len() && nested_word_test(#[trigger] l.nested[i])
}

/// Whether an element of such a list is the word `test`.
pub open spec fn nested_word_test(n: NestedItemView) -> bool {
    match n {
        NestedItemView::Meta(m) => word_test(m),
        NestedItemView::Literal => false,
    }
}

/// Whether an attribute marks a module as one of tests.
pub open spec fn marks_test_mod(a: Option<MetaView>) -> bool {
    match a {
        Some(MetaView::List(l)) => cfg_test(l),
        _ => false,
    }
}

/// Whether an attribute marks a function as a test.
pub open spec fn marks_test_fn(a: Option<MetaView>) -> bool {
    match a {
        Some(m) => word_test(m),
        None => false,
    }
}

/// Whether the attributes mark a module as one of tests.
pub open spec fn test_mod(attrs: Seq<Option<MetaView>>) -> bool {
    exists|i: int| 0 <= i < attrs.len() && marks_test_mod(#[trigger] attrs[i])
}

/// Whether the attributes mark a function as a test.
pub open spec fn test_fn(attrs: Seq<Option<MetaView>>) -> bool {
    exists|i: int| 0 <= i < attrs.len() && marks_test_fn(#[trigger] attrs[i])
}

/// Whether an attribute's content is the word `test`.
pub fn meta_is_word_test(m: &MetaItem) -> (r: bool)
    ensures
        r == word_test(m.value()),
{
    match m {
        MetaItem::Word(ident) => same_text(ident.as_str(), "test"),
        _ => false,
    }
}

/// Whether an attribute's content is `cfg(..)` with the word `test` in the list.
pub fn meta_list_is_cfg_test(ml: &MetaItems) -> (r: bool)
    ensures
        r == cfg_test(ml.value()),
{
    proof {
        lemma_nested_values(ml.nested@);
    }
    if !same_text(ml.ident.as_str(), "cfg") {
        return false;
    }
    let mut i: usize = 0;
    while i < ml.nested.len()
        invariant
            i <= ml.nested.len(),
            ml.value().ident == "cfg"@,
            ml.value().nested.len() == ml.nested.len(),
            forall|j: int|
                0 <= j < ml.nested.len() ==> ml.value().nested[j] == (
                #[trigger] ml.nested[j]).value(),
            forall|j: int| 0 <= j < i ==> !nested_word_test(#[trigger] ml.value().nested[j]),
        decreases ml.nested.len() - i,
    {
        let found = match &ml.nested[i] {
            NestedItem::Meta(meta) => meta_is_word_test(meta),
            NestedItem::Literal => false,
        };
        assert(ml.value().nested[i as int] == ml.nested[i as int].value());
        assert(found == nested_word_test(ml.value().nested[i as int]));
        if found {
            return true;
        }
        i += 1;
    }
    false
}

/// Will return true for #[cfg(test)] decorated modules.
///
/// More advanced cfg expressions, such as `cfg(all(test, unix))`, are not
/// recognised.
pub fn is_test_mod(i: &ModNode) -> (r: bool)
    ensures
        r == test_mod(attr_values(i.attrs@)),
{
    let mut k: usize = 0;
    while k < i.attrs.len()
        invariant
            k <= i.attrs.len(),
            forall|j: int| 0 <= j < k ==> !marks_test_mod(#[trigger] attr_values(i.attrs@)[j]),
        decreases i.attrs.len() - k,
    {
        let found = match &i.attrs[k].meta {
            Some(MetaItem::List(ml)) => meta_list_is_cfg_test(ml),
            _ => false,
        };
        assert(found == marks_test_mod(attr_values(i.attrs@)[k as int]));
        if found {
            return true;
        }
        k += 1;
    }
    false
}

/// Will return true for functions that are decorated with #[test].
pub fn is_test_fn(i: &FnNode) -> (r: bool)
    ensures
        r == test_fn(attr_values(i.attrs@)),
{
    let mut k: usize = 0;
    while k < i.attrs.len()
        invariant
            k <= i.attrs.len(),
            forall|j: int| 0 <= j < k ==> !marks_test_fn(#[trigger] attr_values(i.attrs@)[j]),
        decreases i.attrs.len() - k,
    {
        let found = match &i.attrs[k].meta {
            Some(m) => meta_is_word_test(m),
            None => false,
        };
        assert(found == marks_test_fn(attr_values(i.attrs@)[k as int]));
        if found {
            return true;
        }
        k += 1;
    }
    false
}

/// Whether a part of the source code is left out, with all that stands in it.
pub open spec fn left_out(t: Tree, tests: IncludeTests) -> bool {
    &&& tests is No
    &&& match t {
        Tree::Fn { attrs, unsafety, children } => test_fn(attrs),
        Tree::Mod { attrs, children } => test_mod(attrs),
        _ => false,
    }
}

/// What a part of the source code counts as by itself, where `in_unsafe` says
/// whether it is taken to stand in an `unsafe` block.
pub open spec fn own_tally(t: Tree, in_unsafe: bool) -> Tally {
    let none = Tally::none();
    match t {
        Tree::Fn { attrs, unsafety, children } => Tally { functions: Split::one(unsafety), ..none },
        Tree::Mod { attrs, children } => none,
        Tree::Impl { unsafety, children } => Tally { itemimpls: Split::one(unsafety), ..none },
        Tree::Trait { unsafety, children } => Tally { itemtraits: Split::one(unsafety), ..none },
        Tree::Method { unsafety, children } => Tally { methods: Split::one(unsafety), ..none },
        Tree::Expr { kind, children } => if kind is Other {
            Tally { exprs: Split::one(in_unsafe), ..none }
        } else {
            none
        },
    }
}

/// Whether what stands below the part is looked at: not below a path or a
/// literal, nor below what is left out.
pub open spec fn looked_into(t: Tree, tests: IncludeTests) -> bool {
    match t {
        Tree::Expr { kind, children } => kind is Unsafe || kind is Other,
        _ => !left_out(t, tests),
    }
}

/// Whether the part is an `unsafe` block.
pub open spec fn unsafe_block(t: Tree) -> bool {
    match t {
        Tree::Expr { kind, children } => kind is Unsafe,
        _ => false,
    }
}

/// Whether what follows the part is taken to stand in an `unsafe` block: an
/// `unsafe` block ends that, also where it stands within another one.
pub open spec fn unsafe_behind(t: Tree, tests: IncludeTests, in_unsafe: bool) -> bool
    decreases t,
{
    if unsafe_block(t) {
        false
    } else if looked_into(t, tests) {
        unsafe_after(t.below(), tests, in_unsafe)
    } else {
        in_unsafe
    }
}

/// Whether what follows the parts is taken to stand in an `unsafe` block.
pub open spec fn unsafe_after(s: Seq<Tree>, tests: IncludeTests, in_unsafe: bool) -> bool
    decreases s,
{
    if s.len() == 0 {
        in_unsafe
    } else {
        unsafe_behind(s.last(), tests, unsafe_after(s.drop_last(), tests, in_unsafe))
    }
}

/// What a part of the source code counts as, with all that stands in it.
pub open spec fn tree_tally(t: Tree, tests: IncludeTests, in_unsafe: bool) -> Tally
    decreases t,
{
    if left_out(t, tests) {
        Tally::none()
    } else if looked_into(t, tests) {
        own_tally(t, in_unsafe).plus(tally(t.below(), tests, in_unsafe || unsafe_block(t)))
    } else {
        own_tally(t, in_unsafe)
    }
}

/// What the parts count as, one after the other.
pub open spec fn tally(s: Seq<Tree>, tests: IncludeTests, in_unsafe: bool) -> Tally
    decreases s,
{
    if s.len() == 0 {
        Tally::none()
    } else {
        tally(s.drop_last(), tests, in_unsafe).plus(
            tree_tally(s.last(), tests, unsafe_after(s.drop_last(), tests, in_unsafe)),
        )
    }
}

/// Whether `a` holds no more items of any kind than `b`.
pub open spec fn within(a: Tally, b: Tally) -> bool {
    &&& split_within(a.functions, b.functions)
    &&& split_within(a.exprs, b.exprs)
    &&& split_within(a.itemimpls, b.itemimpls)
    &&& split_within(a.itemtraits, b.itemtraits)
    &&& split_within(a.methods, b.methods)
}

/// Whether `a` holds no more safe and no more unsafe items than `b`.
pub open spec fn split_within(a: Split, b: Split) -> bool {
    a.safe_items <= b.safe_items && a.unsafe_items <= b.unsafe_items
}

/// The first parts count as no more than all of them.
proof fn lemma_tally_prefix(s: Seq<Tree>, tests: IncludeTests, in_unsafe: bool, n: int)
    requires
        0 <= n <= s.len(),
    ensures
        within(tally(s.take(n), tests, in_unsafe), tally(s, tests, in_unsafe)),
    decreases s.len(),
{
    if n == s.len() {
        assert(s.take(n) =~= s);
    } else {
        lemma_tally_prefix(s.drop_last(), tests, in_unsafe, n);
        assert(s.drop_last().take(n) =~= s.take(n));
    }
}

/// What a part of the source code counts as, and whether what follows it is taken
/// to stand in an `unsafe` block.
fn tally_node(node: &SyntaxNode, tests: IncludeTests, in_unsafe: bool) -> (r: (CappedTally, bool))
    ensures
        r.0.stands_for(tree_tally(node.tree(), tests, in_unsafe)),
        r.1 == unsafe_behind(node.tree(), tests, in_unsafe),
    decreases node,
{
    let ghost t = node.tree();
    let (own, children): (CappedTally, &Vec<SyntaxNode>) = match node {
        SyntaxNode::Fn(i) => {
            if tests == IncludeTests::No && is_test_fn(i) {
                return (CappedTally::none(), in_unsafe);
            }
            (CappedTally::function(i.unsafety), &i.children)
        },
        SyntaxNode::Mod(i) => {
            if tests == IncludeTests::No && is_test_mod(i) {
                return (CappedTally::none(), in_unsafe);
            }
            (CappedTally::none(), &i.children)
        },
        SyntaxNode::Impl(i) => (CappedTally::itemimpl(i.unsafety), &i.children),
        SyntaxNode::Trait(i) => (CappedTally::itemtrait(i.unsafety), &i.children),
        SyntaxNode::Method(i) => (CappedTally::method(i.unsafety), &i.children),
        SyntaxNode::Expr(i) => match i.kind {
            ExprKind::Path | ExprKind::Lit => {
                return (CappedTally::none(), in_unsafe);
            },
            ExprKind::Unsafe => (CappedTally::none(), &i.children),
            ExprKind::Other => (CappedTally::expr(in_unsafe), &i.children),
        },
    };
    let block: bool = match node {
        SyntaxNode::Expr(i) => i.kind == ExprKind::Unsafe,
        _ => false,
    };
    let (below, behind) = tally_nodes(children, tests, in_unsafe || block);
    let all = own.plus(
        below,
        Ghost(own_tally(t, in_unsafe)),
        Ghost(tally(t.below(), tests, in_unsafe || block)),
    );
    (all, behind && !block)
}

/// What parts of the source code count as, one after the other, and whether what
/// follows them is taken to stand in an `unsafe` block.
fn tally_nodes(nodes: &Vec<SyntaxNode>, tests: IncludeTests, in_unsafe: bool) -> (r: (
    CappedTally,
    bool,
))
    ensures
        r.0.stands_for(tally(trees(nodes@), tests, in_unsafe)),
        r.1 == unsafe_after(trees(nodes@), tests, in_unsafe),
    decreases nodes@,
{
    let ghost ts = trees(nodes@);
    let mut all = CappedTally::none();
    let mut unsafe_now: bool = in_unsafe;
    let mut i: usize = 0;
    proof {
        lemma_trees(nodes@);
        assert(ts.take(0) =~= seq![]);
    }
    while i < nodes.len()
        invariant
            i <= nodes.len(),
            ts == trees(nodes@),
            ts.len() == nodes.len(),
            forall|j: int| 0 <= j < nodes.len() ==> ts[j] == (#[trigger] nodes[j]).tree(),
            all.stands_for(tally(ts.take(i as int), tests, in_unsafe)),
            unsafe_now == unsafe_after(ts.take(i as int), tests, in_unsafe),
        decreases nodes.len() - i,
    {
        proof {
            let next = ts.take(i + 1);
            assert(next.drop_last() =~= ts.take(i as int));
            assert(next.last() == nodes[i as int].tree());
        }
        let (items, behind) = tally_node(&nodes[i], tests, unsafe_now);
        all = all.plus(
            items,
            Ghost(tally(ts.take(i as int), tests, in_unsafe)),
            Ghost(tree_tally(nodes@[i as int].tree(), tests, unsafe_now)),
        );
        unsafe_now = behind;
        i += 1;
    }
    assert(ts.take(i as int) =~= ts);
    (all, unsafe_now)
}

/// Walks through source code and counts.
pub struct GeigerSynVisitor {
    /// Count unsafe usage inside tests
    pub include_tests: IncludeTests,
    /// Verbose logging.
    pub verbosity: Verbosity,
    /// Metrics storage.
    pub counters: CounterBlock,
    /// Used to separate the metrics into "used by build" and "not used by
    /// build" based on if the .rs file was used in the build or not.
    pub used_by_build: bool,
    /// Tracks the traversal state.
    pub in_unsafe_block: bool,
}

/// Why a file was not counted.
#[derive(Debug)]
pub enum ScanError {
    /// It is no Rust source code; the debug form of the error.
    Parse(String),
    /// It holds more than a counter has room for.
    TooLarge,
}

impl GeigerSynVisitor {
    /// A visitor that has counted nothing yet.
    pub fn new(include_tests: IncludeTests, verbosity: Verbosity) -> (v: Self)
        ensures
            v.include_tests == include_tests,
            v.verbosity == verbosity,
            v.counters == CounterBlock::zero(),
            !v.used_by_build,
            !v.in_unsafe_block,
    {
        GeigerSynVisitor {
            include_tests,
            verbosity,
            counters: CounterBlock::default(),
            used_by_build: false,
            in_unsafe_block: false,
        }
    }

    /// Whether the items still fit into the counters.
    pub open spec fn has_room(self, t: Tally) -> bool {
        self.counters.has_room(self.used_by_build, t)
    }

    /// Whether `after` is this visitor, with the items counted and the traversal
    /// state as given.
    pub open spec fn advanced(self, t: Tally, in_unsafe: bool, after: Self) -> bool {
        &&& after.include_tests == self.include_tests
        &&& after.verbosity == self.verbosity
        &&& after.used_by_build == self.used_by_build
        &&& after.in_unsafe_block == in_unsafe
        &&& self.counters.grown(self.used_by_build, t, after.counters)
    }

    /// What the visitor counts a part as from its present state on.
    pub open spec fn tally_of(self, t: Tree) -> Tally {
        tree_tally(t, self.include_tests, self.in_unsafe_block)
    }

    /// Whether `after` is this visitor once it has been through a part.
    pub open spec fn visited(self, t: Tree, after: Self) -> bool {
        self.advanced(
            self.tally_of(t),
            unsafe_behind(t, self.include_tests, self.in_unsafe_block),
            after,
        )
    }

    /// What the visitor counts the parts as from its present state on.
    pub open spec fn tally_of_all(self, s: Seq<Tree>) -> Tally {
        tally(s, self.include_tests, self.in_unsafe_block)
    }

    /// Whether `after` is this visitor once it has been through the parts.
    pub open spec fn visited_all(self, s: Seq<Tree>, after: Self) -> bool {
        self.advanced(
            self.tally_of_all(s),
            unsafe_after(s, self.include_tests, self.in_unsafe_block),
            after,
        )
    }

    /// Free-standing functions
    pub fn visit_item_fn(&mut self, i: &FnNode)
        requires
            old(self).has_room(old(self).tally_of(i.tree())),
        ensures
            old(self).visited(i.tree(), *final(self)),
        decreases i,
    {
        if self.include_tests == IncludeTests::No && is_test_fn(i) {
            return;
        }
        self.counters.functions.count(i.unsafety, self.used_by_build);
        self.visit_nodes(&i.children);
    }

    /// Expressions. The expression `f(x)` counts as one expression, not three:
    /// paths and literals are not counted.
    pub fn visit_expr(&mut self, i: &ExprNode)
        requires
            old(self).has_room(old(self).tally_of(i.tree())),
        ensures
            old(self).visited(i.tree(), *final(self)),
        decreases i,
    {
        match i.kind {
            ExprKind::Unsafe => {
                self.in_unsafe_block = true;
                self.visit_nodes(&i.children);
                self.in_unsafe_block = false;
            },
            ExprKind::Path | ExprKind::Lit => {},
            ExprKind::Other => {
                self.counters.exprs.count(self.in_unsafe_block, self.used_by_build);
                self.visit_nodes(&i.children);
            },
        }
    }

    /// Modules
    pub fn visit_item_mod(&mut self, i: &ModNode)
        requires
            old(self).has_room(old(self).tally_of(i.tree())),
        ensures
            old(self).visited(i.tree(), *final(self)),
        decreases i,
    {
        if self.include_tests == IncludeTests::No && is_test_mod(i) {
            return;
        }
        self.visit_nodes(&i.children);
    }

    /// unsafe trait impl's
    pub fn visit_item_impl(&mut self, i: &ImplNode)
        requires
            old(self).has_room(old(self).tally_of(i.tree())),
        ensures
            old(self).visited(i.tree(), *final(self)),
        decreases i,
    {
        self.counters.itemimpls.count(i.unsafety, self.used_by_build);
        self.visit_nodes(&i.children);
    }

    /// Unsafe traits
    pub fn visit_item_trait(&mut self, i: &TraitNode)
        requires
            old(self).has_room(old(self).tally_of(i.tree())),
        ensures
            old(self).visited(i.tree(), *final(self)),
        decreases i,
    {
        self.counters.itemtraits.count(i.unsafety, self.used_by_build);
        self.visit_nodes(&i.children);
    }

    /// Methods
    pub fn visit_impl_item_method(&mut self, i: &MethodNode)
        requires
            old(self).has_room(old(self).tally_of(i.tree())),
        ensures
            old(self).visited(i.tree(), *final(self)),
        decreases i,
    {
        self.counters.methods.count(i.unsafety, self.used_by_build);
        self.visit_nodes(&i.children);
    }

    /// Any part of the source code.
    pub fn visit_node(&mut self, node: &SyntaxNode)
        requires
            old(self).has_room(old(self).tally_of(node.tree())),
        ensures
            old(self).visited(node.tree(), *final(self)),
        decreases node,
    {
        match node {
            SyntaxNode::Fn(i) => self.visit_item_fn(i),
            SyntaxNode::Mod(i) => self.visit_item_mod(i),
            SyntaxNode::Impl(i) => self.visit_item_impl(i),
            SyntaxNode::Trait(i) => self.visit_item_trait(i),
            SyntaxNode::Method(i) => self.visit_impl_item_method(i),
            SyntaxNode::Expr(i) => self.visit_expr(i),
        }
    }

    /// Parts of the source code, one after the other.
    pub fn visit_nodes(&mut self, nodes: &Vec<SyntaxNode>)
        requires
            old(self).has_room(old(self).tally_of_all(trees(nodes@))),
        ensures
            old(self).visited_all(trees(nodes@), *final(self)),
        decreases nodes@,
    {
        let ghost ts = trees(nodes@);
        let ghost start = *self;
        let mut i: usize = 0;
        proof {
            lemma_trees(nodes@);
            assert(ts.take(0) =~= seq![]);
        }
        while i < nodes.len()
            invariant
                i <= nodes.len(),
                ts == trees(nodes@),
                ts.len() == nodes.len(),
                forall|j: int| 0 <= j < nodes.len() ==> ts[j] == (#[trigger] nodes[j]).tree(),
                start.has_room(start.tally_of_all(ts)),
                start.visited_all(ts.take(i as int), *self),
            decreases nodes.len() - i,
        {
            proof {
                let next = ts.take(i + 1);
                assert(next.drop_last() =~= ts.take(i as int));
                assert(next.last() == nodes[i as int].tree());
                lemma_tally_prefix(ts, start.include_tests, start.in_unsafe_block, i + 1);
            }
            self.visit_node(&nodes[i]);
            i += 1;
        }
        assert(ts.take(i as int) =~= ts);
    }

    /// Counts what a file holds that was read as Rust source code, or hands on why
    /// it could not be read.
    pub fn scan_parsed(&mut self, parsed: &Result<Vec<SyntaxNode>, String>) -> (r: Result<
        (),
        ScanError,
    >)
        ensures
            match parse_result(*parsed) {
                Err(e) => {
                    &&& r matches Err(ScanError::Parse(text)) && text@ == e
                    &&& *final(self) == *old(self)
                },
                Ok(s) => if !old(self).has_room(old(self).tally_of_all(s)) {
                    &&& r matches Err(ScanError::TooLarge)
                    &&& *final(self) == *old(self)
                } else {
                    &&& r is Ok
                    &&& old(self).visited_all(s, *final(self))
                },
            },
    {
        match parsed {
            Err(e) => Err(ScanError::Parse(e.clone())),
            Ok(nodes) => {
                let ghost t = self.tally_of_all(trees(nodes@));
                let (items, _) = tally_nodes(nodes, self.include_tests, self.in_unsafe_block);
                if !self.counters.room_for(self.used_by_build, items, Ghost(t)) {
                    return Err(ScanError::TooLarge);
                }
                self.visit_nodes(nodes);
                Ok(())
            },
        }
    }
}

/// Law: a walk that begins outside of `unsafe` blocks ends outside of them, so
/// that no file has a bearing on how the next one is counted.
pub proof fn lemma_walk_ends_outside(s: Seq<Tree>, tests: IncludeTests)
    ensures
        !unsafe_after(s, tests, false),
    decreases s,
{
    if s.len() > 0 {
        lemma_walk_ends_outside(s.drop_last(), tests);
        lemma_part_ends_outside(s.last(), tests);
    }
}

/// The same of a single part.
proof fn lemma_part_ends_outside(t: Tree, tests: IncludeTests)
    ensures
        !unsafe_behind(t, tests, false),
    decreases t,
{
    lemma_walk_ends_outside(t.below(), tests);
}

/// Whether two tallies hold as many items of each kind, and agree on which of
/// them are unsafe but for the expressions.
pub open spec fn same_but_for_exprs(a: Tally, b: Tally) -> bool {
    &&& a.functions == b.functions
    &&& a.itemimpls == b.itemimpls
    &&& a.itemtraits == b.itemtraits
    &&& a.methods == b.methods
    &&& a.exprs.total() == b.exprs.total()
}

/// Law: whether code stands in an `unsafe` block makes a difference only to
/// which of its expressions are unsafe, not to what is counted.
pub proof fn lemma_block_only_marks_exprs(s: Seq<Tree>, tests: IncludeTests, a: bool, b: bool)
    ensures
        same_but_for_exprs(tally(s, tests, a), tally(s, tests, b)),
    decreases s,
{
    if s.len() > 0 {
        let front = s.drop_last();
        lemma_block_only_marks_exprs(front, tests, a, b);
        lemma_block_only_marks_exprs_of(
            s.last(),
            tests,
            unsafe_after(front, tests, a),
            unsafe_after(front, tests, b),
        );
    }
}

/// The same of a single part.
proof fn lemma_block_only_marks_exprs_of(t: Tree, tests: IncludeTests, a: bool, b: bool)
    ensures
        same_but_for_exprs(tree_tally(t, tests, a), tree_tally(t, tests, b)),
    decreases t,
{
    lemma_block_only_marks_exprs(
        t.below(),
        tests,
        a || unsafe_block(t),
        b || unsafe_block(t),
    );
}

/// Whether `a` holds no more functions, `impl` blocks, traits and methods than
/// `b`, safe or unsafe, and no more expressions in all.
pub open spec fn no_more_than(a: Tally, b: Tally) -> bool {
    &&& split_within(a.functions, b.functions)
    &&& split_within(a.itemimpls, b.itemimpls)
    &&& split_within(a.itemtraits, b.itemtraits)
    &&& split_within(a.methods, b.methods)
    &&& a.exprs.total() <= b.exprs.total()
}

/// Law: leaving out tests never makes a count larger.
pub proof fn lemma_tests_only_add(s: Seq<Tree>, in_unsafe: bool)
    ensures
        no_more_than(
            tally(s, IncludeTests::No, in_unsafe),
            tally(s, IncludeTests::Yes, in_unsafe),
        ),
    decreases s,
{
    if s.len() > 0 {
        let front = s.drop_last();
        lemma_tests_only_add(front, in_unsafe);
        let a = unsafe_after(front, IncludeTests::No, in_unsafe);
        let b = unsafe_after(front, IncludeTests::Yes, in_unsafe);
        lemma_tests_only_add_to(s.last(), b);
        lemma_block_only_marks_exprs_of(s.last(), IncludeTests::No, a, b);
    }
}

/// The same of a single part.
proof fn lemma_tests_only_add_to(t: Tree, in_unsafe: bool)
    ensures
        no_more_than(
            tree_tally(t, IncludeTests::No, in_unsafe),
            tree_tally(t, IncludeTests::Yes, in_unsafe),
        ),
    decreases t,
{
    lemma_tests_only_add(t.below(), in_unsafe || unsafe_block(t));
}

/// Whether the part itself is marked `unsafe`.
pub open spec fn marked_unsafe(t: Tree) -> bool {
    match t {
        Tree::Fn { attrs, unsafety, children } => unsafety,
        Tree::Mod { attrs, children } => false,
        Tree::Impl { unsafety, children } => unsafety,
        Tree::Trait { unsafety, children } => unsafety,
        Tree::Method { unsafety, children } => unsafety,
        Tree::Expr { kind, children } => kind is Unsafe,
    }
}

/// Whether nothing in the part is marked `unsafe`.
pub open spec fn free_of_unsafe(t: Tree) -> bool
    decreases t,
{
    !marked_unsafe(t) && all_free_of_unsafe(t.below())
}

/// Whether nothing in the parts is marked `unsafe`.
pub open spec fn all_free_of_unsafe(s: Seq<Tree>) -> bool
    decreases s,
{
    s.len() == 0 || (all_free_of_unsafe(s.drop_last()) && free_of_unsafe(s.last()))
}

/// Law: source code without the keyword `unsafe` counts as having nothing
/// unsafe in it.
pub proof fn lemma_no_keyword_no_unsafe(s: Seq<Tree>, tests: IncludeTests)
    requires
        all_free_of_unsafe(s),
    ensures
        tally(s, tests, false).unsafe_total() == 0,
    decreases s,
{
    if s.len() > 0 {
        lemma_no_keyword_no_unsafe(s.drop_last(), tests);
        lemma_walk_ends_outside(s.drop_last(), tests);
        lemma_no_keyword_no_unsafe_in(s.last(), tests);
    }
}

/// The same of a single part.
proof fn lemma_no_keyword_no_unsafe_in(t: Tree, tests: IncludeTests)
    requires
        free_of_unsafe(t),
    ensures
        tree_tally(t, tests, false).unsafe_total() == 0,
    decreases t,
{
    lemma_no_keyword_no_unsafe(t.below(), tests);
}

/// Whether no `unsafe` block stands in the part.
pub open spec fn free_of_blocks(t: Tree) -> bool
    decreases t,
{
    !unsafe_block(t) && all_free_of_blocks(t.below())
}

/// Whether no `unsafe` block stands in the parts.
pub open spec fn all_free_of_blocks(s: Seq<Tree>) -> bool
    decreases s,
{
    s.len() == 0 || (all_free_of_blocks(s.drop_last()) && free_of_blocks(s.last()))
}

/// Law: in an `unsafe` block that holds no further `unsafe` block, every
/// expression that is counted is counted as unsafe, up to the block's end.
pub proof fn lemma_block_holds_unsafe_exprs(s: Seq<Tree>, tests: IncludeTests)
    requires
        all_free_of_blocks(s),
    ensures
        tally(s, tests, true).exprs.safe_items == 0,
        unsafe_after(s, tests, true),
    decreases s,
{
    if s.len() > 0 {
        lemma_block_holds_unsafe_exprs(s.drop_last(), tests);
        lemma_block_holds_unsafe_exprs_in(s.last(), tests);
    }
}

/// The same of a single part.
proof fn lemma_block_holds_unsafe_exprs_in(t: Tree, tests: IncludeTests)
    requires
        free_of_blocks(t),
    ensures
        tree_tally(t, tests, true).exprs.safe_items == 0,
        unsafe_behind(t, tests, true),
    decreases t,
{
    lemma_block_holds_unsafe_exprs(t.below(), tests);
}

/// Law: the files of a crate can be counted in any order.
pub proof fn lemma_files_in_any_order(
    start: GeigerSynVisitor,
    a: Seq<Tree>,
    b: Seq<Tree>,
    after_a: GeigerSynVisitor,
    after_ab: GeigerSynVisitor,
    after_b: GeigerSynVisitor,
    after_ba: GeigerSynVisitor,
)
    requires
        !start.in_unsafe_block,
        start.visited_all(a, after_a),
        after_a.visited_all(b, after_ab),
        start.visited_all(b, after_b),
        after_b.visited_all(a, after_ba),
    ensures
        after_ab == after_ba,
{
    lemma_walk_ends_outside(a, start.include_tests);
    lemma_walk_ends_outside(b, start.include_tests);
}

}
