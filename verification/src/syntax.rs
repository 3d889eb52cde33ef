//! Rust source code as the tree of those of its parts that the metrics look at.

use syn::visit::Visit;
use vstd::prelude::*;

use crate::tokens::respell;
#[allow(unused_imports)]
use crate::tokens::{has_for_dyn_lifetime, without_for_dyn_lifetime};

verus! {

broadcast use vstd::string::group_string_axioms;

/// What stands in the brackets of an attribute.
pub enum MetaItem {
    /// A single word, as in `#[test]`.
    Word(String),
    /// A word and a list in parentheses, as in `#[cfg(test)]`.
    List(MetaItems),
    /// A word and a value, as in `#[path = "a.rs"]`; the word is kept.
    NameValue(String),
}

/// A word and the list in parentheses that follows it.
pub struct MetaItems {
    pub ident: String,
    pub nested: Vec<NestedItem>,
}

/// An element of such a list.
pub enum NestedItem {
    Meta(MetaItem),
    /// A literal; its value is not kept.
    Literal,
}

/// An attribute; `None` where it has no form that a `MetaItem` can show.
pub struct Attr {
    pub meta: Option<MetaItem>,
}

/// A free-standing function.
pub struct FnNode {
    pub attrs: Vec<Attr>,
    pub unsafety: bool,
    pub children: Vec<SyntaxNode>,
}

/// A module.
pub struct ModNode {
    pub attrs: Vec<Attr>,
    pub children: Vec<SyntaxNode>,
}

/// An `impl` block.
pub struct ImplNode {
    pub unsafety: bool,
    pub children: Vec<SyntaxNode>,
}

/// A trait.
pub struct TraitNode {
    pub unsafety: bool,
    pub children: Vec<SyntaxNode>,
}

/// A method of an `impl` block.
pub struct MethodNode {
    pub unsafety: bool,
    pub children: Vec<SyntaxNode>,
}

/// What the metrics tell expressions apart by.
#[derive(Debug, Clone, Copy, PartialEq, Eq, Structural)]
pub enum ExprKind {
    /// An `unsafe` block.
    Unsafe,
    /// A path, such as the name of a variable.
    Path,
    /// A literal.
    Lit,
    /// Any other expression.
    Other,
}

/// An expression.
pub struct ExprNode {
    pub kind: ExprKind,
    pub children: Vec<SyntaxNode>,
}

/// A part of the source code, with the parts that stand directly below it in
/// the order in which they are written.
pub enum SyntaxNode {
    Fn(FnNode),
    Mod(ModNode),
    Impl(ImplNode),
    Trait(TraitNode),
    Method(MethodNode),
    Expr(ExprNode),
}

/// The value of a [`MetaItem`].
pub enum MetaView {
    Word(Seq<char>),
    List(MetaItemsView),
    NameValue(Seq<char>),
}

/// The value of a [`MetaItems`].
pub struct MetaItemsView {
    pub ident: Seq<char>,
    pub nested: Seq<NestedItemView>,
}

/// The value of a [`NestedItem`].
pub enum NestedItemView {
    Meta(MetaView),
    Literal,
}

/// The value of a [`SyntaxNode`].
pub enum Tree {
    Fn { attrs: Seq<Option<MetaView>>, unsafety: bool, children: Seq<Tree> },
    Mod { attrs: Seq<Option<MetaView>>, children: Seq<Tree> },
    Impl { unsafety: bool, children: Seq<Tree> },
    Trait { unsafety: bool, children: Seq<Tree> },
    Method { unsafety: bool, children: Seq<Tree> },
    Expr { kind: ExprKind, children: Seq<Tree> },
}

impl MetaItem {
    pub open spec fn value(self) -> MetaView
        decreases self,
    {
        match self {
            MetaItem::Word(w) => MetaView::Word(w@),
            MetaItem::List(l) => MetaView::List(l.value()),
            MetaItem::NameValue(w) => MetaView::NameValue(w@),
        }
    }
}

impl MetaItems {
    pub open spec fn value(self) -> MetaItemsView
        decreases self,
    {
        MetaItemsView { ident: self.ident@, nested: nested_values(self.nested@) }
    }
}

impl NestedItem {
    pub open spec fn value(self) -> NestedItemView
        decreases self,
    {
        match self {
            NestedItem::Meta(m) => NestedItemView::Meta(m.value()),
            NestedItem::Literal => NestedItemView::Literal,
        }
    }
}

/// The values of a list's elements.
pub open spec fn nested_values(s: Seq<NestedItem>) -> Seq<NestedItemView>
    decreases s,
{
    if s.len() == 0 {
        seq![]
    } else {
        nested_values(s.drop_last()).push(s.last().value())
    }
}

/// The values of attributes.
pub open spec fn attr_values(s: Seq<Attr>) -> Seq<Option<MetaView>> {
    s.map_values(
        |a: Attr|
            match a.meta {
                Some(m) => Some(m.value()),
                None => None,
            },
    )
}

impl SyntaxNode {
    /// The value of the node.
    pub open spec fn tree(self) -> Tree
        decreases self,
    {
        match self {
            SyntaxNode::Fn(i) => i.tree(),
            SyntaxNode::Mod(i) => i.tree(),
            SyntaxNode::Impl(i) => i.tree(),
            SyntaxNode::Trait(i) => i.tree(),
            SyntaxNode::Method(i) => i.tree(),
            SyntaxNode::Expr(i) => i.tree(),
        }
    }
}

impl FnNode {
    pub open spec fn tree(self) -> Tree
        decreases self,
    {
        Tree::Fn {
            attrs: attr_values(self.attrs@),
            unsafety: self.unsafety,
            children: trees(self.children@),
        }
    }
}

impl ModNode {
    pub open spec fn tree(self) -> Tree
        decreases self,
    {
        Tree::Mod { attrs: attr_values(self.attrs@), children: trees(self.children@) }
    }
}

impl ImplNode {
    pub open spec fn tree(self) -> Tree
        decreases self,
    {
        Tree::Impl { unsafety: self.unsafety, children: trees(self.children@) }
    }
}

impl TraitNode {
    pub open spec fn tree(self) -> Tree
        decreases self,
    {
        Tree::Trait { unsafety: self.unsafety, children: trees(self.children@) }
    }
}

impl MethodNode {
    pub open spec fn tree(self) -> Tree
        decreases self,
    {
        Tree::Method { unsafety: self.unsafety, children: trees(self.children@) }
    }
}

impl ExprNode {
    pub open spec fn tree(self) -> Tree
        decreases self,
    {
        Tree::Expr { kind: self.kind, children: trees(self.children@) }
    }
}

/// The values of the nodes.
pub open spec fn trees(s: Seq<SyntaxNode>) -> Seq<Tree>
    decreases s,
{
    if s.len() == 0 {
        seq![]
    } else {
        trees(s.drop_last()).push(s.last().tree())
    }
}

/// The values of the nodes, one for each.
pub proof fn lemma_trees(s: Seq<SyntaxNode>)
    ensures
        trees(s).len() == s.len(),
        forall|i: int| 0 <= i < s.len() ==> trees(s)[i] == (#[trigger] s[i]).tree(),
    decreases s.len(),
{
    if s.len() > 0 {
        lemma_trees(s.drop_last());
        assert forall|i: int| 0 <= i < s.len() implies trees(s)[i] == (#[trigger] s[i]).tree() by {
            if i < s.len() - 1 {
                assert(s.drop_last()[i] == s[i]);
            }
        }
    }
}

/// The value of a list's element, one for each.
pub proof fn lemma_nested_values(s: Seq<NestedItem>)
    ensures
        nested_values(s).len() == s.len(),
        forall|i: int| 0 <= i < s.len() ==> nested_values(s)[i] == (#[trigger] s[i]).value(),
    decreases s.len(),
{
    if s.len() > 0 {
        lemma_nested_values(s.drop_last());
        assert forall|i: int| 0 <= i < s.len() implies nested_values(s)[i] == (
        #[trigger] s[i]).value() by {
            if i < s.len() - 1 {
                assert(s.drop_last()[i] == s[i]);
            }
        }
    }
}

impl Tree {
    /// The parts directly below.
    pub open spec fn below(self) -> Seq<Tree> {
        match self {
            Tree::Fn { attrs, unsafety, children } => children,
            Tree::Mod { attrs, children } => children,
            Tree::Impl { unsafety, children } => children,
            Tree::Trait { unsafety, children } => children,
            Tree::Method { unsafety, children } => children,
            Tree::Expr { kind, children } => children,
        }
    }
}

/// A file as syn has read it.
#[verifier::external_type_specification]
#[verifier::external_body]
pub struct ExFile(syn::File);

/// An attribute as syn has read it.
#[verifier::external_type_specification]
#[verifier::external_body]
pub struct ExAttribute(syn::Attribute);

/// The content of an attribute as syn has read it.
#[verifier::external_type_specification]
#[verifier::external_body]
pub struct ExMeta(syn::Meta);

/// A function as syn has read it.
#[verifier::external_type_specification]
#[verifier::external_body]
pub struct ExItemFn(syn::ItemFn);

/// A module as syn has read it.
#[verifier::external_type_specification]
#[verifier::external_body]
pub struct ExItemMod(syn::ItemMod);

/// An `impl` block as syn has read it.
#[verifier::external_type_specification]
#[verifier::external_body]
pub struct ExItemImpl(syn::ItemImpl);

/// A trait as syn has read it.
#[verifier::external_type_specification]
#[verifier::external_body]
pub struct ExItemTrait(syn::ItemTrait);

/// A method as syn has read it.
#[verifier::external_type_specification]
#[verifier::external_body]
pub struct ExImplItemMethod(syn::ImplItemMethod);

/// An expression as syn has read it.
#[verifier::external_type_specification]
#[verifier::external_body]
pub struct ExExpr(syn::Expr);

/// What `syn::parse_file` reads from a text: what the file holds, or, where the
/// text is no Rust source code, the debug form of the error.
pub uninterp spec fn parsed_file(source: Seq<char>) -> Result<Seq<Tree>, Seq<char>>;

/// What a `syn::File` holds: the functions, modules, `impl` blocks, traits,
/// methods and expressions in it that stand in no other of these, in the order
/// in which `syn::visit` comes to them.
pub uninterp spec fn file_contents(f: syn::File) -> Seq<Tree>;

/// What a `syn::Attribute` holds, where it has the form of a `syn::Meta`.
pub uninterp spec fn attr_contents(a: syn::Attribute) -> Option<MetaView>;

/// What a `syn::Meta` holds.
pub uninterp spec fn meta_contents(m: syn::Meta) -> MetaView;

/// What a `syn::ItemFn` holds.
pub uninterp spec fn fn_contents(i: syn::ItemFn) -> Tree;

/// What a `syn::ItemMod` holds.
pub uninterp spec fn mod_contents(i: syn::ItemMod) -> Tree;

/// What a `syn::ItemImpl` holds.
pub uninterp spec fn impl_contents(i: syn::ItemImpl) -> Tree;

/// What a `syn::ItemTrait` holds.
pub uninterp spec fn trait_contents(i: syn::ItemTrait) -> Tree;

/// What a `syn::ImplItemMethod` holds.
pub uninterp spec fn method_contents(i: syn::ImplItemMethod) -> Tree;

/// What a `syn::Expr` holds.
pub uninterp spec fn expr_contents(i: syn::Expr) -> Tree;

/// `syn::parse_file`: the file that the text makes up, or the debug form of the
/// error. The result is a function of the text alone. The function panics where a
/// type begins with a list `for<..>`, `dyn` and a lifetime that a `+` follows: texts
/// with this run of tokens are left out.
#[verifier::external_body]
fn read_file(source: &str) -> (r: Result<syn::File, String>)
    requires
        !has_for_dyn_lifetime(source@),
    ensures
        (match r {
            Ok(f) => Ok(file_contents(f)),
            Err(e) => Err(e@),
        }) == parsed_file(source@),
{
    syn::parse_file(source).map_err(|e| format!("{:?}", e))
}

/// `syn::Attribute::interpret_meta`: the content of the attribute, where it has
/// the form of a `syn::Meta`.
#[verifier::external_body]
fn interpret_meta(a: &syn::Attribute) -> (r: Option<syn::Meta>)
    ensures
        (match r {
            Some(m) => Some(meta_contents(m)),
            None => None,
        }) == attr_contents(*a),
{
    a.interpret_meta()
}

/// Takes a `syn::Meta` apart, variant by variant: an identifier gives its text,
/// a literal only that it is one.
#[verifier::external_body]
fn convert_meta(m: &syn::Meta) -> (r: MetaItem)
    ensures
        r.value() == meta_contents(*m),
{
    match m {
        syn::Meta::Word(i) => MetaItem::Word(i.to_string()),
        syn::Meta::NameValue(v) => MetaItem::NameValue(v.ident.to_string()),
        syn::Meta::List(l) => MetaItem::List(MetaItems {
            ident: l.ident.to_string(),
            nested: l.nested.iter().map(|n| match n {
                syn::NestedMeta::Meta(m) => NestedItem::Meta(convert_meta(m)),
                syn::NestedMeta::Literal(_) => NestedItem::Literal,
            }).collect(),
        }),
    }
}

/// The attributes of a `syn::ItemFn`.
#[verifier::external_body]
fn fn_attrs(i: &syn::ItemFn) -> (r: &Vec<syn::Attribute>)
    ensures
        fn_contents(*i) == (Tree::Fn {
            attrs: r@.map_values(|a: syn::Attribute| attr_contents(a)),
            unsafety: fn_contents(*i)->Fn_unsafety,
            children: fn_contents(*i).below(),
        }),
{
    &i.attrs
}

/// Whether a `syn::ItemFn` has the keyword `unsafe`.
#[verifier::external_body]
fn fn_unsafety(i: &syn::ItemFn) -> (r: bool)
    ensures
        r == fn_contents(*i)->Fn_unsafety,
{
    i.unsafety.is_some()
}

/// The attributes of a `syn::ItemMod`.
#[verifier::external_body]
fn mod_attrs(i: &syn::ItemMod) -> (r: &Vec<syn::Attribute>)
    ensures
        mod_contents(*i) == (Tree::Mod {
            attrs: r@.map_values(|a: syn::Attribute| attr_contents(a)),
            children: mod_contents(*i).below(),
        }),
{
    &i.attrs
}

/// Whether a `syn::ItemImpl` has the keyword `unsafe`.
#[verifier::external_body]
fn impl_unsafety(i: &syn::ItemImpl) -> (r: bool)
    ensures
        impl_contents(*i) == (Tree::Impl { unsafety: r, children: impl_contents(*i).below() }),
{
    i.unsafety.is_some()
}

/// Whether a `syn::ItemTrait` has the keyword `unsafe`.
#[verifier::external_body]
fn trait_unsafety(i: &syn::ItemTrait) -> (r: bool)
    ensures
        trait_contents(*i) == (Tree::Trait { unsafety: r, children: trait_contents(*i).below() }),
{
    i.unsafety.is_some()
}

/// Whether a `syn::ImplItemMethod` has the keyword `unsafe`.
#[verifier::external_body]
fn method_unsafety(i: &syn::ImplItemMethod) -> (r: bool)
    ensures
        method_contents(*i) == (Tree::Method { unsafety: r, children: method_contents(*i).below() }),
{
    i.sig.unsafety.is_some()
}

/// Which variant a `syn::Expr` is, as far as the metrics tell them apart.
#[verifier::external_body]
fn expr_kind(i: &syn::Expr) -> (r: ExprKind)
    ensures
        expr_contents(*i) == (Tree::Expr { kind: r, children: expr_contents(*i).below() }),
{
    match i {
        syn::Expr::Unsafe(_) => ExprKind::Unsafe,
        syn::Expr::Path(_) => ExprKind::Path,
        syn::Expr::Lit(_) => ExprKind::Lit,
        _ => ExprKind::Other,
    }
}

/// Collects the nodes that syn comes across while it walks through a file.
pub struct TreeBuilder {
    nodes: Vec<SyntaxNode>,
}

impl TreeBuilder {
    /// The values of the nodes collected so far.
    pub closed spec fn found(self) -> Seq<Tree> {
        trees(self.nodes@)
    }
}

/// `syn::visit::visit_file`: calls the visitor on what the file holds, in order.
#[verifier::external_body]
fn descend_file(b: &mut TreeBuilder, f: &syn::File)
    ensures
        final(b).found() == old(b).found() + file_contents(*f),
{
    syn::visit::visit_file(b, f);
}

/// `syn::visit::visit_item_fn`: calls the visitor on what stands directly below
/// the function, in order.
#[verifier::external_body]
fn descend_item_fn(b: &mut TreeBuilder, i: &syn::ItemFn)
    ensures
        final(b).found() == old(b).found() + fn_contents(*i).below(),
{
    syn::visit::visit_item_fn(b, i);
}

/// `syn::visit::visit_item_mod`: calls the visitor on what stands directly below
/// the module, in order.
#[verifier::external_body]
fn descend_item_mod(b: &mut TreeBuilder, i: &syn::ItemMod)
    ensures
        final(b).found() == old(b).found() + mod_contents(*i).below(),
{
    syn::visit::visit_item_mod(b, i);
}

/// `syn::visit::visit_item_impl`: calls the visitor on what stands directly
/// below the `impl` block, in order.
#[verifier::external_body]
fn descend_item_impl(b: &mut TreeBuilder, i: &syn::ItemImpl)
    ensures
        final(b).found() == old(b).found() + impl_contents(*i).below(),
{
    syn::visit::visit_item_impl(b, i);
}

/// `syn::visit::visit_item_trait`: calls the visitor on what stands directly
/// below the trait, in order.
#[verifier::external_body]
fn descend_item_trait(b: &mut TreeBuilder, i: &syn::ItemTrait)
    ensures
        final(b).found() == old(b).found() + trait_contents(*i).below(),
{
    syn::visit::visit_item_trait(b, i);
}

/// `syn::visit::visit_impl_item_method`: calls the visitor on what stands
/// directly below the method, in order.
#[verifier::external_body]
fn descend_impl_item_method(b: &mut TreeBuilder, i: &syn::ImplItemMethod)
    ensures
        final(b).found() == old(b).found() + method_contents(*i).below(),
{
    syn::visit::visit_impl_item_method(b, i);
}

/// `syn::visit::visit_expr`: calls the visitor on what stands directly below the
/// expression, in order.
#[verifier::external_body]
fn descend_expr(b: &mut TreeBuilder, i: &syn::Expr)
    ensures
        final(b).found() == old(b).found() + expr_contents(*i).below(),
{
    syn::visit::visit_expr(b, i);
}

/// The attributes, each with its content where that has the form of a
/// [`MetaItem`].
fn convert_attrs(attrs: &Vec<syn::Attribute>) -> (r: Vec<Attr>)
    ensures
        attr_values(r@) == attrs@.map_values(|a: syn::Attribute| attr_contents(a)),
{
    let mut r: Vec<Attr> = Vec::new();
    let mut i: usize = 0;
    while i < attrs.len()
        invariant
            i <= attrs.len(),
            r.len() == i,
            forall|j: int| 0 <= j < i ==> attr_values(r@)[j] == attr_contents(#[trigger] attrs@[j]),
        decreases attrs.len() - i,
    {
        let meta = match interpret_meta(&attrs[i]) {
            Some(m) => Some(convert_meta(&m)),
            None => None,
        };
        let ghost seen = r@;
        r.push(Attr { meta });
        i += 1;
        assert forall|j: int| 0 <= j < i implies attr_values(r@)[j] == attr_contents(
            #[trigger] attrs@[j],
        ) by {
            if j < i - 1 {
                assert(attr_values(r@)[j] == attr_values(seen)[j]);
            }
        }
    }
    assert(attr_values(r@) =~= attrs@.map_values(|a: syn::Attribute| attr_contents(a)));
    r
}

impl TreeBuilder {
    /// Begins the list of what stands below a node, and hands out the list that
    /// the node itself belongs to.
    fn open(&mut self) -> (outer: Vec<SyntaxNode>)
        ensures
            outer == old(self).nodes,
            final(self).found() == Seq::<Tree>::empty(),
    {
        let mut outer: Vec<SyntaxNode> = Vec::new();
        std::mem::swap(&mut outer, &mut self.nodes);
        outer
    }

    /// Goes back to the list that [`TreeBuilder::open`] has handed out, and
    /// hands out the list of what was found since.
    fn close(&mut self, outer: Vec<SyntaxNode>) -> (children: Vec<SyntaxNode>)
        ensures
            trees(children@) == old(self).found(),
            final(self).nodes == outer,
    {
        let mut children = outer;
        std::mem::swap(&mut children, &mut self.nodes);
        children
    }

    /// Adds a node.
    fn add(&mut self, node: SyntaxNode)
        ensures
            final(self).found() == old(self).found().push(node.tree()),
    {
        self.nodes.push(node);
        assert(self.nodes@.drop_last() =~= old(self).nodes@);
    }
}

impl<'ast> Visit<'ast> for TreeBuilder {
    fn visit_item_fn(&mut self, i: &'ast syn::ItemFn)
        ensures
            final(self).found() == old(self).found().push(fn_contents(*i)),
    {
        let attrs = convert_attrs(fn_attrs(i));
        let unsafety = fn_unsafety(i);
        let outer = self.open();
        descend_item_fn(self, i);
        let children = self.close(outer);
        assert(trees(children@) =~= fn_contents(*i).below());
        self.add(SyntaxNode::Fn(FnNode { attrs, unsafety, children }));
    }

    fn visit_item_mod(&mut self, i: &'ast syn::ItemMod)
        ensures
            final(self).found() == old(self).found().push(mod_contents(*i)),
    {
        let attrs = convert_attrs(mod_attrs(i));
        let outer = self.open();
        descend_item_mod(self, i);
        let children = self.close(outer);
        assert(trees(children@) =~= mod_contents(*i).below());
        self.add(SyntaxNode::Mod(ModNode { attrs, children }));
    }

    fn visit_item_impl(&mut self, i: &'ast syn::ItemImpl)
        ensures
            final(self).found() == old(self).found().push(impl_contents(*i)),
    {
        let unsafety = impl_unsafety(i);
        let outer = self.open();
        descend_item_impl(self, i);
        let children = self.close(outer);
        assert(trees(children@) =~= impl_contents(*i).below());
        self.add(SyntaxNode::Impl(ImplNode { unsafety, children }));
    }

    fn visit_item_trait(&mut self, i: &'ast syn::ItemTrait)
        ensures
            final(self).found() == old(self).found().push(trait_contents(*i)),
    {
        let unsafety = trait_unsafety(i);
        let outer = self.open();
        descend_item_trait(self, i);
        let children = self.close(outer);
        assert(trees(children@) =~= trait_contents(*i).below());
        self.add(SyntaxNode::Trait(TraitNode { unsafety, children }));
    }

    fn visit_impl_item_method(&mut self, i: &'ast syn::ImplItemMethod)
        ensures
            final(self).found() == old(self).found().push(method_contents(*i)),
    {
        let unsafety = method_unsafety(i);
        let outer = self.open();
        descend_impl_item_method(self, i);
        let children = self.close(outer);
        assert(trees(children@) =~= method_contents(*i).below());
        self.add(SyntaxNode::Method(MethodNode { unsafety, children }));
    }

    fn visit_expr(&mut self, i: &'ast syn::Expr)
        ensures
            final(self).found() == old(self).found().push(expr_contents(*i)),
    {
        let kind = expr_kind(i);
        let outer = self.open();
        descend_expr(self, i);
        let children = self.close(outer);
        assert(trees(children@) =~= expr_contents(*i).below());
        self.add(SyntaxNode::Expr(ExprNode { kind, children }));
    }
}

/// The value of what [`parse_file`] returns.
pub open spec fn parse_result(r: Result<Vec<SyntaxNode>, String>) -> Result<Seq<Tree>, Seq<char>> {
    match r {
        Ok(nodes) => Ok(trees(nodes@)),
        Err(e) => Err(e@),
    }
}

/// What is said of a text that holds a list `for<..>` before `dyn`, a lifetime and
/// `+` however it is spelled.
pub open spec fn no_reading() -> Seq<char> {
    "Error(\"a list of lifetimes before `dyn` and a lifetime\")"@
}

/// What a text holds, or why it is no Rust source code. A text with a list `for<..>`
/// before `dyn`, a lifetime and `+` is read in the other spelling.
pub open spec fn reading(source: Seq<char>) -> Result<Seq<Tree>, Seq<char>> {
    if !has_for_dyn_lifetime(source) {
        parsed_file(source)
    } else if !has_for_dyn_lifetime(without_for_dyn_lifetime(source)) {
        parsed_file(without_for_dyn_lifetime(source))
    } else {
        Err(no_reading())
    }
}

/// Reads a text without such a list.
fn parse_text(source: &str) -> (r: Result<Vec<SyntaxNode>, String>)
    requires
        !has_for_dyn_lifetime(source@),
    ensures
        parse_result(r) == parsed_file(source@),
{
    match read_file(source) {
        Ok(file) => {
            let mut builder = TreeBuilder { nodes: Vec::new() };
            descend_file(&mut builder, &file);
            assert(builder.found() =~= file_contents(file));
            Ok(builder.nodes)
        },
        Err(e) => Err(e),
    }
}

/// Reads Rust source code: the nodes that it holds, or the debug form of the
/// error where it is none. Where the run of tokens that syn may not come back from
/// stands in the text, the text is spelled in another way first.
pub fn parse_file(source: &str) -> (r: Result<Vec<SyntaxNode>, String>)
    ensures
        parse_result(r) == reading(source@),
{
    match respell(source) {
        None => parse_text(source),
        Some(text) => match respell(text.as_str()) {
            None => parse_text(text.as_str()),
            Some(_) => Err("Error(\"a list of lifetimes before `dyn` and a lifetime\")".to_owned()),
        },
    }
}

/// Law: the value of a node shows what the node was made with: its attributes, its
/// keyword, and the values of what stands below it, one for each, in order.
pub proof fn lemma_value_of_node(node: SyntaxNode)
    ensures
        match node {
            SyntaxNode::Fn(n) => node.tree() == (Tree::Fn {
                attrs: attr_values(n.attrs@),
                unsafety: n.unsafety,
                children: trees(n.children@),
            }),
            SyntaxNode::Mod(n) => node.tree() == (Tree::Mod {
                attrs: attr_values(n.attrs@),
                children: trees(n.children@),
            }),
            SyntaxNode::Impl(n) => node.tree() == (Tree::Impl {
                unsafety: n.unsafety,
                children: trees(n.children@),
            }),
            SyntaxNode::Trait(n) => node.tree() == (Tree::Trait {
                unsafety: n.unsafety,
                children: trees(n.children@),
            }),
            SyntaxNode::Method(n) => node.tree() == (Tree::Method {
                unsafety: n.unsafety,
                children: trees(n.children@),
            }),
            SyntaxNode::Expr(n) => node.tree() == (Tree::Expr {
                kind: n.kind,
                children: trees(n.children@),
            }),
        },
{
}

/// Law: attributes are shown one for each, in order, with their content where they have
/// one; words, lists and names are told apart, and the elements of a list are shown one
/// for each, in order.
pub proof fn lemma_value_of_attributes(attrs: Seq<Attr>, word: String, list: MetaItems, i: int)
    ensures
        attr_values(attrs).len() == attrs.len(),
        0 <= i < attrs.len() ==> attr_values(attrs)[i] == (match attrs[i].meta {
            Some(m) => Some(m.value()),
            None => None,
        }),
        MetaItem::Word(word).value() == MetaView::Word(word@),
        MetaItem::NameValue(word).value() == MetaView::NameValue(word@),
        MetaItem::List(list).value() == MetaView::List(list.value()),
        list.value().ident == list.ident@,
        list.value().nested.len() == list.nested@.len(),
        0 <= i < list.nested@.len() ==> list.value().nested[i] == (match list.nested@[i] {
            NestedItem::Meta(m) => NestedItemView::Meta(m.value()),
            NestedItem::Literal => NestedItemView::Literal,
        }),
{
    lemma_nested_values(list.nested@);
}

/// Law: a text reads as what syn makes of it, unless a list `for<..>` stands in it before
/// `dyn`, a lifetime and `+`; then it reads as the other spelling of it does.
pub proof fn lemma_reading(source: Seq<char>)
    ensures
        !has_for_dyn_lifetime(source) ==> reading(source) == parsed_file(source),
        has_for_dyn_lifetime(source) && !has_for_dyn_lifetime(without_for_dyn_lifetime(source))
            ==> reading(source) == parsed_file(without_for_dyn_lifetime(source)),
{
}

}
