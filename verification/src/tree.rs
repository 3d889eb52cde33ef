//! The tree of dependencies, line by line.

use std::collections::HashSet;
use vstd::prelude::*;

#[allow(unused_imports)]
use crate::graph::{ends, Link, PackageEdge};
use crate::graph::{EdgeDirection, Kind, PackageGraph};
#[allow(unused_imports)]
use crate::options::SymbolsView;
use crate::options::{Prefix, PrintConfig, Symbols};
#[allow(unused_imports)]
use crate::table::left_of_dependency;
use crate::table::table_row_empty;
#[allow(unused_imports)]
use crate::text::{blank, decimal};
use crate::text::{decimal_text, push_spaces};

verus! {

broadcast use {
    vstd::std_specs::hash::group_hash_axioms,
    vstd::string::group_string_axioms,
};

/// A line of the tree.
#[derive(Debug)]
pub enum TreeLine {
    /// A package, and what stands before it.
    Package(usize, String),
    /// A line above dependencies of another kind than the usual one.
    Heading(String),
}

/// The value of a [`TreeLine`].
pub enum LineView {
    Package(usize, Seq<char>),
    Heading(Seq<char>),
}

impl TreeLine {
    pub open spec fn value(self) -> LineView {
        match self {
            TreeLine::Package(p, vines) => LineView::Package(p, vines@),
            TreeLine::Heading(text) => LineView::Heading(text@),
        }
    }
}

/// The values of lines.
pub open spec fn line_values(lines: Seq<TreeLine>) -> Seq<LineView> {
    lines.map_values(|l: TreeLine| l.value())
}

/// How a tree is drawn.
pub struct Drawing {
    pub prefix: Prefix,
    pub symbols: SymbolsView,
}

impl PrintConfig {
    /// How the tree is drawn.
    pub open spec fn drawing(self) -> Drawing {
        Drawing { prefix: self.prefix, symbols: self.symbols.value() }
    }
}

/// The branches beside a line: for each level of the tree, whether it goes on
/// below the line.
pub open spec fn bars(levels: Seq<bool>, symbols: SymbolsView) -> Seq<char>
    decreases levels.len(),
{
    if levels.len() == 0 {
        seq![]
    } else {
        bars(levels.drop_last(), symbols) + (if levels.last() {
            symbols.down
        } else {
            blank(1)
        }) + blank(3)
    }
}

/// What stands before a package.
pub open spec fn vines(levels: Seq<bool>, drawing: Drawing) -> Seq<char> {
    let symbols = drawing.symbols;
    match drawing.prefix {
        Prefix::Depth => decimal(levels.len()) + blank(1),
        Prefix::Plain => seq![],
        Prefix::Indent => if levels.len() == 0 {
            seq![]
        } else {
            bars(levels.drop_last(), symbols) + (if levels.last() {
                symbols.tee
            } else {
                symbols.ell
            }) + symbols.right + symbols.right + blank(1)
        },
    }
}

/// The title of the dependencies of a kind.
pub open spec fn kind_title(kind: Kind) -> Option<Seq<char>> {
    match kind {
        Kind::Normal => None,
        Kind::Build => Some("[build-dependencies]"@),
        Kind::Development => Some("[dev-dependencies]"@),
    }
}

/// The lines above the dependencies of a kind.
pub open spec fn heading_lines(kind: Kind, levels: Seq<bool>, drawing: Drawing) -> Seq<LineView> {
    match (drawing.prefix, kind_title(kind)) {
        (Prefix::Indent, Some(title)) => seq![
            LineView::Heading(
                blank(left_of_dependency()) + bars(levels, drawing.symbols) + title,
            ),
        ],
        _ => seq![],
    }
}

/// A number put in its place in an ascending row of numbers.
pub open spec fn placed(s: Seq<usize>, x: usize) -> Seq<usize>
    decreases s.len(),
{
    if s.len() == 0 || s.last() <= x {
        s.push(x)
    } else {
        placed(s.drop_last(), x).push(s.last())
    }
}

/// Numbers in ascending order.
pub open spec fn ascending(s: Seq<usize>) -> Seq<usize>
    decreases s.len(),
{
    if s.len() == 0 {
        s
    } else {
        placed(ascending(s.drop_last()), s.last())
    }
}

/// The packages that links of one kind lead to.
pub open spec fn of_kind(links: Seq<Link>, kind: Kind) -> Seq<usize>
    decreases links.len(),
{
    if links.len() == 0 {
        seq![]
    } else {
        let rest = of_kind(links.drop_last(), kind);
        if links.last().1 == kind {
            rest.push(links.last().0)
        } else {
            rest
        }
    }
}

/// The packages below a package, by the kind of the dependency.
pub open spec fn children(
    edges: Seq<PackageEdge>,
    package: usize,
    direction: EdgeDirection,
    kind: Kind,
) -> Seq<usize> {
    of_kind(ends(edges, package, direction), kind)
}

/// What the drawing of a part of the tree comes to: lines, and the packages that
/// have been looked into up to then.
pub type Drawn = (Seq<LineView>, Set<usize>);

/// What the tree is drawn from.
pub struct Plan {
    pub edges: Seq<PackageEdge>,
    pub direction: EdgeDirection,
    /// Look into packages again that have been looked into already.
    pub all: bool,
    pub drawing: Drawing,
}

/// The lines of a package and of everything below it, down to the given depth.
/// Nothing is drawn below a package that has been looked into already, unless all
/// is to be shown.
pub open spec fn package_lines(
    depth: nat,
    plan: Plan,
    package: usize,
    visited: Set<usize>,
    levels: Seq<bool>,
) -> Drawn
    decreases depth, 0int, 0nat,
{
    if depth == 0 {
        (seq![], visited)
    } else {
        let own = seq![LineView::Package(package, vines(levels, plan.drawing))];
        if !plan.all && visited.contains(package) {
            (own, visited)
        } else {
            let below = (depth - 1) as nat;
            let v0 = if plan.all {
                visited
            } else {
                visited.insert(package)
            };
            let (normal, v1) = kind_lines(
                below,
                plan,
                Kind::Normal,
                children(plan.edges, package, plan.direction, Kind::Normal),
                v0,
                levels,
            );
            let (build, v2) = kind_lines(
                below,
                plan,
                Kind::Build,
                children(plan.edges, package, plan.direction, Kind::Build),
                v1,
                levels,
            );
            let (development, v3) = kind_lines(
                below,
                plan,
                Kind::Development,
                children(plan.edges, package, plan.direction, Kind::Development),
                v2,
                levels,
            );
            (own + normal + build + development, v3)
        }
    }
}

/// The lines of the dependencies of one kind: a heading, and the packages in their
/// order, whatever the order in which they are given.
pub open spec fn kind_lines(
    depth: nat,
    plan: Plan,
    kind: Kind,
    deps: Seq<usize>,
    visited: Set<usize>,
    levels: Seq<bool>,
) -> Drawn
    decreases depth, 2int, 0nat,
{
    if deps.len() == 0 {
        (seq![], visited)
    } else {
        let (lines, after) = sibling_lines(
            depth,
            plan,
            ascending(deps),
            deps.len(),
            visited,
            levels,
        );
        (heading_lines(kind, levels, plan.drawing) + lines, after)
    }
}

/// The lines of the first `n` of some packages beside each other. The branch goes
/// on below each of them but the last.
pub open spec fn sibling_lines(
    depth: nat,
    plan: Plan,
    deps: Seq<usize>,
    n: nat,
    visited: Set<usize>,
    levels: Seq<bool>,
) -> Drawn
    decreases depth, 1int, n,
{
    if n == 0 {
        (seq![], visited)
    } else {
        let (before, v) = sibling_lines(depth, plan, deps, (n - 1) as nat, visited, levels);
        let (lines, after) = package_lines(
            depth,
            plan,
            deps[n - 1],
            v,
            levels.push(n < deps.len()),
        );
        (before + lines, after)
    }
}

/// Whether a package stands directly below another.
pub open spec fn below(
    edges: Seq<PackageEdge>,
    direction: EdgeDirection,
    a: usize,
    b: usize,
) -> bool {
    exists|j: int|
        0 <= j < ends(edges, a, direction).len() && (#[trigger] ends(edges, a, direction)[j]).0
            == b
}

/// Whether each package of a walk stands directly below the one before.
pub open spec fn descends(
    edges: Seq<PackageEdge>,
    direction: EdgeDirection,
    walk: Seq<usize>,
) -> bool {
    &&& walk.len() > 0
    &&& forall|i: int|
        0 < i < walk.len() ==> below(edges, direction, walk[i - 1], #[trigger] walk[i])
}

/// Whether all walks down from a package are over after the given number of
/// packages.
pub open spec fn ends_within(
    edges: Seq<PackageEdge>,
    direction: EdgeDirection,
    package: usize,
    n: nat,
) -> bool {
    forall|walk: Seq<usize>|
        #[trigger] descends(edges, direction, walk) && walk[0] == package ==> walk.len() <= n
}

/// How many of the packages have not been looked into.
pub open spec fn unvisited(packages: Seq<usize>, visited: Set<usize>) -> nat {
    packages.to_set().difference(visited).len()
}

/// Whether the tree below a package is over before it reaches the given depth.
pub open spec fn deep_enough(
    depth: nat,
    plan: Plan,
    packages: Seq<usize>,
    package: usize,
    visited: Set<usize>,
) -> bool {
    if plan.all {
        ends_within(plan.edges, plan.direction, package, depth)
    } else {
        unvisited(packages, visited) < depth
    }
}

proof fn lemma_unvisited_shrinks(packages: Seq<usize>, a: Set<usize>, b: Set<usize>)
    requires
        a.subset_of(b),
    ensures
        unvisited(packages, b) <= unvisited(packages, a),
{
    vstd::seq_lib::seq_to_set_is_finite(packages);
    let left_a = packages.to_set().difference(a);
    let left_b = packages.to_set().difference(b);
    assert(left_b.subset_of(left_a));
    vstd::set_lib::lemma_len_subset(left_b, left_a);
}

proof fn lemma_unvisited_one_less(packages: Seq<usize>, visited: Set<usize>, package: usize)
    requires
        packages.contains(package),
        !visited.contains(package),
    ensures
        unvisited(packages, visited.insert(package)) + 1 == unvisited(packages, visited),
{
    vstd::seq_lib::seq_to_set_is_finite(packages);
    let left = packages.to_set().difference(visited);
    assert(left.contains(package));
    assert(packages.to_set().difference(visited.insert(package)) =~= left.remove(package));
}

/// The tree below a package that is looked into is over one level earlier.
pub proof fn lemma_deep_enough_below(
    depth: nat,
    plan: Plan,
    packages: Seq<usize>,
    package: usize,
    visited: Set<usize>,
    child: usize,
)
    requires
        packages.contains(package),
        deep_enough(depth, plan, packages, package, visited),
        plan.all || !visited.contains(package),
        below(plan.edges, plan.direction, package, child),
    ensures
        depth > 0,
        deep_enough(
            (depth - 1) as nat,
            plan,
            packages,
            child,
            if plan.all {
                visited
            } else {
                visited.insert(package)
            },
        ),
{
    if plan.all {
        let edges = plan.edges;
        let direction = plan.direction;
        lemma_depth_positive(depth, plan, packages, package, visited);
        assert forall|walk: Seq<usize>| #[trigger]
            descends(edges, direction, walk) && walk[0] == child implies walk.len() <= depth
            - 1 by {
            let longer = seq![package] + walk;
            assert forall|i: int| 0 < i < longer.len() implies below(
                edges,
                direction,
                longer[i - 1],
                #[trigger] longer[i],
            ) by {
                if i > 1 {
                    assert(below(edges, direction, walk[i - 2], walk[i - 1]));
                }
            }
            assert(descends(edges, direction, longer));
        }
    } else {
        lemma_unvisited_one_less(packages, visited, package);
    }
}

pub proof fn lemma_depth_positive(
    depth: nat,
    plan: Plan,
    packages: Seq<usize>,
    package: usize,
    visited: Set<usize>,
)
    requires
        deep_enough(depth, plan, packages, package, visited),
    ensures
        depth > 0,
{
    if plan.all {
        assert(descends(plan.edges, plan.direction, seq![package]));
    }
}

/// Looking into more packages does not make the tree deeper.
pub proof fn lemma_deep_enough_later(
    depth: nat,
    plan: Plan,
    packages: Seq<usize>,
    package: usize,
    visited: Set<usize>,
    later: Set<usize>,
)
    requires
        deep_enough(depth, plan, packages, package, visited),
        visited.subset_of(later),
    ensures
        deep_enough(depth, plan, packages, package, later),
{
    lemma_unvisited_shrinks(packages, visited, later);
}

/// Putting a number in its place keeps the others.
pub proof fn lemma_placed(s: Seq<usize>, x: usize, y: usize)
    ensures
        placed(s, x).contains(y) <==> s.contains(y) || x == y,
        placed(s, x).len() == s.len() + 1,
    decreases s.len(),
{
    let r = placed(s, x);
    if s.len() == 0 || s.last() <= x {
        assert(r[s.len() as int] == x);
        if s.contains(y) {
            assert(r[s.index_of(y)] == y);
        }
    } else {
        let rest = s.drop_last();
        lemma_placed(rest, x, y);
        let q = placed(rest, x);
        assert(r[q.len() as int] == s.last());
        if s.contains(y) {
            let i = s.index_of(y);
            if i < rest.len() {
                assert(rest[i] == y);
            }
        }
        if rest.contains(y) {
            assert(s[rest.index_of(y)] == y);
        }
        if q.contains(y) {
            assert(r[q.index_of(y)] == y);
        }
        if r.contains(y) {
            let i = r.index_of(y);
            if i < q.len() {
                assert(q[i] == y);
            }
        }
        assert(s[s.len() - 1] == s.last());
    }
}

/// Sorting keeps the numbers.
pub proof fn lemma_ascending(s: Seq<usize>, y: usize)
    ensures
        ascending(s).contains(y) <==> s.contains(y),
        ascending(s).len() == s.len(),
    decreases s.len(),
{
    if s.len() > 0 {
        let rest = s.drop_last();
        lemma_ascending(rest, y);
        lemma_placed(ascending(rest), s.last(), y);
        assert(s[s.len() - 1] == s.last());
        if s.contains(y) {
            let i = s.index_of(y);
            if i < rest.len() {
                assert(rest[i] == y);
            }
        }
        if rest.contains(y) {
            assert(s[rest.index_of(y)] == y);
        }
    }
}

/// The packages that links of a kind lead to are far ends of links.
proof fn lemma_of_kind(links: Seq<Link>, kind: Kind, y: usize)
    ensures
        of_kind(links, kind).contains(y) <==> links.contains((y, kind)),
    decreases links.len(),
{
    if links.len() > 0 {
        let rest = links.drop_last();
        let r = of_kind(links, kind);
        let q = of_kind(rest, kind);
        lemma_of_kind(rest, kind, y);
        assert(links[links.len() - 1] == links.last());
        if links.contains((y, kind)) {
            let i = links.index_of((y, kind));
            if i < rest.len() {
                assert(rest[i] == (y, kind));
            } else {
                assert(r[q.len() as int] == y);
            }
        }
        if rest.contains((y, kind)) {
            assert(links[rest.index_of((y, kind))] == (y, kind));
        }
        if q.contains(y) {
            assert(r[q.index_of(y)] == y);
        }
        if r.contains(y) {
            let i = r.index_of(y);
            if i < q.len() {
                assert(q[i] == y);
            }
        }
    }
}

/// The children of a package are the far ends of its edges of that kind.
pub proof fn lemma_children(
    edges: Seq<PackageEdge>,
    package: usize,
    direction: EdgeDirection,
    kind: Kind,
    child: usize,
)
    ensures
        children(edges, package, direction, kind).contains(child) <==> ends(
            edges,
            package,
            direction,
        ).contains((child, kind)),
{
    let links = ends(edges, package, direction);
    lemma_of_kind(links, kind, child);
}

/// A child stands directly below its package.
pub proof fn lemma_child_below(
    edges: Seq<PackageEdge>,
    package: usize,
    direction: EdgeDirection,
    kind: Kind,
    child: usize,
)
    requires
        children(edges, package, direction, kind).contains(child),
    ensures
        below(edges, direction, package, child),
{
    lemma_children(edges, package, direction, kind, child);
    let links = ends(edges, package, direction);
    assert(links[links.index_of((child, kind))].0 == child);
}

/// Puts a number in its place in an ascending row of numbers.
fn place(v: &mut Vec<usize>, x: usize)
    ensures
        final(v)@ == placed(old(v)@, x),
{
    let ghost s = v@;
    let mut at: usize = v.len();
    assert(s.take(at as int) =~= s);
    assert(placed(s, x) =~= placed(s.take(at as int), x) + s.skip(at as int));
    while at > 0 && v[at - 1] > x
        invariant
            at <= v.len(),
            v@ == s,
            placed(s, x) == placed(s.take(at as int), x) + s.skip(at as int),
        decreases at,
    {
        proof {
            let t = s.take(at as int);
            assert(t.drop_last() =~= s.take(at - 1));
            assert(s.skip(at - 1) =~= seq![t.last()] + s.skip(at as int));
            assert(placed(t, x) == placed(s.take(at - 1), x).push(t.last()));
        }
        at -= 1;
        assert(placed(s, x) =~= placed(s.take(at as int), x) + s.skip(at as int));
    }
    v.insert(at, x);
    proof {
        assert(placed(s.take(at as int), x) == s.take(at as int).push(x));
        assert(v@ =~= s.take(at as int).push(x) + s.skip(at as int));
    }
}

/// Puts numbers in ascending order.
fn sorted(s: &Vec<usize>) -> (r: Vec<usize>)
    ensures
        r@ == ascending(s@),
{
    let mut r: Vec<usize> = Vec::new();
    let mut i: usize = 0;
    assert(s@.take(0) =~= r@);
    while i < s.len()
        invariant
            i <= s.len(),
            r@ == ascending(s@.take(i as int)),
        decreases s.len() - i,
    {
        assert(s@.take(i + 1).drop_last() =~= s@.take(i as int));
        place(&mut r, s[i]);
        i += 1;
    }
    assert(s@.take(i as int) =~= s@);
    r
}

/// The packages below a package: those that it needs as usual, those that it needs
/// to be built, and those that it needs for development.
fn children_by_kind(graph: &PackageGraph, package: usize, direction: EdgeDirection) -> (r: (
    Vec<usize>,
    Vec<usize>,
    Vec<usize>,
))
    requires
        graph.packages().contains(package),
    ensures
        r.0@ == children(graph.edges(), package, direction, Kind::Normal),
        r.1@ == children(graph.edges(), package, direction, Kind::Build),
        r.2@ == children(graph.edges(), package, direction, Kind::Development),
        forall|p: usize|
            #[trigger] below(graph.edges(), direction, package, p) ==> graph.packages().contains(p),
{
    let links = graph.neighbors(package, direction);
    let ghost all = ends(graph.edges(), package, direction);
    let mut normal: Vec<usize> = Vec::new();
    let mut build: Vec<usize> = Vec::new();
    let mut development: Vec<usize> = Vec::new();
    let mut i: usize = links.len();
    proof {
        assert(all.take(0) =~= seq![]);
    }
    while i > 0
        invariant
            i <= links.len(),
            links@ == all.reverse(),
            normal@ == of_kind(all.take(links.len() - i), Kind::Normal),
            build@ == of_kind(all.take(links.len() - i), Kind::Build),
            development@ == of_kind(all.take(links.len() - i), Kind::Development),
        decreases i,
    {
        let ghost done = links.len() - i;
        i -= 1;
        let (p, kind): (usize, Kind) = links[i];
        proof {
            assert(links@[i as int] == all[done]);
            assert(all.take(done + 1).drop_last() =~= all.take(done));
            assert(all.take(done + 1).last() == all[done]);
        }
        match kind {
            Kind::Normal => normal.push(p),
            Kind::Build => build.push(p),
            Kind::Development => development.push(p),
        }
    }
    proof {
        assert(all.take(links.len() as int) =~= all);
        assert forall|p: usize| #[trigger] below(
            graph.edges(),
            direction,
            package,
            p,
        ) implies graph.packages().contains(p) by {
            let j = choose|j: int| 0 <= j < all.len() && (#[trigger] all[j]).0 == p;
            assert(links@[all.len() - 1 - j] == all[j]);
        }
    }
    (normal, build, development)
}

/// Appends the branches beside a line, up to the given level.
fn push_bars(s: &mut String, levels: &Vec<bool>, n: usize, symbols: &Symbols)
    requires
        n <= levels.len(),
    ensures
        final(s)@ == old(s)@ + bars(levels@.take(n as int), symbols.value()),
{
    let ghost start = s@;
    let mut i: usize = 0;
    assert(s@ =~= start + bars(levels@.take(0), symbols.value()));
    while i < n
        invariant
            i <= n <= levels.len(),
            s@ == start + bars(levels@.take(i as int), symbols.value()),
        decreases n - i,
    {
        assert(levels@.take(i + 1).drop_last() =~= levels@.take(i as int));
        if levels[i] {
            s.append(symbols.down);
        } else {
            push_spaces(s, 1);
        }
        push_spaces(s, 3);
        i += 1;
        assert(s@ =~= start + bars(levels@.take(i as int), symbols.value()));
    }
}

/// Makes what stands before a package.
pub fn treevines(levels: &Vec<bool>, prefix: Prefix, symbols: &Symbols) -> (r: String)
    ensures
        r@ == vines(levels@, (Drawing { prefix, symbols: symbols.value() })),
{
    let mut r = String::new();
    match prefix {
        Prefix::Depth => {
            r = decimal_text(levels.len() as u64);
            push_spaces(&mut r, 1);
        },
        Prefix::Plain => {},
        Prefix::Indent => {
            let n: usize = levels.len();
            if n > 0 {
                push_bars(&mut r, levels, n - 1, symbols);
                if levels[n - 1] {
                    r.append(symbols.tee);
                } else {
                    r.append(symbols.ell);
                }
                r.append(symbols.right);
                r.append(symbols.right);
                push_spaces(&mut r, 1);
                assert(levels@.take(n - 1) =~= levels@.drop_last());
            }
        },
    }
    assert(r@ =~= vines(levels@, (Drawing { prefix, symbols: symbols.value() })));
    r
}

/// Adds the line above the dependencies of a kind, where there is one.
fn push_heading(
    lines: &mut Vec<TreeLine>,
    kind: Kind,
    levels: &Vec<bool>,
    prefix: Prefix,
    symbols: &Symbols,
)
    ensures
        line_values(final(lines)@) == line_values(old(lines)@) + heading_lines(
            kind,
            levels@,
            (Drawing { prefix, symbols: symbols.value() }),
        ),
{
    let ghost before = line_values(lines@);
    let title: Option<&'static str> = match kind {
        Kind::Normal => None,
        Kind::Build => Some("[build-dependencies]"),
        Kind::Development => Some("[dev-dependencies]"),
    };
    match (prefix, title) {
        (Prefix::Indent, Some(name)) => {
            let mut text = table_row_empty();
            push_bars(&mut text, levels, levels.len(), symbols);
            assert(levels@.take(levels@.len() as int) =~= levels@);
            text.append(name);
            lines.push(TreeLine::Heading(text));
        },
        _ => {},
    }
    assert(line_values(lines@) =~= before + heading_lines(
        kind,
        levels@,
        (Drawing { prefix, symbols: symbols.value() }),
    ));
}

impl PrintConfig {
    /// What the tree of a graph is drawn from.
    pub open spec fn plan(self, graph: PackageGraph) -> Plan {
        Plan {
            edges: graph.edges(),
            direction: self.direction,
            all: self.all,
            drawing: self.drawing(),
        }
    }
}

/// Adds the lines of a package and of everything below it.
#[verifier::rlimit(40)]
fn draw_dependency(
    package: usize,
    graph: &PackageGraph,
    visited_deps: &mut HashSet<usize>,
    levels_continue: &mut Vec<bool>,
    pc: &PrintConfig,
    lines: &mut Vec<TreeLine>,
    Ghost(depth): Ghost<nat>,
)
    requires
        graph.packages().contains(package),
        deep_enough(depth, pc.plan(*graph), graph.packages(), package, old(visited_deps)@),
    ensures
        final(levels_continue)@ == old(levels_continue)@,
        line_values(final(lines)@) == line_values(old(lines)@) + package_lines(
            depth,
            pc.plan(*graph),
            package,
            old(visited_deps)@,
            old(levels_continue)@,
        ).0,
        final(visited_deps)@ == package_lines(
            depth,
            pc.plan(*graph),
            package,
            old(visited_deps)@,
            old(levels_continue)@,
        ).1,
        old(visited_deps)@.subset_of(final(visited_deps)@),
    decreases depth, 0int,
{
    let ghost plan = pc.plan(*graph);
    let ghost visited = visited_deps@;
    let ghost levels = levels_continue@;
    let ghost start = line_values(lines@);
    proof {
        lemma_depth_positive(depth, plan, graph.packages(), package, visited);
    }
    let new: bool = pc.all || visited_deps.insert(package);
    let ghost v0 = visited_deps@;
    let vines = treevines(levels_continue, pc.prefix, &pc.symbols);
    lines.push(TreeLine::Package(package, vines));
    let ghost own = seq![LineView::Package(package, vines@)];
    assert(line_values(lines@) =~= start + own);
    if !new {
        assert(v0 =~= visited);
        return;
    }
    assert(v0 == if plan.all {
        visited
    } else {
        visited.insert(package)
    });
    let (normal, build, development) = children_by_kind(graph, package, pc.direction);
    let ghost below_depth = (depth - 1) as nat;
    proof {
        assert forall|kind: Kind, child: usize| #[trigger]
            children(plan.edges, package, plan.direction, kind).contains(
                child,
            ) implies graph.packages().contains(child) && deep_enough(
            below_depth,
            plan,
            graph.packages(),
            child,
            v0,
        ) by {
            lemma_child_below(plan.edges, package, plan.direction, kind, child);
            lemma_deep_enough_below(depth, plan, graph.packages(), package, visited, child);
        }
    }
    proof {
        assert forall|i: int| 0 <= i < normal@.len() implies graph.packages().contains(
            #[trigger] normal@[i],
        ) && deep_enough(below_depth, plan, graph.packages(), normal@[i], visited_deps@) by {
            assert(children(plan.edges, package, plan.direction, Kind::Normal).contains(
                normal@[i],
            ));
        }
    }
    draw_dependency_kind(
        Kind::Normal,
        &normal,
        graph,
        visited_deps,
        levels_continue,
        pc,
        lines,
        Ghost(below_depth),
    );
    proof {
        assert forall|i: int| 0 <= i < build@.len() implies graph.packages().contains(
            #[trigger] build@[i],
        ) && deep_enough(below_depth, plan, graph.packages(), build@[i], visited_deps@) by {
            assert(children(plan.edges, package, plan.direction, Kind::Build).contains(
                build@[i],
            ));
            lemma_deep_enough_later(
                below_depth,
                plan,
                graph.packages(),
                build@[i],
                v0,
                visited_deps@,
            );
        }
    }
    draw_dependency_kind(
        Kind::Build,
        &build,
        graph,
        visited_deps,
        levels_continue,
        pc,
        lines,
        Ghost(below_depth),
    );
    proof {
        assert forall|i: int| 0 <= i < development@.len() implies graph.packages().contains(
            #[trigger] development@[i],
        ) && deep_enough(below_depth, plan, graph.packages(), development@[i], visited_deps@) by {
            assert(children(plan.edges, package, plan.direction, Kind::Development).contains(
                development@[i],
            ));
            lemma_deep_enough_later(
                below_depth,
                plan,
                graph.packages(),
                development@[i],
                v0,
                visited_deps@,
            );
        }
    }
    draw_dependency_kind(
        Kind::Development,
        &development,
        graph,
        visited_deps,
        levels_continue,
        pc,
        lines,
        Ghost(below_depth),
    );
    proof {
        assert(line_values(lines@) =~= start + package_lines(
            depth,
            plan,
            package,
            visited,
            levels,
        ).0);
    }
}

/// Adds the lines of the dependencies of one kind, sorted.
#[verifier::rlimit(40)]
fn draw_dependency_kind(
    kind: Kind,
    deps: &Vec<usize>,
    graph: &PackageGraph,
    visited_deps: &mut HashSet<usize>,
    levels_continue: &mut Vec<bool>,
    pc: &PrintConfig,
    lines: &mut Vec<TreeLine>,
    Ghost(depth): Ghost<nat>,
)
    requires
        forall|i: int|
            0 <= i < deps@.len() ==> graph.packages().contains(#[trigger] deps@[i]) && deep_enough(
                depth,
                pc.plan(*graph),
                graph.packages(),
                deps@[i],
                old(visited_deps)@,
            ),
    ensures
        final(levels_continue)@ == old(levels_continue)@,
        line_values(final(lines)@) == line_values(old(lines)@) + kind_lines(
            depth,
            pc.plan(*graph),
            kind,
            deps@,
            old(visited_deps)@,
            old(levels_continue)@,
        ).0,
        final(visited_deps)@ == kind_lines(
            depth,
            pc.plan(*graph),
            kind,
            deps@,
            old(visited_deps)@,
            old(levels_continue)@,
        ).1,
        old(visited_deps)@.subset_of(final(visited_deps)@),
    decreases depth, 1int,
{
    let ghost plan = pc.plan(*graph);
    let ghost visited = visited_deps@;
    let ghost levels = levels_continue@;
    let ghost start = line_values(lines@);
    if deps.len() == 0 {
        assert(start + Seq::<LineView>::empty() =~= start);
        return;
    }
    let sorted_deps = sorted(deps);
    proof {
        lemma_ascending(deps@, 0);
        assert forall|j: int| 0 <= j < sorted_deps@.len() implies graph.packages().contains(
            #[trigger] sorted_deps@[j],
        ) && deep_enough(depth, plan, graph.packages(), sorted_deps@[j], visited) by {
            lemma_ascending(deps@, sorted_deps@[j]);
            assert(sorted_deps@.contains(sorted_deps@[j]));
            let at = deps@.index_of(sorted_deps@[j]);
            assert(deps@[at] == sorted_deps@[j]);
        }
    }
    push_heading(lines, kind, levels_continue, pc.prefix, &pc.symbols);
    let ghost headed = line_values(lines@);
    let mut i: usize = 0;
    assert(headed + Seq::<LineView>::empty() =~= headed);
    while i < sorted_deps.len()
        invariant
            i <= sorted_deps.len(),
            plan == pc.plan(*graph),
            visited == old(visited_deps)@,
            levels == old(levels_continue)@,
            levels_continue@ == levels,
            forall|j: int|
                0 <= j < sorted_deps@.len() ==> graph.packages().contains(#[trigger] sorted_deps@[j])
                    && deep_enough(depth, plan, graph.packages(), sorted_deps@[j], visited),
            line_values(lines@) == headed + sibling_lines(
                depth,
                plan,
                sorted_deps@,
                i as nat,
                visited,
                levels,
            ).0,
            visited_deps@ == sibling_lines(depth, plan, sorted_deps@, i as nat, visited, levels).1,
            visited.subset_of(visited_deps@),
        decreases sorted_deps.len() - i,
    {
        let ghost v = visited_deps@;
        proof {
            lemma_deep_enough_later(depth, plan, graph.packages(), sorted_deps@[i as int], visited, v);
        }
        levels_continue.push(i + 1 < sorted_deps.len());
        draw_dependency(
            sorted_deps[i],
            graph,
            visited_deps,
            levels_continue,
            pc,
            lines,
            Ghost(depth),
        );
        levels_continue.pop();
        proof {
            assert(levels_continue@ =~= levels);
            let (before, w) = sibling_lines(depth, plan, sorted_deps@, i as nat, visited, levels);
            let more = package_lines(
                depth,
                plan,
                sorted_deps@[i as int],
                v,
                levels.push(i + 1 < sorted_deps@.len()),
            );
            assert(sibling_lines(depth, plan, sorted_deps@, (i + 1) as nat, visited, levels) == (
                before + more.0,
                more.1,
            ));
            assert(line_values(lines@) =~= headed + (before + more.0));
        }
        i += 1;
    }
    proof {
        assert(line_values(lines@) =~= start + kind_lines(
            depth,
            plan,
            kind,
            deps@,
            visited,
            levels,
        ).0);
    }
}

/// Adds the lines of a package and of everything below it: no package is deeper in
/// the tree than there are packages.
pub fn print_dependency(
    package: usize,
    graph: &PackageGraph,
    visited_deps: &mut HashSet<usize>,
    levels_continue: &mut Vec<bool>,
    pc: &PrintConfig,
    lines: &mut Vec<TreeLine>,
)
    requires
        graph.packages().contains(package),
        pc.all ==> ends_within(graph.edges(), pc.direction, package, graph.packages().len()),
    ensures
        final(levels_continue)@ == old(levels_continue)@,
        line_values(final(lines)@) == line_values(old(lines)@) + package_lines(
            graph.packages().len() + 1,
            pc.plan(*graph),
            package,
            old(visited_deps)@,
            old(levels_continue)@,
        ).0,
        final(visited_deps)@ == package_lines(
            graph.packages().len() + 1,
            pc.plan(*graph),
            package,
            old(visited_deps)@,
            old(levels_continue)@,
        ).1,
        old(visited_deps)@.subset_of(final(visited_deps)@),
{
    let ghost depth = graph.packages().len() + 1;
    proof {
        lemma_deep_as_packages(pc.plan(*graph), graph.packages(), package, visited_deps@);
    }
    draw_dependency(package, graph, visited_deps, levels_continue, pc, lines, Ghost(depth));
}

/// Adds the lines of the dependencies of one kind, sorted, and of everything below
/// them.
pub fn print_dependency_kind(
    kind: Kind,
    deps: &Vec<usize>,
    graph: &PackageGraph,
    visited_deps: &mut HashSet<usize>,
    levels_continue: &mut Vec<bool>,
    pc: &PrintConfig,
    lines: &mut Vec<TreeLine>,
)
    requires
        forall|i: int|
            0 <= i < deps@.len() ==> graph.packages().contains(#[trigger] deps@[i]) && (pc.all
                ==> ends_within(graph.edges(), pc.direction, deps@[i], graph.packages().len())),
    ensures
        final(levels_continue)@ == old(levels_continue)@,
        line_values(final(lines)@) == line_values(old(lines)@) + kind_lines(
            graph.packages().len() + 1,
            pc.plan(*graph),
            kind,
            deps@,
            old(visited_deps)@,
            old(levels_continue)@,
        ).0,
        final(visited_deps)@ == kind_lines(
            graph.packages().len() + 1,
            pc.plan(*graph),
            kind,
            deps@,
            old(visited_deps)@,
            old(levels_continue)@,
        ).1,
        old(visited_deps)@.subset_of(final(visited_deps)@),
{
    let ghost depth = graph.packages().len() + 1;
    proof {
        assert forall|i: int| 0 <= i < deps@.len() implies graph.packages().contains(
            #[trigger] deps@[i],
        ) && deep_enough(depth, pc.plan(*graph), graph.packages(), deps@[i], visited_deps@) by {
            lemma_deep_as_packages(pc.plan(*graph), graph.packages(), deps@[i], visited_deps@);
        }
    }
    draw_dependency_kind(
        kind,
        deps,
        graph,
        visited_deps,
        levels_continue,
        pc,
        lines,
        Ghost(depth),
    );
}

/// The tree below a package is over before it is deeper than there are packages.
proof fn lemma_deep_as_packages(
    plan: Plan,
    packages: Seq<usize>,
    package: usize,
    visited: Set<usize>,
)
    requires
        plan.all ==> ends_within(plan.edges, plan.direction, package, packages.len()),
    ensures
        deep_enough(packages.len() + 1, plan, packages, package, visited),
{
    let all = packages.to_set();
    assert(all.difference(Set::empty()) =~= all);
    packages.lemma_cardinality_of_set();
    lemma_unvisited_shrinks(packages, Set::empty(), visited);
    if plan.all {
        assert forall|walk: Seq<usize>| #[trigger]
            descends(plan.edges, plan.direction, walk) && walk[0] == package implies walk.len()
            <= packages.len() + 1 by {}
    }
}

/// The lines of the whole tree of a package, in a graph with `n` packages: no
/// package is deeper in the tree than there are packages.
pub open spec fn tree_lines(n: nat, plan: Plan, root: usize) -> Seq<LineView> {
    package_lines(n + 1, plan, root, Set::empty(), seq![]).0
}

/// Draws the tree of a package: the package, and below it those that it depends
/// on, or those that depend on it, by the direction.
pub fn print_tree(package: usize, graph: &PackageGraph, pc: &PrintConfig) -> (r: Vec<TreeLine>)
    requires
        graph.packages().contains(package),
        pc.all ==> ends_within(graph.edges(), pc.direction, package, graph.packages().len()),
    ensures
        line_values(r@) == tree_lines(graph.packages().len(), pc.plan(*graph), package),
{
    let mut visited_deps: HashSet<usize> = HashSet::new();
    let mut levels_continue: Vec<bool> = Vec::new();
    let mut lines: Vec<TreeLine> = Vec::new();
    print_dependency(
        package,
        graph,
        &mut visited_deps,
        &mut levels_continue,
        pc,
        &mut lines,
    );
    proof {
        assert(levels_continue@ =~= Seq::<bool>::empty());
        assert(line_values(lines@) =~= tree_lines(
            graph.packages().len(),
            pc.plan(*graph),
            package,
        ));
    }
    lines
}

/// Whether a walk down from a package ends at another after the given number of
/// packages.
spec fn walk_ends(
    edges: Seq<PackageEdge>,
    direction: EdgeDirection,
    from: usize,
    n: nat,
    to: usize,
) -> bool {
    exists|walk: Seq<usize>|
        #[trigger] descends(edges, direction, walk) && walk[0] == from && walk.len() == n
            && walk.last() == to
}

/// The beginning of a walk is a walk.
pub proof fn lemma_walk_begins(
    edges: Seq<PackageEdge>,
    direction: EdgeDirection,
    walk: Seq<usize>,
    n: int,
)
    requires
        descends(edges, direction, walk),
        0 < n <= walk.len(),
    ensures
        descends(edges, direction, walk.take(n)),
{
    let part = walk.take(n);
    assert forall|i: int| 0 < i < part.len() implies below(
        edges,
        direction,
        part[i - 1],
        #[trigger] part[i],
    ) by {
        assert(below(edges, direction, walk[i - 1], walk[i]));
    }
}

/// A walk goes on to what stands below its end.
pub proof fn lemma_walk_goes_on(
    edges: Seq<PackageEdge>,
    direction: EdgeDirection,
    walk: Seq<usize>,
    b: usize,
)
    requires
        descends(edges, direction, walk),
        below(edges, direction, walk.last(), b),
    ensures
        descends(edges, direction, walk.push(b)),
{
    let longer = walk.push(b);
    assert forall|i: int| 0 < i < longer.len() implies below(
        edges,
        direction,
        longer[i - 1],
        #[trigger] longer[i],
    ) by {
        if i < walk.len() {
            assert(below(edges, direction, walk[i - 1], walk[i]));
        }
    }
}

/// A walk with one more package ends below the end of one.
proof fn lemma_walk_step(
    edges: Seq<PackageEdge>,
    direction: EdgeDirection,
    from: usize,
    n: nat,
    b: usize,
)
    requires
        n > 0,
    ensures
        walk_ends(edges, direction, from, n + 1, b) <==> exists|a: usize|
            walk_ends(edges, direction, from, n, a) && #[trigger] below(edges, direction, a, b),
{
    if walk_ends(edges, direction, from, n + 1, b) {
        let walk = choose|walk: Seq<usize>|
            #[trigger] descends(edges, direction, walk) && walk[0] == from && walk.len() == n + 1
                && walk.last() == b;
        lemma_walk_begins(edges, direction, walk, n as int);
        let part = walk.take(n as int);
        assert(below(edges, direction, walk[n - 1], walk[n as int]));
        assert(walk_ends(edges, direction, from, n, part.last()));
        assert(below(edges, direction, part.last(), b));
    }
    if exists|a: usize|
        walk_ends(edges, direction, from, n, a) && #[trigger] below(edges, direction, a, b) {
        let a = choose|a: usize|
            walk_ends(edges, direction, from, n, a) && #[trigger] below(edges, direction, a, b);
        let walk = choose|walk: Seq<usize>|
            #[trigger] descends(edges, direction, walk) && walk[0] == from && walk.len() == n
                && walk.last() == a;
        lemma_walk_goes_on(edges, direction, walk, b);
        assert(descends(edges, direction, walk.push(b)));
    }
}

/// The packages directly below some packages, each once.
#[verifier::rlimit(40)]
fn next_level(graph: &PackageGraph, level: &Vec<usize>, direction: EdgeDirection) -> (r: Vec<usize>)
    requires
        forall|i: int| 0 <= i < level@.len() ==> graph.packages().contains(#[trigger] level@[i]),
    ensures
        forall|b: usize|
            #[trigger] r@.contains(b) <==> exists|a: usize|
                level@.contains(a) && #[trigger] below(graph.edges(), direction, a, b),
        forall|i: int| 0 <= i < r@.len() ==> graph.packages().contains(#[trigger] r@[i]),
{
    let ghost edges = graph.edges();
    let mut seen: HashSet<usize> = HashSet::new();
    let mut r: Vec<usize> = Vec::new();
    let mut i: usize = 0;
    while i < level.len()
        invariant
            i <= level.len(),
            edges == graph.edges(),
            forall|j: int|
                0 <= j < level@.len() ==> graph.packages().contains(#[trigger] level@[j]),
            forall|b: usize|
                #[trigger] seen@.contains(b) <==> exists|j: int|
                    0 <= j < i && below(edges, direction, #[trigger] level@[j], b),
            forall|b: usize| #[trigger] r@.contains(b) == seen@.contains(b),
            forall|j: int| 0 <= j < r@.len() ==> graph.packages().contains(#[trigger] r@[j]),
        decreases level.len() - i,
    {
        let links = graph.neighbors(level[i], direction);
        let ghost all = ends(edges, level@[i as int], direction);
        let ghost start = seen@;
        let mut k: usize = 0;
        while k < links.len()
            invariant
                k <= links.len(),
                links@ == all.reverse(),
                forall|j: int|
                    0 <= j < links@.len() ==> graph.packages().contains((#[trigger] links@[j]).0),
                forall|b: usize|
                    #[trigger] seen@.contains(b) <==> start.contains(b) || exists|j: int|
                        0 <= j < k && (#[trigger] links@[j]).0 == b,
                forall|b: usize| #[trigger] r@.contains(b) == seen@.contains(b),
                forall|j: int| 0 <= j < r@.len() ==> graph.packages().contains(#[trigger] r@[j]),
            decreases links.len() - k,
        {
            let b: usize = links[k].0;
            let ghost before = r@;
            let ghost seen_before = seen@;
            if seen.insert(b) {
                r.push(b);
            }
            proof {
                assert(seen@ =~= seen_before.insert(b));
                assert forall|c: usize| #[trigger] r@.contains(c) == seen@.contains(c) by {
                    assert(before.contains(c) == seen_before.contains(c));
                    if before.contains(c) {
                        assert(r@[before.index_of(c)] == c);
                    }
                    if !seen_before.contains(b) {
                        assert(r@[before.len() as int] == b);
                    }
                    if r@.contains(c) && c != b {
                        let at = r@.index_of(c);
                        assert(before[at] == c);
                    }
                }
                assert forall|c: usize| #[trigger] seen@.contains(c) <==> start.contains(c)
                    || exists|j: int| 0 <= j < k + 1 && (#[trigger] links@[j]).0 == c by {
                    assert(links@[k as int].0 == b);
                    if exists|j: int| 0 <= j < k + 1 && (#[trigger] links@[j]).0 == c {
                        let j = choose|j: int| 0 <= j < k + 1 && (#[trigger] links@[j]).0 == c;
                        if j < k {
                            assert(seen_before.contains(c));
                        }
                    }
                }
            }
            k += 1;
        }
        proof {
            assert forall|b: usize| #[trigger] seen@.contains(b) <==> exists|j: int|
                0 <= j < i + 1 && below(edges, direction, #[trigger] level@[j], b) by {
                if below(edges, direction, level@[i as int], b) {
                    let j = choose|j: int| 0 <= j < all.len() && (#[trigger] all[j]).0 == b;
                    assert(links@[all.len() - 1 - j].0 == b);
                }
                if exists|j: int| 0 <= j < links@.len() && (#[trigger] links@[j]).0 == b {
                    let j = choose|j: int| 0 <= j < links@.len() && (#[trigger] links@[j]).0 == b;
                    assert(all[all.len() - 1 - j].0 == b);
                    assert(below(edges, direction, level@[i as int], b));
                }
                if start.contains(b) {
                    let j = choose|j: int|
                        0 <= j < i && below(edges, direction, #[trigger] level@[j], b);
                    assert(below(edges, direction, level@[j], b));
                }
                if exists|j: int|
                    0 <= j < i + 1 && below(edges, direction, #[trigger] level@[j], b) {
                    let j = choose|j: int|
                        0 <= j < i + 1 && below(edges, direction, #[trigger] level@[j], b);
                    if j < i {
                        assert(start.contains(b));
                    }
                }
            }
        }
        i += 1;
    }
    proof {
        assert forall|b: usize| #[trigger] r@.contains(b) <==> exists|a: usize|
            level@.contains(a) && #[trigger] below(edges, direction, a, b) by {
            if r@.contains(b) {
                assert(seen@.contains(b));
                let j = choose|j: int|
                    0 <= j < i && below(edges, direction, #[trigger] level@[j], b);
                assert(level@.contains(level@[j]));
            }
            if exists|a: usize|
                level@.contains(a) && #[trigger] below(edges, direction, a, b) {
                let a = choose|a: usize|
                    level@.contains(a) && #[trigger] below(edges, direction, a, b);
                let j = level@.index_of(a);
                assert(below(edges, direction, level@[j], b));
                assert(seen@.contains(b));
            }
        }
    }
    r
}

/// Whether the tree of a package has an end where everything in it is shown.
#[verifier::rlimit(40)]
pub fn tree_is_finite(graph: &PackageGraph, package: usize, direction: EdgeDirection) -> (r: bool)
    requires
        graph.packages().contains(package),
    ensures
        r == ends_within(graph.edges(), direction, package, graph.packages().len()),
{
    let ghost edges = graph.edges();
    let n: usize = graph.len();
    let mut level: Vec<usize> = Vec::new();
    level.push(package);
    let mut k: usize = 0;
    proof {
        assert forall|p: usize| #[trigger] level@.contains(p) <==> walk_ends(
            edges,
            direction,
            package,
            1,
            p,
        ) by {
            assert(level@[0] == package);
            let walk = seq![package];
            assert(descends(edges, direction, walk));
            assert(walk.last() == package);
        }
    }
    while k < n
        invariant
            k <= n,
            n == graph.packages().len(),
            edges == graph.edges(),
            forall|i: int|
                0 <= i < level@.len() ==> graph.packages().contains(#[trigger] level@[i]),
            forall|p: usize|
                #[trigger] level@.contains(p) <==> walk_ends(
                    edges,
                    direction,
                    package,
                    (k + 1) as nat,
                    p,
                ),
        decreases n - k,
    {
        let ghost before = level@;
        level = next_level(graph, &level, direction);
        k += 1;
        proof {
            assert forall|p: usize| #[trigger] level@.contains(p) <==> walk_ends(
                edges,
                direction,
                package,
                (k + 1) as nat,
                p,
            ) by {
                lemma_walk_step(edges, direction, package, k as nat, p);
                if exists|a: usize|
                    walk_ends(edges, direction, package, k as nat, a) && #[trigger] below(
                        edges,
                        direction,
                        a,
                        p,
                    ) {
                    let a = choose|a: usize|
                        walk_ends(edges, direction, package, k as nat, a) && #[trigger] below(
                            edges,
                            direction,
                            a,
                            p,
                        );
                    assert(before.contains(a));
                }
                if exists|a: usize| before.contains(a) && #[trigger] below(edges, direction, a, p) {
                    let a = choose|a: usize|
                        before.contains(a) && #[trigger] below(edges, direction, a, p);
                    assert(walk_ends(edges, direction, package, k as nat, a));
                }
            }
        }
    }
    proof {
        let size = n as nat;
        if level@.len() == 0 {
            assert forall|walk: Seq<usize>| #[trigger]
                descends(edges, direction, walk) && walk[0] == package implies walk.len()
                <= size by {
                if walk.len() > size {
                    lemma_walk_begins(edges, direction, walk, size as int + 1);
                    let part = walk.take(size as int + 1);
                    assert(walk_ends(edges, direction, package, size + 1, part.last()));
                    assert(level@.contains(part.last()));
                }
            }
        } else {
            assert(level@.contains(level@[0]));
            let walk = choose|walk: Seq<usize>|
                #[trigger] descends(edges, direction, walk) && walk[0] == package && walk.len()
                    == size + 1 && walk.last() == level@[0];
            assert(descends(edges, direction, walk));
        }
    }
    level.len() == 0
}

}
