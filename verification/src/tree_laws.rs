//! What holds of every tree.

use vstd::prelude::*;

#[allow(unused_imports)]
use crate::graph::{
    ends, lemma_directions_mirror, lemma_ends_hold, lemma_outgoing_ends, links_from, EdgeDirection,
    Kind, Link, PackageEdge, PackageGraph, Resolve,
};
#[allow(unused_imports)]
use crate::options::{charset_symbols, Charset, Prefix, PrintConfig, SymbolsView};
#[allow(unused_imports)]
use crate::paths::PartView;
#[allow(unused_imports)]
use crate::platform::CfgView;
#[allow(unused_imports)]
use crate::scan::{lemma_scan_only_raises, lemma_times_none, room_to_mark, scans_after, times, Source};
#[allow(unused_imports)]
use crate::table::lemma_left_of_dependency;
#[allow(unused_imports)]
use crate::text::{blank, decimal};
#[allow(unused_imports)]
use crate::tree::{
    ascending, bars, below, children, deep_enough, descends, ends_within, heading_lines, kind_lines,
    lemma_ascending, lemma_child_below, lemma_children, lemma_deep_enough_below,
    lemma_deep_enough_later, lemma_depth_positive, lemma_walk_begins, lemma_walk_goes_on,
    line_values, of_kind, package_lines, placed, sibling_lines, tree_lines, unvisited, vines,
    Drawing, LineView, Plan, TreeLine,
};

verus! {

/// The packages of lines, in their order.
pub open spec fn packages_of(lines: Seq<LineView>) -> Seq<usize>
    decreases lines.len(),
{
    if lines.len() == 0 {
        seq![]
    } else {
        let rest = packages_of(lines.drop_last());
        match lines.last() {
            LineView::Package(p, vines) => rest.push(p),
            LineView::Heading(text) => rest,
        }
    }
}

proof fn lemma_packages_of_both(a: Seq<LineView>, b: Seq<LineView>)
    ensures
        packages_of(a + b) == packages_of(a) + packages_of(b),
    decreases b.len(),
{
    if b.len() == 0 {
        assert(a + b =~= a);
        assert(packages_of(a) + packages_of(b) =~= packages_of(a));
    } else {
        assert((a + b).drop_last() =~= a + b.drop_last());
        lemma_packages_of_both(a, b.drop_last());
        assert(packages_of(a + b) =~= packages_of(a) + packages_of(b));
    }
}

proof fn lemma_no_package_in_heading(kind: Kind, levels: Seq<bool>, drawing: Drawing)
    ensures
        packages_of(heading_lines(kind, levels, drawing)) == Seq::<usize>::empty(),
{
    reveal_with_fuel(packages_of, 2);
    let lines = heading_lines(kind, levels, drawing);
    if lines.len() > 0 {
        assert(lines.len() == 1);
        assert(lines.last() == lines[0]);
        assert(lines.drop_last().len() == 0);
    }
}

/// The parts of a package's lines that are below it, by the kind of dependency.
spec fn parts(
    depth: nat,
    plan: Plan,
    package: usize,
    visited: Set<usize>,
    levels: Seq<bool>,
) -> (
    (Seq<LineView>, Set<usize>),
    (Seq<LineView>, Set<usize>),
    (Seq<LineView>, Set<usize>),
)
    recommends
        depth > 0,
{
    let under = (depth - 1) as nat;
    let v0 = if plan.all {
        visited
    } else {
        visited.insert(package)
    };
    let a = kind_lines(
        under,
        plan,
        Kind::Normal,
        children(plan.edges, package, plan.direction, Kind::Normal),
        v0,
        levels,
    );
    let b = kind_lines(
        under,
        plan,
        Kind::Build,
        children(plan.edges, package, plan.direction, Kind::Build),
        a.1,
        levels,
    );
    let c = kind_lines(
        under,
        plan,
        Kind::Development,
        children(plan.edges, package, plan.direction, Kind::Development),
        b.1,
        levels,
    );
    (a, b, c)
}

/// The lines of a package that is looked into are its own and the parts.
proof fn lemma_parts(
    depth: nat,
    plan: Plan,
    package: usize,
    visited: Set<usize>,
    levels: Seq<bool>,
)
    requires
        depth > 0,
        plan.all || !visited.contains(package),
    ensures
        ({
            let (a, b, c) = parts(depth, plan, package, visited, levels);
            let r = package_lines(depth, plan, package, visited, levels);
            &&& packages_of(r.0) == seq![package] + packages_of(a.0) + packages_of(b.0)
                + packages_of(c.0)
            &&& r.1 == c.1
        }),
{
    let (a, b, c) = parts(depth, plan, package, visited, levels);
    let r = package_lines(depth, plan, package, visited, levels);
    let own = vines(levels, plan.drawing);
    let first = seq![LineView::Package(package, own)];
    assert(r.0 == first + a.0 + b.0 + c.0);
    lemma_packages_of_both(first + a.0 + b.0, c.0);
    lemma_packages_of_both(first + a.0, b.0);
    lemma_packages_of_both(first, a.0);
    assert(packages_of(first) =~= seq![package]) by {
        assert(first.drop_last() =~= seq![]);
        assert(first.last() == LineView::Package(package, own));
        assert(packages_of(first.drop_last()) =~= seq![]);
    }
}

/// The lines of a package that was looked into already are its own.
proof fn lemma_truncated(
    depth: nat,
    plan: Plan,
    package: usize,
    visited: Set<usize>,
    levels: Seq<bool>,
)
    requires
        depth > 0,
        !plan.all && visited.contains(package),
    ensures
        packages_of(package_lines(depth, plan, package, visited, levels).0) == seq![package],
        package_lines(depth, plan, package, visited, levels).1 == visited,
{
    reveal_with_fuel(packages_of, 2);
    let own = package_lines(depth, plan, package, visited, levels).0;
    assert(own.drop_last() =~= seq![]);
    assert(packages_of(own) =~= seq![package]);
}

/// The packages of the dependencies of a kind are those of the siblings.
proof fn lemma_kind_packages(
    depth: nat,
    plan: Plan,
    kind: Kind,
    deps: Seq<usize>,
    visited: Set<usize>,
    levels: Seq<bool>,
)
    ensures
        ascending(deps).len() == deps.len(),
        packages_of(kind_lines(depth, plan, kind, deps, visited, levels).0) == packages_of(
            sibling_lines(depth, plan, ascending(deps), deps.len(), visited, levels).0,
        ),
        kind_lines(depth, plan, kind, deps, visited, levels).1 == sibling_lines(
            depth,
            plan,
            ascending(deps),
            deps.len(),
            visited,
            levels,
        ).1,
{
    lemma_ascending(deps, 0);
    if deps.len() > 0 {
        let heading = heading_lines(kind, levels, plan.drawing);
        let lines = sibling_lines(depth, plan, ascending(deps), deps.len(), visited, levels).0;
        lemma_packages_of_both(heading, lines);
        lemma_no_package_in_heading(kind, levels, plan.drawing);
        assert(packages_of(heading) + packages_of(lines) =~= packages_of(lines));
    }
}

/// The packages of one more sibling.
proof fn lemma_sibling_packages(
    depth: nat,
    plan: Plan,
    deps: Seq<usize>,
    n: nat,
    visited: Set<usize>,
    levels: Seq<bool>,
)
    requires
        n > 0,
    ensures
        ({
            let before = sibling_lines(depth, plan, deps, (n - 1) as nat, visited, levels);
            let own = package_lines(
                depth,
                plan,
                deps[n - 1],
                before.1,
                levels.push(n < deps.len()),
            );
            let r = sibling_lines(depth, plan, deps, n, visited, levels);
            &&& packages_of(r.0) == packages_of(before.0) + packages_of(own.0)
            &&& r.1 == own.1
        }),
{
    let before = sibling_lines(depth, plan, deps, (n - 1) as nat, visited, levels);
    let own = package_lines(depth, plan, deps[n - 1], before.1, levels.push(n < deps.len()));
    lemma_packages_of_both(before.0, own.0);
}

/// Whether two plans differ at most in how the tree is drawn.
pub open spec fn same_but_for_drawing(a: Plan, b: Plan) -> bool {
    a.edges == b.edges && a.direction == b.direction && a.all == b.all
}

/// Law: which packages are listed, and in which order, does not depend on what
/// stands before them.
pub proof fn lemma_drawing_does_not_matter(n: nat, a: Plan, b: Plan, root: usize)
    requires
        same_but_for_drawing(a, b),
    ensures
        packages_of(tree_lines(n, a, root)) == packages_of(tree_lines(n, b, root)),
{
    lemma_package_drawing(n + 1, a, b, root, Set::empty(), seq![], seq![]);
}

proof fn lemma_package_drawing(
    depth: nat,
    a: Plan,
    b: Plan,
    package: usize,
    visited: Set<usize>,
    la: Seq<bool>,
    lb: Seq<bool>,
)
    requires
        same_but_for_drawing(a, b),
    ensures
        packages_of(package_lines(depth, a, package, visited, la).0) == packages_of(
            package_lines(depth, b, package, visited, lb).0,
        ),
        package_lines(depth, a, package, visited, la).1 == package_lines(
            depth,
            b,
            package,
            visited,
            lb,
        ).1,
    decreases depth, 0int, 0nat,
{
    if depth > 0 {
        if !a.all && visited.contains(package) {
            lemma_truncated(depth, a, package, visited, la);
            lemma_truncated(depth, b, package, visited, lb);
        } else {
            lemma_parts(depth, a, package, visited, la);
            lemma_parts(depth, b, package, visited, lb);
            let under = (depth - 1) as nat;
            let v0 = if a.all {
                visited
            } else {
                visited.insert(package)
            };
            let pa = parts(depth, a, package, visited, la);
            lemma_kind_drawing(
                under,
                a,
                b,
                Kind::Normal,
                children(a.edges, package, a.direction, Kind::Normal),
                v0,
                la,
                lb,
            );
            lemma_kind_drawing(
                under,
                a,
                b,
                Kind::Build,
                children(a.edges, package, a.direction, Kind::Build),
                pa.0.1,
                la,
                lb,
            );
            lemma_kind_drawing(
                under,
                a,
                b,
                Kind::Development,
                children(a.edges, package, a.direction, Kind::Development),
                pa.1.1,
                la,
                lb,
            );
        }
    }
}

proof fn lemma_kind_drawing(
    depth: nat,
    a: Plan,
    b: Plan,
    kind: Kind,
    deps: Seq<usize>,
    visited: Set<usize>,
    la: Seq<bool>,
    lb: Seq<bool>,
)
    requires
        same_but_for_drawing(a, b),
    ensures
        packages_of(kind_lines(depth, a, kind, deps, visited, la).0) == packages_of(
            kind_lines(depth, b, kind, deps, visited, lb).0,
        ),
        kind_lines(depth, a, kind, deps, visited, la).1 == kind_lines(
            depth,
            b,
            kind,
            deps,
            visited,
            lb,
        ).1,
    decreases depth, 2int, 0nat,
{
    lemma_kind_packages(depth, a, kind, deps, visited, la);
    lemma_kind_packages(depth, b, kind, deps, visited, lb);
    lemma_sibling_drawing(depth, a, b, ascending(deps), deps.len(), visited, la, lb);
}

proof fn lemma_sibling_drawing(
    depth: nat,
    a: Plan,
    b: Plan,
    deps: Seq<usize>,
    n: nat,
    visited: Set<usize>,
    la: Seq<bool>,
    lb: Seq<bool>,
)
    requires
        same_but_for_drawing(a, b),
    ensures
        packages_of(sibling_lines(depth, a, deps, n, visited, la).0) == packages_of(
            sibling_lines(depth, b, deps, n, visited, lb).0,
        ),
        sibling_lines(depth, a, deps, n, visited, la).1 == sibling_lines(
            depth,
            b,
            deps,
            n,
            visited,
            lb,
        ).1,
    decreases depth, 1int, n,
{
    if n > 0 {
        lemma_sibling_drawing(depth, a, b, deps, (n - 1) as nat, visited, la, lb);
        lemma_sibling_packages(depth, a, deps, n, visited, la);
        lemma_sibling_packages(depth, b, deps, n, visited, lb);
        let v = sibling_lines(depth, a, deps, (n - 1) as nat, visited, la).1;
        lemma_package_drawing(
            depth,
            a,
            b,
            deps[n - 1],
            v,
            la.push(n < deps.len()),
            lb.push(n < deps.len()),
        );
    }
}

/// Whether a walk down from a package ends at another.
pub open spec fn descends_to(
    edges: Seq<PackageEdge>,
    direction: EdgeDirection,
    from: usize,
    to: usize,
) -> bool {
    exists|walk: Seq<usize>|
        #[trigger] descends(edges, direction, walk) && walk[0] == from && walk.last() == to
}

/// Whether what stands below packages is among them.
pub open spec fn closed_below(
    packages: Seq<usize>,
    edges: Seq<PackageEdge>,
    direction: EdgeDirection,
) -> bool {
    forall|a: usize, b: usize|
        packages.contains(a) && #[trigger] below(edges, direction, a, b) ==> packages.contains(b)
}

proof fn lemma_in_either(a: Seq<usize>, b: Seq<usize>, p: usize)
    ensures
        (a + b).contains(p) <==> a.contains(p) || b.contains(p),
{
    if a.contains(p) {
        assert((a + b)[a.index_of(p)] == p);
    }
    if b.contains(p) {
        assert((a + b)[a.len() + b.index_of(p)] == p);
    }
    if (a + b).contains(p) {
        let i = (a + b).index_of(p);
        if i < a.len() {
            assert(a[i] == p);
        } else {
            assert(b[i - a.len()] == p);
        }
    }
}

/// A package is among those of a package's lines where it is the package, or is
/// among those of a part.
proof fn lemma_in_parts(
    depth: nat,
    plan: Plan,
    package: usize,
    visited: Set<usize>,
    levels: Seq<bool>,
    p: usize,
)
    requires
        depth > 0,
        plan.all || !visited.contains(package),
    ensures
        ({
            let (a, b, c) = parts(depth, plan, package, visited, levels);
            packages_of(package_lines(depth, plan, package, visited, levels).0).contains(p) <==> {
                ||| p == package
                ||| packages_of(a.0).contains(p)
                ||| packages_of(b.0).contains(p)
                ||| packages_of(c.0).contains(p)
            }
        }),
{
    let (a, b, c) = parts(depth, plan, package, visited, levels);
    lemma_parts(depth, plan, package, visited, levels);
    let pa = packages_of(a.0);
    let pb = packages_of(b.0);
    let pc = packages_of(c.0);
    lemma_in_either(seq![package] + pa + pb, pc, p);
    lemma_in_either(seq![package] + pa, pb, p);
    lemma_in_either(seq![package], pa, p);
    assert(seq![package][0] == package);
}

proof fn lemma_step_down(
    edges: Seq<PackageEdge>,
    direction: EdgeDirection,
    a: usize,
    b: usize,
    p: usize,
)
    requires
        below(edges, direction, a, b),
        descends_to(edges, direction, b, p),
    ensures
        descends_to(edges, direction, a, p),
{
    let walk = choose|walk: Seq<usize>|
        #[trigger] descends(edges, direction, walk) && walk[0] == b && walk.last() == p;
    let longer = seq![a] + walk;
    assert forall|i: int| 0 < i < longer.len() implies below(
        edges,
        direction,
        longer[i - 1],
        #[trigger] longer[i],
    ) by {
        if i > 1 {
            assert(below(edges, direction, walk[i - 2], walk[i - 1]));
        }
    }
    assert(descends(edges, direction, longer));
    assert(longer.last() == p);
}

/// What is listed is the end of a walk down.
proof fn lemma_listed_is_below(
    depth: nat,
    plan: Plan,
    package: usize,
    visited: Set<usize>,
    levels: Seq<bool>,
    p: usize,
)
    requires
        packages_of(package_lines(depth, plan, package, visited, levels).0).contains(p),
    ensures
        descends_to(plan.edges, plan.direction, package, p),
    decreases depth, 0int, 0nat,
{
    let walk = seq![package];
    assert(descends(plan.edges, plan.direction, walk) && walk.last() == package);
    if depth == 0 {
        assert(false);
    } else if !plan.all && visited.contains(package) {
        lemma_truncated(depth, plan, package, visited, levels);
    } else {
        lemma_in_parts(depth, plan, package, visited, levels, p);
        let under = (depth - 1) as nat;
        let (a, b, c) = parts(depth, plan, package, visited, levels);
        let v0 = if plan.all {
            visited
        } else {
            visited.insert(package)
        };
        if p != package {
            if packages_of(a.0).contains(p) {
                lemma_kind_listed_is_below(under, plan, package, Kind::Normal, v0, levels, p);
            } else if packages_of(b.0).contains(p) {
                lemma_kind_listed_is_below(under, plan, package, Kind::Build, a.1, levels, p);
            } else {
                lemma_kind_listed_is_below(
                    under,
                    plan,
                    package,
                    Kind::Development,
                    b.1,
                    levels,
                    p,
                );
            }
        }
    }
}

proof fn lemma_kind_listed_is_below(
    depth: nat,
    plan: Plan,
    package: usize,
    kind: Kind,
    visited: Set<usize>,
    levels: Seq<bool>,
    p: usize,
)
    requires
        packages_of(
            kind_lines(
                depth,
                plan,
                kind,
                children(plan.edges, package, plan.direction, kind),
                visited,
                levels,
            ).0,
        ).contains(p),
    ensures
        descends_to(plan.edges, plan.direction, package, p),
    decreases depth, 2int, 0nat,
{
    let given = children(plan.edges, package, plan.direction, kind);
    let deps = ascending(given);
    lemma_kind_packages(depth, plan, kind, given, visited, levels);
    let i = lemma_sibling_listed_is_below(depth, plan, deps, deps.len(), visited, levels, p);
    assert(deps.contains(deps[i]));
    lemma_ascending(given, deps[i]);
    lemma_child_below(plan.edges, package, plan.direction, kind, deps[i]);
    lemma_step_down(plan.edges, plan.direction, package, deps[i], p);
}

proof fn lemma_sibling_listed_is_below(
    depth: nat,
    plan: Plan,
    deps: Seq<usize>,
    n: nat,
    visited: Set<usize>,
    levels: Seq<bool>,
    p: usize,
) -> (i: int)
    requires
        packages_of(sibling_lines(depth, plan, deps, n, visited, levels).0).contains(p),
    ensures
        0 <= i < n,
        descends_to(plan.edges, plan.direction, deps[i], p),
    decreases depth, 1int, n,
{
    if n == 0 {
        assert(false);
        0
    } else {
        lemma_sibling_packages(depth, plan, deps, n, visited, levels);
        let before = sibling_lines(depth, plan, deps, (n - 1) as nat, visited, levels);
        let inner = levels.push(n < deps.len());
        let own = package_lines(depth, plan, deps[n - 1], before.1, inner);
        lemma_in_either(packages_of(before.0), packages_of(own.0), p);
        if packages_of(before.0).contains(p) {
            lemma_sibling_listed_is_below(depth, plan, deps, (n - 1) as nat, visited, levels, p)
        } else {
            lemma_listed_is_below(depth, plan, deps[n - 1], before.1, inner, p);
            n - 1
        }
    }
}

/// Looked into are, in the end, those that were so before, and those listed.
proof fn lemma_visited_or_listed(
    depth: nat,
    plan: Plan,
    package: usize,
    visited: Set<usize>,
    levels: Seq<bool>,
    p: usize,
)
    requires
        !plan.all,
    ensures
        ({
            let r = package_lines(depth, plan, package, visited, levels);
            r.1.contains(p) <==> visited.contains(p) || packages_of(r.0).contains(p)
        }),
    decreases depth, 0int, 0nat,
{
    if depth == 0 {
    } else if visited.contains(package) {
        lemma_truncated(depth, plan, package, visited, levels);
        assert(seq![package][0] == package);
        if seq![package].contains(p) {
            assert(p == package);
        }
    } else {
        lemma_in_parts(depth, plan, package, visited, levels, p);
        let under = (depth - 1) as nat;
        let (a, b, c) = parts(depth, plan, package, visited, levels);
        let v0 = visited.insert(package);
        lemma_kind_visited_or_listed(
            under,
            plan,
            Kind::Normal,
            children(plan.edges, package, plan.direction, Kind::Normal),
            v0,
            levels,
            p,
        );
        lemma_kind_visited_or_listed(
            under,
            plan,
            Kind::Build,
            children(plan.edges, package, plan.direction, Kind::Build),
            a.1,
            levels,
            p,
        );
        lemma_kind_visited_or_listed(
            under,
            plan,
            Kind::Development,
            children(plan.edges, package, plan.direction, Kind::Development),
            b.1,
            levels,
            p,
        );
    }
}

proof fn lemma_kind_visited_or_listed(
    depth: nat,
    plan: Plan,
    kind: Kind,
    deps: Seq<usize>,
    visited: Set<usize>,
    levels: Seq<bool>,
    p: usize,
)
    requires
        !plan.all,
    ensures
        ({
            let r = kind_lines(depth, plan, kind, deps, visited, levels);
            r.1.contains(p) <==> visited.contains(p) || packages_of(r.0).contains(p)
        }),
    decreases depth, 2int, 0nat,
{
    lemma_kind_packages(depth, plan, kind, deps, visited, levels);
    lemma_sibling_visited_or_listed(
        depth,
        plan,
        ascending(deps),
        deps.len(),
        visited,
        levels,
        p,
    );
}

proof fn lemma_sibling_visited_or_listed(
    depth: nat,
    plan: Plan,
    deps: Seq<usize>,
    n: nat,
    visited: Set<usize>,
    levels: Seq<bool>,
    p: usize,
)
    requires
        !plan.all,
    ensures
        ({
            let r = sibling_lines(depth, plan, deps, n, visited, levels);
            r.1.contains(p) <==> visited.contains(p) || packages_of(r.0).contains(p)
        }),
    decreases depth, 1int, n,
{
    if n > 0 {
        lemma_sibling_packages(depth, plan, deps, n, visited, levels);
        let before = sibling_lines(depth, plan, deps, (n - 1) as nat, visited, levels);
        let inner = levels.push(n < deps.len());
        let own = package_lines(depth, plan, deps[n - 1], before.1, inner);
        lemma_in_either(packages_of(before.0), packages_of(own.0), p);
        lemma_sibling_visited_or_listed(depth, plan, deps, (n - 1) as nat, visited, levels, p);
        lemma_visited_or_listed(depth, plan, deps[n - 1], before.1, inner, p);
    }
}

/// Siblings are listed.
proof fn lemma_siblings_are_listed(
    depth: nat,
    plan: Plan,
    deps: Seq<usize>,
    n: nat,
    visited: Set<usize>,
    levels: Seq<bool>,
    i: int,
)
    requires
        depth > 0,
        0 <= i < n,
    ensures
        packages_of(sibling_lines(depth, plan, deps, n, visited, levels).0).contains(deps[i]),
    decreases n,
{
    lemma_sibling_packages(depth, plan, deps, n, visited, levels);
    let before = sibling_lines(depth, plan, deps, (n - 1) as nat, visited, levels);
    let inner = levels.push(n < deps.len());
    let own = package_lines(depth, plan, deps[n - 1], before.1, inner);
    lemma_in_either(packages_of(before.0), packages_of(own.0), deps[i]);
    if i < n - 1 {
        lemma_siblings_are_listed(depth, plan, deps, (n - 1) as nat, visited, levels, i);
    } else if !plan.all && before.1.contains(deps[i]) {
        lemma_truncated(depth, plan, deps[i], before.1, inner);
        assert(seq![deps[i]][0] == deps[i]);
    } else {
        lemma_in_parts(depth, plan, deps[i], before.1, inner, deps[i]);
    }
}

/// Below a package that was looked into on the way, everything is looked into in
/// the end.
#[verifier::rlimit(40)]
proof fn lemma_visited_is_closed(
    depth: nat,
    plan: Plan,
    packages: Seq<usize>,
    package: usize,
    visited: Set<usize>,
    levels: Seq<bool>,
    q: usize,
    r: usize,
)
    requires
        !plan.all,
        closed_below(packages, plan.edges, plan.direction),
        packages.contains(package),
        deep_enough(depth, plan, packages, package, visited),
        package_lines(depth, plan, package, visited, levels).1.contains(q),
        !visited.contains(q),
        below(plan.edges, plan.direction, q, r),
    ensures
        package_lines(depth, plan, package, visited, levels).1.contains(r),
    decreases depth, 0int, 0nat,
{
    if visited.contains(package) {
        lemma_truncated(depth, plan, package, visited, levels);
    } else {
        let under = (depth - 1) as nat;
        let (a, b, c) = parts(depth, plan, package, visited, levels);
        let v0 = visited.insert(package);
        let normal = children(plan.edges, package, plan.direction, Kind::Normal);
        let build = children(plan.edges, package, plan.direction, Kind::Build);
        let development = children(plan.edges, package, plan.direction, Kind::Development);
        lemma_parts(depth, plan, package, visited, levels);
        lemma_kind_visited_or_listed(under, plan, Kind::Normal, normal, v0, levels, r);
        lemma_kind_visited_or_listed(under, plan, Kind::Build, build, a.1, levels, r);
        lemma_kind_visited_or_listed(under, plan, Kind::Development, development, b.1, levels, r);
        if q == package {
            lemma_deep_enough_below(depth, plan, packages, package, visited, r);
            lemma_depth_positive(under, plan, packages, r, v0);
            let links = ends(plan.edges, package, plan.direction);
            let j = choose|j: int| 0 <= j < links.len() && (#[trigger] links[j]).0 == r;
            let kind = links[j].1;
            assert(links.contains((r, kind)));
            lemma_children(plan.edges, package, plan.direction, kind, r);
            let given = children(plan.edges, package, plan.direction, kind);
            let deps = ascending(given);
            lemma_ascending(given, r);
            let i = deps.index_of(r);
            assert(deps[i] == r);
            let before = match kind {
                Kind::Normal => v0,
                Kind::Build => a.1,
                Kind::Development => b.1,
            };
            lemma_siblings_are_listed(under, plan, deps, deps.len(), before, levels, i);
            lemma_kind_packages(under, plan, kind, given, before, levels);
        } else {
            assert forall|kind: Kind, child: usize| #[trigger]
                children(plan.edges, package, plan.direction, kind).contains(
                    child,
                ) implies packages.contains(child) && deep_enough(
                under,
                plan,
                packages,
                child,
                v0,
            ) by {
                lemma_child_below(plan.edges, package, plan.direction, kind, child);
                lemma_deep_enough_below(depth, plan, packages, package, visited, child);
            }
            assert forall|p: usize| a.1.contains(p) == (v0.contains(p) || packages_of(
                a.0,
            ).contains(p)) by {
                lemma_kind_visited_or_listed(under, plan, Kind::Normal, normal, v0, levels, p);
            }
            assert forall|p: usize| b.1.contains(p) == (a.1.contains(p) || packages_of(
                b.0,
            ).contains(p)) by {
                lemma_kind_visited_or_listed(under, plan, Kind::Build, build, a.1, levels, p);
            }
            assert(v0.subset_of(a.1));
            assert(a.1.subset_of(b.1));
            if a.1.contains(q) {
                lemma_kind_visited_is_closed(
                    under,
                    plan,
                    packages,
                    package,
                    Kind::Normal,
                    v0,
                    v0,
                    levels,
                    q,
                    r,
                );
            } else if b.1.contains(q) {
                lemma_kind_visited_is_closed(
                    under,
                    plan,
                    packages,
                    package,
                    Kind::Build,
                    v0,
                    a.1,
                    levels,
                    q,
                    r,
                );
            } else {
                lemma_kind_visited_is_closed(
                    under,
                    plan,
                    packages,
                    package,
                    Kind::Development,
                    v0,
                    b.1,
                    levels,
                    q,
                    r,
                );
            }
        }
    }
}

proof fn lemma_kind_visited_is_closed(
    depth: nat,
    plan: Plan,
    packages: Seq<usize>,
    package: usize,
    kind: Kind,
    start: Set<usize>,
    visited: Set<usize>,
    levels: Seq<bool>,
    q: usize,
    r: usize,
)
    requires
        !plan.all,
        closed_below(packages, plan.edges, plan.direction),
        forall|child: usize| #[trigger]
            children(plan.edges, package, plan.direction, kind).contains(child)
                ==> packages.contains(child) && deep_enough(depth, plan, packages, child, start),
        start.subset_of(visited),
        kind_lines(
            depth,
            plan,
            kind,
            children(plan.edges, package, plan.direction, kind),
            visited,
            levels,
        ).1.contains(q),
        !visited.contains(q),
        below(plan.edges, plan.direction, q, r),
    ensures
        kind_lines(
            depth,
            plan,
            kind,
            children(plan.edges, package, plan.direction, kind),
            visited,
            levels,
        ).1.contains(r),
    decreases depth, 2int, 0nat,
{
    let given = children(plan.edges, package, plan.direction, kind);
    let deps = ascending(given);
    lemma_kind_packages(depth, plan, kind, given, visited, levels);
    assert forall|i: int| 0 <= i < deps.len() implies packages.contains(#[trigger] deps[i])
        && deep_enough(depth, plan, packages, deps[i], visited) by {
        assert(deps.contains(deps[i]));
        lemma_ascending(given, deps[i]);
        lemma_deep_enough_later(depth, plan, packages, deps[i], start, visited);
    }
    lemma_sibling_visited_is_closed(
        depth,
        plan,
        packages,
        deps,
        deps.len(),
        visited,
        levels,
        q,
        r,
    );
}

proof fn lemma_sibling_visited_is_closed(
    depth: nat,
    plan: Plan,
    packages: Seq<usize>,
    deps: Seq<usize>,
    n: nat,
    visited: Set<usize>,
    levels: Seq<bool>,
    q: usize,
    r: usize,
)
    requires
        !plan.all,
        closed_below(packages, plan.edges, plan.direction),
        n <= deps.len(),
        forall|i: int|
            0 <= i < deps.len() ==> packages.contains(#[trigger] deps[i]) && deep_enough(
                depth,
                plan,
                packages,
                deps[i],
                visited,
            ),
        sibling_lines(depth, plan, deps, n, visited, levels).1.contains(q),
        !visited.contains(q),
        below(plan.edges, plan.direction, q, r),
    ensures
        sibling_lines(depth, plan, deps, n, visited, levels).1.contains(r),
    decreases depth, 1int, n,
{
    if n > 0 {
        lemma_sibling_packages(depth, plan, deps, n, visited, levels);
        let before = sibling_lines(depth, plan, deps, (n - 1) as nat, visited, levels);
        let inner = levels.push(n < deps.len());
        if before.1.contains(q) {
            lemma_sibling_visited_is_closed(
                depth,
                plan,
                packages,
                deps,
                (n - 1) as nat,
                visited,
                levels,
                q,
                r,
            );
            lemma_visited_or_listed(depth, plan, deps[n - 1], before.1, inner, r);
        } else {
            assert forall|p: usize| visited.contains(p) implies before.1.contains(p) by {
                lemma_sibling_visited_or_listed(
                    depth,
                    plan,
                    deps,
                    (n - 1) as nat,
                    visited,
                    levels,
                    p,
                );
            }
            lemma_deep_enough_later(depth, plan, packages, deps[n - 1], visited, before.1);
            lemma_visited_is_closed(
                depth,
                plan,
                packages,
                deps[n - 1],
                before.1,
                inner,
                q,
                r,
            );
        }
    }
}

/// Where all is shown, the end of every walk down is listed that is not deeper
/// than the tree is drawn.
proof fn lemma_walk_is_listed(
    depth: nat,
    plan: Plan,
    walk: Seq<usize>,
    visited: Set<usize>,
    levels: Seq<bool>,
)
    requires
        plan.all,
        descends(plan.edges, plan.direction, walk),
        walk.len() <= depth,
    ensures
        packages_of(package_lines(depth, plan, walk[0], visited, levels).0).contains(walk.last()),
    decreases walk.len(), 1int, 0nat,
{
    let package = walk[0];
    lemma_in_parts(depth, plan, package, visited, levels, walk.last());
    if walk.len() > 1 {
        let under = (depth - 1) as nat;
        let (a, b, c) = parts(depth, plan, package, visited, levels);
        let rest = walk.drop_first();
        assert forall|i: int| 0 < i < rest.len() implies below(
            plan.edges,
            plan.direction,
            rest[i - 1],
            #[trigger] rest[i],
        ) by {
            assert(below(plan.edges, plan.direction, walk[i], walk[i + 1]));
        }
        let child = walk[1];
        assert(below(plan.edges, plan.direction, package, child));
        let links = ends(plan.edges, package, plan.direction);
        let j = choose|j: int| 0 <= j < links.len() && (#[trigger] links[j]).0 == child;
        let kind = links[j].1;
        assert(links.contains((child, kind)));
        lemma_children(plan.edges, package, plan.direction, kind, child);
        let given = children(plan.edges, package, plan.direction, kind);
        let deps = ascending(given);
        lemma_ascending(given, child);
        let i = deps.index_of(child);
        assert(deps[i] == child);
        let before = match kind {
            Kind::Normal => visited,
            Kind::Build => a.1,
            Kind::Development => b.1,
        };
        lemma_walk_is_listed_by_siblings(under, plan, deps, deps.len(), before, levels, i, rest);
        lemma_kind_packages(under, plan, kind, given, before, levels);
        assert(rest.last() == walk.last());
    }
}

proof fn lemma_walk_is_listed_by_siblings(
    depth: nat,
    plan: Plan,
    deps: Seq<usize>,
    n: nat,
    visited: Set<usize>,
    levels: Seq<bool>,
    i: int,
    walk: Seq<usize>,
)
    requires
        plan.all,
        descends(plan.edges, plan.direction, walk),
        walk.len() <= depth,
        0 <= i < n,
        deps[i] == walk[0],
    ensures
        packages_of(sibling_lines(depth, plan, deps, n, visited, levels).0).contains(walk.last()),
    decreases walk.len(), 2int, n,
{
    lemma_sibling_packages(depth, plan, deps, n, visited, levels);
    let before = sibling_lines(depth, plan, deps, (n - 1) as nat, visited, levels);
    let inner = levels.push(n < deps.len());
    let own = package_lines(depth, plan, deps[n - 1], before.1, inner);
    lemma_in_either(packages_of(before.0), packages_of(own.0), walk.last());
    if i < n - 1 {
        lemma_walk_is_listed_by_siblings(
            depth,
            plan,
            deps,
            (n - 1) as nat,
            visited,
            levels,
            i,
            walk,
        );
    } else {
        lemma_walk_is_listed(depth, plan, walk, before.1, inner);
    }
}

/// Law: a tree lists a package exactly where a walk leads down to it from the
/// root, whether all is shown or not.
pub proof fn lemma_tree_lists_what_is_below(
    packages: Seq<usize>,
    plan: Plan,
    root: usize,
    p: usize,
)
    requires
        packages.contains(root),
        closed_below(packages, plan.edges, plan.direction),
        plan.all ==> ends_within(plan.edges, plan.direction, root, packages.len()),
    ensures
        packages_of(tree_lines(packages.len(), plan, root)).contains(p) <==> descends_to(
            plan.edges,
            plan.direction,
            root,
            p,
        ),
{
    let depth = packages.len() + 1;
    let none = Set::<usize>::empty();
    let levels = Seq::<bool>::empty();
    if packages_of(tree_lines(packages.len(), plan, root)).contains(p) {
        lemma_listed_is_below(depth, plan, root, none, levels, p);
    }
    if descends_to(plan.edges, plan.direction, root, p) {
        let walk = choose|walk: Seq<usize>|
            #[trigger] descends(plan.edges, plan.direction, walk) && walk[0] == root
                && walk.last() == p;
        if plan.all {
            lemma_walk_is_listed(depth, plan, walk, none, levels);
        } else {
            lemma_all_unvisited(packages);
            lemma_in_parts(depth, plan, root, none, levels, root);
            lemma_visited_or_listed(depth, plan, root, none, levels, root);
            lemma_walk_stays(packages, plan, root, walk);
            lemma_visited_or_listed(depth, plan, root, none, levels, p);
        }
    }
}

proof fn lemma_all_unvisited(packages: Seq<usize>)
    ensures
        unvisited(packages, Set::empty()) <= packages.len(),
{
    let all = packages.to_set();
    assert(all.difference(Set::empty()) =~= all);
    packages.lemma_cardinality_of_set();
}

proof fn lemma_walk_stays(packages: Seq<usize>, plan: Plan, root: usize, walk: Seq<usize>)
    requires
        !plan.all,
        packages.contains(root),
        closed_below(packages, plan.edges, plan.direction),
        descends(plan.edges, plan.direction, walk),
        walk[0] == root,
        package_lines(packages.len() + 1, plan, root, Set::empty(), seq![]).1.contains(root),
    ensures
        package_lines(packages.len() + 1, plan, root, Set::empty(), seq![]).1.contains(
            walk.last(),
        ),
    decreases walk.len(),
{
    if walk.len() > 1 {
        let n = walk.len() - 1;
        lemma_walk_begins(plan.edges, plan.direction, walk, n);
        let part = walk.take(n);
        lemma_walk_stays(packages, plan, root, part);
        assert(below(plan.edges, plan.direction, walk[n - 1], walk[n]));
        lemma_all_unvisited(packages);
        lemma_visited_is_closed(
            packages.len() + 1,
            plan,
            packages,
            root,
            Set::empty(),
            seq![],
            part.last(),
            walk.last(),
        );
    }
}

/// Whether the packages have the same children in two plans, in whatever order.
spec fn same_children(a: Plan, b: Plan) -> bool {
    &&& a.direction == b.direction
    &&& a.all == b.all
    &&& a.drawing == b.drawing
    &&& forall|package: usize, kind: Kind|
        #[trigger] children(a.edges, package, a.direction, kind).to_multiset() == children(
            b.edges,
            package,
            b.direction,
            kind,
        ).to_multiset()
}

proof fn lemma_same_package_lines(
    depth: nat,
    a: Plan,
    b: Plan,
    package: usize,
    visited: Set<usize>,
    levels: Seq<bool>,
)
    requires
        same_children(a, b),
    ensures
        package_lines(depth, a, package, visited, levels) == package_lines(
            depth,
            b,
            package,
            visited,
            levels,
        ),
    decreases depth, 0int, 0nat,
{
    if depth > 0 && (a.all || !visited.contains(package)) {
        let under = (depth - 1) as nat;
        let (x, y, z) = parts(depth, a, package, visited, levels);
        let v0 = if a.all {
            visited
        } else {
            visited.insert(package)
        };
        let in_a = |kind: Kind| children(a.edges, package, a.direction, kind);
        let in_b = |kind: Kind| children(b.edges, package, b.direction, kind);
        assert forall|kind: Kind| #[trigger] in_a(kind).to_multiset() == in_b(
            kind,
        ).to_multiset() by {
            assert(children(a.edges, package, a.direction, kind).to_multiset() == children(
                b.edges,
                package,
                b.direction,
                kind,
            ).to_multiset());
        }
        lemma_same_kind_lines(
            under,
            a,
            b,
            Kind::Normal,
            in_a(Kind::Normal),
            in_b(Kind::Normal),
            v0,
            levels,
        );
        lemma_same_kind_lines(
            under,
            a,
            b,
            Kind::Build,
            in_a(Kind::Build),
            in_b(Kind::Build),
            x.1,
            levels,
        );
        lemma_same_kind_lines(
            under,
            a,
            b,
            Kind::Development,
            in_a(Kind::Development),
            in_b(Kind::Development),
            y.1,
            levels,
        );
    }
}

proof fn lemma_same_kind_lines(
    depth: nat,
    a: Plan,
    b: Plan,
    kind: Kind,
    deps: Seq<usize>,
    other: Seq<usize>,
    visited: Set<usize>,
    levels: Seq<bool>,
)
    requires
        same_children(a, b),
        deps.to_multiset() == other.to_multiset(),
    ensures
        kind_lines(depth, a, kind, deps, visited, levels) == kind_lines(
            depth,
            b,
            kind,
            other,
            visited,
            levels,
        ),
    decreases depth, 2int, 0nat,
{
    lemma_same_when_sorted(deps, other);
    lemma_same_sibling_lines(depth, a, b, ascending(deps), deps.len(), visited, levels);
}

/// Numbers that are the same but for their order are the same when sorted.
proof fn lemma_same_when_sorted(a: Seq<usize>, b: Seq<usize>)
    requires
        a.to_multiset() == b.to_multiset(),
    ensures
        ascending(a) == ascending(b),
        a.len() == b.len(),
{
    broadcast use vstd::seq_lib::group_to_multiset_ensures;

    lemma_ascending_sorts(a);
    lemma_ascending_sorts(b);
    assert(a.len() == a.to_multiset().len());
    let leq = |x: usize, y: usize| x <= y;
    assert(vstd::relations::sorted_by(ascending(a), leq));
    assert(vstd::relations::sorted_by(ascending(b), leq));
    vstd::seq_lib::lemma_sorted_unique(ascending(a), ascending(b), leq);
}

proof fn lemma_same_sibling_lines(
    depth: nat,
    a: Plan,
    b: Plan,
    deps: Seq<usize>,
    n: nat,
    visited: Set<usize>,
    levels: Seq<bool>,
)
    requires
        same_children(a, b),
    ensures
        sibling_lines(depth, a, deps, n, visited, levels) == sibling_lines(
            depth,
            b,
            deps,
            n,
            visited,
            levels,
        ),
    decreases depth, 1int, n,
{
    if n > 0 {
        lemma_same_sibling_lines(depth, a, b, deps, (n - 1) as nat, visited, levels);
        let v = sibling_lines(depth, a, deps, (n - 1) as nat, visited, levels).1;
        lemma_same_package_lines(
            depth,
            a,
            b,
            deps[n - 1],
            v,
            levels.push(n < deps.len()),
        );
    }
}

/// Law: a package is a child of another for a purpose as often as there is an edge
/// that says so.
pub proof fn lemma_child_count(
    edges: Seq<PackageEdge>,
    package: usize,
    direction: EdgeDirection,
    kind: Kind,
    child: usize,
)
    ensures
        children(edges, package, direction, kind).to_multiset().count(child)
            == edges.to_multiset().count(
            match direction {
                EdgeDirection::Outgoing => (package, child, kind),
                EdgeDirection::Incoming => (child, package, kind),
            },
        ),
    decreases edges.len(),
{
    broadcast use {
        vstd::seq_lib::group_to_multiset_ensures,
        vstd::multiset::group_multiset_axioms,
    };

    let links = ends(edges, package, direction);
    if edges.len() == 0 {
        assert(of_kind(links, kind).to_multiset() =~= vstd::multiset::Multiset::empty());
        assert(edges.to_multiset() =~= vstd::multiset::Multiset::empty());
    } else {
        let rest = edges.drop_last();
        let rest_links = ends(rest, package, direction);
        lemma_child_count(rest, package, direction, kind, child);
        assert(edges =~= rest.push(edges.last()));
        if links.len() > rest_links.len() {
            assert(links.drop_last() =~= rest_links);
        }
    }
}

/// Whether numbers stand in ascending order.
pub open spec fn rising(s: Seq<usize>) -> bool {
    forall|i: int, j: int| 0 <= i < j < s.len() ==> #[trigger] s[i] <= #[trigger] s[j]
}

/// Sorting keeps how often each number occurs, and puts the numbers in order.
proof fn lemma_ascending_sorts(s: Seq<usize>)
    ensures
        ascending(s).to_multiset() == s.to_multiset(),
        rising(ascending(s)),
    decreases s.len(),
{
    broadcast use {
        vstd::seq_lib::group_to_multiset_ensures,
        vstd::multiset::group_multiset_axioms,
    };

    if s.len() > 0 {
        lemma_ascending_sorts(s.drop_last());
        lemma_placed_sorts(ascending(s.drop_last()), s.last());
        assert(s =~= s.drop_last().push(s.last()));
    }
}

proof fn lemma_placed_sorts(s: Seq<usize>, x: usize)
    requires
        rising(s),
    ensures
        placed(s, x).to_multiset() == s.to_multiset().insert(x),
        rising(placed(s, x)),
        placed(s, x).len() == s.len() + 1,
        placed(s, x).last() == (if s.len() == 0 || s.last() <= x {
            x
        } else {
            s.last()
        }),
    decreases s.len(),
{
    broadcast use {
        vstd::seq_lib::group_to_multiset_ensures,
        vstd::multiset::group_multiset_axioms,
    };

    if s.len() == 0 || s.last() <= x {
    } else {
        let rest = s.drop_last();
        lemma_placed_sorts(rest, x);
        let q = placed(rest, x);
        assert(s =~= rest.push(s.last()));
        assert(placed(s, x).to_multiset() =~= s.to_multiset().insert(x));
        if rest.len() > 0 {
            assert(s[rest.len() - 1] <= s[rest.len() as int]);
        }
        let r = placed(s, x);
        assert forall|i: int, j: int| 0 <= i < j < r.len() implies #[trigger] r[i]
            <= #[trigger] r[j] by {
            if j == q.len() {
                assert(i == q.len() - 1 || q[i] <= q[q.len() - 1]);
            } else {
                assert(q[i] <= q[j]);
            }
        }
    }
}

/// Law: in which order the edges were added to the graph does not show in the
/// tree.
pub proof fn lemma_order_of_edges_does_not_matter(n: nat, a: Plan, b: Plan, root: usize)
    requires
        a.edges.to_multiset() == b.edges.to_multiset(),
        a.direction == b.direction,
        a.all == b.all,
        a.drawing == b.drawing,
    ensures
        tree_lines(n, a, root) == tree_lines(n, b, root),
{
    assert forall|package: usize, kind: Kind|
        #[trigger] children(a.edges, package, a.direction, kind).to_multiset() == children(
            b.edges,
            package,
            b.direction,
            kind,
        ).to_multiset() by {
        let x = children(a.edges, package, a.direction, kind);
        let y = children(b.edges, package, b.direction, kind);
        assert forall|child: usize| x.to_multiset().count(child) == y.to_multiset().count(
            child,
        ) by {
            lemma_child_count(a.edges, package, a.direction, kind, child);
            lemma_child_count(b.edges, package, b.direction, kind, child);
        }
        assert(x.to_multiset() =~= y.to_multiset());
    }
    lemma_same_package_lines(n + 1, a, b, root, Set::empty(), seq![]);
}

/// Law: in which order the dependencies of a kind are given does not show: the
/// lines are the same, and so are the packages looked into and the numbers of scans.
pub proof fn lemma_order_of_deps_does_not_matter(
    depth: nat,
    plan: Plan,
    kind: Kind,
    a: Seq<usize>,
    b: Seq<usize>,
    visited: Set<usize>,
    levels: Seq<bool>,
    files: spec_fn(usize) -> Seq<Source>,
    build: Map<Seq<PartView>, u32>,
)
    requires
        a.to_multiset() == b.to_multiset(),
    ensures
        ({
            let x = kind_lines(depth, plan, kind, a, visited, levels);
            let y = kind_lines(depth, plan, kind, b, visited, levels);
            &&& x == y
            &&& scans_after_rows(packages_of(x.0), files, build) == scans_after_rows(
                packages_of(y.0),
                files,
                build,
            )
        }),
{
    lemma_same_when_sorted(a, b);
}

/// What stands before a dependency that is not the last of its kind, or that is,
/// in a tree with branches.
pub open spec fn branch(levels: Seq<bool>, last: bool, symbols: SymbolsView) -> Seq<char> {
    bars(levels, symbols) + (if last {
        symbols.ell
    } else {
        symbols.tee
    }) + symbols.right + symbols.right + blank(1)
}

/// Whether lines fall into parts, one behind the other, each of which goes from its
/// first line up to its second.
pub open spec fn in_parts(lines: int, first: int, at: Seq<(int, int)>) -> bool {
    &&& at.len() > 0 ==> at[0].0 == first && at.last().1 == lines
    &&& forall|i: int|
        0 <= i < at.len() ==> first <= (#[trigger] at[i]).0 && at[i].0 < at[i].1 && at[i].1 <= lines
    &&& forall|i: int, j: int|
        0 <= i < at.len() && j == i + 1 && j < at.len() ==> (#[trigger] at[i]).1 == (
        #[trigger] at[j]).0
}

/// Law: behind the heading, the lines of the dependencies of a kind fall into one
/// part for each dependency, in the order of packages. A part is what is drawn for
/// the dependency and below it, and begins with its row. In a tree with branches,
/// only the last of these rows has the branch that ends.
#[verifier::rlimit(40)]
#[verifier::spinoff_prover]
pub proof fn lemma_rows_of_a_kind(
    depth: nat,
    plan: Plan,
    kind: Kind,
    deps: Seq<usize>,
    visited: Set<usize>,
    levels: Seq<bool>,
) -> (at: Seq<(int, int)>)
    requires
        depth > 0,
    ensures
        ({
            let lines = kind_lines(depth, plan, kind, deps, visited, levels).0;
            let order = ascending(deps);
            &&& at.len() == deps.len()
            &&& deps.len() > 0 ==> in_parts(
                lines.len() as int,
                heading_lines(kind, levels, plan.drawing).len() as int,
                at,
            )
            &&& rising(order)
            &&& order.to_multiset() == deps.to_multiset()
            &&& forall|i: int|
                0 <= i < at.len() ==> {
                    &&& lines.subrange((#[trigger] at[i]).0, at[i].1) == package_lines(
                        depth,
                        plan,
                        order[i],
                        sibling_lines(depth, plan, order, i as nat, visited, levels).1,
                        levels.push(i + 1 < deps.len()),
                    ).0
                    &&& lines[at[i].0] == LineView::Package(
                        order[i],
                        vines(levels.push(i + 1 < deps.len()), plan.drawing),
                    )
                    &&& plan.drawing.prefix == Prefix::Indent ==> vines(
                        levels.push(i + 1 < deps.len()),
                        plan.drawing,
                    ) == branch(levels, i + 1 == deps.len(), plan.drawing.symbols)
                }
        }),
{
    let order = ascending(deps);
    let heading = heading_lines(kind, levels, plan.drawing);
    let lines = kind_lines(depth, plan, kind, deps, visited, levels).0;
    lemma_ascending_sorts(deps);
    lemma_ascending(deps, 0);
    let rows = lemma_rows_of_siblings(depth, plan, order, deps.len(), visited, levels);
    let h = heading.len() as int;
    let at = rows.map_values(|p: (int, int)| (p.0 + h, p.1 + h));
    let siblings = sibling_lines(depth, plan, order, deps.len(), visited, levels).0;
    assert(levels.push(true).drop_last() =~= levels);
    assert(levels.push(false).drop_last() =~= levels);
    if deps.len() > 0 {
        assert(lines == heading + siblings);
        assert(at.last() == at[at.len() - 1]);
        assert forall|i: int, j: int|
            0 <= i < at.len() && j == i + 1 && j < at.len() implies (#[trigger] at[i]).1 == (
        #[trigger] at[j]).0 by {
            assert(rows[i].1 == rows[j].0);
        }
        assert forall|i: int| 0 <= i < at.len() implies lines.subrange(
            (#[trigger] at[i]).0,
            at[i].1,
        ) == package_lines(
            depth,
            plan,
            order[i],
            sibling_lines(depth, plan, order, i as nat, visited, levels).1,
            levels.push(i + 1 < deps.len()),
        ).0 && lines[at[i].0] == LineView::Package(
            order[i],
            vines(levels.push(i + 1 < deps.len()), plan.drawing),
        ) by {
            let v = sibling_lines(depth, plan, order, i as nat, visited, levels).1;
            let inner = levels.push(i + 1 < deps.len());
            let part = package_lines(depth, plan, order[i], v, inner).0;
            assert(siblings.subrange(rows[i].0, rows[i].1) == part);
            assert(lines.subrange(at[i].0, at[i].1) =~= part);
            lemma_own_row_first(depth, plan, order[i], v, inner);
            assert(part[0] == lines[at[i].0]);
        }
    }
    at
}

/// The lines of a package begin with its own.
proof fn lemma_own_row_first(
    depth: nat,
    plan: Plan,
    package: usize,
    visited: Set<usize>,
    levels: Seq<bool>,
)
    requires
        depth > 0,
    ensures
        package_lines(depth, plan, package, visited, levels).0.len() > 0,
        package_lines(depth, plan, package, visited, levels).0[0] == LineView::Package(
            package,
            vines(levels, plan.drawing),
        ),
{
}

proof fn lemma_rows_of_siblings(
    depth: nat,
    plan: Plan,
    deps: Seq<usize>,
    n: nat,
    visited: Set<usize>,
    levels: Seq<bool>,
) -> (at: Seq<(int, int)>)
    requires
        depth > 0,
    ensures
        at.len() == n,
        in_parts(sibling_lines(depth, plan, deps, n, visited, levels).0.len() as int, 0, at),
        n == 0 ==> sibling_lines(depth, plan, deps, n, visited, levels).0.len() == 0,
        forall|i: int|
            0 <= i < n ==> sibling_lines(depth, plan, deps, n, visited, levels).0.subrange(
                (#[trigger] at[i]).0,
                at[i].1,
            ) == package_lines(
                depth,
                plan,
                deps[i],
                sibling_lines(depth, plan, deps, i as nat, visited, levels).1,
                levels.push(i + 1 < deps.len()),
            ).0,
    decreases n,
{
    let all = sibling_lines(depth, plan, deps, n, visited, levels).0;
    if n == 0 {
        seq![]
    } else {
        let before = lemma_rows_of_siblings(
            depth,
            plan,
            deps,
            (n - 1) as nat,
            visited,
            levels,
        );
        let (lines, v) = sibling_lines(depth, plan, deps, (n - 1) as nat, visited, levels);
        let own = package_lines(depth, plan, deps[n - 1], v, levels.push(n < deps.len())).0;
        lemma_own_row_first(depth, plan, deps[n - 1], v, levels.push(n < deps.len()));
        assert(all == lines + own);
        let at = before.push((lines.len() as int, all.len() as int));
        assert forall|i: int, j: int|
            0 <= i < at.len() && j == i + 1 && j < at.len() implies (#[trigger] at[i]).1 == (
        #[trigger] at[j]).0 by {
            if j == n - 1 {
                assert(before.last() == before[i]);
            } else {
                assert(before[i].1 == before[j].0);
            }
        }
        assert forall|i: int| 0 <= i < n implies all.subrange((#[trigger] at[i]).0, at[i].1)
            == package_lines(
            depth,
            plan,
            deps[i],
            sibling_lines(depth, plan, deps, i as nat, visited, levels).1,
            levels.push(i + 1 < deps.len()),
        ).0 by {
            if i < n - 1 {
                assert(at[i] == before[i]);
                assert(all.subrange(at[i].0, at[i].1) =~= lines.subrange(
                    before[i].0,
                    before[i].1,
                ));
            } else {
                assert(all.subrange(at[i].0, at[i].1) =~= own);
            }
        }
        at
    }
}

/// How many edges have one of the first `n` packages at their near end, of those
/// that are in the set.
pub open spec fn degrees(plan: Plan, packages: Seq<usize>, s: Set<usize>, n: nat) -> nat
    decreases n,
{
    if n == 0 {
        0
    } else {
        degrees(plan, packages, s, (n - 1) as nat) + if s.contains(packages[n - 1]) {
            ends(plan.edges, packages[n - 1], plan.direction).len()
        } else {
            0
        }
    }
}

proof fn lemma_degrees_one_more(
    plan: Plan,
    packages: Seq<usize>,
    s: Set<usize>,
    package: usize,
    n: nat,
)
    requires
        packages.no_duplicates(),
        n <= packages.len(),
        !s.contains(package),
    ensures
        degrees(plan, packages, s.insert(package), n) == degrees(plan, packages, s, n)
            + if packages.take(n as int).contains(package) {
            ends(plan.edges, package, plan.direction).len()
        } else {
            0
        },
    decreases n,
{
    let part = packages.take(n as int);
    if n > 0 {
        lemma_degrees_one_more(plan, packages, s, package, (n - 1) as nat);
        let rest = packages.take(n - 1);
        if packages[n - 1] == package {
            assert(part[n - 1] == package);
            if rest.contains(package) {
                let i = rest.index_of(package);
                assert(packages[i] == packages[n - 1]);
            }
        } else {
            if rest.contains(package) {
                assert(part[rest.index_of(package)] == package);
            }
            if part.contains(package) {
                assert(rest[part.index_of(package)] == package);
            }
        }
    }
}

proof fn lemma_kinds_are_all(links: Seq<Link>)
    ensures
        of_kind(links, Kind::Normal).len() + of_kind(links, Kind::Build).len() + of_kind(
            links,
            Kind::Development,
        ).len() == links.len(),
    decreases links.len(),
{
    if links.len() > 0 {
        lemma_kinds_are_all(links.drop_last());
    }
}

/// A package and what is looked into below it take one line, and one for each
/// edge from a package that is looked into.
#[verifier::rlimit(40)]
proof fn lemma_package_line_count(
    depth: nat,
    plan: Plan,
    packages: Seq<usize>,
    package: usize,
    visited: Set<usize>,
    levels: Seq<bool>,
)
    requires
        !plan.all,
        packages.no_duplicates(),
        closed_below(packages, plan.edges, plan.direction),
        packages.contains(package),
        deep_enough(depth, plan, packages, package, visited),
    ensures
        ({
            let r = package_lines(depth, plan, package, visited, levels);
            packages_of(r.0).len() + degrees(plan, packages, visited, packages.len()) == 1
                + degrees(plan, packages, r.1, packages.len())
        }),
    decreases depth, 0int, 0nat,
{
    if visited.contains(package) {
        lemma_truncated(depth, plan, package, visited, levels);
    } else {
        let under = (depth - 1) as nat;
        let (a, b, c) = parts(depth, plan, package, visited, levels);
        let v0 = visited.insert(package);
        let links = ends(plan.edges, package, plan.direction);
        lemma_parts(depth, plan, package, visited, levels);
        lemma_degrees_one_more(plan, packages, visited, package, packages.len());
        assert(packages.take(packages.len() as int) =~= packages);
        lemma_kinds_are_all(links);
        assert forall|kind: Kind, child: usize| #[trigger]
            children(plan.edges, package, plan.direction, kind).contains(
                child,
            ) implies packages.contains(child) && deep_enough(
            under,
            plan,
            packages,
            child,
            v0,
        ) by {
            lemma_child_below(plan.edges, package, plan.direction, kind, child);
            lemma_deep_enough_below(depth, plan, packages, package, visited, child);
        }
        assert forall|p: usize| v0.contains(p) implies a.1.contains(p) by {
            lemma_kind_visited_or_listed(
                under,
                plan,
                Kind::Normal,
                children(plan.edges, package, plan.direction, Kind::Normal),
                v0,
                levels,
                p,
            );
        }
        assert forall|p: usize| a.1.contains(p) implies b.1.contains(p) by {
            lemma_kind_visited_or_listed(
                under,
                plan,
                Kind::Build,
                children(plan.edges, package, plan.direction, Kind::Build),
                a.1,
                levels,
                p,
            );
        }
        lemma_kind_line_count(under, plan, packages, package, Kind::Normal, v0, v0, levels);
        lemma_kind_line_count(under, plan, packages, package, Kind::Build, v0, a.1, levels);
        lemma_kind_line_count(under, plan, packages, package, Kind::Development, v0, b.1, levels);
    }
}

proof fn lemma_kind_line_count(
    depth: nat,
    plan: Plan,
    packages: Seq<usize>,
    package: usize,
    kind: Kind,
    start: Set<usize>,
    visited: Set<usize>,
    levels: Seq<bool>,
)
    requires
        !plan.all,
        packages.no_duplicates(),
        closed_below(packages, plan.edges, plan.direction),
        forall|child: usize| #[trigger]
            children(plan.edges, package, plan.direction, kind).contains(child)
                ==> packages.contains(child) && deep_enough(depth, plan, packages, child, start),
        start.subset_of(visited),
    ensures
        ({
            let deps = children(plan.edges, package, plan.direction, kind);
            let r = kind_lines(depth, plan, kind, deps, visited, levels);
            packages_of(r.0).len() + degrees(plan, packages, visited, packages.len())
                == deps.len() + degrees(plan, packages, r.1, packages.len())
        }),
    decreases depth, 2int, 0nat,
{
    let given = children(plan.edges, package, plan.direction, kind);
    let deps = ascending(given);
    lemma_kind_packages(depth, plan, kind, given, visited, levels);
    assert forall|i: int| 0 <= i < deps.len() implies packages.contains(#[trigger] deps[i])
        && deep_enough(depth, plan, packages, deps[i], visited) by {
        assert(deps.contains(deps[i]));
        lemma_ascending(given, deps[i]);
        lemma_deep_enough_later(depth, plan, packages, deps[i], start, visited);
    }
    lemma_sibling_line_count(depth, plan, packages, deps, deps.len(), visited, levels);
}

proof fn lemma_sibling_line_count(
    depth: nat,
    plan: Plan,
    packages: Seq<usize>,
    deps: Seq<usize>,
    n: nat,
    visited: Set<usize>,
    levels: Seq<bool>,
)
    requires
        !plan.all,
        packages.no_duplicates(),
        closed_below(packages, plan.edges, plan.direction),
        n <= deps.len(),
        forall|i: int|
            0 <= i < deps.len() ==> packages.contains(#[trigger] deps[i]) && deep_enough(
                depth,
                plan,
                packages,
                deps[i],
                visited,
            ),
    ensures
        ({
            let r = sibling_lines(depth, plan, deps, n, visited, levels);
            packages_of(r.0).len() + degrees(plan, packages, visited, packages.len()) == n
                + degrees(plan, packages, r.1, packages.len())
        }),
    decreases depth, 1int, n,
{
    if n > 0 {
        lemma_sibling_packages(depth, plan, deps, n, visited, levels);
        lemma_sibling_line_count(
            depth,
            plan,
            packages,
            deps,
            (n - 1) as nat,
            visited,
            levels,
        );
        let before = sibling_lines(depth, plan, deps, (n - 1) as nat, visited, levels);
        assert forall|p: usize| visited.contains(p) implies before.1.contains(p) by {
            lemma_sibling_visited_or_listed(
                depth,
                plan,
                deps,
                (n - 1) as nat,
                visited,
                levels,
                p,
            );
        }
        lemma_deep_enough_later(depth, plan, packages, deps[n - 1], visited, before.1);
        lemma_package_line_count(
            depth,
            plan,
            packages,
            deps[n - 1],
            before.1,
            levels.push(n < deps.len()),
        );
    }
}

/// The packages that a walk leads down to.
pub open spec fn all_below(edges: Seq<PackageEdge>, direction: EdgeDirection, root: usize) -> Set<
    usize,
> {
    Set::new(|p: usize| descends_to(edges, direction, root, p))
}

/// Law: where packages are not looked into again, the tree has a line for the
/// root, and one for each edge from a package in it; so nothing is displayed
/// below a package twice.
pub proof fn lemma_one_line_for_each_edge(packages: Seq<usize>, plan: Plan, root: usize)
    requires
        !plan.all,
        packages.no_duplicates(),
        packages.contains(root),
        closed_below(packages, plan.edges, plan.direction),
    ensures
        packages_of(tree_lines(packages.len(), plan, root)).len() == 1 + degrees(
            plan,
            packages,
            all_below(plan.edges, plan.direction, root),
            packages.len(),
        ),
{
    let none = Set::<usize>::empty();
    let levels = Seq::<bool>::empty();
    let r = package_lines(packages.len() + 1, plan, root, none, levels);
    lemma_all_unvisited(packages);
    lemma_package_line_count(packages.len() + 1, plan, packages, root, none, levels);
    lemma_degrees_none(plan, packages, packages.len());
    assert forall|p: usize| r.1.contains(p) == all_below(
        plan.edges,
        plan.direction,
        root,
    ).contains(p) by {
        lemma_visited_or_listed(packages.len() + 1, plan, root, none, levels, p);
        lemma_tree_lists_what_is_below(packages, plan, root, p);
    }
    assert(r.1 =~= all_below(plan.edges, plan.direction, root));
}

proof fn lemma_degrees_none(plan: Plan, packages: Seq<usize>, n: nat)
    ensures
        degrees(plan, packages, Set::empty(), n) == 0,
    decreases n,
{
    if n > 0 {
        lemma_degrees_none(plan, packages, (n - 1) as nat);
    }
}

/// Law: headings are for trees with branches only.
pub proof fn lemma_headings_with_branches_only(n: nat, plan: Plan, root: usize)
    requires
        plan.drawing.prefix != Prefix::Indent,
    ensures
        forall|i: int|
            0 <= i < tree_lines(n, plan, root).len() ==> (#[trigger] tree_lines(
                n,
                plan,
                root,
            )[i]) is Package,
{
    lemma_package_without_heading(n + 1, plan, root, Set::empty(), seq![]);
}

proof fn lemma_package_without_heading(
    depth: nat,
    plan: Plan,
    package: usize,
    visited: Set<usize>,
    levels: Seq<bool>,
)
    requires
        plan.drawing.prefix != Prefix::Indent,
    ensures
        forall|i: int|
            0 <= i < package_lines(depth, plan, package, visited, levels).0.len() ==> (
            #[trigger] package_lines(depth, plan, package, visited, levels).0[i]) is Package,
    decreases depth, 0int, 0nat,
{
    if depth > 0 && (plan.all || !visited.contains(package)) {
        let under = (depth - 1) as nat;
        let (a, b, c) = parts(depth, plan, package, visited, levels);
        let v0 = if plan.all {
            visited
        } else {
            visited.insert(package)
        };
        lemma_kind_without_heading(
            under,
            plan,
            Kind::Normal,
            children(plan.edges, package, plan.direction, Kind::Normal),
            v0,
            levels,
        );
        lemma_kind_without_heading(
            under,
            plan,
            Kind::Build,
            children(plan.edges, package, plan.direction, Kind::Build),
            a.1,
            levels,
        );
        lemma_kind_without_heading(
            under,
            plan,
            Kind::Development,
            children(plan.edges, package, plan.direction, Kind::Development),
            b.1,
            levels,
        );
    }
}

proof fn lemma_kind_without_heading(
    depth: nat,
    plan: Plan,
    kind: Kind,
    deps: Seq<usize>,
    visited: Set<usize>,
    levels: Seq<bool>,
)
    requires
        plan.drawing.prefix != Prefix::Indent,
    ensures
        forall|i: int|
            0 <= i < kind_lines(depth, plan, kind, deps, visited, levels).0.len() ==> (
            #[trigger] kind_lines(depth, plan, kind, deps, visited, levels).0[i]) is Package,
    decreases depth, 2int, 0nat,
{
    lemma_sibling_without_heading(depth, plan, ascending(deps), deps.len(), visited, levels);
    let lines = sibling_lines(depth, plan, ascending(deps), deps.len(), visited, levels).0;
    assert(heading_lines(kind, levels, plan.drawing) + lines =~= lines);
}

proof fn lemma_sibling_without_heading(
    depth: nat,
    plan: Plan,
    deps: Seq<usize>,
    n: nat,
    visited: Set<usize>,
    levels: Seq<bool>,
)
    requires
        plan.drawing.prefix != Prefix::Indent,
    ensures
        forall|i: int|
            0 <= i < sibling_lines(depth, plan, deps, n, visited, levels).0.len() ==> (
            #[trigger] sibling_lines(depth, plan, deps, n, visited, levels).0[i]) is Package,
    decreases depth, 1int, n,
{
    if n > 0 {
        lemma_sibling_without_heading(depth, plan, deps, (n - 1) as nat, visited, levels);
        let before = sibling_lines(depth, plan, deps, (n - 1) as nat, visited, levels);
        lemma_package_without_heading(
            depth,
            plan,
            deps[n - 1],
            before.1,
            levels.push(n < deps.len()),
        );
    }
}

/// Two depths give the same lines where the tree is over before either.
#[verifier::rlimit(40)]
proof fn lemma_package_depth(
    d: nat,
    e: nat,
    plan: Plan,
    packages: Seq<usize>,
    package: usize,
    visited: Set<usize>,
    levels: Seq<bool>,
)
    requires
        closed_below(packages, plan.edges, plan.direction),
        packages.contains(package),
        deep_enough(d, plan, packages, package, visited),
        deep_enough(e, plan, packages, package, visited),
    ensures
        package_lines(d, plan, package, visited, levels) == package_lines(
            e,
            plan,
            package,
            visited,
            levels,
        ),
    decreases d, 0int, 0nat,
{
    lemma_depth_positive(d, plan, packages, package, visited);
    lemma_depth_positive(e, plan, packages, package, visited);
    if plan.all || !visited.contains(package) {
        let under_d = (d - 1) as nat;
        let under_e = (e - 1) as nat;
        let (a, b, c) = parts(d, plan, package, visited, levels);
        let v0 = if plan.all {
            visited
        } else {
            visited.insert(package)
        };
        assert forall|kind: Kind, child: usize| #[trigger]
            children(plan.edges, package, plan.direction, kind).contains(
                child,
            ) implies packages.contains(child) && deep_enough(
            under_d,
            plan,
            packages,
            child,
            v0,
        ) && deep_enough(under_e, plan, packages, child, v0) by {
            lemma_child_below(plan.edges, package, plan.direction, kind, child);
            lemma_deep_enough_below(d, plan, packages, package, visited, child);
            lemma_deep_enough_below(e, plan, packages, package, visited, child);
        }
        if !plan.all {
            assert forall|p: usize| v0.contains(p) implies a.1.contains(p) by {
                lemma_kind_visited_or_listed(
                    under_d,
                    plan,
                    Kind::Normal,
                    children(plan.edges, package, plan.direction, Kind::Normal),
                    v0,
                    levels,
                    p,
                );
            }
            assert forall|p: usize| a.1.contains(p) implies b.1.contains(p) by {
                lemma_kind_visited_or_listed(
                    under_d,
                    plan,
                    Kind::Build,
                    children(plan.edges, package, plan.direction, Kind::Build),
                    a.1,
                    levels,
                    p,
                );
            }
        }
        lemma_kind_depth(under_d, under_e, plan, packages, package, Kind::Normal, v0, v0, levels);
        lemma_kind_depth(under_d, under_e, plan, packages, package, Kind::Build, v0, a.1, levels);
        lemma_kind_depth(
            under_d,
            under_e,
            plan,
            packages,
            package,
            Kind::Development,
            v0,
            b.1,
            levels,
        );
    }
}

proof fn lemma_kind_depth(
    d: nat,
    e: nat,
    plan: Plan,
    packages: Seq<usize>,
    package: usize,
    kind: Kind,
    start: Set<usize>,
    visited: Set<usize>,
    levels: Seq<bool>,
)
    requires
        closed_below(packages, plan.edges, plan.direction),
        forall|child: usize| #[trigger]
            children(plan.edges, package, plan.direction, kind).contains(child)
                ==> packages.contains(child) && deep_enough(d, plan, packages, child, start)
                && deep_enough(e, plan, packages, child, start),
        plan.all || start.subset_of(visited),
    ensures
        kind_lines(
            d,
            plan,
            kind,
            children(plan.edges, package, plan.direction, kind),
            visited,
            levels,
        ) == kind_lines(
            e,
            plan,
            kind,
            children(plan.edges, package, plan.direction, kind),
            visited,
            levels,
        ),
    decreases d, 2int, 0nat,
{
    let given = children(plan.edges, package, plan.direction, kind);
    let deps = ascending(given);
    lemma_ascending(given, 0);
    assert forall|i: int| 0 <= i < deps.len() implies packages.contains(#[trigger] deps[i])
        && deep_enough(d, plan, packages, deps[i], visited) && deep_enough(
        e,
        plan,
        packages,
        deps[i],
        visited,
    ) by {
        assert(deps.contains(deps[i]));
        lemma_ascending(given, deps[i]);
        if !plan.all {
            lemma_deep_enough_later(d, plan, packages, deps[i], start, visited);
            lemma_deep_enough_later(e, plan, packages, deps[i], start, visited);
        }
    }
    lemma_sibling_depth(d, e, plan, packages, deps, deps.len(), visited, levels);
}

proof fn lemma_sibling_depth(
    d: nat,
    e: nat,
    plan: Plan,
    packages: Seq<usize>,
    deps: Seq<usize>,
    n: nat,
    visited: Set<usize>,
    levels: Seq<bool>,
)
    requires
        closed_below(packages, plan.edges, plan.direction),
        n <= deps.len(),
        forall|i: int|
            0 <= i < deps.len() ==> packages.contains(#[trigger] deps[i]) && deep_enough(
                d,
                plan,
                packages,
                deps[i],
                visited,
            ) && deep_enough(e, plan, packages, deps[i], visited),
    ensures
        sibling_lines(d, plan, deps, n, visited, levels) == sibling_lines(
            e,
            plan,
            deps,
            n,
            visited,
            levels,
        ),
    decreases d, 1int, n,
{
    if n > 0 {
        lemma_sibling_depth(d, e, plan, packages, deps, (n - 1) as nat, visited, levels);
        let before = sibling_lines(d, plan, deps, (n - 1) as nat, visited, levels);
        if !plan.all {
            assert forall|p: usize| visited.contains(p) implies before.1.contains(p) by {
                lemma_sibling_visited_or_listed(
                    d,
                    plan,
                    deps,
                    (n - 1) as nat,
                    visited,
                    levels,
                    p,
                );
            }
            lemma_deep_enough_later(d, plan, packages, deps[n - 1], visited, before.1);
            lemma_deep_enough_later(e, plan, packages, deps[n - 1], visited, before.1);
        }
        lemma_package_depth(
            d,
            e,
            plan,
            packages,
            deps[n - 1],
            before.1,
            levels.push(n < deps.len()),
        );
    }
}

/// Law: drawing a tree to a greater depth than there are packages shows nothing
/// more.
pub proof fn lemma_tree_is_complete(packages: Seq<usize>, plan: Plan, root: usize, depth: nat)
    requires
        packages.contains(root),
        closed_below(packages, plan.edges, plan.direction),
        plan.all ==> ends_within(plan.edges, plan.direction, root, packages.len()),
        depth > packages.len(),
    ensures
        package_lines(depth, plan, root, Set::empty(), seq![]).0 == tree_lines(
            packages.len(),
            plan,
            root,
        ),
{
    let d = packages.len() + 1;
    lemma_all_unvisited(packages);
    if plan.all {
        assert forall|walk: Seq<usize>| #[trigger]
            descends(plan.edges, plan.direction, walk) && walk[0] == root implies walk.len()
            <= d && walk.len() <= depth by {}
    }
    lemma_package_depth(depth, d, plan, packages, root, Set::empty(), seq![]);
}

/// A package stands directly below another in one direction where the other does
/// so below it in the other direction.
proof fn lemma_below_mirrors(edges: Seq<PackageEdge>, a: usize, b: usize)
    ensures
        below(edges, EdgeDirection::Outgoing, a, b) == below(edges, EdgeDirection::Incoming, b, a),
{
    let out = ends(edges, a, EdgeDirection::Outgoing);
    let inc = ends(edges, b, EdgeDirection::Incoming);
    if below(edges, EdgeDirection::Outgoing, a, b) {
        let j = choose|j: int| 0 <= j < out.len() && (#[trigger] out[j]).0 == b;
        let kind = out[j].1;
        assert(out.contains((b, kind)));
        lemma_directions_mirror(edges, a, b, kind);
        assert(inc[inc.index_of((a, kind))].0 == a);
    }
    if below(edges, EdgeDirection::Incoming, b, a) {
        let j = choose|j: int| 0 <= j < inc.len() && (#[trigger] inc[j]).0 == a;
        let kind = inc[j].1;
        assert(inc.contains((a, kind)));
        lemma_directions_mirror(edges, a, b, kind);
        assert(out[out.index_of((b, kind))].0 == b);
    }
}

/// Law: the inverted tree of a package lists another exactly where the tree of
/// the other lists the package.
pub proof fn lemma_inverted_tree(edges: Seq<PackageEdge>, a: usize, b: usize)
    ensures
        descends_to(edges, EdgeDirection::Incoming, a, b) == descends_to(
            edges,
            EdgeDirection::Outgoing,
            b,
            a,
        ),
{
    if descends_to(edges, EdgeDirection::Incoming, a, b) {
        lemma_walk_back(edges, EdgeDirection::Incoming, EdgeDirection::Outgoing, a, b);
    }
    if descends_to(edges, EdgeDirection::Outgoing, b, a) {
        lemma_walk_back(edges, EdgeDirection::Outgoing, EdgeDirection::Incoming, b, a);
    }
}

proof fn lemma_walk_back(
    edges: Seq<PackageEdge>,
    direction: EdgeDirection,
    other: EdgeDirection,
    a: usize,
    b: usize,
)
    requires
        direction != other,
        descends_to(edges, direction, a, b),
    ensures
        descends_to(edges, other, b, a),
{
    let walk = choose|walk: Seq<usize>|
        #[trigger] descends(edges, direction, walk) && walk[0] == a && walk.last() == b;
    let back = walk.reverse();
    assert forall|i: int| 0 < i < back.len() implies below(
        edges,
        other,
        back[i - 1],
        #[trigger] back[i],
    ) by {
        let j = walk.len() - i;
        assert(back[i - 1] == walk[j]);
        assert(back[i] == walk[j - 1]);
        assert(below(edges, direction, walk[j - 1], walk[j]));
        lemma_below_mirrors(edges, walk[j - 1], walk[j]);
        lemma_below_mirrors(edges, walk[j], walk[j - 1]);
    }
    assert(descends(edges, other, back));
    assert(back.last() == a);
}

/// Law: the walks down in a graph that was built for a root are those that lead
/// to what the root depends on.
pub proof fn lemma_walks_follow_dependencies(
    resolve: Resolve,
    packages: Seq<usize>,
    edges: Seq<PackageEdge>,
    root: usize,
    target: Option<Seq<char>>,
    cfgs: Option<Seq<CfgView>>,
    p: usize,
)
    requires
        packages.contains(root),
        forall|q: usize| #[trigger]
            packages.contains(q) == resolve.reaches(root, q, target, cfgs),
        forall|q: usize| #[trigger]
            packages.contains(q) ==> links_from(edges, q) == resolve.links(q, target, cfgs),
    ensures
        closed_below(packages, edges, EdgeDirection::Outgoing),
        descends_to(edges, EdgeDirection::Outgoing, root, p) == resolve.reaches(
            root,
            p,
            target,
            cfgs,
        ),
{
    assert forall|a: usize, b: usize| packages.contains(a) implies below(
        edges,
        EdgeDirection::Outgoing,
        a,
        b,
    ) == #[trigger] resolve.leads(a, b, target, cfgs) by {
        lemma_outgoing_ends(edges, a);
    }
    assert forall|a: usize, b: usize|
        packages.contains(a) && #[trigger] below(
            edges,
            EdgeDirection::Outgoing,
            a,
            b,
        ) implies packages.contains(b) by {
        assert(resolve.leads(a, b, target, cfgs));
        resolve.lemma_reach_on(root, a, b, target, cfgs);
    }
    if descends_to(edges, EdgeDirection::Outgoing, root, p) {
        let walk = choose|walk: Seq<usize>|
            #[trigger] descends(edges, EdgeDirection::Outgoing, walk) && walk[0] == root
                && walk.last() == p;
        lemma_walk_inside(packages, edges, EdgeDirection::Outgoing, walk);
        assert(packages.contains(p));
    }
    if resolve.reaches(root, p, target, cfgs) {
        let walk = choose|walk: Seq<usize>|
            #[trigger] resolve.is_walk(walk, target, cfgs) && walk[0] == root && walk.last() == p;
        lemma_walk_of_dependencies(resolve, packages, edges, walk, target, cfgs);
    }
}

proof fn lemma_walk_inside(
    packages: Seq<usize>,
    edges: Seq<PackageEdge>,
    direction: EdgeDirection,
    walk: Seq<usize>,
)
    requires
        closed_below(packages, edges, direction),
        descends(edges, direction, walk),
        packages.contains(walk[0]),
    ensures
        forall|i: int| 0 <= i < walk.len() ==> packages.contains(#[trigger] walk[i]),
    decreases walk.len(),
{
    if walk.len() > 1 {
        let n = walk.len() - 1;
        lemma_walk_begins(edges, direction, walk, n);
        lemma_walk_inside(packages, edges, direction, walk.take(n));
        assert forall|i: int| 0 <= i < walk.len() implies packages.contains(#[trigger] walk[i]) by {
            if i < n {
                assert(walk.take(n)[i] == walk[i]);
            } else {
                assert(walk.take(n)[n - 1] == walk[n - 1]);
                assert(below(edges, direction, walk[n - 1], walk[n]));
            }
        }
    }
}

proof fn lemma_walk_of_dependencies(
    resolve: Resolve,
    packages: Seq<usize>,
    edges: Seq<PackageEdge>,
    walk: Seq<usize>,
    target: Option<Seq<char>>,
    cfgs: Option<Seq<CfgView>>,
)
    requires
        resolve.is_walk(walk, target, cfgs),
        packages.contains(walk[0]),
        closed_below(packages, edges, EdgeDirection::Outgoing),
        forall|a: usize, b: usize|
            packages.contains(a) ==> below(edges, EdgeDirection::Outgoing, a, b) ==
                #[trigger] resolve.leads(a, b, target, cfgs),
    ensures
        descends(edges, EdgeDirection::Outgoing, walk),
        packages.contains(walk.last()),
    decreases walk.len(),
{
    if walk.len() > 1 {
        let n = walk.len() - 1;
        let part = walk.take(n);
        assert forall|i: int| 0 < i < part.len() implies resolve.leads(
            part[i - 1],
            #[trigger] part[i],
            target,
            cfgs,
        ) by {
            assert(resolve.leads(walk[i - 1], walk[i], target, cfgs));
        }
        lemma_walk_of_dependencies(resolve, packages, edges, part, target, cfgs);
        assert(resolve.leads(walk[n - 1], walk[n], target, cfgs));
        assert(part.last() == walk[n - 1]);
        lemma_walk_goes_on(edges, EdgeDirection::Outgoing, part, walk[n]);
        assert(part.push(walk[n]) =~= walk);
    }
}

/// Law: a walk down that has more packages than there are goes round in circles,
/// so that walks of any length lead down from the same root; a tree that shows
/// all of them would have no end.
pub proof fn lemma_circles_have_no_end(
    packages: Seq<usize>,
    edges: Seq<PackageEdge>,
    direction: EdgeDirection,
    root: usize,
    n: nat,
)
    requires
        packages.contains(root),
        closed_below(packages, edges, direction),
        !ends_within(edges, direction, root, packages.len()),
    ensures
        !ends_within(edges, direction, root, n),
{
    let walk = choose|walk: Seq<usize>|
        #[trigger] descends(edges, direction, walk) && walk[0] == root && walk.len()
            > packages.len();
    lemma_walk_inside(packages, edges, direction, walk);
    if walk.no_duplicates() {
        walk.unique_seq_to_set();
        packages.lemma_cardinality_of_set();
        vstd::seq_lib::seq_to_set_is_finite(packages);
        assert(walk.to_set().subset_of(packages.to_set()));
        vstd::set_lib::lemma_len_subset(walk.to_set(), packages.to_set());
        assert(false);
    }
    let (i, j) = choose|i: int, j: int|
        0 <= i < walk.len() && 0 <= j < walk.len() && i != j && walk[i] == walk[j];
    let (lo, hi) = if i < j {
        (i, j)
    } else {
        (j, i)
    };
    let long = lemma_round_and_round(edges, direction, walk, lo, hi, n + 1);
    assert(descends(edges, direction, long));
}

proof fn lemma_round_and_round(
    edges: Seq<PackageEdge>,
    direction: EdgeDirection,
    walk: Seq<usize>,
    lo: int,
    hi: int,
    n: nat,
) -> (long: Seq<usize>)
    requires
        descends(edges, direction, walk),
        0 <= lo < hi < walk.len(),
        walk[lo] == walk[hi],
    ensures
        descends(edges, direction, long),
        long[0] == walk[0],
        long.last() == walk[lo],
        long.len() >= n,
    decreases n,
{
    if n <= 1 {
        lemma_walk_begins(edges, direction, walk, lo + 1);
        walk.take(lo + 1)
    } else {
        let before = lemma_round_and_round(edges, direction, walk, lo, hi, (n - 1) as nat);
        let round = walk.subrange(lo + 1, hi + 1);
        let long = before + round;
        assert forall|k: int| 0 < k < long.len() implies below(
            edges,
            direction,
            long[k - 1],
            #[trigger] long[k],
        ) by {
            if k < before.len() {
                assert(below(edges, direction, before[k - 1], before[k]));
            } else {
                let m = lo + 1 + (k - before.len());
                assert(long[k] == walk[m]);
                assert(long[k - 1] == walk[m - 1]);
                assert(below(edges, direction, walk[m - 1], walk[m]));
            }
        }
        assert(long.last() == walk[hi]);
        long
    }
}

/// Law: the tree of the root of a graph lists exactly the packages that the root
/// depends on, directly or indirectly, and itself.
pub proof fn lemma_tree_lists_dependencies(
    resolve: Resolve,
    packages: Seq<usize>,
    plan: Plan,
    root: usize,
    target: Option<Seq<char>>,
    cfgs: Option<Seq<CfgView>>,
    p: usize,
)
    requires
        packages.contains(root),
        forall|q: usize| #[trigger]
            packages.contains(q) == resolve.reaches(root, q, target, cfgs),
        forall|q: usize| #[trigger]
            packages.contains(q) ==> links_from(plan.edges, q) == resolve.links(q, target, cfgs),
        plan.direction == EdgeDirection::Outgoing,
        plan.all ==> ends_within(plan.edges, plan.direction, root, packages.len()),
    ensures
        packages_of(tree_lines(packages.len(), plan, root)).contains(p) <==> resolve.reaches(
            root,
            p,
            target,
            cfgs,
        ),
{
    lemma_walks_follow_dependencies(resolve, packages, plan.edges, root, target, cfgs, p);
    lemma_tree_lists_what_is_below(packages, plan, root, p);
}

/// Law: with the characters of a charset, every level of a tree with branches is
/// four characters wide, beside a package as beside a heading.
pub proof fn lemma_levels_are_four_wide(levels: Seq<bool>, charset: Charset)
    ensures
        bars(levels, charset_symbols(charset)).len() == 4 * levels.len(),
        vines(
            levels,
            (Drawing { prefix: Prefix::Indent, symbols: charset_symbols(charset) }),
        ).len() == 4 * levels.len(),
{
    reveal_strlit("│");
    reveal_strlit("├");
    reveal_strlit("└");
    reveal_strlit("─");
    reveal_strlit("|");
    reveal_strlit("`");
    reveal_strlit("-");
    lemma_bars_are_four_wide(levels, charset_symbols(charset));
    if levels.len() > 0 {
        lemma_bars_are_four_wide(levels.drop_last(), charset_symbols(charset));
    }
}

proof fn lemma_bars_are_four_wide(levels: Seq<bool>, symbols: SymbolsView)
    requires
        symbols.down.len() == 1,
    ensures
        bars(levels, symbols).len() == 4 * levels.len(),
    decreases levels.len(),
{
    if levels.len() > 0 {
        lemma_bars_are_four_wide(levels.drop_last(), symbols);
    }
}

/// The numbers of scans after the rows of packages, each of which scans the files
/// of its package.
pub open spec fn scans_after_rows(
    rows: Seq<usize>,
    files: spec_fn(usize) -> Seq<Source>,
    build: Map<Seq<PartView>, u32>,
) -> Map<Seq<PartView>, u32>
    decreases rows.len(),
{
    if rows.len() == 0 {
        build
    } else {
        scans_after(files(rows.last()), scans_after_rows(rows.drop_last(), files, build))
    }
}

/// How often the rows of packages scan a file with the given path.
pub open spec fn times_in_rows(
    rows: Seq<usize>,
    files: spec_fn(usize) -> Seq<Source>,
    path: Seq<PartView>,
) -> nat
    decreases rows.len(),
{
    if rows.len() == 0 {
        0
    } else {
        times_in_rows(rows.drop_last(), files, path) + times(files(rows.last()), path)
    }
}

/// Whether every number of scans can be raised as often as the rows ask for.
pub open spec fn room_for_rows(
    rows: Seq<usize>,
    files: spec_fn(usize) -> Seq<Source>,
    build: Map<Seq<PartView>, u32>,
) -> bool {
    forall|k: Seq<PartView>|
        build.contains_key(k) ==> #[trigger] build[k] + times_in_rows(rows, files, k) <= u32::MAX
}

/// Law: rows of packages keep the files of the build, and raise each number of
/// scans by one for every time that a row scans the file.
pub proof fn lemma_rows_only_raise(
    rows: Seq<usize>,
    files: spec_fn(usize) -> Seq<Source>,
    build: Map<Seq<PartView>, u32>,
)
    requires
        room_for_rows(rows, files, build),
    ensures
        scans_after_rows(rows, files, build).dom() == build.dom(),
        forall|k: Seq<PartView>|
            build.contains_key(k) ==> #[trigger] scans_after_rows(rows, files, build)[k] == build[k]
                + times_in_rows(rows, files, k),
    decreases rows.len(),
{
    if rows.len() > 0 {
        let rest = rows.drop_last();
        let own = files(rows.last());
        let before = scans_after_rows(rest, files, build);
        assert forall|k: Seq<PartView>| build.contains_key(k) implies #[trigger] build[k]
            + times_in_rows(rest, files, k) <= u32::MAX by {
            assert(build[k] + times_in_rows(rows, files, k) <= u32::MAX);
        }
        lemma_rows_only_raise(rest, files, build);
        assert forall|k: Seq<PartView>| before.contains_key(k) implies #[trigger] before[k] + times(
            own,
            k,
        ) <= u32::MAX by {
            assert(build.dom().contains(k));
            assert(build[k] + times_in_rows(rows, files, k) <= u32::MAX);
        }
        assert forall|k: Seq<PartView>| build.contains_key(k) implies #[trigger] scans_after_rows(
            rows,
            files,
            build,
        )[k] == build[k] + times_in_rows(rows, files, k) by {
            assert(before.dom().contains(k));
            lemma_scan_only_raises(own, before, k);
        }
        lemma_scan_only_raises(own, before, seq![]);
    }
}

/// A row that scans a file does so once at least.
proof fn lemma_row_scans(
    rows: Seq<usize>,
    files: spec_fn(usize) -> Seq<Source>,
    package: usize,
    k: Seq<PartView>,
)
    requires
        rows.contains(package),
    ensures
        times_in_rows(rows, files, k) >= times(files(package), k),
    decreases rows.len(),
{
    if rows.last() != package {
        let i = rows.index_of(package);
        assert(rows.drop_last()[i] == package);
        lemma_row_scans(rows.drop_last(), files, package, k);
    }
}

/// Law: the rows of a package and of what is drawn below it keep the files of the
/// build and lower no number of scans. They raise those of the package's own files
/// by one at least, also where the package has been looked into already. Packages
/// that have been looked into stay so.
pub proof fn lemma_rows_of_a_package(
    depth: nat,
    plan: Plan,
    package: usize,
    visited: Set<usize>,
    levels: Seq<bool>,
    files: spec_fn(usize) -> Seq<Source>,
    build: Map<Seq<PartView>, u32>,
    k: Seq<PartView>,
)
    requires
        depth > 0,
        room_for_rows(
            packages_of(package_lines(depth, plan, package, visited, levels).0),
            files,
            build,
        ),
    ensures
        ({
            let rows = packages_of(package_lines(depth, plan, package, visited, levels).0);
            let after = scans_after_rows(rows, files, build);
            &&& after.dom() == build.dom()
            &&& build.contains_key(k) ==> after[k] >= build[k]
            &&& build.contains_key(k) && files(package).map_values(
                |f: Source| f.0,
            ).contains(k) ==> after[k] >= build[k] + 1
        }),
        visited.subset_of(package_lines(depth, plan, package, visited, levels).1),
{
    let rows = packages_of(package_lines(depth, plan, package, visited, levels).0);
    lemma_rows_only_raise(rows, files, build);
    if !plan.all && visited.contains(package) {
        lemma_truncated(depth, plan, package, visited, levels);
        assert(seq![package][0] == package);
    } else {
        lemma_in_parts(depth, plan, package, visited, levels, package);
    }
    lemma_row_scans(rows, files, package, k);
    lemma_times_none(files(package), k);
    lemma_package_visits(depth, plan, package, visited, levels);
}

/// Packages that have been looked into stay so.
proof fn lemma_package_visits(
    depth: nat,
    plan: Plan,
    package: usize,
    visited: Set<usize>,
    levels: Seq<bool>,
)
    ensures
        visited.subset_of(package_lines(depth, plan, package, visited, levels).1),
    decreases depth, 0int, 0nat,
{
    if depth > 0 && (plan.all || !visited.contains(package)) {
        let under = (depth - 1) as nat;
        let (a, b, c) = parts(depth, plan, package, visited, levels);
        let v0 = if plan.all {
            visited
        } else {
            visited.insert(package)
        };
        lemma_kind_visits(
            under,
            plan,
            Kind::Normal,
            children(plan.edges, package, plan.direction, Kind::Normal),
            v0,
            levels,
        );
        lemma_kind_visits(
            under,
            plan,
            Kind::Build,
            children(plan.edges, package, plan.direction, Kind::Build),
            a.1,
            levels,
        );
        lemma_kind_visits(
            under,
            plan,
            Kind::Development,
            children(plan.edges, package, plan.direction, Kind::Development),
            b.1,
            levels,
        );
    }
}

proof fn lemma_kind_visits(
    depth: nat,
    plan: Plan,
    kind: Kind,
    deps: Seq<usize>,
    visited: Set<usize>,
    levels: Seq<bool>,
)
    ensures
        visited.subset_of(kind_lines(depth, plan, kind, deps, visited, levels).1),
    decreases depth, 2int, 0nat,
{
    lemma_sibling_visits(depth, plan, ascending(deps), deps.len(), visited, levels);
}

proof fn lemma_sibling_visits(
    depth: nat,
    plan: Plan,
    deps: Seq<usize>,
    n: nat,
    visited: Set<usize>,
    levels: Seq<bool>,
)
    ensures
        visited.subset_of(sibling_lines(depth, plan, deps, n, visited, levels).1),
    decreases depth, 1int, n,
{
    if n > 0 {
        lemma_sibling_visits(depth, plan, deps, (n - 1) as nat, visited, levels);
        let before = sibling_lines(depth, plan, deps, (n - 1) as nat, visited, levels);
        lemma_package_visits(
            depth,
            plan,
            deps[n - 1],
            before.1,
            levels.push(n < deps.len()),
        );
    }
}

/// Law: the branches beside a line are drawn level by level: the bar where the level
/// goes on below the line, a space where it does not, and three spaces.
pub proof fn lemma_bars_join(a: Seq<bool>, b: Seq<bool>, goes_on: bool, symbols: SymbolsView)
    ensures
        bars(a + b, symbols) == bars(a, symbols) + bars(b, symbols),
        bars(seq![goes_on], symbols) == (if goes_on { symbols.down } else { seq![' '] }) + seq![
            ' ',
            ' ',
            ' ',
        ],
        bars(seq![], symbols) == Seq::<char>::empty(),
    decreases b.len(),
{
    assert(seq![goes_on].drop_last() =~= seq![]);
    assert(bars(seq![goes_on].drop_last(), symbols) =~= seq![]);
    assert(bars(seq![goes_on], symbols) =~= (if goes_on { symbols.down } else { seq![' '] })
        + seq![' ', ' ', ' ']);
    if b.len() == 0 {
        assert(a + b =~= a);
        assert(bars(a, symbols) + bars(b, symbols) =~= bars(a, symbols));
    } else {
        assert((a + b).drop_last() =~= a + b.drop_last());
        lemma_bars_join(a, b.drop_last(), goes_on, symbols);
        assert(bars(a + b, symbols) =~= bars(a, symbols) + bars(b, symbols));
    }
}

/// Law: before a package stands nothing in a plain list, its depth in decimal and a
/// space in a list with depths, and in a tree with branches nothing for the root and
/// else the bars of the levels above, the sign of its own level, which tells whether
/// that goes on, two strokes and a space.
pub proof fn lemma_vines(levels: Seq<bool>, last: bool, symbols: SymbolsView)
    ensures
        vines(levels, Drawing { prefix: Prefix::Plain, symbols }) == Seq::<char>::empty(),
        vines(levels, Drawing { prefix: Prefix::Depth, symbols }) == decimal(levels.len()).push(
            ' ',
        ),
        vines(seq![], Drawing { prefix: Prefix::Indent, symbols }) == Seq::<char>::empty(),
        vines(levels.push(!last), Drawing { prefix: Prefix::Indent, symbols }) == bars(
            levels,
            symbols,
        ) + (if last { symbols.ell } else { symbols.tee }) + symbols.right + symbols.right + seq![
            ' ',
        ],
{
    assert(blank(1) =~= seq![' ']);
    assert(levels.push(!last).drop_last() =~= levels);
    assert(decimal(levels.len()) + blank(1) =~= decimal(levels.len()).push(' '));
}

/// Law: in a tree with branches, the dependencies of a build or of development stand
/// under one heading: spaces up to where the tree begins, the branches of the levels
/// above, of which the root has none, and the title of the kind. Normal dependencies
/// have no heading, and lists have none at all.
pub proof fn lemma_headings(levels: Seq<bool>, prefix: Prefix, symbols: SymbolsView)
    ensures
        heading_lines(Kind::Normal, levels, Drawing { prefix, symbols }).len() == 0,
        prefix != Prefix::Indent ==> forall|kind: Kind|
            (#[trigger] heading_lines(kind, levels, Drawing { prefix, symbols })).len() == 0,
        heading_lines(
            Kind::Build,
            levels,
            Drawing { prefix: Prefix::Indent, symbols },
        ) == seq![LineView::Heading(blank(50) + bars(levels, symbols) + "[build-dependencies]"@)],
        heading_lines(
            Kind::Development,
            levels,
            Drawing { prefix: Prefix::Indent, symbols },
        ) == seq![LineView::Heading(blank(50) + bars(levels, symbols) + "[dev-dependencies]"@)],
{
    lemma_left_of_dependency();
}

/// Law: the lines of a group of dependencies begin with the heading of the group where
/// it has one, at every depth of the tree, that of the root included, and go on with
/// the row of the first dependency. A group without dependencies has no lines.
pub proof fn lemma_groups_begin_with_their_heading(
    depth: nat,
    plan: Plan,
    kind: Kind,
    deps: Seq<usize>,
    visited: Set<usize>,
    levels: Seq<bool>,
)
    requires
        depth > 0,
    ensures
        ({
            let lines = kind_lines(depth, plan, kind, deps, visited, levels).0;
            if deps.len() == 0 {
                lines.len() == 0
            } else if kind == Kind::Normal || plan.drawing.prefix != Prefix::Indent {
                lines.len() > 0 && lines[0] is Package
            } else {
                &&& lines.len() > 1
                &&& lines[0] == LineView::Heading(
                    blank(50) + bars(levels, plan.drawing.symbols) + if kind == Kind::Build {
                        "[build-dependencies]"@
                    } else {
                        "[dev-dependencies]"@
                    },
                )
                &&& lines[1] is Package
            }
        }),
{
    let lines = kind_lines(depth, plan, kind, deps, visited, levels).0;
    let drawing = plan.drawing;
    lemma_headings(levels, drawing.prefix, drawing.symbols);
    let heading = heading_lines(kind, levels, drawing);
    assert(drawing == Drawing { prefix: drawing.prefix, symbols: drawing.symbols });
    let at = lemma_rows_of_a_kind(depth, plan, kind, deps, visited, levels);
    if deps.len() > 0 {
        assert(at[0].0 == heading.len());
        assert(lines[at[0].0] is Package);
        assert(lines == heading + sibling_lines(
            depth,
            plan,
            ascending(deps),
            deps.len(),
            visited,
            levels,
        ).0);
    }
}

/// Law: the lines of a package are its row and, below it, its normal dependencies,
/// those of its build and those of its development, in this order. Where it has been
/// looked into already, and not all is to be shown, its row is all there is.
pub proof fn lemma_lines_of_a_package(
    depth: nat,
    plan: Plan,
    package: usize,
    visited: Set<usize>,
    levels: Seq<bool>,
)
    ensures
        ({
            let (lines, after) = package_lines(depth + 1, plan, package, visited, levels);
            let row = LineView::Package(package, vines(levels, plan.drawing));
            let group = |kind: Kind, v: Set<usize>|
                kind_lines(
                    depth,
                    plan,
                    kind,
                    children(plan.edges, package, plan.direction, kind),
                    v,
                    levels,
                );
            if visited.contains(package) && !plan.all {
                lines == seq![row] && after == visited
            } else {
                let start = if plan.all { visited } else { visited.insert(package) };
                let normal = group(Kind::Normal, start);
                let build = group(Kind::Build, normal.1);
                let development = group(Kind::Development, build.1);
                &&& lines == seq![row] + normal.0 + build.0 + development.0
                &&& after == development.1
            }
        }),
{
}

/// Law: where not all is to be shown, the packages that have been looked into after a
/// package was drawn are those that had been before and those that have a row now.
pub proof fn lemma_looked_into_is_listed(
    depth: nat,
    plan: Plan,
    package: usize,
    visited: Set<usize>,
    levels: Seq<bool>,
)
    ensures
        package_lines(depth, plan, package, visited, levels).1 == if plan.all {
            visited
        } else {
            visited.union(
                packages_of(package_lines(depth, plan, package, visited, levels).0).to_set(),
            )
        },
    decreases depth, 0int, 0nat,
{
    let drawn = package_lines(depth, plan, package, visited, levels);
    if depth == 0 {
        assert(drawn.1 =~= visited.union(packages_of(drawn.0).to_set()));
    } else if !plan.all && visited.contains(package) {
        lemma_truncated(depth, plan, package, visited, levels);
        assert forall|p: usize| packages_of(drawn.0).contains(p) implies p == package by {}
        assert(drawn.1 =~= visited.union(packages_of(drawn.0).to_set()));
    } else {
        let under = (depth - 1) as nat;
        let (a, b, c) = parts(depth, plan, package, visited, levels);
        let v0 = if plan.all {
            visited
        } else {
            visited.insert(package)
        };
        let own = seq![LineView::Package(package, vines(levels, plan.drawing))];
        lemma_kind_looked_into_is_listed(
            under,
            plan,
            Kind::Normal,
            children(plan.edges, package, plan.direction, Kind::Normal),
            v0,
            levels,
        );
        lemma_kind_looked_into_is_listed(
            under,
            plan,
            Kind::Build,
            children(plan.edges, package, plan.direction, Kind::Build),
            a.1,
            levels,
        );
        lemma_kind_looked_into_is_listed(
            under,
            plan,
            Kind::Development,
            children(plan.edges, package, plan.direction, Kind::Development),
            b.1,
            levels,
        );
        lemma_packages_of_both(own, a.0);
        lemma_packages_of_both(own + a.0, b.0);
        lemma_packages_of_both(own + a.0 + b.0, c.0);
        assert(own.drop_last() =~= seq![]);
        assert(packages_of(own.drop_last()) =~= seq![]);
        assert(packages_of(own) =~= seq![package]);
        let (x, y, z) = (packages_of(a.0), packages_of(b.0), packages_of(c.0));
        let all = packages_of(drawn.0);
        assert(all == seq![package] + x + y + z);
        assert forall|p: usize| all.contains(p) == (p == package || x.contains(p) || y.contains(p)
            || z.contains(p)) by {
            lemma_in_either(seq![package] + x + y, z, p);
            lemma_in_either(seq![package] + x, y, p);
            lemma_in_either(seq![package], x, p);
            assert(seq![package][0] == package);
        }
        if !plan.all {
            assert(drawn.1 =~= visited.union(all.to_set()));
        }
    }
}

proof fn lemma_kind_looked_into_is_listed(
    depth: nat,
    plan: Plan,
    kind: Kind,
    deps: Seq<usize>,
    visited: Set<usize>,
    levels: Seq<bool>,
)
    ensures
        kind_lines(depth, plan, kind, deps, visited, levels).1 == if plan.all {
            visited
        } else {
            visited.union(
                packages_of(kind_lines(depth, plan, kind, deps, visited, levels).0).to_set(),
            )
        },
    decreases depth, 2int, 0nat,
{
    let drawn = kind_lines(depth, plan, kind, deps, visited, levels);
    if deps.len() == 0 {
        assert(visited =~= visited.union(packages_of(drawn.0).to_set()));
    } else {
        lemma_sibling_looked_into_is_listed(
            depth,
            plan,
            ascending(deps),
            deps.len(),
            visited,
            levels,
        );
        let rows = sibling_lines(depth, plan, ascending(deps), deps.len(), visited, levels).0;
        let heading = heading_lines(kind, levels, plan.drawing);
        lemma_packages_of_both(heading, rows);
        lemma_no_package_in_heading(kind, levels, plan.drawing);
        assert(Seq::<usize>::empty() + packages_of(rows) =~= packages_of(rows));
    }
}

proof fn lemma_sibling_looked_into_is_listed(
    depth: nat,
    plan: Plan,
    deps: Seq<usize>,
    n: nat,
    visited: Set<usize>,
    levels: Seq<bool>,
)
    ensures
        sibling_lines(depth, plan, deps, n, visited, levels).1 == if plan.all {
            visited
        } else {
            visited.union(
                packages_of(sibling_lines(depth, plan, deps, n, visited, levels).0).to_set(),
            )
        },
    decreases depth, 1int, n,
{
    let drawn = sibling_lines(depth, plan, deps, n, visited, levels);
    if n == 0 {
        assert(visited =~= visited.union(packages_of(drawn.0).to_set()));
    } else {
        let before = sibling_lines(depth, plan, deps, (n - 1) as nat, visited, levels);
        let inner = levels.push(n < deps.len());
        let last = package_lines(depth, plan, deps[n - 1], before.1, inner);
        lemma_sibling_looked_into_is_listed(depth, plan, deps, (n - 1) as nat, visited, levels);
        lemma_looked_into_is_listed(depth, plan, deps[n - 1], before.1, inner);
        lemma_packages_of_both(before.0, last.0);
        let (x, y) = (packages_of(before.0), packages_of(last.0));
        assert forall|p: usize| (x + y).contains(p) == (x.contains(p) || y.contains(p)) by {
            lemma_in_either(x, y, p);
        }
        if !plan.all {
            assert(drawn.1 =~= visited.union(packages_of(drawn.0).to_set()));
        }
    }
}

/// Law: the packages of lines are those of their rows, in order; headings have none.
pub proof fn lemma_packages_of_lines(
    a: Seq<LineView>,
    b: Seq<LineView>,
    package: usize,
    text: Seq<char>,
)
    ensures
        packages_of(a + b) == packages_of(a) + packages_of(b),
        packages_of(seq![LineView::Package(package, text)]) == seq![package],
        packages_of(seq![LineView::Heading(text)]) == Seq::<usize>::empty(),
{
    lemma_packages_of_both(a, b);
    let row = seq![LineView::Package(package, text)];
    let heading = seq![LineView::Heading(text)];
    assert(row.drop_last() =~= seq![]);
    assert(heading.drop_last() =~= seq![]);
    assert(packages_of(row.drop_last()) =~= seq![]);
    assert(packages_of(row) =~= seq![package]);
}

/// Law: the packages below a package by a kind of dependency are those at the far ends
/// of its edges of that kind, as often as there are such edges.
pub proof fn lemma_children_by_kind(
    edges: Seq<PackageEdge>,
    package: usize,
    kind: Kind,
    child: usize,
)
    ensures
        children(edges, package, EdgeDirection::Outgoing, kind).contains(child) <==> edges.contains(
            (package, child, kind),
        ),
        children(edges, package, EdgeDirection::Incoming, kind).contains(child) <==> edges.contains(
            (child, package, kind),
        ),
{
    lemma_of_kind_holds(ends(edges, package, EdgeDirection::Outgoing), kind, child);
    lemma_of_kind_holds(ends(edges, package, EdgeDirection::Incoming), kind, child);
    lemma_ends_hold(edges, package, EdgeDirection::Outgoing, (child, kind));
    lemma_ends_hold(edges, package, EdgeDirection::Incoming, (child, kind));
}

proof fn lemma_of_kind_holds(links: Seq<Link>, kind: Kind, child: usize)
    ensures
        of_kind(links, kind).contains(child) <==> links.contains((child, kind)),
    decreases links.len(),
{
    if links.len() > 0 {
        let front = links.drop_last();
        let rest = of_kind(front, kind);
        let all = of_kind(links, kind);
        lemma_of_kind_holds(front, kind, child);
        assert(links[links.len() - 1] == links.last());
        if rest.contains(child) {
            assert(all[rest.index_of(child)] == child);
            assert(links[front.index_of((child, kind))] == (child, kind));
        }
        if links.last() == (child, kind) {
            assert(all[rest.len() as int] == child);
        }
        if all.contains(child) {
            let i = all.index_of(child);
            if i < rest.len() {
                assert(rest[i] == child);
            }
        }
        if links.contains((child, kind)) {
            let i = links.index_of((child, kind));
            if i < front.len() {
                assert(front[i] == (child, kind));
            }
        }
    }
}

/// Law: a package stands directly below another where an edge leads from the other to
/// it, or, where the tree is inverted, from it to the other, whatever the edge is for.
pub proof fn lemma_below_is_an_edge(
    edges: Seq<PackageEdge>,
    a: usize,
    b: usize,
    walk: Seq<usize>,
    direction: EdgeDirection,
)
    ensures
        below(edges, EdgeDirection::Outgoing, a, b) <==> exists|kind: Kind|
            #[trigger] edges.contains((a, b, kind)),
        below(edges, EdgeDirection::Incoming, a, b) <==> exists|kind: Kind|
            #[trigger] edges.contains((b, a, kind)),
        descends(edges, direction, walk) <==> walk.len() > 0 && forall|i: int|
            0 < i < walk.len() ==> below(edges, direction, walk[i - 1], #[trigger] walk[i]),
{
    let down = ends(edges, a, EdgeDirection::Outgoing);
    let up = ends(edges, a, EdgeDirection::Incoming);
    assert forall|kind: Kind| #[trigger]
        edges.contains((a, b, kind)) == down.contains((b, kind)) by {
        lemma_ends_hold(edges, a, EdgeDirection::Outgoing, (b, kind));
    }
    assert forall|kind: Kind| #[trigger]
        edges.contains((b, a, kind)) == up.contains((b, kind)) by {
        lemma_ends_hold(edges, a, EdgeDirection::Incoming, (b, kind));
    }
    if below(edges, EdgeDirection::Outgoing, a, b) {
        let j = choose|j: int| 0 <= j < down.len() && (#[trigger] down[j]).0 == b;
        assert(down.contains((b, down[j].1)));
        assert(edges.contains((a, b, down[j].1)));
    }
    if below(edges, EdgeDirection::Incoming, a, b) {
        let j = choose|j: int| 0 <= j < up.len() && (#[trigger] up[j]).0 == b;
        assert(up.contains((b, up[j].1)));
        assert(edges.contains((b, a, up[j].1)));
    }
}

/// Law: a tree begins with the row of its root, which has nothing before it unless
/// depths are shown, and goes on with what is below the root.
pub proof fn lemma_tree_begins_with_root(n: nat, plan: Plan, root: usize)
    ensures
        tree_lines(n, plan, root).len() > 0,
        tree_lines(n, plan, root)[0] == LineView::Package(root, vines(seq![], plan.drawing)),
        tree_lines(n, plan, root) == package_lines(n + 1, plan, root, Set::empty(), seq![]).0,
{
    lemma_own_row_first(n + 1, plan, root, Set::empty(), seq![]);
}

/// Law: a tree is drawn as its settings say: over the edges of the graph, in their
/// direction, repeating what was looked into before where all is to be shown, and with
/// their symbols.
pub proof fn lemma_plan(pc: PrintConfig, graph: PackageGraph)
    ensures
        pc.plan(graph).edges == graph.edges(),
        pc.plan(graph).direction == pc.direction,
        pc.plan(graph).all == pc.all,
        pc.plan(graph).drawing.prefix == pc.prefix,
        pc.plan(graph).drawing.symbols.down == pc.symbols.down@,
        pc.plan(graph).drawing.symbols.tee == pc.symbols.tee@,
        pc.plan(graph).drawing.symbols.ell == pc.symbols.ell@,
        pc.plan(graph).drawing.symbols.right == pc.symbols.right@,
{
}

/// Law: lines are shown one for each, in order, packages with what stands before them.
pub proof fn lemma_line_values(a: Seq<TreeLine>, b: Seq<TreeLine>, p: usize, text: String)
    ensures
        line_values(a + b) == line_values(a) + line_values(b),
        line_values(seq![TreeLine::Package(p, text)]) == seq![LineView::Package(p, text@)],
        line_values(seq![TreeLine::Heading(text)]) == seq![LineView::Heading(text@)],
{
    assert(line_values(a + b) =~= line_values(a) + line_values(b));
    assert(line_values(seq![TreeLine::Package(p, text)]) =~= seq![LineView::Package(p, text@)]);
    assert(line_values(seq![TreeLine::Heading(text)]) =~= seq![LineView::Heading(text@)]);
}

}
