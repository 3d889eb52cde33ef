//! The graph of the packages that a package depends on.
//!
//! Packages are known by their numbers: their places in the list of all packages
//! that were resolved, sorted by package id.

use petgraph::graph::NodeIndex;
use petgraph::visit::EdgeRef;
use std::collections::HashMap;
use vstd::prelude::*;

use crate::platform::{Cfg, Platform};
#[allow(unused_imports)]
use crate::platform::{known_cfgs, CfgView};

verus! {

broadcast use vstd::std_specs::hash::group_hash_axioms;

/// What a package needs a dependency for.
#[derive(Debug, Clone, Copy, PartialEq, Eq, Structural)]
pub enum Kind {
    Normal,
    Build,
    Development,
}

/// Which way the edges of a graph are followed.
#[derive(Debug, Clone, Copy, PartialEq, Eq, Structural)]
pub enum EdgeDirection {
    /// From a package to those that it depends on.
    Outgoing,
    /// From a package to those that depend on it.
    Incoming,
}

/// A dependency that the manifest of a package declares.
#[derive(Debug)]
pub struct Dependency {
    /// The packages whose id matches it.
    pub matching: Vec<usize>,
    /// What it is limited to.
    pub platform: Option<Platform>,
    pub kind: Kind,
}

/// A package that is there to be read.
#[derive(Debug)]
pub struct Package {
    /// What its manifest declares.
    pub dependencies: Vec<Dependency>,
    /// The packages that its dependencies were resolved to, before any of them is
    /// replaced.
    pub deps: Vec<usize>,
}

/// What the dependencies were resolved to.
#[derive(Debug)]
pub struct Resolve {
    /// The packages; `None` for one that was not loaded.
    pub packages: Vec<Option<Package>>,
    /// For each package, the one that it is replaced by.
    pub replacements: Vec<Option<usize>>,
}

/// A graph of the crate `petgraph` with numbers for nodes.
#[verifier::external_type_specification]
#[verifier::external_body]
#[verifier::reject_recursive_types(N)]
#[verifier::reject_recursive_types(E)]
#[verifier::reject_recursive_types(Ty)]
#[verifier::reject_recursive_types(Ix)]
pub struct ExGraph<N, E, Ty, Ix>(petgraph::Graph<N, E, Ty, Ix>);

/// The kind of a `petgraph` graph whose edges have a direction.
#[verifier::external_type_specification]
#[verifier::external_body]
pub struct ExDirected(petgraph::Directed);

/// The weights of the nodes of a graph, by their indices.
pub uninterp spec fn graph_nodes(g: petgraph::Graph<usize, Kind>) -> Seq<usize>;

/// The edges of a graph in the order in which they were added: the indices of
/// the node that an edge comes from and of the one that it leads to, and its
/// weight.
pub uninterp spec fn graph_edges(g: petgraph::Graph<usize, Kind>) -> Seq<(usize, usize, Kind)>;

/// `petgraph::Graph::new`: a graph without nodes and edges.
#[verifier::external_body]
fn new_graph() -> (g: petgraph::Graph<usize, Kind>)
    ensures
        graph_nodes(g) == Seq::<usize>::empty(),
        graph_edges(g) == Seq::<(usize, usize, Kind)>::empty(),
{
    petgraph::Graph::new()
}

/// `petgraph::Graph::add_node`: a new node behind those that are there. It panics
/// where the index of the new node would be the largest number of 32 bits.
#[verifier::external_body]
fn add_node(g: &mut petgraph::Graph<usize, Kind>, weight: usize) -> (index: usize)
    requires
        graph_nodes(*old(g)).len() < u32::MAX,
    ensures
        index == graph_nodes(*old(g)).len(),
        graph_nodes(*final(g)) == graph_nodes(*old(g)).push(weight),
        graph_edges(*final(g)) == graph_edges(*old(g)),
{
    g.add_node(weight).index()
}

/// `petgraph::Graph::add_edge`: a new edge behind those that are there. It panics
/// where a node does not exist, and where the index of the new edge would be the
/// largest number of 32 bits.
#[verifier::external_body]
fn add_edge(g: &mut petgraph::Graph<usize, Kind>, a: usize, b: usize, weight: Kind)
    requires
        a < graph_nodes(*old(g)).len(),
        b < graph_nodes(*old(g)).len(),
        graph_edges(*old(g)).len() < u32::MAX,
    ensures
        graph_nodes(*final(g)) == graph_nodes(*old(g)),
        graph_edges(*final(g)) == graph_edges(*old(g)).push((a, b, weight)),
{
    g.add_edge(NodeIndex::new(a), NodeIndex::new(b), weight);
}

/// The edges that have a node at their near end, which is the one that they come
/// from where they are followed outwards, and the one that they lead to otherwise.
pub open spec fn edges_at(
    edges: Seq<(usize, usize, Kind)>,
    node: usize,
    direction: EdgeDirection,
) -> Seq<(usize, usize, Kind)>
    decreases edges.len(),
{
    if edges.len() == 0 {
        seq![]
    } else {
        let rest = edges_at(edges.drop_last(), node, direction);
        let near = match direction {
            EdgeDirection::Outgoing => edges.last().0,
            EdgeDirection::Incoming => edges.last().1,
        };
        if near == node {
            rest.push(edges.last())
        } else {
            rest
        }
    }
}

/// `petgraph::Graph::edges_directed`: the edges of a node in one direction, the
/// one that was added last first. Each comes with the indices of the node that it
/// comes from and of the one that it leads to.
#[verifier::external_body]
fn edges_directed(
    g: &petgraph::Graph<usize, Kind>,
    node: usize,
    direction: EdgeDirection,
) -> (r: Vec<(usize, usize, Kind)>)
    requires
        node < graph_nodes(*g).len(),
    ensures
        r@ == edges_at(graph_edges(*g), node, direction).reverse(),
{
    let direction = match direction {
        EdgeDirection::Outgoing => petgraph::Direction::Outgoing,
        EdgeDirection::Incoming => petgraph::Direction::Incoming,
    };
    g.edges_directed(NodeIndex::new(node), direction)
        .map(|e| (e.source().index(), e.target().index(), *e.weight()))
        .collect()
}

/// Indexing a `petgraph::Graph`: the weight of a node. It panics where the node
/// does not exist.
#[verifier::external_body]
fn node_weight(g: &petgraph::Graph<usize, Kind>, node: usize) -> (weight: usize)
    requires
        node < graph_nodes(*g).len(),
    ensures
        weight == graph_nodes(*g)[node as int],
{
    g[NodeIndex::new(node)]
}

/// `petgraph::Graph::node_count`: how many nodes there are.
#[verifier::external_body]
fn node_count(g: &petgraph::Graph<usize, Kind>) -> (n: usize)
    ensures
        n == graph_nodes(*g).len(),
{
    g.node_count()
}

impl Dependency {
    /// Whether it matches a package and is not limited to another platform. Where
    /// no target is given, all of them count.
    pub open spec fn applies(
        self,
        id: usize,
        target: Option<Seq<char>>,
        cfgs: Option<Seq<CfgView>>,
    ) -> bool {
        &&& self.matching@.contains(id)
        &&& match (self.platform, target) {
            (Some(p), Some(t)) => p.met(t, cfgs),
            _ => true,
        }
    }

    /// Whether it matches a package.
    pub fn matches_id(&self, id: usize) -> (r: bool)
        ensures
            r == self.matching@.contains(id),
    {
        let mut i: usize = 0;
        while i < self.matching.len()
            invariant
                i <= self.matching.len(),
                forall|j: int| 0 <= j < i ==> self.matching@[j] != id,
            decreases self.matching.len() - i,
        {
            if self.matching[i] == id {
                assert(self.matching@[i as int] == id);
                return true;
            }
            i += 1;
        }
        false
    }

    /// Whether it counts as a dependency on a package.
    pub fn applies_to(&self, id: usize, target: Option<&str>, cfgs: &Option<Vec<Cfg>>) -> (r: bool)
        ensures
            r == self.applies(id, target_text(target), known_cfgs(*cfgs)),
    {
        if !self.matches_id(id) {
            return false;
        }
        match (&self.platform, target) {
            (Some(p), Some(t)) => p.matches(t, cfgs),
            _ => true,
        }
    }
}

/// The text of a target, where there is one.
pub open spec fn target_text(target: Option<&str>) -> Option<Seq<char>> {
    match target {
        Some(t) => Some(t@),
        None => None,
    }
}

/// A package that another depends on, and what for.
pub type Link = (usize, Kind);

/// The links that the declared dependencies make to a package, which another may
/// stand in for.
pub open spec fn links_to(
    raw: usize,
    id: usize,
    declared: Seq<Dependency>,
    target: Option<Seq<char>>,
    cfgs: Option<Seq<CfgView>>,
) -> Seq<Link>
    decreases declared.len(),
{
    if declared.len() == 0 {
        seq![]
    } else {
        let rest = links_to(raw, id, declared.drop_last(), target, cfgs);
        if declared.last().applies(raw, target, cfgs) {
            rest.push((id, declared.last().kind))
        } else {
            rest
        }
    }
}

impl Resolve {
    /// The package that stands in for the given one.
    pub open spec fn replaced(self, id: usize) -> usize {
        match self.replacements@[id as int] {
            Some(other) => other,
            None => id,
        }
    }

    /// Whether all numbers are numbers of packages.
    pub open spec fn wf(self) -> bool {
        &&& self.replacements@.len() == self.packages@.len()
        &&& forall|i: int|
            0 <= i < self.replacements@.len() ==> ((#[trigger] self.replacements@[i]) matches Some(
                other,
            ) ==> other < self.packages@.len())
        &&& forall|i: int, j: int|
            0 <= i < self.packages@.len() && self.packages@[i] is Some && 0 <= j
                < self.packages@[i]->0.deps@.len() ==> (#[trigger] self.packages@[i]->0.deps@[j])
                < self.packages@.len()
    }

    /// The links that the packages make which the dependencies were resolved to.
    pub open spec fn links_to_all(
        self,
        raws: Seq<usize>,
        declared: Seq<Dependency>,
        target: Option<Seq<char>>,
        cfgs: Option<Seq<CfgView>>,
    ) -> Seq<Link>
        decreases raws.len(),
    {
        if raws.len() == 0 {
            seq![]
        } else {
            self.links_to_all(raws.drop_last(), declared, target, cfgs) + links_to(
                raws.last(),
                self.replaced(raws.last()),
                declared,
                target,
                cfgs,
            )
        }
    }

    /// What a package depends on; nothing is known where it is not loaded.
    pub open spec fn links(
        self,
        id: usize,
        target: Option<Seq<char>>,
        cfgs: Option<Seq<CfgView>>,
    ) -> Seq<Link> {
        match self.packages@[id as int] {
            Some(package) => self.links_to_all(
                package.deps@,
                package.dependencies@,
                target,
                cfgs,
            ),
            None => seq![],
        }
    }

    /// Where links lead to packages.
    proof fn lemma_links_to_all(
        self,
        raws: Seq<usize>,
        declared: Seq<Dependency>,
        target: Option<Seq<char>>,
        cfgs: Option<Seq<CfgView>>,
    )
        requires
            self.wf(),
            forall|j: int| 0 <= j < raws.len() ==> (#[trigger] raws[j]) < self.packages@.len(),
        ensures
            forall|j: int|
                0 <= j < self.links_to_all(raws, declared, target, cfgs).len() ==> (
                #[trigger] self.links_to_all(raws, declared, target, cfgs)[j]).0
                    < self.packages@.len(),
        decreases raws.len(),
    {
        if raws.len() > 0 {
            self.lemma_links_to_all(raws.drop_last(), declared, target, cfgs);
            assert(raws.last() == raws[raws.len() - 1]);
            let id = self.replaced(raws.last());
            assert(id < self.packages@.len());
            lemma_links_to(raws.last(), id, declared, target, cfgs);
            let rest = self.links_to_all(raws.drop_last(), declared, target, cfgs);
            let new = links_to(raws.last(), id, declared, target, cfgs);
            let all = self.links_to_all(raws, declared, target, cfgs);
            assert forall|j: int| 0 <= j < all.len() implies (#[trigger] all[j]).0
                < self.packages@.len() by {
                if j < rest.len() {
                    assert(rest[j] == all[j]);
                } else {
                    assert(new[j - rest.len()] == all[j]);
                }
            }
        }
    }

    /// The links of a package lead to packages.
    pub proof fn lemma_links(
        self,
        id: usize,
        target: Option<Seq<char>>,
        cfgs: Option<Seq<CfgView>>,
    )
        requires
            self.wf(),
            id < self.packages@.len(),
        ensures
            forall|j: int|
                0 <= j < self.links(id, target, cfgs).len() ==> (#[trigger] self.links(
                    id,
                    target,
                    cfgs,
                )[j]).0 < self.packages@.len(),
    {
        if let Some(package) = self.packages@[id as int] {
            assert forall|j: int| 0 <= j < package.deps@.len() implies (#[trigger] package.deps@[j])
                < self.packages@.len() by {
                assert(self.packages@[id as int]->0.deps@[j] < self.packages@.len());
            }
            self.lemma_links_to_all(package.deps@, package.dependencies@, target, cfgs);
        }
    }
}

/// All the links that are made to one package lead to its stand-in.
proof fn lemma_links_to(
    raw: usize,
    id: usize,
    declared: Seq<Dependency>,
    target: Option<Seq<char>>,
    cfgs: Option<Seq<CfgView>>,
)
    ensures
        forall|j: int|
            0 <= j < links_to(raw, id, declared, target, cfgs).len() ==> (#[trigger] links_to(
                raw,
                id,
                declared,
                target,
                cfgs,
            )[j]).0 == id,
    decreases declared.len(),
{
    if declared.len() > 0 {
        lemma_links_to(raw, id, declared.drop_last(), target, cfgs);
        let rest = links_to(raw, id, declared.drop_last(), target, cfgs);
        let all = links_to(raw, id, declared, target, cfgs);
        assert forall|j: int| 0 <= j < all.len() implies (#[trigger] all[j]).0 == id by {
            if j < rest.len() {
                assert(rest[j] == all[j]);
            }
        }
    }
}

/// What a loaded package depends on.
pub fn package_links(
    resolve: &Resolve,
    package: &Package,
    target: Option<&str>,
    cfgs: &Option<Vec<Cfg>>,
) -> (r: Vec<Link>)
    requires
        resolve.replacements@.len() == resolve.packages@.len(),
        forall|j: int|
            0 <= j < package.deps@.len() ==> (#[trigger] package.deps@[j])
                < resolve.packages@.len(),
    ensures
        r@ == resolve.links_to_all(
            package.deps@,
            package.dependencies@,
            target_text(target),
            known_cfgs(*cfgs),
        ),
{
    let ghost t = target_text(target);
    let ghost c = known_cfgs(*cfgs);
    let ghost declared = package.dependencies@;
    let mut r: Vec<Link> = Vec::new();
    let mut i: usize = 0;
    assert(r@ =~= resolve.links_to_all(package.deps@.take(0), declared, t, c));
    while i < package.deps.len()
        invariant
            i <= package.deps.len(),
            resolve.replacements@.len() == resolve.packages@.len(),
            forall|j: int|
                0 <= j < package.deps@.len() ==> (#[trigger] package.deps@[j])
                    < resolve.packages@.len(),
            t == target_text(target),
            c == known_cfgs(*cfgs),
            declared == package.dependencies@,
            r@ == resolve.links_to_all(package.deps@.take(i as int), declared, t, c),
        decreases package.deps.len() - i,
    {
        let raw: usize = package.deps[i];
        let id: usize = match resolve.replacements[raw] {
            Some(other) => other,
            None => raw,
        };
        let ghost before = r@;
        let mut k: usize = 0;
        assert(r@ =~= before + links_to(raw, id, declared.take(0), t, c));
        while k < package.dependencies.len()
            invariant
                k <= package.dependencies.len(),
                t == target_text(target),
                c == known_cfgs(*cfgs),
                declared == package.dependencies@,
                r@ == before + links_to(raw, id, declared.take(k as int), t, c),
            decreases package.dependencies.len() - k,
        {
            assert(declared.take(k + 1).drop_last() =~= declared.take(k as int));
            let dep = &package.dependencies[k];
            if dep.applies_to(raw, target, cfgs) {
                r.push((id, dep.kind));
            }
            k += 1;
            assert(r@ =~= before + links_to(raw, id, declared.take(k as int), t, c));
        }
        assert(declared.take(k as int) =~= declared);
        assert(package.deps@.take(i + 1).drop_last() =~= package.deps@.take(i as int));
        i += 1;
    }
    assert(package.deps@.take(i as int) =~= package.deps@);
    r
}

/// An edge between two packages, from the one that depends to the one that it
/// depends on.
pub type PackageEdge = (usize, usize, Kind);

/// The edges of a graph, between packages instead of nodes.
pub open spec fn package_edges(
    nodes: Seq<usize>,
    edges: Seq<(usize, usize, Kind)>,
) -> Seq<PackageEdge> {
    edges.map_values(
        |e: (usize, usize, Kind)| (nodes[e.0 as int], nodes[e.1 as int], e.2),
    )
}

/// The links that the edges from a package are, in their order.
pub open spec fn links_from(edges: Seq<PackageEdge>, package: usize) -> Seq<Link>
    decreases edges.len(),
{
    if edges.len() == 0 {
        seq![]
    } else {
        let rest = links_from(edges.drop_last(), package);
        if edges.last().0 == package {
            rest.push((edges.last().1, edges.last().2))
        } else {
            rest
        }
    }
}

/// Whether the map tells the node of each package that is in the graph.
spec fn indexed(nodes: Seq<usize>, index: Map<usize, usize>) -> bool {
    &&& nodes.no_duplicates()
    &&& forall|p: usize| #[trigger] index.contains_key(p) == nodes.contains(p)
    &&& forall|i: int|
        0 <= i < nodes.len() ==> index.contains_key(#[trigger] nodes[i]) && index[nodes[i]] == i
}

/// Whether the edges run between nodes.
spec fn between(edges: Seq<(usize, usize, Kind)>, nodes: nat) -> bool {
    forall|i: int|
        0 <= i < edges.len() ==> (#[trigger] edges[i]).0 < nodes && edges[i].1 < nodes
}

/// The packages that a package depends on, directly and indirectly, and how they
/// depend on each other.
pub struct PackageGraph {
    graph: petgraph::Graph<usize, Kind>,
    nodes: HashMap<usize, usize>,
}

impl PackageGraph {
    #[verifier::type_invariant]
    spec fn inv(self) -> bool {
        &&& indexed(graph_nodes(self.graph), self.nodes@)
        &&& between(graph_edges(self.graph), graph_nodes(self.graph).len())
    }

    /// The packages of the graph.
    pub closed spec fn packages(self) -> Seq<usize> {
        graph_nodes(self.graph)
    }

    /// The edges between the packages.
    pub closed spec fn edges(self) -> Seq<PackageEdge> {
        package_edges(graph_nodes(self.graph), graph_edges(self.graph))
    }
}

impl Resolve {
    /// Whether a package depends directly on another.
    pub open spec fn leads(
        self,
        a: usize,
        b: usize,
        target: Option<Seq<char>>,
        cfgs: Option<Seq<CfgView>>,
    ) -> bool {
        exists|j: int|
            0 <= j < self.links(a, target, cfgs).len() && (#[trigger] self.links(
                a,
                target,
                cfgs,
            )[j]).0 == b
    }

    /// Whether each package of a walk depends on the next one.
    pub open spec fn is_walk(
        self,
        walk: Seq<usize>,
        target: Option<Seq<char>>,
        cfgs: Option<Seq<CfgView>>,
    ) -> bool {
        &&& walk.len() > 0
        &&& forall|i: int|
            0 < i < walk.len() ==> self.leads(walk[i - 1], #[trigger] walk[i], target, cfgs)
    }

    /// Whether a package depends, directly or indirectly, on another, or is it.
    pub open spec fn reaches(
        self,
        root: usize,
        package: usize,
        target: Option<Seq<char>>,
        cfgs: Option<Seq<CfgView>>,
    ) -> bool {
        exists|walk: Seq<usize>|
            #[trigger] self.is_walk(walk, target, cfgs) && walk[0] == root && walk.last()
                == package
    }

    /// How many links there are between the first `n` packages and others.
    pub open spec fn total_links(
        self,
        target: Option<Seq<char>>,
        cfgs: Option<Seq<CfgView>>,
        n: nat,
    ) -> nat
        decreases n,
    {
        if n == 0 {
            0
        } else {
            self.total_links(target, cfgs, (n - 1) as nat) + self.links(
                (n - 1) as usize,
                target,
                cfgs,
            ).len()
        }
    }

    /// Whether packages and links are few enough for a graph with indices of 32
    /// bits.
    pub open spec fn fits(self, target: Option<Seq<char>>, cfgs: Option<Seq<CfgView>>) -> bool {
        &&& self.packages@.len() < u32::MAX
        &&& self.total_links(target, cfgs, self.packages@.len()) < u32::MAX
    }

    /// How many links those of the first `n` packages have that are done.
    spec fn done_links(
        self,
        target: Option<Seq<char>>,
        cfgs: Option<Seq<CfgView>>,
        done: Set<usize>,
        n: nat,
    ) -> nat
        decreases n,
    {
        if n == 0 {
            0
        } else {
            self.done_links(target, cfgs, done, (n - 1) as nat) + if done.contains(
                (n - 1) as usize,
            ) {
                self.links((n - 1) as usize, target, cfgs).len()
            } else {
                0
            }
        }
    }

    /// One more package that is done adds its links.
    proof fn lemma_done_one_more(
        self,
        target: Option<Seq<char>>,
        cfgs: Option<Seq<CfgView>>,
        done: Set<usize>,
        package: usize,
        n: nat,
    )
        requires
            !done.contains(package),
            n <= usize::MAX,
        ensures
            self.done_links(target, cfgs, done.insert(package), n) == self.done_links(
                target,
                cfgs,
                done,
                n,
            ) + if package < n {
                self.links(package, target, cfgs).len()
            } else {
                0
            },
        decreases n,
    {
        if n > 0 {
            self.lemma_done_one_more(target, cfgs, done, package, (n - 1) as nat);
        }
    }

    /// The packages that are done have no more links than all of them.
    proof fn lemma_done_bound(
        self,
        target: Option<Seq<char>>,
        cfgs: Option<Seq<CfgView>>,
        done: Set<usize>,
        n: nat,
    )
        ensures
            self.done_links(target, cfgs, done, n) <= self.total_links(target, cfgs, n),
        decreases n,
    {
        if n > 0 {
            self.lemma_done_bound(target, cfgs, done, (n - 1) as nat);
        }
    }

    /// A package of a set that holds the root and all that its members depend on
    /// is in the set.
    proof fn lemma_closed(
        self,
        walk: Seq<usize>,
        target: Option<Seq<char>>,
        cfgs: Option<Seq<CfgView>>,
        s: Seq<usize>,
    )
        requires
            self.is_walk(walk, target, cfgs),
            s.contains(walk[0]),
            forall|a: usize, b: usize|
                s.contains(a) && #[trigger] self.leads(a, b, target, cfgs) ==> s.contains(b),
        ensures
            s.contains(walk.last()),
        decreases walk.len(),
    {
        if walk.len() > 1 {
            let rest = walk.drop_last();
            assert forall|i: int| 0 < i < rest.len() implies self.leads(
                rest[i - 1],
                #[trigger] rest[i],
                target,
                cfgs,
            ) by {
                assert(self.leads(walk[i - 1], walk[i], target, cfgs));
            }
            self.lemma_closed(rest, target, cfgs, s);
            assert(self.leads(walk[walk.len() - 2], walk[walk.len() - 1], target, cfgs));
        }
    }

    /// What a reached package depends on is reached as well.
    pub proof fn lemma_reach_on(
        self,
        root: usize,
        a: usize,
        b: usize,
        target: Option<Seq<char>>,
        cfgs: Option<Seq<CfgView>>,
    )
        requires
            self.reaches(root, a, target, cfgs),
            self.leads(a, b, target, cfgs),
        ensures
            self.reaches(root, b, target, cfgs),
    {
        let walk = choose|walk: Seq<usize>|
            #[trigger] self.is_walk(walk, target, cfgs) && walk[0] == root && walk.last() == a;
        let longer = walk.push(b);
        assert forall|i: int| 0 < i < longer.len() implies self.leads(
            longer[i - 1],
            #[trigger] longer[i],
            target,
            cfgs,
        ) by {
            if i < walk.len() {
                assert(self.leads(walk[i - 1], walk[i], target, cfgs));
            }
        }
        assert(self.is_walk(longer, target, cfgs));
    }

    /// A package reaches itself.
    proof fn lemma_reach_self(
        self,
        root: usize,
        target: Option<Seq<char>>,
        cfgs: Option<Seq<CfgView>>,
    )
        ensures
            self.reaches(root, root, target, cfgs),
    {
        let walk = seq![root];
        assert(self.is_walk(walk, target, cfgs));
    }
}

/// There are no more different numbers below `n` than `n`.
proof fn lemma_distinct_below(s: Seq<usize>, n: nat)
    requires
        s.no_duplicates(),
        forall|i: int| 0 <= i < s.len() ==> (#[trigger] s[i]) < n,
    ensures
        s.len() <= n,
{
    let ints = s.map_values(|p: usize| p as int);
    assert(ints.no_duplicates()) by {
        assert forall|i: int, j: int| 0 <= i < ints.len() && 0 <= j < ints.len() && i
            != j implies ints[i] != ints[j] by {
            assert(s[i] != s[j]);
        }
    }
    ints.unique_seq_to_set();
    vstd::set_lib::lemma_int_range(0, n as int);
    assert(ints.to_set().subset_of(vstd::set_lib::set_int_range(0, n as int)));
    vstd::set_lib::lemma_len_subset(ints.to_set(), vstd::set_lib::set_int_range(0, n as int));
}

/// How far the building of a graph has come: what the nodes and edges are, which
/// packages wait to be looked at, which are done, and how many of its links the
/// current one has been through.
spec fn progress(
    resolve: Resolve,
    root: usize,
    target: Option<Seq<char>>,
    cfgs: Option<Seq<CfgView>>,
    nodes: Seq<usize>,
    edges: Seq<(usize, usize, Kind)>,
    pending: Seq<usize>,
    done: Set<usize>,
    current: Option<usize>,
    k: int,
) -> bool {
    &&& nodes.no_duplicates()
    &&& nodes.len() > 0
    &&& nodes[0] == root
    &&& between(edges, nodes.len())
    &&& forall|i: int|
        0 <= i < nodes.len() ==> (#[trigger] nodes[i]) < resolve.packages@.len()
            && resolve.packages@[nodes[i] as int] is Some && resolve.reaches(
            root,
            nodes[i],
            target,
            cfgs,
        )
    &&& pending.no_duplicates()
    &&& forall|i: int|
        0 <= i < pending.len() ==> nodes.contains(#[trigger] pending[i]) && !done.contains(
            pending[i],
        ) && current != Some(pending[i])
    &&& forall|p: usize| #[trigger] done.contains(p) ==> nodes.contains(p)
    &&& current matches Some(p) ==> nodes.contains(p) && !done.contains(p)
    &&& forall|i: int|
        0 <= i < nodes.len() ==> done.contains(#[trigger] nodes[i]) || pending.contains(nodes[i])
            || current == Some(nodes[i])
    &&& forall|p: usize|
        #[trigger] links_from(package_edges(nodes, edges), p) == (if done.contains(p) {
            resolve.links(p, target, cfgs)
        } else if current == Some(p) {
            resolve.links(p, target, cfgs).take(k)
        } else {
            seq![]
        })
    &&& edges.len() == resolve.done_links(target, cfgs, done, resolve.packages@.len()) + k
}

/// At the start the root waits, alone.
proof fn lemma_progress_start(
    resolve: Resolve,
    root: usize,
    target: Option<Seq<char>>,
    cfgs: Option<Seq<CfgView>>,
)
    requires
        root < resolve.packages@.len(),
        resolve.packages@[root as int] is Some,
    ensures
        progress(
            resolve,
            root,
            target,
            cfgs,
            seq![root],
            seq![],
            seq![root],
            Set::empty(),
            None,
            0,
        ),
{
    resolve.lemma_reach_self(root, target, cfgs);
    lemma_none_done(resolve, target, cfgs, resolve.packages@.len());
    assert(seq![root][0] == root);
    assert(package_edges(seq![root], seq![]) =~= seq![]);
}

proof fn lemma_none_done(
    resolve: Resolve,
    target: Option<Seq<char>>,
    cfgs: Option<Seq<CfgView>>,
    n: nat,
)
    ensures
        resolve.done_links(target, cfgs, Set::empty(), n) == 0,
    decreases n,
{
    if n > 0 {
        lemma_none_done(resolve, target, cfgs, (n - 1) as nat);
    }
}

/// The package that is taken next becomes the current one.
proof fn lemma_progress_take(
    resolve: Resolve,
    root: usize,
    target: Option<Seq<char>>,
    cfgs: Option<Seq<CfgView>>,
    nodes: Seq<usize>,
    edges: Seq<(usize, usize, Kind)>,
    pending: Seq<usize>,
    done: Set<usize>,
)
    requires
        progress(resolve, root, target, cfgs, nodes, edges, pending, done, None, 0),
        pending.len() > 0,
    ensures
        progress(
            resolve,
            root,
            target,
            cfgs,
            nodes,
            edges,
            pending.drop_last(),
            done,
            Some(pending.last()),
            0,
        ),
{
    let rest = pending.drop_last();
    let p = pending.last();
    assert(pending[pending.len() - 1] == p);
    assert forall|i: int| 0 <= i < rest.len() implies nodes.contains(#[trigger] rest[i])
        && !done.contains(rest[i]) && Some(p) != Some(rest[i]) by {
        assert(pending[i] == rest[i]);
    }
    assert forall|i: int| 0 <= i < nodes.len() implies done.contains(#[trigger] nodes[i])
        || rest.contains(nodes[i]) || p == nodes[i] by {
        if pending.contains(nodes[i]) {
            let j = pending.index_of(nodes[i]);
            if j < rest.len() {
                assert(rest[j] == nodes[i]);
            }
        }
    }
    assert(resolve.links(p, target, cfgs).take(0) =~= seq![]);
}

/// A package that the current one depends on is entered and waits.
proof fn lemma_progress_enter(
    resolve: Resolve,
    root: usize,
    target: Option<Seq<char>>,
    cfgs: Option<Seq<CfgView>>,
    nodes: Seq<usize>,
    edges: Seq<(usize, usize, Kind)>,
    pending: Seq<usize>,
    done: Set<usize>,
    p: usize,
    k: int,
    new: usize,
)
    requires
        progress(resolve, root, target, cfgs, nodes, edges, pending, done, Some(p), k),
        !nodes.contains(new),
        new < resolve.packages@.len(),
        resolve.packages@[new as int] is Some,
        resolve.leads(p, new, target, cfgs),
    ensures
        progress(
            resolve,
            root,
            target,
            cfgs,
            nodes.push(new),
            edges,
            pending.push(new),
            done,
            Some(p),
            k,
        ),
{
    let more = nodes.push(new);
    let waiting = pending.push(new);
    let at = nodes.index_of(p);
    assert(nodes[at] == p);
    resolve.lemma_reach_on(root, p, new, target, cfgs);
    assert(package_edges(more, edges) =~= package_edges(nodes, edges));
    assert forall|q: usize| nodes.contains(q) implies more.contains(q) by {
        assert(more[nodes.index_of(q)] == q);
    }
    assert(more[nodes.len() as int] == new);
    assert(waiting[pending.len() as int] == new);
    assert forall|q: usize| pending.contains(q) implies waiting.contains(q) by {
        assert(waiting[pending.index_of(q)] == q);
    }
    assert forall|i: int, j: int| 0 <= i < j < waiting.len() implies waiting[i] != waiting[j] by {
        if j == pending.len() {
            assert(nodes.contains(pending[i]));
        }
    }
    assert forall|i: int| 0 <= i < waiting.len() implies more.contains(#[trigger] waiting[i])
        && !done.contains(waiting[i]) && Some(p) != Some(waiting[i]) by {
        if i < pending.len() {
            assert(nodes.contains(pending[i]));
        }
    }
    assert forall|i: int| 0 <= i < more.len() implies done.contains(#[trigger] more[i])
        || waiting.contains(more[i]) || p == more[i] by {
        if i < nodes.len() {
            assert(more[i] == nodes[i]);
        }
    }
}

/// The next link of the current package becomes an edge.
proof fn lemma_progress_edge(
    resolve: Resolve,
    root: usize,
    target: Option<Seq<char>>,
    cfgs: Option<Seq<CfgView>>,
    nodes: Seq<usize>,
    edges: Seq<(usize, usize, Kind)>,
    pending: Seq<usize>,
    done: Set<usize>,
    k: int,
    edge: (usize, usize, Kind),
)
    requires
        edge.0 < nodes.len(),
        edge.1 < nodes.len(),
        progress(
            resolve,
            root,
            target,
            cfgs,
            nodes,
            edges,
            pending,
            done,
            Some(nodes[edge.0 as int]),
            k,
        ),
        0 <= k < resolve.links(nodes[edge.0 as int], target, cfgs).len(),
        resolve.links(nodes[edge.0 as int], target, cfgs)[k] == (nodes[edge.1 as int], edge.2),
    ensures
        progress(
            resolve,
            root,
            target,
            cfgs,
            nodes,
            edges.push(edge),
            pending,
            done,
            Some(nodes[edge.0 as int]),
            k + 1,
        ),
{
    let p = nodes[edge.0 as int];
    let links = resolve.links(p, target, cfgs);
    let before = package_edges(nodes, edges);
    let after = package_edges(nodes, edges.push(edge));
    assert(after =~= before.push((p, nodes[edge.1 as int], edge.2)));
    assert(after.drop_last() =~= before);
    assert(links.take(k + 1) =~= links.take(k).push(links[k]));
    assert forall|q: usize| #[trigger] links_from(after, q) == (if done.contains(q) {
        resolve.links(q, target, cfgs)
    } else if Some(p) == Some(q) {
        resolve.links(q, target, cfgs).take(k + 1)
    } else {
        seq![]
    }) by {
        assert(links_from(before, q) == (if done.contains(q) {
            resolve.links(q, target, cfgs)
        } else if Some(p) == Some(q) {
            resolve.links(q, target, cfgs).take(k)
        } else {
            seq![]
        }));
    }
}

/// The current package is done once all of its links are edges.
proof fn lemma_progress_done(
    resolve: Resolve,
    root: usize,
    target: Option<Seq<char>>,
    cfgs: Option<Seq<CfgView>>,
    nodes: Seq<usize>,
    edges: Seq<(usize, usize, Kind)>,
    pending: Seq<usize>,
    done: Set<usize>,
    p: usize,
)
    requires
        progress(
            resolve,
            root,
            target,
            cfgs,
            nodes,
            edges,
            pending,
            done,
            Some(p),
            resolve.links(p, target, cfgs).len() as int,
        ),
        resolve.packages@.len() <= usize::MAX,
    ensures
        progress(resolve, root, target, cfgs, nodes, edges, pending, done.insert(p), None, 0),
{
    let links = resolve.links(p, target, cfgs);
    assert(links.take(links.len() as int) =~= links);
    assert(nodes[nodes.index_of(p)] == p);
    resolve.lemma_done_one_more(target, cfgs, done, p, resolve.packages@.len());
}

/// What holds of the graph once no package waits.
proof fn lemma_progress_end(
    resolve: Resolve,
    root: usize,
    target: Option<Seq<char>>,
    cfgs: Option<Seq<CfgView>>,
    nodes: Seq<usize>,
    edges: Seq<(usize, usize, Kind)>,
    done: Set<usize>,
)
    requires
        progress(resolve, root, target, cfgs, nodes, edges, seq![], done, None, 0),
    ensures
        forall|p: usize|
            #[trigger] nodes.contains(p) ==> links_from(package_edges(nodes, edges), p)
                == resolve.links(p, target, cfgs),
        forall|p: usize|
            #[trigger] nodes.contains(p) == resolve.reaches(root, p, target, cfgs),
        forall|p: usize|
            #[trigger] resolve.reaches(root, p, target, cfgs) ==> resolve.packages@[p as int] is Some,
{
    let ed = package_edges(nodes, edges);
    assert forall|p: usize| #[trigger] nodes.contains(p) implies links_from(ed, p)
        == resolve.links(p, target, cfgs) by {
        assert(nodes[nodes.index_of(p)] == p);
        assert(done.contains(p));
    }
    assert forall|a: usize, b: usize|
        nodes.contains(a) && #[trigger] resolve.leads(a, b, target, cfgs) implies nodes.contains(
        b,
    ) by {
        let j = choose|j: int|
            0 <= j < resolve.links(a, target, cfgs).len() && (#[trigger] resolve.links(
                a,
                target,
                cfgs,
            )[j]).0 == b;
        assert(links_from(ed, a)[j].0 == b);
        lemma_link_ends(nodes, edges, a, j);
    }
    assert(nodes[0] == root);
    assert forall|p: usize| #[trigger] nodes.contains(p) == resolve.reaches(
        root,
        p,
        target,
        cfgs,
    ) by {
        if nodes.contains(p) {
            assert(nodes[nodes.index_of(p)] == p);
        }
        if resolve.reaches(root, p, target, cfgs) {
            let walk = choose|walk: Seq<usize>|
                #[trigger] resolve.is_walk(walk, target, cfgs) && walk[0] == root && walk.last()
                    == p;
            resolve.lemma_closed(walk, target, cfgs, nodes);
        }
    }
    assert forall|p: usize| #[trigger] resolve.reaches(
        root,
        p,
        target,
        cfgs,
    ) implies resolve.packages@[p as int] is Some by {
        assert(nodes.contains(p));
        assert(nodes[nodes.index_of(p)] == p);
    }
}

/// A link that comes from an edge leads to a node.
proof fn lemma_link_ends(
    nodes: Seq<usize>,
    edges: Seq<(usize, usize, Kind)>,
    package: usize,
    j: int,
)
    requires
        between(edges, nodes.len()),
        0 <= j < links_from(package_edges(nodes, edges), package).len(),
    ensures
        nodes.contains(links_from(package_edges(nodes, edges), package)[j].0),
    decreases edges.len(),
{
    let ed = package_edges(nodes, edges);
    let rest = edges.drop_last();
    let rest_links = links_from(package_edges(nodes, rest), package);
    assert(ed.drop_last() =~= package_edges(nodes, rest));
    assert(edges[edges.len() - 1] == edges.last());
    if j < rest_links.len() {
        assert forall|i: int| 0 <= i < rest.len() implies (#[trigger] rest[i]).0 < nodes.len()
            && rest[i].1 < nodes.len() by {
            assert(rest[i] == edges[i]);
        }
        lemma_link_ends(nodes, rest, package, j);
    }
}

/// Enters a package as a node of its own.
fn enter(
    graph: &mut petgraph::Graph<usize, Kind>,
    index: &mut HashMap<usize, usize>,
    package: usize,
) -> (node: usize)
    requires
        indexed(graph_nodes(*old(graph)), old(index)@),
        !graph_nodes(*old(graph)).contains(package),
        graph_nodes(*old(graph)).len() < u32::MAX,
    ensures
        node == graph_nodes(*old(graph)).len(),
        indexed(graph_nodes(*final(graph)), final(index)@),
        graph_nodes(*final(graph)) == graph_nodes(*old(graph)).push(package),
        graph_edges(*final(graph)) == graph_edges(*old(graph)),
{
    let ghost before = graph_nodes(*graph);
    let node: usize = add_node(graph, package);
    index.insert(package, node);
    proof {
        let after = graph_nodes(*graph);
        assert forall|p: usize| #[trigger] index@.contains_key(p) == after.contains(p) by {
            assert(after[before.len() as int] == package);
            if before.contains(p) {
                assert(after[before.index_of(p)] == p);
            }
            if after.contains(p) && p != package {
                assert(before[after.index_of(p)] == p);
            }
        }
        assert forall|i: int| 0 <= i < after.len() implies index@.contains_key(#[trigger] after[i])
            && index@[after[i]] == i by {
            if i < before.len() {
                assert(before[i] == after[i]);
                assert(before.contains(before[i]));
            }
        }
    }
    node
}

/// Builds the graph of the packages that the root depends on, directly and
/// indirectly, for a target with the given settings, or for all targets where
/// none is given. Where a package is needed that was not loaded, its number comes
/// back.
#[verifier::rlimit(40)]
pub fn build_graph(
    resolve: &Resolve,
    root: usize,
    target: Option<&str>,
    cfgs: &Option<Vec<Cfg>>,
) -> (r: Result<PackageGraph, usize>)
    requires
        resolve.wf(),
        root < resolve.packages@.len(),
        resolve.fits(target_text(target), known_cfgs(*cfgs)),
    ensures
        match r {
            Ok(graph) => {
                &&& graph.packages().no_duplicates()
                &&& graph.packages().len() > 0
                &&& graph.packages()[0] == root
                &&& forall|p: usize|
                    #[trigger] graph.packages().contains(p) == resolve.reaches(
                        root,
                        p,
                        target_text(target),
                        known_cfgs(*cfgs),
                    )
                &&& forall|p: usize|
                    #[trigger] graph.packages().contains(p) ==> links_from(graph.edges(), p)
                        == resolve.links(p, target_text(target), known_cfgs(*cfgs))
                &&& forall|i: int|
                    0 <= i < graph.edges().len() ==> graph.packages().contains(
                        (#[trigger] graph.edges()[i]).0,
                    ) && graph.packages().contains(graph.edges()[i].1)
                &&& forall|p: usize|
                    #[trigger] resolve.reaches(
                        root,
                        p,
                        target_text(target),
                        known_cfgs(*cfgs),
                    ) ==> resolve.packages@[p as int] is Some
            },
            Err(missing) => {
                &&& missing < resolve.packages@.len()
                &&& resolve.packages@[missing as int] is None
                &&& resolve.reaches(root, missing, target_text(target), known_cfgs(*cfgs))
            },
        },
{
    let ghost t = target_text(target);
    let ghost c = known_cfgs(*cfgs);
    let ghost n = resolve.packages@.len();
    let mut graph = new_graph();
    let mut nodes: HashMap<usize, usize> = HashMap::new();
    if resolve.packages[root].is_none() {
        proof {
            resolve.lemma_reach_self(root, t, c);
        }
        return Err(root);
    }
    enter(&mut graph, &mut nodes, root);
    let mut pending: Vec<usize> = Vec::new();
    pending.push(root);
    let ghost mut done: Set<usize> = Set::empty();
    proof {
        lemma_progress_start(*resolve, root, t, c);
        assert(graph_nodes(graph) =~= seq![root]);
        assert(graph_edges(graph) =~= seq![]);
        assert(pending@ =~= seq![root]);
        lemma_distinct_below(graph_nodes(graph), n);
    }
    while pending.len() > 0
        invariant
            t == target_text(target),
            c == known_cfgs(*cfgs),
            n == resolve.packages@.len(),
            resolve.wf(),
            resolve.fits(t, c),
            indexed(graph_nodes(graph), nodes@),
            graph_nodes(graph).len() <= n,
            progress(
                *resolve,
                root,
                t,
                c,
                graph_nodes(graph),
                graph_edges(graph),
                pending@,
                done,
                None,
                0,
            ),
        decreases 2 * (n - graph_nodes(graph).len()) + pending.len(),
    {
        let ghost waiting = pending@;
        proof {
            lemma_progress_take(
                *resolve,
                root,
                t,
                c,
                graph_nodes(graph),
                graph_edges(graph),
                waiting,
                done,
            );
        }
        let ghost weight = 2 * (n - graph_nodes(graph).len()) + pending.len();
        let package: usize = pending[pending.len() - 1];
        pending.pop();
        assert(pending@ =~= waiting.drop_last());
        proof {
            let at = graph_nodes(graph).index_of(package);
            assert(graph_nodes(graph)[at] == package);
            assert(nodes@.contains_key(package));
            resolve.lemma_links(package, t, c);
        }
        let from: usize = *nodes.get(&package).unwrap();
        let links = match &resolve.packages[package] {
            Some(loaded) => {
                proof {
                    assert forall|j: int| 0 <= j < loaded.deps@.len() implies (
                    #[trigger] loaded.deps@[j]) < resolve.packages@.len() by {
                        assert(resolve.packages@[package as int]->0.deps@[j]
                            < resolve.packages@.len());
                    }
                }
                package_links(resolve, loaded, target, cfgs)
            },
            None => Vec::new(),
        };
        assert(links@ == resolve.links(package, t, c));
        proof {
            resolve.lemma_done_one_more(t, c, done, package, n);
            resolve.lemma_done_bound(t, c, done.insert(package), n);
        }
        let mut k: usize = 0;
        while k < links.len()
            invariant
                k <= links.len(),
                t == target_text(target),
                c == known_cfgs(*cfgs),
                n == resolve.packages@.len(),
                n < u32::MAX,
                package < n,
                links@ == resolve.links(package, t, c),
                forall|j: int| 0 <= j < links.len() ==> (#[trigger] links@[j]).0 < n,
                resolve.done_links(t, c, done, n) + links.len() < u32::MAX,
                indexed(graph_nodes(graph), nodes@),
                graph_nodes(graph).len() <= n,
                from < graph_nodes(graph).len(),
                graph_nodes(graph)[from as int] == package,
                2 * (n - graph_nodes(graph).len()) + pending.len() < weight,
                progress(
                    *resolve,
                    root,
                    t,
                    c,
                    graph_nodes(graph),
                    graph_edges(graph),
                    pending@,
                    done,
                    Some(package),
                    k as int,
                ),
            decreases links.len() - k,
        {
            let (id, kind): (usize, Kind) = links[k];
            let ghost before = graph_nodes(graph);
            proof {
                assert(links@[k as int].0 == id);
                assert(resolve.leads(package, id, t, c));
            }
            let found: Option<usize> = match nodes.get(&id) {
                Some(i) => Some(*i),
                None => None,
            };
            let to: usize = match found {
                Some(i) => {
                    proof {
                        assert(nodes@.contains_key(id));
                        let at = before.index_of(id);
                        assert(before[at] == id);
                    }
                    i
                },
                None => {
                    assert(!nodes@.contains_key(id));
                    if resolve.packages[id].is_none() {
                        proof {
                            resolve.lemma_reach_on(root, package, id, t, c);
                        }
                        return Err(id);
                    }
                    proof {
                        lemma_progress_enter(
                            *resolve,
                            root,
                            t,
                            c,
                            before,
                            graph_edges(graph),
                            pending@,
                            done,
                            package,
                            k as int,
                            id,
                        );
                        lemma_distinct_below(before.push(id), n);
                    }
                    pending.push(id);
                    enter(&mut graph, &mut nodes, id)
                },
            };
            proof {
                lemma_progress_edge(
                    *resolve,
                    root,
                    t,
                    c,
                    graph_nodes(graph),
                    graph_edges(graph),
                    pending@,
                    done,
                    k as int,
                    (from, to, kind),
                );
            }
            add_edge(&mut graph, from, to, kind);
            k += 1;
        }
        proof {
            lemma_progress_done(
                *resolve,
                root,
                t,
                c,
                graph_nodes(graph),
                graph_edges(graph),
                pending@,
                done,
                package,
            );
            done = done.insert(package);
        }
    }
    proof {
        assert(pending@ =~= seq![]);
        lemma_progress_end(*resolve, root, t, c, graph_nodes(graph), graph_edges(graph), done);
    }
    let r = PackageGraph { graph, nodes };
    proof {
        assert forall|i: int| 0 <= i < r.edges().len() implies r.packages().contains(
            (#[trigger] r.edges()[i]).0,
        ) && r.packages().contains(r.edges()[i].1) by {
            assert(graph_edges(r.graph)[i].0 < r.packages().len());
        }
    }
    Ok(r)
}

/// The packages at the far ends of the edges that have a package at their near
/// end, each with what the dependency is for.
pub open spec fn ends(
    edges: Seq<PackageEdge>,
    package: usize,
    direction: EdgeDirection,
) -> Seq<Link>
    decreases edges.len(),
{
    if edges.len() == 0 {
        seq![]
    } else {
        let rest = ends(edges.drop_last(), package, direction);
        let e = edges.last();
        match direction {
            EdgeDirection::Outgoing => if e.0 == package {
                rest.push((e.1, e.2))
            } else {
                rest
            },
            EdgeDirection::Incoming => if e.1 == package {
                rest.push((e.0, e.2))
            } else {
                rest
            },
        }
    }
}

/// The link that an edge is, seen from its near end.
spec fn far_end(nodes: Seq<usize>, e: (usize, usize, Kind), direction: EdgeDirection) -> Link {
    match direction {
        EdgeDirection::Outgoing => (nodes[e.1 as int], e.2),
        EdgeDirection::Incoming => (nodes[e.0 as int], e.2),
    }
}

/// The edges of a node are those of its package.
proof fn lemma_ends(
    nodes: Seq<usize>,
    edges: Seq<(usize, usize, Kind)>,
    node: usize,
    direction: EdgeDirection,
)
    requires
        nodes.no_duplicates(),
        between(edges, nodes.len()),
        node < nodes.len(),
    ensures
        between(edges_at(edges, node, direction), nodes.len()),
        ends(package_edges(nodes, edges), nodes[node as int], direction) == edges_at(
            edges,
            node,
            direction,
        ).map_values(|e: (usize, usize, Kind)| far_end(nodes, e, direction)),
    decreases edges.len(),
{
    let far = |e: (usize, usize, Kind)| far_end(nodes, e, direction);
    let all = ends(package_edges(nodes, edges), nodes[node as int], direction);
    let own = edges_at(edges, node, direction);
    if edges.len() == 0 {
        assert(all =~= own.map_values(far));
    } else {
        let rest = edges.drop_last();
        assert forall|i: int| 0 <= i < rest.len() implies (#[trigger] rest[i]).0 < nodes.len()
            && rest[i].1 < nodes.len() by {
            assert(rest[i] == edges[i]);
        }
        lemma_ends(nodes, rest, node, direction);
        let ed = package_edges(nodes, edges);
        assert(ed.drop_last() =~= package_edges(nodes, rest));
        let e = edges.last();
        assert(edges[edges.len() - 1] == e);
        assert(ed.last() == (nodes[e.0 as int], nodes[e.1 as int], e.2));
        let rest_own = edges_at(rest, node, direction);
        assert forall|i: int| 0 <= i < own.len() implies (#[trigger] own[i]).0 < nodes.len()
            && own[i].1 < nodes.len() by {
            if i < rest_own.len() {
                assert(rest_own[i] == own[i]);
            }
        }
        assert(all =~= own.map_values(far));
    }
}

impl PackageGraph {
    /// Whether a package is in the graph.
    pub fn contains(&self, package: usize) -> (r: bool)
        ensures
            r == self.packages().contains(package),
    {
        proof {
            use_type_invariant(self);
        }
        self.nodes.contains_key(&package)
    }

    /// How many packages are in the graph.
    pub fn len(&self) -> (n: usize)
        ensures
            n == self.packages().len(),
    {
        node_count(&self.graph)
    }

    /// The packages next to a package, in one direction. The edge that was added
    /// last comes first.
    pub fn neighbors(&self, package: usize, direction: EdgeDirection) -> (r: Vec<Link>)
        requires
            self.packages().contains(package),
        ensures
            r@ == ends(self.edges(), package, direction).reverse(),
            forall|j: int| 0 <= j < r@.len() ==> self.packages().contains((#[trigger] r@[j]).0),
    {
        proof {
            use_type_invariant(self);
            let at = graph_nodes(self.graph).index_of(package);
            assert(graph_nodes(self.graph)[at] == package);
            assert(self.nodes@.contains_key(package));
        }
        let node: usize = *self.nodes.get(&package).unwrap();
        let edges = edges_directed(&self.graph, node, direction);
        let ghost nodes = graph_nodes(self.graph);
        let ghost own = edges_at(graph_edges(self.graph), node, direction);
        let ghost far = |e: (usize, usize, Kind)| far_end(nodes, e, direction);
        proof {
            lemma_ends(nodes, graph_edges(self.graph), node, direction);
        }
        let mut r: Vec<Link> = Vec::new();
        let mut i: usize = 0;
        while i < edges.len()
            invariant
                i <= edges.len(),
                nodes == graph_nodes(self.graph),
                edges@ == own.reverse(),
                between(own, nodes.len()),
                far == (|e: (usize, usize, Kind)| far_end(nodes, e, direction)),
                r@ == edges@.take(i as int).map_values(far),
                forall|j: int| 0 <= j < r@.len() ==> nodes.contains((#[trigger] r@[j]).0),
            decreases edges.len() - i,
        {
            let (from, to, kind): (usize, usize, Kind) = edges[i];
            proof {
                assert(edges@[i as int] == own[own.len() - 1 - i]);
            }
            let end: usize = match direction {
                EdgeDirection::Incoming => from,
                EdgeDirection::Outgoing => to,
            };
            r.push((node_weight(&self.graph, end), kind));
            assert(r@ =~= edges@.take(i + 1).map_values(far));
            i += 1;
        }
        proof {
            assert(edges@.take(i as int) =~= edges@);
            assert(r@ =~= own.map_values(far).reverse());
        }
        r
    }
}

/// Whether packages and links are few enough for a graph.
pub fn links_fit(resolve: &Resolve, target: Option<&str>, cfgs: &Option<Vec<Cfg>>) -> (r: bool)
    requires
        resolve.wf(),
    ensures
        r == resolve.fits(target_text(target), known_cfgs(*cfgs)),
{
    let ghost t = target_text(target);
    let ghost c = known_cfgs(*cfgs);
    let limit: usize = u32::MAX as usize;
    let n: usize = resolve.packages.len();
    if n >= limit {
        return false;
    }
    let mut total: usize = 0;
    let mut i: usize = 0;
    while i < n
        invariant
            i <= n,
            n == resolve.packages@.len(),
            limit == u32::MAX,
            resolve.wf(),
            t == target_text(target),
            c == known_cfgs(*cfgs),
            total == resolve.total_links(t, c, i as nat),
            total < limit,
        decreases n - i,
    {
        let links: usize = match &resolve.packages[i] {
            Some(package) => {
                proof {
                    assert forall|j: int| 0 <= j < package.deps@.len() implies (
                    #[trigger] package.deps@[j]) < resolve.packages@.len() by {
                        assert(resolve.packages@[i as int]->0.deps@[j] < resolve.packages@.len());
                    }
                }
                package_links(resolve, package, target, cfgs).len()
            },
            None => 0,
        };
        assert(links == resolve.links(i, t, c).len());
        if links >= limit - total {
            proof {
                resolve.lemma_total_grows(t, c, i as nat + 1, n as nat);
            }
            return false;
        }
        total += links;
        i += 1;
    }
    true
}

impl Resolve {
    /// More packages have no fewer links.
    proof fn lemma_total_grows(
        self,
        target: Option<Seq<char>>,
        cfgs: Option<Seq<CfgView>>,
        m: nat,
        n: nat,
    )
        requires
            m <= n,
        ensures
            self.total_links(target, cfgs, m) <= self.total_links(target, cfgs, n),
        decreases n,
    {
        if m < n {
            self.lemma_total_grows(target, cfgs, m, (n - 1) as nat);
        }
    }
}

/// Following edges outwards gives the links from a package.
pub proof fn lemma_outgoing_ends(edges: Seq<PackageEdge>, package: usize)
    ensures
        ends(edges, package, EdgeDirection::Outgoing) == links_from(edges, package),
    decreases edges.len(),
{
    if edges.len() > 0 {
        lemma_outgoing_ends(edges.drop_last(), package);
    }
}

/// Law: following edges backwards undoes following them. A package is at the far
/// end of an edge from another exactly where the other is at the far end of an
/// edge into it, for the same purpose.
pub proof fn lemma_directions_mirror(
    edges: Seq<PackageEdge>,
    a: usize,
    b: usize,
    kind: Kind,
)
    ensures
        ends(edges, a, EdgeDirection::Outgoing).contains((b, kind)) == ends(
            edges,
            b,
            EdgeDirection::Incoming,
        ).contains((a, kind)),
{
    lemma_ends_hold(edges, a, EdgeDirection::Outgoing, (b, kind));
    lemma_ends_hold(edges, b, EdgeDirection::Incoming, (a, kind));
}

/// Law: a link is found at a package where the edge that it stands for is there.
pub proof fn lemma_ends_hold(
    edges: Seq<PackageEdge>,
    package: usize,
    direction: EdgeDirection,
    link: Link,
)
    ensures
        ends(edges, package, direction).contains(link) == edges.contains(
            match direction {
                EdgeDirection::Outgoing => (package, link.0, link.1),
                EdgeDirection::Incoming => (link.0, package, link.1),
            },
        ),
    decreases edges.len(),
{
    let wanted = match direction {
        EdgeDirection::Outgoing => (package, link.0, link.1),
        EdgeDirection::Incoming => (link.0, package, link.1),
    };
    let all = ends(edges, package, direction);
    if edges.len() > 0 {
        let rest_edges = edges.drop_last();
        let rest = ends(rest_edges, package, direction);
        lemma_ends_hold(rest_edges, package, direction, link);
        assert(edges[edges.len() - 1] == edges.last());
        if rest.contains(link) {
            assert(all[rest.index_of(link)] == link);
        }
        if rest_edges.contains(wanted) {
            assert(edges[rest_edges.index_of(wanted)] == wanted);
        }
        if edges.last() == wanted {
            assert(all[rest.len() as int] == link);
        }
        if all.contains(link) {
            let i = all.index_of(link);
            if i < rest.len() {
                assert(rest[i] == link);
            }
        }
        if edges.contains(wanted) {
            let i = edges.index_of(wanted);
            if i < rest_edges.len() {
                assert(rest_edges[i] == wanted);
            }
        }
    }
}

/// Where no target is given, a dependency counts that counts for some target.
proof fn lemma_links_to_all_targets(
    raw: usize,
    id: usize,
    declared: Seq<Dependency>,
    target: Option<Seq<char>>,
    cfgs: Option<Seq<CfgView>>,
    other: Option<Seq<CfgView>>,
    link: Link,
)
    requires
        links_to(raw, id, declared, target, cfgs).contains(link),
    ensures
        links_to(raw, id, declared, None, other).contains(link),
    decreases declared.len(),
{
    let some = links_to(raw, id, declared, target, cfgs);
    let every = links_to(raw, id, declared, None, other);
    let rest = declared.drop_last();
    let rest_some = links_to(raw, id, rest, target, cfgs);
    let rest_every = links_to(raw, id, rest, None, other);
    let i = some.index_of(link);
    if i < rest_some.len() {
        assert(rest_some[i] == link);
        lemma_links_to_all_targets(raw, id, rest, target, cfgs, other, link);
        assert(every[rest_every.index_of(link)] == link);
    } else {
        assert(every[rest_every.len() as int] == link);
    }
}

impl Resolve {
    proof fn lemma_links_for_all_targets(
        self,
        raws: Seq<usize>,
        declared: Seq<Dependency>,
        target: Option<Seq<char>>,
        cfgs: Option<Seq<CfgView>>,
        other: Option<Seq<CfgView>>,
        link: Link,
    )
        requires
            self.links_to_all(raws, declared, target, cfgs).contains(link),
        ensures
            self.links_to_all(raws, declared, None, other).contains(link),
        decreases raws.len(),
    {
        let some = self.links_to_all(raws, declared, target, cfgs);
        let every = self.links_to_all(raws, declared, None, other);
        let rest = raws.drop_last();
        let raw = raws.last();
        let rest_some = self.links_to_all(rest, declared, target, cfgs);
        let rest_every = self.links_to_all(rest, declared, None, other);
        let last_some = links_to(raw, self.replaced(raw), declared, target, cfgs);
        let last_every = links_to(raw, self.replaced(raw), declared, None, other);
        let i = some.index_of(link);
        if i < rest_some.len() {
            assert(rest_some[i] == link);
            self.lemma_links_for_all_targets(rest, declared, target, cfgs, other, link);
            assert(every[rest_every.index_of(link)] == link);
        } else {
            assert(last_some[i - rest_some.len()] == link);
            lemma_links_to_all_targets(
                raw,
                self.replaced(raw),
                declared,
                target,
                cfgs,
                other,
                link,
            );
            assert(every[rest_every.len() + last_every.index_of(link)] == link);
        }
    }

    /// Law: a package that is reached for some target, with whatever settings, is
    /// reached where dependencies for all targets count.
    pub proof fn lemma_all_targets_reach_more(
        self,
        root: usize,
        package: usize,
        target: Option<Seq<char>>,
        cfgs: Option<Seq<CfgView>>,
        other: Option<Seq<CfgView>>,
    )
        requires
            self.reaches(root, package, target, cfgs),
        ensures
            self.reaches(root, package, None, other),
    {
        let walk = choose|walk: Seq<usize>|
            #[trigger] self.is_walk(walk, target, cfgs) && walk[0] == root && walk.last()
                == package;
        assert forall|i: int| 0 < i < walk.len() implies self.leads(
            walk[i - 1],
            #[trigger] walk[i],
            None,
            other,
        ) by {
            let a = walk[i - 1];
            let b = walk[i];
            assert(self.leads(a, b, target, cfgs));
            let some = self.links(a, target, cfgs);
            let every = self.links(a, None, other);
            let j = choose|j: int| 0 <= j < some.len() && (#[trigger] some[j]).0 == b;
            let package = self.packages@[a as int]->0;
            assert(some.contains(some[j]));
            self.lemma_links_for_all_targets(
                package.deps@,
                package.dependencies@,
                target,
                cfgs,
                other,
                some[j],
            );
            assert(every[every.index_of(some[j])].0 == b);
        }
        assert(self.is_walk(walk, None, other));
    }
}

/// Law: a declared dependency counts for the packages that match it, and, where a
/// target is given and it is limited to a platform, only where that is met. What it is
/// for has no bearing on this.
pub proof fn lemma_platform_limits_every_kind(
    d: Dependency,
    e: Dependency,
    id: usize,
    target: Option<Seq<char>>,
    cfgs: Option<Seq<CfgView>>,
)
    ensures
        d.applies(id, target, cfgs) <==> {
            &&& exists|i: int| 0 <= i < d.matching@.len() && #[trigger] d.matching@[i] == id
            &&& target is None || d.platform is None || d.platform->0.met(target->0, cfgs)
        },
        d.matching@ == e.matching@ && d.platform == e.platform ==> d.applies(id, target, cfgs)
            == e.applies(id, target, cfgs),
{
}

/// Law: a package is replaced by the one that stands in for it, and is itself where
/// none does.
pub proof fn lemma_replaced(r: Resolve, id: usize)
    requires
        r.wf(),
        id < r.packages@.len(),
    ensures
        r.replacements@[id as int] == Some(r.replaced(id)) || (r.replacements@[id as int] is None
            && r.replaced(id) == id),
{
}

/// Law: the declared dependencies of a package make their links one after the other:
/// those that count make one each, for what they are declared for, the others none.
pub proof fn lemma_declared_dependencies_join(
    raw: usize,
    id: usize,
    a: Seq<Dependency>,
    b: Seq<Dependency>,
    d: Dependency,
    target: Option<Seq<char>>,
    cfgs: Option<Seq<CfgView>>,
)
    ensures
        links_to(raw, id, a + b, target, cfgs) == links_to(raw, id, a, target, cfgs) + links_to(
            raw,
            id,
            b,
            target,
            cfgs,
        ),
        links_to(raw, id, seq![d], target, cfgs) == if d.applies(raw, target, cfgs) {
            seq![(id, d.kind)]
        } else {
            Seq::<Link>::empty()
        },
        links_to(raw, id, seq![], target, cfgs) == Seq::<Link>::empty(),
    decreases b.len(),
{
    assert(seq![d].drop_last() =~= seq![]);
    assert(links_to(raw, id, seq![d].drop_last(), target, cfgs) =~= seq![]);
    assert(Seq::<Link>::empty().push((id, d.kind)) =~= seq![(id, d.kind)]);
    if b.len() == 0 {
        assert(a + b =~= a);
        assert(links_to(raw, id, a, target, cfgs) + links_to(raw, id, b, target, cfgs)
            =~= links_to(raw, id, a, target, cfgs));
    } else {
        assert((a + b).drop_last() =~= a + b.drop_last());
        lemma_declared_dependencies_join(raw, id, a, b.drop_last(), d, target, cfgs);
        assert(links_to(raw, id, a + b, target, cfgs) =~= links_to(raw, id, a, target, cfgs)
            + links_to(raw, id, b, target, cfgs));
    }
}

impl Resolve {
    /// Law: the packages that the dependencies were resolved to make their links one
    /// after the other, each to the package that stands in for it.
    pub proof fn lemma_resolved_packages_join(
        self,
        a: Seq<usize>,
        b: Seq<usize>,
        raw: usize,
        declared: Seq<Dependency>,
        target: Option<Seq<char>>,
        cfgs: Option<Seq<CfgView>>,
    )
        ensures
            self.links_to_all(a + b, declared, target, cfgs) == self.links_to_all(
                a,
                declared,
                target,
                cfgs,
            ) + self.links_to_all(b, declared, target, cfgs),
            self.links_to_all(seq![raw], declared, target, cfgs) == links_to(
                raw,
                self.replaced(raw),
                declared,
                target,
                cfgs,
            ),
            self.links_to_all(seq![], declared, target, cfgs) == Seq::<Link>::empty(),
        decreases b.len(),
    {
        assert(seq![raw].drop_last() =~= seq![]);
        assert(self.links_to_all(seq![raw].drop_last(), declared, target, cfgs) =~= seq![]);
        assert(self.links_to_all(seq![raw], declared, target, cfgs) =~= links_to(
            raw,
            self.replaced(raw),
            declared,
            target,
            cfgs,
        ));
        let left = self.links_to_all(a, declared, target, cfgs);
        if b.len() == 0 {
            assert(a + b =~= a);
            assert(left + self.links_to_all(b, declared, target, cfgs) =~= left);
        } else {
            assert((a + b).drop_last() =~= a + b.drop_last());
            self.lemma_resolved_packages_join(a, b.drop_last(), raw, declared, target, cfgs);
            assert(self.links_to_all(a + b, declared, target, cfgs) =~= left + self.links_to_all(
                b,
                declared,
                target,
                cfgs,
            ));
        }
    }

    /// Law: a package depends on another for a purpose exactly where one of the
    /// packages that its dependencies were resolved to is, or is replaced by, the other,
    /// and a dependency that it declares for that purpose counts for the package.
    pub proof fn lemma_links_come_from_declarations(
        self,
        id: usize,
        package: Package,
        target: Option<Seq<char>>,
        cfgs: Option<Seq<CfgView>>,
        link: Link,
    )
        requires
            self.packages@[id as int] == Some(package),
        ensures
            self.links(id, target, cfgs).contains(link) <==> exists|i: int, j: int|
                {
                    &&& 0 <= i < package.deps@.len()
                    &&& 0 <= j < package.dependencies@.len()
                    &&& (#[trigger] package.dependencies@[j]).applies(
                        #[trigger] package.deps@[i],
                        target,
                        cfgs,
                    )
                    &&& link == (self.replaced(package.deps@[i]), package.dependencies@[j].kind)
                },
    {
        self.lemma_links_to_all_hold(package.deps@, package.dependencies@, target, cfgs, link);
    }

    proof fn lemma_links_to_all_hold(
        self,
        raws: Seq<usize>,
        declared: Seq<Dependency>,
        target: Option<Seq<char>>,
        cfgs: Option<Seq<CfgView>>,
        link: Link,
    )
        ensures
            self.links_to_all(raws, declared, target, cfgs).contains(link) <==> exists|
                i: int,
                j: int,
            |
                {
                    &&& 0 <= i < raws.len()
                    &&& 0 <= j < declared.len()
                    &&& (#[trigger] declared[j]).applies(#[trigger] raws[i], target, cfgs)
                    &&& link == (self.replaced(raws[i]), declared[j].kind)
                },
        decreases raws.len(),
    {
        let all = self.links_to_all(raws, declared, target, cfgs);
        if raws.len() > 0 {
            let front = raws.drop_last();
            let raw = raws.last();
            let rest = self.links_to_all(front, declared, target, cfgs);
            let new = links_to(raw, self.replaced(raw), declared, target, cfgs);
            self.lemma_links_to_all_hold(front, declared, target, cfgs, link);
            lemma_links_to_hold(raw, self.replaced(raw), declared, target, cfgs, link);
            assert(raws[raws.len() - 1] == raw);
            if rest.contains(link) {
                assert(all[rest.index_of(link)] == link);
                let (i, j) = choose|i: int, j: int|
                    {
                        &&& 0 <= i < front.len()
                        &&& 0 <= j < declared.len()
                        &&& (#[trigger] declared[j]).applies(#[trigger] front[i], target, cfgs)
                        &&& link == (self.replaced(front[i]), declared[j].kind)
                    };
                assert(raws[i] == front[i]);
                assert(declared[j].applies(raws[i], target, cfgs));
            }
            if new.contains(link) {
                assert(all[rest.len() + new.index_of(link)] == link);
                let j = choose|j: int|
                    {
                        &&& 0 <= j < declared.len()
                        &&& (#[trigger] declared[j]).applies(raw, target, cfgs)
                        &&& link == (self.replaced(raw), declared[j].kind)
                    };
                assert(declared[j].applies(raws[raws.len() - 1], target, cfgs));
            }
            if all.contains(link) {
                let at = all.index_of(link);
                if at < rest.len() {
                    assert(rest[at] == link);
                } else {
                    assert(new[at - rest.len()] == link);
                }
            }
            if exists|i: int, j: int|
                {
                    &&& 0 <= i < raws.len()
                    &&& 0 <= j < declared.len()
                    &&& (#[trigger] declared[j]).applies(#[trigger] raws[i], target, cfgs)
                    &&& link == (self.replaced(raws[i]), declared[j].kind)
                } {
                let (i, j) = choose|i: int, j: int|
                    {
                        &&& 0 <= i < raws.len()
                        &&& 0 <= j < declared.len()
                        &&& (#[trigger] declared[j]).applies(#[trigger] raws[i], target, cfgs)
                        &&& link == (self.replaced(raws[i]), declared[j].kind)
                    };
                if i < front.len() {
                    assert(front[i] == raws[i]);
                    assert(declared[j].applies(front[i], target, cfgs));
                }
            }
        }
    }

    /// Law: in a graph whose links are those of the packages in it, each edge comes from
    /// a dependency that the package at its beginning declares, for the purpose that the
    /// edge has, and that counts for the target.
    pub proof fn lemma_edges_come_from_declarations(
        self,
        edges: Seq<PackageEdge>,
        target: Option<Seq<char>>,
        cfgs: Option<Seq<CfgView>>,
        e: PackageEdge,
        package: Package,
    )
        requires
            self.packages@[e.0 as int] == Some(package),
            links_from(edges, e.0) == self.links(e.0, target, cfgs),
        ensures
            edges.contains(e) <==> exists|i: int, j: int|
                {
                    let d = package.dependencies@[j];
                    &&& 0 <= i < package.deps@.len()
                    &&& 0 <= j < package.dependencies@.len()
                    &&& self.replaced(#[trigger] package.deps@[i]) == e.1
                    &&& (#[trigger] package.dependencies@[j]).kind == e.2
                    &&& d.matching@.contains(package.deps@[i])
                    &&& target is None || d.platform is None || d.platform->0.met(target->0, cfgs)
                },
    {
        lemma_outgoing_ends(edges, e.0);
        lemma_ends_hold(edges, e.0, EdgeDirection::Outgoing, (e.1, e.2));
        self.lemma_links_come_from_declarations(e.0, package, target, cfgs, (e.1, e.2));
        if edges.contains(e) {
            let (i, j) = choose|i: int, j: int|
                {
                    &&& 0 <= i < package.deps@.len()
                    &&& 0 <= j < package.dependencies@.len()
                    &&& (#[trigger] package.dependencies@[j]).applies(
                        #[trigger] package.deps@[i],
                        target,
                        cfgs,
                    )
                    &&& (e.1, e.2) == (
                        self.replaced(package.deps@[i]),
                        package.dependencies@[j].kind,
                    )
                };
            assert(self.replaced(package.deps@[i]) == e.1);
            assert(package.dependencies@[j].kind == e.2);
        }
        if exists|i: int, j: int|
            {
                let d = package.dependencies@[j];
                &&& 0 <= i < package.deps@.len()
                &&& 0 <= j < package.dependencies@.len()
                &&& self.replaced(#[trigger] package.deps@[i]) == e.1
                &&& (#[trigger] package.dependencies@[j]).kind == e.2
                &&& d.matching@.contains(package.deps@[i])
                &&& target is None || d.platform is None || d.platform->0.met(target->0, cfgs)
            } {
            let (i, j) = choose|i: int, j: int|
                {
                    let d = package.dependencies@[j];
                    &&& 0 <= i < package.deps@.len()
                    &&& 0 <= j < package.dependencies@.len()
                    &&& self.replaced(#[trigger] package.deps@[i]) == e.1
                    &&& (#[trigger] package.dependencies@[j]).kind == e.2
                    &&& d.matching@.contains(package.deps@[i])
                    &&& target is None || d.platform is None || d.platform->0.met(target->0, cfgs)
                };
            assert(package.dependencies@[j].applies(package.deps@[i], target, cfgs));
        }
    }

    /// Law: the packages that a package reaches are the smallest set that holds it and,
    /// with each package, those that it depends on.
    pub proof fn lemma_reach_is_closure(
        self,
        root: usize,
        package: usize,
        target: Option<Seq<char>>,
        cfgs: Option<Seq<CfgView>>,
    )
        ensures
            self.reaches(root, package, target, cfgs) <==> forall|s: Set<usize>|
                {
                    &&& #[trigger] s.contains(root)
                    &&& forall|a: usize, j: int|
                        s.contains(a) && 0 <= j < self.links(a, target, cfgs).len() ==> s.contains(
                            (#[trigger] self.links(a, target, cfgs)[j]).0,
                        )
                } ==> s.contains(package),
    {
        let reached = Set::new(|p: usize| self.reaches(root, p, target, cfgs));
        if self.reaches(root, package, target, cfgs) {
            let walk = choose|walk: Seq<usize>|
                #[trigger] self.is_walk(walk, target, cfgs) && walk[0] == root && walk.last()
                    == package;
            assert forall|s: Set<usize>|
                {
                    &&& #[trigger] s.contains(root)
                    &&& forall|a: usize, j: int|
                        s.contains(a) && 0 <= j < self.links(a, target, cfgs).len() ==> s.contains(
                            (#[trigger] self.links(a, target, cfgs)[j]).0,
                        )
                } implies s.contains(package) by {
                self.lemma_walk_stays(walk, target, cfgs, s);
            }
        } else {
            assert(self.is_walk(seq![root], target, cfgs));
            assert(seq![root].last() == root);
            assert(reached.contains(root));
            assert forall|a: usize, j: int|
                reached.contains(a) && 0 <= j < self.links(a, target, cfgs).len() implies
                reached.contains((#[trigger] self.links(a, target, cfgs)[j]).0) by {
                let b = self.links(a, target, cfgs)[j].0;
                assert(self.leads(a, b, target, cfgs));
                self.lemma_reach_on(root, a, b, target, cfgs);
            }
            assert(!reached.contains(package));
        }
    }

    proof fn lemma_walk_stays(
        self,
        walk: Seq<usize>,
        target: Option<Seq<char>>,
        cfgs: Option<Seq<CfgView>>,
        s: Set<usize>,
    )
        requires
            self.is_walk(walk, target, cfgs),
            s.contains(walk[0]),
            forall|a: usize, j: int|
                s.contains(a) && 0 <= j < self.links(a, target, cfgs).len() ==> s.contains(
                    (#[trigger] self.links(a, target, cfgs)[j]).0,
                ),
        ensures
            s.contains(walk.last()),
        decreases walk.len(),
    {
        if walk.len() > 1 {
            let rest = walk.drop_last();
            assert forall|i: int| 0 < i < rest.len() implies self.leads(
                rest[i - 1],
                #[trigger] rest[i],
                target,
                cfgs,
            ) by {
                assert(self.leads(walk[i - 1], walk[i], target, cfgs));
            }
            self.lemma_walk_stays(rest, target, cfgs, s);
            assert(self.leads(walk[walk.len() - 2], walk[walk.len() - 1], target, cfgs));
        }
    }
}

proof fn lemma_links_to_hold(
    raw: usize,
    id: usize,
    declared: Seq<Dependency>,
    target: Option<Seq<char>>,
    cfgs: Option<Seq<CfgView>>,
    link: Link,
)
    ensures
        links_to(raw, id, declared, target, cfgs).contains(link) <==> exists|j: int|
            {
                &&& 0 <= j < declared.len()
                &&& (#[trigger] declared[j]).applies(raw, target, cfgs)
                &&& link == (id, declared[j].kind)
            },
    decreases declared.len(),
{
    let all = links_to(raw, id, declared, target, cfgs);
    if declared.len() > 0 {
        let front = declared.drop_last();
        let rest = links_to(raw, id, front, target, cfgs);
        lemma_links_to_hold(raw, id, front, target, cfgs, link);
        let last = declared[declared.len() - 1];
        if rest.contains(link) {
            assert(all[rest.index_of(link)] == link);
            let j = choose|j: int|
                {
                    &&& 0 <= j < front.len()
                    &&& (#[trigger] front[j]).applies(raw, target, cfgs)
                    &&& link == (id, front[j].kind)
                };
            assert(declared[j] == front[j]);
        }
        if last.applies(raw, target, cfgs) && link == (id, last.kind) {
            assert(all[rest.len() as int] == link);
        }
        if all.contains(link) {
            let at = all.index_of(link);
            if at < rest.len() {
                assert(rest[at] == link);
            } else {
                assert(declared[declared.len() - 1].applies(raw, target, cfgs));
            }
        }
        if exists|j: int|
            {
                &&& 0 <= j < declared.len()
                &&& (#[trigger] declared[j]).applies(raw, target, cfgs)
                &&& link == (id, declared[j].kind)
            } {
            let j = choose|j: int|
                {
                    &&& 0 <= j < declared.len()
                    &&& (#[trigger] declared[j]).applies(raw, target, cfgs)
                    &&& link == (id, declared[j].kind)
                };
            if j < front.len() {
                assert(front[j] == declared[j]);
            }
        }
    }
}

/// Law: the edges at a package are found one after the other, in either direction: an
/// edge that has the package at its near end gives the package at its far end and what
/// the dependency is for, any other edge gives nothing.
pub proof fn lemma_edges_join(
    a: Seq<PackageEdge>,
    b: Seq<PackageEdge>,
    e: PackageEdge,
    package: usize,
    direction: EdgeDirection,
)
    ensures
        ends(a + b, package, direction) == ends(a, package, direction) + ends(
            b,
            package,
            direction,
        ),
        ends(seq![e], package, EdgeDirection::Outgoing) == if e.0 == package {
            seq![(e.1, e.2)]
        } else {
            Seq::<Link>::empty()
        },
        ends(seq![e], package, EdgeDirection::Incoming) == if e.1 == package {
            seq![(e.0, e.2)]
        } else {
            Seq::<Link>::empty()
        },
        ends(seq![], package, direction) == Seq::<Link>::empty(),
        links_from(a, package) == ends(a, package, EdgeDirection::Outgoing),
    decreases b.len(),
{
    lemma_outgoing_ends(a, package);
    assert(seq![e].drop_last() =~= seq![]);
    assert(ends(seq![e].drop_last(), package, EdgeDirection::Outgoing) =~= seq![]);
    assert(ends(seq![e].drop_last(), package, EdgeDirection::Incoming) =~= seq![]);
    assert(Seq::<Link>::empty().push((e.1, e.2)) =~= seq![(e.1, e.2)]);
    assert(Seq::<Link>::empty().push((e.0, e.2)) =~= seq![(e.0, e.2)]);
    let left = ends(a, package, direction);
    if b.len() == 0 {
        assert(a + b =~= a);
        assert(left + ends(b, package, direction) =~= left);
    } else {
        assert((a + b).drop_last() =~= a + b.drop_last());
        lemma_edges_join(a, b.drop_last(), e, package, direction);
        assert(ends(a + b, package, direction) =~= left + ends(b, package, direction));
    }
}

impl Resolve {
    /// Law: a package that is not loaded has no links, and there are as many links in all
    /// as the packages have one after the other.
    pub proof fn lemma_total_links(
        self,
        id: usize,
        target: Option<Seq<char>>,
        cfgs: Option<Seq<CfgView>>,
    )
        ensures
            self.packages@[id as int] is None ==> self.links(id, target, cfgs).len() == 0,
            self.total_links(target, cfgs, 0) == 0,
            self.total_links(target, cfgs, (id + 1) as nat) == self.total_links(
                target,
                cfgs,
                id as nat,
            ) + self.links(id, target, cfgs).len(),
            self.fits(target, cfgs) <==> self.packages@.len() < u32::MAX && self.total_links(
                target,
                cfgs,
                self.packages@.len(),
            ) < u32::MAX,
    {
    }
}

}
