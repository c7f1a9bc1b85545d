//! The resolved dependency graph: one package per name, each linked to the
//! packages that its manifest declares.
use vstd::prelude::*;
use crate::manifest::{Dependency, DependencyView, PackageId, PackageIdView, dependency_views};
use crate::order::{
    adjacency, dependencies_first, edges_in_range, greedy, holds_each_once, is_cycle,
    order_indices,
};
use crate::resolver::{
    find_name, index_of_name, lemma_index_of_name, names_distinct, node_views, Node, NodeView,
};
use crate::source::source_text;

verus! {

/// The packages that a list of declarations leads to, in the order of the
/// declarations, each once. A declaration whose name no package has leads
/// nowhere.
pub open spec fn links(nodes: Seq<NodeView>, deps: Seq<DependencyView>) -> Seq<usize>
    decreases deps.len(),
{
    if deps.len() == 0 {
        Seq::<usize>::empty()
    } else {
        let before = links(nodes, deps.drop_last());
        match index_of_name(nodes, deps.last().name) {
            Some(k) => if before.contains(k as usize) {
                before
            } else {
                before.push(k as usize)
            },
            None => before,
        }
    }
}

/// The links of every package of `nodes`.
pub open spec fn all_links(nodes: Seq<NodeView>) -> Seq<Seq<usize>> {
    Seq::new(nodes.len(), |k: int| links(nodes, nodes[k].manifest.dependencies))
}

/// The identity of a resolved package.
pub open spec fn package_id(node: NodeView) -> PackageIdView {
    PackageIdView {
        name: node.name,
        version: node.manifest.version,
        source: source_text(node.source),
    }
}

/// Links lead to packages of the graph and hold none twice.
pub proof fn lemma_links(nodes: Seq<NodeView>, deps: Seq<DependencyView>)
    requires
        nodes.len() <= usize::MAX,
    ensures
        links(nodes, deps).no_duplicates(),
        forall|i: int| 0 <= i < links(nodes, deps).len() ==> links(nodes, deps)[i] < nodes.len(),
    decreases deps.len(),
{
    if deps.len() > 0 {
        lemma_links(nodes, deps.drop_last());
        lemma_index_of_name(nodes, deps.last().name);
    }
}

/// Whether `list` holds `wanted`.
fn holds_index(list: &Vec<usize>, wanted: usize) -> (r: bool)
    ensures
        r == list@.contains(wanted),
{
    let mut i: usize = 0;
    while i < list.len()
        invariant
            i <= list.len(),
            forall|j: int| 0 <= j < i ==> list[j] != wanted,
        decreases list.len() - i,
    {
        if list[i] == wanted {
            return true;
        }
        i += 1;
    }
    false
}

/// The packages that `deps` leads to among `nodes`.
fn link(nodes: &Vec<Node>, deps: &Vec<Dependency>) -> (r: Vec<usize>)
    ensures
        r@ == links(node_views(nodes@), dependency_views(deps@)),
{
    let ghost all = dependency_views(deps@);
    let mut out: Vec<usize> = Vec::new();
    let mut i: usize = 0;
    assert(all.take(0) =~= Seq::<DependencyView>::empty());
    while i < deps.len()
        invariant
            i <= deps.len(),
            all == dependency_views(deps@),
            out@ == links(node_views(nodes@), all.take(i as int)),
        decreases deps.len() - i,
    {
        let ghost next = all.take(i + 1);
        assert(next.drop_last() =~= all.take(i as int));
        assert(next.last() == deps[i as int]@);
        match find_name(nodes, &deps[i].name) {
            Some(k) => {
                if !holds_index(&out, k) {
                    out.push(k);
                }
            },
            None => {},
        }
        i += 1;
    }
    assert(all.take(deps.len() as int) =~= all);
    out
}

/// A resolved dependency graph. The packages stand in the order in which
/// resolution first met them, the root first.
#[derive(Debug)]
pub struct DependencyGraph {
    nodes: Vec<Node>,
    edges: Vec<Vec<usize>>,
}

/// The packages of a cycle of dependencies, by place in the graph and by
/// name: each depends on the one behind it, and the last on the first.
#[derive(Debug)]
pub struct CyclicDependencyError {
    pub places: Vec<usize>,
    pub cycle: Vec<String>,
}

/// A compile order, by place in the graph and by identity.
#[derive(Debug)]
pub struct CompileOrder {
    pub places: Vec<usize>,
    pub packages: Vec<PackageId>,
}

impl DependencyGraph {
    /// The packages of the graph.
    pub closed spec fn nodes(&self) -> Seq<NodeView> {
        node_views(self.nodes@)
    }

    /// For every package, the packages that it depends on.
    pub closed spec fn edges(&self) -> Seq<Seq<usize>> {
        adjacency(self.edges@)
    }

    /// No two packages have the same name, and every package is linked to
    /// the packages that its manifest declares.
    pub open spec fn wf(&self) -> bool {
        &&& names_distinct(self.nodes())
        &&& self.edges() == all_links(self.nodes())
        &&& edges_in_range(self.edges())
    }

    /// Links the packages in `nodes` into a graph.
    pub fn build(nodes: Vec<Node>) -> (g: DependencyGraph)
        requires
            names_distinct(node_views(nodes@)),
        ensures
            g.wf(),
            g.nodes() == node_views(nodes@),
    {
        let ghost views = node_views(nodes@);
        let mut edges: Vec<Vec<usize>> = Vec::new();
        let mut k: usize = 0;
        while k < nodes.len()
            invariant
                k <= nodes.len(),
                views == node_views(nodes@),
                edges.len() == k,
                forall|j: int|
                    0 <= j < k ==> (#[trigger] edges[j])@ == links(
                        views,
                        views[j].manifest.dependencies,
                    ),
            decreases nodes.len() - k,
        {
            edges.push(link(&nodes, &nodes[k].manifest.dependencies));
            k += 1;
        }
        let g = DependencyGraph { nodes, edges };
        proof {
            assert(g.edges() =~= all_links(g.nodes()));
            assert forall|a: int, i: int|
                0 <= a < g.edges().len() && 0 <= i < g.edges()[a].len() implies (
            #[trigger] g.edges()[a][i]) < g.edges().len() by {
                lemma_links(views, views[a].manifest.dependencies);
            }
        }
        g
    }

    /// The number of packages.
    pub fn len(&self) -> (n: usize)
        ensures
            n == self.nodes().len(),
    {
        self.nodes.len()
    }

    /// The package at place `k`.
    pub fn node(&self, k: usize) -> (r: &Node)
        requires
            k < self.nodes().len(),
        ensures
            r@ == self.nodes()[k as int],
    {
        &self.nodes[k]
    }

    /// The places of the packages that the package at place `k` depends on.
    pub fn dependencies_of(&self, k: usize) -> (r: &Vec<usize>)
        requires
            self.wf(),
            k < self.nodes().len(),
        ensures
            r@ == self.edges()[k as int],
    {
        assert(self.edges().len() == all_links(self.nodes()).len());
        assert(self.edges().len() == self.edges@.len());
        &self.edges[k]
    }

    /// The place of the package called `name`.
    pub fn index_of(&self, name: &str) -> (r: Option<usize>)
        ensures
            match r {
                Some(k) => index_of_name(self.nodes(), name@) == Some(k as int),
                None => index_of_name(self.nodes(), name@).is_none(),
            },
    {
        let wanted = name.to_owned();
        find_name(&self.nodes, &wanted)
    }

    /// The identity of the package at place `k`.
    pub fn package_id(&self, k: usize) -> (r: PackageId)
        requires
            k < self.nodes().len(),
        ensures
            r@ == package_id(self.nodes()[k as int]),
    {
        let node = &self.nodes[k];
        PackageId {
            name: node.name.clone(),
            version: node.manifest.version.clone(),
            source: node.source.render(),
        }
    }

    /// The identities of the packages at `places`.
    pub fn identities(&self, places: &Vec<usize>) -> (ids: Vec<PackageId>)
        requires
            forall|i: int| 0 <= i < places.len() ==> places[i] < self.nodes().len(),
        ensures
            ids_follow(self.nodes(), places@, ids@),
    {
        let mut ids: Vec<PackageId> = Vec::new();
        let mut p: usize = 0;
        while p < places.len()
            invariant
                p <= places.len(),
                ids.len() == p,
                forall|i: int| 0 <= i < places.len() ==> places[i] < self.nodes().len(),
                forall|i: int|
                    0 <= i < p ==> (#[trigger] ids[i])@ == package_id(
                        self.nodes()[places[i] as int],
                    ),
            decreases places.len() - p,
        {
            ids.push(self.package_id(places[p]));
            p += 1;
        }
        ids
    }

    /// The names of the packages at `places`.
    pub fn names(&self, places: &Vec<usize>) -> (names: Vec<String>)
        requires
            forall|i: int| 0 <= i < places.len() ==> places[i] < self.nodes().len(),
        ensures
            names_follow(self.nodes(), places@, names@),
    {
        let mut names: Vec<String> = Vec::new();
        let mut p: usize = 0;
        while p < places.len()
            invariant
                p <= places.len(),
                names.len() == p,
                forall|i: int| 0 <= i < places.len() ==> places[i] < self.nodes().len(),
                forall|i: int|
                    0 <= i < p ==> (#[trigger] names[i])@ == self.nodes()[places[i] as int].name,
            decreases places.len() - p,
        {
            names.push(self.node(places[p]).name.clone());
            p += 1;
        }
        names
    }
}

/// `ids` are the identities of the packages at the places `order`.
pub open spec fn ids_follow(nodes: Seq<NodeView>, order: Seq<usize>, ids: Seq<PackageId>) -> bool {
    &&& ids.len() == order.len()
    &&& forall|p: int| 0 <= p < order.len() ==> (#[trigger] ids[p])@ == package_id(
        nodes[order[p] as int],
    )
}

/// `names` are the names of the packages at the places `cycle`.
pub open spec fn names_follow(nodes: Seq<NodeView>, cycle: Seq<usize>, names: Seq<String>)
    -> bool {
    &&& names.len() == cycle.len()
    &&& forall|p: int| 0 <= p < cycle.len() ==> (#[trigger] names[p])@
        == nodes[cycle[p] as int].name
}

/// `ids` name the packages at `places`, which hold every package once,
/// each behind all that it depends on and the first-met first.
pub open spec fn is_compile_order(
    nodes: Seq<NodeView>,
    edges: Seq<Seq<usize>>,
    places: Seq<usize>,
    ids: Seq<PackageId>,
) -> bool {
    &&& greedy(edges, places)
    &&& holds_each_once(edges, places)
    &&& dependencies_first(edges, places)
    &&& ids_follow(nodes, places, ids)
}

/// `names` name the packages at `places`, which are a cycle.
pub open spec fn is_named_cycle(
    nodes: Seq<NodeView>,
    edges: Seq<Seq<usize>>,
    places: Seq<usize>,
    names: Seq<String>,
) -> bool {
    &&& is_cycle(edges, places)
    &&& names_follow(nodes, places, names)
}

/// The compile order of a resolved graph: every package once, each behind
/// all the packages it depends on. Among the packages that may stand at a
/// place, the one that resolution met first stands there. A graph with a
/// cycle has no such order: the error then names the packages of one
/// cycle, each depending on the one behind it and the last on the first.
pub fn order(graph: &DependencyGraph) -> (r: Result<CompileOrder, CyclicDependencyError>)
    requires
        graph.wf(),
    ensures
        match r {
            Ok(ordered) => is_compile_order(
                graph.nodes(),
                graph.edges(),
                ordered.places@,
                ordered.packages@,
            ),
            Err(cyclic) => is_named_cycle(
                graph.nodes(),
                graph.edges(),
                cyclic.places@,
                cyclic.cycle@,
            ),
        },
{
    assert(graph.edges().len() == all_links(graph.nodes()).len());
    assert(graph.edges().len() == graph.edges@.len());
    match order_indices(&graph.edges) {
        Ok(places) => {
            let packages = graph.identities(&places);
            Ok(CompileOrder { places, packages })
        },
        Err(places) => {
            let cycle = graph.names(&places);
            Err(CyclicDependencyError { places, cycle })
        },
    }
}


} // verus!
