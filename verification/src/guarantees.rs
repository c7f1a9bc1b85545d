//! What holds of every resolution, proved of the outcome that
//! [`crate::resolution::run`] defines and [`crate::resolution::resolve`]
//! computes.
use vstd::prelude::*;
use crate::loader::{load_result, manifest_at, StoredView};
use crate::manifest::{DependencyView, ManifestView};
use crate::loader::log_after_load;
use crate::resolution::{lemma_resolution_ends, load_bound, resolution, run, Outcome, World};
use crate::resolver::lemma_settle_awaiting;
use crate::resolver::{
    declaration_at, index_of_name, initial, lemma_index_of_name, names_distinct, registered,
    settle, NodeView, Progress, Settled,
};
use crate::source::SourceView;

verus! {

/// The manifest that resolution reads the dependencies of a declared
/// package from: the root manifest where the declaration names the root
/// package, else the manifest stored for the declared source.
pub open spec fn manifest_behind(
    manifests: Seq<StoredView>,
    root: ManifestView,
    declared: DependencyView,
) -> Option<ManifestView> {
    if declared.name == root.name {
        Some(root)
    } else {
        manifest_at(manifests, declared.source)
    }
}

/// A chain of declarations that starts in the root manifest: every later
/// declaration stands in the manifest behind the one before it.
pub open spec fn is_chain(manifests: Seq<StoredView>, root: ManifestView, chain: Seq<DependencyView>)
    -> bool {
    &&& chain.len() >= 1
    &&& root.dependencies.contains(chain[0])
    &&& forall|i: int|
        1 <= i < chain.len() ==> match manifest_behind(manifests, root, chain[i - 1]) {
            Some(manifest) => manifest.dependencies.contains(#[trigger] chain[i]),
            None => false,
        }
}

/// `chain` leads from the root to a declaration of `name` from `source`.
pub open spec fn leads_to(
    manifests: Seq<StoredView>,
    root: ManifestView,
    chain: Seq<DependencyView>,
    name: Seq<char>,
    source: SourceView,
) -> bool {
    is_chain(manifests, root, chain) && chain.last().name == name && chain.last().source == source
}

/// Some chain of declarations leads from the root to a declaration of
/// `name` from `source`.
pub open spec fn reachable(
    manifests: Seq<StoredView>,
    root: ManifestView,
    name: Seq<char>,
    source: SourceView,
) -> bool {
    exists|chain: Seq<DependencyView>| leads_to(manifests, root, chain, name, source)
}

/// The declaration at this place names a package of `nodes` with the
/// source that the package has.
pub open spec fn resolved_at(nodes: Seq<NodeView>, node: int, dep: int) -> bool {
    match index_of_name(nodes, declaration_at(nodes, node, dep).name) {
        Some(k) => nodes[k].source == declaration_at(nodes, node, dep).source,
        None => false,
    }
}

/// A place of a declaration in `nodes`.
pub open spec fn is_place(nodes: Seq<NodeView>, node: int, dep: int) -> bool {
    0 <= node < nodes.len() && 0 <= dep < nodes[node].manifest.dependencies.len()
}

/// The first place lies before the second.
pub open spec fn before(node1: int, dep1: int, node2: int, dep2: int) -> bool {
    node1 < node2 || (node1 == node2 && dep1 < dep2)
}

/// Every declaration from the first place up to the second, which is left
/// out, is resolved.
pub open spec fn resolved_between(
    nodes: Seq<NodeView>,
    node1: int,
    dep1: int,
    node2: int,
    dep2: int,
) -> bool {
    forall|n: int, d: int|
        is_place(nodes, n, d) && !before(n, d, node1, dep1) && before(n, d, node2, dep2)
            ==> #[trigger] resolved_at(nodes, n, d)
}

/// What [`settle`] has seen where it stops: every declaration that it
/// passed is resolved, and where it stops at a collision, the collision
/// is between a package and a declaration behind the cursor.
pub proof fn lemma_settle_scan(nodes: Seq<NodeView>, node: int, dep: int) -> (at: (int, int))
    requires
        0 <= node,
        0 <= dep,
    ensures
        match settle(nodes, node, dep) {
            Settled::Finished => resolved_between(nodes, node, dep, nodes.len() as int, 0),
            Settled::Awaiting { node: n, dep: d } => resolved_between(nodes, node, dep, n, d),
            Settled::Conflict { name, first, second } => {
                &&& is_place(nodes, at.0, at.1)
                &&& declaration_at(nodes, at.0, at.1).name == name
                &&& declaration_at(nodes, at.0, at.1).source == second
                &&& first != second
                &&& match index_of_name(nodes, name) {
                    Some(k) => nodes[k].source == first,
                    None => false,
                }
            },
        },
    decreases nodes.len() - node, nodes[node].manifest.dependencies.len() - dep,
{
    if node >= nodes.len() {
        (0, 0)
    } else if dep >= nodes[node].manifest.dependencies.len() {
        lemma_settle_scan(nodes, node + 1, 0)
    } else {
        let declared = declaration_at(nodes, node, dep);
        match index_of_name(nodes, declared.name) {
            None => (0, 0),
            Some(k) => {
                if nodes[k].source == declared.source {
                    assert(resolved_at(nodes, node, dep));
                    lemma_settle_scan(nodes, node, dep + 1)
                } else {
                    (node, dep)
                }
            },
        }
    }
}

/// The package that stands for the root.
pub open spec fn root_node(root_source: SourceView, root: ManifestView) -> NodeView {
    NodeView { name: root.name, source: root_source, manifest: root }
}

/// The packages are the root and packages that chains of declarations
/// lead to, each with the manifest stored for its source, and no two of
/// them have the same name.
pub open spec fn packages_sound(
    world: World,
    root_source: SourceView,
    root: ManifestView,
    nodes: Seq<NodeView>,
) -> bool {
    &&& nodes.len() >= 1
    &&& nodes[0] == root_node(root_source, root)
    &&& names_distinct(nodes)
    &&& forall|k: int|
        1 <= k < nodes.len() ==> manifest_at(world.manifests, (#[trigger] nodes[k]).source) == Some(
            nodes[k].manifest,
        )
    &&& forall|k: int|
        1 <= k < nodes.len() ==> reachable(
            world.manifests,
            root,
            (#[trigger] nodes[k]).name,
            nodes[k].source,
        )
}

/// The packages are sound and every declaration before the cursor is
/// resolved.
pub open spec fn sound(world: World, root_source: SourceView, root: ManifestView, p: Progress)
    -> bool {
    &&& packages_sound(world, root_source, root, p.nodes)
    &&& 0 <= p.node
    &&& 0 <= p.dep
    &&& resolved_between(p.nodes, 0, 0, p.node, p.dep)
}

/// Some chain of declarations leads from the root to a declaration from
/// `source`.
pub open spec fn declared_source(manifests: Seq<StoredView>, root: ManifestView, source: SourceView)
    -> bool {
    exists|name: Seq<char>| reachable(manifests, root, name, source)
}

/// What holds of an outcome. A graph holds the root and reachable
/// packages under distinct names, and every declaration of every package
/// names a package of the graph with that package's source. A conflict is
/// between two different sources of one name: the second is reachable,
/// and the first is reachable or the root's own. A load failure concerns
/// a reachable source that does not load.
pub open spec fn outcome_sound(
    world: World,
    root_source: SourceView,
    root: ManifestView,
    outcome: Outcome,
) -> bool {
    match outcome {
        Outcome::Resolved { nodes } => {
            &&& packages_sound(world, root_source, root, nodes)
            &&& resolved_between(nodes, 0, 0, nodes.len() as int, 0)
        },
        Outcome::Conflict { name, first, second } => {
            &&& first != second
            &&& reachable(world.manifests, root, name, second)
            &&& reachable(world.manifests, root, name, first) || (name == root.name && first
                == root_source)
        },
        Outcome::LoadFailed { source, kind } => {
            &&& load_result(world.manifests, world.references, source) == Err::<
                ManifestView,
                crate::loader::LoadErrorKind,
            >(kind)
            &&& declared_source(world.manifests, root, source)
        },
    }
}

/// Looking a name up after one more package was registered.
proof fn lemma_index_after_register(nodes: Seq<NodeView>, added: NodeView, name: Seq<char>)
    ensures
        index_of_name(nodes.push(added), name) == if added.name == name {
            Some(nodes.len() as int)
        } else {
            index_of_name(nodes, name)
        },
{
    assert(nodes.push(added).drop_last() =~= nodes);
}

/// Under sound packages, every declaration of every package is reachable.
proof fn lemma_declaration_reachable(
    world: World,
    root_source: SourceView,
    root: ManifestView,
    nodes: Seq<NodeView>,
    node: int,
    dep: int,
)
    requires
        packages_sound(world, root_source, root, nodes),
        is_place(nodes, node, dep),
    ensures
        reachable(
            world.manifests,
            root,
            declaration_at(nodes, node, dep).name,
            declaration_at(nodes, node, dep).source,
        ),
{
    let declared = declaration_at(nodes, node, dep);
    if node == 0 {
        let chain = seq![declared];
        assert(root.dependencies[dep] == declared);
        assert(leads_to(world.manifests, root, chain, declared.name, declared.source));
    } else {
        let owner = nodes[node];
        assert(reachable(world.manifests, root, owner.name, owner.source));
        let up = choose|chain: Seq<DependencyView>|
            leads_to(world.manifests, root, chain, owner.name, owner.source);
        let chain = up.push(declared);
        assert(manifest_at(world.manifests, owner.source) == Some(owner.manifest));
        assert(owner.manifest.dependencies[dep] == declared);
        assert(owner.name != nodes[0].name);
        assert forall|i: int| 1 <= i < chain.len() implies match manifest_behind(
            world.manifests,
            root,
            chain[i - 1],
        ) {
            Some(manifest) => manifest.dependencies.contains(#[trigger] chain[i]),
            None => false,
        } by {
            if i < up.len() {
                assert(chain[i] == up[i] && chain[i - 1] == up[i - 1]);
            } else {
                assert(chain[i - 1] == up.last());
            }
        }
        assert(chain[0] == up[0]);
        assert(leads_to(world.manifests, root, chain, declared.name, declared.source));
    }
}

/// From a sound state, resolution ends in a sound outcome.
pub proof fn lemma_run_sound(
    world: World,
    root_source: SourceView,
    root: ManifestView,
    p: Progress,
    log: Seq<Seq<char>>,
    fuel: nat,
)
    requires
        sound(world, root_source, root, p),
    ensures
        match run(world, p, log, fuel) {
            Some((outcome, _)) => outcome_sound(world, root_source, root, outcome),
            None => true,
        },
    decreases fuel,
{
    let nodes = p.nodes;
    let at = lemma_settle_scan(nodes, p.node, p.dep);
    lemma_settle_awaiting(nodes, p.node, p.dep);
    match settle(nodes, p.node, p.dep) {
        Settled::Finished => {
            assert forall|n: int, d: int|
                is_place(nodes, n, d) && !before(n, d, 0, 0) && before(
                    n,
                    d,
                    nodes.len() as int,
                    0,
                ) implies #[trigger] resolved_at(nodes, n, d) by {
                if before(n, d, p.node, p.dep) {
                } else {
                }
            }
        },
        Settled::Conflict { name, first, second } => {
            lemma_declaration_reachable(world, root_source, root, nodes, at.0, at.1);
            lemma_index_of_name(nodes, name);
            let k = index_of_name(nodes, name).unwrap();
            if k != 0 {
                assert(reachable(world.manifests, root, nodes[k].name, nodes[k].source));
            }
        },
        Settled::Awaiting { node, dep } => {
            let declared = declaration_at(nodes, node, dep);
            lemma_declaration_reachable(world, root_source, root, nodes, node, dep);
            let logged = log_after_load(log, declared.source);
            match load_result(world.manifests, world.references, declared.source) {
                Err(kind) => {
                    assert(declared_source(world.manifests, root, declared.source));
                },
                Ok(manifest) => {
                    if fuel > 0 {
                        let added = NodeView {
                            name: declared.name,
                            source: declared.source,
                            manifest,
                        };
                        let grown = registered(nodes, declared, manifest);
                        let next = Progress { nodes: grown, node, dep: dep + 1 };
                        lemma_index_of_name(nodes, declared.name);
                        assert forall|k: int| 0 <= k < nodes.len() implies grown[k]
                            == nodes[k] by {}
                        assert(grown[nodes.len() as int] == added);
                        assert(names_distinct(grown));
                        assert forall|n: int, d: int|
                            is_place(grown, n, d) && !before(n, d, 0, 0) && before(
                                n,
                                d,
                                node,
                                dep + 1,
                            ) implies #[trigger] resolved_at(grown, n, d) by {
                            assert(grown[n] == nodes[n]);
                            let here = declaration_at(nodes, n, d);
                            lemma_index_after_register(nodes, added, here.name);
                            if n == node && d == dep {
                            } else {
                                assert(resolved_at(nodes, n, d));
                                lemma_index_of_name(nodes, here.name);
                            }
                        }
                        assert(packages_sound(world, root_source, root, grown));
                        lemma_run_sound(
                            world,
                            root_source,
                            root,
                            next,
                            logged,
                            (fuel - 1) as nat,
                        );
                    }
                },
            }
        },
    }
}

/// In a graph in which every declaration is resolved, every declaration
/// of a chain names a package of the graph with that package's source.
proof fn lemma_chain_resolved(
    world: World,
    root_source: SourceView,
    root: ManifestView,
    nodes: Seq<NodeView>,
    chain: Seq<DependencyView>,
    i: int,
) -> (k: int)
    requires
        packages_sound(world, root_source, root, nodes),
        resolved_between(nodes, 0, 0, nodes.len() as int, 0),
        is_chain(world.manifests, root, chain),
        0 <= i < chain.len(),
    ensures
        0 <= k < nodes.len(),
        nodes[k].name == chain[i].name,
        nodes[k].source == chain[i].source,
    decreases i,
{
    let owner = if i == 0 {
        0
    } else {
        lemma_chain_resolved(world, root_source, root, nodes, chain, i - 1)
    };
    if i > 0 {
        if owner != 0 {
            assert(nodes[owner].name != nodes[0].name);
            assert(manifest_at(world.manifests, nodes[owner].source) == Some(
                nodes[owner].manifest,
            ));
        }
        assert(manifest_behind(world.manifests, root, chain[i - 1]) == Some(
            nodes[owner].manifest,
        ));
    }
    assert(nodes[owner].manifest.dependencies.contains(chain[i]));
    let j = choose|j: int|
        0 <= j < nodes[owner].manifest.dependencies.len()
            && nodes[owner].manifest.dependencies[j] == chain[i];
    assert(is_place(nodes, owner, j));
    assert(resolved_at(nodes, owner, j));
    lemma_index_of_name(nodes, chain[i].name);
    index_of_name(nodes, chain[i].name).unwrap()
}

/// No name is reachable from two different sources, and the name of the
/// root is reachable from the root's own source at most.
pub open spec fn sources_agree(world: World, root_source: SourceView, root: ManifestView) -> bool {
    &&& forall|name: Seq<char>, first: SourceView, second: SourceView|
        #![trigger reachable(world.manifests, root, name, first), reachable(world.manifests, root, name, second)]
        reachable(world.manifests, root, name, first) && reachable(
            world.manifests,
            root,
            name,
            second,
        ) ==> first == second
    &&& forall|source: SourceView| #[trigger]
        reachable(world.manifests, root, root.name, source) ==> source == root_source
}

/// Every reachable source loads.
pub open spec fn sources_load(world: World, root: ManifestView) -> bool {
    forall|name: Seq<char>, source: SourceView| #[trigger]
        reachable(world.manifests, root, name, source) ==> load_result(
            world.manifests,
            world.references,
            source,
        ) is Ok
}

/// Every resolution ends in an outcome of which [`outcome_sound`] holds.
pub proof fn law_outcome_sound(
    world: World,
    root_source: SourceView,
    root: ManifestView,
    log: Seq<Seq<char>>,
)
    ensures
        match resolution(world, root_source, root, log) {
            Some((outcome, _)) => outcome_sound(world, root_source, root, outcome),
            None => false,
        },
{
    lemma_resolution_ends(world, root_source, root, log);
    let start = initial(root_source, root);
    assert(start.nodes[0] == root_node(root_source, root));
    lemma_run_sound(world, root_source, root, start, log, load_bound(world.manifests, root));
}

/// `nodes` holds a package with this name and this source.
pub open spec fn holds_package(nodes: Seq<NodeView>, name: Seq<char>, source: SourceView) -> bool {
    exists|k: int| 0 <= k < nodes.len() && (#[trigger] nodes[k]).name == name && nodes[k].source
        == source
}

/// `nodes` are the root and exactly the packages that chains of
/// declarations lead to, one for each name.
pub open spec fn is_closure(
    world: World,
    root_source: SourceView,
    root: ManifestView,
    nodes: Seq<NodeView>,
) -> bool {
    &&& packages_sound(world, root_source, root, nodes)
    &&& forall|name: Seq<char>, source: SourceView| #[trigger]
        reachable(world.manifests, root, name, source) ==> holds_package(nodes, name, source)
}

/// The graph of a resolution that succeeds holds the root and exactly the
/// packages that are reachable from it, one for each name.
pub proof fn law_graph_is_closure(
    world: World,
    root_source: SourceView,
    root: ManifestView,
    log: Seq<Seq<char>>,
)
    ensures
        match resolution(world, root_source, root, log) {
            Some((Outcome::Resolved { nodes }, _)) => is_closure(world, root_source, root, nodes),
            _ => true,
        },
{
    law_outcome_sound(world, root_source, root, log);
    match resolution(world, root_source, root, log) {
        Some((Outcome::Resolved { nodes }, _)) => {
            assert forall|name: Seq<char>, source: SourceView| #[trigger]
                reachable(world.manifests, root, name, source) implies holds_package(
                nodes,
                name,
                source,
            ) by {
                let chain = choose|chain: Seq<DependencyView>|
                    leads_to(world.manifests, root, chain, name, source);
                let k = lemma_chain_resolved(
                    world,
                    root_source,
                    root,
                    nodes,
                    chain,
                    chain.len() - 1,
                );
                assert(nodes[k].name == name && nodes[k].source == source);
            }
        },
        _ => {},
    }
}

/// Where every package that is reachable from the root, by however many
/// chains, is declared with one and the same source each time, and every
/// such source loads, resolution succeeds, and the graph holds exactly
/// one package for each name.
pub proof fn law_agreeing_sources_resolve(
    world: World,
    root_source: SourceView,
    root: ManifestView,
    log: Seq<Seq<char>>,
)
    requires
        sources_agree(world, root_source, root),
        sources_load(world, root),
    ensures
        match resolution(world, root_source, root, log) {
            Some((Outcome::Resolved { nodes }, _)) => names_distinct(nodes) && is_closure(
                world,
                root_source,
                root,
                nodes,
            ),
            _ => false,
        },
{
    law_outcome_sound(world, root_source, root, log);
    law_graph_is_closure(world, root_source, root, log);
    match resolution(world, root_source, root, log) {
        Some((Outcome::LoadFailed { source, kind }, _)) => {
            let name = choose|name: Seq<char>| reachable(world.manifests, root, name, source);
            assert(reachable(world.manifests, root, name, source));
        },
        _ => {},
    }
}

/// Where two chains of declarations lead from the root to one package
/// name with two different sources, resolution returns no graph; and
/// where every reachable source loads, it fails with a source conflict.
/// A conflict that is reported is always between two different sources
/// of the package it names, as [`outcome_sound`] says.
pub proof fn law_conflicting_sources_fail(
    world: World,
    root_source: SourceView,
    root: ManifestView,
    log: Seq<Seq<char>>,
    chain1: Seq<DependencyView>,
    chain2: Seq<DependencyView>,
)
    requires
        is_chain(world.manifests, root, chain1),
        is_chain(world.manifests, root, chain2),
        chain1.last().name == chain2.last().name,
        chain1.last().source != chain2.last().source,
    ensures
        match resolution(world, root_source, root, log) {
            Some((outcome, _)) => {
                &&& !(outcome is Resolved)
                &&& sources_load(world, root) ==> outcome is Conflict
                &&& outcome_sound(world, root_source, root, outcome)
            },
            None => false,
        },
{
    law_outcome_sound(world, root_source, root, log);
    match resolution(world, root_source, root, log) {
        Some((Outcome::Resolved { nodes }, _)) => {
            let k1 = lemma_chain_resolved(
                world,
                root_source,
                root,
                nodes,
                chain1,
                chain1.len() - 1,
            );
            let k2 = lemma_chain_resolved(
                world,
                root_source,
                root,
                nodes,
                chain2,
                chain2.len() - 1,
            );
            assert(k1 == k2);
        },
        Some((Outcome::LoadFailed { source, kind }, _)) => {
            let name = choose|name: Seq<char>| reachable(world.manifests, root, name, source);
            assert(reachable(world.manifests, root, name, source));
        },
        _ => {},
    }
}

} // verus!
