//! Resolution against manifests that are at hand: what the outcome is, as
//! a function of the root package and the stored manifests, and the
//! function that computes it.
use vstd::prelude::*;
use crate::git_cache::{CheckoutView, GitCache};
use crate::graph::DependencyGraph;
use crate::loader::{
    load_result, log_after_load, manifest_at, LoadErrorKind, ManifestLoader, StoredView,
};
use crate::manifest::{ManifestData, ManifestView};
use crate::resolver::{
    declaration_at, describes_conflict, describes_load_failure, index_of_name, initial,
    lemma_settle_awaiting, registered, settle, NodeView, Progress, ResolveError, Resolver,
    Settled, Step,
};
use crate::source::{SourceSpec, SourceView};

verus! {

/// What resolution reads: the stored manifests and the resolved references.
pub struct World {
    pub manifests: Seq<StoredView>,
    pub references: Seq<CheckoutView>,
}

/// How a resolution ends.
pub enum Outcome {
    /// Every declaration was resolved: these are the packages.
    Resolved { nodes: Seq<NodeView> },
    /// `name` was first seen with the source `first` and then declared
    /// with the different source `second`.
    Conflict { name: Seq<char>, first: SourceView, second: SourceView },
    /// The manifest of `source` could not be loaded.
    LoadFailed { source: SourceView, kind: LoadErrorKind },
}

/// The outcome of resolution from the state `p`, and the log of refreshed
/// repositories at its end, if at most `fuel` further manifests are
/// loaded with success.
pub open spec fn run(world: World, p: Progress, log: Seq<Seq<char>>, fuel: nat) -> Option<
    (Outcome, Seq<Seq<char>>),
>
    decreases fuel,
{
    match settle(p.nodes, p.node, p.dep) {
        Settled::Finished => Some((Outcome::Resolved { nodes: p.nodes }, log)),
        Settled::Conflict { name, first, second } => Some(
            (Outcome::Conflict { name, first, second }, log),
        ),
        Settled::Awaiting { node, dep } => {
            let declared = declaration_at(p.nodes, node, dep);
            let logged = log_after_load(log, declared.source);
            match load_result(world.manifests, world.references, declared.source) {
                Err(kind) => Some((Outcome::LoadFailed { source: declared.source, kind }, logged)),
                Ok(manifest) => if fuel == 0 {
                    None
                } else {
                    run(
                        world,
                        Progress {
                            nodes: registered(p.nodes, declared, manifest),
                            node,
                            dep: dep + 1,
                        },
                        logged,
                        (fuel - 1) as nat,
                    )
                },
            }
        },
    }
}

/// The names that a manifest declares, in order.
pub open spec fn names_in(manifest: ManifestView) -> Seq<Seq<char>> {
    Seq::new(manifest.dependencies.len(), |i: int| manifest.dependencies[i].name)
}

/// The names that the root and the stored manifests declare.
pub open spec fn declared_names(manifests: Seq<StoredView>, root: ManifestView) -> Seq<Seq<char>>
    decreases manifests.len(),
{
    if manifests.len() == 0 {
        names_in(root)
    } else {
        declared_names(manifests.drop_last(), root) + names_in(manifests.last().manifest)
    }
}

/// A number of loads that every resolution of `root` stays within: each
/// load registers a declared name that was not registered before.
pub open spec fn load_bound(manifests: Seq<StoredView>, root: ManifestView) -> nat {
    declared_names(manifests, root).len()
}

/// The outcome of the resolution of `root`, which was read from
/// `root_source`, and the log of refreshed repositories at its end.
pub open spec fn resolution(
    world: World,
    root_source: SourceView,
    root: ManifestView,
    log: Seq<Seq<char>>,
) -> Option<(Outcome, Seq<Seq<char>>)> {
    run(world, initial(root_source, root), log, load_bound(world.manifests, root))
}

/// Whether `r` reports `outcome`: the graph of the resolved packages, or
/// the error with the package name and the stable texts of the sources.
pub open spec fn reports(r: Result<DependencyGraph, ResolveError>, outcome: Outcome) -> bool {
    match outcome {
        Outcome::Resolved { nodes } => match r {
            Ok(graph) => graph.wf() && graph.nodes() == nodes,
            Err(_) => false,
        },
        Outcome::Conflict { name, first, second } => match r {
            Ok(_) => false,
            Err(e) => describes_conflict(e, name, first, second),
        },
        Outcome::LoadFailed { source, kind } => match r {
            Ok(_) => false,
            Err(e) => describes_load_failure(e, source, kind),
        },
    }
}

/// How many of `names` no package has, counted with repetitions.
pub open spec fn unmet(names: Seq<Seq<char>>, nodes: Seq<NodeView>) -> nat
    decreases names.len(),
{
    if names.len() == 0 {
        0
    } else {
        unmet(names.drop_last(), nodes) + if index_of_name(nodes, names.last()).is_none() {
            1nat
        } else {
            0nat
        }
    }
}

proof fn lemma_unmet_bounded(names: Seq<Seq<char>>, nodes: Seq<NodeView>)
    ensures
        unmet(names, nodes) <= names.len(),
    decreases names.len(),
{
    if names.len() > 0 {
        lemma_unmet_bounded(names.drop_last(), nodes);
    }
}

/// Registering a package never raises the count of unmet names, and
/// lowers it where the package's name was declared and unmet.
proof fn lemma_unmet_register(names: Seq<Seq<char>>, nodes: Seq<NodeView>, added: NodeView)
    ensures
        unmet(names, nodes.push(added)) <= unmet(names, nodes),
        names.contains(added.name) && index_of_name(nodes, added.name).is_none() ==> unmet(
            names,
            nodes.push(added),
        ) < unmet(names, nodes),
    decreases names.len(),
{
    if names.len() > 0 {
        lemma_unmet_register(names.drop_last(), nodes, added);
        assert(nodes.push(added).drop_last() =~= nodes);
        if names.contains(added.name) && names.last() != added.name {
            let i = choose|i: int| 0 <= i < names.len() && names[i] == added.name;
            assert(names.drop_last()[i] == added.name);
        }
    }
}

/// Every name that a stored manifest or the root declares is a declared name.
proof fn lemma_declared_names(manifests: Seq<StoredView>, root: ManifestView)
    ensures
        forall|j: int|
            0 <= j < root.dependencies.len() ==> declared_names(manifests, root).contains(
                #[trigger] root.dependencies[j].name,
            ),
        forall|i: int, j: int|
            0 <= i < manifests.len() && 0 <= j < manifests[i].manifest.dependencies.len()
                ==> declared_names(manifests, root).contains(
                #[trigger] manifests[i].manifest.dependencies[j].name,
            ),
    decreases manifests.len(),
{
    let all = declared_names(manifests, root);
    if manifests.len() == 0 {
        assert forall|j: int| 0 <= j < root.dependencies.len() implies all.contains(
            #[trigger] root.dependencies[j].name,
        ) by {
            assert(all[j] == root.dependencies[j].name);
        }
    } else {
        let before = declared_names(manifests.drop_last(), root);
        let last = names_in(manifests.last().manifest);
        lemma_declared_names(manifests.drop_last(), root);
        assert forall|j: int| 0 <= j < root.dependencies.len() implies all.contains(
            #[trigger] root.dependencies[j].name,
        ) by {
            let name = root.dependencies[j].name;
            assert(before.contains(name));
            let k = choose|k: int| 0 <= k < before.len() && before[k] == name;
            assert(all[k] == name);
        }
        assert forall|i: int, j: int|
            0 <= i < manifests.len() && 0 <= j < manifests[i].manifest.dependencies.len()
            implies all.contains(#[trigger] manifests[i].manifest.dependencies[j].name) by {
            let name = manifests[i].manifest.dependencies[j].name;
            if i < manifests.len() - 1 {
                assert(manifests.drop_last()[i] == manifests[i]);
                assert(before.contains(manifests.drop_last()[i].manifest.dependencies[j].name));
                let k = choose|k: int| 0 <= k < before.len() && before[k] == name;
                assert(all[k] == name);
            } else {
                assert(last[j] == name);
                assert(all[before.len() + j] == name);
            }
        }
    }
}

/// A manifest that the store gives is the manifest of one of its entries.
proof fn lemma_manifest_at(entries: Seq<StoredView>, source: SourceView)
    ensures
        match manifest_at(entries, source) {
            Some(manifest) => exists|i: int|
                0 <= i < entries.len() && (#[trigger] entries[i]).manifest == manifest,
            None => true,
        },
    decreases entries.len(),
{
    if entries.len() > 0 {
        if entries.last().source == source {
            assert(entries[entries.len() - 1].manifest == entries.last().manifest);
        } else {
            lemma_manifest_at(entries.drop_last(), source);
            if manifest_at(entries, source).is_some() {
                let m = manifest_at(entries, source).unwrap();
                let i = choose|i: int|
                    0 <= i < entries.drop_last().len() && (#[trigger] entries.drop_last()[i]).manifest
                        == m;
                assert(entries[i].manifest == m);
            }
        }
    }
}

/// The manifest of every package is the root's or a stored one.
pub open spec fn sourced(manifests: Seq<StoredView>, root: ManifestView, nodes: Seq<NodeView>)
    -> bool {
    forall|k: int|
        0 <= k < nodes.len() ==> (#[trigger] nodes[k]).manifest == root || exists|i: int|
            0 <= i < manifests.len() && (#[trigger] manifests[i]).manifest == nodes[k].manifest
}

/// Resolves the transitive dependencies of `root`, which was read from
/// `root_source`, against the manifests of `loader`. Packages are worked
/// off in the order in which they were first met, and the declarations of
/// each in their written order. The first declaration that gives a known
/// name another source than the one it was first seen with ends the
/// resolution with a source conflict, and the first manifest that cannot
/// be loaded ends it with a load failure; no graph is returned then. Each
/// git repository met is asked for at `cache`, once per URL.
pub fn resolve(
    root_source: SourceSpec,
    root: ManifestData,
    loader: &ManifestLoader,
    cache: &mut GitCache,
) -> (r: Result<DependencyGraph, ResolveError>)
    requires
        old(cache).wf(),
    ensures
        final(cache).wf(),
        final(cache).references() == old(cache).references(),
        match resolution(
            World { manifests: loader@, references: old(cache).references() },
            root_source@,
            root@,
            old(cache).updates(),
        ) {
            Some((outcome, log)) => log == final(cache).updates() && reports(r, outcome),
            None => false,
        },
{
    let ghost world = World { manifests: loader@, references: cache.references() };
    let ghost start = initial(root_source@, root@);
    let ghost first_log = cache.updates();
    let ghost all = declared_names(loader@, root@);
    let ghost root_view = root@;
    let mut resolver = Resolver::new(root_source, root);
    let ghost mut loads: nat = 0;
    proof {
        lemma_unmet_bounded(all, resolver@.nodes);
        assert(resolver@.nodes[0].manifest == root_view);
    }
    loop
        invariant
            resolver.wf(),
            cache.wf(),
            world == (World { manifests: loader@, references: old(cache).references() }),
            cache.references() == world.references,
            start == initial(root_source@, root@),
            root_view == root@,
            first_log == old(cache).updates(),
            all == declared_names(loader@, root_view),
            sourced(loader@, root_view, resolver@.nodes),
            loads + unmet(all, resolver@.nodes) <= all.len(),
            forall|f: nat|
                run(world, start, first_log, f + loads) == #[trigger] run(
                    world,
                    resolver@,
                    cache.updates(),
                    f,
                ),
        decreases unmet(all, resolver@.nodes),
    {
        let ghost before = resolver@;
        let step = resolver.advance();
        let ghost here = resolver@;
        let ghost log = cache.updates();
        assert forall|f: nat| run(world, before, log, f) == run(world, here, log, f) by {
            lemma_settle_awaiting(before.nodes, before.node, before.dep);
        }
        match step {
            Step::Finished => {
                let graph = resolver.into_graph();
                proof {
                    let f = (all.len() - loads) as nat;
                    assert(run(world, start, first_log, f + loads) == run(world, before, log, f));
                }
                return Ok(graph);
            },
            Step::Failed(e) => {
                proof {
                    let f = (all.len() - loads) as nat;
                    assert(run(world, start, first_log, f + loads) == run(world, before, log, f));
                }
                return Err(e);
            },
            Step::Load(declared) => {
                proof {
                    lemma_settle_awaiting(here.nodes, here.node, here.dep);
                }
                match loader.load(&declared.source, cache) {
                    Err(kind) => {
                        let e = resolver.fail(kind);
                        proof {
                            let f = (all.len() - loads) as nat;
                            assert(run(world, start, first_log, f + loads) == run(
                                world,
                                before,
                                log,
                                f,
                            ));
                        }
                        return Err(e);
                    },
                    Ok(manifest) => {
                        resolver.supply(manifest);
                        proof {
                            let added = NodeView {
                                name: declared@.name,
                                source: declared@.source,
                                manifest: manifest@,
                            };
                            assert(resolver@.nodes == here.nodes.push(added));
                            // the new name was declared by a package that was sourced
                            lemma_declared_names(loader@, root_view);
                            let owner = here.nodes[here.node];
                            assert(owner.manifest.dependencies[here.dep].name == added.name);
                            assert(all.contains(added.name));
                            lemma_unmet_register(all, here.nodes, added);
                            // the new package is sourced as well
                            lemma_manifest_at(loader@, declared@.source);
                            assert forall|k: int| 0 <= k < resolver@.nodes.len() implies (
                            #[trigger] resolver@.nodes[k]).manifest == root_view || exists|i: int|
                                0 <= i < loader@.len() && (#[trigger] loader@[i]).manifest
                                    == resolver@.nodes[k].manifest by {
                                if k < here.nodes.len() {
                                    assert(resolver@.nodes[k] == here.nodes[k]);
                                }
                            }
                            let after = resolver@;
                            let logged = cache.updates();
                            assert forall|f: nat|
                                run(world, start, first_log, f + (loads + 1)) == #[trigger] run(
                                    world,
                                    after,
                                    logged,
                                    f,
                                ) by {
                                assert(run(world, start, first_log, (f + 1) + loads) == run(
                                    world,
                                    before,
                                    log,
                                    f + 1,
                                ));
                                assert(run(world, here, log, f + 1) == run(
                                    world,
                                    after,
                                    logged,
                                    f,
                                ));
                            }
                            loads = loads + 1;
                        }
                    },
                }
            },
        }
    }
}

/// From a state whose packages all have the root's manifest or a stored
/// one, resolution ends within as many loads as declared names are unmet.
proof fn lemma_run_ends(
    world: World,
    root: ManifestView,
    p: Progress,
    log: Seq<Seq<char>>,
    fuel: nat,
)
    requires
        sourced(world.manifests, root, p.nodes),
        unmet(declared_names(world.manifests, root), p.nodes) <= fuel,
    ensures
        run(world, p, log, fuel).is_some(),
    decreases fuel,
{
    let all = declared_names(world.manifests, root);
    lemma_settle_awaiting(p.nodes, p.node, p.dep);
    match settle(p.nodes, p.node, p.dep) {
        Settled::Awaiting { node, dep } => {
            let declared = declaration_at(p.nodes, node, dep);
            match load_result(world.manifests, world.references, declared.source) {
                Ok(manifest) => {
                    let added = NodeView {
                        name: declared.name,
                        source: declared.source,
                        manifest,
                    };
                    let grown = registered(p.nodes, declared, manifest);
                    lemma_declared_names(world.manifests, root);
                    assert(p.nodes[node].manifest.dependencies[dep].name == added.name);
                    assert(all.contains(added.name));
                    lemma_unmet_register(all, p.nodes, added);
                    lemma_manifest_at(world.manifests, declared.source);
                    assert forall|k: int| 0 <= k < grown.len() implies (#[trigger] grown[k]).manifest
                        == root || exists|i: int|
                        0 <= i < world.manifests.len() && (#[trigger] world.manifests[i]).manifest
                            == grown[k].manifest by {
                        if k < p.nodes.len() {
                            assert(grown[k] == p.nodes[k]);
                        }
                    }
                    lemma_run_ends(
                        world,
                        root,
                        Progress { nodes: grown, node, dep: dep + 1 },
                        log_after_load(log, declared.source),
                        (fuel - 1) as nat,
                    );
                },
                Err(_) => {},
            }
        },
        _ => {},
    }
}

/// Every resolution ends: it has an outcome.
pub proof fn lemma_resolution_ends(
    world: World,
    root_source: SourceView,
    root: ManifestView,
    log: Seq<Seq<char>>,
)
    ensures
        resolution(world, root_source, root, log).is_some(),
{
    let start = initial(root_source, root);
    assert(start.nodes[0].manifest == root);
    lemma_unmet_bounded(declared_names(world.manifests, root), start.nodes);
    lemma_run_ends(world, root, start, log, load_bound(world.manifests, root));
}

} // verus!
