//! Resolution of the transitive dependencies of a root package.
//!
//! The packages met so far are kept in the order in which they were first
//! seen, and that list is also the worklist: packages are worked off first
//! in, first out, and the declarations of each in their written order. A
//! declaration of a name that is new registers a package behind all the
//! others; one of a known name must give the source that the name was
//! first seen with, or resolution fails at that declaration.
use vstd::prelude::*;
use vstd::string::StringExecFns;
use crate::graph::DependencyGraph;
use crate::loader::{kind_text, LoadErrorKind};
use crate::manifest::{Dependency, DependencyView, ManifestData, ManifestView};
use crate::source::{source_text, SourceSpec, SourceView};

verus! {

/// One resolved package: the name it was asked for by, the source that
/// name was first seen with, and the manifest loaded from that source.
#[derive(Debug)]
pub struct Node {
    pub name: String,
    pub source: SourceSpec,
    pub manifest: ManifestData,
}

/// The mathematical value of a [`Node`].
pub struct NodeView {
    pub name: Seq<char>,
    pub source: SourceView,
    pub manifest: ManifestView,
}

impl View for Node {
    type V = NodeView;

    open spec fn view(&self) -> NodeView {
        NodeView { name: self.name@, source: self.source@, manifest: self.manifest@ }
    }
}

/// The values of a list of nodes, in the same order.
pub open spec fn node_views(nodes: Seq<Node>) -> Seq<NodeView> {
    Seq::new(nodes.len(), |i: int| nodes[i]@)
}

/// The place of the package called `name` among `nodes`, if there is one.
pub open spec fn index_of_name(nodes: Seq<NodeView>, name: Seq<char>) -> Option<int>
    decreases nodes.len(),
{
    if nodes.len() == 0 {
        None
    } else if nodes.last().name == name {
        Some(nodes.len() - 1)
    } else {
        index_of_name(nodes.drop_last(), name)
    }
}

/// No two packages have the same name.
pub open spec fn names_distinct(nodes: Seq<NodeView>) -> bool {
    forall|a: int, b: int|
        0 <= a < nodes.len() && 0 <= b < nodes.len() && nodes[a].name == nodes[b].name ==> a == b
}

/// The state of a resolution: the packages met so far, and the place of
/// the declaration that is looked at next, as the place of a package and
/// of a declaration in its manifest.
pub struct Progress {
    pub nodes: Seq<NodeView>,
    pub node: int,
    pub dep: int,
}

/// The declaration under the cursor.
pub open spec fn declaration_at(nodes: Seq<NodeView>, node: int, dep: int) -> DependencyView {
    nodes[node].manifest.dependencies[dep]
}

/// Where working off declarations without loading anything ends.
pub enum Settled {
    /// Every declaration of every package has been looked at.
    Finished,
    /// A declaration gives a known name another source than the first.
    Conflict { name: Seq<char>, first: SourceView, second: SourceView },
    /// The declaration at this place has a name that is new.
    Awaiting { node: int, dep: int },
}

/// Works off declarations from the cursor on, as long as each names a known
/// package with the source that it was first seen with.
pub open spec fn settle(nodes: Seq<NodeView>, node: int, dep: int) -> Settled
    decreases nodes.len() - node, nodes[node].manifest.dependencies.len() - dep,
{
    if node < 0 || node >= nodes.len() || dep < 0 {
        Settled::Finished
    } else if dep >= nodes[node].manifest.dependencies.len() {
        settle(nodes, node + 1, 0)
    } else {
        let declared = declaration_at(nodes, node, dep);
        match index_of_name(nodes, declared.name) {
            None => Settled::Awaiting { node, dep },
            Some(k) => if nodes[k].source == declared.source {
                settle(nodes, node, dep + 1)
            } else {
                Settled::Conflict {
                    name: declared.name,
                    first: nodes[k].source,
                    second: declared.source,
                }
            },
        }
    }
}

/// The packages after the manifest of a new name has been loaded: the new
/// package stands behind all the others.
pub open spec fn registered(nodes: Seq<NodeView>, declared: DependencyView, manifest: ManifestView)
    -> Seq<NodeView> {
    nodes.push(NodeView { name: declared.name, source: declared.source, manifest })
}

/// The state before anything has been looked at: the root package alone.
pub open spec fn initial(root_source: SourceView, root: ManifestView) -> Progress {
    Progress {
        nodes: seq![NodeView { name: root.name, source: root_source, manifest: root }],
        node: 0,
        dep: 0,
    }
}

/// Why a resolution failed.
#[derive(Debug)]
pub enum ResolveError {
    /// One package name was asked for from two different sources. The
    /// sources are given by their stable texts: first the one that the
    /// name was first seen with, then the one that collided with it.
    SourceConflict { name: String, source1: String, source2: String },
    /// The manifest of a source could not be loaded. The source is given
    /// by its stable text.
    Load { kind: LoadErrorKind, source: String },
}

/// What a resolver asks of its caller next.
#[derive(Debug)]
pub enum Step {
    /// Resolution is complete.
    Finished,
    /// Resolution has failed.
    Failed(ResolveError),
    /// The manifest of this declaration's source has to be loaded.
    Load(Dependency),
}

/// A resolution in progress.
#[derive(Debug)]
pub struct Resolver {
    nodes: Vec<Node>,
    node: usize,
    dep: usize,
}

/// The place of the package called `name`, searched from the newest.
pub fn find_name(nodes: &Vec<Node>, name: &String) -> (r: Option<usize>)
    ensures
        match r {
            Some(k) => k < nodes.len() && index_of_name(node_views(nodes@), name@) == Some(
                k as int,
            ) && nodes[k as int].name@ == name@,
            None => index_of_name(node_views(nodes@), name@).is_none(),
        },
{
    let mut i: usize = nodes.len();
    assert(node_views(nodes@).take(i as int) =~= node_views(nodes@));
    while i > 0
        invariant
            i <= nodes.len(),
            index_of_name(node_views(nodes@), name@) == index_of_name(
                node_views(nodes@).take(i as int),
                name@,
            ),
        decreases i,
    {
        let ghost prefix = node_views(nodes@).take(i as int);
        assert(prefix.last() == nodes[i - 1]@);
        assert(prefix.drop_last() =~= node_views(nodes@).take(i - 1));
        if nodes[i - 1].name == *name {
            return Some(i - 1);
        }
        i -= 1;
    }
    None
}

/// What [`index_of_name`] finds has the name, and where it finds nothing
/// no package has it.
pub proof fn lemma_index_of_name(nodes: Seq<NodeView>, name: Seq<char>)
    ensures
        match index_of_name(nodes, name) {
            Some(k) => 0 <= k < nodes.len() && nodes[k].name == name,
            None => forall|i: int| 0 <= i < nodes.len() ==> nodes[i].name != name,
        },
    decreases nodes.len(),
{
    if nodes.len() > 0 && nodes.last().name != name {
        lemma_index_of_name(nodes.drop_last(), name);
        assert forall|i: int| 0 <= i < nodes.len() - 1 implies nodes[i] == nodes.drop_last()[i] by {}
    }
}

/// Where [`settle`] waits, it waits at a declaration at or behind the
/// cursor, and that declaration has a name that no package has.
pub proof fn lemma_settle_awaiting(nodes: Seq<NodeView>, node: int, dep: int)
    ensures
        match settle(nodes, node, dep) {
            Settled::Awaiting { node: n, dep: d } => {
                &&& node <= n < nodes.len()
                &&& 0 <= d < nodes[n].manifest.dependencies.len()
                &&& n == node ==> dep <= d
                &&& index_of_name(nodes, declaration_at(nodes, n, d).name).is_none()
                &&& settle(nodes, n, d) == settle(nodes, node, dep)
            },
            _ => true,
        },
    decreases nodes.len() - node, nodes[node].manifest.dependencies.len() - dep,
{
    if node < 0 || node >= nodes.len() || dep < 0 {
    } else if dep >= nodes[node].manifest.dependencies.len() {
        lemma_settle_awaiting(nodes, node + 1, 0);
    } else {
        let declared = declaration_at(nodes, node, dep);
        match index_of_name(nodes, declared.name) {
            None => {},
            Some(k) => {
                if nodes[k].source == declared.source {
                    lemma_settle_awaiting(nodes, node, dep + 1);
                }
            },
        }
    }
}

/// Whether `e` reports the collision of `second` with `first` on `name`.
pub open spec fn describes_conflict(
    e: ResolveError,
    name: Seq<char>,
    first: SourceView,
    second: SourceView,
) -> bool {
    match e {
        ResolveError::SourceConflict { name: n, source1, source2 } => n@ == name && source1@
            == source_text(first) && source2@ == source_text(second),
        _ => false,
    }
}

/// Whether `e` reports that loading `source` failed for the reason `kind`.
pub open spec fn describes_load_failure(e: ResolveError, source: SourceView, kind: LoadErrorKind)
    -> bool {
    match e {
        ResolveError::Load { kind: k, source: s } => k == kind && s@ == source_text(source),
        _ => false,
    }
}

impl View for Resolver {
    type V = Progress;

    closed spec fn view(&self) -> Progress {
        Progress { nodes: node_views(self.nodes@), node: self.node as int, dep: self.dep as int }
    }
}

impl Resolver {
    /// The cursor lies within the packages, which have distinct names.
    pub open spec fn wf(&self) -> bool {
        &&& self@.nodes.len() >= 1
        &&& 0 <= self@.node <= self@.nodes.len()
        &&& 0 <= self@.dep
        &&& self@.node < self@.nodes.len() ==> self@.dep
            <= self@.nodes[self@.node].manifest.dependencies.len()
        &&& names_distinct(self@.nodes)
    }

    /// Where the resolver stands without a further manifest.
    pub open spec fn settled(&self) -> Settled {
        settle(self@.nodes, self@.node, self@.dep)
    }

    /// Starts the resolution of `root`, which was read from `root_source`.
    pub fn new(root_source: SourceSpec, root: ManifestData) -> (r: Resolver)
        ensures
            r.wf(),
            r@ == initial(root_source@, root@),
    {
        let mut nodes: Vec<Node> = Vec::new();
        let name = root.name.clone();
        nodes.push(Node { name, source: root_source, manifest: root });
        let r = Resolver { nodes, node: 0, dep: 0 };
        assert(r@.nodes =~= initial(root_source@, root@).nodes);
        r
    }

    /// The resolver waits for the manifest of the declaration under its cursor.
    pub open spec fn awaiting(&self) -> bool {
        self.settled() == (Settled::Awaiting { node: self@.node, dep: self@.dep })
    }

    /// Works off declarations until resolution is complete, a declaration
    /// collides with the source that its name was first seen with, or a
    /// manifest is needed. The packages stay as they are; the cursor moves
    /// to the declaration at which the resolver stopped.
    pub fn advance(&mut self) -> (step: Step)
        requires
            old(self).wf(),
        ensures
            final(self).wf(),
            final(self)@.nodes == old(self)@.nodes,
            final(self).settled() == old(self).settled(),
            match old(self).settled() {
                Settled::Finished => step is Finished,
                Settled::Conflict { name, first, second } => match step {
                    Step::Failed(e) => describes_conflict(e, name, first, second),
                    _ => false,
                },
                Settled::Awaiting { node, dep } => match step {
                    Step::Load(declared) => declared@ == declaration_at(
                        old(self)@.nodes,
                        node,
                        dep,
                    ) && final(self).awaiting(),
                    _ => false,
                },
            },
    {
        loop
            invariant
                self.wf(),
                self@.nodes == old(self)@.nodes,
                self.settled() == old(self).settled(),
            decreases
                    self.nodes.len() - self.node,
                    if self.node < self.nodes.len() {
                        self.nodes[self.node as int].manifest.dependencies.len() - self.dep
                    } else {
                        0
                    },
        {
            if self.node >= self.nodes.len() {
                return Step::Finished;
            }
            assert(self@.nodes[self@.node] == self.nodes[self.node as int]@);
            if self.dep >= self.nodes[self.node].manifest.dependencies.len() {
                self.node += 1;
                self.dep = 0;
            } else {
                let declared = &self.nodes[self.node].manifest.dependencies[self.dep];
                assert(declaration_at(self@.nodes, self@.node, self@.dep) == declared@);
                match find_name(&self.nodes, &declared.name) {
                    None => {
                        return Step::Load(declared.duplicate());
                    },
                    Some(k) => {
                        assert(self@.nodes[k as int] == self.nodes[k as int]@);
                        if self.nodes[k].source.same_as(&declared.source) {
                            self.dep += 1;
                        } else {
                            return Step::Failed(
                                ResolveError::SourceConflict {
                                    name: declared.name.clone(),
                                    source1: self.nodes[k].source.render(),
                                    source2: declared.source.render(),
                                },
                            );
                        }
                    },
                }
            }
        }
    }

    /// Registers the package of the awaited declaration with the manifest
    /// that was loaded for it, behind all the others, and moves the cursor
    /// past the declaration.
    pub fn supply(&mut self, manifest: ManifestData)
        requires
            old(self).wf(),
            old(self).awaiting(),
        ensures
            final(self).wf(),
            final(self)@ == (Progress {
                nodes: registered(
                    old(self)@.nodes,
                    declaration_at(old(self)@.nodes, old(self)@.node, old(self)@.dep),
                    manifest@,
                ),
                node: old(self)@.node,
                dep: old(self)@.dep + 1,
            }),
    {
        proof {
            lemma_settle_awaiting(self@.nodes, self@.node, self@.dep);
            lemma_index_of_name(
                self@.nodes,
                declaration_at(self@.nodes, self@.node, self@.dep).name,
            );
        }
        assert(self@.nodes[self@.node] == self.nodes[self.node as int]@);
        let declared = &self.nodes[self.node].manifest.dependencies[self.dep];
        assert(declaration_at(self@.nodes, self@.node, self@.dep) == declared@);
        let node = Node {
            name: declared.name.clone(),
            source: declared.source.duplicate(),
            manifest,
        };
        let declared_here = self.nodes[self.node].manifest.dependencies.len();
        assert(self.dep < declared_here);
        self.dep += 1;
        self.nodes.push(node);
        assert(self@.nodes =~= registered(
            old(self)@.nodes,
            declaration_at(old(self)@.nodes, old(self)@.node, old(self)@.dep),
            manifest@,
        ));
    }

    /// The error that ends resolution when the awaited manifest could not
    /// be loaded: it names the source of the awaited declaration.
    pub fn fail(&self, kind: LoadErrorKind) -> (e: ResolveError)
        requires
            self.wf(),
            self.awaiting(),
        ensures
            describes_load_failure(
                e,
                declaration_at(self@.nodes, self@.node, self@.dep).source,
                kind,
            ),
    {
        proof {
            lemma_settle_awaiting(self@.nodes, self@.node, self@.dep);
        }
        assert(self@.nodes[self@.node] == self.nodes[self.node as int]@);
        let declared = &self.nodes[self.node].manifest.dependencies[self.dep];
        assert(declaration_at(self@.nodes, self@.node, self@.dep) == declared@);
        ResolveError::Load { kind, source: declared.source.render() }
    }
    /// The graph of a complete resolution.
    pub fn into_graph(self) -> (g: DependencyGraph)
        requires
            self.wf(),
            self.settled() is Finished,
        ensures
            g.wf(),
            g.nodes() == self@.nodes,
    {
        DependencyGraph::build(self.nodes)
    }
}

/// The diagnostic of a source conflict: the package, then the two sources
/// on a line each, the one seen first as source 1.
pub open spec fn conflict_text(name: Seq<char>, source1: Seq<char>, source2: Seq<char>) -> Seq<
    char,
> {
    "error: found dependencies on the same package `"@ + name
        + "` coming from incompatible sources:\nsource 1: "@ + source1 + "\nsource 2: "@ + source2
}

/// The diagnostic of a manifest that could not be loaded.
pub open spec fn load_failure_text(kind: LoadErrorKind, source: Seq<char>) -> Seq<char> {
    "error: failed to load the manifest of `"@ + source + "`: "@ + kind_text(kind)
}

impl ResolveError {
    /// The text of this error.
    pub open spec fn text(&self) -> Seq<char> {
        match self {
            ResolveError::SourceConflict { name, source1, source2 } => conflict_text(
                name@,
                source1@,
                source2@,
            ),
            ResolveError::Load { kind, source } => load_failure_text(*kind, source@),
        }
    }

    /// The diagnostic that reports this error.
    pub fn message(&self) -> (r: String)
        ensures
            r@ == self.text(),
    {
        match self {
            ResolveError::SourceConflict { name, source1, source2 } => {
                let mut out = String::from_str("error: found dependencies on the same package `");
                out.append(name.as_str());
                out.append("` coming from incompatible sources:\nsource 1: ");
                out.append(source1.as_str());
                out.append("\nsource 2: ");
                out.append(source2.as_str());
                out
            },
            ResolveError::Load { kind, source } => {
                let mut out = String::from_str("error: failed to load the manifest of `");
                out.append(source.as_str());
                out.append("`: ");
                out.append(kind.describe());
                out
            },
        }
    }
}

} // verus!
