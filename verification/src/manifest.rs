//! What a package declares about itself: its name, its version and the
//! packages it depends on.
use vstd::prelude::*;
use crate::source::{SourceSpec, SourceView};

verus! {

/// One declared dependency: the package's name, where it comes from, and
/// an optional version requirement, which is carried along uninterpreted.
#[derive(Debug)]
pub struct Dependency {
    pub name: String,
    pub source: SourceSpec,
    pub requirement: Option<String>,
}

/// The mathematical value of a [`Dependency`].
pub struct DependencyView {
    pub name: Seq<char>,
    pub source: SourceView,
    pub requirement: Option<Seq<char>>,
}

/// The content of one manifest. It does not change once it has been loaded.
#[derive(Debug)]
pub struct ManifestData {
    pub name: String,
    pub version: String,
    pub dependencies: Vec<Dependency>,
}

/// The mathematical value of a [`ManifestData`].
pub struct ManifestView {
    pub name: Seq<char>,
    pub version: Seq<char>,
    pub dependencies: Seq<DependencyView>,
}

/// Identifies one resolved package: its name, its resolved version and the
/// stable text of its source.
#[derive(Debug)]
pub struct PackageId {
    pub name: String,
    pub version: String,
    pub source: String,
}

/// The mathematical value of a [`PackageId`].
pub struct PackageIdView {
    pub name: Seq<char>,
    pub version: Seq<char>,
    pub source: Seq<char>,
}

impl View for Dependency {
    type V = DependencyView;

    open spec fn view(&self) -> DependencyView {
        DependencyView {
            name: self.name@,
            source: self.source@,
            requirement: match self.requirement {
                Some(text) => Some(text@),
                None => None,
            },
        }
    }
}

/// The values of a list of dependencies, in the same order.
pub open spec fn dependency_views(deps: Seq<Dependency>) -> Seq<DependencyView> {
    Seq::new(deps.len(), |i: int| deps[i]@)
}

impl View for ManifestData {
    type V = ManifestView;

    open spec fn view(&self) -> ManifestView {
        ManifestView {
            name: self.name@,
            version: self.version@,
            dependencies: dependency_views(self.dependencies@),
        }
    }
}

impl View for PackageId {
    type V = PackageIdView;

    open spec fn view(&self) -> PackageIdView {
        PackageIdView { name: self.name@, version: self.version@, source: self.source@ }
    }
}

impl Dependency {
    /// A dependency on `name` from `source`, with no version requirement.
    pub fn new(name: String, source: SourceSpec) -> (r: Dependency)
        ensures
            r@ == (DependencyView { name: name@, source: source@, requirement: None }),
    {
        Dependency { name, source, requirement: None }
    }

    /// A copy with the same value.
    pub fn duplicate(&self) -> (r: Dependency)
        ensures
            r@ == self@,
    {
        let requirement = match &self.requirement {
            Some(text) => Some(text.clone()),
            None => None,
        };
        Dependency { name: self.name.clone(), source: self.source.duplicate(), requirement }
    }
}

impl ManifestData {
    /// A manifest without dependencies.
    pub fn new(name: String, version: String) -> (r: ManifestData)
        ensures
            r@ == (ManifestView {
                name: name@,
                version: version@,
                dependencies: Seq::<DependencyView>::empty(),
            }),
    {
        let r = ManifestData { name, version, dependencies: Vec::new() };
        assert(r@.dependencies =~= Seq::<DependencyView>::empty());
        r
    }

    /// Declares one more dependency, behind those already declared.
    pub fn declare(&mut self, dependency: Dependency)
        ensures
            final(self)@ == (ManifestView {
                dependencies: old(self)@.dependencies.push(dependency@),
                ..old(self)@
            }),
    {
        self.dependencies.push(dependency);
        assert(self@.dependencies =~= old(self)@.dependencies.push(dependency@));
    }

    /// A copy with the same value.
    pub fn duplicate(&self) -> (r: ManifestData)
        ensures
            r@ == self@,
    {
        let mut dependencies: Vec<Dependency> = Vec::new();
        let mut i: usize = 0;
        while i < self.dependencies.len()
            invariant
                i <= self.dependencies.len(),
                dependencies.len() == i,
                forall|k: int| 0 <= k < i ==> dependencies[k]@ == self.dependencies[k]@,
            decreases self.dependencies.len() - i,
        {
            dependencies.push(self.dependencies[i].duplicate());
            i += 1;
        }
        let r = ManifestData {
            name: self.name.clone(),
            version: self.version.clone(),
            dependencies,
        };
        assert(r@.dependencies =~= self@.dependencies);
        r
    }
}

} // verus!
