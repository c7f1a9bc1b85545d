//! Loading the manifest of a source from a store of manifests that are
//! already at hand. For a git source the repository is asked for at the
//! cache and its reference resolved before the manifest is read.
use vstd::prelude::*;
use crate::git_cache::{commit_of, fetched, CheckoutView, GitCache};
use crate::manifest::{ManifestData, ManifestView};
use crate::source::{SourceSpec, SourceView};

verus! {

/// Why a manifest could not be loaded.
#[derive(Clone, Copy, Debug, PartialEq, Eq, Structural)]
pub enum LoadErrorKind {
    /// The repository could not be fetched.
    Network,
    /// The repository lacks the branch, tag or revision asked for.
    ReferenceNotFound,
    /// The manifest is there, but cannot be read as one.
    ManifestParse,
    /// The source holds no manifest.
    ManifestNotFound,
}

/// The words for a reason why a manifest could not be loaded.
pub open spec fn kind_text(kind: LoadErrorKind) -> Seq<char> {
    match kind {
        LoadErrorKind::Network => "the repository could not be fetched"@,
        LoadErrorKind::ReferenceNotFound => "the reference was not found"@,
        LoadErrorKind::ManifestParse => "the manifest could not be parsed"@,
        LoadErrorKind::ManifestNotFound => "the manifest was not found"@,
    }
}

impl LoadErrorKind {
    /// The words for this reason.
    pub fn describe(&self) -> (r: &'static str)
        ensures
            r@ == kind_text(*self),
    {
        match self {
            LoadErrorKind::Network => "the repository could not be fetched",
            LoadErrorKind::ReferenceNotFound => "the reference was not found",
            LoadErrorKind::ManifestParse => "the manifest could not be parsed",
            LoadErrorKind::ManifestNotFound => "the manifest was not found",
        }
    }
}

/// The manifest kept for one source.
#[derive(Debug)]
pub struct StoredManifest {
    pub source: SourceSpec,
    pub manifest: ManifestData,
}

/// The mathematical value of a [`StoredManifest`].
pub struct StoredView {
    pub source: SourceView,
    pub manifest: ManifestView,
}

impl View for StoredManifest {
    type V = StoredView;

    open spec fn view(&self) -> StoredView {
        StoredView { source: self.source@, manifest: self.manifest@ }
    }
}

/// The values of a list of stored manifests, in the same order.
pub open spec fn stored_views(entries: Seq<StoredManifest>) -> Seq<StoredView> {
    Seq::new(entries.len(), |i: int| entries[i]@)
}

/// The manifest that a store keeps for a source, if any.
pub open spec fn manifest_at(entries: Seq<StoredView>, source: SourceView) -> Option<
    ManifestView,
>
    decreases entries.len(),
{
    if entries.len() == 0 {
        None
    } else if entries.last().source == source {
        Some(entries.last().manifest)
    } else {
        manifest_at(entries.drop_last(), source)
    }
}

/// What loading a source gives: for a git source the reference must have
/// been resolved, and for every source the store must keep a manifest.
pub open spec fn load_result(
    entries: Seq<StoredView>,
    references: Seq<CheckoutView>,
    source: SourceView,
) -> Result<ManifestView, LoadErrorKind> {
    if source is Git && commit_of(
        references,
        source->repository_url,
        source->qualifier,
    ).is_none() {
        Err(LoadErrorKind::ReferenceNotFound)
    } else {
        match manifest_at(entries, source) {
            Some(manifest) => Ok(manifest),
            None => Err(LoadErrorKind::ManifestNotFound),
        }
    }
}

/// The log of refreshed repositories after a source has been loaded: only
/// a git source asks for a repository, and by its URL alone.
pub open spec fn log_after_load(log: Seq<Seq<char>>, source: SourceView) -> Seq<Seq<char>> {
    if source is Git {
        fetched(log, source->repository_url)
    } else {
        log
    }
}

/// A store of manifests, keyed by source.
#[derive(Debug)]
pub struct ManifestLoader {
    entries: Vec<StoredManifest>,
}

impl View for ManifestLoader {
    type V = Seq<StoredView>;

    closed spec fn view(&self) -> Seq<StoredView> {
        stored_views(self.entries@)
    }
}

impl ManifestLoader {
    /// An empty store.
    pub fn new() -> (r: ManifestLoader)
        ensures
            r@ == Seq::<StoredView>::empty(),
    {
        let r = ManifestLoader { entries: Vec::new() };
        assert(r@ =~= Seq::<StoredView>::empty());
        r
    }

    /// The position of the manifest kept for `source`.
    fn position(&self, source: &SourceSpec) -> (r: Option<usize>)
        ensures
            match r {
                Some(i) => i < self.entries.len() && manifest_at(self@, source@) == Some(
                    self.entries[i as int].manifest@,
                ),
                None => manifest_at(self@, source@).is_none(),
            },
    {
        let mut i: usize = self.entries.len();
        assert(self@.take(i as int) =~= self@);
        while i > 0
            invariant
                i <= self.entries.len(),
                manifest_at(self@, source@) == manifest_at(self@.take(i as int), source@),
            decreases i,
        {
            let ghost prefix = self@.take(i as int);
            assert(prefix.last() == self.entries[i - 1]@);
            assert(prefix.drop_last() =~= self@.take(i - 1));
            if self.entries[i - 1].source.same_as(source) {
                return Some(i - 1);
            }
            i -= 1;
        }
        None
    }

    /// Keeps `manifest` for `source`, unless the store already keeps one
    /// for it: a manifest does not change once it has been loaded. Returns
    /// whether the manifest was taken.
    pub fn store(&mut self, source: SourceSpec, manifest: ManifestData) -> (taken: bool)
        ensures
            taken == manifest_at(old(self)@, source@).is_none(),
            final(self)@ == if taken {
                old(self)@.push(StoredView { source: source@, manifest: manifest@ })
            } else {
                old(self)@
            },
    {
        match self.position(&source) {
            Some(_) => false,
            None => {
                self.entries.push(StoredManifest { source, manifest });
                assert(self@ =~= old(self)@.push(
                    StoredView { source: source@, manifest: manifest@ },
                ));
                true
            },
        }
    }

    /// Loads the manifest of `source`. For a git source the repository is
    /// first asked for at the cache, and the source's reference must have
    /// been resolved there. Fails with `ReferenceNotFound` where it has
    /// not, and with `ManifestNotFound` where the store keeps no manifest
    /// for the source.
    pub fn load(&self, source: &SourceSpec, cache: &mut GitCache) -> (r: Result<
        ManifestData,
        LoadErrorKind,
    >)
        requires
            old(cache).wf(),
        ensures
            final(cache).wf(),
            final(cache).updates() == log_after_load(old(cache).updates(), source@),
            final(cache).references() == old(cache).references(),
            match r {
                Ok(manifest) => load_result(self@, old(cache).references(), source@) == Ok::<
                    ManifestView,
                    LoadErrorKind,
                >(manifest@),
                Err(kind) => load_result(self@, old(cache).references(), source@) == Err::<
                    ManifestView,
                    LoadErrorKind,
                >(kind),
            },
    {
        match source {
            SourceSpec::Git { repository_url, qualifier } => {
                let _ = cache.fetch_or_update(repository_url.as_str());
                if cache.checkout(repository_url.as_str(), qualifier).is_err() {
                    return Err(LoadErrorKind::ReferenceNotFound);
                }
            },
            _ => {},
        }
        match self.position(source) {
            Some(i) => Ok(self.entries[i].manifest.duplicate()),
            None => Err(LoadErrorKind::ManifestNotFound),
        }
    }
}

} // verus!
