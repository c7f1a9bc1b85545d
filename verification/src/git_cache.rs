//! The bookkeeping of a cache of git repositories: which repositories were
//! refreshed during the current resolution run, and which references have
//! been resolved to a commit.
//!
//! The cache does no network or disk work itself. It decides when a
//! repository has to be refreshed, so that a caller refreshes each
//! repository once per run, and it remembers the commits that references
//! were resolved to.
use vstd::prelude::*;
use vstd::string::StringExecFns;
use crate::source::{GitQualifier, QualifierView};

verus! {

/// A reference of a repository that has been resolved to a commit.
#[derive(Debug)]
pub struct Checkout {
    pub repository_url: String,
    pub qualifier: GitQualifier,
    pub commit: String,
}

/// The mathematical value of a [`Checkout`].
pub struct CheckoutView {
    pub repository_url: Seq<char>,
    pub qualifier: QualifierView,
    pub commit: Seq<char>,
}

impl View for Checkout {
    type V = CheckoutView;

    open spec fn view(&self) -> CheckoutView {
        CheckoutView {
            repository_url: self.repository_url@,
            qualifier: self.qualifier@,
            commit: self.commit@,
        }
    }
}

/// A reference that the repository does not have.
#[derive(Debug)]
pub struct ReferenceNotFound {
    pub repository_url: String,
    pub qualifier: GitQualifier,
}

/// The values of a list of texts, in the same order.
pub open spec fn text_views(texts: Seq<String>) -> Seq<Seq<char>> {
    Seq::new(texts.len(), |i: int| texts[i]@)
}

/// The values of a list of checkouts, in the same order.
pub open spec fn checkout_views(entries: Seq<Checkout>) -> Seq<CheckoutView> {
    Seq::new(entries.len(), |i: int| entries[i]@)
}

/// The log of refreshed repositories after `url` has been asked for: a
/// repository that the log already holds is not refreshed again.
pub open spec fn fetched(log: Seq<Seq<char>>, url: Seq<char>) -> Seq<Seq<char>> {
    if log.contains(url) {
        log
    } else {
        log.push(url)
    }
}

/// The commit that the newest matching entry gives to a reference.
pub open spec fn commit_of(entries: Seq<CheckoutView>, url: Seq<char>, qualifier: QualifierView)
    -> Option<Seq<char>>
    decreases entries.len(),
{
    if entries.len() == 0 {
        None
    } else if entries.last().repository_url == url && entries.last().qualifier == qualifier {
        Some(entries.last().commit)
    } else {
        commit_of(entries.drop_last(), url, qualifier)
    }
}

/// The text of the progress event of one refresh.
pub open spec fn progress_text(url: Seq<char>) -> Seq<char> {
    "Updating git repository "@ + url
}

/// Whether `texts` holds a text equal to `wanted`.
pub fn holds_text(texts: &Vec<String>, wanted: &String) -> (r: bool)
    ensures
        r == text_views(texts@).contains(wanted@),
{
    let mut i: usize = 0;
    while i < texts.len()
        invariant
            i <= texts.len(),
            forall|k: int| 0 <= k < i ==> texts[k]@ != wanted@,
        decreases texts.len() - i,
    {
        if texts[i] == *wanted {
            assert(text_views(texts@)[i as int] == wanted@);
            return true;
        }
        i += 1;
    }
    false
}

/// The bookkeeping of one cache of git repositories.
#[derive(Debug)]
pub struct GitCache {
    updated: Vec<String>,
    checkouts: Vec<Checkout>,
}

impl GitCache {
    /// The repositories refreshed in the current run, in the order of
    /// their first request.
    pub closed spec fn updates(&self) -> Seq<Seq<char>> {
        text_views(self.updated@)
    }

    /// The resolved references, oldest first.
    pub closed spec fn references(&self) -> Seq<CheckoutView> {
        checkout_views(self.checkouts@)
    }

    /// No repository is logged twice.
    pub open spec fn wf(&self) -> bool {
        self.updates().no_duplicates()
    }

    /// An empty cache at the start of a run.
    pub fn new() -> (r: GitCache)
        ensures
            r.wf(),
            r.updates() == Seq::<Seq<char>>::empty(),
            r.references() == Seq::<CheckoutView>::empty(),
    {
        let r = GitCache { updated: Vec::new(), checkouts: Vec::new() };
        assert(r.updates() =~= Seq::<Seq<char>>::empty());
        assert(r.references() =~= Seq::<CheckoutView>::empty());
        r
    }

    /// Starts a new resolution run: every repository is due for one
    /// refresh again. The resolved references are kept.
    pub fn begin_run(&mut self)
        ensures
            final(self).wf(),
            final(self).updates() == Seq::<Seq<char>>::empty(),
            final(self).references() == old(self).references(),
    {
        self.updated = Vec::new();
        assert(self.updates() =~= Seq::<Seq<char>>::empty());
    }

    /// Asks for a repository. Returns `true` where the caller has to clone
    /// or refresh it and report that: the first request for this URL in
    /// the current run. Later requests for it return `false`.
    pub fn fetch_or_update(&mut self, url: &str) -> (refresh: bool)
        requires
            old(self).wf(),
        ensures
            final(self).wf(),
            refresh == !old(self).updates().contains(url@),
            final(self).updates() == fetched(old(self).updates(), url@),
            final(self).references() == old(self).references(),
    {
        let owned = String::from_str(url);
        if holds_text(&self.updated, &owned) {
            false
        } else {
            self.updated.push(owned);
            assert(self.updates() =~= old(self).updates().push(url@));
            true
        }
    }

    /// The repositories refreshed in the current run, in the order of
    /// their first request.
    pub fn updated_repositories(&self) -> (r: Vec<String>)
        ensures
            text_views(r@) == self.updates(),
    {
        let mut r: Vec<String> = Vec::new();
        let mut i: usize = 0;
        while i < self.updated.len()
            invariant
                i <= self.updated.len(),
                r.len() == i,
                forall|k: int| 0 <= k < i ==> r[k]@ == self.updated[k]@,
            decreases self.updated.len() - i,
        {
            r.push(self.updated[i].clone());
            i += 1;
        }
        assert(text_views(r@) =~= self.updates());
        r
    }

    /// Records the commit that a reference of a repository resolves to. A
    /// later record for the same reference replaces an earlier one.
    pub fn materialize(&mut self, url: &str, qualifier: GitQualifier, commit: &str)
        ensures
            final(self).updates() == old(self).updates(),
            final(self).references() == old(self).references().push(
                CheckoutView { repository_url: url@, qualifier: qualifier@, commit: commit@ },
            ),
    {
        self.checkouts.push(
            Checkout {
                repository_url: String::from_str(url),
                qualifier,
                commit: String::from_str(commit),
            },
        );
        assert(self.references() =~= old(self).references().push(
            CheckoutView { repository_url: url@, qualifier: qualifier@, commit: commit@ },
        ));
    }

    /// The commit of a reference, or `ReferenceNotFound`, which names the
    /// repository and the reference, where none has been recorded.
    pub fn checkout(&self, url: &str, qualifier: &GitQualifier) -> (r: Result<
        String,
        ReferenceNotFound,
    >)
        ensures
            match r {
                Ok(commit) => commit_of(self.references(), url@, qualifier@) == Some(commit@),
                Err(e) => commit_of(self.references(), url@, qualifier@).is_none()
                    && e.repository_url@ == url@ && e.qualifier@ == qualifier@,
            },
    {
        let wanted = String::from_str(url);
        let mut i: usize = self.checkouts.len();
        assert(self.references().take(i as int) =~= self.references());
        while i > 0
            invariant
                i <= self.checkouts.len(),
                wanted@ == url@,
                commit_of(self.references(), url@, qualifier@) == commit_of(
                    self.references().take(i as int),
                    url@,
                    qualifier@,
                ),
            decreases i,
        {
            let entry = &self.checkouts[i - 1];
            let ghost prefix = self.references().take(i as int);
            assert(prefix.last() == entry@);
            assert(prefix.drop_last() =~= self.references().take(i - 1));
            if entry.repository_url == wanted && entry.qualifier.same_as(qualifier) {
                return Ok(entry.commit.clone());
            }
            i -= 1;
        }
        Err(ReferenceNotFound { repository_url: wanted, qualifier: qualifier.duplicate() })
    }
}

/// The progress event that reports the refresh of a repository.
pub fn progress_line(url: &str) -> (r: String)
    ensures
        r@ == progress_text(url@),
{
    let mut out = String::from_str("Updating git repository ");
    out.append(url);
    out
}

/// A repository is refreshed at most once per run, whatever the number of
/// requests for it: asking again changes nothing, and after a request the
/// log holds the repository at exactly one place.
pub proof fn law_fetch_deduplicated(log: Seq<Seq<char>>, url: Seq<char>)
    requires
        log.no_duplicates(),
    ensures
        fetched(log, url).no_duplicates(),
        fetched(fetched(log, url), url) == fetched(log, url),
        exists|i: int|
            0 <= i < fetched(log, url).len() && fetched(log, url)[i] == url && forall|j: int|
                0 <= j < fetched(log, url).len() && fetched(log, url)[j] == url ==> j == i,
{
    let after = fetched(log, url);
    if log.contains(url) {
        let i = choose|i: int| 0 <= i < log.len() && log[i] == url;
        assert(0 <= i < after.len() && after[i] == url);
    } else {
        let i = log.len() as int;
        assert(after[i] == url);
        assert(forall|j: int| 0 <= j < log.len() ==> after[j] == log[j]);
        assert(0 <= i < after.len() && after[i] == url && forall|j: int|
            0 <= j < after.len() && after[j] == url ==> j == i);
    }
    assert(after.contains(url)) by {
        let i = choose|i: int| 0 <= i < after.len() && after[i] == url;
        assert(after[i] == url);
    }
}

} // verus!
