//! Where a package's code comes from: a comparable identity with a stable text form.
use vstd::prelude::*;
use vstd::string::StringExecFns;

verus! {

/// Selects a reference inside a git repository.
#[derive(Clone, Debug)]
pub enum GitQualifier {
    /// No selector was given: the repository's default branch.
    DefaultBranch,
    Branch(String),
    Tag(String),
    Revision(String),
}

/// The mathematical value of a [`GitQualifier`].
pub enum QualifierView {
    DefaultBranch,
    Branch(Seq<char>),
    Tag(Seq<char>),
    Revision(Seq<char>),
}

/// The identity of a package's origin.
#[derive(Clone, Debug)]
pub enum SourceSpec {
    Path { location: String },
    Registry { index_url: String },
    Git { repository_url: String, qualifier: GitQualifier },
}

/// The mathematical value of a [`SourceSpec`]. Two sources are the same
/// source exactly when their views are equal: same kind, same fields.
pub enum SourceView {
    Path { location: Seq<char> },
    Registry { index_url: Seq<char> },
    Git { repository_url: Seq<char>, qualifier: QualifierView },
}

impl View for GitQualifier {
    type V = QualifierView;

    open spec fn view(&self) -> QualifierView {
        match self {
            GitQualifier::DefaultBranch => QualifierView::DefaultBranch,
            GitQualifier::Branch(name) => QualifierView::Branch(name@),
            GitQualifier::Tag(name) => QualifierView::Tag(name@),
            GitQualifier::Revision(hash) => QualifierView::Revision(hash@),
        }
    }
}

impl View for SourceSpec {
    type V = SourceView;

    open spec fn view(&self) -> SourceView {
        match self {
            SourceSpec::Path { location } => SourceView::Path { location: location@ },
            SourceSpec::Registry { index_url } => SourceView::Registry { index_url: index_url@ },
            SourceSpec::Git { repository_url, qualifier } => SourceView::Git {
                repository_url: repository_url@,
                qualifier: qualifier@,
            },
        }
    }
}

/// The suffix that a qualifier adds to the text of a git source.
pub open spec fn qualifier_suffix(q: QualifierView) -> Seq<char> {
    match q {
        QualifierView::DefaultBranch => Seq::<char>::empty(),
        QualifierView::Branch(name) => "?branch="@ + name,
        QualifierView::Tag(name) => "?tag="@ + name,
        QualifierView::Revision(hash) => "?rev="@ + hash,
    }
}

/// The stable text of a source, as diagnostics print it.
pub open spec fn source_text(s: SourceView) -> Seq<char> {
    match s {
        SourceView::Path { location } => "path+"@ + location,
        SourceView::Registry { index_url } => "registry+"@ + index_url,
        SourceView::Git { repository_url, qualifier } => "git+"@ + repository_url
            + qualifier_suffix(qualifier),
    }
}

impl GitQualifier {
    /// Structural equality.
    pub fn same_as(&self, other: &GitQualifier) -> (r: bool)
        ensures
            r == (self@ == other@),
    {
        match (self, other) {
            (GitQualifier::DefaultBranch, GitQualifier::DefaultBranch) => true,
            (GitQualifier::Branch(a), GitQualifier::Branch(b)) => *a == *b,
            (GitQualifier::Tag(a), GitQualifier::Tag(b)) => *a == *b,
            (GitQualifier::Revision(a), GitQualifier::Revision(b)) => *a == *b,
            _ => false,
        }
    }

    /// A copy with the same value.
    pub fn duplicate(&self) -> (r: GitQualifier)
        ensures
            r@ == self@,
    {
        match self {
            GitQualifier::DefaultBranch => GitQualifier::DefaultBranch,
            GitQualifier::Branch(name) => GitQualifier::Branch(name.clone()),
            GitQualifier::Tag(name) => GitQualifier::Tag(name.clone()),
            GitQualifier::Revision(hash) => GitQualifier::Revision(hash.clone()),
        }
    }
}

impl SourceSpec {
    /// Structural equality: same kind and same fields. A bare git URL and
    /// the same URL with a branch are different sources.
    pub fn same_as(&self, other: &SourceSpec) -> (r: bool)
        ensures
            r == (self@ == other@),
    {
        match (self, other) {
            (SourceSpec::Path { location: a }, SourceSpec::Path { location: b }) => *a == *b,
            (SourceSpec::Registry { index_url: a }, SourceSpec::Registry { index_url: b }) => *a == *b,
            (
                SourceSpec::Git { repository_url: a, qualifier: qa },
                SourceSpec::Git { repository_url: b, qualifier: qb },
            ) => *a == *b && qa.same_as(qb),
            _ => false,
        }
    }

    /// A copy with the same value.
    pub fn duplicate(&self) -> (r: SourceSpec)
        ensures
            r@ == self@,
    {
        match self {
            SourceSpec::Path { location } => SourceSpec::Path { location: location.clone() },
            SourceSpec::Registry { index_url } => SourceSpec::Registry {
                index_url: index_url.clone(),
            },
            SourceSpec::Git { repository_url, qualifier } => SourceSpec::Git {
                repository_url: repository_url.clone(),
                qualifier: qualifier.duplicate(),
            },
        }
    }

    /// The stable text of this source: `git+<url>` for a bare git source,
    /// with `?branch=`, `?tag=` or `?rev=` and the selector behind it
    /// where one was given.
    pub fn render(&self) -> (r: String)
        ensures
            r@ == source_text(self@),
    {
        match self {
            SourceSpec::Path { location } => {
                let mut out = String::from_str("path+");
                out.append(location.as_str());
                out
            },
            SourceSpec::Registry { index_url } => {
                let mut out = String::from_str("registry+");
                out.append(index_url.as_str());
                out
            },
            SourceSpec::Git { repository_url, qualifier } => {
                let mut out = String::from_str("git+");
                out.append(repository_url.as_str());
                match qualifier {
                    GitQualifier::DefaultBranch => {
                        assert(out@ + Seq::<char>::empty() =~= out@);
                    },
                    GitQualifier::Branch(name) => {
                        out.append("?branch=");
                        out.append(name.as_str());
                        assert(out@ =~= source_text(self@));
                    },
                    GitQualifier::Tag(name) => {
                        out.append("?tag=");
                        out.append(name.as_str());
                        assert(out@ =~= source_text(self@));
                    },
                    GitQualifier::Revision(hash) => {
                        out.append("?rev=");
                        out.append(hash.as_str());
                        assert(out@ =~= source_text(self@));
                    },
                }
                out
            },
        }
    }
}

/// A dependency's source as a manifest writes it: a table with the keys
/// `path`, `git`, `branch`, `tag` and `rev`, each of which may be absent.
#[derive(Debug)]
pub struct Declaration {
    pub path: Option<String>,
    pub git: Option<String>,
    pub branch: Option<String>,
    pub tag: Option<String>,
    pub rev: Option<String>,
}

/// The mathematical value of a [`Declaration`].
pub struct DeclarationView {
    pub path: Option<Seq<char>>,
    pub git: Option<Seq<char>>,
    pub branch: Option<Seq<char>>,
    pub tag: Option<Seq<char>>,
    pub rev: Option<Seq<char>>,
}

/// The value of a text that may be absent.
pub open spec fn optional_text(text: Option<String>) -> Option<Seq<char>> {
    match text {
        Some(t) => Some(t@),
        None => None,
    }
}

impl View for Declaration {
    type V = DeclarationView;

    open spec fn view(&self) -> DeclarationView {
        DeclarationView {
            path: optional_text(self.path),
            git: optional_text(self.git),
            branch: optional_text(self.branch),
            tag: optional_text(self.tag),
            rev: optional_text(self.rev),
        }
    }
}

/// The qualifier that a declaration gives: its branch, else its tag, else
/// its revision, else none.
pub open spec fn declared_qualifier(d: DeclarationView) -> QualifierView {
    match d.branch {
        Some(name) => QualifierView::Branch(name),
        None => match d.tag {
            Some(name) => QualifierView::Tag(name),
            None => match d.rev {
                Some(hash) => QualifierView::Revision(hash),
                None => QualifierView::DefaultBranch,
            },
        },
    }
}

/// The source that a declaration stands for: a git source where it has a
/// `git` key, else a path source where it has a `path` key, else the
/// default registry.
pub open spec fn normalized(d: DeclarationView, default_registry: Seq<char>) -> SourceView {
    match d.git {
        Some(url) => SourceView::Git { repository_url: url, qualifier: declared_qualifier(d) },
        None => match d.path {
            Some(location) => SourceView::Path { location },
            None => SourceView::Registry { index_url: default_registry },
        },
    }
}

/// The source identity of a declaration. A declaration without `git` and
/// without `path` is resolved against the default registry.
pub fn normalize(declaration: &Declaration, default_registry: &str) -> (r: SourceSpec)
    ensures
        r@ == normalized(declaration@, default_registry@),
{
    match &declaration.git {
        Some(url) => {
            let qualifier = match &declaration.branch {
                Some(name) => GitQualifier::Branch(name.clone()),
                None => match &declaration.tag {
                    Some(name) => GitQualifier::Tag(name.clone()),
                    None => match &declaration.rev {
                        Some(hash) => GitQualifier::Revision(hash.clone()),
                        None => GitQualifier::DefaultBranch,
                    },
                },
            };
            SourceSpec::Git { repository_url: url.clone(), qualifier }
        },
        None => match &declaration.path {
            Some(location) => SourceSpec::Path { location: location.clone() },
            None => SourceSpec::Registry { index_url: String::from_str(default_registry) },
        },
    }
}

/// The text of a source depends on the source alone: equal sources have
/// the same text. A git source without a qualifier is `git+` and its URL
/// with nothing behind it, and one with a branch ends in `?branch=` and
/// the branch's name.
pub proof fn law_source_text_stable(
    a: SourceView,
    b: SourceView,
    url: Seq<char>,
    branch: Seq<char>,
)
    ensures
        a == b ==> source_text(a) == source_text(b),
        source_text(
            SourceView::Git { repository_url: url, qualifier: QualifierView::DefaultBranch },
        ) == "git+"@ + url,
        source_text(
            SourceView::Git { repository_url: url, qualifier: QualifierView::Branch(branch) },
        ) == "git+"@ + url + "?branch="@ + branch,
{
    assert("git+"@ + url + Seq::<char>::empty() =~= "git+"@ + url);
    assert("git+"@ + url + ("?branch="@ + branch) =~= "git+"@ + url + "?branch="@ + branch);
}

impl PartialEq for GitQualifier {
    fn eq(&self, other: &GitQualifier) -> (r: bool) {
        self.same_as(other)
    }
}

impl vstd::std_specs::cmp::PartialEqSpecImpl for GitQualifier {
    open spec fn obeys_eq_spec() -> bool {
        true
    }

    open spec fn eq_spec(&self, other: &GitQualifier) -> bool {
        self@ == other@
    }
}

impl PartialEq for SourceSpec {
    fn eq(&self, other: &SourceSpec) -> (r: bool) {
        self.same_as(other)
    }
}

impl vstd::std_specs::cmp::PartialEqSpecImpl for SourceSpec {
    open spec fn obeys_eq_spec() -> bool {
        true
    }

    open spec fn eq_spec(&self, other: &SourceSpec) -> bool {
        self@ == other@
    }
}

} // verus!
