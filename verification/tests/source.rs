use nightly_resolver::source::{normalize, Declaration, GitQualifier, SourceSpec};

fn git(url: &str, qualifier: GitQualifier) -> SourceSpec {
    SourceSpec::Git { repository_url: url.to_string(), qualifier }
}

fn declaration(
    path: Option<&str>,
    git: Option<&str>,
    branch: Option<&str>,
    tag: Option<&str>,
    rev: Option<&str>,
) -> Declaration {
    Declaration {
        path: path.map(str::to_string),
        git: git.map(str::to_string),
        branch: branch.map(str::to_string),
        tag: tag.map(str::to_string),
        rev: rev.map(str::to_string),
    }
}

#[test]
fn bare_git_source_renders_without_suffix() {
    let s = git("https://example.com/culprit.git", GitQualifier::DefaultBranch);
    assert_eq!(s.render(), "git+https://example.com/culprit.git");
}

#[test]
fn qualified_git_sources_render_with_their_selector() {
    let url = "file:///repos/culprit";
    assert_eq!(
        git(url, GitQualifier::Branch("branchy".to_string())).render(),
        "git+file:///repos/culprit?branch=branchy"
    );
    assert_eq!(
        git(url, GitQualifier::Tag("v1.2.3".to_string())).render(),
        "git+file:///repos/culprit?tag=v1.2.3"
    );
    assert_eq!(
        git(url, GitQualifier::Revision("0a1b2c3".to_string())).render(),
        "git+file:///repos/culprit?rev=0a1b2c3"
    );
}

#[test]
fn path_and_registry_sources_render_with_their_kind() {
    assert_eq!(SourceSpec::Path { location: "/work/hello".to_string() }.render(), "path+/work/hello");
    assert_eq!(
        SourceSpec::Registry { index_url: "https://registry.example".to_string() }.render(),
        "registry+https://registry.example"
    );
}

#[test]
fn rendering_twice_gives_the_same_text() {
    let s = git("file:///repos/culprit", GitQualifier::Branch("branchy".to_string()));
    assert_eq!(s.render(), s.render());
    assert_eq!(s.render(), s.duplicate().render());
    assert_eq!(s.render(), s.clone().render());
}

#[test]
fn equality_is_structural() {
    let url = "file:///repos/culprit";
    let bare = git(url, GitQualifier::DefaultBranch);
    let branch = git(url, GitQualifier::Branch("main".to_string()));
    assert!(bare.same_as(&git(url, GitQualifier::DefaultBranch)));
    assert!(bare == git(url, GitQualifier::DefaultBranch));
    assert!(!bare.same_as(&branch));
    assert!(bare != branch);
    assert!(branch != git(url, GitQualifier::Tag("main".to_string())));
    assert!(branch != git(url, GitQualifier::Revision("main".to_string())));
    assert!(branch != git(url, GitQualifier::Branch("other".to_string())));
    assert!(branch != git("file:///repos/other", GitQualifier::Branch("main".to_string())));
    assert!(
        SourceSpec::Path { location: url.to_string() }
            != SourceSpec::Registry { index_url: url.to_string() }
    );
    assert!(SourceSpec::Path { location: url.to_string() } != bare);
    assert!(bare.duplicate() == bare);
    assert!(GitQualifier::Tag("a".to_string()).duplicate() == GitQualifier::Tag("a".to_string()));
}

#[test]
fn normalize_reads_every_recognised_table() {
    let registry = "https://registry.example";
    assert!(
        normalize(&declaration(Some("../dep"), None, None, None, None), registry)
            == SourceSpec::Path { location: "../dep".to_string() }
    );
    assert!(
        normalize(&declaration(None, Some("u"), None, None, None), registry)
            == git("u", GitQualifier::DefaultBranch)
    );
    assert!(
        normalize(&declaration(None, Some("u"), Some("b"), None, None), registry)
            == git("u", GitQualifier::Branch("b".to_string()))
    );
    assert!(
        normalize(&declaration(None, Some("u"), None, Some("t"), None), registry)
            == git("u", GitQualifier::Tag("t".to_string()))
    );
    assert!(
        normalize(&declaration(None, Some("u"), None, None, Some("r")), registry)
            == git("u", GitQualifier::Revision("r".to_string()))
    );
    assert!(
        normalize(&declaration(None, None, None, None, None), registry)
            == SourceSpec::Registry { index_url: registry.to_string() }
    );
}

#[test]
fn normalize_prefers_git_and_the_branch() {
    let registry = "https://registry.example";
    assert!(
        normalize(&declaration(Some("p"), Some("u"), Some("b"), Some("t"), Some("r")), registry)
            == git("u", GitQualifier::Branch("b".to_string()))
    );
    assert!(
        normalize(&declaration(None, Some("u"), None, Some("t"), Some("r")), registry)
            == git("u", GitQualifier::Tag("t".to_string()))
    );
    assert!(
        normalize(&declaration(Some("p"), None, Some("b"), None, None), registry)
            == SourceSpec::Path { location: "p".to_string() }
    );
}
