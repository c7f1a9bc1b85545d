use nightly_resolver::git_cache::{holds_text, progress_line, GitCache};
use nightly_resolver::loader::{LoadErrorKind, ManifestLoader};
use nightly_resolver::manifest::ManifestData;
use nightly_resolver::source::{GitQualifier, SourceSpec};

fn branch(name: &str) -> GitQualifier {
    GitQualifier::Branch(name.to_string())
}

fn git(url: &str, qualifier: GitQualifier) -> SourceSpec {
    SourceSpec::Git { repository_url: url.to_string(), qualifier }
}

#[test]
fn a_repository_is_refreshed_once_per_run() {
    let mut cache = GitCache::new();
    assert!(cache.fetch_or_update("file:///repos/a"));
    assert!(!cache.fetch_or_update("file:///repos/a"));
    assert!(cache.fetch_or_update("file:///repos/b"));
    assert!(!cache.fetch_or_update("file:///repos/a"));
    assert!(!cache.fetch_or_update("file:///repos/b"));
    assert_eq!(
        cache.updated_repositories(),
        vec!["file:///repos/a".to_string(), "file:///repos/b".to_string()]
    );
}

#[test]
fn a_new_run_refreshes_again_and_keeps_the_references() {
    let mut cache = GitCache::new();
    cache.materialize("u", branch("main"), "c1");
    assert!(cache.fetch_or_update("u"));
    cache.begin_run();
    assert_eq!(cache.updated_repositories(), Vec::<String>::new());
    assert_eq!(cache.checkout("u", &branch("main")).unwrap(), "c1");
    assert!(cache.fetch_or_update("u"));
    assert!(!cache.fetch_or_update("u"));
}

#[test]
fn checkout_gives_the_recorded_commit() {
    let mut cache = GitCache::new();
    cache.materialize("u", GitQualifier::DefaultBranch, "c0");
    cache.materialize("u", branch("main"), "c1");
    cache.materialize("u", GitQualifier::Tag("main".to_string()), "c2");
    cache.materialize("v", branch("main"), "c3");
    assert_eq!(cache.checkout("u", &GitQualifier::DefaultBranch).unwrap(), "c0");
    assert_eq!(cache.checkout("u", &branch("main")).unwrap(), "c1");
    assert_eq!(cache.checkout("u", &GitQualifier::Tag("main".to_string())).unwrap(), "c2");
    assert_eq!(cache.checkout("v", &branch("main")).unwrap(), "c3");
    assert_eq!(cache.checkout("u", &branch("main")).unwrap(), "c1");
}

#[test]
fn a_later_record_replaces_an_earlier_one() {
    let mut cache = GitCache::new();
    cache.materialize("u", branch("main"), "old");
    cache.materialize("u", branch("main"), "new");
    assert_eq!(cache.checkout("u", &branch("main")).unwrap(), "new");
}

#[test]
fn checkout_of_a_missing_reference_names_it() {
    let mut cache = GitCache::new();
    cache.materialize("u", branch("main"), "c1");
    let missing = cache.checkout("u", &branch("gone")).unwrap_err();
    assert_eq!(missing.repository_url, "u");
    assert!(missing.qualifier == branch("gone"));
    assert!(cache.checkout("w", &branch("main")).is_err());
    assert!(cache.checkout("u", &GitQualifier::Revision("main".to_string())).is_err());
    assert!(GitCache::new().checkout("u", &GitQualifier::DefaultBranch).is_err());
}

#[test]
fn progress_line_names_the_repository() {
    assert_eq!(progress_line("file:///repos/culprit"), "Updating git repository file:///repos/culprit");
}

#[test]
fn holds_text_searches_a_list() {
    let list = vec!["a".to_string(), "b".to_string()];
    assert!(holds_text(&list, &"b".to_string()));
    assert!(!holds_text(&list, &"c".to_string()));
    assert!(!holds_text(&Vec::new(), &"a".to_string()));
}

#[test]
fn the_store_keeps_the_first_manifest_of_a_source() {
    let mut loader = ManifestLoader::new();
    let source = SourceSpec::Path { location: "/p".to_string() };
    assert!(loader.store(source.duplicate(), ManifestData::new("p".to_string(), "1.0.0".to_string())));
    assert!(!loader.store(source.duplicate(), ManifestData::new("p".to_string(), "2.0.0".to_string())));
    let mut cache = GitCache::new();
    let loaded = loader.load(&source, &mut cache).unwrap();
    assert_eq!(loaded.version, "1.0.0");
    assert_eq!(cache.updated_repositories(), Vec::<String>::new());
}

#[test]
fn loading_a_git_source_asks_for_the_repository_once() {
    let mut loader = ManifestLoader::new();
    loader.store(git("u", GitQualifier::DefaultBranch), ManifestData::new("a".to_string(), "1.0.0".to_string()));
    loader.store(git("u", branch("b")), ManifestData::new("a".to_string(), "1.1.0".to_string()));
    let mut cache = GitCache::new();
    cache.materialize("u", GitQualifier::DefaultBranch, "c0");
    cache.materialize("u", branch("b"), "c1");
    assert_eq!(loader.load(&git("u", GitQualifier::DefaultBranch), &mut cache).unwrap().version, "1.0.0");
    assert_eq!(loader.load(&git("u", branch("b")), &mut cache).unwrap().version, "1.1.0");
    assert_eq!(loader.load(&git("u", GitQualifier::DefaultBranch), &mut cache).unwrap().name, "a");
    assert_eq!(cache.updated_repositories(), vec!["u".to_string()]);
}

#[test]
fn loading_fails_on_a_missing_reference_or_manifest() {
    let mut loader = ManifestLoader::new();
    loader.store(git("u", branch("b")), ManifestData::new("a".to_string(), "1.0.0".to_string()));
    let mut cache = GitCache::new();
    assert_eq!(
        loader.load(&git("u", branch("b")), &mut cache).unwrap_err(),
        LoadErrorKind::ReferenceNotFound
    );
    assert_eq!(cache.updated_repositories(), vec!["u".to_string()]);
    cache.materialize("u", GitQualifier::DefaultBranch, "c0");
    assert_eq!(
        loader.load(&git("u", GitQualifier::DefaultBranch), &mut cache).unwrap_err(),
        LoadErrorKind::ManifestNotFound
    );
    assert_eq!(
        loader.load(&SourceSpec::Path { location: "/nowhere".to_string() }, &mut cache).unwrap_err(),
        LoadErrorKind::ManifestNotFound
    );
}
