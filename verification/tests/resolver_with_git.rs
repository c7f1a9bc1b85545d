use nightly_resolver::git_cache::GitCache;
use nightly_resolver::graph::order;
use nightly_resolver::loader::ManifestLoader;
use nightly_resolver::manifest::{Dependency, ManifestData};
use nightly_resolver::resolution::resolve;
use nightly_resolver::resolver::ResolveError;
use nightly_resolver::source::{GitQualifier, SourceSpec};

const CULPRIT: &str = "file:///repos/culprit";
const PROXY: &str = "file:///repos/proxy";
const DEP1: &str = "file:///repos/dep1";
const DEP2: &str = "file:///repos/dep2";

fn git(url: &str) -> SourceSpec {
    SourceSpec::Git { repository_url: url.to_string(), qualifier: GitQualifier::DefaultBranch }
}

fn git_branch(url: &str, branch: &str) -> SourceSpec {
    SourceSpec::Git {
        repository_url: url.to_string(),
        qualifier: GitQualifier::Branch(branch.to_string()),
    }
}

fn path(location: &str) -> SourceSpec {
    SourceSpec::Path { location: location.to_string() }
}

fn manifest(name: &str, version: &str, deps: Vec<(&str, SourceSpec)>) -> ManifestData {
    let mut m = ManifestData::new(name.to_string(), version.to_string());
    for (dep, source) in deps {
        m.declare(Dependency::new(dep.to_string(), source));
    }
    m
}

fn names(graph: &nightly_resolver::graph::DependencyGraph) -> Vec<String> {
    (0..graph.len()).map(|k| graph.node(k).name.clone()).collect()
}

#[test]
fn valid_triangle() {
    let mut cache = GitCache::new();
    cache.materialize(CULPRIT, GitQualifier::DefaultBranch, "c1");
    cache.materialize(PROXY, GitQualifier::DefaultBranch, "p1");
    let mut loader = ManifestLoader::new();
    assert!(loader.store(git(CULPRIT), manifest("culprit", "1.0.0", vec![])));
    assert!(loader.store(git(PROXY), manifest("proxy", "1.0.0", vec![("culprit", git(CULPRIT))])));
    let hello = manifest(
        "hello",
        "1.0.0",
        vec![("culprit", git(CULPRIT)), ("proxy", git(PROXY))],
    );

    let graph = resolve(path("/work/hello"), hello, &loader, &mut cache).unwrap();

    assert_eq!(cache.updated_repositories(), vec![CULPRIT.to_string(), PROXY.to_string()]);
    assert_eq!(names(&graph), vec!["hello", "culprit", "proxy"]);
    assert_eq!(names(&graph).iter().filter(|n| n.as_str() == "culprit").count(), 1);
    assert_eq!(graph.dependencies_of(0), &vec![1, 2]);
    assert_eq!(graph.dependencies_of(1), &Vec::<usize>::new());
    assert_eq!(graph.dependencies_of(2), &vec![1]);

    let compile = order(&graph).unwrap();
    assert_eq!(compile.places, vec![1, 2, 0]);
    let last = &compile.packages[2];
    assert_eq!(last.name, "hello");
    assert_eq!(last.version, "1.0.0");
    assert_eq!(last.source, "path+/work/hello");
    assert_eq!(compile.packages[0].source, "git+file:///repos/culprit");
}

#[test]
fn two_revs_of_same_dep() {
    let mut cache = GitCache::new();
    cache.materialize(CULPRIT, GitQualifier::DefaultBranch, "c1");
    cache.materialize(CULPRIT, GitQualifier::Branch("branchy".to_string()), "c2");
    let mut loader = ManifestLoader::new();
    loader.store(git(CULPRIT), manifest("culprit", "1.0.0", vec![]));
    loader.store(git_branch(CULPRIT, "branchy"), manifest("culprit", "1.0.0", vec![]));
    loader.store(
        path("/work/hello/vendor/proxy"),
        manifest("proxy", "1.0.0", vec![("culprit", git_branch(CULPRIT, "branchy"))]),
    );
    let hello = manifest(
        "hello",
        "1.0.0",
        vec![("culprit", git(CULPRIT)), ("proxy", path("/work/hello/vendor/proxy"))],
    );

    let error = resolve(path("/work/hello"), hello, &loader, &mut cache).unwrap_err();

    assert_eq!(cache.updated_repositories(), vec![CULPRIT.to_string()]);
    assert_eq!(
        error.message(),
        "error: found dependencies on the same package `culprit` coming from incompatible sources:\n\
         source 1: git+file:///repos/culprit\n\
         source 2: git+file:///repos/culprit?branch=branchy"
    );
    match error {
        ResolveError::SourceConflict { name, source1, source2 } => {
            assert_eq!(name, "culprit");
            assert_eq!(source1, "git+file:///repos/culprit");
            assert_eq!(source2, "git+file:///repos/culprit?branch=branchy");
        }
        other => panic!("unexpected error {:?}", other),
    }
}

#[test]
fn two_revs_of_same_dep_diamond() {
    let mut cache = GitCache::new();
    cache.materialize(CULPRIT, GitQualifier::DefaultBranch, "c1");
    cache.materialize(CULPRIT, GitQualifier::Branch("branchy".to_string()), "c2");
    cache.materialize(DEP1, GitQualifier::DefaultBranch, "d1");
    cache.materialize(DEP2, GitQualifier::DefaultBranch, "d2");
    let mut loader = ManifestLoader::new();
    loader.store(git(CULPRIT), manifest("culprit", "1.0.0", vec![]));
    loader.store(git_branch(CULPRIT, "branchy"), manifest("culprit", "1.0.0", vec![]));
    loader.store(git(DEP1), manifest("dep1", "1.0.0", vec![("culprit", git(CULPRIT))]));
    loader.store(
        git(DEP2),
        manifest("dep2", "1.0.0", vec![("culprit", git_branch(CULPRIT, "branchy"))]),
    );
    let hello = manifest("hello", "1.0.0", vec![("dep1", git(DEP1)), ("dep2", git(DEP2))]);

    let error = resolve(path("/work/hello"), hello, &loader, &mut cache).unwrap_err();

    assert_eq!(
        cache.updated_repositories(),
        vec![DEP1.to_string(), DEP2.to_string(), CULPRIT.to_string()]
    );
    assert_eq!(
        error.message(),
        "error: found dependencies on the same package `culprit` coming from incompatible sources:\n\
         source 1: git+file:///repos/culprit\n\
         source 2: git+file:///repos/culprit?branch=branchy"
    );
}
