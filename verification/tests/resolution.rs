use nightly_resolver::git_cache::GitCache;
use nightly_resolver::graph::{order, DependencyGraph};
use nightly_resolver::loader::{LoadErrorKind, ManifestLoader};
use nightly_resolver::manifest::{Dependency, ManifestData};
use nightly_resolver::resolution::resolve;
use nightly_resolver::resolver::{ResolveError, Resolver, Step};
use nightly_resolver::source::{GitQualifier, SourceSpec};

fn git_at(url: &str) -> SourceSpec {
    SourceSpec::Git { repository_url: url.to_string(), qualifier: GitQualifier::DefaultBranch }
}

fn tagged(url: &str, tag: &str) -> SourceSpec {
    SourceSpec::Git { repository_url: url.to_string(), qualifier: GitQualifier::Tag(tag.to_string()) }
}

fn at_path(location: &str) -> SourceSpec {
    SourceSpec::Path { location: location.to_string() }
}

fn package(name: &str, deps: Vec<(&str, SourceSpec)>) -> ManifestData {
    let mut m = ManifestData::new(name.to_string(), "0.1.0".to_string());
    for (dep, source) in deps {
        m.declare(Dependency::new(dep.to_string(), source));
    }
    m
}

fn node_names(graph: &DependencyGraph) -> Vec<String> {
    (0..graph.len()).map(|k| graph.node(k).name.clone()).collect()
}

fn store_with(entries: Vec<(SourceSpec, ManifestData)>) -> ManifestLoader {
    let mut loader = ManifestLoader::new();
    for (source, manifest) in entries {
        assert!(loader.store(source, manifest));
    }
    loader
}

#[test]
fn a_root_without_dependencies_resolves_to_itself() {
    let loader = ManifestLoader::new();
    let mut cache = GitCache::new();
    let graph = resolve(at_path("/r"), package("r", vec![]), &loader, &mut cache).unwrap();
    assert_eq!(node_names(&graph), vec!["r"]);
    assert_eq!(graph.index_of("r"), Some(0));
    assert_eq!(graph.index_of("x"), None);
    let id = graph.package_id(0);
    assert_eq!((id.name.as_str(), id.version.as_str(), id.source.as_str()), ("r", "0.1.0", "path+/r"));
    assert_eq!(order(&graph).unwrap().places, vec![0]);
}

#[test]
fn packages_are_met_level_by_level() {
    // r -> a, b; a -> c; b -> d; c -> e
    let loader = store_with(vec![
        (at_path("/a"), package("a", vec![("c", at_path("/c"))])),
        (at_path("/b"), package("b", vec![("d", at_path("/d"))])),
        (at_path("/c"), package("c", vec![("e", at_path("/e"))])),
        (at_path("/d"), package("d", vec![])),
        (at_path("/e"), package("e", vec![])),
    ]);
    let mut cache = GitCache::new();
    let root = package("r", vec![("a", at_path("/a")), ("b", at_path("/b"))]);
    let graph = resolve(at_path("/r"), root, &loader, &mut cache).unwrap();
    assert_eq!(node_names(&graph), vec!["r", "a", "b", "c", "d", "e"]);
    let compile = order(&graph).unwrap();
    assert_eq!(compile.places, vec![4, 2, 5, 3, 1, 0]);
    let names: Vec<&str> = compile.packages.iter().map(|p| p.name.as_str()).collect();
    assert_eq!(names, vec!["d", "b", "e", "c", "a", "r"]);
}

#[test]
fn one_source_by_many_ways_gives_one_package() {
    // a diamond with a shared tail, all by the same sources
    let shared = tagged("file:///repos/shared", "v1");
    let loader = store_with(vec![
        (git_at("file:///repos/left"), package("left", vec![("shared", shared.duplicate())])),
        (git_at("file:///repos/right"), package("right", vec![("shared", shared.duplicate())])),
        (shared.duplicate(), package("shared", vec![])),
    ]);
    let mut cache = GitCache::new();
    cache.materialize("file:///repos/left", GitQualifier::DefaultBranch, "l");
    cache.materialize("file:///repos/right", GitQualifier::DefaultBranch, "r");
    cache.materialize("file:///repos/shared", GitQualifier::Tag("v1".to_string()), "s");
    let root = package(
        "top",
        vec![
            ("left", git_at("file:///repos/left")),
            ("right", git_at("file:///repos/right")),
            ("shared", shared.duplicate()),
            ("left", git_at("file:///repos/left")),
        ],
    );
    let graph = resolve(at_path("/top"), root, &loader, &mut cache).unwrap();
    assert_eq!(node_names(&graph), vec!["top", "left", "right", "shared"]);
    assert_eq!(graph.dependencies_of(0), &vec![1, 2, 3]);
    assert_eq!(
        cache.updated_repositories(),
        vec![
            "file:///repos/left".to_string(),
            "file:///repos/right".to_string(),
            "file:///repos/shared".to_string()
        ]
    );
}

#[test]
fn sources_of_different_kind_or_url_conflict() {
    let loader = store_with(vec![
        (at_path("/a"), package("a", vec![("x", git_at("file:///repos/x2"))])),
        (git_at("file:///repos/x1"), package("x", vec![])),
    ]);
    let mut cache = GitCache::new();
    cache.materialize("file:///repos/x1", GitQualifier::DefaultBranch, "c");
    let root = package("r", vec![("x", git_at("file:///repos/x1")), ("a", at_path("/a"))]);
    match resolve(at_path("/r"), root, &loader, &mut cache).unwrap_err() {
        ResolveError::SourceConflict { name, source1, source2 } => {
            assert_eq!(name, "x");
            assert_eq!(source1, "git+file:///repos/x1");
            assert_eq!(source2, "git+file:///repos/x2");
        }
        other => panic!("unexpected error {:?}", other),
    }
    assert_eq!(cache.updated_repositories(), vec!["file:///repos/x1".to_string()]);

    let loader = store_with(vec![(at_path("/x"), package("x", vec![]))]);
    let root = package("r", vec![("x", at_path("/x")), ("x", git_at("/x"))]);
    let error = resolve(at_path("/r"), root, &loader, &mut GitCache::new()).unwrap_err();
    assert_eq!(
        error.message(),
        "error: found dependencies on the same package `x` coming from incompatible sources:\n\
         source 1: path+/x\nsource 2: git+/x"
    );
}

#[test]
fn the_first_seen_source_is_source_one() {
    // three sources for x: the first two collide, the third is never looked at
    let loader = store_with(vec![(tagged("u", "v1"), package("x", vec![]))]);
    let mut cache = GitCache::new();
    cache.materialize("u", GitQualifier::Tag("v1".to_string()), "c");
    let root = package(
        "r",
        vec![("x", tagged("u", "v1")), ("x", tagged("u", "v2")), ("x", tagged("u", "v3"))],
    );
    match resolve(at_path("/r"), root, &loader, &mut cache).unwrap_err() {
        ResolveError::SourceConflict { source1, source2, .. } => {
            assert_eq!(source1, "git+u?tag=v1");
            assert_eq!(source2, "git+u?tag=v2");
        }
        other => panic!("unexpected error {:?}", other),
    }
}

#[test]
fn a_declaration_of_the_root_from_elsewhere_conflicts() {
    let loader = store_with(vec![(at_path("/a"), package("a", vec![("r", at_path("/other"))]))]);
    let root = package("r", vec![("a", at_path("/a"))]);
    match resolve(at_path("/r"), root, &loader, &mut GitCache::new()).unwrap_err() {
        ResolveError::SourceConflict { name, source1, source2 } => {
            assert_eq!(name, "r");
            assert_eq!(source1, "path+/r");
            assert_eq!(source2, "path+/other");
        }
        other => panic!("unexpected error {:?}", other),
    }
}

#[test]
fn a_cycle_resolves_and_is_reported_by_the_order() {
    let loader = store_with(vec![
        (at_path("/a"), package("a", vec![("b", at_path("/b"))])),
        (at_path("/b"), package("b", vec![("a", at_path("/a"))])),
    ]);
    let root = package("r", vec![("a", at_path("/a"))]);
    let graph = resolve(at_path("/r"), root, &loader, &mut GitCache::new()).unwrap();
    assert_eq!(node_names(&graph), vec!["r", "a", "b"]);
    let cyclic = order(&graph).unwrap_err();
    assert_eq!(cyclic.places, vec![1, 2]);
    assert_eq!(cyclic.cycle, vec!["a".to_string(), "b".to_string()]);
}

#[test]
fn a_missing_manifest_ends_the_resolution() {
    let loader = store_with(vec![(at_path("/a"), package("a", vec![("gone", at_path("/gone"))]))]);
    let root = package("r", vec![("a", at_path("/a")), ("later", git_at("never-asked"))]);
    let mut cache = GitCache::new();
    let error = resolve(at_path("/r"), root, &loader, &mut cache).unwrap_err();
    match &error {
        ResolveError::Load { kind, source } => {
            assert_eq!(*kind, LoadErrorKind::ReferenceNotFound);
            assert_eq!(source, "git+never-asked");
        }
        other => panic!("unexpected error {:?}", other),
    }
    assert_eq!(
        error.message(),
        "error: failed to load the manifest of `git+never-asked`: the reference was not found"
    );
    assert_eq!(cache.updated_repositories(), vec!["never-asked".to_string()]);

    let root = package("r", vec![("a", at_path("/a"))]);
    let error = resolve(at_path("/r"), root, &loader, &mut GitCache::new()).unwrap_err();
    assert_eq!(
        error.message(),
        "error: failed to load the manifest of `path+/gone`: the manifest was not found"
    );
}

#[test]
fn a_resolver_is_driven_step_by_step() {
    let root = package("r", vec![("a", at_path("/a")), ("b", at_path("/b")), ("a", at_path("/a"))]);
    let mut resolver = Resolver::new(at_path("/r"), root);
    match resolver.advance() {
        Step::Load(declared) => {
            assert_eq!(declared.name, "a");
            assert!(declared.source == at_path("/a"));
        }
        other => panic!("unexpected step {:?}", other),
    }
    // asking again changes nothing
    assert!(matches!(resolver.advance(), Step::Load(d) if d.name == "a"));
    resolver.supply(package("a", vec![("b", at_path("/b"))]));
    assert!(matches!(resolver.advance(), Step::Load(d) if d.name == "b"));
    resolver.supply(package("b", vec![]));
    assert!(matches!(resolver.advance(), Step::Finished));
    let graph = resolver.into_graph();
    assert_eq!(node_names(&graph), vec!["r", "a", "b"]);
    assert_eq!(graph.dependencies_of(0), &vec![1, 2]);
    assert_eq!(graph.dependencies_of(1), &vec![2]);
}

#[test]
fn a_caller_reports_its_own_load_failures() {
    let root = package("r", vec![("a", git_at("https://example.com/a"))]);
    let mut resolver = Resolver::new(at_path("/r"), root);
    assert!(matches!(resolver.advance(), Step::Load(_)));
    let network = resolver.fail(LoadErrorKind::Network);
    assert_eq!(
        network.message(),
        "error: failed to load the manifest of `git+https://example.com/a`: \
         the repository could not be fetched"
    );
    let parse = resolver.fail(LoadErrorKind::ManifestParse);
    assert_eq!(
        parse.message(),
        "error: failed to load the manifest of `git+https://example.com/a`: \
         the manifest could not be parsed"
    );
    assert!(matches!(parse, ResolveError::Load { kind: LoadErrorKind::ManifestParse, .. }));
    assert_eq!(LoadErrorKind::ManifestNotFound.describe(), "the manifest was not found");
}

#[test]
fn a_conflict_is_met_again_on_every_step() {
    let root = package("r", vec![("r", at_path("/elsewhere"))]);
    let mut resolver = Resolver::new(at_path("/r"), root);
    assert!(matches!(resolver.advance(), Step::Failed(ResolveError::SourceConflict { .. })));
    assert!(matches!(resolver.advance(), Step::Failed(ResolveError::SourceConflict { .. })));
}

#[test]
fn manifests_keep_their_declarations_in_order() {
    let mut m = ManifestData::new("m".to_string(), "1.2.3".to_string());
    let mut with_requirement = Dependency::new("b".to_string(), at_path("/b"));
    with_requirement.requirement = Some("^1".to_string());
    m.declare(Dependency::new("a".to_string(), at_path("/a")));
    m.declare(with_requirement);
    let copy = m.duplicate();
    assert_eq!(copy.name, "m");
    assert_eq!(copy.version, "1.2.3");
    assert_eq!(copy.dependencies.len(), 2);
    assert_eq!(copy.dependencies[0].name, "a");
    assert_eq!(copy.dependencies[0].requirement, None);
    assert_eq!(copy.dependencies[1].name, "b");
    assert_eq!(copy.dependencies[1].requirement, Some("^1".to_string()));
    assert!(copy.dependencies[1].source == at_path("/b"));
}
