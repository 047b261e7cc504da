use rspack_core::error::ErrorKind;
use rspack_core::module::{
    BoxModule, Dependency, Module, ModuleDependency, ModuleGraphModule, SourceType,
};
use rspack_core::module_graph::ModuleGraph;
use rspack_core::traversal::post_order;
use rspack_core::{ImportKind, ResolvedURI};

struct Plain;

impl Module for Plain {
    fn render(&self) -> String {
        "plain".to_string()
    }
}

fn payload() -> BoxModule {
    Box::new(Plain)
}

fn edge(specifier: &str, kind: ImportKind, target: Option<ResolvedURI>) -> Dependency {
    Dependency { specifier: specifier.to_string(), kind, resolved_id: target }
}

fn to(uri: &str) -> Option<ResolvedURI> {
    Some(ResolvedURI::new(uri.to_string(), false, ImportKind::StaticImport, false))
}

fn module(uri: &str, dependencies: Vec<Dependency>) -> ModuleGraphModule {
    ModuleGraphModule::new(uri.to_string(), payload(), dependencies, SourceType::JavaScript)
}

fn graph(modules: Vec<ModuleGraphModule>) -> ModuleGraph {
    let mut graph = ModuleGraph::new();
    for m in modules {
        graph.insert(m).unwrap();
    }
    graph
}

fn ids(modules: Vec<&ModuleGraphModule>) -> Vec<&str> {
    modules.into_iter().map(|m| m.id()).collect()
}

#[test]
fn resolved_uri_new_keeps_its_arguments() {
    let resolved = ResolvedURI::new("/src/a.js".to_string(), true, ImportKind::Require, false);
    assert_eq!(resolved.uri, "/src/a.js");
    assert!(resolved.external);
    assert_eq!(resolved.kind, ImportKind::Require);
    assert!(!resolved.ignored);
    assert!(!resolved.is_internal());
    assert_eq!(resolved.clone(), resolved);
    let ignored = ResolvedURI::new("x".to_string(), false, ImportKind::StaticImport, true);
    assert!(!ignored.is_internal());
}

#[test]
fn new_module_is_unordered_and_no_entry() {
    let node = module("a.js", vec![edge("./b", ImportKind::StaticImport, to("b.js"))]);
    assert_eq!(node.exec_order, usize::MAX);
    assert_eq!(node.id(), "a.js");
    assert_eq!(node.source_type, SourceType::JavaScript);
    assert!(!node.is_entry);
    assert!(node.resolved_ids.is_empty());
    assert!(node.dyn_imports.is_empty());
    assert_eq!(node.all_dependencies().len(), 1);
    assert_eq!(node.module.render(), "plain");
}

#[test]
fn default_dependencies_of_a_module_are_empty() {
    let mut plain = Plain;
    assert_eq!(plain.dependencies(), Vec::<ModuleDependency>::new());
}

#[test]
fn depended_modules_follow_static_references_into_the_graph() {
    let a = module(
        "a",
        vec![
            edge("./c", ImportKind::StaticImport, to("c")),
            edge("./dyn", ImportKind::DynamicImport, to("d")),
            edge("./b", ImportKind::Require, to("b")),
            edge("./missing", ImportKind::StaticImport, to("missing")),
            edge("./failed", ImportKind::StaticImport, None),
            edge(
                "react",
                ImportKind::StaticImport,
                Some(ResolvedURI::new("b".to_string(), true, ImportKind::StaticImport, false)),
            ),
            edge(
                "skip",
                ImportKind::ExportAll,
                Some(ResolvedURI::new("c".to_string(), false, ImportKind::ExportAll, true)),
            ),
            edge("./c", ImportKind::ExportNamed, to("c")),
        ],
    );
    let others = graph(vec![module("b", vec![]), module("c", vec![]), module("d", vec![])]);
    assert_eq!(ids(a.depended_modules(&others)), vec!["c", "b", "c"]);
    assert_eq!(ids(a.dynamic_depended_modules(&others)), vec!["d"]);
    assert_eq!(ids(others.dependencies_of(&a)), vec!["c", "b", "c"]);
    assert_eq!(ids(others.dynamic_dependencies_of(&a)), vec!["d"]);
    let empty = ModuleGraph::new();
    assert!(a.depended_modules(&empty).is_empty());
}

#[test]
fn insert_refuses_a_second_module_for_an_identifier() {
    let mut modules = graph(vec![module("a", vec![])]);
    let error = modules.insert(module("a", vec![])).unwrap_err();
    assert_eq!(error.kind, ErrorKind::InvariantViolation);
    assert_eq!(error.uri, "a");
    assert_eq!(modules.len(), 1);
    assert!(modules.insert(module("b", vec![])).is_ok());
    assert_eq!(modules.len(), 2);
    assert_eq!(modules.position("b"), Some(1));
    assert_eq!(modules.position("c"), None);
    assert!(modules.contains("a"));
    assert!(modules.module_by_id("c").is_none());
    assert_eq!(modules.module_by_id("b").unwrap().id(), "b");
}

#[test]
fn module_by_dependency_looks_the_target_up() {
    let modules = graph(vec![module("a", vec![])]);
    let found = modules.module_by_dependency(&edge("./a", ImportKind::StaticImport, to("a")));
    assert_eq!(found.unwrap().id(), "a");
    assert!(modules
        .module_by_dependency(&edge("./a", ImportKind::StaticImport, None))
        .is_none());
    assert!(modules
        .module_by_dependency(&edge("./z", ImportKind::StaticImport, to("z")))
        .is_none());
}

#[test]
fn reverse_dependencies_are_the_direct_importers() {
    let modules = graph(vec![
        module("a", vec![edge("./c", ImportKind::StaticImport, to("c"))]),
        module("b", vec![edge("./a", ImportKind::StaticImport, to("a"))]),
        module("c", vec![]),
        module("d", vec![edge("./c", ImportKind::DynamicImport, to("c"))]),
    ]);
    assert_eq!(ids(modules.reverse_dependencies_of("c")), vec!["a", "d"]);
    assert_eq!(ids(modules.reverse_dependencies_of("a")), vec!["b"]);
    assert!(modules.reverse_dependencies_of("b").is_empty());
    assert!(modules.module_by_id("d").unwrap().refers_to("c"));
    assert!(!modules.module_by_id("d").unwrap().refers_to("a"));
}

#[test]
fn stale_marks_follow_references_backwards() {
    let modules = graph(vec![
        module("a", vec![edge("./b", ImportKind::StaticImport, to("b"))]),
        module("b", vec![edge("./c", ImportKind::DynamicImport, to("c"))]),
        module("c", vec![]),
        module("d", vec![edge("./c", ImportKind::StaticImport, to("c"))]),
        module("e", vec![edge("./gone", ImportKind::StaticImport, to("gone"))]),
    ]);
    assert_eq!(modules.stale_marks("c"), vec![true, true, true, true, false]);
    assert_eq!(modules.stale_marks("b"), vec![true, true, false, false, false]);
    assert_eq!(modules.stale_marks("gone"), vec![false, false, false, false, true]);
    assert_eq!(modules.stale_marks("nowhere"), vec![false; 5]);
}

#[test]
fn remove_marked_takes_the_marked_nodes_out() {
    let mut modules = graph(vec![module("a", vec![]), module("b", vec![]), module("c", vec![])]);
    let removed = modules.remove_marked(&vec![true, false, true]);
    assert_eq!(removed, vec!["a".to_string(), "c".to_string()]);
    assert_eq!(modules.len(), 1);
    assert!(modules.contains("b"));
}

#[test]
fn finalize_orders_by_post_order_over_static_references() {
    let mut modules = graph(vec![
        module("d", vec![]),
        module(
            "a",
            vec![
                edge("./x", ImportKind::DynamicImport, to("x")),
                edge("./b", ImportKind::StaticImport, to("b")),
                edge("./c", ImportKind::StaticImport, to("c")),
            ],
        ),
        module("x", vec![]),
        module("c", vec![edge("./d", ImportKind::StaticImport, to("d"))]),
        module("b", vec![edge("./d", ImportKind::Require, to("d"))]),
    ]);
    let entries = vec![
        ResolvedURI::new("lib".to_string(), true, ImportKind::StaticImport, false),
        ResolvedURI::new("a".to_string(), false, ImportKind::StaticImport, false),
    ];
    modules.finalize(&entries);
    let order = |uri: &str| modules.module_by_id(uri).unwrap().exec_order;
    assert_eq!(order("d"), 0);
    assert_eq!(order("b"), 1);
    assert_eq!(order("c"), 2);
    assert_eq!(order("a"), 3);
    assert_eq!(order("x"), usize::MAX);
    assert!(modules.module_by_id("a").unwrap().is_entry);
    assert!(!modules.module_by_id("d").unwrap().is_entry);
}

#[test]
fn finalize_with_two_entries_orders_the_first_tree_first() {
    let mut modules = graph(vec![
        module("one", vec![edge("./shared", ImportKind::StaticImport, to("shared"))]),
        module("two", vec![edge("./shared", ImportKind::StaticImport, to("shared"))]),
        module("shared", vec![]),
    ]);
    let entries = vec![
        ResolvedURI::new("one".to_string(), false, ImportKind::StaticImport, false),
        ResolvedURI::new("two".to_string(), false, ImportKind::StaticImport, false),
    ];
    modules.finalize(&entries);
    let order = |uri: &str| modules.module_by_id(uri).unwrap().exec_order;
    assert_eq!(order("shared"), 0);
    assert_eq!(order("one"), 1);
    assert_eq!(order("two"), 2);
    modules.finalize(&vec![]);
    assert_eq!(order_of(&modules, "one"), usize::MAX);
    assert!(!modules.module_by_id("one").unwrap().is_entry);
}

fn order_of(modules: &ModuleGraph, uri: &str) -> usize {
    modules.module_by_id(uri).unwrap().exec_order
}

#[test]
fn post_order_finishes_neighbours_first() {
    let adj = vec![vec![1, 2], vec![3], vec![3, 0], vec![], vec![0]];
    assert_eq!(post_order(&adj, &vec![0]), vec![3, 1, 2, 0]);
    assert_eq!(post_order(&adj, &vec![4, 0]), vec![3, 1, 2, 0, 4]);
    assert_eq!(post_order(&adj, &vec![]), Vec::<usize>::new());
    assert_eq!(post_order(&vec![vec![0]], &vec![0, 0]), vec![0]);
}
