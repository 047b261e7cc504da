use rspack_core::bundle::Bundle;
use rspack_core::dependency_scanner::DynImportDesc;
use rspack_core::error::ErrorKind;
use rspack_core::module::ModuleGraphModule;
use rspack_core::syntax::{Ast, CallExpr, Callee, Expr, ExprOrSpread, ModuleDecl, ModuleItem, Node};
use rspack_core::task::{DependencyIdResolver, Resolution, Task};
use rspack_core::{ImportKind, ResolvedURI};

/// One source file of a project: its identifier, its syntax tree and what
/// each of its specifiers resolves to.
struct File {
    uri: &'static str,
    ast: Ast,
    resolutions: Vec<(&'static str, ResolvedURI)>,
}

fn internal(uri: &str) -> ResolvedURI {
    ResolvedURI::new(uri.to_string(), false, ImportKind::StaticImport, false)
}

fn external(uri: &str) -> ResolvedURI {
    ResolvedURI::new(uri.to_string(), true, ImportKind::StaticImport, false)
}

fn import(src: &str) -> Node {
    Node {
        item: ModuleItem::ModuleDecl(ModuleDecl::Import { src: src.to_string() }),
        calls: vec![],
    }
}

fn statement(calls: Vec<CallExpr>) -> Node {
    Node { item: ModuleItem::Stmt, calls }
}

fn dynamic_import(argument: Expr) -> CallExpr {
    CallExpr { callee: Callee::Import, args: vec![ExprOrSpread { spread: false, expr: argument }] }
}

fn file(uri: &'static str, body: Vec<Node>, resolutions: Vec<(&'static str, &'static str)>) -> File {
    File {
        uri,
        ast: Ast { body },
        resolutions: resolutions.into_iter().map(|(s, target)| (s, internal(target))).collect(),
    }
}

/// Plays the part of the services around the library: answers the resolve
/// hook from the table of a file, hands each task the tree of its module,
/// and consumes results after every task.
fn build(entries: Vec<&str>, files: Vec<File>) -> Bundle {
    let mut bundle = Bundle::new();
    let mut files = files;
    let mut queue: Vec<Task> = bundle.seed(entries.into_iter().map(internal).collect());
    while !queue.is_empty() {
        let task = queue.remove(0);
        let found = files.iter().position(|f| f.uri == task.resolved_id.uri);
        match found {
            Some(at) => {
                let source = files.remove(at);
                let mut resolver = DependencyIdResolver::new(source.uri.to_string());
                for (specifier, resolved) in &source.resolutions {
                    match resolver.resolve_id(&specifier.to_string()) {
                        Resolution::Miss(args) => {
                            assert_eq!(args.importer, Some(source.uri.to_string()));
                            assert!(!args.is_entry);
                            resolver.record(args.specifier, resolved.clone());
                        },
                        Resolution::Cached(cached) => assert_eq!(&cached, resolved),
                    }
                }
                let spawned = bundle.run_task(&task, resolver, source.ast).unwrap();
                queue.extend(spawned);
            },
            None => {
                bundle.fail_task(&task, ErrorKind::LoadFailure, "no such file".to_string()).unwrap();
            },
        }
        bundle.drain();
    }
    assert!(bundle.is_quiescent());
    bundle.finalize();
    bundle
}

fn node<'a>(bundle: &'a Bundle, uri: &str) -> &'a ModuleGraphModule {
    bundle.module_graph().module_by_id(uri).unwrap()
}

fn order(bundle: &Bundle, uri: &str) -> usize {
    node(bundle, uri).exec_order
}

#[test]
fn zero_entries_give_an_empty_graph() {
    let mut bundle = Bundle::new();
    assert!(bundle.is_quiescent());
    let tasks = bundle.seed(vec![]);
    assert!(tasks.is_empty());
    assert!(bundle.is_quiescent());
    assert_eq!(bundle.drain(), 0);
    bundle.finalize();
    assert_eq!(bundle.module_graph().len(), 0);
    assert!(bundle.errors().is_empty());
    assert_eq!(bundle.context().visited_count(), 0);
}

#[test]
fn single_entry_without_imports() {
    let bundle = build(vec!["a.js"], vec![file("a.js", vec![statement(vec![])], vec![])]);
    assert_eq!(bundle.module_graph().len(), 1);
    assert_eq!(order(&bundle, "a.js"), 0);
    assert!(node(&bundle, "a.js").is_entry);
    assert!(bundle.errors().is_empty());
    assert_eq!(bundle.context().active_task_count(), 0);
}

#[test]
fn linear_chain_is_ordered_leaf_first() {
    let bundle = build(
        vec!["a.js"],
        vec![
            file("a.js", vec![import("./b")], vec![("./b", "b.js")]),
            file("b.js", vec![import("./c")], vec![("./c", "c.js")]),
            file("c.js", vec![], vec![]),
        ],
    );
    assert_eq!(bundle.module_graph().len(), 3);
    assert_eq!(order(&bundle, "c.js"), 0);
    assert_eq!(order(&bundle, "b.js"), 1);
    assert_eq!(order(&bundle, "a.js"), 2);
    assert!(!node(&bundle, "b.js").is_entry);
}

#[test]
fn diamond_spawns_the_shared_module_once() {
    let bundle = build(
        vec!["a"],
        vec![
            file("a", vec![import("./b"), import("./c")], vec![("./b", "b"), ("./c", "c")]),
            file("b", vec![import("./d")], vec![("./d", "d")]),
            file("c", vec![import("./d")], vec![("./d", "d")]),
            file("d", vec![], vec![]),
        ],
    );
    assert_eq!(bundle.module_graph().len(), 4);
    assert_eq!(bundle.context().visited_count(), 4);
    assert_eq!(order(&bundle, "d"), 0);
    assert_eq!(order(&bundle, "b"), 1);
    assert_eq!(order(&bundle, "c"), 2);
    assert_eq!(order(&bundle, "a"), 3);
    assert!(bundle.errors().is_empty());
}

#[test]
fn cycle_terminates_and_is_ordered_by_source_order() {
    let bundle = build(
        vec!["a"],
        vec![
            file("a", vec![import("./b")], vec![("./b", "b")]),
            file("b", vec![import("./a")], vec![("./a", "a")]),
        ],
    );
    assert_eq!(bundle.module_graph().len(), 2);
    assert_eq!(order(&bundle, "b"), 0);
    assert_eq!(order(&bundle, "a"), 1);
    let a = node(&bundle, "a");
    let b = node(&bundle, "b");
    assert_eq!(a.depended_modules(bundle.module_graph())[0].id(), "b");
    assert_eq!(b.depended_modules(bundle.module_graph())[0].id(), "a");
}

#[test]
fn cycle_of_three_holds_every_module() {
    let bundle = build(
        vec!["a"],
        vec![
            file("a", vec![import("b")], vec![("b", "b")]),
            file("b", vec![import("c")], vec![("c", "c")]),
            file("c", vec![import("a")], vec![("a", "a")]),
        ],
    );
    assert_eq!(bundle.module_graph().len(), 3);
    assert_eq!(order(&bundle, "c"), 0);
    assert_eq!(order(&bundle, "b"), 1);
    assert_eq!(order(&bundle, "a"), 2);
}

#[test]
fn self_import_gives_one_module_with_a_self_edge() {
    let bundle = build(vec!["a"], vec![file("a", vec![import("./a")], vec![("./a", "a")])]);
    assert_eq!(bundle.module_graph().len(), 1);
    assert_eq!(bundle.context().visited_count(), 1);
    let a = node(&bundle, "a");
    let targets = a.depended_modules(bundle.module_graph());
    assert_eq!(targets.len(), 1);
    assert_eq!(targets[0].id(), "a");
    assert_eq!(order(&bundle, "a"), 0);
}

#[test]
fn dynamic_literal_import_is_outside_the_static_closure() {
    let bundle = build(
        vec!["a.js"],
        vec![
            file(
                "a.js",
                vec![statement(vec![dynamic_import(Expr::Str("./b".to_string()))])],
                vec![("./b", "b.js")],
            ),
            file("b.js", vec![], vec![]),
        ],
    );
    assert_eq!(bundle.module_graph().len(), 2);
    let a = node(&bundle, "a.js");
    assert_eq!(a.all_dependencies().len(), 1);
    assert_eq!(a.all_dependencies()[0].kind, ImportKind::DynamicImport);
    assert!(a.depended_modules(bundle.module_graph()).is_empty());
    assert_eq!(a.dynamic_depended_modules(bundle.module_graph())[0].id(), "b.js");
    assert_eq!(order(&bundle, "a.js"), 0);
    assert_eq!(order(&bundle, "b.js"), usize::MAX);
    assert_eq!(a.dyn_imports, vec![DynImportDesc { argument: Some("./b".to_string()) }]);
}

#[test]
fn dynamic_import_of_a_non_literal_spawns_nothing() {
    let bundle = build(
        vec!["a.js"],
        vec![file(
            "a.js",
            vec![statement(vec![dynamic_import(Expr::Ident("name".to_string()))])],
            vec![],
        )],
    );
    assert_eq!(bundle.module_graph().len(), 1);
    assert_eq!(bundle.context().visited_count(), 1);
    assert!(bundle.errors().is_empty());
    let a = node(&bundle, "a.js");
    assert!(a.all_dependencies().is_empty());
    assert_eq!(a.dyn_imports, vec![DynImportDesc { argument: None }]);
}

#[test]
fn external_specifier_is_an_edge_without_a_node() {
    let mut source = file("a.js", vec![import("react")], vec![]);
    source.resolutions.push(("react", external("react")));
    let bundle = build(vec!["a.js"], vec![source]);
    assert_eq!(bundle.module_graph().len(), 1);
    assert_eq!(bundle.context().visited_count(), 1);
    assert!(bundle.errors().is_empty());
    let a = node(&bundle, "a.js");
    assert_eq!(a.all_dependencies().len(), 1);
    assert_eq!(a.all_dependencies()[0].resolved_id, Some(external("react")));
    assert!(a.depended_modules(bundle.module_graph()).is_empty());
    assert!(bundle.module_graph().module_by_id("react").is_none());
}

#[test]
fn resolve_failure_is_recorded_and_the_module_finishes() {
    let bundle = build(vec!["a.js"], vec![file("a.js", vec![import("./nope")], vec![])]);
    assert_eq!(bundle.module_graph().len(), 1);
    assert!(bundle.module_graph().contains("a.js"));
    assert_eq!(bundle.errors().len(), 1);
    assert_eq!(bundle.errors()[0].kind, ErrorKind::ResolveFailure);
    assert_eq!(bundle.errors()[0].uri, "a.js");
    assert_eq!(bundle.errors()[0].detail, "./nope");
    assert_eq!(bundle.context().active_task_count(), 0);
    assert_eq!(node(&bundle, "a.js").all_dependencies()[0].resolved_id, None);
}

#[test]
fn load_failure_leaves_the_module_out_of_the_graph() {
    let bundle = build(
        vec!["a.js"],
        vec![file("a.js", vec![import("./gone")], vec![("./gone", "gone.js")])],
    );
    assert_eq!(bundle.module_graph().len(), 1);
    assert!(!bundle.module_graph().contains("gone.js"));
    assert_eq!(bundle.failed().len(), 1);
    assert_eq!(bundle.failed()[0], "gone.js");
    assert_eq!(bundle.errors().len(), 1);
    assert_eq!(bundle.errors()[0].kind, ErrorKind::LoadFailure);
    assert_eq!(bundle.context().visited_count(), 2);
    assert!(bundle.is_quiescent());
}

#[test]
fn every_recognized_specifier_is_a_key_of_the_resolved_ids() {
    let bundle = build(
        vec!["a"],
        vec![
            file(
                "a",
                vec![import("./b"), statement(vec![dynamic_import(Expr::Str("./c".to_string()))])],
                vec![("./b", "b"), ("./c", "c")],
            ),
            file("b", vec![], vec![]),
            file("c", vec![], vec![]),
        ],
    );
    let a = node(&bundle, "a");
    for dependency in a.all_dependencies() {
        let entry = a.resolved_ids.get(&dependency.specifier).unwrap();
        assert_eq!(Some(entry.value().clone()), dependency.resolved_id);
    }
    assert_eq!(a.resolved_ids.len(), 2);
}

#[test]
fn two_schedules_give_the_same_nodes_edges_and_order() {
    let files = || {
        vec![
            file("a", vec![import("./b"), import("./c")], vec![("./b", "b"), ("./c", "c")]),
            file("b", vec![import("./d")], vec![("./d", "d")]),
            file("c", vec![import("./d")], vec![("./d", "d")]),
            file("d", vec![], vec![]),
        ]
    };
    let first = build(vec!["a"], files());
    let mut reversed = files();
    reversed.reverse();
    let second = build(vec!["a"], reversed);
    for uri in ["a", "b", "c", "d"] {
        assert_eq!(order(&first, uri), order(&second, uri));
        assert_eq!(node(&first, uri).all_dependencies(), node(&second, uri).all_dependencies());
    }
    assert_eq!(first.module_graph().len(), second.module_graph().len());
}

#[test]
fn a_task_that_is_not_under_way_is_refused() {
    let mut bundle = Bundle::new();
    let stranger = Task::new(internal("x.js"));
    let outcome = bundle.run_task(
        &stranger,
        DependencyIdResolver::new("x.js".to_string()),
        Ast { body: vec![] },
    );
    assert_eq!(outcome.unwrap_err().kind, ErrorKind::InvariantViolation);
    let outcome = bundle.fail_task(&stranger, ErrorKind::ParseFailure, String::new());
    assert_eq!(outcome.unwrap_err().kind, ErrorKind::InvariantViolation);
    assert!(bundle.is_quiescent());

    let tasks = bundle.seed(vec![internal("a.js")]);
    assert_eq!(tasks.len(), 1);
    let resolver = || DependencyIdResolver::new("a.js".to_string());
    assert!(bundle.run_task(&tasks[0], resolver(), Ast { body: vec![] }).is_ok());
    let again = bundle.run_task(&tasks[0], resolver(), Ast { body: vec![] });
    assert_eq!(again.unwrap_err().kind, ErrorKind::InvariantViolation);
    assert_eq!(bundle.waiting(), 1);
    assert!(!bundle.is_quiescent());
    assert!(bundle.consume_next());
    assert!(!bundle.consume_next());
    assert!(bundle.is_quiescent());
}

#[test]
fn seeding_twice_with_the_same_entry_spawns_once() {
    let mut bundle = Bundle::new();
    let first = bundle.seed(vec![internal("a.js"), internal("a.js"), external("lib")]);
    assert_eq!(first.len(), 1);
    assert_eq!(first[0].resolved_id, internal("a.js"));
    let second = bundle.seed(vec![internal("a.js")]);
    assert!(second.is_empty());
    assert_eq!(bundle.context().active_task_count(), 1);
    assert_eq!(bundle.context().visited_count(), 1);
    assert_eq!(bundle.entries().len(), 4);
}

#[test]
fn parse_and_transform_failures_are_recorded_against_the_module() {
    let mut bundle = Bundle::new();
    let tasks = bundle.seed(vec![internal("a.js"), internal("b.js")]);
    assert_eq!(tasks.len(), 2);
    bundle.fail_task(&tasks[0], ErrorKind::ParseFailure, "unexpected token".to_string()).unwrap();
    bundle.fail_task(&tasks[1], ErrorKind::TransformFailure, "plugin failed".to_string()).unwrap();
    assert!(bundle.errors().is_empty());
    assert_eq!(bundle.drain(), 2);
    assert!(bundle.is_quiescent());
    assert_eq!(bundle.module_graph().len(), 0);
    let kinds: Vec<ErrorKind> = bundle.errors().iter().map(|e| e.kind).collect();
    assert_eq!(kinds, vec![ErrorKind::ParseFailure, ErrorKind::TransformFailure]);
    assert_eq!(bundle.errors()[0].uri, "a.js");
    assert_eq!(bundle.errors()[0].detail, "unexpected token");
    assert_eq!(bundle.failed(), &vec!["a.js".to_string(), "b.js".to_string()]);
}

#[test]
fn a_closed_channel_takes_no_more_results() {
    let mut bundle = Bundle::new();
    let tasks = bundle.seed(vec![internal("a.js"), internal("b.js")]);
    let resolver = DependencyIdResolver::new("a.js".to_string());
    bundle.run_task(&tasks[0], resolver, Ast { body: vec![] }).unwrap();
    assert!(!bundle.is_closed());
    bundle.close();
    assert!(bundle.is_closed());
    let resolver = DependencyIdResolver::new("b.js".to_string());
    let late = bundle.run_task(&tasks[1], resolver, Ast { body: vec![] });
    assert_eq!(late.unwrap_err().kind, ErrorKind::HostFailure);
    let late = bundle.fail_task(&tasks[1], ErrorKind::LoadFailure, String::new());
    assert_eq!(late.unwrap_err().kind, ErrorKind::HostFailure);
    assert_eq!(bundle.drain(), 1);
    assert_eq!(bundle.module_graph().len(), 1);
    assert!(!bundle.is_quiescent());
    assert_eq!(bundle.context().active_task_count(), 1);
}

#[test]
fn only_failures_of_one_module_let_the_build_go_on() {
    assert!(ErrorKind::ResolveFailure.is_per_module());
    assert!(ErrorKind::LoadFailure.is_per_module());
    assert!(ErrorKind::ParseFailure.is_per_module());
    assert!(ErrorKind::TransformFailure.is_per_module());
    assert!(!ErrorKind::InvariantViolation.is_per_module());
    assert!(!ErrorKind::HostFailure.is_per_module());
}
