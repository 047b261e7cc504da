use rspack_core::bundle::Bundle;
use rspack_core::error::ErrorKind;
use rspack_core::syntax::{Ast, ModuleDecl, ModuleItem, Node};
use rspack_core::task::{DependencyIdResolver, Task};
use rspack_core::{ImportKind, ResolvedURI};

fn internal(uri: &str) -> ResolvedURI {
    ResolvedURI::new(uri.to_string(), false, ImportKind::StaticImport, false)
}

fn importing(specifiers: &[&str]) -> Ast {
    Ast {
        body: specifiers
            .iter()
            .map(|s| Node {
                item: ModuleItem::ModuleDecl(ModuleDecl::Import { src: s.to_string() }),
                calls: vec![],
            })
            .collect(),
    }
}

/// Runs `tasks` and everything they spawn; every specifier resolves to the
/// module of the same name, and `imports` says what each module imports.
fn run(bundle: &mut Bundle, tasks: Vec<Task>, imports: &[(&str, &[&str])]) -> Vec<String> {
    let mut queue = tasks;
    let mut built = vec![];
    while !queue.is_empty() {
        let task = queue.remove(0);
        let uri = task.resolved_id.uri.clone();
        match imports.iter().find(|(name, _)| *name == uri) {
            Some((_, specifiers)) => {
                let mut resolver = DependencyIdResolver::new(uri.clone());
                for specifier in specifiers.iter() {
                    resolver.record(specifier.to_string(), internal(specifier));
                }
                queue.extend(bundle.run_task(&task, resolver, importing(specifiers)).unwrap());
            },
            None => bundle.fail_task(&task, ErrorKind::LoadFailure, String::new()).unwrap(),
        }
        bundle.drain();
        built.push(uri);
    }
    bundle.finalize();
    built
}

const CHAIN: &[(&str, &[&str])] = &[("a", &["b"]), ("b", &["c"]), ("c", &[])];

fn chain() -> Bundle {
    let mut bundle = Bundle::new();
    let tasks = bundle.seed(vec![internal("a")]);
    run(&mut bundle, tasks, CHAIN);
    bundle
}

fn orders(bundle: &Bundle) -> Vec<(String, usize)> {
    ["a", "b", "c"]
        .iter()
        .filter_map(|uri| bundle.module_graph().module_by_id(uri))
        .map(|m| (m.id().to_string(), m.exec_order))
        .collect()
}

#[test]
fn rebuild_of_an_unknown_module_changes_nothing() {
    let mut bundle = chain();
    let before = orders(&bundle);
    let rebuild = bundle.rebuild(&String::new());
    assert!(rebuild.invalidated.is_empty());
    assert!(rebuild.tasks.is_empty());
    assert!(bundle.is_quiescent());
    assert_eq!(orders(&bundle), before);
    assert_eq!(bundle.module_graph().len(), 3);
    assert_eq!(bundle.context().visited_count(), 3);
}

#[test]
fn rebuild_of_a_module_without_importers_rebuilds_it_alone() {
    let mut bundle = chain();
    let rebuild = bundle.rebuild(&"a".to_string());
    assert_eq!(rebuild.invalidated, vec!["a".to_string()]);
    assert_eq!(rebuild.tasks.len(), 1);
    assert_eq!(bundle.module_graph().len(), 2);
    assert!(!bundle.is_quiescent());
    let built = run(&mut bundle, rebuild.tasks, CHAIN);
    assert_eq!(built, vec!["a".to_string()]);
    assert!(bundle.is_quiescent());
    assert_eq!(
        orders(&bundle),
        vec![("a".to_string(), 2), ("b".to_string(), 1), ("c".to_string(), 0)]
    );
}

#[test]
fn rebuild_reaches_every_module_that_depends_on_the_change() {
    let mut bundle = chain();
    let rebuild = bundle.rebuild(&"c".to_string());
    assert_eq!(rebuild.invalidated, vec!["a".to_string(), "b".to_string(), "c".to_string()]);
    let seeded: Vec<&str> = rebuild.tasks.iter().map(|t| t.resolved_id.uri.as_str()).collect();
    assert_eq!(seeded, vec!["c", "a"]);
    assert_eq!(bundle.module_graph().len(), 0);
    assert_eq!(bundle.context().visited_count(), 2);
    assert_eq!(bundle.context().active_task_count(), 2);
    let mut built = run(&mut bundle, rebuild.tasks, CHAIN);
    built.sort();
    assert_eq!(built, vec!["a".to_string(), "b".to_string(), "c".to_string()]);
    assert_eq!(
        orders(&bundle),
        vec![("a".to_string(), 2), ("b".to_string(), 1), ("c".to_string(), 0)]
    );
}

#[test]
fn rebuild_in_the_middle_leaves_what_it_depends_on() {
    let mut bundle = chain();
    let rebuild = bundle.rebuild(&"b".to_string());
    assert_eq!(rebuild.invalidated, vec!["a".to_string(), "b".to_string()]);
    assert!(bundle.module_graph().contains("c"));
    assert_eq!(bundle.module_graph().len(), 1);
}

#[test]
fn rebuild_retries_a_module_that_failed() {
    let mut bundle = Bundle::new();
    let tasks = bundle.seed(vec![internal("a")]);
    run(&mut bundle, tasks, &[("a", &["b"])]);
    assert_eq!(bundle.failed().len(), 1);
    assert_eq!(bundle.errors().len(), 1);
    let rebuild = bundle.rebuild(&"b".to_string());
    assert_eq!(rebuild.invalidated, vec!["a".to_string(), "b".to_string()]);
    assert!(bundle.failed().is_empty());
    assert!(bundle.errors().is_empty());
    run(&mut bundle, rebuild.tasks, &[("a", &["b"]), ("b", &[])]);
    assert_eq!(bundle.module_graph().len(), 2);
    assert!(bundle.errors().is_empty());
}

#[test]
fn rebuild_of_a_running_build_is_refused() {
    let mut bundle = Bundle::new();
    let tasks = bundle.seed(vec![internal("a")]);
    assert_eq!(tasks.len(), 1);
    let rebuild = bundle.rebuild(&"a".to_string());
    assert!(rebuild.invalidated.is_empty());
    assert!(rebuild.tasks.is_empty());
    assert_eq!(bundle.context().active_task_count(), 1);
}

#[test]
fn rebuild_opens_a_closed_channel_again() {
    let mut bundle = chain();
    bundle.close();
    let rebuild = bundle.rebuild(&"a".to_string());
    assert!(!bundle.is_closed());
    let built = run(&mut bundle, rebuild.tasks, CHAIN);
    assert_eq!(built, vec!["a".to_string()]);
    assert_eq!(bundle.module_graph().len(), 3);
}
