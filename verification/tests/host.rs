use rspack_core::bundle_context::BundleContext;
use rspack_core::error::{BuildError, ErrorKind};
use rspack_core::host::{resolve, ResolveResult, ResolveRet, TraceSwitch};
use rspack_core::options::{parse_loader, parse_loader_name, BundleMode, BundleOptions, Loader, RawOptions};
use rspack_core::plugin_driver::{first_wins, ModuleSource, PluginDriver};
use rspack_core::task::{DependencyIdResolver, Resolution, ResolveArgs, Task};
use rspack_core::{ImportKind, ResolvedURI};

fn pair(a: &str, b: &str) -> (String, String) {
    (a.to_string(), b.to_string())
}

fn resolved(uri: &str) -> ResolvedURI {
    ResolvedURI::new(uri.to_string(), false, ImportKind::StaticImport, false)
}

#[test]
fn parse_loader_drops_unknown_loaders() {
    let table = parse_loader(vec![
        pair(".svg", "dataURI"),
        pair(".yaml", "yaml"),
        pair(".json", "json"),
        pair(".txt", "text"),
        pair(".TXT", "Text"),
    ]);
    assert_eq!(
        table,
        vec![
            (".svg".to_string(), Loader::DataURI),
            (".json".to_string(), Loader::Json),
            (".txt".to_string(), Loader::Text),
        ]
    );
    assert_eq!(parse_loader(vec![]), vec![]);
    assert_eq!(parse_loader_name(&"datauri".to_string()), None);
    assert_eq!(parse_loader_name(&"dataURI".to_string()), Some(Loader::DataURI));
}

fn raw() -> RawOptions {
    RawOptions {
        entries: vec!["./src/index.js".to_string()],
        minify: true,
        root: None,
        outdir: None,
        entry_file_names: "[name].js".to_string(),
        loader: None,
        inline_style: None,
        alias: None,
        refresh: None,
        source_map: None,
    }
}

#[test]
fn options_default_to_the_working_directory() {
    let options = BundleOptions::from_raw(raw(), &"/work".to_string());
    assert_eq!(options.entries, vec!["./src/index.js".to_string()]);
    assert!(options.minify);
    assert_eq!(options.outdir, "/work/dist");
    assert_eq!(options.root, "/work");
    assert!(!options.source_map);
    assert!(!options.inline_style);
    assert!(!options.refresh);
    assert_eq!(options.mode, BundleMode::Dev);
    assert_eq!(options.loader, None);
    assert!(options.alias.is_empty());
    assert_eq!(options.entry_file_names, "[name].js");
}

#[test]
fn options_keep_what_the_host_gave() {
    let mut given = raw();
    given.root = Some("/project".to_string());
    given.outdir = Some("/out".to_string());
    given.loader = Some(vec![pair(".svg", "dataURI"), pair(".x", "nope")]);
    given.inline_style = Some(true);
    given.refresh = Some(true);
    given.source_map = Some(true);
    given.alias = Some(vec![pair("@", "/project/src")]);
    let options = BundleOptions::from_raw(given, &"/work".to_string());
    assert_eq!(options.outdir, "/out");
    assert_eq!(options.root, "/project");
    assert_eq!(options.loader, Some(vec![(".svg".to_string(), Loader::DataURI)]));
    assert!(options.inline_style && options.refresh && options.source_map);
    assert_eq!(options.alias, vec![("@".to_string(), Some("/project/src".to_string()))]);
}

#[test]
fn resolve_reports_paths_only() {
    let id = "./a".to_string();
    assert_eq!(
        resolve(&id, Ok(ResolveResult::Path("/src/a.js".to_string()))),
        Ok(ResolveRet { status: true, result: Some("/src/a.js".to_string()) })
    );
    assert_eq!(
        resolve(&id, Ok(ResolveResult::Ignored)),
        Ok(ResolveRet { status: false, result: None })
    );
    assert_eq!(
        resolve(&id, Err("not found".to_string())),
        Err(BuildError::new(ErrorKind::ResolveFailure, "./a".to_string(), "not found".to_string()))
    );
}

#[test]
fn tracing_is_set_up_by_the_first_request_only() {
    let mut switch = TraceSwitch::new();
    assert!(!switch.enable(false));
    assert!(!switch.enabled);
    assert!(switch.enable(true));
    assert!(switch.enabled);
    assert!(!switch.enable(true));
    assert!(!switch.enable(false));
    assert!(switch.enabled);
}

#[test]
fn first_plugin_with_an_answer_wins() {
    assert_eq!(first_wins(vec![None, Some(2), Some(3), None]), Some(2));
    assert_eq!(first_wins(vec![Some(1)]), Some(1));
    assert_eq!(first_wins(vec![None, None]), None::<u8>);
    assert_eq!(first_wins(Vec::<Option<u8>>::new()), None);
}

#[test]
fn resolve_hook_falls_back_to_the_default_resolver() {
    let driver = PluginDriver::new(vec!["alias".to_string(), "svg".to_string()]);
    assert_eq!(driver.next_plugin(0), Some(0));
    assert_eq!(driver.next_plugin(1), Some(1));
    assert_eq!(driver.next_plugin(2), None);
    let args = ResolveArgs {
        specifier: "./b".to_string(),
        importer: Some("a.js".to_string()),
        is_entry: false,
    };
    assert_eq!(
        driver.resolve_id(&args, vec![None, Some(resolved("plugin"))], Some(resolved("default"))),
        Ok(resolved("plugin"))
    );
    assert_eq!(
        driver.resolve_id(&args, vec![None, None], Some(resolved("default"))),
        Ok(resolved("default"))
    );
    assert_eq!(
        driver.resolve_id(&args, vec![None, None], None),
        Err(BuildError::resolve_failure("a.js".to_string(), "./b".to_string()))
    );
    let entry = ResolveArgs::entry("./main".to_string());
    assert_eq!(
        entry,
        ResolveArgs { specifier: "./main".to_string(), importer: None, is_entry: true }
    );
    assert_eq!(
        driver.resolve_id(&entry, vec![], None),
        Err(BuildError::resolve_failure(String::new(), "./main".to_string()))
    );
}

#[test]
fn load_hook_falls_back_to_the_default_loader() {
    let driver = PluginDriver::new(vec!["virtual".to_string()]);
    let id = "a.js".to_string();
    let source = ModuleSource { content: "export {}".to_string(), id: "a.js".to_string() };
    assert_eq!(
        driver.load(&id, vec![Some(ModuleSource { content: "x".to_string(), id: "v".to_string() })], None),
        Ok(ModuleSource { content: "x".to_string(), id: "v".to_string() })
    );
    assert_eq!(driver.load(&id, vec![None], Some("export {}".to_string())), Ok(source));
    assert_eq!(
        driver.load(&id, vec![None], None),
        Err(BuildError::new(ErrorKind::LoadFailure, "a.js".to_string(), String::new()))
    );
}

#[test]
fn resolver_caches_what_was_recorded() {
    let mut resolver = DependencyIdResolver::new("a.js".to_string());
    let specifier = "./b".to_string();
    assert_eq!(resolver.cached(&specifier), None);
    assert_eq!(
        resolver.resolve_id(&specifier),
        Resolution::Miss(ResolveArgs {
            specifier: "./b".to_string(),
            importer: Some("a.js".to_string()),
            is_entry: false,
        })
    );
    assert_eq!(resolver.record(specifier.clone(), resolved("b.js")), resolved("b.js"));
    assert_eq!(resolver.resolve_id(&specifier), Resolution::Cached(resolved("b.js")));
    assert_eq!(resolver.record(specifier.clone(), resolved("other.js")), resolved("other.js"));
    assert_eq!(resolver.cached(&specifier), Some(resolved("other.js")));
    assert_eq!(resolver.cached(&"./c".to_string()), None);
    assert_eq!(resolver.resolved_ids.len(), 1);
}

#[test]
fn spawn_policy_visits_each_internal_location_once() {
    let mut ctx = BundleContext::new();
    let task = Task::new(resolved("root"));
    assert!(ctx.is_idle());
    let child = task.spawn_new_task(&mut ctx, resolved("a.js"));
    assert_eq!(child, Some(Task::new(resolved("a.js"))));
    assert_eq!(ctx.active_task_count(), 1);
    assert!(ctx.is_visited(&"a.js".to_string()));
    assert_eq!(task.spawn_new_task(&mut ctx, resolved("a.js")), None);
    let external = ResolvedURI::new("react".to_string(), true, ImportKind::StaticImport, false);
    assert_eq!(task.spawn_new_task(&mut ctx, external), None);
    let ignored = ResolvedURI::new("fs".to_string(), false, ImportKind::Require, true);
    assert_eq!(task.spawn_new_task(&mut ctx, ignored), None);
    assert_eq!(ctx.active_task_count(), 1);
    assert_eq!(ctx.visited_count(), 1);
    assert!(!ctx.is_visited(&"react".to_string()));
    assert!(!ctx.forget(&"a.js".to_string()));
    assert!(ctx.consume());
    assert!(!ctx.consume());
    assert!(ctx.forget(&"a.js".to_string()));
    assert_eq!(ctx.visited_count(), 0);
    assert!(ctx.try_visit("a.js".to_string()));
    assert!(!ctx.try_visit("a.js".to_string()));
}
