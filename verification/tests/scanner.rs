use rspack_core::dependency_scanner::{DependencyScanner, DynImportDesc};
use rspack_core::module::{JsModule, Module, ModuleDependency};
use rspack_core::syntax::{
    literal_argument, require_with_literal, static_reference, Ast, CallExpr, Callee, Expr,
    ExprOrSpread, ModuleDecl, ModuleItem, Node,
};
use rspack_core::task::{dynamic_imports_as_references, prescan};
use rspack_core::ImportKind;

fn arg(expr: Expr) -> ExprOrSpread {
    ExprOrSpread { spread: false, expr }
}

fn require(specifier: &str) -> CallExpr {
    CallExpr {
        callee: Callee::Expr(Expr::Ident("require".to_string())),
        args: vec![arg(Expr::Str(specifier.to_string()))],
    }
}

fn import_call(specifier: &str) -> CallExpr {
    CallExpr { callee: Callee::Import, args: vec![arg(Expr::Str(specifier.to_string()))] }
}

fn decl(decl: ModuleDecl, calls: Vec<CallExpr>) -> Node {
    Node { item: ModuleItem::ModuleDecl(decl), calls }
}

fn reference(specifier: &str, kind: ImportKind) -> ModuleDependency {
    ModuleDependency { specifier: specifier.to_string(), kind }
}

fn sample() -> Ast {
    Ast {
        body: vec![
            decl(ModuleDecl::Import { src: "./a".to_string() }, vec![]),
            decl(ModuleDecl::ExportNamed { src: None }, vec![require("./b")]),
            decl(ModuleDecl::ExportNamed { src: Some("./c".to_string()) }, vec![]),
            decl(ModuleDecl::ExportAll { src: "./d".to_string() }, vec![]),
            decl(ModuleDecl::Other, vec![]),
            Node {
                item: ModuleItem::Stmt,
                calls: vec![
                    import_call("./e"),
                    require("./a"),
                    import_call("./e"),
                    CallExpr { callee: Callee::Import, args: vec![arg(Expr::Other)] },
                    CallExpr { callee: Callee::Import, args: vec![] },
                ],
            },
            decl(ModuleDecl::Import { src: "./a".to_string() }, vec![]),
        ],
    }
}

#[test]
fn scan_collects_each_reference_once_in_source_order() {
    let scanner = DependencyScanner::scan(&sample());
    assert_eq!(
        scanner.dependencies,
        vec![
            reference("./a", ImportKind::StaticImport),
            reference("./b", ImportKind::Require),
            reference("./c", ImportKind::ExportNamed),
            reference("./d", ImportKind::ExportAll),
            reference("./a", ImportKind::Require),
        ]
    );
    assert_eq!(
        scanner.dyn_dependencies,
        vec![DynImportDesc { argument: Some("./e".to_string()) }, DynImportDesc { argument: None }]
    );
}

#[test]
fn scan_of_an_empty_module_finds_nothing() {
    let scanner = DependencyScanner::scan(&Ast { body: vec![] });
    assert_eq!(scanner, DependencyScanner::new());
    assert!(scanner.dependencies.is_empty());
    assert!(scanner.dyn_dependencies.is_empty());
}

#[test]
fn prescan_walks_top_level_declarations_only() {
    assert_eq!(
        prescan(&sample()),
        vec![
            reference("./a", ImportKind::StaticImport),
            reference("./c", ImportKind::ExportNamed),
            reference("./d", ImportKind::ExportAll),
            reference("./a", ImportKind::StaticImport),
        ]
    );
}

#[test]
fn opaque_dynamic_imports_make_no_reference() {
    let found = vec![
        DynImportDesc { argument: None },
        DynImportDesc { argument: Some("./x".to_string()) },
    ];
    assert_eq!(
        dynamic_imports_as_references(&found),
        vec![reference("./x", ImportKind::DynamicImport)]
    );
}

#[test]
fn static_reference_tells_the_declarations_apart() {
    let import = ModuleItem::ModuleDecl(ModuleDecl::Import { src: "x".to_string() });
    assert_eq!(static_reference(&import), Some(reference("x", ImportKind::StaticImport)));
    let bare = ModuleItem::ModuleDecl(ModuleDecl::ExportNamed { src: None });
    assert_eq!(static_reference(&bare), None);
    assert_eq!(static_reference(&ModuleItem::Stmt), None);
    assert_eq!(static_reference(&ModuleItem::ModuleDecl(ModuleDecl::Other)), None);
}

#[test]
fn literal_argument_wants_an_unspread_string_first() {
    assert_eq!(literal_argument(&require("./b")), Some("./b".to_string()));
    let spread = CallExpr {
        callee: Callee::Import,
        args: vec![ExprOrSpread { spread: true, expr: Expr::Str("./b".to_string()) }],
    };
    assert_eq!(literal_argument(&spread), None);
    let second = CallExpr {
        callee: Callee::Import,
        args: vec![arg(Expr::Other), arg(Expr::Str("./b".to_string()))],
    };
    assert_eq!(literal_argument(&second), None);
    assert_eq!(require_with_literal(&import_call("./a")), None);
    assert_eq!(require_with_literal(&require("./a")), Some("./a".to_string()));
}

#[test]
fn js_module_reports_its_static_references() {
    let mut module = JsModule { ast: sample(), code: "let a;".to_string() };
    assert_eq!(module.dependencies().len(), 5);
    assert_eq!(module.render(), "let a;");
    assert_eq!(module.ast, sample());
}
