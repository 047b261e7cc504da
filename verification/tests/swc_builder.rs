use rspack_core::syntax::{dynamic_import_with_literal, is_dynamic_import, is_require};
use swc_common::sync::Lrc;
use swc_common::{FileName, SourceMap, DUMMY_SP};
use swc_ecma_ast::{CallExpr, Callee, Expr, ExprOrSpread, Ident, Lit, Module, Str};
use swc_ecma_codegen::text_writer::JsWriter;
use swc_ecma_codegen::Emitter;
use swc_ecma_parser::{Parser, StringInput, Syntax};
use swc_ecma_visit::{VisitMut, VisitMutWith};

/// The call expression as the library sees it.
fn seen(node: &CallExpr) -> rspack_core::syntax::CallExpr {
    let callee = match &node.callee {
        Callee::Super(_) => rspack_core::syntax::Callee::Super,
        Callee::Import(_) => rspack_core::syntax::Callee::Import,
        Callee::Expr(expr) => rspack_core::syntax::Callee::Expr(seen_expr(expr)),
    };
    let args = node
        .args
        .iter()
        .map(|arg| rspack_core::syntax::ExprOrSpread {
            spread: arg.spread.is_some(),
            expr: seen_expr(&arg.expr),
        })
        .collect();
    rspack_core::syntax::CallExpr { callee, args }
}

fn seen_expr(expr: &Expr) -> rspack_core::syntax::Expr {
    match expr {
        Expr::Ident(ident) => rspack_core::syntax::Expr::Ident(ident.sym.to_string()),
        Expr::Lit(Lit::Str(text)) => {
            rspack_core::syntax::Expr::Str(text.value.to_string_lossy().into_owned())
        },
        _ => rspack_core::syntax::Expr::Other,
    }
}

fn compile(source: &str) -> (Module, Lrc<SourceMap>) {
    let cm: Lrc<SourceMap> = Default::default();
    let file = cm.new_source_file(Lrc::new(FileName::Anon), source.to_string());
    let mut parser = Parser::new(Syntax::default(), StringInput::from(&*file), None);
    let module = parser.parse_module().unwrap();
    (module, cm)
}

fn print(module: &Module, cm: Lrc<SourceMap>) -> String {
    let mut buffer = vec![];
    {
        let writer = JsWriter::new(cm.clone(), "\n", &mut buffer, None);
        let mut emitter = Emitter { cfg: Default::default(), cm, comments: None, wr: writer };
        emitter.emit_module(module).unwrap();
    }
    String::from_utf8(buffer).unwrap()
}

#[derive(Debug)]
struct CheckVisitor {
    dynamic_called: usize,
    require_called: usize,
    string_literal_called: usize,
}

impl CheckVisitor {
    fn new() -> Self {
        Self { dynamic_called: 0, require_called: 0, string_literal_called: 0 }
    }
}

impl VisitMut for CheckVisitor {
    fn visit_mut_call_expr(&mut self, node: &mut CallExpr) {
        let node = seen(node);
        if is_dynamic_import(&node) {
            self.dynamic_called += 1;
        }
        if is_require(&node) {
            self.require_called += 1;
        }
        if let Some(_) = dynamic_import_with_literal(&node) {
            self.string_literal_called += 1;
        }
    }
}

struct TransformVisitor {}

impl TransformVisitor {
    fn new() -> TransformVisitor {
        TransformVisitor {}
    }
}

impl VisitMut for TransformVisitor {
    fn visit_mut_call_expr(&mut self, node: &mut CallExpr) {
        if let Some(str) = dynamic_import_with_literal(&seen(node)) {
            let callee = Callee::Expr(Box::new(Expr::Ident(Ident::new_no_ctxt(
                "require".into(),
                DUMMY_SP,
            ))));
            let arg = ExprOrSpread {
                spread: None,
                expr: Box::new(Expr::Lit(Lit::Str(Str {
                    span: DUMMY_SP,
                    value: str.into(),
                    raw: None,
                }))),
            };
            node.callee = callee;
            node.args = vec![arg];
        }
    }
}

#[test]
fn dynamic_require() {
    let (mut ast, cm) = compile(
        r#"
      const x = import('./a');
      const y = require('./b');
    "#,
    );
    let mut check_visitor = CheckVisitor::new();
    let mut transform_visitor = TransformVisitor::new();
    ast.visit_mut_with(&mut check_visitor);

    assert_eq!(check_visitor.dynamic_called, 1);
    assert_eq!(check_visitor.require_called, 1);
    assert_eq!(check_visitor.string_literal_called, 1);
    ast.visit_mut_with(&mut transform_visitor);
    let code = print(&ast, cm);
    assert_eq!(code, "const x = require(\"./a\");\nconst y = require('./b');\n");
}
