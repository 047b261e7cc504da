use rspack_core::syntax::{
    dynamic_import_with_literal, is_dynamic_import, is_require, CallExpr, Callee, Expr,
    ExprOrSpread,
};

fn call(callee: Callee, args: Vec<Expr>) -> CallExpr {
    CallExpr {
        callee,
        args: args.into_iter().map(|expr| ExprOrSpread { spread: false, expr }).collect(),
    }
}

#[test]
fn import_keyword_is_dynamic_import() {
    let node = call(Callee::Import, vec![Expr::Str("./a".to_string())]);
    assert!(is_dynamic_import(&node));
    assert!(!is_require(&node));
    assert_eq!(dynamic_import_with_literal(&node), Some("./a".to_string()));
}
