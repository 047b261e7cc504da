//! A plain-value picture of a parsed module: the top-level items and the call
//! expressions inside them, holding exactly what dependency discovery reads.

use crate::module::{ModuleDependency, ReferenceView};
use crate::ImportKind;
use vstd::prelude::*;

verus! {

/// An expression, as far as dependency discovery tells expressions apart.
#[derive(Debug, Clone, PartialEq, Eq)]
pub enum Expr {
    /// A bare identifier, by its name.
    Ident(String),
    /// A string literal, by its value.
    Str(String),
    /// Anything else.
    Other,
}

/// What a call expression calls.
#[derive(Debug, Clone, PartialEq, Eq)]
pub enum Callee {
    Super,
    /// The `import` keyword in call position.
    Import,
    Expr(Expr),
}

/// One argument of a call.
#[derive(Debug, Clone, PartialEq, Eq)]
pub struct ExprOrSpread {
    /// Whether the argument is spread (`...arg`).
    pub spread: bool,
    pub expr: Expr,
}

/// A call expression.
#[derive(Debug, Clone, PartialEq, Eq)]
pub struct CallExpr {
    pub callee: Callee,
    pub args: Vec<ExprOrSpread>,
}

/// A module-level declaration, by the module it refers to, if any.
#[derive(Debug, Clone, PartialEq, Eq)]
#[allow(inconsistent_fields)]
pub enum ModuleDecl {
    /// `import ... from "src"`
    Import { src: String },
    /// `export { ... }`, with `from "src"` or without
    ExportNamed { src: Option<String> },
    /// `export * from "src"`
    ExportAll { src: String },
    /// Any other declaration.
    Other,
}

/// A top-level item of a module.
#[derive(Debug, Clone, PartialEq, Eq)]
pub enum ModuleItem {
    ModuleDecl(ModuleDecl),
    Stmt,
}

/// A top-level item together with the call expressions found anywhere inside
/// it, outermost first, in source order.
#[derive(Debug, Clone, PartialEq, Eq)]
pub struct Node {
    pub item: ModuleItem,
    pub calls: Vec<CallExpr>,
}

/// A parsed module: its top-level items in source order.
#[derive(Debug, Clone, PartialEq, Eq)]
pub struct Ast {
    pub body: Vec<Node>,
}

pub enum ExprView {
    Ident(Seq<char>),
    Str(Seq<char>),
    Other,
}

pub enum CalleeView {
    Super,
    Import,
    Expr(ExprView),
}

pub struct ArgView {
    pub spread: bool,
    pub expr: ExprView,
}

pub struct CallView {
    pub callee: CalleeView,
    pub args: Seq<ArgView>,
}

#[allow(inconsistent_fields)]
pub enum DeclView {
    Import { src: Seq<char> },
    ExportNamed { src: Option<Seq<char>> },
    ExportAll { src: Seq<char> },
    Other,
    Stmt,
}

pub struct NodeView {
    pub decl: DeclView,
    pub calls: Seq<CallView>,
}

impl View for Expr {
    type V = ExprView;

    open spec fn view(&self) -> ExprView {
        match self {
            Expr::Ident(name) => ExprView::Ident(name@),
            Expr::Str(value) => ExprView::Str(value@),
            Expr::Other => ExprView::Other,
        }
    }
}

impl View for Callee {
    type V = CalleeView;

    open spec fn view(&self) -> CalleeView {
        match self {
            Callee::Super => CalleeView::Super,
            Callee::Import => CalleeView::Import,
            Callee::Expr(expr) => CalleeView::Expr(expr@),
        }
    }
}

impl View for ExprOrSpread {
    type V = ArgView;

    open spec fn view(&self) -> ArgView {
        ArgView { spread: self.spread, expr: self.expr@ }
    }
}

impl View for CallExpr {
    type V = CallView;

    open spec fn view(&self) -> CallView {
        CallView { callee: self.callee@, args: self.args@.map_values(|arg: ExprOrSpread| arg@) }
    }
}

impl View for ModuleDecl {
    type V = DeclView;

    open spec fn view(&self) -> DeclView {
        match self {
            ModuleDecl::Import { src } => DeclView::Import { src: src@ },
            ModuleDecl::ExportNamed { src: Some(src) } => DeclView::ExportNamed { src: Some(src@) },
            ModuleDecl::ExportNamed { src: None } => DeclView::ExportNamed { src: None },
            ModuleDecl::ExportAll { src } => DeclView::ExportAll { src: src@ },
            ModuleDecl::Other => DeclView::Other,
        }
    }
}

impl View for ModuleItem {
    type V = DeclView;

    open spec fn view(&self) -> DeclView {
        match self {
            ModuleItem::ModuleDecl(decl) => decl@,
            ModuleItem::Stmt => DeclView::Stmt,
        }
    }
}

impl View for Node {
    type V = NodeView;

    open spec fn view(&self) -> NodeView {
        NodeView { decl: self.item@, calls: self.calls@.map_values(|call: CallExpr| call@) }
    }
}

impl View for Ast {
    type V = Seq<NodeView>;

    open spec fn view(&self) -> Seq<NodeView> {
        self.body@.map_values(|node: Node| node@)
    }
}

impl DeclView {
    /// The reference that a declaration makes to another module, if it makes
    /// one.
    pub open spec fn reference(self) -> Option<ReferenceView> {
        match self {
            DeclView::Import { src } => Some(
                ReferenceView { specifier: src, kind: ImportKind::StaticImport },
            ),
            DeclView::ExportNamed { src: Some(src) } => Some(
                ReferenceView { specifier: src, kind: ImportKind::ExportNamed },
            ),
            DeclView::ExportNamed { src: None } => None,
            DeclView::ExportAll { src } => Some(
                ReferenceView { specifier: src, kind: ImportKind::ExportAll },
            ),
            DeclView::Other => None,
            DeclView::Stmt => None,
        }
    }
}

impl CallView {
    /// A call of the `import` keyword.
    pub open spec fn is_dynamic_import(self) -> bool {
        self.callee is Import
    }

    /// A call of the bare identifier `require`.
    pub open spec fn is_require(self) -> bool {
        self.callee == CalleeView::Expr(ExprView::Ident("require"@))
    }

    /// The value of the first argument, where that is an unspread string
    /// literal.
    pub open spec fn literal_argument(self) -> Option<Seq<char>> {
        if self.args.len() > 0 && !self.args[0].spread {
            match self.args[0].expr {
                ExprView::Str(value) => Some(value),
                _ => None,
            }
        } else {
            None
        }
    }

    /// The specifier of a dynamic import whose target is known at build
    /// time.
    pub open spec fn dynamic_import_literal(self) -> Option<Seq<char>> {
        if self.is_dynamic_import() {
            self.literal_argument()
        } else {
            None
        }
    }

    /// The specifier of a `require` whose target is known at build time.
    pub open spec fn require_literal(self) -> Option<Seq<char>> {
        if self.is_require() {
            self.literal_argument()
        } else {
            None
        }
    }
}

/// Whether `e` is a dynamic import: a call whose callee is the `import`
/// keyword.
pub fn is_dynamic_import(e: &CallExpr) -> (dynamic: bool)
    ensures
        dynamic == e@.is_dynamic_import(),
{
    match e.callee {
        Callee::Import => true,
        _ => false,
    }
}

/// The first argument of `e`, where that is an unspread string literal.
pub fn literal_argument(e: &CallExpr) -> (value: Option<String>)
    ensures
        value.deep_view() == e@.literal_argument(),
{
    if e.args.len() > 0 {
        let first = &e.args[0];
        assert(e@.args[0] == first@);
        if !first.spread {
            match &first.expr {
                Expr::Str(value) => Some(value.clone()),
                _ => None,
            }
        } else {
            None
        }
    } else {
        None
    }
}

/// The specifier that a dynamic import names, where `e` is a dynamic import
/// whose first argument is an unspread string literal.
pub fn dynamic_import_with_literal(e: &CallExpr) -> (specifier: Option<String>)
    ensures
        specifier.deep_view() == e@.dynamic_import_literal(),
{
    if is_dynamic_import(e) {
        literal_argument(e)
    } else {
        None
    }
}

/// Whether `e` calls the bare identifier `require`.
pub fn is_require(e: &CallExpr) -> (require: bool)
    ensures
        require == e@.is_require(),
{
    match &e.callee {
        Callee::Expr(Expr::Ident(name)) => {
            let keyword: String = "require".to_owned();
            *name == keyword
        },
        _ => false,
    }
}

/// The specifier that a `require` names, where `e` is a `require` call whose
/// first argument is an unspread string literal.
pub fn require_with_literal(e: &CallExpr) -> (specifier: Option<String>)
    ensures
        specifier.deep_view() == e@.require_literal(),
{
    if is_require(e) {
        literal_argument(e)
    } else {
        None
    }
}

/// The reference that a top-level item makes to another module, if it makes
/// one.
pub fn static_reference(item: &ModuleItem) -> (reference: Option<ModuleDependency>)
    ensures
        match reference {
            Some(found) => item@.reference() == Some(found@),
            None => item@.reference() is None,
        },
{
    match item {
        ModuleItem::ModuleDecl(ModuleDecl::Import { src }) => Some(
            ModuleDependency { specifier: src.clone(), kind: ImportKind::StaticImport },
        ),
        ModuleItem::ModuleDecl(ModuleDecl::ExportNamed { src: Some(src) }) => Some(
            ModuleDependency { specifier: src.clone(), kind: ImportKind::ExportNamed },
        ),
        ModuleItem::ModuleDecl(ModuleDecl::ExportAll { src }) => Some(
            ModuleDependency { specifier: src.clone(), kind: ImportKind::ExportAll },
        ),
        _ => None,
    }
}

} // verus!
