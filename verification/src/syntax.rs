//! Python source as far as the analysis reads it: statements and expressions in source order, with
//! what is known of the types and definitions behind them.

use vstd::prelude::*;

use crate::provenance;
use crate::provenance::{Callee, Decorator};
use crate::semantic::{Db, Definition, Type};
use crate::text::TextRange;

verus! {

/// One argument of a call.
#[derive(Debug)]
pub enum CallArgument {
    /// An argument by position, with its type where it is known.
    Positional { ty: Option<Type> },
    /// `*arguments`
    Starred,
    /// An argument by name, with its type where it is known.
    Keyword { name: String, ty: Option<Type> },
    /// `**arguments`
    Unpacked,
}

/// A call expression.
#[derive(Debug)]
pub struct CallSite {
    pub range: TextRange,
    pub callee: Callee,
    /// The arguments in source order.
    pub arguments: Vec<CallArgument>,
}

/// What an expression is.
#[derive(Debug)]
pub enum ExprKind {
    Call(CallSite),
    /// A lambda or a comprehension: what it holds does not run where it stands.
    Deferred,
    Other,
}

/// An expression with the expressions that it holds, in source order.
#[derive(Debug)]
pub struct Expr {
    pub kind: ExprKind,
    pub children: Vec<Expr>,
}

/// What a statement is.
#[derive(Debug)]
pub enum StmtKind {
    Function {
        definition: Definition,
        /// Where the first decorator begins, or else the function.
        anchor: u32,
        decorators: Vec<Decorator>,
    },
    Class,
    TypeAlias,
    Other,
}

/// A statement.
#[derive(Debug)]
pub struct Stmt {
    pub range: TextRange,
    pub kind: StmtKind,
    /// The expressions in front of the body: decorators, parameters, bases, conditions.
    pub header: Vec<Expr>,
    /// What the statement holds, in source order.
    pub body: Vec<Child>,
}

/// A part of a statement's body.
#[derive(Debug)]
pub enum Child {
    Stmt(Stmt),
    Expr(Expr),
    Annotation(Expr),
}

// ---------------------------------------------------------------------------------------------
// Statements
// ---------------------------------------------------------------------------------------------

/// A part with all statements in it, each in front of those that it holds.
pub open spec fn statements_of(child: Child) -> Seq<Stmt>
    decreases child,
{
    match child {
        Child::Stmt(stmt) => seq![stmt] + statements(stmt.body@),
        _ => Seq::empty(),
    }
}

/// All statements of a body, each in front of those that it holds.
pub open spec fn statements(body: Seq<Child>) -> Seq<Stmt>
    decreases body,
{
    if body.len() == 0 {
        Seq::empty()
    } else {
        statements(body.drop_last()) + statements_of(body.last())
    }
}

/// Whether the statements of a part lie in a source of a length and take up some of it.
pub open spec fn placed(child: Child, len: nat) -> bool
    decreases child,
{
    match child {
        Child::Stmt(stmt) => {
            &&& stmt.range.start < stmt.range.end <= len
            &&& (stmt.kind matches StmtKind::Function { anchor, .. } ==> anchor <= len)
            &&& forall|i: int|
                0 <= i < stmt.body@.len() ==> placed(#[trigger] stmt.body@[i], len)
        },
        _ => true,
    }
}

/// Whether the statements of a body lie in a source of a length.
pub open spec fn all_placed(body: Seq<Child>, len: nat) -> bool {
    forall|i: int| 0 <= i < body.len() ==> placed(#[trigger] body[i], len)
}

// ---------------------------------------------------------------------------------------------
// What is known
// ---------------------------------------------------------------------------------------------

/// Whether what an argument mentions is known.
pub open spec fn argument_known(db: Db, argument: CallArgument) -> bool {
    match argument {
        CallArgument::Positional { ty: Some(ty) } => db.has_type(ty),
        CallArgument::Keyword { ty: Some(ty), .. } => db.has_type(ty),
        _ => true,
    }
}

/// Whether what a call mentions is known.
pub open spec fn call_known(db: Db, call: CallSite) -> bool {
    &&& provenance::callee_wf(db, call.callee)
    &&& forall|i: int|
        0 <= i < call.arguments@.len() ==> argument_known(db, #[trigger] call.arguments@[i])
}

/// Whether what an expression mentions is known.
pub open spec fn expr_known(db: Db, expr: Expr) -> bool
    decreases expr,
{
    &&& (expr.kind matches ExprKind::Call(call) ==> call_known(db, call))
    &&& forall|i: int|
        0 <= i < expr.children@.len() ==> expr_known(db, #[trigger] expr.children@[i])
}

/// Whether what a statement's head mentions is known.
pub open spec fn kind_known(db: Db, kind: StmtKind) -> bool {
    match kind {
        StmtKind::Function { definition, decorators, .. } => {
            &&& db.has_definition(definition)
            &&& forall|i: int|
                0 <= i < decorators@.len() ==> provenance::callee_wf(
                    db,
                    provenance::decorator_callee(#[trigger] decorators@[i]),
                )
        },
        _ => true,
    }
}

/// Whether what a part mentions is known.
pub open spec fn known(db: Db, child: Child) -> bool
    decreases child,
{
    match child {
        Child::Stmt(stmt) => {
            &&& kind_known(db, stmt.kind)
            &&& forall|i: int|
                0 <= i < stmt.header@.len() ==> expr_known(db, #[trigger] stmt.header@[i])
            &&& forall|i: int| 0 <= i < stmt.body@.len() ==> known(db, #[trigger] stmt.body@[i])
        },
        Child::Expr(expr) => expr_known(db, expr),
        Child::Annotation(_) => true,
    }
}

/// Whether what a body mentions is known.
pub open spec fn all_known(db: Db, body: Seq<Child>) -> bool {
    forall|i: int| 0 <= i < body.len() ==> known(db, #[trigger] body[i])
}

} // verus!
