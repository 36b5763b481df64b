//! The typed AST that the compiler lowers: entity definitions holding data
//! declarations and named functions whose bodies are statement lists.

use vstd::prelude::*;
use crate::opcodes::Hvalue;

verus! {

/// Where an identifier resolves to: nowhere yet, the current call frame, or
/// the current entity's data.
#[derive(Clone, Copy, PartialEq, Eq, Structural, Debug)]
pub enum IdentifierTarget {
    Unresolved,
    LocalVar,
    EntityVar,
}

/// An identifier occurrence, tagged by the resolver.
pub struct Identifier {
    pub original_sym: Vec<u8>,
    pub target: IdentifierTarget,
}

/// A binary arithmetic operator over `U8` values.
#[derive(Clone, Copy, PartialEq, Eq, Structural, Debug)]
pub enum BinOp {
    Add,
    Sub,
    Mul,
    Div,
}

/// One node of a function body.
pub enum AstNode {
    /// A literal value.
    Value(Hvalue),
    /// A bare identifier reference.
    Identifier(Identifier),
    /// A binary operation over two subexpressions.
    Operator(BinOp, Box<AstNode>, Box<AstNode>),
    /// `let` — declares a local and stores the expression into it.
    Definition(Identifier, Box<AstNode>),
    /// Assignment to an already-declared name.
    Assignment(Identifier, Box<AstNode>),
    /// `await` of a promise-valued subexpression.
    Await(Box<AstNode>),
    /// `return` of an expression.
    Return(Box<AstNode>),
    /// An asynchronous method call on another entity; carries the callee's
    /// function id.
    Message(Identifier, u8),
    /// A call of a registered host function, by its registered id.
    ForeignCall(u8),
}

/// A named function: its body is a statement list executed in order.
pub struct FunctionDef {
    pub name: Vec<u8>,
    pub body: Vec<AstNode>,
}

/// An entity definition: declared data fields and named functions.
pub struct EntityDef {
    pub name: Vec<u8>,
    pub data_declarations: Vec<Vec<u8>>,
    pub functions: Vec<FunctionDef>,
}

/// A whole program: a list of entity definitions.
pub struct Module {
    pub entity_defs: Vec<EntityDef>,
}

/// Every identifier reachable from the node carries a resolved target and a
/// name short enough for the instruction encoding.
pub open spec fn node_wf(n: AstNode) -> bool
    decreases n,
{
    match n {
        AstNode::Value(_) => true,
        AstNode::Identifier(id) => id.target != IdentifierTarget::Unresolved
            && id.original_sym@.len() <= 255,
        AstNode::Operator(_, l, r) => node_wf(*l) && node_wf(*r),
        AstNode::Definition(id, e) => id.target != IdentifierTarget::Unresolved
            && id.original_sym@.len() <= 255 && node_wf(*e),
        AstNode::Assignment(id, e) => id.target != IdentifierTarget::Unresolved
            && id.original_sym@.len() <= 255 && node_wf(*e),
        AstNode::Await(e) => node_wf(*e),
        AstNode::Return(e) => node_wf(*e),
        AstNode::Message(_, _) => true,
        AstNode::ForeignCall(_) => true,
    }
}

/// `node_wf` over a whole statement list.
pub open spec fn body_wf(body: Seq<AstNode>) -> bool {
    forall|i: int| 0 <= i < body.len() ==> node_wf(#[trigger] body[i])
}

} // verus!
