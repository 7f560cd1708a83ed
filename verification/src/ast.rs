//! The abstract syntax tree produced by parsing and consumed by code
//! generation.  All entities are immutable once constructed; sub-trees are
//! exclusively owned by their parent node.

use vstd::prelude::*;

verus! {

/// The declared type of a variable: advisory metadata fixed at declaration
/// time.  It drives which literal form the initializer may take and which
/// target-language type annotation is emitted.
#[derive(Debug, Clone, PartialEq)]
pub enum Type {
    Number,
    String,
}

/// A relational comparison operator.
#[derive(Debug, Clone, PartialEq)]
pub enum CompOp {
    Equal,
    LessThan,
    GreaterThan,
}

/// An arithmetic operator; the language defines only addition.
#[derive(Debug, Clone, PartialEq)]
pub enum ArithmeticOp {
    Add,
}

/// An expression: a literal, an identifier reference, or a binary arithmetic
/// node owning its two sub-expressions.
#[derive(Debug, PartialEq)]
pub enum Expression {
    Number(i64),
    Identifier(String),
    StringLiteral(String),
    ArithmeticOp { left: Box<Expression>, op: ArithmeticOp, right: Box<Expression> },
}

/// Exactly one relational comparison between two expressions; the grammar has
/// no compound boolean conditions.
#[derive(Debug, PartialEq)]
pub struct Condition {
    pub left: Expression,
    pub op: CompOp,
    pub right: Expression,
}

/// An ordered sequence of statements, owned by its containing statement.
#[derive(Debug, PartialEq)]
pub struct Block {
    pub statements: Vec<Statement>,
}

/// A statement: declaration, assignment, conditional, loop, or print.
#[derive(Debug, PartialEq)]
pub enum Statement {
    VarDeclaration { name: String, var_type: Type, value: Expression },
    Assignment { name: String, value: Expression },
    If { condition: Condition, then_block: Block, else_block: Option<Block> },
    While { condition: Condition, body: Block },
    Print { value: Expression },
}

/// The root of the tree: an ordered, non-empty sequence of top-level
/// statements.  The parser never produces a program with zero statements.
#[derive(Debug, PartialEq)]
pub struct Program {
    pub statements: Vec<Statement>,
}

impl Clone for Expression {
    /// The clone is the same expression.
    fn clone(&self) -> (r: Self)
        ensures
            r == *self,
        decreases self,
    {
        match self {
            Expression::Number(n) => Expression::Number(*n),
            Expression::Identifier(id) => Expression::Identifier(id.clone()),
            Expression::StringLiteral(s) => Expression::StringLiteral(s.clone()),
            Expression::ArithmeticOp { left, op, right } => Expression::ArithmeticOp {
                left: Box::new((**left).clone()),
                op: match op {
                    ArithmeticOp::Add => ArithmeticOp::Add,
                },
                right: Box::new((**right).clone()),
            },
        }
    }
}

impl Clone for Condition {
    /// The clone is the same condition.
    fn clone(&self) -> (r: Self)
        ensures
            r == *self,
    {
        Condition {
            left: self.left.clone(),
            op: match &self.op {
                CompOp::Equal => CompOp::Equal,
                CompOp::LessThan => CompOp::LessThan,
                CompOp::GreaterThan => CompOp::GreaterThan,
            },
            right: self.right.clone(),
        }
    }
}

impl Clone for Block {
    /// A clone of the block.  Sequence values are opaque to the verifier, so
    /// nothing is claimed of the result (as with the other containers here).
    fn clone(&self) -> Self
        decreases self,
    {
        let mut statements: Vec<Statement> = Vec::new();
        let n = self.statements.len();
        let mut i: usize = 0;
        while i < n
            invariant
                n == self.statements@.len(),
                0 <= i <= n,
            decreases n - i,
        {
            statements.push(self.statements[i].clone());
            i += 1;
        }
        Block { statements }
    }
}

impl Clone for Statement {
    /// A clone of the statement.
    fn clone(&self) -> Self
        decreases self,
    {
        match self {
            Statement::VarDeclaration { name, var_type, value } => Statement::VarDeclaration {
                name: name.clone(),
                var_type: match var_type {
                    Type::Number => Type::Number,
                    Type::String => Type::String,
                },
                value: value.clone(),
            },
            Statement::Assignment { name, value } => Statement::Assignment {
                name: name.clone(),
                value: value.clone(),
            },
            Statement::If { condition, then_block, else_block } => Statement::If {
                condition: condition.clone(),
                then_block: then_block.clone(),
                else_block: match else_block {
                    Some(b) => Some(b.clone()),
                    None => None,
                },
            },
            Statement::While { condition, body } => Statement::While {
                condition: condition.clone(),
                body: body.clone(),
            },
            Statement::Print { value } => Statement::Print { value: value.clone() },
        }
    }
}

impl Clone for Program {
    /// A clone of the program.
    fn clone(&self) -> Self {
        let mut statements: Vec<Statement> = Vec::new();
        let n = self.statements.len();
        let mut i: usize = 0;
        while i < n
            invariant
                n == self.statements@.len(),
                0 <= i <= n,
            decreases n - i,
        {
            statements.push(self.statements[i].clone());
            i += 1;
        }
        Program { statements }
    }
}

} // verus!
