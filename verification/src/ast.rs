//! The syntax tree built by the parser, and its mathematical model.

use vstd::prelude::*;

verus! {

/// An identifier: the name bound by a binding statement.
#[derive(Debug, PartialEq, Clone)]
pub struct Ident(pub String);

/// An expression node. The grammar does not yet parse expressions, so the
/// only variant is the placeholder recorded for a skipped value; the enum
/// is open so a richer grammar can add variants without breaking the
/// statement rules.
#[derive(Debug, PartialEq, Clone)]
pub enum Expression {
    Empty,
}

/// A binding statement: `let <name> = <value>;`.
#[derive(Debug, PartialEq, Clone)]
pub struct LetStatement {
    pub name: Ident,
    pub value: Expression,
}

/// A statement node; the binding statement is the only implemented form.
#[derive(Debug, PartialEq, Clone)]
pub enum Statement {
    Let(LetStatement),
}

/// A complete parsed program: its statements in source order.
#[derive(Debug, PartialEq)]
pub struct Program {
    pub statements: Vec<Statement>,
}

/// Model of an expression node.
pub enum SpecExpression {
    Empty,
}

/// Model of a statement: the bound name as a sequence of characters,
/// together with the value expression.
pub enum SpecStatement {
    Let { name: Seq<char>, value: SpecExpression },
}

impl View for Ident {
    type V = Seq<char>;

    open spec fn view(&self) -> Seq<char> {
        self.0@
    }
}

impl View for Expression {
    type V = SpecExpression;

    open spec fn view(&self) -> SpecExpression {
        match self {
            Expression::Empty => SpecExpression::Empty,
        }
    }
}

impl View for LetStatement {
    type V = SpecStatement;

    open spec fn view(&self) -> SpecStatement {
        SpecStatement::Let { name: self.name@, value: self.value@ }
    }
}

impl View for Statement {
    type V = SpecStatement;

    open spec fn view(&self) -> SpecStatement {
        match self {
            Statement::Let(binding) => binding@,
        }
    }
}

impl View for Program {
    type V = Seq<SpecStatement>;

    open spec fn view(&self) -> Seq<SpecStatement> {
        self.statements@.map_values(|s: Statement| s@)
    }
}

} // verus!
