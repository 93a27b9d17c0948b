//! Syntax of Adder with `print` and multi-binding `let`.

use vstd::prelude::*;

verus! {

// Adderish + Print
#[derive(Debug, PartialEq, Eq)]
pub enum Exp {
    Num(i64),
    Var(String),
    Print(Box<Exp>),
    Let {
        /// the new binding declarations
        bindings: Vec<(String, Exp)>,
        /// the expression in which the new variables are bound
        body: Box<Exp>,
    },
    Add(Box<Exp>, Box<Exp>),
}

} // verus!
