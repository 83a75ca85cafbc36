//! The type names of the language and the compiler object that parses
//! token streams.
use vstd::prelude::*;

use crate::interpreter::{VarView, Variables};

verus! {

/// The type of a variable, as written in a definition.
#[derive(PartialEq, Eq, Debug)]
pub enum Type {
    Bool,
    String,
    I32,
    I64,
    F32,
    F64,
    Array(Box<Type>),
}

impl Clone for Type {
    fn clone(&self) -> (r: Self)
        ensures
            r == *self,
        decreases self,
    {
        match self {
            Type::Bool => Type::Bool,
            Type::String => Type::String,
            Type::I32 => Type::I32,
            Type::I64 => Type::I64,
            Type::F32 => Type::F32,
            Type::F64 => Type::F64,
            Type::Array(inner) => Type::Array(Box::new((**inner).clone())),
        }
    }
}

/// The compiler. Parsing does not use its variables; they start empty.
pub struct Compiler {
    pub variable_map: Variables,
}

impl Compiler {
    pub fn new() -> (c: Compiler)
        ensures
            c.variable_map@ == Seq::<VarView>::empty(),
    {
        Compiler { variable_map: Variables::new() }
    }
}

} // verus!
