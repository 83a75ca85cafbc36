use vstd::prelude::*;

pub mod text;
pub mod number;
pub mod tokenizer;
pub mod tokenize;
pub mod lex;
pub mod compiler;
pub mod parse;
pub mod header;
pub mod token_block;
pub mod dag;
pub mod interpreter;
pub mod llvm_ir;

verus! {

} // verus!
