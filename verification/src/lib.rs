use vstd::prelude::*;

pub mod chars;
pub mod tokenizer;
pub mod sorting;
pub mod syntax;
pub mod checker;
pub mod layout;
pub mod report;
pub mod operations;
pub mod pcs;
pub mod settings;
pub mod lexer;
pub mod ast;
pub mod parser;
pub mod transform;
pub mod balancer;
pub mod least_height;
pub mod folding;
pub mod printer;
pub mod simulator;
pub mod laws;
pub mod associative;
pub mod equivalent;
pub mod forms_closure;
pub mod value;
pub mod context;
pub mod text;
pub mod simplifier;

verus! {

} // verus!
