//! Parsing of symbol names mangled in the v0 scheme into a syntax tree.
pub mod ast;
pub mod grammar;
pub mod input;
pub mod laws;
pub mod numbers;
mod outside;
pub mod parsers;
pub mod symbol;

pub use ast::{
    Abi, BasicType, Const, ConstFields, ConstStr, DynBounds, DynTrait, DynTraitAssocBinding, FnSig, GenericArg,
    Identifier, ImplPath, Name, Path, Symbol, Type,
};
pub use input::{alphanumeric0, Alphanumeric0, IndexedStr};
pub use symbol::parse_symbol;
