//! The syntax tree of a demangled symbol. Paths, types and constants that a back-reference
//! can point at are shared through `Rc`.
use std::rc::Rc;
use vstd::prelude::*;

verus! {

/// A whole symbol: an optional encoding version, its path and the optional crate that
/// instantiated it.
#[derive(Clone, Debug, PartialEq, Eq)]
pub struct Symbol<'a> {
    pub version: Option<u64>,
    pub path: Rc<Path<'a>>,
    pub instantiating_crate: Option<Rc<Path<'a>>>,
}

#[derive(Clone, Debug, PartialEq, Eq)]
pub enum Path<'a> {
    CrateRoot(Identifier<'a>),
    InherentImpl { impl_path: ImplPath<'a>, type_: Rc<Type<'a>> },
    TraitImpl { impl_path: ImplPath<'a>, type_: Rc<Type<'a>>, trait_: Rc<Path<'a>> },
    TraitDefinition { type_: Rc<Type<'a>>, trait_: Rc<Path<'a>> },
    Nested { namespace: u8, path: Rc<Path<'a>>, name: Identifier<'a> },
    Generic { path: Rc<Path<'a>>, generic_args: Vec<GenericArg<'a>> },
}

#[derive(Clone, Debug, PartialEq, Eq)]
pub struct ImplPath<'a> {
    pub disambiguator: u64,
    pub path: Rc<Path<'a>>,
}

/// The text of a name: a slice of the input, or the decoding of a punycode name.
#[derive(Clone, Debug, PartialEq, Eq)]
pub enum Name<'a> {
    Borrowed(&'a str),
    Owned(String),
}

#[derive(Clone, Debug, PartialEq, Eq)]
pub struct Identifier<'a> {
    pub disambiguator: u64,
    pub name: Name<'a>,
}

#[derive(Clone, Debug, PartialEq, Eq)]
pub enum GenericArg<'a> {
    Lifetime(u64),
    Type(Rc<Type<'a>>),
    Const(Rc<Const<'a>>),
}

#[derive(Clone, Debug, PartialEq, Eq)]
pub enum Type<'a> {
    Basic(BasicType),
    Named(Rc<Path<'a>>),
    Array(Rc<Type<'a>>, Rc<Const<'a>>),
    Slice(Rc<Type<'a>>),
    Tuple(Vec<Rc<Type<'a>>>),
    Ref { lifetime: u64, type_: Rc<Type<'a>> },
    RefMut { lifetime: u64, type_: Rc<Type<'a>> },
    PtrConst(Rc<Type<'a>>),
    PtrMut(Rc<Type<'a>>),
    Fn(FnSig<'a>),
    DynTrait { dyn_bounds: DynBounds<'a>, lifetime: u64 },
}

#[derive(Clone, Copy, Debug, PartialEq, Eq, Structural)]
pub enum BasicType {
    I8,
    Bool,
    Char,
    F64,
    Str,
    F32,
    U8,
    Isize,
    Usize,
    I32,
    U32,
    I128,
    U128,
    I16,
    U16,
    Unit,
    Ellipsis,
    I64,
    U64,
    Never,
    Placeholder,
}

#[derive(Clone, Debug, PartialEq, Eq)]
pub struct FnSig<'a> {
    pub bound_lifetimes: u64,
    pub is_unsafe: bool,
    pub abi: Option<Abi<'a>>,
    pub argument_types: Vec<Rc<Type<'a>>>,
    pub return_type: Rc<Type<'a>>,
}

#[derive(Clone, Debug, PartialEq, Eq)]
pub enum Abi<'a> {
    C,
    Named(Name<'a>),
}

#[derive(Clone, Debug, PartialEq, Eq)]
pub struct DynBounds<'a> {
    pub bound_lifetimes: u64,
    pub dyn_traits: Vec<DynTrait<'a>>,
}

#[derive(Clone, Debug, PartialEq, Eq)]
pub struct DynTrait<'a> {
    pub path: Rc<Path<'a>>,
    pub dyn_trait_assoc_bindings: Vec<DynTraitAssocBinding<'a>>,
}

#[derive(Clone, Debug, PartialEq, Eq)]
pub struct DynTraitAssocBinding<'a> {
    pub name: Name<'a>,
    pub type_: Rc<Type<'a>>,
}

#[derive(Clone, Debug, PartialEq, Eq)]
pub enum Const<'a> {
    I8(i8),
    U8(u8),
    I16(i16),
    U16(u16),
    I32(i32),
    U32(u32),
    I64(i64),
    U64(u64),
    I128(i128),
    U128(u128),
    Isize(isize),
    Usize(usize),
    Bool(bool),
    Char(char),
    Str(ConstStr<'a>),
    Ref(Rc<Const<'a>>),
    RefMut(Rc<Const<'a>>),
    Array(Vec<Rc<Const<'a>>>),
    Tuple(Vec<Rc<Const<'a>>>),
    NamedStruct { path: Rc<Path<'a>>, fields: ConstFields<'a> },
    Placeholder,
}

#[derive(Clone, Debug, PartialEq, Eq)]
pub enum ConstFields<'a> {
    Unit,
    Tuple(Vec<Rc<Const<'a>>>),
    Struct(Vec<(Identifier<'a>, Rc<Const<'a>>)>),
}

/// The hex digits of a string constant, not decoded.
#[derive(Clone, Debug, PartialEq, Eq)]
pub struct ConstStr<'a>(pub &'a str);

/// The basic type that a single byte stands for.
pub open spec fn basic_type_of(b: u8) -> Option<BasicType> {
    if b == 0x61 { Some(BasicType::I8) }
    else if b == 0x62 { Some(BasicType::Bool) }
    else if b == 0x63 { Some(BasicType::Char) }
    else if b == 0x64 { Some(BasicType::F64) }
    else if b == 0x65 { Some(BasicType::Str) }
    else if b == 0x66 { Some(BasicType::F32) }
    else if b == 0x68 { Some(BasicType::U8) }
    else if b == 0x69 { Some(BasicType::Isize) }
    else if b == 0x6a { Some(BasicType::Usize) }
    else if b == 0x6c { Some(BasicType::I32) }
    else if b == 0x6d { Some(BasicType::U32) }
    else if b == 0x6e { Some(BasicType::I128) }
    else if b == 0x6f { Some(BasicType::U128) }
    else if b == 0x73 { Some(BasicType::I16) }
    else if b == 0x74 { Some(BasicType::U16) }
    else if b == 0x75 { Some(BasicType::Unit) }
    else if b == 0x76 { Some(BasicType::Ellipsis) }
    else if b == 0x78 { Some(BasicType::I64) }
    else if b == 0x79 { Some(BasicType::U64) }
    else if b == 0x7a { Some(BasicType::Never) }
    else if b == 0x70 { Some(BasicType::Placeholder) }
    else { None }
}

} // verus!
