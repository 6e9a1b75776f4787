//! The recursive productions: paths, types and constants, with what nests in them.
use std::rc::Rc;
use vstd::prelude::*;
use vstd::string::StringSliceAdditionalSpecFns;
use crate::ast::{
    basic_type_of, Abi, BasicType, Const, ConstFields, ConstStr, DynBounds, DynTrait, DynTraitAssocBinding, FnSig,
    GenericArg, ImplPath, Path, Type,
};
use crate::input::{lemma_advance_trans, run_len, ByteClass, lemma_suffix_refl, lemma_suffix_trans, IndexedStr};
use crate::numbers::{const_int, const_str, fit_int, parse_const_int, parse_const_str, taken};
use crate::outside::char_from_u32;
use crate::parsers::{
    back_ref, consumes, lemma_bumped, opt_bumped, opt_plain, opt_u64, parse_disambiguator, parse_back_ref, parse_binder, parse_identifier, parse_lifetime,
    identifier_at, parse_undisambiguated_identifier, tagged_base62, Context,
};

verus! {

broadcast use lemma_suffix_trans;

/// The first bytes of the path constructors.
pub open spec fn is_path_tag(b: u8) -> bool {
    b == 0x43 || b == 0x4d || b == 0x58 || b == 0x59 || b == 0x4e || b == 0x49
}

/// A path that starts with byte `b` is a back-reference or has the constructor that `b` names.
pub open spec fn path_starts(b: u8, p: Path) -> bool {
    b == 0x42 || match p {
        Path::CrateRoot(_) => b == 0x43,
        Path::InherentImpl { .. } => b == 0x4d,
        Path::TraitImpl { .. } => b == 0x58,
        Path::TraitDefinition { .. } => b == 0x59,
        Path::Nested { .. } => b == 0x4e,
        Path::Generic { .. } => b == 0x49,
    }
}

/// The disambiguator of an impl path.
pub open spec fn impl_disambiguator_of(p: Path) -> u64 {
    match p {
        Path::InherentImpl { impl_path, .. } => impl_path.disambiguator,
        Path::TraitImpl { impl_path, .. } => impl_path.disambiguator,
        _ => 0,
    }
}

/// The parent path of a nested or generic path, and the type of a trait definition, are the
/// nodes recorded where they begin, right after the tag (and the namespace byte).
pub open spec fn path_children_recorded<'a>(p: Path<'a>, ctx: Context<'a>, index: int) -> bool {
    match p {
        Path::Nested { path, .. } => index + 2 < ctx.paths@.len() && ctx.paths@[index + 2] == Some(path),
        Path::Generic { path, .. } => index + 1 < ctx.paths@.len() && ctx.paths@[index + 1] == Some(path),
        Path::TraitDefinition { type_, .. } => index + 1 < ctx.types@.len() && ctx.types@[index + 1] == Some(type_),
        _ => true,
    }
}

/// The inner constant of a reference constant, and the path of a named struct constant, are
/// the nodes recorded right after the tag.
pub open spec fn const_children_recorded<'a>(c: Const<'a>, ctx: Context<'a>, index: int) -> bool {
    match c {
        Const::Ref(x) => index + 1 < ctx.consts@.len() && ctx.consts@[index + 1] == Some(x),
        Const::RefMut(x) => index + 1 < ctx.consts@.len() && ctx.consts@[index + 1] == Some(x),
        Const::NamedStruct { path, .. } => index + 1 < ctx.paths@.len() && ctx.paths@[index + 1] == Some(path),
        _ => true,
    }
}

/// The identifier of a crate root.
pub open spec fn crate_root_of<'a>(r: Result<(Path<'a>, IndexedStr<'a>), ()>) -> Result<(crate::ast::Identifier<'a>, IndexedStr<'a>), ()> {
    match r {
        Ok((Path::CrateRoot(id), rest)) => Ok((id, rest)),
        _ => Err(()),
    }
}

/// The number that a parse described by `o` gives.
pub open spec fn opt_value(o: Option<(u64, nat)>) -> Option<u64> {
    match o {
        Some((v, _)) => Some(v),
        None => None,
    }
}

/// The count of bound lifetimes of a function or trait object type.
pub open spec fn bound_lifetimes_of(t: Type) -> u64 {
    match t {
        Type::Fn(sig) => sig.bound_lifetimes,
        Type::DynTrait { dyn_bounds, .. } => dyn_bounds.bound_lifetimes,
        _ => 0,
    }
}

/// Where the inner type of a reference starts: after the tag and the optional lifetime.
pub open spec fn ref_inner_start(s: Seq<u8>) -> nat {
    1 + opt_plain(s.drop_first(), 0x4c).1
}

/// The inner type of a reference, pointer, slice or array is the node recorded where it begins.
pub open spec fn type_children_recorded<'a>(t: Type<'a>, s: Seq<u8>, ctx: Context<'a>, index: int) -> bool {
    let at = |k: int, x: Rc<Type<'a>>| 0 <= k < ctx.types@.len() && ctx.types@[k] == Some(x);
    match t {
        Type::Ref { type_, .. } => at(index + ref_inner_start(s), type_),
        Type::RefMut { type_, .. } => at(index + ref_inner_start(s), type_),
        Type::PtrConst(x) => at(index + 1, x),
        Type::PtrMut(x) => at(index + 1, x),
        Type::Slice(x) => at(index + 1, x),
        Type::Array(x, _) => at(index + 1, x),
        _ => true,
    }
}

/// A reference, pointer or slice of a basic type: the tag, for a reference the optional
/// lifetime, and the basic type's byte.
pub open spec fn wrapped_basic_ok<'a>(r: Result<(Type<'a>, IndexedStr<'a>), ()>, input: IndexedStr<'a>) -> bool {
    let s = input.bytes();
    let b = s[0];
    let j = if b == 0x52 || b == 0x51 { ref_inner_start(s) } else { 1nat };
    (b == 0x52 || b == 0x51 || b == 0x50 || b == 0x4f || b == 0x53) && j < s.len() && basic_type_of(s[j as int]) is Some
        ==> (r matches Ok((t, rest)) && rest.is_advanced(input, j + 1int) && match t {
        Type::Ref { lifetime, type_ } => b == 0x52 && lifetime == opt_plain(s.drop_first(), 0x4c).0 && *type_
            == Type::Basic(basic_type_of(s[j as int])->0),
        Type::RefMut { lifetime, type_ } => b == 0x51 && lifetime == opt_plain(s.drop_first(), 0x4c).0 && *type_
            == Type::Basic(basic_type_of(s[j as int])->0),
        Type::PtrConst(x) => b == 0x50 && *x == Type::Basic(basic_type_of(s[j as int])->0),
        Type::PtrMut(x) => b == 0x4f && *x == Type::Basic(basic_type_of(s[j as int])->0),
        Type::Slice(x) => b == 0x53 && *x == Type::Basic(basic_type_of(s[j as int])->0),
        _ => false,
    })
}

/// The lifetime of a reference type.
pub open spec fn ref_lifetime(t: Type) -> u64 {
    match t {
        Type::Ref { lifetime, .. } => lifetime,
        Type::RefMut { lifetime, .. } => lifetime,
        _ => 0,
    }
}

/// A type that starts with byte `b` is a back-reference or has the constructor that `b` names.
pub open spec fn type_starts(b: u8, t: Type) -> bool {
    b == 0x42 || match t {
        Type::Basic(k) => basic_type_of(b) == Some(k),
        Type::Named(_) => is_path_tag(b),
        Type::Array(..) => b == 0x41,
        Type::Slice(_) => b == 0x53,
        Type::Tuple(_) => b == 0x54,
        Type::Ref { .. } => b == 0x52,
        Type::RefMut { .. } => b == 0x51,
        Type::PtrConst(_) => b == 0x50,
        Type::PtrMut(_) => b == 0x4f,
        Type::Fn(_) => b == 0x46,
        Type::DynTrait { .. } => b == 0x44,
    }
}

/// A constant that starts with byte `b` is a back-reference or has the constructor that `b`
/// names.
pub open spec fn const_starts(b: u8, c: Const) -> bool {
    b == 0x42 || match c {
        Const::I8(_) => b == 0x61,
        Const::U8(_) => b == 0x68,
        Const::I16(_) => b == 0x73,
        Const::U16(_) => b == 0x74,
        Const::I32(_) => b == 0x6c,
        Const::U32(_) => b == 0x6d,
        Const::I64(_) => b == 0x78,
        Const::U64(_) => b == 0x79,
        Const::I128(_) => b == 0x6e,
        Const::U128(_) => b == 0x6f,
        Const::Isize(_) => b == 0x69,
        Const::Usize(_) => b == 0x6a,
        Const::Bool(_) => b == 0x62,
        Const::Char(_) => b == 0x63,
        Const::Str(_) => b == 0x65,
        Const::Ref(_) => b == 0x52,
        Const::RefMut(_) => b == 0x51,
        Const::Array(_) => b == 0x41,
        Const::Tuple(_) => b == 0x54,
        Const::NamedStruct { .. } => b == 0x56,
        Const::Placeholder => b == 0x70,
    }
}

/// The range of the integer constant that tag `b` stands for.
pub open spec fn int_bounds(b: u8) -> Option<(int, int)> {
    if b == 0x61 { Some((i8::MIN as int, i8::MAX as int)) }
    else if b == 0x68 { Some((0, u8::MAX as int)) }
    else if b == 0x73 { Some((i16::MIN as int, i16::MAX as int)) }
    else if b == 0x74 { Some((0, u16::MAX as int)) }
    else if b == 0x6c { Some((i32::MIN as int, i32::MAX as int)) }
    else if b == 0x6d { Some((0, u32::MAX as int)) }
    else if b == 0x78 { Some((i64::MIN as int, i64::MAX as int)) }
    else if b == 0x79 { Some((0, u64::MAX as int)) }
    else if b == 0x6e { Some((i128::MIN as int, i128::MAX as int)) }
    else if b == 0x6f { Some((0, u128::MAX as int)) }
    else if b == 0x69 { Some((isize::MIN as int, isize::MAX as int)) }
    else if b == 0x6a { Some((0, usize::MAX as int)) }
    else { None }
}

/// The value of an integer constant.
pub open spec fn int_value(c: Const) -> Option<int> {
    match c {
        Const::I8(v) => Some(v as int),
        Const::U8(v) => Some(v as int),
        Const::I16(v) => Some(v as int),
        Const::U16(v) => Some(v as int),
        Const::I32(v) => Some(v as int),
        Const::U32(v) => Some(v as int),
        Const::I64(v) => Some(v as int),
        Const::U64(v) => Some(v as int),
        Const::I128(v) => Some(v as int),
        Const::U128(v) => Some(v as int),
        Const::Isize(v) => Some(v as int),
        Const::Usize(v) => Some(v as int),
        _ => None,
    }
}

/// `r` is the node that the back-reference at the start of `input` points at in `table`, or a
/// failure where the reference is malformed or points at nothing.
pub open spec fn resolves<'a, T>(
    r: Result<(Rc<T>, IndexedStr<'a>), ()>,
    input: IndexedStr<'a>,
    table: Seq<Option<Rc<T>>>,
) -> bool {
    match back_ref(input.bytes()) {
        Some((k, n)) => if k < table.len() && table[k as int] is Some {
            r matches Ok((v, rest)) && v == table[k as int]->0 && rest.is_advanced(input, n as int)
        } else {
            r is Err
        },
        None => r is Err,
    }
}

/// What every production promises: the tables only gain nodes, and a success consumes.
pub open spec fn step<'a, T>(r: Result<(T, IndexedStr<'a>), ()>, input: IndexedStr<'a>, before: Context<'a>, after: Context<'a>) -> bool {
    after.evolved(before, input.index as int) && consumes(r, input)
}

fn lookup_path<'a>(ctx: &Context<'a>, k: usize) -> (r: Option<Rc<Path<'a>>>)
    ensures
        r == (if k < ctx.paths@.len() { ctx.paths@[k as int] } else { None }),
{
    if k < ctx.paths.len() {
        match &ctx.paths[k] {
            Some(p) => Some(p.clone()),
            None => None,
        }
    } else {
        None
    }
}

fn lookup_type<'a>(ctx: &Context<'a>, k: usize) -> (r: Option<Rc<Type<'a>>>)
    ensures
        r == (if k < ctx.types@.len() { ctx.types@[k as int] } else { None }),
{
    if k < ctx.types.len() {
        match &ctx.types[k] {
            Some(t) => Some(t.clone()),
            None => None,
        }
    } else {
        None
    }
}

fn lookup_const<'a>(ctx: &Context<'a>, k: usize) -> (r: Option<Rc<Const<'a>>>)
    ensures
        r == (if k < ctx.consts@.len() { ctx.consts@[k as int] } else { None }),
{
    if k < ctx.consts.len() {
        match &ctx.consts[k] {
            Some(c) => Some(c.clone()),
            None => None,
        }
    } else {
        None
    }
}

/// Consumes the closing `E` of a list.
fn close_list<'a>(input: IndexedStr<'a>) -> (r: Option<IndexedStr<'a>>)
    requires
        input.end() <= usize::MAX,
    ensures
        r is Some <==> input.bytes().len() > 0 && input.bytes()[0] == 0x45,
        r matches Some(rest) ==> rest.is_suffix_of(input) && rest.index == input.index + 1,
{
    input.strip_prefix(0x45)
}

pub fn parse_path<'a>(input: IndexedStr<'a>, ctx: &mut Context<'a>) -> (r: Result<(Rc<Path<'a>>, IndexedStr<'a>), ()>)
    requires
        old(ctx).holds(input),
    ensures
        step(r, input, *old(ctx), *final(ctx)),
        r matches Ok((p, _)) ==> final(ctx).paths@[input.index as int] == Some(p) && path_starts(
            input.bytes()[0],
            *p,
        ),
        input.bytes().len() > 0 && input.bytes()[0] == 0x43 ==> identifier_at(
            crate_root_of(
                match r {
                    Ok((p, rest)) => Ok((*p, rest)),
                    Err(_) => Err(()),
                },
            ),
            input.bytes().drop_first(),
            input.index + 1,
        ),
        input.bytes().len() > 0 && (input.bytes()[0] == 0x4d || input.bytes()[0] == 0x58) ==> (r matches Ok((p, _))
            ==> Some(impl_disambiguator_of(*p)) == opt_value(opt_bumped(input.bytes().drop_first(), 0x73))),
        input.bytes().len() > 0 && input.bytes()[0] != 0x42 ==> (r matches Ok((p, _)) ==> path_children_recorded(
            *p,
            *final(ctx),
            input.index as int,
        )),
        input.bytes().len() == 0 || !(is_path_tag(input.bytes()[0]) || input.bytes()[0] == 0x42) ==> r is Err
            && *final(ctx) == *old(ctx),
        input.bytes().len() > 0 && input.bytes()[0] == 0x4e ==> (r matches Ok((p, _)) ==> (*p matches Path::Nested {
            namespace,
            ..
        } && input.bytes().len() > 1 && namespace == input.bytes()[1])),
        input.bytes().len() > 0 && input.bytes()[0] == 0x42 ==> {
            &&& resolves(r, input, old(ctx).paths@)
            &&& final(ctx).types == old(ctx).types
            &&& final(ctx).consts == old(ctx).consts
            &&& r is Err ==> final(ctx).paths == old(ctx).paths
        },
    decreases input.bytes().len(), 1nat,
{
    let index = input.index;
    let b = match input.first_byte() {
        Some(b) => b,
        None => return Err(()),
    };
    let r: Result<(Rc<Path<'a>>, IndexedStr<'a>), ()> = if is_path_tag_byte(b) {
        match parse_path_constructor(input, ctx, b) {
            Ok((p, rest)) => Ok((Rc::new(p), rest)),
            Err(_) => Err(()),
        }
    } else if b == 0x42 {
        match parse_back_ref(input) {
            Ok((k, rest)) => match lookup_path(ctx, k) {
                Some(p) => Ok((p, rest)),
                None => Err(()),
            },
            Err(_) => Err(()),
        }
    } else {
        Err(())
    };
    match r {
        Ok((p, rest)) => {
            ctx.paths.set(index, Some(p.clone()));
            Ok((p, rest))
        },
        Err(_) => Err(()),
    }
}

/// A path that starts with one of the constructor tags, `b`.
#[verifier::rlimit(40)]
fn parse_path_constructor<'a>(input: IndexedStr<'a>, ctx: &mut Context<'a>, b: u8) -> (r: Result<(Path<'a>, IndexedStr<'a>), ()>)
    requires
        old(ctx).holds(input),
        input.bytes().len() > 0,
        b == input.bytes()[0],
        is_path_tag(b),
    ensures
        step(r, input, *old(ctx), *final(ctx)),
        r matches Ok((p, _)) ==> path_starts(b, p),
        b == 0x43 ==> identifier_at(crate_root_of(r), input.bytes().drop_first(), input.index + 1),
        (b == 0x4d || b == 0x58) ==> (r matches Ok((p, _)) ==> Some(impl_disambiguator_of(p)) == opt_value(
            opt_bumped(input.bytes().drop_first(), 0x73),
        )),
        r matches Ok((Path::Nested { namespace, .. }, _)) ==> input.bytes().len() > 1 && namespace == input.bytes()[1],
        r matches Ok((p, _)) ==> path_children_recorded(p, *final(ctx), input.index as int),
    decreases input.bytes().len(), 0nat,
{
    if b == 0x43 {
        let rest = input.skip_ascii();
        proof {
            assert(rest.bytes() =~= input.bytes().drop_first());
        }
        match parse_identifier(rest) {
            Ok((id, rest)) => Ok((Path::CrateRoot(id), rest)),
            Err(_) => Err(()),
        }
    } else if b == 0x4d {
        let rest = input.skip_ascii();
        proof {
            assert(rest.bytes() =~= input.bytes().drop_first());
        }
        match parse_impl_path(rest, ctx) {
            Ok((impl_path, rest)) => match parse_type(rest, ctx) {
                Ok((type_, rest)) => Ok((Path::InherentImpl { impl_path, type_ }, rest)),
                Err(_) => Err(()),
            },
            Err(_) => Err(()),
        }
    } else if b == 0x58 {
        let rest = input.skip_ascii();
        proof {
            assert(rest.bytes() =~= input.bytes().drop_first());
        }
        match parse_impl_path(rest, ctx) {
            Ok((impl_path, rest)) => match parse_type(rest, ctx) {
                Ok((type_, rest)) => match parse_path(rest, ctx) {
                    Ok((trait_, rest)) => Ok((Path::TraitImpl { impl_path, type_, trait_ }, rest)),
                    Err(_) => Err(()),
                },
                Err(_) => Err(()),
            },
            Err(_) => Err(()),
        }
    } else if b == 0x59 {
        let rest = input.skip_ascii();
        match parse_type(rest, ctx) {
            Ok((type_, rest)) => match parse_path(rest, ctx) {
                Ok((trait_, rest)) => Ok((Path::TraitDefinition { type_, trait_ }, rest)),
                Err(_) => Err(()),
            },
            Err(_) => Err(()),
        }
    } else if b == 0x4e {
        let rest = input.skip_ascii();
        match rest.split_at(1) {
            Some((namespace, rest)) => {
                let namespace = namespace.as_bytes()[0];
                match parse_path(rest, ctx) {
                    Ok((path, rest)) => match parse_identifier(rest) {
                        Ok((name, rest)) => Ok((Path::Nested { namespace, path, name }, rest)),
                        Err(_) => Err(()),
                    },
                    Err(_) => Err(()),
                }
            },
            None => Err(()),
        }
    } else {
        let rest = input.skip_ascii();
        match parse_path(rest, ctx) {
            Ok((path, rest)) => match parse_generic_args(rest, ctx) {
                Ok((generic_args, rest)) => Ok((Path::Generic { path, generic_args }, rest)),
                Err(_) => Err(()),
            },
            Err(_) => Err(()),
        }
    }
}

/// Generic arguments up to the closing `E`.
fn parse_generic_args<'a>(input: IndexedStr<'a>, ctx: &mut Context<'a>) -> (r: Result<(Vec<GenericArg<'a>>, IndexedStr<'a>), ()>)
    requires
        old(ctx).holds(input),
    ensures
        step(r, input, *old(ctx), *final(ctx)),
        input.bytes().len() > 0 && input.bytes()[0] == 0x45 ==> (r matches Ok((v, rest)) && v@.len() == 0
            && rest.is_advanced(input, 1)),
    decreases input.bytes().len(), 5nat,
{
    let mut generic_args: Vec<GenericArg<'a>> = Vec::new();
    let mut cur = input;
    proof {
        lemma_suffix_refl(input);
    }
    loop
        invariant
            input.bytes().len() > 0 && input.bytes()[0] == 0x45 ==> cur == input && generic_args@.len() == 0,
            ctx.holds(cur),
            ctx.evolved(*old(ctx), input.index as int),
            cur.is_suffix_of(input),
        decreases cur.bytes().len(),
    {
        match parse_generic_arg(cur, ctx) {
            Ok((arg, next)) => {
                generic_args.push(arg);
                cur = next;
            },
            Err(_) => break,
        }
    }
    match close_list(cur) {
        Some(rest) => Ok((generic_args, rest)),
        None => Err(()),
    }
}

/// An optional disambiguator, counted from 1, and a path.
fn parse_impl_path<'a>(input: IndexedStr<'a>, ctx: &mut Context<'a>) -> (r: Result<(ImplPath<'a>, IndexedStr<'a>), ()>)
    requires
        old(ctx).holds(input),
    ensures
        step(r, input, *old(ctx), *final(ctx)),
        opt_bumped(input.bytes(), 0x73) is None ==> r is Err,
        r matches Ok((p, _)) ==> Some(p.disambiguator) == opt_value(opt_bumped(input.bytes(), 0x73)),
        r matches Ok((p, _)) ==> final(ctx).paths@[input.index + taken(opt_bumped(input.bytes(), 0x73))] == Some(
            p.path,
        ),
    decreases input.bytes().len(), 2nat,
{
    let parsed = parse_disambiguator(input);
    proof {
        lemma_bumped(parsed, input, 0x73);
    }
    let (disambiguator, rest) = match opt_u64(input, parsed) {
        Ok(x) => x,
        Err(_) => return Err(()),
    };
    match parse_path(rest, ctx) {
        Ok((path, rest)) => Ok((ImplPath { disambiguator, path }, rest)),
        Err(_) => Err(()),
    }
}

/// A lifetime, a type, or `K` and a constant.
fn parse_generic_arg<'a>(input: IndexedStr<'a>, ctx: &mut Context<'a>) -> (r: Result<(GenericArg<'a>, IndexedStr<'a>), ()>)
    requires
        old(ctx).holds(input),
    ensures
        step(r, input, *old(ctx), *final(ctx)),
        input.bytes().len() > 0 && input.bytes()[0] == 0x4c ==> match tagged_base62(input.bytes(), 0x4c) {
            Some((v, k)) => r matches Ok((GenericArg::Lifetime(x), rest)) && x == v && rest.is_advanced(
                input,
                k as int,
            ),
            None => r is Err,
        },
        r matches Ok((GenericArg::Const(c), _)) ==> input.bytes()[0] == 0x4b && final(ctx).consts@[input.index + 1]
            == Some(c),
        r matches Ok((GenericArg::Type(t), _)) ==> type_starts(input.bytes()[0], *t) && final(ctx).types@[input.index
            as int] == Some(t),
        r matches Ok((GenericArg::Lifetime(_), _)) ==> input.bytes()[0] == 0x4c,
        input.bytes().len() > 1 && input.bytes()[0] == 0x4b && input.bytes()[1] == 0x70 ==> (r matches Ok(
            (GenericArg::Const(c), rest),
        ) && *c == Const::Placeholder && rest.is_advanced(input, 2)),
    decreases input.bytes().len(), 4nat,
{
    match parse_lifetime(input) {
        Ok((lifetime, rest)) => return Ok((GenericArg::Lifetime(lifetime), rest)),
        Err(_) => {},
    }
    if input.first_byte() == Some(0x4cu8) {
        return Err(());
    }
    match parse_type(input, ctx) {
        Ok((type_, rest)) => return Ok((GenericArg::Type(type_), rest)),
        Err(_) => {},
    }
    match input.strip_prefix(0x4b) {
        Some(rest) => match parse_const(rest, ctx) {
            Ok((c, rest)) => Ok((GenericArg::Const(c), rest)),
            Err(_) => Err(()),
        },
        None => Err(()),
    }
}


fn parse_basic_type<'a>(input: IndexedStr<'a>) -> (r: Result<(BasicType, IndexedStr<'a>), ()>)
    requires
        input.end() <= usize::MAX,
    ensures
        match (if input.bytes().len() > 0 { basic_type_of(input.bytes()[0]) } else { None }) {
            Some(k) => r matches Ok((x, rest)) && x == k && rest.is_advanced(input, 1),
            None => r is Err,
        },
{
    let b = match input.first_byte() {
        Some(b) => b,
        None => return Err(()),
    };
    let k = match basic_type_from_byte(b) {
        Some(k) => k,
        None => return Err(()),
    };
    Ok((k, input.skip_ascii()))
}

fn basic_type_from_byte(b: u8) -> (r: Option<BasicType>)
    ensures
        r == basic_type_of(b),
        r is Some ==> b < 0x80,
{
    if b == 0x61 { Some(BasicType::I8) }
    else if b == 0x62 { Some(BasicType::Bool) }
    else if b == 0x63 { Some(BasicType::Char) }
    else if b == 0x64 { Some(BasicType::F64) }
    else if b == 0x65 { Some(BasicType::Str) }
    else if b == 0x66 { Some(BasicType::F32) }
    else if b == 0x68 { Some(BasicType::U8) }
    else if b == 0x69 { Some(BasicType::Isize) }
    else if b == 0x6a { Some(BasicType::Usize) }
    else if b == 0x6c { Some(BasicType::I32) }
    else if b == 0x6d { Some(BasicType::U32) }
    else if b == 0x6e { Some(BasicType::I128) }
    else if b == 0x6f { Some(BasicType::U128) }
    else if b == 0x73 { Some(BasicType::I16) }
    else if b == 0x74 { Some(BasicType::U16) }
    else if b == 0x75 { Some(BasicType::Unit) }
    else if b == 0x76 { Some(BasicType::Ellipsis) }
    else if b == 0x78 { Some(BasicType::I64) }
    else if b == 0x79 { Some(BasicType::U64) }
    else if b == 0x7a { Some(BasicType::Never) }
    else if b == 0x70 { Some(BasicType::Placeholder) }
    else { None }
}

/// The lifetime of a reference: `L` and a base-62 number, or 0 where it is absent.
pub fn parse_ref_lifetime<'a>(input: IndexedStr<'a>) -> (r: (u64, IndexedStr<'a>))
    requires
        input.end() <= usize::MAX,
    ensures
        r.0 == opt_plain(input.bytes(), 0x4c).0,
        r.1.is_advanced(input, opt_plain(input.bytes(), 0x4c).1 as int),
        r.1.is_suffix_of(input),
{
    match parse_lifetime(input) {
        Ok((v, rest)) => (v, rest),
        Err(_) => {
            proof {
                lemma_suffix_refl(input);
            }
            (0, input)
        },
    }
}

#[verifier::rlimit(100)]
pub fn parse_type<'a>(input: IndexedStr<'a>, ctx: &mut Context<'a>) -> (r: Result<(Rc<Type<'a>>, IndexedStr<'a>), ()>)
    requires
        old(ctx).holds(input),
    ensures
        step(r, input, *old(ctx), *final(ctx)),
        r matches Ok((t, _)) ==> final(ctx).types@[input.index as int] == Some(t) && type_starts(
            input.bytes()[0],
            *t,
        ),
        r matches Ok((t, _)) ==> (*t matches Type::Named(p) ==> is_path_tag(input.bytes()[0])
            ==> final(ctx).paths@[input.index as int] == Some(p)),
        input.bytes().len() > 0 && input.bytes()[0] != 0x42 ==> (r matches Ok((t, _)) ==> type_children_recorded(
            *t,
            input.bytes(),
            *final(ctx),
            input.index as int,
        )),
        input.bytes().len() > 0 ==> wrapped_basic_ok(
            match r {
                Ok((t, rest)) => Ok((*t, rest)),
                Err(_) => Err(()),
            },
            input,
        ),
        input.bytes().len() > 0 && (input.bytes()[0] == 0x46 || input.bytes()[0] == 0x44) ==> (r matches Ok((t, _))
            ==> Some(bound_lifetimes_of(*t)) == opt_value(opt_bumped(input.bytes().drop_first(), 0x47))),
        input.bytes().len() > 0 && (input.bytes()[0] == 0x52 || input.bytes()[0] == 0x51) ==> (r matches Ok((t, _))
            ==> ref_lifetime(*t) == opt_plain(input.bytes().drop_first(), 0x4c).0),
        input.bytes().len() > 0 && basic_type_of(input.bytes()[0]) is Some ==> (r matches Ok((t, rest))
            && *t == Type::Basic(basic_type_of(input.bytes()[0])->0) && rest.is_advanced(input, 1)),
        input.bytes().len() > 0 && input.bytes()[0] == 0x42 ==> match back_ref(input.bytes()) {
            Some((k, n)) => if k < old(ctx).paths@.len() && old(ctx).paths@[k as int] is Some {
                r matches Ok((t, rest)) && *t == Type::Named(old(ctx).paths@[k as int]->0) && rest.is_advanced(
                    input,
                    n as int,
                )
            } else {
                resolves(r, input, old(ctx).types@)
            },
            None => r is Err,
        },
    decreases input.bytes().len(), 3nat,
{
    let index = input.index;
    let b = match input.first_byte() {
        Some(b) => b,
        None => return Err(()),
    };
    let r: Result<(Rc<Type<'a>>, IndexedStr<'a>), ()> = if basic_type_from_byte(b).is_some() {
        match parse_basic_type(input) {
            Ok((k, rest)) => Ok((Rc::new(Type::Basic(k)), rest)),
            Err(_) => Err(()),
        }
    } else if is_path_tag_byte(b) {
        match parse_path(input, ctx) {
            Ok((p, rest)) => Ok((Rc::new(Type::Named(p)), rest)),
            Err(_) => Err(()),
        }
    } else if b == 0x41 {
        let rest = input.skip_ascii();
        match parse_type(rest, ctx) {
            Ok((type_, rest)) => match parse_const(rest, ctx) {
                Ok((length, rest)) => Ok((Rc::new(Type::Array(type_, length)), rest)),
                Err(_) => Err(()),
            },
            Err(_) => Err(()),
        }
    } else if b == 0x53 {
        let rest = input.skip_ascii();
        match parse_type(rest, ctx) {
            Ok((type_, rest)) => Ok((Rc::new(Type::Slice(type_)), rest)),
            Err(_) => Err(()),
        }
    } else if b == 0x54 {
        let rest = input.skip_ascii();
        match parse_type_list(rest, ctx) {
            Ok((types, rest)) => Ok((Rc::new(Type::Tuple(types)), rest)),
            Err(_) => Err(()),
        }
    } else if b == 0x52 || b == 0x51 {
        let rest = input.skip_ascii();
        proof {
            assert(rest.bytes() =~= input.bytes().drop_first());
        }
        let (lifetime, rest) = parse_ref_lifetime(rest);
        match parse_type(rest, ctx) {
            Ok((type_, rest)) => if b == 0x52 {
                Ok((Rc::new(Type::Ref { lifetime, type_ }), rest))
            } else {
                Ok((Rc::new(Type::RefMut { lifetime, type_ }), rest))
            },
            Err(_) => Err(()),
        }
    } else if b == 0x50 || b == 0x4f {
        let rest = input.skip_ascii();
        match parse_type(rest, ctx) {
            Ok((type_, rest)) => if b == 0x50 {
                Ok((Rc::new(Type::PtrConst(type_)), rest))
            } else {
                Ok((Rc::new(Type::PtrMut(type_)), rest))
            },
            Err(_) => Err(()),
        }
    } else if b == 0x46 {
        let rest = input.skip_ascii();
        proof {
            assert(rest.bytes() =~= input.bytes().drop_first());
        }
        match parse_fn_sig(rest, ctx) {
            Ok((sig, rest)) => Ok((Rc::new(Type::Fn(sig)), rest)),
            Err(_) => Err(()),
        }
    } else if b == 0x44 {
        let rest = input.skip_ascii();
        proof {
            assert(rest.bytes() =~= input.bytes().drop_first());
        }
        match parse_dyn_bounds(rest, ctx) {
            Ok((dyn_bounds, rest)) => match parse_lifetime(rest) {
                Ok((lifetime, rest)) => Ok((Rc::new(Type::DynTrait { dyn_bounds, lifetime }), rest)),
                Err(_) => Err(()),
            },
            Err(_) => Err(()),
        }
    } else if b == 0x42 {
        match parse_path(input, ctx) {
            Ok((p, rest)) => Ok((Rc::new(Type::Named(p)), rest)),
            Err(_) => match parse_back_ref(input) {
                Ok((k, rest)) => match lookup_type(ctx, k) {
                    Some(t) => Ok((t, rest)),
                    None => Err(()),
                },
                Err(_) => Err(()),
            },
        }
    } else {
        Err(())
    };
    match r {
        Ok((t, rest)) => {
            ctx.types.set(index, Some(t.clone()));
            Ok((t, rest))
        },
        Err(_) => Err(()),
    }
}

fn is_path_tag_byte(b: u8) -> (r: bool)
    ensures
        r == is_path_tag(b),
{
    b == 0x43 || b == 0x4d || b == 0x58 || b == 0x59 || b == 0x4e || b == 0x49
}

/// Types up to the closing `E`.
fn parse_type_list<'a>(input: IndexedStr<'a>, ctx: &mut Context<'a>) -> (r: Result<(Vec<Rc<Type<'a>>>, IndexedStr<'a>), ()>)
    requires
        old(ctx).holds(input),
    ensures
        step(r, input, *old(ctx), *final(ctx)),
        r matches Ok((v, rest)) ==> rest.index > input.index + v@.len(),
        input.bytes().len() > 0 && input.bytes()[0] == 0x45 ==> (r matches Ok((v, rest)) && v@.len() == 0
            && rest.is_advanced(input, 1)),
    decreases input.bytes().len(), 4nat,
{
    let mut types: Vec<Rc<Type<'a>>> = Vec::new();
    let mut cur = input;
    proof {
        lemma_suffix_refl(input);
    }
    loop
        invariant
            input.bytes().len() > 0 && input.bytes()[0] == 0x45 ==> cur == input && types@.len() == 0,
            ctx.holds(cur),
            ctx.evolved(*old(ctx), input.index as int),
            cur.is_suffix_of(input),
            cur.index >= input.index + types@.len(),
        decreases cur.bytes().len(),
    {
        match parse_type(cur, ctx) {
            Ok((t, next)) => {
                types.push(t);
                cur = next;
            },
            Err(_) => break,
        }
    }
    match close_list(cur) {
        Some(rest) => Ok((types, rest)),
        None => Err(()),
    }
}

/// Constants up to the closing `E`.
fn parse_const_list<'a>(input: IndexedStr<'a>, ctx: &mut Context<'a>) -> (r: Result<(Vec<Rc<Const<'a>>>, IndexedStr<'a>), ()>)
    requires
        old(ctx).holds(input),
    ensures
        step(r, input, *old(ctx), *final(ctx)),
        r matches Ok((v, rest)) ==> rest.index > input.index + v@.len(),
        input.bytes().len() > 0 && input.bytes()[0] == 0x45 ==> (r matches Ok((v, rest)) && v@.len() == 0
            && rest.is_advanced(input, 1)),
    decreases input.bytes().len(), 2nat,
{
    let mut consts: Vec<Rc<Const<'a>>> = Vec::new();
    let mut cur = input;
    proof {
        lemma_suffix_refl(input);
    }
    loop
        invariant
            input.bytes().len() > 0 && input.bytes()[0] == 0x45 ==> cur == input && consts@.len() == 0,
            ctx.holds(cur),
            ctx.evolved(*old(ctx), input.index as int),
            cur.is_suffix_of(input),
            cur.index >= input.index + consts@.len(),
        decreases cur.bytes().len(),
    {
        match parse_const(cur, ctx) {
            Ok((c, next)) => {
                consts.push(c);
                cur = next;
            },
            Err(_) => break,
        }
    }
    match close_list(cur) {
        Some(rest) => Ok((consts, rest)),
        None => Err(()),
    }
}

/// A function signature: bound lifetimes, `U` for unsafe, `K` and an ABI, the argument types
/// up to `E`, and the return type.
#[verifier::rlimit(100)]
fn parse_fn_sig<'a>(input: IndexedStr<'a>, ctx: &mut Context<'a>) -> (r: Result<(FnSig<'a>, IndexedStr<'a>), ()>)
    requires
        old(ctx).holds(input),
    ensures
        step(r, input, *old(ctx), *final(ctx)),
        opt_bumped(input.bytes(), 0x47) is None ==> r is Err,
        r matches Ok((sig, _)) ==> Some(sig.bound_lifetimes) == opt_value(opt_bumped(input.bytes(), 0x47)),
        sig_head(input.bytes()) matches Some((u, p)) ==> {
            let s = input.bytes();
            &&& r matches Ok((sig, _)) ==> sig.is_unsafe == u
            &&& p + 1 < s.len() && s[p as int] == 0x4b && s[p + 1int] == 0x43 ==> (r matches Ok((sig, _)) ==> sig.abi
                == Some(Abi::C))
            &&& !(p < s.len() && s[p as int] == 0x4b) ==> (r matches Ok((sig, _)) ==> sig.abi is None)
            &&& sig_args_start(s, p) matches Some(q) ==> (q + 1 < s.len() && s[q as int] == 0x45 && basic_type_of(
                s[q + 1int],
            ) is Some ==> (r matches Ok((sig, rest)) && sig.argument_types@.len() == 0 && *sig.return_type
                == Type::Basic(basic_type_of(s[q + 1int])->0) && rest.is_advanced(input, q + 2int)))
        },
    decreases input.bytes().len(), 5nat,
{
    let ghost s = input.bytes();
    let parsed = parse_binder(input);
    proof {
        lemma_bumped(parsed, input, 0x47);
    }
    let (bound_lifetimes, rest) = match opt_u64(input, parsed) {
        Ok(x) => x,
        Err(_) => return Err(()),
    };
    let ghost k = rest.index - input.index;
    let (is_unsafe, rest) = match rest.strip_prefix(0x55) {
        Some(after) => {
            proof {
                lemma_advance_trans(input, rest, after, k, 1);
            }
            (true, after)
        },
        None => {
            proof {
                lemma_suffix_refl(rest);
            }
            (false, rest)
        },
    };
    let ghost p = rest.index - input.index;
    let (abi, rest) = match rest.strip_prefix(0x4b) {
        Some(after) => match parse_abi(after) {
            Ok((abi, after2)) => {
                proof {
                    lemma_advance_trans(input, rest, after, p, 1);
                    if after.bytes().len() > 0 && after.bytes()[0] == 0x43 {
                        lemma_advance_trans(input, after, after2, p + 1, 1);
                    }
                }
                (Some(abi), after2)
            },
            Err(_) => {
                proof {
                    lemma_suffix_refl(rest);
                }
                (None, rest)
            },
        },
        None => {
            proof {
                lemma_suffix_refl(rest);
            }
            (None, rest)
        },
    };
    let ghost q = rest.index - input.index;
    let (argument_types, after_args) = match parse_type_list(rest, ctx) {
        Ok(x) => x,
        Err(_) => return Err(()),
    };
    proof {
        if rest.bytes().len() > 0 && rest.bytes()[0] == 0x45 {
            lemma_advance_trans(input, rest, after_args, q, 1);
        }
    }
    match parse_type(after_args, ctx) {
        Ok((return_type, end)) => {
            proof {
                if rest.bytes().len() > 0 && rest.bytes()[0] == 0x45 && after_args.bytes().len() > 0 && basic_type_of(
                    after_args.bytes()[0],
                ) is Some {
                    lemma_advance_trans(input, after_args, end, q + 1, 1);
                }
            }
            Ok((FnSig { bound_lifetimes, is_unsafe, abi, argument_types, return_type }, end))
        },
        Err(_) => Err(()),
    }
}

/// The unsafe flag of a function signature, and where what follows it starts.
pub open spec fn sig_head(s: Seq<u8>) -> Option<(bool, nat)> {
    match opt_bumped(s, 0x47) {
        Some((_, k)) => if k < s.len() && s[k as int] == 0x55 {
            Some((true, k + 1))
        } else {
            Some((false, k))
        },
        None => None,
    }
}

/// Where the argument types of a signature start, when the ABI that may stand at `p` is absent
/// or `C`.
pub open spec fn sig_args_start(s: Seq<u8>, p: nat) -> Option<nat> {
    if p < s.len() && s[p as int] == 0x4b {
        if p + 1 < s.len() && s[p + 1int] == 0x43 {
            Some(p + 2)
        } else {
            None
        }
    } else {
        Some(p)
    }
}

/// `C`, or the name of an ABI.
fn parse_abi<'a>(input: IndexedStr<'a>) -> (r: Result<(Abi<'a>, IndexedStr<'a>), ()>)
    requires
        input.end() <= usize::MAX,
    ensures
        r matches Ok((_, rest)) ==> rest.is_suffix_of(input),
        input.bytes().len() > 0 && input.bytes()[0] == 0x43 ==> (r matches Ok((Abi::C, rest)) && rest.is_advanced(input, 1)),
{
    if let Some(rest) = input.strip_prefix(0x43) {
        return Ok((Abi::C, rest));
    }
    match parse_undisambiguated_identifier(input) {
        Ok((name, rest)) => Ok((Abi::Named(name), rest)),
        Err(_) => Err(()),
    }
}

/// Bound lifetimes and the traits of a trait object, up to `E`.
fn parse_dyn_bounds<'a>(input: IndexedStr<'a>, ctx: &mut Context<'a>) -> (r: Result<(DynBounds<'a>, IndexedStr<'a>), ()>)
    requires
        old(ctx).holds(input),
    ensures
        step(r, input, *old(ctx), *final(ctx)),
        opt_bumped(input.bytes(), 0x47) is None ==> r is Err,
        r matches Ok((bounds, _)) ==> Some(bounds.bound_lifetimes) == opt_value(opt_bumped(input.bytes(), 0x47)),
        opt_bumped(input.bytes(), 0x47) matches Some((v, k)) ==> (k < input.bytes().len() && input.bytes()[k as int]
            == 0x45 ==> (r matches Ok((bounds, rest)) && bounds.bound_lifetimes == v && bounds.dyn_traits@.len() == 0
            && rest.is_advanced(input, k + 1int))),
    decreases input.bytes().len(), 4nat,
{
    let parsed = parse_binder(input);
    proof {
        lemma_bumped(parsed, input, 0x47);
    }
    let (bound_lifetimes, rest) = match opt_u64(input, parsed) {
        Ok(x) => x,
        Err(_) => return Err(()),
    };
    let mut dyn_traits: Vec<DynTrait<'a>> = Vec::new();
    let mut cur = rest;
    let ghost k = rest.index - input.index;
    loop
        invariant
            rest.is_advanced(input, k),
            rest.bytes().len() > 0 && rest.bytes()[0] == 0x45 ==> cur == rest && dyn_traits@.len() == 0,
            ctx.holds(cur),
            ctx.evolved(*old(ctx), input.index as int),
            cur.is_suffix_of(input),
        decreases cur.bytes().len(),
    {
        match parse_dyn_trait(cur, ctx) {
            Ok((t, next)) => {
                dyn_traits.push(t);
                cur = next;
            },
            Err(_) => break,
        }
    }
    match close_list(cur) {
        Some(after) => {
            proof {
                if rest.bytes().len() > 0 && rest.bytes()[0] == 0x45 {
                    lemma_advance_trans(input, rest, after, k, 1);
                }
            }
            Ok((DynBounds { bound_lifetimes, dyn_traits }, after))
        },
        None => Err(()),
    }
}

/// A trait of a trait object: a path and its associated type bindings.
fn parse_dyn_trait<'a>(input: IndexedStr<'a>, ctx: &mut Context<'a>) -> (r: Result<(DynTrait<'a>, IndexedStr<'a>), ()>)
    requires
        old(ctx).holds(input),
    ensures
        step(r, input, *old(ctx), *final(ctx)),
        r matches Ok((t, _)) ==> final(ctx).paths@[input.index as int] == Some(t.path) && path_starts(
            input.bytes()[0],
            *t.path,
        ),
    decreases input.bytes().len(), 3nat,
{
    let (path, rest) = match parse_path(input, ctx) {
        Ok(x) => x,
        Err(_) => return Err(()),
    };
    let mut dyn_trait_assoc_bindings: Vec<DynTraitAssocBinding<'a>> = Vec::new();
    let mut cur = rest;
    loop
        invariant
            ctx.holds(cur),
            ctx.evolved(*old(ctx), input.index as int),
            ctx.paths@[input.index as int] == Some(path),
            cur.is_suffix_of(input),
            cur.index > input.index,
        decreases cur.bytes().len(),
    {
        match parse_dyn_trait_assoc_binding(cur, ctx) {
            Ok((binding, next)) => {
                dyn_trait_assoc_bindings.push(binding);
                cur = next;
            },
            Err(_) => break,
        }
    }
    Ok((DynTrait { path, dyn_trait_assoc_bindings }, cur))
}

/// `p`, a name and a type: an associated type bound in a trait object.
fn parse_dyn_trait_assoc_binding<'a>(input: IndexedStr<'a>, ctx: &mut Context<'a>) -> (r: Result<
    (DynTraitAssocBinding<'a>, IndexedStr<'a>),
    (),
>)
    requires
        old(ctx).holds(input),
    ensures
        step(r, input, *old(ctx), *final(ctx)),
        r is Ok ==> input.bytes()[0] == 0x70,
    decreases input.bytes().len(), 1nat,
{
    let rest = match input.strip_prefix(0x70) {
        Some(rest) => rest,
        None => return Err(()),
    };
    let (name, rest) = match parse_undisambiguated_identifier(rest) {
        Ok(x) => x,
        Err(_) => return Err(()),
    };
    match parse_type(rest, ctx) {
        Ok((type_, rest)) => Ok((DynTraitAssocBinding { name, type_ }, rest)),
        Err(_) => Err(()),
    }
}


/// The signed value `neg`, `mag` where it lies in `-max - 1..=max`.
fn fit_signed(neg: bool, mag: u128, max: u128) -> (r: Option<i128>)
    requires
        max <= i128::MAX,
    ensures
        r is Some <==> fit_int(neg, mag as nat, -max - 1, max as int) is Some,
        r matches Some(v) ==> v as int == fit_int(neg, mag as nat, -max - 1, max as int)->0,
{
    if mag > max {
        None
    } else if neg {
        Some(-(mag as i128))
    } else {
        Some(mag as i128)
    }
}

/// The unsigned value `neg`, `mag` where it lies in `0..=max`.
fn fit_unsigned(neg: bool, mag: u128, max: u128) -> (r: Option<u128>)
    ensures
        r is Some <==> fit_int(neg, mag as nat, 0, max as int) is Some,
        r matches Some(v) ==> v as int == fit_int(neg, mag as nat, 0, max as int)->0,
{
    if mag > max || (neg && mag != 0) {
        None
    } else {
        Some(mag)
    }
}

/// The integer constant of tag `b` with sign `neg` and magnitude `mag`, where it fits.
fn int_const<'a>(b: u8, neg: bool, mag: u128) -> (r: Option<Const<'a>>)
    requires
        int_bounds(b) is Some,
    ensures
        match int_bounds(b) {
            Some((lo, hi)) => match fit_int(neg, mag as nat, lo, hi) {
                Some(v) => r matches Some(c) && int_value(c) == Some(v) && const_starts(b, c),
                None => r is None,
            },
            None => false,
        },
{
    if b == 0x61 {
        match fit_signed(neg, mag, 0x7f) { Some(v) => Some(Const::I8(v as i8)), None => None }
    } else if b == 0x68 {
        match fit_unsigned(neg, mag, 0xff) { Some(v) => Some(Const::U8(v as u8)), None => None }
    } else if b == 0x73 {
        match fit_signed(neg, mag, 0x7fff) { Some(v) => Some(Const::I16(v as i16)), None => None }
    } else if b == 0x74 {
        match fit_unsigned(neg, mag, 0xffff) { Some(v) => Some(Const::U16(v as u16)), None => None }
    } else if b == 0x6c {
        match fit_signed(neg, mag, 0x7fff_ffff) { Some(v) => Some(Const::I32(v as i32)), None => None }
    } else if b == 0x6d {
        match fit_unsigned(neg, mag, 0xffff_ffff) { Some(v) => Some(Const::U32(v as u32)), None => None }
    } else if b == 0x78 {
        match fit_signed(neg, mag, i64::MAX as u128) { Some(v) => Some(Const::I64(v as i64)), None => None }
    } else if b == 0x79 {
        match fit_unsigned(neg, mag, u64::MAX as u128) { Some(v) => Some(Const::U64(v as u64)), None => None }
    } else if b == 0x6e {
        match fit_signed(neg, mag, i128::MAX as u128) { Some(v) => Some(Const::I128(v)), None => None }
    } else if b == 0x6f {
        match fit_unsigned(neg, mag, u128::MAX) { Some(v) => Some(Const::U128(v)), None => None }
    } else if b == 0x69 {
        match fit_signed(neg, mag, isize::MAX as u128) { Some(v) => Some(Const::Isize(v as isize)), None => None }
    } else {
        match fit_unsigned(neg, mag, usize::MAX as u128) { Some(v) => Some(Const::Usize(v as usize)), None => None }
    }
}

/// Whether the integer type of tag `b` is signed, and its largest value.
fn int_width(b: u8) -> (r: (bool, u128))
    requires
        int_bounds(b) is Some,
    ensures
        r.0 ==> r.1 <= i128::MAX,
        int_bounds(b) == Some((if r.0 { -r.1 - 1 } else { 0int }, r.1 as int)),
{
    if b == 0x61 { (true, 0x7f) }
    else if b == 0x68 { (false, 0xff) }
    else if b == 0x73 { (true, 0x7fff) }
    else if b == 0x74 { (false, 0xffff) }
    else if b == 0x6c { (true, 0x7fff_ffff) }
    else if b == 0x6d { (false, 0xffff_ffff) }
    else if b == 0x78 { (true, i64::MAX as u128) }
    else if b == 0x79 { (false, u64::MAX as u128) }
    else if b == 0x6e { (true, i128::MAX as u128) }
    else if b == 0x6f { (false, u128::MAX) }
    else if b == 0x69 { (true, isize::MAX as u128) }
    else { (false, usize::MAX as u128) }
}

fn int_tag(b: u8) -> (r: bool)
    ensures
        r == int_bounds(b) is Some,
{
    b == 0x61 || b == 0x68 || b == 0x73 || b == 0x74 || b == 0x6c || b == 0x6d || b == 0x78 || b == 0x79 || b
        == 0x6e || b == 0x6f || b == 0x69 || b == 0x6a
}

/// The outcome that the rules of the scalar constants give for `input`: integers, `b` for a
/// boolean, `c` for a character and `e` for a string.
pub open spec fn scalar_const_ok<'a>(r: Result<(Const<'a>, IndexedStr<'a>), ()>, input: IndexedStr<'a>) -> bool {
    let s = input.bytes();
    let b = s[0];
    let t = s.drop_first();
    &&& int_bounds(b) matches Some((lo, hi)) ==> match const_int(t) {
        Some((neg, mag, k)) => match fit_int(neg, mag, lo, hi) {
            Some(v) => r matches Ok((c, rest)) && int_value(c) == Some(v) && rest.is_advanced(input, k + 1int),
            None => r is Err,
        },
        None => r is Err,
    }
    &&& b == 0x62 ==> match const_int(t) {
        Some((neg, mag, k)) => match fit_int(neg, mag, 0, 255) {
            Some(v) => if v == 0 || v == 1 {
                r matches Ok((c, rest)) && c == Const::Bool(v == 1) && rest.is_advanced(input, k + 1int)
            } else {
                r is Err
            },
            None => r is Err,
        },
        None => r is Err,
    }
    &&& b == 0x63 ==> match const_int(t) {
        Some((neg, mag, k)) => match fit_int(neg, mag, 0, u32::MAX as int) {
            Some(v) => if v < 0xD800 || (0xE000 <= v && v < 0x110000) {
                r matches Ok((c, rest)) && (c matches Const::Char(ch) && ch as u32 == v) && rest.is_advanced(
                    input,
                    k + 1int,
                )
            } else {
                r is Err
            },
            None => r is Err,
        },
        None => r is Err,
    }
    &&& b == 0x65 ==> match const_str(t) {
        Some(d) => r matches Ok((c, rest)) && (c matches Const::Str(ConstStr(x)) && x.spec_bytes() == s.subrange(
            1,
            d + 1int,
        )) && rest.is_advanced(input, d + 2int),
        None => r is Err,
    }
}

/// An integer, boolean, character or string constant, whose tag `b` has been read.
fn parse_scalar_const<'a>(input: IndexedStr<'a>, b: u8) -> (r: Result<(Const<'a>, IndexedStr<'a>), ()>)
    requires
        input.end() <= usize::MAX,
        input.bytes().len() > 0,
        b == input.bytes()[0],
        int_bounds(b) is Some || b == 0x62 || b == 0x63 || b == 0x65,
    ensures
        scalar_const_ok(r, input),
        r matches Ok((c, rest)) ==> const_starts(b, c) && rest.is_suffix_of(input) && rest.index > input.index,
{
    let after_tag = input.skip_ascii();
    proof {
        assert(after_tag.bytes() =~= input.bytes().drop_first());
    }
    if b == 0x65 {
        return match parse_const_str(after_tag) {
            Ok((x, rest)) => {
                proof {
                    let d = const_str(after_tag.bytes())->0;
                    lemma_advance_trans(input, after_tag, rest, 1, d + 1int);
                    assert(x.spec_bytes() =~= input.bytes().subrange(1, d + 1int));
                }
                Ok((Const::Str(ConstStr(x)), rest))
            },
            Err(_) => Err(()),
        };
    }
    let (signed, max) = if int_tag(b) {
        int_width(b)
    } else if b == 0x62 {
        (false, 0xff)
    } else {
        (false, 0xffff_ffff)
    };
    let ((neg, mag), rest) = match parse_const_int(after_tag, signed, max) {
        Ok(x) => x,
        Err(_) => return Err(()),
    };
    proof {
        let k = match const_int(after_tag.bytes()) {
            Some((_, _, k)) => k,
            None => 0,
        };
        lemma_advance_trans(input, after_tag, rest, 1, k as int);
    }
    if int_tag(b) {
        match int_const(b, neg, mag) {
            Some(c) => Ok((c, rest)),
            None => Err(()),
        }
    } else if b == 0x62 {
        match fit_unsigned(neg, mag, 0xff) {
            Some(v) => if v == 0 {
                Ok((Const::Bool(false), rest))
            } else if v == 1 {
                Ok((Const::Bool(true), rest))
            } else {
                Err(())
            },
            None => Err(()),
        }
    } else {
        match fit_unsigned(neg, mag, 0xffff_ffff) {
            Some(v) => match char_from_u32(v as u32) {
                Some(ch) => Ok((Const::Char(ch), rest)),
                None => Err(()),
            },
            None => Err(()),
        }
    }
}

pub fn parse_const<'a>(input: IndexedStr<'a>, ctx: &mut Context<'a>) -> (r: Result<(Rc<Const<'a>>, IndexedStr<'a>), ()>)
    requires
        old(ctx).holds(input),
    ensures
        step(r, input, *old(ctx), *final(ctx)),
        r matches Ok((c, _)) ==> final(ctx).consts@[input.index as int] == Some(c) && const_starts(
            input.bytes()[0],
            *c,
        ),
        input.bytes().len() > 0 && input.bytes()[0] == 0x70 ==> (r matches Ok((c, rest)) && *c
            == Const::Placeholder && rest.is_advanced(input, 1)),
        input.bytes().len() > 0 && input.bytes()[0] != 0x42 ==> (r matches Ok((c, _)) ==> const_children_recorded(
            *c,
            *final(ctx),
            input.index as int,
        )),
        input.bytes().len() > 1 && (input.bytes()[0] == 0x41 || input.bytes()[0] == 0x54) && input.bytes()[1]
            == 0x45 ==> (r matches Ok((c, rest)) && rest.is_advanced(input, 2) && (*c matches Const::Array(v) ==> v@.len()
            == 0) && (*c matches Const::Tuple(v) ==> v@.len() == 0)),
        input.bytes().len() > 0 ==> scalar_const_ok(
            match r {
                Ok((c, rest)) => Ok((*c, rest)),
                Err(_) => Err(()),
            },
            input,
        ),
        input.bytes().len() > 0 && input.bytes()[0] == 0x42 ==> resolves(r, input, old(ctx).consts@),
    decreases input.bytes().len(), 1nat,
{
    let index = input.index;
    let b = match input.first_byte() {
        Some(b) => b,
        None => return Err(()),
    };
    proof {
        assert(input.bytes().drop_first() =~= input.bytes().subrange(1, input.bytes().len() as int));
    }
    let r: Result<(Rc<Const<'a>>, IndexedStr<'a>), ()> = if int_tag(b) || b == 0x62 || b == 0x63 || b == 0x65 {
        match parse_scalar_const(input, b) {
            Ok((c, rest)) => Ok((Rc::new(c), rest)),
            Err(_) => Err(()),
        }
    } else if b == 0x52 || b == 0x51 {
        let rest = input.skip_ascii();
        match parse_const(rest, ctx) {
            Ok((c, rest)) => if b == 0x52 {
                Ok((Rc::new(Const::Ref(c)), rest))
            } else {
                Ok((Rc::new(Const::RefMut(c)), rest))
            },
            Err(_) => Err(()),
        }
    } else if b == 0x41 || b == 0x54 {
        let rest = input.skip_ascii();
        match parse_const_list(rest, ctx) {
            Ok((items, rest)) => if b == 0x41 {
                Ok((Rc::new(Const::Array(items)), rest))
            } else {
                Ok((Rc::new(Const::Tuple(items)), rest))
            },
            Err(_) => Err(()),
        }
    } else if b == 0x56 {
        let rest = input.skip_ascii();
        match parse_path(rest, ctx) {
            Ok((path, rest)) => match parse_const_fields(rest, ctx) {
                Ok((fields, rest)) => Ok((Rc::new(Const::NamedStruct { path, fields }), rest)),
                Err(_) => Err(()),
            },
            Err(_) => Err(()),
        }
    } else if b == 0x70 {
        Ok((Rc::new(Const::Placeholder), input.skip_ascii()))
    } else if b == 0x42 {
        match parse_back_ref(input) {
            Ok((k, rest)) => match lookup_const(ctx, k) {
                Some(c) => Ok((c, rest)),
                None => Err(()),
            },
            Err(_) => Err(()),
        }
    } else {
        Err(())
    };
    match r {
        Ok((c, rest)) => {
            ctx.consts.set(index, Some(c.clone()));
            Ok((c, rest))
        },
        Err(_) => Err(()),
    }
}

/// The fields of a named struct constant: `U` for none, `T` and constants up to `E`, or `S`
/// and named constants up to `E`.
fn parse_const_fields<'a>(input: IndexedStr<'a>, ctx: &mut Context<'a>) -> (r: Result<(ConstFields<'a>, IndexedStr<'a>), ()>)
    requires
        old(ctx).holds(input),
    ensures
        step(r, input, *old(ctx), *final(ctx)),
        input.bytes().len() == 0 || !(input.bytes()[0] == 0x55 || input.bytes()[0] == 0x54 || input.bytes()[0]
            == 0x53) ==> r is Err,
        input.bytes().len() > 0 && input.bytes()[0] == 0x55 ==> (r matches Ok((ConstFields::Unit, rest))
            && rest.is_advanced(input, 1)),
        input.bytes().len() > 1 && input.bytes()[0] == 0x54 && input.bytes()[1] == 0x45 ==> (r matches Ok(
            (ConstFields::Tuple(v), rest),
        ) && v@.len() == 0 && rest.is_advanced(input, 2)),
        input.bytes().len() > 1 && input.bytes()[0] == 0x53 && input.bytes()[1] == 0x45 ==> (r matches Ok(
            (ConstFields::Struct(v), rest),
        ) && v@.len() == 0 && rest.is_advanced(input, 2)),
    decreases input.bytes().len(), 3nat,
{
    if let Some(rest) = input.strip_prefix(0x55) {
        return Ok((ConstFields::Unit, rest));
    }
    if let Some(rest) = input.strip_prefix(0x54) {
        return match parse_const_list(rest, ctx) {
            Ok((items, rest)) => Ok((ConstFields::Tuple(items), rest)),
            Err(_) => Err(()),
        };
    }
    let rest = match input.strip_prefix(0x53) {
        Some(rest) => rest,
        None => return Err(()),
    };
    let mut fields: Vec<(crate::ast::Identifier<'a>, Rc<Const<'a>>)> = Vec::new();
    let mut cur = rest;
    proof {
        let t = rest.bytes();
        if t.len() > 0 && t[0] == 0x45 {
            assert(run_len(ByteClass::Digit, t) == 0);
            assert(t.subrange(0, t.len() as int) =~= t);
        }
    }
    loop
        invariant
            rest.is_advanced(input, 1),
            rest.bytes().len() > 0 && rest.bytes()[0] == 0x45 ==> cur == rest && fields@.len() == 0,
            rest.bytes().len() > 0 && rest.bytes()[0] == 0x45 ==> run_len(ByteClass::Digit, rest.bytes()) == 0
                && rest.bytes().subrange(0, rest.bytes().len() as int) == rest.bytes(),
            ctx.holds(cur),
            ctx.evolved(*old(ctx), input.index as int),
            cur.is_suffix_of(input),
            cur.index > input.index,
        decreases cur.bytes().len(),
    {
        let (name, next) = match parse_identifier(cur) {
            Ok(x) => x,
            Err(_) => break,
        };
        match parse_const(next, ctx) {
            Ok((c, next)) => {
                fields.push((name, c));
                cur = next;
            },
            Err(_) => break,
        }
    }
    match close_list(cur) {
        Some(after) => {
            proof {
                if rest.bytes().len() > 0 && rest.bytes()[0] == 0x45 {
                    lemma_advance_trans(input, rest, after, 1, 1);
                }
            }
            Ok((ConstFields::Struct(fields), after))
        },
        None => Err(()),
    }
}

} // verus!
