//! The entry points: a whole symbol, with the suffix that follows it.
use vstd::prelude::*;
use vstd::string::StringSliceAdditionalSpecFns;
use crate::ast::Symbol;
use crate::grammar::{parse_path, path_starts};
use crate::input::{lemma_suffix_refl, lemma_suffix_trans, IndexedStr};
use crate::numbers::{bounded_decimal, parse_decimal_number};
use crate::parsers::{consumes, identifier_fails, Context};

verus! {

broadcast use lemma_suffix_trans;

/// The version that a symbol starting with `s` carries: the leading decimal number, where
/// there is one that fits.
pub open spec fn version_of(s: Seq<u8>) -> Option<u64> {
    match bounded_decimal(s, u64::MAX) {
        Some((v, _)) => Some(v),
        None => None,
    }
}

/// Where no instantiating crate was read, the suffix does not start with a crate root that
/// could have been read as one.
pub open spec fn crate_root_not_left(sym: Symbol, suffix: Seq<u8>) -> bool {
    sym.instantiating_crate is None && suffix.len() > 0 && suffix[0] == 0x43 ==> identifier_fails(suffix.drop_first())
}

/// An optional version, the path, and an optional path of the instantiating crate.
pub fn parse_symbol_inner<'a>(input: IndexedStr<'a>, ctx: &mut Context<'a>) -> (r: Result<(Symbol<'a>, IndexedStr<'a>), ()>)
    requires
        old(ctx).holds(input),
    ensures
        consumes(r, input),
        r matches Ok((sym, _)) ==> sym.version == version_of(input.bytes()),
        input.bytes().len() > 0 && input.bytes()[0] == 0x43 ==> (r is Ok <==> !identifier_fails(
            input.bytes().drop_first(),
        )),
        input.bytes().len() > 0 && 0x30 <= input.bytes()[0] <= 0x39 && version_of(input.bytes()) is None ==> r is Err,
        r matches Ok((sym, rest)) ==> crate_root_not_left(sym, rest.bytes()),
        r matches Ok((sym, _)) ==> (!(0x30 <= input.bytes()[0] <= 0x39) ==> path_starts(input.bytes()[0], *sym.path)),
{
    let (version, rest) = match parse_decimal_number(input, u64::MAX) {
        Ok((v, rest)) => (Some(v), rest),
        Err(_) => {
            proof {
                lemma_suffix_refl(input);
            }
            (None, input)
        },
    };
    let (path, rest) = match parse_path(rest, ctx) {
        Ok(x) => x,
        Err(_) => return Err(()),
    };
    match parse_path(rest, ctx) {
        Ok((instantiating_crate, after)) => Ok((Symbol { version, path, instantiating_crate: Some(instantiating_crate) }, after)),
        Err(_) => Ok((Symbol { version, path, instantiating_crate: None }, rest)),
    }
}

/// Parses a symbol from the start of `input` (the text after the `_R` prefix) and returns it
/// with the rest of the input. Back-references count bytes from the start of `input`.
pub fn parse_symbol<'a>(input: &'a str) -> (r: Result<(Symbol<'a>, &'a str), ()>)
    ensures
        r matches Ok((sym, suffix)) ==> {
            &&& suffix.spec_bytes().len() < input.spec_bytes().len()
            &&& suffix.spec_bytes() == input.spec_bytes().subrange(
                input.spec_bytes().len() - suffix.spec_bytes().len(),
                input.spec_bytes().len() as int,
            )
            &&& sym.version == version_of(input.spec_bytes())
            &&& crate_root_not_left(sym, suffix.spec_bytes())
            &&& !(0x30 <= input.spec_bytes()[0] <= 0x39) ==> path_starts(input.spec_bytes()[0], *sym.path)
        },
        input.spec_bytes().len() > 0 && input.spec_bytes()[0] == 0x43 ==> (r is Ok <==> !identifier_fails(
            input.spec_bytes().drop_first(),
        )),
        input.spec_bytes().len() > 0 && 0x30 <= input.spec_bytes()[0] <= 0x39 && version_of(input.spec_bytes())
            is None ==> r is Err,
{
    let n = input.as_bytes().len();
    let mut ctx = Context::new(n);
    match parse_symbol_inner(IndexedStr::new(input), &mut ctx) {
        Ok((symbol, suffix)) => Ok((symbol, suffix.data)),
        Err(_) => Err(()),
    }
}

impl<'a> Symbol<'a> {
    /// Parses a mangled name that starts with `_R`, and returns the symbol with the suffix that
    /// follows it.
    pub fn parse_from_str(s: &'a str) -> (r: Result<(Symbol<'a>, &'a str), ()>)
        ensures
            r is Ok ==> s.spec_bytes().len() >= 2 && s.spec_bytes()[0] == 0x5f && s.spec_bytes()[1] == 0x52,
            r matches Ok((sym, suffix)) ==> {
                &&& suffix.spec_bytes().len() < s.spec_bytes().len() - 2
                &&& suffix.spec_bytes() == s.spec_bytes().subrange(
                    s.spec_bytes().len() - suffix.spec_bytes().len(),
                    s.spec_bytes().len() as int,
                )
                &&& sym.version == version_of(s.spec_bytes().subrange(2, s.spec_bytes().len() as int))
            },
            s.spec_bytes().len() > 2 && s.spec_bytes()[0] == 0x5f && s.spec_bytes()[1] == 0x52
                && s.spec_bytes()[2] == 0x43 ==> (r is Ok <==> !identifier_fails(
                s.spec_bytes().subrange(3, s.spec_bytes().len() as int),
            )),
    {
        let n = s.as_bytes().len();
        let start = IndexedStr::new(s);
        let rest = match start.strip_prefix(0x5f) {
            Some(rest) => rest,
            None => return Err(()),
        };
        let rest = match rest.strip_prefix(0x52) {
            Some(rest) => rest,
            None => return Err(()),
        };
        proof {
            assert(rest.bytes() =~= s.spec_bytes().subrange(2, s.spec_bytes().len() as int));
            if s.spec_bytes().len() > 2 {
                assert(rest.bytes().drop_first() =~= s.spec_bytes().subrange(3, s.spec_bytes().len() as int));
            }
        }
        match parse_symbol(rest.data) {
            Ok((symbol, suffix)) => {
                proof {
                    let l = s.spec_bytes().len() as int;
                    let m = suffix.spec_bytes().len() as int;
                    assert(suffix.spec_bytes() =~= s.spec_bytes().subrange(l - m, l));
                }
                Ok((symbol, suffix))
            },
            Err(_) => Err(()),
        }
    }
}

} // verus!
