//! The memo tables that the productions share, and the productions that do not nest: tagged
//! base-62 numbers, back-references and identifiers.
use std::rc::Rc;
use vstd::prelude::*;
use vstd::slice::slice_to_vec;
use vstd::string::StringSliceAdditionalSpecFns;
use vstd::utf8::is_char_boundary;
use crate::ast::{Const, Identifier, Name, Path, Type};
use crate::input::{lemma_advance_trans, lemma_suffix_refl, lemma_suffix_trans, IndexedStr};
use crate::numbers::{base62_number, bounded_decimal, parse_base62_number, parse_decimal_number, taken, yields};
use crate::outside::{decode_punycode, punycode_of};

verus! {

broadcast use lemma_suffix_trans;

/// The memo tables: for each byte offset of the input, the path, type and constant that was
/// last parsed from there.
pub struct Context<'a> {
    pub paths: Vec<Option<Rc<Path<'a>>>>,
    pub types: Vec<Option<Rc<Type<'a>>>>,
    pub consts: Vec<Option<Rc<Const<'a>>>>,
}

impl<'a> Context<'a> {
    /// The tables have an entry for every offset of a byte of the input that `input` is part
    /// of.
    pub open spec fn holds(self, input: IndexedStr<'a>) -> bool {
        &&& input.end() <= self.paths@.len()
        &&& self.paths@.len() <= usize::MAX
        &&& self.types@.len() == self.paths@.len()
        &&& self.consts@.len() == self.paths@.len()
    }

    pub open spec fn same_shape(self, other: Self) -> bool {
        &&& self.paths@.len() == other.paths@.len()
        &&& self.types@.len() == other.types@.len()
        &&& self.consts@.len() == other.consts@.len()
    }

    /// `self` came from `before` by recording nodes: the sizes are kept, and every offset that
    /// held a node still holds one.
    pub open spec fn grown_from(self, before: Self) -> bool {
        &&& self.same_shape(before)
        &&& table_grown(before.paths@, self.paths@)
        &&& table_grown(before.types@, self.types@)
        &&& table_grown(before.consts@, self.consts@)
    }

    /// `self` came from `before` by recording nodes at offsets `from` or later: below `from`
    /// nothing changed.
    pub open spec fn evolved(self, before: Self, from: int) -> bool {
        &&& self.grown_from(before)
        &&& kept_below(before.paths@, self.paths@, from)
        &&& kept_below(before.types@, self.types@, from)
        &&& kept_below(before.consts@, self.consts@, from)
    }

    /// Empty tables for an input of `len` bytes.
    pub fn new(len: usize) -> (r: Self)
        ensures
            r.paths@.len() == len,
            r.types@.len() == len,
            r.consts@.len() == len,
            forall|i: int| 0 <= i < len ==> r.paths@[i] is None && r.types@[i] is None && r.consts@[i] is None,
    {
        let mut paths = Vec::new();
        let mut types = Vec::new();
        let mut consts = Vec::new();
        let mut i: usize = 0;
        while i < len
            invariant
                i <= len,
                paths@.len() == i,
                types@.len() == i,
                consts@.len() == i,
                forall|j: int| 0 <= j < i ==> paths@[j] is None && types@[j] is None && consts@[j] is None,
            decreases len - i,
        {
            paths.push(None);
            types.push(None);
            consts.push(None);
            i = i + 1;
        }
        Context { paths, types, consts }
    }
}

/// Every offset that held a node in `before` holds one in `after`.
pub open spec fn table_grown<T>(before: Seq<Option<T>>, after: Seq<Option<T>>) -> bool {
    forall|k: int| 0 <= k < before.len() && #[trigger] before[k] is Some ==> after[k] is Some
}

/// The entries of `before` below offset `n` are unchanged in `after`.
pub open spec fn kept_below<T>(before: Seq<Option<T>>, after: Seq<Option<T>>, n: int) -> bool {
    forall|k: int| 0 <= k < n && k < before.len() ==> #[trigger] after[k] == before[k]
}

/// On success the production consumed at least one byte.
pub open spec fn consumes<'a, T>(r: Result<(T, IndexedStr<'a>), ()>, input: IndexedStr<'a>) -> bool {
    r matches Ok((_, rest)) ==> rest.is_suffix_of(input) && rest.index > input.index
}

/// The ASCII byte `t` followed by a base-62 number. Gives the number and the bytes taken.
pub open spec fn tagged_base62(s: Seq<u8>, t: u8) -> Option<(u64, nat)> {
    if s.len() > 0 && s[0] == t {
        match base62_number(s.drop_first()) {
            Some((v, k)) => Some((v, k + 1)),
            None => None,
        }
    } else {
        None
    }
}

/// An optional tagged base-62 number, where present ones count from 1: absent is 0, present
/// is the number plus one, which must fit.
pub open spec fn opt_bumped(s: Seq<u8>, t: u8) -> Option<(u64, nat)> {
    match tagged_base62(s, t) {
        Some((v, k)) => if v + 1 <= u64::MAX {
            Some(((v + 1) as u64, k))
        } else {
            None
        },
        None => Some((0, 0)),
    }
}

/// An optional tagged base-62 number taken as it is: absent is 0.
pub open spec fn opt_plain(s: Seq<u8>, t: u8) -> (u64, nat) {
    match tagged_base62(s, t) {
        Some(x) => x,
        None => (0, 0),
    }
}

pub fn parse_tagged_base62<'a>(input: IndexedStr<'a>, t: u8) -> (r: Result<(u64, IndexedStr<'a>), ()>)
    requires
        input.end() <= usize::MAX,
        t < 0x80,
    ensures
        yields(r, input, tagged_base62(input.bytes(), t)),
{
    let rest = match input.strip_prefix(t) {
        Some(rest) => rest,
        None => return Err(()),
    };
    proof {
        assert(rest.bytes() =~= input.bytes().drop_first());
    }
    match parse_base62_number(rest) {
        Ok((v, after)) => {
            proof {
                lemma_advance_trans(input, rest, after, 1, taken(base62_number(rest.bytes())) as int);
            }
            Ok((v, after))
        },
        Err(_) => Err(()),
    }
}

/// The outcome of an optional number that counts from 1 where present: absent is 0, taken at
/// the same place; present is the number plus one, which must fit.
pub open spec fn bumped<'a>(parsed: Result<(u64, IndexedStr<'a>), ()>, input: IndexedStr<'a>) -> Result<
    (u64, IndexedStr<'a>),
    (),
> {
    match parsed {
        Ok((v, rest)) => if v + 1 <= u64::MAX {
            Ok(((v + 1) as u64, rest))
        } else {
            Err(())
        },
        Err(_) => Ok((0, input)),
    }
}

/// Makes the outcome of a number parser at `input` optional, counting present numbers from 1.
pub fn opt_u64<'a>(input: IndexedStr<'a>, parsed: Result<(u64, IndexedStr<'a>), ()>) -> (r: Result<(u64, IndexedStr<'a>), ()>)
    ensures
        r == bumped(parsed, input),
{
    match parsed {
        Ok((v, rest)) => match v.checked_add(1) {
            Some(v) => Ok((v, rest)),
            None => Err(()),
        },
        Err(_) => Ok((0, input)),
    }
}

pub proof fn lemma_bumped<'a>(parsed: Result<(u64, IndexedStr<'a>), ()>, input: IndexedStr<'a>, t: u8)
    requires
        yields(parsed, input, tagged_base62(input.bytes(), t)),
    ensures
        yields(bumped(parsed, input), input, opt_bumped(input.bytes(), t)),
{
    lemma_suffix_refl(input);
}

/// `s` and a base-62 number: a disambiguator.
pub fn parse_disambiguator<'a>(input: IndexedStr<'a>) -> (r: Result<(u64, IndexedStr<'a>), ()>)
    requires
        input.end() <= usize::MAX,
    ensures
        yields(r, input, tagged_base62(input.bytes(), 0x73)),
{
    parse_tagged_base62(input, 0x73)
}

/// `L` and a base-62 number: a lifetime.
pub fn parse_lifetime<'a>(input: IndexedStr<'a>) -> (r: Result<(u64, IndexedStr<'a>), ()>)
    requires
        input.end() <= usize::MAX,
    ensures
        yields(r, input, tagged_base62(input.bytes(), 0x4c)),
{
    parse_tagged_base62(input, 0x4c)
}

/// `G` and a base-62 number: a count of bound lifetimes.
pub fn parse_binder<'a>(input: IndexedStr<'a>) -> (r: Result<(u64, IndexedStr<'a>), ()>)
    requires
        input.end() <= usize::MAX,
    ensures
        yields(r, input, tagged_base62(input.bytes(), 0x47)),
{
    parse_tagged_base62(input, 0x47)
}

/// The byte offset that a back-reference `B<base-62>` points at.
pub open spec fn back_ref(s: Seq<u8>) -> Option<(usize, nat)> {
    match tagged_base62(s, 0x42) {
        Some((v, k)) => if v <= usize::MAX {
            Some((v as usize, k))
        } else {
            None
        },
        None => None,
    }
}

pub fn parse_back_ref<'a>(input: IndexedStr<'a>) -> (r: Result<(usize, IndexedStr<'a>), ()>)
    requires
        input.end() <= usize::MAX,
    ensures
        yields(r, input, back_ref(input.bytes())),
{
    match parse_tagged_base62(input, 0x42) {
        Ok((v, rest)) => if v <= usize::MAX as u64 {
            Ok((v as usize, rest))
        } else {
            Err(())
        },
        Err(_) => Err(()),
    }
}

/// What comes before the bytes of an identifier's name: an optional `u` for punycode, the
/// decimal length and an optional `_`. Gives the flag, the length and the bytes taken.
pub open spec fn ident_header(s: Seq<u8>) -> Option<(bool, nat, nat)> {
    let puny = s.len() > 0 && s[0] == 0x75;
    let t = if puny {
        s.drop_first()
    } else {
        s
    };
    match bounded_decimal(t, usize::MAX as u64) {
        Some((n, k)) => {
            let sep = k < t.len() && t[k as int] == 0x5f;
            Some((puny, n as nat, (if puny { 1nat } else { 0nat }) + k + (if sep { 1nat } else { 0nat })))
        },
        None => None,
    }
}

/// `s` with its last `_` replaced by `-`.
pub open spec fn dash_last_underscore(s: Seq<u8>) -> Seq<u8>
    decreases s.len(),
{
    if s.len() == 0 {
        s
    } else if s.last() == 0x5f {
        s.drop_last().push(0x2d)
    } else {
        dash_last_underscore(s.drop_last()).push(s.last())
    }
}

fn replace_last_underscore(buf: &mut Vec<u8>)
    ensures
        final(buf)@ == dash_last_underscore(old(buf)@),
{
    let ghost s = buf@;
    let mut i = buf.len();
    proof {
        assert(s.take(i as int) =~= s);
        assert(s.skip(i as int) =~= Seq::<u8>::empty());
        assert(dash_last_underscore(s) =~= dash_last_underscore(s.take(i as int)) + s.skip(i as int));
    }
    while i > 0
        invariant
            buf@ == s,
            s == old(buf)@,
            i <= s.len(),
            dash_last_underscore(s) == dash_last_underscore(s.take(i as int)) + s.skip(i as int),
        decreases i,
    {
        proof {
            assert(s.take(i as int).drop_last() =~= s.take(i - 1));
            assert(s.take(i as int).last() == s[i - 1]);
        }
        if buf[i - 1] == 0x5f {
            buf.set(i - 1, 0x2d);
            proof {
                assert(dash_last_underscore(s.take(i as int)) == s.take(i - 1).push(0x2d));
                assert(buf@ =~= s.take(i - 1).push(0x2d) + s.skip(i as int));
                assert(buf@ == dash_last_underscore(s));
            }
            return;
        }
        proof {
            assert(dash_last_underscore(s.take(i - 1)).push(s[i - 1]) + s.skip(i as int) =~= dash_last_underscore(
                s.take(i - 1),
            ) + s.skip(i - 1));
        }
        i = i - 1;
    }
    proof {
        assert(s.take(0) =~= Seq::<u8>::empty());
        assert(s.skip(0) =~= s);
    }
}

/// The name that `name` holds: the bytes themselves, or their punycode decoding.
pub open spec fn name_is(name: Name, body: Seq<u8>, puny: bool) -> bool {
    if puny {
        name matches Name::Owned(v) && punycode_of(dash_last_underscore(body)) == Some(v@)
    } else {
        name matches Name::Borrowed(x) && x.spec_bytes() == body
    }
}

/// An identifier without disambiguator read from the bytes `s` at offset `idx`: the header,
/// then exactly as many bytes as it says, ending on a character boundary; punycode ones must
/// decode.
pub open spec fn name_at<'a>(r: Result<(Name<'a>, IndexedStr<'a>), ()>, s: Seq<u8>, idx: int) -> bool {
    match ident_header(s) {
        Some((puny, n, h)) => {
            if h + n <= s.len() && is_char_boundary(s.subrange(h as int, s.len() as int), n as int) && (puny
                ==> punycode_of(dash_last_underscore(s.subrange(h as int, (h + n) as int))) is Some) {
                r matches Ok((name, rest)) && rest.lands(s, idx, (h + n) as int) && name_is(
                    name,
                    s.subrange(h as int, (h + n) as int),
                    puny,
                )
            } else {
                r is Err
            }
        },
        None => r is Err,
    }
}

/// An identifier read from the bytes `s` at offset `idx`: an optional disambiguator, counted
/// from 1, and a name.
pub open spec fn identifier_at<'a>(r: Result<(Identifier<'a>, IndexedStr<'a>), ()>, s: Seq<u8>, idx: int) -> bool {
    match opt_bumped(s, 0x73) {
        Some((d, k)) => match r {
            Ok((id, rest)) => id.disambiguator == d && name_at(
                Ok((id.name, rest)),
                s.subrange(k as int, s.len() as int),
                idx + k,
            ),
            Err(_) => name_at(Err(()), s.subrange(k as int, s.len() as int), idx + k),
        },
        None => r is Err,
    }
}

/// No identifier can be read from the bytes `s`.
pub open spec fn identifier_fails(s: Seq<u8>) -> bool {
    identifier_at(Err(()), s, 0)
}

pub fn parse_undisambiguated_identifier<'a>(input: IndexedStr<'a>) -> (r: Result<(Name<'a>, IndexedStr<'a>), ()>)
    requires
        input.end() <= usize::MAX,
    ensures
        name_at(r, input.bytes(), input.index as int),
        r matches Ok((_, rest)) ==> rest.is_suffix_of(input),
{
    let ghost s = input.bytes();
    let (puny, after_u) = match input.strip_prefix(0x75) {
        Some(rest) => (true, rest),
        None => (false, input),
    };
    proof {
        if puny {
            assert(after_u.bytes() =~= s.drop_first());
        } else {
            lemma_suffix_refl(input);
        }
    }
    let (n, after_len) = match parse_decimal_number(after_u, usize::MAX as u64) {
        Ok(x) => x,
        Err(_) => return Err(()),
    };
    let ghost k = taken(bounded_decimal(after_u.bytes(), usize::MAX as u64));
    let after_sep = match after_len.strip_prefix(0x5f) {
        Some(rest) => rest,
        None => {
            proof {
                lemma_suffix_refl(after_len);
            }
            after_len
        },
    };
    let ghost h = match ident_header(s) {
        Some((_, _, h)) => h,
        None => 0,
    };
    proof {
        let u: int = if puny { 1 } else { 0 };
        lemma_advance_trans(input, after_u, after_len, u, k as int);
        lemma_advance_trans(input, after_len, after_sep, u + k, after_sep.index - after_len.index);
        assert(after_sep.is_suffix_of(input));
        assert(after_sep.index == input.index + h);
        assert(after_sep.bytes() == s.subrange(h as int, s.len() as int));
    }
    let (name, rest) = match after_sep.split_at(n as usize) {
        Some(x) => x,
        None => return Err(()),
    };
    proof {
        lemma_advance_trans(input, after_sep, rest, h as int, n as int);
        assert(name.spec_bytes() =~= s.subrange(h as int, (h + n) as int));
    }
    if puny {
        let mut buffer = slice_to_vec(name.as_bytes());
        replace_last_underscore(&mut buffer);
        match decode_punycode(buffer.as_slice()) {
            Some(decoded) => Ok((Name::Owned(decoded), rest)),
            None => Err(()),
        }
    } else {
        Ok((Name::Borrowed(name), rest))
    }
}

/// An identifier: an optional disambiguator, counted from 1, and the name.
pub fn parse_identifier<'a>(input: IndexedStr<'a>) -> (r: Result<(Identifier<'a>, IndexedStr<'a>), ()>)
    requires
        input.end() <= usize::MAX,
    ensures
        identifier_at(r, input.bytes(), input.index as int),
        consumes(r, input),
{
    let parsed = parse_disambiguator(input);
    proof {
        lemma_bumped(parsed, input, 0x73);
    }
    let (disambiguator, rest) = match opt_u64(input, parsed) {
        Ok(x) => x,
        Err(_) => return Err(()),
    };
    let r = parse_undisambiguated_identifier(rest);
    proof {
        let k = taken(opt_bumped(input.bytes(), 0x73));
        assert(rest.is_advanced(input, k as int));
    }
    match r {
        Ok((name, after)) => {
            proof {
                lemma_advance_trans(input, rest, after, rest.index - input.index, after.index - rest.index);
            }
            Ok((Identifier { disambiguator, name }, after))
        },
        Err(_) => Err(()),
    }
}

} // verus!
