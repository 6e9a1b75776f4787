//! Properties of the grammar that hold for every input.
use std::rc::Rc;
use vstd::prelude::*;
use crate::grammar::resolves;
use crate::input::{in_class, lemma_run_len, lemma_run_prefix, run_len, ByteClass, IndexedStr};
use crate::numbers::{base62_number, bounded_decimal, const_str, decimal_number, radix_value, taken};
use crate::parsers::{back_ref, ident_header, opt_bumped, opt_plain, kept_below, tagged_base62};

verus! {

/// Two back-references to the same offset, resolved against the same table, give the same
/// node.
pub proof fn lemma_back_refs_agree<'a, T>(
    r1: Result<(Rc<T>, IndexedStr<'a>), ()>,
    r2: Result<(Rc<T>, IndexedStr<'a>), ()>,
    in1: IndexedStr<'a>,
    in2: IndexedStr<'a>,
    table: Seq<Option<Rc<T>>>,
    k: usize,
)
    requires
        resolves(r1, in1, table),
        resolves(r2, in2, table),
        back_ref(in1.bytes()) matches Some((k1, _)) && k1 == k,
        back_ref(in2.bytes()) matches Some((k2, _)) && k2 == k,
    ensures
        r1 is Ok <==> r2 is Ok,
        r1 matches Ok((v1, _)) ==> r2 matches Ok((v2, _)) && v1 == v2,
{
}

/// A node recorded at offset `k` is what a back-reference to `k` resolves to.
pub proof fn lemma_recorded_node_resolves<'a, T>(
    r: Result<(Rc<T>, IndexedStr<'a>), ()>,
    input: IndexedStr<'a>,
    table: Seq<Option<Rc<T>>>,
    node: Rc<T>,
    k: usize,
)
    requires
        back_ref(input.bytes()) matches Some((k1, _)) && k1 == k,
        k < table.len(),
        table[k as int] == Some(node),
        resolves(r, input, table),
    ensures
        r matches Ok((v, _)) && v == node,
{
}

/// A node recorded at offset `k` keeps its value while later productions, which start after
/// `k`, run; so a later back-reference to `k` resolves to that same node.
pub proof fn lemma_recorded_offset_stays_reachable<'a, T>(
    before: Seq<Option<Rc<T>>>,
    after: Seq<Option<Rc<T>>>,
    k: usize,
    later_start: int,
    r: Result<(Rc<T>, IndexedStr<'a>), ()>,
    input: IndexedStr<'a>,
)
    requires
        k < before.len(),
        k < later_start,
        before[k as int] is Some,
        after.len() == before.len(),
        kept_below(before, after, later_start),
        back_ref(input.bytes()) matches Some((k1, _)) && k1 == k,
        resolves(r, input, after),
    ensures
        r matches Ok((v, _)) && before[k as int] == Some(v),
{
    assert(after[k as int] == before[k as int]);
}

/// An empty run of base-62 digits closed by `_` is the number 0.
pub proof fn lemma_base62_empty_is_zero(s: Seq<u8>)
    requires
        s.len() > 0,
        s[0] == 0x5f,
    ensures
        base62_number(s) == Some((0u64, 1nat)),
{
    assert(run_len(ByteClass::Alphanumeric, s) == 0);
}

/// An absent optional number counts as 0; one present with the value 0 counts as 1.
pub proof fn lemma_opt_bumped(s: Seq<u8>, t: u8)
    ensures
        tagged_base62(s, t) is None ==> opt_bumped(s, t) == Some((0u64, 0nat)),
        tagged_base62(s, t) matches Some((v, k)) ==> (v == 0 ==> opt_bumped(s, t) == Some((1u64, k))),
{
}

/// An absent lifetime of a reference counts as 0, with no bump.
pub proof fn lemma_ref_lifetime_absent(s: Seq<u8>)
    requires
        s.len() == 0 || s[0] != 0x4c,
    ensures
        opt_plain(s, 0x4c) == (0u64, 0nat),
{
}

/// A string constant with an odd number of hex digits is refused.
pub proof fn lemma_odd_const_str_refused(s: Seq<u8>)
    requires
        run_len(ByteClass::LowerHex, s) % 2 == 1,
    ensures
        const_str(s) is None,
{
}

/// The length `0` not followed by `_` makes an identifier of no bytes that takes one byte.
pub proof fn lemma_zero_length_identifier(s: Seq<u8>)
    requires
        s.len() > 0,
        s[0] == 0x30,
        s.len() == 1 || s[1] != 0x5f,
    ensures
        ident_header(s) == Some((false, 0nat, 1nat)),
{
    assert(decimal_number(s) == Some((0nat, 1nat)));
    assert(bounded_decimal(s, usize::MAX as u64) == Some((0u64, 1nat)));
}

/// A base-62 number whose digits are worth `u64::MAX` or more overflows once one is added,
/// and is refused.
pub proof fn lemma_base62_overflow(s: Seq<u8>)
    requires
        run_len(ByteClass::Alphanumeric, s) > 0,
        radix_value(s.take(run_len(ByteClass::Alphanumeric, s) as int), 62) >= u64::MAX,
    ensures
        base62_number(s) is None,
{
}

/// A base-62 number cut short anywhere before its closing `_` is refused.
pub proof fn lemma_base62_truncated_fails(s: Seq<u8>, m: int)
    requires
        base62_number(s) is Some,
        0 <= m < taken(base62_number(s)),
    ensures
        base62_number(s.take(m)) is None,
{
    lemma_run_prefix(ByteClass::Alphanumeric, s);
    let t = s.take(m);
    assert forall|i: int| 0 <= i < m implies in_class(ByteClass::Alphanumeric, #[trigger] t[i]) by {
        assert(t[i] == s[i]);
    }
    lemma_run_len(ByteClass::Alphanumeric, t, m);
}

} // verus!
