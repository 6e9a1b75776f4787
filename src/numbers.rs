//! The numbers of the grammar: decimal lengths, base-62 indices and lower-hex constants.
use vstd::prelude::*;
use vstd::string::StringSliceAdditionalSpecFns;
use crate::input::{alphanumeric0, in_class, lemma_advance_trans, lemma_run_prefix, run_len, ByteClass, IndexedStr};

verus! {

/// `r` is the outcome that `expected` describes for `input`: the value and the number of bytes
/// consumed, or a failure.
pub open spec fn yields<'a, T>(
    r: Result<(T, IndexedStr<'a>), ()>,
    input: IndexedStr<'a>,
    expected: Option<(T, nat)>,
) -> bool {
    match expected {
        Some((v, k)) => r matches Ok((x, rest)) && x == v && rest.is_advanced(input, k as int)
            && rest.is_suffix_of(input),
        None => r is Err,
    }
}

/// The number of bytes that a parse described by `o` takes.
pub open spec fn taken<T>(o: Option<(T, nat)>) -> nat {
    match o {
        Some((_, k)) => k,
        None => 0,
    }
}

/// The value of one digit: `0`-`9`, then `a`-`z`, then `A`-`Z`.
pub open spec fn digit_value(b: u8) -> nat {
    if 0x30 <= b <= 0x39 {
        (b - 0x30) as nat
    } else if 0x61 <= b <= 0x7a {
        (b - 0x61 + 10) as nat
    } else {
        (b - 0x41 + 36) as nat
    }
}

/// The value of a run of digits in base `radix`, most significant first.
pub open spec fn radix_value(s: Seq<u8>, radix: nat) -> nat
    decreases s.len(),
{
    if s.len() == 0 {
        0
    } else {
        radix_value(s.drop_last(), radix) * radix + digit_value(s.last())
    }
}

proof fn lemma_radix_prefix_le(s: Seq<u8>, radix: nat, i: int)
    requires
        radix >= 1,
        0 <= i <= s.len(),
    ensures
        radix_value(s.take(i), radix) <= radix_value(s, radix),
    decreases s.len(),
{
    if i < s.len() {
        assert(s.take(i) =~= s.drop_last().take(i));
        lemma_radix_prefix_le(s.drop_last(), radix, i);
        let v = radix_value(s.drop_last(), radix);
        assert(v * radix >= v) by (nonlinear_arith)
            requires
                radix >= 1,
        ;
    } else {
        assert(s.take(i) =~= s);
    }
}

fn digit_of(b: u8) -> (r: u8)
    requires
        in_class(ByteClass::Alphanumeric, b),
    ensures
        r == digit_value(b),
{
    if 0x30 <= b && b <= 0x39 {
        b - 0x30
    } else if 0x61 <= b && b <= 0x7a {
        b - 0x61 + 10
    } else {
        b - 0x41 + 36
    }
}

/// The value of the alphanumeric run `digits` in base `radix`, where it is at most `max`.
fn value_of_digits(digits: &str, radix: u8, max: u128) -> (r: Option<u128>)
    requires
        radix >= 1,
        forall|i: int|
            0 <= i < digits.spec_bytes().len() ==> in_class(
                ByteClass::Alphanumeric,
                #[trigger] digits.spec_bytes()[i],
            ),
    ensures
        r is Some <==> radix_value(digits.spec_bytes(), radix as nat) <= max,
        r matches Some(v) ==> v == radix_value(digits.spec_bytes(), radix as nat),
{
    let b = digits.as_bytes();
    let mut v: u128 = 0;
    let mut i: usize = 0;
    while i < b.len()
        invariant
            b@ == digits.spec_bytes(),
            0 <= i <= b@.len(),
            radix >= 1,
            v == radix_value(b@.take(i as int), radix as nat),
            v <= max,
            forall|j: int| 0 <= j < b@.len() ==> in_class(ByteClass::Alphanumeric, #[trigger] b@[j]),
        decreases b@.len() - i,
    {
        let d = digit_of(b[i]);
        proof {
            assert(b@.take(i + 1).drop_last() =~= b@.take(i as int));
            lemma_radix_prefix_le(b@, radix as nat, i + 1);
        }
        let next = match v.checked_mul(radix as u128) {
            Some(m) => m.checked_add(d as u128),
            None => None,
        };
        match next {
            Some(n) => {
                if n > max {
                    return None;
                }
                v = n;
            },
            None => {
                proof {
                    assert(v * radix >= v) by (nonlinear_arith)
                        requires
                            radix >= 1,
                    ;
                }
                return None;
            },
        }
        i = i + 1;
    }
    proof {
        assert(b@.take(i as int) =~= b@);
    }
    Some(v)
}

/// A base-62 number: a run of alphanumeric digits closed by `_`. The empty run is 0, any
/// other run is its value plus one. Gives the number and the bytes it takes.
pub open spec fn base62_number(s: Seq<u8>) -> Option<(u64, nat)> {
    let d = run_len(ByteClass::Alphanumeric, s);
    if d < s.len() && s[d as int] == 0x5f {
        if d == 0 {
            Some((0, 1))
        } else if radix_value(s.take(d as int), 62) + 1 <= u64::MAX {
            Some(((radix_value(s.take(d as int), 62) + 1) as u64, d + 1))
        } else {
            None
        }
    } else {
        None
    }
}

pub fn parse_base62_number<'a>(input: IndexedStr<'a>) -> (r: Result<(u64, IndexedStr<'a>), ()>)
    requires
        input.end() <= usize::MAX,
    ensures
        yields(r, input, base62_number(input.bytes())),
{
    let (num, rest) = match alphanumeric0(input, &mut ()) {
        Ok(x) => x,
        Err(_) => return Err(()),
    };
    proof {
        lemma_run_prefix(ByteClass::Alphanumeric, input.bytes());
    }
    let d = Ghost(run_len(ByteClass::Alphanumeric, input.bytes()) as int);
    let after = match rest.strip_prefix(0x5f) {
        Some(after) => after,
        None => return Err(()),
    };
    proof {
        lemma_advance_trans(input, rest, after, d@, 1);
        assert(num.spec_bytes() =~= input.bytes().take(d@));
    }
    let rest = after;
    if num.len() == 0 {
        return Ok((0, rest));
    }
    match value_of_digits(num, 62, (u64::MAX - 1) as u128) {
        Some(v) => Ok(((v + 1) as u64, rest)),
        None => Err(()),
    }
}

/// A decimal number: the single digit `0`, or a run of digits that does not start with `0`.
/// Gives the value and the bytes it takes.
pub open spec fn decimal_number(s: Seq<u8>) -> Option<(nat, nat)> {
    if s.len() > 0 && s[0] == 0x30 {
        Some((0, 1))
    } else {
        let d = run_len(ByteClass::Digit, s);
        if d > 0 {
            Some((radix_value(s.take(d as int), 10), d))
        } else {
            None
        }
    }
}

/// A decimal number at most `max`.
pub open spec fn bounded_decimal(s: Seq<u8>, max: u64) -> Option<(u64, nat)> {
    match decimal_number(s) {
        Some((v, k)) => if v <= max {
            Some((v as u64, k))
        } else {
            None
        },
        None => None,
    }
}

pub fn parse_decimal_number<'a>(input: IndexedStr<'a>, max: u64) -> (r: Result<(u64, IndexedStr<'a>), ()>)
    requires
        input.end() <= usize::MAX,
    ensures
        yields(r, input, bounded_decimal(input.bytes(), max)),
{
    if let Some(rest) = input.strip_prefix(0x30) {
        return Ok((0, rest));
    }
    let (num, rest) = input.take_while(ByteClass::Digit);
    proof {
        lemma_run_prefix(ByteClass::Digit, input.bytes());
        assert(num.spec_bytes() =~= input.bytes().take(run_len(ByteClass::Digit, input.bytes()) as int));
    }
    if num.len() == 0 {
        return Err(());
    }
    match value_of_digits(num, 10, max as u128) {
        Some(v) => Ok((v as u64, rest)),
        None => Err(()),
    }
}

/// A constant integer: an optional `n` for a negative sign, a non-empty run of lower-hex
/// digits and `_`. Gives the sign, the magnitude and the bytes it takes.
pub open spec fn const_int(s: Seq<u8>) -> Option<(bool, nat, nat)> {
    let neg = s.len() > 0 && s[0] == 0x6e;
    let t = if neg {
        s.drop_first()
    } else {
        s
    };
    let d = run_len(ByteClass::LowerHex, t);
    if d > 0 && d < t.len() && t[d as int] == 0x5f {
        Some((neg, radix_value(t.take(d as int), 16), (if neg { 1nat } else { 0nat }) + d + 1))
    } else {
        None
    }
}

/// The value of a signed magnitude in the range `min..=max`: the magnitude must fit `max`
/// before the sign is applied.
pub open spec fn fit_int(neg: bool, mag: nat, min: int, max: int) -> Option<int> {
    if mag <= max && (neg ==> -mag >= min) {
        Some(if neg { -mag } else { mag as int })
    } else {
        None
    }
}

/// A constant integer of the type whose largest value is `max`, signed or not: the magnitude
/// must fit `max` and, for a negative value, its negation must fit the type.
pub open spec fn fitting_const_int(s: Seq<u8>, signed: bool, max: u128) -> Option<((bool, u128), nat)> {
    match const_int(s) {
        Some((neg, mag, k)) => if fit_int(neg, mag, if signed { -max - 1 } else { 0 }, max as int) is Some {
            Some(((neg, mag as u128), k))
        } else {
            None
        },
        None => None,
    }
}

/// Parses a constant integer of the type whose largest value is `max`, signed or not. Gives its
/// sign and magnitude.
pub fn parse_const_int<'a>(input: IndexedStr<'a>, signed: bool, max: u128) -> (r: Result<((bool, u128), IndexedStr<'a>), ()>)
    requires
        input.end() <= usize::MAX,
        signed ==> max <= i128::MAX,
    ensures
        yields(r, input, fitting_const_int(input.bytes(), signed, max)),
{
    let (neg, after_sign) = match input.strip_prefix(0x6e) {
        Some(rest) => (true, rest),
        None => (false, input),
    };
    proof {
        if neg {
            assert(after_sign.bytes() =~= input.bytes().drop_first());
        }
    }
    let (digits, rest) = after_sign.take_while(ByteClass::LowerHex);
    proof {
        lemma_run_prefix(ByteClass::LowerHex, after_sign.bytes());
        assert forall|i: int| 0 <= i < digits.spec_bytes().len() implies in_class(
            ByteClass::Alphanumeric,
            #[trigger] digits.spec_bytes()[i],
        ) by {
            assert(in_class(ByteClass::LowerHex, after_sign.bytes()[i]));
        }
    }
    if digits.len() == 0 {
        return Err(());
    }
    let d = Ghost(run_len(ByteClass::LowerHex, after_sign.bytes()) as int);
    let after = match rest.strip_prefix(0x5f) {
        Some(after) => after,
        None => return Err(()),
    };
    proof {
        lemma_advance_trans(after_sign, rest, after, d@, 1);
        if neg {
            lemma_advance_trans(input, after_sign, after, 1, d@ + 1);
        }
        assert(digits.spec_bytes() =~= after_sign.bytes().take(d@));
    }
    let rest = after;
    match value_of_digits(digits, 16, max) {
        Some(v) => if neg && !signed && v != 0 {
            Err(())
        } else {
            Ok(((neg, v), rest))
        },
        None => Err(()),
    }
}

/// A string constant: a run of lower-hex digits of even length, closed by `_`. Gives the
/// number of digits.
pub open spec fn const_str(s: Seq<u8>) -> Option<nat> {
    let d = run_len(ByteClass::LowerHex, s);
    if d < s.len() && s[d as int] == 0x5f && d % 2 == 0 {
        Some(d)
    } else {
        None
    }
}

/// Parses the hex digits of a string constant; they are not decoded.
pub fn parse_const_str<'a>(input: IndexedStr<'a>) -> (r: Result<(&'a str, IndexedStr<'a>), ()>)
    requires
        input.end() <= usize::MAX,
    ensures
        r is Ok <==> const_str(input.bytes()) is Some,
        r matches Ok((s, rest)) ==> {
            &&& s.spec_bytes() == input.bytes().subrange(0, const_str(input.bytes())->0 as int)
            &&& rest.is_advanced(input, const_str(input.bytes())->0 + 1int)
            &&& rest.is_suffix_of(input)
        },
{
    let (digits, rest) = input.take_while(ByteClass::LowerHex);
    proof {
        lemma_run_prefix(ByteClass::LowerHex, input.bytes());
    }
    let d = Ghost(run_len(ByteClass::LowerHex, input.bytes()) as int);
    let after = match rest.strip_prefix(0x5f) {
        Some(after) => after,
        None => return Err(()),
    };
    proof {
        lemma_advance_trans(input, rest, after, d@, 1);
    }
    let rest = after;
    if digits.len() % 2 == 0 {
        Ok((digits, rest))
    } else {
        Err(())
    }
}

} // verus!
