//! The input cursor: the text still to read, with its byte offset in the whole input.
use vstd::prelude::*;
use vstd::string::StringSliceAdditionalSpecFns;
use vstd::utf8::*;

verus! {

/// A position in the input: `data` is what is left to read and `index` is the byte offset
/// of its first byte in the whole input.
#[derive(Clone, Copy, Debug)]
pub struct IndexedStr<'a> {
    pub index: usize,
    pub data: &'a str,
}

/// The classes of bytes that the digit and name runs of the grammar are made of.
#[derive(Clone, Copy, Debug, PartialEq, Eq, Structural)]
pub enum ByteClass {
    Alphanumeric,
    LowerHex,
    Digit,
}

pub open spec fn in_class(class: ByteClass, b: u8) -> bool {
    match class {
        ByteClass::Alphanumeric => (0x30 <= b <= 0x39) || (0x61 <= b <= 0x7a) || (0x41 <= b <= 0x5a),
        ByteClass::LowerHex => (0x30 <= b <= 0x39) || (0x61 <= b <= 0x66),
        ByteClass::Digit => 0x30 <= b <= 0x39,
    }
}

/// The length of the longest prefix of `s` whose bytes all lie in `class`.
pub open spec fn run_len(class: ByteClass, s: Seq<u8>) -> nat
    decreases s.len(),
{
    if s.len() > 0 && in_class(class, s[0]) {
        1 + run_len(class, s.drop_first())
    } else {
        0
    }
}

pub proof fn lemma_run_len(class: ByteClass, s: Seq<u8>, d: int)
    requires
        0 <= d <= s.len(),
        forall|i: int| 0 <= i < d ==> in_class(class, #[trigger] s[i]),
        d == s.len() || !in_class(class, s[d]),
    ensures
        run_len(class, s) == d,
    decreases d,
{
    if d > 0 {
        let t = s.drop_first();
        assert forall|i: int| 0 <= i < d - 1 implies in_class(class, #[trigger] t[i]) by {
            assert(t[i] == s[i + 1]);
        }
        lemma_run_len(class, t, d - 1);
    }
}

/// A prefix of ASCII bytes of valid UTF-8 ends on a character boundary.
pub proof fn lemma_ascii_prefix_boundary(bytes: Seq<u8>, d: int)
    requires
        valid_utf8(bytes),
        0 <= d <= bytes.len(),
        forall|i: int| 0 <= i < d ==> #[trigger] bytes[i] < 0x80,
    ensures
        is_char_boundary(bytes, d),
    decreases d,
{
    if d > 0 {
        assert(bytes[0] < 0x80);
        assert(length_of_first_scalar(bytes) == 1);
        let t = pop_first_scalar(bytes);
        assert(t =~= bytes.subrange(1, bytes.len() as int));
        assert forall|i: int| 0 <= i < d - 1 implies #[trigger] t[i] < 0x80 by {
            assert(t[i] == bytes[i + 1]);
        }
        lemma_ascii_prefix_boundary(t, d - 1);
    }
}

impl<'a> IndexedStr<'a> {
    /// The bytes still to read.
    pub open spec fn bytes(self) -> Seq<u8> {
        self.data.spec_bytes()
    }

    /// The byte offset of the end of the input.
    pub open spec fn end(self) -> int {
        self.index + self.bytes().len()
    }

    /// `self` is what is left of the bytes `s`, which start at offset `idx`, once their first
    /// `k` bytes are consumed.
    pub open spec fn lands(self, s: Seq<u8>, idx: int, k: int) -> bool {
        &&& 0 <= k <= s.len()
        &&& self.index == idx + k
        &&& self.bytes() == s.subrange(k, s.len() as int)
    }

    /// `self` is `before` with its first `k` bytes consumed.
    pub open spec fn is_advanced(self, before: Self, k: int) -> bool {
        self.lands(before.bytes(), before.index as int, k)
    }

    /// `self` is what is left of `before` after some bytes were consumed.
    pub open spec fn is_suffix_of(self, before: Self) -> bool {
        self.is_advanced(before, self.index - before.index)
    }

    /// A cursor at the start of `data`.
    pub fn new(data: &'a str) -> (r: Self)
        ensures
            r.index == 0,
            r.data == data,
            r.end() <= usize::MAX,
    {
        // the length of a byte slice fits in `usize`
        let _len = data.as_bytes().len();
        IndexedStr { index: 0, data }
    }

    /// The number of leading bytes that lie in `class`.
    pub fn find(&self, class: ByteClass) -> (r: usize)
        requires
            self.end() <= usize::MAX,
        ensures
            r == run_len(class, self.bytes()),
    {
        let b = self.data.as_bytes();
        let mut i: usize = 0;
        while i < b.len() && byte_in_class(class, b[i])
            invariant
                b@ == self.bytes(),
                0 <= i <= b@.len(),
                forall|j: int| 0 <= j < i ==> in_class(class, #[trigger] b@[j]),
            decreases b@.len() - i,
        {
            i = i + 1;
        }
        proof {
            lemma_run_len(class, b@, i as int);
        }
        i
    }

    /// Splits off the first `n` bytes, where they end on a character boundary.
    pub fn split_at(self, n: usize) -> (r: Option<(&'a str, Self)>)
        requires
            self.end() <= usize::MAX,
        ensures
            r is Some <==> n <= self.bytes().len() && is_char_boundary(self.bytes(), n as int),
            r matches Some((p, rest)) ==> {
                &&& p.spec_bytes() == self.bytes().subrange(0, n as int)
                &&& rest.is_advanced(self, n as int)
                &&& rest.is_suffix_of(self)
            },
    {
        if n <= self.data.len() && self.data.is_char_boundary(n) {
            let (p, rest) = self.data.split_at(n);
            Some((p, IndexedStr { index: self.index + n, data: rest }))
        } else {
            None
        }
    }

    /// Splits off a prefix of `n` ASCII bytes.
    fn split_ascii(self, n: usize) -> (r: (&'a str, Self))
        requires
            self.end() <= usize::MAX,
            n <= self.bytes().len(),
            forall|i: int| 0 <= i < n ==> #[trigger] self.bytes()[i] < 0x80,
        ensures
            r.0.spec_bytes() == self.bytes().subrange(0, n as int),
            r.1.is_advanced(self, n as int),
            r.1.is_suffix_of(self),
    {
        proof {
            encode_utf8_valid_utf8(self.data@);
            lemma_ascii_prefix_boundary(self.bytes(), n as int);
        }
        let (p, rest) = self.data.split_at(n);
        (p, IndexedStr { index: self.index + n, data: rest })
    }

    /// Consumes the first byte, which is ASCII.
    pub fn skip_ascii(self) -> (r: Self)
        requires
            self.end() <= usize::MAX,
            self.bytes().len() > 0,
            self.bytes()[0] < 0x80,
        ensures
            r.is_advanced(self, 1),
            r.is_suffix_of(self),
    {
        self.split_ascii(1).1
    }

    /// The first byte, if any.
    pub fn first_byte(&self) -> (r: Option<u8>)
        ensures
            r is Some <==> self.bytes().len() > 0,
            r matches Some(b) ==> b == self.bytes()[0],
    {
        let b = self.data.as_bytes();
        if b.len() > 0 {
            Some(b[0])
        } else {
            None
        }
    }

    /// Consumes the ASCII byte `t` if the input starts with it.
    pub fn strip_prefix(self, t: u8) -> (r: Option<Self>)
        requires
            self.end() <= usize::MAX,
            t < 0x80,
        ensures
            r is Some <==> self.bytes().len() > 0 && self.bytes()[0] == t,
            r matches Some(rest) ==> rest.is_advanced(self, 1) && rest.is_suffix_of(self),
    {
        let b = self.data.as_bytes();
        if b.len() > 0 && b[0] == t {
            Some(self.split_ascii(1).1)
        } else {
            None
        }
    }

    /// Consumes the longest prefix of bytes in `class`.
    pub fn take_while(self, class: ByteClass) -> (r: (&'a str, Self))
        requires
            self.end() <= usize::MAX,
        ensures
            r.0.spec_bytes() == self.bytes().subrange(0, run_len(class, self.bytes()) as int),
            r.1.is_advanced(self, run_len(class, self.bytes()) as int),
            r.1.is_suffix_of(self),
    {
        let n = self.find(class);
        proof {
            lemma_run_prefix(class, self.bytes());
        }
        self.split_ascii(n)
    }
}

/// The bytes of a run are all in their class and so ASCII, and the run stops at the first
/// byte outside the class.
pub proof fn lemma_run_prefix(class: ByteClass, s: Seq<u8>)
    ensures
        run_len(class, s) <= s.len(),
        forall|i: int| 0 <= i < run_len(class, s) ==> in_class(class, #[trigger] s[i]) && s[i] < 0x80,
        run_len(class, s) < s.len() ==> !in_class(class, s[run_len(class, s) as int]),
    decreases s.len(),
{
    if s.len() > 0 && in_class(class, s[0]) {
        let t = s.drop_first();
        lemma_run_prefix(class, t);
        assert forall|i: int| 0 <= i < run_len(class, s) implies in_class(class, #[trigger] s[i]) && s[i]
            < 0x80 by {
            if i > 0 {
                assert(s[i] == t[i - 1]);
            }
        }
        if run_len(class, s) < s.len() {
            assert(s[run_len(class, s) as int] == t[run_len(class, t) as int]);
        }
    }
}

fn byte_in_class(class: ByteClass, b: u8) -> (r: bool)
    ensures
        r == in_class(class, b),
{
    match class {
        ByteClass::Alphanumeric => (0x30 <= b && b <= 0x39) || (0x61 <= b && b <= 0x7a) || (0x41 <= b && b <= 0x5a),
        ByteClass::LowerHex => (0x30 <= b && b <= 0x39) || (0x61 <= b && b <= 0x66),
        ByteClass::Digit => 0x30 <= b && b <= 0x39,
    }
}

} // verus!

verus! {

/// Consuming `k1` bytes and then `k2` more consumes `k1 + k2`.
pub proof fn lemma_advance_trans<'a>(a: IndexedStr<'a>, b: IndexedStr<'a>, c: IndexedStr<'a>, k1: int, k2: int)
    requires
        b.is_advanced(a, k1),
        c.is_advanced(b, k2),
    ensures
        c.is_advanced(a, k1 + k2),
{
    assert(c.bytes() =~= a.bytes().subrange(k1 + k2, a.bytes().len() as int));
}

} // verus!

verus! {

/// What is left after consuming from what is left is left of the start.
pub broadcast proof fn lemma_suffix_trans<'a>(a: IndexedStr<'a>, b: IndexedStr<'a>, c: IndexedStr<'a>)
    ensures
        #![trigger b.is_suffix_of(a), c.is_suffix_of(b)]
        b.is_suffix_of(a) && c.is_suffix_of(b) ==> c.is_suffix_of(a),
{
    if b.is_suffix_of(a) && c.is_suffix_of(b) {
        lemma_advance_trans(a, b, c, b.index - a.index, c.index - b.index);
    }
}

/// Consuming nothing leaves the cursor as it was.
pub proof fn lemma_suffix_refl<'a>(a: IndexedStr<'a>)
    ensures
        a.is_suffix_of(a),
{
    assert(a.bytes() =~= a.bytes().subrange(0, a.bytes().len() as int));
}

} // verus!

verus! {

/// Parses zero or more ASCII alphanumeric characters.
pub struct Alphanumeric0;

impl Alphanumeric0 {
    pub fn parse<'a, C>(&mut self, input: IndexedStr<'a>, context: &mut C) -> (r: Result<(&'a str, IndexedStr<'a>), ()>)
        requires
            input.end() <= usize::MAX,
        ensures
            r matches Ok((p, rest)) && p.spec_bytes() == input.bytes().subrange(
                0,
                run_len(ByteClass::Alphanumeric, input.bytes()) as int,
            ) && rest.is_advanced(input, run_len(ByteClass::Alphanumeric, input.bytes()) as int),
            *final(context) == *old(context),
    {
        Ok(input.take_while(ByteClass::Alphanumeric))
    }
}

/// The longest run of ASCII alphanumeric characters at the start of the input; it never fails.
pub fn alphanumeric0<'a, C>(input: IndexedStr<'a>, context: &mut C) -> (r: Result<(&'a str, IndexedStr<'a>), ()>)
    requires
        input.end() <= usize::MAX,
    ensures
        r matches Ok((p, rest)) && p.spec_bytes() == input.bytes().subrange(
            0,
            run_len(ByteClass::Alphanumeric, input.bytes()) as int,
        ) && rest.is_advanced(input, run_len(ByteClass::Alphanumeric, input.bytes()) as int),
        *final(context) == *old(context),
{
    Alphanumeric0.parse(input, context)
}

} // verus!
