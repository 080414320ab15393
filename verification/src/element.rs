//! What a replicated container asks of the values it stores: equality, a
//! strict total order, a copy, and a wire encoding that can be read back.
//!
//! The encoding is the one that bincode gives with its default settings:
//! numbers as eight bytes, low byte first; text as the number of its UTF-8
//! bytes and then the bytes; a pair as its parts one after the other.

use crate::text::{
    lemma_bytes_lt_irreflexive, lemma_bytes_lt_total, lemma_bytes_lt_transitive,
    lemma_utf8_injective, string_from_utf8, text_less, text_lt,
};
use vstd::bytes::*;
use vstd::prelude::*;
use vstd::slice::*;
use vstd::string::*;
use vstd::utf8::*;

verus! {

/// The capabilities of a stored value. Everything is stated over the value's
/// deep view, so two values with the same view are the same element.
pub trait Element: DeepView + Sized {
    /// The strict total order that ties are broken by.
    spec fn lt(a: Self::V, b: Self::V) -> bool;

    /// Whether the value's length fields fit the wire encoding.
    spec fn encodable(v: Self::V) -> bool;

    /// The wire encoding of a value.
    spec fn encoding(v: Self::V) -> Seq<u8>;

    /// The value that a buffer starts with and the number of bytes it takes,
    /// or `None` where the buffer starts with no encoding.
    spec fn parse(s: Seq<u8>) -> Option<(Self::V, int)>;

    proof fn lemma_lt_irreflexive(a: Self::V)
        ensures
            !Self::lt(a, a),
    ;

    proof fn lemma_lt_transitive(a: Self::V, b: Self::V, c: Self::V)
        ensures
            Self::lt(a, b) && Self::lt(b, c) ==> Self::lt(a, c),
    ;

    proof fn lemma_lt_total(a: Self::V, b: Self::V)
        ensures
            Self::lt(a, b) || a == b || Self::lt(b, a),
    ;

    /// Reading an encoding back gives the value, whatever follows it.
    proof fn lemma_parse_encoding(v: Self::V, rest: Seq<u8>)
        requires
            Self::encodable(v),
        ensures
            Self::parse(Self::encoding(v) + rest) == Some((v, Self::encoding(v).len() as int)),
    ;

    /// Whether two values are the same element.
    fn same(&self, other: &Self) -> (r: bool)
        ensures
            r == (self.deep_view() == other.deep_view()),
    ;

    /// Whether `self` comes strictly before `other`.
    fn less(&self, other: &Self) -> (r: bool)
        ensures
            r == Self::lt(self.deep_view(), other.deep_view()),
    ;

    /// A copy of the value.
    fn duplicate(&self) -> (r: Self)
        ensures
            r.deep_view() == self.deep_view(),
    ;

    /// Appends the value's encoding to `out`.
    fn encode(&self, out: &mut Vec<u8>)
        ensures
            Self::encodable(self.deep_view()),
            final(out)@ == old(out)@ + Self::encoding(self.deep_view()),
    ;

    /// Reads the value that starts at `start`, and says where it ends.
    fn decode(bytes: &[u8], start: usize) -> (r: Option<(Self, usize)>)
        requires
            start <= bytes@.len(),
        ensures
            match Self::parse(bytes@.skip(start as int)) {
                Some((v, n)) => r matches Some((x, end)) && x.deep_view() == v && end == start + n
                    && start <= end <= bytes@.len(),
                None => r is None,
            },
    ;
}

/// A 64-bit word as the buffer holds it, if eight bytes are there.
pub open spec fn parse_word(s: Seq<u8>) -> Option<(u64, int)> {
    if s.len() < 8 {
        None
    } else {
        Some((spec_u64_from_le_bytes(s.subrange(0, 8)), 8))
    }
}

/// Reading a word back gives the word.
pub proof fn lemma_parse_word(v: u64, rest: Seq<u8>)
    ensures
        spec_u64_to_le_bytes(v).len() == 8,
        parse_word(spec_u64_to_le_bytes(v) + rest) == Some((v, 8int)),
{
    lemma_auto_spec_u64_to_from_le_bytes();
    let s = spec_u64_to_le_bytes(v) + rest;
    assert(s.subrange(0, 8) =~= spec_u64_to_le_bytes(v));
}

/// Appends a 64-bit word, low byte first.
pub fn put_word(v: u64, out: &mut Vec<u8>)
    ensures
        final(out)@ == old(out)@ + spec_u64_to_le_bytes(v),
{
    let mut word = u64_to_le_bytes(v);
    out.append(&mut word);
}

/// Reads the 64-bit word that starts at `start`.
pub fn get_word(bytes: &[u8], start: usize) -> (r: Option<(u64, usize)>)
    requires
        start <= bytes@.len(),
    ensures
        match parse_word(bytes@.skip(start as int)) {
            Some((v, n)) => r matches Some((x, end)) && x == v && end == start + n && start <= end
                <= bytes@.len(),
            None => r is None,
        },
{
    if bytes.len() - start < 8 {
        return None;
    }
    let field = slice_subrange(bytes, start, start + 8);
    proof {
        assert(bytes@.skip(start as int).subrange(0, 8) =~= field@);
    }
    Some((u64_from_le_bytes(field), start + 8))
}

impl Element for u64 {
    open spec fn lt(a: u64, b: u64) -> bool {
        a < b
    }

    open spec fn encodable(v: u64) -> bool {
        true
    }

    open spec fn encoding(v: u64) -> Seq<u8> {
        spec_u64_to_le_bytes(v)
    }

    open spec fn parse(s: Seq<u8>) -> Option<(u64, int)> {
        parse_word(s)
    }

    proof fn lemma_lt_irreflexive(a: u64) {
    }

    proof fn lemma_lt_transitive(a: u64, b: u64, c: u64) {
    }

    proof fn lemma_lt_total(a: u64, b: u64) {
    }

    proof fn lemma_parse_encoding(v: u64, rest: Seq<u8>) {
        lemma_parse_word(v, rest);
    }

    fn same(&self, other: &Self) -> (r: bool) {
        *self == *other
    }

    fn less(&self, other: &Self) -> (r: bool) {
        *self < *other
    }

    fn duplicate(&self) -> (r: Self) {
        *self
    }

    fn encode(&self, out: &mut Vec<u8>) {
        put_word(*self, out);
    }

    fn decode(bytes: &[u8], start: usize) -> (r: Option<(Self, usize)>) {
        get_word(bytes, start)
    }
}

/// The word that stands for a signed number, in two's complement: the
/// number itself where it is not negative, the number raised by 2^64 where
/// it is.
pub open spec fn signed_to_word(v: i64) -> u64 {
    if v >= 0 {
        v as u64
    } else {
        (v + 0x1_0000_0000_0000_0000) as u64
    }
}

/// The signed number that a word stands for.
pub open spec fn word_to_signed(w: u64) -> i64 {
    if w < 0x8000_0000_0000_0000 {
        w as i64
    } else {
        (w - 0x1_0000_0000_0000_0000) as i64
    }
}

impl Element for i64 {
    open spec fn lt(a: i64, b: i64) -> bool {
        a < b
    }

    open spec fn encodable(v: i64) -> bool {
        true
    }

    open spec fn encoding(v: i64) -> Seq<u8> {
        spec_u64_to_le_bytes(signed_to_word(v))
    }

    open spec fn parse(s: Seq<u8>) -> Option<(i64, int)> {
        match parse_word(s) {
            Some((w, n)) => Some((word_to_signed(w), n)),
            None => None,
        }
    }

    proof fn lemma_lt_irreflexive(a: i64) {
    }

    proof fn lemma_lt_transitive(a: i64, b: i64, c: i64) {
    }

    proof fn lemma_lt_total(a: i64, b: i64) {
    }

    proof fn lemma_parse_encoding(v: i64, rest: Seq<u8>) {
        lemma_parse_word(signed_to_word(v), rest);
    }

    fn same(&self, other: &Self) -> (r: bool) {
        *self == *other
    }

    fn less(&self, other: &Self) -> (r: bool) {
        *self < *other
    }

    fn duplicate(&self) -> (r: Self) {
        *self
    }

    fn encode(&self, out: &mut Vec<u8>) {
        let word: u64 = if *self >= 0 {
            *self as u64
        } else {
            (*self as i128 + 0x1_0000_0000_0000_0000i128) as u64
        };
        put_word(word, out);
    }

    fn decode(bytes: &[u8], start: usize) -> (r: Option<(Self, usize)>) {
        match get_word(bytes, start) {
            Some((w, end)) => {
                let value: i64 = if w < 0x8000_0000_0000_0000 {
                    w as i64
                } else {
                    (w as i128 - 0x1_0000_0000_0000_0000i128) as i64
                };
                Some((value, end))
            },
            None => None,
        }
    }
}

impl Element for () {
    open spec fn lt(a: (), b: ()) -> bool {
        false
    }

    open spec fn encodable(v: ()) -> bool {
        true
    }

    open spec fn encoding(v: ()) -> Seq<u8> {
        Seq::empty()
    }

    open spec fn parse(s: Seq<u8>) -> Option<((), int)> {
        Some(((), 0))
    }

    proof fn lemma_lt_irreflexive(a: ()) {
    }

    proof fn lemma_lt_transitive(a: (), b: (), c: ()) {
    }

    proof fn lemma_lt_total(a: (), b: ()) {
    }

    proof fn lemma_parse_encoding(v: (), rest: Seq<u8>) {
    }

    fn same(&self, other: &Self) -> (r: bool) {
        true
    }

    fn less(&self, other: &Self) -> (r: bool) {
        false
    }

    fn duplicate(&self) -> (r: Self) {
        ()
    }

    fn encode(&self, out: &mut Vec<u8>) {
        proof {
            assert(out@ + Seq::<u8>::empty() =~= out@);
        }
    }

    fn decode(bytes: &[u8], start: usize) -> (r: Option<(Self, usize)>) {
        Some(((), start))
    }
}

/// Text on the wire: the number of its UTF-8 bytes as a word, then the bytes.
pub open spec fn text_encoding(v: Seq<char>) -> Seq<u8> {
    spec_u64_to_le_bytes(encode_utf8(v).len() as u64) + encode_utf8(v)
}

/// The text that a buffer starts with.
pub open spec fn parse_text(s: Seq<u8>) -> Option<(Seq<char>, int)> {
    match parse_word(s) {
        Some((n, _)) => {
            if s.len() - 8 < n {
                None
            } else if valid_utf8(s.subrange(8, 8 + n)) {
                Some((decode_utf8(s.subrange(8, 8 + n)), 8 + n))
            } else {
                None
            }
        },
        None => None,
    }
}

impl Element for String {
    open spec fn lt(a: Seq<char>, b: Seq<char>) -> bool {
        text_lt(a, b)
    }

    open spec fn encodable(v: Seq<char>) -> bool {
        encode_utf8(v).len() <= u64::MAX
    }

    open spec fn encoding(v: Seq<char>) -> Seq<u8> {
        text_encoding(v)
    }

    open spec fn parse(s: Seq<u8>) -> Option<(Seq<char>, int)> {
        parse_text(s)
    }

    proof fn lemma_lt_irreflexive(a: Seq<char>) {
        lemma_bytes_lt_irreflexive(encode_utf8(a));
    }

    proof fn lemma_lt_transitive(a: Seq<char>, b: Seq<char>, c: Seq<char>) {
        if text_lt(a, b) && text_lt(b, c) {
            lemma_bytes_lt_transitive(encode_utf8(a), encode_utf8(b), encode_utf8(c));
        }
    }

    proof fn lemma_lt_total(a: Seq<char>, b: Seq<char>) {
        lemma_bytes_lt_total(encode_utf8(a), encode_utf8(b));
        if encode_utf8(a) == encode_utf8(b) {
            lemma_utf8_injective(a, b);
        }
    }

    proof fn lemma_parse_encoding(v: Seq<char>, rest: Seq<u8>) {
        let raw = encode_utf8(v);
        let head = spec_u64_to_le_bytes(raw.len() as u64);
        let s = text_encoding(v) + rest;
        lemma_parse_word(raw.len() as u64, raw + rest);
        assert(s =~= head + (raw + rest));
        assert(s.subrange(8, 8 + raw.len() as int) =~= raw);
        encode_utf8_valid_utf8(v);
        encode_utf8_decode_utf8(v);
    }

    fn same(&self, other: &Self) -> (r: bool) {
        *self == *other
    }

    fn less(&self, other: &Self) -> (r: bool) {
        text_less(self.as_str(), other.as_str())
    }

    fn duplicate(&self) -> (r: Self) {
        self.clone()
    }

    fn encode(&self, out: &mut Vec<u8>) {
        let raw = self.as_str().as_bytes();
        put_word(raw.len() as u64, out);
        let mut body = slice_to_vec(raw);
        out.append(&mut body);
        proof {
            let head = spec_u64_to_le_bytes(raw@.len() as u64);
            assert(old(out)@ + head + raw@ =~= old(out)@ + (head + raw@));
        }
    }

    fn decode(bytes: &[u8], start: usize) -> (r: Option<(Self, usize)>) {
        let (n, body) = match get_word(bytes, start) {
            Some(field) => field,
            None => { return None; },
        };
        if n > (bytes.len() - body) as u64 {
            return None;
        }
        let end = body + n as usize;
        let raw = slice_to_vec(slice_subrange(bytes, body, end));
        proof {
            let s = bytes@.skip(start as int);
            assert(s.subrange(8, 8 + n) =~= raw@);
        }
        match string_from_utf8(raw) {
            Some(text) => {
                proof {
                    encode_utf8_decode_utf8(text@);
                }
                Some((text, end))
            },
            None => None,
        }
    }
}

impl<A: Element, B: Element> Element for (A, B) {
    open spec fn lt(a: (A::V, B::V), b: (A::V, B::V)) -> bool {
        A::lt(a.0, b.0) || (a.0 == b.0 && B::lt(a.1, b.1))
    }

    open spec fn encodable(v: (A::V, B::V)) -> bool {
        A::encodable(v.0) && B::encodable(v.1)
    }

    open spec fn encoding(v: (A::V, B::V)) -> Seq<u8> {
        A::encoding(v.0) + B::encoding(v.1)
    }

    open spec fn parse(s: Seq<u8>) -> Option<((A::V, B::V), int)> {
        match A::parse(s) {
            Some((a, n)) => match B::parse(s.skip(n)) {
                Some((b, m)) => Some(((a, b), n + m)),
                None => None,
            },
            None => None,
        }
    }

    proof fn lemma_lt_irreflexive(a: (A::V, B::V)) {
        A::lemma_lt_irreflexive(a.0);
        B::lemma_lt_irreflexive(a.1);
    }

    proof fn lemma_lt_transitive(a: (A::V, B::V), b: (A::V, B::V), c: (A::V, B::V)) {
        A::lemma_lt_irreflexive(a.0);
        A::lemma_lt_irreflexive(b.0);
        A::lemma_lt_transitive(a.0, b.0, c.0);
        B::lemma_lt_transitive(a.1, b.1, c.1);
    }

    proof fn lemma_lt_total(a: (A::V, B::V), b: (A::V, B::V)) {
        A::lemma_lt_total(a.0, b.0);
        B::lemma_lt_total(a.1, b.1);
    }

    proof fn lemma_parse_encoding(v: (A::V, B::V), rest: Seq<u8>) {
        let s = Self::encoding(v) + rest;
        let first = A::encoding(v.0);
        let second = B::encoding(v.1);
        assert(s =~= first + (second + rest));
        A::lemma_parse_encoding(v.0, second + rest);
        assert(s.skip(first.len() as int) =~= second + rest);
        B::lemma_parse_encoding(v.1, rest);
    }

    fn same(&self, other: &Self) -> (r: bool) {
        self.0.same(&other.0) && self.1.same(&other.1)
    }

    fn less(&self, other: &Self) -> (r: bool) {
        if self.0.less(&other.0) {
            true
        } else {
            self.0.same(&other.0) && self.1.less(&other.1)
        }
    }

    fn duplicate(&self) -> (r: Self) {
        (self.0.duplicate(), self.1.duplicate())
    }

    fn encode(&self, out: &mut Vec<u8>) {
        self.0.encode(out);
        self.1.encode(out);
        proof {
            let first = A::encoding(self.0.deep_view());
            let second = B::encoding(self.1.deep_view());
            assert(old(out)@ + first + second =~= old(out)@ + (first + second));
        }
    }

    fn decode(bytes: &[u8], start: usize) -> (r: Option<(Self, usize)>) {
        let (a, mid) = match A::decode(bytes, start) {
            Some(part) => part,
            None => { return None; },
        };
        proof {
            assert(bytes@.skip(start as int).skip(mid - start) =~= bytes@.skip(mid as int));
        }
        match B::decode(bytes, mid) {
            Some((b, end)) => Some(((a, b), end)),
            None => None,
        }
    }
}

} // verus!
