//! Lists on the wire: the number of items as a word, then the items one after
//! another, each in its own encoding. These are the bytes that bincode gives
//! a `Vec` with its default settings.

use crate::element::{get_word, lemma_parse_word, parse_word, put_word, Element};
use vstd::bytes::*;
use vstd::prelude::*;

verus! {

/// Every item of the list can be encoded.
pub open spec fn items_encodable<T: Element>(s: Seq<T::V>) -> bool {
    forall|i: int| 0 <= i < s.len() ==> T::encodable(#[trigger] s[i])
}

/// The encodings of the items, one after another.
pub open spec fn items_encoding<T: Element>(s: Seq<T::V>) -> Seq<u8>
    decreases s.len(),
{
    if s.len() == 0 {
        Seq::empty()
    } else {
        T::encoding(s[0]) + items_encoding::<T>(s.skip(1))
    }
}

/// The `n` items that a buffer starts with, and the bytes they take.
pub open spec fn parse_items<T: Element>(s: Seq<u8>, n: nat) -> Option<(Seq<T::V>, int)>
    decreases n,
{
    if n == 0 {
        Some((Seq::empty(), 0))
    } else {
        match T::parse(s) {
            Some((v, len)) => match parse_items::<T>(s.skip(len), (n - 1) as nat) {
                Some((rest, more)) => Some((seq![v] + rest, len + more)),
                None => None,
            },
            None => None,
        }
    }
}

/// Whether a list can be encoded: its length fits a word and so does each item.
pub open spec fn list_encodable<T: Element>(s: Seq<T::V>) -> bool {
    s.len() <= u64::MAX && items_encodable::<T>(s)
}

/// A list on the wire.
pub open spec fn list_encoding<T: Element>(s: Seq<T::V>) -> Seq<u8> {
    spec_u64_to_le_bytes(s.len() as u64) + items_encoding::<T>(s)
}

/// The list that a buffer starts with, and the bytes it takes.
pub open spec fn parse_list<T: Element>(s: Seq<u8>) -> Option<(Seq<T::V>, int)> {
    match parse_word(s) {
        Some((n, _)) => match parse_items::<T>(s.skip(8), n as nat) {
            Some((items, len)) => Some((items, 8 + len)),
            None => None,
        },
        None => None,
    }
}

/// One more item at the end adds its encoding at the end.
pub proof fn lemma_items_encoding_push<T: Element>(s: Seq<T::V>, v: T::V)
    ensures
        items_encoding::<T>(s.push(v)) == items_encoding::<T>(s) + T::encoding(v),
    decreases s.len(),
{
    let t = s.push(v);
    if s.len() == 0 {
        assert(t.skip(1) =~= Seq::<T::V>::empty());
        assert(items_encoding::<T>(t.skip(1)) =~= Seq::<u8>::empty());
        assert(items_encoding::<T>(t) =~= T::encoding(v));
        assert(items_encoding::<T>(s) + T::encoding(v) =~= T::encoding(v));
    } else {
        assert(t.skip(1) =~= s.skip(1).push(v));
        lemma_items_encoding_push::<T>(s.skip(1), v);
        assert(items_encoding::<T>(t) =~= items_encoding::<T>(s) + T::encoding(v));
    }
}

/// Reading encoded items back gives the items, whatever follows them.
pub proof fn lemma_parse_items<T: Element>(s: Seq<T::V>, rest: Seq<u8>)
    requires
        items_encodable::<T>(s),
    ensures
        parse_items::<T>(items_encoding::<T>(s) + rest, s.len()) == Some(
            (s, items_encoding::<T>(s).len() as int),
        ),
    decreases s.len(),
{
    let whole = items_encoding::<T>(s) + rest;
    if s.len() == 0 {
        assert(s =~= Seq::<T::V>::empty());
    } else {
        let head = T::encoding(s[0]);
        let tail = items_encoding::<T>(s.skip(1));
        assert(whole =~= head + (tail + rest));
        T::lemma_parse_encoding(s[0], tail + rest);
        assert(whole.skip(head.len() as int) =~= tail + rest);
        assert(items_encodable::<T>(s.skip(1))) by {
            assert forall|i: int| 0 <= i < s.skip(1).len() implies T::encodable(
                #[trigger] s.skip(1)[i],
            ) by {
                assert(s.skip(1)[i] == s[i + 1]);
            }
        }
        lemma_parse_items::<T>(s.skip(1), rest);
        assert(seq![s[0]] + s.skip(1) =~= s);
    }
}

/// Reading an encoded list back gives the list, whatever follows it.
pub proof fn lemma_parse_list<T: Element>(s: Seq<T::V>, rest: Seq<u8>)
    requires
        list_encodable::<T>(s),
    ensures
        parse_list::<T>(list_encoding::<T>(s) + rest) == Some(
            (s, list_encoding::<T>(s).len() as int),
        ),
{
    let head = spec_u64_to_le_bytes(s.len() as u64);
    let body = items_encoding::<T>(s);
    let whole = list_encoding::<T>(s) + rest;
    assert(whole =~= head + (body + rest));
    lemma_parse_word(s.len() as u64, body + rest);
    assert(whole.skip(8) =~= body + rest);
    lemma_parse_items::<T>(s, rest);
}

/// Appends the encoding of a list.
pub fn encode_list<T: Element>(items: &Vec<T>, out: &mut Vec<u8>)
    ensures
        list_encodable::<T>(items.deep_view()),
        final(out)@ == old(out)@ + list_encoding::<T>(items.deep_view()),
{
    let ghost s = items.deep_view();
    let n = items.len();
    put_word(n as u64, out);
    let ghost base = out@;
    let mut i: usize = 0;
    proof {
        assert(s.take(0) =~= Seq::<T::V>::empty());
        assert(base + items_encoding::<T>(s.take(0)) =~= base);
    }
    while i < n
        invariant
            i <= n,
            n == items@.len(),
            s == items.deep_view(),
            out@ == base + items_encoding::<T>(s.take(i as int)),
            forall|j: int| 0 <= j < i ==> T::encodable(#[trigger] s[j]),
        decreases n - i,
    {
        let ghost before = out@;
        items[i].encode(out);
        proof {
            let done = s.take(i as int);
            assert(s[i as int] == items@[i as int].deep_view());
            lemma_items_encoding_push::<T>(done, s[i as int]);
            assert(done.push(s[i as int]) =~= s.take(i + 1));
            assert(before + T::encoding(s[i as int]) =~= base + (items_encoding::<T>(done)
                + T::encoding(s[i as int])));
        }
        i = i + 1;
    }
    proof {
        assert(s.take(n as int) =~= s);
        let head = spec_u64_to_le_bytes(n as u64);
        assert(old(out)@ + head + items_encoding::<T>(s) =~= old(out)@ + (head
            + items_encoding::<T>(s)));
    }
}

/// Reads the list that starts at `start`, and says where it ends.
pub fn decode_list<T: Element>(bytes: &[u8], start: usize) -> (r: Option<(Vec<T>, usize)>)
    requires
        start <= bytes@.len(),
    ensures
        match parse_list::<T>(bytes@.skip(start as int)) {
            Some((s, n)) => r matches Some((items, end)) && items.deep_view() == s && end == start
                + n && start <= end <= bytes@.len(),
            None => r is None,
        },
{
    let ghost whole = bytes@.skip(start as int);
    let (count, first) = match get_word(bytes, start) {
        Some(field) => field,
        None => { return None; },
    };
    let mut items: Vec<T> = Vec::new();
    let mut pos: usize = first;
    let mut i: u64 = 0;
    proof {
        assert(whole.skip(8) =~= bytes@.skip(pos as int));
        assert(items.deep_view() =~= Seq::<T::V>::empty());
    }
    while i < count
        invariant
            i <= count,
            first == start + 8,
            first <= pos <= bytes@.len(),
            whole == bytes@.skip(start as int),
            parse_word(whole) == Some((count, 8int)),
            match parse_items::<T>(bytes@.skip(pos as int), (count - i) as nat) {
                Some((rest, more)) => parse_items::<T>(whole.skip(8), count as nat) == Some(
                    (items.deep_view() + rest, pos - first + more),
                ),
                None => parse_items::<T>(whole.skip(8), count as nat) is None,
            },
        decreases count - i,
    {
        let ghost done = items.deep_view();
        let ghost here = bytes@.skip(pos as int);
        match T::decode(bytes, pos) {
            Some((item, next)) => {
                proof {
                    assert(here.skip(next - pos) =~= bytes@.skip(next as int));
                    match parse_items::<T>(bytes@.skip(next as int), (count - i - 1) as nat) {
                        Some((rest, more)) => {
                            assert(done + (seq![item.deep_view()] + rest) =~= done.push(
                                item.deep_view(),
                            ) + rest);
                        },
                        None => {},
                    }
                }
                items.push(item);
                proof {
                    assert(items.deep_view() =~= done.push(item.deep_view()));
                }
                pos = next;
            },
            None => {
                return None;
            },
        }
        i = i + 1;
    }
    proof {
        assert(items.deep_view() + Seq::<T::V>::empty() =~= items.deep_view());
    }
    Some((items, pos))
}

} // verus!
