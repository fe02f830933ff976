//! The building blocks of the message encoding.
//!
//! Messages are written in the SCALE format.  Its two integer forms, the
//! fixed four-byte form and the compact form used for lengths, are computed
//! by the `parity-scale-codec` crate: four wrappers call it, and one more
//! asks the standard library whether bytes are UTF-8.  The contracts of
//! these five are believed, not proved.  Everything built from them is
//! proved: byte strings, optional byte strings, sequences of byte strings
//! and sequences of texts, each as an encoder that appends to a buffer and a
//! decoder that takes a value off the front of a slice.
//!
//! Every decoder is strict.  It yields a value exactly when the input begins
//! with that value's encoding, and the `lemma_*_unambiguous` proofs show that
//! no input begins with the encodings of two different values.
use crate::frame::le_bytes;
use crate::frame::lemma_le_value_of_le_bytes;
use parity_scale_codec::Compact;
use parity_scale_codec::Decode;
use parity_scale_codec::Encode;
use vstd::prelude::*;
use vstd::slice::slice_subrange;
use vstd::slice::slice_to_vec;
use vstd::utf8::encode_utf8;
use vstd::utf8::encode_utf8_decode_utf8;
use vstd::utf8::encode_utf8_valid_utf8;
use vstd::utf8::valid_utf8;

verus! {

/// The two bytes of `n`, least significant first.
pub open spec fn le_bytes2(n: u16) -> Seq<u8> {
    seq![(n % 256) as u8, (n / 256) as u8]
}

/// The compact form of `n`.
///
/// The two low bits of the first byte tell the width: one byte for numbers
/// below 2^6, two for numbers below 2^14, four for numbers below 2^30, each
/// holding four times the number plus the width's tag in little-endian
/// order; and for the numbers from 2^30 on, the byte 3 followed by the number
/// in four little-endian bytes.
pub open spec fn compact(n: u32) -> Seq<u8> {
    if n < 64 {
        seq![(4 * n) as u8]
    } else if n < 16384 {
        le_bytes2((4 * n + 1) as u16)
    } else if n < 1073741824 {
        le_bytes((4 * n + 2) as u32)
    } else {
        seq![3u8] + le_bytes(n)
    }
}

/// `Encode::encode` of `parity_scale_codec::Compact<u32>`: the bytes of the
/// compact form of `n`.
#[verifier::external_body]
fn compact_encode(n: u32) -> (bytes: Vec<u8>)
    ensures
        bytes@ == compact(n),
{
    Compact(n).encode()
}

/// `Decode::decode` of `parity_scale_codec::Compact<u32>` on a byte slice.
///
/// The crate accepts a number only in its shortest form.  So the call yields
/// `n` and the unread rest exactly when the input is the compact form of `n`
/// followed by that rest, and fails on every other input.
#[verifier::external_body]
fn compact_decode<'a>(input: &'a [u8]) -> (r: Option<(u32, &'a [u8])>)
    ensures
        r matches Some((n, rest)) ==> input@ == compact(n) + rest@,
        r is None ==> forall|n: u32, rest: Seq<u8>| input@ != #[trigger] (compact(n) + rest),
{
    let mut rest = input;
    match Compact::<u32>::decode(&mut rest) {
        Ok(Compact(n)) => Some((n, rest)),
        Err(_) => None,
    }
}

/// `Encode::encode` of `u32` in `parity_scale_codec`: the four bytes of `n`,
/// least significant first.
#[verifier::external_body]
fn fixed_encode(n: u32) -> (bytes: Vec<u8>)
    ensures
        bytes@ == le_bytes(n),
{
    n.encode()
}

/// `Decode::decode` of `u32` in `parity_scale_codec` on a byte slice: the
/// number in the first four bytes and the unread rest, or failure when fewer
/// than four bytes are there.
#[verifier::external_body]
fn fixed_decode<'a>(input: &'a [u8]) -> (r: Option<(u32, &'a [u8])>)
    ensures
        r matches Some((n, rest)) ==> input@ == le_bytes(n) + rest@,
        r is None <==> input@.len() < 4,
{
    let mut rest = input;
    match u32::decode(&mut rest) {
        Ok(n) => Some((n, rest)),
        Err(_) => None,
    }
}

/// The number of bytes in the compact form of `n`.
pub open spec fn compact_len(n: u32) -> int {
    if n < 64 {
        1
    } else if n < 16384 {
        2
    } else if n < 1073741824 {
        4
    } else {
        5
    }
}

/// The compact form has one, two, four or five bytes, and its first byte
/// tells which.
pub proof fn lemma_compact_shape(n: u32)
    ensures
        compact(n).len() == compact_len(n),
        n < 64 <==> compact(n)[0] % 4 == 0,
        64 <= n < 16384 <==> compact(n)[0] % 4 == 1,
        16384 <= n < 1073741824 <==> compact(n)[0] % 4 == 2,
        1073741824 <= n <==> compact(n)[0] % 4 == 3,
{
    if n < 64 {
    } else if n < 16384 {
        let v = (4 * n + 1) as u16;
        assert(compact(n)[0] == (v % 256) as u8);
        assert(v % 256 % 4 == 1);
    } else if n < 1073741824 {
        let v = (4 * n + 2) as u32;
        assert(compact(n)[0] == (v % 256) as u8);
        assert(v % 256 % 4 == 2);
    } else {
        assert(compact(n)[0] == 3u8);
    }
}

/// The compact forms of two numbers are never a prefix of one another: a
/// stream that begins with a compact form begins with only one.
pub proof fn lemma_compact_unambiguous(n: u32, m: u32, after_n: Seq<u8>, after_m: Seq<u8>)
    requires
        compact(n) + after_n == compact(m) + after_m,
    ensures
        n == m,
        after_n == after_m,
{
    let s = compact(n) + after_n;
    let t = compact(m) + after_m;
    lemma_compact_shape(n);
    lemma_compact_shape(m);
    assert(s[0] == compact(n)[0]);
    assert(t[0] == compact(m)[0]);
    if n < 64 {
        assert(4 * n == 4 * m);
    } else if n < 16384 {
        let v = (4 * n + 1) as u16;
        let w = (4 * m + 1) as u16;
        assert(s[1] == compact(n)[1]);
        assert(t[1] == compact(m)[1]);
        assert(v == v % 256 + 256 * (v / 256));
        assert(w == w % 256 + 256 * (w / 256));
    } else if n < 1073741824 {
        lemma_le_value_of_le_bytes((4 * n + 2) as u32, after_n);
        lemma_le_value_of_le_bytes((4 * m + 2) as u32, after_m);
    } else {
        lemma_le_value_of_le_bytes(n, after_n);
        lemma_le_value_of_le_bytes(m, after_m);
        assert(s.skip(1) =~= le_bytes(n) + after_n);
        assert(t.skip(1) =~= le_bytes(m) + after_m);
    }
    assert(n == m);
    assert(after_n =~= s.skip(compact_len(n)));
    assert(after_m =~= t.skip(compact_len(m)));
}

/// The fixed forms of two numbers followed by anything are equal only if
/// the numbers and what follows are.
pub proof fn lemma_fixed_unambiguous(n: u32, m: u32, after_n: Seq<u8>, after_m: Seq<u8>)
    requires
        le_bytes(n) + after_n == le_bytes(m) + after_m,
    ensures
        n == m,
        after_n == after_m,
{
    lemma_le_value_of_le_bytes(n, after_n);
    lemma_le_value_of_le_bytes(m, after_m);
    assert(after_n =~= (le_bytes(n) + after_n).skip(4));
    assert(after_m =~= (le_bytes(m) + after_m).skip(4));
}

/// Whether a byte string is short enough for its length to be written.
pub open spec fn bytes_fit(bytes: Seq<u8>) -> bool {
    bytes.len() <= u32::MAX
}

/// The encoding of a byte string: its length in compact form, then the
/// bytes.
pub open spec fn bytes_form(bytes: Seq<u8>) -> Seq<u8>
    recommends
        bytes_fit(bytes),
{
    compact(bytes.len() as u32) + bytes
}

/// Whether an optional byte string can be written.
pub open spec fn optional_fits(value: Option<Seq<u8>>) -> bool {
    value matches Some(bytes) ==> bytes_fit(bytes)
}

/// The encoding of an optional byte string: the byte 0 when it is absent,
/// the byte 1 and the byte string's encoding when it is present.
pub open spec fn optional_form(value: Option<Seq<u8>>) -> Seq<u8>
    recommends
        optional_fits(value),
{
    match value {
        None => seq![0u8],
        Some(bytes) => seq![1u8] + bytes_form(bytes),
    }
}

/// Whether each of the byte strings can be written.
pub open spec fn items_fit(items: Seq<Seq<u8>>) -> bool {
    forall|i: int| 0 <= i < items.len() ==> bytes_fit(#[trigger] items[i])
}

/// The encodings of the byte strings, one after the other.
pub open spec fn items_form(items: Seq<Seq<u8>>) -> Seq<u8>
    recommends
        items_fit(items),
    decreases items.len(),
{
    if items.len() == 0 {
        Seq::empty()
    } else {
        items_form(items.drop_last()) + bytes_form(items.last())
    }
}

/// Whether a sequence of byte strings can be written.
pub open spec fn sequence_fits(items: Seq<Seq<u8>>) -> bool {
    items.len() <= u32::MAX && items_fit(items)
}

/// The encoding of a sequence of byte strings: their number in compact
/// form, then the encoding of each in order.
pub open spec fn sequence_form(items: Seq<Seq<u8>>) -> Seq<u8>
    recommends
        sequence_fits(items),
{
    compact(items.len() as u32) + items_form(items)
}

/// A stream that begins with the encoding of a byte string begins with the
/// encoding of no other.
pub proof fn lemma_bytes_unambiguous(a: Seq<u8>, b: Seq<u8>, after_a: Seq<u8>, after_b: Seq<u8>)
    requires
        bytes_fit(a),
        bytes_fit(b),
        bytes_form(a) + after_a == bytes_form(b) + after_b,
    ensures
        a == b,
        after_a == after_b,
{
    let n = a.len() as u32;
    let m = b.len() as u32;
    assert(bytes_form(a) + after_a =~= compact(n) + (a + after_a));
    assert(bytes_form(b) + after_b =~= compact(m) + (b + after_b));
    lemma_compact_unambiguous(n, m, a + after_a, b + after_b);
    assert(a =~= (a + after_a).subrange(0, n as int));
    assert(b =~= (b + after_b).subrange(0, m as int));
    assert(after_a =~= (a + after_a).skip(n as int));
    assert(after_b =~= (b + after_b).skip(m as int));
}

/// A stream that begins with the encoding of an optional byte string begins
/// with the encoding of no other.
pub proof fn lemma_optional_unambiguous(
    a: Option<Seq<u8>>,
    b: Option<Seq<u8>>,
    after_a: Seq<u8>,
    after_b: Seq<u8>,
)
    requires
        optional_fits(a),
        optional_fits(b),
        optional_form(a) + after_a == optional_form(b) + after_b,
    ensures
        a == b,
        after_a == after_b,
{
    let s = optional_form(a) + after_a;
    let t = optional_form(b) + after_b;
    assert(s[0] == optional_form(a)[0]);
    assert(t[0] == optional_form(b)[0]);
    match (a, b) {
        (Some(x), Some(y)) => {
            assert(s.skip(1) =~= bytes_form(x) + after_a);
            assert(t.skip(1) =~= bytes_form(y) + after_b);
            lemma_bytes_unambiguous(x, y, after_a, after_b);
        },
        (None, None) => {
            assert(after_a =~= s.skip(1));
            assert(after_b =~= t.skip(1));
        },
        _ => {},
    }
}

/// The encodings of two runs of byte strings, one run after the other, are
/// the encodings of the joined run.
pub proof fn lemma_items_form_concat(front: Seq<Seq<u8>>, back: Seq<Seq<u8>>)
    ensures
        items_form(front + back) == items_form(front) + items_form(back),
    decreases back.len(),
{
    if back.len() == 0 {
        assert(front + back =~= front);
        assert(items_form(front) + items_form(back) =~= items_form(front));
    } else {
        let whole = front + back;
        assert(whole.drop_last() =~= front + back.drop_last());
        assert(whole.last() == back.last());
        lemma_items_form_concat(front, back.drop_last());
        assert(items_form(whole) =~= items_form(front) + items_form(back));
    }
}

/// The encoding of a run of one byte string is that byte string's encoding.
pub proof fn lemma_items_form_single(item: Seq<u8>)
    ensures
        items_form(seq![item]) == bytes_form(item),
{
    let one = seq![item];
    assert(one.drop_last() =~= Seq::<Seq<u8>>::empty());
    assert(items_form(one.drop_last()) =~= Seq::<u8>::empty());
    assert(items_form(one) =~= bytes_form(item));
}

/// A stream that begins with the encodings of a run of byte strings begins
/// with the encodings of no other run of the same length.
pub proof fn lemma_items_unambiguous(
    a: Seq<Seq<u8>>,
    b: Seq<Seq<u8>>,
    after_a: Seq<u8>,
    after_b: Seq<u8>,
)
    requires
        items_fit(a),
        items_fit(b),
        a.len() == b.len(),
        items_form(a) + after_a == items_form(b) + after_b,
    ensures
        a == b,
        after_a == after_b,
    decreases a.len(),
{
    if a.len() == 0 {
        assert(a =~= b);
        assert(items_form(a) + after_a =~= after_a);
        assert(items_form(b) + after_b =~= after_b);
    } else {
        let tail_a = bytes_form(a.last()) + after_a;
        let tail_b = bytes_form(b.last()) + after_b;
        assert(items_form(a) + after_a =~= items_form(a.drop_last()) + tail_a);
        assert(items_form(b) + after_b =~= items_form(b.drop_last()) + tail_b);
        lemma_items_unambiguous(a.drop_last(), b.drop_last(), tail_a, tail_b);
        lemma_bytes_unambiguous(a.last(), b.last(), after_a, after_b);
        assert(a =~= a.drop_last().push(a.last()));
        assert(b =~= b.drop_last().push(b.last()));
    }
}

/// A stream that begins with the encoding of a sequence of byte strings
/// begins with the encoding of no other.
pub proof fn lemma_sequence_unambiguous(
    a: Seq<Seq<u8>>,
    b: Seq<Seq<u8>>,
    after_a: Seq<u8>,
    after_b: Seq<u8>,
)
    requires
        sequence_fits(a),
        sequence_fits(b),
        sequence_form(a) + after_a == sequence_form(b) + after_b,
    ensures
        a == b,
        after_a == after_b,
{
    let n = a.len() as u32;
    let m = b.len() as u32;
    assert(sequence_form(a) + after_a =~= compact(n) + (items_form(a) + after_a));
    assert(sequence_form(b) + after_b =~= compact(m) + (items_form(b) + after_b));
    lemma_compact_unambiguous(n, m, items_form(a) + after_a, items_form(b) + after_b);
    lemma_items_unambiguous(a, b, after_a, after_b);
}

/// Appends the fixed form of `n` to `out`.
pub fn put_u32(out: &mut Vec<u8>, n: u32)
    ensures
        final(out)@ == old(out)@ + le_bytes(n),
{
    let bytes = fixed_encode(n);
    out.extend_from_slice(bytes.as_slice());
    assert(out@ =~= old(out)@ + le_bytes(n));
}

/// Takes a number in fixed form off the front of `input`: the number and
/// the rest of the input, or nothing when fewer than four bytes are there.
pub fn take_u32<'a>(input: &'a [u8]) -> (r: Option<(u32, &'a [u8])>)
    ensures
        r is Some <==> input@.len() >= 4,
        r matches Some((n, rest)) ==> input@ == le_bytes(n) + rest@,
{
    fixed_decode(input)
}

/// Appends the compact form of `n` to `out`.
pub fn put_len(out: &mut Vec<u8>, n: u32)
    ensures
        final(out)@ == old(out)@ + compact(n),
{
    let bytes = compact_encode(n);
    out.extend_from_slice(bytes.as_slice());
    assert(out@ =~= old(out)@ + compact(n));
}

/// Takes a number in compact form off the front of `input`: the number and
/// the rest of the input, or nothing when the input begins with no compact
/// form.
pub fn take_len<'a>(input: &'a [u8]) -> (r: Option<(u32, &'a [u8])>)
    ensures
        r matches Some((n, rest)) ==> input@ == compact(n) + rest@,
        r is None ==> forall|n: u32, rest: Seq<u8>| input@ != #[trigger] (compact(n) + rest),
{
    compact_decode(input)
}

/// Appends the encoding of a byte string to `out`.
pub fn put_bytes(out: &mut Vec<u8>, bytes: &[u8])
    requires
        bytes_fit(bytes@),
    ensures
        final(out)@ == old(out)@ + bytes_form(bytes@),
{
    put_len(out, bytes.len() as u32);
    out.extend_from_slice(bytes);
    assert(out@ =~= old(out)@ + bytes_form(bytes@));
}

/// Takes a byte string off the front of `input`: the byte string and the
/// rest of the input, or nothing when the input begins with no byte string's
/// encoding.
pub fn take_bytes<'a>(input: &'a [u8]) -> (r: Option<(Vec<u8>, &'a [u8])>)
    ensures
        r matches Some((bytes, rest)) ==> bytes_fit(bytes@) && input@ == bytes_form(bytes@)
            + rest@,
        r is None ==> forall|bytes: Seq<u8>, rest: Seq<u8>|
            bytes_fit(bytes) ==> input@ != #[trigger] (bytes_form(bytes) + rest),
{
    match take_len(input) {
        None => {
            assert forall|bytes: Seq<u8>, rest: Seq<u8>| bytes_fit(bytes) implies input@
                != #[trigger] (bytes_form(bytes) + rest) by {
                let n = bytes.len() as u32;
                assert(bytes_form(bytes) + rest =~= compact(n) + (bytes + rest));
            }
            None
        },
        Some((n, tail)) => {
            let len = n as usize;
            if tail.len() < len {
                assert forall|bytes: Seq<u8>, rest: Seq<u8>| bytes_fit(bytes) implies input@
                    != #[trigger] (bytes_form(bytes) + rest) by {
                    let m = bytes.len() as u32;
                    assert(bytes_form(bytes) + rest =~= compact(m) + (bytes + rest));
                    if input@ == bytes_form(bytes) + rest {
                        lemma_compact_unambiguous(n, m, tail@, bytes + rest);
                    }
                }
                None
            } else {
                let bytes = slice_to_vec(slice_subrange(tail, 0, len));
                let rest = slice_subrange(tail, len, tail.len());
                assert(input@ =~= bytes_form(bytes@) + rest@);
                Some((bytes, rest))
            }
        },
    }
}

/// Appends the encoding of an optional byte string to `out`.
pub fn put_optional(out: &mut Vec<u8>, value: &Option<Vec<u8>>)
    requires
        value matches Some(bytes) ==> bytes_fit(bytes@),
    ensures
        final(out)@ == old(out)@ + optional_form(
            match *value {
                Some(bytes) => Some(bytes@),
                None => None,
            },
        ),
{
    match value {
        None => {
            out.push(0u8);
            assert(out@ =~= old(out)@ + seq![0u8]);
        },
        Some(bytes) => {
            out.push(1u8);
            put_bytes(out, bytes.as_slice());
            assert(out@ =~= old(out)@ + (seq![1u8] + bytes_form(bytes@)));
        },
    }
}

/// Takes an optional byte string off the front of `input`: the value and
/// the rest of the input, or nothing when the input begins with no optional
/// byte string's encoding.
pub fn take_optional<'a>(input: &'a [u8]) -> (r: Option<(Option<Vec<u8>>, &'a [u8])>)
    ensures
        r matches Some((value, rest)) ==> {
            let value = match value {
                Some(bytes) => Some(bytes@),
                None => None,
            };
            optional_fits(value) && input@ == optional_form(value) + rest@
        },
        r is None ==> forall|value: Option<Seq<u8>>, rest: Seq<u8>|
            optional_fits(value) ==> input@ != #[trigger] (optional_form(value) + rest),
{
    if input.len() == 0 {
        assert forall|value: Option<Seq<u8>>, rest: Seq<u8>| optional_fits(value) implies input@
            != #[trigger] (optional_form(value) + rest) by {
            assert((optional_form(value) + rest).len() > 0);
        }
        return None;
    }
    let tag = input[0];
    let tail = slice_subrange(input, 1, input.len());
    if tag == 0 {
        assert(input@ =~= optional_form(None) + tail@);
        Some((None, tail))
    } else if tag == 1 {
        match take_bytes(tail) {
            Some((bytes, rest)) => {
                assert(input@ =~= seq![1u8] + tail@);
                assert(seq![1u8] + (bytes_form(bytes@) + rest@) =~= optional_form(Some(bytes@))
                    + rest@);
                Some((Some(bytes), rest))
            },
            None => {
                assert forall|value: Option<Seq<u8>>, rest: Seq<u8>|
                    optional_fits(value) implies input@ != #[trigger] (optional_form(value)
                    + rest) by {
                    let whole = optional_form(value) + rest;
                    assert(whole[0] == optional_form(value)[0]);
                    if let Some(bytes) = value {
                        assert(whole.skip(1) =~= bytes_form(bytes) + rest);
                        if input@ == whole {
                            assert(tail@ == bytes_form(bytes) + rest);
                        }
                    }
                }
                None
            },
        }
    } else {
        assert forall|value: Option<Seq<u8>>, rest: Seq<u8>| optional_fits(value) implies input@
            != #[trigger] (optional_form(value) + rest) by {
            assert((optional_form(value) + rest)[0] == optional_form(value)[0]);
        }
        None
    }
}

/// The encodings of a run of byte strings grow by one encoding when one
/// byte string is added at the end.
pub proof fn lemma_items_form_push(items: Seq<Seq<u8>>, item: Seq<u8>)
    ensures
        items_form(items.push(item)) == items_form(items) + bytes_form(item),
{
    assert(items.push(item).drop_last() =~= items);
}

/// Appends the encoding of a sequence of byte strings to `out`.
pub fn put_sequence(out: &mut Vec<u8>, items: &Vec<Vec<u8>>)
    requires
        sequence_fits(items.deep_view()),
    ensures
        final(out)@ == old(out)@ + sequence_form(items.deep_view()),
{
    let ghost all = items.deep_view();
    let count = items.len();
    put_len(out, count as u32);
    let mut i: usize = 0;
    assert(all.take(0) =~= Seq::<Seq<u8>>::empty());
    assert(out@ =~= old(out)@ + compact(count as u32) + items_form(all.take(0)));
    while i < count
        invariant
            i <= count,
            count == items.len(),
            all == items.deep_view(),
            sequence_fits(all),
            out@ == old(out)@ + compact(count as u32) + items_form(all.take(i as int)),
        decreases count - i,
    {
        let ghost before = out@;
        assert(all[i as int] == items[i as int]@);
        put_bytes(out, items[i].as_slice());
        proof {
            assert(all.take(i + 1) =~= all.take(i as int).push(all[i as int]));
            lemma_items_form_push(all.take(i as int), all[i as int]);
            assert(out@ =~= old(out)@ + compact(count as u32) + items_form(all.take(i + 1)));
        }
        i += 1;
    }
    assert(all.take(count as int) =~= all);
    assert(out@ =~= old(out)@ + sequence_form(all));
}

/// Takes a sequence of byte strings off the front of `input`: the sequence
/// and the rest of the input, or nothing when the input begins with no such
/// sequence's encoding.
pub fn take_sequence<'a>(input: &'a [u8]) -> (r: Option<(Vec<Vec<u8>>, &'a [u8])>)
    ensures
        r matches Some((items, rest)) ==> sequence_fits(items.deep_view()) && input@
            == sequence_form(items.deep_view()) + rest@,
        r is None ==> forall|items: Seq<Seq<u8>>, rest: Seq<u8>|
            sequence_fits(items) ==> input@ != #[trigger] (sequence_form(items) + rest),
{
    let (count, tail) = match take_len(input) {
        Some(found) => found,
        None => {
            assert forall|items: Seq<Seq<u8>>, rest: Seq<u8>| sequence_fits(items) implies input@
                != #[trigger] (sequence_form(items) + rest) by {
                let m = items.len() as u32;
                assert(sequence_form(items) + rest =~= compact(m) + (items_form(items) + rest));
            }
            return None;
        },
    };
    let mut items: Vec<Vec<u8>> = Vec::new();
    let mut rest = tail;
    let mut i: u32 = 0;
    assert(items.deep_view() =~= Seq::<Seq<u8>>::empty());
    assert(tail@ =~= items_form(items.deep_view()) + rest@);
    while i < count
        invariant
            i <= count,
            items.len() == i,
            items_fit(items.deep_view()),
            input@ == compact(count) + tail@,
            tail@ == items_form(items.deep_view()) + rest@,
        decreases count - i,
    {
        let ghost done = items.deep_view();
        match take_bytes(rest) {
            None => {
                assert forall|cand: Seq<Seq<u8>>, after: Seq<u8>| sequence_fits(cand) implies input@
                    != #[trigger] (sequence_form(cand) + after) by {
                    if input@ == sequence_form(cand) + after {
                        lemma_sequence_cut(cand, after, count, tail@, done, rest@);
                    }
                }
                return None;
            },
            Some((item, after)) => {
                proof {
                    lemma_items_form_push(done, item@);
                    assert(tail@ =~= items_form(done.push(item@)) + after@);
                }
                items.push(item);
                assert(items.deep_view() =~~= done.push(item@));
                rest = after;
                i += 1;
            },
        }
    }
    assert(input@ =~= sequence_form(items.deep_view()) + rest@);
    Some((items, rest))
}

/// Where a stream begins with the encoding of a sequence, and the first
/// byte strings of that sequence have been taken off it, what is left begins
/// with the encoding of the next byte string.
proof fn lemma_sequence_cut(
    cand: Seq<Seq<u8>>,
    after: Seq<u8>,
    count: u32,
    tail: Seq<u8>,
    done: Seq<Seq<u8>>,
    rest: Seq<u8>,
)
    requires
        sequence_fits(cand),
        items_fit(done),
        done.len() < count,
        compact(count) + tail == sequence_form(cand) + after,
        tail == items_form(done) + rest,
    ensures
        cand.len() == count,
        done == cand.take(done.len() as int),
        rest == bytes_form(cand[done.len() as int]) + (items_form(cand.skip(done.len() as int + 1))
            + after),
{
    let m = cand.len() as u32;
    let k = done.len() as int;
    assert(sequence_form(cand) + after =~= compact(m) + (items_form(cand) + after));
    lemma_compact_unambiguous(count, m, tail, items_form(cand) + after);
    let front = cand.take(k);
    let next = cand[k];
    let back = cand.skip(k + 1);
    assert(cand =~= front + (seq![next] + back));
    lemma_items_form_concat(front, seq![next] + back);
    lemma_items_form_concat(seq![next], back);
    lemma_items_form_single(next);
    let left = bytes_form(next) + (items_form(back) + after);
    assert(items_form(cand) + after =~= items_form(front) + left);
    lemma_items_unambiguous(front, done, left, rest);
}

/// The UTF-8 bytes of each text.
pub open spec fn utf8_items(texts: Seq<Seq<char>>) -> Seq<Seq<u8>> {
    Seq::new(texts.len(), |i: int| encode_utf8(texts[i]))
}

/// Whether a sequence of texts can be written.
pub open spec fn texts_fit(texts: Seq<Seq<char>>) -> bool {
    sequence_fits(utf8_items(texts))
}

/// The encoding of a sequence of texts: that of the sequence of their UTF-8
/// bytes.
pub open spec fn texts_form(texts: Seq<Seq<char>>) -> Seq<u8>
    recommends
        texts_fit(texts),
{
    sequence_form(utf8_items(texts))
}

/// Two sequences of texts with the same UTF-8 bytes are the same.
pub proof fn lemma_utf8_items_injective(a: Seq<Seq<char>>, b: Seq<Seq<char>>)
    requires
        utf8_items(a) == utf8_items(b),
    ensures
        a == b,
{
    assert(a.len() == utf8_items(a).len());
    assert(b.len() == utf8_items(b).len());
    assert forall|i: int| 0 <= i < a.len() implies a[i] == b[i] by {
        assert(utf8_items(a)[i] == encode_utf8(a[i]));
        assert(utf8_items(b)[i] == encode_utf8(b[i]));
        encode_utf8_decode_utf8(a[i]);
        encode_utf8_decode_utf8(b[i]);
    }
    assert(a =~= b);
}

/// A stream that begins with the encoding of a sequence of texts begins with
/// the encoding of no other.
pub proof fn lemma_texts_unambiguous(
    a: Seq<Seq<char>>,
    b: Seq<Seq<char>>,
    after_a: Seq<u8>,
    after_b: Seq<u8>,
)
    requires
        texts_fit(a),
        texts_fit(b),
        texts_form(a) + after_a == texts_form(b) + after_b,
    ensures
        a == b,
        after_a == after_b,
{
    lemma_sequence_unambiguous(utf8_items(a), utf8_items(b), after_a, after_b);
    lemma_utf8_items_injective(a, b);
}

/// `String::from_utf8` of the standard library: the text whose UTF-8 bytes
/// are `bytes`, or nothing when `bytes` are not well-formed UTF-8.
#[verifier::external_body]
fn text_from_utf8(bytes: Vec<u8>) -> (r: Option<String>)
    ensures
        r is Some <==> valid_utf8(bytes@),
        r matches Some(text) ==> encode_utf8(text@) == bytes@,
{
    match String::from_utf8(bytes) {
        Ok(text) => Some(text),
        Err(_) => None,
    }
}

/// Appends the encoding of a sequence of texts to `out`.
pub fn put_texts(out: &mut Vec<u8>, texts: &Vec<String>)
    requires
        texts_fit(texts.deep_view()),
    ensures
        final(out)@ == old(out)@ + texts_form(texts.deep_view()),
{
    let ghost all = utf8_items(texts.deep_view());
    let count = texts.len();
    put_len(out, count as u32);
    let mut i: usize = 0;
    assert(all.take(0) =~= Seq::<Seq<u8>>::empty());
    assert(out@ =~= old(out)@ + compact(count as u32) + items_form(all.take(0)));
    while i < count
        invariant
            i <= count,
            count == texts.len(),
            all == utf8_items(texts.deep_view()),
            sequence_fits(all),
            out@ == old(out)@ + compact(count as u32) + items_form(all.take(i as int)),
        decreases count - i,
    {
        assert(all[i as int] == encode_utf8(texts[i as int]@));
        put_bytes(out, texts[i].as_str().as_bytes());
        proof {
            assert(all.take(i + 1) =~= all.take(i as int).push(all[i as int]));
            lemma_items_form_push(all.take(i as int), all[i as int]);
            assert(out@ =~= old(out)@ + compact(count as u32) + items_form(all.take(i + 1)));
        }
        i += 1;
    }
    assert(all.take(count as int) =~= all);
    assert(out@ =~= old(out)@ + sequence_form(all));
}

/// Takes a sequence of texts off the front of `input`: the sequence and the
/// rest of the input, or nothing when the input begins with no such
/// sequence's encoding.  Bytes that are not well-formed UTF-8 encode no text.
pub fn take_texts<'a>(input: &'a [u8]) -> (r: Option<(Vec<String>, &'a [u8])>)
    ensures
        r matches Some((texts, rest)) ==> texts_fit(texts.deep_view()) && input@ == texts_form(
            texts.deep_view(),
        ) + rest@,
        r is None ==> forall|texts: Seq<Seq<char>>, rest: Seq<u8>|
            texts_fit(texts) ==> input@ != #[trigger] (texts_form(texts) + rest),
{
    let (items, rest) = match take_sequence(input) {
        Some(found) => found,
        None => {
            assert forall|cand: Seq<Seq<char>>, after: Seq<u8>| texts_fit(cand) implies input@
                != #[trigger] (texts_form(cand) + after) by {
                assert(texts_form(cand) + after == sequence_form(utf8_items(cand)) + after);
            }
            return None;
        },
    };
    let ghost raw = items.deep_view();
    let mut texts: Vec<String> = Vec::new();
    let mut i: usize = 0;
    while i < items.len()
        invariant
            i <= items.len(),
            texts.len() == i,
            raw == items.deep_view(),
            sequence_fits(raw),
            input@ == sequence_form(raw) + rest@,
            forall|j: int| 0 <= j < i ==> encode_utf8(#[trigger] texts[j]@) == raw[j],
        decreases items.len() - i,
    {
        let bytes = slice_to_vec(items[i].as_slice());
        assert(bytes@ =~= raw[i as int]);
        match text_from_utf8(bytes) {
            None => {
                assert forall|cand: Seq<Seq<char>>, after: Seq<u8>| texts_fit(cand) implies input@
                    != #[trigger] (texts_form(cand) + after) by {
                    if input@ == texts_form(cand) + after {
                        lemma_sequence_unambiguous(utf8_items(cand), raw, after, rest@);
                        assert(utf8_items(cand)[i as int] == encode_utf8(cand[i as int]));
                        encode_utf8_valid_utf8(cand[i as int]);
                    }
                }
                return None;
            },
            Some(text) => {
                texts.push(text);
            },
        }
        i += 1;
    }
    assert(utf8_items(texts.deep_view()) =~= raw);
    Some((texts, rest))
}

} // verus!
