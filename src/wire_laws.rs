//! Laws of the frame codec: a decoded value does not depend on how its bytes
//! arrived, and decoding inverts encoding.

use vstd::prelude::*;
use crate::codec::{
    crlf, crlf_from, decode, decode_items, encode, encode_all, is_crlf_at, lemma_crlf_from_bounds, lemma_decode_consumes,
    trailer, window_outcome, Decoded, Frame, READ_BUFFER_SIZE,
};
use crate::decimal::{decimal_digits, int_text_value, is_digit, lemma_decimal_digits};

verus! {

broadcast use vstd::seq::axiom_seq_index_decreases;

proof fn lemma_crlf_extend(p: Seq<u8>, q: Seq<u8>, k: int)
    requires
        crlf_from(p, k) is Some,
    ensures
        crlf_from(p + q, k) == crlf_from(p, k),
    decreases p.len() - k,
{
    assert(is_crlf_at(p, k) == is_crlf_at(p + q, k));
    if !is_crlf_at(p, k) {
        lemma_crlf_extend(p, q, k + 1);
    }
}

/// Once the bytes at hand decide the outcome (a value or an error), more
/// bytes after them change nothing.
pub proof fn lemma_decode_extend(p: Seq<u8>, q: Seq<u8>)
    requires
        !(decode(p) is Incomplete),
    ensures
        decode(p + q) == decode(p),
    decreases p.len(), 0nat,
{
    lemma_crlf_extend(p, q, 0);
    lemma_crlf_from_bounds(p, 0);
    let cr = crlf_from(p, 0)->Some_0;
    let pq = p + q;
    if p[0] == 42u8 || p[0] == 36u8 {
        assert(pq.subrange(1, cr) =~= p.subrange(1, cr));
    }
    let rest = p.subrange(cr + 2, p.len() as int);
    assert(pq.subrange(cr + 2, pq.len() as int) =~= rest + q);
    assert(pq[0] == p[0]);
    if p[0] == 42u8 {
        let digits = p.subrange(1, cr);
        match int_text_value(digits, i32::MIN as int, i32::MAX as int) {
            Some(n) => {
                lemma_items_extend(rest, q, n, seq![], 0);
            },
            None => {},
        }
    } else if p[0] == 36u8 {
        let digits = p.subrange(1, cr);
        match int_text_value(digits, i32::MIN as int, i32::MAX as int) {
            Some(n) => {
                if 0 <= n <= rest.len() {
                    assert((rest + q).take(n) =~= rest.take(n));
                }
            },
            None => {},
        }
    }
}

proof fn lemma_items_extend(rest: Seq<u8>, q: Seq<u8>, k: int, acc: Seq<Frame>, used: nat)
    requires
        !(decode_items(rest, k, acc, used) is Incomplete),
    ensures
        decode_items(rest + q, k, acc, used) == decode_items(rest, k, acc, used),
    decreases rest.len(), 1nat,
{
    if k > 0 {
        lemma_decode_extend(rest, q);
        match decode(rest) {
            Decoded::Complete(f, c) => {
                let step = c + trailer(f);
                if c != 0 && step <= rest.len() {
                    let next = rest.subrange(step as int, rest.len() as int);
                    assert((rest + q).subrange(step as int, (rest + q).len() as int) =~= next + q);
                    lemma_items_extend(next, q, k - 1, acc.push(f), used + step);
                }
            },
            _ => {},
        }
    }
}

/// Feeding `chunks` one after another to a window that already holds
/// `seen`: the first outcome that is not `Incomplete`.
pub open spec fn decode_chunked(seen: Seq<u8>, chunks: Seq<Seq<u8>>) -> Decoded
    decreases chunks.len(),
{
    if chunks.len() == 0 {
        Decoded::Incomplete
    } else {
        let m = seen + chunks[0];
        match decode(m) {
            Decoded::Incomplete => decode_chunked(m, chunks.drop_first()),
            other => other,
        }
    }
}

proof fn lemma_chunked_from(seen: Seq<u8>, chunks: Seq<Seq<u8>>)
    requires
        decode(seen) is Incomplete,
        !(decode(seen + chunks.flatten()) is Incomplete),
    ensures
        decode_chunked(seen, chunks) == decode(seen + chunks.flatten()),
    decreases chunks.len(),
{
    if chunks.len() == 0 {
        assert(seen + chunks.flatten() =~= seen);
    } else {
        let m = seen + chunks[0];
        assert(chunks.flatten() == chunks[0] + chunks.drop_first().flatten());
        assert(seen + chunks.flatten() =~= m + chunks.drop_first().flatten());
        if decode(m) is Incomplete {
            lemma_chunked_from(m, chunks.drop_first());
        } else {
            lemma_decode_extend(m, chunks.drop_first().flatten());
        }
    }
}

/// Split delivery: however the bytes of a message are cut into chunks
/// (one byte each, or all at once), feeding them one after another gives
/// the same value and the same consumed count, or the same error, as
/// decoding all of them in one call.
pub proof fn lemma_split_delivery(chunks: Seq<Seq<u8>>)
    requires
        !(decode(chunks.flatten()) is Incomplete),
    ensures
        decode_chunked(seq![], chunks) == decode(chunks.flatten()),
{
    assert(crlf_from(Seq::<u8>::empty(), 0) is None);
    assert(seq![] + chunks.flatten() =~= chunks.flatten());
    lemma_chunked_from(seq![], chunks);
}


/// Feeding `chunks` one after another to a receive window that holds
/// `seen`: the first outcome of the window that is not `Incomplete`.
pub open spec fn window_chunked(seen: Seq<u8>, chunks: Seq<Seq<u8>>) -> Decoded
    decreases chunks.len(),
{
    if chunks.len() == 0 {
        Decoded::Incomplete
    } else {
        let m = seen + chunks[0];
        match window_outcome(m) {
            Decoded::Incomplete => window_chunked(m, chunks.drop_first()),
            other => other,
        }
    }
}

proof fn lemma_window_from(seen: Seq<u8>, chunks: Seq<Seq<u8>>)
    requires
        decode(seen) is Incomplete,
        (seen + chunks.flatten()).len() <= READ_BUFFER_SIZE,
        !(decode(seen + chunks.flatten()) is Incomplete),
    ensures
        window_chunked(seen, chunks) == decode(seen + chunks.flatten()),
    decreases chunks.len(),
{
    if chunks.len() == 0 {
        assert(seen + chunks.flatten() =~= seen);
    } else {
        let m = seen + chunks[0];
        let rest = chunks.drop_first().flatten();
        assert(chunks.flatten() == chunks[0] + rest);
        assert(seen + chunks.flatten() =~= m + rest);
        if decode(m) is Incomplete {
            if m.len() >= READ_BUFFER_SIZE {
                assert(rest.len() == 0);
                assert(m + rest =~= m);
            }
            lemma_window_from(m, chunks.drop_first());
        } else {
            lemma_decode_extend(m, rest);
        }
    }
}

/// Split delivery through the receive window: however a message that fits
/// the window is cut into chunks, receiving them one after another gives
/// the same value and the same consumed count, or the same error, as
/// receiving all of it at once.
pub proof fn lemma_window_split_delivery(chunks: Seq<Seq<u8>>)
    requires
        chunks.flatten().len() <= READ_BUFFER_SIZE,
        !(decode(chunks.flatten()) is Incomplete),
    ensures
        window_chunked(seq![], chunks) == window_outcome(chunks.flatten()),
        window_chunked(seq![], chunks) == window_chunked(seq![], seq![chunks.flatten()]),
{
    assert(crlf_from(Seq::<u8>::empty(), 0) is None);
    assert(seq![] + chunks.flatten() =~= chunks.flatten());
    lemma_window_from(seq![], chunks);
    let one = seq![chunks.flatten()];
    assert(one.drop_first() =~= Seq::<Seq<u8>>::empty());
}

proof fn lemma_decimal_parse(n: nat)
    requires
        n <= i32::MAX,
    ensures
        int_text_value(decimal_digits(n), i32::MIN as int, i32::MAX as int) == Some(n as int),
{
    lemma_decimal_digits(n);
    let d = decimal_digits(n);
    assert(is_digit(d[0]));
}

proof fn lemma_first_crlf(buf: Seq<u8>, k: int, i: int)
    requires
        0 <= k <= i,
        is_crlf_at(buf, i),
        forall|j: int| k <= j < i ==> !is_crlf_at(buf, j),
    ensures
        crlf_from(buf, k) == Some(i),
    decreases i - k,
{
    if k < i {
        lemma_first_crlf(buf, k + 1, i);
    }
}

/// Where the prefix line of an encoded value ends.
proof fn lemma_prefix_line(tag: u8, n: nat, tail: Seq<u8>)
    requires
        tag == 42u8 || tag == 36u8,
        n <= i32::MAX,
    ensures
        ({
            let buf = seq![tag] + decimal_digits(n) + crlf() + tail;
            let cr = 1 + decimal_digits(n).len() as int;
            &&& crlf_from(buf, 0) == Some(cr)
            &&& buf.subrange(1, cr) =~= decimal_digits(n)
            &&& buf.subrange(cr + 2, buf.len() as int) =~= tail
            &&& buf[0] == tag
            &&& int_text_value(buf.subrange(1, cr), i32::MIN as int, i32::MAX as int) == Some(n as int)
        }),
{
    let d = decimal_digits(n);
    let buf = seq![tag] + d + crlf() + tail;
    let cr = 1 + d.len() as int;
    lemma_decimal_parse(n);
    lemma_decimal_digits(n);
    assert forall|j: int| 0 <= j < cr implies !is_crlf_at(buf, j) by {
        if j > 0 {
            assert(buf[j] == d[j - 1]);
            assert(is_digit(d[j - 1]));
        }
    }
    assert(buf[cr] == 13u8 && buf[cr + 1] == 10u8);
    lemma_first_crlf(buf, 0, cr);
    assert(buf.subrange(1, cr) =~= d);
}

proof fn lemma_encode_all_head(s: Seq<Frame>)
    requires
        s.len() >= 1,
    ensures
        encode_all(s) == encode(s[0]) + encode_all(s.drop_first()),
    decreases s.len(),
{
    if s.len() == 1 {
        assert(s.drop_last() =~= Seq::<Frame>::empty());
        assert(s.drop_first() =~= Seq::<Frame>::empty());
        assert(encode_all(s) =~= encode(s[0]) + encode_all(s.drop_first()));
    } else {
        lemma_encode_all_head(s.drop_last());
        assert(s.drop_first().drop_last() =~= s.drop_last().drop_first());
        assert(s.drop_first().last() == s.last());
        assert(s.drop_last()[0] == s[0]);
        assert(encode_all(s) =~= encode(s[0]) + encode_all(s.drop_first()));
    }
}

proof fn lemma_encode_all_len(s: Seq<Frame>)
    ensures
        encode_all(s).len() >= s.len(),
    decreases s.len(),
{
    if s.len() > 0 {
        lemma_encode_all_len(s.drop_last());
        assert(encode(s.last()).len() >= 1);
        assert(encode_all(s) == encode_all(s.drop_last()) + encode(s.last()));
    }
}

proof fn lemma_encode_all_item_len(s: Seq<Frame>, i: int)
    requires
        0 <= i < s.len(),
    ensures
        encode(s[i]).len() <= encode_all(s).len(),
    decreases s.len(),
{
    if i < s.len() - 1 {
        lemma_encode_all_item_len(s.drop_last(), i);
        assert(s.drop_last()[i] == s[i]);
    }
}

/// The bytes that decoding an encoded value consumes: all of them, but the
/// closing `\r\n` of a bulk string at the top level.
pub open spec fn wire_len(f: Frame) -> nat {
    (encode(f).len() - trailer(f)) as nat
}

proof fn lemma_bulk_round_trip(b: Seq<u8>)
    requires
        b.len() <= i32::MAX,
    ensures
        decode(encode(Frame::Bulk(b))) == Decoded::Complete(Frame::Bulk(b), wire_len(Frame::Bulk(b))),
{
    let tail = b + crlf();
    lemma_prefix_line(36u8, b.len(), tail);
    assert(encode(Frame::Bulk(b)) =~= seq![36u8] + decimal_digits(b.len()) + crlf() + tail);
    assert(tail.take(b.len() as int) =~= b);
}

proof fn lemma_frame_round_trip(f: Frame)
    requires
        encode(f).len() <= i32::MAX,
    ensures
        decode(encode(f)) == Decoded::Complete(f, wire_len(f)),
    decreases f, 0int,
{
    match f {
        Frame::Bulk(b) => {
            lemma_bulk_round_trip(b);
        },
        Frame::Array(items) => {
            lemma_encode_all_len(items);
            let tail = encode_all(items);
            lemma_prefix_line(42u8, items.len(), tail);
            assert forall|i: int| 0 <= i < items.len() implies #[trigger] encode(items[i]).len() <= i32::MAX by {
                lemma_encode_all_item_len(items, i);
            }
            assert(items.subrange(0, items.len() as int) =~= items);
            assert(items.take(0) =~= Seq::<Frame>::empty());
            lemma_items_round_trip(items, 0, 0);
        },
    }
}

proof fn lemma_items_round_trip(items: Seq<Frame>, j: int, used: nat)
    requires
        0 <= j <= items.len(),
        forall|i: int| 0 <= i < items.len() ==> #[trigger] encode(items[i]).len() <= i32::MAX,
    ensures
        decode_items(encode_all(items.subrange(j, items.len() as int)), items.len() - j, items.take(j), used)
            == Decoded::Complete(Frame::Array(items), used + encode_all(items.subrange(j, items.len() as int)).len()),
    decreases items, items.len() - j,
{
    let s = items.subrange(j, items.len() as int);
    if j == items.len() {
        assert(items.take(j) =~= items);
        assert(s =~= Seq::<Frame>::empty());
    } else {
        lemma_encode_all_head(s);
        let f = items[j];
        assert(s[0] == f);
        lemma_frame_round_trip(f);
        let rest_enc = encode_all(s.drop_first());
        lemma_decode_extend(encode(f), rest_enc);
        let whole = encode(f) + rest_enc;
        lemma_decode_consumes(whole);
        let step = encode(f).len();
        assert(wire_len(f) + trailer(f) == step) by {
            match f {
                Frame::Bulk(b) => {},
                Frame::Array(a) => {},
            }
        }
        assert(whole.subrange(step as int, whole.len() as int) =~= rest_enc);
        assert(s.drop_first() =~= items.subrange(j + 1, items.len() as int));
        assert(items.take(j).push(f) =~= items.take(j + 1));
        lemma_items_round_trip(items, j + 1, used + step);
    }
}

/// Round trip: decoding the wire form of any value (arrays nested to any
/// depth) that fits in the receive window gives the value back.
pub proof fn lemma_round_trip(f: Frame)
    requires
        encode(f).len() <= READ_BUFFER_SIZE,
    ensures
        decode(encode(f)) == Decoded::Complete(f, wire_len(f)),
{
    lemma_frame_round_trip(f);
}

} // verus!
