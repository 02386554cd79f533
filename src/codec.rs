//! The RESP frame codec: an incremental decoder for arrays and bulk strings
//! and the encoder for replies.

use vstd::prelude::*;
use vstd::slice::slice_to_vec;
use crate::decimal::{decimal_digits, int_text_value, parse_int, push_decimal};
use crate::text::{text_of, lossy_string};

verus! {

broadcast use {vstd::std_specs::vec::axiom_vec_index_decreases, vstd::seq::axiom_seq_index_decreases, vstd::seq::axiom_seq_subrange_decreases};

/// A protocol value as the decoder sees it.
pub enum Frame {
    Bulk(Seq<u8>),
    Array(Seq<Frame>),
}

/// What a decoding error says.
pub enum FrameError {
    MessageTooBig,
    UnhandledRespDataType(char),
    ArrayNumElementsInvalidLength(Seq<char>),
    BulkStringInvalidLength(Seq<char>),
}

/// The result of one decoding attempt on a buffer.
pub enum Decoded {
    /// No complete value yet: more bytes are needed.
    Incomplete,
    /// A value and the number of bytes it consumed.
    Complete(Frame, nat),
    Invalid(FrameError),
}

#[derive(Debug)]
pub enum ResponseType {
    BulkString(Vec<u8>),
    Array(Vec<ResponseType>),
}

pub open spec fn frame_of(r: &ResponseType) -> Frame
    decreases r,
{
    match r {
        ResponseType::BulkString(b) => Frame::Bulk(b@),
        ResponseType::Array(v) => Frame::Array(
            Seq::new(v.len() as nat, |i: int| if 0 <= i < v.len() { frame_of(&v[i]) } else { Frame::Bulk(seq![]) }),
        ),
    }
}

impl View for ResponseType {
    type V = Frame;

    open spec fn view(&self) -> Frame {
        frame_of(self)
    }
}

impl ResponseType {
    /// The text of a bulk string; `None` for an array.
    pub fn string(&self) -> (r: Option<String>)
        ensures
            match self@ {
                Frame::Bulk(b) => r is Some && r->Some_0@ == text_of(b),
                Frame::Array(_) => r is None,
            },
    {
        match self {
            ResponseType::BulkString(bytes) => Some(lossy_string(bytes.as_slice())),
            ResponseType::Array(_) => None,
        }
    }
}

pub proof fn lemma_array_view(elements: Vec<ResponseType>)
    ensures
        ResponseType::Array(elements)@ == Frame::Array(elements@.map_values(|e: ResponseType| e@)),
{
    let items = frame_of(&ResponseType::Array(elements))->Array_0;
    assert(items =~= elements@.map_values(|e: ResponseType| e@));
}


#[derive(Debug)]
pub enum RespProtocolError {
    MessageTooBig,
    UnhandledRespDataType(char),
    ArrayNumElementsInvalidLength(String),
    BulkStringInvalidLength(String),
}

impl View for RespProtocolError {
    type V = FrameError;

    open spec fn view(&self) -> FrameError {
        match self {
            RespProtocolError::MessageTooBig => FrameError::MessageTooBig,
            RespProtocolError::UnhandledRespDataType(c) => FrameError::UnhandledRespDataType(*c),
            RespProtocolError::ArrayNumElementsInvalidLength(s) => FrameError::ArrayNumElementsInvalidLength(s@),
            RespProtocolError::BulkStringInvalidLength(s) => FrameError::BulkStringInvalidLength(s@),
        }
    }
}

/// A decoded value and the number of buffer bytes it used.
pub struct RespParseResult {
    pub request: ResponseType,
    pub consumed: usize,
}

pub open spec fn is_crlf_at(buf: Seq<u8>, i: int) -> bool {
    0 <= i && i + 1 < buf.len() && buf[i] == 13u8 && buf[i + 1] == 10u8
}

/// The position of the first `\r\n` at or after `k`.
pub open spec fn crlf_from(buf: Seq<u8>, k: int) -> Option<int>
    decreases buf.len() - k,
{
    if k < 0 || k + 1 >= buf.len() {
        None
    } else if is_crlf_at(buf, k) {
        Some(k)
    } else {
        crlf_from(buf, k + 1)
    }
}

/// Decodes one value from the start of `buf`.
///
/// The line up to the first `\r\n` is the prefix: a type tag (`*` or `$`)
/// and an `i32` in decimal. A bulk string is the `n` bytes after the prefix
/// line and consumes the prefix line and those bytes. An array is `n` values
/// after the prefix line (none for a negative `n`); an element that is a
/// bulk string also consumes the two bytes that close its payload. Until
/// all of that has arrived the result is `Incomplete`: no partial value is
/// ever returned.
pub open spec fn decode(buf: Seq<u8>) -> Decoded
    decreases buf.len(), 0nat,
{
    match crlf_from(buf, 0) {
        None => Decoded::Incomplete,
        Some(cr) => {
            if cr < 0 || cr + 2 > buf.len() {
                Decoded::Incomplete
            } else {
                let digits = buf.subrange(1, cr);
                let rest = buf.subrange(cr + 2, buf.len() as int);
                if buf[0] == 42u8 {
                    match int_text_value(digits, i32::MIN as int, i32::MAX as int) {
                        None => Decoded::Invalid(FrameError::ArrayNumElementsInvalidLength(text_of(digits))),
                        Some(n) => match decode_items(rest, n, seq![], 0) {
                            Decoded::Complete(f, c) => Decoded::Complete(f, c + cr as nat + 2),
                            other => other,
                        },
                    }
                } else if buf[0] == 36u8 {
                    match int_text_value(digits, i32::MIN as int, i32::MAX as int) {
                        Some(n) => if n < 0 {
                            Decoded::Invalid(FrameError::BulkStringInvalidLength(text_of(digits)))
                        } else if n <= rest.len() {
                            Decoded::Complete(Frame::Bulk(rest.take(n)), cr as nat + 2 + n as nat)
                        } else {
                            Decoded::Incomplete
                        },
                        None => Decoded::Invalid(FrameError::BulkStringInvalidLength(text_of(digits))),
                    }
                } else {
                    Decoded::Invalid(FrameError::UnhandledRespDataType(buf[0] as char))
                }
            }
        },
    }
}

/// The bytes that follow an array element and belong to it: the `\r\n`
/// that closes a bulk string's payload.
pub open spec fn trailer(f: Frame) -> nat {
    match f {
        Frame::Bulk(_) => 2,
        Frame::Array(_) => 0,
    }
}

/// Decodes `k` more array elements from `rest`, after `acc`, which used
/// `used` bytes.
pub open spec fn decode_items(rest: Seq<u8>, k: int, acc: Seq<Frame>, used: nat) -> Decoded
    decreases rest.len(), 1nat,
{
    if k <= 0 {
        Decoded::Complete(Frame::Array(acc), used)
    } else {
        match decode(rest) {
            // A value consumes at least its prefix line, so `c` is never 0
            // (see `lemma_decode_consumes`); the test keeps the recursion
            // visibly decreasing.
            Decoded::Complete(f, c) => if c == 0 || c + trailer(f) > rest.len() {
                Decoded::Incomplete
            } else {
                decode_items(
                    rest.subrange(c + trailer(f) as int, rest.len() as int),
                    k - 1,
                    acc.push(f),
                    used + c + trailer(f),
                )
            },
            other => other,
        }
    }
}

/// A decoded value consumes at least its prefix line.
pub proof fn lemma_decode_consumes(buf: Seq<u8>)
    ensures
        decode(buf) matches Decoded::Complete(_, c) ==> c >= 2,
{
}

/// What a parse result says, as a `Decoded`.
pub open spec fn outcome(r: Result<Option<RespParseResult>, RespProtocolError>) -> Decoded {
    match r {
        Ok(None) => Decoded::Incomplete,
        Ok(Some(p)) => Decoded::Complete(p.request@, p.consumed as nat),
        Err(e) => Decoded::Invalid(e@),
    }
}

pub proof fn lemma_crlf_from_bounds(buf: Seq<u8>, k: int)
    requires
        k >= 0,
    ensures
        match crlf_from(buf, k) {
            Some(i) => k <= i && is_crlf_at(buf, i) && forall|j: int| k <= j < i ==> !is_crlf_at(buf, j),
            None => forall|j: int| k <= j ==> !is_crlf_at(buf, j),
        },
    decreases buf.len() - k,
{
    if k + 1 < buf.len() && !is_crlf_at(buf, k) {
        lemma_crlf_from_bounds(buf, k + 1);
    }
}


/// The position just past the first `\r\n` of `buffer`, less one: the index
/// of its `\n`.
fn get_next_part_end(buffer: &[u8]) -> (r: Option<usize>)
    ensures
        match r {
            Some(e) => e >= 1 && crlf_from(buffer@, 0) == Some(e - 1),
            None => crlf_from(buffer@, 0) is None,
        },
{
    let mut i: usize = 0;
    while i < buffer.len()
        invariant
            i <= buffer.len(),
            crlf_from(buffer@, 0) == crlf_from(buffer@, i as int),
        decreases buffer.len() - i,
    {
        if buffer[i] == 13u8 && i + 1 < buffer.len() && buffer[i + 1] == 10u8 {
            return Some(i + 1);
        }
        i = i + 1;
    }
    None
}

/// Reads a bulk string whose length text is `string_part` from the start of
/// `remainder`; `consumed` counts the payload only.
fn parse_bulk_string(string_part: &[u8], remainder: &[u8]) -> (r: Result<Option<RespParseResult>, RespProtocolError>)
    ensures
        match int_text_value(string_part@, i32::MIN as int, i32::MAX as int) {
            Some(n) => if n < 0 {
                outcome(r) == Decoded::Invalid(FrameError::BulkStringInvalidLength(text_of(string_part@)))
            } else if n <= remainder@.len() {
                outcome(r) == Decoded::Complete(Frame::Bulk(remainder@.take(n)), n as nat)
            } else {
                outcome(r) == Decoded::Incomplete
            },
            None => outcome(r) == Decoded::Invalid(FrameError::BulkStringInvalidLength(text_of(string_part@))),
        },
        r matches Ok(Some(p)) ==> p.consumed <= remainder@.len(),
{
    let length = match parse_int(string_part, i32::MIN as i128, i32::MAX as i128) {
        Some(v) => v,
        None => return Err(RespProtocolError::BulkStringInvalidLength(lossy_string(string_part))),
    };
    if length < 0 {
        return Err(RespProtocolError::BulkStringInvalidLength(lossy_string(string_part)));
    }
    if length as usize > remainder.len() {
        return Ok(None);
    }
    let length = length as usize;
    let payload = slice_to_vec(&remainder[0..length]);
    assert(payload@ == remainder@.take(length as int));
    Ok(Some(RespParseResult { request: ResponseType::BulkString(payload), consumed: length }))
}

/// Reads an array whose element count text is `array_part` from the start
/// of `remainder`; `consumed` counts the elements only.
fn parse_array(array_part: &[u8], remainder: &[u8]) -> (r: Result<Option<RespParseResult>, RespProtocolError>)
    ensures
        match int_text_value(array_part@, i32::MIN as int, i32::MAX as int) {
            Some(n) => outcome(r) == decode_items(remainder@, n, seq![], 0),
            None => outcome(r) == Decoded::Invalid(FrameError::ArrayNumElementsInvalidLength(text_of(array_part@))),
        },
        r matches Ok(Some(p)) ==> p.consumed <= remainder@.len(),
    decreases remainder@.len(), 1nat,
{
    let num_elements = match parse_int(array_part, i32::MIN as i128, i32::MAX as i128) {
        Some(v) => v,
        None => return Err(RespProtocolError::ArrayNumElementsInvalidLength(lossy_string(array_part))),
    };
    let ghost n = num_elements as int;
    let mut consumed: usize = 0;
    let mut elements: Vec<ResponseType> = Vec::new();
    let mut rest: &[u8] = remainder;
    let mut i: i128 = 0;
    let total: usize = remainder.len();
    assert(elements@.map_values(|e: ResponseType| e@) =~= seq![]);
    while i < num_elements
        invariant
            0 <= i,
            i <= num_elements || i == 0,
            i32::MIN <= num_elements <= i32::MAX,
            n == num_elements as int,
            int_text_value(array_part@, i32::MIN as int, i32::MAX as int) == Some(n),
            consumed <= remainder@.len(),
            total == remainder@.len(),
            rest@ == remainder@.subrange(consumed as int, remainder@.len() as int),
            decode_items(remainder@, n, seq![], 0)
                == decode_items(rest@, n - i, elements@.map_values(|e: ResponseType| e@), consumed as nat),
        decreases num_elements - i,
    {
        let element = match parse_resp(rest) {
            Ok(Some(p)) => p,
            Ok(None) => {
                assert(decode(rest@) == Decoded::Incomplete);
                return Ok(None);
            },
            Err(e) => return Err(e),
        };
        proof {
            lemma_decode_consumes(rest@);
        }
        let trail: usize = match &element.request {
            ResponseType::BulkString(_) => 2,
            ResponseType::Array(_) => 0,
        };
        if rest.len() - element.consumed < trail {
            return Ok(None);
        }
        let step = element.consumed + trail;
        assert(consumed + step <= remainder@.len());
        let ghost before = elements@.map_values(|e: ResponseType| e@);
        elements.push(element.request);
        assert(elements@.map_values(|e: ResponseType| e@) =~= before.push(element.request@));
        rest = &rest[step..rest.len()];
        assert(rest@ =~= remainder@.subrange((consumed + step) as int, remainder@.len() as int));
        consumed = consumed + step;
        i = i + 1;
    }
    let ghost acc = elements@.map_values(|e: ResponseType| e@);
    proof {
        lemma_array_view(elements);
    }
    let value = ResponseType::Array(elements);
    Ok(Some(RespParseResult { request: value, consumed }))
}

/// Decodes one value from the start of `buffer`.
pub fn parse_resp(buffer: &[u8]) -> (r: Result<Option<RespParseResult>, RespProtocolError>)
    ensures
        outcome(r) == decode(buffer@),
        r matches Ok(Some(p)) ==> p.consumed <= buffer@.len(),
    decreases buffer@.len(), 0nat,
{
    let part_end = match get_next_part_end(buffer) {
        Some(e) => e,
        None => return Ok(None),
    };
    proof {
        lemma_crlf_from_bounds(buffer@, 0);
    }
    let prefix_end = part_end - 1;
    let tag = buffer[0];
    let result = if tag == 42u8 {
        parse_array(&buffer[1..prefix_end], &buffer[part_end + 1..buffer.len()])
    } else if tag == 36u8 {
        parse_bulk_string(&buffer[1..prefix_end], &buffer[part_end + 1..buffer.len()])
    } else {
        return Err(RespProtocolError::UnhandledRespDataType(tag as char));
    };
    match result {
        Ok(Some(p)) => Ok(Some(RespParseResult { request: p.request, consumed: p.consumed + (prefix_end + 2) })),
        Ok(None) => Ok(None),
        Err(e) => Err(e),
    }
}


pub open spec fn crlf() -> Seq<u8> {
    seq![13u8, 10u8]
}

/// The wire form of a value: `$<len>\r\n<bytes>\r\n` for a bulk string,
/// `*<len>\r\n` and then each element in order for an array.
pub open spec fn encode(f: Frame) -> Seq<u8>
    decreases f,
{
    match f {
        Frame::Bulk(b) => seq![36u8] + decimal_digits(b.len()) + crlf() + b + crlf(),
        Frame::Array(items) => seq![42u8] + decimal_digits(items.len()) + crlf() + encode_all(items),
    }
}

/// The wire forms of `items`, one after another.
pub open spec fn encode_all(items: Seq<Frame>) -> Seq<u8>
    decreases items,
{
    if items.len() == 0 {
        seq![]
    } else {
        encode_all(items.drop_last()) + encode(items.last())
    }
}

/// Appends `+<string>\r\n`.
pub fn write_simple_string(buffer: &mut Vec<u8>, string: &[u8])
    ensures
        final(buffer)@ == old(buffer)@ + seq![43u8] + string@ + crlf(),
{
    buffer.push(43u8);
    buffer.extend_from_slice(string);
    buffer.push(13u8);
    buffer.push(10u8);
    assert(final(buffer)@ =~= old(buffer)@ + seq![43u8] + string@ + crlf());
}

/// Appends `-<string>\r\n`.
pub fn write_simple_error(buffer: &mut Vec<u8>, string: &[u8])
    ensures
        final(buffer)@ == old(buffer)@ + seq![45u8] + string@ + crlf(),
{
    buffer.push(45u8);
    buffer.extend_from_slice(string);
    buffer.push(13u8);
    buffer.push(10u8);
    assert(final(buffer)@ =~= old(buffer)@ + seq![45u8] + string@ + crlf());
}

/// Appends `+OK\r\n`.
pub fn write_ok(buffer: &mut Vec<u8>)
    ensures
        final(buffer)@ == old(buffer)@ + seq![43u8, 79u8, 75u8] + crlf(),
{
    let ok: [u8; 2] = [79u8, 75u8];
    write_simple_string(buffer, &ok);
    assert(final(buffer)@ =~= old(buffer)@ + seq![43u8, 79u8, 75u8] + crlf());
}

/// Appends the nil bulk string, `$-1\r\n`.
pub fn write_nil_bulk_string(buffer: &mut Vec<u8>)
    ensures
        final(buffer)@ == old(buffer)@ + seq![36u8, 45u8, 49u8] + crlf(),
{
    buffer.push(36u8);
    buffer.push(45u8);
    buffer.push(49u8);
    buffer.push(13u8);
    buffer.push(10u8);
    assert(final(buffer)@ =~= old(buffer)@ + seq![36u8, 45u8, 49u8] + crlf());
}

/// Appends `string` as a bulk string.
pub fn write_bulk_string(buffer: &mut Vec<u8>, string: &[u8])
    ensures
        final(buffer)@ == old(buffer)@ + encode(Frame::Bulk(string@)),
{
    buffer.push(36u8);
    push_decimal(buffer, string.len() as u64);
    buffer.push(13u8);
    buffer.push(10u8);
    buffer.extend_from_slice(string);
    buffer.push(13u8);
    buffer.push(10u8);
    assert(final(buffer)@ =~= old(buffer)@ + encode(Frame::Bulk(string@)));
}

/// Appends the wire form of `value`.
pub fn write_resp(buffer: &mut Vec<u8>, value: &ResponseType)
    ensures
        final(buffer)@ == old(buffer)@ + encode(value@),
    decreases value, 1nat,
{
    match value {
        ResponseType::Array(elements) => {
            proof {
                lemma_array_view(*elements);
            }
            write_array(buffer, elements)
        },
        ResponseType::BulkString(s) => write_bulk_string(buffer, s.as_slice()),
    }
}

/// Appends the wire form of an array of `elements`.
pub fn write_array(buffer: &mut Vec<u8>, elements: &Vec<ResponseType>)
    ensures
        final(buffer)@ == old(buffer)@ + encode(Frame::Array(elements@.map_values(|e: ResponseType| e@))),
    decreases elements, 0nat,
{
    let ghost items = elements@.map_values(|e: ResponseType| e@);
    buffer.push(42u8);
    push_decimal(buffer, elements.len() as u64);
    buffer.push(13u8);
    buffer.push(10u8);
    let ghost header = buffer@;
    let mut i: usize = 0;
    assert(items.take(0) =~= seq![]);
    while i < elements.len()
        invariant
            i <= elements.len(),
            items == elements@.map_values(|e: ResponseType| e@),
            buffer@ == header + encode_all(items.take(i as int)),
        decreases elements.len() - i,
    {
        write_resp(buffer, &elements[i]);
        assert(items.take(i + 1).drop_last() =~= items.take(i as int));
        i = i + 1;
    }
    assert(items.take(i as int) =~= items);
    assert(final(buffer)@ =~= old(buffer)@ + encode(Frame::Array(items)));
}


/// The capacity of a connection's receive window.
pub const READ_BUFFER_SIZE: usize = 512;

/// What the window does with the bytes `m` that it holds after receiving:
/// decodes them, except that a full window with no complete value fails
/// with `MessageTooBig`.
pub open spec fn window_outcome(m: Seq<u8>) -> Decoded {
    match decode(m) {
        Decoded::Incomplete => if m.len() >= READ_BUFFER_SIZE {
            Decoded::Invalid(FrameError::MessageTooBig)
        } else {
            Decoded::Incomplete
        },
        other => other,
    }
}

/// A connection's receive window: the bytes received and not yet consumed
/// by a decoded value.
pub struct FrameReader {
    buffer: Vec<u8>,
}

impl View for FrameReader {
    type V = Seq<u8>;

    closed spec fn view(&self) -> Seq<u8> {
        self.buffer@
    }
}

impl FrameReader {
    pub open spec fn wf(&self) -> bool {
        self@.len() <= READ_BUFFER_SIZE
    }

    pub fn new() -> (r: FrameReader)
        ensures
            r@ == Seq::<u8>::empty(),
            r.wf(),
    {
        FrameReader { buffer: Vec::new() }
    }

    /// How many more bytes the window can take.
    pub fn free_space(&self) -> (n: usize)
        requires
            self.wf(),
        ensures
            n == READ_BUFFER_SIZE - self@.len(),
    {
        READ_BUFFER_SIZE - self.buffer.len()
    }

    /// Appends `data` to the window and tries to decode one value from it.
    ///
    /// A decoded value leaves the window, which keeps what follows it. While
    /// no value is complete the window keeps everything, and a full window
    /// fails with `MessageTooBig`.
    pub fn receive(&mut self, data: &[u8]) -> (r: Result<Option<ResponseType>, RespProtocolError>)
        requires
            old(self).wf(),
            old(self)@.len() + data@.len() <= READ_BUFFER_SIZE,
        ensures
            final(self).wf(),
            ({
                let m = old(self)@ + data@;
                match window_outcome(m) {
                    Decoded::Incomplete => r matches Ok(None) && final(self)@ == m,
                    Decoded::Complete(f, c) => r matches Ok(Some(v)) && v@ == f
                        && final(self)@ == m.subrange(c as int, m.len() as int),
                    Decoded::Invalid(e) => r matches Err(x) && x@ == e,
                }
            }),
    {
        self.buffer.extend_from_slice(data);
        let ghost m = old(self)@ + data@;
        assert(self.buffer@ =~= m);
        let parsed = parse_resp(self.buffer.as_slice());
        match parsed {
            Ok(Some(p)) => {
                let len = self.buffer.len();
                let rest = slice_to_vec(&self.buffer.as_slice()[p.consumed..len]);
                assert(rest@ =~= m.subrange(p.consumed as int, m.len() as int));
                self.buffer = rest;
                Ok(Some(p.request))
            },
            Ok(None) => {
                if self.buffer.len() >= READ_BUFFER_SIZE {
                    Err(RespProtocolError::MessageTooBig)
                } else {
                    Ok(None)
                }
            },
            Err(e) => Err(e),
        }
    }
}

} // verus!
