//! FIX 4.4 message parse/build and mapping to engine types.

use crate::decimal::Decimal;
use crate::execution::ExecutionReport;
use crate::fix::time::{digits_text, format_utc_timestamp, number_text, timestamp_text};
use crate::types::{
    ExecType, InstrumentId, Order, OrderId, OrderStatus, OrderType, Side, TimeInForce, TraderId,
};
use std::collections::HashMap;
use vstd::prelude::*;
use vstd::slice::slice_subrange;
use vstd::utf8::{decode_utf8, encode_utf8, valid_utf8};

verus! {

broadcast use vstd::std_specs::hash::group_hash_axioms;

/// The byte that ends every field.
pub const FIX_SOH: u8 = 0x01;

/// FIX message as tag → value.
pub type FixMessage = HashMap<u32, String>;

/// The values of a message as texts.
pub open spec fn texts(message: Map<u32, String>) -> Map<u32, Seq<char>> {
    Map::new(|tag: u32| message.contains_key(tag), |tag: u32| message[tag]@)
}

/// The place of the first byte `b` at or after `from`, or the length of
/// the bytes where there is none.
pub open spec fn find_byte(buf: Seq<u8>, from: int, b: u8) -> int
    decreases buf.len() - from,
{
    if from >= buf.len() {
        buf.len() as int
    } else if buf[from] == b {
        from
    } else {
        find_byte(buf, from + 1, b)
    }
}

/// Every byte is an ASCII digit.
pub open spec fn all_digits(bytes: Seq<u8>) -> bool {
    forall|i: int| 0 <= i < bytes.len() ==> 48 <= #[trigger] bytes[i] <= 57
}

/// The number that decimal digits denote.
pub open spec fn digits_value(bytes: Seq<u8>) -> nat
    decreases bytes.len(),
{
    if bytes.len() == 0 {
        0
    } else {
        (digits_value(bytes.drop_last()) * 10 + (bytes.last() - 48)) as nat
    }
}

/// The number that a text denotes: an optional plus sign, then at least
/// one decimal digit and nothing else, with a value of at most `max`.
pub open spec fn number_of(bytes: Seq<u8>, max: nat) -> Option<nat> {
    let digits = if bytes.len() > 0 && bytes[0] == 43 {
        bytes.skip(1)
    } else {
        bytes
    };
    if digits.len() == 0 || !all_digits(digits) || digits_value(digits) > max {
        None
    } else {
        Some(digits_value(digits))
    }
}

/// The bytes start with `8=FIX.4.4`, the field end byte, and `9=`.
pub open spec fn has_header(buf: Seq<u8>) -> bool {
    &&& buf.len() >= 14
    &&& buf.subrange(0, 12) == seq![56u8, 61u8, 70u8, 73u8, 88u8, 46u8, 52u8, 46u8, 52u8, FIX_SOH, 57u8, 61u8]
}

/// The length of the message that the bytes start with: the header, the
/// body with the length that field 9 states, and seven bytes for field 10,
/// which must start where the body ends. `None` where the bytes do not
/// start with a whole message.
pub open spec fn message_end(buf: Seq<u8>) -> Option<int> {
    if !has_header(buf) {
        None
    } else {
        let stop = find_byte(buf, 12, FIX_SOH);
        match number_of(buf.subrange(12, stop), usize::MAX as nat) {
            None => None,
            Some(body_len) => {
                let body_end = stop + 1 + body_len;
                if body_end + 7 > buf.len() || buf.subrange(body_end, body_end + 3) != seq![49u8, 48u8, 61u8] {
                    None
                } else {
                    Some(body_end + 7)
                }
            },
        }
    }
}

/// The fields from place `pos` on, added to `fields`. A field is a tag in
/// decimal, `=`, and a value that runs to the next field end byte, or to
/// the end of the message where no such byte follows. Reading ends before
/// the end of the message is reached where no `=` follows within it, and
/// after field 10. `None` where a tag is no number or a value is not valid
/// UTF-8.
pub open spec fn fields_from(buf: Seq<u8>, pos: int, end: int, fields: Map<u32, Seq<char>>) -> Option<
    Map<u32, Seq<char>>,
>
    decreases
            if pos < end {
                end - pos
            } else {
                0
            },
    via fields_from_decreases
{
    if pos < 0 || pos >= end || end > buf.len() {
        Some(fields)
    } else {
        let eq = find_byte(buf, pos, 61u8);
        if eq >= end {
            Some(fields)
        } else {
            match number_of(buf.subrange(pos, eq), u32::MAX as nat) {
                None => None,
                Some(tag) => {
                    let found = find_byte(buf, eq + 1, FIX_SOH);
                    let stop = if found < buf.len() {
                        found
                    } else {
                        end
                    };
                    let value = buf.subrange(eq + 1, stop);
                    if !valid_utf8(value) {
                        None
                    } else if tag == 10 {
                        Some(fields.insert(tag as u32, decode_utf8(value)))
                    } else {
                        fields_from(buf, stop + 1, end, fields.insert(tag as u32, decode_utf8(value)))
                    }
                },
            }
        }
    }
}

#[via_fn]
proof fn fields_from_decreases(buf: Seq<u8>, pos: int, end: int, fields: Map<u32, Seq<char>>) {
    if 0 <= pos < end <= buf.len() {
        lemma_find_byte(buf, pos, 61u8);
        let eq = find_byte(buf, pos, 61u8);
        if eq < end {
            lemma_find_byte(buf, eq + 1, FIX_SOH);
        }
    }
}

/// The message that the bytes start with, and its length.
pub open spec fn parsed(buf: Seq<u8>) -> Option<(Map<u32, Seq<char>>, int)> {
    match message_end(buf) {
        None => None,
        Some(end) => match fields_from(buf, 0, end, Map::empty()) {
            None => None,
            Some(fields) => Some((fields, end)),
        },
    }
}

/// The first byte `b` is found at its place, and nowhere before.
pub proof fn lemma_find_byte(buf: Seq<u8>, from: int, b: u8)
    requires
        0 <= from <= buf.len(),
    ensures
        from <= find_byte(buf, from, b) <= buf.len(),
        find_byte(buf, from, b) < buf.len() ==> buf[find_byte(buf, from, b)] == b,
        forall|i: int| from <= i < find_byte(buf, from, b) ==> buf[i] != b,
    decreases buf.len() - from,
{
    if from < buf.len() && buf[from] != b {
        lemma_find_byte(buf, from + 1, b);
    }
}

/// The place of the first byte `b` at or after `from`, or the length of
/// the bytes where there is none.
fn position_of(buf: &[u8], from: usize, b: u8) -> (i: usize)
    requires
        from <= buf.len(),
    ensures
        i == find_byte(buf@, from as int, b),
        from <= i <= buf.len(),
{
    let mut i = from;
    while i < buf.len() && buf[i] != b
        invariant
            from <= i <= buf.len(),
            find_byte(buf@, from as int, b) == find_byte(buf@, i as int, b),
        decreases buf.len() - i,
    {
        i += 1;
    }
    i
}

/// Digits denote a number that does not shrink as digits are added.
pub proof fn lemma_digits_value_grows(bytes: Seq<u8>, i: int)
    requires
        all_digits(bytes),
        0 <= i <= bytes.len(),
    ensures
        digits_value(bytes.take(i)) <= digits_value(bytes),
    decreases bytes.len() - i,
{
    if i < bytes.len() {
        assert(bytes.take(i + 1).drop_last() =~= bytes.take(i));
        assert(bytes.take(i + 1).last() == bytes[i]);
        lemma_digits_value_grows(bytes, i + 1);
    } else {
        assert(bytes.take(i) =~= bytes);
    }
}

/// The number that the bytes from `from` to `to` denote, if they denote
/// one of at most `max`.
pub(crate) fn parse_number(buf: &[u8], from: usize, to: usize, max: u64) -> (r: Option<u64>)
    requires
        from <= to <= buf.len(),
        max >= 9,
    ensures
        match number_of(buf@.subrange(from as int, to as int), max as nat) {
            None => r is None,
            Some(n) => r == Some(n as u64) && n <= max,
        },
{
    let ghost text = buf@.subrange(from as int, to as int);
    let start = if from < to && buf[from] == 43 {
        from + 1
    } else {
        from
    };
    let ghost digits = buf@.subrange(start as int, to as int);
    proof {
        if text.len() > 0 {
            assert(text[0] == buf@[from as int]);
        }
        if start > from {
            assert(text.skip(1) =~= digits);
        } else {
            assert(text =~= digits);
        }
    }
    if start == to {
        return None;
    }
    let mut value: u64 = 0;
    let mut i = start;
    proof {
        assert(digits.take(0) =~= Seq::<u8>::empty());
    }
    while i < to
        invariant
            from <= start <= i <= to <= buf.len(),
            max >= 9,
            digits == buf@.subrange(start as int, to as int),
            number_of(buf@.subrange(from as int, to as int), max as nat) == if !all_digits(digits)
                || digits_value(digits) > max {
                None::<nat>
            } else {
                Some(digits_value(digits))
            },
            all_digits(digits.take(i - start)),
            value == digits_value(digits.take(i - start)),
            value <= max,
        decreases to - i,
    {
        let b = buf[i];
        proof {
            assert(digits[i - start] == b);
            assert(digits.take(i - start + 1).drop_last() =~= digits.take(i - start));
            assert(digits.take(i - start + 1).last() == b);
        }
        if b < 48 || b > 57 {
            proof {
                assert(!(48 <= digits[i - start] <= 57));
            }
            return None;
        }
        proof {
            assert forall|k: int| 0 <= k < i - start + 1 implies 48 <= #[trigger] digits.take(i - start + 1)[k]
                <= 57 by {
                if k < i - start {
                    assert(digits.take(i - start)[k] == digits.take(i - start + 1)[k]);
                }
            }
        }
        let d = (b - 48) as u64;
        if value > (max - d) / 10 {
            proof {
                assert(digits_value(digits.take(i - start + 1)) == value * 10 + d);
                assert(value * 10 + d > max);
                if all_digits(digits) {
                    lemma_digits_value_grows(digits, i - start + 1);
                }
            }
            return None;
        }
        value = value * 10 + d;
        i += 1;
    }
    proof {
        assert(digits.take(to - start) =~= digits);
    }
    Some(value)
}

/// Calls `std::str::from_utf8` and copies the text: the text that the
/// bytes encode, or `None` where they are not valid UTF-8.
#[verifier::external_body]
fn text_of(bytes: &[u8]) -> (r: Option<String>)
    ensures
        r is Some <==> valid_utf8(bytes@),
        r is Some ==> r->0@ == decode_utf8(bytes@),
{
    match std::str::from_utf8(bytes) {
        Ok(s) => Some(s.to_string()),
        Err(_) => None,
    }
}

/// Parse one FIX message from the start of `buf`. Returns the message and
/// number of bytes consumed. The message must start with `8=FIX.4.4`, then
/// state the length of its body as field 9, and have field 10 where the
/// body ends. The checksum is read, not checked.
pub fn parse_fix_message(buf: &[u8]) -> (r: Option<(FixMessage, usize)>)
    ensures
        match parsed(buf@) {
            None => r is None,
            Some((fields, end)) => r is Some && texts(r.unwrap().0@) == fields && r.unwrap().1 == end,
        },
{
    if buf.len() < 14 {
        return None;
    }
    if !(buf[0] == 56 && buf[1] == 61 && buf[2] == 70 && buf[3] == 73 && buf[4] == 88 && buf[5] == 46
        && buf[6] == 52 && buf[7] == 46 && buf[8] == 52 && buf[9] == FIX_SOH && buf[10] == 57 && buf[11]
        == 61) {
        proof {
            let head = buf@.subrange(0, 12);
            assert(head[0] == buf@[0] && head[1] == buf@[1] && head[2] == buf@[2] && head[3] == buf@[3]
                && head[4] == buf@[4] && head[5] == buf@[5] && head[6] == buf@[6] && head[7] == buf@[7]
                && head[8] == buf@[8] && head[9] == buf@[9] && head[10] == buf@[10] && head[11]
                == buf@[11]);
        }
        return None;
    }
    proof {
        assert(buf@.subrange(0, 12) =~= seq![
            56u8,
            61u8,
            70u8,
            73u8,
            88u8,
            46u8,
            52u8,
            46u8,
            52u8,
            FIX_SOH,
            57u8,
            61u8,
        ]);
    }
    let stop = position_of(buf, 12, FIX_SOH);
    let body_len = match parse_number(buf, 12, stop, usize::MAX as u64) {
        Some(n) => n as usize,
        None => {
            return None;
        },
    };
    if body_len > buf.len() || stop >= buf.len() - body_len {
        return None;
    }
    let body_end = stop + 1 + body_len;
    if body_end > buf.len() - 7 {
        return None;
    }
    if !(buf[body_end] == 49 && buf[body_end + 1] == 48 && buf[body_end + 2] == 61) {
        proof {
            let tail = buf@.subrange(body_end as int, body_end + 3);
            assert(tail[0] == buf@[body_end as int] && tail[1] == buf@[body_end + 1] && tail[2]
                == buf@[body_end + 2]);
        }
        return None;
    }
    proof {
        assert(buf@.subrange(body_end as int, body_end + 3) =~= seq![49u8, 48u8, 61u8]);
    }
    let end = body_end + 7;
    proof {
        assert(message_end(buf@) == Some(end as int));
    }
    let mut message: HashMap<u32, String> = HashMap::new();
    let mut pos: usize = 0;
    let mut active = true;
    proof {
        assert(texts(message@) =~= Map::<u32, Seq<char>>::empty());
    }
    while active && pos < end
        invariant
            end <= buf.len(),
            buf.len() >= 14,
            message_end(buf@) == Some(end as int),
            fields_from(buf@, 0, end as int, Map::empty()) == if active {
                fields_from(buf@, pos as int, end as int, texts(message@))
            } else {
                Some(texts(message@))
            },
        decreases end - pos + if active { 1int } else { 0int },
    {
        let eq = position_of(buf, pos, 61u8);
        proof {
            lemma_find_byte(buf@, pos as int, 61u8);
            if eq < end {
                lemma_find_byte(buf@, eq + 1, FIX_SOH);
            }
        }
        if eq >= end {
            active = false;
        } else {
            let tag = match parse_number(buf, pos, eq, u32::MAX as u64) {
                Some(n) => n as u32,
                None => {
                    return None;
                },
            };
            let found = position_of(buf, eq + 1, FIX_SOH);
            let stop = if found < buf.len() {
                found
            } else {
                end
            };
            let value = match text_of(slice_subrange(buf, eq + 1, stop)) {
                Some(value) => value,
                None => {
                    return None;
                },
            };
            let ghost before = texts(message@);
            message.insert(tag, value);
            proof {
                assert(texts(message@) =~= before.insert(tag, value@));
                if tag != 10 && stop >= end {
                    assert(fields_from(buf@, stop + 1, end as int, texts(message@)) == Some(
                        texts(message@),
                    ));
                }
            }
            if tag == 10 || stop >= end {
                active = false;
            } else {
                pos = stop + 1;
            }
        }
    }
    Some((message, end))
}

/// The decimal digits of `n`, most significant first, as ASCII bytes.
pub open spec fn decimal_digits(n: nat) -> Seq<u8>
    decreases n,
{
    if n < 10 {
        seq![(48 + n) as u8]
    } else {
        decimal_digits(n / 10).push((48 + n % 10) as u8)
    }
}

/// One field on the wire: the tag in decimal, `=`, the value, and the
/// field end byte.
pub open spec fn field_bytes(tag: u32, value: Seq<char>) -> Seq<u8> {
    decimal_digits(tag as nat) + seq![61u8] + encode_utf8(value) + seq![FIX_SOH]
}

/// A tag that the writer sets itself: begin string, body length, checksum.
pub open spec fn is_framing_tag(tag: u32) -> bool {
    tag == 8 || tag == 9 || tag == 10
}

/// The body of a message: its fields in the order in which they were set,
/// without those that carry a framing tag.
pub open spec fn body_bytes(fields: Seq<(u32, Seq<char>)>) -> Seq<u8>
    decreases fields.len(),
{
    if fields.len() == 0 {
        Seq::empty()
    } else if is_framing_tag(fields.last().0) {
        body_bytes(fields.drop_last())
    } else {
        body_bytes(fields.drop_last()) + field_bytes(fields.last().0, fields.last().1)
    }
}

/// The head of a message: `8=FIX.4.4`, then the length of the body as
/// field 9.
pub open spec fn header_bytes(body_len: nat) -> Seq<u8> {
    seq![56u8, 61u8, 70u8, 73u8, 88u8, 46u8, 52u8, 46u8, 52u8, FIX_SOH, 57u8, 61u8] + decimal_digits(
        body_len,
    ) + seq![FIX_SOH]
}

/// The sum of the bytes, modulo 256.
pub open spec fn checksum(bytes: Seq<u8>) -> nat
    decreases bytes.len(),
{
    if bytes.len() == 0 {
        0
    } else {
        (checksum(bytes.drop_last()) + bytes.last() as nat) % 256
    }
}

/// The tail of a message: the checksum in three digits as field 10.
pub open spec fn trailer_bytes(sum: nat) -> Seq<u8> {
    seq![
        49u8,
        48u8,
        61u8,
        (48 + sum / 100) as u8,
        (48 + (sum / 10) % 10) as u8,
        (48 + sum % 10) as u8,
        FIX_SOH,
    ]
}

/// A whole message: head, body, and the checksum over both.
pub open spec fn message_bytes(fields: Seq<(u32, Seq<char>)>) -> Seq<u8> {
    let body = body_bytes(fields);
    let head = header_bytes(body.len());
    head + body + trailer_bytes(checksum(head + body))
}

/// The checksum of bytes with one more byte.
pub proof fn lemma_checksum_push(bytes: Seq<u8>, b: u8)
    ensures
        checksum(bytes.push(b)) == (checksum(bytes) + b as nat) % 256,
        checksum(bytes) < 256,
    decreases bytes.len(),
{
    assert(bytes.push(b).drop_last() =~= bytes);
    if bytes.len() > 0 {
        lemma_checksum_push(bytes.drop_last(), bytes.last());
        assert(bytes.drop_last().push(bytes.last()) =~= bytes);
    }
}

/// Appends the decimal digits of `n`.
fn push_number(out: &mut Vec<u8>, n: u64)
    ensures
        final(out)@ == old(out)@ + decimal_digits(n as nat),
    decreases n,
{
    if n >= 10 {
        push_number(out, n / 10);
    }
    let ghost before = out@;
    out.push((48 + n % 10) as u8);
    proof {
        if n >= 10 {
            assert(out@ =~= old(out)@ + decimal_digits(n as nat));
        } else {
            assert(out@ =~= old(out)@ + decimal_digits(n as nat));
        }
    }
}

/// Build a FIX message. Fields 8, 9 and 10 are set by the writer.
#[derive(Debug)]
pub struct FixWriter {
    fields: Vec<(u32, String)>,
}

impl View for FixWriter {
    type V = Seq<(u32, Seq<char>)>;

    /// The fields in the order in which they were set.
    closed spec fn view(&self) -> Seq<(u32, Seq<char>)> {
        Seq::new(self.fields@.len(), |i: int| (self.fields@[i].0, self.fields@[i].1@))
    }
}

impl FixWriter {
    pub fn new() -> (w: FixWriter)
        ensures
            w@ == Seq::<(u32, Seq<char>)>::empty(),
    {
        let w = FixWriter { fields: Vec::new() };
        proof {
            assert(w@ =~= Seq::<(u32, Seq<char>)>::empty());
        }
        w
    }

    /// Sets one more field.
    pub fn set(&mut self, tag: u32, value: &str)
        ensures
            final(self)@ == old(self)@.push((tag, value@)),
    {
        self.fields.push((tag, value.to_owned()));
        proof {
            assert(self@ =~= old(self)@.push((tag, value@)));
        }
    }

    /// Build the message and append it to `out`: `8=FIX.4.4`, 9 with the
    /// length of the body, the body (all fields but those with tag 8, 9 or
    /// 10), and 10 with the checksum, the sum of all bytes before it modulo
    /// 256, in three digits.
    pub fn write(&self, out: &mut Vec<u8>)
        ensures
            final(out)@ == old(out)@ + message_bytes(self@),
    {
        let mut body: Vec<u8> = Vec::new();
        let mut i: usize = 0;
        proof {
            assert(self@.take(0) =~= Seq::<(u32, Seq<char>)>::empty());
        }
        while i < self.fields.len()
            invariant
                i <= self.fields.len(),
                self.fields.len() == self@.len(),
                body@ == body_bytes(self@.take(i as int)),
            decreases self.fields.len() - i,
        {
            let tag = self.fields[i].0;
            proof {
                assert(self@.take(i as int + 1).drop_last() =~= self@.take(i as int));
                assert(self@.take(i as int + 1).last() == (tag, self.fields@[i as int].1@));
            }
            if !(tag == 8 || tag == 9 || tag == 10) {
                let ghost before = body@;
                push_number(&mut body, tag as u64);
                body.push(61u8);
                let _ = push_plain(&mut body, self.fields[i].1.as_str().as_bytes());
                body.push(FIX_SOH);
                proof {
                    assert(body@ =~= before + field_bytes(tag, self.fields@[i as int].1@));
                }
            }
            i += 1;
        }
        proof {
            assert(self@.take(self.fields.len() as int) =~= self@);
        }
        let mut message: Vec<u8> = Vec::new();
        message.push(56u8);
        message.push(61u8);
        message.push(70u8);
        message.push(73u8);
        message.push(88u8);
        message.push(46u8);
        message.push(52u8);
        message.push(46u8);
        message.push(52u8);
        message.push(FIX_SOH);
        message.push(57u8);
        message.push(61u8);
        push_number(&mut message, body.len() as u64);
        message.push(FIX_SOH);
        proof {
            assert(message@ =~= header_bytes(body@.len()));
        }
        let _ = push_plain(&mut message, body.as_slice());
        let sum = sum_of(message.as_slice());
        message.push(49u8);
        message.push(48u8);
        message.push(61u8);
        message.push(48 + sum / 100);
        message.push(48 + (sum / 10) % 10);
        message.push(48 + sum % 10);
        message.push(FIX_SOH);
        proof {
            assert(message@ =~= message_bytes(self@));
        }
        let _ = push_plain(out, message.as_slice());
    }
}

/// Appends bytes.
fn push_plain(out: &mut Vec<u8>, bytes: &[u8])
    ensures
        final(out)@ == old(out)@ + bytes@,
{
    let mut i: usize = 0;
    proof {
        assert(out@ =~= old(out)@ + bytes@.take(0));
    }
    while i < bytes.len()
        invariant
            i <= bytes.len(),
            out@ == old(out)@ + bytes@.take(i as int),
        decreases bytes.len() - i,
    {
        out.push(bytes[i]);
        proof {
            assert(out@ =~= old(out)@ + bytes@.take(i as int + 1));
        }
        i += 1;
    }
    proof {
        assert(bytes@.take(bytes.len() as int) =~= bytes@);
    }
}

/// The sum of the bytes, modulo 256.
fn sum_of(bytes: &[u8]) -> (sum: u8)
    ensures
        sum == checksum(bytes@),
{
    let mut sum: u8 = 0;
    let mut i: usize = 0;
    proof {
        assert(bytes@.take(0) =~= Seq::<u8>::empty());
    }
    while i < bytes.len()
        invariant
            i <= bytes.len(),
            sum == checksum(bytes@.take(i as int)),
        decreases bytes.len() - i,
    {
        proof {
            lemma_checksum_push(bytes@.take(i as int), bytes@[i as int]);
            assert(bytes@.take(i as int + 1) =~= bytes@.take(i as int).push(bytes@[i as int]));
        }
        sum = ((sum as u16 + bytes[i] as u16) % 256) as u8;
        i += 1;
    }
    proof {
        assert(bytes@.take(bytes.len() as int) =~= bytes@);
    }
    sum
}

/// What can be wrong with the fields of an order message.
#[derive(Clone, Copy, Debug, PartialEq, Eq, Structural)]
pub enum FixFieldError {
    /// Field 11 is missing.
    MissingClOrdId,
    /// Field 11 is no number.
    ClOrdIdNotNumeric,
    /// Field 54 is neither 1 nor 2.
    InvalidSide,
    /// Field 38 is missing.
    MissingOrderQty,
    /// Field 38 is no decimal.
    InvalidOrderQty,
    /// Field 40 is neither 1 nor 2.
    InvalidOrdType,
    /// Field 44 is missing in a limit order.
    MissingPrice,
    /// Field 44 is no decimal.
    InvalidPrice,
}

impl FixFieldError {
    /// The sentence of each error.
    pub open spec fn text(&self) -> Seq<char> {
        match self {
            FixFieldError::MissingClOrdId => "missing ClOrdID (11)"@,
            FixFieldError::ClOrdIdNotNumeric => "ClOrdID must be numeric"@,
            FixFieldError::InvalidSide => "invalid Side (54)"@,
            FixFieldError::MissingOrderQty => "missing OrderQty (38)"@,
            FixFieldError::InvalidOrderQty => "invalid OrderQty (38)"@,
            FixFieldError::InvalidOrdType => "invalid OrdType (40)"@,
            FixFieldError::MissingPrice => "missing Price (44) for limit order"@,
            FixFieldError::InvalidPrice => "invalid Price (44)"@,
        }
    }

    /// A sentence that describes the error.
    pub fn message(&self) -> (r: &'static str)
        ensures
            r@ == self.text(),
    {
        match self {
            FixFieldError::MissingClOrdId => "missing ClOrdID (11)",
            FixFieldError::ClOrdIdNotNumeric => "ClOrdID must be numeric",
            FixFieldError::InvalidSide => "invalid Side (54)",
            FixFieldError::MissingOrderQty => "missing OrderQty (38)",
            FixFieldError::InvalidOrderQty => "invalid OrderQty (38)",
            FixFieldError::InvalidOrdType => "invalid OrdType (40)",
            FixFieldError::MissingPrice => "missing Price (44) for limit order",
            FixFieldError::InvalidPrice => "invalid Price (44)",
        }
    }
}

/// The number that field `tag` holds, if it holds one.
pub open spec fn field_number(fix: Map<u32, String>, tag: u32) -> Option<nat> {
    if fix.contains_key(tag) {
        number_of(encode_utf8(fix[tag]@), u64::MAX as nat)
    } else {
        None
    }
}

/// The number that field `tag` holds, or `default` where the field is
/// missing or holds none.
pub open spec fn number_or(fix: Map<u32, String>, tag: u32, default: u64) -> u64 {
    match field_number(fix, tag) {
        Some(n) => n as u64,
        None => default,
    }
}

/// Field `tag` is there and holds the text `text`.
pub open spec fn field_is(fix: Map<u32, String>, tag: u32, text: Seq<char>) -> bool {
    fix.contains_key(tag) && fix[tag]@ == text
}

/// The instrument of an order message: the number in field 55, or in field
/// 48 where there is no field 55; 1 where the field that is read is missing
/// or holds no number.
pub open spec fn instrument_field(fix: Map<u32, String>) -> u64 {
    if fix.contains_key(55) {
        number_or(fix, 55, 1)
    } else {
        number_or(fix, 48, 1)
    }
}

/// The side of an order message: buy for 1 or a missing field 54, sell for 2.
pub open spec fn side_field(fix: Map<u32, String>) -> Option<Side> {
    if !fix.contains_key(54) || field_is(fix, 54, "1"@) {
        Some(Side::Buy)
    } else if field_is(fix, 54, "2"@) {
        Some(Side::Sell)
    } else {
        None
    }
}

/// The type of an order message: limit for 2 or a missing field 40, market
/// for 1.
pub open spec fn type_field(fix: Map<u32, String>) -> Option<OrderType> {
    if field_is(fix, 40, "1"@) {
        Some(OrderType::Market)
    } else if !fix.contains_key(40) || field_is(fix, 40, "2"@) {
        Some(OrderType::Limit)
    } else {
        None
    }
}

/// The time in force of an order message: IOC for 3 in field 59, FOK for
/// 4, GTC for anything else.
pub open spec fn tif_field(fix: Map<u32, String>) -> TimeInForce {
    if field_is(fix, 59, "3"@) {
        TimeInForce::IOC
    } else if field_is(fix, 59, "4"@) {
        TimeInForce::FOK
    } else {
        TimeInForce::GTC
    }
}

/// The order that a message with good fields stands for, with the given
/// order id and price.
pub open spec fn order_of(fix: Map<u32, String>, order_id: u64, side: Side, order_type: OrderType, quantity: Decimal, price: Option<Decimal>) -> Order {
    Order {
        order_id: OrderId(order_id),
        client_order_id: fix[11],
        instrument_id: InstrumentId(instrument_field(fix)),
        side,
        order_type,
        quantity,
        price,
        time_in_force: tif_field(fix),
        timestamp: number_or(fix, 52, 0),
        trader_id: TraderId(number_or(fix, 1, 1)),
    }
}

/// What is wrong with side, quantity and type of an order message, if
/// anything, in the order in which the fields are read.
pub open spec fn common_error(fix: Map<u32, String>) -> Option<FixFieldError> {
    if side_field(fix) is None {
        Some(FixFieldError::InvalidSide)
    } else if !fix.contains_key(38) {
        Some(FixFieldError::MissingOrderQty)
    } else if Decimal::from_text(fix[38]@) is None {
        Some(FixFieldError::InvalidOrderQty)
    } else if type_field(fix) is None {
        Some(FixFieldError::InvalidOrdType)
    } else {
        None
    }
}

/// The order of a NewOrderSingle message. Field 11 is the client order id
/// and, read as a number, the order id.
pub open spec fn new_order_single(fix: Map<u32, String>) -> Result<Order, FixFieldError> {
    if !fix.contains_key(11) {
        Err(FixFieldError::MissingClOrdId)
    } else if field_number(fix, 11) is None {
        Err(FixFieldError::ClOrdIdNotNumeric)
    } else if common_error(fix) is Some {
        Err(common_error(fix)->0)
    } else if type_field(fix) == Some(OrderType::Limit) && !fix.contains_key(44) {
        Err(FixFieldError::MissingPrice)
    } else if type_field(fix) == Some(OrderType::Limit) && Decimal::from_text(fix[44]@) is None {
        Err(FixFieldError::InvalidPrice)
    } else {
        Ok(
            order_of(
                fix,
                field_number(fix, 11)->0 as u64,
                side_field(fix)->0,
                type_field(fix)->0,
                Decimal::from_text(fix[38]@)->0,
                if type_field(fix) == Some(OrderType::Limit) {
                    Decimal::from_text(fix[44]@)
                } else {
                    None
                },
            ),
        )
    }
}

/// The replacement order of an OrderCancelReplaceRequest message, with the
/// order id that the session assigns. A limit order whose field 44 is
/// missing or no decimal comes without a price.
pub open spec fn cancel_replace(fix: Map<u32, String>, new_order_id: u64) -> Result<Order, FixFieldError> {
    if !fix.contains_key(11) {
        Err(FixFieldError::MissingClOrdId)
    } else if common_error(fix) is Some {
        Err(common_error(fix)->0)
    } else {
        Ok(
            order_of(
                fix,
                new_order_id,
                side_field(fix)->0,
                type_field(fix)->0,
                Decimal::from_text(fix[38]@)->0,
                if type_field(fix) == Some(OrderType::Limit) && fix.contains_key(44) {
                    Decimal::from_text(fix[44]@)
                } else {
                    None
                },
            ),
        )
    }
}

/// Whether a field value is the given text.
fn is_text(value: &String, text: &str) -> (r: bool)
    ensures
        r == (value@ == text@),
{
    *value == text.to_owned()
}

/// The number that field `tag` holds, if it holds one.
fn read_number(fix: &FixMessage, tag: u32) -> (r: Option<u64>)
    ensures
        match field_number(fix@, tag) {
            Some(n) => r == Some(n as u64),
            None => r is None,
        },
{
    match fix.get(&tag) {
        Some(value) => {
            let bytes = value.as_str().as_bytes();
            proof {
                assert(bytes@.subrange(0, bytes@.len() as int) =~= bytes@);
            }
            parse_number(bytes, 0, bytes.len(), u64::MAX)
        },
        None => None,
    }
}

/// The number that field `tag` holds, or `default`.
fn read_number_or(fix: &FixMessage, tag: u32, default: u64) -> (r: u64)
    ensures
        r == number_or(fix@, tag, default),
{
    match read_number(fix, tag) {
        Some(n) => n,
        None => default,
    }
}

/// Whether field `tag` is there and holds the text `text`.
fn has_text(fix: &FixMessage, tag: u32, text: &str) -> (r: bool)
    ensures
        r == field_is(fix@, tag, text@),
{
    match fix.get(&tag) {
        Some(value) => is_text(value, text),
        None => false,
    }
}

/// Side, quantity and type of an order message.
fn read_common(fix: &FixMessage) -> (r: Result<(Side, Decimal, OrderType), FixFieldError>)
    ensures
        match common_error(fix@) {
            Some(e) => r == Err::<(Side, Decimal, OrderType), FixFieldError>(e),
            None => r == Ok::<(Side, Decimal, OrderType), FixFieldError>(
                (side_field(fix@)->0, Decimal::from_text(fix@[38]@)->0, type_field(fix@)->0),
            ),
        },
{
    let side = if !fix.contains_key(&54) || has_text(fix, 54, "1") {
        Side::Buy
    } else if has_text(fix, 54, "2") {
        Side::Sell
    } else {
        return Err(FixFieldError::InvalidSide);
    };
    let quantity = match fix.get(&38) {
        Some(value) => match Decimal::parse(value.as_str()) {
            Some(q) => q,
            None => {
                return Err(FixFieldError::InvalidOrderQty);
            },
        },
        None => {
            return Err(FixFieldError::MissingOrderQty);
        },
    };
    let order_type = if has_text(fix, 40, "1") {
        OrderType::Market
    } else if !fix.contains_key(&40) || has_text(fix, 40, "2") {
        OrderType::Limit
    } else {
        return Err(FixFieldError::InvalidOrdType);
    };
    Ok((side, quantity, order_type))
}

/// The time in force of an order message.
fn read_tif(fix: &FixMessage) -> (r: TimeInForce)
    ensures
        r == tif_field(fix@),
{
    if has_text(fix, 59, "3") {
        TimeInForce::IOC
    } else if has_text(fix, 59, "4") {
        TimeInForce::FOK
    } else {
        TimeInForce::GTC
    }
}

/// The instrument of an order message.
fn read_instrument(fix: &FixMessage) -> (r: u64)
    ensures
        r == instrument_field(fix@),
{
    if fix.contains_key(&55) {
        read_number_or(fix, 55, 1)
    } else {
        read_number_or(fix, 48, 1)
    }
}

/// NewOrderSingle (35=D) → Order. ClOrdID (11) is the client order id and,
/// read as a number, the order id; the instrument is read from 55 or 48
/// (default 1), the trader from 1 (default 1), the timestamp from 52
/// (default 0). A limit order needs a price in 44.
pub fn order_from_new_order_single(fix: &FixMessage) -> (r: Result<Order, FixFieldError>)
    ensures
        r == new_order_single(fix@),
{
    let cl_ord_id = match fix.get(&11) {
        Some(value) => value.clone(),
        None => {
            return Err(FixFieldError::MissingClOrdId);
        },
    };
    let order_id = match read_number(fix, 11) {
        Some(n) => n,
        None => {
            return Err(FixFieldError::ClOrdIdNotNumeric);
        },
    };
    let (side, quantity, order_type) = match read_common(fix) {
        Ok(common) => common,
        Err(e) => {
            return Err(e);
        },
    };
    let price = match order_type {
        OrderType::Limit => match fix.get(&44) {
            Some(value) => match Decimal::parse(value.as_str()) {
                Some(p) => Some(p),
                None => {
                    return Err(FixFieldError::InvalidPrice);
                },
            },
            None => {
                return Err(FixFieldError::MissingPrice);
            },
        },
        OrderType::Market => None,
    };
    Ok(
        Order {
            order_id: OrderId(order_id),
            client_order_id: cl_ord_id,
            instrument_id: InstrumentId(read_instrument(fix)),
            side,
            order_type,
            quantity,
            price,
            time_in_force: read_tif(fix),
            timestamp: read_number_or(fix, 52, 0),
            trader_id: TraderId(read_number_or(fix, 1, 1)),
        },
    )
}

/// OrderCancelReplaceRequest (35=G) → replacement Order. ClOrdID (11) is
/// the new client order id; `new_order_id` is assigned by the session. A
/// limit order whose price in 44 is missing or no decimal comes without a
/// price.
pub fn order_from_cancel_replace(fix: &FixMessage, new_order_id: u64) -> (r: Result<Order, FixFieldError>)
    ensures
        r == cancel_replace(fix@, new_order_id),
{
    let cl_ord_id = match fix.get(&11) {
        Some(value) => value.clone(),
        None => {
            return Err(FixFieldError::MissingClOrdId);
        },
    };
    let (side, quantity, order_type) = match read_common(fix) {
        Ok(common) => common,
        Err(e) => {
            return Err(e);
        },
    };
    let price = match order_type {
        OrderType::Limit => match fix.get(&44) {
            Some(value) => Decimal::parse(value.as_str()),
            None => None,
        },
        OrderType::Market => None,
    };
    Ok(
        Order {
            order_id: OrderId(new_order_id),
            client_order_id: cl_ord_id,
            instrument_id: InstrumentId(read_instrument(fix)),
            side,
            order_type,
            quantity,
            price,
            time_in_force: read_tif(fix),
            timestamp: read_number_or(fix, 52, 0),
            trader_id: TraderId(read_number_or(fix, 1, 1)),
        },
    )
}

/// The FIX code of an execution type, as a text.
pub open spec fn exec_type_code(e: ExecType) -> Seq<char> {
    match e {
        ExecType::New => "0"@,
        ExecType::PartialFill => "F"@,
        ExecType::Fill => "F"@,
        ExecType::Canceled => "4"@,
        ExecType::Rejected => "8"@,
    }
}

/// The FIX code of an order status, as a text.
pub open spec fn ord_status_code(s: OrderStatus) -> Seq<char> {
    match s {
        OrderStatus::New => "0"@,
        OrderStatus::PartiallyFilled => "1"@,
        OrderStatus::Filled => "2"@,
        OrderStatus::Canceled => "4"@,
        OrderStatus::Rejected => "8"@,
    }
}

/// The FIX code of an execution type (tag 150): a trade, partial or full,
/// is `F`.
pub fn exec_type_to_fix(e: ExecType) -> (r: &'static str)
    ensures
        r@ == exec_type_code(e),
{
    match e {
        ExecType::New => "0",
        ExecType::PartialFill => "F",
        ExecType::Fill => "F",
        ExecType::Canceled => "4",
        ExecType::Rejected => "8",
    }
}

/// The FIX code of an order status (tag 39).
pub fn ord_status_to_fix(s: OrderStatus) -> (r: &'static str)
    ensures
        r@ == ord_status_code(s),
{
    match s {
        OrderStatus::New => "0",
        OrderStatus::PartiallyFilled => "1",
        OrderStatus::Filled => "2",
        OrderStatus::Canceled => "4",
        OrderStatus::Rejected => "8",
    }
}

/// The fields of the ExecutionReport message for an execution report, in the
/// order in which they are written, but for the optional ones.
pub open spec fn report_head(
    report: ExecutionReport,
    side: Side,
    cl_ord_id: Seq<char>,
    seq: u32,
    sender: Seq<char>,
    target: Seq<char>,
    now: u64,
) -> Seq<(u32, Seq<char>)> {
    seq![
        (35u32, "8"@),
        (34u32, digits_text(seq as nat)),
        (49u32, sender),
        (
            52u32,
            timestamp_text(
                if report.timestamp == 0 {
                    now
                } else {
                    report.timestamp
                },
            ),
        ),
        (56u32, target),
        (11u32, cl_ord_id),
        (17u32, digits_text(report.exec_id.0 as nat)),
        (37u32, digits_text(report.order_id.0 as nat)),
        (38u32, report.filled_quantity.sum(report.remaining_quantity).as_text()),
        (39u32, ord_status_code(report.order_status)),
        (40u32, "2"@),
        (
            54u32,
            match side {
                Side::Buy => "1"@,
                Side::Sell => "2"@,
            },
        ),
        (14u32, report.filled_quantity.as_text()),
        (151u32, report.remaining_quantity.as_text()),
    ]
}

/// One field for an optional decimal: none where it is absent.
pub open spec fn optional_field(tag: u32, value: Option<Decimal>) -> Seq<(u32, Seq<char>)> {
    match value {
        Some(d) => seq![(tag, d.as_text())],
        None => Seq::empty(),
    }
}

/// The fields of the ExecutionReport message (35=8) for an execution
/// report: the order quantity (38) is the sum of filled and remaining
/// quantity, the type (40) is always limit, the mean price (6), the last
/// quantity (32) and the last price (31) are written where the report has
/// them, and the execution type (150) comes last.
pub open spec fn report_fields(
    report: ExecutionReport,
    side: Side,
    cl_ord_id: Seq<char>,
    seq: u32,
    sender: Seq<char>,
    target: Seq<char>,
    now: u64,
) -> Seq<(u32, Seq<char>)> {
    report_head(report, side, cl_ord_id, seq, sender, target, now) + optional_field(6, report.avg_price)
        + optional_field(32, report.last_qty) + optional_field(31, report.last_px) + seq![
        (150u32, exec_type_code(report.exec_type)),
    ]
}

/// Sets an optional decimal field.
fn set_optional(w: &mut FixWriter, tag: u32, value: Option<Decimal>)
    ensures
        final(w)@ == old(w)@ + optional_field(tag, value),
{
    match value {
        Some(d) => {
            let text = d.text();
            w.set(tag, text.as_str());
            proof {
                assert(w@ =~= old(w)@ + optional_field(tag, value));
            }
        },
        None => {
            proof {
                assert(w@ =~= old(w)@ + optional_field(tag, value));
            }
        },
    }
}

/// The ExecutionReport message (35=8) for an execution report, as bytes.
/// The report does not carry the side of its order: `side` is written as
/// tag 54. A report without timestamp is stamped with `now`, in seconds
/// since 1970-01-01 00:00:00 UTC.
pub fn execution_report_to_fix_with_side(
    report: &ExecutionReport,
    side: Side,
    cl_ord_id: &str,
    seq: u32,
    sender: &str,
    target: &str,
    now: u64,
) -> (out: Vec<u8>)
    ensures
        out@ == message_bytes(report_fields(*report, side, cl_ord_id@, seq, sender@, target@, now)),
{
    let mut w = FixWriter::new();
    w.set(35, "8");
    w.set(34, number_text(seq as u64).as_str());
    w.set(49, sender);
    w.set(52, format_utc_timestamp(report.timestamp, now).as_str());
    w.set(56, target);
    w.set(11, cl_ord_id);
    w.set(17, number_text(report.exec_id.0).as_str());
    w.set(37, number_text(report.order_id.0).as_str());
    w.set(38, Decimal::plus(report.filled_quantity, report.remaining_quantity).text().as_str());
    w.set(39, ord_status_to_fix(report.order_status));
    w.set(40, "2");
    w.set(
        54,
        match side {
            Side::Buy => "1",
            Side::Sell => "2",
        },
    );
    w.set(14, report.filled_quantity.text().as_str());
    w.set(151, report.remaining_quantity.text().as_str());
    proof {
        assert(w@ =~= report_head(*report, side, cl_ord_id@, seq, sender@, target@, now));
    }
    set_optional(&mut w, 6, report.avg_price);
    set_optional(&mut w, 32, report.last_qty);
    set_optional(&mut w, 31, report.last_px);
    w.set(150, exec_type_to_fix(report.exec_type));
    proof {
        assert(w@ =~= report_fields(*report, side, cl_ord_id@, seq, sender@, target@, now));
    }
    let mut out: Vec<u8> = Vec::new();
    w.write(&mut out);
    proof {
        assert(out@ =~= message_bytes(w@));
    }
    out
}

/// The header fields that every outgoing message starts with: type,
/// sequence number, sender, sending time and target.
pub open spec fn header_fields(msg_type: Seq<char>, seq: u32, sender: Seq<char>, target: Seq<char>, now: u64) -> Seq<
    (u32, Seq<char>),
> {
    seq![
        (35u32, msg_type),
        (34u32, digits_text(seq as nat)),
        (49u32, sender),
        (52u32, timestamp_text(now)),
        (56u32, target),
    ]
}

/// The fields of the ExecutionReport message that rejects an order.
pub open spec fn rejection_fields(
    cl_ord_id: Seq<char>,
    reason: Seq<char>,
    seq: u32,
    sender: Seq<char>,
    target: Seq<char>,
    now: u64,
) -> Seq<(u32, Seq<char>)> {
    header_fields("8"@, seq, sender, target, now) + seq![
        (11u32, cl_ord_id),
        (37u32, "0"@),
        (17u32, "0"@),
        (38u32, "0"@),
        (39u32, "8"@),
        (40u32, "2"@),
        (54u32, "1"@),
        (14u32, "0"@),
        (151u32, "0"@),
        (150u32, "8"@),
        (58u32, reason),
    ]
}

/// The fields of the ExecutionReport message that confirms a cancellation.
pub open spec fn cancel_fields(
    cl_ord_id: Seq<char>,
    order_id: u64,
    side: Side,
    seq: u32,
    sender: Seq<char>,
    target: Seq<char>,
    now: u64,
) -> Seq<(u32, Seq<char>)> {
    header_fields("8"@, seq, sender, target, now) + seq![
        (11u32, cl_ord_id),
        (17u32, "0"@),
        (37u32, digits_text(order_id as nat)),
        (38u32, "0"@),
        (39u32, "4"@),
        (40u32, "2"@),
        (
            54u32,
            match side {
                Side::Buy => "1"@,
                Side::Sell => "2"@,
            },
        ),
        (14u32, "0"@),
        (151u32, "0"@),
        (150u32, "4"@),
    ]
}

/// A writer with the header fields set. `now` is the sending time, in
/// seconds since 1970-01-01 00:00:00 UTC.
fn with_header(msg_type: &str, seq: u32, sender: &str, target: &str, now: u64) -> (w: FixWriter)
    ensures
        w@ == header_fields(msg_type@, seq, sender@, target@, now),
{
    let mut w = FixWriter::new();
    w.set(35, msg_type);
    w.set(34, number_text(seq as u64).as_str());
    w.set(49, sender);
    w.set(52, format_utc_timestamp(now, now).as_str());
    w.set(56, target);
    proof {
        assert(w@ =~= header_fields(msg_type@, seq, sender@, target@, now));
    }
    w
}

/// A message of the session level, which has the header fields only:
/// logon (`A`), logout (`5`), heartbeat (`0`).
pub fn session_message(msg_type: &str, seq: u32, sender: &str, target: &str, now: u64) -> (out: Vec<u8>)
    ensures
        out@ == message_bytes(header_fields(msg_type@, seq, sender@, target@, now)),
{
    let w = with_header(msg_type, seq, sender, target, now);
    let mut out: Vec<u8> = Vec::new();
    w.write(&mut out);
    proof {
        assert(out@ =~= message_bytes(w@));
    }
    out
}

/// The ExecutionReport message (35=8) that rejects an order, with the
/// reason as text (58).
pub fn rejection_message(cl_ord_id: &str, reason: &str, seq: u32, sender: &str, target: &str, now: u64) -> (out:
    Vec<u8>)
    ensures
        out@ == message_bytes(rejection_fields(cl_ord_id@, reason@, seq, sender@, target@, now)),
{
    let mut w = with_header("8", seq, sender, target, now);
    w.set(11, cl_ord_id);
    w.set(37, "0");
    w.set(17, "0");
    w.set(38, "0");
    w.set(39, "8");
    w.set(40, "2");
    w.set(54, "1");
    w.set(14, "0");
    w.set(151, "0");
    w.set(150, "8");
    w.set(58, reason);
    proof {
        assert(w@ =~= rejection_fields(cl_ord_id@, reason@, seq, sender@, target@, now));
    }
    let mut out: Vec<u8> = Vec::new();
    w.write(&mut out);
    proof {
        assert(out@ =~= message_bytes(w@));
    }
    out
}

/// The ExecutionReport message (35=8) that confirms the cancellation of an
/// order.
pub fn cancel_message(
    cl_ord_id: &str,
    order_id: u64,
    side: Side,
    seq: u32,
    sender: &str,
    target: &str,
    now: u64,
) -> (out: Vec<u8>)
    ensures
        out@ == message_bytes(cancel_fields(cl_ord_id@, order_id, side, seq, sender@, target@, now)),
{
    let mut w = with_header("8", seq, sender, target, now);
    w.set(11, cl_ord_id);
    w.set(17, "0");
    w.set(37, number_text(order_id).as_str());
    w.set(38, "0");
    w.set(39, "4");
    w.set(40, "2");
    w.set(
        54,
        match side {
            Side::Buy => "1",
            Side::Sell => "2",
        },
    );
    w.set(14, "0");
    w.set(151, "0");
    w.set(150, "4");
    proof {
        assert(w@ =~= cancel_fields(cl_ord_id@, order_id, side, seq, sender@, target@, now));
    }
    let mut out: Vec<u8> = Vec::new();
    w.write(&mut out);
    proof {
        assert(out@ =~= message_bytes(w@));
    }
    out
}

/// The ExecutionReport message for an execution report of a buy order.
pub fn execution_report_to_fix(
    report: &ExecutionReport,
    cl_ord_id: &str,
    seq: u32,
    sender: &str,
    target: &str,
    now: u64,
) -> (out: Vec<u8>)
    ensures
        out@ == message_bytes(report_fields(*report, Side::Buy, cl_ord_id@, seq, sender@, target@, now)),
{
    execution_report_to_fix_with_side(report, Side::Buy, cl_ord_id, seq, sender, target, now)
}

} // verus!
