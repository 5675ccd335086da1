//! What decoding gives back of what encoding wrote: which values come back
//! from their own serialization, and that every value comes back from the
//! form in which requests carry it.
use crate::decimal::{
    decimal_digits, digits_value, is_digit, lemma_decimal_digits, signed_value,
};
use crate::resp::{
    bytes_at, crlf_at, encoding, encodings, forward, items_at, lemma_ascii_is_utf8,
    lemma_line_end, length_at, line_end, terminator, value_at, Value, TAG_ARRAY, TAG_BULK,
    TAG_SIMPLE,
};
use crate::resp_result::{RESPError, RESPLength};
use vstd::prelude::*;
use vstd::utf8::{encode_utf8, valid_utf8};

verus! {

/// Whether a line terminator stands anywhere in `bytes`.
pub open spec fn has_terminator(bytes: Seq<u8>) -> bool {
    exists|i: int| crlf_at(bytes, i)
}

/// Whether `text` is short enough for a length field to count its bytes.
pub open spec fn short(text: Seq<char>) -> bool {
    encode_utf8(text).len() <= i32::MAX
}

/// The values that the decoder gives back from their own serialization:
/// `Null`, a simple string whose text holds no line terminator, and a bulk
/// string whose text is [`short`]. An array is none of them: its
/// serialization has no terminator behind the count.
pub open spec fn reproducible(value: Value) -> bool {
    match value {
        Value::Null => true,
        Value::SimpleString(text) => !has_terminator(encode_utf8(text)),
        Value::BulkString(text) => short(text),
        Value::Array(_) => false,
    }
}

/// Whether `b` is one of the three tags.
spec fn is_tag(b: u8) -> bool {
    b == TAG_SIMPLE || b == TAG_BULK || b == TAG_ARRAY
}

/// The line that starts at `from` ends at the first terminator.
proof fn lemma_first_terminator(buf: Seq<u8>, from: int, end: int)
    requires
        from <= end,
        crlf_at(buf, end),
        forall|i: int| from <= i < end ==> !crlf_at(buf, i),
    ensures
        line_end(buf, from) == end,
    decreases end - from,
{
    if from < end {
        lemma_first_terminator(buf, from + 1, end);
    }
}

/// A serialization starts with a tag.
proof fn lemma_encoding_head(value: Value)
    ensures
        encoding(value).len() > 0,
        is_tag(encoding(value)[0]),
{
}

/// The serializations of one or more values start with a tag.
proof fn lemma_encodings_head(items: Seq<Value>)
    requires
        items.len() > 0,
    ensures
        encodings(items).len() > 0,
        is_tag(encodings(items)[0]),
    decreases items.len(),
{
    lemma_encoding_head(items.last());
    if items.len() > 1 {
        lemma_encodings_head(items.drop_last());
    } else {
        assert(encodings(items.drop_last()) =~= Seq::<u8>::empty());
    }
}

/// Whether `bytes` stand in `buf` from `at` on.
pub open spec fn stands_at(buf: Seq<u8>, at: int, bytes: Seq<u8>) -> bool {
    &&& 0 <= at
    &&& at + bytes.len() <= buf.len()
    &&& buf.subrange(at, at + bytes.len()) == bytes
}

proof fn lemma_null_decodes(buf: Seq<u8>, at: int)
    requires
        stands_at(buf, at, encoding(Value::Null)),
    ensures
        value_at(buf, at) == (Ok::<Value, RESPError>(Value::Null), at + 5),
{
    let bytes = encoding(Value::Null);
    assert forall|i: int| 0 <= i < 5 implies buf[at + i] == #[trigger] bytes[i] by {
        assert(buf.subrange(at, at + 5)[i] == buf[at + i]);
    }
    assert(buf[at] == bytes[0] && buf[at + 1] == bytes[1] && buf[at + 2] == bytes[2] && buf[at
        + 3] == bytes[3] && buf[at + 4] == bytes[4]);
    lemma_first_terminator(buf, at + 1, at + 3);
    let line = buf.subrange(at + 1, at + 3);
    assert(line =~= seq![0x2du8, 0x31]);
    lemma_ascii_is_utf8(line);
    let digits = line.skip(1);
    assert(digits =~= seq![0x31u8]);
    assert(digits.drop_last() =~= Seq::<u8>::empty());
    assert(digits_value(digits) == 1) by {
        reveal_with_fuel(digits_value, 2);
    }
    assert(signed_value(line) == Some(-1int));
}

proof fn lemma_simple_string_decodes(buf: Seq<u8>, at: int, text: Seq<char>)
    requires
        !has_terminator(encode_utf8(text)),
        stands_at(buf, at, encoding(Value::SimpleString(text))),
    ensures
        value_at(buf, at) == (
            Ok::<Value, RESPError>(Value::SimpleString(text)),
            at + encoding(Value::SimpleString(text)).len(),
        ),
{
    let bytes = encode_utf8(text);
    let whole = encoding(Value::SimpleString(text));
    let end = at + 1 + bytes.len();
    assert(whole.len() == bytes.len() + 3);
    assert forall|i: int| 0 <= i < whole.len() implies buf[at + i] == #[trigger] whole[i] by {
        assert(buf.subrange(at, at + whole.len())[i] == buf[at + i]);
    }
    assert(buf[at] == whole[0]);
    assert(buf[end] == whole[end - at] && buf[end + 1] == whole[end - at + 1]);
    assert(crlf_at(buf, end));
    assert forall|j: int| at + 1 <= j < end implies !crlf_at(buf, j) by {
        if crlf_at(buf, j) {
            assert(buf[j] == whole[j - at] && buf[j + 1] == whole[j - at + 1]);
            if j + 1 < end {
                assert(crlf_at(bytes, j - at - 1));
            }
        }
    }
    lemma_first_terminator(buf, at + 1, end);
    assert(buf.subrange(at + 1, end) =~= bytes) by {
        assert forall|i: int| 0 <= i < bytes.len() implies buf[at + 1 + i] == #[trigger] bytes[i] by {
            assert(buf[at + 1 + i] == whole[1 + i]);
        }
    }
    vstd::utf8::encode_utf8_valid_utf8(text);
    vstd::utf8::encode_utf8_decode_utf8(text);
}

/// Where the digits of `n` and a terminator stand at `at`, the length field
/// at `at` holds `n`.
proof fn lemma_length_decodes(buf: Seq<u8>, at: int, n: nat)
    requires
        n <= i32::MAX,
        stands_at(buf, at, decimal_digits(n) + terminator()),
    ensures
        length_at(buf, at) == (Ok::<RESPLength, RESPError>(n as RESPLength), at + decimal_digits(
            n,
        ).len() + 2),
{
    let digits = decimal_digits(n);
    let whole = digits + terminator();
    let end = at + digits.len();
    lemma_decimal_digits(n);
    assert forall|i: int| 0 <= i < whole.len() implies buf[at + i] == #[trigger] whole[i] by {
        assert(buf.subrange(at, at + whole.len())[i] == buf[at + i]);
    }
    assert(buf[end] == whole[end - at] && buf[end + 1] == whole[end - at + 1]);
    assert(crlf_at(buf, end));
    assert forall|j: int| at <= j < end implies !crlf_at(buf, j) by {
        assert(buf[j] == whole[j - at]);
        assert(is_digit(digits[j - at]));
    }
    lemma_first_terminator(buf, at, end);
    assert(buf.subrange(at, end) =~= digits) by {
        assert forall|i: int| 0 <= i < digits.len() implies buf[at + i] == #[trigger] digits[i] by {
            assert(buf[at + i] == whole[i]);
        }
    }
    assert forall|i: int| 0 <= i < digits.len() implies digits[i] < 0x80 by {
        assert(is_digit(digits[i]));
    }
    lemma_ascii_is_utf8(digits);
    assert(is_digit(digits[0]));
    assert(signed_value(digits) == Some(n as int));
}

proof fn lemma_bulk_string_decodes(buf: Seq<u8>, at: int, text: Seq<char>)
    requires
        short(text),
        stands_at(buf, at, encoding(Value::BulkString(text))),
    ensures
        value_at(buf, at) == (
            Ok::<Value, RESPError>(Value::BulkString(text)),
            at + encoding(Value::BulkString(text)).len(),
        ),
{
    let bytes = encode_utf8(text);
    let digits = decimal_digits(bytes.len());
    let whole = encoding(Value::BulkString(text));
    let body = at + 1 + digits.len() + 2;
    assert(whole.len() == digits.len() + bytes.len() + 5);
    assert forall|i: int| 0 <= i < whole.len() implies buf[at + i] == #[trigger] whole[i] by {
        assert(buf.subrange(at, at + whole.len())[i] == buf[at + i]);
    }
    assert(buf[at] == whole[0]);
    assert(stands_at(buf, at + 1, digits + terminator())) by {
        let header = digits + terminator();
        assert forall|i: int| 0 <= i < header.len() implies buf[at + 1 + i] == #[trigger] header[i] by {
            assert(buf[at + 1 + i] == whole[1 + i]);
        }
        assert(buf.subrange(at + 1, at + 1 + header.len()) =~= header);
    }
    lemma_length_decodes(buf, at + 1, bytes.len());
    assert(buf.subrange(body, body + bytes.len()) =~= bytes) by {
        assert forall|i: int| 0 <= i < bytes.len() implies buf[body + i] == #[trigger] bytes[i] by {
            assert(buf[body + i] == whole[body - at + i]);
        }
    }
    vstd::utf8::encode_utf8_valid_utf8(text);
    vstd::utf8::encode_utf8_decode_utf8(text);
}

proof fn lemma_simple_string_round_trip(text: Seq<char>)
    ensures
        !has_terminator(encode_utf8(text)) <==> value_at(
            encoding(Value::SimpleString(text)),
            0,
        ) == (
            Ok::<Value, RESPError>(Value::SimpleString(text)),
            encoding(Value::SimpleString(text)).len() as int,
        ),
{
    let bytes = encode_utf8(text);
    let buf = encoding(Value::SimpleString(text));
    if has_terminator(bytes) {
        let i = choose|i: int| crlf_at(bytes, i);
        assert(buf.len() == bytes.len() + 3);
        assert(buf[i + 1] == bytes[i] && buf[i + 2] == bytes[i + 1]);
        assert(crlf_at(buf, i + 1));
        lemma_line_end(buf, 1);
        assert(line_end(buf, 1) <= i + 1);
        assert(value_at(buf, 0).1 < buf.len());
    } else {
        assert(buf.subrange(0, buf.len() as int) =~= buf);
        lemma_simple_string_decodes(buf, 0, text);
    }
}

proof fn lemma_bulk_string_round_trip(text: Seq<char>)
    ensures
        short(text) <==> value_at(encoding(Value::BulkString(text)), 0) == (
            Ok::<Value, RESPError>(Value::BulkString(text)),
            encoding(Value::BulkString(text)).len() as int,
        ),
{
    let bytes = encode_utf8(text);
    let digits = decimal_digits(bytes.len());
    let buf = encoding(Value::BulkString(text));
    if short(text) {
        assert(buf.subrange(0, buf.len() as int) =~= buf);
        lemma_bulk_string_decodes(buf, 0, text);
    } else {
        let end = 1 + digits.len() as int;
        lemma_decimal_digits(bytes.len());
        assert(buf.len() == digits.len() + bytes.len() + 5);
        assert(forall|i: int| 0 <= i < digits.len() ==> buf[i + 1] == digits[i]);
        assert(crlf_at(buf, end));
        assert forall|j: int| 1 <= j < end implies !crlf_at(buf, j) by {
            assert(is_digit(digits[j - 1]));
        }
        lemma_first_terminator(buf, 1, end);
        assert(buf.subrange(1, end) =~= digits);
        assert(is_digit(digits[0]));
        assert(signed_value(digits) is None);
    }
}

proof fn lemma_array_no_round_trip(items: Seq<Value>)
    ensures
        value_at(encoding(Value::Array(items)), 0).0 is Err,
{
    let digits = decimal_digits(items.len());
    let rest = encodings(items);
    let buf = encoding(Value::Array(items));
    let end = line_end(buf, 1);
    lemma_decimal_digits(items.len());
    assert(buf.len() == 1 + digits.len() + rest.len());
    assert(forall|i: int| 0 <= i < digits.len() ==> buf[i + 1] == digits[i]);
    lemma_line_end(buf, 1);
    if end < buf.len() {
        if end < 1 + digits.len() {
            assert(is_digit(digits[end - 1]));
        }
        assert(items.len() > 0) by {
            if items.len() == 0 {
                assert(rest =~= Seq::<u8>::empty());
            }
        }
        lemma_encodings_head(items);
        assert(buf[1 + digits.len() as int] == rest[0]);
        let line = buf.subrange(1, end);
        assert(line[0] == digits[0]);
        assert(is_digit(digits[0]));
        assert(line[digits.len() as int] == rest[0]);
        assert(!is_digit(line[digits.len() as int]));
        assert(signed_value(line) is None);
    }
}

/// Decoding the serialization of a value from its first byte gives the value
/// back and leaves the cursor behind its last byte exactly if the value is
/// [`reproducible`].
pub proof fn lemma_round_trip(value: Value)
    ensures
        reproducible(value) <==> value_at(encoding(value), 0) == (
            Ok::<Value, RESPError>(value),
            encoding(value).len() as int,
        ),
{
    match value {
        Value::Null => {
            let buf = encoding(value);
            assert(buf.subrange(0, buf.len() as int) =~= buf);
            lemma_null_decodes(buf, 0);
        },
        Value::SimpleString(text) => lemma_simple_string_round_trip(text),
        Value::BulkString(text) => lemma_bulk_string_round_trip(text),
        Value::Array(items) => lemma_array_no_round_trip(items),
    }
}

/// The form in which a value stands in a request: its serialization, but
/// with a terminator behind the count of every array.
pub open spec fn framing(value: Value) -> Seq<u8>
    decreases value,
{
    match value {
        Value::Array(items) => seq![TAG_ARRAY] + decimal_digits(items.len()) + terminator()
            + framings(items),
        _ => encoding(value),
    }
}

/// The forms of `items`, one behind the other.
pub open spec fn framings(items: Seq<Value>) -> Seq<u8>
    decreases items,
{
    if items.len() == 0 {
        Seq::empty()
    } else {
        framing(items[0]) + framings(items.skip(1))
    }
}

/// The values that the decoder reads from their form in a request: those
/// that are [`reproducible`], and the arrays of at most `i32::MAX` such
/// values or such arrays.
pub open spec fn readable(value: Value) -> bool
    decreases value,
{
    match value {
        Value::Array(items) => items.len() <= i32::MAX && forall|i: int|
            0 <= i < items.len() ==> readable(#[trigger] items[i]),
        _ => reproducible(value),
    }
}

/// Where the form of a readable value stands in a buffer, whatever stands
/// around it, the decoder reads the value there, arrays within arrays
/// included, and leaves the cursor behind the form.
pub proof fn lemma_framing_decodes(buf: Seq<u8>, at: int, value: Value)
    requires
        readable(value),
        stands_at(buf, at, framing(value)),
    ensures
        value_at(buf, at) == (Ok::<Value, RESPError>(value), at + framing(value).len()),
    decreases value,
{
    match value {
        Value::Null => lemma_null_decodes(buf, at),
        Value::SimpleString(text) => lemma_simple_string_decodes(buf, at, text),
        Value::BulkString(text) => lemma_bulk_string_decodes(buf, at, text),
        Value::Array(items) => {
            let digits = decimal_digits(items.len());
            let header = digits + terminator();
            let whole = framing(value);
            let body = at + 1 + header.len();
            assert(whole.len() == 1 + header.len() + framings(items).len());
            assert forall|i: int| 0 <= i < whole.len() implies buf[at + i] == #[trigger] whole[i] by {
                assert(buf.subrange(at, at + whole.len())[i] == buf[at + i]);
            }
            assert(buf[at] == whole[0]);
            assert(stands_at(buf, at + 1, header)) by {
                assert forall|i: int| 0 <= i < header.len() implies buf[at + 1 + i]
                    == #[trigger] header[i] by {
                    assert(buf[at + 1 + i] == whole[1 + i]);
                }
                assert(buf.subrange(at + 1, at + 1 + header.len()) =~= header);
            }
            lemma_length_decodes(buf, at + 1, items.len());
            assert(stands_at(buf, body, framings(items))) by {
                let rest = framings(items);
                assert forall|i: int| 0 <= i < rest.len() implies buf[body + i]
                    == #[trigger] rest[i] by {
                    assert(buf[body + i] == whole[body - at + i]);
                }
                assert(buf.subrange(body, body + rest.len()) =~= rest);
            }
            lemma_framings_decode(buf, body, items);
        },
    }
}

/// Where the forms of readable values stand in a buffer one behind the
/// other, the decoder reads the run of them.
pub proof fn lemma_framings_decode(buf: Seq<u8>, at: int, items: Seq<Value>)
    requires
        forall|i: int| 0 <= i < items.len() ==> readable(#[trigger] items[i]),
        stands_at(buf, at, framings(items)),
    ensures
        items_at(buf, at, items.len()) == (
            Ok::<Seq<Value>, RESPError>(items),
            at + framings(items).len(),
        ),
    decreases items,
{
    if items.len() == 0 {
        assert(items =~= Seq::<Value>::empty());
    } else {
        let first = framing(items[0]);
        let rest = framings(items.skip(1));
        let whole = framings(items);
        assert forall|i: int| 0 <= i < whole.len() implies buf[at + i] == #[trigger] whole[i] by {
            assert(buf.subrange(at, at + whole.len())[i] == buf[at + i]);
        }
        assert(stands_at(buf, at, first)) by {
            assert forall|i: int| 0 <= i < first.len() implies buf[at + i] == #[trigger] first[i] by {
                assert(buf[at + i] == whole[i]);
            }
            assert(buf.subrange(at, at + first.len()) =~= first);
        }
        assert(readable(items[0]));
        lemma_framing_decodes(buf, at, items[0]);
        let next = at + first.len();
        assert(stands_at(buf, next, rest)) by {
            assert forall|i: int| 0 <= i < rest.len() implies buf[next + i] == #[trigger] rest[i] by {
                assert(buf[next + i] == whole[first.len() + i]);
            }
            assert(buf.subrange(next, next + rest.len()) =~= rest);
        }
        assert forall|i: int| 0 <= i < items.skip(1).len() implies readable(
            #[trigger] items.skip(1)[i],
        ) by {
            assert(items.skip(1)[i] == items[i + 1]);
        }
        lemma_framings_decode(buf, next, items.skip(1));
        assert(seq![items[0]] + items.skip(1) =~= items);
    }
}

/// A bulk string that the decoder read is short.
pub proof fn lemma_decoded_short(buf: Seq<u8>, at: int)
    ensures
        value_at(buf, at).0 matches Ok(Value::BulkString(text)) ==> short(text),
{
    if 0 <= at < buf.len() && buf[at] == TAG_BULK {
        let (length, cursor) = length_at(buf, at + 1);
        if length is Ok && length->Ok_0 >= 0 {
            lemma_line_end(buf, at + 1);
            let body = buf.subrange(cursor, cursor + length->Ok_0);
            if bytes_at(buf, cursor, length->Ok_0 as int).0 is Ok && valid_utf8(body) {
                vstd::utf8::decode_utf8_encode_utf8(body);
            }
        }
    }
}

/// Every bulk string in a run of values that the decoder read is short.
pub proof fn lemma_decoded_items_short(buf: Seq<u8>, at: int, count: nat)
    ensures
        items_at(buf, at, count).0 matches Ok(items) ==> forall|i: int|
            0 <= i < items.len() ==> (#[trigger] items[i] matches Value::BulkString(text) ==> short(
                text,
            )),
    decreases count,
{
    if count > 0 {
        lemma_decoded_short(buf, at);
        let (first, cursor) = value_at(buf, at);
        if first is Ok {
            lemma_decoded_items_short(buf, forward(at, cursor), (count - 1) as nat);
        }
    }
}

} // verus!
