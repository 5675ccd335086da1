//! The wire codec: decoding a byte buffer at a cursor into a [`RESP`] value,
//! and encoding a value back into bytes.
//!
//! What the decoder returns is stated by spec functions over the buffer as a
//! `Seq<u8>` and the cursor as an `int`; each of them gives the outcome
//! together with the cursor afterwards. The executable functions are proved
//! to compute exactly that.
use crate::decimal::{decimal_digits, read_signed, signed_value, write_decimal};
use crate::resp_result::{RESPError, RESPLength, RESPResult};
use vstd::prelude::*;
use vstd::slice::{slice_subrange, slice_to_vec};
use vstd::utf8::{decode_utf8, encode_utf8, valid_utf8};

verus! {

/// The byte `\r`.
pub const CR: u8 = 0x0d;

/// The byte `\n`.
pub const LF: u8 = 0x0a;

/// The tag of a simple string, `+`.
pub const TAG_SIMPLE: u8 = 0x2b;

/// The tag of a bulk string, `$`.
pub const TAG_BULK: u8 = 0x24;

/// The tag of an array, `*`.
pub const TAG_ARRAY: u8 = 0x2a;

/// A request or a reply.
#[derive(Debug, PartialEq)]
pub enum RESP {
    Null,
    SimpleString(String),
    BulkString(String),
    Array(Vec<RESP>),
}

/// The mathematical content of a [`RESP`]: texts as character sequences.
pub enum Value {
    Null,
    SimpleString(Seq<char>),
    BulkString(Seq<char>),
    Array(Seq<Value>),
}

impl View for RESP {
    type V = Value;

    open spec fn view(&self) -> Value
        decreases self,
    {
        match self {
            RESP::Null => Value::Null,
            RESP::SimpleString(text) => Value::SimpleString(text@),
            RESP::BulkString(text) => Value::BulkString(text@),
            RESP::Array(items) => Value::Array(
                Seq::new(
                    items.len() as nat,
                    |i: int|
                        if 0 <= i < items.len() {
                            items[i]@
                        } else {
                            Value::Null
                        },
                ),
            ),
        }
    }
}

/// The contents of `items`, one for one.
pub open spec fn values(items: Seq<RESP>) -> Seq<Value> {
    Seq::new(items.len(), |i: int| items[i]@)
}

/// An array's content is the contents of its elements.
pub proof fn lemma_array_view(items: Vec<RESP>)
    ensures
        RESP::Array(items)@ == Value::Array(values(items@)),
{
    assert(RESP::Array(items)@->Array_0 =~= values(items@));
}

/// Whether the two-byte line terminator stands at `at`.
pub open spec fn crlf_at(buf: Seq<u8>, at: int) -> bool {
    &&& 0 <= at
    &&& at + 1 < buf.len()
    &&& buf[at] == CR
    &&& buf[at + 1] == LF
}

/// The offset of the first line terminator at or after `from`; the buffer's
/// length if there is none.
pub open spec fn line_end(buf: Seq<u8>, from: int) -> int
    decreases buf.len() - from,
{
    if from >= buf.len() {
        buf.len() as int
    } else if crlf_at(buf, from) {
        from
    } else {
        line_end(buf, from + 1)
    }
}

/// The line that starts at `at`, without its terminator, and the cursor
/// behind the terminator. With the cursor at or behind the buffer's end the
/// error carries the cursor and leaves it; with no terminator ahead the error
/// carries the buffer's length and the cursor moves there.
pub open spec fn line_at(buf: Seq<u8>, at: int) -> (Result<Seq<u8>, RESPError>, int) {
    if at >= buf.len() {
        (Err(RESPError::OutOfBounds(at as usize)), at)
    } else if line_end(buf, at) >= buf.len() {
        (Err(RESPError::OutOfBounds(buf.len() as usize)), buf.len() as int)
    } else {
        (Ok(buf.subrange(at, line_end(buf, at))), line_end(buf, at) + 2)
    }
}

/// The `count` bytes that start at `at`, and the cursor behind them. Where
/// the buffer is too short the error carries its length and the cursor stays.
pub open spec fn bytes_at(buf: Seq<u8>, at: int, count: int) -> (Result<Seq<u8>, RESPError>, int) {
    if at + count > buf.len() {
        (Err(RESPError::OutOfBounds(buf.len() as usize)), at)
    } else {
        (Ok(buf.subrange(at, at + count)), at + count)
    }
}

/// The line at `at` as text. A line that is not UTF-8 is an error behind the
/// line.
pub open spec fn text_at(buf: Seq<u8>, at: int) -> (Result<Seq<char>, RESPError>, int) {
    match line_at(buf, at) {
        (Ok(line), cursor) => if valid_utf8(line) {
            (Ok(decode_utf8(line)), cursor)
        } else {
            (Err(RESPError::FromUtf8), cursor)
        },
        (Err(e), cursor) => (Err(e), cursor),
    }
}

/// The line at `at` as a length field: a signed 32-bit decimal.
pub open spec fn length_at(buf: Seq<u8>, at: int) -> (Result<RESPLength, RESPError>, int) {
    match line_at(buf, at) {
        (Ok(line), cursor) => if !valid_utf8(line) {
            (Err(RESPError::FromUtf8), cursor)
        } else {
            match signed_value(line) {
                Some(n) => (Ok(n as RESPLength), cursor),
                None => (Err(RESPError::ParseInt), cursor),
            }
        },
        (Err(e), cursor) => (Err(e), cursor),
    }
}

/// Stepping over the tag `tag` at `at`. With no byte under the cursor the
/// error carries the cursor; with another byte it is `WrongType`. Neither
/// moves the cursor.
pub open spec fn tag_at(buf: Seq<u8>, at: int, tag: u8) -> (Result<(), RESPError>, int) {
    if at < 0 || at >= buf.len() {
        (Err(RESPError::OutOfBounds(at as usize)), at)
    } else if buf[at] != tag {
        (Err(RESPError::WrongType), at)
    } else {
        (Ok(()), at + 1)
    }
}

/// How many bytes lie at or after `at`.
pub open spec fn remaining(buf: Seq<u8>, at: int) -> nat {
    if at < buf.len() {
        (buf.len() - at) as nat
    } else {
        0
    }
}

/// A line ends at or after its start and within the buffer, and where it
/// ends before the buffer does, the terminator stands there.
pub proof fn lemma_line_end(buf: Seq<u8>, from: int)
    requires
        from <= buf.len(),
    ensures
        from <= line_end(buf, from) <= buf.len(),
        line_end(buf, from) < buf.len() ==> crlf_at(buf, line_end(buf, from)),
        forall|i: int| from <= i < line_end(buf, from) ==> !crlf_at(buf, i),
    decreases buf.len() - from,
{
    if from < buf.len() && !crlf_at(buf, from) {
        lemma_line_end(buf, from + 1);
    }
}

/// The simple string at `at`: the tag `+`, then a line of text.
pub open spec fn simple_string_at(buf: Seq<u8>, at: int) -> (Result<Value, RESPError>, int) {
    match tag_at(buf, at, TAG_SIMPLE) {
        (Ok(_), cursor) => match text_at(buf, cursor) {
            (Ok(text), cursor) => (Ok(Value::SimpleString(text)), cursor),
            (Err(e), cursor) => (Err(e), cursor),
        },
        (Err(e), cursor) => (Err(e), cursor),
    }
}

/// The bulk string at `at`: the tag `$`, a length line, and unless the length
/// is `-1`, which stands for `Null`, as many bytes of UTF-8 text and two more
/// bytes which are stepped over unseen.
pub open spec fn bulk_string_at(buf: Seq<u8>, at: int) -> (Result<Value, RESPError>, int) {
    match tag_at(buf, at, TAG_BULK) {
        (Ok(_), cursor) => match length_at(buf, cursor) {
            (Ok(length), cursor) => if length == -1 {
                (Ok(Value::Null), cursor)
            } else if length < -1 {
                (Err(RESPError::IncorrectLength(length)), cursor)
            } else {
                match bytes_at(buf, cursor, length as int) {
                    (Ok(body), cursor) => if valid_utf8(body) {
                        (Ok(Value::BulkString(decode_utf8(body))), cursor + 2)
                    } else {
                        (Err(RESPError::FromUtf8), cursor)
                    },
                    (Err(e), cursor) => (Err(e), cursor),
                }
            },
            (Err(e), cursor) => (Err(e), cursor),
        },
        (Err(e), cursor) => (Err(e), cursor),
    }
}

/// The value at `at`, chosen by the byte under the cursor. With no byte there
/// the error carries the cursor; a byte that is no tag is `Unknown`. Neither
/// moves the cursor.
pub open spec fn value_at(buf: Seq<u8>, at: int) -> (Result<Value, RESPError>, int)
    decreases remaining(buf, at), 1nat,
{
    if at < 0 || at >= buf.len() {
        (Err(RESPError::OutOfBounds(at as usize)), at)
    } else if buf[at] == TAG_SIMPLE {
        simple_string_at(buf, at)
    } else if buf[at] == TAG_BULK {
        bulk_string_at(buf, at)
    } else if buf[at] == TAG_ARRAY {
        array_at(buf, at)
    } else {
        (Err(RESPError::Unknown), at)
    }
}

/// The array at `at`: the tag `*`, a length line that holds the count, and
/// as many values one behind the other.
pub open spec fn array_at(buf: Seq<u8>, at: int) -> (Result<Value, RESPError>, int)
    decreases remaining(buf, at), 0nat,
{
    match tag_at(buf, at, TAG_ARRAY) {
        (Ok(_), cursor) => match length_at(buf, cursor) {
            (Ok(length), cursor) => if length < 0 {
                (Err(RESPError::IncorrectLength(length)), cursor)
            } else {
                proof {
                    lemma_line_end(buf, at + 1);
                }
                array_of(items_at(buf, cursor, length as nat))
            },
            (Err(e), cursor) => (Err(e), cursor),
        },
        (Err(e), cursor) => (Err(e), cursor),
    }
}

/// A run of values as one array value.
pub open spec fn array_of(run: (Result<Seq<Value>, RESPError>, int)) -> (
    Result<Value, RESPError>,
    int,
) {
    match run {
        (Ok(items), cursor) => (Ok(Value::Array(items)), cursor),
        (Err(e), cursor) => (Err(e), cursor),
    }
}

/// `count` values one behind the other from `at`. The first that fails ends
/// the run with its error and its cursor.
pub open spec fn items_at(buf: Seq<u8>, at: int, count: nat) -> (Result<Seq<Value>, RESPError>, int)
    decreases remaining(buf, at), count + 2,
{
    if count == 0 {
        (Ok(Seq::empty()), at)
    } else {
        match value_at(buf, at) {
            (Ok(first), cursor) => match items_at(buf, forward(at, cursor), (count - 1) as nat) {
                (Ok(rest), cursor) => (Ok(seq![first] + rest), cursor),
                (Err(e), cursor) => (Err(e), cursor),
            },
            (Err(e), cursor) => (Err(e), cursor),
        }
    }
}

/// The cursor `to` reached from `from`. A cursor never moves back (see
/// [`lemma_cursor_forward`]), so this is `to`.
pub open spec fn forward(from: int, to: int) -> int {
    if to >= from {
        to
    } else {
        from
    }
}

/// `String::from_utf8`, with the error dropped. The contract claims that the
/// call succeeds exactly if `bytes` are well-formed UTF-8, and that the text
/// it then returns is the one that `bytes` encode.
#[verifier::external_body]
fn string_from_utf8(bytes: Vec<u8>) -> (r: Option<String>)
    ensures
        match r {
            Some(text) => valid_utf8(bytes@) && text@ == decode_utf8(bytes@),
            None => !valid_utf8(bytes@),
        },
{
    String::from_utf8(bytes).ok()
}

/// The text that the ASCII bytes `bytes` spell.
pub fn ascii_text(bytes: Vec<u8>) -> (r: String)
    requires
        forall|i: int| 0 <= i < bytes@.len() ==> bytes@[i] < 0x80,
    ensures
        r@ == decode_utf8(bytes@),
{
    proof {
        lemma_ascii_is_utf8(bytes@);
    }
    match string_from_utf8(bytes) {
        Some(text) => text,
        None => String::new(),
    }
}

/// Reads the line under the cursor and moves the cursor behind its
/// terminator.
pub fn binary_extract_line(buffer: &[u8], index: &mut usize) -> (r: RESPResult<Vec<u8>>)
    ensures
        *final(index) == line_at(buffer@, *old(index) as int).1,
        match r {
            Ok(line) => line_at(buffer@, *old(index) as int).0 == Ok::<Seq<u8>, RESPError>(line@),
            Err(e) => line_at(buffer@, *old(index) as int).0 == Err::<Seq<u8>, RESPError>(e),
        },
{
    let start = *index;
    if start >= buffer.len() {
        return Err(RESPError::OutOfBounds(start));
    }
    let mut i = start;
    while i + 1 < buffer.len()
        invariant
            start == *old(index),
            start <= i < buffer.len(),
            buffer.len() == buffer@.len(),
            line_end(buffer@, start as int) == line_end(buffer@, i as int),
        decreases buffer.len() - i,
    {
        if buffer[i] == CR && buffer[i + 1] == LF {
            let line = slice_to_vec(slice_subrange(buffer, start, i));
            *index = i + 2;
            return Ok(line);
        }
        i = i + 1;
    }
    assert(line_end(buffer@, i as int) == buffer@.len()) by {
        assert(!crlf_at(buffer@, i as int));
        assert(line_end(buffer@, i + 1) == buffer@.len());
    }
    *index = buffer.len();
    Err(RESPError::OutOfBounds(buffer.len()))
}

/// Reads `length` bytes under the cursor and moves the cursor behind them.
pub fn binary_extract_bytes(buffer: &[u8], index: &mut usize, length: usize) -> (r: RESPResult<
    Vec<u8>,
>)
    ensures
        *final(index) == bytes_at(buffer@, *old(index) as int, length as int).1,
        match r {
            Ok(bytes) => bytes_at(buffer@, *old(index) as int, length as int).0 == Ok::<
                Seq<u8>,
                RESPError,
            >(bytes@),
            Err(e) => bytes_at(buffer@, *old(index) as int, length as int).0 == Err::<
                Seq<u8>,
                RESPError,
            >(e),
        },
{
    let start = *index;
    if start > buffer.len() || length > buffer.len() - start {
        return Err(RESPError::OutOfBounds(buffer.len()));
    }
    let bytes = slice_to_vec(slice_subrange(buffer, start, start + length));
    *index = start + length;
    Ok(bytes)
}

/// Reads the line under the cursor as text.
pub fn binary_extract_line_as_string(buffer: &[u8], index: &mut usize) -> (r: RESPResult<String>)
    ensures
        *final(index) == text_at(buffer@, *old(index) as int).1,
        match r {
            Ok(text) => text_at(buffer@, *old(index) as int).0 == Ok::<Seq<char>, RESPError>(
                text@,
            ),
            Err(e) => text_at(buffer@, *old(index) as int).0 == Err::<Seq<char>, RESPError>(e),
        },
{
    let line = binary_extract_line(buffer, index)?;
    match string_from_utf8(line) {
        Some(text) => Ok(text),
        None => Err(RESPError::FromUtf8),
    }
}

/// Reads the line under the cursor as a length field.
pub fn resp_extract_length(buffer: &[u8], index: &mut usize) -> (r: RESPResult<RESPLength>)
    ensures
        *final(index) == length_at(buffer@, *old(index) as int).1,
        r == length_at(buffer@, *old(index) as int).0,
{
    let line = binary_extract_line_as_string(buffer, index)?;
    proof {
        let bytes = line_at(buffer@, *old(index) as int).0->Ok_0;
        vstd::utf8::decode_utf8_encode_utf8(bytes);
    }
    match read_signed(line.as_str().as_bytes()) {
        Some(length) => Ok(length),
        None => Err(RESPError::ParseInt),
    }
}

/// Steps over the tag `value` under the cursor.
pub fn resp_remove_type(value: char, buffer: &[u8], index: &mut usize) -> (r: RESPResult<()>)
    ensures
        *final(index) == tag_at(buffer@, *old(index) as int, value as u8).1,
        r == tag_at(buffer@, *old(index) as int, value as u8).0,
{
    if *index >= buffer.len() {
        return Err(RESPError::OutOfBounds(*index));
    }
    if buffer[*index] != value as u8 {
        return Err(RESPError::WrongType);
    }
    *index = *index + 1;
    Ok(())
}

/// The decoder for one kind of value.
#[derive(Debug, PartialEq, Eq, Structural, Clone, Copy)]
pub enum Parser {
    SimpleString,
    BulkString,
    Array,
}

/// The decoder that the byte at `at` calls for.
pub open spec fn parser_at(buf: Seq<u8>, at: int) -> Result<Parser, RESPError> {
    if at < 0 || at >= buf.len() {
        Err(RESPError::OutOfBounds(at as usize))
    } else if buf[at] == TAG_SIMPLE {
        Ok(Parser::SimpleString)
    } else if buf[at] == TAG_BULK {
        Ok(Parser::BulkString)
    } else if buf[at] == TAG_ARRAY {
        Ok(Parser::Array)
    } else {
        Err(RESPError::Unknown)
    }
}

/// The content of a decoded value, or the error as it is.
pub open spec fn outcome(r: RESPResult<RESP>) -> Result<Value, RESPError> {
    match r {
        Ok(value) => Ok(value@),
        Err(e) => Err(e),
    }
}

/// A cursor never moves back, and a value that was decoded lies in the
/// buffer and is at least one byte long.
pub proof fn lemma_cursor_forward(buf: Seq<u8>, at: int)
    ensures
        value_at(buf, at).1 >= at,
        value_at(buf, at).0 is Ok ==> 0 <= at < value_at(buf, at).1,
        array_at(buf, at).1 >= at,
        array_at(buf, at).0 is Ok ==> 0 <= at < array_at(buf, at).1,
    decreases remaining(buf, at), 1nat,
{
    if 0 <= at < buf.len() {
        lemma_line_end(buf, at + 1);
        if buf[at] == TAG_ARRAY {
            let (length, cursor) = length_at(buf, at + 1);
            if length is Ok && length->Ok_0 >= 0 {
                lemma_items_forward(buf, cursor, length->Ok_0 as nat);
            }
        }
    }
}

/// A run of values never moves the cursor back.
pub proof fn lemma_items_forward(buf: Seq<u8>, at: int, count: nat)
    ensures
        items_at(buf, at, count).1 >= at,
    decreases remaining(buf, at), count + 2,
{
    if count > 0 {
        lemma_cursor_forward(buf, at);
        let (first, cursor) = value_at(buf, at);
        if first is Ok {
            lemma_items_forward(buf, cursor, (count - 1) as nat);
        }
    }
}

/// Tells from the byte under the cursor which decoder the value needs.
pub fn parser_router(buffer: &[u8], index: usize) -> (r: RESPResult<Parser>)
    ensures
        r == parser_at(buffer@, index as int),
{
    if index >= buffer.len() {
        return Err(RESPError::OutOfBounds(index));
    }
    let tag = buffer[index];
    if tag == TAG_SIMPLE {
        Ok(Parser::SimpleString)
    } else if tag == TAG_BULK {
        Ok(Parser::BulkString)
    } else if tag == TAG_ARRAY {
        Ok(Parser::Array)
    } else {
        Err(RESPError::Unknown)
    }
}

/// Decodes the simple string under the cursor.
pub fn parse_simple_string(buffer: &[u8], index: &mut usize) -> (r: RESPResult<RESP>)
    ensures
        *final(index) == simple_string_at(buffer@, *old(index) as int).1,
        outcome(r) == simple_string_at(buffer@, *old(index) as int).0,
{
    resp_remove_type('+', buffer, index)?;
    let line = binary_extract_line_as_string(buffer, index)?;
    Ok(RESP::SimpleString(line))
}

/// Decodes the bulk string under the cursor.
pub fn parse_bulk_string(buffer: &[u8], index: &mut usize) -> (r: RESPResult<RESP>)
    requires
        buffer@.len() + 2 <= usize::MAX,
    ensures
        *final(index) == bulk_string_at(buffer@, *old(index) as int).1,
        outcome(r) == bulk_string_at(buffer@, *old(index) as int).0,
{
    resp_remove_type('$', buffer, index)?;
    let length = resp_extract_length(buffer, index)?;
    if length == -1 {
        return Ok(RESP::Null);
    }
    if length < -1 {
        return Err(RESPError::IncorrectLength(length));
    }
    let bytes = binary_extract_bytes(buffer, index, length as usize)?;
    match string_from_utf8(bytes) {
        Some(data) => {
            *index = *index + 2;
            Ok(RESP::BulkString(data))
        },
        None => Err(RESPError::FromUtf8),
    }
}

/// Decodes the array under the cursor, its elements included.
pub fn parse_array(buffer: &[u8], index: &mut usize) -> (r: RESPResult<RESP>)
    requires
        buffer@.len() + 2 <= usize::MAX,
    ensures
        *final(index) == array_at(buffer@, *old(index) as int).1,
        outcome(r) == array_at(buffer@, *old(index) as int).0,
    decreases remaining(buffer@, *old(index) as int), 0nat,
{
    let ghost entry = *index as int;
    resp_remove_type('*', buffer, index)?;
    let length = resp_extract_length(buffer, index)?;
    if length < 0 {
        return Err(RESPError::IncorrectLength(length));
    }
    let ghost start = *index as int;
    proof {
        lemma_line_end(buffer@, entry + 1);
    }
    let mut data: Vec<RESP> = Vec::new();
    let mut done: RESPLength = 0;
    while done < length
        invariant
            0 <= done <= length,
            buffer@.len() + 2 <= usize::MAX,
            entry == *old(index),
            0 <= entry < buffer@.len(),
            entry < start <= *index,
            array_at(buffer@, entry) == array_of(items_at(buffer@, start, length as nat)),
            data@.len() == done,
            match items_at(buffer@, *index as int, (length - done) as nat) {
                (Ok(rest), cursor) => items_at(buffer@, start, length as nat) == (
                    Ok::<Seq<Value>, RESPError>(values(data@) + rest),
                    cursor,
                ),
                (Err(e), cursor) => items_at(buffer@, start, length as nat) == (
                    Err::<Seq<Value>, RESPError>(e),
                    cursor,
                ),
            },
        decreases length - done,
    {
        let ghost at = *index as int;
        let ghost before = values(data@);
        proof {
            lemma_cursor_forward(buffer@, at);
        }
        match bytes_to_resp(buffer, index) {
            Ok(element) => {
                data.push(element);
                proof {
                    let first = value_at(buffer@, at).0->Ok_0;
                    assert(values(data@) =~= before + seq![first]);
                    match items_at(buffer@, *index as int, (length - done - 1) as nat) {
                        (Ok(rest), _) => {
                            assert(values(data@) + rest =~= before + (seq![first] + rest));
                        },
                        (Err(_), _) => {},
                    }
                }
            },
            Err(e) => {
                return Err(e);
            },
        }
        done = done + 1;
    }
    proof {
        lemma_array_view(data);
        assert(values(data@) + Seq::<Value>::empty() =~= values(data@));
    }
    Ok(RESP::Array(data))
}

/// Decodes the value under the cursor and moves the cursor behind it.
pub fn bytes_to_resp(buffer: &[u8], index: &mut usize) -> (r: RESPResult<RESP>)
    requires
        buffer@.len() + 2 <= usize::MAX,
    ensures
        *final(index) == value_at(buffer@, *old(index) as int).1,
        outcome(r) == value_at(buffer@, *old(index) as int).0,
    decreases remaining(buffer@, *old(index) as int), 1nat,
{
    match parser_router(buffer, *index) {
        Ok(Parser::SimpleString) => parse_simple_string(buffer, index),
        Ok(Parser::BulkString) => parse_bulk_string(buffer, index),
        Ok(Parser::Array) => parse_array(buffer, index),
        Err(e) => Err(e),
    }
}

/// The line terminator.
pub open spec fn terminator() -> Seq<u8> {
    seq![CR, LF]
}

/// The one serialization of `value`. `Null` is the bulk string of length
/// `-1`; a simple string is its tag, its text and a terminator; a bulk string
/// is its tag, the number of bytes of its text, a terminator, the text and a
/// terminator; an array is its tag and its count, followed at once by its
/// elements' serializations.
pub open spec fn encoding(value: Value) -> Seq<u8>
    decreases value,
{
    match value {
        Value::Null => seq![TAG_BULK, 0x2d, 0x31, CR, LF],
        Value::SimpleString(text) => seq![TAG_SIMPLE] + encode_utf8(text) + terminator(),
        Value::BulkString(text) => seq![TAG_BULK] + decimal_digits(encode_utf8(text).len())
            + terminator() + encode_utf8(text) + terminator(),
        Value::Array(items) => seq![TAG_ARRAY] + decimal_digits(items.len()) + encodings(items),
    }
}

/// The serializations of `items`, one behind the other.
pub open spec fn encodings(items: Seq<Value>) -> Seq<u8>
    decreases items,
{
    if items.len() == 0 {
        Seq::empty()
    } else {
        encodings(items.drop_last()) + encoding(items.last())
    }
}

/// Appends `bytes` to `out`.
fn append_bytes(out: &mut Vec<u8>, bytes: &[u8])
    ensures
        final(out)@ == old(out)@ + bytes@,
{
    let mut i: usize = 0;
    while i < bytes.len()
        invariant
            i <= bytes.len(),
            bytes.len() == bytes@.len(),
            out@ == old(out)@ + bytes@.take(i as int),
        decreases bytes.len() - i,
    {
        out.push(bytes[i]);
        i = i + 1;
        assert(out@ =~= old(out)@ + bytes@.take(i as int));
    }
    assert(bytes@.take(i as int) =~= bytes@);
}

impl RESP {
    /// Serializes the value.
    pub fn encode(&self) -> (out: Vec<u8>)
        ensures
            out@ == encoding(self@),
    {
        let mut out: Vec<u8> = Vec::new();
        self.encode_into(&mut out);
        out
    }

    /// Appends the value's serialization to `out`.
    pub fn encode_into(&self, out: &mut Vec<u8>)
        ensures
            final(out)@ == old(out)@ + encoding(self@),
        decreases self,
    {
        match self {
            RESP::Null => {
                out.push(TAG_BULK);
                out.push(0x2d);
                out.push(0x31);
                out.push(CR);
                out.push(LF);
                assert(out@ =~= old(out)@ + encoding(self@));
            },
            RESP::SimpleString(text) => {
                out.push(TAG_SIMPLE);
                append_bytes(out, text.as_str().as_bytes());
                out.push(CR);
                out.push(LF);
                assert(out@ =~= old(out)@ + encoding(self@));
            },
            RESP::BulkString(text) => {
                let bytes = text.as_str().as_bytes();
                out.push(TAG_BULK);
                write_decimal(out, bytes.len());
                out.push(CR);
                out.push(LF);
                append_bytes(out, bytes);
                out.push(CR);
                out.push(LF);
                assert(out@ =~= old(out)@ + encoding(self@));
            },
            RESP::Array(items) => {
                out.push(TAG_ARRAY);
                write_decimal(out, items.len());
                let ghost head = out@;
                let mut i: usize = 0;
                while i < items.len()
                    invariant
                        i <= items.len(),
                        *self == RESP::Array(*items),
                        out@ == head + encodings(values(items@).take(i as int)),
                    decreases items.len() - i,
                {
                    proof {
                        vstd::std_specs::vec::axiom_vec_index_decreases(*items, i as int);
                        assert(decreases_to!(*self => self->Array_0));
                    }
                    items[i].encode_into(out);
                    proof {
                        let longer = values(items@).take(i + 1);
                        assert(longer.drop_last() =~= values(items@).take(i as int));
                        assert(longer.last() == items[i as int]@);
                        assert(out@ =~= head + encodings(longer));
                    }
                    i = i + 1;
                }
                proof {
                    lemma_array_view(*items);
                    assert(values(items@).take(i as int) =~= values(items@));
                    assert(encodings(Seq::<Value>::empty()) =~= Seq::<u8>::empty());
                    assert(out@ =~= old(out)@ + encoding(self@));
                }
            },
        }
    }
}

/// Bytes below `0x80` are well-formed UTF-8.
pub proof fn lemma_ascii_is_utf8(bytes: Seq<u8>)
    requires
        forall|i: int| 0 <= i < bytes.len() ==> bytes[i] < 0x80,
    ensures
        valid_utf8(bytes),
{
    assert(bytes.subrange(0, 0) =~= Seq::<u8>::empty());
    assert(vstd::utf8::partial_valid_utf8(bytes, 0));
    assert forall|i: int| 0 <= 0 <= i < bytes.len() <= bytes.len() implies #[trigger]
    vstd::utf8::is_leading_byte_width_1(
        bytes[i],
    ) by {}
    vstd::utf8::partial_valid_utf8_extend_ascii_block(bytes, 0, bytes.len() as int);
    assert(bytes.subrange(0, bytes.len() as int) =~= bytes);
}

} // verus!
