//! The wire codec: parsing one value from bytes, and writing a value as bytes.
use vstd::prelude::*;
use vstd::utf8::*;
use crate::numeric::{
    i64_of_text, int_text, lemma_int_text_ascii, lemma_int_text_round_trip, parse_i64, push_count_text, push_int_text,
};

verus! {

/// One wire value.
#[derive(Debug, PartialEq, Eq)]
pub enum RespObject {
    SimpleString(String),
    Error(String),
    Integer(i64),
    BulkString(String),
    NullBulkString,
    Array(Vec<RespObject>),
    NullArray,
}

/// Why some bytes do not hold a wire value.
#[derive(Debug, PartialEq, Eq)]
pub struct RespObjectParseError {
    pub message: String,
}

/// The mathematical form of a wire value: text as characters, arrays as sequences.
pub enum RespValue {
    SimpleString(Seq<char>),
    Error(Seq<char>),
    Integer(i64),
    BulkString(Seq<char>),
    NullBulkString,
    Array(Seq<RespValue>),
    NullArray,
}

/// The mathematical form of `o`.
pub open spec fn value_of(o: RespObject) -> RespValue
    decreases o,
{
    match o {
        RespObject::SimpleString(t) => RespValue::SimpleString(t@),
        RespObject::Error(t) => RespValue::Error(t@),
        RespObject::Integer(n) => RespValue::Integer(n),
        RespObject::BulkString(t) => RespValue::BulkString(t@),
        RespObject::NullBulkString => RespValue::NullBulkString,
        RespObject::Array(items) => RespValue::Array(
            Seq::new(
                items@.len(),
                |i: int|
                    if 0 <= i < items@.len() {
                        value_of(items@[i])
                    } else {
                        RespValue::NullArray
                    },
            ),
        ),
        RespObject::NullArray => RespValue::NullArray,
    }
}

impl View for RespObject {
    type V = RespValue;

    open spec fn view(&self) -> RespValue {
        value_of(*self)
    }
}

pub open spec fn crlf() -> Seq<u8> {
    seq![13u8, 10u8]
}

/// The canonical bytes of a wire value.
pub open spec fn serialized(v: RespValue) -> Seq<u8>
    decreases v,
{
    match v {
        RespValue::SimpleString(t) => seq![43u8] + encode_utf8(t) + crlf(),
        RespValue::Error(t) => seq![45u8] + encode_utf8(t) + crlf(),
        RespValue::Integer(n) => seq![58u8] + int_text(n as int) + crlf(),
        RespValue::BulkString(t) => seq![36u8] + int_text(encode_utf8(t).len() as int) + crlf()
            + encode_utf8(t) + crlf(),
        RespValue::NullBulkString => seq![36u8, 45u8, 49u8, 13u8, 10u8],
        RespValue::Array(items) => seq![42u8] + int_text(items.len() as int) + crlf()
            + serialized_items(items),
        RespValue::NullArray => seq![42u8, 45u8, 49u8, 13u8, 10u8],
    }
}

/// The canonical bytes of the values in `items`, one after the other.
pub open spec fn serialized_items(items: Seq<RespValue>) -> Seq<u8>
    decreases items,
{
    if items.len() == 0 {
        Seq::empty()
    } else {
        serialized_items(items.subrange(0, items.len() - 1)) + serialized(items[items.len() - 1])
    }
}

/// The position of the first carriage return at or after `pos`.
pub open spec fn find_cr(b: Seq<u8>, pos: int) -> Option<int>
    decreases b.len() - pos,
{
    if pos < 0 || pos >= b.len() {
        None
    } else if b[pos] == 13u8 {
        Some(pos)
    } else {
        find_cr(b, pos + 1)
    }
}

/// The line that starts at `pos`: its bytes up to the terminator, and the
/// position after the terminator.
pub open spec fn line_at(b: Seq<u8>, pos: int) -> Option<(Seq<u8>, int)> {
    match find_cr(b, pos) {
        Some(cr) => if cr + 1 < b.len() && b[cr + 1] == 10u8 {
            Some((b.subrange(pos, cr), cr + 2))
        } else {
            None
        },
        None => None,
    }
}

/// A length line at `pos`: an integer no less than -1, and the position after it.
pub open spec fn length_at(b: Seq<u8>, pos: int) -> Option<(int, int)> {
    match line_at(b, pos) {
        Some((t, next)) => match i64_of_text(t) {
            Some(n) => if n >= -1 {
                Some((n as int, next))
            } else {
                None
            },
            None => None,
        },
        None => None,
    }
}

/// The value whose type tag stands at `pos`, and the position after it.
pub open spec fn parse_at(b: Seq<u8>, pos: int) -> Option<(RespValue, int)>
    decreases b.len() - pos, 0int,
{
    if pos < 0 || pos >= b.len() {
        None
    } else if b[pos] == 43u8 || b[pos] == 45u8 {
        match line_at(b, pos + 1) {
            Some((t, next)) => if valid_utf8(t) {
                Some(
                    (
                        if b[pos] == 43u8 {
                            RespValue::SimpleString(decode_utf8(t))
                        } else {
                            RespValue::Error(decode_utf8(t))
                        },
                        next,
                    ),
                )
            } else {
                None
            },
            None => None,
        }
    } else if b[pos] == 58u8 {
        match line_at(b, pos + 1) {
            Some((t, next)) => match i64_of_text(t) {
                Some(n) => Some((RespValue::Integer(n), next)),
                None => None,
            },
            None => None,
        }
    } else if b[pos] == 36u8 {
        match length_at(b, pos + 1) {
            Some((n, next)) => if n == -1 {
                Some((RespValue::NullBulkString, next))
            } else if next + n + 2 <= b.len() && b[next + n] == 13u8 && b[next + n + 1] == 10u8
                && valid_utf8(b.subrange(next, next + n)) {
                Some((RespValue::BulkString(decode_utf8(b.subrange(next, next + n))), next + n + 2))
            } else {
                None
            },
            None => None,
        }
    } else if b[pos] == 42u8 {
        match length_at(b, pos + 1) {
            Some((n, next)) => if n == -1 {
                Some((RespValue::NullArray, next))
            } else if pos < next <= b.len() {
                match parse_items_at(b, next, n as nat) {
                    Some((items, end)) => Some((RespValue::Array(items), end)),
                    None => None,
                }
            } else {
                None
            },
            None => None,
        }
    } else {
        None
    }
}

/// `count` values one after the other from `pos`, and the position after them.
pub open spec fn parse_items_at(b: Seq<u8>, pos: int, count: nat) -> Option<(Seq<RespValue>, int)>
    decreases b.len() - pos, 1int,
{
    if count == 0 {
        Some((Seq::empty(), pos))
    } else {
        match parse_at(b, pos) {
            Some((v, next)) => if pos < next <= b.len() {
                prepend(seq![v], parse_items_at(b, next, (count - 1) as nat))
            } else {
                None
            },
            None => None,
        }
    }
}

pub open spec fn prepend(front: Seq<RespValue>, r: Option<(Seq<RespValue>, int)>) -> Option<
    (Seq<RespValue>, int),
> {
    match r {
        Some((rest, end)) => Some((front + rest, end)),
        None => None,
    }
}

/// What parsing `b` gives: the first value in it, whatever follows.
pub open spec fn parsed(b: Seq<u8>) -> Option<RespValue> {
    match parse_at(b, 0) {
        Some((v, _)) => Some(v),
        None => None,
    }
}

proof fn lemma_prepend_step(front: Seq<RespValue>, v: RespValue, r: Option<(Seq<RespValue>, int)>)
    ensures
        prepend(front, prepend(seq![v], r)) == prepend(front.push(v), r),
{
    if let Some((rest, end)) = r {
        assert(front + (seq![v] + rest) =~= front.push(v) + rest);
    }
}

proof fn lemma_prepend_empty(r: Option<(Seq<RespValue>, int)>)
    ensures
        prepend(Seq::empty(), r) == r,
{
    if let Some((rest, end)) = r {
        assert(Seq::<RespValue>::empty() + rest =~= rest);
    }
}

fn parse_failure(message: &str) -> (r: RespObjectParseError)
    ensures
        r.message@ == message@,
{
    RespObjectParseError { message: message.to_owned() }
}

/// A message quoting the text that `b` encodes between `head` and `tail`; bytes
/// that are not UTF-8 are left out.
pub open spec fn quoting(head: Seq<char>, b: Seq<u8>, tail: Seq<char>) -> Seq<char> {
    if valid_utf8(b) {
        head + decode_utf8(b) + tail
    } else {
        head + tail
    }
}

fn quoting_failure(head: &str, b: &[u8], tail: &str) -> (r: RespObjectParseError)
    ensures
        r.message@ == quoting(head@, b@, tail@),
{
    let mut message = head.to_owned();
    match text_from_utf8(b) {
        Some(t) => {
            message = message.concat(t.as_str());
        },
        None => {},
    }
    RespObjectParseError { message: message.concat(tail) }
}

/// The message for a length line `t` that is no length.
pub open spec fn length_failure(t: Seq<u8>) -> Seq<char> {
    if i64_of_text(t) is None {
        quoting("Failed to parse length '"@, t, "'"@)
    } else {
        quoting("Expected length to be -1 or non-negative, got: '"@, t, "'"@)
    }
}

/// Relies on std::str::from_utf8: it succeeds exactly on valid UTF-8, and the
/// text it gives is what the bytes encode.
#[verifier::external_body]
fn text_from_utf8(b: &[u8]) -> (r: Option<String>)
    ensures
        r is Some <==> valid_utf8(b@),
        r is Some ==> r->0@ == decode_utf8(b@),
{
    match std::str::from_utf8(b) {
        Ok(s) => Some(s.to_owned()),
        Err(_) => None,
    }
}

/// Finds the first carriage return at or after `pos`.
fn read_until_cr(input: &[u8], pos: usize) -> (r: Result<usize, RespObjectParseError>)
    ensures
        match r {
            Ok(cr) => find_cr(input@, pos as int) == Some(cr as int),
            Err(_) => find_cr(input@, pos as int) is None,
        },
{
    let mut i: usize = pos;
    while i < input.len()
        invariant
            pos <= i,
            find_cr(input@, pos as int) == find_cr(input@, i as int),
        decreases input.len() - i,
    {
        if input[i] == 13u8 {
            return Ok(i);
        }
        i = i + 1;
    }
    Err(parse_failure("Unexpected end of input"))
}

/// Checks that a line terminator stands at `pos`, and gives the position after it.
fn skip_crlf(input: &[u8], pos: usize) -> (r: Result<usize, RespObjectParseError>)
    requires
        pos <= input@.len(),
    ensures
        r matches Err(e) ==> e.message@ == quoting(
            "Expected \\r\\n but got something else: "@,
            input@.subrange(pos as int, if pos + 2 <= input@.len() { pos + 2 } else { input@.len() as int }),
            ""@,
        ),
        match r {
            Ok(next) => next == pos + 2 && pos + 2 <= input@.len() && input@[pos as int] == 13u8
                && input@[pos + 1] == 10u8,
            Err(_) => !(pos + 2 <= input@.len() && input@[pos as int] == 13u8 && input@[pos + 1]
                == 10u8),
        },
{
    if pos < input.len() && input.len() - pos >= 2 && input[pos] == 13u8 && input[pos + 1] == 10u8 {
        Ok(pos + 2)
    } else {
        let end = if input.len() - pos >= 2 { pos + 2 } else { input.len() };
        Err(quoting_failure("Expected \\r\\n but got something else: ", &input[pos..end], ""))
    }
}

/// Reads the line at `pos`: the position of its terminator and the position after it.
fn read_line(input: &[u8], pos: usize) -> (r: Result<(usize, usize), RespObjectParseError>)
    ensures
        match r {
            Ok((cr, next)) => pos <= cr && cr + 2 == next && next <= input@.len() && line_at(input@, pos as int) == Some(
                (input@.subrange(pos as int, cr as int), next as int),
            ),
            Err(_) => line_at(input@, pos as int) is None,
        },
{
    let cr = read_until_cr(input, pos)?;
    proof {
        lemma_find_cr_bounds(input@, pos as int);
    }
    let next = skip_crlf(input, cr)?;
    Ok((cr, next))
}

proof fn lemma_find_cr_bounds(b: Seq<u8>, pos: int)
    ensures
        find_cr(b, pos) matches Some(cr) ==> pos <= cr < b.len() && b[cr] == 13u8,
    decreases b.len() - pos,
{
    if 0 <= pos < b.len() && b[pos] != 13u8 {
        lemma_find_cr_bounds(b, pos + 1);
    }
}

/// Reads a length line at `pos`: a number no less than -1.
fn read_length(input: &[u8], pos: usize) -> (r: Result<(i64, usize), RespObjectParseError>)
    ensures
        match r {
            Ok((n, next)) => length_at(input@, pos as int) == Some((n as int, next as int)) && pos
                + 2 <= next <= input@.len(),
            Err(_) => length_at(input@, pos as int) is None,
        },
        r matches Err(e) ==> (line_at(input@, pos as int) matches Some((t, _)) ==> e.message@
            == length_failure(t)),
{
    let (cr, next) = read_line(input, pos)?;
    let text = &input[pos..cr];
    match parse_i64(text) {
        Some(n) => {
            if n < -1 {
                Err(quoting_failure("Expected length to be -1 or non-negative, got: '", text, "'"))
            } else {
                Ok((n, next))
            }
        },
        None => Err(quoting_failure("Failed to parse length '", text, "'")),
    }
}

/// Reads the text of `length` bytes at `pos`.
fn read_until_length(input: &[u8], pos: usize, length: usize) -> (r: Result<String, RespObjectParseError>)
    ensures
        match r {
            Ok(t) => pos + length <= input@.len() && valid_utf8(
                input@.subrange(pos as int, pos + length),
            ) && t@ == decode_utf8(input@.subrange(pos as int, pos + length)),
            Err(_) => !(pos + length <= input@.len() && valid_utf8(
                input@.subrange(pos as int, pos + length),
            )),
        },
{
    if pos > input.len() || length > input.len() - pos {
        return Err(parse_failure("Unexpected end of input"));
    }
    match text_from_utf8(&input[pos..pos + length]) {
        Some(t) => Ok(t),
        None => Err(parse_failure("Invalid UTF-8 text")),
    }
}

/// Parses the rest of a simple string or an error line, whose tag stood before `pos`.
fn read_text_line(input: &[u8], pos: usize) -> (r: Result<(String, usize), RespObjectParseError>)
    ensures
        match r {
            Ok((t, next)) => line_at(input@, pos as int) matches Some((l, n)) && n == next
                && valid_utf8(l) && t@ == decode_utf8(l),
            Err(_) => !(line_at(input@, pos as int) matches Some((l, n)) && valid_utf8(l)),
        },
{
    let (cr, next) = read_line(input, pos)?;
    let text = read_until_length(input, pos, cr - pos)?;
    Ok((text, next))
}

fn parse_simple_string(input: &[u8], pos: usize) -> (r: Result<(RespObject, usize), RespObjectParseError>)
    requires
        pos >= 1,
        pos <= input@.len(),
        input@[pos - 1] == 43u8,
    ensures
        match r {
            Ok((v, next)) => parse_at(input@, pos - 1) == Some((v@, next as int)),
            Err(_) => parse_at(input@, pos - 1) is None,
        },
{
    let (text, next) = read_text_line(input, pos)?;
    Ok((RespObject::SimpleString(text), next))
}

fn parse_error(input: &[u8], pos: usize) -> (r: Result<(RespObject, usize), RespObjectParseError>)
    requires
        pos >= 1,
        pos <= input@.len(),
        input@[pos - 1] == 45u8,
    ensures
        match r {
            Ok((v, next)) => parse_at(input@, pos - 1) == Some((v@, next as int)),
            Err(_) => parse_at(input@, pos - 1) is None,
        },
{
    let (text, next) = read_text_line(input, pos)?;
    Ok((RespObject::Error(text), next))
}

fn parse_integer(input: &[u8], pos: usize) -> (r: Result<(RespObject, usize), RespObjectParseError>)
    requires
        pos >= 1,
        pos <= input@.len(),
        input@[pos - 1] == 58u8,
    ensures
        match r {
            Ok((v, next)) => parse_at(input@, pos - 1) == Some((v@, next as int)),
            Err(_) => parse_at(input@, pos - 1) is None,
        },
        r matches Err(e) ==> (line_at(input@, pos as int) matches Some((t, _)) ==> e.message@
            == quoting("Failed to parse integer '"@, t, "'"@)),
{
    let (cr, next) = read_line(input, pos)?;
    let text = &input[pos..cr];
    match parse_i64(text) {
        Some(n) => Ok((RespObject::Integer(n), next)),
        None => Err(quoting_failure("Failed to parse integer '", text, "'")),
    }
}

fn parse_bulk_string(input: &[u8], pos: usize) -> (r: Result<(RespObject, usize), RespObjectParseError>)
    requires
        pos >= 1,
        pos <= input@.len(),
        input@[pos - 1] == 36u8,
    ensures
        match r {
            Ok((v, next)) => parse_at(input@, pos - 1) == Some((v@, next as int)),
            Err(_) => parse_at(input@, pos - 1) is None,
        },
{
    let (length, next) = read_length(input, pos)?;
    if length == -1 {
        return Ok((RespObject::NullBulkString, next));
    }
    if length as u64 > input.len() as u64 {
        return Err(parse_failure("Unexpected end of input"));
    }
    let text = read_until_length(input, next, length as usize)?;
    let end = skip_crlf(input, next + length as usize)?;
    Ok((RespObject::BulkString(text), end))
}

fn parse_array(input: &[u8], pos: usize) -> (r: Result<(RespObject, usize), RespObjectParseError>)
    requires
        pos >= 1,
        pos <= input@.len(),
        input@[pos - 1] == 42u8,
    ensures
        match r {
            Ok((v, next)) => parse_at(input@, pos - 1) == Some((v@, next as int)),
            Err(_) => parse_at(input@, pos - 1) is None,
        },
    decreases input@.len() - pos + 1, 0int,
{
    let (length, next) = read_length(input, pos)?;
    if length == -1 {
        return Ok((RespObject::NullArray, next));
    }
    let n = length as u64;
    let mut items: Vec<RespObject> = Vec::new();
    let mut cur: usize = next;
    let mut i: u64 = 0;
    let ghost mut vals: Seq<RespValue> = Seq::empty();
    proof {
        lemma_prepend_empty(parse_items_at(input@, next as int, n as nat));
    }
    while i < n
        invariant
            pos < next <= cur <= input@.len(),
            pos >= 1,
            input@[pos - 1] == 42u8,
            length_at(input@, pos as int) == Some((length as int, next as int)),
            length != -1,
            i <= n,
            n as int == length as int,
            items@.len() == vals.len(),
            forall|j: int| 0 <= j < items@.len() ==> (#[trigger] items@[j])@ == vals[j],
            parse_items_at(input@, next as int, n as nat) == prepend(
                vals,
                parse_items_at(input@, cur as int, (n - i) as nat),
            ),
        decreases n - i,
    {
        let (v, after) = match parse_(input, cur) {
            Ok(p) => p,
            Err(e) => {
                assert(parse_items_at(input@, cur as int, (n - i) as nat) is None);
                return Err(e);
            },
        };
        if !(cur < after && after <= input.len()) {
            assert(parse_items_at(input@, cur as int, (n - i) as nat) is None);
            return Err(parse_failure("Unexpected end of input"));
        }
        proof {
            lemma_prepend_step(vals, v@, parse_items_at(input@, after as int, (n - i - 1) as nat));
        }
        items.push(v);
        proof {
            vals = vals.push(v@);
        }
        cur = after;
        i = i + 1;
    }
    proof {
        assert(vals + Seq::<RespValue>::empty() =~= vals);
    }
    let obj = RespObject::Array(items);
    assert(obj@ == RespValue::Array(vals)) by {
        assert(obj@->Array_0 =~= vals);
    }
    Ok((obj, cur))
}

/// Parses the value whose type tag stands at `pos`.
fn parse_(input: &[u8], pos: usize) -> (r: Result<(RespObject, usize), RespObjectParseError>)
    ensures
        match r {
            Ok((v, next)) => parse_at(input@, pos as int) == Some((v@, next as int)),
            Err(_) => parse_at(input@, pos as int) is None,
        },
        r matches Err(e) ==> (pos < input@.len() && !(input@[pos as int] == 43u8 || input@[pos as int]
            == 45u8 || input@[pos as int] == 58u8 || input@[pos as int] == 36u8 || input@[pos as int]
            == 42u8) ==> e.message@ == quoting(
            "Unexpected RESP type character: '"@,
            input@.subrange(pos as int, pos + 1),
            "'"@,
        )),
    decreases input@.len() - pos, 1int,
{
    if pos >= input.len() {
        return Err(parse_failure("Unexpected end of input"));
    }
    let tag = input[pos];
    if tag == 43u8 {
        parse_simple_string(input, pos + 1)
    } else if tag == 45u8 {
        parse_error(input, pos + 1)
    } else if tag == 58u8 {
        parse_integer(input, pos + 1)
    } else if tag == 36u8 {
        parse_bulk_string(input, pos + 1)
    } else if tag == 42u8 {
        parse_array(input, pos + 1)
    } else {
        Err(quoting_failure("Unexpected RESP type character: '", &input[pos..pos + 1], "'"))
    }
}

/// Appends `b` to `out`.
fn push_bytes(out: &mut Vec<u8>, b: &[u8])
    ensures
        final(out)@ == old(out)@ + b@,
{
    let mut i: usize = 0;
    while i < b.len()
        invariant
            i <= b@.len(),
            out@ == old(out)@ + b@.subrange(0, i as int),
        decreases b@.len() - i,
    {
        out.push(b[i]);
        i = i + 1;
        assert(out@ =~= old(out)@ + b@.subrange(0, i as int));
    }
    assert(b@.subrange(0, i as int) =~= b@);
}

fn push_crlf(out: &mut Vec<u8>)
    ensures
        final(out)@ == old(out)@ + crlf(),
{
    out.push(13u8);
    out.push(10u8);
    assert(final(out)@ =~= old(out)@ + crlf());
}

proof fn lemma_ascii_valid(s: Seq<u8>)
    requires
        forall|i: int| 0 <= i < s.len() ==> #[trigger] s[i] <= 0x7fu8,
    ensures
        valid_utf8(s),
{
    assert(s.subrange(0, 0) =~= Seq::<u8>::empty());
    assert(partial_valid_utf8(s, 0));
    partial_valid_utf8_extend_ascii_block(s, 0, s.len() as int);
    assert(s.subrange(0, s.len() as int) =~= s);
}

proof fn lemma_line_valid(tag: u8, t: Seq<u8>)
    requires
        tag <= 0x7fu8,
        valid_utf8(t),
    ensures
        valid_utf8(seq![tag] + t + crlf()),
{
    lemma_ascii_valid(seq![tag]);
    lemma_ascii_valid(crlf());
    valid_utf8_concat(seq![tag], t);
    valid_utf8_concat(seq![tag] + t, crlf());
}

proof fn lemma_int_line_valid(tag: u8, n: int)
    requires
        tag <= 0x7fu8,
    ensures
        valid_utf8(seq![tag] + int_text(n) + crlf()),
{
    lemma_int_text_ascii(n);
    lemma_ascii_valid(int_text(n));
    lemma_line_valid(tag, int_text(n));
}

/// The canonical bytes of any value are valid UTF-8.
pub proof fn lemma_serialized_valid(v: RespValue)
    ensures
        valid_utf8(serialized(v)),
    decreases v, 0int,
{
    broadcast use valid_utf8_concat, encode_utf8_valid_utf8;

    match v {
        RespValue::SimpleString(t) => {
            lemma_line_valid(43u8, encode_utf8(t));
            assert(serialized(v) == seq![43u8] + encode_utf8(t) + crlf());
        },
        RespValue::Error(t) => {
            lemma_line_valid(45u8, encode_utf8(t));
            assert(serialized(v) == seq![45u8] + encode_utf8(t) + crlf());
        },
        RespValue::Integer(n) => {
            lemma_int_line_valid(58u8, n as int);
        },
        RespValue::BulkString(t) => {
            let head = seq![36u8] + int_text(encode_utf8(t).len() as int) + crlf();
            lemma_int_line_valid(36u8, encode_utf8(t).len() as int);
            lemma_ascii_valid(crlf());
            valid_utf8_concat(head, encode_utf8(t));
            valid_utf8_concat(head + encode_utf8(t), crlf());
        },
        RespValue::Array(items) => {
            lemma_int_line_valid(42u8, items.len() as int);
            lemma_items_valid(items);
        },
        _ => {
            lemma_ascii_valid(serialized(v));
        },
    }
}

proof fn lemma_items_valid(items: Seq<RespValue>)
    ensures
        valid_utf8(serialized_items(items)),
    decreases items, 1int,
{
    broadcast use valid_utf8_concat;

    if items.len() == 0 {
        lemma_ascii_valid(serialized_items(items));
    } else {
        lemma_items_valid(items.subrange(0, items.len() - 1));
        lemma_serialized_valid(items[items.len() - 1]);
    }
}

impl std::str::FromStr for RespObject {
    type Err = RespObjectParseError;

    /// Parses the first value in the text; whatever follows it is ignored.
    fn from_str(input: &str) -> (r: Result<RespObject, RespObjectParseError>)
        ensures
            match r {
                Ok(v) => parsed(encode_utf8(input@)) == Some(v@),
                Err(_) => parsed(encode_utf8(input@)) is None,
            },
    {
        RespObject::parse(input.as_bytes())
    }
}

impl RespObject {
    /// Parses the first value in `input`; whatever follows it is ignored.
    pub fn parse(input: &[u8]) -> (r: Result<RespObject, RespObjectParseError>)
        ensures
            match r {
                Ok(v) => parsed(input@) == Some(v@),
                Err(_) => parsed(input@) is None,
            },
    {
        let (v, _) = parse_(input, 0)?;
        Ok(v)
    }

    /// Appends the canonical bytes of this value to `out`.
    fn write_to(&self, out: &mut Vec<u8>)
        ensures
            final(out)@ == old(out)@ + serialized(self@),
        decreases self,
    {
        match self {
            RespObject::SimpleString(t) => {
                out.push(43u8);
                push_bytes(out, t.as_str().as_bytes());
                push_crlf(out);
            },
            RespObject::Error(t) => {
                out.push(45u8);
                push_bytes(out, t.as_str().as_bytes());
                push_crlf(out);
            },
            RespObject::Integer(n) => {
                out.push(58u8);
                push_int_text(out, *n);
                push_crlf(out);
            },
            RespObject::BulkString(t) => {
                let bytes = t.as_str().as_bytes();
                out.push(36u8);
                push_count_text(out, bytes.len());
                push_crlf(out);
                push_bytes(out, bytes);
                push_crlf(out);
            },
            RespObject::NullBulkString => {
                out.push(36u8);
                out.push(45u8);
                out.push(49u8);
                push_crlf(out);
            },
            RespObject::Array(items) => {
                out.push(42u8);
                push_count_text(out, items.len());
                push_crlf(out);
                let ghost start = out@;
                let ghost vals = self@->Array_0;
                assert(vals.len() == items@.len());
                assert(forall|j: int| 0 <= j < items@.len() ==> vals[j] == (#[trigger] items@[j])@);
                let mut i: usize = 0;
                while i < items.len()
                    invariant
                        i <= items@.len(),
                        *self is Array,
                        self->Array_0 == *items,
                        vals == self@->Array_0,
                        vals.len() == items@.len(),
                        forall|j: int| 0 <= j < items@.len() ==> vals[j] == (#[trigger] items@[j])@,
                        out@ == start + serialized_items(vals.subrange(0, i as int)),
                    decreases items@.len() - i,
                {
                    let item = &items[i];
                    proof {
                        assert(self->Array_0 == *items);
                        assert(decreases_to!(*self => self->Array_0));
                        assert(decreases_to!(*items => items@));
                        assert(decreases_to!(items@ => items@[i as int]));
                    }
                    item.write_to(out);
                    assert(vals.subrange(0, i + 1).subrange(0, i as int) =~= vals.subrange(0, i as int));
                    i = i + 1;
                }
                assert(vals.subrange(0, i as int) =~= vals);
            },
            RespObject::NullArray => {
                out.push(42u8);
                out.push(45u8);
                out.push(49u8);
                push_crlf(out);
            },
        }
        assert(final(out)@ =~= old(out)@ + serialized(self@));
    }

    /// The canonical text of this value.
    pub fn to_string(&self) -> (r: String)
        ensures
            r@ == decode_utf8(serialized(self@)),
    {
        let bytes = self.serialize();
        proof {
            lemma_serialized_valid(self@);
        }
        match text_from_utf8(bytes.as_slice()) {
            Some(t) => t,
            None => String::new(),
        }
    }

    /// The canonical bytes of this value.
    pub fn serialize(&self) -> (r: Vec<u8>)
        ensures
            r@ == serialized(self@),
    {
        let mut out: Vec<u8> = Vec::new();
        self.write_to(&mut out);
        assert(out@ =~= serialized(self@));
        out
    }
}

} // verus!

verus! {

/// Text that a line can carry: no carriage return.
pub open spec fn line_safe(t: Seq<char>) -> bool {
    forall|i: int| 0 <= i < t.len() ==> #[trigger] t[i] != '\r'
}

/// A value that its canonical bytes carry faithfully: line texts hold no
/// carriage return, and byte lengths and element counts fit an `i64`.
pub open spec fn well_formed(v: RespValue) -> bool
    decreases v,
{
    match v {
        RespValue::SimpleString(t) => line_safe(t),
        RespValue::Error(t) => line_safe(t),
        RespValue::BulkString(t) => encode_utf8(t).len() <= i64::MAX,
        RespValue::Array(items) => items.len() <= i64::MAX && forall|i: int|
            0 <= i < items.len() ==> well_formed(#[trigger] items[i]),
        _ => true,
    }
}

proof fn lemma_scalar_bytes_not_cr(s: u32)
    ensures
        (0xC0u8 | ((s >> 6u32) & 0x1Fu32) as u8) != 13u8,
        (0xE0u8 | ((s >> 12u32) & 0x0Fu32) as u8) != 13u8,
        (0xF0u8 | ((s >> 18u32) & 0x7u32) as u8) != 13u8,
        (0x80u8 | (s & 0x3Fu32) as u8) != 13u8,
        (0x80u8 | ((s >> 6u32) & 0x3Fu32) as u8) != 13u8,
        (0x80u8 | ((s >> 12u32) & 0x3Fu32) as u8) != 13u8,
        s <= 0x7fu32 ==> ((s & 0x7Fu32) as u8 == 13u8 ==> s == 13u32),
{
    assert((0xC0u8 | ((s >> 6u32) & 0x1Fu32) as u8) != 13u8) by (bit_vector);
    assert((0xE0u8 | ((s >> 12u32) & 0x0Fu32) as u8) != 13u8) by (bit_vector);
    assert((0xF0u8 | ((s >> 18u32) & 0x7u32) as u8) != 13u8) by (bit_vector);
    assert((0x80u8 | (s & 0x3Fu32) as u8) != 13u8) by (bit_vector);
    assert((0x80u8 | ((s >> 6u32) & 0x3Fu32) as u8) != 13u8) by (bit_vector);
    assert((0x80u8 | ((s >> 12u32) & 0x3Fu32) as u8) != 13u8) by (bit_vector);
    assert(s <= 0x7fu32 ==> ((s & 0x7Fu32) as u8 == 13u8 ==> s == 13u32)) by (bit_vector);
}

/// The UTF-8 encoding of line-safe text holds no carriage-return byte.
proof fn lemma_encoded_no_cr(t: Seq<char>)
    requires
        line_safe(t),
    ensures
        forall|j: int| 0 <= j < encode_utf8(t).len() ==> #[trigger] encode_utf8(t)[j] != 13u8,
    decreases t.len(),
{
    if t.len() > 0 {
        let c = t[0];
        let s = c as u32;
        let rest = t.drop_first();
        assert(line_safe(rest)) by {
            assert forall|i: int| 0 <= i < rest.len() implies #[trigger] rest[i] != '\r' by {
                assert(rest[i] == t[i + 1]);
            }
        }
        lemma_encoded_no_cr(rest);
        lemma_scalar_bytes_not_cr(s);
        if s == 13u32 {
            char_u32_cast(c, s);
            assert(c == '\r');
        }
        let e = encode_scalar(s);
        assert forall|j: int| 0 <= j < e.len() implies #[trigger] e[j] != 13u8 by {}
        let all = encode_utf8(t);
        assert(all == e + encode_utf8(rest));
        assert forall|j: int| 0 <= j < all.len() implies #[trigger] all[j] != 13u8 by {
            if j >= e.len() {
                assert(all[j] == encode_utf8(rest)[j - e.len()]);
            }
        }
    }
}

/// Where bytes `s` stand at `pos` in `b`, each part of `s` stands there too.
proof fn lemma_window(b: Seq<u8>, pos: int, s: Seq<u8>, i: int, j: int)
    requires
        0 <= pos,
        pos + s.len() <= b.len(),
        b.subrange(pos, pos + s.len()) == s,
        0 <= i <= j <= s.len(),
    ensures
        b.subrange(pos + i, pos + j) == s.subrange(i, j),
        forall|k: int| i <= k < j ==> b[pos + k] == #[trigger] s[k],
{
    assert forall|k: int| i <= k < j implies b[pos + k] == #[trigger] s[k] by {
        assert(b.subrange(pos, pos + s.len())[k] == b[pos + k]);
    }
    assert(b.subrange(pos + i, pos + j) =~= s.subrange(i, j));
}

proof fn lemma_find_cr_at(b: Seq<u8>, pos: int, q: int)
    requires
        0 <= pos <= q < b.len(),
        b[q] == 13u8,
        forall|k: int| pos <= k < q ==> #[trigger] b[k] != 13u8,
    ensures
        find_cr(b, pos) == Some(q),
    decreases q - pos,
{
    if pos < q {
        lemma_find_cr_at(b, pos + 1, q);
    }
}

/// A line of text `t`, with no carriage return in it, read back at `pos`.
proof fn lemma_line(b: Seq<u8>, pos: int, t: Seq<u8>)
    requires
        0 <= pos,
        pos + t.len() + 2 <= b.len(),
        b.subrange(pos, pos + t.len() + 2) == t + crlf(),
        forall|j: int| 0 <= j < t.len() ==> #[trigger] t[j] != 13u8,
    ensures
        line_at(b, pos) == Some((t, pos + t.len() + 2)),
{
    let s = t + crlf();
    lemma_window(b, pos, s, 0, s.len() as int);
    lemma_window(b, pos, s, 0, t.len() as int);
    assert(s.subrange(0, t.len() as int) =~= t);
    assert(s[t.len() as int] == 13u8);
    assert(s[t.len() as int + 1] == 10u8);
    assert forall|k: int| pos <= k < pos + t.len() implies #[trigger] b[k] != 13u8 by {
        assert(b[pos + (k - pos)] == s[k - pos]);
        assert(s[k - pos] == t[k - pos]);
    }
    lemma_find_cr_at(b, pos, pos + t.len());
}

proof fn lemma_serialized_items_first(items: Seq<RespValue>)
    requires
        items.len() > 0,
    ensures
        serialized_items(items) == serialized(items[0]) + serialized_items(
            items.subrange(1, items.len() as int),
        ),
    decreases items.len(),
{
    let n = items.len() as int;
    let init = items.subrange(0, n - 1);
    let tail = items.subrange(1, n);
    if n == 1 {
        assert(init =~= Seq::<RespValue>::empty());
        assert(tail =~= Seq::<RespValue>::empty());
        assert(serialized_items(init) == Seq::<u8>::empty());
        assert(serialized_items(tail) == Seq::<u8>::empty());
        assert(serialized_items(items) == serialized_items(init) + serialized(items[0]));
        assert(Seq::<u8>::empty() + serialized(items[0]) =~= serialized(items[0]));
        assert(serialized(items[0]) + Seq::<u8>::empty() =~= serialized(items[0]));
    } else {
        lemma_serialized_items_first(init);
        assert(init.subrange(1, n - 1) =~= tail.subrange(0, n - 2));
        assert(tail[n - 2] == items[n - 1]);
        assert(init[0] == items[0]);
        assert(serialized_items(items) =~= serialized(items[0]) + serialized_items(tail));
    }
}

/// The text of a header line: a tag, then an integer, then the terminator.
proof fn lemma_int_line(b: Seq<u8>, pos: int, tag: u8, n: i64, rest: Seq<u8>)
    requires
        0 <= pos,
        pos + (seq![tag] + int_text(n as int) + crlf() + rest).len() <= b.len(),
        b.subrange(pos, pos + (seq![tag] + int_text(n as int) + crlf() + rest).len()) == seq![tag]
            + int_text(n as int) + crlf() + rest,
    ensures
        b[pos] == tag,
        line_at(b, pos + 1) == Some((int_text(n as int), pos + 1 + int_text(n as int).len() + 2)),
        i64_of_text(int_text(n as int)) == Some(n),
        b.subrange(
            pos + 1 + int_text(n as int).len() + 2,
            pos + 1 + int_text(n as int).len() + 2 + rest.len(),
        ) == rest,
{
    let t = int_text(n as int);
    let s = seq![tag] + t + crlf() + rest;
    lemma_int_text_ascii(n as int);
    lemma_int_text_round_trip(n);
    lemma_window(b, pos, s, 0, 1);
    assert(b[pos + 0] == s[0]);
    lemma_window(b, pos, s, 1, t.len() as int + 3);
    assert(s.subrange(1, t.len() as int + 3) =~= t + crlf());
    lemma_line(b, pos + 1, t);
    lemma_window(b, pos, s, t.len() as int + 3, s.len() as int);
    assert(s.subrange(t.len() as int + 3, s.len() as int) =~= rest);
}

/// The canonical bytes of a well-formed value, standing at `pos`, parse back to it.
proof fn lemma_parse_serialized_at(b: Seq<u8>, pos: int, v: RespValue)
    requires
        well_formed(v),
        0 <= pos,
        pos + serialized(v).len() <= b.len(),
        b.subrange(pos, pos + serialized(v).len()) == serialized(v),
    ensures
        parse_at(b, pos) == Some((v, pos + serialized(v).len())),
    decreases v, 0int,
{
    broadcast use encode_utf8_valid_utf8, encode_utf8_decode_utf8;

    let s = serialized(v);
    lemma_window(b, pos, s, 0, s.len() as int);
    match v {
        RespValue::SimpleString(t) => {
            let e = encode_utf8(t);
            lemma_encoded_no_cr(t);
            lemma_window(b, pos, s, 1, s.len() as int);
            assert(s.subrange(1, s.len() as int) =~= e + crlf());
            lemma_line(b, pos + 1, e);
            assert(b[pos + 0] == s[0]);
            assert(valid_utf8(e) && decode_utf8(e) == t);
        },
        RespValue::Error(t) => {
            let e = encode_utf8(t);
            lemma_encoded_no_cr(t);
            lemma_window(b, pos, s, 1, s.len() as int);
            assert(s.subrange(1, s.len() as int) =~= e + crlf());
            lemma_line(b, pos + 1, e);
            assert(b[pos + 0] == s[0]);
            assert(valid_utf8(e) && decode_utf8(e) == t);
        },
        RespValue::Integer(n) => {
            assert(s =~= seq![58u8] + int_text(n as int) + crlf() + Seq::<u8>::empty());
            lemma_int_line(b, pos, 58u8, n, Seq::empty());
        },
        RespValue::BulkString(t) => {
            let e = encode_utf8(t);
            let n = e.len() as i64;
            let body = e + crlf();
            assert(s =~= seq![36u8] + int_text(n as int) + crlf() + body);
            lemma_int_line(b, pos, 36u8, n, body);
            let next = pos + 1 + int_text(n as int).len() + 2;
            lemma_window(b, next, body, 0, body.len() as int);
            lemma_window(b, next, body, 0, e.len() as int);
            assert(body.subrange(0, e.len() as int) =~= e);
            assert(body[e.len() as int] == 13u8);
            assert(body[e.len() as int + 1] == 10u8);
        },
        RespValue::NullBulkString => {
            lemma_int_text_round_trip(-1i64);
            assert(int_text(-1) =~= seq![45u8, 49u8]);
            assert(s =~= seq![36u8] + int_text(-1) + crlf() + Seq::<u8>::empty());
            lemma_int_line(b, pos, 36u8, -1i64, Seq::empty());
        },
        RespValue::Array(items) => {
            let n = items.len() as i64;
            let body = serialized_items(items);
            assert(s =~= seq![42u8] + int_text(n as int) + crlf() + body);
            lemma_int_line(b, pos, 42u8, n, body);
            let next = pos + 1 + int_text(n as int).len() + 2;
            lemma_parse_serialized_items_at(b, next, items);
        },
        RespValue::NullArray => {
            lemma_int_text_round_trip(-1i64);
            assert(int_text(-1) =~= seq![45u8, 49u8]);
            assert(s =~= seq![42u8] + int_text(-1) + crlf() + Seq::<u8>::empty());
            lemma_int_line(b, pos, 42u8, -1i64, Seq::empty());
        },
    }
}

proof fn lemma_parse_serialized_items_at(b: Seq<u8>, pos: int, items: Seq<RespValue>)
    requires
        forall|i: int| 0 <= i < items.len() ==> well_formed(#[trigger] items[i]),
        0 <= pos,
        pos + serialized_items(items).len() <= b.len(),
        b.subrange(pos, pos + serialized_items(items).len()) == serialized_items(items),
    ensures
        parse_items_at(b, pos, items.len()) == Some((items, pos + serialized_items(items).len())),
    decreases items, 1int,
{
    if items.len() == 0 {
        assert(items =~= Seq::<RespValue>::empty());
    } else {
        let s = serialized_items(items);
        let first = serialized(items[0]);
        let tail = items.subrange(1, items.len() as int);
        lemma_serialized_items_first(items);
        lemma_window(b, pos, s, 0, first.len() as int);
        assert(s.subrange(0, first.len() as int) =~= first);
        lemma_parse_serialized_at(b, pos, items[0]);
        lemma_window(b, pos, s, first.len() as int, s.len() as int);
        assert(s.subrange(first.len() as int, s.len() as int) =~= serialized_items(tail));
        assert forall|i: int| 0 <= i < tail.len() implies well_formed(#[trigger] tail[i]) by {
            assert(tail[i] == items[i + 1]);
        }
        lemma_serialized_nonempty(items[0]);
        lemma_parse_serialized_items_at(b, pos + first.len(), tail);
        assert(seq![items[0]] + tail =~= items);
    }
}

proof fn lemma_serialized_nonempty(v: RespValue)
    ensures
        serialized(v).len() > 0,
{
}

/// Round trip of the codec: parsing the canonical bytes of a well-formed value
/// gives that value back, having read all of the bytes; so writing what was
/// parsed from canonical bytes gives the same bytes.
pub proof fn lemma_parse_serialize_round_trip(v: RespValue)
    requires
        well_formed(v),
    ensures
        parse_at(serialized(v), 0) == Some((v, serialized(v).len() as int)),
        parsed(serialized(v)) == Some(v),
        serialized(parsed(serialized(v))->0) == serialized(v),
{
    let b = serialized(v);
    assert(b.subrange(0, b.len() as int) =~= b);
    lemma_parse_serialized_at(b, 0, v);
}

/// Round trip of the codec through text: the text of a well-formed value
/// (`to_string`) encodes exactly its canonical bytes, so reading that text
/// (`from_str`) gives the value back, and writing what was read gives the
/// same text.
pub proof fn lemma_text_round_trip(v: RespValue)
    requires
        well_formed(v),
    ensures
        encode_utf8(decode_utf8(serialized(v))) == serialized(v),
        parsed(encode_utf8(decode_utf8(serialized(v)))) == Some(v),
        decode_utf8(serialized(parsed(encode_utf8(decode_utf8(serialized(v))))->0)) == decode_utf8(
            serialized(v),
        ),
{
    broadcast use decode_utf8_encode_utf8;

    lemma_serialized_valid(v);
    lemma_parse_serialize_round_trip(v);
}

} // verus!
