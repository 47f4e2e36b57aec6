//! The encoding of rows as they travel between processes: a version byte, then the number
//! of rows, then each row as the number of its columns followed by its values. A number of
//! rows, of columns or of bytes is written in groups of seven bits, least significant group
//! first, each group but the last with its high bit set. A value is a tag byte and a body:
//! null has no body; a truth value has one byte; an integer, an unsigned integer and a
//! timestamp, which is in microseconds since the Unix epoch, have eight bytes, most
//! significant first, the signed ones in two's complement; a text has its length in bytes
//! and its UTF-8 bytes; a byte string has its length and its bytes.

use crate::data::{DataType, Row, Value};
use byteorder::{BigEndian, ByteOrder};
use vstd::prelude::*;
use vstd::utf8::{decode_utf8, encode_utf8, valid_utf8};

verus! {

/// The version of the encoding.
pub const WIRE_VERSION: u8 = 1;

/// The tag of the null value.
pub const TAG_NULL: u8 = 0;

/// The tag of a truth value.
pub const TAG_BOOL: u8 = 1;

/// The tag of a signed integer.
pub const TAG_INT: u8 = 2;

/// The tag of an unsigned integer.
pub const TAG_UNSIGNED: u8 = 3;

/// The tag of a timestamp.
pub const TAG_TIMESTAMP: u8 = 4;

/// The tag of a text.
pub const TAG_TEXT: u8 = 5;

/// The tag of a byte string.
pub const TAG_BYTES: u8 = 6;

/// Why bytes cannot be decoded.
#[derive(Clone, Copy, Debug, PartialEq, Eq, Structural)]
pub enum WireError {
    /// The bytes end before the value does.
    Truncated,
    /// The bytes are in a version of the encoding that is not known.
    UnknownVersion(u8),
    /// A value has a tag that is not known.
    MalformedTag(u8),
    /// The body of a value is not what its tag asks for.
    MalformedValue,
    /// A number of rows, columns or bytes is greater than 32 bits can say.
    TooLarge,
}

/// A number in groups of seven bits, least significant group first.
pub open spec fn varint(n: nat) -> Seq<u8>
    decreases n,
{
    if n < 128 {
        seq![n as u8]
    } else {
        seq![(n % 128 + 128) as u8] + varint(n / 128)
    }
}

/// The number that starts at `pos`, read group by group, where the groups read so far make
/// `acc`, the next group counts `scale` times, and at most `left` groups may follow; with
/// the position after it.
pub open spec fn scan_varint(buf: Seq<u8>, pos: int, acc: nat, scale: nat, left: nat) -> Result<
    (nat, int),
    WireError,
>
    decreases left,
{
    if left == 0 {
        Err(WireError::TooLarge)
    } else if pos < 0 || pos >= buf.len() {
        Err(WireError::Truncated)
    } else if buf[pos] < 128 {
        Ok((acc + buf[pos] as nat * scale, pos + 1))
    } else {
        scan_varint(buf, pos + 1, acc + (buf[pos] - 128) as nat * scale, scale * 128, (left - 1) as nat)
    }
}

/// The number, of at most 32 bits and in at most five groups, that starts at `pos`, with
/// the position after it.
pub open spec fn parse_varint(buf: Seq<u8>, pos: int) -> Result<(nat, int), WireError> {
    match scan_varint(buf, pos, 0, 1, 5) {
        Err(e) => Err(e),
        Ok((n, next)) => if n > u32::MAX {
            Err(WireError::TooLarge)
        } else {
            Ok((n, next))
        },
    }
}

/// The eight bytes of a number below 2^64, most significant first.
pub open spec fn be8(n: nat) -> Seq<u8> {
    seq![
        ((n / 0x100000000000000) % 0x100) as u8,
        ((n / 0x1000000000000) % 0x100) as u8,
        ((n / 0x10000000000) % 0x100) as u8,
        ((n / 0x100000000) % 0x100) as u8,
        ((n / 0x1000000) % 0x100) as u8,
        ((n / 0x10000) % 0x100) as u8,
        ((n / 0x100) % 0x100) as u8,
        (n % 0x100) as u8,
    ]
}

/// The number whose eight bytes, most significant first, start at `pos`.
pub open spec fn be8_value(b: Seq<u8>, pos: int) -> nat {
    (b[pos] * 0x100000000000000 + b[pos + 1] * 0x1000000000000 + b[pos + 2] * 0x10000000000
        + b[pos + 3] * 0x100000000 + b[pos + 4] * 0x1000000 + b[pos + 5] * 0x10000 + b[pos + 6]
        * 0x100 + b[pos + 7]) as nat
}

/// A signed number of 64 bits in two's complement.
pub open spec fn unsigned_of(n: int) -> nat {
    if n >= 0 {
        n as nat
    } else {
        (n + 0x10000000000000000) as nat
    }
}

/// The signed number that a number below 2^64 is the two's complement of.
pub open spec fn signed_of(u: nat) -> int {
    if u >= 0x8000000000000000 {
        u - 0x10000000000000000
    } else {
        u as int
    }
}

/// The encoding of a value.
pub open spec fn value_bytes(v: Value) -> Seq<u8> {
    match v {
        Value::Null => seq![TAG_NULL],
        Value::Bool(b) => seq![
            TAG_BOOL,
            if b {
                1u8
            } else {
                0u8
            },
        ],
        Value::Int(n) => seq![TAG_INT] + be8(unsigned_of(n)),
        Value::UnsignedInt(n) => seq![TAG_UNSIGNED] + be8(n as nat),
        Value::Timestamp(n) => seq![TAG_TIMESTAMP] + be8(unsigned_of(n)),
        Value::Text(s) => seq![TAG_TEXT] + varint(encode_utf8(s).len()) + encode_utf8(s),
        Value::Bytes(b) => seq![TAG_BYTES] + varint(b.len()) + b,
    }
}

/// The value that starts at `pos`, with the position after it.
pub open spec fn parse_value(buf: Seq<u8>, pos: int) -> Result<(Value, int), WireError> {
    if pos < 0 || pos >= buf.len() {
        Err(WireError::Truncated)
    } else if buf[pos] == TAG_NULL {
        Ok((Value::Null, pos + 1))
    } else if buf[pos] == TAG_BOOL {
        if pos + 1 >= buf.len() {
            Err(WireError::Truncated)
        } else if buf[pos + 1] == 0 {
            Ok((Value::Bool(false), pos + 2))
        } else if buf[pos + 1] == 1 {
            Ok((Value::Bool(true), pos + 2))
        } else {
            Err(WireError::MalformedValue)
        }
    } else if buf[pos] == TAG_INT || buf[pos] == TAG_UNSIGNED || buf[pos] == TAG_TIMESTAMP {
        if pos + 9 > buf.len() {
            Err(WireError::Truncated)
        } else if buf[pos] == TAG_INT {
            Ok((Value::Int(signed_of(be8_value(buf, pos + 1))), pos + 9))
        } else if buf[pos] == TAG_UNSIGNED {
            Ok((Value::UnsignedInt(be8_value(buf, pos + 1) as int), pos + 9))
        } else {
            Ok((Value::Timestamp(signed_of(be8_value(buf, pos + 1))), pos + 9))
        }
    } else if buf[pos] == TAG_TEXT || buf[pos] == TAG_BYTES {
        match parse_varint(buf, pos + 1) {
            Err(e) => Err(e),
            Ok((n, start)) => if start + n > buf.len() {
                Err(WireError::Truncated)
            } else if buf[pos] == TAG_BYTES {
                Ok((Value::Bytes(buf.subrange(start, start + n)), start + n))
            } else if valid_utf8(buf.subrange(start, start + n)) {
                Ok((Value::Text(decode_utf8(buf.subrange(start, start + n))), start + n))
            } else {
                Err(WireError::MalformedValue)
            },
        }
    } else {
        Err(WireError::MalformedTag(buf[pos]))
    }
}

/// The encoding of the values of a row, one after the other.
pub open spec fn values_bytes(row: Row) -> Seq<u8>
    decreases row.len(),
{
    if row.len() == 0 {
        Seq::empty()
    } else {
        values_bytes(row.drop_last()) + value_bytes(row.last())
    }
}

/// The encoding of a row: the number of its values, then the values.
pub open spec fn row_bytes(row: Row) -> Seq<u8> {
    varint(row.len()) + values_bytes(row)
}

/// The `count` values that follow `have`, starting at `pos`, with the position after them.
pub open spec fn parse_values(buf: Seq<u8>, pos: int, have: Row, count: nat) -> Result<
    (Row, int),
    WireError,
>
    decreases count,
{
    if count == 0 {
        Ok((have, pos))
    } else {
        match parse_value(buf, pos) {
            Err(e) => Err(e),
            Ok((v, next)) => parse_values(buf, next, have.push(v), (count - 1) as nat),
        }
    }
}

/// The row that starts at `pos`, with the position after it.
pub open spec fn parse_row(buf: Seq<u8>, pos: int) -> Result<(Row, int), WireError> {
    match parse_varint(buf, pos) {
        Err(e) => Err(e),
        Ok((count, start)) => parse_values(buf, start, Seq::empty(), count),
    }
}

/// `byteorder::BigEndian::write_u64`, on a buffer of eight bytes: the buffer then holds the
/// eight bytes of `n`, most significant first.
#[verifier::external_body]
fn write_be_u64(n: u64) -> (b: Vec<u8>)
    ensures
        b@ == be8(n as nat),
{
    let mut b = vec![0u8; 8];
    BigEndian::write_u64(&mut b, n);
    b
}

/// `byteorder::BigEndian::read_u64`, on the eight bytes of `b` from `pos` on: the number that
/// they spell, most significant first. The bytes must be there.
#[verifier::external_body]
fn read_be_u64(b: &Vec<u8>, pos: usize) -> (n: u64)
    requires
        pos + 8 <= b@.len(),
    ensures
        n == be8_value(b@, pos as int),
{
    BigEndian::read_u64(&b[pos..])
}

/// `String::from_utf8` of the standard library: the text that the bytes are the UTF-8
/// encoding of, or nothing where they are no UTF-8.
#[verifier::external_body]
fn text_of(bytes: Vec<u8>) -> (s: Option<String>)
    ensures
        s.is_some() == valid_utf8(bytes@),
        s.is_some() ==> s.unwrap()@ == decode_utf8(bytes@),
{
    String::from_utf8(bytes).ok()
}

/// Appends the bytes `more` to `out`.
fn append(out: &mut Vec<u8>, more: &[u8])
    ensures
        final(out)@ == old(out)@ + more@,
{
    let ghost start = out@;
    let mut i: usize = 0;
    assert(out@ =~= start + more@.take(0));
    while i < more.len()
        invariant
            i <= more@.len(),
            out@ == start + more@.take(i as int),
        decreases more@.len() - i,
    {
        out.push(more[i]);
        assert(out@ =~= start + more@.take(i + 1));
        i += 1;
    }
    assert(more@.take(more@.len() as int) =~= more@);
}

/// Appends the encoding of the number `n` to `out`.
pub fn encode_varint(n: u32, out: &mut Vec<u8>)
    ensures
        final(out)@ == old(out)@ + varint(n as nat),
{
    let ghost start = out@;
    let mut rest: u32 = n;
    assert(out@ + varint(rest as nat) =~= start + varint(n as nat));
    while rest >= 128
        invariant
            out@ + varint(rest as nat) == start + varint(n as nat),
        decreases rest,
    {
        let ghost before = out@;
        out.push((rest % 128 + 128) as u8);
        proof {
            assert(varint(rest as nat) == seq![(rest % 128 + 128) as u8] + varint(
                (rest / 128) as nat,
            ));
            assert(out@ + varint((rest / 128) as nat) =~= before + varint(rest as nat));
        }
        rest = rest / 128;
    }
    let ghost before = out@;
    out.push(rest as u8);
    assert(out@ =~= before + varint(rest as nat));
}

/// The number that starts at `pos`, with the position after it.
pub fn decode_varint(buf: &Vec<u8>, pos: usize) -> (r: Result<(u32, usize), WireError>)
    ensures
        r.is_ok() == parse_varint(buf@, pos as int).is_ok(),
        r.is_ok() ==> r.unwrap().0 == parse_varint(buf@, pos as int).unwrap().0 && r.unwrap().1
            == parse_varint(buf@, pos as int).unwrap().1 && pos < r.unwrap().1 <= buf@.len(),
        r.is_err() ==> r.unwrap_err() == parse_varint(buf@, pos as int)->Err_0,
{
    let mut acc: u64 = 0;
    let mut scale: u64 = 1;
    let mut at: usize = pos;
    let mut left: u8 = 5;
    while left > 0
        invariant
            left <= 5,
            pos <= at,
            at - pos == 5 - left,
            scale == pow128((5 - left) as nat),
            acc < scale,
            scan_varint(buf@, pos as int, 0, 1, 5) == scan_varint(
                buf@,
                at as int,
                acc as nat,
                scale as nat,
                left as nat,
            ),
        decreases left,
    {
        proof {
            lemma_pow128((5 - left) as nat);
        }
        if at >= buf.len() {
            return Err(WireError::Truncated);
        }
        let byte: u8 = buf[at];
        proof {
            assert((byte as nat) * (scale as nat) <= 255 * 0x800000000) by (nonlinear_arith)
                requires
                    byte < 256,
                    scale <= 0x800000000,
            ;
            assert(byte >= 128 ==> (acc as nat) + ((byte - 128) as nat) * (scale as nat) < 128 * (
            scale as nat)) by (nonlinear_arith)
                requires
                    byte < 256,
                    acc < scale,
            ;
        }
        if byte < 128 {
            let n: u64 = acc + (byte as u64) * scale;
            if n > u32::MAX as u64 {
                return Err(WireError::TooLarge);
            }
            return Ok((n as u32, at + 1));
        }
        acc = acc + ((byte - 128) as u64) * scale;
        scale = scale * 128;
        at = at + 1;
        left = left - 1;
    }
    Err(WireError::TooLarge)
}

/// 128 to the power of `k`.
pub open spec fn pow128(k: nat) -> nat
    decreases k,
{
    if k == 0 {
        1
    } else {
        128 * pow128((k - 1) as nat)
    }
}

/// The powers of 128 up to the fifth.
pub proof fn lemma_pow128(k: nat)
    requires
        k <= 5,
    ensures
        pow128(k) <= 0x800000000,
        pow128(k) > 0,
        k < 5 ==> pow128(k + 1) == 128 * pow128(k),
{
    reveal_with_fuel(pow128, 7);
}

/// The two's complement of a signed number.
fn to_unsigned(n: i64) -> (u: u64)
    ensures
        u == unsigned_of(n as int),
{
    if n >= 0 {
        n as u64
    } else {
        ((n - i64::MIN) as u64) + 0x8000000000000000u64
    }
}

/// The signed number that `u` is the two's complement of.
fn to_signed(u: u64) -> (n: i64)
    ensures
        n == signed_of(u as nat),
{
    if u >= 0x8000000000000000u64 {
        ((u - 0x8000000000000000u64) as i64) + i64::MIN
    } else {
        u as i64
    }
}

/// Appends the encoding of `v` to `out`. A text or a byte string whose length 32 bits
/// cannot say is not encoded: `out` stays as it is, and `false` is returned.
pub fn encode_value(v: &DataType, out: &mut Vec<u8>) -> (ok: bool)
    ensures
        ok == match v@ {
            Value::Text(s) => encode_utf8(s).len() <= u32::MAX,
            Value::Bytes(b) => b.len() <= u32::MAX,
            _ => true,
        },
        ok ==> final(out)@ == old(out)@ + value_bytes(v@),
        !ok ==> final(out)@ == old(out)@,
{
    let ghost start = out@;
    match v {
        DataType::Null => {
            out.push(TAG_NULL);
            assert(out@ =~= start + value_bytes(v@));
        },
        DataType::Bool(b) => {
            out.push(TAG_BOOL);
            out.push(
                if *b {
                    1
                } else {
                    0
                },
            );
            assert(out@ =~= start + value_bytes(v@));
        },
        DataType::Int(n) => {
            out.push(TAG_INT);
            let bytes = write_be_u64(to_unsigned(*n));
            append(out, bytes.as_slice());
            assert(out@ =~= start + value_bytes(v@));
        },
        DataType::UnsignedInt(n) => {
            out.push(TAG_UNSIGNED);
            let bytes = write_be_u64(*n);
            append(out, bytes.as_slice());
            assert(out@ =~= start + value_bytes(v@));
        },
        DataType::Timestamp(n) => {
            out.push(TAG_TIMESTAMP);
            let bytes = write_be_u64(to_unsigned(*n));
            append(out, bytes.as_slice());
            assert(out@ =~= start + value_bytes(v@));
        },
        DataType::Text(s) => {
            let bytes = s.as_str().as_bytes();
            if bytes.len() > u32::MAX as usize {
                return false;
            }
            out.push(TAG_TEXT);
            encode_varint(bytes.len() as u32, out);
            append(out, bytes);
            assert(out@ =~= start + value_bytes(v@));
        },
        DataType::Bytes(b) => {
            if b.len() > u32::MAX as usize {
                return false;
            }
            out.push(TAG_BYTES);
            encode_varint(b.len() as u32, out);
            append(out, b.as_slice());
            assert(out@ =~= start + value_bytes(v@));
        },
    }
    true
}

/// The value that starts at `pos`, with the position after it.
pub fn decode_value(buf: &Vec<u8>, pos: usize) -> (r: Result<(DataType, usize), WireError>)
    ensures
        r.is_ok() == parse_value(buf@, pos as int).is_ok(),
        r.is_ok() ==> r.unwrap().0@ == parse_value(buf@, pos as int).unwrap().0 && r.unwrap().1
            == parse_value(buf@, pos as int).unwrap().1 && pos < r.unwrap().1 <= buf@.len(),
        r.is_err() ==> r.unwrap_err() == parse_value(buf@, pos as int)->Err_0,
{
    if pos >= buf.len() {
        return Err(WireError::Truncated);
    }
    let tag: u8 = buf[pos];
    if tag == TAG_NULL {
        Ok((DataType::Null, pos + 1))
    } else if tag == TAG_BOOL {
        if buf.len() - pos < 2 {
            Err(WireError::Truncated)
        } else if buf[pos + 1] == 0 {
            Ok((DataType::Bool(false), pos + 2))
        } else if buf[pos + 1] == 1 {
            Ok((DataType::Bool(true), pos + 2))
        } else {
            Err(WireError::MalformedValue)
        }
    } else if tag == TAG_INT || tag == TAG_UNSIGNED || tag == TAG_TIMESTAMP {
        if buf.len() - pos < 9 {
            return Err(WireError::Truncated);
        }
        let u: u64 = read_be_u64(buf, pos + 1);
        if tag == TAG_INT {
            Ok((DataType::Int(to_signed(u)), pos + 9))
        } else if tag == TAG_UNSIGNED {
            Ok((DataType::UnsignedInt(u), pos + 9))
        } else {
            Ok((DataType::Timestamp(to_signed(u)), pos + 9))
        }
    } else if tag == TAG_TEXT || tag == TAG_BYTES {
        let (n, start): (u32, usize) = match decode_varint(buf, pos + 1) {
            Ok(found) => found,
            Err(e) => {
                return Err(e);
            },
        };
        let len: usize = n as usize;
        if buf.len() - start < len {
            return Err(WireError::Truncated);
        }
        let mut body: Vec<u8> = Vec::with_capacity(len);
        let mut i: usize = 0;
        while i < len
            invariant
                i <= len,
                start + len <= buf@.len() <= usize::MAX,
                body@ == buf@.subrange(start as int, start + i),
            decreases len - i,
        {
            body.push(buf[start + i]);
            assert(body@ =~= buf@.subrange(start as int, start + i + 1));
            i += 1;
        }
        if tag == TAG_BYTES {
            Ok((DataType::Bytes(body), start + len))
        } else {
            match text_of(body) {
                Some(s) => Ok((DataType::Text(s), start + len)),
                None => Err(WireError::MalformedValue),
            }
        }
    } else {
        Err(WireError::MalformedTag(tag))
    }
}

/// Appends the encoding of `row` to `out`. A row that holds a text or a byte string that
/// cannot be encoded, or more values than 32 bits can count, is not encoded: `out` stays as
/// it is, and `false` is returned.
pub fn encode_row(row: &Vec<DataType>, out: &mut Vec<u8>) -> (ok: bool)
    ensures
        ok ==> final(out)@ == old(out)@ + row_bytes(row.deep_view()),
        !ok ==> final(out)@ == old(out)@,
        ok == row_encodable(row.deep_view()),
{
    let ghost start = out@;
    let ghost values = row.deep_view();
    assert(values.len() == row@.len());
    if row.len() > u32::MAX as usize {
        return false;
    }
    let mut encoded: Vec<u8> = Vec::new();
    encode_varint(row.len() as u32, &mut encoded);
    let ghost head = encoded@;
    let mut i: usize = 0;
    proof {
        assert(values.take(0) =~= Seq::<Value>::empty());
        assert(encoded@ =~= head + values_bytes(values.take(0)));
    }
    while i < row.len()
        invariant
            i <= row@.len(),
            values == row.deep_view(),
            head == Seq::<u8>::empty() + varint(row@.len() as nat),
            encoded@ == head + values_bytes(values.take(i as int)),
            forall|j: int| 0 <= j < i ==> encodable(#[trigger] values[j]),
        decreases row@.len() - i,
    {
        proof {
            assert(values.take(i + 1).drop_last() =~= values.take(i as int));
            assert(values.take(i + 1).last() == values[i as int]);
            assert(values[i as int] == row@[i as int]@);
        }
        let ghost before = encoded@;
        if !encode_value(&row[i], &mut encoded) {
            assert(!encodable(values[i as int]));
            return false;
        }
        proof {
            assert(encoded@ =~= head + values_bytes(values.take(i + 1)));
        }
        i += 1;
    }
    proof {
        assert(values.take(row@.len() as int) =~= values);
        assert(encoded@ =~= row_bytes(values));
    }
    append(out, encoded.as_slice());
    true
}

/// Whether a value can be encoded: the length of a text or a byte string must fit in 32
/// bits.
pub open spec fn encodable(v: Value) -> bool {
    match v {
        Value::Text(s) => encode_utf8(s).len() <= u32::MAX,
        Value::Bytes(b) => b.len() <= u32::MAX,
        _ => true,
    }
}

/// Whether a row can be encoded: each of its values must be, and their number must fit in 32
/// bits.
pub open spec fn row_encodable(row: Row) -> bool {
    row.len() <= u32::MAX && forall|i: int| 0 <= i < row.len() ==> encodable(#[trigger] row[i])
}

/// The row that starts at `pos`, with the position after it.
pub fn decode_row(buf: &Vec<u8>, pos: usize) -> (r: Result<(Vec<DataType>, usize), WireError>)
    ensures
        r.is_ok() == parse_row(buf@, pos as int).is_ok(),
        r.is_ok() ==> r.unwrap().0.deep_view() == parse_row(buf@, pos as int).unwrap().0
            && r.unwrap().1 == parse_row(buf@, pos as int).unwrap().1 && pos < r.unwrap().1
            <= buf@.len(),
        r.is_err() ==> r.unwrap_err() == parse_row(buf@, pos as int)->Err_0,
{
    let (count, start): (u32, usize) = match decode_varint(buf, pos) {
        Ok(found) => found,
        Err(e) => {
            return Err(e);
        },
    };
    let mut row: Vec<DataType> = Vec::new();
    let mut at: usize = start;
    let mut left: u32 = count;
    proof {
        assert(row.deep_view() =~= Seq::<Value>::empty());
    }
    while left > 0
        invariant
            pos < at <= buf@.len(),
            parse_varint(buf@, pos as int) == Ok::<(nat, int), WireError>(
                (count as nat, start as int),
            ),
            parse_values(buf@, start as int, Seq::empty(), count as nat) == parse_values(
                buf@,
                at as int,
                row.deep_view(),
                left as nat,
            ),
        decreases left,
    {
        let ghost have = row.deep_view();
        match decode_value(buf, at) {
            Err(e) => {
                return Err(e);
            },
            Ok((v, next)) => {
                row.push(v);
                assert(row.deep_view() =~= have.push(v@));
                at = next;
            },
        }
        left = left - 1;
    }
    Ok((row, at))
}

/// The encoding of a batch of rows: the version, the number of rows, and the rows.
pub open spec fn rows_bytes(rows: Seq<Row>) -> Seq<u8>
    decreases rows.len(),
{
    if rows.len() == 0 {
        Seq::empty()
    } else {
        rows_bytes(rows.drop_last()) + row_bytes(rows.last())
    }
}

/// The payload that carries a batch of rows.
pub open spec fn message_bytes(rows: Seq<Row>) -> Seq<u8> {
    seq![WIRE_VERSION] + varint(rows.len()) + rows_bytes(rows)
}

/// The `count` rows that follow `have`, starting at `pos`, with the position after them.
pub open spec fn parse_rows(buf: Seq<u8>, pos: int, have: Seq<Row>, count: nat) -> Result<
    (Seq<Row>, int),
    WireError,
>
    decreases count,
{
    if count == 0 {
        Ok((have, pos))
    } else {
        match parse_row(buf, pos) {
            Err(e) => Err(e),
            Ok((row, next)) => parse_rows(buf, next, have.push(row), (count - 1) as nat),
        }
    }
}

/// The batch of rows that a payload carries. Bytes that follow the rows are an error.
pub open spec fn parse_message(buf: Seq<u8>) -> Result<Seq<Row>, WireError> {
    if buf.len() == 0 {
        Err(WireError::Truncated)
    } else if buf[0] != WIRE_VERSION {
        Err(WireError::UnknownVersion(buf[0]))
    } else {
        match parse_varint(buf, 1) {
            Err(e) => Err(e),
            Ok((count, start)) => match parse_rows(buf, start, Seq::empty(), count) {
                Err(e) => Err(e),
                Ok((rows, end)) => if end == buf.len() {
                    Ok(rows)
                } else {
                    Err(WireError::MalformedValue)
                },
            },
        }
    }
}

/// The payload that carries the rows `rows`, or nothing where a row cannot be encoded or
/// there are more rows than 32 bits can count.
pub fn encode_message(rows: &Vec<Vec<DataType>>) -> (r: Option<Vec<u8>>)
    ensures
        r.is_some() ==> r.unwrap()@ == message_bytes(rows.deep_view()),
        r.is_some() == (rows@.len() <= u32::MAX && forall|i: int|
            0 <= i < rows@.len() ==> row_encodable(#[trigger] rows.deep_view()[i])),
{
    let ghost all = rows.deep_view();
    assert(all.len() == rows@.len());
    if rows.len() > u32::MAX as usize {
        return None;
    }
    let mut out: Vec<u8> = Vec::new();
    out.push(WIRE_VERSION);
    encode_varint(rows.len() as u32, &mut out);
    let ghost head = out@;
    let mut i: usize = 0;
    proof {
        assert(all.take(0) =~= Seq::<Row>::empty());
        assert(out@ =~= head + rows_bytes(all.take(0)));
    }
    while i < rows.len()
        invariant
            i <= rows@.len(),
            all == rows.deep_view(),
            all.len() == rows@.len(),
            head == seq![WIRE_VERSION] + varint(rows@.len() as nat),
            out@ == head + rows_bytes(all.take(i as int)),
            forall|a: int| 0 <= a < i ==> row_encodable(#[trigger] all[a]),
        decreases rows@.len() - i,
    {
        proof {
            assert(all.take(i + 1).drop_last() =~= all.take(i as int));
            assert(all.take(i + 1).last() == all[i as int]);
            assert(all[i as int] == rows@[i as int].deep_view());
        }
        if !encode_row(&rows[i], &mut out) {
            assert(!row_encodable(all[i as int]));
            return None;
        }
        proof {
            assert(out@ =~= head + rows_bytes(all.take(i + 1)));
        }
        i += 1;
    }
    proof {
        assert(all.take(rows@.len() as int) =~= all);
        assert(out@ =~= message_bytes(all));
    }
    Some(out)
}

/// The batch of rows that a payload carries.
pub fn decode_message(buf: &Vec<u8>) -> (r: Result<Vec<Vec<DataType>>, WireError>)
    ensures
        r.is_ok() == parse_message(buf@).is_ok(),
        r.is_ok() ==> r.unwrap().deep_view() == parse_message(buf@).unwrap(),
        r.is_err() ==> r.unwrap_err() == parse_message(buf@)->Err_0,
{
    if buf.len() == 0 {
        return Err(WireError::Truncated);
    }
    if buf[0] != WIRE_VERSION {
        return Err(WireError::UnknownVersion(buf[0]));
    }
    let (count, start): (u32, usize) = match decode_varint(buf, 1) {
        Ok(found) => found,
        Err(e) => {
            return Err(e);
        },
    };
    let mut rows: Vec<Vec<DataType>> = Vec::new();
    let mut at: usize = start;
    let mut left: u32 = count;
    proof {
        assert(rows.deep_view() =~= Seq::<Row>::empty());
    }
    while left > 0
        invariant
            at <= buf@.len(),
            buf@.len() > 0,
            buf@[0] == WIRE_VERSION,
            parse_varint(buf@, 1) == Ok::<(nat, int), WireError>((count as nat, start as int)),
            parse_rows(buf@, start as int, Seq::empty(), count as nat) == parse_rows(
                buf@,
                at as int,
                rows.deep_view(),
                left as nat,
            ),
        decreases left,
    {
        let ghost have = rows.deep_view();
        match decode_row(buf, at) {
            Err(e) => {
                return Err(e);
            },
            Ok((row, next)) => {
                let ghost r = row.deep_view();
                rows.push(row);
                assert(rows.deep_view() =~= have.push(r));
                at = next;
            },
        }
        left = left - 1;
    }
    if at == buf.len() {
        Ok(rows)
    } else {
        Err(WireError::MalformedValue)
    }
}

/// Whether a value is one that a [`DataType`] can hold: its numbers fit in 64 bits.
pub open spec fn representable(v: Value) -> bool {
    match v {
        Value::Int(n) => i64::MIN <= n <= i64::MAX,
        Value::UnsignedInt(n) => 0 <= n <= u64::MAX,
        Value::Timestamp(n) => i64::MIN <= n <= i64::MAX,
        _ => true,
    }
}

/// The encoding of a number below 2^32 has at most five groups.
pub proof fn lemma_varint_len(n: nat)
    requires
        n <= u32::MAX,
    ensures
        1 <= varint(n).len() <= 5,
{
    reveal_with_fuel(varint, 6);
}

/// Reading the encoding of a number gives the number back, whatever stands before and after
/// it.
pub proof fn lemma_scan_varint(
    pre: Seq<u8>,
    n: nat,
    rest: Seq<u8>,
    acc: nat,
    scale: nat,
    left: nat,
)
    requires
        left >= varint(n).len(),
    ensures
        scan_varint(pre + varint(n) + rest, pre.len() as int, acc, scale, left) == Ok::<
            (nat, int),
            WireError,
        >((acc + n * scale, pre.len() as int + varint(n).len())),
    decreases n,
{
    let buf = pre + varint(n) + rest;
    assert(buf[pre.len() as int] == varint(n)[0]);
    if n >= 128 {
        let first = (n % 128 + 128) as u8;
        let pre2 = pre.push(first);
        assert(varint(n) == seq![first] + varint(n / 128));
        assert(pre2 + varint(n / 128) + rest =~= buf);
        lemma_scan_varint(pre2, n / 128, rest, acc + (n % 128) * scale, scale * 128, (left - 1) as nat);
        assert((n % 128) * scale + (n / 128) * (scale * 128) == n * scale) by (nonlinear_arith);
    } else {
        assert(varint(n) == seq![n as u8]);
    }
}

/// Parsing the encoding of a number of at most 32 bits gives the number back.
pub proof fn lemma_parse_varint(pre: Seq<u8>, n: nat, rest: Seq<u8>)
    requires
        n <= u32::MAX,
    ensures
        parse_varint(pre + varint(n) + rest, pre.len() as int) == Ok::<(nat, int), WireError>(
            (n, pre.len() as int + varint(n).len()),
        ),
{
    lemma_varint_len(n);
    lemma_scan_varint(pre, n, rest, 0, 1, 5);
    assert(0 + n * 1 == n) by (nonlinear_arith);
}

/// A number below 2^64 is what its eight bytes spell.
pub proof fn lemma_be8_sum(u: nat)
    requires
        u <= u64::MAX,
    ensures
        ((u / 0x100000000000000) % 0x100) * 0x100000000000000 + ((u / 0x1000000000000) % 0x100)
            * 0x1000000000000 + ((u / 0x10000000000) % 0x100) * 0x10000000000 + ((u
            / 0x100000000) % 0x100) * 0x100000000 + ((u / 0x1000000) % 0x100) * 0x1000000 + ((u
            / 0x10000) % 0x100) * 0x10000 + ((u / 0x100) % 0x100) * 0x100 + u % 0x100 == u,
{
    let q1 = u / 0x100;
    let q2 = q1 / 0x100;
    let q3 = q2 / 0x100;
    let q4 = q3 / 0x100;
    let q5 = q4 / 0x100;
    let q6 = q5 / 0x100;
    let q7 = q6 / 0x100;
    assert(q2 == u / 0x10000);
    assert(q3 == u / 0x1000000);
    assert(q4 == u / 0x100000000);
    assert(q5 == u / 0x10000000000);
    assert(q6 == u / 0x1000000000000);
    assert(q7 == u / 0x100000000000000);
    assert(q7 < 0x100);
    assert(u == q1 * 0x100 + u % 0x100);
    assert(q1 == q2 * 0x100 + q1 % 0x100);
    assert(q2 == q3 * 0x100 + q2 % 0x100);
    assert(q3 == q4 * 0x100 + q3 % 0x100);
    assert(q4 == q5 * 0x100 + q4 % 0x100);
    assert(q5 == q6 * 0x100 + q5 % 0x100);
    assert(q6 == q7 * 0x100 + q6 % 0x100);
}

/// Reading the eight bytes of a number gives the number back.
pub proof fn lemma_be8(pre: Seq<u8>, u: nat, rest: Seq<u8>)
    requires
        u <= u64::MAX,
    ensures
        be8(u).len() == 8,
        be8_value(pre + be8(u) + rest, pre.len() as int) == u,
{
    let buf = pre + be8(u) + rest;
    let p = pre.len() as int;
    assert(buf[p] == be8(u)[0]);
    assert(buf[p + 1] == be8(u)[1]);
    assert(buf[p + 2] == be8(u)[2]);
    assert(buf[p + 3] == be8(u)[3]);
    assert(buf[p + 4] == be8(u)[4]);
    assert(buf[p + 5] == be8(u)[5]);
    assert(buf[p + 6] == be8(u)[6]);
    assert(buf[p + 7] == be8(u)[7]);
    lemma_be8_sum(u);
}

/// Parsing the encoding of a value gives the value back, whatever stands before and after
/// it.
pub proof fn lemma_parse_value(pre: Seq<u8>, v: Value, rest: Seq<u8>)
    requires
        representable(v),
        encodable(v),
    ensures
        parse_value(pre + value_bytes(v) + rest, pre.len() as int) == Ok::<(Value, int), WireError>(
            (v, pre.len() as int + value_bytes(v).len()),
        ),
{
    let buf = pre + value_bytes(v) + rest;
    let pos = pre.len() as int;
    assert(buf[pos] == value_bytes(v)[0]);
    match v {
        Value::Null => {},
        Value::Bool(b) => {
            assert(buf[pos + 1] == value_bytes(v)[1]);
        },
        Value::Int(n) => {
            let pre2 = pre.push(TAG_INT);
            assert(pre2 + be8(unsigned_of(n)) + rest =~= buf);
            lemma_be8(pre2, unsigned_of(n), rest);
        },
        Value::UnsignedInt(n) => {
            let pre2 = pre.push(TAG_UNSIGNED);
            assert(pre2 + be8(n as nat) + rest =~= buf);
            lemma_be8(pre2, n as nat, rest);
        },
        Value::Timestamp(n) => {
            let pre2 = pre.push(TAG_TIMESTAMP);
            assert(pre2 + be8(unsigned_of(n)) + rest =~= buf);
            lemma_be8(pre2, unsigned_of(n), rest);
        },
        Value::Text(s) => {
            let body = encode_utf8(s);
            let pre2 = pre.push(TAG_TEXT);
            assert(pre2 + varint(body.len()) + (body + rest) =~= buf);
            lemma_parse_varint(pre2, body.len(), body + rest);
            let start = pre2.len() as int + varint(body.len()).len() as int;
            assert(buf.subrange(start, start + body.len()) =~= body);
            vstd::utf8::encode_utf8_valid_utf8(s);
            vstd::utf8::encode_utf8_decode_utf8(s);
        },
        Value::Bytes(b) => {
            let pre2 = pre.push(TAG_BYTES);
            assert(pre2 + varint(b.len()) + (b + rest) =~= buf);
            lemma_parse_varint(pre2, b.len(), b + rest);
            let start = pre2.len() as int + varint(b.len()).len() as int;
            assert(buf.subrange(start, start + b.len()) =~= b);
        },
    }
}

/// The encoding of the values of a row is the encoding of the first, then that of the
/// others.
pub proof fn lemma_values_bytes_first(row: Row)
    requires
        row.len() > 0,
    ensures
        values_bytes(row) == value_bytes(row[0]) + values_bytes(row.drop_first()),
    decreases row.len(),
{
    reveal_with_fuel(values_bytes, 2);
    if row.len() == 1 {
        assert(row.drop_last() =~= Seq::<Value>::empty());
        assert(row.drop_first() =~= Seq::<Value>::empty());
        assert(values_bytes(row) =~= value_bytes(row[0]));
        assert(value_bytes(row[0]) + values_bytes(row.drop_first()) =~= value_bytes(row[0]));
    } else {
        lemma_values_bytes_first(row.drop_last());
        assert(row.drop_last().drop_first() =~= row.drop_first().drop_last());
        assert(row.drop_first().last() == row.last());
        assert(row.drop_last()[0] == row[0]);
        assert(values_bytes(row) =~= value_bytes(row[0]) + values_bytes(row.drop_first()));
    }
}

/// Parsing the encoding of the values of a row gives the values back, after those that were
/// there.
pub proof fn lemma_parse_values(pre: Seq<u8>, have: Row, row: Row, rest: Seq<u8>)
    requires
        forall|i: int| 0 <= i < row.len() ==> representable(#[trigger] row[i]) && encodable(row[i]),
    ensures
        parse_values(pre + values_bytes(row) + rest, pre.len() as int, have, row.len()) == Ok::<
            (Row, int),
            WireError,
        >((have + row, pre.len() as int + values_bytes(row).len())),
    decreases row.len(),
{
    let buf = pre + values_bytes(row) + rest;
    if row.len() == 0 {
        assert(have + row =~= have);
    } else {
        let first = row[0];
        let others = row.drop_first();
        lemma_values_bytes_first(row);
        assert(pre + value_bytes(first) + (values_bytes(others) + rest) =~= buf);
        lemma_parse_value(pre, first, values_bytes(others) + rest);
        let pre2 = pre + value_bytes(first);
        assert(pre2 + values_bytes(others) + rest =~= buf);
        assert forall|i: int| 0 <= i < others.len() implies representable(
            #[trigger] others[i],
        ) && encodable(others[i]) by {
            assert(others[i] == row[i + 1]);
        }
        lemma_parse_values(pre2, have.push(first), others, rest);
        assert(have.push(first) + others =~= have + row);
    }
}

/// Parsing the encoding of a row gives the row back, whatever stands before and after it.
pub proof fn lemma_parse_row(pre: Seq<u8>, row: Row, rest: Seq<u8>)
    requires
        row_encodable(row),
        forall|i: int| 0 <= i < row.len() ==> representable(#[trigger] row[i]),
    ensures
        parse_row(pre + row_bytes(row) + rest, pre.len() as int) == Ok::<(Row, int), WireError>(
            (row, pre.len() as int + row_bytes(row).len()),
        ),
{
    let buf = pre + row_bytes(row) + rest;
    assert(pre + varint(row.len()) + (values_bytes(row) + rest) =~= buf);
    lemma_parse_varint(pre, row.len(), values_bytes(row) + rest);
    let pre2 = pre + varint(row.len());
    assert(pre2 + values_bytes(row) + rest =~= buf);
    lemma_parse_values(pre2, Seq::empty(), row, rest);
    assert(Seq::<Value>::empty() + row =~= row);
}

/// The encoding of rows is the encoding of the first, then that of the others.
pub proof fn lemma_rows_bytes_first(rows: Seq<Row>)
    requires
        rows.len() > 0,
    ensures
        rows_bytes(rows) == row_bytes(rows[0]) + rows_bytes(rows.drop_first()),
    decreases rows.len(),
{
    reveal_with_fuel(rows_bytes, 2);
    if rows.len() == 1 {
        assert(rows.drop_last() =~= Seq::<Row>::empty());
        assert(rows.drop_first() =~= Seq::<Row>::empty());
        assert(rows_bytes(rows) =~= row_bytes(rows[0]));
        assert(row_bytes(rows[0]) + rows_bytes(rows.drop_first()) =~= row_bytes(rows[0]));
    } else {
        lemma_rows_bytes_first(rows.drop_last());
        assert(rows.drop_last().drop_first() =~= rows.drop_first().drop_last());
        assert(rows.drop_first().last() == rows.last());
        assert(rows.drop_last()[0] == rows[0]);
        assert(rows_bytes(rows) =~= row_bytes(rows[0]) + rows_bytes(rows.drop_first()));
    }
}

/// Whether every row of `rows` can be encoded and holds values that a row can hold.
pub open spec fn rows_encodable(rows: Seq<Row>) -> bool {
    rows.len() <= u32::MAX && forall|i: int|
        0 <= i < rows.len() ==> row_encodable(#[trigger] rows[i]) && forall|j: int|
            0 <= j < rows[i].len() ==> representable(#[trigger] rows[i][j])
}

/// The rows after the first of rows that can be encoded can be encoded.
pub proof fn lemma_rows_encodable_rest(rows: Seq<Row>)
    requires
        rows_encodable(rows),
        rows.len() > 0,
    ensures
        rows_encodable(rows.drop_first()),
        row_encodable(rows[0]),
        forall|j: int| 0 <= j < rows[0].len() ==> representable(#[trigger] rows[0][j]),
{
    let others = rows.drop_first();
    assert forall|i: int| 0 <= i < others.len() implies row_encodable(#[trigger] others[i])
        && forall|j: int| 0 <= j < others[i].len() ==> representable(
        #[trigger] others[i][j],
    ) by {
        assert(others[i] == rows[i + 1]);
    }
}

/// Parsing the encoding of rows gives the rows back, after those that were there.
pub proof fn lemma_parse_rows(pre: Seq<u8>, have: Seq<Row>, rows: Seq<Row>, rest: Seq<u8>)
    requires
        rows_encodable(rows),
    ensures
        parse_rows(pre + rows_bytes(rows) + rest, pre.len() as int, have, rows.len()) == Ok::<
            (Seq<Row>, int),
            WireError,
        >((have + rows, pre.len() as int + rows_bytes(rows).len())),
    decreases rows.len(),
{
    let buf = pre + rows_bytes(rows) + rest;
    if rows.len() == 0 {
        assert(have + rows =~= have);
    } else {
        let first = rows[0];
        let others = rows.drop_first();
        lemma_rows_encodable_rest(rows);
        lemma_rows_bytes_first(rows);
        assert(pre + row_bytes(first) + (rows_bytes(others) + rest) =~= buf);
        lemma_parse_row(pre, first, rows_bytes(others) + rest);
        let pre2 = pre + row_bytes(first);
        assert(pre2 + rows_bytes(others) + rest =~= buf);
        lemma_parse_rows(pre2, have.push(first), others, rest);
        assert(have.push(first) + others =~= have + rows);
    }
}

/// A payload that was made of rows gives the rows back: decoding undoes encoding.
pub proof fn lemma_message_roundtrip(rows: Seq<Row>)
    requires
        rows_encodable(rows),
    ensures
        parse_message(message_bytes(rows)) == Ok::<Seq<Row>, WireError>(rows),
{
    let buf = message_bytes(rows);
    let pre = seq![WIRE_VERSION];
    assert(pre + varint(rows.len()) + rows_bytes(rows) =~= buf);
    lemma_parse_varint(pre, rows.len(), rows_bytes(rows));
    let pre2 = pre + varint(rows.len());
    assert(pre2 + rows_bytes(rows) + Seq::<u8>::empty() =~= buf);
    lemma_parse_rows(pre2, Seq::empty(), rows, Seq::empty());
    assert(Seq::<Row>::empty() + rows =~= rows);
    assert(buf[0] == WIRE_VERSION);
}

} // verus!
