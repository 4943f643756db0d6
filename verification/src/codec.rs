//! The row codec: how the values of a row lie in the payload of a record.
//!
//! Whole numbers and points in time take eight bytes, highest first; a
//! floating-point number the eight bytes of its bit pattern; text four bytes
//! of length and then its bytes; a truth value one byte. The values of a row
//! follow one another in the order of the columns. Reading is forgiving: where
//! the payload ends before a value does, the value reads as nothing, and the
//! next value is looked for where it would have stood.

use vstd::prelude::*;
use vstd::slice::slice_subrange;
use vstd::string::{StringExecFns, StringSliceAdditionalSpecFns};
use vstd::utf8::{decode_utf8, valid_utf8};
use crate::metadata::column::{
    parse_boolean, read_boolean, strip_quotes, unquoted, value_fits, Column, ColumnType,
};
use crate::query::error::{QueryError, QueryErrorView};
use crate::metadata::table::Table;
use crate::storage::record::{same_bytes, Record};
use vstd::std_specs::cmp::PartialEqSpecImpl;
use crate::text::{
    append_decimal, decimal_chars, parse_i64, parse_signed, signed_decimal_chars,
};

verus! {

/// One value of a row.
#[derive(Debug)]
pub enum Value {
    Integer(i64),
    /// The bit pattern of a floating-point number.
    Float(u64),
    /// The bytes of a text.
    Varchar(Vec<u8>),
    Boolean(bool),
    Timestamp(i64),
}

/// What a value is.
pub enum ValueView {
    Integer(i64),
    Float(u64),
    Varchar(Seq<u8>),
    Boolean(bool),
    Timestamp(i64),
}

impl View for Value {
    type V = ValueView;

    open spec fn view(&self) -> ValueView {
        match self {
            Value::Integer(n) => ValueView::Integer(*n),
            Value::Float(bits) => ValueView::Float(*bits),
            Value::Varchar(text) => ValueView::Varchar(text@),
            Value::Boolean(b) => ValueView::Boolean(*b),
            Value::Timestamp(n) => ValueView::Timestamp(*n),
        }
    }
}

impl Clone for Value {
    fn clone(&self) -> (r: Self)
        ensures
            r@ == self@,
    {
        match self {
            Value::Integer(n) => Value::Integer(*n),
            Value::Float(bits) => Value::Float(*bits),
            Value::Varchar(text) => Value::Varchar(text.clone()),
            Value::Boolean(b) => Value::Boolean(*b),
            Value::Timestamp(n) => Value::Timestamp(*n),
        }
    }
}

/// What each value of `v` is, in order.
pub open spec fn value_views(v: Seq<Value>) -> Seq<ValueView> {
    v.map_values(|x: Value| x@)
}

/// The types of the columns, in order.
pub open spec fn column_types(columns: Seq<Column>) -> Seq<ColumnType> {
    columns.map_values(|c: Column| c.data_type)
}

/// The 64 bits of a whole number, in two's complement.
pub open spec fn bits_of(v: i64) -> u64 {
    if v >= 0 {
        v as u64
    } else {
        (v + 0x1_0000_0000_0000_0000) as u64
    }
}

/// The whole number that 64 bits stand for, in two's complement.
pub open spec fn number_of_bits(u: u64) -> i64 {
    if u <= i64::MAX {
        u as i64
    } else {
        (u - 0x1_0000_0000_0000_0000) as i64
    }
}

/// The eight bytes of `x`, highest first.
pub open spec fn be64(x: u64) -> Seq<u8> {
    seq![
        ((x >> 56) & 0xff) as u8,
        ((x >> 48) & 0xff) as u8,
        ((x >> 40) & 0xff) as u8,
        ((x >> 32) & 0xff) as u8,
        ((x >> 24) & 0xff) as u8,
        ((x >> 16) & 0xff) as u8,
        ((x >> 8) & 0xff) as u8,
        (x & 0xff) as u8,
    ]
}

/// The number that eight bytes spell, highest first.
pub open spec fn from_be64(s: Seq<u8>) -> u64 {
    (s[0] as u64) << 56 | (s[1] as u64) << 48 | (s[2] as u64) << 40 | (s[3] as u64) << 32 | (
    s[4] as u64) << 24 | (s[5] as u64) << 16 | (s[6] as u64) << 8 | (s[7] as u64)
}

/// The four bytes of `x`, highest first.
pub open spec fn be32(x: u32) -> Seq<u8> {
    seq![
        ((x >> 24) & 0xff) as u8,
        ((x >> 16) & 0xff) as u8,
        ((x >> 8) & 0xff) as u8,
        (x & 0xff) as u8,
    ]
}

/// The number that four bytes spell, highest first.
pub open spec fn from_be32(s: Seq<u8>) -> u32 {
    (s[0] as u32) << 24 | (s[1] as u32) << 16 | (s[2] as u32) << 8 | (s[3] as u32)
}

/// The bytes of a value in a payload. The length of a text is written in
/// four bytes, so of a longer length only the low 32 bits are written.
pub open spec fn encoded(v: ValueView) -> Seq<u8> {
    match v {
        ValueView::Integer(n) => be64(bits_of(n)),
        ValueView::Float(bits) => be64(bits),
        ValueView::Varchar(text) => be32((text.len() % 0x1_0000_0000) as u32) + text,
        ValueView::Boolean(b) => seq![if b { 1u8 } else { 0u8 }],
        ValueView::Timestamp(n) => be64(bits_of(n)),
    }
}

/// The payload of a row: the bytes of its values, one after another.
pub open spec fn encoded_row(values: Seq<ValueView>) -> Seq<u8>
    decreases values.len(),
{
    if values.len() == 0 {
        Seq::empty()
    } else {
        encoded_row(values.drop_last()) + encoded(values.last())
    }
}

/// The value of type `t` that stands at `offset` in `data`, and where the
/// next value stands. Where `data` ends before the value does, the value is
/// zero, empty or false, and the next value stands where it would have.
pub open spec fn decoded_at(t: ColumnType, data: Seq<u8>, offset: int) -> (ValueView, int) {
    match t {
        ColumnType::Integer => if offset + 8 <= data.len() {
            (ValueView::Integer(number_of_bits(from_be64(data.subrange(offset, offset + 8)))), offset + 8)
        } else {
            (ValueView::Integer(0), offset + 8)
        },
        ColumnType::Float => if offset + 8 <= data.len() {
            (ValueView::Float(from_be64(data.subrange(offset, offset + 8))), offset + 8)
        } else {
            (ValueView::Float(0), offset + 8)
        },
        ColumnType::Varchar(_) => if offset + 4 <= data.len() {
            let n = from_be32(data.subrange(offset, offset + 4)) as int;
            if offset + 4 + n <= data.len() {
                (ValueView::Varchar(data.subrange(offset + 4, offset + 4 + n)), offset + 4 + n)
            } else {
                (ValueView::Varchar(Seq::empty()), offset + 4 + n)
            }
        } else {
            (ValueView::Varchar(Seq::empty()), offset + 4)
        },
        ColumnType::Boolean => (
            ValueView::Boolean(offset < data.len() && data[offset] == 1),
            offset + 1,
        ),
        ColumnType::Timestamp => if offset + 8 <= data.len() {
            (
                ValueView::Timestamp(number_of_bits(from_be64(data.subrange(offset, offset + 8)))),
                offset + 8,
            )
        } else {
            (ValueView::Timestamp(0), offset + 8)
        },
    }
}

/// The values of the columns from place `k` on, the first of them standing
/// at `offset` in `data`.
pub open spec fn decoded_from(types: Seq<ColumnType>, data: Seq<u8>, k: int, offset: int) -> Seq<
    ValueView,
>
    decreases types.len() - k,
{
    if k < 0 || k >= types.len() {
        Seq::empty()
    } else {
        let (v, next) = decoded_at(types[k], data, offset);
        seq![v] + decoded_from(types, data, k + 1, next)
    }
}

/// The values of a row with columns of these types, read from a payload.
pub open spec fn decoded_row(types: Seq<ColumnType>, data: Seq<u8>) -> Seq<ValueView> {
    decoded_from(types, data, 0, 0)
}

/// Whether a value can stand in a column of type `t`: it is of the column's
/// kind, and a text is no longer than the column allows and than four bytes
/// of length can say.
pub open spec fn conforms(t: ColumnType, v: ValueView) -> bool {
    match (t, v) {
        (ColumnType::Integer, ValueView::Integer(_)) => true,
        (ColumnType::Float, ValueView::Float(_)) => true,
        (ColumnType::Varchar(max_len), ValueView::Varchar(text)) => text.len() <= max_len
            && text.len() <= u32::MAX,
        (ColumnType::Boolean, ValueView::Boolean(_)) => true,
        (ColumnType::Timestamp, ValueView::Timestamp(_)) => true,
        _ => false,
    }
}

/// The value that a text stands for in a column of type `t`: a number in
/// decimal, a text without the quotes around it and within the column's
/// length, `true` or `false` in any case and with or without quotes. For a
/// floating-point column the value is the bit pattern that the caller read.
pub open spec fn value_of_text(t: ColumnType, text: Seq<u8>, float_bits: Option<u64>) -> Option<
    ValueView,
> {
    match t {
        ColumnType::Integer => match parse_signed(text) {
            Some(n) => Some(ValueView::Integer(n)),
            None => None,
        },
        ColumnType::Float => match float_bits {
            Some(bits) => Some(ValueView::Float(bits)),
            None => None,
        },
        ColumnType::Varchar(max_len) => if strip_quotes(text).len() <= max_len {
            Some(ValueView::Varchar(strip_quotes(text)))
        } else {
            None
        },
        ColumnType::Boolean => match parse_boolean(strip_quotes(text)) {
            Some(b) => Some(ValueView::Boolean(b)),
            None => None,
        },
        ColumnType::Timestamp => match parse_signed(text) {
            Some(n) => Some(ValueView::Timestamp(n)),
            None => None,
        },
    }
}

/// What the user is told where a text stands for no value of the type `t`.
pub open spec fn mismatch_message(t: ColumnType, text: Seq<char>) -> Seq<char> {
    match t {
        ColumnType::Integer => "Invalid integer value: "@ + text,
        ColumnType::Float => "Invalid float value: "@ + text,
        ColumnType::Varchar(max_len) => "String value exceeds maximum length of "@ + decimal_chars(
            max_len as nat,
        ),
        ColumnType::Boolean => "Invalid boolean value: "@ + text,
        ColumnType::Timestamp => "Invalid timestamp value: "@ + text,
    }
}

/// A text stands for a value of a column's type exactly where the column
/// accepts the text.
pub proof fn lemma_value_of_text_fits(t: ColumnType, text: Seq<u8>, float_bits: Option<u64>)
    ensures
        value_of_text(t, text, float_bits) is Some == value_fits(t, text, float_bits is Some),
{
}

/// The low eight bits of a number fit a byte.
proof fn lemma_low_byte(x: u64)
    ensures
        x & 0xff <= 255,
{
    assert(x & 0xff <= 255) by (bit_vector);
}

/// The low eight bits of a number fit a byte.
proof fn lemma_low_byte32(x: u32)
    ensures
        x & 0xff <= 255,
{
    assert(x & 0xff <= 255) by (bit_vector);
}

/// Eight bytes written and read give the number back.
pub proof fn lemma_be64_round_trip(x: u64)
    ensures
        be64(x).len() == 8,
        from_be64(be64(x)) == x,
{
    lemma_low_byte(x >> 56);
    lemma_low_byte(x >> 48);
    lemma_low_byte(x >> 40);
    lemma_low_byte(x >> 32);
    lemma_low_byte(x >> 24);
    lemma_low_byte(x >> 16);
    lemma_low_byte(x >> 8);
    lemma_low_byte(x);
    assert(((x >> 56) & 0xff) << 56 | ((x >> 48) & 0xff) << 48 | ((x >> 40) & 0xff) << 40 | ((x
        >> 32) & 0xff) << 32 | ((x >> 24) & 0xff) << 24 | ((x >> 16) & 0xff) << 16 | ((x >> 8)
        & 0xff) << 8 | (x & 0xff) == x) by (bit_vector);
}

/// Four bytes written and read give the number back.
pub proof fn lemma_be32_round_trip(x: u32)
    ensures
        be32(x).len() == 4,
        from_be32(be32(x)) == x,
{
    lemma_low_byte32(x >> 24);
    lemma_low_byte32(x >> 16);
    lemma_low_byte32(x >> 8);
    lemma_low_byte32(x);
    assert(((x >> 24) & 0xff) << 24 | ((x >> 16) & 0xff) << 16 | ((x >> 8) & 0xff) << 8 | (x
        & 0xff) == x) by (bit_vector);
}

/// The bits of a whole number stand for that number.
pub proof fn lemma_bits_round_trip(v: i64)
    ensures
        number_of_bits(bits_of(v)) == v,
{
}

/// Appends the eight bytes of `x`, highest first.
fn push_be64(out: &mut Vec<u8>, x: u64)
    ensures
        final(out)@ == old(out)@ + be64(x),
{
    proof {
        lemma_low_byte(x >> 56);
        lemma_low_byte(x >> 48);
        lemma_low_byte(x >> 40);
        lemma_low_byte(x >> 32);
        lemma_low_byte(x >> 24);
        lemma_low_byte(x >> 16);
        lemma_low_byte(x >> 8);
        lemma_low_byte(x);
    }
    out.push(((x >> 56) & 0xff) as u8);
    out.push(((x >> 48) & 0xff) as u8);
    out.push(((x >> 40) & 0xff) as u8);
    out.push(((x >> 32) & 0xff) as u8);
    out.push(((x >> 24) & 0xff) as u8);
    out.push(((x >> 16) & 0xff) as u8);
    out.push(((x >> 8) & 0xff) as u8);
    out.push((x & 0xff) as u8);
    proof {
        assert(out@ =~= old(out)@ + be64(x));
    }
}

/// Appends the four bytes of `x`, highest first.
fn push_be32(out: &mut Vec<u8>, x: u32)
    ensures
        final(out)@ == old(out)@ + be32(x),
{
    proof {
        lemma_low_byte32(x >> 24);
        lemma_low_byte32(x >> 16);
        lemma_low_byte32(x >> 8);
        lemma_low_byte32(x);
    }
    out.push(((x >> 24) & 0xff) as u8);
    out.push(((x >> 16) & 0xff) as u8);
    out.push(((x >> 8) & 0xff) as u8);
    out.push((x & 0xff) as u8);
    proof {
        assert(out@ =~= old(out)@ + be32(x));
    }
}

/// The 64 bits of a whole number.
fn to_bits(v: i64) -> (r: u64)
    ensures
        r == bits_of(v),
{
    if v >= 0 {
        v as u64
    } else {
        u64::MAX - ((-(v + 1)) as u64)
    }
}

/// The whole number of 64 bits.
fn from_bits(u: u64) -> (r: i64)
    ensures
        r == number_of_bits(u),
{
    if u <= 0x7fff_ffff_ffff_ffff {
        u as i64
    } else {
        -((u64::MAX - u) as i64) - 1
    }
}

/// The number that the eight bytes from `offset` on spell.
fn read_be64(data: &[u8], offset: usize) -> (r: u64)
    requires
        offset + 8 <= data@.len(),
    ensures
        r == from_be64(data@.subrange(offset as int, offset + 8)),
{
    let ghost s = data@.subrange(offset as int, offset + 8);
    proof {
        assert(s[0] == data@[offset + 0]);
        assert(s[1] == data@[offset + 1]);
        assert(s[2] == data@[offset + 2]);
        assert(s[3] == data@[offset + 3]);
        assert(s[4] == data@[offset + 4]);
        assert(s[5] == data@[offset + 5]);
        assert(s[6] == data@[offset + 6]);
        assert(s[7] == data@[offset + 7]);
    }
    (data[offset] as u64) << 56 | (data[offset + 1] as u64) << 48 | (data[offset + 2] as u64) << 40
        | (data[offset + 3] as u64) << 32 | (data[offset + 4] as u64) << 24 | (data[offset
        + 5] as u64) << 16 | (data[offset + 6] as u64) << 8 | (data[offset + 7] as u64)
}

/// The number that the four bytes from `offset` on spell.
fn read_be32(data: &[u8], offset: usize) -> (r: u32)
    requires
        offset + 4 <= data@.len(),
    ensures
        r == from_be32(data@.subrange(offset as int, offset + 4)),
{
    let ghost s = data@.subrange(offset as int, offset + 4);
    proof {
        assert(s[0] == data@[offset + 0]);
        assert(s[1] == data@[offset + 1]);
        assert(s[2] == data@[offset + 2]);
        assert(s[3] == data@[offset + 3]);
    }
    (data[offset] as u32) << 24 | (data[offset + 1] as u32) << 16 | (data[offset + 2] as u32) << 8
        | (data[offset + 3] as u32)
}

impl Value {
    /// Appends the bytes of the value to a payload.
    pub fn encode(&self, out: &mut Vec<u8>)
        ensures
            final(out)@ == old(out)@ + encoded(self@),
    {
        match self {
            Value::Integer(n) => push_be64(out, to_bits(*n)),
            Value::Float(bits) => push_be64(out, *bits),
            Value::Varchar(text) => {
                let length = ((text.len() as u64) % 0x1_0000_0000) as u32;
                push_be32(out, length);
                let ghost mid = out@;
                let mut i: usize = 0;
                while i < text.len()
                    invariant
                        i <= text@.len(),
                        out@ == mid + text@.subrange(0, i as int),
                    decreases text@.len() - i,
                {
                    out.push(text[i]);
                    proof {
                        assert(out@ =~= mid + text@.subrange(0, i + 1));
                    }
                    i += 1;
                }
                proof {
                    assert(text@.subrange(0, i as int) =~= text@);
                    assert(out@ =~= old(out)@ + encoded(self@));
                }
            },
            Value::Boolean(b) => {
                out.push(if *b { 1 } else { 0 });
                proof {
                    assert(out@ =~= old(out)@ + encoded(self@));
                }
            },
            Value::Timestamp(n) => push_be64(out, to_bits(*n)),
        }
    }

    /// The value that `text` stands for in a column of type `data_type`. For
    /// a column of floating-point numbers the caller says in `float_bits`
    /// what the text reads as, if it reads as a number.
    pub fn from_text(data_type: &ColumnType, text: &str, float_bits: Option<u64>) -> (r: Result<
        Value,
        QueryError,
    >)
        ensures
            match r {
                Ok(v) => value_of_text(*data_type, text.spec_bytes(), float_bits) == Some(v@),
                Err(e) => value_of_text(*data_type, text.spec_bytes(), float_bits) is None && e@
                    == QueryErrorView::TypeMismatch(mismatch_message(*data_type, text@)),
            },
    {
        let s = text.as_bytes();
        match data_type {
            ColumnType::Integer => match parse_i64(s) {
                Some(n) => Ok(Value::Integer(n)),
                None => Err(
                    QueryError::TypeMismatch(String::from_str("Invalid integer value: ").concat(text)),
                ),
            },
            ColumnType::Float => match float_bits {
                Some(bits) => Ok(Value::Float(bits)),
                None => Err(
                    QueryError::TypeMismatch(String::from_str("Invalid float value: ").concat(text)),
                ),
            },
            ColumnType::Varchar(max_len) => {
                let (a, b) = unquoted(s);
                if b - a > *max_len {
                    let mut message = String::from_str("String value exceeds maximum length of ");
                    append_decimal(&mut message, *max_len as u64);
                    return Err(QueryError::TypeMismatch(message));
                }
                let mut bytes: Vec<u8> = Vec::new();
                let mut i: usize = a;
                while i < b
                    invariant
                        a <= i <= b <= s@.len(),
                        bytes@ == s@.subrange(a as int, i as int),
                    decreases b - i,
                {
                    bytes.push(s[i]);
                    proof {
                        assert(bytes@ =~= s@.subrange(a as int, i + 1));
                    }
                    i += 1;
                }
                Ok(Value::Varchar(bytes))
            },
            ColumnType::Boolean => {
                let (a, b) = unquoted(s);
                match read_boolean(slice_subrange(s, a, b)) {
                    Some(b) => Ok(Value::Boolean(b)),
                    None => Err(
                        QueryError::TypeMismatch(
                            String::from_str("Invalid boolean value: ").concat(text),
                        ),
                    ),
                }
            },
            ColumnType::Timestamp => match parse_i64(s) {
                Some(n) => Ok(Value::Timestamp(n)),
                None => Err(
                    QueryError::TypeMismatch(
                        String::from_str("Invalid timestamp value: ").concat(text),
                    ),
                ),
            },
        }
    }
}

/// The payload of a row: the bytes of its values, one after another.
pub fn encode_row(values: &Vec<Value>) -> (r: Vec<u8>)
    ensures
        r@ == encoded_row(value_views(values@)),
{
    let mut out: Vec<u8> = Vec::new();
    let mut i: usize = 0;
    let ghost all = value_views(values@);
    proof {
        assert(all.subrange(0, 0) =~= Seq::<ValueView>::empty());
    }
    while i < values.len()
        invariant
            i <= values@.len(),
            all == value_views(values@),
            out@ == encoded_row(all.subrange(0, i as int)),
        decreases values@.len() - i,
    {
        proof {
            assert(all.subrange(0, i + 1).drop_last() =~= all.subrange(0, i as int));
            assert(all.subrange(0, i + 1).last() == values@[i as int]@);
        }
        values[i].encode(&mut out);
        i += 1;
    }
    proof {
        assert(all.subrange(0, i as int) =~= all);
    }
    out
}

/// The bytes of the value that `value` stands for in `column`.
pub fn convert_value_to_bytes(value: &str, column: &Column, float_bits: Option<u64>) -> (r: Result<
    Vec<u8>,
    QueryError,
>)
    ensures
        match r {
            Ok(bytes) => value_of_text(column.data_type, value.spec_bytes(), float_bits) is Some
                && bytes@ == encoded(
                value_of_text(column.data_type, value.spec_bytes(), float_bits).unwrap(),
            ),
            Err(e) => value_of_text(column.data_type, value.spec_bytes(), float_bits) is None && e@
                == QueryErrorView::TypeMismatch(mismatch_message(column.data_type, value@)),
        },
{
    match Value::from_text(&column.data_type, value, float_bits) {
        Ok(v) => {
            let mut out: Vec<u8> = Vec::new();
            v.encode(&mut out);
            proof {
                assert(out@ =~= encoded(v@));
            }
            Ok(out)
        },
        Err(e) => Err(e),
    }
}

/// The values of a row with these columns, read from a payload.
pub fn decode_row(columns: &Vec<Column>, data: &[u8]) -> (r: Vec<Value>)
    ensures
        value_views(r@) == decoded_row(column_types(columns@), data@),
{
    let ghost types = column_types(columns@);
    let mut out: Vec<Value> = Vec::new();
    let mut k: usize = 0;
    let mut offset: usize = 0;
    let ghost mut at: int = 0;
    let n = data.len();
    proof {
        assert(value_views(out@) =~= Seq::<ValueView>::empty());
    }
    while k < columns.len()
        invariant
            k <= columns@.len(),
            n == data@.len(),
            types == column_types(columns@),
            0 <= at,
            offset == if at <= usize::MAX {
                at
            } else {
                usize::MAX as int
            },
            decoded_row(types, data@) == value_views(out@) + decoded_from(types, data@, k as int, at),
        decreases columns@.len() - k,
    {
        let ghost before = value_views(out@);
        let ghost step = decoded_at(types[k as int], data@, at);
        proof {
            assert(types[k as int] == columns@[k as int].data_type);
        }
        let value = match columns[k].data_type {
            ColumnType::Integer => {
                if offset <= n && n - offset >= 8 {
                    let v = Value::Integer(from_bits(read_be64(data, offset)));
                    offset = offset + 8;
                    v
                } else {
                    offset = offset.saturating_add(8);
                    Value::Integer(0)
                }
            },
            ColumnType::Float => {
                if offset <= n && n - offset >= 8 {
                    let v = Value::Float(read_be64(data, offset));
                    offset = offset + 8;
                    v
                } else {
                    offset = offset.saturating_add(8);
                    Value::Float(0)
                }
            },
            ColumnType::Varchar(_) => {
                if offset <= n && n - offset >= 4 {
                    let length = read_be32(data, offset) as usize;
                    offset = offset + 4;
                    if n - offset >= length {
                        let mut text: Vec<u8> = Vec::new();
                        let mut i: usize = 0;
                        while i < length
                            invariant
                                i <= length,
                                offset + length <= n,
                                n == data@.len(),
                                text@ == data@.subrange(offset as int, offset + i),
                            decreases length - i,
                        {
                            text.push(data[offset + i]);
                            proof {
                                assert(text@ =~= data@.subrange(offset as int, offset + i + 1));
                            }
                            i += 1;
                        }
                        offset = offset + length;
                        Value::Varchar(text)
                    } else {
                        offset = offset.saturating_add(length);
                        Value::Varchar(Vec::new())
                    }
                } else {
                    offset = offset.saturating_add(4);
                    Value::Varchar(Vec::new())
                }
            },
            ColumnType::Boolean => {
                let v = Value::Boolean(offset < n && data[offset] == 1);
                offset = offset.saturating_add(1);
                v
            },
            ColumnType::Timestamp => {
                if offset <= n && n - offset >= 8 {
                    let v = Value::Timestamp(from_bits(read_be64(data, offset)));
                    offset = offset + 8;
                    v
                } else {
                    offset = offset.saturating_add(8);
                    Value::Timestamp(0)
                }
            },
        };
        proof {
            assert(value@ == step.0);
            at = step.1;
        }
        out.push(value);
        proof {
            assert(value_views(out@) =~= before.push(step.0));
            assert(before.push(step.0) + decoded_from(types, data@, k + 1, step.1) =~= before + (
            seq![step.0] + decoded_from(types, data@, k + 1, step.1)));
        }
        k += 1;
    }
    proof {
        assert(decoded_from(types, data@, k as int, at) =~= Seq::<ValueView>::empty());
        assert(value_views(out@) + Seq::<ValueView>::empty() =~= value_views(out@));
    }
    out
}

/// The values of the record, read with the columns of the table.
pub fn parse_record_data(record: &Record, table: &Table) -> (r: Vec<Value>)
    ensures
        value_views(r@) == decoded_row(column_types(table.columns@), record.data@),
{
    decode_row(&table.columns, record.data.as_slice())
}

/// The text that `String::from_utf8_lossy` makes of `bytes`.
pub uninterp spec fn utf8_lossy(bytes: Seq<u8>) -> Seq<char>;

/// Calls `String::from_utf8_lossy` and owns the result. The contract names
/// the text, and says that bytes that are well-formed UTF-8 give the text
/// that they encode.
#[verifier::external_body]
fn lossy_text(bytes: &[u8]) -> (r: String)
    ensures
        r@ == utf8_lossy(bytes@),
        valid_utf8(bytes@) ==> r@ == decode_utf8(bytes@),
{
    String::from_utf8_lossy(bytes).into_owned()
}

/// A value as the user reads it.
pub open spec fn text_of(v: ValueView) -> Option<Seq<char>> {
    match v {
        ValueView::Integer(n) => Some(signed_decimal_chars(n as int)),
        ValueView::Float(_) => None,
        ValueView::Varchar(text) => Some(utf8_lossy(text)),
        ValueView::Boolean(b) => Some(
            if b {
                "true"@
            } else {
                "false"@
            },
        ),
        ValueView::Timestamp(n) => Some(signed_decimal_chars(n as int)),
    }
}

/// Appends a whole number in decimal.
fn append_signed(out: &mut String, v: i64)
    ensures
        final(out)@ == old(out)@ + signed_decimal_chars(v as int),
{
    if v >= 0 {
        append_decimal(out, v as u64);
    } else {
        proof {
            reveal_strlit("-");
        }
        out.append("-");
        let magnitude: u64 = if v == i64::MIN {
            0x8000_0000_0000_0000
        } else {
            (-v) as u64
        };
        append_decimal(out, magnitude);
        proof {
            assert(out@ =~= old(out)@ + signed_decimal_chars(v as int));
        }
    }
}

impl Value {
    /// The value as the user reads it: a number in decimal, a text as it is,
    /// `true` or `false`. A floating-point number has no text here: the
    /// caller writes it from its bit pattern.
    pub fn to_text(&self) -> (r: Option<String>)
        ensures
            match r {
                Some(text) => text_of(self@) == Some(text@),
                None => text_of(self@) is None,
            },
            match (self@, r) {
                (ValueView::Varchar(bytes), Some(text)) => valid_utf8(bytes) ==> text@ == decode_utf8(
                    bytes,
                ),
                _ => true,
            },
    {
        match self {
            Value::Integer(n) => {
                let mut out = String::new();
                append_signed(&mut out, *n);
                proof {
                    assert(out@ =~= signed_decimal_chars(*n as int));
                }
                Some(out)
            },
            Value::Float(_) => None,
            Value::Varchar(text) => Some(lossy_text(text.as_slice())),
            Value::Boolean(b) => Some(String::from_str(if *b { "true" } else { "false" })),
            Value::Timestamp(n) => {
                let mut out = String::new();
                append_signed(&mut out, *n);
                proof {
                    assert(out@ =~= signed_decimal_chars(*n as int));
                }
                Some(out)
            },
        }
    }
}

impl PartialEq for Value {
    fn eq(&self, other: &Self) -> (r: bool) {
        match (self, other) {
            (Value::Integer(a), Value::Integer(b)) => *a == *b,
            (Value::Float(a), Value::Float(b)) => *a == *b,
            (Value::Varchar(a), Value::Varchar(b)) => same_bytes(a, b),
            (Value::Boolean(a), Value::Boolean(b)) => *a == *b,
            (Value::Timestamp(a), Value::Timestamp(b)) => *a == *b,
            _ => false,
        }
    }
}

impl PartialEqSpecImpl for Value {
    open spec fn obeys_eq_spec() -> bool {
        true
    }

    open spec fn eq_spec(&self, other: &Self) -> bool {
        self@ == other@
    }
}

/// The payload of the first values of a row is the start of the payload of
/// the row.
proof fn lemma_row_prefix(values: Seq<ValueView>, k: int)
    requires
        0 <= k <= values.len(),
    ensures
        encoded_row(values.subrange(0, k)).len() <= encoded_row(values).len(),
        encoded_row(values).subrange(0, encoded_row(values.subrange(0, k)).len() as int)
            == encoded_row(values.subrange(0, k)),
    decreases values.len(),
{
    if k == values.len() {
        assert(values.subrange(0, k) =~= values);
        assert(encoded_row(values).subrange(0, encoded_row(values).len() as int) =~= encoded_row(
            values,
        ));
    } else {
        let rest = values.drop_last();
        lemma_row_prefix(rest, k);
        assert(rest.subrange(0, k) =~= values.subrange(0, k));
        let head = encoded_row(values.subrange(0, k));
        assert(encoded_row(values).subrange(0, head.len() as int) =~= encoded_row(rest).subrange(
            0,
            head.len() as int,
        ));
    }
}

/// A value that conforms to its column is read as it was written.
proof fn lemma_decode_value(t: ColumnType, v: ValueView, data: Seq<u8>, offset: int)
    requires
        conforms(t, v),
        0 <= offset,
        offset + encoded(v).len() <= data.len(),
        data.subrange(offset, offset + encoded(v).len()) == encoded(v),
    ensures
        decoded_at(t, data, offset) == (v, offset + encoded(v).len()),
{
    let e = encoded(v);
    match v {
        ValueView::Integer(n) => {
            lemma_be64_round_trip(bits_of(n));
            lemma_bits_round_trip(n);
        },
        ValueView::Float(bits) => {
            lemma_be64_round_trip(bits);
        },
        ValueView::Varchar(text) => {
            let length = (text.len() % 0x1_0000_0000) as u32;
            lemma_be32_round_trip(length);
            assert(e.len() == 4 + text.len());
            assert(data.subrange(offset, offset + 4) =~= be32(length)) by {
                assert forall|i: int| 0 <= i < 4 implies data.subrange(offset, offset + 4)[i] == be32(
                    length,
                )[i] by {
                    assert(data.subrange(offset, offset + e.len())[i] == e[i]);
                }
            }
            assert(data.subrange(offset + 4, offset + 4 + text.len()) =~= text) by {
                assert forall|i: int| 0 <= i < text.len() implies data.subrange(
                    offset + 4,
                    offset + 4 + text.len(),
                )[i] == text[i] by {
                    assert(data.subrange(offset, offset + e.len())[4 + i] == e[4 + i]);
                }
            }
        },
        ValueView::Boolean(b) => {
            assert(data.subrange(offset, offset + 1)[0] == e[0]);
        },
        ValueView::Timestamp(n) => {
            lemma_be64_round_trip(bits_of(n));
            lemma_bits_round_trip(n);
        },
    }
}

proof fn lemma_round_trip_from(types: Seq<ColumnType>, values: Seq<ValueView>, k: int)
    requires
        types.len() == values.len(),
        forall|i: int| 0 <= i < values.len() ==> conforms(#[trigger] types[i], values[i]),
        0 <= k <= values.len(),
    ensures
        decoded_from(
            types,
            encoded_row(values),
            k,
            encoded_row(values.subrange(0, k)).len() as int,
        ) == values.subrange(k, values.len() as int),
    decreases values.len() - k,
{
    let data = encoded_row(values);
    let n = values.len() as int;
    if k == n {
        assert(values.subrange(k, n) =~= Seq::<ValueView>::empty());
    } else {
        let head = encoded_row(values.subrange(0, k));
        let next = encoded_row(values.subrange(0, k + 1));
        let v = values[k];
        assert(values.subrange(0, k + 1).drop_last() =~= values.subrange(0, k));
        assert(values.subrange(0, k + 1).last() == v);
        assert(next == head + encoded(v));
        lemma_row_prefix(values, k + 1);
        let at = head.len() as int;
        let end = at + encoded(v).len();
        assert(data.subrange(at, end) =~= encoded(v)) by {
            assert forall|i: int| 0 <= i < encoded(v).len() implies data.subrange(at, end)[i]
                == encoded(v)[i] by {
                assert(data.subrange(0, next.len() as int)[at + i] == next[at + i]);
            }
        }
        assert(conforms(types[k], values[k]));
        lemma_decode_value(types[k], v, data, at);
        lemma_round_trip_from(types, values, k + 1);
        assert(seq![v] + values.subrange(k + 1, n) =~= values.subrange(k, n));
    }
}

/// The codec round trip: a row whose values conform to their columns is read
/// from its payload as it was written.
pub proof fn round_trip(types: Seq<ColumnType>, values: Seq<ValueView>)
    requires
        types.len() == values.len(),
        forall|i: int| 0 <= i < values.len() ==> conforms(#[trigger] types[i], values[i]),
    ensures
        decoded_row(types, encoded_row(values)) == values,
{
    lemma_round_trip_from(types, values, 0);
    assert(values.subrange(0, 0) =~= Seq::<ValueView>::empty());
    assert(values.subrange(0, values.len() as int) =~= values);
}

/// A whole number that was written as text is read back from the text.
pub proof fn number_text_round_trip(t: ColumnType, n: i64)
    requires
        t == ColumnType::Integer || t == ColumnType::Timestamp,
    ensures
        value_of_text(t, crate::text::signed_decimal(n as int), None) == Some(
            if t == ColumnType::Integer {
                ValueView::Integer(n)
            } else {
                ValueView::Timestamp(n)
            },
        ),
{
    crate::text::lemma_parse_signed(n);
}

} // verus!
