//! Column values and the record serialization format.
//!
//! A serialized record is a varint `header_size` (counting itself), one
//! serial-type varint per column, and then each column's payload in order.
//! A serial type names the storage of one value: 0 is NULL, 1 to 6 are
//! signed big-endian integers of 1, 2, 3, 4, 6 and 8 bytes, 7 is a
//! big-endian 64-bit float, 8 and 9 are the literal integers 0 and 1 stored
//! in no bytes, 10 and 11 are invalid, and an even (odd) value from 12 (13)
//! up is a blob (text) of `(n - 12) / 2` (`(n - 13) / 2`) bytes.

use crate::bytes::be_int;
use crate::bytes::be_uint;
use crate::bytes::bytes_eq;
use crate::bytes::str_eq;
use crate::bytes::read_be_int;
use crate::bytes::read_be_uint;
use crate::error::DbError;
use crate::bytes::be_digits;
use crate::bytes::lemma_be_digits_len;
use crate::bytes::lemma_be_uint_digits;
use crate::bytes::push_be_digits;
use crate::varint::enc_cont;
use crate::varint::i64_from_bits;
use crate::varint::lemma_enc_cont_len;
use crate::varint::lemma_varint_raw_cont;
use crate::varint::push_cont;
use crate::varint::raw_of_i64;
use crate::varint::spec_varint;
use crate::varint::u64_of_i64;
use crate::varint::varint_raw;
use crate::varint::VarInt;
use vstd::arithmetic::power2::pow2;
use vstd::prelude::*;
use vstd::slice::*;

verus! {

/// The mathematical model of a column value.  A float is carried as the 64
/// raw bits of its big-endian storage; the reader never does float
/// arithmetic.
pub enum SpecVal {
    Null,
    Int(i64),
    Real(u64),
    Text(Seq<u8>),
    Blob(Seq<u8>),
}

/// A column value: NULL, a signed integer, a float (held as its 64 raw
/// bits), a text payload, or a blob payload.
#[derive(Debug)]
pub enum Value {
    Null,
    Integer(i64),
    Real(u64),
    Text(Vec<u8>),
    Blob(Vec<u8>),
}

impl View for Value {
    type V = SpecVal;

    open spec fn view(&self) -> SpecVal {
        match self {
            Value::Null => SpecVal::Null,
            Value::Integer(n) => SpecVal::Int(*n),
            Value::Real(b) => SpecVal::Real(*b),
            Value::Text(b) => SpecVal::Text(b@),
            Value::Blob(b) => SpecVal::Blob(b@),
        }
    }
}

/// Value equality: same tag and same payload, except that a text and a blob
/// compare equal when their byte sequences match, and NULL equals nothing,
/// not even itself.
pub open spec fn spec_value_eq(a: SpecVal, b: SpecVal) -> bool {
    match a {
        SpecVal::Null => false,
        SpecVal::Int(x) => b matches SpecVal::Int(y) && x == y,
        SpecVal::Real(x) => b matches SpecVal::Real(y) && x == y,
        SpecVal::Text(x) => match b {
            SpecVal::Text(y) => x == y,
            SpecVal::Blob(y) => x == y,
            _ => false,
        },
        SpecVal::Blob(x) => match b {
            SpecVal::Text(y) => x == y,
            SpecVal::Blob(y) => x == y,
            _ => false,
        },
    }
}

impl PartialEq for Value {
    fn eq(&self, other: &Self) -> (r: bool) {
        match self {
            Value::Null => false,
            Value::Integer(x) => match other {
                Value::Integer(y) => *x == *y,
                _ => false,
            },
            Value::Real(x) => match other {
                Value::Real(y) => *x == *y,
                _ => false,
            },
            Value::Text(x) => match other {
                Value::Text(y) => bytes_eq(x.as_slice(), y.as_slice()),
                Value::Blob(y) => bytes_eq(x.as_slice(), y.as_slice()),
                _ => false,
            },
            Value::Blob(x) => match other {
                Value::Text(y) => bytes_eq(x.as_slice(), y.as_slice()),
                Value::Blob(y) => bytes_eq(x.as_slice(), y.as_slice()),
                _ => false,
            },
        }
    }
}

impl vstd::std_specs::cmp::PartialEqSpecImpl for Value {
    open spec fn obeys_eq_spec() -> bool {
        true
    }

    open spec fn eq_spec(&self, other: &Value) -> bool {
        spec_value_eq(self@, other@)
    }
}

/// Law: value equality is reflexive for every non-NULL value, and NULL is
/// equal to nothing, itself included.
pub proof fn lemma_value_eq_reflexive(v: SpecVal)
    ensures
        v is Null ==> !spec_value_eq(v, v),
        !(v is Null) ==> spec_value_eq(v, v),
{
}

impl Value {
    /// An owned copy with the same content.
    pub fn dup(&self) -> (r: Self)
        ensures
            r@ == self@,
    {
        match self {
            Value::Null => Value::Null,
            Value::Integer(n) => Value::Integer(*n),
            Value::Real(b) => Value::Real(*b),
            Value::Text(b) => Value::Text(slice_to_vec(b.as_slice())),
            Value::Blob(b) => Value::Blob(slice_to_vec(b.as_slice())),
        }
    }

    /// The integer payload, when the value is an integer.
    pub fn as_integer(&self) -> (r: Option<i64>)
        ensures
            match self@ {
                SpecVal::Int(n) => r == Some(n),
                _ => r is None,
            },
    {
        match self {
            Value::Integer(n) => Some(*n),
            _ => None,
        }
    }

    /// The raw 64 bits of the float payload, when the value is a float.
    pub fn as_real(&self) -> (r: Option<u64>)
        ensures
            match self@ {
                SpecVal::Real(b) => r == Some(b),
                _ => r is None,
            },
    {
        match self {
            Value::Real(b) => Some(*b),
            _ => None,
        }
    }

    /// The text payload bytes, when the value is text.
    pub fn as_text(&self) -> (r: Option<&Vec<u8>>)
        ensures
            match self@ {
                SpecVal::Text(b) => r matches Some(v) && v@ == b,
                _ => r is None,
            },
    {
        match self {
            Value::Text(b) => Some(b),
            _ => None,
        }
    }

    /// The blob payload bytes, when the value is a blob.
    pub fn as_blob(&self) -> (r: Option<&Vec<u8>>)
        ensures
            match self@ {
                SpecVal::Blob(b) => r matches Some(v) && v@ == b,
                _ => r is None,
            },
    {
        match self {
            Value::Blob(b) => Some(b),
            _ => None,
        }
    }
}

/// The decimal digits of a non-negative number, most significant first.
pub open spec fn dec_digits(n: int) -> Seq<u8>
    decreases n,
{
    if n < 10 {
        seq![(48 + n) as u8]
    } else {
        dec_digits(n / 10).push((48 + n % 10) as u8)
    }
}

/// The decimal rendering of an integer: a minus sign for a negative value,
/// then its digits.
pub open spec fn spec_dec_repr(v: int) -> Seq<u8> {
    if v < 0 {
        seq![45u8] + dec_digits(-v)
    } else {
        dec_digits(v)
    }
}

/// The byte rendering of a value: `null` for NULL, decimal digits for an
/// integer, and the raw payload for text and blob.  A float has no rendering
/// here; rendering it is the caller's business.
pub open spec fn spec_render(v: SpecVal) -> Seq<u8> {
    match v {
        SpecVal::Null => seq![110u8, 117u8, 108u8, 108u8],
        SpecVal::Int(n) => spec_dec_repr(n as int),
        SpecVal::Real(_) => Seq::empty(),
        SpecVal::Text(b) => b,
        SpecVal::Blob(b) => b,
    }
}

/// Appends the decimal digits of `n`.
fn push_digits(n: u64, out: &mut Vec<u8>)
    ensures
        final(out)@ == old(out)@ + dec_digits(n as int),
    decreases n,
{
    if n < 10 {
        out.push(48 + n as u8);
        assert(out@ =~= old(out)@ + dec_digits(n as int));
    } else {
        push_digits(n / 10, out);
        out.push(48 + (n % 10) as u8);
        assert(out@ =~= old(out)@ + dec_digits(n as int));
    }
}

/// The decimal rendering of a signed 64-bit integer.
pub fn format_i64(v: i64) -> (out: Vec<u8>)
    ensures
        out@ == spec_dec_repr(v as int),
{
    let mut out: Vec<u8> = Vec::new();
    if v < 0 {
        out.push(45);
        let mag: u64 = if v == i64::MIN {
            0x8000000000000000
        } else {
            (-v) as u64
        };
        assert(mag as int == -(v as int));
        push_digits(mag, &mut out);
        assert(out@ =~= seq![45u8] + dec_digits(-(v as int)));
    } else {
        push_digits(v as u64, &mut out);
        assert(out@ =~= dec_digits(v as int));
    }
    out
}

impl Value {
    /// Render the value as bytes: `null`, decimal digits, or the raw
    /// payload.  Floats are left to the caller, which holds their bits.
    pub fn render(&self) -> (out: Vec<u8>)
        requires
            !(self@ is Real),
        ensures
            out@ == spec_render(self@),
    {
        match self {
            Value::Null => {
                let mut out: Vec<u8> = Vec::new();
                out.push(110);
                out.push(117);
                out.push(108);
                out.push(108);
                assert(out@ =~= spec_render(self@));
                out
            },
            Value::Integer(n) => format_i64(*n),
            Value::Real(_) => Vec::new(),
            Value::Text(b) => slice_to_vec(b.as_slice()),
            Value::Blob(b) => slice_to_vec(b.as_slice()),
        }
    }
}


/// The storage class named by one serial type, with payload sizes resolved.
#[derive(Debug, Clone, Copy, PartialEq, Eq, Structural)]
pub enum ColumnType {
    Null,
    I8,
    I16,
    I24,
    I32,
    I48,
    I64,
    F64,
    Zero,
    One,
    Blob(usize),
    Text(usize),
}

/// The storage class of a serial-type code.  The reserved codes 10 and 11
/// and every negative code are errors; an even (odd) code from 12 (13) up
/// is a blob (text) whose byte count is half the excess.
pub open spec fn spec_column_type(code: int) -> Result<ColumnType, DbError> {
    if code == 0 {
        Ok(ColumnType::Null)
    } else if code == 1 {
        Ok(ColumnType::I8)
    } else if code == 2 {
        Ok(ColumnType::I16)
    } else if code == 3 {
        Ok(ColumnType::I24)
    } else if code == 4 {
        Ok(ColumnType::I32)
    } else if code == 5 {
        Ok(ColumnType::I48)
    } else if code == 6 {
        Ok(ColumnType::I64)
    } else if code == 7 {
        Ok(ColumnType::F64)
    } else if code == 8 {
        Ok(ColumnType::Zero)
    } else if code == 9 {
        Ok(ColumnType::One)
    } else if code < 0 || code == 10 || code == 11 {
        Err(DbError::MalformedRecord)
    } else if (code - 12) / 2 > usize::MAX {
        Err(DbError::MalformedRecord)
    } else if code % 2 == 0 {
        Ok(ColumnType::Blob(((code - 12) / 2) as usize))
    } else {
        Ok(ColumnType::Text(((code - 13) / 2) as usize))
    }
}

/// The count of payload bytes stored for one storage class.
pub open spec fn spec_type_size(t: ColumnType) -> int {
    match t {
        ColumnType::Null => 0,
        ColumnType::I8 => 1,
        ColumnType::I16 => 2,
        ColumnType::I24 => 3,
        ColumnType::I32 => 4,
        ColumnType::I48 => 6,
        ColumnType::I64 => 8,
        ColumnType::F64 => 8,
        ColumnType::Zero => 0,
        ColumnType::One => 0,
        ColumnType::Blob(n) => n as int,
        ColumnType::Text(n) => n as int,
    }
}

impl ColumnType {
    /// Resolve a serial-type code to its storage class.
    pub fn from_serial(code: i64) -> (r: Result<ColumnType, DbError>)
        ensures
            r == spec_column_type(code as int),
    {
        if code == 0 {
            Ok(ColumnType::Null)
        } else if code == 1 {
            Ok(ColumnType::I8)
        } else if code == 2 {
            Ok(ColumnType::I16)
        } else if code == 3 {
            Ok(ColumnType::I24)
        } else if code == 4 {
            Ok(ColumnType::I32)
        } else if code == 5 {
            Ok(ColumnType::I48)
        } else if code == 6 {
            Ok(ColumnType::I64)
        } else if code == 7 {
            Ok(ColumnType::F64)
        } else if code == 8 {
            Ok(ColumnType::Zero)
        } else if code == 9 {
            Ok(ColumnType::One)
        } else if code < 0 || code == 10 || code == 11 {
            Err(DbError::MalformedRecord)
        } else {
            let half = (code - 12) / 2;
            if half as u64 > usize::MAX as u64 {
                Err(DbError::MalformedRecord)
            } else if code % 2 == 0 {
                Ok(ColumnType::Blob(half as usize))
            } else {
                proof {
                    vstd::arithmetic::div_mod::lemma_div_is_ordered(
                        code - 13,
                        code - 12,
                        2,
                    );
                }
                Ok(ColumnType::Text(((code - 13) / 2) as usize))
            }
        }
    }

    /// The count of payload bytes this storage class occupies.
    pub fn size(&self) -> (r: usize)
        ensures
            r as int == spec_type_size(*self),
    {
        match self {
            ColumnType::Null => 0,
            ColumnType::I8 => 1,
            ColumnType::I16 => 2,
            ColumnType::I24 => 3,
            ColumnType::I32 => 4,
            ColumnType::I48 => 6,
            ColumnType::I64 => 8,
            ColumnType::F64 => 8,
            ColumnType::Zero => 0,
            ColumnType::One => 0,
            ColumnType::Blob(n) => *n,
            ColumnType::Text(n) => *n,
        }
    }
}


/// The serial types read one varint at a time from `pos` up to exactly
/// `end`, the end of the record header.
pub open spec fn spec_serial_types(s: Seq<u8>, pos: int, end: int) -> Result<
    Seq<ColumnType>,
    DbError,
>
    decreases end - pos,
{
    if pos == end {
        Ok(Seq::empty())
    } else if pos > end {
        Err(DbError::MalformedRecord)
    } else {
        match spec_varint(s, pos) {
            None => Err(DbError::MalformedRecord),
            Some((code, k)) => {
                if k < 1 || pos + k > end {
                    Err(DbError::MalformedRecord)
                } else {
                    match spec_column_type(code as int) {
                        Err(e) => Err(e),
                        Ok(t) => match spec_serial_types(s, pos + k, end) {
                            Err(e) => Err(e),
                            Ok(rest) => Ok(seq![t] + rest),
                        },
                    }
                }
            },
        }
    }
}

/// The value stored at `pos` under storage class `t`.
pub open spec fn spec_value_at(s: Seq<u8>, pos: int, t: ColumnType) -> SpecVal {
    match t {
        ColumnType::Null => SpecVal::Null,
        ColumnType::I8 => SpecVal::Int(be_int(s, pos, 1) as i64),
        ColumnType::I16 => SpecVal::Int(be_int(s, pos, 2) as i64),
        ColumnType::I24 => SpecVal::Int(be_int(s, pos, 3) as i64),
        ColumnType::I32 => SpecVal::Int(be_int(s, pos, 4) as i64),
        ColumnType::I48 => SpecVal::Int(be_int(s, pos, 6) as i64),
        ColumnType::I64 => SpecVal::Int(be_int(s, pos, 8) as i64),
        ColumnType::F64 => SpecVal::Real(be_uint(s, pos, 8) as u64),
        ColumnType::Zero => SpecVal::Int(0),
        ColumnType::One => SpecVal::Int(1),
        ColumnType::Blob(n) => SpecVal::Blob(s.subrange(pos, pos + n)),
        ColumnType::Text(n) => SpecVal::Text(s.subrange(pos, pos + n)),
    }
}

/// The values of the listed storage classes read consecutively from `pos`,
/// and the position after the last payload byte.
pub open spec fn spec_values(s: Seq<u8>, pos: int, ts: Seq<ColumnType>) -> Result<
    (Seq<SpecVal>, int),
    DbError,
>
    decreases ts.len(),
{
    if ts.len() == 0 {
        Ok((Seq::empty(), pos))
    } else if pos < 0 || pos + spec_type_size(ts[0]) > s.len() {
        Err(DbError::MalformedRecord)
    } else {
        match spec_values(s, pos + spec_type_size(ts[0]), ts.drop_first()) {
            Err(e) => Err(e),
            Ok((vs, end)) => Ok((seq![spec_value_at(s, pos, ts[0])] + vs, end)),
        }
    }
}

/// One serialized record at `pos`: its column values in order and the count
/// of bytes consumed.  The header size includes its own varint; the count
/// of serial types must equal `ncols`.
pub open spec fn spec_record(s: Seq<u8>, pos: int, ncols: int) -> Result<
    (Seq<SpecVal>, int),
    DbError,
> {
    match spec_varint(s, pos) {
        None => Err(DbError::MalformedRecord),
        Some((h, hlen)) => {
            if h < hlen || pos + h > s.len() {
                Err(DbError::MalformedRecord)
            } else {
                match spec_serial_types(s, pos + hlen, pos + h) {
                    Err(e) => Err(e),
                    Ok(ts) => {
                        if ts.len() != ncols {
                            Err(DbError::MalformedRecord)
                        } else {
                            match spec_values(s, pos + h, ts) {
                                Err(e) => Err(e),
                                Ok((vals, end)) => Ok((vals, end - pos)),
                            }
                        }
                    },
                }
            }
        },
    }
}

/// An ordered row: column names paired with their values, in the order in
/// which the column list was supplied.
#[derive(Debug)]
pub struct Record {
    pub values: Vec<(String, Value)>,
}

impl View for Record {
    type V = Seq<(Seq<char>, SpecVal)>;

    open spec fn view(&self) -> Seq<(Seq<char>, SpecVal)> {
        Seq::new(self.values@.len(), |i: int| (self.values@[i].0@, self.values@[i].1@))
    }
}

/// Names zipped with values, index by index.
pub open spec fn spec_pairs(names: Seq<Seq<char>>, vals: Seq<SpecVal>) -> Seq<
    (Seq<char>, SpecVal),
> {
    Seq::new(
        names.len(),
        |i: int|
            (
                names[i],
                if 0 <= i < vals.len() {
                    vals[i]
                } else {
                    SpecVal::Null
                },
            ),
    )
}

/// The first value listed under `name`.
pub open spec fn spec_lookup(pairs: Seq<(Seq<char>, SpecVal)>, name: Seq<char>) -> Option<SpecVal>
    decreases pairs.len(),
{
    if pairs.len() == 0 {
        None
    } else if pairs[0].0 == name {
        Some(pairs[0].1)
    } else {
        spec_lookup(pairs.drop_first(), name)
    }
}

impl Record {
    /// The first value stored under `name`, if any.
    pub fn get(&self, name: &str) -> (r: Option<&Value>)
        ensures
            match r {
                Some(v) => spec_lookup(self@, name@) == Some(v@),
                None => spec_lookup(self@, name@) is None,
            },
    {
        let n = self.values.len();
        let mut i: usize = 0;
        proof {
            assert(self@.skip(0) =~= self@);
        }
        while i < n
            invariant
                i <= n,
                n == self.values@.len(),
                spec_lookup(self@, name@) == spec_lookup(self@.skip(i as int), name@),
            decreases n - i,
        {
            proof {
                assert(self@.skip(i as int).len() == n - i);
                assert(self@.skip(i as int)[0] == self@[i as int]);
                assert(self@.skip(i as int).drop_first() =~= self@.skip(i as int + 1));
            }
            if str_eq(self.values[i].0.as_str(), name) {
                return Some(&self.values[i].1);
            }
            i = i + 1;
        }
        assert(self@.skip(n as int) =~= Seq::empty());
        None
    }
}

/// Read one value of storage class `t` at `pos`.
fn read_value(input: &[u8], pos: usize, t: ColumnType) -> (r: Value)
    requires
        pos + spec_type_size(t) <= input@.len(),
    ensures
        r@ == spec_value_at(input@, pos as int, t),
{
    let n0 = input.len();
    match t {
        ColumnType::Null => Value::Null,
        ColumnType::I8 => Value::Integer(read_be_int(input, pos, 1)),
        ColumnType::I16 => Value::Integer(read_be_int(input, pos, 2)),
        ColumnType::I24 => Value::Integer(read_be_int(input, pos, 3)),
        ColumnType::I32 => Value::Integer(read_be_int(input, pos, 4)),
        ColumnType::I48 => Value::Integer(read_be_int(input, pos, 6)),
        ColumnType::I64 => Value::Integer(read_be_int(input, pos, 8)),
        ColumnType::F64 => Value::Real(read_be_uint(input, pos, 8)),
        ColumnType::Zero => Value::Integer(0),
        ColumnType::One => Value::Integer(1),
        ColumnType::Blob(sz) => Value::Blob(slice_to_vec(slice_subrange(input, pos, pos + sz))),
        ColumnType::Text(sz) => Value::Text(slice_to_vec(slice_subrange(input, pos, pos + sz))),
    }
}


/// Once the header varint is read and bounded, the record spec is decided
/// by the serial types and the values alone.
proof fn lemma_record_shape(s: Seq<u8>, pos: int, ncols: int, h: i64, hlen: int)
    requires
        spec_varint(s, pos) == Some((h, hlen)),
        h >= hlen,
        pos + h <= s.len(),
    ensures
        spec_record(s, pos, ncols) == (match spec_serial_types(s, pos + hlen, pos + h) {
            Err(e) => Err(e),
            Ok(ts2) => {
                if ts2.len() != ncols {
                    Err(DbError::MalformedRecord)
                } else {
                    match spec_values(s, pos + h, ts2) {
                        Err(e) => Err(e),
                        Ok((vals, vend)) => Ok((vals, vend - pos)),
                    }
                }
            },
        }),
{
}

impl Record {
    /// Decode the record that starts at `input[pos]`, pairing each decoded
    /// value with the column name at the same index.
    pub fn parse(input: &[u8], pos: usize, column_names: &Vec<String>) -> (r: Result<
        (Record, usize),
        DbError,
    >)
        ensures
            match r {
                Ok((rec, consumed)) => match spec_record(
                    input@,
                    pos as int,
                    column_names@.len() as int,
                ) {
                    Ok((vals, c)) => {
                        &&& consumed == c
                        &&& pos + consumed <= input@.len()
                        &&& rec@ == spec_pairs(column_names@.map(|i, n: String| n@), vals)
                    },
                    Err(_) => false,
                },
                Err(e) => spec_record(input@, pos as int, column_names@.len() as int) matches Err(
                    e2,
                ) && e == e2,
            },
    {
        let ghost s = input@;
        let ghost ncols = column_names@.len() as int;
        let n0 = input.len();
        let (hv, hlen) = match VarInt::parse(input, pos) {
            Ok(x) => x,
            Err(e) => {
                return Err(e);
            },
        };
        let h = hv.0;
        if h < hlen as i64 {
            return Err(DbError::MalformedRecord);
        }
        if (h as u64) > ((n0 - pos) as u64) {
            return Err(DbError::MalformedRecord);
        }
        let hs = h as usize;
        let end = pos + hs;
        proof {
            assert(spec_record(s, pos as int, ncols) == (match spec_serial_types(
                s,
                (pos + hlen) as int,
                end as int,
            ) {
                Err(e) => Err(e),
                Ok(ts2) => {
                    if ts2.len() != ncols {
                        Err(DbError::MalformedRecord)
                    } else {
                        match spec_values(s, end as int, ts2) {
                            Err(e) => Err(e),
                            Ok((vals, vend)) => Ok((vals, vend - pos)),
                        }
                    }
                },
            }));
            match spec_serial_types(s, (pos + hlen) as int, end as int) {
                Ok(rest) => {
                    assert(Seq::<ColumnType>::empty() + rest =~= rest);
                },
                Err(_) => {},
            }
        }
        let mut cur = pos + hlen;
        let mut types: Vec<ColumnType> = Vec::new();
        while cur < end
            invariant
                pos + hlen <= cur <= end,
                end == pos + hs,
                hs == h,
                h >= hlen,
                1 <= hlen <= 9,
                pos + hs <= n0,
                n0 == s.len(),
                s == input@,
                spec_varint(s, pos as int) == Some((h, hlen as int)),
                match spec_serial_types(s, cur as int, end as int) {
                    Ok(rest) => spec_serial_types(s, (pos + hlen) as int, end as int)
                        == Ok::<Seq<ColumnType>, DbError>(types@ + rest),
                    Err(e) => spec_serial_types(s, (pos + hlen) as int, end as int) matches Err(e2)
                        && e == e2,
                },
            decreases end - cur,
        {
            let (cv, ck) = match VarInt::parse(input, cur) {
                Ok(x) => x,
                Err(e) => {
                    proof {
                        assert(spec_serial_types(s, cur as int, end as int) matches Err(e2) && e2
                            == DbError::MalformedRecord);
                        lemma_record_shape(s, pos as int, ncols, h, hlen as int);
                    }
                    return Err(e);
                },
            };
            if cur + ck > end {
                proof {
                    assert(spec_serial_types(s, cur as int, end as int) matches Err(e2) && e2
                        == DbError::MalformedRecord);
                    lemma_record_shape(s, pos as int, ncols, h, hlen as int);
                }
                return Err(DbError::MalformedRecord);
            }
            let t = match ColumnType::from_serial(cv.0) {
                Ok(t) => t,
                Err(e) => {
                    proof {
                        assert(spec_serial_types(s, cur as int, end as int) matches Err(e2) && e2
                            == e);
                        lemma_record_shape(s, pos as int, ncols, h, hlen as int);
                    }
                    return Err(e);
                },
            };
            let ghost types_old = types@;
            types.push(t);
            proof {
                match spec_serial_types(s, (cur + ck) as int, end as int) {
                    Ok(rest) => {
                        assert(spec_serial_types(s, cur as int, end as int)
                            == Ok::<Seq<ColumnType>, DbError>(seq![t] + rest));
                        assert(types_old + (seq![t] + rest) =~= types@ + rest);
                    },
                    Err(_) => {},
                }
            }
            cur = cur + ck;
        }
        assert(spec_serial_types(s, cur as int, end as int)
            == Ok::<Seq<ColumnType>, DbError>(Seq::empty()));
        assert(types@ + Seq::<ColumnType>::empty() =~= types@);
        if types.len() != column_names.len() {
            return Err(DbError::MalformedRecord);
        }
        let ghost ts = types@;
        let tcount = types.len();
        let mut vpos = end;
        let mut out: Vec<(String, Value)> = Vec::new();
        let mut i: usize = 0;
        proof {
            assert(ts.skip(0) =~= ts);
            match spec_values(s, end as int, ts) {
                Ok((vs, e2)) => {
                    assert(Seq::<SpecVal>::empty() + vs =~= vs);
                },
                Err(_) => {},
            }
            assert(out@.map(|k, p: (String, Value)| p.1@) =~= Seq::<SpecVal>::empty());
        }
        while i < tcount
            invariant
                i <= tcount,
                tcount == ts.len(),
                tcount == column_names@.len(),
                types@ == ts,
                tcount == types@.len(),
                end <= vpos <= n0,
                n0 == s.len(),
                s == input@,
                end == pos + hs,
                hs == h,
                h >= hlen,
                1 <= hlen <= 9,
                spec_varint(s, pos as int) == Some((h, hlen as int)),
                spec_serial_types(s, (pos + hlen) as int, end as int) == Ok::<
                    Seq<ColumnType>,
                    DbError,
                >(ts),
                ncols == column_names@.len(),
                out@.len() == i,
                forall|j: int| 0 <= j < i ==> out@[j].0@ == column_names@[j]@,
                match spec_values(s, vpos as int, ts.skip(i as int)) {
                    Ok((vs, e2)) => spec_values(s, end as int, ts)
                        == Ok::<(Seq<SpecVal>, int), DbError>((out@.map(|k, p: (String, Value)| p.1@) + vs, e2)),
                    Err(e) => spec_values(s, end as int, ts) matches Err(e2) && e == e2,
                },
            decreases tcount - i,
        {
            proof {
                assert(ts.skip(i as int).len() == tcount - i);
                assert(ts.skip(i as int)[0] == ts[i as int]);
                assert(ts.skip(i as int).drop_first() =~= ts.skip(i as int + 1));
            }
            let t = types[i];
            let sz = t.size();
            if sz > n0 - vpos {
                proof {
                    assert(spec_values(s, vpos as int, ts.skip(i as int)) matches Err(e2) && e2
                        == DbError::MalformedRecord);
                    lemma_record_shape(s, pos as int, ncols, h, hlen as int);
                }
                return Err(DbError::MalformedRecord);
            }
            let v = read_value(input, vpos, t);
            let ghost out_old = out@;
            let name = column_names[i].clone();
            out.push((name, v));
            proof {
                let vals_old = out_old.map(|k, p: (String, Value)| p.1@);
                let vals_new = out@.map(|k, p: (String, Value)| p.1@);
                assert(vals_new =~= vals_old.push(v@));
                match spec_values(s, (vpos + sz) as int, ts.skip(i as int + 1)) {
                    Ok((vs, e2)) => {
                        assert(spec_values(s, vpos as int, ts.skip(i as int))
                            == Ok::<(Seq<SpecVal>, int), DbError>(
                            (seq![spec_value_at(s, vpos as int, ts[i as int])] + vs, e2)));
                        assert(vals_old + (seq![v@] + vs) =~= vals_new + vs);
                    },
                    Err(_) => {},
                }
            }
            vpos = vpos + sz;
            i = i + 1;
        }
        assert(ts.skip(tcount as int) =~= Seq::<ColumnType>::empty());
        assert(out@.map(|k, p: (String, Value)| p.1@) + Seq::<SpecVal>::empty() =~= out@.map(
            |k, p: (String, Value)| p.1@,
        ));
        let consumed = vpos - pos;
        let rec = Record { values: out };
        proof {
            let names = column_names@.map(|i2: int, n: String| n@);
            match spec_record(s, pos as int, ncols) {
                Ok((vals, c)) => {
                    assert(rec@ =~= spec_pairs(names, vals));
                },
                Err(_) => {},
            }
        }
        Ok((rec, consumed))
    }
}


/// The serial-type code the serializer uses for a value: NULL, the 8-byte
/// integer, the float, or a text or blob code carrying the payload length.
pub open spec fn spec_val_code(v: SpecVal) -> int {
    match v {
        SpecVal::Null => 0,
        SpecVal::Int(_) => 6,
        SpecVal::Real(_) => 7,
        SpecVal::Text(b) => 13 + 2 * b.len() as int,
        SpecVal::Blob(b) => 12 + 2 * b.len() as int,
    }
}

/// The storage class the serializer uses for a value.
pub open spec fn spec_val_type(v: SpecVal) -> ColumnType {
    match v {
        SpecVal::Null => ColumnType::Null,
        SpecVal::Int(_) => ColumnType::I64,
        SpecVal::Real(_) => ColumnType::F64,
        SpecVal::Text(b) => ColumnType::Text(b.len() as usize),
        SpecVal::Blob(b) => ColumnType::Blob(b.len() as usize),
    }
}

/// One payload's serialized bytes.
pub open spec fn payload_bytes(v: SpecVal) -> Seq<u8> {
    match v {
        SpecVal::Null => Seq::empty(),
        SpecVal::Int(n) => be_digits(u64_of_i64(n), 8),
        SpecVal::Real(b) => be_digits(b as int, 8),
        SpecVal::Text(b) => b,
        SpecVal::Blob(b) => b,
    }
}

/// A fixed nine-byte varint carrying the raw value `x`.
pub open spec fn vint9(x: int) -> Seq<u8> {
    enc_cont(x / 256, 8).push((x % 256) as u8)
}

/// The serial-type varints of the listed values, nine bytes each.
pub open spec fn codes_bytes(vals: Seq<SpecVal>) -> Seq<u8>
    decreases vals.len(),
{
    if vals.len() == 0 {
        Seq::empty()
    } else {
        vint9(spec_val_code(vals[0])) + codes_bytes(vals.drop_first())
    }
}

/// The payloads of the listed values, in order.
pub open spec fn payloads_bytes(vals: Seq<SpecVal>) -> Seq<u8>
    decreases vals.len(),
{
    if vals.len() == 0 {
        Seq::empty()
    } else {
        payload_bytes(vals[0]) + payloads_bytes(vals.drop_first())
    }
}

/// The storage classes the serializer picks, value by value.
pub open spec fn types_of(vals: Seq<SpecVal>) -> Seq<ColumnType> {
    Seq::new(vals.len(), |i: int| spec_val_type(vals[i]))
}

/// The total payload byte count of the listed values.
pub open spec fn sizes_total(vals: Seq<SpecVal>) -> int
    decreases vals.len(),
{
    if vals.len() == 0 {
        0
    } else {
        spec_type_size(spec_val_type(vals[0])) + sizes_total(vals.drop_first())
    }
}

/// A payload small enough that its serial-type code fits the varint and its
/// byte count fits an index.
pub open spec fn val_bounded(v: SpecVal) -> bool {
    match v {
        SpecVal::Text(b) => b.len() < 0x2000000000000000 && b.len() <= usize::MAX,
        SpecVal::Blob(b) => b.len() < 0x2000000000000000 && b.len() <= usize::MAX,
        _ => true,
    }
}

/// A row the serializer can lay out: a modest column count and bounded
/// payloads.
pub open spec fn rec_bounded(vals: Seq<SpecVal>) -> bool {
    &&& vals.len() <= 0x1000000
    &&& forall|i: int| 0 <= i < vals.len() ==> val_bounded(#[trigger] vals[i])
}

/// The serialized form of a row: a nine-byte header-size varint, one
/// nine-byte serial-type varint per value, then the payloads.
pub open spec fn spec_serialized(vals: Seq<SpecVal>) -> Seq<u8> {
    vint9(9 * (vals.len() + 1) as int) + codes_bytes(vals) + payloads_bytes(vals)
}

pub proof fn lemma_codes_bytes_len(vals: Seq<SpecVal>)
    ensures
        codes_bytes(vals).len() == 9 * vals.len(),
    decreases vals.len(),
{
    if vals.len() > 0 {
        lemma_enc_cont_len(spec_val_code(vals[0]) / 256, 8);
        lemma_codes_bytes_len(vals.drop_first());
    }
}

pub proof fn lemma_sizes_total_nonneg(vals: Seq<SpecVal>)
    ensures
        sizes_total(vals) >= 0,
    decreases vals.len(),
{
    if vals.len() > 0 {
        lemma_sizes_total_nonneg(vals.drop_first());
    }
}

pub proof fn lemma_payloads_bytes_len(vals: Seq<SpecVal>)
    requires
        forall|i: int| 0 <= i < vals.len() ==> val_bounded(#[trigger] vals[i]),
    ensures
        payloads_bytes(vals).len() == sizes_total(vals),
    decreases vals.len(),
{
    if vals.len() > 0 {
        match vals[0] {
            SpecVal::Int(n) => {
                lemma_be_digits_len(u64_of_i64(n), 8);
            },
            SpecVal::Real(b) => {
                lemma_be_digits_len(b as int, 8);
            },
            _ => {},
        }
        assert(forall|i: int|
            0 <= i < vals.drop_first().len() ==> val_bounded(#[trigger] vals.drop_first()[i]));
        lemma_payloads_bytes_len(vals.drop_first());
    }
}

pub proof fn lemma_codes_bytes_snoc(vals: Seq<SpecVal>, v: SpecVal)
    ensures
        codes_bytes(vals.push(v)) == codes_bytes(vals) + vint9(spec_val_code(v)),
    decreases vals.len(),
{
    if vals.len() == 0 {
        assert(vals.push(v).drop_first() =~= Seq::<SpecVal>::empty());
        assert(vals.push(v)[0] == v);
        assert(codes_bytes(vals.push(v)) == vint9(spec_val_code(v)) + codes_bytes(
            Seq::<SpecVal>::empty(),
        ));
        assert(codes_bytes(vals.push(v)) =~= codes_bytes(vals) + vint9(spec_val_code(v)));
    } else {
        assert(vals.push(v).drop_first() =~= vals.drop_first().push(v));
        assert(vals.push(v)[0] == vals[0]);
        lemma_codes_bytes_snoc(vals.drop_first(), v);
        assert(codes_bytes(vals.push(v)) == vint9(spec_val_code(vals[0])) + (codes_bytes(
            vals.drop_first(),
        ) + vint9(spec_val_code(v))));
        assert(codes_bytes(vals) == vint9(spec_val_code(vals[0])) + codes_bytes(
            vals.drop_first(),
        ));
        assert(codes_bytes(vals.push(v)) =~= codes_bytes(vals) + vint9(spec_val_code(v)));
    }
}

pub proof fn lemma_payloads_bytes_snoc(vals: Seq<SpecVal>, v: SpecVal)
    ensures
        payloads_bytes(vals.push(v)) == payloads_bytes(vals) + payload_bytes(v),
    decreases vals.len(),
{
    if vals.len() == 0 {
        assert(vals.push(v).drop_first() =~= Seq::<SpecVal>::empty());
        assert(vals.push(v)[0] == v);
        assert(payloads_bytes(vals.push(v)) == payload_bytes(v) + payloads_bytes(
            Seq::<SpecVal>::empty(),
        ));
        assert(payloads_bytes(vals.push(v)) =~= payloads_bytes(vals) + payload_bytes(v));
    } else {
        assert(vals.push(v).drop_first() =~= vals.drop_first().push(v));
        assert(vals.push(v)[0] == vals[0]);
        lemma_payloads_bytes_snoc(vals.drop_first(), v);
        assert(payloads_bytes(vals.push(v)) == payload_bytes(vals[0]) + (payloads_bytes(
            vals.drop_first(),
        ) + payload_bytes(v)));
        assert(payloads_bytes(vals) == payload_bytes(vals[0]) + payloads_bytes(
            vals.drop_first(),
        ));
        assert(payloads_bytes(vals.push(v)) =~= payloads_bytes(vals) + payload_bytes(v));
    }
}

/// A nine-byte varint decodes to the raw value it carries.
pub proof fn lemma_vint9(s: Seq<u8>, pos: int, x: int)
    requires
        0 <= x < pow2(64),
        0 <= pos,
        pos + 9 <= s.len(),
        s.subrange(pos, pos + 9) == vint9(x),
    ensures
        spec_varint(s, pos) == Some((i64_from_bits(x), 9int)),
{
    vstd::arithmetic::power2::lemma2_to64();
    vstd::arithmetic::power2::lemma2_to64_rest();
    lemma_enc_cont_len(x / 256, 8);
    assert(s.subrange(pos, pos + 8) =~= enc_cont(x / 256, 8)) by {
        assert(forall|i: int| 0 <= i < 8 ==> s.subrange(pos, pos + 9)[i] == vint9(x)[i]);
    }
    assert(0 <= x / 256 < pow2(56)) by {
        vstd::arithmetic::power2::lemma_pow2_adds(56, 8);
        vstd::arithmetic::div_mod::lemma_fundamental_div_mod(x, 256);
        vstd::arithmetic::div_mod::lemma_mod_bound(x, 256);
        vstd::arithmetic::div_mod::lemma_div_pos_is_pos(x, 256);
        if x / 256 >= pow2(56) {
            assert(256 * (x / 256) >= 256 * pow2(56)) by (nonlinear_arith)
                requires
                    x / 256 >= pow2(56),
            ;
        }
    }
    lemma_varint_raw_cont(s, pos, x / 256, 8, 0, 0);
    assert(0 * pow2(56) == 0) by {
        vstd::arithmetic::mul::lemma_mul_basics(pow2(56) as int);
    }
    let b = s[pos + 8];
    assert(b == vint9(x)[8]);
    vstd::arithmetic::div_mod::lemma_mod_bound(x, 256);
    assert(b == x % 256);
    assert(varint_raw(s, pos + 8, x / 256, 8) == Some(((x / 256) * 256 + b, 9int)));
    vstd::arithmetic::div_mod::lemma_fundamental_div_mod(x, 256);
    assert(varint_raw(s, pos, 0, 0) == Some((x, 9int)));
}


/// A run of nine-byte serial-type varints reads back as the storage classes
/// the serializer picked.
proof fn lemma_codes_region(s: Seq<u8>, pos: int, vals: Seq<SpecVal>)
    requires
        forall|i: int| 0 <= i < vals.len() ==> val_bounded(#[trigger] vals[i]),
        0 <= pos,
        pos + 9 * vals.len() <= s.len(),
        s.subrange(pos, pos + 9 * vals.len()) == codes_bytes(vals),
    ensures
        spec_serial_types(s, pos, pos + 9 * vals.len()) == Ok::<Seq<ColumnType>, DbError>(
            types_of(vals),
        ),
    decreases vals.len(),
{
    vstd::arithmetic::power2::lemma2_to64();
    vstd::arithmetic::power2::lemma2_to64_rest();
    lemma_codes_bytes_len(vals);
    if vals.len() == 0 {
        assert(types_of(vals) =~= Seq::<ColumnType>::empty());
    } else {
        let v0 = vals[0];
        let c0 = spec_val_code(v0);
        let end = pos + 9 * vals.len();
        lemma_enc_cont_len(c0 / 256, 8);
        lemma_codes_bytes_len(vals.drop_first());
        assert(0 <= c0 < pow2(63));
        assert(s.subrange(pos, pos + 9) =~= vint9(c0)) by {
            assert(forall|i: int|
                0 <= i < 9 ==> s.subrange(pos, pos + 9 * vals.len())[i] == codes_bytes(vals)[i]);
        }
        lemma_vint9(s, pos, c0);
        assert(i64_from_bits(c0) == c0);
        match v0 {
            SpecVal::Text(b) => {
                let n = b.len() as int;
                vstd::arithmetic::div_mod::lemma_fundamental_div_mod(c0 - 12, 2);
                vstd::arithmetic::div_mod::lemma_fundamental_div_mod(c0 - 13, 2);
                assert((c0 - 12) / 2 == n);
                assert((c0 - 13) / 2 == n);
                assert(spec_column_type(c0) == Ok::<ColumnType, DbError>(spec_val_type(v0)));
            },
            SpecVal::Blob(b) => {
                let n = b.len() as int;
                vstd::arithmetic::div_mod::lemma_fundamental_div_mod(c0 - 12, 2);
                assert((c0 - 12) / 2 == n);
                assert(spec_column_type(c0) == Ok::<ColumnType, DbError>(spec_val_type(v0)));
            },
            _ => {
                assert(spec_column_type(c0) == Ok::<ColumnType, DbError>(spec_val_type(v0)));
            },
        }
        assert(s.subrange(pos + 9, end) =~= codes_bytes(vals.drop_first())) by {
            assert(codes_bytes(vals) == vint9(c0) + codes_bytes(vals.drop_first()));
            assert(forall|i: int|
                0 <= i < 9 * vals.len() - 9 ==> #[trigger] s.subrange(pos + 9, end)[i]
                    == codes_bytes(vals.drop_first())[i]) by {
                assert(forall|i: int|
                    0 <= i < 9 * vals.len() - 9 ==> #[trigger] s.subrange(pos + 9, end)[i]
                        == s.subrange(pos, pos + 9 * vals.len())[i + 9]);
                assert(forall|i: int|
                    0 <= i < 9 * vals.len() - 9 ==> #[trigger] codes_bytes(vals)[i + 9]
                        == codes_bytes(vals.drop_first())[i]);
            }
        }
        assert(forall|i: int|
            0 <= i < vals.drop_first().len() ==> val_bounded(#[trigger] vals.drop_first()[i]));
        lemma_codes_region(s, pos + 9, vals.drop_first());
        assert(seq![spec_val_type(v0)] + types_of(vals.drop_first()) =~= types_of(vals));
    }
}

/// The serialized payloads read back as the values they came from.
proof fn lemma_payloads_region(s: Seq<u8>, pos: int, vals: Seq<SpecVal>)
    requires
        forall|i: int| 0 <= i < vals.len() ==> val_bounded(#[trigger] vals[i]),
        0 <= pos,
        pos + sizes_total(vals) <= s.len(),
        s.subrange(pos, pos + sizes_total(vals)) == payloads_bytes(vals),
    ensures
        spec_values(s, pos, types_of(vals)) == Ok::<(Seq<SpecVal>, int), DbError>(
            (vals, pos + sizes_total(vals)),
        ),
    decreases vals.len(),
{
    vstd::arithmetic::power2::lemma2_to64();
    vstd::arithmetic::power2::lemma2_to64_rest();
    lemma_payloads_bytes_len(vals);
    lemma_sizes_total_nonneg(vals);
    if vals.len() == 0 {
        assert(types_of(vals) =~= Seq::<ColumnType>::empty());
        assert(vals =~= Seq::<SpecVal>::empty());
    } else {
        let v0 = vals[0];
        let t0 = spec_val_type(v0);
        let sz0 = spec_type_size(t0);
        let total = sizes_total(vals);
        let rest = vals.drop_first();
        lemma_sizes_total_nonneg(rest);
        assert(total == sz0 + sizes_total(rest));
        assert(s.subrange(pos, pos + sz0) =~= payload_bytes(v0)) by {
            lemma_payloads_bytes_len(rest);
            match v0 {
                SpecVal::Int(n) => {
                    lemma_be_digits_len(u64_of_i64(n), 8);
                },
                SpecVal::Real(b) => {
                    lemma_be_digits_len(b as int, 8);
                },
                _ => {},
            }
            assert(forall|i: int|
                0 <= i < sz0 ==> s.subrange(pos, pos + total)[i] == payloads_bytes(vals)[i]);
        }
        // the first value reads back
        match v0 {
            SpecVal::Int(n) => {
                lemma_be_uint_digits(s, pos, u64_of_i64(n), 8);
                vstd::arithmetic::power2::lemma_pow2_adds(63, 1);
                assert(be_int(s, pos, 8) == n);
                assert(spec_value_at(s, pos, t0) == v0);
            },
            SpecVal::Real(b) => {
                lemma_be_uint_digits(s, pos, b as int, 8);
                assert(spec_value_at(s, pos, t0) == v0);
            },
            SpecVal::Text(b) => {
                assert(spec_value_at(s, pos, t0) == v0);
            },
            SpecVal::Blob(b) => {
                assert(spec_value_at(s, pos, t0) == v0);
            },
            SpecVal::Null => {
                assert(spec_value_at(s, pos, t0) == v0);
            },
        }
        assert(s.subrange(pos + sz0, pos + total) =~= payloads_bytes(rest)) by {
            assert(payloads_bytes(vals) == payload_bytes(v0) + payloads_bytes(rest));
            assert(payload_bytes(v0).len() == sz0);
            assert(forall|i: int|
                0 <= i < total - sz0 ==> #[trigger] s.subrange(pos + sz0, pos + total)[i]
                    == payloads_bytes(rest)[i]) by {
                assert(forall|i: int|
                    0 <= i < total - sz0 ==> #[trigger] s.subrange(pos + sz0, pos + total)[i]
                        == s.subrange(pos, pos + total)[i + sz0]);
                assert(forall|i: int|
                    0 <= i < total - sz0 ==> #[trigger] payloads_bytes(vals)[i + sz0]
                        == payloads_bytes(rest)[i]);
            }
        }
        assert(forall|i: int| 0 <= i < rest.len() ==> val_bounded(#[trigger] rest[i]));
        lemma_payloads_region(s, pos + sz0, rest);
        let ts = types_of(vals);
        assert(ts[0] == t0);
        assert(ts.drop_first() =~= types_of(rest));
        assert(seq![v0] + rest =~= vals);
    }
}

/// Law: decoding a serialized row yields every column value back and
/// consumes the whole serialization.
pub proof fn lemma_record_round_trip(vals: Seq<SpecVal>)
    requires
        rec_bounded(vals),
    ensures
        spec_record(spec_serialized(vals), 0, vals.len() as int) == Ok::<
            (Seq<SpecVal>, int),
            DbError,
        >((vals, spec_serialized(vals).len() as int)),
{
    vstd::arithmetic::power2::lemma2_to64();
    vstd::arithmetic::power2::lemma2_to64_rest();
    let s = spec_serialized(vals);
    let n = vals.len() as int;
    let h = 9 * (n + 1);
    let total = sizes_total(vals);
    lemma_codes_bytes_len(vals);
    lemma_payloads_bytes_len(vals);
    lemma_sizes_total_nonneg(vals);
    lemma_enc_cont_len(h / 256, 8);
    assert(s.len() == h + total);
    assert(s.subrange(0, 9) =~= vint9(h));
    lemma_vint9(s, 0, h);
    assert(i64_from_bits(h) == h);
    assert(s.subrange(9, 9 + 9 * n) =~= codes_bytes(vals));
    lemma_codes_region(s, 9, vals);
    assert(spec_serial_types(s, 9, h) == Ok::<Seq<ColumnType>, DbError>(types_of(vals)));
    assert(s.subrange(h, h + total) =~= payloads_bytes(vals));
    lemma_payloads_region(s, h, vals);
    assert(spec_values(s, h, types_of(vals)) == Ok::<(Seq<SpecVal>, int), DbError>(
        (vals, h + total),
    ));
    assert(types_of(vals).len() == n);
}


/// The values of a row, in column order.
pub open spec fn rec_vals(r: Record) -> Seq<SpecVal> {
    Seq::new(r@.len(), |i: int| r@[i].1)
}

/// Appends every byte of `src`.
fn push_bytes(src: &Vec<u8>, out: &mut Vec<u8>)
    ensures
        final(out)@ == old(out)@ + src@,
{
    let n = src.len();
    let mut i: usize = 0;
    assert(out@ =~= old(out)@ + src@.subrange(0, 0));
    while i < n
        invariant
            i <= n,
            n == src@.len(),
            out@ == old(out)@ + src@.subrange(0, i as int),
        decreases n - i,
    {
        out.push(src[i]);
        assert(out@ =~= old(out)@ + src@.subrange(0, i as int + 1));
        i = i + 1;
    }
    assert(src@.subrange(0, n as int) =~= src@);
}

/// Appends a fixed nine-byte varint carrying `x`.
fn push_vint9(x: u64, out: &mut Vec<u8>)
    ensures
        final(out)@ == old(out)@ + vint9(x as int),
{
    push_cont(x / 256, 8, out);
    out.push((x % 256) as u8);
    assert(out@ =~= old(out)@ + vint9(x as int));
}

impl Record {
    /// Serialize the row: a nine-byte header-size varint, one nine-byte
    /// serial-type varint per column, then each value's payload.  Decoding
    /// the result yields every column value back.
    pub fn serialize(&self) -> (out: Vec<u8>)
        requires
            rec_bounded(rec_vals(*self)),
            9 * (self.values@.len() + 1) + sizes_total(rec_vals(*self)) <= usize::MAX,
        ensures
            out@ == spec_serialized(rec_vals(*self)),
            spec_record(out@, 0, self.values@.len() as int) == Ok::<(Seq<SpecVal>, int), DbError>(
                (rec_vals(*self), out@.len() as int),
            ),
    {
        let ghost vals = rec_vals(*self);
        proof {
            lemma_sizes_total_nonneg(vals);
        }
        let n = self.values.len();
        let h: u64 = 9 * (n as u64 + 1);
        assert(h as int == 9 * (vals.len() + 1) as int);
        let mut out: Vec<u8> = Vec::new();
        push_vint9(h, &mut out);
        assert(vals.take(0) =~= Seq::<SpecVal>::empty());
        assert(out@ =~= vint9(h as int) + codes_bytes(vals.take(0)));
        let mut i: usize = 0;
        while i < n
            invariant
                i <= n,
                n == self.values@.len(),
                vals == rec_vals(*self),
                vals.len() == n,
                rec_bounded(vals),
                h as int == 9 * (vals.len() + 1) as int,
                out@ == vint9(h as int) + codes_bytes(vals.take(i as int)),
            decreases n - i,
        {
            proof {
                assert(vals[i as int] == self.values@[i as int].1@);
                assert(val_bounded(vals[i as int]));
            }
            let code: u64 = match &self.values[i].1 {
                Value::Null => 0,
                Value::Integer(_) => 6,
                Value::Real(_) => 7,
                Value::Text(b) => 13 + 2 * (b.len() as u64),
                Value::Blob(b) => 12 + 2 * (b.len() as u64),
            };
            assert(code as int == spec_val_code(vals[i as int]));
            push_vint9(code, &mut out);
            proof {
                lemma_codes_bytes_snoc(vals.take(i as int), vals[i as int]);
                assert(vals.take(i as int).push(vals[i as int]) =~= vals.take(i as int + 1));
                assert(out@ =~= vint9(h as int) + codes_bytes(vals.take(i as int + 1)));
            }
            i = i + 1;
        }
        assert(vals.take(n as int) =~= vals);
        let mut j: usize = 0;
        assert(vals.take(0) =~= Seq::<SpecVal>::empty());
        assert(out@ =~= vint9(h as int) + codes_bytes(vals) + payloads_bytes(vals.take(0)));
        while j < n
            invariant
                j <= n,
                n == self.values@.len(),
                vals == rec_vals(*self),
                vals.len() == n,
                rec_bounded(vals),
                h as int == 9 * (vals.len() + 1) as int,
                out@ == vint9(h as int) + codes_bytes(vals) + payloads_bytes(vals.take(j as int)),
            decreases n - j,
        {
            proof {
                assert(vals[j as int] == self.values@[j as int].1@);
                assert(val_bounded(vals[j as int]));
            }
            let ghost before = out@;
            match &self.values[j].1 {
                Value::Null => {},
                Value::Integer(x) => {
                    let raw = raw_of_i64(*x);
                    push_be_digits(raw, 8, &mut out);
                },
                Value::Real(b) => {
                    push_be_digits(*b, 8, &mut out);
                },
                Value::Text(b) => {
                    push_bytes(b, &mut out);
                },
                Value::Blob(b) => {
                    push_bytes(b, &mut out);
                },
            }
            proof {
                assert(out@ =~= before + payload_bytes(vals[j as int]));
                lemma_payloads_bytes_snoc(vals.take(j as int), vals[j as int]);
                assert(vals.take(j as int).push(vals[j as int]) =~= vals.take(j as int + 1));
                assert(out@ =~= vint9(h as int) + codes_bytes(vals) + payloads_bytes(
                    vals.take(j as int + 1),
                ));
            }
            j = j + 1;
        }
        assert(vals.take(n as int) =~= vals);
        proof {
            lemma_record_round_trip(vals);
        }
        out
    }
}


/// A decoded value list has one value per storage class.
pub proof fn lemma_spec_values_len(s: Seq<u8>, pos: int, ts: Seq<ColumnType>)
    ensures
        spec_values(s, pos, ts) matches Ok((vs, _)) ==> vs.len() == ts.len(),
    decreases ts.len(),
{
    if ts.len() > 0 {
        lemma_spec_values_len(s, pos + spec_type_size(ts[0]), ts.drop_first());
    }
}

/// A decoded record has one value per column.
pub proof fn lemma_spec_record_len(s: Seq<u8>, pos: int, ncols: int)
    ensures
        spec_record(s, pos, ncols) matches Ok((vals, _)) ==> vals.len() == ncols,
{
    match spec_varint(s, pos) {
        Some((h, hlen)) => {
            if h >= hlen && pos + h <= s.len() {
                match spec_serial_types(s, pos + hlen, pos + h) {
                    Ok(ts) => {
                        lemma_spec_values_len(s, pos + h, ts);
                    },
                    Err(_) => {},
                }
            }
        },
        None => {},
    }
}


impl Record {
    /// An owned copy with the same content.
    pub fn dup_record(&self) -> (r: Self)
        ensures
            r@ == self@,
    {
        let n = self.values.len();
        let mut values: Vec<(String, Value)> = Vec::new();
        let mut i: usize = 0;
        while i < n
            invariant
                i <= n,
                n == self.values@.len(),
                values@.len() == i,
                forall|j: int|
                    0 <= j < i ==> #[trigger] values@[j].0@ == self.values@[j].0@ && values@[j].1@
                        == self.values@[j].1@,
            decreases n - i,
        {
            let name = self.values[i].0.clone();
            let v = self.values[i].1.dup();
            values.push((name, v));
            i = i + 1;
        }
        let r = Record { values };
        proof {
            assert(r@ =~= self@);
        }
        r
    }
}

} // verus!







