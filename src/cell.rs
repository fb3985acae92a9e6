//! Record values, the serial-type record format, and the four kinds of B-tree
//! cell.
use crate::codec::{
    be_signed, be_unsigned, lemma_be_signed_range, lemma_pow_values, lemma_varint_len_bounds,
    read_be_signed, read_be_unsigned, read_varint, varint_len, varint_value,
};
use crate::error::{SqliteError, UnsupportedFeature};
use vstd::prelude::*;
use vstd::utf8::{decode_utf8, encode_utf8, valid_utf8};

verus! {

/// What a record value is, with the width it was stored in forgotten.
pub enum Value {
    Null,
    Int(int),
    /// An IEEE-754 double, by its bits.
    Real(u64),
    Text(Seq<char>),
    Blob(Seq<u8>),
}

/// One value of a record, as its serial type stored it.
#[derive(Debug, Clone)]
pub enum RecordValue {
    Null,
    I8(i8),
    I16(i16),
    I24(i32),
    I32(i32),
    I48(i64),
    I64(i64),
    /// An IEEE-754 double, by its bits.
    F64(u64),
    Blob(Vec<u8>),
    String(String),
}

impl View for RecordValue {
    type V = Value;

    open spec fn view(&self) -> Value {
        match self {
            RecordValue::Null => Value::Null,
            RecordValue::I8(v) => Value::Int(*v as int),
            RecordValue::I16(v) => Value::Int(*v as int),
            RecordValue::I24(v) => Value::Int(*v as int),
            RecordValue::I32(v) => Value::Int(*v as int),
            RecordValue::I48(v) => Value::Int(*v as int),
            RecordValue::I64(v) => Value::Int(*v as int),
            RecordValue::F64(b) => Value::Real(*b),
            RecordValue::Blob(b) => Value::Blob(b@),
            RecordValue::String(s) => Value::Text(s@),
        }
    }
}

pub open spec fn values_view(v: Seq<RecordValue>) -> Seq<Value> {
    v.map_values(|x: RecordValue| x@)
}

/// Serial codes 10 and 11 are reserved, and no code is negative.
pub open spec fn valid_serial(code: int) -> bool {
    code >= 0 && code != 10 && code != 11
}

/// The number of body bytes that a value of serial code `code` takes.
pub open spec fn serial_len(code: int) -> int {
    if code == 1 || code == 2 || code == 3 || code == 4 {
        code
    } else if code == 5 {
        6
    } else if code == 6 || code == 7 {
        8
    } else if code >= 12 && code % 2 == 0 {
        (code - 12) / 2
    } else if code >= 13 {
        (code - 13) / 2
    } else {
        0
    }
}

/// The value of serial code `code` whose body bytes are `b`.
pub open spec fn spec_value(code: int, b: Seq<u8>) -> Result<Value, SqliteError> {
    if code == 0 {
        Ok(Value::Null)
    } else if 1 <= code <= 6 {
        Ok(Value::Int(be_signed(b)))
    } else if code == 7 {
        Ok(Value::Real(be_unsigned(b) as u64))
    } else if code == 8 {
        Ok(Value::Int(0))
    } else if code == 9 {
        Ok(Value::Int(1))
    } else if code % 2 == 0 {
        Ok(Value::Blob(b))
    } else if valid_utf8(b) {
        Ok(Value::Text(decode_utf8(b)))
    } else {
        Err(SqliteError::DecodeRecord)
    }
}

/// The serial codes of a record header, read from `pos` up to `end`.
pub open spec fn spec_codes(p: Seq<u8>, pos: int, end: int) -> Result<Seq<i64>, SqliteError>
    decreases end - pos via spec_codes_decreases
{
    if pos >= end || pos < 0 {
        Ok(Seq::empty())
    } else if varint_len(p.skip(pos)) > p.len() - pos {
        Err(SqliteError::DecodeTruncated)
    } else if pos + varint_len(p.skip(pos)) > end {
        Err(SqliteError::DecodeRecord)
    } else {
        match spec_codes(p, pos + varint_len(p.skip(pos)), end) {
            Ok(rest) => Ok(seq![varint_value(p.skip(pos))] + rest),
            Err(e) => Err(e),
        }
    }
}

#[via_fn]
proof fn spec_codes_decreases(p: Seq<u8>, pos: int, end: int) {
    lemma_varint_len_bounds(p.skip(pos), 0);
}

/// The values of a record body whose serial codes from the `i`-th on start at
/// `pos` of `p`. The body must end exactly where `p` ends.
pub open spec fn spec_body(codes: Seq<i64>, p: Seq<u8>, pos: int, i: int) -> Result<
    Seq<Value>,
    SqliteError,
>
    decreases codes.len() - i,
{
    if i >= codes.len() || i < 0 {
        if pos == p.len() {
            Ok(Seq::empty())
        } else {
            Err(SqliteError::DecodeRecord)
        }
    } else if !valid_serial(codes[i] as int) {
        Err(SqliteError::DecodeRecord)
    } else if pos + serial_len(codes[i] as int) > p.len() {
        Err(SqliteError::DecodeRecord)
    } else {
        match spec_value(codes[i] as int, p.subrange(pos, pos + serial_len(codes[i] as int))) {
            Err(e) => Err(e),
            Ok(v) => match spec_body(codes, p, pos + serial_len(codes[i] as int), i + 1) {
                Ok(rest) => Ok(seq![v] + rest),
                Err(e) => Err(e),
            },
        }
    }
}

/// The values of the record whose payload is exactly `p`.
pub open spec fn spec_record(p: Seq<u8>) -> Result<Seq<Value>, SqliteError> {
    if varint_len(p) > p.len() {
        Err(SqliteError::DecodeTruncated)
    } else if varint_value(p) < varint_len(p) || varint_value(p) > p.len() {
        Err(SqliteError::DecodeRecord)
    } else {
        match spec_codes(p, varint_len(p) as int, varint_value(p) as int) {
            Err(e) => Err(e),
            Ok(codes) => spec_body(codes, p, varint_value(p) as int, 0),
        }
    }
}

/// Relies on String::from_utf8: it succeeds exactly on valid UTF-8, and the
/// string it returns encodes to the bytes it was given.
#[verifier::external_body]
fn utf8_string(b: Vec<u8>) -> (r: Option<String>)
    ensures
        r is Some <==> valid_utf8(b@),
        r is Some ==> encode_utf8(r->Some_0@) == b@,
{
    String::from_utf8(b).ok()
}

/// Copies `p[start..end]`.
pub fn copy_bytes(p: &[u8], start: usize, end: usize) -> (r: Vec<u8>)
    requires
        start <= end <= p@.len(),
    ensures
        r@ == p@.subrange(start as int, end as int),
{
    let mut r: Vec<u8> = Vec::new();
    let mut i = start;
    while i < end
        invariant
            start <= i <= end <= p@.len(),
            r@ == p@.subrange(start as int, i as int),
        decreases end - i,
    {
        r.push(p[i]);
        i = i + 1;
    }
    r
}

/// Decodes the value of serial code `code` whose body starts at `pos` of `p`.
fn decode_value(code: i64, p: &[u8], pos: usize) -> (r: Result<RecordValue, SqliteError>)
    requires
        valid_serial(code as int),
        pos + serial_len(code as int) <= p@.len(),
    ensures
        match r {
            Ok(v) => spec_value(code as int, p@.subrange(pos as int, pos + serial_len(code as int)))
                == Ok::<Value, SqliteError>(v@),
            Err(e) => spec_value(code as int, p@.subrange(pos as int, pos + serial_len(code as int)))
                == Err::<Value, SqliteError>(e),
        },
{
    let len = p.len();
    let ghost b = p@.subrange(pos as int, pos + serial_len(code as int));
    proof {
        lemma_pow_values();
        if 1 <= code <= 6 {
            lemma_be_signed_range(b);
        }
    }
    if code == 0 {
        Ok(RecordValue::Null)
    } else if code == 1 {
        let v = read_be_signed(p, pos, 1);
        Ok(RecordValue::I8(v as i8))
    } else if code == 2 {
        let v = read_be_signed(p, pos, 2);
        Ok(RecordValue::I16(v as i16))
    } else if code == 3 {
        let v = read_be_signed(p, pos, 3);
        Ok(RecordValue::I24(v as i32))
    } else if code == 4 {
        let v = read_be_signed(p, pos, 4);
        Ok(RecordValue::I32(v as i32))
    } else if code == 5 {
        Ok(RecordValue::I48(read_be_signed(p, pos, 6)))
    } else if code == 6 {
        Ok(RecordValue::I64(read_be_signed(p, pos, 8)))
    } else if code == 7 {
        Ok(RecordValue::F64(read_be_unsigned(p, pos, 8)))
    } else if code == 8 {
        Ok(RecordValue::I8(0))
    } else if code == 9 {
        Ok(RecordValue::I8(1))
    } else if code % 2 == 0 {
        let n = ((code - 12) / 2) as usize;
        Ok(RecordValue::Blob(copy_bytes(p, pos, pos + n)))
    } else {
        let n = ((code - 13) / 2) as usize;
        match utf8_string(copy_bytes(p, pos, pos + n)) {
            Some(s) => {
                proof {
                    vstd::utf8::encode_utf8_decode_utf8(s@);
                }
                Ok(RecordValue::String(s))
            },
            None => Err(SqliteError::DecodeRecord),
        }
    }
}

/// `pre` put in front of the sequence that `r` holds, or the error of `r`.
pub open spec fn prepend<T>(pre: Seq<T>, r: Result<Seq<T>, SqliteError>) -> Result<
    Seq<T>,
    SqliteError,
> {
    match r {
        Ok(rest) => Ok(pre + rest),
        Err(e) => Err(e),
    }
}

proof fn lemma_prepend_step<T>(pre: Seq<T>, x: T, r: Result<Seq<T>, SqliteError>)
    ensures
        prepend(pre, prepend(seq![x], r)) == prepend(pre.push(x), r),
{
    if let Ok(rest) = r {
        assert(pre + (seq![x] + rest) =~= pre.push(x) + rest);
    }
}

/// The number of body bytes of serial code `code`.
fn serial_len_exec(code: i64) -> (r: u64)
    requires
        valid_serial(code as int),
    ensures
        r as int == serial_len(code as int),
{
    if code == 1 || code == 2 || code == 3 || code == 4 {
        code as u64
    } else if code == 5 {
        6
    } else if code == 6 || code == 7 {
        8
    } else if code >= 12 && code % 2 == 0 {
        ((code - 12) / 2) as u64
    } else if code >= 13 {
        ((code - 13) / 2) as u64
    } else {
        0
    }
}

/// Decodes the record whose payload is exactly `p`: a header of serial codes,
/// then a body of values packed per those codes.
pub fn decode_record(p: &[u8]) -> (r: Result<Vec<RecordValue>, SqliteError>)
    ensures
        match r {
            Ok(v) => spec_record(p@) == Ok::<Seq<Value>, SqliteError>(values_view(v@)),
            Err(e) => spec_record(p@) == Err::<Seq<Value>, SqliteError>(e),
        },
{
    assert(p@.skip(0) =~= p@);
    let len = p.len();
    let (h, l) = match read_varint(p, 0) {
        Ok(x) => x,
        Err(e) => {
            return Err(e);
        },
    };
    if (h as i128) < (l as i128) || (h as i128) > (len as i128) {
        return Err(SqliteError::DecodeRecord);
    }
    let hs = h as usize;
    assert(hs as int == h as int);
    assert(h == varint_value(p@));
    assert(l as int == varint_len(p@));
    let mut codes: Vec<i64> = Vec::new();
    let mut pos = l;
    while pos < hs
        invariant
            len == p@.len(),
            l <= pos <= hs <= len,
            hs == varint_value(p@),
            l == varint_len(p@),
            spec_codes(p@, l as int, hs as int) == prepend(codes@, spec_codes(p@, pos as int, hs as int)),
        decreases hs - pos,
    {
        let (c, n) = match read_varint(p, pos) {
            Ok(x) => x,
            Err(e) => {
                return Err(e);
            },
        };
        if n > hs - pos {
            return Err(SqliteError::DecodeRecord);
        }
        proof {
            lemma_varint_len_bounds(p@.skip(pos as int), 0);
            lemma_prepend_step(codes@, c, spec_codes(p@, pos + n, hs as int));
        }
        codes.push(c);
        pos = pos + n;
    }
    assert(prepend(codes@, spec_codes(p@, pos as int, hs as int)) == Ok::<Seq<i64>, SqliteError>(codes@)) by {
        assert(codes@ + Seq::<i64>::empty() =~= codes@);
    }
    let mut vals: Vec<RecordValue> = Vec::new();
    let mut i: usize = 0;
    let mut pos = hs;
    while i < codes.len()
        invariant
            len == p@.len(),
            hs <= pos <= len,
            i <= codes@.len(),
            spec_record(p@) == prepend(values_view(vals@), spec_body(codes@, p@, pos as int, i as int)),
        decreases codes@.len() - i,
    {
        let c = codes[i];
        if c < 0 || c == 10 || c == 11 {
            return Err(SqliteError::DecodeRecord);
        }
        let n = serial_len_exec(c);
        if n > (len - pos) as u64 {
            return Err(SqliteError::DecodeRecord);
        }
        let v = match decode_value(c, p, pos) {
            Ok(v) => v,
            Err(e) => {
                return Err(e);
            },
        };
        proof {
            lemma_prepend_step(values_view(vals@), v@, spec_body(codes@, p@, pos + n, i + 1));
            assert(values_view(vals@.push(v)) =~= values_view(vals@).push(v@));
        }
        vals.push(v);
        pos = pos + n as usize;
        i = i + 1;
    }
    if pos != len {
        return Err(SqliteError::DecodeRecord);
    }
    assert(values_view(vals@) + Seq::<Value>::empty() =~= values_view(vals@));
    Ok(vals)
}

/// A cell, with its values as models.
pub enum CellModel {
    TableLeaf { row_id: i64, values: Seq<Value> },
    TableInterior { left_child: u32, row_id: i64 },
    IndexLeaf { key: Value, row_id: i64 },
    IndexInterior { left_child: u32, key: Value, row_id: i64 },
}

/// The largest payload that a table leaf cell keeps on its page.
pub open spec fn table_max_local(usable: int) -> int {
    usable - 35
}

/// The largest payload that an index cell keeps on its page.
pub open spec fn index_max_local(usable: int) -> int {
    (usable - 12) * 64 / 255 - 23
}

/// A table leaf cell whose bytes start `b`, on a page of `usable` bytes.
pub open spec fn spec_table_leaf(b: Seq<u8>, usable: int) -> Result<CellModel, SqliteError> {
    let l1 = varint_len(b) as int;
    let size = varint_value(b) as int;
    let l2 = varint_len(b.skip(l1)) as int;
    if l1 > b.len() {
        Err(SqliteError::DecodeTruncated)
    } else if l2 > b.len() - l1 {
        Err(SqliteError::DecodeTruncated)
    } else if size < 0 {
        Err(SqliteError::DecodeRecord)
    } else if size > table_max_local(usable) {
        Err(SqliteError::Unsupported(UnsupportedFeature::Overflow))
    } else if l1 + l2 + size > b.len() {
        Err(SqliteError::DecodeTruncated)
    } else {
        match spec_record(b.subrange(l1 + l2, l1 + l2 + size)) {
            Ok(values) => Ok(CellModel::TableLeaf { row_id: varint_value(b.skip(l1)), values }),
            Err(e) => Err(e),
        }
    }
}

/// A table interior cell whose bytes start `b`.
pub open spec fn spec_table_interior(b: Seq<u8>) -> Result<CellModel, SqliteError> {
    if b.len() < 4 || varint_len(b.skip(4)) > b.len() - 4 {
        Err(SqliteError::DecodeTruncated)
    } else {
        Ok(
            CellModel::TableInterior {
                left_child: be_unsigned(b.subrange(0, 4)) as u32,
                row_id: varint_value(b.skip(4)),
            },
        )
    }
}

/// An index record holds the key first and the row id last.
pub open spec fn index_entry_ok(values: Seq<Value>) -> bool {
    values.len() >= 2 && values.last() is Int && i64::MIN <= values.last()->Int_0 <= i64::MAX
}

/// The index record that starts at `pos` of `b` with payload size `size`
/// given by the varint before it, on a page of `usable` bytes.
pub open spec fn spec_index_payload(b: Seq<u8>, pos: int, usable: int) -> Result<
    (Value, i64),
    SqliteError,
> {
    let l = varint_len(b.skip(pos)) as int;
    let size = varint_value(b.skip(pos)) as int;
    if l > b.len() - pos {
        Err(SqliteError::DecodeTruncated)
    } else if size < 0 {
        Err(SqliteError::DecodeRecord)
    } else if size > index_max_local(usable) {
        Err(SqliteError::Unsupported(UnsupportedFeature::Overflow))
    } else if pos + l + size > b.len() {
        Err(SqliteError::DecodeTruncated)
    } else {
        match spec_record(b.subrange(pos + l, pos + l + size)) {
            Ok(values) => if index_entry_ok(values) {
                Ok((values[0], values.last()->Int_0 as i64))
            } else {
                Err(SqliteError::DecodeRecord)
            },
            Err(e) => Err(e),
        }
    }
}

/// An index leaf cell whose bytes start `b`.
pub open spec fn spec_index_leaf(b: Seq<u8>, usable: int) -> Result<CellModel, SqliteError> {
    match spec_index_payload(b, 0, usable) {
        Ok((key, row_id)) => Ok(CellModel::IndexLeaf { key, row_id }),
        Err(e) => Err(e),
    }
}

/// An index interior cell whose bytes start `b`.
pub open spec fn spec_index_interior(b: Seq<u8>, usable: int) -> Result<CellModel, SqliteError> {
    if b.len() < 4 {
        Err(SqliteError::DecodeTruncated)
    } else {
        match spec_index_payload(b, 4, usable) {
            Ok((key, row_id)) => Ok(
                CellModel::IndexInterior {
                    left_child: be_unsigned(b.subrange(0, 4)) as u32,
                    key,
                    row_id,
                },
            ),
            Err(e) => Err(e),
        }
    }
}

/// A row of a table: its row id and the values of its record.
#[derive(Debug, Clone)]
pub struct LeafCell {
    pub row_id: i64,
    pub payload: Vec<RecordValue>,
}

impl View for LeafCell {
    type V = CellModel;

    open spec fn view(&self) -> CellModel {
        CellModel::TableLeaf { row_id: self.row_id, values: values_view(self.payload@) }
    }
}

impl LeafCell {
    /// Decodes the table leaf cell whose bytes start `buf`, on a page whose
    /// usable size is `usable`.
    pub fn new(buf: &[u8], usable: usize) -> (r: Result<LeafCell, SqliteError>)
        ensures
            match r {
                Ok(c) => spec_table_leaf(buf@, usable as int) == Ok::<CellModel, SqliteError>(c@),
                Err(e) => spec_table_leaf(buf@, usable as int) == Err::<CellModel, SqliteError>(e),
            },
    {
        assert(buf@.skip(0) =~= buf@);
        let len = buf.len();
        let (size, l1) = match read_varint(buf, 0) {
            Ok(x) => x,
            Err(e) => {
                return Err(e);
            },
        };
        let (row_id, l2) = match read_varint(buf, l1) {
            Ok(x) => x,
            Err(e) => {
                return Err(e);
            },
        };
        if size < 0 {
            return Err(SqliteError::DecodeRecord);
        }
        if (size as i128) > (usable as i128) - 35 {
            return Err(SqliteError::Unsupported(UnsupportedFeature::Overflow));
        }
        if (size as i128) > (len as i128) - (l1 as i128) - (l2 as i128) {
            return Err(SqliteError::DecodeTruncated);
        }
        let start = l1 + l2;
        let end = start + size as usize;
        match decode_record(&buf[start..end]) {
            Ok(payload) => Ok(LeafCell { row_id, payload }),
            Err(e) => Err(e),
        }
    }
}

/// A routing cell of a table interior page: the child page that holds the
/// rows whose row id is at most `row_id`.
#[derive(Debug, Clone, Copy)]
pub struct InteriorTableCell {
    pub row_id: i64,
    pub left_child: u32,
}

impl View for InteriorTableCell {
    type V = CellModel;

    open spec fn view(&self) -> CellModel {
        CellModel::TableInterior { left_child: self.left_child, row_id: self.row_id }
    }
}

impl InteriorTableCell {
    /// Decodes the table interior cell whose bytes start `buf`.
    pub fn new(buf: &[u8]) -> (r: Result<InteriorTableCell, SqliteError>)
        ensures
            match r {
                Ok(c) => spec_table_interior(buf@) == Ok::<CellModel, SqliteError>(c@),
                Err(e) => spec_table_interior(buf@) == Err::<CellModel, SqliteError>(e),
            },
    {
        if buf.len() < 4 {
            return Err(SqliteError::DecodeTruncated);
        }
        let left_child = read_be_unsigned(buf, 0, 4);
        let (row_id, _) = match read_varint(buf, 4) {
            Ok(x) => x,
            Err(e) => {
                return Err(e);
            },
        };
        proof {
            lemma_pow_values();
        }
        Ok(InteriorTableCell { row_id, left_child: left_child as u32 })
    }
}

/// The integer that `v` holds, if it holds one.
pub fn record_int(v: &RecordValue) -> (r: Option<i64>)
    ensures
        r is Some <==> v@ is Int,
        r is Some ==> v@ == Value::Int(r->Some_0 as int),
{
    match v {
        RecordValue::I8(x) => Some(*x as i64),
        RecordValue::I16(x) => Some(*x as i64),
        RecordValue::I24(x) => Some(*x as i64),
        RecordValue::I32(x) => Some(*x as i64),
        RecordValue::I48(x) => Some(*x),
        RecordValue::I64(x) => Some(*x),
        _ => None,
    }
}

/// Reads the index record at `pos` of `buf`, with its payload size before it:
/// its key and its row id.
fn index_payload(buf: &[u8], pos: usize, usable: usize) -> (r: Result<(RecordValue, i64), SqliteError>)
    requires
        pos <= buf@.len(),
    ensures
        match r {
            Ok((k, id)) => spec_index_payload(buf@, pos as int, usable as int) == Ok::<
                (Value, i64),
                SqliteError,
            >((k@, id)),
            Err(e) => spec_index_payload(buf@, pos as int, usable as int) == Err::<
                (Value, i64),
                SqliteError,
            >(e),
        },
{
    let len = buf.len();
    let (size, l) = match read_varint(buf, pos) {
        Ok(x) => x,
        Err(e) => {
            return Err(e);
        },
    };
    if size < 0 {
        return Err(SqliteError::DecodeRecord);
    }
    if (size as i128) > ((usable as i128) - 12) * 64 / 255 - 23 {
        return Err(SqliteError::Unsupported(UnsupportedFeature::Overflow));
    }
    if (size as i128) > (len as i128) - (pos as i128) - (l as i128) {
        return Err(SqliteError::DecodeTruncated);
    }
    let start = pos + l;
    let end = start + size as usize;
    let mut values = match decode_record(&buf[start..end]) {
        Ok(v) => v,
        Err(e) => {
            return Err(e);
        },
    };
    if values.len() < 2 {
        return Err(SqliteError::DecodeRecord);
    }
    let ghost vs = values_view(values@);
    assert(vs.last() == values@.last()@);
    let row_id = match record_int(&values[values.len() - 1]) {
        Some(id) => id,
        None => {
            return Err(SqliteError::DecodeRecord);
        },
    };
    let key = values.swap_remove(0);
    assert(key@ == vs[0]);
    Ok((key, row_id))
}

/// An entry of an index leaf page: a key and the row id of the row that holds
/// it.
#[derive(Debug, Clone)]
pub struct IndexLeafCell {
    pub key: RecordValue,
    pub row_id: i64,
}

impl View for IndexLeafCell {
    type V = CellModel;

    open spec fn view(&self) -> CellModel {
        CellModel::IndexLeaf { key: self.key@, row_id: self.row_id }
    }
}

impl IndexLeafCell {
    /// Decodes the index leaf cell whose bytes start `buf`.
    pub fn new(buf: &[u8], usable: usize) -> (r: Result<IndexLeafCell, SqliteError>)
        ensures
            match r {
                Ok(c) => spec_index_leaf(buf@, usable as int) == Ok::<CellModel, SqliteError>(c@),
                Err(e) => spec_index_leaf(buf@, usable as int) == Err::<CellModel, SqliteError>(e),
            },
    {
        match index_payload(buf, 0, usable) {
            Ok((key, row_id)) => Ok(IndexLeafCell { key, row_id }),
            Err(e) => Err(e),
        }
    }
}

/// An entry of an index interior page: a key, the row id that holds it, and
/// the child page with the smaller keys.
#[derive(Debug, Clone)]
pub struct InteriorIndexCell {
    pub left_child: u32,
    pub key: RecordValue,
    pub row_id: i64,
}

impl View for InteriorIndexCell {
    type V = CellModel;

    open spec fn view(&self) -> CellModel {
        CellModel::IndexInterior { left_child: self.left_child, key: self.key@, row_id: self.row_id }
    }
}

impl InteriorIndexCell {
    /// Decodes the index interior cell whose bytes start `buf`.
    pub fn new(buf: &[u8], usable: usize) -> (r: Result<InteriorIndexCell, SqliteError>)
        ensures
            match r {
                Ok(c) => spec_index_interior(buf@, usable as int) == Ok::<CellModel, SqliteError>(
                    c@,
                ),
                Err(e) => spec_index_interior(buf@, usable as int) == Err::<CellModel, SqliteError>(
                    e,
                ),
            },
    {
        if buf.len() < 4 {
            return Err(SqliteError::DecodeTruncated);
        }
        let left_child = read_be_unsigned(buf, 0, 4);
        proof {
            lemma_pow_values();
        }
        match index_payload(buf, 4, usable) {
            Ok((key, row_id)) => Ok(InteriorIndexCell { left_child: left_child as u32, key, row_id }),
            Err(e) => Err(e),
        }
    }
}

/// A decoded cell of any of the four kinds.
#[derive(Debug, Clone)]
pub enum DatabaseCell {
    LeafCell(LeafCell),
    IndexLeafCell(IndexLeafCell),
    InteriorTableCell(InteriorTableCell),
    InteriorIndexCell(InteriorIndexCell),
}

impl View for DatabaseCell {
    type V = CellModel;

    open spec fn view(&self) -> CellModel {
        match self {
            DatabaseCell::LeafCell(c) => c@,
            DatabaseCell::IndexLeafCell(c) => c@,
            DatabaseCell::InteriorTableCell(c) => c@,
            DatabaseCell::InteriorIndexCell(c) => c@,
        }
    }
}

} // verus!
