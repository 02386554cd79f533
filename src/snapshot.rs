//! The RDB snapshot decoder: a flat stream of opcode-tagged records after a
//! magic marker and a four-digit version.

use vstd::prelude::*;
use vstd::utf8::valid_utf8;
use crate::decimal::{decimal_digits, decimal_text, int_text_value, lemma_decimal_text_utf8, parse_int, push_decimal};
use crate::table::Table;
use crate::text::{is_utf8, text_of, lossy_string};

verus! {

#[derive(Debug, Clone)]
pub enum DataType {
    String(String),
    List,
    UnsortedSet,
    SortedSet,
    Hash,
    ZipMap,
    ZipList,
    IntSet,
    SortedSetZipList,
    HashMapZipList,
    ListQuickList,
}

/// A stored value: text, or one of the kinds that are kept without their
/// contents, numbered from 1 in the order of `DataType`.
pub enum DataValue {
    Text(Seq<char>),
    Placeholder(nat),
}

impl View for DataType {
    type V = DataValue;

    open spec fn view(&self) -> DataValue {
        match self {
            DataType::String(s) => DataValue::Text(s@),
            DataType::List => DataValue::Placeholder(1),
            DataType::UnsortedSet => DataValue::Placeholder(2),
            DataType::SortedSet => DataValue::Placeholder(3),
            DataType::Hash => DataValue::Placeholder(4),
            DataType::ZipMap => DataValue::Placeholder(5),
            DataType::ZipList => DataValue::Placeholder(6),
            DataType::IntSet => DataValue::Placeholder(7),
            DataType::SortedSetZipList => DataValue::Placeholder(8),
            DataType::HashMapZipList => DataValue::Placeholder(9),
            DataType::ListQuickList => DataValue::Placeholder(10),
        }
    }
}

impl DataType {
    /// A copy of the value.
    pub fn duplicate(&self) -> (r: DataType)
        ensures
            r@ == self@,
    {
        match self {
            DataType::String(s) => DataType::String(s.clone()),
            DataType::List => DataType::List,
            DataType::UnsortedSet => DataType::UnsortedSet,
            DataType::SortedSet => DataType::SortedSet,
            DataType::Hash => DataType::Hash,
            DataType::ZipMap => DataType::ZipMap,
            DataType::ZipList => DataType::ZipList,
            DataType::IntSet => DataType::IntSet,
            DataType::SortedSetZipList => DataType::SortedSetZipList,
            DataType::HashMapZipList => DataType::HashMapZipList,
            DataType::ListQuickList => DataType::ListQuickList,
        }
    }
}

#[derive(Debug, Clone, Copy, PartialEq, Eq, Structural)]
pub enum RdbReadError {
    NotRedisDatabase,
    /// The input ends inside a field.
    UnexpectedEof,
    Utf8Error,
    ParseIntError,
    InvalidLengthEncoding(u8),
    SpecialFormatInvalidIntEncoded,
    InvalidExpiryTimestampFlag(u8),
    AttemptReadKeyWithoutDatabaseSelected,
    /// A value type other than string; these are not decoded.
    UnsupportedValueType(u8),
    /// A special string format other than an 8, 16 or 32-bit integer.
    UnsupportedStringEncoding(u8),
}

#[derive(Debug, Clone, Copy, PartialEq, Eq, Structural)]
pub enum LengthEncoding {
    Remaining6Bits,
    RemainingAndNextByte,
    DiscardRemainingGetNext4Bytes,
    SpecialFormat,
}

pub enum ExpiryTimestamp {
    Seconds(u32),
    Milliseconds(u64),
}

pub open spec fn has_bytes(data: Seq<u8>, pos: int, n: int) -> bool {
    0 <= pos && pos + n <= data.len()
}

pub open spec fn le16(data: Seq<u8>, pos: int) -> nat {
    (data[pos] + data[pos + 1] * 256) as nat
}

pub open spec fn le32(data: Seq<u8>, pos: int) -> nat {
    le16(data, pos) + le16(data, pos + 2) * 65536
}

pub open spec fn le64(data: Seq<u8>, pos: int) -> nat {
    le32(data, pos) + le32(data, pos + 4) * 4294967296
}

/// The scheme and the six low bits of the length byte at `pos`.
pub open spec fn length_encoding_at(data: Seq<u8>, pos: int) -> Result<(LengthEncoding, nat), RdbReadError> {
    if !has_bytes(data, pos, 1) {
        Err(RdbReadError::UnexpectedEof)
    } else {
        let b = data[pos];
        let r = (b % 64) as nat;
        if b / 64 == 0 {
            Ok((LengthEncoding::Remaining6Bits, r))
        } else if b / 64 == 1 {
            Ok((LengthEncoding::RemainingAndNextByte, r))
        } else if b / 64 == 2 {
            Ok((LengthEncoding::DiscardRemainingGetNext4Bytes, 0))
        } else {
            Ok((LengthEncoding::SpecialFormat, r))
        }
    }
}

/// The length that the scheme `enc` with low bits `r` gives, with the bytes
/// it reads from `pos` on: the length and how many bytes were read.
pub open spec fn length_value_at(data: Seq<u8>, pos: int, enc: LengthEncoding, r: nat) -> Result<(nat, nat), RdbReadError> {
    match enc {
        LengthEncoding::Remaining6Bits => Ok((r, 0)),
        LengthEncoding::RemainingAndNextByte => if has_bytes(data, pos, 1) {
            Ok(((r * 256 + data[pos]) as nat, 1))
        } else {
            Err(RdbReadError::UnexpectedEof)
        },
        LengthEncoding::DiscardRemainingGetNext4Bytes => if has_bytes(data, pos, 4) {
            Ok((le32(data, pos), 4))
        } else {
            Err(RdbReadError::UnexpectedEof)
        },
        LengthEncoding::SpecialFormat => Err(RdbReadError::SpecialFormatInvalidIntEncoded),
    }
}

/// A length-encoded integer at `pos`: its value and its size in bytes.
pub open spec fn length_int_at(data: Seq<u8>, pos: int) -> Result<(nat, nat), RdbReadError> {
    match length_encoding_at(data, pos) {
        Ok((enc, r)) => match length_value_at(data, pos + 1, enc, r) {
            Ok((v, n)) => Ok((v, n + 1)),
            Err(e) => Err(e),
        },
        Err(e) => Err(e),
    }
}

/// A string field at `pos`: its text and its size in bytes. The special
/// format holds an 8, 16 or 32-bit integer, which gives its decimal text.
pub open spec fn string_at(data: Seq<u8>, pos: int) -> Result<(Seq<char>, nat), RdbReadError> {
    match length_encoding_at(data, pos) {
        Ok((LengthEncoding::SpecialFormat, sel)) => {
            let p = pos + 1;
            if sel == 0 {
                if has_bytes(data, p, 1) { Ok((decimal_text(data[p] as nat), 2)) } else { Err(RdbReadError::UnexpectedEof) }
            } else if sel == 1 {
                if has_bytes(data, p, 2) { Ok((decimal_text(le16(data, p)), 3)) } else { Err(RdbReadError::UnexpectedEof) }
            } else if sel == 2 {
                if has_bytes(data, p, 4) { Ok((decimal_text(le32(data, p)), 5)) } else { Err(RdbReadError::UnexpectedEof) }
            } else {
                Err(RdbReadError::UnsupportedStringEncoding(sel as u8))
            }
        },
        Ok((enc, r)) => match length_value_at(data, pos + 1, enc, r) {
            Ok((len, n)) => {
                let start = pos + 1 + n;
                if has_bytes(data, start, len as int) {
                    Ok((text_of(data.subrange(start, start + len)), 1 + n + len))
                } else {
                    Err(RdbReadError::UnexpectedEof)
                }
            },
            Err(e) => Err(e),
        },
        Err(e) => Err(e),
    }
}

fn read_u8(data: &[u8], pos: usize) -> (r: Result<u8, RdbReadError>)
    ensures
        match r {
            Ok(b) => has_bytes(data@, pos as int, 1) && b == data@[pos as int],
            Err(e) => !has_bytes(data@, pos as int, 1) && e == RdbReadError::UnexpectedEof,
        },
{
    if pos < data.len() {
        Ok(data[pos])
    } else {
        Err(RdbReadError::UnexpectedEof)
    }
}

/// Two bytes at `pos`, little-endian; the caller has checked that they are there.
fn read_u16_le(data: &[u8], pos: usize) -> (r: u16)
    requires
        has_bytes(data@, pos as int, 2),
    ensures
        r as nat == le16(data@, pos as int),
{
    data[pos] as u16 + (data[pos + 1] as u16) * 256
}

fn read_u32_le(data: &[u8], pos: usize) -> (r: u32)
    requires
        has_bytes(data@, pos as int, 4),
        pos + 4 <= data.len(),
    ensures
        r as nat == le32(data@, pos as int),
{
    read_u16_le(data, pos) as u32 + (read_u16_le(data, pos + 2) as u32) * 65536
}

fn read_u64_le(data: &[u8], pos: usize) -> (r: u64)
    requires
        has_bytes(data@, pos as int, 8),
        pos + 8 <= data.len(),
    ensures
        r as nat == le64(data@, pos as int),
{
    read_u32_le(data, pos) as u64 + (read_u32_le(data, pos + 4) as u64) * 4294967296
}

/// Reads the length byte at `pos`: its scheme and its six low bits.
pub fn read_length_encoding(data: &[u8], pos: usize) -> (r: Result<(LengthEncoding, usize), RdbReadError>)
    ensures
        match r {
            Ok((enc, bits)) => length_encoding_at(data@, pos as int) == Ok::<(LengthEncoding, nat), RdbReadError>((enc, bits as nat)),
            Err(e) => length_encoding_at(data@, pos as int) == Err::<(LengthEncoding, nat), RdbReadError>(e),
        },
{
    let length = read_u8(data, pos)?;
    let remaining_bits = length % 64;
    let (encoding, bits) = match length / 64 {
        0 => (LengthEncoding::Remaining6Bits, remaining_bits),
        1 => (LengthEncoding::RemainingAndNextByte, remaining_bits),
        2 => (LengthEncoding::DiscardRemainingGetNext4Bytes, 0),
        3 => (LengthEncoding::SpecialFormat, remaining_bits),
        x => return Err(RdbReadError::InvalidLengthEncoding(x)),
    };
    Ok((encoding, bits as usize))
}

/// The length that a scheme and its low bits give, reading from `pos`:
/// the length and how many bytes were read.
pub fn interpret_length_encoding(data: &[u8], pos: usize, length_encoding: LengthEncoding, length: usize) -> (r: Result<(usize, usize), RdbReadError>)
    requires
        length < 64,
    ensures
        match r {
            Ok((v, n)) => length_value_at(data@, pos as int, length_encoding, length as nat) == Ok::<(nat, nat), RdbReadError>((v as nat, n as nat)),
            Err(e) => length_value_at(data@, pos as int, length_encoding, length as nat) == Err::<(nat, nat), RdbReadError>(e),
        },
{
    match length_encoding {
        LengthEncoding::Remaining6Bits => Ok((length, 0)),
        LengthEncoding::RemainingAndNextByte => {
            let next = read_u8(data, pos)?;
            Ok((length * 256 + next as usize, 1))
        },
        LengthEncoding::DiscardRemainingGetNext4Bytes => {
            if pos > data.len() || data.len() - pos < 4 {
                return Err(RdbReadError::UnexpectedEof);
            }
            Ok((read_u32_le(data, pos) as usize, 4))
        },
        LengthEncoding::SpecialFormat => Err(RdbReadError::SpecialFormatInvalidIntEncoded),
    }
}


/// A length-encoded integer at `pos`: its value and its size in bytes.
pub fn read_length_encoded_int(data: &[u8], pos: usize) -> (r: Result<(usize, usize), RdbReadError>)
    ensures
        match r {
            Ok((v, n)) => length_int_at(data@, pos as int) == Ok::<(nat, nat), RdbReadError>((v as nat, n as nat)),
            Err(e) => length_int_at(data@, pos as int) == Err::<(nat, nat), RdbReadError>(e),
        },
{
    let (encoding, length) = read_length_encoding(data, pos)?;
    if pos >= data.len() {
        return Err(RdbReadError::UnexpectedEof);
    }
    let (value, n) = interpret_length_encoding(data, pos + 1, encoding, length)?;
    Ok((value, n + 1))
}

/// The decimal text of `n` as a `String`.
fn decimal_string(n: u64) -> (r: String)
    ensures
        r@ == decimal_text(n as nat),
{
    let mut digits: Vec<u8> = Vec::new();
    push_decimal(&mut digits, n);
    assert(digits@ =~= decimal_digits(n as nat));
    proof {
        lemma_decimal_text_utf8(n as nat);
    }
    lossy_string(digits.as_slice())
}

/// A string field at `pos`: its text and its size in bytes.
pub fn read_string_encoded(data: &[u8], pos: usize) -> (r: Result<(String, usize), RdbReadError>)
    ensures
        match r {
            Ok((text, n)) => string_at(data@, pos as int) == Ok::<(Seq<char>, nat), RdbReadError>((text@, n as nat)),
            Err(e) => string_at(data@, pos as int) == Err::<(Seq<char>, nat), RdbReadError>(e),
        },
{
    let (encoding, length) = read_length_encoding(data, pos)?;
    if pos >= data.len() {
        return Err(RdbReadError::UnexpectedEof);
    }
    let p = pos + 1;
    if encoding == LengthEncoding::SpecialFormat {
        let available = data.len() - p;
        if length == 0 {
            if available < 1 {
                return Err(RdbReadError::UnexpectedEof);
            }
            Ok((decimal_string(data[p] as u64), 2))
        } else if length == 1 {
            if available < 2 {
                return Err(RdbReadError::UnexpectedEof);
            }
            Ok((decimal_string(read_u16_le(data, p) as u64), 3))
        } else if length == 2 {
            if available < 4 {
                return Err(RdbReadError::UnexpectedEof);
            }
            Ok((decimal_string(read_u32_le(data, p) as u64), 5))
        } else {
            Err(RdbReadError::UnsupportedStringEncoding(length as u8))
        }
    } else {
        let (length, n) = interpret_length_encoding(data, p, encoding, length)?;
        let start = p + n;
        if start > data.len() || data.len() - start < length {
            return Err(RdbReadError::UnexpectedEof);
        }
        let bytes = &data[start..start + length];
        Ok((lossy_string(bytes), 1 + n + length))
    }
}

/// A value of type `tag` at `pos`: its model and its size in bytes. Only
/// strings (type 0) are decoded.
pub open spec fn value_at(data: Seq<u8>, pos: int, tag: u8) -> Result<(DataValue, nat), RdbReadError> {
    if tag == 0 {
        match string_at(data, pos) {
            Ok((t, n)) => Ok((DataValue::Text(t), n)),
            Err(e) => Err(e),
        }
    } else {
        Err(RdbReadError::UnsupportedValueType(tag))
    }
}

/// A key and a value of type `tag` at `pos`, and their size in bytes.
pub open spec fn key_value_at(data: Seq<u8>, pos: int, tag: u8) -> Result<(Seq<char>, DataValue, nat), RdbReadError> {
    match string_at(data, pos) {
        Ok((k, n)) => match value_at(data, pos + n, tag) {
            Ok((v, m)) => Ok((k, v, n + m)),
            Err(e) => Err(e),
        },
        Err(e) => Err(e),
    }
}

/// Reads a value of type `value_type` at `pos`.
pub fn read_value_type(data: &[u8], pos: usize, value_type: u8) -> (r: Result<(DataType, usize), RdbReadError>)
    ensures
        match r {
            Ok((v, n)) => value_at(data@, pos as int, value_type) == Ok::<(DataValue, nat), RdbReadError>((v@, n as nat)),
            Err(e) => value_at(data@, pos as int, value_type) == Err::<(DataValue, nat), RdbReadError>(e),
        },
{
    if value_type == 0 {
        let (text, n) = read_string_encoded(data, pos)?;
        Ok((DataType::String(text), n))
    } else {
        Err(RdbReadError::UnsupportedValueType(value_type))
    }
}

/// Reads a key and then a value of type `value_type` at `pos`.
pub fn read_key_value(data: &[u8], pos: usize, value_type: u8) -> (r: Result<(String, DataType, usize), RdbReadError>)
    ensures
        match r {
            Ok((k, v, n)) => key_value_at(data@, pos as int, value_type)
                == Ok::<(Seq<char>, DataValue, nat), RdbReadError>((k@, v@, n as nat)),
            Err(e) => key_value_at(data@, pos as int, value_type) == Err::<(Seq<char>, DataValue, nat), RdbReadError>(e),
        },
{
    let total = data.len();
    let (key, n) = read_string_encoded(data, pos)?;
    proof {
        lemma_string_at_size(data@, pos as int);
    }
    let (value, m) = read_value_type(data, pos + n, value_type)?;
    proof {
        lemma_value_at_size(data@, (pos + n) as int, value_type);
    }
    assert(n + m <= total);
    Ok((key, value, n + m))
}

/// The expiry time, in milliseconds, that follows the opcode `flag` at
/// `pos`, and its size in bytes.
pub open spec fn expiry_at(data: Seq<u8>, pos: int, flag: u8) -> Result<(nat, nat), RdbReadError> {
    if flag == 0xFCu8 {
        if has_bytes(data, pos, 8) { Ok((le64(data, pos), 8)) } else { Err(RdbReadError::UnexpectedEof) }
    } else if flag == 0xFDu8 {
        if has_bytes(data, pos, 4) { Ok((le32(data, pos) * 1000, 4)) } else { Err(RdbReadError::UnexpectedEof) }
    } else {
        Err(RdbReadError::InvalidExpiryTimestampFlag(flag))
    }
}

impl ExpiryTimestamp {
    pub open spec fn millis(&self) -> nat {
        match self {
            ExpiryTimestamp::Seconds(s) => *s as nat * 1000,
            ExpiryTimestamp::Milliseconds(ms) => *ms as nat,
        }
    }
}

/// Reads the timestamp that the expiry opcode `flag` announces, at `pos`.
pub fn read_expiry_timestamp(data: &[u8], pos: usize, flag: u8) -> (r: Result<(ExpiryTimestamp, usize), RdbReadError>)
    ensures
        match r {
            Ok((t, n)) => expiry_at(data@, pos as int, flag) == Ok::<(nat, nat), RdbReadError>((t.millis(), n as nat))
                && (flag == 0xFDu8 ==> (t matches ExpiryTimestamp::Seconds(secs) && secs as nat == le32(data@, pos as int)))
                && (flag == 0xFCu8 ==> (t matches ExpiryTimestamp::Milliseconds(ms) && ms as nat == le64(data@, pos as int))),
            Err(e) => expiry_at(data@, pos as int, flag) == Err::<(nat, nat), RdbReadError>(e),
        },
{
    if flag == 0xFCu8 {
        if pos > data.len() || data.len() - pos < 8 {
            return Err(RdbReadError::UnexpectedEof);
        }
        Ok((ExpiryTimestamp::Milliseconds(read_u64_le(data, pos)), 8))
    } else if flag == 0xFDu8 {
        if pos > data.len() || data.len() - pos < 4 {
            return Err(RdbReadError::UnexpectedEof);
        }
        Ok((ExpiryTimestamp::Seconds(read_u32_le(data, pos)), 4))
    } else {
        Err(RdbReadError::InvalidExpiryTimestampFlag(flag))
    }
}

pub proof fn lemma_string_at_size(data: Seq<u8>, pos: int)
    ensures
        string_at(data, pos) matches Ok((_, n)) ==> n >= 1 && pos + n <= data.len(),
{
}

pub proof fn lemma_value_at_size(data: Seq<u8>, pos: int, tag: u8)
    ensures
        value_at(data, pos, tag) matches Ok((_, n)) ==> n >= 1 && pos + n <= data.len(),
{
    lemma_string_at_size(data, pos);
}

pub proof fn lemma_key_value_at_size(data: Seq<u8>, pos: int, tag: u8)
    ensures
        key_value_at(data, pos, tag) matches Ok((_, _, n)) ==> n >= 1 && pos + n <= data.len(),
{
    lemma_string_at_size(data, pos);
    if let Ok((_, n)) = string_at(data, pos) {
        lemma_value_at_size(data, pos + n, tag);
    }
}

pub proof fn lemma_length_int_at_size(data: Seq<u8>, pos: int)
    ensures
        length_int_at(data, pos) matches Ok((_, n)) ==> n >= 1 && pos + n <= data.len(),
{
}


/// How many database indices a snapshot can select: one byte's worth.
pub const SNAPSHOT_DATABASES: usize = 256;

/// What a snapshot holds.
pub struct SnapshotModel {
    pub version: u16,
    pub metadata: Map<Seq<char>, Seq<char>>,
    /// For each database index, its keys and values.
    pub databases: Seq<Map<Seq<char>, DataValue>>,
    /// For each database index, the expiry time in milliseconds since the
    /// Unix epoch of each key whose latest record carried one.
    pub expirations: Seq<Map<Seq<char>, nat>>,
}

pub open spec fn empty_snapshot(version: u16) -> SnapshotModel {
    SnapshotModel {
        version,
        metadata: Map::empty(),
        databases: Seq::new(SNAPSHOT_DATABASES as nat, |i: int| Map::<Seq<char>, DataValue>::empty()),
        expirations: Seq::new(SNAPSHOT_DATABASES as nat, |i: int| Map::<Seq<char>, nat>::empty()),
    }
}

pub open spec fn with_key(m: SnapshotModel, db: nat, k: Seq<char>, v: DataValue) -> SnapshotModel {
    SnapshotModel { databases: m.databases.update(db as int, m.databases[db as int].insert(k, v)), ..m }
}

/// `m` with a key that a record without expiry gave: the value is set and
/// any expiry that an earlier record gave the key is dropped.
pub open spec fn with_plain_key(m: SnapshotModel, db: nat, k: Seq<char>, v: DataValue) -> SnapshotModel {
    let m2 = with_key(m, db, k, v);
    SnapshotModel { expirations: m2.expirations.update(db as int, m2.expirations[db as int].remove(k)), ..m2 }
}

pub open spec fn with_expiry(m: SnapshotModel, db: nat, k: Seq<char>, ms: nat) -> SnapshotModel {
    SnapshotModel { expirations: m.expirations.update(db as int, m.expirations[db as int].insert(k, ms)), ..m }
}

/// The records from `pos` to the end-of-file opcode, applied to `m`, with
/// `db` the database that the last select opcode chose.
pub open spec fn records_from(data: Seq<u8>, pos: int, db: Option<nat>, m: SnapshotModel) -> Result<SnapshotModel, RdbReadError>
    decreases data.len() - pos,
    via records_from_decreases
{
    if !has_bytes(data, pos, 1) {
        Err(RdbReadError::UnexpectedEof)
    } else {
        let op = data[pos];
        let p = pos + 1;
        if op == 0xFAu8 {
            match string_at(data, p) {
                Ok((k, n)) => match string_at(data, p + n) {
                    Ok((v, n2)) => records_from(data, p + n + n2, db, SnapshotModel { metadata: m.metadata.insert(k, v), ..m }),
                    Err(e) => Err(e),
                },
                Err(e) => Err(e),
            }
        } else if op == 0xFBu8 {
            match length_int_at(data, p) {
                Ok((_, n)) => match length_int_at(data, p + n) {
                    Ok((_, n2)) => records_from(data, p + n + n2, db, m),
                    Err(e) => Err(e),
                },
                Err(e) => Err(e),
            }
        } else if op == 0xFCu8 || op == 0xFDu8 {
            match db {
                None => Err(RdbReadError::AttemptReadKeyWithoutDatabaseSelected),
                Some(d) => match expiry_at(data, p, op) {
                    Ok((ms, n)) => {
                        let q = p + n;
                        if !has_bytes(data, q, 1) {
                            Err(RdbReadError::UnexpectedEof)
                        } else {
                            match key_value_at(data, q + 1, data[q]) {
                                Ok((k, v, n2)) => records_from(data, q + 1 + n2, db, with_expiry(with_key(m, d, k, v), d, k, ms)),
                                Err(e) => Err(e),
                            }
                        }
                    },
                    Err(e) => Err(e),
                },
            }
        } else if op == 0xFEu8 {
            if has_bytes(data, p, 1) {
                records_from(data, p + 1, Some(data[p] as nat), m)
            } else {
                Err(RdbReadError::UnexpectedEof)
            }
        } else if op == 0xFFu8 {
            if has_bytes(data, p, 8) {
                Ok(m)
            } else {
                Err(RdbReadError::UnexpectedEof)
            }
        } else {
            match db {
                None => Err(RdbReadError::AttemptReadKeyWithoutDatabaseSelected),
                Some(d) => match key_value_at(data, p, op) {
                    Ok((k, v, n)) => records_from(data, p + n, db, with_plain_key(m, d, k, v)),
                    Err(e) => Err(e),
                },
            }
        }
    }
}

#[via_fn]
proof fn records_from_decreases(data: Seq<u8>, pos: int, db: Option<nat>, m: SnapshotModel) {
    if has_bytes(data, pos, 1) {
        let p = pos + 1;
        lemma_string_at_size(data, p);
        if let Ok((_, n)) = string_at(data, p) {
            lemma_string_at_size(data, p + n);
        }
        lemma_length_int_at_size(data, p);
        if let Ok((_, n)) = length_int_at(data, p) {
            lemma_length_int_at_size(data, p + n);
        }
        if let Ok((_, n)) = expiry_at(data, p, data[pos]) {
            if has_bytes(data, p + n, 1) {
                lemma_key_value_at_size(data, p + n + 1, data[p + n]);
            }
        }
        lemma_key_value_at_size(data, p, data[pos]);
    }
}

pub open spec fn is_magic(b: Seq<u8>) -> bool {
    b == seq![82u8, 69u8, 68u8, 73u8, 83u8]
}

/// A snapshot file: `REDIS`, a version of four digits, then the records.
pub open spec fn snapshot_of(data: Seq<u8>) -> Result<SnapshotModel, RdbReadError> {
    if data.len() < 5 {
        Err(RdbReadError::UnexpectedEof)
    } else if !is_magic(data.take(5)) {
        Err(RdbReadError::NotRedisDatabase)
    } else if data.len() < 9 {
        Err(RdbReadError::UnexpectedEof)
    } else if !valid_utf8(data.subrange(5, 9)) {
        Err(RdbReadError::Utf8Error)
    } else {
        match int_text_value(data.subrange(5, 9), 0, u16::MAX as int) {
            Some(v) => records_from(data, 9, None, empty_snapshot(v as u16)),
            None => Err(RdbReadError::ParseIntError),
        }
    }
}

/// A decoded snapshot.
pub struct RdbData {
    pub rdb_version: u16,
    pub metadata: Table<String>,
    /// One table for each database index.
    pub databases: Vec<Table<DataType>>,
    /// One table for each database index: expiry times in milliseconds since
    /// the Unix epoch.
    pub expirations: Vec<Table<u64>>,
}

impl View for RdbData {
    type V = SnapshotModel;

    open spec fn view(&self) -> SnapshotModel {
        SnapshotModel {
            version: self.rdb_version,
            metadata: self.metadata@.map_values(|s: String| s@),
            databases: self.databases@.map_values(|t: Table<DataType>| t@.map_values(|d: DataType| d@)),
            expirations: self.expirations@.map_values(|t: Table<u64>| t@.map_values(|x: u64| x as nat)),
        }
    }
}

impl RdbData {
    pub open spec fn wf(&self) -> bool {
        &&& self.metadata.wf()
        &&& self.databases@.len() == SNAPSHOT_DATABASES
        &&& self.expirations@.len() == SNAPSHOT_DATABASES
        &&& forall|i: int| 0 <= i < SNAPSHOT_DATABASES ==> (#[trigger] self.databases@[i]).wf()
        &&& forall|i: int| 0 <= i < SNAPSHOT_DATABASES ==> (#[trigger] self.expirations@[i]).wf()
    }

    fn empty(version: u16) -> (r: RdbData)
        ensures
            r.wf(),
            r@ == empty_snapshot(version),
    {
        let mut databases: Vec<Table<DataType>> = Vec::new();
        let mut expirations: Vec<Table<u64>> = Vec::new();
        let mut i: usize = 0;
        while i < SNAPSHOT_DATABASES
            invariant
                i <= SNAPSHOT_DATABASES,
                databases@.len() == i,
                expirations@.len() == i,
                forall|j: int| 0 <= j < i ==> (#[trigger] databases@[j]).wf() && databases@[j]@ == Map::<Seq<char>, DataType>::empty(),
                forall|j: int| 0 <= j < i ==> (#[trigger] expirations@[j]).wf() && expirations@[j]@ == Map::<Seq<char>, u64>::empty(),
            decreases SNAPSHOT_DATABASES - i,
        {
            databases.push(Table::new());
            expirations.push(Table::new());
            i = i + 1;
        }
        let r = RdbData { rdb_version: version, metadata: Table::new(), databases, expirations };
        assert(r@.metadata =~= Map::<Seq<char>, Seq<char>>::empty());
        assert(r@.databases =~= empty_snapshot(version).databases) by {
            assert forall|j: int| 0 <= j < SNAPSHOT_DATABASES implies #[trigger] r@.databases[j] == Map::<Seq<char>, DataValue>::empty() by {
                assert(r@.databases[j] =~= Map::<Seq<char>, DataValue>::empty());
            }
        }
        assert(r@.expirations =~= empty_snapshot(version).expirations) by {
            assert forall|j: int| 0 <= j < SNAPSHOT_DATABASES implies #[trigger] r@.expirations[j] == Map::<Seq<char>, nat>::empty() by {
                assert(r@.expirations[j] =~= Map::<Seq<char>, nat>::empty());
            }
        }
        r
    }

    fn put_metadata(&mut self, key: String, value: String)
        requires
            old(self).wf(),
        ensures
            final(self).wf(),
            final(self)@ == (SnapshotModel { metadata: old(self)@.metadata.insert(key@, value@), ..old(self)@ }),
    {
        let ghost k = key@;
        let ghost v = value@;
        self.metadata.insert(key, value);
        assert(self@.metadata =~= old(self)@.metadata.insert(k, v));
    }

    fn put_key(&mut self, db: usize, key: String, value: DataType)
        requires
            old(self).wf(),
            db < SNAPSHOT_DATABASES,
        ensures
            final(self).wf(),
            final(self)@ == with_key(old(self)@, db as nat, key@, value@),
    {
        let ghost k = key@;
        let ghost v = value@;
        self.databases[db].insert(key, value);
        proof {
            let t = self.databases@[db as int];
            assert(t@.map_values(|d: DataType| d@) =~= old(self)@.databases[db as int].insert(k, v));
            assert(self@.databases =~= with_key(old(self)@, db as nat, k, v).databases);
        }
    }

    fn drop_expiry(&mut self, db: usize, key: &String)
        requires
            old(self).wf(),
            db < SNAPSHOT_DATABASES,
        ensures
            final(self).wf(),
            final(self)@ == (SnapshotModel {
                expirations: old(self)@.expirations.update(db as int, old(self)@.expirations[db as int].remove(key@)),
                ..old(self)@
            }),
    {
        self.expirations[db].remove(key);
        proof {
            let t = self.expirations@[db as int];
            assert(t@.map_values(|x: u64| x as nat) =~= old(self)@.expirations[db as int].remove(key@));
            assert(self@.expirations =~= old(self)@.expirations.update(db as int, old(self)@.expirations[db as int].remove(key@)));
        }
    }

    fn put_expiry(&mut self, db: usize, key: String, ms: u64)
        requires
            old(self).wf(),
            db < SNAPSHOT_DATABASES,
        ensures
            final(self).wf(),
            final(self)@ == with_expiry(old(self)@, db as nat, key@, ms as nat),
    {
        let ghost k = key@;
        self.expirations[db].insert(key, ms);
        proof {
            let t = self.expirations@[db as int];
            assert(t@.map_values(|x: u64| x as nat) =~= old(self)@.expirations[db as int].insert(k, ms as nat));
            assert(self@.expirations =~= with_expiry(old(self)@, db as nat, k, ms as nat).expirations);
        }
    }
}

pub open spec fn selected(current: Option<usize>) -> Option<nat> {
    match current {
        Some(d) => Some(d as nat),
        None => None,
    }
}

pub struct RdbReader;

impl RdbReader {
    /// Whether `data` starts with the magic marker `REDIS`.
    pub fn is_rdb_file(data: &[u8]) -> (r: Result<bool, RdbReadError>)
        ensures
            match r {
                Ok(b) => data@.len() >= 5 && b == is_magic(data@.take(5)),
                Err(e) => data@.len() < 5 && e == RdbReadError::UnexpectedEof,
            },
    {
        if data.len() < 5 {
            return Err(RdbReadError::UnexpectedEof);
        }
        let b = data[0] == 82u8 && data[1] == 69u8 && data[2] == 68u8 && data[3] == 73u8 && data[4] == 83u8;
        assert(b == (data@.take(5) =~= seq![82u8, 69u8, 68u8, 73u8, 83u8]));
        Ok(b)
    }

    /// Decodes a whole snapshot file.
    pub fn read(data: &[u8]) -> (r: Result<RdbData, RdbReadError>)
        ensures
            match r {
                Ok(d) => d.wf() && snapshot_of(data@) == Ok::<SnapshotModel, RdbReadError>(d@),
                Err(e) => snapshot_of(data@) == Err::<SnapshotModel, RdbReadError>(e),
            },
    {
        if !Self::is_rdb_file(data)? {
            return Err(RdbReadError::NotRedisDatabase);
        }
        if data.len() < 9 {
            return Err(RdbReadError::UnexpectedEof);
        }
        let version_text = &data[5..9];
        if !is_utf8(version_text) {
            return Err(RdbReadError::Utf8Error);
        }
        let version = match parse_int(version_text, 0, 65535) {
            Some(v) => v as u16,
            None => return Err(RdbReadError::ParseIntError),
        };
        let mut out = RdbData::empty(version);
        let mut pos: usize = 9;
        let mut current: Option<usize> = None;
        let total = data.len();
        loop
            invariant
                out.wf(),
                total == data@.len(),
                pos <= total,
                current matches Some(d) ==> d < SNAPSHOT_DATABASES,
                snapshot_of(data@) == records_from(data@, pos as int, selected(current), out@),
            decreases total - pos,
        {
            let opcode = read_u8(data, pos)?;
            let p = pos + 1;
            if opcode == 0xFAu8 {
                let (key, n) = read_string_encoded(data, p)?;
                proof {
                    lemma_string_at_size(data@, p as int);
                }
                let (value, n2) = read_string_encoded(data, p + n)?;
                proof {
                    lemma_string_at_size(data@, (p + n) as int);
                }
                out.put_metadata(key, value);
                pos = p + n + n2;
            } else if opcode == 0xFBu8 {
                let (_db_table_size, n) = read_length_encoded_int(data, p)?;
                proof {
                    lemma_length_int_at_size(data@, p as int);
                }
                let (_expiry_table_size, n2) = read_length_encoded_int(data, p + n)?;
                proof {
                    lemma_length_int_at_size(data@, (p + n) as int);
                }
                pos = p + n + n2;
            } else if opcode == 0xFCu8 || opcode == 0xFDu8 {
                let db = match current {
                    Some(d) => d,
                    None => return Err(RdbReadError::AttemptReadKeyWithoutDatabaseSelected),
                };
                let (expiry, n) = read_expiry_timestamp(data, p, opcode)?;
                let q = p + n;
                let value_type = read_u8(data, q)?;
                let (key, value, n2) = read_key_value(data, q + 1, value_type)?;
                proof {
                    lemma_key_value_at_size(data@, (q + 1) as int, value_type);
                }
                let ms: u64 = match expiry {
                    ExpiryTimestamp::Seconds(secs) => secs as u64 * 1000,
                    ExpiryTimestamp::Milliseconds(ms) => ms,
                };
                let key_copy = key.clone();
                out.put_key(db, key, value);
                out.put_expiry(db, key_copy, ms);
                pos = q + 1 + n2;
            } else if opcode == 0xFEu8 {
                let database = read_u8(data, p)?;
                current = Some(database as usize);
                pos = p + 1;
            } else if opcode == 0xFFu8 {
                if total - p < 8 {
                    return Err(RdbReadError::UnexpectedEof);
                }
                return Ok(out);
            } else {
                let db = match current {
                    Some(d) => d,
                    None => return Err(RdbReadError::AttemptReadKeyWithoutDatabaseSelected),
                };
                let (key, value, n) = read_key_value(data, p, opcode)?;
                proof {
                    lemma_key_value_at_size(data@, p as int, opcode);
                }
                let key_copy = key.clone();
                out.put_key(db, key, value);
                out.drop_expiry(db, &key_copy);
                pos = p + n;
            }
        }
    }
}

} // verus!
