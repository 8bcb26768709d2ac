//! The primitive codec: bounds-checked readers and appending writers for the
//! fixed-width and length-prefixed values a table cell can hold, together
//! with the specification functions that pin down every byte.
//!
//! Readers take a buffer and a cursor and never read past the end; writers
//! append to a growable buffer. The `parse_*` spec functions are the single
//! source of truth for what a buffer means; the `enc_*` spec functions for
//! what a value writes.

use vstd::prelude::*;
use vstd::bytes::{
    lemma_auto_spec_u16_to_from_le_bytes, spec_u16_from_le_bytes, spec_u16_to_le_bytes,
    spec_u32_from_le_bytes, spec_u32_to_le_bytes, spec_u64_from_le_bytes, spec_u64_to_le_bytes,
    u16_from_le_bytes, u16_to_le_bytes, u32_from_le_bytes, u32_to_le_bytes, u64_from_le_bytes,
    u64_to_le_bytes,
};
use vstd::slice::{slice_index_get, slice_subrange, slice_to_vec};
use vstd::utf8::{decode_utf8, encode_utf8, encode_utf8_decode_utf8, valid_utf8};
use crate::data::{data_matches, DataV, DecodedData};
use crate::error::TableError;
use crate::schema::FieldType;
use crate::strings::string_from_utf8;
use crate::utf16::{decode_utf16, decode_utf16_units, encode_utf16_units, utf16_of, valid_utf16};

verus! {

// ---------------------------------------------------------------------------
// Two's-complement views of the signed widths.
// ---------------------------------------------------------------------------
/// The unsigned bit pattern of a signed 32-bit value.
pub open spec fn u32_bits_of_i32(x: i32) -> u32 {
    if x >= 0 {
        x as u32
    } else {
        (x + 0x1_0000_0000) as u32
    }
}

/// The signed 32-bit value of an unsigned bit pattern.
pub open spec fn i32_of_u32_bits(u: u32) -> i32 {
    if u < 0x8000_0000 {
        u as i32
    } else {
        (u - 0x1_0000_0000) as i32
    }
}

/// The unsigned bit pattern of a signed 64-bit value.
pub open spec fn u64_bits_of_i64(x: i64) -> u64 {
    if x >= 0 {
        x as u64
    } else {
        (x + 0x1_0000_0000_0000_0000) as u64
    }
}

/// The signed 64-bit value of an unsigned bit pattern.
pub open spec fn i64_of_u64_bits(u: u64) -> i64 {
    if u < 0x8000_0000_0000_0000 {
        u as i64
    } else {
        (u - 0x1_0000_0000_0000_0000) as i64
    }
}

/// The two's-complement views invert each other.
pub proof fn lemma_bits_round_trip()
    ensures
        forall|x: i32| #[trigger] i32_of_u32_bits(u32_bits_of_i32(x)) == x,
        forall|u: u32| #[trigger] u32_bits_of_i32(i32_of_u32_bits(u)) == u,
        forall|x: i64| #[trigger] i64_of_u64_bits(u64_bits_of_i64(x)) == x,
        forall|u: u64| #[trigger] u64_bits_of_i64(i64_of_u64_bits(u)) == u,
{
}

/// The unsigned bit pattern of a signed 32-bit value, executable.
pub fn i32_to_bits(x: i32) -> (r: u32)
    ensures
        r == u32_bits_of_i32(x),
{
    if x >= 0 {
        x as u32
    } else {
        ((x as i64) + 0x1_0000_0000) as u32
    }
}

/// The signed 32-bit value of an unsigned bit pattern, executable.
pub fn bits_to_i32(u: u32) -> (r: i32)
    ensures
        r == i32_of_u32_bits(u),
{
    if u < 0x8000_0000 {
        u as i32
    } else {
        ((u as i64) - 0x1_0000_0000) as i32
    }
}

/// The unsigned bit pattern of a signed 64-bit value, executable.
pub fn i64_to_bits(x: i64) -> (r: u64)
    ensures
        r == u64_bits_of_i64(x),
{
    if x >= 0 {
        x as u64
    } else {
        ((x as i128) + 0x1_0000_0000_0000_0000) as u64
    }
}

/// The signed 64-bit value of an unsigned bit pattern, executable.
pub fn bits_to_i64(u: u64) -> (r: i64)
    ensures
        r == i64_of_u64_bits(u),
{
    if u < 0x8000_0000_0000_0000 {
        u as i64
    } else {
        ((u as i128) - 0x1_0000_0000_0000_0000) as i64
    }
}

// ---------------------------------------------------------------------------
// What a value writes.
// ---------------------------------------------------------------------------
/// A boolean's canonical single byte.
pub open spec fn enc_bool(b: bool) -> Seq<u8> {
    seq![if b { 1u8 } else { 0u8 }]
}

/// Little-endian bytes of a sequence of 16-bit units.
pub open spec fn units_to_bytes(units: Seq<u16>) -> Seq<u8>
    decreases units.len(),
{
    if units.len() == 0 {
        Seq::empty()
    } else {
        spec_u16_to_le_bytes(units[0]) + units_to_bytes(units.drop_first())
    }
}

/// A length-prefixed UTF-8 string: byte count as 16-bit little-endian, then
/// the UTF-8 bytes.
pub open spec fn enc_str_u8(s: Seq<char>) -> Seq<u8> {
    spec_u16_to_le_bytes(encode_utf8(s).len() as u16) + encode_utf8(s)
}

/// A length-prefixed UTF-16 string: unit count as 16-bit little-endian, then
/// the units in little-endian order.
pub open spec fn enc_str_u16(s: Seq<char>) -> Seq<u8> {
    spec_u16_to_le_bytes(utf16_of(s).len() as u16) + units_to_bytes(utf16_of(s))
}

/// The bytes one cell value writes, determined by its variant.
pub open spec fn enc_value(v: DataV) -> Seq<u8> {
    match v {
        DataV::Boolean(b) => enc_bool(b),
        DataV::Float(bits) => spec_u32_to_le_bytes(bits),
        DataV::Integer(x) => spec_u32_to_le_bytes(u32_bits_of_i32(x)),
        DataV::LongInteger(x) => spec_u64_to_le_bytes(u64_bits_of_i64(x)),
        DataV::StringU8(s) => enc_str_u8(s),
        DataV::StringU16(s) => enc_str_u16(s),
        DataV::OptionalStringU8(s) => if s.len() == 0 {
            seq![0u8]
        } else {
            seq![1u8] + enc_str_u8(s)
        },
        DataV::OptionalStringU16(s) => if s.len() == 0 {
            seq![0u8]
        } else {
            seq![1u8] + enc_str_u16(s)
        },
    }
}

/// True when the value can be written at all: a string's length prefix is 16
/// bits wide, so its encoded length must fit in it.
pub open spec fn data_fits(v: DataV) -> bool {
    match v {
        DataV::StringU8(s) => encode_utf8(s).len() <= 0xFFFF,
        DataV::StringU16(s) => utf16_of(s).len() <= 0xFFFF,
        DataV::OptionalStringU8(s) => encode_utf8(s).len() <= 0xFFFF,
        DataV::OptionalStringU16(s) => utf16_of(s).len() <= 0xFFFF,
        _ => true,
    }
}

/// Whether the value can be written: checks a string's encoded length
/// against the 16-bit prefix.
pub fn check_fits(v: &DecodedData) -> (r: bool)
    ensures
        r == data_fits(v@),
{
    match v {
        DecodedData::StringU8(s) => s.as_str().as_bytes().len() <= 0xFFFF,
        DecodedData::OptionalStringU8(s) => s.as_str().as_bytes().len() <= 0xFFFF,
        DecodedData::StringU16(s) => encode_utf16_units(s.as_str()).len() <= 0xFFFF,
        DecodedData::OptionalStringU16(s) => encode_utf16_units(s.as_str()).len() <= 0xFFFF,
        _ => true,
    }
}

// ---------------------------------------------------------------------------
// What a buffer means.
// ---------------------------------------------------------------------------
/// One byte read as a canonical boolean: 0 or 1, anything else an error.
pub open spec fn parse_bool(data: Seq<u8>, i: int) -> Result<(bool, int), TableError> {
    if i + 1 <= data.len() {
        if data[i] == 0 {
            Ok((false, i + 1))
        } else if data[i] == 1 {
            Ok((true, i + 1))
        } else {
            Err(TableError::InvalidBool)
        }
    } else {
        Err(TableError::OutOfBounds)
    }
}

/// Two bytes read as a little-endian unsigned 16-bit value.
pub open spec fn parse_u16(data: Seq<u8>, i: int) -> Result<(u16, int), TableError> {
    if i + 2 <= data.len() {
        Ok((spec_u16_from_le_bytes(data.subrange(i, i + 2)), i + 2))
    } else {
        Err(TableError::OutOfBounds)
    }
}

/// Four bytes read as a little-endian unsigned 32-bit value.
pub open spec fn parse_u32(data: Seq<u8>, i: int) -> Result<(u32, int), TableError> {
    if i + 4 <= data.len() {
        Ok((spec_u32_from_le_bytes(data.subrange(i, i + 4)), i + 4))
    } else {
        Err(TableError::OutOfBounds)
    }
}

/// Eight bytes read as a little-endian unsigned 64-bit value.
pub open spec fn parse_u64(data: Seq<u8>, i: int) -> Result<(u64, int), TableError> {
    if i + 8 <= data.len() {
        Ok((spec_u64_from_le_bytes(data.subrange(i, i + 8)), i + 8))
    } else {
        Err(TableError::OutOfBounds)
    }
}

/// `count` consecutive little-endian 16-bit units starting at `i`; all in
/// bounds by precondition of use.
pub open spec fn parse_units(data: Seq<u8>, i: int, count: int) -> Seq<u16>
    decreases count,
{
    if count <= 0 {
        Seq::empty()
    } else {
        seq![spec_u16_from_le_bytes(data.subrange(i, i + 2))] + parse_units(data, i + 2, count - 1)
    }
}

/// A length-prefixed UTF-8 string: rejects a short buffer and bytes that are
/// not valid UTF-8.
pub open spec fn parse_str_u8(data: Seq<u8>, i: int) -> Result<(Seq<char>, int), TableError> {
    match parse_u16(data, i) {
        Ok((count, j)) => if j + count <= data.len() {
            if valid_utf8(data.subrange(j, j + count)) {
                Ok((decode_utf8(data.subrange(j, j + count)), j + count))
            } else {
                Err(TableError::InvalidString)
            }
        } else {
            Err(TableError::OutOfBounds)
        },
        Err(e) => Err(e),
    }
}

/// A length-prefixed UTF-16 string: rejects a short buffer and ill-formed
/// surrogates.
pub open spec fn parse_str_u16(data: Seq<u8>, i: int) -> Result<(Seq<char>, int), TableError> {
    match parse_u16(data, i) {
        Ok((count, j)) => if j + 2 * count <= data.len() {
            if valid_utf16(parse_units(data, j, count as int)) {
                Ok((decode_utf16(parse_units(data, j, count as int)), j + 2 * count))
            } else {
                Err(TableError::InvalidString)
            }
        } else {
            Err(TableError::OutOfBounds)
        },
        Err(e) => Err(e),
    }
}

/// One cell read according to its column type.
pub open spec fn parse_value(data: Seq<u8>, i: int, t: FieldType) -> Result<
    (DataV, int),
    TableError,
> {
    match t {
        FieldType::Boolean => match parse_bool(data, i) {
            Ok((b, j)) => Ok((DataV::Boolean(b), j)),
            Err(e) => Err(e),
        },
        FieldType::Float => match parse_u32(data, i) {
            Ok((u, j)) => Ok((DataV::Float(u), j)),
            Err(e) => Err(e),
        },
        FieldType::Integer => match parse_u32(data, i) {
            Ok((u, j)) => Ok((DataV::Integer(i32_of_u32_bits(u)), j)),
            Err(e) => Err(e),
        },
        FieldType::LongInteger => match parse_u64(data, i) {
            Ok((u, j)) => Ok((DataV::LongInteger(i64_of_u64_bits(u)), j)),
            Err(e) => Err(e),
        },
        FieldType::StringU8 => match parse_str_u8(data, i) {
            Ok((s, j)) => Ok((DataV::StringU8(s), j)),
            Err(e) => Err(e),
        },
        FieldType::StringU16 => match parse_str_u16(data, i) {
            Ok((s, j)) => Ok((DataV::StringU16(s), j)),
            Err(e) => Err(e),
        },
        FieldType::OptionalStringU8 => match parse_bool(data, i) {
            Ok((false, j)) => Ok((DataV::OptionalStringU8(Seq::empty()), j)),
            Ok((true, j)) => match parse_str_u8(data, j) {
                Ok((s, k)) => Ok((DataV::OptionalStringU8(s), k)),
                Err(e) => Err(e),
            },
            Err(e) => Err(e),
        },
        FieldType::OptionalStringU16 => match parse_bool(data, i) {
            Ok((false, j)) => Ok((DataV::OptionalStringU16(Seq::empty()), j)),
            Ok((true, j)) => match parse_str_u16(data, j) {
                Ok((s, k)) => Ok((DataV::OptionalStringU16(s), k)),
                Err(e) => Err(e),
            },
            Err(e) => Err(e),
        },
    }
}

// ---------------------------------------------------------------------------
// Writers.
// ---------------------------------------------------------------------------
/// Appends a boolean's canonical byte.
pub fn encode_bool(buf: &mut Vec<u8>, v: bool)
    ensures
        final(buf)@ == old(buf)@ + enc_bool(v),
{
    buf.push(if v { 1 } else { 0 });
    proof {
        assert(buf@ =~= old(buf)@ + enc_bool(v));
    }
}

/// Appends a 16-bit value, little-endian.
pub fn encode_u16(buf: &mut Vec<u8>, x: u16)
    ensures
        final(buf)@ == old(buf)@ + spec_u16_to_le_bytes(x),
{
    let mut b = u16_to_le_bytes(x);
    buf.append(&mut b);
}

/// Appends a 32-bit value, little-endian.
pub fn encode_u32(buf: &mut Vec<u8>, x: u32)
    ensures
        final(buf)@ == old(buf)@ + spec_u32_to_le_bytes(x),
{
    let mut b = u32_to_le_bytes(x);
    buf.append(&mut b);
}

/// Appends a 64-bit value, little-endian.
pub fn encode_u64(buf: &mut Vec<u8>, x: u64)
    ensures
        final(buf)@ == old(buf)@ + spec_u64_to_le_bytes(x),
{
    let mut b = u64_to_le_bytes(x);
    buf.append(&mut b);
}

/// Appends a length-prefixed UTF-8 string; fails, writing nothing, when the
/// byte length does not fit the 16-bit prefix.
pub fn encode_str_u8(buf: &mut Vec<u8>, s: &str) -> (r: Result<(), TableError>)
    ensures
        r is Ok <==> encode_utf8(s@).len() <= 0xFFFF,
        r is Ok ==> final(buf)@ == old(buf)@ + enc_str_u8(s@),
        r is Err ==> final(buf)@ == old(buf)@,
{
    let bytes = s.as_bytes_vec();
    if bytes.len() > 0xFFFF {
        return Err(TableError::ShapeMismatch { row: 0 });
    }
    let n: u16 = bytes.len() as u16;
    encode_u16(buf, n);
    let mut b = bytes;
    buf.append(&mut b);
    proof {
        assert(buf@ =~= old(buf)@ + enc_str_u8(s@));
    }
    Ok(())
}

/// Appends a sequence of 16-bit units, little-endian each.
pub fn encode_units(buf: &mut Vec<u8>, units: &Vec<u16>)
    ensures
        final(buf)@ == old(buf)@ + units_to_bytes(units@),
{
    let n = units.len();
    let mut k: usize = 0;
    proof {
        assert(units@.skip(0) =~= units@);
    }
    while k < n
        invariant
            k <= n,
            n == units@.len(),
            old(buf)@ + units_to_bytes(units@) =~= buf@ + units_to_bytes(units@.skip(k as int)),
        decreases n - k,
    {
        proof {
            assert(units@.skip(k as int)[0] == units@[k as int]);
            assert(units@.skip(k as int).drop_first() =~= units@.skip(k + 1));
        }
        encode_u16(buf, units[k]);
        proof {
            assert(old(buf)@ + units_to_bytes(units@) =~= buf@ + units_to_bytes(
                units@.skip(k + 1),
            ));
        }
        k += 1;
    }
    proof {
        assert(units@.skip(n as int) =~= Seq::<u16>::empty());
        assert(old(buf)@ + units_to_bytes(units@) =~= buf@);
    }
}

/// Appends a length-prefixed UTF-16 string; fails, writing nothing, when the
/// unit count does not fit the 16-bit prefix.
pub fn encode_str_u16(buf: &mut Vec<u8>, s: &str) -> (r: Result<(), TableError>)
    ensures
        r is Ok <==> utf16_of(s@).len() <= 0xFFFF,
        r is Ok ==> final(buf)@ == old(buf)@ + enc_str_u16(s@),
        r is Err ==> final(buf)@ == old(buf)@,
{
    let units = encode_utf16_units(s);
    if units.len() > 0xFFFF {
        return Err(TableError::ShapeMismatch { row: 0 });
    }
    let n: u16 = units.len() as u16;
    encode_u16(buf, n);
    encode_units(buf, &units);
    proof {
        assert(buf@ =~= old(buf)@ + enc_str_u16(s@));
    }
    Ok(())
}

/// Appends one cell value according to its variant; fails, writing nothing,
/// exactly when the value cannot fit its length prefix.
pub fn encode_value(buf: &mut Vec<u8>, v: &DecodedData) -> (r: Result<(), TableError>)
    ensures
        r is Ok <==> data_fits(v@),
        r is Ok ==> final(buf)@ == old(buf)@ + enc_value(v@),
        r is Err ==> final(buf)@ == old(buf)@,
{
    match v {
        DecodedData::Boolean(b) => {
            encode_bool(buf, *b);
            Ok(())
        },
        DecodedData::Float(x) => {
            encode_u32(buf, *x);
            Ok(())
        },
        DecodedData::Integer(x) => {
            encode_u32(buf, i32_to_bits(*x));
            Ok(())
        },
        DecodedData::LongInteger(x) => {
            encode_u64(buf, i64_to_bits(*x));
            Ok(())
        },
        DecodedData::StringU8(s) => encode_str_u8(buf, s.as_str()),
        DecodedData::StringU16(s) => encode_str_u16(buf, s.as_str()),
        DecodedData::OptionalStringU8(s) => {
            if s.as_str().unicode_len() == 0 {
                encode_bool(buf, false);
                proof {
                    assert(buf@ =~= old(buf)@ + enc_value(v@));
                }
                Ok(())
            } else {
                encode_bool(buf, true);
                let r = encode_str_u8(buf, s.as_str());
                match r {
                    Ok(()) => {
                        proof {
                            assert(buf@ =~= old(buf)@ + enc_value(v@));
                        }
                        Ok(())
                    },
                    Err(e) => {
                        // Undo the presence byte so failure writes nothing.
                        let _ = buf.pop();
                        proof {
                            assert(buf@ =~= old(buf)@);
                        }
                        Err(e)
                    },
                }
            }
        },
        DecodedData::OptionalStringU16(s) => {
            if s.as_str().unicode_len() == 0 {
                encode_bool(buf, false);
                proof {
                    assert(buf@ =~= old(buf)@ + enc_value(v@));
                }
                Ok(())
            } else {
                encode_bool(buf, true);
                let r = encode_str_u16(buf, s.as_str());
                match r {
                    Ok(()) => {
                        proof {
                            assert(buf@ =~= old(buf)@ + enc_value(v@));
                        }
                        Ok(())
                    },
                    Err(e) => {
                        let _ = buf.pop();
                        proof {
                            assert(buf@ =~= old(buf)@);
                        }
                        Err(e)
                    },
                }
            }
        },
    }
}

// ---------------------------------------------------------------------------
// Readers.
// ---------------------------------------------------------------------------
/// Reads a canonical boolean byte and advances the cursor.
pub fn decode_bool(data: &[u8], index: &mut usize) -> (r: Result<bool, TableError>)
    ensures
        match r {
            Ok(v) => parse_bool(data@, *old(index) as int) == Ok::<(bool, int), TableError>(
                (v, *final(index) as int),
            ),
            Err(e) => parse_bool(data@, *old(index) as int) == Err::<(bool, int), TableError>(e),
        },
{
    let i = *index;
    if i < data.len() {
        let b = *slice_index_get(data, i);
        if b == 0 {
            *index = i + 1;
            Ok(false)
        } else if b == 1 {
            *index = i + 1;
            Ok(true)
        } else {
            Err(TableError::InvalidBool)
        }
    } else {
        Err(TableError::OutOfBounds)
    }
}

/// Reads a little-endian 16-bit value and advances the cursor.
pub fn decode_u16(data: &[u8], index: &mut usize) -> (r: Result<u16, TableError>)
    ensures
        match r {
            Ok(v) => parse_u16(data@, *old(index) as int) == Ok::<(u16, int), TableError>(
                (v, *final(index) as int),
            ),
            Err(e) => parse_u16(data@, *old(index) as int) == Err::<(u16, int), TableError>(e),
        },
{
    let i = *index;
    if data.len() >= 2 && i <= data.len() - 2 {
        let s = slice_subrange(data, i, i + 2);
        let v = u16_from_le_bytes(s);
        *index = i + 2;
        Ok(v)
    } else {
        Err(TableError::OutOfBounds)
    }
}

/// Reads a little-endian 32-bit value and advances the cursor.
pub fn decode_u32(data: &[u8], index: &mut usize) -> (r: Result<u32, TableError>)
    ensures
        match r {
            Ok(v) => parse_u32(data@, *old(index) as int) == Ok::<(u32, int), TableError>(
                (v, *final(index) as int),
            ),
            Err(e) => parse_u32(data@, *old(index) as int) == Err::<(u32, int), TableError>(e),
        },
{
    let i = *index;
    if data.len() >= 4 && i <= data.len() - 4 {
        let s = slice_subrange(data, i, i + 4);
        let v = u32_from_le_bytes(s);
        *index = i + 4;
        Ok(v)
    } else {
        Err(TableError::OutOfBounds)
    }
}

/// Reads a little-endian 64-bit value and advances the cursor.
pub fn decode_u64(data: &[u8], index: &mut usize) -> (r: Result<u64, TableError>)
    ensures
        match r {
            Ok(v) => parse_u64(data@, *old(index) as int) == Ok::<(u64, int), TableError>(
                (v, *final(index) as int),
            ),
            Err(e) => parse_u64(data@, *old(index) as int) == Err::<(u64, int), TableError>(e),
        },
{
    let i = *index;
    if data.len() >= 8 && i <= data.len() - 8 {
        let s = slice_subrange(data, i, i + 8);
        let v = u64_from_le_bytes(s);
        *index = i + 8;
        Ok(v)
    } else {
        Err(TableError::OutOfBounds)
    }
}

/// Reads a length-prefixed UTF-8 string and advances the cursor.
pub fn decode_str_u8(data: &[u8], index: &mut usize) -> (r: Result<String, TableError>)
    ensures
        match r {
            Ok(s) => parse_str_u8(data@, *old(index) as int) == Ok::<(Seq<char>, int), TableError>(
                (s@, *final(index) as int),
            ),
            Err(e) => parse_str_u8(data@, *old(index) as int) == Err::<
                (Seq<char>, int),
                TableError,
            >(e),
        },
{
    let i = *index;
    let count = match decode_u16(data, index) {
        Ok(c) => c,
        Err(e) => {
            return Err(e);
        },
    };
    let j = *index;
    let count = count as usize;
    if count > data.len() - j {
        return Err(TableError::OutOfBounds);
    }
    let payload = slice_to_vec(slice_subrange(data, j, j + count));
    match string_from_utf8(payload) {
        Some(s) => {
            proof {
                encode_utf8_decode_utf8(s@);
            }
            *index = j + count;
            Ok(s)
        },
        None => Err(TableError::InvalidString),
    }
}

/// Reads a length-prefixed UTF-16 string and advances the cursor.
pub fn decode_str_u16(data: &[u8], index: &mut usize) -> (r: Result<String, TableError>)
    ensures
        match r {
            Ok(s) => parse_str_u16(data@, *old(index) as int) == Ok::<(Seq<char>, int), TableError>(
                (s@, *final(index) as int),
            ),
            Err(e) => parse_str_u16(data@, *old(index) as int) == Err::<
                (Seq<char>, int),
                TableError,
            >(e),
        },
{
    let i = *index;
    let count = match decode_u16(data, index) {
        Ok(c) => c,
        Err(e) => {
            return Err(e);
        },
    };
    let j = *index;
    let count = count as usize;
    if count > (data.len() - j) / 2 {
        return Err(TableError::OutOfBounds);
    }
    let mut units: Vec<u16> = Vec::new();
    let mut k: usize = 0;
    proof {
        lemma_parse_units_len(data@, j as int, count as int);
        assert(units@ =~= parse_units(data@, j as int, count as int).take(0));
    }
    while k < count
        invariant
            k <= count,
            j + 2 * count <= data@.len(),
            data@.len() <= usize::MAX,
            units@ =~= parse_units(data@, j as int, count as int).take(k as int),
            units@.len() == k,
            parse_units(data@, j as int, count as int).len() == count,
        decreases count - k,
    {
        proof {
            lemma_parse_units_len(data@, j as int, count as int);
            lemma_parse_units_index(data@, j as int, count as int, k as int);
        }
        let s = slice_subrange(data, j + 2 * k, j + 2 * k + 2);
        let u = u16_from_le_bytes(s);
        units.push(u);
        proof {
            assert(units@ =~= parse_units(data@, j as int, count as int).take(k + 1));
        }
        k += 1;
    }
    proof {
        lemma_parse_units_len(data@, j as int, count as int);
        assert(units@ =~= parse_units(data@, j as int, count as int));
    }
    match decode_utf16_units(&units) {
        Some(s) => {
            *index = j + 2 * count;
            proof {
                crate::utf16::lemma_utf16_round_trip(s@);
            }
            Ok(s)
        },
        None => Err(TableError::InvalidString),
    }
}

/// `parse_units` yields exactly `count` units.
pub proof fn lemma_parse_units_len(data: Seq<u8>, i: int, count: int)
    ensures
        parse_units(data, i, count).len() == if count <= 0 {
            0
        } else {
            count
        },
    decreases count,
{
    if count > 0 {
        lemma_parse_units_len(data, i + 2, count - 1);
    }
}

/// The `k`-th unit is read from offset `i + 2k`.
pub proof fn lemma_parse_units_index(data: Seq<u8>, i: int, count: int, k: int)
    requires
        0 <= k < count,
    ensures
        parse_units(data, i, count)[k] == spec_u16_from_le_bytes(
            data.subrange(i + 2 * k, i + 2 * k + 2),
        ),
    decreases k,
{
    lemma_parse_units_len(data, i, count);
    lemma_parse_units_len(data, i + 2, count - 1);
    if k > 0 {
        lemma_parse_units_index(data, i + 2, count - 1, k - 1);
    }
}

/// Reads one cell according to its column type and advances the cursor.
pub fn decode_value(data: &[u8], index: &mut usize, t: FieldType) -> (r: Result<
    DecodedData,
    TableError,
>)
    ensures
        match r {
            Ok(v) => parse_value(data@, *old(index) as int, t) == Ok::<(DataV, int), TableError>(
                (v@, *final(index) as int),
            ),
            Err(e) => parse_value(data@, *old(index) as int, t) == Err::<(DataV, int), TableError>(
                e,
            ),
        },
{
    match t {
        FieldType::Boolean => match decode_bool(data, index) {
            Ok(b) => Ok(DecodedData::Boolean(b)),
            Err(e) => Err(e),
        },
        FieldType::Float => match decode_u32(data, index) {
            Ok(u) => Ok(DecodedData::Float(u)),
            Err(e) => Err(e),
        },
        FieldType::Integer => match decode_u32(data, index) {
            Ok(u) => Ok(DecodedData::Integer(bits_to_i32(u))),
            Err(e) => Err(e),
        },
        FieldType::LongInteger => match decode_u64(data, index) {
            Ok(u) => Ok(DecodedData::LongInteger(bits_to_i64(u))),
            Err(e) => Err(e),
        },
        FieldType::StringU8 => match decode_str_u8(data, index) {
            Ok(s) => Ok(DecodedData::StringU8(s)),
            Err(e) => Err(e),
        },
        FieldType::StringU16 => match decode_str_u16(data, index) {
            Ok(s) => Ok(DecodedData::StringU16(s)),
            Err(e) => Err(e),
        },
        FieldType::OptionalStringU8 => match decode_bool(data, index) {
            Ok(false) => Ok(DecodedData::OptionalStringU8(String::new())),
            Ok(true) => match decode_str_u8(data, index) {
                Ok(s) => Ok(DecodedData::OptionalStringU8(s)),
                Err(e) => Err(e),
            },
            Err(e) => Err(e),
        },
        FieldType::OptionalStringU16 => match decode_bool(data, index) {
            Ok(false) => Ok(DecodedData::OptionalStringU16(String::new())),
            Ok(true) => match decode_str_u16(data, index) {
                Ok(s) => Ok(DecodedData::OptionalStringU16(s)),
                Err(e) => Err(e),
            },
            Err(e) => Err(e),
        },
    }
}


// ---------------------------------------------------------------------------
// Parsing an encoded value yields the value back.
// ---------------------------------------------------------------------------
/// A chunk of an identified span of the buffer is the matching chunk of the
/// identified bytes.
pub proof fn lemma_subrange_within(b: Seq<u8>, i: int, e: Seq<u8>, a: int, c: int)
    requires
        0 <= i,
        i + e.len() <= b.len(),
        b.subrange(i, i + e.len()) == e,
        0 <= a <= c <= e.len(),
    ensures
        b.subrange(i + a, i + c) == e.subrange(a, c),
{
    assert forall|k: int| 0 <= k < c - a implies b.subrange(i + a, i + c)[k] == e.subrange(
        a,
        c,
    )[k] by {
        assert(b.subrange(i, i + e.len())[a + k] == b[i + a + k]);
    }
    assert(b.subrange(i + a, i + c) =~= e.subrange(a, c));
}

/// The bytes of a unit sequence are two per unit.
pub proof fn lemma_units_to_bytes_len(units: Seq<u16>)
    ensures
        units_to_bytes(units).len() == 2 * units.len(),
    decreases units.len(),
{
    lemma_auto_spec_u16_to_from_le_bytes();
    if units.len() > 0 {
        lemma_units_to_bytes_len(units.drop_first());
    }
}

/// Units written little-endian parse back unit for unit.
pub proof fn lemma_parse_units_of_bytes(b: Seq<u8>, units: Seq<u16>, j: int)
    requires
        0 <= j,
        j + 2 * units.len() <= b.len(),
        b.subrange(j, j + 2 * units.len()) == units_to_bytes(units),
    ensures
        parse_units(b, j, units.len() as int) == units,
    decreases units.len(),
{
    lemma_auto_spec_u16_to_from_le_bytes();
    lemma_units_to_bytes_len(units);
    if units.len() == 0 {
        assert(parse_units(b, j, 0) =~= units);
    } else {
        let w = units_to_bytes(units);
        let rest = units_to_bytes(units.drop_first());
        lemma_units_to_bytes_len(units.drop_first());
        assert(w == spec_u16_to_le_bytes(units[0]) + rest);
        lemma_subrange_within(b, j, w, 0, 2);
        assert(w.subrange(0, 2) =~= spec_u16_to_le_bytes(units[0]));
        assert(spec_u16_from_le_bytes(b.subrange(j, j + 2)) == units[0]);
        lemma_subrange_within(b, j, w, 2, w.len() as int);
        assert(w.subrange(2, w.len() as int) =~= rest);
        assert(b.subrange(j + 2, j + 2 + 2 * units.drop_first().len()) == rest);
        lemma_parse_units_of_bytes(b, units.drop_first(), j + 2);
        assert(parse_units(b, j, units.len() as int) =~= units);
    }
}

/// A value encoded at `i` parses back to itself, consuming exactly its
/// encoding.
pub proof fn lemma_parse_value_of_enc(b: Seq<u8>, v: DataV, t: FieldType, i: int)
    requires
        data_matches(v, t),
        data_fits(v),
        0 <= i,
        i + enc_value(v).len() <= b.len(),
        b.subrange(i, i + enc_value(v).len()) == enc_value(v),
    ensures
        parse_value(b, i, t) == Ok::<(DataV, int), TableError>((v, i + enc_value(v).len())),
{
    lemma_auto_spec_u16_to_from_le_bytes();
    vstd::bytes::lemma_auto_spec_u32_to_from_le_bytes();
    vstd::bytes::lemma_auto_spec_u64_to_from_le_bytes();
    lemma_bits_round_trip();
    let e = enc_value(v);
    assert(b.subrange(i, i + e.len()) == e);
    match v {
        DataV::Boolean(x) => {
            assert(b.subrange(i, i + e.len())[0] == b[i]);
            assert(b[i] == e[0]);
        },
        DataV::Float(x) => {
            assert(b.subrange(i, i + 4) == e);
        },
        DataV::Integer(x) => {
            assert(b.subrange(i, i + 4) == e);
        },
        DataV::LongInteger(x) => {
            assert(b.subrange(i, i + 8) == e);
        },
        DataV::StringU8(s) => {
            lemma_parse_str_u8_of_enc(b, s, i);
        },
        DataV::StringU16(s) => {
            lemma_parse_str_u16_of_enc(b, s, i);
        },
        DataV::OptionalStringU8(s) => {
            if s.len() == 0 {
                assert(b.subrange(i, i + e.len())[0] == b[i]);
                assert(b[i] == 0);
                assert(s =~= Seq::<char>::empty());
            } else {
                assert(b.subrange(i, i + e.len())[0] == b[i]);
                assert(e == seq![1u8] + enc_str_u8(s));
                assert(b[i] == 1);
                lemma_subrange_within(b, i, e, 1, e.len() as int);
                assert(e.subrange(1, e.len() as int) =~= enc_str_u8(s));
                lemma_parse_str_u8_of_enc(b, s, i + 1);
            }
        },
        DataV::OptionalStringU16(s) => {
            if s.len() == 0 {
                assert(b.subrange(i, i + e.len())[0] == b[i]);
                assert(b[i] == 0);
                assert(s =~= Seq::<char>::empty());
            } else {
                assert(b.subrange(i, i + e.len())[0] == b[i]);
                assert(e == seq![1u8] + enc_str_u16(s));
                assert(b[i] == 1);
                lemma_subrange_within(b, i, e, 1, e.len() as int);
                assert(e.subrange(1, e.len() as int) =~= enc_str_u16(s));
                lemma_parse_str_u16_of_enc(b, s, i + 1);
            }
        },
    }
}

/// An 8-bit-encoded string parses back to its characters.
proof fn lemma_parse_str_u8_of_enc(b: Seq<u8>, s: Seq<char>, i: int)
    requires
        encode_utf8(s).len() <= 0xFFFF,
        0 <= i,
        i + enc_str_u8(s).len() <= b.len(),
        b.subrange(i, i + enc_str_u8(s).len()) == enc_str_u8(s),
    ensures
        parse_str_u8(b, i) == Ok::<(Seq<char>, int), TableError>((s, i + enc_str_u8(s).len())),
{
    lemma_auto_spec_u16_to_from_le_bytes();
    let payload = encode_utf8(s);
    let count = payload.len() as u16;
    let e = enc_str_u8(s);
    assert(e == spec_u16_to_le_bytes(count) + payload);
    lemma_subrange_within(b, i, e, 0, 2);
    assert(e.subrange(0, 2) =~= spec_u16_to_le_bytes(count));
    assert(spec_u16_from_le_bytes(b.subrange(i, i + 2)) == count);
    lemma_subrange_within(b, i, e, 2, e.len() as int);
    assert(e.subrange(2, e.len() as int) =~= payload);
    assert(b.subrange(i + 2, i + 2 + payload.len()) == payload);
    vstd::utf8::encode_utf8_valid_utf8(s);
    vstd::utf8::encode_utf8_decode_utf8(s);
}

/// A 16-bit-encoded string parses back to its characters.
proof fn lemma_parse_str_u16_of_enc(b: Seq<u8>, s: Seq<char>, i: int)
    requires
        crate::utf16::utf16_of(s).len() <= 0xFFFF,
        0 <= i,
        i + enc_str_u16(s).len() <= b.len(),
        b.subrange(i, i + enc_str_u16(s).len()) == enc_str_u16(s),
    ensures
        parse_str_u16(b, i) == Ok::<(Seq<char>, int), TableError>((s, i + enc_str_u16(s).len())),
{
    lemma_auto_spec_u16_to_from_le_bytes();
    let units = crate::utf16::utf16_of(s);
    let count = units.len() as u16;
    let e = enc_str_u16(s);
    lemma_units_to_bytes_len(units);
    assert(e == spec_u16_to_le_bytes(count) + units_to_bytes(units));
    lemma_subrange_within(b, i, e, 0, 2);
    assert(e.subrange(0, 2) =~= spec_u16_to_le_bytes(count));
    assert(spec_u16_from_le_bytes(b.subrange(i, i + 2)) == count);
    lemma_subrange_within(b, i, e, 2, e.len() as int);
    assert(e.subrange(2, e.len() as int) =~= units_to_bytes(units));
    assert(b.subrange(i + 2, i + 2 + 2 * units.len()) == units_to_bytes(units));
    lemma_parse_units_of_bytes(b, units, i + 2);
    crate::utf16::lemma_utf16_round_trip(s);
}


// ---------------------------------------------------------------------------
// Parsing against a truncated buffer.
// ---------------------------------------------------------------------------
/// Units read strictly inside the kept prefix are unchanged by truncation.
pub proof fn lemma_parse_units_take(b: Seq<u8>, m: int, j: int, count: int)
    requires
        0 <= j,
        0 <= count,
        j + 2 * count <= m <= b.len(),
    ensures
        parse_units(b.take(m), j, count) == parse_units(b, j, count),
    decreases count,
{
    if count > 0 {
        assert(b.take(m).subrange(j, j + 2) =~= b.subrange(j, j + 2));
        lemma_parse_units_take(b, m, j + 2, count - 1);
    }
}

/// An 8-bit-encoded string either survives truncation whole or fails with an
/// out-of-bounds read.
proof fn lemma_parse_str_u8_take(b: Seq<u8>, m: int, i: int)
    requires
        0 <= i,
        0 <= m <= b.len(),
        parse_str_u8(b, i) is Ok,
    ensures
        match parse_str_u8(b, i) {
            Ok((sv, j)) => (j <= m ==> parse_str_u8(b.take(m), i) == Ok::<
                (Seq<char>, int),
                TableError,
            >((sv, j))) && (j > m && i <= m ==> parse_str_u8(b.take(m), i) == Err::<
                (Seq<char>, int),
                TableError,
            >(TableError::OutOfBounds)),
            Err(_) => true,
        },
{
    let b2 = b.take(m);
    match parse_u16(b, i) {
        Ok((count, jj)) => {
            if i + 2 <= m {
                assert(b2.subrange(i, i + 2) =~= b.subrange(i, i + 2));
                if jj + count <= m {
                    assert(b2.subrange(jj, jj + count) =~= b.subrange(jj, jj + count));
                }
            }
        },
        Err(_) => {
            assert(false);
        },
    }
}

/// A 16-bit-encoded string either survives truncation whole or fails with an
/// out-of-bounds read.
proof fn lemma_parse_str_u16_take(b: Seq<u8>, m: int, i: int)
    requires
        0 <= i,
        0 <= m <= b.len(),
        parse_str_u16(b, i) is Ok,
    ensures
        match parse_str_u16(b, i) {
            Ok((sv, j)) => (j <= m ==> parse_str_u16(b.take(m), i) == Ok::<
                (Seq<char>, int),
                TableError,
            >((sv, j))) && (j > m && i <= m ==> parse_str_u16(b.take(m), i) == Err::<
                (Seq<char>, int),
                TableError,
            >(TableError::OutOfBounds)),
            Err(_) => true,
        },
{
    let b2 = b.take(m);
    match parse_u16(b, i) {
        Ok((count, jj)) => {
            if i + 2 <= m {
                assert(b2.subrange(i, i + 2) =~= b.subrange(i, i + 2));
                if jj + 2 * count <= m {
                    lemma_parse_units_take(b, m, jj, count as int);
                }
            }
        },
        Err(_) => {
            assert(false);
        },
    }
}

/// A successfully parsed value either survives truncation whole, when its
/// bytes lie inside the kept prefix, or fails with an out-of-bounds read,
/// when the cut falls inside it.
pub proof fn lemma_parse_value_take(b: Seq<u8>, m: int, i: int, t: FieldType)
    requires
        0 <= i,
        0 <= m <= b.len(),
        parse_value(b, i, t) is Ok,
    ensures
        match parse_value(b, i, t) {
            Ok((v, j)) => (j <= m ==> parse_value(b.take(m), i, t) == Ok::<
                (DataV, int),
                TableError,
            >((v, j))) && (j > m && i <= m ==> parse_value(b.take(m), i, t) == Err::<
                (DataV, int),
                TableError,
            >(TableError::OutOfBounds)),
            Err(_) => true,
        },
{
    let b2 = b.take(m);
    match t {
        FieldType::Boolean => {
        },
        FieldType::Float => {
            if i + 4 <= m {
                assert(b2.subrange(i, i + 4) =~= b.subrange(i, i + 4));
            }
        },
        FieldType::Integer => {
            if i + 4 <= m {
                assert(b2.subrange(i, i + 4) =~= b.subrange(i, i + 4));
            }
        },
        FieldType::LongInteger => {
            if i + 8 <= m {
                assert(b2.subrange(i, i + 8) =~= b.subrange(i, i + 8));
            }
        },
        FieldType::StringU8 => {
            lemma_parse_str_u8_take(b, m, i);
        },
        FieldType::StringU16 => {
            lemma_parse_str_u16_take(b, m, i);
        },
        FieldType::OptionalStringU8 => {
            match parse_bool(b, i) {
                Ok((present, jb)) => {
                    if present && jb <= m {
                        lemma_parse_str_u8_take(b, m, jb);
                    }
                },
                Err(_) => {
                    assert(false);
                },
            }
        },
        FieldType::OptionalStringU16 => {
            match parse_bool(b, i) {
                Ok((present, jb)) => {
                    if present && jb <= m {
                        lemma_parse_str_u16_take(b, m, jb);
                    }
                },
                Err(_) => {
                    assert(false);
                },
            }
        },
    }
}

} // verus!
