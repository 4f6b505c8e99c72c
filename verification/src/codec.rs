use vstd::prelude::*;

verus! {

// Sentinel values. Every primitive field is present at its declared offset
// even when logically null: null is a value, not an omission.
pub const NULL_BOOL: u8 = 0;
pub const FALSE_BOOL: u8 = 1;
pub const TRUE_BOOL: u8 = 2;
pub const NULL_BYTE: u8 = 0;
pub const NULL_INT: i32 = i32::MIN;
pub const NULL_LONG: i64 = i64::MIN;
/// Bit pattern of the quiet NaN used as the null sentinel for 32-bit floats.
pub const NULL_FLOAT_BITS: u32 = 0x7FC0_0000;
/// Bit pattern of the quiet NaN used as the null sentinel for 64-bit floats.
pub const NULL_DOUBLE_BITS: u64 = 0x7FF8_0000_0000_0000;

/// The two's-complement bit pattern of a 32-bit signed integer.
pub open spec fn spec_i32_to_bits(v: i32) -> u32 {
    if v >= 0 {
        v as u32
    } else {
        (v + 0x1_0000_0000) as u32
    }
}

/// The 32-bit signed integer whose two's-complement bit pattern this is.
pub open spec fn spec_i32_from_bits(u: u32) -> i32 {
    if u < 0x8000_0000 {
        u as i32
    } else {
        (u - 0x1_0000_0000) as i32
    }
}

pub proof fn lemma_i32_bits_round_trip(v: i32)
    ensures
        spec_i32_from_bits(spec_i32_to_bits(v)) == v,
{
}

pub fn i32_to_bits(v: i32) -> (u: u32)
    ensures
        u == spec_i32_to_bits(v),
{
    if v >= 0 {
        v as u32
    } else {
        ((v as i64) + 0x1_0000_0000i64) as u32
    }
}

pub fn i32_from_bits(u: u32) -> (v: i32)
    ensures
        v == spec_i32_from_bits(u),
{
    if u < 0x8000_0000 {
        u as i32
    } else {
        ((u as i64) - 0x1_0000_0000i64) as i32
    }
}

/// The two's-complement bit pattern of a 64-bit signed integer.
pub open spec fn spec_i64_to_bits(v: i64) -> u64 {
    if v >= 0 {
        v as u64
    } else {
        (v + 0x1_0000_0000_0000_0000) as u64
    }
}

/// The 64-bit signed integer whose two's-complement bit pattern this is.
pub open spec fn spec_i64_from_bits(u: u64) -> i64 {
    if u < 0x8000_0000_0000_0000 {
        u as i64
    } else {
        (u - 0x1_0000_0000_0000_0000) as i64
    }
}

pub proof fn lemma_i64_bits_round_trip(v: i64)
    ensures
        spec_i64_from_bits(spec_i64_to_bits(v)) == v,
{
}

pub fn i64_to_bits(v: i64) -> (u: u64)
    ensures
        u == spec_i64_to_bits(v),
{
    if v >= 0 {
        v as u64
    } else {
        ((v as i128) + 0x1_0000_0000_0000_0000i128) as u64
    }
}

pub fn i64_from_bits(u: u64) -> (v: i64)
    ensures
        v == spec_i64_from_bits(u),
{
    if u < 0x8000_0000_0000_0000 {
        u as i64
    } else {
        ((u as i128) - 0x1_0000_0000_0000_0000i128) as i64
    }
}

/// The byte encoding a nullable boolean.
pub open spec fn spec_bool_to_byte(v: Option<bool>) -> u8 {
    match v {
        None => NULL_BOOL,
        Some(false) => FALSE_BOOL,
        Some(true) => TRUE_BOOL,
    }
}

/// The nullable boolean a byte decodes to: the null sentinel decodes to
/// `None`, the false sentinel to `Some(false)`, everything else to `Some(true)`.
pub open spec fn spec_bool_from_byte(b: u8) -> Option<bool> {
    if b == NULL_BOOL {
        None
    } else if b == FALSE_BOOL {
        Some(false)
    } else {
        Some(true)
    }
}

pub proof fn lemma_bool_byte_round_trip(v: Option<bool>)
    ensures
        spec_bool_from_byte(spec_bool_to_byte(v)) == v,
{
}

pub fn bool_to_byte(v: Option<bool>) -> (b: u8)
    ensures
        b == spec_bool_to_byte(v),
{
    match v {
        None => NULL_BOOL,
        Some(false) => FALSE_BOOL,
        Some(true) => TRUE_BOOL,
    }
}

pub fn bool_from_byte(b: u8) -> (v: Option<bool>)
    ensures
        v == spec_bool_from_byte(b),
{
    if b == NULL_BOOL {
        None
    } else if b == FALSE_BOOL {
        Some(false)
    } else {
        Some(true)
    }
}

/// The value of three bytes read as a little-endian 24-bit unsigned integer.
pub open spec fn spec_u24_from_le_bytes(s: Seq<u8>) -> u32
    recommends
        s.len() == 3,
{
    (s[0] + 0x100 * s[1] + 0x1_0000 * s[2]) as u32
}

/// The three-byte little-endian encoding of a 24-bit unsigned integer.
pub open spec fn spec_u24_to_le_bytes(x: u32) -> Seq<u8>
    recommends
        x < 0x100_0000,
{
    seq![(x % 0x100) as u8, ((x / 0x100) % 0x100) as u8, ((x / 0x1_0000) % 0x100) as u8]
}

pub proof fn lemma_u24_round_trip(x: u32)
    requires
        x < 0x100_0000,
    ensures
        spec_u24_to_le_bytes(x).len() == 3,
        spec_u24_from_le_bytes(spec_u24_to_le_bytes(x)) == x,
{
}

pub fn u24_from_le_bytes(b0: u8, b1: u8, b2: u8) -> (x: u32)
    ensures
        x == spec_u24_from_le_bytes(seq![b0, b1, b2]),
        x < 0x100_0000,
{
    (b0 as u32) + 0x100u32 * (b1 as u32) + 0x1_0000u32 * (b2 as u32)
}

pub fn u24_to_le_bytes(x: u32) -> (r: (u8, u8, u8))
    requires
        x < 0x100_0000,
    ensures
        seq![r.0, r.1, r.2] == spec_u24_to_le_bytes(x),
{
    ((x % 0x100) as u8, ((x / 0x100) % 0x100) as u8, ((x / 0x1_0000) % 0x100) as u8)
}

} // verus!
