use crate::codec::{bool_from_byte, i32_from_bits, i64_from_bits, spec_bool_from_byte, spec_i32_from_bits, spec_i64_from_bits, spec_u24_from_le_bytes, u24_from_le_bytes, NULL_BYTE, NULL_DOUBLE_BITS, NULL_FLOAT_BITS, NULL_INT, NULL_LONG};
use crate::text::bytes_to_str;
use vstd::bytes::*;
use vstd::prelude::*;
use vstd::slice::{slice_index_get, slice_subrange};
use vstd::utf8::{decode_utf8, valid_utf8};

verus! {

// Every read below fails closed: an offset that does not resolve inside the
// buffer yields the kind's null sentinel or `None`, never an out-of-bounds
// access.
/// One byte at `o`; the null sentinel outside bounds.
pub open spec fn spec_read_u8(b: Seq<u8>, o: int) -> u8 {
    if 0 <= o && o + 1 <= b.len() {
        b[o]
    } else {
        NULL_BYTE
    }
}

/// Four bytes at `o` as a little-endian unsigned integer.
pub open spec fn spec_read_u32(b: Seq<u8>, o: int) -> Option<u32> {
    if 0 <= o && o + 4 <= b.len() {
        Some(spec_u32_from_le_bytes(b.subrange(o, o + 4)))
    } else {
        None
    }
}

/// Eight bytes at `o` as a little-endian unsigned integer.
pub open spec fn spec_read_u64(b: Seq<u8>, o: int) -> Option<u64> {
    if 0 <= o && o + 8 <= b.len() {
        Some(spec_u64_from_le_bytes(b.subrange(o, o + 8)))
    } else {
        None
    }
}

/// Three bytes at `o` as a little-endian unsigned integer.
pub open spec fn spec_read_u24(b: Seq<u8>, o: int) -> Option<u32> {
    if 0 <= o && o + 3 <= b.len() {
        Some(spec_u24_from_le_bytes(b.subrange(o, o + 3)))
    } else {
        None
    }
}

/// A nullable boolean field.
pub open spec fn spec_read_bool(b: Seq<u8>, o: int) -> Option<bool> {
    spec_bool_from_byte(spec_read_u8(b, o))
}

/// A 32-bit integer field; the null sentinel when out of bounds.
pub open spec fn spec_read_int(b: Seq<u8>, o: int) -> i32 {
    match spec_read_u32(b, o) {
        Some(u) => spec_i32_from_bits(u),
        None => NULL_INT,
    }
}

/// A 64-bit integer field; the null sentinel when out of bounds.
pub open spec fn spec_read_long(b: Seq<u8>, o: int) -> i64 {
    match spec_read_u64(b, o) {
        Some(u) => spec_i64_from_bits(u),
        None => NULL_LONG,
    }
}

/// The bit pattern of a 32-bit float field; the quiet-NaN sentinel when out
/// of bounds.
pub open spec fn spec_read_float_bits(b: Seq<u8>, o: int) -> u32 {
    match spec_read_u32(b, o) {
        Some(u) => u,
        None => NULL_FLOAT_BITS,
    }
}

/// The bit pattern of a 64-bit float field; the quiet-NaN sentinel when out
/// of bounds.
pub open spec fn spec_read_double_bits(b: Seq<u8>, o: int) -> u64 {
    match spec_read_u64(b, o) {
        Some(u) => u,
        None => NULL_DOUBLE_BITS,
    }
}

/// The descriptor of a variable-length field: a four-byte position and a
/// four-byte length. Position zero denotes an absent field; a descriptor
/// whose data would leave the buffer is treated as absent as well.
pub open spec fn spec_read_descriptor(b: Seq<u8>, o: int) -> Option<(int, int)> {
    match (spec_read_u32(b, o), spec_read_u32(b, o + 4)) {
        (Some(pos), Some(len)) => {
            if pos == 0 {
                None
            } else if pos + len <= b.len() {
                Some((pos as int, len as int))
            } else {
                None
            }
        },
        _ => None,
    }
}

/// The bytes of a variable-length field, or `None` when the field is absent
/// or its descriptor does not resolve inside the buffer.
pub open spec fn spec_read_data(b: Seq<u8>, o: int) -> Option<Seq<u8>> {
    match spec_read_descriptor(b, o) {
        Some((pos, len)) => Some(b.subrange(pos, pos + len)),
        None => None,
    }
}

/// The six-byte descriptor of a reference-typed list element: a three-byte
/// position and a three-byte length, position zero denoting absence.
pub open spec fn spec_read_elem_descriptor(b: Seq<u8>, o: int) -> Option<(int, int)> {
    match (spec_read_u24(b, o), spec_read_u24(b, o + 3)) {
        (Some(pos), Some(len)) => {
            if pos == 0 {
                None
            } else if pos + len <= b.len() {
                Some((pos as int, len as int))
            } else {
                None
            }
        },
        _ => None,
    }
}

/// The bytes of a reference-typed list element.
pub open spec fn spec_read_elem_data(b: Seq<u8>, o: int) -> Option<Seq<u8>> {
    match spec_read_elem_descriptor(b, o) {
        Some((pos, len)) => Some(b.subrange(pos, pos + len)),
        None => None,
    }
}


/// The descriptor of a list field: a four-byte position and a four-byte
/// element count. Position zero denotes an absent list; a region whose
/// `count` elements of width `esize` would leave the buffer is treated as
/// absent as well.
pub open spec fn spec_read_list_region(b: Seq<u8>, o: int, esize: int) -> Option<(int, int)> {
    match (spec_read_u32(b, o), spec_read_u32(b, o + 4)) {
        (Some(pos), Some(count)) => {
            if pos == 0 {
                None
            } else if pos + count * esize <= b.len() {
                Some((pos as int, count as int))
            } else {
                None
            }
        },
        _ => None,
    }
}

/// A string field: its data bytes read as UTF-8; `None` when absent or when
/// the bytes are not valid UTF-8.
pub open spec fn spec_read_string(b: Seq<u8>, o: int) -> Option<Seq<char>> {
    match spec_read_data(b, o) {
        Some(data) => {
            if valid_utf8(data) {
                Some(decode_utf8(data))
            } else {
                None
            }
        },
        None => None,
    }
}

/// A string list element: its data bytes read as UTF-8.
pub open spec fn spec_read_elem_string(b: Seq<u8>, o: int) -> Option<Seq<char>> {
    match spec_read_elem_data(b, o) {
        Some(data) => {
            if valid_utf8(data) {
                Some(decode_utf8(data))
            } else {
                None
            }
        },
        None => None,
    }
}

/// The bytes of a byte-list field, read as one contiguous blob.
pub open spec fn spec_read_blob(b: Seq<u8>, o: int) -> Option<Seq<u8>> {
    match spec_read_list_region(b, o, 1) {
        Some((pos, count)) => Some(b.subrange(pos, pos + count)),
        None => None,
    }
}

/// A zero-copy decoding view over the bytes of one stored object.
#[derive(Clone, Copy)]
pub struct IsarObject<'a> {
    pub data: &'a [u8],
}

impl<'a> View for IsarObject<'a> {
    type V = Seq<u8>;

    open spec fn view(&self) -> Seq<u8> {
        self.data@
    }
}

impl<'a> IsarObject<'a> {
    pub fn new(data: &'a [u8]) -> (r: Self)
        ensures
            r@ == data@,
    {
        IsarObject { data }
    }

    pub fn len(&self) -> (r: usize)
        ensures
            r == self@.len(),
    {
        self.data.len()
    }

    pub fn read_u8(&self, offset: usize) -> (r: u8)
        ensures
            r == spec_read_u8(self@, offset as int),
    {
        if offset < self.data.len() {
            *slice_index_get(self.data, offset)
        } else {
            NULL_BYTE
        }
    }

    pub fn read_u32(&self, offset: usize) -> (r: Option<u32>)
        ensures
            r == spec_read_u32(self@, offset as int),
    {
        if self.data.len() >= 4 && offset <= self.data.len() - 4 {
            Some(u32_from_le_bytes(slice_subrange(self.data, offset, offset + 4)))
        } else {
            None
        }
    }

    pub fn read_u64(&self, offset: usize) -> (r: Option<u64>)
        ensures
            r == spec_read_u64(self@, offset as int),
    {
        if self.data.len() >= 8 && offset <= self.data.len() - 8 {
            Some(u64_from_le_bytes(slice_subrange(self.data, offset, offset + 8)))
        } else {
            None
        }
    }

    pub fn read_u24(&self, offset: usize) -> (r: Option<u32>)
        ensures
            r == spec_read_u24(self@, offset as int),
    {
        if self.data.len() >= 3 && offset <= self.data.len() - 3 {
            let b0 = *slice_index_get(self.data, offset);
            let b1 = *slice_index_get(self.data, offset + 1);
            let b2 = *slice_index_get(self.data, offset + 2);
            let x = u24_from_le_bytes(b0, b1, b2);
            proof {
                assert(self@.subrange(offset as int, offset as int + 3) =~= seq![b0, b1, b2]);
            }
            Some(x)
        } else {
            None
        }
    }

    pub fn read_bool(&self, offset: usize) -> (r: Option<bool>)
        ensures
            r == spec_read_bool(self@, offset as int),
    {
        bool_from_byte(self.read_u8(offset))
    }

    pub fn read_int(&self, offset: usize) -> (r: i32)
        ensures
            r == spec_read_int(self@, offset as int),
    {
        match self.read_u32(offset) {
            Some(u) => i32_from_bits(u),
            None => NULL_INT,
        }
    }

    pub fn read_long(&self, offset: usize) -> (r: i64)
        ensures
            r == spec_read_long(self@, offset as int),
    {
        match self.read_u64(offset) {
            Some(u) => i64_from_bits(u),
            None => NULL_LONG,
        }
    }

    pub fn read_float_bits(&self, offset: usize) -> (r: u32)
        ensures
            r == spec_read_float_bits(self@, offset as int),
    {
        match self.read_u32(offset) {
            Some(u) => u,
            None => NULL_FLOAT_BITS,
        }
    }

    pub fn read_double_bits(&self, offset: usize) -> (r: u64)
        ensures
            r == spec_read_double_bits(self@, offset as int),
    {
        match self.read_u64(offset) {
            Some(u) => u,
            None => NULL_DOUBLE_BITS,
        }
    }

    pub fn read_descriptor(&self, offset: usize) -> (r: Option<(usize, usize)>)
        ensures
            match r {
                Some((pos, len)) => spec_read_descriptor(self@, offset as int) == Some(
                    (pos as int, len as int),
                ) && pos + len <= self@.len(),
                None => spec_read_descriptor(self@, offset as int) is None,
            },
    {
        if self.data.len() < 8 || offset > self.data.len() - 8 {
            return None;
        }
        let pos = self.read_u32(offset);
        let len = match self.read_u32(offset + 4) {
            Some(l) => l,
            None => {
                return None;
            },
        };
        let pos = match pos {
            Some(p) => p,
            None => {
                return None;
            },
        };
        if pos == 0 {
            return None;
        }
        let pos = pos as usize;
        let len = len as usize;
        if pos <= self.data.len() && len <= self.data.len() - pos {
            Some((pos, len))
        } else {
            None
        }
    }

    pub fn read_data(&self, offset: usize) -> (r: Option<&'a [u8]>)
        ensures
            match r {
                Some(d) => spec_read_data(self@, offset as int) == Some(d@),
                None => spec_read_data(self@, offset as int) is None,
            },
    {
        match self.read_descriptor(offset) {
            Some((pos, len)) => {
                let _n: usize = self.data.len();
                Some(slice_subrange(self.data, pos, pos + len))
            },
            None => None,
        }
    }

    pub fn read_elem_descriptor(&self, offset: usize) -> (r: Option<(usize, usize)>)
        ensures
            match r {
                Some((pos, len)) => spec_read_elem_descriptor(self@, offset as int) == Some(
                    (pos as int, len as int),
                ) && pos + len <= self@.len(),
                None => spec_read_elem_descriptor(self@, offset as int) is None,
            },
    {
        if self.data.len() < 6 || offset > self.data.len() - 6 {
            return None;
        }
        let pos = self.read_u24(offset);
        let len = match self.read_u24(offset + 3) {
            Some(l) => l,
            None => {
                return None;
            },
        };
        let pos = match pos {
            Some(p) => p,
            None => {
                return None;
            },
        };
        if pos == 0 {
            return None;
        }
        let pos = pos as usize;
        let len = len as usize;
        if pos <= self.data.len() && len <= self.data.len() - pos {
            Some((pos, len))
        } else {
            None
        }
    }

    pub fn read_elem_data(&self, offset: usize) -> (r: Option<&'a [u8]>)
        ensures
            match r {
                Some(d) => spec_read_elem_data(self@, offset as int) == Some(d@),
                None => spec_read_elem_data(self@, offset as int) is None,
            },
    {
        match self.read_elem_descriptor(offset) {
            Some((pos, len)) => {
                let _n: usize = self.data.len();
                Some(slice_subrange(self.data, pos, pos + len))
            },
            None => None,
        }
    }


    pub fn read_list_region(&self, offset: usize, esize: usize) -> (r: Option<(usize, usize)>)
        requires
            1 <= esize <= 8,
        ensures
            match r {
                Some((pos, count)) => spec_read_list_region(self@, offset as int, esize as int)
                    == Some((pos as int, count as int)) && pos + count * esize <= self@.len(),
                None => spec_read_list_region(self@, offset as int, esize as int) is None,
            },
    {
        if self.data.len() < 8 || offset > self.data.len() - 8 {
            return None;
        }
        let pos = self.read_u32(offset);
        let count = match self.read_u32(offset + 4) {
            Some(c) => c,
            None => {
                return None;
            },
        };
        let pos = match pos {
            Some(p) => p,
            None => {
                return None;
            },
        };
        if pos == 0 {
            return None;
        }
        let n: usize = self.data.len();
        proof {
            assert((count as int) * (esize as int) <= 0xFFFF_FFFFu64 * 8) by (nonlinear_arith)
                requires
                    count as int <= 0xFFFF_FFFF,
                    0 <= esize as int <= 8,
            ;
        }
        if (pos as u64) + (count as u64) * (esize as u64) <= (n as u64) {
            Some((pos as usize, count as usize))
        } else {
            None
        }
    }

    pub fn read_string(&self, offset: usize) -> (r: Option<&'a str>)
        ensures
            match r {
                Some(s) => spec_read_string(self@, offset as int) == Some(s@),
                None => spec_read_string(self@, offset as int) is None,
            },
    {
        match self.read_data(offset) {
            Some(d) => bytes_to_str(d),
            None => None,
        }
    }

    pub fn read_elem_string(&self, offset: usize) -> (r: Option<&'a str>)
        ensures
            match r {
                Some(s) => spec_read_elem_string(self@, offset as int) == Some(s@),
                None => spec_read_elem_string(self@, offset as int) is None,
            },
    {
        match self.read_elem_data(offset) {
            Some(d) => bytes_to_str(d),
            None => None,
        }
    }
}

} // verus!
