use crate::codec::{
    bool_to_byte, i32_to_bits, i64_to_bits, spec_bool_to_byte, spec_i32_to_bits, spec_i64_to_bits,
    spec_u24_to_le_bytes, u24_to_le_bytes, NULL_DOUBLE_BITS, NULL_FLOAT_BITS, NULL_INT, NULL_LONG,
};
use crate::data_type::DataType;
use crate::error::IsarError;
use crate::json::json_to_bytes;
use crate::object::{
    spec_read_bool, spec_read_descriptor, spec_read_double_bits, spec_read_elem_descriptor,
    spec_read_float_bits, spec_read_int, spec_read_list_region, spec_read_long, spec_read_u8,
    spec_read_u24, spec_read_u32, spec_read_u64,
};
use crate::schema::{
    spec_fixed_offset, spec_schema_wf, lemma_fixed_offset_monotonic, CollectionSchema, Property,
    MAX_OBJECT_SIZE,
};
use vstd::bytes::{
    spec_u32_from_le_bytes, spec_u32_to_le_bytes, spec_u64_from_le_bytes, spec_u64_to_le_bytes,
    lemma_auto_spec_u32_to_from_le_bytes, lemma_auto_spec_u64_to_from_le_bytes, u32_to_le_bytes,
    u64_to_le_bytes,
};
use vstd::prelude::*;
use vstd::slice::slice_index_get;
use vstd::utf8::encode_utf8;

verus! {

/// The value one field was given, stated at the specification level: what
/// the written bytes must decode back to.
pub enum FieldValue {
    Null,
    Bool(bool),
    Byte(u8),
    Int(i32),
    FloatBits(u32),
    Long(i64),
    DoubleBits(u64),
    Str(Seq<char>),
    Json(Seq<u8>),
    Obj(Seq<u8>),
    Blob(Seq<u8>),
    Bools(Seq<Option<bool>>),
    Ints(Seq<i32>),
    FloatsBits(Seq<u32>),
    Longs(Seq<i64>),
    DoublesBits(Seq<u64>),
    Strs(Seq<Option<Seq<char>>>),
    Objs(Seq<Option<Seq<u8>>>),
}

/// The element width of a list property's elements.
pub open spec fn spec_list_esize(dt: DataType) -> int {
    match dt.spec_element_type() {
        Some(et) => et.spec_element_size(),
        None => 0,
    }
}

/// What it means for the encoded buffer `b` to hold value `v` for property
/// `p`, with every variable-length payload placed at or after `lo` (the end
/// of the fixed region). This is the writer's promise, phrased entirely
/// through the reader's specification functions.
pub open spec fn spec_field_decodes(b: Seq<u8>, p: Property, v: FieldValue, lo: int) -> bool {
    let off = p.offset as int;
    match v {
        FieldValue::Null => match p.data_type {
            DataType::Bool => spec_read_bool(b, off) is None,
            DataType::Byte => spec_read_u8(b, off) == 0u8,
            DataType::Int => spec_read_int(b, off) == NULL_INT,
            DataType::Float => spec_read_float_bits(b, off) == NULL_FLOAT_BITS,
            DataType::Long => spec_read_long(b, off) == NULL_LONG,
            DataType::Double => spec_read_double_bits(b, off) == NULL_DOUBLE_BITS,
            _ => spec_read_u32(b, off) == Some(0u32),
        },
        FieldValue::Bool(x) => p.data_type is Bool && spec_read_bool(b, off) == Some(x),
        FieldValue::Byte(x) => p.data_type is Byte && spec_read_u8(b, off) == x,
        FieldValue::Int(x) => p.data_type is Int && spec_read_int(b, off) == x,
        FieldValue::FloatBits(x) => p.data_type is Float && spec_read_float_bits(b, off) == x,
        FieldValue::Long(x) => p.data_type is Long && spec_read_long(b, off) == x,
        FieldValue::DoubleBits(x) => p.data_type is Double && spec_read_double_bits(b, off) == x,
        FieldValue::Str(s) => p.data_type is String && (match spec_read_descriptor(b, off) {
            Some((pos, len)) => pos >= lo && b.subrange(pos, pos + len) == encode_utf8(s),
            None => false,
        }),
        FieldValue::Json(d) => p.data_type is Json && (match spec_read_descriptor(b, off) {
            Some((pos, len)) => pos >= lo && b.subrange(pos, pos + len) == d,
            None => false,
        }),
        FieldValue::Obj(d) => p.data_type is Object && (match spec_read_descriptor(b, off) {
            Some((pos, len)) => pos >= lo && b.subrange(pos, pos + len) == d,
            None => false,
        }),
        FieldValue::Blob(d) => p.data_type is ByteList && (match spec_read_list_region(b, off, 1) {
            Some((pos, count)) => pos >= lo && count == d.len() && b.subrange(pos, pos + count)
                == d,
            None => false,
        }),
        FieldValue::Bools(xs) => p.data_type is BoolList && (match spec_read_list_region(
            b,
            off,
            1,
        ) {
            Some((pos, count)) => pos >= lo && count == xs.len() && forall|j: int|
                0 <= j < xs.len() ==> spec_read_bool(b, pos + j) == xs[j],
            None => false,
        }),
        FieldValue::Ints(xs) => p.data_type is IntList && (match spec_read_list_region(b, off, 4) {
            Some((pos, count)) => pos >= lo && count == xs.len() && forall|j: int|
                0 <= j < xs.len() ==> spec_read_int(b, pos + 4 * j) == xs[j],
            None => false,
        }),
        FieldValue::FloatsBits(xs) => p.data_type is FloatList && (match spec_read_list_region(
            b,
            off,
            4,
        ) {
            Some((pos, count)) => pos >= lo && count == xs.len() && forall|j: int|
                0 <= j < xs.len() ==> spec_read_float_bits(b, pos + 4 * j) == xs[j],
            None => false,
        }),
        FieldValue::Longs(xs) => p.data_type is LongList && (match spec_read_list_region(
            b,
            off,
            8,
        ) {
            Some((pos, count)) => pos >= lo && count == xs.len() && forall|j: int|
                0 <= j < xs.len() ==> spec_read_long(b, pos + 8 * j) == xs[j],
            None => false,
        }),
        FieldValue::DoublesBits(xs) => p.data_type is DoubleList && (match spec_read_list_region(
            b,
            off,
            8,
        ) {
            Some((pos, count)) => pos >= lo && count == xs.len() && forall|j: int|
                0 <= j < xs.len() ==> spec_read_double_bits(b, pos + 8 * j) == xs[j],
            None => false,
        }),
        FieldValue::Strs(ss) => p.data_type is StringList && (match spec_read_list_region(
            b,
            off,
            6,
        ) {
            Some((pos, count)) => pos >= lo && count == ss.len() && forall|j: int|
                0 <= j < ss.len() ==> #[trigger] spec_elem_holds(
                    b,
                    pos + 6 * j,
                    lo,
                    spec_encode_opt_str(ss[j]),
                ),
            None => false,
        }),
        FieldValue::Objs(os) => p.data_type is ObjectList && (match spec_read_list_region(
            b,
            off,
            6,
        ) {
            Some((pos, count)) => pos >= lo && count == os.len() && forall|j: int|
                0 <= j < os.len() ==> #[trigger] spec_elem_holds(b, pos + 6 * j, lo, os[j]),
            None => false,
        }),
    }
}

/// The UTF-8 bytes of an optional string element.
pub open spec fn spec_encode_opt_str(s: Option<Seq<char>>) -> Option<Seq<u8>> {
    match s {
        Some(cs) => Some(encode_utf8(cs)),
        None => None,
    }
}

/// The byte length of an optional element payload; an absent element
/// stores nothing.
pub open spec fn spec_opt_len(d: Option<Seq<u8>>) -> int {
    match d {
        Some(b) => b.len() as int,
        None => 0,
    }
}

/// The total payload bytes of the first `n` elements.
pub open spec fn spec_payloads_len(ds: Seq<Option<Seq<u8>>>, n: int) -> int
    decreases n,
{
    if n <= 0 {
        0
    } else {
        spec_payloads_len(ds, n - 1) + spec_opt_len(ds[n - 1])
    }
}

pub proof fn lemma_payloads_len_monotonic(ds: Seq<Option<Seq<u8>>>, i: int, j: int)
    requires
        0 <= i <= j <= ds.len(),
    ensures
        spec_payloads_len(ds, i) <= spec_payloads_len(ds, j),
    decreases j - i,
{
    if i < j {
        lemma_payloads_len_monotonic(ds, i, j - 1);
    }
}

/// The encoded payloads of a string list's elements.
pub open spec fn spec_str_payloads(ss: Seq<Option<Seq<char>>>) -> Seq<Option<Seq<u8>>> {
    Seq::new(ss.len(), |j: int| spec_encode_opt_str(ss[j]))
}

/// What it means for the element descriptor at `o` to hold the payload `d`
/// (or to be absent), with the payload placed at or after `lo`.
pub open spec fn spec_elem_holds(b: Seq<u8>, o: int, lo: int, d: Option<Seq<u8>>) -> bool {
    match d {
        Some(data) => match spec_read_elem_descriptor(b, o) {
            Some((pos, len)) => pos >= lo && b.subrange(pos, pos + len) == data,
            None => false,
        },
        None => spec_read_u24(b, o) == Some(0u32),
    }
}

/// The buffer as it will read once assembly completes: the fixed bytes
/// emitted so far, zero padding up to the fixed size, then the payload
/// bytes emitted so far.
pub open spec fn spec_assembled(fixed: Seq<u8>, payload: Seq<u8>, fs: int) -> Seq<u8>
    recommends
        fixed.len() <= fs,
{
    fixed + Seq::new((fs - fixed.len()) as nat, |i: int| 0u8) + payload
}

pub proof fn lemma_assembled_index(fixed: Seq<u8>, payload: Seq<u8>, fs: int, j: int)
    requires
        fixed.len() <= fs,
        0 <= j,
    ensures
        spec_assembled(fixed, payload, fs).len() == fs + payload.len(),
        j < fixed.len() ==> spec_assembled(fixed, payload, fs)[j] == fixed[j],
        fixed.len() <= j < fs ==> spec_assembled(fixed, payload, fs)[j] == 0u8,
        fs <= j < fs + payload.len() ==> spec_assembled(fixed, payload, fs)[j] == payload[j - fs],
{
}

// Framing: a write that only touches bytes inside `[a1, a2)` of the fixed
// region, at or past the slot of every field already written, preserves
// what those fields decode to.
proof fn lemma_sub_same(b1: Seq<u8>, b2: Seq<u8>, o: int, w: int, a1: int, a2: int)
    requires
        0 <= o,
        0 <= w,
        o + w <= b1.len() <= b2.len(),
        a2 <= a1 || o + w <= a1 || a2 <= o,
        forall|j: int| 0 <= j < b1.len() && !(a1 <= j < a2) ==> b2[j] == b1[j],
    ensures
        b2.subrange(o, o + w) == b1.subrange(o, o + w),
{
    assert(b2.subrange(o, o + w) =~= b1.subrange(o, o + w));
}

proof fn lemma_elem_frame(b1: Seq<u8>, b2: Seq<u8>, o: int, lo: int, d: Option<Seq<u8>>, a1: int, a2: int)
    requires
        spec_elem_holds(b1, o, lo, d),
        lo <= o,
        o + 6 <= b1.len(),
        b1.len() <= b2.len(),
        0 <= a1 <= a2 <= lo,
        forall|j: int| 0 <= j < b1.len() && !(a1 <= j < a2) ==> b2[j] == b1[j],
    ensures
        spec_elem_holds(b2, o, lo, d),
{
    lemma_sub_same(b1, b2, o, 3, a1, a2);
    lemma_sub_same(b1, b2, o + 3, 3, a1, a2);
    match d {
        Some(data) => {
            match spec_read_elem_descriptor(b1, o) {
                Some((pos, len)) => {
                    lemma_sub_same(b1, b2, pos, len, a1, a2);
                },
                None => {},
            }
        },
        None => {},
    }
}

proof fn lemma_field_frame_one(b1: Seq<u8>, b2: Seq<u8>, p: Property, v: FieldValue, lo: int, a1: int, a2: int)
    requires
        spec_field_decodes(b1, p, v, lo),
        b1.len() <= b2.len(),
        lo <= b1.len(),
        0 <= p.offset as int,
        p.offset as int + p.data_type.spec_static_size() <= a1,
        a1 <= a2 <= lo,
        forall|j: int| 0 <= j < b1.len() && !(a1 <= j < a2) ==> b2[j] == b1[j],
    ensures
        spec_field_decodes(b2, p, v, lo),
{
    let off = p.offset as int;
    let w = p.data_type.spec_static_size();
    lemma_sub_same(b1, b2, off, w, a1, a2);
    // The fixed slot reads the same bytes in both buffers.
    assert(off + 1 <= w + off);
    if w >= 1 {
        lemma_sub_same(b1, b2, off, 1, a1, a2);
        assert(b1.subrange(off, off + 1)[0] == b1[off]);
        assert(b2.subrange(off, off + 1)[0] == b2[off]);
        assert(b2[off] == b1[off]);
    }
    if w >= 4 {
        lemma_sub_same(b1, b2, off, 4, a1, a2);
    }
    if w >= 8 {
        lemma_sub_same(b1, b2, off, 8, a1, a2);
        lemma_sub_same(b1, b2, off, 4, a1, a2);
        lemma_sub_same(b1, b2, off + 4, 4, a1, a2);
    }
    // Every payload byte lies at or past `lo`, untouched by the write.
    assert forall|o2: int, w2: int|
        lo <= o2 && 0 <= w2 && o2 + w2 <= b1.len() implies #[trigger] b2.subrange(o2, o2 + w2)
        == b1.subrange(o2, o2 + w2) by {
        lemma_sub_same(b1, b2, o2, w2, a1, a2);
    }
    assert forall|j: int| lo <= j < b1.len() implies b2[j] == b1[j] by {
        assert(!(a1 <= j < a2));
    }
    match v {
        FieldValue::Null => assert(spec_field_decodes(b2, p, v, lo)),
        FieldValue::Bool(_) => assert(spec_field_decodes(b2, p, v, lo)),
        FieldValue::Byte(_) => assert(spec_field_decodes(b2, p, v, lo)),
        FieldValue::Int(_) => assert(spec_field_decodes(b2, p, v, lo)),
        FieldValue::FloatBits(_) => assert(spec_field_decodes(b2, p, v, lo)),
        FieldValue::Long(_) => assert(spec_field_decodes(b2, p, v, lo)),
        FieldValue::DoubleBits(_) => assert(spec_field_decodes(b2, p, v, lo)),
        FieldValue::Str(_) => assert(spec_field_decodes(b2, p, v, lo)),
        FieldValue::Json(_) => assert(spec_field_decodes(b2, p, v, lo)),
        FieldValue::Obj(_) => assert(spec_field_decodes(b2, p, v, lo)),
        FieldValue::Blob(_) => assert(spec_field_decodes(b2, p, v, lo)),
        FieldValue::Bools(_) => assert(spec_field_decodes(b2, p, v, lo)),
        FieldValue::Ints(_) => assert(spec_field_decodes(b2, p, v, lo)),
        FieldValue::FloatsBits(_) => assert(spec_field_decodes(b2, p, v, lo)),
        FieldValue::Longs(_) => assert(spec_field_decodes(b2, p, v, lo)),
        FieldValue::DoublesBits(_) => assert(spec_field_decodes(b2, p, v, lo)),
        FieldValue::Strs(ss) => {
            match spec_read_list_region(b1, off, 6) {
                Some((pos, count)) => {
                    assert forall|j: int| 0 <= j < ss.len() implies #[trigger] spec_elem_holds(
                        b2,
                        pos + 6 * j,
                        lo,
                        spec_encode_opt_str(ss[j]),
                    ) by {
                        lemma_elem_frame(b1, b2, pos + 6 * j, lo, spec_encode_opt_str(ss[j]), a1, a2);
                    }
                },
                None => {},
            }
            assert(spec_field_decodes(b2, p, v, lo));
        },
        FieldValue::Objs(os) => {
            match spec_read_list_region(b1, off, 6) {
                Some((pos, count)) => {
                    assert forall|j: int| 0 <= j < os.len() implies #[trigger] spec_elem_holds(
                        b2,
                        pos + 6 * j,
                        lo,
                        os[j],
                    ) by {
                        lemma_elem_frame(b1, b2, pos + 6 * j, lo, os[j], a1, a2);
                    }
                },
                None => {},
            }
            assert(spec_field_decodes(b2, p, v, lo));
        },
    }
}

pub proof fn lemma_fields_frame(
    b1: Seq<u8>,
    b2: Seq<u8>,
    props: Seq<Property>,
    values: Seq<FieldValue>,
    lo: int,
    a1: int,
    a2: int,
)
    requires
        values.len() <= props.len(),
        forall|k: int|
            0 <= k < values.len() ==> spec_field_decodes(b1, #[trigger] props[k], values[k], lo),
        b1.len() <= b2.len(),
        lo <= b1.len(),
        forall|i: int|
            0 <= i < props.len() ==> (#[trigger] props[i]).offset == spec_fixed_offset(props, i),
        spec_fixed_offset(props, values.len() as int) <= a1,
        a1 <= a2 <= lo,
        forall|j: int| 0 <= j < b1.len() && !(a1 <= j < a2) ==> b2[j] == b1[j],
    ensures
        forall|k: int|
            0 <= k < values.len() ==> spec_field_decodes(b2, #[trigger] props[k], values[k], lo),
{
    assert forall|k: int|
        0 <= k < values.len() implies spec_field_decodes(b2, #[trigger] props[k], values[k], lo) by {
        lemma_fixed_offset_monotonic(props, k + 1, values.len() as int);
        assert(props[k].offset as int + props[k].data_type.spec_static_size() == spec_fixed_offset(
            props,
            k + 1,
        ));
        lemma_field_frame_one(b1, b2, props[k], values[k], lo, a1, a2);
    }
}


/// An incremental encoder for one object of a collection. Fields are
/// written strictly left to right by property index; variable-length
/// payloads go to a trailing region that starts at the fixed region's end.
/// `values` records, as ghost history, what each written field must decode
/// back to.
pub struct IsarWriter<'a> {
    pub collections: &'a Vec<CollectionSchema>,
    pub collection_index: usize,
    pub fixed_size: usize,
    pub fixed: Vec<u8>,
    pub dyn_data: Vec<u8>,
    pub next: usize,
    pub values: Ghost<Seq<FieldValue>>,
}

impl<'a> IsarWriter<'a> {
    pub open spec fn spec_props(self) -> Seq<Property> {
        self.collections@[self.collection_index as int].properties@
    }

    /// The buffer as it stands: fixed bytes so far, zero padding, payloads.
    pub open spec fn spec_cur(self) -> Seq<u8> {
        spec_assembled(self.fixed@, self.dyn_data@, self.fixed_size as int)
    }

    pub open spec fn inv_base(self) -> bool {
        &&& spec_schema_wf(self.collections@)
        &&& (self.collection_index as int) < self.collections@.len()
        &&& self.fixed_size as int == self.collections@[self.collection_index as int].spec_fixed_size()
        &&& self.values@.len() <= self.spec_props().len()
        &&& self.fixed@.len() <= self.fixed_size
        &&& self.fixed_size + self.dyn_data@.len() <= MAX_OBJECT_SIZE
    }

    pub open spec fn inv_fields(self) -> bool {
        forall|k: int|
            0 <= k < self.values@.len() ==> spec_field_decodes(
                self.spec_cur(),
                #[trigger] self.spec_props()[k],
                self.values@[k],
                self.fixed_size as int,
            )
    }

    /// The writer is between fields: as many slots emitted as values recorded.
    pub open spec fn aligned(self) -> bool {
        &&& self.next == self.values@.len()
        &&& self.fixed@.len() == spec_fixed_offset(self.spec_props(), self.next as int)
    }

    pub open spec fn wf(self) -> bool {
        self.inv_base() && self.inv_fields() && self.aligned()
    }

    /// The writer's collection, property offsets and size stay what they were.
    pub open spec fn meta_eq(self, o: Self) -> bool {
        &&& self.collections == o.collections
        &&& self.collection_index == o.collection_index
        &&& self.fixed_size == o.fixed_size
    }

    /// Starts a writer for one object of the given collection, with an empty
    /// fixed region and no payloads.
    pub fn new(collections: &'a Vec<CollectionSchema>, collection_index: usize) -> (r: Self)
        requires
            spec_schema_wf(collections@),
            (collection_index as int) < collections@.len(),
        ensures
            r.wf(),
            r.next == 0,
            r.values@ =~= Seq::<FieldValue>::empty(),
            r.collections == collections,
            r.collection_index == collection_index,
    {
        let props = &collections[collection_index].properties;
        let n = props.len();
        let mut fs: usize = 0;
        let mut i: usize = 0;
        proof {
            assert(collections@[collection_index as int].wf());
        }
        while i < n
            invariant
                n == props@.len(),
                i <= n,
                props@ == collections@[collection_index as int].properties@,
                fs == spec_fixed_offset(props@, i as int),
                spec_fixed_offset(props@, n as int) <= MAX_OBJECT_SIZE,
                collections@[collection_index as int].wf(),
            decreases n - i,
        {
            proof {
                lemma_fixed_offset_monotonic(props@, i as int + 1, n as int);
            }
            fs += props[i].data_type.static_size();
            i += 1;
        }
        IsarWriter {
            collections,
            collection_index,
            fixed_size: fs,
            fixed: Vec::new(),
            dyn_data: Vec::new(),
            next: 0,
            values: Ghost(Seq::empty()),
        }
    }


    /// Whether `index` names a property of the declared kind.
    pub open spec fn spec_typed(self, index: int, dt: DataType) -> bool {
        0 <= index < self.spec_props().len() && self.spec_props()[index].data_type == dt
    }

    /// A write is accepted exactly when it addresses the next unwritten
    /// property, in declaration order, and matches its declared kind.
    pub open spec fn spec_accepts(self, index: int, dt: DataType) -> bool {
        index == self.next && self.spec_typed(index, dt)
    }

    /// Checks that `index` is the next slot and has the declared kind, and
    /// relates the slot's offset to the bytes emitted so far.
    fn check_slot(&self, index: usize, dt: DataType) -> (r: Result<(), IsarError>)
        requires
            self.inv_base(),
            self.aligned(),
        ensures
            match r {
                Ok(()) => {
                    &&& self.spec_accepts(index as int, dt)
                    &&& self.fixed@.len() == self.spec_props()[index as int].offset
                    &&& self.fixed@.len() + dt.spec_static_size() <= self.fixed_size
                },
                Err(e) => {
                    &&& e == IsarError::InvalidArgument
                    &&& !self.spec_accepts(index as int, dt)
                },
            },
    {
        let props = &self.collections[self.collection_index].properties;
        if index != self.next || index >= props.len() {
            return Err(IsarError::InvalidArgument);
        }
        if !(props[index].data_type == dt) {
            return Err(IsarError::InvalidArgument);
        }
        proof {
            assert(self.collections@[self.collection_index as int].wf());
            lemma_fixed_offset_monotonic(
                self.spec_props(),
                index as int + 1,
                self.spec_props().len() as int,
            );
        }
        Ok(())
    }

    /// Records the value just written and re-establishes the writer
    /// invariant; the caller has shown that the new field decodes.
    #[verifier::rlimit(60)]
    fn record_value(&mut self, Ghost(v): Ghost<FieldValue>)
        requires
            old(self).inv_base(),
            old(self).inv_fields(),
            old(self).next == old(self).values@.len(),
            old(self).next < old(self).spec_props().len(),
            old(self).fixed@.len() == spec_fixed_offset(
                old(self).spec_props(),
                old(self).next + 1,
            ),
            spec_field_decodes(
                old(self).spec_cur(),
                old(self).spec_props()[old(self).next as int],
                v,
                old(self).fixed_size as int,
            ),
        ensures
            final(self).wf(),
            final(self).meta_eq(*old(self)),
            final(self).fixed == old(self).fixed,
            final(self).dyn_data == old(self).dyn_data,
            final(self).next == old(self).next + 1,
            final(self).values@ == old(self).values@.push(v),
    {
        let _n = self.collections[self.collection_index].properties.len();
        self.values = Ghost(self.values@.push(v));
        self.next = self.next + 1;
        assert forall|k: int|
            0 <= k < self.values@.len() implies spec_field_decodes(
            self.spec_cur(),
            #[trigger] self.spec_props()[k],
            self.values@[k],
            self.fixed_size as int,
        ) by {
            if k < old(self).values@.len() {
                assert(self.values@[k] == old(self).values@[k]);
            } else {
                assert(self.values@[k] == v);
            }
        }
    }

    /// Writes the null sentinel of the property's kind.
    pub fn write_null(&mut self, index: usize) -> (r: Result<(), IsarError>)
        requires
            old(self).wf(),
        ensures
            final(self).meta_eq(*old(self)),
            match r {
                Ok(()) => {
                    &&& final(self).wf()
                    &&& index == old(self).next < old(self).spec_props().len()
                    &&& final(self).values@ == old(self).values@.push(FieldValue::Null)
                    &&& final(self).next == old(self).next + 1
                    &&& final(self).dyn_data == old(self).dyn_data
                },
                Err(e) => {
                    &&& e == IsarError::InvalidArgument
                    &&& !(index == old(self).next && (index as int) < old(
                        self,
                    ).spec_props().len())
                    &&& *final(self) == *old(self)
                },
            },
    {
        let props = &self.collections[self.collection_index].properties;
        if index != self.next || index >= props.len() {
            return Err(IsarError::InvalidArgument);
        }
        let dt = props[index].data_type;
        proof {
            assert(self.collections@[self.collection_index as int].wf());
            lemma_fixed_offset_monotonic(
                self.spec_props(),
                index as int + 1,
                self.spec_props().len() as int,
            );
        }
        let ghost off = self.fixed@.len() as int;
        match dt {
            DataType::Bool | DataType::Byte => {
                let mut bv: Vec<u8> = Vec::new();
                bv.push(0u8);
                self.push_fixed(&bv);
                proof {
                    assert(self.spec_cur()[off] == 0u8);
                }
            },
            DataType::Int => {
                let bv = u32_to_le_bytes(0x8000_0000u32);
                self.push_fixed(&bv);
                proof {
                    self.lemma_slot_u32(off, 0x8000_0000u32, bv@);
                }
            },
            DataType::Float => {
                let bv = u32_to_le_bytes(NULL_FLOAT_BITS);
                self.push_fixed(&bv);
                proof {
                    self.lemma_slot_u32(off, NULL_FLOAT_BITS, bv@);
                }
            },
            DataType::Long => {
                let bv = u64_to_le_bytes(0x8000_0000_0000_0000u64);
                self.push_fixed(&bv);
                proof {
                    self.lemma_slot_u64(off, 0x8000_0000_0000_0000u64, bv@);
                }
            },
            DataType::Double => {
                let bv = u64_to_le_bytes(NULL_DOUBLE_BITS);
                self.push_fixed(&bv);
                proof {
                    self.lemma_slot_u64(off, NULL_DOUBLE_BITS, bv@);
                }
            },
            _ => {
                let bv = u32_to_le_bytes(0u32);
                self.push_fixed(&bv);
                proof {
                    self.lemma_slot_u32(off, 0u32, bv@);
                }
                let bv2 = u32_to_le_bytes(0u32);
                self.push_fixed(&bv2);
                proof {
                    self.lemma_slot_u32(off + 4, 0u32, bv2@);
                    self.lemma_slot_u32_stable(off, 0u32);
                }
            },
        }
        self.record_value(Ghost(FieldValue::Null));
        Ok(())
    }

    /// After the four bytes of `x` were just emitted at `off`, the buffer
    /// reads `x` back there.
    proof fn lemma_slot_u32(&self, off: int, x: u32, bv: Seq<u8>)
        requires
            self.inv_base(),
            bv == spec_u32_to_le_bytes(x),
            0 <= off,
            off + 4 <= self.fixed@.len(),
            forall|j: int| 0 <= j < 4 ==> self.spec_cur()[off + j] == bv[j],
        ensures
            spec_read_u32(self.spec_cur(), off) == Some(x),
    {
        lemma_auto_spec_u32_to_from_le_bytes();
        let c = self.spec_cur();
        assert(c.len() == self.fixed_size + self.dyn_data@.len()) by {
            lemma_assembled_index(self.fixed@, self.dyn_data@, self.fixed_size as int, 0);
        }
        assert(c.subrange(off, off + 4) =~= bv);
    }

    proof fn lemma_slot_u64(&self, off: int, x: u64, bv: Seq<u8>)
        requires
            self.inv_base(),
            bv == spec_u64_to_le_bytes(x),
            0 <= off,
            off + 8 <= self.fixed@.len(),
            forall|j: int| 0 <= j < 8 ==> self.spec_cur()[off + j] == bv[j],
        ensures
            spec_read_u64(self.spec_cur(), off) == Some(x),
    {
        lemma_auto_spec_u64_to_from_le_bytes();
        let c = self.spec_cur();
        assert(c.len() == self.fixed_size + self.dyn_data@.len()) by {
            lemma_assembled_index(self.fixed@, self.dyn_data@, self.fixed_size as int, 0);
        }
        assert(c.subrange(off, off + 8) =~= bv);
    }

    /// A u32 read of bytes that the last emission did not touch.
    proof fn lemma_slot_u32_stable(&self, off: int, x: u32)
        requires
            self.inv_base(),
            0 <= off,
            off + 4 <= self.fixed@.len(),
            forall|j: int| 0 <= j < 4 ==> self.spec_cur()[off + j] == spec_u32_to_le_bytes(x)[j],
        ensures
            spec_read_u32(self.spec_cur(), off) == Some(x),
    {
        self.lemma_slot_u32(off, x, spec_u32_to_le_bytes(x));
    }


    pub fn write_bool(&mut self, index: usize, value: bool) -> (r: Result<(), IsarError>)
        requires
            old(self).wf(),
        ensures
            final(self).meta_eq(*old(self)),
            match r {
                Ok(()) => {
                    &&& old(self).spec_accepts(index as int, DataType::Bool)
                    &&& final(self).wf()
                    &&& final(self).values@ == old(self).values@.push(FieldValue::Bool(value))
                    &&& final(self).next == old(self).next + 1
                    &&& final(self).dyn_data == old(self).dyn_data
                },
                Err(e) => {
                    &&& e == IsarError::InvalidArgument
                    &&& !old(self).spec_accepts(index as int, DataType::Bool)
                    &&& *final(self) == *old(self)
                },
            },
    {
        match self.check_slot(index, DataType::Bool) {
            Err(e) => {
                return Err(e);
            },
            Ok(()) => {},
        }
        let ghost off = self.fixed@.len() as int;
        let mut bv: Vec<u8> = Vec::new();
        bv.push(if value { 2u8 } else { 1u8 });
        self.push_fixed(&bv);
        proof {
            assert(self.spec_cur()[off] == bv@[0]);
        }
        self.record_value(Ghost(FieldValue::Bool(value)));
        Ok(())
    }

    pub fn write_byte(&mut self, index: usize, value: u8) -> (r: Result<(), IsarError>)
        requires
            old(self).wf(),
        ensures
            final(self).meta_eq(*old(self)),
            match r {
                Ok(()) => {
                    &&& old(self).spec_accepts(index as int, DataType::Byte)
                    &&& final(self).wf()
                    &&& final(self).values@ == old(self).values@.push(FieldValue::Byte(value))
                    &&& final(self).next == old(self).next + 1
                    &&& final(self).dyn_data == old(self).dyn_data
                },
                Err(e) => {
                    &&& e == IsarError::InvalidArgument
                    &&& !old(self).spec_accepts(index as int, DataType::Byte)
                    &&& *final(self) == *old(self)
                },
            },
    {
        match self.check_slot(index, DataType::Byte) {
            Err(e) => {
                return Err(e);
            },
            Ok(()) => {},
        }
        let ghost off = self.fixed@.len() as int;
        let mut bv: Vec<u8> = Vec::new();
        bv.push(value);
        self.push_fixed(&bv);
        proof {
            assert(self.spec_cur()[off] == bv@[0]);
        }
        self.record_value(Ghost(FieldValue::Byte(value)));
        Ok(())
    }

    pub fn write_int(&mut self, index: usize, value: i32) -> (r: Result<(), IsarError>)
        requires
            old(self).wf(),
        ensures
            final(self).meta_eq(*old(self)),
            match r {
                Ok(()) => {
                    &&& old(self).spec_accepts(index as int, DataType::Int)
                    &&& final(self).wf()
                    &&& final(self).values@ == old(self).values@.push(FieldValue::Int(value))
                    &&& final(self).next == old(self).next + 1
                    &&& final(self).dyn_data == old(self).dyn_data
                },
                Err(e) => {
                    &&& e == IsarError::InvalidArgument
                    &&& !old(self).spec_accepts(index as int, DataType::Int)
                    &&& *final(self) == *old(self)
                },
            },
    {
        match self.check_slot(index, DataType::Int) {
            Err(e) => {
                return Err(e);
            },
            Ok(()) => {},
        }
        let ghost off = self.fixed@.len() as int;
        let bits = i32_to_bits(value);
        let bv = u32_to_le_bytes(bits);
        self.push_fixed(&bv);
        proof {
            self.lemma_slot_u32(off, bits, bv@);
            crate::codec::lemma_i32_bits_round_trip(value);
        }
        self.record_value(Ghost(FieldValue::Int(value)));
        Ok(())
    }

    /// Writes a 32-bit float field from its little-endian bit pattern.
    pub fn write_float_bits(&mut self, index: usize, bits: u32) -> (r: Result<(), IsarError>)
        requires
            old(self).wf(),
        ensures
            final(self).meta_eq(*old(self)),
            match r {
                Ok(()) => {
                    &&& old(self).spec_accepts(index as int, DataType::Float)
                    &&& final(self).wf()
                    &&& final(self).values@ == old(self).values@.push(FieldValue::FloatBits(bits))
                    &&& final(self).next == old(self).next + 1
                    &&& final(self).dyn_data == old(self).dyn_data
                },
                Err(e) => {
                    &&& e == IsarError::InvalidArgument
                    &&& !old(self).spec_accepts(index as int, DataType::Float)
                    &&& *final(self) == *old(self)
                },
            },
    {
        match self.check_slot(index, DataType::Float) {
            Err(e) => {
                return Err(e);
            },
            Ok(()) => {},
        }
        let ghost off = self.fixed@.len() as int;
        let bv = u32_to_le_bytes(bits);
        self.push_fixed(&bv);
        proof {
            self.lemma_slot_u32(off, bits, bv@);
        }
        self.record_value(Ghost(FieldValue::FloatBits(bits)));
        Ok(())
    }

    pub fn write_long(&mut self, index: usize, value: i64) -> (r: Result<(), IsarError>)
        requires
            old(self).wf(),
        ensures
            final(self).meta_eq(*old(self)),
            match r {
                Ok(()) => {
                    &&& old(self).spec_accepts(index as int, DataType::Long)
                    &&& final(self).wf()
                    &&& final(self).values@ == old(self).values@.push(FieldValue::Long(value))
                    &&& final(self).next == old(self).next + 1
                    &&& final(self).dyn_data == old(self).dyn_data
                },
                Err(e) => {
                    &&& e == IsarError::InvalidArgument
                    &&& !old(self).spec_accepts(index as int, DataType::Long)
                    &&& *final(self) == *old(self)
                },
            },
    {
        match self.check_slot(index, DataType::Long) {
            Err(e) => {
                return Err(e);
            },
            Ok(()) => {},
        }
        let ghost off = self.fixed@.len() as int;
        let bits = i64_to_bits(value);
        let bv = u64_to_le_bytes(bits);
        self.push_fixed(&bv);
        proof {
            self.lemma_slot_u64(off, bits, bv@);
            crate::codec::lemma_i64_bits_round_trip(value);
        }
        self.record_value(Ghost(FieldValue::Long(value)));
        Ok(())
    }

    /// Writes a 64-bit float field from its little-endian bit pattern.
    pub fn write_double_bits(&mut self, index: usize, bits: u64) -> (r: Result<(), IsarError>)
        requires
            old(self).wf(),
        ensures
            final(self).meta_eq(*old(self)),
            match r {
                Ok(()) => {
                    &&& old(self).spec_accepts(index as int, DataType::Double)
                    &&& final(self).wf()
                    &&& final(self).values@ == old(self).values@.push(FieldValue::DoubleBits(bits))
                    &&& final(self).next == old(self).next + 1
                    &&& final(self).dyn_data == old(self).dyn_data
                },
                Err(e) => {
                    &&& e == IsarError::InvalidArgument
                    &&& !old(self).spec_accepts(index as int, DataType::Double)
                    &&& *final(self) == *old(self)
                },
            },
    {
        match self.check_slot(index, DataType::Double) {
            Err(e) => {
                return Err(e);
            },
            Ok(()) => {},
        }
        let ghost off = self.fixed@.len() as int;
        let bv = u64_to_le_bytes(bits);
        self.push_fixed(&bv);
        proof {
            self.lemma_slot_u64(off, bits, bv@);
        }
        self.record_value(Ghost(FieldValue::DoubleBits(bits)));
        Ok(())
    }


    /// Appends a payload to the trailing region and emits its descriptor —
    /// a four-byte position and a four-byte second word — into the next
    /// fixed slot. Fails, changing nothing, exactly when the object would
    /// outgrow the largest supported size.
    fn emit_dyn_field(&mut self, data: &[u8], word2: usize) -> (r: Result<(), IsarError>)
        requires
            old(self).inv_base(),
            old(self).inv_fields(),
            old(self).next == old(self).values@.len() < old(self).spec_props().len(),
            old(self).fixed@.len() == spec_fixed_offset(old(self).spec_props(), old(self).next as int),
            old(self).fixed@.len() + 8 <= old(self).fixed_size,
            word2 <= data@.len(),
        ensures
            final(self).meta_eq(*old(self)),
            final(self).values == old(self).values,
            final(self).next == old(self).next,
            match r {
                Ok(()) => {
                    &&& final(self).inv_base()
                    &&& final(self).inv_fields()
                    &&& final(self).fixed@ == old(self).fixed@ + spec_u32_to_le_bytes(
                        (old(self).fixed_size + old(self).dyn_data@.len()) as u32,
                    ) + spec_u32_to_le_bytes(word2 as u32)
                    &&& final(self).dyn_data@ == old(self).dyn_data@ + data@
                    &&& spec_read_u32(final(self).spec_cur(), old(self).fixed@.len() as int)
                        == Some((old(self).fixed_size + old(self).dyn_data@.len()) as u32)
                    &&& spec_read_u32(final(self).spec_cur(), old(self).fixed@.len() as int + 4)
                        == Some(word2 as u32)
                    &&& final(self).spec_cur().subrange(
                        old(self).fixed_size + old(self).dyn_data@.len(),
                        old(self).fixed_size + old(self).dyn_data@.len() + data@.len(),
                    ) == data@
                    &&& final(self).spec_cur().len() == old(self).fixed_size + old(
                        self,
                    ).dyn_data@.len() + data@.len()
                    &&& old(self).fixed_size + old(self).dyn_data@.len() + data@.len()
                        <= MAX_OBJECT_SIZE
                },
                Err(e) => {
                    &&& e == IsarError::EncodingError
                    &&& *final(self) == *old(self)
                    &&& old(self).fixed_size + old(self).dyn_data@.len() + data@.len()
                        > MAX_OBJECT_SIZE
                },
            },
    {
        let pos: usize = self.fixed_size + self.dyn_data.len();
        match self.append_dyn(data) {
            Err(e) => {
                return Err(e);
            },
            Ok(()) => {},
        }
        let ghost c0 = self.spec_cur();
        let ghost off = self.fixed@.len() as int;
        let ghost plen = data@.len() as int;
        proof {
            assert(c0.subrange(pos as int, pos as int + plen) =~= data@) by {
                assert(old(self).spec_cur().len() == old(self).fixed_size + old(
                    self,
                ).dyn_data@.len()) by {
                    if old(self).spec_cur().len() > 0 {
                        lemma_assembled_index(
                            old(self).fixed@,
                            old(self).dyn_data@,
                            old(self).fixed_size as int,
                            0,
                        );
                    }
                }
            }
        }
        let bv1 = u32_to_le_bytes(pos as u32);
        self.push_fixed(&bv1);
        let ghost c1 = self.spec_cur();
        proof {
            self.lemma_slot_u32(off, pos as u32, bv1@);
            assert(c1.subrange(pos as int, pos as int + plen) =~= c0.subrange(
                pos as int,
                pos as int + plen,
            ));
        }
        let bv2 = u32_to_le_bytes(word2 as u32);
        self.push_fixed(&bv2);
        let ghost c2 = self.spec_cur();
        proof {
            self.lemma_slot_u32(off + 4, word2 as u32, bv2@);
            self.lemma_slot_u32_stable(off, pos as u32);
            assert(c2.subrange(pos as int, pos as int + plen) =~= c1.subrange(
                pos as int,
                pos as int + plen,
            ));
            assert(self.fixed@ =~= old(self).fixed@ + spec_u32_to_le_bytes(pos as u32)
                + spec_u32_to_le_bytes(word2 as u32));
            assert(c2.len() == self.fixed_size + self.dyn_data@.len()) by {
                lemma_assembled_index(self.fixed@, self.dyn_data@, self.fixed_size as int, 0);
            }
        }
        Ok(())
    }

    pub fn write_string(&mut self, index: usize, value: &str) -> (r: Result<(), IsarError>)
        requires
            old(self).wf(),
        ensures
            final(self).meta_eq(*old(self)),
            match r {
                Ok(()) => {
                    &&& old(self).spec_accepts(index as int, DataType::String)
                    &&& final(self).wf()
                    &&& final(self).values@ == old(self).values@.push(FieldValue::Str(value@))
                    &&& final(self).next == old(self).next + 1
                },
                Err(e) => {
                    &&& *final(self) == *old(self)
                    &&& (e == IsarError::InvalidArgument <==> !old(self).spec_accepts(
                        index as int,
                        DataType::String,
                    ))
                    &&& (e == IsarError::EncodingError <==> old(self).spec_accepts(
                        index as int,
                        DataType::String,
                    ) && old(self).fixed_size + old(self).dyn_data@.len() + encode_utf8(
                        value@,
                    ).len() > MAX_OBJECT_SIZE)
                },
            },
            r is Ok <==> old(self).spec_accepts(index as int, DataType::String) && old(
                self,
            ).fixed_size + old(self).dyn_data@.len() + encode_utf8(value@).len()
                <= MAX_OBJECT_SIZE,
    {
        match self.check_slot(index, DataType::String) {
            Err(e) => {
                return Err(e);
            },
            Ok(()) => {},
        }
        let bytes = value.as_bytes();
        let blen = bytes.len();
        let ghost pos = (self.fixed_size + self.dyn_data@.len()) as int;
        match self.emit_dyn_field(bytes, blen) {
            Err(e) => {
                return Err(e);
            },
            Ok(()) => {},
        }
        proof {
            let c = self.spec_cur();
            let p = self.spec_props()[self.next as int];
            assert(spec_read_descriptor(c, p.offset as int) == Some((pos, blen as int)));
            assert(c.subrange(pos, pos + blen) == encode_utf8(value@));
            assert(spec_field_decodes(c, p, FieldValue::Str(value@), self.fixed_size as int));
            lemma_auto_spec_u32_to_from_le_bytes();
            assert(self.fixed@.len() == old(self).fixed@.len() + 8);
            assert(spec_fixed_offset(self.spec_props(), self.next as int + 1) == spec_fixed_offset(
                self.spec_props(),
                self.next as int,
            ) + 8);
        }
        self.record_value(Ghost(FieldValue::Str(value@)));
        Ok(())
    }


    /// Writes a Json field as the serialized bytes of the given document.
    /// serde_json decides whether the document serializes to bytes that
    /// parse back (a document nested past the parser's recursion limit does
    /// not); when it declines, or when the bytes would not fit, the field
    /// is rejected as an encoding error and nothing changes.
    pub fn write_json(&mut self, index: usize, value: &serde_json::Value) -> (r: Result<
        (),
        IsarError,
    >)
        requires
            old(self).wf(),
        ensures
            final(self).meta_eq(*old(self)),
            match r {
                Ok(()) => {
                    &&& old(self).spec_accepts(index as int, DataType::Json)
                    &&& final(self).wf()
                    &&& final(self).next == old(self).next + 1
                    &&& exists|d: Seq<u8>|
                        final(self).values@ == old(self).values@.push(FieldValue::Json(d))
                            && crate::json::spec_json_of(d) == Some(*value)
                },
                Err(e) => {
                    &&& *final(self) == *old(self)
                    &&& (e == IsarError::InvalidArgument <==> !old(self).spec_accepts(
                        index as int,
                        DataType::Json,
                    ))
                    &&& (e == IsarError::EncodingError ==> old(self).spec_accepts(
                        index as int,
                        DataType::Json,
                    ))
                    &&& (e == IsarError::InvalidArgument || e == IsarError::EncodingError)
                },
            },
    {
        match self.check_slot(index, DataType::Json) {
            Err(e) => {
                return Err(e);
            },
            Ok(()) => {},
        }
        let bytes = match json_to_bytes(value) {
            Some(b) => b,
            None => {
                return Err(IsarError::EncodingError);
            },
        };
        let blen = bytes.len();
        let ghost pos = (self.fixed_size + self.dyn_data@.len()) as int;
        match self.emit_dyn_field(bytes.as_slice(), blen) {
            Err(e) => {
                return Err(e);
            },
            Ok(()) => {},
        }
        proof {
            let c = self.spec_cur();
            let p = self.spec_props()[self.next as int];
            assert(spec_read_descriptor(c, p.offset as int) == Some((pos, blen as int)));
            assert(spec_field_decodes(c, p, FieldValue::Json(bytes@), self.fixed_size as int));
            lemma_auto_spec_u32_to_from_le_bytes();
            assert(self.fixed@.len() == old(self).fixed@.len() + 8);
            assert(spec_fixed_offset(self.spec_props(), self.next as int + 1) == spec_fixed_offset(
                self.spec_props(),
                self.next as int,
            ) + 8);
        }
        self.record_value(Ghost(FieldValue::Json(bytes@)));
        Ok(())
    }

    /// Writes an embedded Object field from the encoded bytes a nested
    /// writer produced.
    pub fn write_object(&mut self, index: usize, data: &Vec<u8>) -> (r: Result<(), IsarError>)
        requires
            old(self).wf(),
        ensures
            final(self).meta_eq(*old(self)),
            match r {
                Ok(()) => {
                    &&& old(self).spec_accepts(index as int, DataType::Object)
                    &&& final(self).wf()
                    &&& final(self).values@ == old(self).values@.push(FieldValue::Obj(data@))
                    &&& final(self).next == old(self).next + 1
                },
                Err(e) => {
                    &&& *final(self) == *old(self)
                    &&& (e == IsarError::InvalidArgument <==> !old(self).spec_accepts(
                        index as int,
                        DataType::Object,
                    ))
                    &&& (e == IsarError::EncodingError <==> old(self).spec_accepts(
                        index as int,
                        DataType::Object,
                    ) && old(self).fixed_size + old(self).dyn_data@.len() + data@.len()
                        > MAX_OBJECT_SIZE)
                },
            },
            r is Ok <==> old(self).spec_accepts(index as int, DataType::Object) && old(
                self,
            ).fixed_size + old(self).dyn_data@.len() + data@.len() <= MAX_OBJECT_SIZE,
    {
        match self.check_slot(index, DataType::Object) {
            Err(e) => {
                return Err(e);
            },
            Ok(()) => {},
        }
        let blen = data.len();
        let ghost pos = (self.fixed_size + self.dyn_data@.len()) as int;
        match self.emit_dyn_field(data.as_slice(), blen) {
            Err(e) => {
                return Err(e);
            },
            Ok(()) => {},
        }
        proof {
            let c = self.spec_cur();
            let p = self.spec_props()[self.next as int];
            assert(spec_read_descriptor(c, p.offset as int) == Some((pos, blen as int)));
            assert(spec_field_decodes(c, p, FieldValue::Obj(data@), self.fixed_size as int));
            lemma_auto_spec_u32_to_from_le_bytes();
            assert(self.fixed@.len() == old(self).fixed@.len() + 8);
            assert(spec_fixed_offset(self.spec_props(), self.next as int + 1) == spec_fixed_offset(
                self.spec_props(),
                self.next as int,
            ) + 8);
        }
        self.record_value(Ghost(FieldValue::Obj(data@)));
        Ok(())
    }

    /// Begins a nested writer for the embedded collection of an Object or
    /// ObjectList property.
    pub fn begin_object(&self, index: usize) -> (r: Result<IsarWriter<'a>, IsarError>)
        requires
            self.wf(),
        ensures
            match r {
                Ok(w) => {
                    &&& 0 <= index < self.spec_props().len()
                    &&& self.spec_props()[index as int].embedded_collection_index is Some
                    &&& w.wf()
                    &&& w.next == 0
                    &&& w.values@ =~= Seq::<FieldValue>::empty()
                    &&& w.collections == self.collections
                    &&& (w.collection_index as u16) == self.spec_props()[index as int].embedded_collection_index->0
                },
                Err(e) => e == IsarError::InvalidArgument,
            },
    {
        let props = &self.collections[self.collection_index].properties;
        if index >= props.len() {
            return Err(IsarError::InvalidArgument);
        }
        match props[index].embedded_collection_index {
            Some(e) => {
                proof {
                    assert(self.collections@[self.collection_index as int].wf());
                    assert(self.spec_props()[index as int].wf());
                }
                let e = e as usize;
                if e >= self.collections.len() {
                    proof {
                        assert(false);
                    }
                    return Err(IsarError::InvalidArgument);
                }
                Ok(IsarWriter::new(self.collections, e))
            },
            None => Err(IsarError::InvalidArgument),
        }
    }

    /// Writes a ByteList field as one contiguous blob.
    pub fn write_blob(&mut self, index: usize, data: &Vec<u8>) -> (r: Result<(), IsarError>)
        requires
            old(self).wf(),
        ensures
            final(self).meta_eq(*old(self)),
            match r {
                Ok(()) => {
                    &&& old(self).spec_accepts(index as int, DataType::ByteList)
                    &&& final(self).wf()
                    &&& final(self).values@ == old(self).values@.push(FieldValue::Blob(data@))
                    &&& final(self).next == old(self).next + 1
                },
                Err(e) => {
                    &&& *final(self) == *old(self)
                    &&& (e == IsarError::InvalidArgument <==> !old(self).spec_accepts(
                        index as int,
                        DataType::ByteList,
                    ))
                    &&& (e == IsarError::EncodingError <==> old(self).spec_accepts(
                        index as int,
                        DataType::ByteList,
                    ) && old(self).fixed_size + old(self).dyn_data@.len() + data@.len()
                        > MAX_OBJECT_SIZE)
                },
            },
            r is Ok <==> old(self).spec_accepts(index as int, DataType::ByteList) && old(
                self,
            ).fixed_size + old(self).dyn_data@.len() + data@.len() <= MAX_OBJECT_SIZE,
    {
        match self.check_slot(index, DataType::ByteList) {
            Err(e) => {
                return Err(e);
            },
            Ok(()) => {},
        }
        let blen = data.len();
        let ghost pos = (self.fixed_size + self.dyn_data@.len()) as int;
        match self.emit_dyn_field(data.as_slice(), blen) {
            Err(e) => {
                return Err(e);
            },
            Ok(()) => {},
        }
        proof {
            let c = self.spec_cur();
            let p = self.spec_props()[self.next as int];
            assert(spec_read_list_region(c, p.offset as int, 1) == Some((pos, blen as int)));
            assert(spec_field_decodes(c, p, FieldValue::Blob(data@), self.fixed_size as int));
            lemma_auto_spec_u32_to_from_le_bytes();
            assert(self.fixed@.len() == old(self).fixed@.len() + 8);
            assert(spec_fixed_offset(self.spec_props(), self.next as int + 1) == spec_fixed_offset(
                self.spec_props(),
                self.next as int,
            ) + 8);
        }
        self.record_value(Ghost(FieldValue::Blob(data@)));
        Ok(())
    }

    /// Completes the object: every property not yet written becomes null,
    /// and the fixed region and trailing region are joined into the encoded
    /// buffer. Each field of the result decodes to the value it was given.
    pub fn finish(self) -> (r: Vec<u8>)
        requires
            self.wf(),
        ensures
            r@.len() == self.fixed_size + self.dyn_data@.len(),
            r@.len() <= MAX_OBJECT_SIZE,
            forall|k: int|
                0 <= k < self.spec_props().len() ==> spec_field_decodes(
                    r@,
                    #[trigger] self.spec_props()[k],
                    if k < self.values@.len() {
                        self.values@[k]
                    } else {
                        FieldValue::Null
                    },
                    self.fixed_size as int,
                ),
    {
        let mut w = self;
        let n = w.collections[w.collection_index].properties.len();
        while w.next < n
            invariant
                w.wf(),
                n == w.spec_props().len(),
                w.collections == self.collections,
                w.collection_index == self.collection_index,
                w.fixed_size == self.fixed_size,
                w.dyn_data == self.dyn_data,
                self.values@.len() <= w.values@.len(),
                forall|k: int|
                    0 <= k < self.values@.len() ==> w.values@[k] == self.values@[k],
                forall|k: int|
                    self.values@.len() <= k < w.values@.len() ==> w.values@[k]
                        == FieldValue::Null,
            decreases n - w.next,
        {
            let idx = w.next;
            match w.write_null(idx) {
                Ok(()) => {},
                Err(_) => {
                    proof {
                        assert(false);
                    }
                },
            }
        }
        proof {
            assert(w.fixed@.len() == w.fixed_size) by {
                assert(w.fixed@.len() == spec_fixed_offset(w.spec_props(), w.next as int));
            }
        }
        let ghost cur = w.spec_cur();
        let mut buf = w.fixed;
        let mut tail = w.dyn_data;
        buf.append(&mut tail);
        proof {
            assert(buf@ =~= cur) by {
                assert forall|j: int| 0 <= j < buf@.len() implies buf@[j] == cur[j] by {
                    lemma_assembled_index(
                        w.fixed@,
                        w.dyn_data@,
                        w.fixed_size as int,
                        j,
                    );
                }
                lemma_assembled_index(w.fixed@, w.dyn_data@, w.fixed_size as int, 0);
            }
        }
        buf
    }


    /// Writes a StringList field: each element's UTF-8 bytes go to the
    /// trailing region, then a table of six-byte element descriptors, then
    /// the list descriptor. A `None` element becomes an absent descriptor.
    /// On failure the writer keeps its recorded fields; stray payload bytes
    /// may remain in the trailing region, but no field refers to them.
    pub fn write_string_list(&mut self, index: usize, values: &Vec<Option<String>>) -> (r: Result<
        (),
        IsarError,
    >)
        requires
            old(self).wf(),
        ensures
            final(self).meta_eq(*old(self)),
            match r {
                Ok(()) => {
                    &&& old(self).spec_accepts(index as int, DataType::StringList)
                    &&& final(self).wf()
                    &&& final(self).values@ == old(self).values@.push(
                        FieldValue::Strs(values.deep_view()),
                    )
                    &&& final(self).next == old(self).next + 1
                },
                Err(e) => {
                    &&& final(self).wf()
                    &&& final(self).values == old(self).values
                    &&& final(self).next == old(self).next
                    &&& (e == IsarError::InvalidArgument <==> !old(self).spec_accepts(
                        index as int,
                        DataType::StringList,
                    ))
                    &&& (e == IsarError::EncodingError <==> old(self).spec_accepts(
                        index as int,
                        DataType::StringList,
                    ) && old(self).fixed_size + old(self).dyn_data@.len() + 6 * values@.len()
                        + spec_payloads_len(
                        spec_str_payloads(values.deep_view()),
                        values@.len() as int,
                    ) > MAX_OBJECT_SIZE)
                },
            },
            r is Ok <==> old(self).spec_accepts(index as int, DataType::StringList) && old(
                self,
            ).fixed_size + old(self).dyn_data@.len() + 6 * values@.len() + spec_payloads_len(
                spec_str_payloads(values.deep_view()),
                values@.len() as int,
            ) <= MAX_OBJECT_SIZE,
    {
        match self.check_slot(index, DataType::StringList) {
            Err(e) => {
                return Err(e);
            },
            Ok(()) => {},
        }
        let ghost ds = spec_str_payloads(values.deep_view());
        let count = values.len();
        let mut descs: Vec<(u32, u32)> = Vec::new();
        let mut i: usize = 0;
        while i < count
            invariant
                self.inv_base(),
                self.inv_fields(),
                self.meta_eq(*old(self)),
                self.values == old(self).values,
                self.next == old(self).next,
                self.fixed == old(self).fixed,
                old(self).wf(),
                old(self).spec_accepts(index as int, DataType::StringList),
                count == values@.len(),
                i <= count,
                descs@.len() == i,
                ds == spec_str_payloads(values.deep_view()),
                ds.len() == count,
                self.dyn_data@.len() == old(self).dyn_data@.len() + spec_payloads_len(
                    ds,
                    i as int,
                ),
                forall|j: int|
                    0 <= j < i ==> match values@[j] {
                        Some(s) => {
                            &&& (#[trigger] descs@[j]).0 as int >= self.fixed_size
                            &&& descs@[j].0 as int + descs@[j].1 as int
                                <= self.spec_cur().len()
                            &&& descs@[j].0 as int <= MAX_OBJECT_SIZE
                            &&& descs@[j].1 as int <= MAX_OBJECT_SIZE
                            &&& self.spec_cur().subrange(
                                descs@[j].0 as int,
                                descs@[j].0 as int + descs@[j].1 as int,
                            ) == encode_utf8(s@)
                        },
                        None => (#[trigger] descs@[j]) == (0u32, 0u32),
                    },
            decreases count - i,
        {
            let ghost c1 = self.spec_cur();
            match &values[i] {
                Some(s) => {
                    let pos: usize = self.fixed_size + self.dyn_data.len();
                    let bytes = s.as_str().as_bytes();
                    let blen = bytes.len();
                    proof {
                        assert(values.deep_view()[i as int] == Some(s@));
                        assert(spec_opt_len(ds[i as int]) == bytes@.len());
                        assert(spec_payloads_len(ds, i as int + 1) == spec_payloads_len(
                            ds,
                            i as int,
                        ) + spec_opt_len(ds[i as int]));
                        lemma_payloads_len_monotonic(ds, i as int + 1, ds.len() as int);
                    }
                    match self.append_dyn(bytes) {
                        Err(e) => {
                            return Err(e);
                        },
                        Ok(()) => {},
                    }
                    proof {
                        assert(c1.len() == self.fixed_size + old(self).dyn_data@.len()
                            + (self.dyn_data@.len() - old(self).dyn_data@.len()
                            - bytes@.len())) by {
                            lemma_assembled_index(
                                self.fixed@,
                                self.dyn_data@,
                                self.fixed_size as int,
                                0,
                            );
                        }
                    }
                    descs.push((pos as u32, blen as u32));
                    proof {
                        let c2 = self.spec_cur();
                        assert(c2 == c1 + bytes@);
                        assert(c2.subrange(pos as int, pos as int + blen as int) =~= bytes@) by {
                            assert(c1.len() == pos as int) by {
                                lemma_assembled_index(
                                    self.fixed@,
                                    self.dyn_data@,
                                    self.fixed_size as int,
                                    0,
                                );
                            }
                        }
                        assert forall|j: int| 0 <= j < i implies (match values@[j] {
                            Some(s2) => {
                                &&& (#[trigger] descs@[j]).0 as int >= self.fixed_size
                                &&& descs@[j].0 as int + descs@[j].1 as int <= c2.len()
                                &&& descs@[j].0 as int <= MAX_OBJECT_SIZE
                                &&& descs@[j].1 as int <= MAX_OBJECT_SIZE
                                &&& c2.subrange(
                                    descs@[j].0 as int,
                                    descs@[j].0 as int + descs@[j].1 as int,
                                ) == encode_utf8(s2@)
                            },
                            None => (#[trigger] descs@[j]) == (0u32, 0u32),
                        }) by {
                            match values@[j] {
                                Some(s2) => {
                                    assert(c2.subrange(
                                        descs@[j].0 as int,
                                        descs@[j].0 as int + descs@[j].1 as int,
                                    ) =~= c1.subrange(
                                        descs@[j].0 as int,
                                        descs@[j].0 as int + descs@[j].1 as int,
                                    ));
                                },
                                None => {},
                            }
                        }
                    }
                },
                None => {
                    descs.push((0u32, 0u32));
                    proof {
                        assert(values.deep_view()[i as int] is None);
                        assert(spec_payloads_len(ds, i as int + 1) == spec_payloads_len(
                            ds,
                            i as int,
                        ));
                    }
                },
            }
            i += 1;
        }
        // The element descriptor table.
        let mut table: Vec<u8> = Vec::new();
        let mut i2: usize = 0;
        while i2 < count
            invariant
                count == descs@.len(),
                i2 <= count,
                table@.len() == 6 * i2,
                forall|j: int|
                    0 <= j < count ==> (#[trigger] descs@[j]).0 < 0x100_0000 && descs@[j].1
                        < 0x100_0000,
                forall|j: int|
                    0 <= j < i2 ==> table@.subrange(6 * j, 6 * j + 3) == spec_u24_to_le_bytes(
                        (#[trigger] descs@[j]).0,
                    ) && table@.subrange(6 * j + 3, 6 * j + 6) == spec_u24_to_le_bytes(
                        descs@[j].1,
                    ),
            decreases count - i2,
        {
            let ghost t0 = table@;
            let (dp, dl) = descs[i2];
            let (p0, p1, p2) = u24_to_le_bytes(dp);
            table.push(p0);
            table.push(p1);
            table.push(p2);
            let (l0, l1, l2) = u24_to_le_bytes(dl);
            table.push(l0);
            table.push(l1);
            table.push(l2);
            proof {
                assert forall|j: int| 0 <= j < i2 + 1 implies table@.subrange(6 * j, 6 * j + 3)
                    == spec_u24_to_le_bytes((#[trigger] descs@[j]).0) && table@.subrange(
                    6 * j + 3,
                    6 * j + 6,
                ) == spec_u24_to_le_bytes(descs@[j].1) by {
                    if j < i2 {
                        assert(table@.subrange(6 * j, 6 * j + 3) =~= t0.subrange(
                            6 * j,
                            6 * j + 3,
                        ));
                        assert(table@.subrange(6 * j + 3, 6 * j + 6) =~= t0.subrange(
                            6 * j + 3,
                            6 * j + 6,
                        ));
                    } else {
                        assert(table@.subrange(6 * j, 6 * j + 3) =~= seq![p0, p1, p2]);
                        assert(table@.subrange(6 * j + 3, 6 * j + 6) =~= seq![l0, l1, l2]);
                    }
                }
            }
            i2 += 1;
        }
        let ghost c3 = self.spec_cur();
        let ghost tpos = self.fixed_size + self.dyn_data@.len();
        match self.emit_dyn_field(table.as_slice(), count) {
            Err(e) => {
                return Err(e);
            },
            Ok(()) => {},
        }
        proof {
            let c = self.spec_cur();
            let p = self.spec_props()[self.next as int];
            let lo = self.fixed_size as int;
            // Bytes at or past the fixed region and before the table kept
            // their values.
            assert forall|j: int| lo <= j < c3.len() implies c[j] == c3[j] by {
                lemma_assembled_index(self.fixed@, self.dyn_data@, self.fixed_size as int, j);
                lemma_assembled_index(
                    old(self).fixed@,
                    self.dyn_data@,
                    self.fixed_size as int,
                    j,
                );
            }
            assert(c3.len() == tpos as int) by {
                lemma_assembled_index(old(self).fixed@, self.dyn_data@, self.fixed_size as int, 0);
            }
            assert(spec_read_list_region(c, p.offset as int, 6) == Some((tpos as int, count as int)));
            assert forall|j: int| 0 <= j < count implies #[trigger] spec_elem_holds(
                c,
                tpos + 6 * j,
                lo,
                spec_encode_opt_str(values.deep_view()[j]),
            ) by {
                assert(c.subrange(tpos + 6 * j, tpos + 6 * j + 3) =~= table@.subrange(
                    6 * j,
                    6 * j + 3,
                ));
                assert(c.subrange(tpos + 6 * j + 3, tpos + 6 * j + 6) =~= table@.subrange(
                    6 * j + 3,
                    6 * j + 6,
                ));
                crate::codec::lemma_u24_round_trip(descs@[j].0);
                crate::codec::lemma_u24_round_trip(descs@[j].1);
                assert(spec_read_u24(c, tpos + 6 * j) == Some(descs@[j].0));
                assert(spec_read_u24(c, tpos + 6 * j + 3) == Some(descs@[j].1));
                match values@[j] {
                    Some(s2) => {
                        assert(c.subrange(
                            descs@[j].0 as int,
                            descs@[j].0 as int + descs@[j].1 as int,
                        ) =~= c3.subrange(
                            descs@[j].0 as int,
                            descs@[j].0 as int + descs@[j].1 as int,
                        ));
                        assert(values.deep_view()[j] == Some(s2@));
                    },
                    None => {
                        assert(values.deep_view()[j] is None);
                    },
                }
            }
            assert(spec_field_decodes(
                c,
                p,
                FieldValue::Strs(values.deep_view()),
                self.fixed_size as int,
            ));
            lemma_auto_spec_u32_to_from_le_bytes();
            assert(self.fixed@.len() == old(self).fixed@.len() + 8);
            assert(spec_fixed_offset(self.spec_props(), self.next as int + 1) == spec_fixed_offset(
                self.spec_props(),
                self.next as int,
            ) + 8);
        }
        self.record_value(Ghost(FieldValue::Strs(values.deep_view())));
        Ok(())
    }


    /// Writes an ObjectList field from the encoded bytes nested writers
    /// produced: each element's bytes go to the trailing region, then a table of six-byte element descriptors, then
    /// the list descriptor. A `None` element becomes an absent descriptor.
    /// On failure the writer keeps its recorded fields; stray payload bytes
    /// may remain in the trailing region, but no field refers to them.
    pub fn write_object_list(&mut self, index: usize, values: &Vec<Option<Vec<u8>>>) -> (r: Result<
        (),
        IsarError,
    >)
        requires
            old(self).wf(),
        ensures
            final(self).meta_eq(*old(self)),
            match r {
                Ok(()) => {
                    &&& old(self).spec_accepts(index as int, DataType::ObjectList)
                    &&& final(self).wf()
                    &&& final(self).values@ == old(self).values@.push(
                        FieldValue::Objs(values.deep_view()),
                    )
                    &&& final(self).next == old(self).next + 1
                },
                Err(e) => {
                    &&& final(self).wf()
                    &&& final(self).values == old(self).values
                    &&& final(self).next == old(self).next
                    &&& (e == IsarError::InvalidArgument <==> !old(self).spec_accepts(
                        index as int,
                        DataType::ObjectList,
                    ))
                    &&& (e == IsarError::EncodingError <==> old(self).spec_accepts(
                        index as int,
                        DataType::ObjectList,
                    ) && old(self).fixed_size + old(self).dyn_data@.len() + 6 * values@.len()
                        + spec_payloads_len(values.deep_view(), values@.len() as int)
                        > MAX_OBJECT_SIZE)
                },
            },
            r is Ok <==> old(self).spec_accepts(index as int, DataType::ObjectList) && old(
                self,
            ).fixed_size + old(self).dyn_data@.len() + 6 * values@.len() + spec_payloads_len(
                values.deep_view(),
                values@.len() as int,
            ) <= MAX_OBJECT_SIZE,
    {
        match self.check_slot(index, DataType::ObjectList) {
            Err(e) => {
                return Err(e);
            },
            Ok(()) => {},
        }
        let ghost ds = values.deep_view();
        let count = values.len();
        let mut descs: Vec<(u32, u32)> = Vec::new();
        let mut i: usize = 0;
        while i < count
            invariant
                self.inv_base(),
                self.inv_fields(),
                self.meta_eq(*old(self)),
                self.values == old(self).values,
                self.next == old(self).next,
                self.fixed == old(self).fixed,
                old(self).wf(),
                old(self).spec_accepts(index as int, DataType::ObjectList),
                count == values@.len(),
                i <= count,
                descs@.len() == i,
                ds == values.deep_view(),
                ds.len() == count,
                self.dyn_data@.len() == old(self).dyn_data@.len() + spec_payloads_len(
                    ds,
                    i as int,
                ),
                forall|j: int|
                    0 <= j < i ==> match values@[j] {
                        Some(s) => {
                            &&& (#[trigger] descs@[j]).0 as int >= self.fixed_size
                            &&& descs@[j].0 as int + descs@[j].1 as int
                                <= self.spec_cur().len()
                            &&& descs@[j].0 as int <= MAX_OBJECT_SIZE
                            &&& descs@[j].1 as int <= MAX_OBJECT_SIZE
                            &&& self.spec_cur().subrange(
                                descs@[j].0 as int,
                                descs@[j].0 as int + descs@[j].1 as int,
                            ) == s@
                        },
                        None => (#[trigger] descs@[j]) == (0u32, 0u32),
                    },
            decreases count - i,
        {
            let ghost c1 = self.spec_cur();
            match &values[i] {
                Some(s) => {
                    let pos: usize = self.fixed_size + self.dyn_data.len();
                    let blen = s.len();
                    proof {
                        assert(values.deep_view()[i as int] == Some(s@));
                        assert(spec_opt_len(ds[i as int]) == s@.len());
                        assert(spec_payloads_len(ds, i as int + 1) == spec_payloads_len(
                            ds,
                            i as int,
                        ) + spec_opt_len(ds[i as int]));
                        lemma_payloads_len_monotonic(ds, i as int + 1, ds.len() as int);
                    }
                    match self.append_dyn(s.as_slice()) {
                        Err(e) => {
                            return Err(e);
                        },
                        Ok(()) => {},
                    }
                    proof {
                        assert(c1.len() == self.fixed_size + old(self).dyn_data@.len()
                            + (self.dyn_data@.len() - old(self).dyn_data@.len()
                            - s@.len())) by {
                            lemma_assembled_index(
                                self.fixed@,
                                self.dyn_data@,
                                self.fixed_size as int,
                                0,
                            );
                        }
                    }
                    descs.push((pos as u32, blen as u32));
                    proof {
                        let c2 = self.spec_cur();
                        assert(c2 == c1 + s@);
                        assert(c2.subrange(pos as int, pos as int + blen as int) =~= s@) by {
                            assert(c1.len() == pos as int) by {
                                lemma_assembled_index(
                                    self.fixed@,
                                    self.dyn_data@,
                                    self.fixed_size as int,
                                    0,
                                );
                            }
                        }
                        assert forall|j: int| 0 <= j < i implies (match values@[j] {
                            Some(s2) => {
                                &&& (#[trigger] descs@[j]).0 as int >= self.fixed_size
                                &&& descs@[j].0 as int + descs@[j].1 as int <= c2.len()
                                &&& descs@[j].0 as int <= MAX_OBJECT_SIZE
                                &&& descs@[j].1 as int <= MAX_OBJECT_SIZE
                                &&& c2.subrange(
                                    descs@[j].0 as int,
                                    descs@[j].0 as int + descs@[j].1 as int,
                                ) == s2@
                            },
                            None => (#[trigger] descs@[j]) == (0u32, 0u32),
                        }) by {
                            match values@[j] {
                                Some(s2) => {
                                    assert(c2.subrange(
                                        descs@[j].0 as int,
                                        descs@[j].0 as int + descs@[j].1 as int,
                                    ) =~= c1.subrange(
                                        descs@[j].0 as int,
                                        descs@[j].0 as int + descs@[j].1 as int,
                                    ));
                                },
                                None => {},
                            }
                        }
                    }
                },
                None => {
                    descs.push((0u32, 0u32));
                    proof {
                        assert(values.deep_view()[i as int] is None);
                        assert(spec_payloads_len(ds, i as int + 1) == spec_payloads_len(
                            ds,
                            i as int,
                        ));
                    }
                },
            }
            i += 1;
        }
        // The element descriptor table.
        let mut table: Vec<u8> = Vec::new();
        let mut i2: usize = 0;
        while i2 < count
            invariant
                count == descs@.len(),
                i2 <= count,
                table@.len() == 6 * i2,
                forall|j: int|
                    0 <= j < count ==> (#[trigger] descs@[j]).0 < 0x100_0000 && descs@[j].1
                        < 0x100_0000,
                forall|j: int|
                    0 <= j < i2 ==> table@.subrange(6 * j, 6 * j + 3) == spec_u24_to_le_bytes(
                        (#[trigger] descs@[j]).0,
                    ) && table@.subrange(6 * j + 3, 6 * j + 6) == spec_u24_to_le_bytes(
                        descs@[j].1,
                    ),
            decreases count - i2,
        {
            let ghost t0 = table@;
            let (dp, dl) = descs[i2];
            let (p0, p1, p2) = u24_to_le_bytes(dp);
            table.push(p0);
            table.push(p1);
            table.push(p2);
            let (l0, l1, l2) = u24_to_le_bytes(dl);
            table.push(l0);
            table.push(l1);
            table.push(l2);
            proof {
                assert forall|j: int| 0 <= j < i2 + 1 implies table@.subrange(6 * j, 6 * j + 3)
                    == spec_u24_to_le_bytes((#[trigger] descs@[j]).0) && table@.subrange(
                    6 * j + 3,
                    6 * j + 6,
                ) == spec_u24_to_le_bytes(descs@[j].1) by {
                    if j < i2 {
                        assert(table@.subrange(6 * j, 6 * j + 3) =~= t0.subrange(
                            6 * j,
                            6 * j + 3,
                        ));
                        assert(table@.subrange(6 * j + 3, 6 * j + 6) =~= t0.subrange(
                            6 * j + 3,
                            6 * j + 6,
                        ));
                    } else {
                        assert(table@.subrange(6 * j, 6 * j + 3) =~= seq![p0, p1, p2]);
                        assert(table@.subrange(6 * j + 3, 6 * j + 6) =~= seq![l0, l1, l2]);
                    }
                }
            }
            i2 += 1;
        }
        let ghost c3 = self.spec_cur();
        let ghost tpos = self.fixed_size + self.dyn_data@.len();
        match self.emit_dyn_field(table.as_slice(), count) {
            Err(e) => {
                return Err(e);
            },
            Ok(()) => {},
        }
        proof {
            let c = self.spec_cur();
            let p = self.spec_props()[self.next as int];
            let lo = self.fixed_size as int;
            // Bytes at or past the fixed region and before the table kept
            // their values.
            assert forall|j: int| lo <= j < c3.len() implies c[j] == c3[j] by {
                lemma_assembled_index(self.fixed@, self.dyn_data@, self.fixed_size as int, j);
                lemma_assembled_index(
                    old(self).fixed@,
                    self.dyn_data@,
                    self.fixed_size as int,
                    j,
                );
            }
            assert(c3.len() == tpos as int) by {
                lemma_assembled_index(old(self).fixed@, self.dyn_data@, self.fixed_size as int, 0);
            }
            assert(spec_read_list_region(c, p.offset as int, 6) == Some((tpos as int, count as int)));
            assert forall|j: int| 0 <= j < count implies #[trigger] spec_elem_holds(
                c,
                tpos + 6 * j,
                lo,
                values.deep_view()[j],
            ) by {
                assert(c.subrange(tpos + 6 * j, tpos + 6 * j + 3) =~= table@.subrange(
                    6 * j,
                    6 * j + 3,
                ));
                assert(c.subrange(tpos + 6 * j + 3, tpos + 6 * j + 6) =~= table@.subrange(
                    6 * j + 3,
                    6 * j + 6,
                ));
                crate::codec::lemma_u24_round_trip(descs@[j].0);
                crate::codec::lemma_u24_round_trip(descs@[j].1);
                assert(spec_read_u24(c, tpos + 6 * j) == Some(descs@[j].0));
                assert(spec_read_u24(c, tpos + 6 * j + 3) == Some(descs@[j].1));
                match values@[j] {
                    Some(s2) => {
                        assert(c.subrange(
                            descs@[j].0 as int,
                            descs@[j].0 as int + descs@[j].1 as int,
                        ) =~= c3.subrange(
                            descs@[j].0 as int,
                            descs@[j].0 as int + descs@[j].1 as int,
                        ));
                        assert(values.deep_view()[j] == Some(s2@));
                    },
                    None => {
                        assert(values.deep_view()[j] is None);
                    },
                }
            }
            assert(spec_field_decodes(
                c,
                p,
                FieldValue::Objs(values.deep_view()),
                self.fixed_size as int,
            ));
            lemma_auto_spec_u32_to_from_le_bytes();
            assert(self.fixed@.len() == old(self).fixed@.len() + 8);
            assert(spec_fixed_offset(self.spec_props(), self.next as int + 1) == spec_fixed_offset(
                self.spec_props(),
                self.next as int,
            ) + 8);
        }
        self.record_value(Ghost(FieldValue::Objs(values.deep_view())));
        Ok(())
    }


    /// Writes an IntList field: elements packed four bytes each.
    pub fn write_int_list(&mut self, index: usize, values: &Vec<i32>) -> (r: Result<
        (),
        IsarError,
    >)
        requires
            old(self).wf(),
        ensures
            final(self).meta_eq(*old(self)),
            match r {
                Ok(()) => {
                    &&& old(self).spec_accepts(index as int, DataType::IntList)
                    &&& final(self).wf()
                    &&& final(self).values@ == old(self).values@.push(FieldValue::Ints(values@))
                    &&& final(self).next == old(self).next + 1
                },
                Err(e) => {
                    &&& final(self).wf()
                    &&& final(self).values == old(self).values
                    &&& final(self).next == old(self).next
                    &&& (e == IsarError::InvalidArgument <==> !old(self).spec_accepts(
                        index as int,
                        DataType::IntList,
                    ))
                    &&& (e == IsarError::EncodingError <==> old(self).spec_accepts(
                        index as int,
                        DataType::IntList,
                    ) && old(self).fixed_size + old(self).dyn_data@.len() + 4 * values@.len()
                        > MAX_OBJECT_SIZE)
                },
            },
            r is Ok <==> old(self).spec_accepts(index as int, DataType::IntList) && old(
                self,
            ).fixed_size + old(self).dyn_data@.len() + 4 * values@.len() <= MAX_OBJECT_SIZE,
    {
        match self.check_slot(index, DataType::IntList) {
            Err(e) => {
                return Err(e);
            },
            Ok(()) => {},
        }
        let count = values.len();
        let mut payload: Vec<u8> = Vec::new();
        let mut i: usize = 0;
        while i < count
            invariant
                count == values@.len(),
                i <= count,
                payload@.len() == 4 * i,
                forall|j: int|
                    0 <= j < i ==> payload@.subrange(4 * j, 4 * j + 4) == spec_u32_to_le_bytes(
                        spec_i32_to_bits(#[trigger] values@[j]),
                    ),
            decreases count - i,
        {
            let ghost p0 = payload@;
            let mut bv = u32_to_le_bytes(i32_to_bits(values[i]));
            payload.append(&mut bv);
            proof {
                lemma_auto_spec_u32_to_from_le_bytes();
                assert forall|j: int| 0 <= j < i + 1 implies payload@.subrange(4 * j, 4 * j + 4)
                    == spec_u32_to_le_bytes(spec_i32_to_bits(#[trigger] values@[j])) by {
                    if j < i {
                        assert(payload@.subrange(4 * j, 4 * j + 4) =~= p0.subrange(
                            4 * j,
                            4 * j + 4,
                        ));
                    } else {
                        assert(payload@.subrange(4 * j, 4 * j + 4) =~= spec_u32_to_le_bytes(
                            spec_i32_to_bits(values@[j]),
                        ));
                    }
                }
            }
            i += 1;
        }
        let ghost pos = self.fixed_size + self.dyn_data@.len();
        match self.emit_dyn_field(payload.as_slice(), count) {
            Err(e) => {
                return Err(e);
            },
            Ok(()) => {},
        }
        proof {
            let c = self.spec_cur();
            let p = self.spec_props()[self.next as int];
            assert(spec_read_list_region(c, p.offset as int, 4) == Some((pos as int, count as int)));
            assert forall|j: int| 0 <= j < count implies spec_read_int(c, pos + 4 * j)
                == #[trigger] values@[j] by {
                assert(c.subrange(pos + 4 * j, pos + 4 * j + 4) =~= payload@.subrange(
                    4 * j,
                    4 * j + 4,
                ));
                lemma_auto_spec_u32_to_from_le_bytes();
                crate::codec::lemma_i32_bits_round_trip(values@[j]);
            }
            assert(spec_field_decodes(c, p, FieldValue::Ints(values@), self.fixed_size as int));
            lemma_auto_spec_u32_to_from_le_bytes();
            assert(self.fixed@.len() == old(self).fixed@.len() + 8);
            assert(spec_fixed_offset(self.spec_props(), self.next as int + 1) == spec_fixed_offset(
                self.spec_props(),
                self.next as int,
            ) + 8);
        }
        self.record_value(Ghost(FieldValue::Ints(values@)));
        Ok(())
    }

    /// Writes an LongList field: elements packed eight bytes each.
    pub fn write_long_list(&mut self, index: usize, values: &Vec<i64>) -> (r: Result<
        (),
        IsarError,
    >)
        requires
            old(self).wf(),
        ensures
            final(self).meta_eq(*old(self)),
            match r {
                Ok(()) => {
                    &&& old(self).spec_accepts(index as int, DataType::LongList)
                    &&& final(self).wf()
                    &&& final(self).values@ == old(self).values@.push(FieldValue::Longs(values@))
                    &&& final(self).next == old(self).next + 1
                },
                Err(e) => {
                    &&& final(self).wf()
                    &&& final(self).values == old(self).values
                    &&& final(self).next == old(self).next
                    &&& (e == IsarError::InvalidArgument <==> !old(self).spec_accepts(
                        index as int,
                        DataType::LongList,
                    ))
                    &&& (e == IsarError::EncodingError <==> old(self).spec_accepts(
                        index as int,
                        DataType::LongList,
                    ) && old(self).fixed_size + old(self).dyn_data@.len() + 8 * values@.len()
                        > MAX_OBJECT_SIZE)
                },
            },
            r is Ok <==> old(self).spec_accepts(index as int, DataType::LongList) && old(
                self,
            ).fixed_size + old(self).dyn_data@.len() + 8 * values@.len() <= MAX_OBJECT_SIZE,
    {
        match self.check_slot(index, DataType::LongList) {
            Err(e) => {
                return Err(e);
            },
            Ok(()) => {},
        }
        let count = values.len();
        let mut payload: Vec<u8> = Vec::new();
        let mut i: usize = 0;
        while i < count
            invariant
                count == values@.len(),
                i <= count,
                payload@.len() == 8 * i,
                forall|j: int|
                    0 <= j < i ==> payload@.subrange(8 * j, 8 * j + 8) == spec_u64_to_le_bytes(
                        spec_i64_to_bits(#[trigger] values@[j]),
                    ),
            decreases count - i,
        {
            let ghost p0 = payload@;
            let mut bv = u64_to_le_bytes(i64_to_bits(values[i]));
            payload.append(&mut bv);
            proof {
                lemma_auto_spec_u64_to_from_le_bytes();
                assert forall|j: int| 0 <= j < i + 1 implies payload@.subrange(8 * j, 8 * j + 8)
                    == spec_u64_to_le_bytes(spec_i64_to_bits(#[trigger] values@[j])) by {
                    if j < i {
                        assert(payload@.subrange(8 * j, 8 * j + 8) =~= p0.subrange(
                            8 * j,
                            8 * j + 8,
                        ));
                    } else {
                        assert(payload@.subrange(8 * j, 8 * j + 8) =~= spec_u64_to_le_bytes(
                            spec_i64_to_bits(values@[j]),
                        ));
                    }
                }
            }
            i += 1;
        }
        let ghost pos = self.fixed_size + self.dyn_data@.len();
        match self.emit_dyn_field(payload.as_slice(), count) {
            Err(e) => {
                return Err(e);
            },
            Ok(()) => {},
        }
        proof {
            let c = self.spec_cur();
            let p = self.spec_props()[self.next as int];
            assert(spec_read_list_region(c, p.offset as int, 8) == Some((pos as int, count as int)));
            assert forall|j: int| 0 <= j < count implies spec_read_long(c, pos + 8 * j)
                == #[trigger] values@[j] by {
                assert(c.subrange(pos + 8 * j, pos + 8 * j + 8) =~= payload@.subrange(
                    8 * j,
                    8 * j + 8,
                ));
                lemma_auto_spec_u64_to_from_le_bytes();
                crate::codec::lemma_i64_bits_round_trip(values@[j]);
            }
            assert(spec_field_decodes(c, p, FieldValue::Longs(values@), self.fixed_size as int));
            lemma_auto_spec_u32_to_from_le_bytes();
            assert(self.fixed@.len() == old(self).fixed@.len() + 8);
            assert(spec_fixed_offset(self.spec_props(), self.next as int + 1) == spec_fixed_offset(
                self.spec_props(),
                self.next as int,
            ) + 8);
        }
        self.record_value(Ghost(FieldValue::Longs(values@)));
        Ok(())
    }

    /// Writes an FloatList field from element bit patterns, packed four bytes each.
    pub fn write_float_bits_list(&mut self, index: usize, values: &Vec<u32>) -> (r: Result<
        (),
        IsarError,
    >)
        requires
            old(self).wf(),
        ensures
            final(self).meta_eq(*old(self)),
            match r {
                Ok(()) => {
                    &&& old(self).spec_accepts(index as int, DataType::FloatList)
                    &&& final(self).wf()
                    &&& final(self).values@ == old(self).values@.push(FieldValue::FloatsBits(values@))
                    &&& final(self).next == old(self).next + 1
                },
                Err(e) => {
                    &&& final(self).wf()
                    &&& final(self).values == old(self).values
                    &&& final(self).next == old(self).next
                    &&& (e == IsarError::InvalidArgument <==> !old(self).spec_accepts(
                        index as int,
                        DataType::FloatList,
                    ))
                    &&& (e == IsarError::EncodingError <==> old(self).spec_accepts(
                        index as int,
                        DataType::FloatList,
                    ) && old(self).fixed_size + old(self).dyn_data@.len() + 4 * values@.len()
                        > MAX_OBJECT_SIZE)
                },
            },
            r is Ok <==> old(self).spec_accepts(index as int, DataType::FloatList) && old(
                self,
            ).fixed_size + old(self).dyn_data@.len() + 4 * values@.len() <= MAX_OBJECT_SIZE,
    {
        match self.check_slot(index, DataType::FloatList) {
            Err(e) => {
                return Err(e);
            },
            Ok(()) => {},
        }
        let count = values.len();
        let mut payload: Vec<u8> = Vec::new();
        let mut i: usize = 0;
        while i < count
            invariant
                count == values@.len(),
                i <= count,
                payload@.len() == 4 * i,
                forall|j: int|
                    0 <= j < i ==> payload@.subrange(4 * j, 4 * j + 4) == spec_u32_to_le_bytes(
                        #[trigger] values@[j],
                    ),
            decreases count - i,
        {
            let ghost p0 = payload@;
            let mut bv = u32_to_le_bytes(values[i]);
            payload.append(&mut bv);
            proof {
                lemma_auto_spec_u32_to_from_le_bytes();
                assert forall|j: int| 0 <= j < i + 1 implies payload@.subrange(4 * j, 4 * j + 4)
                    == spec_u32_to_le_bytes(#[trigger] values@[j]) by {
                    if j < i {
                        assert(payload@.subrange(4 * j, 4 * j + 4) =~= p0.subrange(
                            4 * j,
                            4 * j + 4,
                        ));
                    } else {
                        assert(payload@.subrange(4 * j, 4 * j + 4) =~= spec_u32_to_le_bytes(values@[j]));
                    }
                }
            }
            i += 1;
        }
        let ghost pos = self.fixed_size + self.dyn_data@.len();
        match self.emit_dyn_field(payload.as_slice(), count) {
            Err(e) => {
                return Err(e);
            },
            Ok(()) => {},
        }
        proof {
            let c = self.spec_cur();
            let p = self.spec_props()[self.next as int];
            assert(spec_read_list_region(c, p.offset as int, 4) == Some((pos as int, count as int)));
            assert forall|j: int| 0 <= j < count implies spec_read_float_bits(c, pos + 4 * j)
                == #[trigger] values@[j] by {
                assert(c.subrange(pos + 4 * j, pos + 4 * j + 4) =~= payload@.subrange(
                    4 * j,
                    4 * j + 4,
                ));
                lemma_auto_spec_u32_to_from_le_bytes();
            }
            assert(spec_field_decodes(c, p, FieldValue::FloatsBits(values@), self.fixed_size as int));
            lemma_auto_spec_u32_to_from_le_bytes();
            assert(self.fixed@.len() == old(self).fixed@.len() + 8);
            assert(spec_fixed_offset(self.spec_props(), self.next as int + 1) == spec_fixed_offset(
                self.spec_props(),
                self.next as int,
            ) + 8);
        }
        self.record_value(Ghost(FieldValue::FloatsBits(values@)));
        Ok(())
    }

    /// Writes an DoubleList field from element bit patterns, packed eight bytes each.
    pub fn write_double_bits_list(&mut self, index: usize, values: &Vec<u64>) -> (r: Result<
        (),
        IsarError,
    >)
        requires
            old(self).wf(),
        ensures
            final(self).meta_eq(*old(self)),
            match r {
                Ok(()) => {
                    &&& old(self).spec_accepts(index as int, DataType::DoubleList)
                    &&& final(self).wf()
                    &&& final(self).values@ == old(self).values@.push(FieldValue::DoublesBits(values@))
                    &&& final(self).next == old(self).next + 1
                },
                Err(e) => {
                    &&& final(self).wf()
                    &&& final(self).values == old(self).values
                    &&& final(self).next == old(self).next
                    &&& (e == IsarError::InvalidArgument <==> !old(self).spec_accepts(
                        index as int,
                        DataType::DoubleList,
                    ))
                    &&& (e == IsarError::EncodingError <==> old(self).spec_accepts(
                        index as int,
                        DataType::DoubleList,
                    ) && old(self).fixed_size + old(self).dyn_data@.len() + 8 * values@.len()
                        > MAX_OBJECT_SIZE)
                },
            },
            r is Ok <==> old(self).spec_accepts(index as int, DataType::DoubleList) && old(
                self,
            ).fixed_size + old(self).dyn_data@.len() + 8 * values@.len() <= MAX_OBJECT_SIZE,
    {
        match self.check_slot(index, DataType::DoubleList) {
            Err(e) => {
                return Err(e);
            },
            Ok(()) => {},
        }
        let count = values.len();
        let mut payload: Vec<u8> = Vec::new();
        let mut i: usize = 0;
        while i < count
            invariant
                count == values@.len(),
                i <= count,
                payload@.len() == 8 * i,
                forall|j: int|
                    0 <= j < i ==> payload@.subrange(8 * j, 8 * j + 8) == spec_u64_to_le_bytes(
                        #[trigger] values@[j],
                    ),
            decreases count - i,
        {
            let ghost p0 = payload@;
            let mut bv = u64_to_le_bytes(values[i]);
            payload.append(&mut bv);
            proof {
                lemma_auto_spec_u64_to_from_le_bytes();
                assert forall|j: int| 0 <= j < i + 1 implies payload@.subrange(8 * j, 8 * j + 8)
                    == spec_u64_to_le_bytes(#[trigger] values@[j]) by {
                    if j < i {
                        assert(payload@.subrange(8 * j, 8 * j + 8) =~= p0.subrange(
                            8 * j,
                            8 * j + 8,
                        ));
                    } else {
                        assert(payload@.subrange(8 * j, 8 * j + 8) =~= spec_u64_to_le_bytes(values@[j]));
                    }
                }
            }
            i += 1;
        }
        let ghost pos = self.fixed_size + self.dyn_data@.len();
        match self.emit_dyn_field(payload.as_slice(), count) {
            Err(e) => {
                return Err(e);
            },
            Ok(()) => {},
        }
        proof {
            let c = self.spec_cur();
            let p = self.spec_props()[self.next as int];
            assert(spec_read_list_region(c, p.offset as int, 8) == Some((pos as int, count as int)));
            assert forall|j: int| 0 <= j < count implies spec_read_double_bits(c, pos + 8 * j)
                == #[trigger] values@[j] by {
                assert(c.subrange(pos + 8 * j, pos + 8 * j + 8) =~= payload@.subrange(
                    8 * j,
                    8 * j + 8,
                ));
                lemma_auto_spec_u64_to_from_le_bytes();
            }
            assert(spec_field_decodes(c, p, FieldValue::DoublesBits(values@), self.fixed_size as int));
            lemma_auto_spec_u32_to_from_le_bytes();
            assert(self.fixed@.len() == old(self).fixed@.len() + 8);
            assert(spec_fixed_offset(self.spec_props(), self.next as int + 1) == spec_fixed_offset(
                self.spec_props(),
                self.next as int,
            ) + 8);
        }
        self.record_value(Ghost(FieldValue::DoublesBits(values@)));
        Ok(())
    }

    /// Writes a BoolList field: one byte per element, nulls as the null
    /// sentinel byte.
    pub fn write_bool_list(&mut self, index: usize, values: &Vec<Option<bool>>) -> (r: Result<
        (),
        IsarError,
    >)
        requires
            old(self).wf(),
        ensures
            final(self).meta_eq(*old(self)),
            match r {
                Ok(()) => {
                    &&& old(self).spec_accepts(index as int, DataType::BoolList)
                    &&& final(self).wf()
                    &&& final(self).values@ == old(self).values@.push(FieldValue::Bools(values@))
                    &&& final(self).next == old(self).next + 1
                },
                Err(e) => {
                    &&& final(self).wf()
                    &&& final(self).values == old(self).values
                    &&& final(self).next == old(self).next
                    &&& (e == IsarError::InvalidArgument <==> !old(self).spec_accepts(
                        index as int,
                        DataType::BoolList,
                    ))
                    &&& (e == IsarError::EncodingError <==> old(self).spec_accepts(
                        index as int,
                        DataType::BoolList,
                    ) && old(self).fixed_size + old(self).dyn_data@.len() + 1 * values@.len()
                        > MAX_OBJECT_SIZE)
                },
            },
            r is Ok <==> old(self).spec_accepts(index as int, DataType::BoolList) && old(
                self,
            ).fixed_size + old(self).dyn_data@.len() + 1 * values@.len() <= MAX_OBJECT_SIZE,
    {
        match self.check_slot(index, DataType::BoolList) {
            Err(e) => {
                return Err(e);
            },
            Ok(()) => {},
        }
        let count = values.len();
        let mut payload: Vec<u8> = Vec::new();
        let mut i: usize = 0;
        while i < count
            invariant
                count == values@.len(),
                i <= count,
                payload@.len() == i,
                forall|j: int|
                    0 <= j < i ==> payload@[j] == spec_bool_to_byte(#[trigger] values@[j]),
            decreases count - i,
        {
            payload.push(bool_to_byte(values[i]));
            i += 1;
        }
        let ghost pos = self.fixed_size + self.dyn_data@.len();
        match self.emit_dyn_field(payload.as_slice(), count) {
            Err(e) => {
                return Err(e);
            },
            Ok(()) => {},
        }
        proof {
            let c = self.spec_cur();
            let p = self.spec_props()[self.next as int];
            assert(spec_read_list_region(c, p.offset as int, 1) == Some((pos as int, count as int)));
            assert forall|j: int| 0 <= j < count implies spec_read_bool(c, pos + j)
                == #[trigger] values@[j] by {
                assert(c.subrange(pos as int, pos + count)[j] == c[pos + j]);
                assert(c[pos + j] == payload@[j]);
                crate::codec::lemma_bool_byte_round_trip(values@[j]);
            }
            assert(spec_field_decodes(c, p, FieldValue::Bools(values@), self.fixed_size as int));
            lemma_auto_spec_u32_to_from_le_bytes();
            assert(self.fixed@.len() == old(self).fixed@.len() + 8);
            assert(spec_fixed_offset(self.spec_props(), self.next as int + 1) == spec_fixed_offset(
                self.spec_props(),
                self.next as int,
            ) + 8);
        }
        self.record_value(Ghost(FieldValue::Bools(values@)));
        Ok(())
    }

    /// Emits the next fixed-slot bytes, preserving what every earlier field
    /// decodes to.
    fn push_fixed(&mut self, bytes: &Vec<u8>)
        requires
            old(self).inv_base(),
            old(self).inv_fields(),
            old(self).fixed@.len() + bytes@.len() <= old(self).fixed_size,
            spec_fixed_offset(old(self).spec_props(), old(self).values@.len() as int) <= old(
                self,
            ).fixed@.len(),
        ensures
            final(self).inv_base(),
            final(self).inv_fields(),
            final(self).meta_eq(*old(self)),
            final(self).values == old(self).values,
            final(self).next == old(self).next,
            final(self).dyn_data == old(self).dyn_data,
            final(self).fixed@ == old(self).fixed@ + bytes@,
            final(self).spec_cur().len() == old(self).spec_cur().len(),
            forall|j: int|
                0 <= j < final(self).spec_cur().len() && !(old(self).fixed@.len() <= j < old(
                    self,
                ).fixed@.len() + bytes@.len()) ==> final(self).spec_cur()[j] == old(self).spec_cur()[j],
            forall|j: int|
                0 <= j < bytes@.len() ==> final(self).spec_cur()[old(self).fixed@.len() + j] == bytes@[j],
    {
        let ghost b1 = old(self).spec_cur();
        let ghost a1 = old(self).fixed@.len() as int;
        let ghost a2 = a1 + bytes@.len() as int;
        let mut i: usize = 0;
        let n = bytes.len();
        while i < n
            invariant
                n == bytes@.len(),
                i <= n,
                self.fixed@ == old(self).fixed@ + bytes@.subrange(0, i as int),
                self.dyn_data == old(self).dyn_data,
                self.collections == old(self).collections,
                self.collection_index == old(self).collection_index,
                self.fixed_size == old(self).fixed_size,
                self.next == old(self).next,
                self.values == old(self).values,
                old(self).fixed@.len() + n <= old(self).fixed_size,
            decreases n - i,
        {
            self.fixed.push(*slice_index_get(bytes.as_slice(), i));
            proof {
                assert(self.fixed@ =~= old(self).fixed@ + bytes@.subrange(0, i as int + 1));
            }
            i += 1;
        }
        proof {
            assert(self.fixed@ =~= old(self).fixed@ + bytes@);
            let b2 = self.spec_cur();
            assert forall|j: int| 0 <= j < b1.len() && !(a1 <= j < a2) implies b2[j] == b1[j] by {
                lemma_assembled_index(old(self).fixed@, old(self).dyn_data@, old(self).fixed_size as int, j);
                lemma_assembled_index(self.fixed@, self.dyn_data@, self.fixed_size as int, j);
            }
            assert forall|j: int| 0 <= j < bytes@.len() implies b2[a1 + j] == bytes@[j] by {
                lemma_assembled_index(self.fixed@, self.dyn_data@, self.fixed_size as int, a1 + j);
            }
            assert(b2.len() == b1.len());
            assert(forall|i2: int|
                0 <= i2 < old(self).spec_props().len() ==> (#[trigger] old(self).spec_props()[i2]).offset
                    == spec_fixed_offset(old(self).spec_props(), i2)) by {
                assert(old(self).collections@[old(self).collection_index as int].wf());
            }
            lemma_fields_frame(
                b1,
                b2,
                old(self).spec_props(),
                old(self).values@,
                old(self).fixed_size as int,
                a1,
                a2,
            );
        }
    }

    /// Appends payload bytes to the trailing region; fails, changing
    /// nothing, exactly when the object would outgrow the largest supported
    /// size.
    fn append_dyn(&mut self, bytes: &[u8]) -> (r: Result<(), IsarError>)
        requires
            old(self).inv_base(),
            old(self).inv_fields(),
        ensures
            final(self).meta_eq(*old(self)),
            final(self).values == old(self).values,
            final(self).next == old(self).next,
            final(self).fixed == old(self).fixed,
            match r {
                Ok(()) => {
                    &&& final(self).inv_base()
                    &&& final(self).inv_fields()
                    &&& final(self).dyn_data@ == old(self).dyn_data@ + bytes@
                    &&& final(self).spec_cur() == old(self).spec_cur() + bytes@
                    &&& old(self).fixed_size + old(self).dyn_data@.len() + bytes@.len()
                        <= MAX_OBJECT_SIZE
                },
                Err(e) => {
                    &&& e == IsarError::EncodingError
                    &&& final(self).dyn_data == old(self).dyn_data
                    &&& old(self).fixed_size + old(self).dyn_data@.len() + bytes@.len()
                        > MAX_OBJECT_SIZE
                },
            },
    {
        let blen = bytes.len();
        if (blen as u64) > (MAX_OBJECT_SIZE as u64) - (self.fixed_size as u64) - (self.dyn_data.len() as u64) {
            return Err(IsarError::EncodingError);
        }
        let ghost b1 = old(self).spec_cur();
        let mut i: usize = 0;
        while i < blen
            invariant
                blen == bytes@.len(),
                i <= blen,
                self.dyn_data@ == old(self).dyn_data@ + bytes@.subrange(0, i as int),
                self.fixed == old(self).fixed,
                self.collections == old(self).collections,
                self.collection_index == old(self).collection_index,
                self.fixed_size == old(self).fixed_size,
                self.next == old(self).next,
                self.values == old(self).values,
                old(self).fixed_size + old(self).dyn_data@.len() + blen <= MAX_OBJECT_SIZE,
            decreases blen - i,
        {
            self.dyn_data.push(*slice_index_get(bytes, i));
            proof {
                assert(self.dyn_data@ =~= old(self).dyn_data@ + bytes@.subrange(0, i as int + 1));
            }
            i += 1;
        }
        proof {
            assert(self.dyn_data@ =~= old(self).dyn_data@ + bytes@);
            let b2 = self.spec_cur();
            assert(b2 =~= b1 + bytes@) by {
                assert forall|j: int| 0 <= j < b2.len() implies b2[j] == (b1 + bytes@)[j] by {
                    lemma_assembled_index(self.fixed@, self.dyn_data@, self.fixed_size as int, j);
                    if j < b1.len() {
                        lemma_assembled_index(old(self).fixed@, old(self).dyn_data@, old(self).fixed_size as int, j);
                    }
                }
            }
            assert forall|j: int| 0 <= j < b1.len() implies b2[j] == b1[j] by {
                assert(b2[j] == (b1 + bytes@)[j]);
            }
            assert(forall|i2: int|
                0 <= i2 < old(self).spec_props().len() ==> (#[trigger] old(self).spec_props()[i2]).offset
                    == spec_fixed_offset(old(self).spec_props(), i2)) by {
                assert(old(self).collections@[old(self).collection_index as int].wf());
            }
            lemma_fixed_offset_monotonic(
                old(self).spec_props(),
                old(self).values@.len() as int,
                old(self).spec_props().len() as int,
            );
            lemma_fields_frame(
                b1,
                b2,
                old(self).spec_props(),
                old(self).values@,
                old(self).fixed_size as int,
                old(self).fixed_size as int,
                old(self).fixed_size as int,
            );
        }
        Ok(())
    }
}

} // verus!
