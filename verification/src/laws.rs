use crate::codec::{spec_bool_from_byte, spec_bool_to_byte, spec_i32_from_bits, spec_i32_to_bits,
    spec_i64_from_bits, spec_i64_to_bits};
use crate::instance::{spec_first_match, spec_ids_ok, spec_rec_matches, Record};
use crate::filter::Filter;
use crate::object::{spec_read_data, spec_read_descriptor, spec_read_elem_string,
    spec_read_string, spec_read_u24, spec_read_u32, spec_read_u64};
use crate::schema::Property;
use crate::writer::{spec_elem_holds, spec_field_decodes, FieldValue};
use vstd::prelude::*;
use vstd::utf8::{encode_utf8, encode_utf8_decode_utf8, encode_utf8_valid_utf8};

verus! {

/// Round trip for every value a field can carry: the writer states, for
/// each written field, that the buffer decodes back to that value through
/// the reader's own specification functions (`spec_field_decodes`). For the
/// scalar kinds and raw payloads that statement is the reader's result
/// itself; the string kinds go through the UTF-8 codec, and the two lemmas
/// below close that loop.
/// A written string field reads back as the very characters it was given.
pub proof fn lemma_string_round_trip(b: Seq<u8>, p: Property, s: Seq<char>, lo: int)
    requires
        spec_field_decodes(b, p, FieldValue::Str(s), lo),
    ensures
        spec_read_string(b, p.offset as int) == Some(s),
{
    encode_utf8_valid_utf8(s);
    encode_utf8_decode_utf8(s);
}

/// A written string-list element reads back as the characters it was given.
pub proof fn lemma_string_elem_round_trip(b: Seq<u8>, o: int, lo: int, s: Seq<char>)
    requires
        spec_elem_holds(b, o, lo, Some(encode_utf8(s))),
    ensures
        spec_read_elem_string(b, o) == Some(s),
{
    encode_utf8_valid_utf8(s);
    encode_utf8_decode_utf8(s);
}

/// A written string list reads back element by element: each stored
/// element yields exactly the characters it was given, and each absent
/// element reads as absent.
pub proof fn lemma_string_list_round_trip(
    b: Seq<u8>,
    p: Property,
    ss: Seq<Option<Seq<char>>>,
    lo: int,
    pos: int,
    count: int,
    j: int,
)
    requires
        spec_field_decodes(b, p, FieldValue::Strs(ss), lo),
        crate::object::spec_read_list_region(b, p.offset as int, 6) == Some((pos, count)),
        0 <= j < ss.len(),
    ensures
        match ss[j] {
            Some(s) => spec_read_elem_string(b, pos + 6 * j) == Some(s),
            None => crate::object::spec_read_u24(b, pos + 6 * j) == Some(0u32),
        },
{
    assert(spec_elem_holds(b, pos + 6 * j, lo, crate::writer::spec_encode_opt_str(ss[j])));
    match ss[j] {
        Some(s) => {
            lemma_string_elem_round_trip(b, pos + 6 * j, lo, s);
        },
        None => {},
    }
}

/// Round trip for the fixed-width codecs themselves: bits in, bits out.
pub proof fn lemma_scalar_round_trips(v32: i32, v64: i64, vb: Option<bool>)
    ensures
        spec_i32_from_bits(spec_i32_to_bits(v32)) == v32,
        spec_i64_from_bits(spec_i64_to_bits(v64)) == v64,
        spec_bool_from_byte(spec_bool_to_byte(vb)) == vb,
{
}

/// An absent variable-length field is distinguishable from an empty one: a
/// null field has no descriptor, while an empty string still has one and
/// reads back as the empty string.
pub proof fn lemma_absent_differs_from_empty(b: Seq<u8>, p: Property, lo: int)
    requires
        p.data_type is String,
    ensures
        spec_field_decodes(b, p, FieldValue::Null, lo) ==> spec_read_descriptor(b, p.offset as int)
            is None && spec_read_string(b, p.offset as int) is None,
        spec_field_decodes(b, p, FieldValue::Str(Seq::empty()), lo) ==> spec_read_string(
            b,
            p.offset as int,
        ) == Some(Seq::<char>::empty()),
{
    if spec_field_decodes(b, p, FieldValue::Str(Seq::empty()), lo) {
        lemma_string_round_trip(b, p, Seq::empty(), lo);
    }
}

/// Offset safety: every read fails closed. A fixed-width read whose span
/// leaves the buffer yields nothing, and a descriptor yields data only when
/// both its own bytes and the data it points at lie inside the buffer.
pub proof fn lemma_reads_fail_closed(b: Seq<u8>, o: int)
    ensures
        o + 4 > b.len() ==> spec_read_u32(b, o) is None,
        o + 8 > b.len() ==> spec_read_u64(b, o) is None,
        o + 3 > b.len() ==> spec_read_u24(b, o) is None,
        match spec_read_descriptor(b, o) {
            Some((pos, len)) => 0 < pos && pos + len <= b.len(),
            None => true,
        },
        match spec_read_data(b, o) {
            Some(d) => d.len() <= b.len(),
            None => true,
        },
{
}

/// Ids are unique within a collection: two stored records with the same id
/// are the same record.
pub proof fn lemma_ids_unique(recs: Seq<Record>, next_id: i64, i: int, j: int)
    requires
        spec_ids_ok(recs, next_id),
        0 <= i < recs.len(),
        0 <= j < recs.len(),
        recs[i].id == recs[j].id,
    ensures
        i == j,
{
    if i < j {
        assert(recs[i].id < recs[j].id);
    }
    if j < i {
        assert(recs[j].id < recs[i].id);
    }
}

/// Exactly once: a full cursor walk yields a matching record at position
/// `i` exactly one time. The walk that resumes anywhere at or before `i`
/// with no other match in between yields position `i`; and once the cursor
/// has moved past `i`, no later step can yield it again. With unique ids
/// this makes the record observable exactly once per iteration.
pub proof fn lemma_match_yielded_exactly_once(
    recs: Seq<Record>,
    f: Option<Filter>,
    props: Seq<Property>,
    i: int,
    from: int,
)
    requires
        0 <= from <= i < recs.len(),
        spec_rec_matches(recs[i], f, props),
        forall|k: int| from <= k < i ==> !spec_rec_matches(#[trigger] recs[k], f, props),
    ensures
        spec_first_match(recs, f, props, from) == Some(i),
        forall|from2: int| i < from2 ==> spec_first_match(recs, f, props, from2) != Some(i),
    decreases i - from,
{
    if from < i {
        lemma_match_yielded_exactly_once(recs, f, props, i, from + 1);
    }
    assert forall|from2: int| i < from2 implies spec_first_match(recs, f, props, from2) != Some(
        i,
    ) by {
        if from2 >= 0 {
            crate::instance::lemma_first_match(recs, f, props, from2);
        }
    }
}

/// Snapshot isolation, on the reading side: a cursor walk over a snapshot
/// yields only records of that snapshot, so an id absent from the snapshot
/// — say, one a concurrent write transaction has only just assigned — is
/// never observed.
pub proof fn lemma_query_sees_only_snapshot(
    recs: Seq<Record>,
    f: Option<Filter>,
    props: Seq<Property>,
    from: int,
    id: i64,
)
    requires
        0 <= from,
        forall|i: int| 0 <= i < recs.len() ==> (#[trigger] recs[i]).id != id,
    ensures
        match spec_first_match(recs, f, props, from) {
            Some(i) => recs[i].id != id,
            None => true,
        },
    decreases recs.len() - from,
{
    crate::instance::lemma_first_match(recs, f, props, from);
}

} // verus!
