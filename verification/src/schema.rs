use crate::data_type::DataType;
use crate::error::IsarError;
use vstd::prelude::*;

verus! {

/// The largest encoded object size the layout supports. List element
/// descriptors hold three-byte positions, so every position inside an
/// object must fit in 24 bits.
pub const MAX_OBJECT_SIZE: usize = 0xFF_FFFF;

/// One declared field of a collection, before the codec has assigned its
/// byte offset.
pub struct PropertySchema {
    pub name: String,
    pub data_type: DataType,
    /// Which collection describes the nested object's own properties; set
    /// exactly when `data_type` is Object or ObjectList.
    pub embedded_collection_index: Option<u16>,
}

impl PropertySchema {
    pub fn new(name: String, data_type: DataType, embedded_collection_index: Option<u16>) -> (r:
        Self)
        ensures
            r.name == name,
            r.data_type == data_type,
            r.embedded_collection_index == embedded_collection_index,
    {
        PropertySchema { name, data_type, embedded_collection_index }
    }

    /// A declared field is well formed when it carries an embedded-collection
    /// reference exactly if its kind is Object or ObjectList.
    pub open spec fn wf(self) -> bool {
        (self.data_type is Object || self.data_type is ObjectList)
            <==> self.embedded_collection_index is Some
    }
}

/// One field of a finalized collection: the declaration plus the stable byte
/// offset of its slot in the fixed region of an encoded object.
pub struct Property {
    pub name: String,
    pub data_type: DataType,
    pub offset: u32,
    pub embedded_collection_index: Option<u16>,
}

impl Property {
    pub open spec fn wf(self) -> bool {
        (self.data_type is Object || self.data_type is ObjectList)
            <==> self.embedded_collection_index is Some
    }
}

/// The total width of the fixed slots of the first `n` properties; the
/// offset each property gets is the width of those before it.
pub open spec fn spec_fixed_offset(props: Seq<Property>, n: int) -> int
    decreases n,
{
    if n <= 0 {
        0
    } else {
        spec_fixed_offset(props, n - 1) + props[n - 1].data_type.spec_static_size()
    }
}

/// Offsets grow with the property index, so distinct fixed slots never
/// overlap.
pub proof fn lemma_fixed_offset_monotonic(props: Seq<Property>, i: int, j: int)
    requires
        0 <= i <= j <= props.len(),
    ensures
        spec_fixed_offset(props, i) <= spec_fixed_offset(props, j),
    decreases j - i,
{
    if i < j {
        lemma_fixed_offset_monotonic(props, i, j - 1);
        assert(props[j - 1].data_type.spec_static_size() >= 0);
    }
}

/// One declared index of a collection: a name and the ordered properties
/// it spans, each given as a position in the collection's property
/// sequence. The memory engine keeps index declarations as schema metadata:
/// queries stay correct by scanning, and the `unique` flag is declarative
/// only — inserts do not reject a duplicate of the indexed fields.
pub struct IndexSchema {
    pub name: String,
    pub properties: Vec<u16>,
    pub unique: bool,
}

impl IndexSchema {
    /// Every property the index spans exists in the collection.
    pub open spec fn valid_for(self, n_props: int) -> bool {
        forall|i: int|
            0 <= i < self.properties@.len() ==> (#[trigger] self.properties@[i] as int) < n_props
    }
}

/// The description of one object type: its ordered, finalized properties.
/// `embedded` marks collections that only describe nested objects and hold
/// no stored records of their own.
pub struct CollectionSchema {
    pub name: String,
    pub properties: Vec<Property>,
    pub indexes: Vec<IndexSchema>,
    pub embedded: bool,
}

impl CollectionSchema {
    /// The width of the fixed region of an object of this collection.
    pub open spec fn spec_fixed_size(self) -> int {
        spec_fixed_offset(self.properties@, self.properties@.len() as int)
    }

    /// Well-formedness of one finalized collection: every property is well
    /// formed, no two properties share a name, and every offset is exactly
    /// the width of the properties before it, so that two loads of the same
    /// declaration always produce the identical layout.
    pub open spec fn wf(self) -> bool {
        &&& forall|i: int|
            0 <= i < self.properties@.len() ==> (#[trigger] self.properties@[i]).wf()
        &&& forall|i: int, j: int|
            0 <= i < j < self.properties@.len() ==> (#[trigger] self.properties@[i]).name@ != (
            #[trigger] self.properties@[j]).name@
        &&& forall|i: int|
            0 <= i < self.properties@.len() ==> (#[trigger] self.properties@[i]).offset
                == spec_fixed_offset(self.properties@, i)
        &&& self.spec_fixed_size() <= MAX_OBJECT_SIZE
        &&& forall|k: int|
            0 <= k < self.indexes@.len() ==> (#[trigger] self.indexes@[k]).valid_for(
                self.properties@.len() as int,
            )
    }

    /// Whether any property is an Object or ObjectList; an embedded
    /// collection may not have one, which caps nesting at a single level.
    pub open spec fn spec_has_nested(self) -> bool {
        exists|i: int|
            0 <= i < self.properties@.len() && ((#[trigger] self.properties@[i]).data_type
                is Object || self.properties@[i].data_type is ObjectList)
    }

    /// Finalizes a collection: checks each declared field, rejects duplicate
    /// names, and assigns deterministic offsets in declaration order.
    pub fn build(name: String, props: Vec<PropertySchema>, embedded: bool) -> (r: Result<
        CollectionSchema,
        IsarError,
    >)
        ensures
            match r {
                Ok(c) => {
                    &&& c.wf()
                    &&& c.name == name
                    &&& c.embedded == embedded
                    &&& c.properties@.len() == props@.len()
                    &&& forall|i: int|
                        0 <= i < props@.len() ==> {
                            &&& (#[trigger] c.properties@[i]).name@ == props@[i].name@
                            &&& c.properties@[i].data_type == props@[i].data_type
                            &&& c.properties@[i].embedded_collection_index
                                == props@[i].embedded_collection_index
                        }
                },
                Err(e) => e == IsarError::SchemaError,
            },
            r is Err <==> !(forall|i: int|
                0 <= i < props@.len() ==> (#[trigger] props@[i]).wf()) || !(forall|i: int, j: int|
                0 <= i < j < props@.len() ==> (#[trigger] props@[i]).name@ != (
                #[trigger] props@[j]).name@) || spec_decl_size(props@, props@.len() as int)
                > MAX_OBJECT_SIZE,
    {
        // Reject an ill-formed field or a duplicate name.
        let n = props.len();
        for i in 0..n
            invariant
                n == props@.len(),
                forall|k: int| 0 <= k < i ==> (#[trigger] props@[k]).wf(),
                forall|k: int, l: int|
                    0 <= k < l < i ==> (#[trigger] props@[k]).name@ != (#[trigger] props@[l]).name@,
        {
            let p = &props[i];
            let is_object = match p.data_type {
                DataType::Object | DataType::ObjectList => true,
                _ => false,
            };
            if is_object != p.embedded_collection_index.is_some() {
                assert(!props@[i as int].wf());
                return Err(IsarError::SchemaError);
            }
            let mut j: usize = 0;
            while j < i
                invariant
                    n == props@.len(),
                    i < n,
                    j <= i,
                    forall|l: int| 0 <= l < j ==> (#[trigger] props@[l]).name@ != props@[i as int].name@,
                decreases i - j,
            {
                if props[j].name == props[i].name {
                    return Err(IsarError::SchemaError);
                }
                j += 1;
            }
        }
        // Assign offsets in declaration order.
        let mut out: Vec<Property> = Vec::new();
        let mut offset: usize = 0;
        for i in 0..n
            invariant
                n == props@.len(),
                out@.len() == i,
                offset == spec_fixed_offset(out@, i as int),
                offset <= MAX_OBJECT_SIZE,
                forall|k: int| 0 <= k < n ==> (#[trigger] props@[k]).wf(),
                forall|k: int, l: int|
                    0 <= k < l < n ==> (#[trigger] props@[k]).name@ != (#[trigger] props@[l]).name@,
                forall|k: int|
                    0 <= k < i ==> {
                        &&& (#[trigger] out@[k]).name@ == props@[k].name@
                        &&& out@[k].data_type == props@[k].data_type
                        &&& out@[k].embedded_collection_index == props@[k].embedded_collection_index
                        &&& out@[k].offset == spec_fixed_offset(out@, k)
                    },
                spec_fixed_offset(out@, i as int) == spec_decl_size(props@, i as int),
        {
            let p = &props[i];
            let size = p.data_type.static_size();
            if offset + size > MAX_OBJECT_SIZE {
                proof {
                    lemma_decl_size_monotonic(props@, i as int + 1, props@.len() as int);
                }
                return Err(IsarError::SchemaError);
            }
            let ghost old_out = out@;
            out.push(
                Property {
                    name: clone_string(&p.name),
                    data_type: p.data_type,
                    offset: offset as u32,
                    embedded_collection_index: p.embedded_collection_index,
                },
            );
            proof {
                assert forall|k: int| 0 <= k <= i implies spec_fixed_offset(out@, k)
                    == spec_fixed_offset(old_out, k) by {
                    lemma_fixed_offset_prefix(old_out, out@, k);
                }
            }
            offset += size;
        }
        let c = CollectionSchema { name, properties: out, indexes: Vec::new(), embedded };
        Ok(c)
    }
}

impl CollectionSchema {
    /// Declares an index over existing properties; an index naming a
    /// property the collection does not have is rejected.
    pub fn add_index(&mut self, index: IndexSchema) -> (r: Result<(), IsarError>)
        requires
            old(self).wf(),
        ensures
            final(self).name == old(self).name,
            final(self).properties == old(self).properties,
            final(self).embedded == old(self).embedded,
            final(self).wf(),
            match r {
                Ok(()) => {
                    &&& index.valid_for(old(self).properties@.len() as int)
                    &&& final(self).indexes@ == old(self).indexes@.push(index)
                },
                Err(e) => {
                    &&& e == IsarError::SchemaError
                    &&& !index.valid_for(old(self).properties@.len() as int)
                    &&& final(self).indexes == old(self).indexes
                },
            },
    {
        let np = self.properties.len();
        let n = index.properties.len();
        let mut i: usize = 0;
        while i < n
            invariant
                n == index.properties@.len(),
                i <= n,
                np == self.properties@.len(),
                *self == *old(self),
                old(self).wf(),
                forall|k: int| 0 <= k < i ==> (#[trigger] index.properties@[k] as int) < np,
            decreases n - i,
        {
            if index.properties[i] as usize >= np {
                proof {
                    assert((index.properties@[i as int] as int) >= np as int);
                    assert(!index.valid_for(np as int));
                }
                return Err(IsarError::SchemaError);
            }
            i += 1;
        }
        proof {
            assert(index.valid_for(np as int));
        }
        self.indexes.push(index);
        proof {
            assert forall|k: int| 0 <= k < self.indexes@.len() implies (
            #[trigger] self.indexes@[k]).valid_for(self.properties@.len() as int) by {
                if k < old(self).indexes@.len() {
                    assert(self.indexes@[k] == old(self).indexes@[k]);
                }
            }
        }
        Ok(())
    }
}

/// The total fixed width the declared fields will need.
pub open spec fn spec_decl_size(props: Seq<PropertySchema>, n: int) -> int
    decreases n,
{
    if n <= 0 {
        0
    } else {
        spec_decl_size(props, n - 1) + props[n - 1].data_type.spec_static_size()
    }
}

pub proof fn lemma_decl_size_monotonic(props: Seq<PropertySchema>, i: int, j: int)
    requires
        0 <= i <= j <= props.len(),
    ensures
        spec_decl_size(props, i) <= spec_decl_size(props, j),
    decreases j - i,
{
    if i < j {
        lemma_decl_size_monotonic(props, i, j - 1);
    }
}

/// A prefix of the property sequence determines the offsets inside it.
pub proof fn lemma_fixed_offset_prefix(a: Seq<Property>, b: Seq<Property>, n: int)
    requires
        0 <= n <= a.len(),
        a.len() <= b.len(),
        forall|i: int| 0 <= i < a.len() ==> a[i] == b[i],
    ensures
        spec_fixed_offset(a, n) == spec_fixed_offset(b, n),
    decreases n,
{
    if n > 0 {
        lemma_fixed_offset_prefix(a, b, n - 1);
    }
}

/// Clones a string, keeping its characters.
pub fn clone_string(s: &String) -> (r: String)
    ensures
        r@ == s@,
{
    s.clone()
}

/// Well-formedness of a whole schema: every collection is well formed, and
/// every embedded-collection reference points at an embedded collection of
/// this schema that itself nests nothing further.
pub open spec fn spec_schema_wf(cols: Seq<CollectionSchema>) -> bool {
    &&& forall|c: int| 0 <= c < cols.len() ==> (#[trigger] cols[c]).wf()
    &&& forall|c: int, i: int|
        0 <= c < cols.len() && 0 <= i < cols[c].properties@.len() && (
        #[trigger] cols[c].properties@[i]).embedded_collection_index is Some ==> {
            let e = cols[c].properties@[i].embedded_collection_index->0 as int;
            &&& e < cols.len()
            &&& cols[e].embedded
            &&& !cols[e].spec_has_nested()
        }
}

/// Checks a loaded schema as a whole: collection layouts, embedded
/// references staying inside the schema, and the single-level nesting limit.
pub fn validate_schema(cols: &Vec<CollectionSchema>) -> (r: Result<(), IsarError>)
    ensures
        r is Ok <==> spec_schema_wf(cols@),
        r is Err ==> r->Err_0 == IsarError::SchemaError,
{
    let n = cols.len();
    for c in 0..n
        invariant
            n == cols@.len(),
            forall|k: int| 0 <= k < c ==> (#[trigger] cols@[k]).wf(),
            forall|k: int, i: int|
                0 <= k < c && 0 <= i < cols@[k].properties@.len() && (
                #[trigger] cols@[k].properties@[i]).embedded_collection_index is Some ==> {
                    let e = cols@[k].properties@[i].embedded_collection_index->0 as int;
                    &&& e < cols@.len()
                    &&& cols@[e].embedded
                    &&& !cols@[e].spec_has_nested()
                },
    {
        if !check_collection_wf(&cols[c]) {
            return Err(IsarError::SchemaError);
        }
        let np = cols[c].properties.len();
        for i in 0..np
            invariant
                n == cols@.len(),
                c < n,
                np == cols@[c as int].properties@.len(),
                forall|i0: int|
                    0 <= i0 < i && (
                    #[trigger] cols@[c as int].properties@[i0]).embedded_collection_index
                        is Some ==> {
                        let e = cols@[c as int].properties@[i0].embedded_collection_index->0 as int;
                        &&& e < cols@.len()
                        &&& cols@[e].embedded
                        &&& !cols@[e].spec_has_nested()
                    },
        {
            match cols[c].properties[i].embedded_collection_index {
                Some(e) => {
                    let e = e as usize;
                    if e >= n {
                        return Err(IsarError::SchemaError);
                    }
                    if !cols[e].embedded {
                        return Err(IsarError::SchemaError);
                    }
                    if has_nested(&cols[e]) {
                        return Err(IsarError::SchemaError);
                    }
                },
                None => {},
            }
        }
    }
    Ok(())
}

/// Whether the collection declares any Object or ObjectList property.
fn has_nested(c: &CollectionSchema) -> (r: bool)
    ensures
        r == c.spec_has_nested(),
{
    let n = c.properties.len();
    for i in 0..n
        invariant
            n == c.properties@.len(),
            forall|k: int|
                0 <= k < i ==> !((#[trigger] c.properties@[k]).data_type is Object
                    || c.properties@[k].data_type is ObjectList),
    {
        match c.properties[i].data_type {
            DataType::Object | DataType::ObjectList => {
                return true;
            },
            _ => {},
        }
    }
    false
}

/// Whether one property is well formed.
fn check_prop(p: &Property) -> (r: bool)
    ensures
        r == p.wf(),
{
    let is_object = match p.data_type {
        DataType::Object | DataType::ObjectList => true,
        _ => false,
    };
    is_object == p.embedded_collection_index.is_some()
}

/// Whether property `i`'s name differs from every earlier property's name.
fn name_fresh(props: &Vec<Property>, i: usize) -> (r: bool)
    requires
        i < props@.len(),
    ensures
        r == forall|l: int| 0 <= l < i ==> (#[trigger] props@[l]).name@ != props@[i as int].name@,
{
    let mut j: usize = 0;
    while j < i
        invariant
            i < props@.len(),
            j <= i,
            forall|l: int| 0 <= l < j ==> (#[trigger] props@[l]).name@ != props@[i as int].name@,
        decreases i - j,
    {
        if props[j].name == props[i].name {
            return false;
        }
        j += 1;
    }
    true
}

/// Re-checks the well-formedness of one finalized collection.
#[verifier::rlimit(100)]
fn check_collection_wf(c: &CollectionSchema) -> (r: bool)
    ensures
        r == c.wf(),
{
    let n = c.properties.len();
    let mut offset: usize = 0;
    let mut i: usize = 0;
    while i < n
        invariant
            n == c.properties@.len(),
            i <= n,
            offset == spec_fixed_offset(c.properties@, i as int),
            offset <= MAX_OBJECT_SIZE,
            forall|k: int| 0 <= k < i ==> (#[trigger] c.properties@[k]).wf(),
            forall|k: int, l: int|
                0 <= k < l < i ==> (#[trigger] c.properties@[k]).name@ != (
                #[trigger] c.properties@[l]).name@,
            forall|k: int|
                0 <= k < i ==> (#[trigger] c.properties@[k]).offset == spec_fixed_offset(
                    c.properties@,
                    k,
                ),
        decreases n - i,
    {
        let p = &c.properties[i];
        if !check_prop(p) {
            return false;
        }
        if !name_fresh(&c.properties, i) {
            return false;
        }
        if p.offset as usize != offset {
            return false;
        }
        let size = p.data_type.static_size();
        if offset + size > MAX_OBJECT_SIZE {
            proof {
                lemma_fixed_offset_monotonic(c.properties@, i as int + 1, n as int);
            }
            return false;
        }
        offset += size;
        i += 1;
    }
    let ni = c.indexes.len();
    let mut k: usize = 0;
    while k < ni
        invariant
            ni == c.indexes@.len(),
            k <= ni,
            forall|l: int|
                0 <= l < k ==> (#[trigger] c.indexes@[l]).valid_for(c.properties@.len() as int),
        decreases ni - k,
    {
        let np = c.properties.len();
        let n = c.indexes[k].properties.len();
        let mut i2: usize = 0;
        while i2 < n
            invariant
                ni == c.indexes@.len(),
                k < ni,
                n == c.indexes@[k as int].properties@.len(),
                np == c.properties@.len(),
                i2 <= n,
                forall|l: int|
                    0 <= l < i2 ==> (#[trigger] c.indexes@[k as int].properties@[l] as int) < np,
            decreases n - i2,
        {
            if c.indexes[k].properties[i2] as usize >= np {
                proof {
                    assert((c.indexes@[k as int].properties@[i2 as int] as int) >= np as int);
                    assert(!c.indexes@[k as int].valid_for(c.properties@.len() as int));
                }
                return false;
            }
            i2 += 1;
        }
        k += 1;
    }
    true
}

} // verus!
