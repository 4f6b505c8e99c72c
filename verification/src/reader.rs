use crate::data_type::DataType;
use crate::error::IsarError;
use crate::json::{parse_json, spec_json_of};
use crate::object::{
    spec_read_blob, spec_read_bool, spec_read_data, spec_read_double_bits, spec_read_elem_data,
    spec_read_elem_string, spec_read_float_bits, spec_read_int, spec_read_list_region,
    spec_read_long, spec_read_string, spec_read_u8, IsarObject,
};
use crate::schema::{spec_schema_wf, CollectionSchema, Property};
use vstd::prelude::*;
use vstd::slice::slice_subrange;

verus! {

/// The id a reader carries when it has none of its own: embedded objects and
/// list elements have no independent identity.
pub const NO_ID: i64 = i64::MIN;

/// A typed, field-index-addressed view over one stored object. A top-level
/// reader carries the object's id; readers over embedded objects or list
/// elements do not, and reject id access.
pub struct NativeReader<'a> {
    pub id: i64,
    pub top_level: bool,
    pub object: IsarObject<'a>,
    pub collection_index: usize,
    pub collections: &'a Vec<CollectionSchema>,
}

impl<'a> NativeReader<'a> {
    /// The bytes of the object this reader decodes.
    pub open spec fn spec_obj(self) -> Seq<u8> {
        self.object@
    }

    /// The property table the reader resolves indices against.
    pub open spec fn spec_props(self) -> Seq<Property> {
        self.collections@[self.collection_index as int].properties@
    }

    pub open spec fn wf(self) -> bool {
        &&& spec_schema_wf(self.collections@)
        &&& (self.collection_index as int) < self.collections@.len()
    }

    /// Whether `index` names a property of the declared kind.
    pub open spec fn spec_typed(self, index: int, dt: DataType) -> bool {
        0 <= index < self.spec_props().len() && self.spec_props()[index].data_type == dt
    }

    /// The byte offset of the property's fixed slot.
    pub open spec fn spec_offset(self, index: int) -> int {
        self.spec_props()[index].offset as int
    }

    pub fn new(
        id: i64,
        object: IsarObject<'a>,
        collection_index: usize,
        collections: &'a Vec<CollectionSchema>,
    ) -> (r: Self)
        requires
            spec_schema_wf(collections@),
            (collection_index as int) < collections@.len(),
        ensures
            r.wf(),
            r.id == id,
            r.top_level,
            r.object == object,
            r.collection_index == collection_index,
            r.collections == collections,
    {
        NativeReader { id, top_level: true, object, collection_index, collections }
    }

    /// The id assigned at insert time. Only a top-level reader has one;
    /// asking an embedded-object or list-element reader is rejected every
    /// time.
    pub fn read_id(&self) -> (r: Result<i64, IsarError>)
        ensures
            self.top_level ==> r == Ok::<i64, IsarError>(self.id),
            !self.top_level ==> r == Err::<i64, IsarError>(IsarError::InvalidArgument),
    {
        if self.top_level {
            Ok(self.id)
        } else {
            Err(IsarError::InvalidArgument)
        }
    }

    /// Looks the property up and checks its declared kind; the accessors
    /// below reject an index that is out of range or of another kind.
    fn typed_offset(&self, index: usize, dt: DataType) -> (r: Result<usize, IsarError>)
        requires
            self.wf(),
        ensures
            match r {
                Ok(off) => self.spec_typed(index as int, dt) && off as int == self.spec_offset(
                    index as int,
                ),
                Err(e) => !self.spec_typed(index as int, dt) && e == IsarError::InvalidArgument,
            },
    {
        let props = &self.collections[self.collection_index].properties;
        if index >= props.len() {
            return Err(IsarError::InvalidArgument);
        }
        let p = &props[index];
        if p.data_type == dt {
            Ok(p.offset as usize)
        } else {
            Err(IsarError::InvalidArgument)
        }
    }

    pub fn read_bool(&self, index: usize) -> (r: Result<Option<bool>, IsarError>)
        requires
            self.wf(),
        ensures
            self.spec_typed(index as int, DataType::Bool) ==> r == Ok::<_, IsarError>(
                spec_read_bool(self.spec_obj(), self.spec_offset(index as int)),
            ),
            !self.spec_typed(index as int, DataType::Bool) ==> r == Err::<Option<bool>, _>(
                IsarError::InvalidArgument,
            ),
    {
        let off = self.typed_offset(index, DataType::Bool)?;
        Ok(self.object.read_bool(off))
    }

    pub fn read_byte(&self, index: usize) -> (r: Result<u8, IsarError>)
        requires
            self.wf(),
        ensures
            self.spec_typed(index as int, DataType::Byte) ==> r == Ok::<_, IsarError>(
                spec_read_u8(self.spec_obj(), self.spec_offset(index as int)),
            ),
            !self.spec_typed(index as int, DataType::Byte) ==> r == Err::<u8, _>(
                IsarError::InvalidArgument,
            ),
    {
        let off = self.typed_offset(index, DataType::Byte)?;
        Ok(self.object.read_u8(off))
    }

    pub fn read_int(&self, index: usize) -> (r: Result<i32, IsarError>)
        requires
            self.wf(),
        ensures
            self.spec_typed(index as int, DataType::Int) ==> r == Ok::<_, IsarError>(
                spec_read_int(self.spec_obj(), self.spec_offset(index as int)),
            ),
            !self.spec_typed(index as int, DataType::Int) ==> r == Err::<i32, _>(
                IsarError::InvalidArgument,
            ),
    {
        let off = self.typed_offset(index, DataType::Int)?;
        Ok(self.object.read_int(off))
    }

    /// The little-endian bit pattern of a 32-bit float field.
    pub fn read_float_bits(&self, index: usize) -> (r: Result<u32, IsarError>)
        requires
            self.wf(),
        ensures
            self.spec_typed(index as int, DataType::Float) ==> r == Ok::<_, IsarError>(
                spec_read_float_bits(self.spec_obj(), self.spec_offset(index as int)),
            ),
            !self.spec_typed(index as int, DataType::Float) ==> r == Err::<u32, _>(
                IsarError::InvalidArgument,
            ),
    {
        let off = self.typed_offset(index, DataType::Float)?;
        Ok(self.object.read_float_bits(off))
    }

    pub fn read_long(&self, index: usize) -> (r: Result<i64, IsarError>)
        requires
            self.wf(),
        ensures
            self.spec_typed(index as int, DataType::Long) ==> r == Ok::<_, IsarError>(
                spec_read_long(self.spec_obj(), self.spec_offset(index as int)),
            ),
            !self.spec_typed(index as int, DataType::Long) ==> r == Err::<i64, _>(
                IsarError::InvalidArgument,
            ),
    {
        let off = self.typed_offset(index, DataType::Long)?;
        Ok(self.object.read_long(off))
    }

    /// The little-endian bit pattern of a 64-bit float field.
    pub fn read_double_bits(&self, index: usize) -> (r: Result<u64, IsarError>)
        requires
            self.wf(),
        ensures
            self.spec_typed(index as int, DataType::Double) ==> r == Ok::<_, IsarError>(
                spec_read_double_bits(self.spec_obj(), self.spec_offset(index as int)),
            ),
            !self.spec_typed(index as int, DataType::Double) ==> r == Err::<u64, _>(
                IsarError::InvalidArgument,
            ),
    {
        let off = self.typed_offset(index, DataType::Double)?;
        Ok(self.object.read_double_bits(off))
    }

    pub fn read_string(&self, index: usize) -> (r: Result<Option<&'a str>, IsarError>)
        requires
            self.wf(),
        ensures
            !self.spec_typed(index as int, DataType::String) ==> r == Err::<Option<&'a str>, _>(
                IsarError::InvalidArgument,
            ),
            self.spec_typed(index as int, DataType::String) ==> match r {
                Ok(opt) => match opt {
                    Some(s) => spec_read_string(self.spec_obj(), self.spec_offset(index as int))
                        == Some(s@),
                    None => spec_read_string(self.spec_obj(), self.spec_offset(index as int))
                        is None,
                },
                Err(_) => false,
            },
    {
        let off = self.typed_offset(index, DataType::String)?;
        Ok(self.object.read_string(off))
    }

    /// The raw bytes of a ByteList field, as one contiguous blob.
    pub fn read_blob(&self, index: usize) -> (r: Result<Option<&'a [u8]>, IsarError>)
        requires
            self.wf(),
        ensures
            !self.spec_typed(index as int, DataType::ByteList) ==> r == Err::<Option<&'a [u8]>, _>(
                IsarError::InvalidArgument,
            ),
            self.spec_typed(index as int, DataType::ByteList) ==> match r {
                Ok(opt) => match opt {
                    Some(d) => spec_read_blob(self.spec_obj(), self.spec_offset(index as int))
                        == Some(d@),
                    None => spec_read_blob(self.spec_obj(), self.spec_offset(index as int)) is None,
                },
                Err(_) => false,
            },
    {
        let off = self.typed_offset(index, DataType::ByteList)?;
        match self.object.read_list_region(off, 1) {
            Some((pos, count)) => {
                let _n: usize = self.object.data.len();
                Ok(Some(slice_subrange(self.object.data, pos, pos + count)))
            },
            None => Ok(None),
        }
    }

    /// The parsed JSON document of a Json field; `None` when the field is
    /// absent or its bytes are not one valid document.
    pub fn read_json(&self, index: usize) -> (r: Result<Option<serde_json::Value>, IsarError>)
        requires
            self.wf(),
        ensures
            !self.spec_typed(index as int, DataType::Json) ==> r == Err::<
                Option<serde_json::Value>,
                _,
            >(IsarError::InvalidArgument),
            self.spec_typed(index as int, DataType::Json) ==> match r {
                Ok(opt) => opt == match spec_read_data(
                    self.spec_obj(),
                    self.spec_offset(index as int),
                ) {
                    Some(d) => spec_json_of(d),
                    None => None,
                },
                Err(_) => false,
            },
    {
        let off = self.typed_offset(index, DataType::Json)?;
        match self.object.read_data(off) {
            Some(d) => Ok(parse_json(d)),
            None => Ok(None),
        }
    }

    /// A reader over an embedded Object field, decoding against the
    /// embedded collection's own layout; the nested reader carries no id.
    pub fn read_object(&self, index: usize) -> (r: Result<Option<NativeReader<'a>>, IsarError>)
        requires
            self.wf(),
        ensures
            !self.spec_typed(index as int, DataType::Object) ==> r == Err::<
                Option<NativeReader<'a>>,
                _,
            >(IsarError::InvalidArgument),
            self.spec_typed(index as int, DataType::Object) ==> match r {
                Ok(opt) => match opt {
                    Some(nr) => {
                        &&& spec_read_data(self.spec_obj(), self.spec_offset(index as int)) == Some(
                            nr.spec_obj(),
                        )
                        &&& nr.wf()
                        &&& !nr.top_level
                        &&& Some(nr.collection_index as u16) == self.spec_props()[index as int].embedded_collection_index
                        &&& nr.collections == self.collections
                    },
                    None => spec_read_data(self.spec_obj(), self.spec_offset(index as int)) is None,
                },
                Err(_) => false,
            },
    {
        let off = self.typed_offset(index, DataType::Object)?;
        let props = &self.collections[self.collection_index].properties;
        proof {
            assert(self.collections@[self.collection_index as int].wf());
            assert(self.spec_props()[index as int].wf());
        }
        let e = match props[index].embedded_collection_index {
            Some(e) => e,
            None => {
                proof {
                    assert(false);
                }
                return Err(IsarError::InvalidArgument);
            },
        };
        match self.object.read_data(off) {
            Some(d) => {
                proof {
                    assert((e as int) < self.collections@.len());
                }
                Ok(
                    Some(
                        NativeReader {
                            id: NO_ID,
                            top_level: false,
                            object: IsarObject::new(d),
                            collection_index: e as usize,
                            collections: self.collections,
                        },
                    ),
                )
            },
            None => Ok(None),
        }
    }

    /// A reader over a list field together with the element count.
    pub fn read_list(&self, index: usize) -> (r: Result<
        Option<(NativeListReader<'a>, usize)>,
        IsarError,
    >)
        requires
            self.wf(),
        ensures
            match r {
                Ok(opt) => {
                    &&& (0 <= index < self.spec_props().len() && self.spec_props()[index as int].data_type.spec_is_list())
                    &&& match opt {
                        Some((lr, len)) => {
                            &&& spec_read_list_region(
                                self.spec_obj(),
                                self.spec_offset(index as int),
                                self.spec_props()[index as int].data_type.spec_element_type().unwrap().spec_element_size(),
                            ) == Some((lr.list_pos as int, len as int))
                            &&& lr.wf()
                            &&& lr.length == len
                            &&& lr.object@ == self.spec_obj()
                            &&& Some(lr.element_type) == self.spec_props()[index as int].data_type.spec_element_type()
                            &&& lr.embedded_collection_index == self.spec_props()[index as int].embedded_collection_index
                            &&& lr.collections == self.collections
                        },
                        None => spec_read_list_region(
                            self.spec_obj(),
                            self.spec_offset(index as int),
                            self.spec_props()[index as int].data_type.spec_element_type().unwrap().spec_element_size(),
                        ) is None,
                    }
                },
                Err(e) => {
                    &&& !(0 <= index < self.spec_props().len() && self.spec_props()[index as int].data_type.spec_is_list())
                    &&& e == IsarError::InvalidArgument
                },
            },
    {
        let props = &self.collections[self.collection_index].properties;
        if index >= props.len() {
            return Err(IsarError::InvalidArgument);
        }
        let p = &props[index];
        let et = match p.data_type.element_type() {
            Some(et) => et,
            None => {
                return Err(IsarError::InvalidArgument);
            },
        };
        proof {
            assert(self.collections@[self.collection_index as int].wf());
            assert(self.spec_props()[index as int].wf());
        }
        let esize = et.element_size();
        match self.object.read_list_region(p.offset as usize, esize) {
            Some((pos, count)) => {
                let lr = NativeListReader {
                    object: self.object,
                    list_pos: pos,
                    length: count,
                    element_type: et,
                    embedded_collection_index: p.embedded_collection_index,
                    collections: self.collections,
                };
                Ok(Some((lr, count)))
            },
            None => Ok(None),
        }
    }
}

/// A reader over the elements of one list field. Elements are addressed by
/// position; the reader has no id of its own, and a list never nests
/// another list.
pub struct NativeListReader<'a> {
    pub object: IsarObject<'a>,
    pub list_pos: usize,
    pub length: usize,
    pub element_type: DataType,
    pub embedded_collection_index: Option<u16>,
    pub collections: &'a Vec<CollectionSchema>,
}

impl<'a> NativeListReader<'a> {
    pub open spec fn wf(self) -> bool {
        &&& spec_schema_wf(self.collections@)
        &&& !self.element_type.spec_is_list()
        &&& self.element_type.spec_element_size() >= 1
        &&& self.list_pos + self.length * self.element_type.spec_element_size()
            <= self.object@.len()
        &&& (self.element_type is Object ==> self.embedded_collection_index is Some && (
        self.embedded_collection_index->0 as int) < self.collections@.len())
    }

    /// Whether `index` addresses an element, with the list holding elements
    /// of the given kind.
    pub open spec fn spec_elem(self, index: int, dt: DataType) -> bool {
        self.element_type == dt && 0 <= index < self.length
    }

    /// The byte offset of element `index` inside the object.
    pub open spec fn spec_elem_offset(self, index: int) -> int {
        self.list_pos + index * self.element_type.spec_element_size()
    }

    /// A list element has no id; asking for one is rejected every time.
    pub fn read_id(&self) -> (r: Result<i64, IsarError>)
        ensures
            r == Err::<i64, IsarError>(IsarError::InvalidArgument),
    {
        Err(IsarError::InvalidArgument)
    }

    /// A list never holds another list; asking is rejected every time.
    pub fn read_list(&self, _index: usize) -> (r: Result<
        Option<(NativeListReader<'a>, usize)>,
        IsarError,
    >)
        ensures
            r == Err::<Option<(NativeListReader<'a>, usize)>, IsarError>(
                IsarError::InvalidArgument,
            ),
    {
        Err(IsarError::InvalidArgument)
    }

    /// A list never holds a nested blob; asking is rejected every time.
    pub fn read_blob(&self, _index: usize) -> (r: Result<Option<&'a [u8]>, IsarError>)
        ensures
            r == Err::<Option<&'a [u8]>, IsarError>(IsarError::InvalidArgument),
    {
        Err(IsarError::InvalidArgument)
    }

    /// Bounds the element offset for an element of width `esize`.
    proof fn lemma_elem_in_range(self, index: int, esize: int)
        requires
            self.wf(),
            0 <= index < self.length,
            esize == self.element_type.spec_element_size(),
        ensures
            self.list_pos + index * esize + esize <= self.object@.len(),
            index * esize >= 0,
    {
        assert((index + 1) * esize <= self.length * esize) by (nonlinear_arith)
            requires
                index + 1 <= self.length,
                esize >= 1,
        ;
        assert(index * esize + esize == (index + 1) * esize) by (nonlinear_arith);
        assert(index * esize >= 0) by (nonlinear_arith)
            requires
                index >= 0,
                esize >= 1,
        ;
    }

    pub fn read_bool(&self, index: usize) -> (r: Result<Option<bool>, IsarError>)
        requires
            self.wf(),
        ensures
            self.spec_elem(index as int, DataType::Bool) ==> r == Ok::<_, IsarError>(
                spec_read_bool(self.object@, self.spec_elem_offset(index as int)),
            ),
            !self.spec_elem(index as int, DataType::Bool) ==> r == Err::<Option<bool>, _>(
                IsarError::InvalidArgument,
            ),
    {
        if !(self.element_type == DataType::Bool) || index >= self.length {
            return Err(IsarError::InvalidArgument);
        }
        proof {
            self.lemma_elem_in_range(index as int, 1);
        }
        let _n: usize = self.object.len();
        Ok(self.object.read_bool(self.list_pos + index))
    }

    pub fn read_byte(&self, index: usize) -> (r: Result<u8, IsarError>)
        requires
            self.wf(),
        ensures
            self.spec_elem(index as int, DataType::Byte) ==> r == Ok::<_, IsarError>(
                spec_read_u8(self.object@, self.spec_elem_offset(index as int)),
            ),
            !self.spec_elem(index as int, DataType::Byte) ==> r == Err::<u8, _>(
                IsarError::InvalidArgument,
            ),
    {
        if !(self.element_type == DataType::Byte) || index >= self.length {
            return Err(IsarError::InvalidArgument);
        }
        proof {
            self.lemma_elem_in_range(index as int, 1);
        }
        let _n: usize = self.object.len();
        Ok(self.object.read_u8(self.list_pos + index))
    }

    pub fn read_int(&self, index: usize) -> (r: Result<i32, IsarError>)
        requires
            self.wf(),
        ensures
            self.spec_elem(index as int, DataType::Int) ==> r == Ok::<_, IsarError>(
                spec_read_int(self.object@, self.spec_elem_offset(index as int)),
            ),
            !self.spec_elem(index as int, DataType::Int) ==> r == Err::<i32, _>(
                IsarError::InvalidArgument,
            ),
    {
        if !(self.element_type == DataType::Int) || index >= self.length {
            return Err(IsarError::InvalidArgument);
        }
        proof {
            self.lemma_elem_in_range(index as int, 4);
        }
        let _n: usize = self.object.len();
        Ok(self.object.read_int(self.list_pos + index * 4))
    }

    pub fn read_float_bits(&self, index: usize) -> (r: Result<u32, IsarError>)
        requires
            self.wf(),
        ensures
            self.spec_elem(index as int, DataType::Float) ==> r == Ok::<_, IsarError>(
                spec_read_float_bits(self.object@, self.spec_elem_offset(index as int)),
            ),
            !self.spec_elem(index as int, DataType::Float) ==> r == Err::<u32, _>(
                IsarError::InvalidArgument,
            ),
    {
        if !(self.element_type == DataType::Float) || index >= self.length {
            return Err(IsarError::InvalidArgument);
        }
        proof {
            self.lemma_elem_in_range(index as int, 4);
        }
        let _n: usize = self.object.len();
        Ok(self.object.read_float_bits(self.list_pos + index * 4))
    }

    pub fn read_long(&self, index: usize) -> (r: Result<i64, IsarError>)
        requires
            self.wf(),
        ensures
            self.spec_elem(index as int, DataType::Long) ==> r == Ok::<_, IsarError>(
                spec_read_long(self.object@, self.spec_elem_offset(index as int)),
            ),
            !self.spec_elem(index as int, DataType::Long) ==> r == Err::<i64, _>(
                IsarError::InvalidArgument,
            ),
    {
        if !(self.element_type == DataType::Long) || index >= self.length {
            return Err(IsarError::InvalidArgument);
        }
        proof {
            self.lemma_elem_in_range(index as int, 8);
        }
        let _n: usize = self.object.len();
        Ok(self.object.read_long(self.list_pos + index * 8))
    }

    pub fn read_double_bits(&self, index: usize) -> (r: Result<u64, IsarError>)
        requires
            self.wf(),
        ensures
            self.spec_elem(index as int, DataType::Double) ==> r == Ok::<_, IsarError>(
                spec_read_double_bits(self.object@, self.spec_elem_offset(index as int)),
            ),
            !self.spec_elem(index as int, DataType::Double) ==> r == Err::<u64, _>(
                IsarError::InvalidArgument,
            ),
    {
        if !(self.element_type == DataType::Double) || index >= self.length {
            return Err(IsarError::InvalidArgument);
        }
        proof {
            self.lemma_elem_in_range(index as int, 8);
        }
        let _n: usize = self.object.len();
        Ok(self.object.read_double_bits(self.list_pos + index * 8))
    }

    pub fn read_string(&self, index: usize) -> (r: Result<Option<&'a str>, IsarError>)
        requires
            self.wf(),
        ensures
            !self.spec_elem(index as int, DataType::String) ==> r == Err::<Option<&'a str>, _>(
                IsarError::InvalidArgument,
            ),
            self.spec_elem(index as int, DataType::String) ==> match r {
                Ok(opt) => match opt {
                    Some(s) => spec_read_elem_string(
                        self.object@,
                        self.spec_elem_offset(index as int),
                    ) == Some(s@),
                    None => spec_read_elem_string(self.object@, self.spec_elem_offset(index as int))
                        is None,
                },
                Err(_) => false,
            },
    {
        if !(self.element_type == DataType::String) || index >= self.length {
            return Err(IsarError::InvalidArgument);
        }
        proof {
            self.lemma_elem_in_range(index as int, 6);
        }
        let _n: usize = self.object.len();
        Ok(self.object.read_elem_string(self.list_pos + index * 6))
    }

    /// A reader over an ObjectList element, decoding against the embedded
    /// collection's layout; the nested reader carries no id.
    pub fn read_object(&self, index: usize) -> (r: Result<Option<NativeReader<'a>>, IsarError>)
        requires
            self.wf(),
        ensures
            !self.spec_elem(index as int, DataType::Object) ==> r == Err::<
                Option<NativeReader<'a>>,
                _,
            >(IsarError::InvalidArgument),
            self.spec_elem(index as int, DataType::Object) ==> match r {
                Ok(opt) => match opt {
                    Some(nr) => {
                        &&& spec_read_elem_data(self.object@, self.spec_elem_offset(index as int))
                            == Some(nr.spec_obj())
                        &&& nr.wf()
                        &&& !nr.top_level
                        &&& Some(nr.collection_index as u16) == self.embedded_collection_index
                        &&& nr.collections == self.collections
                    },
                    None => spec_read_elem_data(self.object@, self.spec_elem_offset(index as int))
                        is None,
                },
                Err(_) => false,
            },
    {
        if !(self.element_type == DataType::Object) || index >= self.length {
            return Err(IsarError::InvalidArgument);
        }
        proof {
            self.lemma_elem_in_range(index as int, 6);
        }
        let e = match self.embedded_collection_index {
            Some(e) => e,
            None => {
                proof {
                    assert(false);
                }
                return Err(IsarError::InvalidArgument);
            },
        };
        let _n: usize = self.object.len();
        match self.object.read_elem_data(self.list_pos + index * 6) {
            Some(d) => Ok(
                Some(
                    NativeReader {
                        id: NO_ID,
                        top_level: false,
                        object: IsarObject::new(d),
                        collection_index: e as usize,
                        collections: self.collections,
                    },
                ),
            ),
            None => Ok(None),
        }
    }
}

} // verus!
