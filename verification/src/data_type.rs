use vstd::prelude::*;

verus! {

/// The closed set of field kinds a property can have: scalar kinds and their
/// list counterparts. A list's element kind is always the matching scalar
/// kind, so a list of lists cannot even be described by this type.
#[derive(Clone, Copy, PartialEq, Eq, Structural, Hash, Debug)]
pub enum DataType {
    Bool,
    Byte,
    Int,
    Float,
    Long,
    Double,
    String,
    Object,
    Json,
    BoolList,
    ByteList,
    IntList,
    FloatList,
    LongList,
    DoubleList,
    StringList,
    ObjectList,
}

impl DataType {
    /// Whether this kind is one of the list kinds.
    pub open spec fn spec_is_list(self) -> bool {
        match self {
            DataType::BoolList
            | DataType::ByteList
            | DataType::IntList
            | DataType::FloatList
            | DataType::LongList
            | DataType::DoubleList
            | DataType::StringList
            | DataType::ObjectList => true,
            _ => false,
        }
    }

    pub fn is_list(&self) -> (r: bool)
        ensures
            r == self.spec_is_list(),
    {
        match self {
            DataType::BoolList
            | DataType::ByteList
            | DataType::IntList
            | DataType::FloatList
            | DataType::LongList
            | DataType::DoubleList
            | DataType::StringList
            | DataType::ObjectList => true,
            _ => false,
        }
    }

    /// The element kind of a list kind; `None` for the scalar kinds.
    pub open spec fn spec_element_type(self) -> Option<DataType> {
        match self {
            DataType::BoolList => Some(DataType::Bool),
            DataType::ByteList => Some(DataType::Byte),
            DataType::IntList => Some(DataType::Int),
            DataType::FloatList => Some(DataType::Float),
            DataType::LongList => Some(DataType::Long),
            DataType::DoubleList => Some(DataType::Double),
            DataType::StringList => Some(DataType::String),
            DataType::ObjectList => Some(DataType::Object),
            _ => None,
        }
    }

    pub fn element_type(&self) -> (r: Option<DataType>)
        ensures
            r == self.spec_element_type(),
    {
        match self {
            DataType::BoolList => Some(DataType::Bool),
            DataType::ByteList => Some(DataType::Byte),
            DataType::IntList => Some(DataType::Int),
            DataType::FloatList => Some(DataType::Float),
            DataType::LongList => Some(DataType::Long),
            DataType::DoubleList => Some(DataType::Double),
            DataType::StringList => Some(DataType::String),
            DataType::ObjectList => Some(DataType::Object),
            _ => None,
        }
    }

    /// Bytes a field of this kind occupies in the fixed region of an encoded
    /// object: one for Bool and Byte, four for Int and Float, eight for Long
    /// and Double, and eight — a four-byte position plus a four-byte length —
    /// for every variable-length kind (String, Json, Object and the lists).
    pub open spec fn spec_static_size(self) -> int {
        match self {
            DataType::Bool | DataType::Byte => 1,
            DataType::Int | DataType::Float => 4,
            _ => 8,
        }
    }

    pub fn static_size(&self) -> (r: usize)
        ensures
            r as int == self.spec_static_size(),
            1 <= r <= 8,
    {
        match self {
            DataType::Bool | DataType::Byte => 1,
            DataType::Int | DataType::Float => 4,
            _ => 8,
        }
    }

    /// Bytes one list element of this scalar kind occupies inside a list
    /// region: the fixed widths for the numeric kinds, and a six-byte
    /// descriptor — a three-byte position plus a three-byte length — for the
    /// reference kinds (String, Json, Object). Zero for the list kinds, which
    /// can never be elements.
    pub open spec fn spec_element_size(self) -> int {
        match self {
            DataType::Bool | DataType::Byte => 1,
            DataType::Int | DataType::Float => 4,
            DataType::Long | DataType::Double => 8,
            DataType::String | DataType::Json | DataType::Object => 6,
            _ => 0,
        }
    }

    pub fn element_size(&self) -> (r: usize)
        ensures
            r as int == self.spec_element_size(),
    {
        match self {
            DataType::Bool | DataType::Byte => 1,
            DataType::Int | DataType::Float => 4,
            DataType::Long | DataType::Double => 8,
            DataType::String | DataType::Json | DataType::Object => 6,
            _ => 0,
        }
    }
}

} // verus!
