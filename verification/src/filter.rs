use crate::codec::{NULL_DOUBLE_BITS, NULL_FLOAT_BITS, NULL_INT, NULL_LONG};
use crate::data_type::DataType;
use crate::object::{
    spec_read_bool, spec_read_data, spec_read_descriptor, spec_read_double_bits,
    spec_read_float_bits, spec_read_int, spec_read_list_region, spec_read_long, spec_read_u8,
    IsarObject,
};
use crate::schema::{CollectionSchema, Property};
use crate::text::bytes_eq;
use vstd::prelude::*;
use vstd::utf8::encode_utf8;

verus! {

/// A predicate tree over one collection's property values. Comparisons are
/// evaluated against the stored bytes of a candidate object; an absent
/// field fails every comparison except the explicit `IsNull` test.
pub enum Filter {
    /// True when the property holds its kind's null sentinel.
    IsNull { property: usize },
    /// Equality on an integer-kind property (Byte, Int or Long), widened to
    /// 64 bits.
    LongEq { property: usize, value: i64 },
    /// Strictly greater on an integer-kind property; a null field fails.
    LongGt { property: usize, value: i64 },
    /// Strictly less on an integer-kind property; a null field fails.
    LongLt { property: usize, value: i64 },
    /// Equality on a Bool property; a null field fails.
    BoolEq { property: usize, value: bool },
    /// Equality on a String property; an absent field fails.
    StringEq { property: usize, value: String },
    And(Box<Filter>, Box<Filter>),
    Or(Box<Filter>, Box<Filter>),
    Not(Box<Filter>),
}

/// The integer value of an integer-kind field, widened to 64 bits; `None`
/// for the null sentinel of the kind (a Byte field has no null).
pub open spec fn spec_long_value(b: Seq<u8>, p: Property) -> Option<i64> {
    match p.data_type {
        DataType::Byte => Some(spec_read_u8(b, p.offset as int) as i64),
        DataType::Int => {
            let v = spec_read_int(b, p.offset as int);
            if v == NULL_INT {
                None
            } else {
                Some(v as i64)
            }
        },
        DataType::Long => {
            let v = spec_read_long(b, p.offset as int);
            if v == NULL_LONG {
                None
            } else {
                Some(v)
            }
        },
        _ => None,
    }
}

/// Whether the field holds its kind's null sentinel.
pub open spec fn spec_is_null(b: Seq<u8>, p: Property) -> bool {
    let off = p.offset as int;
    match p.data_type {
        DataType::Bool => spec_read_bool(b, off) is None,
        DataType::Byte => spec_read_u8(b, off) == 0u8,
        DataType::Int => spec_read_int(b, off) == NULL_INT,
        DataType::Float => spec_read_float_bits(b, off) == NULL_FLOAT_BITS,
        DataType::Long => spec_read_long(b, off) == NULL_LONG,
        DataType::Double => spec_read_double_bits(b, off) == NULL_DOUBLE_BITS,
        DataType::String | DataType::Json | DataType::Object => spec_read_descriptor(b, off)
            is None,
        _ => spec_read_list_region(
            b,
            off,
            crate::writer::spec_list_esize(p.data_type),
        ) is None,
    }
}

/// Whether the filter only names properties of the collection, each with a
/// kind its node can compare.
pub open spec fn spec_filter_valid(f: Filter, props: Seq<Property>) -> bool
    decreases f,
{
    match f {
        Filter::IsNull { property } => property < props.len(),
        Filter::LongEq { property, value } => property < props.len() && (props[
            property as int
        ].data_type is Byte || props[property as int].data_type is Int || props[
            property as int
        ].data_type is Long),
        Filter::LongGt { property, value } => property < props.len() && (props[
            property as int
        ].data_type is Byte || props[property as int].data_type is Int || props[
            property as int
        ].data_type is Long),
        Filter::LongLt { property, value } => property < props.len() && (props[
            property as int
        ].data_type is Byte || props[property as int].data_type is Int || props[
            property as int
        ].data_type is Long),
        Filter::BoolEq { property, value } => property < props.len() && props[
            property as int
        ].data_type is Bool,
        Filter::StringEq { property, value } => property < props.len() && props[
            property as int
        ].data_type is String,
        Filter::And(a, b) => spec_filter_valid(*a, props) && spec_filter_valid(*b, props),
        Filter::Or(a, b) => spec_filter_valid(*a, props) && spec_filter_valid(*b, props),
        Filter::Not(a) => spec_filter_valid(*a, props),
    }
}

/// Whether the object's bytes satisfy the filter.
pub open spec fn spec_matches(f: Filter, b: Seq<u8>, props: Seq<Property>) -> bool
    decreases f,
{
    match f {
        Filter::IsNull { property } => spec_is_null(b, props[property as int]),
        Filter::LongEq { property, value } => spec_long_value(b, props[property as int]) == Some(
            value,
        ),
        Filter::LongGt { property, value } => match spec_long_value(b, props[property as int]) {
            Some(v) => v > value,
            None => false,
        },
        Filter::LongLt { property, value } => match spec_long_value(b, props[property as int]) {
            Some(v) => v < value,
            None => false,
        },
        Filter::BoolEq { property, value } => spec_read_bool(b, props[property as int].offset as int)
            == Some(value),
        Filter::StringEq { property, value } => spec_read_data(
            b,
            props[property as int].offset as int,
        ) == Some(encode_utf8(value@)),
        Filter::And(a, b2) => spec_matches(*a, b, props) && spec_matches(*b2, b, props),
        Filter::Or(a, b2) => spec_matches(*a, b, props) || spec_matches(*b2, b, props),
        Filter::Not(a) => !spec_matches(*a, b, props),
    }
}

/// Checks that the filter fits the collection: every referenced property
/// exists and has a kind the node can compare.
pub fn filter_valid(f: &Filter, c: &CollectionSchema) -> (r: bool)
    ensures
        r == spec_filter_valid(*f, c.properties@),
    decreases *f,
{
    let n = c.properties.len();
    match f {
        Filter::IsNull { property } => *property < n,
        Filter::LongEq { property, value } => *property < n && (match c.properties[
            *property
        ].data_type {
            DataType::Byte | DataType::Int | DataType::Long => true,
            _ => false,
        }),
        Filter::LongGt { property, value } => *property < n && (match c.properties[
            *property
        ].data_type {
            DataType::Byte | DataType::Int | DataType::Long => true,
            _ => false,
        }),
        Filter::LongLt { property, value } => *property < n && (match c.properties[
            *property
        ].data_type {
            DataType::Byte | DataType::Int | DataType::Long => true,
            _ => false,
        }),
        Filter::BoolEq { property, value } => *property < n && (match c.properties[
            *property
        ].data_type {
            DataType::Bool => true,
            _ => false,
        }),
        Filter::StringEq { property, value } => *property < n && (match c.properties[
            *property
        ].data_type {
            DataType::String => true,
            _ => false,
        }),
        Filter::And(a, b) => filter_valid(a, c) && filter_valid(b, c),
        Filter::Or(a, b) => filter_valid(a, c) && filter_valid(b, c),
        Filter::Not(a) => filter_valid(a, c),
    }
}

/// Evaluates the filter against one stored object.
pub fn eval_filter(f: &Filter, obj: &IsarObject, c: &CollectionSchema) -> (r: bool)
    requires
        spec_filter_valid(*f, c.properties@),
    ensures
        r == spec_matches(*f, obj@, c.properties@),
    decreases *f,
{
    match f {
        Filter::IsNull { property } => {
            let p = &c.properties[*property];
            let off = p.offset as usize;
            match p.data_type {
                DataType::Bool => obj.read_bool(off).is_none(),
                DataType::Byte => obj.read_u8(off) == 0u8,
                DataType::Int => obj.read_int(off) == NULL_INT,
                DataType::Float => obj.read_float_bits(off) == NULL_FLOAT_BITS,
                DataType::Long => obj.read_long(off) == NULL_LONG,
                DataType::Double => obj.read_double_bits(off) == NULL_DOUBLE_BITS,
                DataType::String | DataType::Json | DataType::Object => obj.read_descriptor(
                    off,
                ).is_none(),
                _ => {
                    let esize = match p.data_type.element_type() {
                        Some(et) => et.element_size(),
                        None => 1,
                    };
                    obj.read_list_region(off, esize).is_none()
                },
            }
        },
        Filter::LongEq { property, value } => {
            match read_long_value(obj, &c.properties[*property]) {
                Some(v) => v == *value,
                None => false,
            }
        },
        Filter::LongGt { property, value } => {
            match read_long_value(obj, &c.properties[*property]) {
                Some(v) => v > *value,
                None => false,
            }
        },
        Filter::LongLt { property, value } => {
            match read_long_value(obj, &c.properties[*property]) {
                Some(v) => v < *value,
                None => false,
            }
        },
        Filter::BoolEq { property, value } => {
            let p = &c.properties[*property];
            match obj.read_bool(p.offset as usize) {
                Some(v) => v == *value,
                None => false,
            }
        },
        Filter::StringEq { property, value } => {
            let p = &c.properties[*property];
            match obj.read_data(p.offset as usize) {
                Some(d) => bytes_eq(d, value.as_str().as_bytes()),
                None => false,
            }
        },
        Filter::And(a, b) => eval_filter(a, obj, c) && eval_filter(b, obj, c),
        Filter::Or(a, b) => eval_filter(a, obj, c) || eval_filter(b, obj, c),
        Filter::Not(a) => !eval_filter(a, obj, c),
    }
}

/// Reads an integer-kind field widened to 64 bits; `None` on the kind's
/// null sentinel.
fn read_long_value(obj: &IsarObject, p: &Property) -> (r: Option<i64>)
    requires
        p.data_type is Byte || p.data_type is Int || p.data_type is Long,
    ensures
        r == spec_long_value(obj@, *p),
{
    let off = p.offset as usize;
    match p.data_type {
        DataType::Byte => Some(obj.read_u8(off) as i64),
        DataType::Int => {
            let v = obj.read_int(off);
            if v == NULL_INT {
                None
            } else {
                Some(v as i64)
            }
        },
        _ => {
            let v = obj.read_long(off);
            if v == NULL_LONG {
                None
            } else {
                Some(v)
            }
        },
    }
}

} // verus!
