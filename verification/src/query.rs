use crate::error::IsarError;
use crate::filter::{filter_valid, spec_filter_valid, Filter};
use crate::schema::CollectionSchema;
use vstd::prelude::*;

verus! {

/// An immutable, reusable query plan bound to one collection: the filter it
/// was compiled from, already checked against that collection's properties.
/// A compiled query is side-effect-free and may be executed against many
/// transactions, each execution producing an independent cursor.
pub struct Query {
    pub collection_index: u16,
    pub filter: Option<Filter>,
}

impl Query {
    /// The compiled filter only names properties of its collection.
    pub open spec fn valid_for(self, cols: Seq<CollectionSchema>) -> bool {
        &&& (self.collection_index as int) < cols.len()
        &&& match self.filter {
            Some(f) => spec_filter_valid(f, cols[self.collection_index as int].properties@),
            None => true,
        }
    }
}

/// Assembles a filter into a compiled query for one collection. Building
/// checks every property the filter names against the target collection;
/// a reference outside it is a build-time error.
pub struct QueryBuilder {
    pub collection_index: u16,
    pub filter: Option<Filter>,
}

impl QueryBuilder {
    pub fn new(collection_index: u16) -> (r: Self)
        ensures
            r.collection_index == collection_index,
            r.filter is None,
    {
        QueryBuilder { collection_index, filter: None }
    }

    pub fn set_filter(&mut self, f: Filter)
        ensures
            final(self).collection_index == old(self).collection_index,
            final(self).filter == Some(f),
    {
        self.filter = Some(f);
    }

    /// Compiles the query, validating the filter against the collection.
    pub fn build(self, collections: &Vec<CollectionSchema>) -> (r: Result<Query, IsarError>)
        ensures
            match r {
                Ok(q) => {
                    &&& q.collection_index == self.collection_index
                    &&& q.filter == self.filter
                    &&& q.valid_for(collections@)
                },
                Err(e) => {
                    &&& e == IsarError::InvalidArgument
                    &&& !(Query {
                        collection_index: self.collection_index,
                        filter: self.filter,
                    }).valid_for(collections@)
                },
            },
    {
        if (self.collection_index as usize) >= collections.len() {
            return Err(IsarError::InvalidArgument);
        }
        let ok = match &self.filter {
            Some(f) => filter_valid(f, &collections[self.collection_index as usize]),
            None => true,
        };
        if ok {
            Ok(Query { collection_index: self.collection_index, filter: self.filter })
        } else {
            Err(IsarError::InvalidArgument)
        }
    }
}

} // verus!
