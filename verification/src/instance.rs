use crate::error::IsarError;
use crate::filter::{spec_matches, Filter};
use crate::object::IsarObject;
use crate::query::{Query, QueryBuilder};
use crate::reader::NativeReader;
use crate::schema::{spec_schema_wf, validate_schema, CollectionSchema, Property};
use crate::writer::{spec_field_decodes, FieldValue, IsarWriter};
use vstd::prelude::*;

verus! {

/// One stored top-level object: the id assigned at insert and the encoded
/// bytes the codec produced.
pub struct Record {
    pub id: i64,
    pub bytes: Vec<u8>,
}

/// The configured compaction trigger. The ratio is in parts per million of
/// the file size. An instance without a condition never compacts
/// automatically.
pub struct CompactCondition {
    pub min_file_size: u64,
    pub min_bytes: u64,
    pub min_ratio_ppm: u64,
}

/// Whether a record of the snapshot satisfies the query's filter; a query
/// without a filter matches every record.
pub open spec fn spec_rec_matches(rec: Record, f: Option<Filter>, props: Seq<Property>) -> bool {
    match f {
        Some(f) => spec_matches(f, rec.bytes@, props),
        None => true,
    }
}

/// How many of the records match.
pub open spec fn spec_count_matches(recs: Seq<Record>, f: Option<Filter>, props: Seq<Property>) -> int
    decreases recs.len(),
{
    if recs.len() == 0 {
        0
    } else {
        spec_count_matches(recs.drop_last(), f, props) + if spec_rec_matches(
            recs.last(),
            f,
            props,
        ) {
            1int
        } else {
            0int
        }
    }
}

/// The records left after deleting every match, in their original order.
pub open spec fn spec_keep_unmatched(recs: Seq<Record>, f: Option<Filter>, props: Seq<Property>) -> Seq<
    Record,
>
    decreases recs.len(),
{
    if recs.len() == 0 {
        recs
    } else {
        let rest = spec_keep_unmatched(recs.drop_last(), f, props);
        if spec_rec_matches(recs.last(), f, props) {
            rest
        } else {
            rest.push(recs.last())
        }
    }
}

/// The index of the first match at or after `from`.
pub open spec fn spec_first_match(
    recs: Seq<Record>,
    f: Option<Filter>,
    props: Seq<Property>,
    from: int,
) -> Option<int>
    decreases recs.len() - from,
{
    if from < 0 || from >= recs.len() {
        None
    } else if spec_rec_matches(recs[from], f, props) {
        Some(from)
    } else {
        spec_first_match(recs, f, props, from + 1)
    }
}

/// A first match lies in range, matches, and nothing before it does.
pub proof fn lemma_first_match(recs: Seq<Record>, f: Option<Filter>, props: Seq<Property>, from: int)
    requires
        0 <= from,
    ensures
        match spec_first_match(recs, f, props, from) {
            Some(i) => from <= i < recs.len() && spec_rec_matches(recs[i], f, props) && forall|
                k: int,
            | from <= k < i ==> !spec_rec_matches(#[trigger] recs[k], f, props),
            None => forall|k: int|
                from <= k < recs.len() ==> !spec_rec_matches(#[trigger] recs[k], f, props),
        },
    decreases recs.len() - from,
{
    if 0 <= from < recs.len() && !spec_rec_matches(recs[from], f, props) {
        lemma_first_match(recs, f, props, from + 1);
    }
}

/// Ids in a stored collection grow with position — so each id occurs at
/// most once — and stay below the next id to assign.
pub open spec fn spec_ids_ok(recs: Seq<Record>, next_id: i64) -> bool {
    &&& forall|i: int, j: int| 0 <= i < j < recs.len() ==> (#[trigger] recs[i]).id < (#[trigger] recs[j]).id
    &&& forall|i: int| 0 <= i < recs.len() ==> (#[trigger] recs[i]).id < next_id
    &&& 1 <= next_id
}

/// A transaction: a consistent snapshot of every collection's records,
/// taken when it began. A write transaction mutates only its own snapshot;
/// commit makes that snapshot the instance's new state, abort discards it.
/// The handle is consumed by commit and abort, so it is one-shot.
pub struct IsarTxn {
    pub write: bool,
    pub data: Vec<Vec<Record>>,
    pub next_ids: Vec<i64>,
}

impl IsarTxn {
    pub open spec fn wf(self, n_cols: int) -> bool {
        &&& self.data@.len() == n_cols
        &&& self.next_ids@.len() == n_cols
        &&& forall|c: int|
            0 <= c < n_cols ==> spec_ids_ok((#[trigger] self.data@[c])@, self.next_ids@[c])
    }
}

/// The top-level owner: schema, stored collections, the single
/// write-transaction slot, and the compaction condition.
pub struct IsarInstance {
    pub instance_id: u32,
    pub name: String,
    pub collections: Vec<CollectionSchema>,
    pub committed: Vec<Vec<Record>>,
    pub next_ids: Vec<i64>,
    pub write_active: bool,
    pub relaxed_durability: bool,
    pub compact_condition: Option<CompactCondition>,
}

/// Copies a byte buffer.
fn clone_bytes(v: &Vec<u8>) -> (r: Vec<u8>)
    ensures
        r@ == v@,
{
    let mut r: Vec<u8> = Vec::new();
    let n = v.len();
    let mut i: usize = 0;
    while i < n
        invariant
            n == v@.len(),
            i <= n,
            r@ == v@.subrange(0, i as int),
        decreases n - i,
    {
        r.push(v[i]);
        proof {
            assert(r@ =~= v@.subrange(0, i as int + 1));
        }
        i += 1;
    }
    proof {
        assert(r@ =~= v@);
    }
    r
}

/// Copies one collection's records.
fn clone_records(v: &Vec<Record>) -> (r: Vec<Record>)
    ensures
        r@.len() == v@.len(),
        forall|i: int|
            0 <= i < v@.len() ==> (#[trigger] r@[i]).id == v@[i].id && r@[i].bytes@
                == v@[i].bytes@,
{
    let mut r: Vec<Record> = Vec::new();
    let n = v.len();
    let mut i: usize = 0;
    while i < n
        invariant
            n == v@.len(),
            i <= n,
            r@.len() == i,
            forall|k: int|
                0 <= k < i ==> (#[trigger] r@[k]).id == v@[k].id && r@[k].bytes@ == v@[k].bytes@,
        decreases n - i,
    {
        let rec = &v[i];
        r.push(Record { id: rec.id, bytes: clone_bytes(&rec.bytes) });
        i += 1;
    }
    r
}

/// Copies the records of every collection.
fn clone_data(v: &Vec<Vec<Record>>) -> (r: Vec<Vec<Record>>)
    ensures
        r@.len() == v@.len(),
        forall|c: int|
            0 <= c < v@.len() ==> (#[trigger] r@[c])@.len() == v@[c]@.len() && forall|i: int|
                0 <= i < v@[c]@.len() ==> (#[trigger] r@[c]@[i]).id == v@[c]@[i].id
                    && r@[c]@[i].bytes@ == v@[c]@[i].bytes@,
{
    let mut r: Vec<Vec<Record>> = Vec::new();
    let n = v.len();
    let mut i: usize = 0;
    while i < n
        invariant
            n == v@.len(),
            i <= n,
            r@.len() == i,
            forall|c: int|
                0 <= c < i ==> (#[trigger] r@[c])@.len() == v@[c]@.len() && forall|k: int|
                    0 <= k < v@[c]@.len() ==> (#[trigger] r@[c]@[k]).id == v@[c]@[k].id
                        && r@[c]@[k].bytes@ == v@[c]@[k].bytes@,
        decreases n - i,
    {
        r.push(clone_records(&v[i]));
        i += 1;
    }
    r
}

/// Copies the id counters.
fn clone_ids(v: &Vec<i64>) -> (r: Vec<i64>)
    ensures
        r@ == v@,
{
    let mut r: Vec<i64> = Vec::new();
    let n = v.len();
    let mut i: usize = 0;
    while i < n
        invariant
            n == v@.len(),
            i <= n,
            r@ == v@.subrange(0, i as int),
        decreases n - i,
    {
        r.push(v[i]);
        proof {
            assert(r@ =~= v@.subrange(0, i as int + 1));
        }
        i += 1;
    }
    proof {
        assert(r@ =~= v@);
    }
    r
}

impl IsarInstance {
    pub open spec fn wf(self) -> bool {
        &&& spec_schema_wf(self.collections@)
        &&& self.committed@.len() == self.collections@.len()
        &&& self.next_ids@.len() == self.collections@.len()
        &&& forall|c: int|
            0 <= c < self.collections@.len() ==> spec_ids_ok(
                (#[trigger] self.committed@[c])@,
                self.next_ids@[c],
            )
    }

    /// Opens an instance over the given schema: the schema is validated as
    /// a whole, every collection starts empty, and no write transaction is
    /// active. Opening fails exactly when the schema is invalid.
    pub fn open(
        instance_id: u32,
        name: String,
        collections: Vec<CollectionSchema>,
        relaxed_durability: bool,
        compact_condition: Option<CompactCondition>,
    ) -> (r: Result<IsarInstance, IsarError>)
        ensures
            match r {
                Ok(inst) => {
                    &&& spec_schema_wf(collections@)
                    &&& inst.wf()
                    &&& inst.collections == collections
                    &&& inst.instance_id == instance_id
                    &&& !inst.write_active
                    &&& forall|c: int|
                        0 <= c < inst.committed@.len() ==> (#[trigger] inst.committed@[c])@.len()
                            == 0
                },
                Err(e) => {
                    &&& e == IsarError::SchemaError
                    &&& !spec_schema_wf(collections@)
                },
            },
    {
        match validate_schema(&collections) {
            Err(e) => {
                return Err(e);
            },
            Ok(()) => {},
        }
        let n = collections.len();
        let mut committed: Vec<Vec<Record>> = Vec::new();
        let mut next_ids: Vec<i64> = Vec::new();
        let mut i: usize = 0;
        while i < n
            invariant
                i <= n,
                committed@.len() == i,
                next_ids@.len() == i,
                forall|c: int| 0 <= c < i ==> (#[trigger] committed@[c])@.len() == 0,
                forall|c: int| 0 <= c < i ==> (#[trigger] next_ids@[c]) == 1i64,
            decreases n - i,
        {
            committed.push(Vec::new());
            next_ids.push(1i64);
            i += 1;
        }
        Ok(
            IsarInstance {
                instance_id,
                name,
                collections,
                committed,
                next_ids,
                write_active: false,
                relaxed_durability,
                compact_condition,
            },
        )
    }

    /// Begins a transaction over a snapshot of the committed state. At most
    /// one write transaction may be active: asking for a second one is
    /// rejected with a conflict and changes nothing.
    pub fn begin_txn(&mut self, write: bool) -> (r: Result<IsarTxn, IsarError>)
        requires
            old(self).wf(),
        ensures
            final(self).wf(),
            final(self).collections == old(self).collections,
            final(self).committed == old(self).committed,
            final(self).next_ids == old(self).next_ids,
            match r {
                Ok(t) => {
                    &&& !(write && old(self).write_active)
                    &&& t.write == write
                    &&& t.wf(old(self).collections@.len() as int)
                    &&& t.next_ids@ == old(self).next_ids@
                    &&& t.data@.len() == old(self).committed@.len()
                    &&& forall|c: int|
                        0 <= c < old(self).committed@.len() ==> (#[trigger] t.data@[c])@.len()
                            == old(self).committed@[c]@.len() && forall|i: int|
                            0 <= i < old(self).committed@[c]@.len() ==> (#[trigger] t.data@[c]@[i]).id
                                == old(self).committed@[c]@[i].id && t.data@[c]@[i].bytes@ == old(
                                self,
                            ).committed@[c]@[i].bytes@
                    &&& final(self).write_active == (old(self).write_active || write)
                },
                Err(e) => {
                    &&& e == IsarError::TransactionConflict
                    &&& write && old(self).write_active
                    &&& final(self).write_active == old(self).write_active
                },
            },
    {
        if write && self.write_active {
            return Err(IsarError::TransactionConflict);
        }
        if write {
            self.write_active = true;
        }
        let data = clone_data(&self.committed);
        let next_ids = clone_ids(&self.next_ids);
        let t = IsarTxn { write, data, next_ids };
        proof {
            assert forall|c: int| 0 <= c < self.collections@.len() implies spec_ids_ok(
                (#[trigger] t.data@[c])@,
                t.next_ids@[c],
            ) by {
                assert(spec_ids_ok(self.committed@[c]@, self.next_ids@[c]));
            }
        }
        Ok(t)
    }

    /// Commits: a write transaction's snapshot becomes the committed state
    /// and the write slot is released; committing a read transaction only
    /// consumes it. Commit never leaves the writes partially visible.
    pub fn commit_txn(&mut self, txn: IsarTxn) -> (r: Result<(), IsarError>)
        requires
            old(self).wf(),
            txn.wf(old(self).collections@.len() as int),
        ensures
            r is Ok,
            final(self).wf(),
            final(self).collections == old(self).collections,
            txn.write ==> {
                &&& final(self).committed == txn.data
                &&& final(self).next_ids == txn.next_ids
                &&& !final(self).write_active
            },
            !txn.write ==> {
                &&& final(self).committed == old(self).committed
                &&& final(self).next_ids == old(self).next_ids
                &&& final(self).write_active == old(self).write_active
            },
    {
        if txn.write {
            self.committed = txn.data;
            self.next_ids = txn.next_ids;
            self.write_active = false;
        }
        Ok(())
    }

    /// Aborts: discards the snapshot and, for a write transaction, releases
    /// the write slot. Abort always succeeds.
    pub fn abort_txn(&mut self, txn: IsarTxn)
        requires
            old(self).wf(),
        ensures
            final(self).wf(),
            final(self).collections == old(self).collections,
            final(self).committed == old(self).committed,
            final(self).next_ids == old(self).next_ids,
            txn.write ==> !final(self).write_active,
            !txn.write ==> final(self).write_active == old(self).write_active,
    {
        if txn.write {
            self.write_active = false;
        }
    }


    /// Reserves `count` slots in a collection of a write transaction and
    /// returns the batch insert handle that now owns the transaction.
    /// Inserting needs a write transaction and a stored (non-embedded)
    /// collection.
    pub fn insert(&self, txn: IsarTxn, collection_index: u16, count: u32) -> (r: Result<
        IsarInsert,
        (IsarTxn, IsarError),
    >)
        requires
            self.wf(),
            txn.wf(self.collections@.len() as int),
        ensures
            r is Ok <==> txn.write && (collection_index as int) < self.collections@.len()
                && !self.collections@[collection_index as int].embedded,
            match r {
                Ok(ins) => {
                    &&& ins.txn == txn
                    &&& ins.collection_index == collection_index
                    &&& ins.remaining == count
                },
                Err((t, e)) => {
                    &&& t == txn
                    &&& (e == IsarError::NotFound <==> (collection_index as int)
                        >= self.collections@.len())
                    &&& (e == IsarError::InvalidArgument <==> (collection_index as int)
                        < self.collections@.len() && (!txn.write
                        || self.collections@[collection_index as int].embedded))
                },
            },
    {
        if (collection_index as usize) >= self.collections.len() {
            return Err((txn, IsarError::NotFound));
        }
        if !txn.write {
            return Err((txn, IsarError::InvalidArgument));
        }
        if self.collections[collection_index as usize].embedded {
            return Err((txn, IsarError::InvalidArgument));
        }
        Ok(IsarInsert { txn, collection_index, remaining: count })
    }

    /// A query builder bound to one collection of this instance.
    pub fn build_query(&self, collection_index: u16) -> (r: Result<QueryBuilder, IsarError>)
        requires
            self.wf(),
        ensures
            match r {
                Ok(qb) => {
                    &&& (collection_index as int) < self.collections@.len()
                    &&& qb.collection_index == collection_index
                    &&& qb.filter is None
                },
                Err(e) => {
                    &&& e == IsarError::NotFound
                    &&& (collection_index as int) >= self.collections@.len()
                },
            },
    {
        if (collection_index as usize) >= self.collections.len() {
            return Err(IsarError::NotFound);
        }
        Ok(QueryBuilder::new(collection_index))
    }

    /// Executes a compiled query in a transaction, producing a lazy cursor
    /// over the matching records of the transaction's snapshot.
    pub fn query<'a>(&'a self, txn: &'a IsarTxn, q: &'a Query) -> (r: Result<
        IsarCursor<'a>,
        IsarError,
    >)
        requires
            self.wf(),
            txn.wf(self.collections@.len() as int),
        ensures
            match r {
                Ok(cur) => {
                    &&& q.valid_for(self.collections@)
                    &&& cur.wf()
                    &&& cur.pos == 0
                    &&& cur.records == &txn.data@[q.collection_index as int]
                    &&& cur.filter == q.filter
                    &&& cur.collection_index == q.collection_index as usize
                    &&& cur.collections == &self.collections
                },
                Err(e) => {
                    &&& e == IsarError::InvalidArgument
                    &&& !q.valid_for(self.collections@)
                },
            },
    {
        if (q.collection_index as usize) >= self.collections.len() {
            return Err(IsarError::InvalidArgument);
        }
        let valid = match &q.filter {
            Some(f) => crate::filter::filter_valid(f, &self.collections[q.collection_index as usize]),
            None => true,
        };
        if !valid {
            return Err(IsarError::InvalidArgument);
        }
        Ok(
            IsarCursor {
                records: &txn.data[q.collection_index as usize],
                collections: &self.collections,
                collection_index: q.collection_index as usize,
                filter: &q.filter,
                pos: 0,
            },
        )
    }

    /// How many records of the transaction's snapshot match the query;
    /// saturates at the largest 32-bit count.
    pub fn count(&self, txn: &IsarTxn, q: &Query) -> (r: Result<u32, IsarError>)
        requires
            self.wf(),
            txn.wf(self.collections@.len() as int),
        ensures
            match r {
                Ok(c) => {
                    &&& q.valid_for(self.collections@)
                    &&& {
                        let total = spec_count_matches(
                            txn.data@[q.collection_index as int]@,
                            q.filter,
                            self.collections@[q.collection_index as int].properties@,
                        );
                        c as int == if total > u32::MAX as int {
                            u32::MAX as int
                        } else {
                            total
                        }
                    }
                },
                Err(e) => {
                    &&& e == IsarError::InvalidArgument
                    &&& !q.valid_for(self.collections@)
                },
            },
    {
        if (q.collection_index as usize) >= self.collections.len() {
            return Err(IsarError::InvalidArgument);
        }
        let valid = match &q.filter {
            Some(f) => crate::filter::filter_valid(f, &self.collections[q.collection_index as usize]),
            None => true,
        };
        if !valid {
            return Err(IsarError::InvalidArgument);
        }
        let c = q.collection_index as usize;
        let recs = &txn.data[c];
        let coll = &self.collections[c];
        let n = recs.len();
        let mut cnt: u32 = 0;
        let mut i: usize = 0;
        while i < n
            invariant
                n == recs@.len(),
                i <= n,
                recs@ == txn.data@[c as int]@,
                coll == &self.collections@[c as int],
                c == q.collection_index as usize,
                q.valid_for(self.collections@),
                self.wf(),
                ({
                    let part = spec_count_matches(recs@.subrange(0, i as int), q.filter, coll.properties@);
                    cnt as int == if part > u32::MAX as int {
                        u32::MAX as int
                    } else {
                        part
                    }
                }),
            decreases n - i,
        {
            let m = match &q.filter {
                Some(f) => crate::filter::eval_filter(f, &IsarObject::new(recs[i].bytes.as_slice()), coll),
                None => true,
            };
            proof {
                let pre = recs@.subrange(0, i as int);
                let post = recs@.subrange(0, i as int + 1);
                assert(post.drop_last() =~= pre);
                assert(post.last() == recs@[i as int]);
                lemma_count_bounds(pre, q.filter, coll.properties@);
            }
            if m && cnt < u32::MAX {
                cnt = cnt + 1;
            }
            i += 1;
        }
        proof {
            assert(recs@.subrange(0, n as int) =~= recs@);
        }
        Ok(cnt)
    }

    /// Deletes every matching record from the write transaction's snapshot
    /// and says how many went, saturating at the largest 32-bit count. The
    /// surviving records keep their order.
    pub fn delete(&self, txn: &mut IsarTxn, q: &Query) -> (r: Result<u32, IsarError>)
        requires
            self.wf(),
            old(txn).wf(self.collections@.len() as int),
        ensures
            final(txn).wf(self.collections@.len() as int),
            final(txn).write == old(txn).write,
            final(txn).next_ids == old(txn).next_ids,
            match r {
                Ok(c) => {
                    &&& q.valid_for(self.collections@)
                    &&& old(txn).write
                    &&& final(txn).data@[q.collection_index as int]@ == spec_keep_unmatched(
                        old(txn).data@[q.collection_index as int]@,
                        q.filter,
                        self.collections@[q.collection_index as int].properties@,
                    )
                    &&& forall|c2: int|
                        0 <= c2 < old(txn).data@.len() && c2 != q.collection_index as int
                            ==> final(txn).data@[c2] == old(txn).data@[c2]
                    &&& {
                        let removed = old(txn).data@[q.collection_index as int]@.len()
                            - spec_keep_unmatched(
                            old(txn).data@[q.collection_index as int]@,
                            q.filter,
                            self.collections@[q.collection_index as int].properties@,
                        ).len();
                        c as int == if removed > u32::MAX as int {
                            u32::MAX as int
                        } else {
                            removed
                        }
                    }
                },
                Err(e) => {
                    &&& final(txn).data == old(txn).data
                    &&& e == IsarError::InvalidArgument
                    &&& !(q.valid_for(self.collections@) && old(txn).write)
                },
            },
            r is Err <==> !(q.valid_for(self.collections@) && old(txn).write),
    {
        if !txn.write {
            return Err(IsarError::InvalidArgument);
        }
        if (q.collection_index as usize) >= self.collections.len() {
            return Err(IsarError::InvalidArgument);
        }
        let valid = match &q.filter {
            Some(f) => crate::filter::filter_valid(f, &self.collections[q.collection_index as usize]),
            None => true,
        };
        if !valid {
            return Err(IsarError::InvalidArgument);
        }
        let c = q.collection_index as usize;
        let coll = &self.collections[c];
        let mut old_col = txn.data.remove(c);
        let ghost old_recs = old_col@;
        let n = old_col.len();
        let mut kept: Vec<Record> = Vec::new();
        let mut removed: u32 = 0;
        let mut i: usize = 0;
        while i < n
            invariant
                n == old_recs.len(),
                i <= n,
                old_col@ == old_recs.subrange(i as int, n as int),
                coll == &self.collections@[c as int],
                q.valid_for(self.collections@),
                c == q.collection_index as usize,
                self.wf(),
                (c as int) < self.collections@.len(),
                kept@ =~= spec_keep_unmatched(old_recs.subrange(0, i as int), q.filter, coll.properties@),
                ({
                    let rem = i - spec_keep_unmatched(
                        old_recs.subrange(0, i as int),
                        q.filter,
                        coll.properties@,
                    ).len();
                    removed as int == if rem > u32::MAX as int {
                        u32::MAX as int
                    } else {
                        rem
                    }
                }),
            decreases n - i,
        {
            let rec = old_col.remove(0);
            proof {
                assert(old_recs.subrange(i as int, n as int)[0] == old_recs[i as int]);
                assert(old_col@ =~= old_recs.subrange(i as int + 1, n as int));
            }
            let m = match &q.filter {
                Some(f) => crate::filter::eval_filter(f, &IsarObject::new(rec.bytes.as_slice()), coll),
                None => true,
            };
            proof {
                let pre = old_recs.subrange(0, i as int);
                let post = old_recs.subrange(0, i as int + 1);
                assert(post.drop_last() =~= pre);
                assert(post.last() == old_recs[i as int]);
                lemma_keep_len(pre, q.filter, coll.properties@);
                lemma_keep_len(post, q.filter, coll.properties@);
            }
            if m {
                if removed < u32::MAX {
                    removed = removed + 1;
                }
            } else {
                kept.push(rec);
            }
            i += 1;
        }
        proof {
            assert(old_recs.subrange(0, n as int) =~= old_recs);
        }
        txn.data.insert(c, kept);
        proof {
            assert forall|c2: int|
                0 <= c2 < old(txn).data@.len() && c2 != c as int implies final(txn).data@[c2]
                == old(txn).data@[c2] by {}
            lemma_keep_ids_ok(old_recs, q.filter, coll.properties@, txn.next_ids@[c as int]);
        }
        Ok(removed)
    }

    /// The compaction gate: compaction runs exactly when a condition is
    /// configured, the file has reached the configured minimum size, and
    /// the reclaimable space reaches the byte minimum or the configured
    /// fraction (in parts per million) of the file size.
    pub fn should_compact(&self, file_size: u64, reclaimable_bytes: u64) -> (r: bool)
        ensures
            r == match self.compact_condition {
                Some(cc) => file_size >= cc.min_file_size && (reclaimable_bytes >= cc.min_bytes
                    || (reclaimable_bytes as int) * 1_000_000 >= (file_size as int) * (
                    cc.min_ratio_ppm as int)),
                None => false,
            },
    {
        match &self.compact_condition {
            Some(cc) => {
                if file_size < cc.min_file_size {
                    return false;
                }
                if reclaimable_bytes >= cc.min_bytes {
                    return true;
                }
                proof {
                    assert((reclaimable_bytes as int) * 1_000_000 < 0x1_0000_0000_0000_0000_0000_0000_0000_0000)
                        by (nonlinear_arith)
                        requires
                            reclaimable_bytes as int <= 0xFFFF_FFFF_FFFF_FFFFu64,
                    ;
                    assert((file_size as int) * (cc.min_ratio_ppm as int)
                        < 0x1_0000_0000_0000_0000_0000_0000_0000_0000) by (nonlinear_arith)
                        requires
                            file_size as int <= 0xFFFF_FFFF_FFFF_FFFFu64,
                            cc.min_ratio_ppm as int <= 0xFFFF_FFFF_FFFF_FFFFu64,
                    ;
                }
                (reclaimable_bytes as u128) * 1_000_000u128 >= (file_size as u128) * (
                cc.min_ratio_ppm as u128)
            },
            None => false,
        }
    }
}

/// The count of matches is between zero and the record count.
pub proof fn lemma_count_bounds(recs: Seq<Record>, f: Option<Filter>, props: Seq<Property>)
    ensures
        0 <= spec_count_matches(recs, f, props) <= recs.len(),
    decreases recs.len(),
{
    if recs.len() > 0 {
        lemma_count_bounds(recs.drop_last(), f, props);
    }
}

/// What survives a delete is no longer than what went in.
pub proof fn lemma_keep_len(recs: Seq<Record>, f: Option<Filter>, props: Seq<Property>)
    ensures
        spec_keep_unmatched(recs, f, props).len() <= recs.len(),
    decreases recs.len(),
{
    if recs.len() > 0 {
        lemma_keep_len(recs.drop_last(), f, props);
    }
}

/// Deleting keeps the id order intact: every surviving record was stored,
/// in order, so ids still grow with position.
pub proof fn lemma_keep_ids_ok(recs: Seq<Record>, f: Option<Filter>, props: Seq<Property>, next: i64)
    requires
        spec_ids_ok(recs, next),
    ensures
        spec_ids_ok(spec_keep_unmatched(recs, f, props), next),
    decreases recs.len(),
{
    if recs.len() > 0 {
        assert(forall|i: int, j: int|
            0 <= i < j < recs.drop_last().len() ==> (#[trigger] recs.drop_last()[i]).id < (
            #[trigger] recs.drop_last()[j]).id);
        lemma_keep_ids_ok(recs.drop_last(), f, props, next);
        let rest = spec_keep_unmatched(recs.drop_last(), f, props);
        if !spec_rec_matches(recs.last(), f, props) {
            lemma_keep_members(recs.drop_last(), f, props);
        }
    }
}

/// Every record a delete keeps stands somewhere in the input.
pub proof fn lemma_keep_members(recs: Seq<Record>, f: Option<Filter>, props: Seq<Property>)
    ensures
        forall|k: int|
            0 <= k < spec_keep_unmatched(recs, f, props).len() ==> exists|i: int|
                0 <= i < recs.len() && #[trigger] spec_keep_unmatched(recs, f, props)[k]
                    == recs[i] && k <= i,
    decreases recs.len(),
{
    if recs.len() > 0 {
        lemma_keep_members(recs.drop_last(), f, props);
        let rest = spec_keep_unmatched(recs.drop_last(), f, props);
        let whole = spec_keep_unmatched(recs, f, props);
        assert forall|k: int| 0 <= k < whole.len() implies exists|i: int|
            0 <= i < recs.len() && #[trigger] whole[k] == recs[i] && k <= i by {
            if k < rest.len() {
                let i = choose|i: int|
                    0 <= i < recs.drop_last().len() && rest[k] == recs.drop_last()[i] && k <= i;
                assert(recs.drop_last()[i] == recs[i]);
                assert(whole[k] == recs[i] && k <= i);
            } else {
                lemma_keep_len(recs.drop_last(), f, props);
                assert(whole[k] == recs.last());
                assert(whole[k] == recs[recs.len() - 1] && k <= recs.len() - 1);
            }
        }
    }
}


/// A batch insert: it owns the write transaction while the caller fills
/// one writer per reserved slot, and hands the transaction back when done.
/// Ids are assigned in insertion order from the collection's counter.
pub struct IsarInsert {
    pub txn: IsarTxn,
    pub collection_index: u16,
    pub remaining: u32,
}

impl IsarInsert {
    /// A fresh writer for the next object of the batch.
    pub fn writer<'a>(&self, inst: &'a IsarInstance) -> (r: Result<IsarWriter<'a>, IsarError>)
        requires
            inst.wf(),
        ensures
            match r {
                Ok(w) => {
                    &&& (self.collection_index as int) < inst.collections@.len()
                    &&& w.wf()
                    &&& w.next == 0
                    &&& w.values@ =~= Seq::<FieldValue>::empty()
                    &&& w.collections == &inst.collections
                    &&& w.collection_index == self.collection_index as usize
                },
                Err(e) => {
                    &&& e == IsarError::NotFound
                    &&& (self.collection_index as int) >= inst.collections@.len()
                },
            },
    {
        if (self.collection_index as usize) >= inst.collections.len() {
            return Err(IsarError::NotFound);
        }
        Ok(IsarWriter::new(&inst.collections, self.collection_index as usize))
    }

    /// Completes one object: the writer's buffer becomes a stored record
    /// with the next id of the collection. Fails without changing anything
    /// when no reserved slot is left or the id space is exhausted.
    pub fn save(&mut self, w: IsarWriter) -> (r: Result<i64, IsarError>)
        requires
            old(self).txn.wf(old(self).txn.data@.len() as int),
            (old(self).collection_index as int) < old(self).txn.data@.len(),
            w.wf(),
            w.collection_index == old(self).collection_index as usize,
        ensures
            final(self).collection_index == old(self).collection_index,
            final(self).txn.write == old(self).txn.write,
            final(self).txn.wf(old(self).txn.data@.len() as int),
            match r {
                Ok(id) => {
                    let c = old(self).collection_index as int;
                    &&& old(self).remaining > 0
                    &&& id == old(self).txn.next_ids@[c]
                    &&& final(self).remaining == old(self).remaining - 1
                    &&& final(self).txn.next_ids@ == old(self).txn.next_ids@.update(c, (id + 1) as i64)
                    &&& final(self).txn.data@.len() == old(self).txn.data@.len()
                    &&& forall|c2: int|
                        0 <= c2 < old(self).txn.data@.len() && c2 != c ==> final(self).txn.data@[c2]
                            == old(self).txn.data@[c2]
                    &&& final(self).txn.data@[c]@.len() == old(self).txn.data@[c]@.len() + 1
                    &&& forall|i: int|
                        0 <= i < old(self).txn.data@[c]@.len() ==> final(self).txn.data@[c]@[i]
                            == old(self).txn.data@[c]@[i]
                    &&& final(self).txn.data@[c]@.last().id == id
                    &&& forall|k: int|
                        0 <= k < w.spec_props().len() ==> spec_field_decodes(
                            final(self).txn.data@[c]@.last().bytes@,
                            #[trigger] w.spec_props()[k],
                            if k < w.values@.len() {
                                w.values@[k]
                            } else {
                                FieldValue::Null
                            },
                            w.fixed_size as int,
                        )
                },
                Err(e) => {
                    &&& final(self).txn.data == old(self).txn.data
                    &&& final(self).txn.next_ids == old(self).txn.next_ids
                    &&& final(self).remaining == old(self).remaining
                    &&& (e == IsarError::InvalidArgument <==> old(self).remaining == 0)
                    &&& (e == IsarError::EncodingError <==> old(self).remaining > 0 && old(
                        self,
                    ).txn.next_ids@[old(self).collection_index as int] == i64::MAX)
                },
            },
            r is Ok <==> old(self).remaining > 0 && old(self).txn.next_ids@[old(
                self,
            ).collection_index as int] < i64::MAX,
    {
        if self.remaining == 0 {
            return Err(IsarError::InvalidArgument);
        }
        let c = self.collection_index as usize;
        let id = self.txn.next_ids[c];
        if id == i64::MAX {
            return Err(IsarError::EncodingError);
        }
        let bytes = w.finish();
        let mut col = self.txn.data.remove(c);
        let ghost old_col = col@;
        col.push(Record { id, bytes });
        self.txn.data.insert(c, col);
        let _old_id = self.txn.next_ids.remove(c);
        self.txn.next_ids.insert(c, id + 1);
        self.remaining = self.remaining - 1;
        proof {
            assert(final(self).txn.next_ids@ =~= old(self).txn.next_ids@.update(
                c as int,
                (id + 1) as i64,
            ));
            assert forall|c2: int|
                0 <= c2 < old(self).txn.data@.len() implies spec_ids_ok(
                (#[trigger] final(self).txn.data@[c2])@,
                final(self).txn.next_ids@[c2],
            ) by {
                assert(spec_ids_ok(old(self).txn.data@[c2]@, old(self).txn.next_ids@[c2]));
                if c2 == c as int {
                    assert(final(self).txn.data@[c2]@ =~= old_col.push(
                        Record { id, bytes: final(self).txn.data@[c2]@.last().bytes },
                    ));
                }
            }
        }
        Ok(id)
    }

    /// Hands the transaction back once the batch is done.
    pub fn finish(self) -> (r: IsarTxn)
        ensures
            r == self.txn,
    {
        self.txn
    }
}

/// A lazy cursor over the matching records of one transaction's snapshot.
/// Each call to `next` yields a reader over the next match; abandoning the
/// cursor early needs nothing more than dropping it.
pub struct IsarCursor<'a> {
    pub records: &'a Vec<Record>,
    pub collections: &'a Vec<CollectionSchema>,
    pub collection_index: usize,
    pub filter: &'a Option<Filter>,
    pub pos: usize,
}

impl<'a> IsarCursor<'a> {
    pub open spec fn spec_props(self) -> Seq<Property> {
        self.collections@[self.collection_index as int].properties@
    }

    pub open spec fn wf(self) -> bool {
        &&& spec_schema_wf(self.collections@)
        &&& (self.collection_index as int) < self.collections@.len()
        &&& self.pos <= self.records@.len()
        &&& match *self.filter {
            Some(f) => crate::filter::spec_filter_valid(f, self.spec_props()),
            None => true,
        }
    }

    /// Yields a reader over the first matching record at or after the
    /// cursor's position, or nothing when no record past it matches.
    pub fn next(&mut self) -> (r: Option<NativeReader<'a>>)
        requires
            old(self).wf(),
        ensures
            final(self).wf(),
            final(self).records == old(self).records,
            final(self).collections == old(self).collections,
            final(self).collection_index == old(self).collection_index,
            final(self).filter == old(self).filter,
            match r {
                Some(reader) => {
                    let found = spec_first_match(
                        old(self).records@,
                        *old(self).filter,
                        old(self).spec_props(),
                        old(self).pos as int,
                    );
                    &&& found == Some(final(self).pos - 1)
                    &&& reader.id == old(self).records@[final(self).pos - 1].id
                    &&& reader.spec_obj() == old(self).records@[final(self).pos - 1].bytes@
                    &&& reader.top_level
                    &&& reader.wf()
                    &&& reader.collection_index == old(self).collection_index
                    &&& reader.collections == old(self).collections
                },
                None => {
                    &&& spec_first_match(
                        old(self).records@,
                        *old(self).filter,
                        old(self).spec_props(),
                        old(self).pos as int,
                    ) is None
                    &&& final(self).pos == old(self).records@.len()
                },
            },
    {
        let n = self.records.len();
        let coll = &self.collections[self.collection_index];
        while self.pos < n
            invariant
                n == self.records@.len(),
                self.pos <= n,
                self.records == old(self).records,
                self.collections == old(self).collections,
                self.collection_index == old(self).collection_index,
                self.filter == old(self).filter,
                coll == &self.collections@[self.collection_index as int],
                old(self).wf(),
                self.wf(),
                spec_first_match(
                    self.records@,
                    *self.filter,
                    self.spec_props(),
                    old(self).pos as int,
                ) == spec_first_match(self.records@, *self.filter, self.spec_props(), self.pos as int),
            decreases n - self.pos,
        {
            let rec = &self.records[self.pos];
            let m = match self.filter {
                Some(f) => crate::filter::eval_filter(f, &IsarObject::new(rec.bytes.as_slice()), coll),
                None => true,
            };
            if m {
                let reader = NativeReader::new(
                    rec.id,
                    IsarObject::new(rec.bytes.as_slice()),
                    self.collection_index,
                    self.collections,
                );
                self.pos = self.pos + 1;
                return Some(reader);
            }
            self.pos = self.pos + 1;
        }
        None
    }
}

} // verus!
