use isar_core::data_type::DataType;
use isar_core::error::IsarError;
use isar_core::filter::Filter;
use isar_core::instance::{CompactCondition, IsarInstance, IsarTxn};
use isar_core::query::Query;
use isar_core::schema::{CollectionSchema, PropertySchema};

fn item_schema() -> Vec<CollectionSchema> {
    let c = CollectionSchema::build(
        "Item".to_string(),
        vec![
            PropertySchema::new("name".to_string(), DataType::String, None),
            PropertySchema::new("tags".to_string(), DataType::StringList, None),
        ],
        false,
    )
    .unwrap();
    vec![c]
}

fn open_item_instance() -> IsarInstance {
    IsarInstance::open(1, "db".to_string(), item_schema(), false, None).unwrap()
}

fn insert_item(inst: &IsarInstance, txn: IsarTxn, name: &str, tags: &[&str]) -> (IsarTxn, i64) {
    let mut ins = inst.insert(txn, 0, 1).ok().unwrap();
    let mut w = ins.writer(inst).unwrap();
    w.write_string(0, name).unwrap();
    let tags: Vec<Option<String>> = tags.iter().map(|t| Some(t.to_string())).collect();
    w.write_string_list(1, &tags).unwrap();
    let id = ins.save(w).unwrap();
    (ins.finish(), id)
}

fn all_query() -> Query {
    Query { collection_index: 0, filter: None }
}

fn name_eq(name: &str) -> Query {
    Query {
        collection_index: 0,
        filter: Some(Filter::StringEq { property: 0, value: name.to_string() }),
    }
}

#[test]
fn end_to_end_scenario() {
    let mut inst = open_item_instance();
    let txn = inst.begin_txn(true).unwrap();
    let (txn, id) = insert_item(&inst, txn, "a", &["x", "y"]);
    inst.commit_txn(txn).unwrap();

    let read = inst.begin_txn(false).unwrap();
    let q = all_query();
    let mut cursor = inst.query(&read, &q).unwrap();
    let r = cursor.next().expect("one record expected");
    assert_eq!(r.read_id().unwrap(), id);
    assert_eq!(r.read_string(0).unwrap(), Some("a"));
    let (lr, len) = r.read_list(1).unwrap().unwrap();
    assert_eq!(len, 2);
    assert_eq!(lr.read_string(0).unwrap(), Some("x"));
    assert_eq!(lr.read_string(1).unwrap(), Some("y"));
    assert!(cursor.next().is_none());
    inst.abort_txn(read);
}

#[test]
fn delete_scenario() {
    let mut inst = open_item_instance();
    let txn = inst.begin_txn(true).unwrap();
    let (txn, _) = insert_item(&inst, txn, "a", &[]);
    let (txn, _) = insert_item(&inst, txn, "b", &[]);
    let (txn, _) = insert_item(&inst, txn, "a", &[]);
    inst.commit_txn(txn).unwrap();

    let mut txn = inst.begin_txn(true).unwrap();
    let q = name_eq("a");
    let removed = inst.delete(&mut txn, &q).unwrap();
    assert_eq!(removed, 2);
    assert_eq!(inst.count(&txn, &q).unwrap(), 0);
    assert_eq!(inst.count(&txn, &all_query()).unwrap(), 1);
    inst.commit_txn(txn).unwrap();

    let read = inst.begin_txn(false).unwrap();
    assert_eq!(inst.count(&read, &name_eq("a")).unwrap(), 0);
    assert_eq!(inst.count(&read, &name_eq("b")).unwrap(), 1);
    inst.abort_txn(read);
}

#[test]
fn snapshot_isolation() {
    let mut inst = open_item_instance();
    let txn = inst.begin_txn(true).unwrap();
    let (txn, _) = insert_item(&inst, txn, "before", &[]);
    inst.commit_txn(txn).unwrap();

    // A read transaction begun before the write commits never observes the
    // write; one begun after observes it exactly once.
    let early_read = inst.begin_txn(false).unwrap();
    let write = inst.begin_txn(true).unwrap();
    let (write, x_id) = insert_item(&inst, write, "x", &[]);
    assert_eq!(inst.count(&early_read, &all_query()).unwrap(), 1);
    inst.commit_txn(write).unwrap();
    assert_eq!(inst.count(&early_read, &name_eq("x")).unwrap(), 0);

    let late_read = inst.begin_txn(false).unwrap();
    let mut seen = 0;
    let q = name_eq("x");
    let mut cursor = inst.query(&late_read, &q).unwrap();
    while let Some(r) = cursor.next() {
        assert_eq!(r.read_id().unwrap(), x_id);
        seen += 1;
    }
    assert_eq!(seen, 1);
    inst.abort_txn(early_read);
    inst.abort_txn(late_read);
}

#[test]
fn single_writer_exclusion() {
    let mut inst = open_item_instance();
    let w1 = inst.begin_txn(true).unwrap();
    assert!(matches!(inst.begin_txn(true), Err(IsarError::TransactionConflict)));
    // Read transactions still run alongside the writer.
    let r1 = inst.begin_txn(false).unwrap();
    inst.abort_txn(r1);
    inst.abort_txn(w1);
    // The slot is free again after abort, and after commit.
    let w2 = inst.begin_txn(true).unwrap();
    inst.commit_txn(w2).unwrap();
    let w3 = inst.begin_txn(true).unwrap();
    inst.abort_txn(w3);
}

#[test]
fn compaction_gating() {
    let cond = CompactCondition { min_file_size: 1000, min_bytes: 100, min_ratio_ppm: 500_000 };
    let inst =
        IsarInstance::open(1, "db".to_string(), item_schema(), false, Some(cond)).unwrap();
    // Below the minimum file size nothing runs, whatever is reclaimable.
    assert!(!inst.should_compact(999, 999));
    // At the minimum file size the byte threshold alone suffices.
    assert!(inst.should_compact(1000, 100));
    assert!(!inst.should_compact(1000, 99));
    // The ratio alone suffices too: half of 2000 is reclaimable.
    assert!(inst.should_compact(2000, 1000));
    assert!(!inst.should_compact(10_000, 99));
    // Without a configured condition — the not-a-number sentinel at the
    // boundary — compaction never runs automatically.
    let off = open_item_instance();
    assert!(!off.should_compact(u64::MAX, u64::MAX));
}

#[test]
fn filter_operators() {
    let schema = vec![CollectionSchema::build(
        "Nums".to_string(),
        vec![
            PropertySchema::new("n".to_string(), DataType::Long, None),
            PropertySchema::new("flag".to_string(), DataType::Bool, None),
        ],
        false,
    )
    .unwrap()];
    let mut inst = IsarInstance::open(2, "nums".to_string(), schema, false, None).unwrap();
    let txn = inst.begin_txn(true).unwrap();
    let mut ins = inst.insert(txn, 0, 4).ok().unwrap();
    for (n, flag) in [(1i64, Some(true)), (5, Some(false)), (10, Some(true)), (0, None)] {
        let mut w = ins.writer(&inst).unwrap();
        if n == 0 {
            w.write_null(0).unwrap();
        } else {
            w.write_long(0, n).unwrap();
        }
        match flag {
            Some(b) => w.write_bool(1, b).unwrap(),
            None => w.write_null(1).unwrap(),
        }
        ins.save(w).unwrap();
    }
    inst.commit_txn(ins.finish()).unwrap();

    let read = inst.begin_txn(false).unwrap();
    let count = |f: Filter| {
        let q = Query { collection_index: 0, filter: Some(f) };
        inst.count(&read, &q).unwrap()
    };
    assert_eq!(count(Filter::LongEq { property: 0, value: 5 }), 1);
    assert_eq!(count(Filter::LongGt { property: 0, value: 1 }), 2);
    // A null field fails every comparison...
    assert_eq!(count(Filter::LongLt { property: 0, value: 100 }), 3);
    // ...except the explicit null test.
    assert_eq!(count(Filter::IsNull { property: 0 }), 1);
    assert_eq!(count(Filter::IsNull { property: 1 }), 1);
    assert_eq!(count(Filter::BoolEq { property: 1, value: true }), 2);
    assert_eq!(
        count(Filter::And(
            Box::new(Filter::LongGt { property: 0, value: 1 }),
            Box::new(Filter::BoolEq { property: 1, value: true }),
        )),
        1
    );
    assert_eq!(
        count(Filter::Or(
            Box::new(Filter::LongEq { property: 0, value: 1 }),
            Box::new(Filter::LongEq { property: 0, value: 5 }),
        )),
        2
    );
    assert_eq!(count(Filter::Not(Box::new(Filter::IsNull { property: 0 }))), 3);
    inst.abort_txn(read);
}

#[test]
fn query_build_validates_references() {
    let inst = open_item_instance();
    // An unknown collection is not found.
    assert_eq!(inst.build_query(3).err(), Some(IsarError::NotFound));
    // A filter naming a property outside the collection is a build error.
    let mut qb = inst.build_query(0).unwrap();
    qb.set_filter(Filter::LongEq { property: 9, value: 1 });
    assert_eq!(qb.build(&inst.collections).err(), Some(IsarError::InvalidArgument));
    // So is one comparing a property with the wrong kind.
    let mut qb = inst.build_query(0).unwrap();
    qb.set_filter(Filter::LongEq { property: 0, value: 1 });
    assert_eq!(qb.build(&inst.collections).err(), Some(IsarError::InvalidArgument));
    // A well-typed filter compiles and runs.
    let mut qb = inst.build_query(0).unwrap();
    qb.set_filter(Filter::StringEq { property: 0, value: "a".to_string() });
    let q = qb.build(&inst.collections).unwrap();
    let read_inst = inst;
    let mut inst = read_inst;
    let read = inst.begin_txn(false).unwrap();
    assert_eq!(inst.count(&read, &q).unwrap(), 0);
    inst.abort_txn(read);
}

#[test]
fn insert_needs_write_txn_and_stored_collection() {
    let mut inst = open_item_instance();
    let read = inst.begin_txn(false).unwrap();
    let (read, e) = match inst.insert(read, 0, 1) {
        Err((t, e)) => (t, e),
        Ok(_) => panic!("a read transaction must not insert"),
    };
    assert_eq!(e, IsarError::InvalidArgument);
    inst.abort_txn(read);
    let txn = inst.begin_txn(true).unwrap();
    let (txn, e) = match inst.insert(txn, 9, 1) {
        Err((t, e)) => (t, e),
        Ok(_) => panic!("an unknown collection must not insert"),
    };
    assert_eq!(e, IsarError::NotFound);
    // The failed insert handed the write transaction back: it can still be
    // aborted, and the write slot opens up again.
    inst.abort_txn(txn);
    let txn = inst.begin_txn(true).unwrap();
    inst.commit_txn(txn).unwrap();

    // An embedded collection holds no records of its own.
    let inner = CollectionSchema::build(
        "inner".to_string(),
        vec![PropertySchema::new("n".to_string(), DataType::Int, None)],
        true,
    )
    .unwrap();
    let outer = CollectionSchema::build(
        "outer".to_string(),
        vec![PropertySchema::new("o".to_string(), DataType::Object, Some(1))],
        false,
    )
    .unwrap();
    let mut inst2 =
        IsarInstance::open(3, "db2".to_string(), vec![outer, inner], false, None).unwrap();
    let txn = inst2.begin_txn(true).unwrap();
    let (txn, e) = match inst2.insert(txn, 1, 1) {
        Err((t, e)) => (t, e),
        Ok(_) => panic!("an embedded collection must not accept inserts"),
    };
    assert_eq!(e, IsarError::InvalidArgument);
    inst2.abort_txn(txn);
}

#[test]
fn open_validates_schema_as_a_whole() {
    // An embedded reference outside the schema.
    let outer = CollectionSchema::build(
        "outer".to_string(),
        vec![PropertySchema::new("o".to_string(), DataType::Object, Some(5))],
        false,
    )
    .unwrap();
    let r = IsarInstance::open(4, "bad".to_string(), vec![outer], false, None);
    assert_eq!(r.err(), Some(IsarError::SchemaError));

    // The nesting limit: an embedded collection may not itself hold an
    // Object property, so a doubly-nested structure is rejected at open.
    let inner2 = CollectionSchema::build(
        "inner2".to_string(),
        vec![PropertySchema::new("n".to_string(), DataType::Int, None)],
        true,
    )
    .unwrap();
    let inner1 = CollectionSchema::build(
        "inner1".to_string(),
        vec![PropertySchema::new("o".to_string(), DataType::Object, Some(2))],
        true,
    )
    .unwrap();
    let outer = CollectionSchema::build(
        "outer".to_string(),
        vec![PropertySchema::new("o".to_string(), DataType::Object, Some(1))],
        false,
    )
    .unwrap();
    let r = IsarInstance::open(5, "deep".to_string(), vec![outer, inner1, inner2], false, None);
    assert_eq!(r.err(), Some(IsarError::SchemaError));

    // A reference to a non-embedded collection is rejected too.
    let other = CollectionSchema::build(
        "other".to_string(),
        vec![PropertySchema::new("n".to_string(), DataType::Int, None)],
        false,
    )
    .unwrap();
    let outer = CollectionSchema::build(
        "outer".to_string(),
        vec![PropertySchema::new("o".to_string(), DataType::Object, Some(1))],
        false,
    )
    .unwrap();
    let r = IsarInstance::open(6, "flat".to_string(), vec![outer, other], false, None);
    assert_eq!(r.err(), Some(IsarError::SchemaError));
}

#[test]
fn ids_are_assigned_in_order_and_kept() {
    let mut inst = open_item_instance();
    let txn = inst.begin_txn(true).unwrap();
    let (txn, id1) = insert_item(&inst, txn, "p", &[]);
    let (txn, id2) = insert_item(&inst, txn, "q", &[]);
    inst.commit_txn(txn).unwrap();
    assert!(id2 > id1);

    let read = inst.begin_txn(false).unwrap();
    let q = all_query();
    let mut cursor = inst.query(&read, &q).unwrap();
    let ids: Vec<i64> = std::iter::from_fn(|| cursor.next().map(|r| r.read_id().unwrap()))
        .collect();
    assert_eq!(ids, vec![id1, id2]);
    inst.abort_txn(read);
}
