use db_adapter::adapter::DbAdapter;
use db_adapter::backend::{DiskIter, PebbleDb};
use db_adapter::types::{
    DbError, HistoryEntry, KeyHash, Node, NodeKey, Preimage, StaleNodeIndex, TreeUpdateBatch,
};

fn fresh() -> DbAdapter<PebbleDb> {
    DbAdapter::new(PebbleDb::new(), String::from("nodes"))
}

fn write_batch(key: KeyHash, version: u64, value: Option<Vec<u8>>) -> TreeUpdateBatch {
    let mut b = TreeUpdateBatch::empty();
    b.history.push(HistoryEntry { key_hash: key, version, value });
    b.preimages.push((key, Preimage(key.0.to_be_bytes().to_vec())));
    b
}

fn history_of(db: &DbAdapter<PebbleDb>, key: KeyHash) -> Vec<(u64, Option<Vec<u8>>)> {
    db.value_history()
        .into_iter()
        .find(|(k, _)| *k == key)
        .map(|(_, entries)| entries)
        .unwrap_or_default()
}

#[test]
fn get_on_fresh_adapter_is_absent() {
    let db = fresh();
    assert_eq!(db.get(u64::MAX, KeyHash(1)), None);
}

#[test]
fn column_is_kept() {
    let db = fresh();
    assert_eq!(db.column().as_str(), "nodes");
}

#[test]
fn empty_batch_is_accepted() {
    let db = fresh();
    assert!(db.update_batch(TreeUpdateBatch::empty()).is_ok());
    assert!(db.value_history().is_empty());
    assert!(db.nodes().is_empty());
}

#[test]
fn versioned_reads_see_each_version() {
    // Write node A at version 1, then a newer value at version 2: a
    // read at version 1 still sees the original, a read at version 2
    // sees the new value.
    let db = fresh();
    let a = KeyHash(0xA);
    let mut b1 = write_batch(a, 1, Some(vec![10]));
    b1.node_writes.push((
        NodeKey { version: 1, path: vec![0xA] },
        Some(Node::Leaf(vec![10])),
    ));
    assert!(db.update_batch(b1).is_ok());
    assert_eq!(db.get(1, a), Some(vec![10]));

    let mut b2 = write_batch(a, 2, Some(vec![20]));
    b2.node_writes.push((
        NodeKey { version: 2, path: vec![0xA] },
        Some(Node::Leaf(vec![20])),
    ));
    b2.stale_nodes.push(StaleNodeIndex {
        stale_since_version: 2,
        node_key: NodeKey { version: 1, path: vec![0xA] },
    });
    assert!(db.update_batch(b2).is_ok());

    assert_eq!(db.get(1, a), Some(vec![10]));
    assert_eq!(db.get(2, a), Some(vec![20]));
    assert_eq!(db.get(u64::MAX, a), Some(vec![20]));
    assert_eq!(db.get(0, a), None);
}

#[test]
fn deletion_markers_read_as_absence() {
    // K has a value at version 2 and is deleted at version 3: a read
    // at 3 sees absence, a read at 2 still sees the prior value.
    let db = fresh();
    let k = KeyHash(75);
    assert!(db.update_batch(write_batch(k, 2, Some(vec![7, 7]))).is_ok());
    assert!(db.update_batch(write_batch(k, 3, None)).is_ok());
    assert_eq!(db.get(3, k), None);
    assert_eq!(db.get(2, k), Some(vec![7, 7]));
    assert_eq!(db.get(4, k), None);
}

#[test]
fn stale_version_append_rejected_and_state_unchanged() {
    // A batch whose history version does not exceed the recorded one
    // is rejected whole, leaving the aggregate exactly as it was.
    let db = fresh();
    let k = KeyHash(3);
    assert!(db.update_batch(write_batch(k, 5, Some(vec![1]))).is_ok());
    let hist_before = db.value_history();
    let nodes_before = db.nodes();

    let mut bad = write_batch(k, 5, Some(vec![2]));
    bad.node_writes.push((
        NodeKey { version: 5, path: vec![1] },
        Some(Node::Leaf(vec![2])),
    ));
    bad.preimages.push((k, Preimage(vec![9])));
    assert_eq!(db.update_batch(bad), Err(DbError::VersionNotIncreasing));

    assert_eq!(db.value_history(), hist_before);
    assert_eq!(db.nodes(), nodes_before);
    assert_eq!(db.get(5, k), Some(vec![1]));

    let mut older = write_batch(k, 4, Some(vec![3]));
    assert_eq!(db.update_batch(older.clone()), Err(DbError::VersionNotIncreasing));
    older.history.clear();
    assert!(db.update_batch(older.clone()).is_ok());
}

#[test]
fn malformed_batch_rejected_before_any_effect() {
    // One identity both written and tombstoned: internally
    // inconsistent, rejected before any mutation.
    let db = fresh();
    let nk = NodeKey { version: 1, path: vec![4] };
    let mut bad = TreeUpdateBatch::empty();
    bad.node_writes.push((
        NodeKey { version: nk.version, path: nk.path.clone() },
        Some(Node::Leaf(vec![1])),
    ));
    bad.node_writes.push((NodeKey { version: nk.version, path: nk.path.clone() }, None));
    bad.history.push(HistoryEntry { key_hash: KeyHash(4), version: 1, value: Some(vec![1]) });
    bad.preimages.push((KeyHash(4), Preimage(vec![4])));
    assert_eq!(db.update_batch(bad), Err(DbError::MalformedBatch));
    assert!(db.value_history().is_empty());
    assert!(db.nodes().is_empty());
}

#[test]
fn nodes_returns_exactly_the_node_records() {
    // Foreign raw records sharing the backend are skipped; only pairs
    // that decode as (identity, node) are enumerated.
    let mut backing = PebbleDb::new();
    backing.put(vec![1, 2, 3], vec![9]); // key too short
    backing.put(vec![0, 0, 0, 0, 0, 0, 0, 9, 1], vec![99, 1]); // bad node tag
    let db = DbAdapter::new(backing, String::from("nodes"));
    assert!(db.nodes().is_empty());

    let mut b = TreeUpdateBatch::empty();
    b.node_writes.push((NodeKey { version: 1, path: vec![5] }, Some(Node::Leaf(vec![50]))));
    b.node_writes.push((NodeKey { version: 1, path: vec![6] }, Some(Node::Null)));
    assert!(db.update_batch(b).is_ok());

    let mut listed = db.nodes();
    listed.sort_by(|x, y| x.0.path.cmp(&y.0.path));
    assert_eq!(listed.len(), 2);
    assert_eq!(listed[0].0, NodeKey { version: 1, path: vec![5] });
    assert!(matches!(&listed[0].1, Node::Leaf(p) if *p == vec![50]));
    assert_eq!(listed[1].0, NodeKey { version: 1, path: vec![6] });
    assert!(matches!(listed[1].1, Node::Null));
}

#[test]
fn tombstone_removes_a_node_record() {
    let db = fresh();
    let nk = NodeKey { version: 1, path: vec![8] };
    let mut b = TreeUpdateBatch::empty();
    b.node_writes.push((
        NodeKey { version: nk.version, path: nk.path.clone() },
        Some(Node::Leaf(vec![1])),
    ));
    assert!(db.update_batch(b).is_ok());
    assert_eq!(db.nodes().len(), 1);

    let mut b2 = TreeUpdateBatch::empty();
    b2.node_writes.push((NodeKey { version: nk.version, path: nk.path.clone() }, None));
    assert!(db.update_batch(b2).is_ok());
    assert!(db.nodes().is_empty());
}

#[test]
fn value_history_holds_exactly_the_accepted_appends_in_order() {
    let db = fresh();
    let k1 = KeyHash(1);
    let k2 = KeyHash(2);
    let mut b1 = TreeUpdateBatch::empty();
    b1.history.push(HistoryEntry { key_hash: k1, version: 1, value: Some(vec![1]) });
    b1.history.push(HistoryEntry { key_hash: k2, version: 1, value: Some(vec![2]) });
    b1.preimages.push((k1, Preimage(vec![1])));
    b1.preimages.push((k2, Preimage(vec![2])));
    assert!(db.update_batch(b1).is_ok());
    let mut b2 = TreeUpdateBatch::empty();
    b2.history.push(HistoryEntry { key_hash: k1, version: 3, value: None });
    assert!(db.update_batch(b2).is_ok());

    let hist = db.value_history();
    assert_eq!(hist.len(), 2);
    assert_eq!(history_of(&db, k1), vec![(1, Some(vec![1])), (3, None)]);
    assert_eq!(history_of(&db, k2), vec![(1, Some(vec![2]))]);
}

#[test]
fn batch_may_append_twice_to_one_key_with_rising_versions() {
    let db = fresh();
    let k = KeyHash(9);
    let mut b = TreeUpdateBatch::empty();
    b.history.push(HistoryEntry { key_hash: k, version: 1, value: Some(vec![1]) });
    b.history.push(HistoryEntry { key_hash: k, version: 2, value: Some(vec![2]) });
    b.preimages.push((k, Preimage(vec![9])));
    assert!(db.update_batch(b).is_ok());
    assert_eq!(history_of(&db, k), vec![(1, Some(vec![1])), (2, Some(vec![2]))]);

    let mut dup = TreeUpdateBatch::empty();
    dup.history.push(HistoryEntry { key_hash: k, version: 5, value: Some(vec![5]) });
    dup.history.push(HistoryEntry { key_hash: k, version: 5, value: Some(vec![6]) });
    assert_eq!(db.update_batch(dup), Err(DbError::VersionNotIncreasing));
    assert_eq!(history_of(&db, k), vec![(1, Some(vec![1])), (2, Some(vec![2]))]);
}

#[test]
fn cloned_handles_share_one_aggregate() {
    // Two handles over the same adapter: a batch applied through one
    // is seen, whole, through the other.
    let db = fresh();
    let other = db.clone();
    let k = KeyHash(11);
    assert!(db.update_batch(write_batch(k, 1, Some(vec![4]))).is_ok());
    assert_eq!(other.get(1, k), Some(vec![4]));
    assert_eq!(other.value_history().len(), 1);
}

#[test]
fn readers_see_only_whole_batches() {
    // A reader between two batches sees all of the first and none of
    // the second; after the second, all of both.
    let db = fresh();
    let k1 = KeyHash(21);
    let k2 = KeyHash(22);
    let mut b1 = TreeUpdateBatch::empty();
    b1.history.push(HistoryEntry { key_hash: k1, version: 1, value: Some(vec![1]) });
    b1.history.push(HistoryEntry { key_hash: k2, version: 1, value: Some(vec![2]) });
    b1.preimages.push((k1, Preimage(vec![21])));
    b1.preimages.push((k2, Preimage(vec![22])));
    assert!(db.update_batch(b1).is_ok());

    let snapshot = db.value_history();
    assert_eq!(snapshot.len(), 2);

    let mut b2 = TreeUpdateBatch::empty();
    b2.history.push(HistoryEntry { key_hash: k1, version: 2, value: Some(vec![3]) });
    assert!(db.update_batch(b2).is_ok());

    // The earlier snapshot is materialized, not live.
    assert_eq!(snapshot.iter().find(|(k, _)| *k == k1).unwrap().1.len(), 1);
    assert_eq!(history_of(&db, k1).len(), 2);
}

#[test]
fn backend_iter_put_delete_round_trip() {
    let mut b = PebbleDb::new();
    assert!(b.iter().is_empty());
    b.put(vec![1], vec![10]);
    b.put(vec![2], vec![20]);
    b.put(vec![1], vec![11]);
    let mut pairs = b.iter();
    pairs.sort();
    assert_eq!(pairs, vec![(vec![1], vec![11]), (vec![2], vec![20])]);
    b.delete(&vec![1]);
    assert_eq!(b.iter(), vec![(vec![2], vec![20])]);
    let copy = b.clone();
    assert_eq!(copy.iter(), vec![(vec![2], vec![20])]);
    let empty = PebbleDb::default();
    assert!(empty.iter().is_empty());
}

#[test]
fn preimages_do_not_disturb_other_state() {
    let db = fresh();
    let k = KeyHash(30);
    let mut b = write_batch(k, 1, Some(vec![1]));
    b.preimages.push((k, Preimage(vec![1, 2, 3])));
    b.preimages.push((k, Preimage(vec![4, 5, 6])));
    assert!(db.update_batch(b).is_ok());
    assert_eq!(db.get(1, k), Some(vec![1]));
}

#[test]
fn history_append_without_preimage_rejected() {
    // A history append for a fresh key hash with no preimage recorded
    // and none in the batch is rejected whole: the entry could never
    // be enumerated back to its key.
    let db = fresh();
    let mut b = TreeUpdateBatch::empty();
    b.history.push(HistoryEntry { key_hash: KeyHash(40), version: 1, value: Some(vec![1]) });
    b.node_writes.push((NodeKey { version: 1, path: vec![40] }, Some(Node::Leaf(vec![1]))));
    assert_eq!(db.update_batch(b), Err(DbError::MissingPreimage));
    assert!(db.value_history().is_empty());
    assert!(db.nodes().is_empty());
}

#[test]
fn recorded_preimage_covers_later_appends() {
    // Once a preimage is recorded, later batches may append history
    // for that key hash without carrying the preimage again.
    let db = fresh();
    let k = KeyHash(41);
    assert!(db.update_batch(write_batch(k, 1, Some(vec![1]))).is_ok());
    let mut b = TreeUpdateBatch::empty();
    b.history.push(HistoryEntry { key_hash: k, version: 2, value: Some(vec![2]) });
    assert!(db.update_batch(b).is_ok());
    assert_eq!(db.get(2, k), Some(vec![2]));
}
