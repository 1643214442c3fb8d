use state_db::{
    ChangeSet, CommitSet, Constraints, Error, KvDb, MetaDb, NodeDb, PinError, PruningMode,
    StateDbSync,
};
use std::collections::HashMap;
use std::io;

struct TestDb {
    data: HashMap<u64, Vec<u8>>,
    meta: HashMap<Vec<u8>, Vec<u8>>,
}

impl MetaDb for TestDb {
    type Error = io::Error;

    fn get_meta(&self, key: &[u8]) -> Result<Option<Vec<u8>>, io::Error> {
        Ok(self.meta.get(key).cloned())
    }
}

impl NodeDb for TestDb {
    type Error = io::Error;

    fn get(&self, key: &u64) -> Result<Option<Vec<u8>>, io::Error> {
        Ok(self.data.get(key).cloned())
    }
}

impl KvDb<u64> for TestDb {
    type Error = io::Error;

    fn get_kv(&self, _key: &[u8], _state: &u64) -> Result<Option<Vec<u8>>, io::Error> {
        Ok(Some(vec![1]))
    }

    fn get_kv_pairs(&self, _state: &u64) -> Vec<(Vec<u8>, Vec<u8>)> {
        vec![(vec![1], vec![2])]
    }
}

impl TestDb {
    fn commit(&mut self, commit: &CommitSet<u64>) {
        for (k, v) in commit.data.inserted.iter() {
            self.data.insert(*k, v.clone());
        }
        for (k, v) in commit.meta.inserted.iter() {
            self.meta.insert(k.clone(), v.clone());
        }
        for k in commit.data.deleted.iter() {
            self.data.remove(k);
        }
        for k in commit.meta.deleted.iter() {
            self.meta.remove(k);
        }
    }

    fn data_eq(&self, other: &TestDb) -> bool {
        self.data == other.data
    }
}

/// The value stored under a key: the key as 32 bytes, most significant first.
fn value_of(key: u64) -> Vec<u8> {
    let mut value = vec![0u8; 24];
    value.extend_from_slice(&key.to_be_bytes());
    value
}

fn make_changeset(inserted: &[u64], deleted: &[u64]) -> ChangeSet<u64> {
    ChangeSet {
        inserted: inserted.iter().map(|k| (*k, value_of(*k))).collect(),
        deleted: deleted.to_vec(),
    }
}

fn make_db(inserted: &[u64]) -> TestDb {
    TestDb {
        data: inserted.iter().map(|k| (*k, value_of(*k))).collect(),
        meta: HashMap::new(),
    }
}

fn make_test_db(settings: PruningMode) -> (TestDb, StateDbSync) {
    let mut db = make_db(&[91, 921, 922, 93, 94]);
    let mut state_db = StateDbSync::new(settings, &db).unwrap();

    db.commit(&state_db.insert_block::<io::Error>(&1, 1, &0, make_changeset(&[1], &[91])).unwrap());
    db.commit(
        &state_db.insert_block::<io::Error>(&21, 2, &1, make_changeset(&[21], &[921, 1])).unwrap(),
    );
    db.commit(
        &state_db.insert_block::<io::Error>(&22, 2, &1, make_changeset(&[22], &[922])).unwrap(),
    );
    db.commit(
        &state_db.insert_block::<io::Error>(&3, 3, &21, make_changeset(&[3], &[93])).unwrap(),
    );
    state_db.apply_pending();
    db.commit(&state_db.canonicalize_block::<io::Error>(&1).unwrap().0);
    state_db.apply_pending();
    db.commit(
        &state_db.insert_block::<io::Error>(&4, 4, &3, make_changeset(&[4], &[94])).unwrap(),
    );
    state_db.apply_pending();
    db.commit(&state_db.canonicalize_block::<io::Error>(&21).unwrap().0);
    state_db.apply_pending();
    db.commit(&state_db.canonicalize_block::<io::Error>(&3).unwrap().0);
    state_db.apply_pending();

    (db, state_db)
}

#[test]
fn full_archive_keeps_everything() {
    let (db, sdb) = make_test_db(PruningMode::ArchiveAll);
    assert!(db.data_eq(&make_db(&[1, 21, 22, 3, 4, 91, 921, 922, 93, 94])));
    assert!(!sdb.is_pruned(&0, 0));
}

#[test]
fn canonical_archive_keeps_canonical() {
    let (db, _) = make_test_db(PruningMode::ArchiveCanonical);
    assert!(db.data_eq(&make_db(&[1, 21, 3, 91, 921, 922, 93, 94])));
}

#[test]
fn prune_window_0() {
    let (db, _) = make_test_db(PruningMode::Constrained(Constraints {
        max_blocks: Some(0),
        max_mem: None,
    }));
    assert!(db.data_eq(&make_db(&[21, 3, 922, 94])));
}

#[test]
fn prune_window_1() {
    let (db, sdb) = make_test_db(PruningMode::Constrained(Constraints {
        max_blocks: Some(1),
        max_mem: None,
    }));
    assert!(sdb.is_pruned(&0, 0));
    assert!(sdb.is_pruned(&1, 1));
    assert!(sdb.is_pruned(&21, 2));
    assert!(sdb.is_pruned(&22, 2));
    assert!(db.data_eq(&make_db(&[21, 3, 922, 93, 94])));
}

#[test]
fn prune_window_2() {
    let (db, sdb) = make_test_db(PruningMode::Constrained(Constraints {
        max_blocks: Some(2),
        max_mem: None,
    }));
    assert!(sdb.is_pruned(&0, 0));
    assert!(sdb.is_pruned(&1, 1));
    assert!(!sdb.is_pruned(&21, 2));
    assert!(sdb.is_pruned(&22, 2));
    assert!(db.data_eq(&make_db(&[1, 21, 3, 921, 922, 93, 94])));
}

#[test]
fn detects_incompatible_mode() {
    let mut db = make_db(&[]);
    let mut state_db = StateDbSync::new(PruningMode::ArchiveAll, &db).unwrap();
    db.commit(&state_db.insert_block::<io::Error>(&0, 0, &0, make_changeset(&[], &[])).unwrap());
    let new_mode = PruningMode::Constrained(Constraints { max_blocks: Some(2), max_mem: None });
    let state_db = StateDbSync::new(new_mode, &db);
    assert!(state_db.is_err());
}

#[test]
fn incompatible_mode_names_the_stored_mode() {
    let mut db = make_db(&[]);
    db.meta.insert(b"mode".to_vec(), b"archive_canonical".to_vec());
    match StateDbSync::new(PruningMode::keep_blocks(3), &db) {
        Err(Error::InvalidPruningMode(stored)) => assert_eq!(stored, "archive_canonical"),
        _ => panic!("the stored mode is another one"),
    }
    assert!(StateDbSync::new(PruningMode::ArchiveCanonical, &db).is_ok());
}

#[test]
fn mode_is_stored_with_the_first_block() {
    let db = make_db(&[]);
    let mut state_db = StateDbSync::new(PruningMode::default(), &db).unwrap();
    let commit = state_db.insert_block::<io::Error>(&7, 0, &0, make_changeset(&[], &[])).unwrap();
    assert_eq!(commit.meta.inserted.len(), 2);
    assert_eq!(commit.meta.inserted[1], (b"mode".to_vec(), b"constrained".to_vec()));
    let commit = state_db.insert_block::<io::Error>(&8, 1, &7, make_changeset(&[], &[])).unwrap();
    assert_eq!(commit.meta.inserted.len(), 1);
}

#[test]
fn modes_and_their_ids() {
    assert_eq!(PruningMode::ArchiveAll.id(), b"archive");
    assert_eq!(PruningMode::ArchiveCanonical.id(), b"archive_canonical");
    assert_eq!(PruningMode::keep_blocks(5).id(), b"constrained");
    assert_eq!(
        PruningMode::keep_blocks(5),
        PruningMode::Constrained(Constraints { max_blocks: Some(5), max_mem: None })
    );
    assert_eq!(PruningMode::default(), PruningMode::keep_blocks(256));
    assert!(PruningMode::ArchiveAll.is_archive());
    assert!(PruningMode::ArchiveCanonical.is_archive());
    assert!(!PruningMode::keep_blocks(1).is_archive());
}

#[test]
fn archive_all_hands_the_changes_back() {
    let db = make_db(&[]);
    let mut state_db = StateDbSync::new(PruningMode::ArchiveAll, &db).unwrap();
    let commit = state_db.insert_block::<io::Error>(&1, 1, &0, make_changeset(&[5], &[6])).unwrap();
    assert_eq!(commit.data.inserted, vec![(5, value_of(5))]);
    assert!(commit.data.deleted.is_empty());
    assert!(commit.meta.inserted.is_empty());
    let (commit, number) = state_db.canonicalize_block::<io::Error>(&1).unwrap();
    assert_eq!(number, 0);
    assert!(commit.data.inserted.is_empty() && commit.meta.inserted.is_empty());
    assert!(state_db.revert_one().unwrap().meta.deleted.is_empty());
    assert_eq!(state_db.best_canonical(), None);
    assert!(state_db.pin(&99).is_ok());
}

#[test]
fn canonicalize_block_reports_the_number() {
    let db = make_db(&[]);
    let mut state_db = StateDbSync::new(PruningMode::keep_blocks(10), &db).unwrap();
    state_db.insert_block::<io::Error>(&1, 7, &0, make_changeset(&[1], &[])).unwrap();
    state_db.insert_block::<io::Error>(&2, 8, &1, make_changeset(&[2], &[1])).unwrap();
    assert!(matches!(state_db.canonicalize_block::<io::Error>(&2), Err(Error::InvalidBlock)));
    assert_eq!(state_db.best_canonical(), Some(6));
    let (commit, number) = state_db.canonicalize_block::<io::Error>(&1).unwrap();
    assert_eq!(number, 7);
    assert_eq!(commit.data.inserted, vec![(1, value_of(1))]);
    assert_eq!(state_db.best_canonical(), Some(7));
    let (commit, number) = state_db.canonicalize_block::<io::Error>(&2).unwrap();
    assert_eq!(number, 8);
    // the deletion is held back in the pruning window
    assert!(commit.data.deleted.is_empty());
    state_db.apply_pending();
    assert_eq!(state_db.best_canonical(), Some(8));
}

#[test]
fn pinning_blocks_pruning() {
    let mut db = make_db(&[91, 92]);
    let mut state_db = StateDbSync::new(PruningMode::keep_blocks(0), &db).unwrap();
    db.commit(&state_db.insert_block::<io::Error>(&1, 1, &0, make_changeset(&[1], &[91])).unwrap());
    db.commit(&state_db.insert_block::<io::Error>(&2, 2, &1, make_changeset(&[2], &[92])).unwrap());
    state_db.apply_pending();
    assert!(state_db.pin(&1).is_ok());
    db.commit(&state_db.canonicalize_block::<io::Error>(&1).unwrap().0);
    state_db.apply_pending();
    // block 1 is pinned: its row stays, and so does what it deleted
    assert!(!state_db.is_pruned(&1, 1));
    assert!(db.data_eq(&make_db(&[1, 91, 92])));
    db.commit(&state_db.canonicalize_block::<io::Error>(&2).unwrap().0);
    state_db.apply_pending();
    assert!(!state_db.is_pruned(&1, 1));
    assert!(!state_db.is_pruned(&2, 2));
    assert!(db.data_eq(&make_db(&[1, 2, 91, 92])));
    // a second hold is given up first
    assert!(state_db.pin(&1).is_ok());
    state_db.unpin(&1);
    db.commit(&state_db.insert_block::<io::Error>(&3, 3, &2, make_changeset(&[3], &[])).unwrap());
    db.commit(&state_db.canonicalize_block::<io::Error>(&3).unwrap().0);
    state_db.apply_pending();
    assert!(!state_db.is_pruned(&1, 1));
    state_db.unpin(&1);
    db.commit(&state_db.insert_block::<io::Error>(&4, 4, &3, make_changeset(&[4], &[])).unwrap());
    db.commit(&state_db.canonicalize_block::<io::Error>(&4).unwrap().0);
    state_db.apply_pending();
    assert!(state_db.is_pruned(&1, 1));
    assert!(state_db.is_pruned(&2, 2));
    assert!(db.data_eq(&make_db(&[1, 2, 3, 4])));
}

#[test]
fn pin_wants_a_block_of_a_window() {
    let db = make_db(&[]);
    let mut state_db = StateDbSync::new(PruningMode::ArchiveCanonical, &db).unwrap();
    assert_eq!(state_db.pin(&5), Err(PinError::InvalidBlock));
    state_db.insert_block::<io::Error>(&5, 1, &0, make_changeset(&[1], &[])).unwrap();
    assert_eq!(state_db.pin(&5), Ok(()));
    state_db.unpin(&6);
    state_db.unpin(&5);
    state_db.unpin(&5);
}

#[test]
fn fork_is_discarded() {
    let db = make_db(&[]);
    let mut state_db = StateDbSync::new(PruningMode::keep_blocks(10), &db).unwrap();
    state_db.insert_block::<io::Error>(&1, 1, &0, make_changeset(&[1], &[])).unwrap();
    state_db.insert_block::<io::Error>(&2, 1, &0, make_changeset(&[2], &[])).unwrap();
    state_db.insert_block::<io::Error>(&21, 2, &2, make_changeset(&[21], &[])).unwrap();
    state_db.insert_block::<io::Error>(&211, 3, &21, make_changeset(&[211], &[])).unwrap();
    state_db.insert_block::<io::Error>(&11, 2, &1, make_changeset(&[11], &[])).unwrap();
    state_db.canonicalize_block::<io::Error>(&1).unwrap();
    state_db.apply_pending();
    for (hash, number) in [(2, 1), (21, 2), (211, 3)] {
        assert!(state_db.is_pruned(&hash, number));
        assert_eq!(state_db.get(&hash, &db).unwrap(), None);
    }
    assert!(!state_db.is_pruned(&11, 2));
    assert_eq!(state_db.get(&11, &db).unwrap(), Some(value_of(11)));
}

#[test]
fn get_falls_back_to_the_database() {
    let db = make_db(&[7]);
    let mut state_db = StateDbSync::new(PruningMode::ArchiveCanonical, &db).unwrap();
    state_db
        .insert_block::<io::Error>(&1, 1, &0, ChangeSet { inserted: vec![(8, vec![1])], deleted: vec![] })
        .unwrap();
    assert_eq!(state_db.get(&8, &db).unwrap(), Some(vec![1]));
    assert_eq!(state_db.get(&7, &db).unwrap(), Some(value_of(7)));
    assert_eq!(state_db.get(&6, &db).unwrap(), None);
}

#[test]
fn key_value_column_is_not_kept() {
    let db = make_db(&[]);
    let state_db = StateDbSync::new(PruningMode::ArchiveCanonical, &db).unwrap();
    assert_eq!(state_db.get_kv(&[1], &((), 0), &db).unwrap(), None);
    assert!(state_db.get_kv_pairs(&((), 0), &db).is_empty());
    assert_eq!(state_db.get_branch_range(&1, 1), None);
}

#[test]
fn revert_pending_takes_insertions_back() {
    let db = make_db(&[]);
    let mut state_db = StateDbSync::new(PruningMode::keep_blocks(1), &db).unwrap();
    state_db.insert_block::<io::Error>(&1, 1, &0, make_changeset(&[1], &[])).unwrap();
    state_db.apply_pending();
    state_db.insert_block::<io::Error>(&2, 2, &1, make_changeset(&[2], &[])).unwrap();
    state_db.canonicalize_block::<io::Error>(&1).unwrap();
    state_db.revert_pending();
    assert_eq!(state_db.best_canonical(), Some(0));
    assert!(!state_db.is_pruned(&1, 1));
    assert!(state_db.is_pruned(&2, 2));
    assert_eq!(state_db.get(&2, &db).unwrap(), None);
    assert!(state_db.revert_one().is_some());
    assert!(state_db.revert_one().is_none());
}

#[test]
fn checks_before_calls() {
    let db = make_db(&[]);
    let mut state_db = StateDbSync::new(PruningMode::keep_blocks(1), &db).unwrap();
    let changeset = make_changeset(&[1], &[]);
    assert!(state_db.accepts_block(&1, &changeset));
    state_db.insert_block::<io::Error>(&1, 1, &0, changeset.clone()).unwrap();
    assert!(!state_db.accepts_block(&1, &changeset));
    assert!(state_db.can_canonicalize());
    assert!(state_db.can_pin(&1));
    let mut archive = StateDbSync::new(PruningMode::ArchiveAll, &db).unwrap();
    archive.insert_block::<io::Error>(&1, 1, &0, changeset.clone()).unwrap();
    assert!(archive.accepts_block(&1, &changeset));
}

struct BrokenDb;

impl MetaDb for BrokenDb {
    type Error = io::Error;

    fn get_meta(&self, _key: &[u8]) -> Result<Option<Vec<u8>>, io::Error> {
        Err(io::Error::new(io::ErrorKind::Other, "no database"))
    }
}

#[test]
fn opening_reports_what_the_database_gives() {
    assert!(matches!(StateDbSync::new(PruningMode::ArchiveAll, &BrokenDb), Err(Error::Db(_))));
    let mut db = make_db(&[]);
    db.meta.insert(b"last_pruned".to_vec(), vec![1]);
    // the pruning window is read under constraints only
    assert!(StateDbSync::new(PruningMode::ArchiveCanonical, &db).is_ok());
    assert!(matches!(StateDbSync::new(PruningMode::keep_blocks(1), &db), Err(Error::Decoding)));
    db.meta.insert(b"mode".to_vec(), b"archive".to_vec());
    assert!(matches!(
        StateDbSync::new(PruningMode::keep_blocks(1), &db),
        Err(Error::InvalidPruningMode(_))
    ));
}

#[test]
fn opened_state_database_continues_where_it_was() {
    let (db, sdb) = make_test_db(PruningMode::keep_blocks(2));
    let reopened = StateDbSync::new(PruningMode::keep_blocks(2), &db).unwrap();
    assert_eq!(reopened.best_canonical(), sdb.best_canonical());
    assert_eq!(reopened.best_canonical(), Some(3));
    for (hash, number) in [(1, 1), (21, 2), (22, 2), (3, 3), (4, 4)] {
        assert_eq!(reopened.is_pruned(&hash, number), sdb.is_pruned(&hash, number));
    }
    assert_eq!(reopened.get(&4, &db).unwrap(), Some(value_of(4)));
}
