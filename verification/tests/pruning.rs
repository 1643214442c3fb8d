use state_db::{ChangeSet, CommitSet, Error, MetaDb, RefWindow};
use std::collections::HashMap;
use std::io;

struct TestDb {
    data: HashMap<u64, Vec<u8>>,
    meta: HashMap<Vec<u8>, Vec<u8>>,
}

impl MetaDb for TestDb {
    type Error = io::Error;

    fn get_meta(&self, key: &[u8]) -> Result<Option<Vec<u8>>, io::Error> {
        Ok(self.meta.get(key).cloned())
    }
}

impl TestDb {
    fn commit(&mut self, commit: &CommitSet<u64>) {
        for (k, v) in commit.data.inserted.iter() {
            self.data.insert(*k, v.clone());
        }
        for (k, v) in commit.meta.inserted.iter() {
            self.meta.insert(k.clone(), v.clone());
        }
        for k in commit.data.deleted.iter() {
            self.data.remove(k);
        }
        for k in commit.meta.deleted.iter() {
            self.meta.remove(k);
        }
    }

    fn data_eq(&self, other: &TestDb) -> bool {
        self.data == other.data
    }
}

/// The value stored under a key: the key as 32 bytes, most significant first.
fn value_of(key: u64) -> Vec<u8> {
    let mut value = vec![0u8; 24];
    value.extend_from_slice(&key.to_be_bytes());
    value
}

fn make_commit(inserted: &[u64], deleted: &[u64]) -> CommitSet<u64> {
    CommitSet {
        data: ChangeSet {
            inserted: inserted.iter().map(|k| (*k, value_of(*k))).collect(),
            deleted: deleted.to_vec(),
        },
        meta: ChangeSet::default(),
    }
}

fn make_db(inserted: &[u64]) -> TestDb {
    TestDb {
        data: inserted.iter().map(|k| (*k, value_of(*k))).collect(),
        meta: HashMap::new(),
    }
}

/// The rows of a window, the keys of each row in ascending order.
fn rows_of(pruning: &RefWindow) -> Vec<(u64, Vec<u8>, Vec<u64>)> {
    let mut rows = Vec::new();
    for index in 0..pruning.death_rows_len() {
        let (hash, journal_key, mut keys) = pruning.death_row(index).unwrap();
        keys.sort();
        rows.push((hash, journal_key, keys));
    }
    rows
}

fn check_journal(pruning: &RefWindow, db: &TestDb) {
    let restored = RefWindow::new(db).unwrap();
    assert_eq!(pruning.pending_number(), restored.pending_number());
    let rows = rows_of(pruning);
    assert_eq!(rows, rows_of(&restored));
    assert_eq!(pruning.death_index_len(), restored.death_index_len());
    for (_, _, keys) in rows.iter() {
        for key in keys.iter() {
            assert_eq!(pruning.death_block(key), restored.death_block(key));
        }
    }
}

const H1: u64 = 0x3001;
const H2: u64 = 0x3002;
const H3: u64 = 0x3003;

#[test]
fn pruning_created_from_empty_db() {
    let db = make_db(&[]);
    let pruning = RefWindow::new(&db).unwrap();
    assert_eq!(pruning.pending_number(), 0);
    assert_eq!(pruning.death_rows_len(), 0);
    assert_eq!(pruning.death_index_len(), 0);
    assert_eq!(pruning.pending(), 0);
    assert_eq!(pruning.window_size(), 0);
    assert_eq!(pruning.next_hash(), None);
    assert_eq!(pruning.mem_used(), 0);
}

#[test]
fn prune_one() {
    let mut db = make_db(&[1, 2, 3]);
    let mut pruning = RefWindow::new(&db).unwrap();
    let mut commit = make_commit(&[4, 5], &[1, 3]);
    let h = H1;
    assert!(!commit.data.deleted.is_empty());
    pruning.note_canonical(&h, &mut commit);
    db.commit(&commit);
    assert!(pruning.have_block(&h));
    pruning.apply_pending();
    assert!(pruning.have_block(&h));
    assert!(commit.data.deleted.is_empty());
    assert_eq!(pruning.death_rows_len(), 1);
    assert_eq!(pruning.death_index_len(), 2);
    assert!(db.data_eq(&make_db(&[1, 2, 3, 4, 5])));
    check_journal(&pruning, &db);

    let mut commit = CommitSet::default();
    pruning.prune_one(&mut commit);
    assert!(!pruning.have_block(&h));
    db.commit(&commit);
    pruning.apply_pending();
    assert!(!pruning.have_block(&h));
    assert!(db.data_eq(&make_db(&[2, 4, 5])));
    assert_eq!(pruning.death_rows_len(), 0);
    assert_eq!(pruning.death_index_len(), 0);
    assert_eq!(pruning.pending_number(), 1);
}

#[test]
fn prune_two() {
    let mut db = make_db(&[1, 2, 3]);
    let mut pruning = RefWindow::new(&db).unwrap();
    let mut commit = make_commit(&[3, 4], &[1]);
    pruning.note_canonical(&H1, &mut commit);
    db.commit(&commit);
    let mut commit = make_commit(&[5], &[2]);
    pruning.note_canonical(&H2, &mut commit);
    db.commit(&commit);
    pruning.apply_pending();
    assert!(db.data_eq(&make_db(&[1, 2, 3, 4, 5])));

    check_journal(&pruning, &db);

    let mut commit = CommitSet::default();
    pruning.prune_one(&mut commit);
    db.commit(&commit);
    pruning.apply_pending();
    assert!(db.data_eq(&make_db(&[2, 3, 4, 5])));
    let mut commit = CommitSet::default();
    pruning.prune_one(&mut commit);
    db.commit(&commit);
    pruning.apply_pending();
    assert!(db.data_eq(&make_db(&[3, 4, 5])));
    assert_eq!(pruning.pending_number(), 2);
}

#[test]
fn prune_two_pending() {
    let mut db = make_db(&[1, 2, 3]);
    let mut pruning = RefWindow::new(&db).unwrap();
    let mut commit = make_commit(&[4], &[1]);
    pruning.note_canonical(&H1, &mut commit);
    db.commit(&commit);
    let mut commit = make_commit(&[3, 5], &[2]);
    pruning.note_canonical(&H2, &mut commit);
    db.commit(&commit);
    assert!(db.data_eq(&make_db(&[1, 2, 3, 4, 5])));
    let mut commit = CommitSet::default();
    pruning.prune_one(&mut commit);
    db.commit(&commit);
    assert!(db.data_eq(&make_db(&[2, 3, 4, 5])));
    let mut commit = CommitSet::default();
    pruning.prune_one(&mut commit);
    db.commit(&commit);
    pruning.apply_pending();
    assert!(db.data_eq(&make_db(&[3, 4, 5])));
    assert_eq!(pruning.pending_number(), 2);
}

#[test]
fn reinserted_survives() {
    let mut db = make_db(&[1, 2, 3]);
    let mut pruning = RefWindow::new(&db).unwrap();
    let mut commit = make_commit(&[], &[2]);
    pruning.note_canonical(&H1, &mut commit);
    db.commit(&commit);
    let mut commit = make_commit(&[2], &[]);
    pruning.note_canonical(&H2, &mut commit);
    db.commit(&commit);
    let mut commit = make_commit(&[], &[2]);
    pruning.note_canonical(&H3, &mut commit);
    db.commit(&commit);
    assert!(db.data_eq(&make_db(&[1, 2, 3])));
    pruning.apply_pending();

    check_journal(&pruning, &db);

    let mut commit = CommitSet::default();
    pruning.prune_one(&mut commit);
    db.commit(&commit);
    assert!(db.data_eq(&make_db(&[1, 2, 3])));
    let mut commit = CommitSet::default();
    pruning.prune_one(&mut commit);
    db.commit(&commit);
    assert!(db.data_eq(&make_db(&[1, 2, 3])));
    pruning.prune_one(&mut commit);
    db.commit(&commit);
    assert!(db.data_eq(&make_db(&[1, 3])));
    pruning.apply_pending();
    assert_eq!(pruning.pending_number(), 3);
}

#[test]
fn reinserted_survivew_pending() {
    let mut db = make_db(&[1, 2, 3]);
    let mut pruning = RefWindow::new(&db).unwrap();
    let mut commit = make_commit(&[], &[2]);
    pruning.note_canonical(&H1, &mut commit);
    db.commit(&commit);
    let mut commit = make_commit(&[2], &[]);
    pruning.note_canonical(&H2, &mut commit);
    db.commit(&commit);
    let mut commit = make_commit(&[], &[2]);
    pruning.note_canonical(&H3, &mut commit);
    db.commit(&commit);
    assert!(db.data_eq(&make_db(&[1, 2, 3])));

    let mut commit = CommitSet::default();
    pruning.prune_one(&mut commit);
    db.commit(&commit);
    assert!(db.data_eq(&make_db(&[1, 2, 3])));
    let mut commit = CommitSet::default();
    pruning.prune_one(&mut commit);
    db.commit(&commit);
    assert!(db.data_eq(&make_db(&[1, 2, 3])));
    pruning.prune_one(&mut commit);
    db.commit(&commit);
    assert!(db.data_eq(&make_db(&[1, 3])));
    pruning.apply_pending();
    assert_eq!(pruning.pending_number(), 3);
}

#[test]
fn apply_pending_twice_changes_nothing() {
    let db = make_db(&[]);
    let mut pruning = RefWindow::new(&db).unwrap();
    let mut commit = make_commit(&[4], &[1, 2]);
    pruning.note_canonical(&H1, &mut commit);
    let mut commit = make_commit(&[], &[3]);
    pruning.note_canonical(&H2, &mut commit);
    let mut commit = CommitSet::default();
    pruning.prune_one(&mut commit);
    pruning.apply_pending();
    let rows = rows_of(&pruning);
    let (number, index, size) =
        (pruning.pending_number(), pruning.death_index_len(), pruning.window_size());
    assert_eq!((number, index, size), (1, 1, 1));
    pruning.apply_pending();
    assert_eq!(rows, rows_of(&pruning));
    assert_eq!(
        (number, index, size),
        (pruning.pending_number(), pruning.death_index_len(), pruning.window_size())
    );
    assert_eq!(pruning.death_block(&3), Some(1));
}

#[test]
fn prune_one_on_empty_window_does_nothing() {
    let db = make_db(&[]);
    let mut pruning = RefWindow::new(&db).unwrap();
    let mut commit = make_commit(&[1], &[2]);
    pruning.prune_one(&mut commit);
    assert_eq!(commit.data.deleted, vec![2]);
    assert!(commit.meta.inserted.is_empty());
    assert!(commit.meta.deleted.is_empty());
    assert_eq!(pruning.pending(), 0);
}

#[test]
fn revert_pending_drops_the_new_rows() {
    let db = make_db(&[]);
    let mut pruning = RefWindow::new(&db).unwrap();
    let mut commit = make_commit(&[], &[1]);
    pruning.note_canonical(&H1, &mut commit);
    pruning.apply_pending();
    let mut commit = make_commit(&[], &[2]);
    pruning.note_canonical(&H2, &mut commit);
    let mut commit = CommitSet::default();
    pruning.prune_one(&mut commit);
    assert_eq!(pruning.pending(), 1);
    pruning.revert_pending();
    assert_eq!(pruning.death_rows_len(), 1);
    assert_eq!(pruning.pending(), 0);
    assert!(pruning.have_block(&H1));
    assert!(!pruning.have_block(&H2));
    assert_eq!(pruning.death_block(&1), Some(0));
    assert_eq!(pruning.death_block(&2), None);
}

#[test]
fn window_journal_is_written_as_stored() {
    let db = make_db(&[]);
    let mut pruning = RefWindow::new(&db).unwrap();
    let mut commit = CommitSet {
        data: ChangeSet { inserted: vec![(4, vec![9])], deleted: vec![1] },
        meta: ChangeSet::default(),
    };
    pruning.note_canonical(&0x0102, &mut commit);
    let mut key = vec![0u8; 8];
    key.extend_from_slice(b"pruning_journal");
    assert_eq!(state_db::pruning::to_journal_key(0), key);
    let record = vec![
        0x02, 0x01, 0, 0, 0, 0, 0, 0, // hash
        0x04, 0x04, 0, 0, 0, 0, 0, 0, 0, // one inserted key
        0x04, 0x01, 0, 0, 0, 0, 0, 0, 0, // one deleted key
    ];
    assert_eq!(commit.meta.inserted, vec![(key.clone(), record)]);
    assert_eq!(commit.data.inserted, vec![(4, vec![9])]);
    let mut commit = CommitSet::default();
    pruning.prune_one(&mut commit);
    assert_eq!(commit.data.deleted, vec![1]);
    assert_eq!(commit.meta.inserted, vec![(b"last_pruned".to_vec(), vec![0u8; 8])]);
    assert_eq!(commit.meta.deleted, vec![key]);
}

#[test]
fn window_reads_the_last_pruned_block() {
    let mut db = make_db(&[]);
    db.meta.insert(b"last_pruned".to_vec(), vec![0x04, 0x01, 0, 0, 0, 0, 0, 0]);
    let pruning = RefWindow::new(&db).unwrap();
    assert_eq!(pruning.pending_number(), 0x0105);
    assert_eq!(pruning.pending(), 0x0105);

    db.meta.insert(b"last_pruned".to_vec(), vec![1, 2]);
    assert!(matches!(RefWindow::new(&db), Err(Error::Decoding)));
    db.meta.insert(b"last_pruned".to_vec(), vec![0xff; 8]);
    assert!(matches!(RefWindow::new(&db), Err(Error::Decoding)));

    let mut db = make_db(&[]);
    db.meta.insert(state_db::pruning::to_journal_key(0), vec![7]);
    assert!(matches!(RefWindow::new(&db), Err(Error::Decoding)));
}

#[test]
fn pruning_writes_the_number_of_the_block() {
    let mut db = make_db(&[]);
    db.meta.insert(b"last_pruned".to_vec(), vec![0x04, 0x01, 0, 0, 0, 0, 0, 0]);
    let mut pruning = RefWindow::new(&db).unwrap();
    assert!(pruning.has_room());
    let mut commit = make_commit(&[], &[7]);
    pruning.note_canonical(&H1, &mut commit);
    let mut key = vec![0x05, 0x01, 0, 0, 0, 0, 0, 0];
    key.extend_from_slice(b"pruning_journal");
    assert_eq!(commit.meta.inserted[0].0, key);
    db.commit(&commit);
    check_journal(&pruning, &db);
    let mut commit = CommitSet::default();
    pruning.prune_one(&mut commit);
    assert_eq!(
        commit.meta.inserted,
        vec![(b"last_pruned".to_vec(), vec![0x05, 0x01, 0, 0, 0, 0, 0, 0])]
    );
    assert_eq!(pruning.next_hash(), None);
    assert_eq!(pruning.pending(), 0x0106);
}

#[test]
fn next_hash_is_the_oldest_unpruned_block() {
    let db = make_db(&[]);
    let mut pruning = RefWindow::new(&db).unwrap();
    let mut commit = make_commit(&[], &[1]);
    pruning.note_canonical(&H1, &mut commit);
    let mut commit = make_commit(&[], &[2]);
    pruning.note_canonical(&H2, &mut commit);
    assert_eq!(pruning.next_hash(), Some(H1));
    assert_eq!(pruning.window_size(), 2);
    let mut commit = CommitSet::default();
    pruning.prune_one(&mut commit);
    assert_eq!(pruning.next_hash(), Some(H2));
    assert_eq!(pruning.window_size(), 1);
    assert!(!pruning.have_block(&H1));
    assert!(pruning.have_block(&H2));
}

#[test]
fn stored_last_pruned_block_opens_the_window() {
    let window = RefWindow::from_last_pruned::<io::Error>(&None).unwrap();
    assert_eq!(window.pending_number(), 0);
    let window =
        RefWindow::from_last_pruned::<io::Error>(&Some(vec![0xff, 0, 0, 0, 0, 0, 0, 0])).unwrap();
    assert_eq!(window.pending_number(), 0x100);
    assert_eq!(window.death_rows_len(), 0);
    assert!(matches!(
        RefWindow::from_last_pruned::<io::Error>(&Some(vec![0xff; 8])),
        Err(Error::Decoding)
    ));
    assert!(matches!(
        RefWindow::from_last_pruned::<io::Error>(&Some(vec![1, 2, 3])),
        Err(Error::Decoding)
    ));
}

#[test]
fn rows_are_read_under_their_journal_keys() {
    let mut db = make_db(&[]);
    db.meta.insert(b"last_pruned".to_vec(), vec![0x09, 0, 0, 0, 0, 0, 0, 0]);
    let mut pruning = RefWindow::new(&db).unwrap();
    let mut commit = make_commit(&[], &[1]);
    pruning.note_canonical(&H1, &mut commit);
    db.commit(&commit);
    let mut commit = make_commit(&[], &[2]);
    pruning.note_canonical(&H2, &mut commit);
    db.commit(&commit);
    let restored = RefWindow::new(&db).unwrap();
    assert_eq!(restored.death_rows_len(), 2);
    for index in 0..2 {
        let (_, journal_key, _) = restored.death_row(index).unwrap();
        assert_eq!(journal_key, state_db::pruning::to_journal_key(10 + index as u64));
    }
    // a missing entry ends the reading
    db.meta.remove(&state_db::pruning::to_journal_key(10));
    assert_eq!(RefWindow::new(&db).unwrap().death_rows_len(), 0);
}
