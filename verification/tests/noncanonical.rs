use state_db::{ChangeSet, CommitSet, Error, MetaDb, NonCanonicalOverlay};
use std::collections::HashMap;
use std::io;

struct TestDb {
    data: HashMap<u64, Vec<u8>>,
    meta: HashMap<Vec<u8>, Vec<u8>>,
}

impl MetaDb for TestDb {
    type Error = io::Error;

    fn get_meta(&self, key: &[u8]) -> Result<Option<Vec<u8>>, io::Error> {
        Ok(self.meta.get(key).cloned())
    }
}

impl TestDb {
    fn commit(&mut self, commit: &CommitSet<u64>) {
        for (k, v) in commit.data.inserted.iter() {
            self.data.insert(*k, v.clone());
        }
        for (k, v) in commit.meta.inserted.iter() {
            self.meta.insert(k.clone(), v.clone());
        }
        for k in commit.data.deleted.iter() {
            self.data.remove(k);
        }
        for k in commit.meta.deleted.iter() {
            self.meta.remove(k);
        }
    }

    fn data_eq(&self, other: &TestDb) -> bool {
        self.data == other.data
    }
}

/// The value stored under a key: the key as 32 bytes, most significant first.
fn value_of(key: u64) -> Vec<u8> {
    let mut value = vec![0u8; 24];
    value.extend_from_slice(&key.to_be_bytes());
    value
}

fn make_changeset(inserted: &[u64], deleted: &[u64]) -> ChangeSet<u64> {
    ChangeSet {
        inserted: inserted.iter().map(|k| (*k, value_of(*k))).collect(),
        deleted: deleted.to_vec(),
    }
}

fn make_db(inserted: &[u64]) -> TestDb {
    TestDb {
        data: inserted.iter().map(|k| (*k, value_of(*k))).collect(),
        meta: HashMap::new(),
    }
}

fn contains(overlay: &NonCanonicalOverlay, key: u64) -> bool {
    overlay.get(&key) == Some(value_of(key))
}

/// Whether two overlays hold the same levels, parents and last canonicalized block.
fn same_tree(a: &NonCanonicalOverlay, b: &NonCanonicalOverlay) -> bool {
    if a.last_canonicalized() != b.last_canonicalized()
        || a.levels_len() != b.levels_len()
        || a.parents_len() != b.parents_len()
    {
        return false;
    }
    for level in 0..a.levels_len() {
        let hashes = a.level_hashes(level);
        if hashes != b.level_hashes(level) {
            return false;
        }
        for (index, hash) in hashes.iter().enumerate() {
            if a.block(level, index) != b.block(level, index)
                || a.parent_hash(hash) != b.parent_hash(hash)
            {
                return false;
            }
        }
    }
    true
}

const H1: u64 = 0x1001;
const H2: u64 = 0x1002;
const H3: u64 = 0x1003;

#[test]
fn noncanonical_created_from_empty_db() {
    let db = make_db(&[]);
    let overlay = NonCanonicalOverlay::new(&db).unwrap();
    assert_eq!(overlay.last_canonicalized(), None);
    assert_eq!(overlay.levels_len(), 0);
    assert_eq!(overlay.parents_len(), 0);
}

#[test]
#[should_panic]
fn canonicalize_empty_panics() {
    let db = make_db(&[]);
    let mut overlay = NonCanonicalOverlay::new(&db).unwrap();
    let mut commit = CommitSet::default();
    overlay.canonicalize::<io::Error>(&0, &mut commit).unwrap();
}

#[test]
#[should_panic]
fn insert_ahead_panics() {
    let db = make_db(&[]);
    let mut overlay = NonCanonicalOverlay::new(&db).unwrap();
    overlay.insert::<io::Error>(&H1, 2, &0, ChangeSet::default()).unwrap();
    overlay.insert::<io::Error>(&H2, 1, &H1, ChangeSet::default()).unwrap();
}

#[test]
#[should_panic]
fn insert_behind_panics() {
    let db = make_db(&[]);
    let mut overlay = NonCanonicalOverlay::new(&db).unwrap();
    overlay.insert::<io::Error>(&H1, 1, &0, ChangeSet::default()).unwrap();
    overlay.insert::<io::Error>(&H2, 3, &H1, ChangeSet::default()).unwrap();
}

#[test]
#[should_panic]
fn insert_unknown_parent_panics() {
    let db = make_db(&[]);
    let mut overlay = NonCanonicalOverlay::new(&db).unwrap();
    overlay.insert::<io::Error>(&H1, 1, &0, ChangeSet::default()).unwrap();
    overlay.insert::<io::Error>(&H2, 2, &0, ChangeSet::default()).unwrap();
}

#[test]
#[should_panic]
fn canonicalize_unknown_panics() {
    let db = make_db(&[]);
    let mut overlay = NonCanonicalOverlay::new(&db).unwrap();
    overlay.insert::<io::Error>(&H1, 1, &0, ChangeSet::default()).unwrap();
    let mut commit = CommitSet::default();
    overlay.canonicalize::<io::Error>(&H2, &mut commit).unwrap();
}

#[test]
fn insert_canonicalize_one() {
    let mut db = make_db(&[1, 2]);
    let mut overlay = NonCanonicalOverlay::new(&db).unwrap();
    let changeset = make_changeset(&[3, 4], &[2]);
    let insertion = overlay.insert::<io::Error>(&H1, 1, &0, changeset.clone()).unwrap();
    assert_eq!(insertion.data.inserted.len(), 0);
    assert_eq!(insertion.data.deleted.len(), 0);
    assert_eq!(insertion.meta.inserted.len(), 2);
    assert_eq!(insertion.meta.deleted.len(), 0);
    db.commit(&insertion);
    let mut finalization = CommitSet::default();
    overlay.canonicalize::<io::Error>(&H1, &mut finalization).unwrap();
    assert_eq!(finalization.data.inserted.len(), changeset.inserted.len());
    assert_eq!(finalization.data.deleted.len(), changeset.deleted.len());
    assert_eq!(finalization.meta.inserted.len(), 1);
    assert_eq!(finalization.meta.deleted.len(), 1);
    db.commit(&finalization);
    assert!(db.data_eq(&make_db(&[1, 3, 4])));
}

#[test]
fn restore_from_journal() {
    let mut db = make_db(&[1, 2]);
    let mut overlay = NonCanonicalOverlay::new(&db).unwrap();
    db.commit(&overlay.insert::<io::Error>(&H1, 10, &0, make_changeset(&[3, 4], &[2])).unwrap());
    db.commit(&overlay.insert::<io::Error>(&H2, 11, &H1, make_changeset(&[5], &[3])).unwrap());
    assert_eq!(db.meta.len(), 3);

    let overlay2 = NonCanonicalOverlay::new(&db).unwrap();
    assert!(same_tree(&overlay, &overlay2));
    assert_eq!(overlay.levels_len(), 2);
    assert_eq!(overlay2.last_canonicalized(), Some((0, 9)));
    assert!(contains(&overlay2, 3));
    assert!(contains(&overlay2, 5));
}

#[test]
fn restore_from_journal_after_canonicalize() {
    let mut db = make_db(&[1, 2]);
    let mut overlay = NonCanonicalOverlay::new(&db).unwrap();
    db.commit(&overlay.insert::<io::Error>(&H1, 10, &0, make_changeset(&[3, 4], &[2])).unwrap());
    db.commit(&overlay.insert::<io::Error>(&H2, 11, &H1, make_changeset(&[5], &[3])).unwrap());
    let mut commit = CommitSet::default();
    overlay.canonicalize::<io::Error>(&H1, &mut commit).unwrap();
    db.commit(&commit);
    overlay.apply_pending();
    assert_eq!(overlay.levels_len(), 1);

    let overlay2 = NonCanonicalOverlay::new(&db).unwrap();
    assert!(same_tree(&overlay, &overlay2));
    assert_eq!(overlay2.last_canonicalized(), Some((H1, 10)));
}

#[test]
fn insert_canonicalize_two() {
    let mut db = make_db(&[1, 2, 3, 4]);
    let mut overlay = NonCanonicalOverlay::new(&db).unwrap();
    let changeset1 = make_changeset(&[5, 6], &[2]);
    let changeset2 = make_changeset(&[7, 8], &[5, 3]);
    db.commit(&overlay.insert::<io::Error>(&H1, 1, &0, changeset1).unwrap());
    assert!(contains(&overlay, 5));
    db.commit(&overlay.insert::<io::Error>(&H2, 2, &H1, changeset2).unwrap());
    assert!(contains(&overlay, 7));
    assert!(contains(&overlay, 5));
    assert_eq!(overlay.levels_len(), 2);
    assert_eq!(overlay.parents_len(), 2);
    let mut commit = CommitSet::default();
    overlay.canonicalize::<io::Error>(&H1, &mut commit).unwrap();
    db.commit(&commit);
    assert!(contains(&overlay, 5));
    assert_eq!(overlay.levels_len(), 2);
    assert_eq!(overlay.parents_len(), 2);
    overlay.apply_pending();
    assert_eq!(overlay.levels_len(), 1);
    assert_eq!(overlay.parents_len(), 1);
    assert!(!contains(&overlay, 5));
    assert!(contains(&overlay, 7));
    let mut commit = CommitSet::default();
    overlay.canonicalize::<io::Error>(&H2, &mut commit).unwrap();
    db.commit(&commit);
    overlay.apply_pending();
    assert_eq!(overlay.levels_len(), 0);
    assert_eq!(overlay.parents_len(), 0);
    assert!(db.data_eq(&make_db(&[1, 4, 6, 7, 8])));
}

#[test]
fn insert_same_key() {
    let mut db = make_db(&[]);
    let (h_1, c_1) = (H1, make_changeset(&[1], &[]));
    let (h_2, c_2) = (H2, make_changeset(&[1], &[]));

    let mut overlay = NonCanonicalOverlay::new(&db).unwrap();
    db.commit(&overlay.insert::<io::Error>(&h_1, 1, &0, c_1).unwrap());
    db.commit(&overlay.insert::<io::Error>(&h_2, 1, &0, c_2).unwrap());
    assert!(contains(&overlay, 1));
    let mut commit = CommitSet::default();
    overlay.canonicalize::<io::Error>(&h_1, &mut commit).unwrap();
    db.commit(&commit);
    assert!(contains(&overlay, 1));
    overlay.apply_pending();
    assert!(!contains(&overlay, 1));
}

#[test]
fn insert_with_pending_canonicalization() {
    let mut db = make_db(&[]);
    let mut overlay = NonCanonicalOverlay::new(&db).unwrap();
    let changeset = make_changeset(&[], &[]);
    db.commit(&overlay.insert::<io::Error>(&H1, 1, &0, changeset.clone()).unwrap());
    db.commit(&overlay.insert::<io::Error>(&H2, 2, &H1, changeset.clone()).unwrap());
    overlay.apply_pending();
    let mut commit = CommitSet::default();
    overlay.canonicalize::<io::Error>(&H1, &mut commit).unwrap();
    overlay.canonicalize::<io::Error>(&H2, &mut commit).unwrap();
    db.commit(&commit);
    db.commit(&overlay.insert::<io::Error>(&H3, 3, &H2, changeset.clone()).unwrap());
    overlay.apply_pending();
    assert_eq!(overlay.levels_len(), 1);
}

#[test]
fn complex_tree() {
    let mut db = make_db(&[]);

    // - 1 - 1_1 - 1_1_1
    //     \ 1_2 - 1_2_1
    //           \ 1_2_2
    //           \ 1_2_3
    //
    // - 2 - 2_1 - 2_1_1
    //     \ 2_2
    //
    // 1_2_2 is the winner

    let (h_1, c_1) = (0x2001, make_changeset(&[1], &[]));
    let (h_2, c_2) = (0x2002, make_changeset(&[2], &[]));

    let (h_1_1, c_1_1) = (0x2011, make_changeset(&[11], &[]));
    let (h_1_2, c_1_2) = (0x2012, make_changeset(&[12], &[]));
    let (h_2_1, c_2_1) = (0x2021, make_changeset(&[21], &[]));
    let (h_2_2, c_2_2) = (0x2022, make_changeset(&[22], &[]));

    let (h_1_1_1, c_1_1_1) = (0x2111, make_changeset(&[111], &[]));
    let (h_1_2_1, c_1_2_1) = (0x2121, make_changeset(&[121], &[]));
    let (h_1_2_2, c_1_2_2) = (0x2122, make_changeset(&[122], &[]));
    let (h_1_2_3, c_1_2_3) = (0x2123, make_changeset(&[123], &[]));
    let (h_2_1_1, c_2_1_1) = (0x2211, make_changeset(&[211], &[]));

    let mut overlay = NonCanonicalOverlay::new(&db).unwrap();
    db.commit(&overlay.insert::<io::Error>(&h_1, 1, &0, c_1).unwrap());

    db.commit(&overlay.insert::<io::Error>(&h_1_1, 2, &h_1, c_1_1).unwrap());
    db.commit(&overlay.insert::<io::Error>(&h_1_2, 2, &h_1, c_1_2).unwrap());

    db.commit(&overlay.insert::<io::Error>(&h_2, 1, &0, c_2).unwrap());

    db.commit(&overlay.insert::<io::Error>(&h_2_1, 2, &h_2, c_2_1).unwrap());
    db.commit(&overlay.insert::<io::Error>(&h_2_2, 2, &h_2, c_2_2).unwrap());

    db.commit(&overlay.insert::<io::Error>(&h_1_1_1, 3, &h_1_1, c_1_1_1).unwrap());
    db.commit(&overlay.insert::<io::Error>(&h_1_2_1, 3, &h_1_2, c_1_2_1).unwrap());
    db.commit(&overlay.insert::<io::Error>(&h_1_2_2, 3, &h_1_2, c_1_2_2).unwrap());
    db.commit(&overlay.insert::<io::Error>(&h_1_2_3, 3, &h_1_2, c_1_2_3).unwrap());
    db.commit(&overlay.insert::<io::Error>(&h_2_1_1, 3, &h_2_1, c_2_1_1).unwrap());

    assert!(contains(&overlay, 2));
    assert!(contains(&overlay, 11));
    assert!(contains(&overlay, 21));
    assert!(contains(&overlay, 111));
    assert!(contains(&overlay, 122));
    assert!(contains(&overlay, 211));
    assert_eq!(overlay.levels_len(), 3);
    assert_eq!(overlay.parents_len(), 11);
    assert_eq!(overlay.last_canonicalized(), Some((0, 0)));

    // check if restoration from journal results in the same tree
    let overlay2 = NonCanonicalOverlay::new(&db).unwrap();
    assert!(same_tree(&overlay, &overlay2));

    // canonicalize 1. 2 and all its children should be discarded
    let mut commit = CommitSet::default();
    overlay.canonicalize::<io::Error>(&h_1, &mut commit).unwrap();
    db.commit(&commit);
    overlay.apply_pending();
    assert_eq!(overlay.levels_len(), 2);
    assert_eq!(overlay.parents_len(), 6);
    assert!(!contains(&overlay, 1));
    assert!(!contains(&overlay, 2));
    assert!(!contains(&overlay, 21));
    assert!(!contains(&overlay, 22));
    assert!(!contains(&overlay, 211));
    assert!(contains(&overlay, 111));
    // check that journals are deleted
    assert!(db.get_meta(&state_db::noncanonical::to_journal_key(1, 0)).unwrap().is_none());
    assert!(db.get_meta(&state_db::noncanonical::to_journal_key(1, 1)).unwrap().is_none());
    assert!(db.get_meta(&state_db::noncanonical::to_journal_key(2, 1)).unwrap().is_some());
    assert!(db.get_meta(&state_db::noncanonical::to_journal_key(2, 2)).unwrap().is_none());
    assert!(db.get_meta(&state_db::noncanonical::to_journal_key(2, 3)).unwrap().is_none());

    // canonicalize 1_2. 1_1 and all its children should be discarded
    let mut commit = CommitSet::default();
    overlay.canonicalize::<io::Error>(&h_1_2, &mut commit).unwrap();
    db.commit(&commit);
    overlay.apply_pending();
    assert_eq!(overlay.levels_len(), 1);
    assert_eq!(overlay.parents_len(), 3);
    assert!(!contains(&overlay, 11));
    assert!(!contains(&overlay, 111));
    assert!(contains(&overlay, 121));
    assert!(contains(&overlay, 122));
    assert!(contains(&overlay, 123));
    assert!(overlay.have_block(&h_1_2_1));
    assert!(!overlay.have_block(&h_1_2));
    assert!(!overlay.have_block(&h_1_1));
    assert!(!overlay.have_block(&h_1_1_1));

    // canonicalize 1_2_2
    let mut commit = CommitSet::default();
    overlay.canonicalize::<io::Error>(&h_1_2_2, &mut commit).unwrap();
    db.commit(&commit);
    overlay.apply_pending();
    assert_eq!(overlay.levels_len(), 0);
    assert_eq!(overlay.parents_len(), 0);
    assert!(db.data_eq(&make_db(&[1, 12, 122])));
    assert_eq!(overlay.last_canonicalized(), Some((h_1_2_2, 3)));
}

#[test]
fn insert_revert() {
    let mut db = make_db(&[1, 2, 3, 4]);
    let mut overlay = NonCanonicalOverlay::new(&db).unwrap();
    assert!(overlay.revert_one().is_none());
    let changeset1 = make_changeset(&[5, 6], &[2]);
    let changeset2 = make_changeset(&[7, 8], &[5, 3]);
    db.commit(&overlay.insert::<io::Error>(&H1, 1, &0, changeset1).unwrap());
    db.commit(&overlay.insert::<io::Error>(&H2, 2, &H1, changeset2).unwrap());
    assert!(contains(&overlay, 7));
    db.commit(&overlay.revert_one().unwrap());
    assert_eq!(overlay.parents_len(), 1);
    assert!(contains(&overlay, 5));
    assert!(!contains(&overlay, 7));
    db.commit(&overlay.revert_one().unwrap());
    assert_eq!(overlay.levels_len(), 0);
    assert_eq!(overlay.parents_len(), 0);
    assert!(overlay.revert_one().is_none());
}

#[test]
fn revert_pending_insertion() {
    let h2_1 = H2;
    let h2_2 = H3;
    let db = make_db(&[]);
    let mut overlay = NonCanonicalOverlay::new(&db).unwrap();
    let changeset1 = make_changeset(&[5, 6], &[2]);
    let changeset2 = make_changeset(&[7, 8], &[5, 3]);
    let changeset3 = make_changeset(&[9], &[]);
    overlay.insert::<io::Error>(&H1, 1, &0, changeset1).unwrap();
    assert!(contains(&overlay, 5));
    overlay.insert::<io::Error>(&h2_1, 2, &H1, changeset2).unwrap();
    overlay.insert::<io::Error>(&h2_2, 2, &H1, changeset3).unwrap();
    assert!(contains(&overlay, 7));
    assert!(contains(&overlay, 5));
    assert!(contains(&overlay, 9));
    assert_eq!(overlay.levels_len(), 2);
    assert_eq!(overlay.parents_len(), 3);
    overlay.revert_pending();
    assert!(!contains(&overlay, 5));
    assert_eq!(overlay.levels_len(), 0);
    assert_eq!(overlay.parents_len(), 0);
}

#[test]
fn keeps_pinned() {
    let mut db = make_db(&[]);

    // - 1 - 1_1
    //     \ 1_2

    let (h_1, c_1) = (H1, make_changeset(&[1], &[]));
    let (h_2, c_2) = (H2, make_changeset(&[2], &[]));

    let mut overlay = NonCanonicalOverlay::new(&db).unwrap();
    db.commit(&overlay.insert::<io::Error>(&h_1, 1, &0, c_1).unwrap());
    db.commit(&overlay.insert::<io::Error>(&h_2, 1, &0, c_2).unwrap());

    overlay.pin(&h_1);

    let mut commit = CommitSet::default();
    overlay.canonicalize::<io::Error>(&h_2, &mut commit).unwrap();
    db.commit(&commit);
    overlay.apply_pending();
    assert!(contains(&overlay, 1));
    overlay.unpin(&h_1);
    assert!(!contains(&overlay, 1));
}

#[test]
fn insert_reports_each_refusal() {
    let db = make_db(&[]);
    let mut overlay = NonCanonicalOverlay::new(&db).unwrap();
    overlay.insert::<io::Error>(&H1, 5, &7, ChangeSet::default()).unwrap();
    assert_eq!(overlay.last_canonicalized(), Some((7, 4)));
    // below the front level and above the next level
    assert!(matches!(
        overlay.insert::<io::Error>(&H2, 4, &7, ChangeSet::default()),
        Err(Error::InvalidBlockNumber)
    ));
    assert!(matches!(
        overlay.insert::<io::Error>(&H2, 7, &H1, ChangeSet::default()),
        Err(Error::InvalidBlockNumber)
    ));
    // at the front level the parent is the last canonicalized block
    assert!(matches!(
        overlay.insert::<io::Error>(&H2, 5, &8, ChangeSet::default()),
        Err(Error::InvalidParent)
    ));
    // above it the parent is in the window
    assert!(matches!(
        overlay.insert::<io::Error>(&H2, 6, &7, ChangeSet::default()),
        Err(Error::InvalidParent)
    ));
    // a refused insertion leaves the overlay as it was
    assert_eq!(overlay.levels_len(), 1);
    assert_eq!(overlay.parents_len(), 1);
    assert!(!overlay.have_block(&H2));
    overlay.insert::<io::Error>(&H2, 5, &7, ChangeSet::default()).unwrap();
    overlay.insert::<io::Error>(&H3, 6, &H2, ChangeSet::default()).unwrap();
    assert_eq!(overlay.level_hashes(0), vec![H1, H2]);
    assert_eq!(overlay.level_hashes(1), vec![H3]);
    assert_eq!(overlay.parent_hash(&H3), Some(H2));
}

#[test]
fn first_block_zero_adopts_no_parent() {
    let db = make_db(&[]);
    let mut overlay = NonCanonicalOverlay::new(&db).unwrap();
    let commit = overlay.insert::<io::Error>(&H1, 0, &99, ChangeSet::default()).unwrap();
    assert_eq!(commit.meta.inserted.len(), 1);
    assert_eq!(overlay.last_canonicalized(), None);
    assert_eq!(overlay.levels_len(), 1);
    // without a canonical block a number past the next level has no place
    assert!(matches!(
        overlay.insert::<io::Error>(&H2, 2, &H1, ChangeSet::default()),
        Err(Error::InvalidBlockNumber)
    ));
    overlay.insert::<io::Error>(&H2, 1, &H1, ChangeSet::default()).unwrap();
    assert_eq!(overlay.levels_len(), 2);
    let mut commit = CommitSet::default();
    assert_eq!(overlay.canonicalize::<io::Error>(&H1, &mut commit).unwrap(), 0);
    assert_eq!(overlay.last_canonicalized_block_number(), Some(1));
    overlay.apply_pending();
    assert_eq!(overlay.last_canonicalized(), Some((H1, 0)));
    assert_eq!(overlay.last_canonicalized_block_number(), Some(0));
}

#[test]
fn journal_entries_are_written_as_stored() {
    let db = make_db(&[]);
    let mut overlay = NonCanonicalOverlay::new(&db).unwrap();
    let changeset = ChangeSet { inserted: vec![(3, vec![0xaa, 0xbb])], deleted: vec![2] };
    let commit = overlay.insert::<io::Error>(&0x0102, 0x0a, &0x0b, changeset).unwrap();
    // the parent is adopted as the last canonicalized block
    let mut last_canonical = vec![0x0b, 0, 0, 0, 0, 0, 0, 0, 0x09, 0, 0, 0, 0, 0, 0, 0];
    assert_eq!(commit.meta.inserted[0], (b"last_canonical".to_vec(), last_canonical.clone()));
    // the journal key is the block number and the index, then the name
    let mut key = vec![0x0a, 0, 0, 0, 0, 0, 0, 0, 0, 0, 0, 0, 0, 0, 0, 0];
    key.extend_from_slice(b"noncanonical_journal");
    assert_eq!(commit.meta.inserted[1].0, key);
    assert_eq!(state_db::noncanonical::to_journal_key(0x0a, 0), key);
    // the record: hash, parent, the nodes and the deleted keys
    let record = vec![
        0x02, 0x01, 0, 0, 0, 0, 0, 0, // hash
        0x0b, 0, 0, 0, 0, 0, 0, 0, // parent
        0x04, // one node
        0x03, 0, 0, 0, 0, 0, 0, 0, // its key
        0x08, 0xaa, 0xbb, // its value of two bytes
        0x04, // one deleted key
        0x02, 0, 0, 0, 0, 0, 0, 0,
    ];
    assert_eq!(commit.meta.inserted[1].1, record);
    // canonicalizing writes the block with its number
    let mut finalization = CommitSet::default();
    assert_eq!(overlay.canonicalize::<io::Error>(&0x0102, &mut finalization).unwrap(), 0x0a);
    last_canonical = vec![0x02, 0x01, 0, 0, 0, 0, 0, 0, 0x0a, 0, 0, 0, 0, 0, 0, 0];
    assert_eq!(finalization.meta.inserted, vec![(b"last_canonical".to_vec(), last_canonical)]);
    assert_eq!(finalization.meta.deleted, vec![key]);
    assert_eq!(finalization.data.inserted, vec![(3, vec![0xaa, 0xbb])]);
    assert_eq!(finalization.data.deleted, vec![2]);
}

#[test]
fn undecodable_journal_is_an_error() {
    let mut db = make_db(&[]);
    db.meta.insert(b"last_canonical".to_vec(), vec![1, 2, 3]);
    assert!(matches!(NonCanonicalOverlay::new(&db), Err(Error::Decoding)));

    let mut db = make_db(&[]);
    let mut overlay = NonCanonicalOverlay::new(&db).unwrap();
    db.commit(&overlay.insert::<io::Error>(&H1, 1, &0, make_changeset(&[3], &[])).unwrap());
    db.meta.insert(state_db::noncanonical::to_journal_key(1, 0), vec![0xff]);
    assert!(matches!(NonCanonicalOverlay::new(&db), Err(Error::Decoding)));
}

#[test]
fn journal_with_a_block_twice_is_an_error() {
    let mut db = make_db(&[]);
    let mut overlay = NonCanonicalOverlay::new(&db).unwrap();
    db.commit(&overlay.insert::<io::Error>(&H1, 1, &0, make_changeset(&[3], &[])).unwrap());
    let record = db.meta.get(&state_db::noncanonical::to_journal_key(1, 0)).unwrap().clone();
    db.meta.insert(state_db::noncanonical::to_journal_key(1, 1), record);
    assert!(matches!(NonCanonicalOverlay::new(&db), Err(Error::Decoding)));
}

#[test]
fn revert_one_keeps_a_canonicalized_level() {
    let db = make_db(&[]);
    let mut overlay = NonCanonicalOverlay::new(&db).unwrap();
    overlay.insert::<io::Error>(&H1, 1, &0, make_changeset(&[5], &[])).unwrap();
    let mut commit = CommitSet::default();
    overlay.canonicalize::<io::Error>(&H1, &mut commit).unwrap();
    // the only level holds a pending canonicalization
    assert!(overlay.revert_one().is_none());
    assert_eq!(overlay.levels_len(), 1);
    overlay.revert_pending();
    assert_eq!(overlay.levels_len(), 0);
    assert!(!contains(&overlay, 5));
}

#[test]
fn reference_counts_follow_the_blocks() {
    let db = make_db(&[]);
    let mut overlay = NonCanonicalOverlay::new(&db).unwrap();
    // two forks insert key 1, one of them twice over two levels
    overlay.insert::<io::Error>(&H1, 1, &0, make_changeset(&[1], &[])).unwrap();
    overlay.insert::<io::Error>(&H2, 1, &0, make_changeset(&[1, 2], &[])).unwrap();
    overlay.insert::<io::Error>(&H3, 2, &H1, make_changeset(&[1], &[])).unwrap();
    overlay.apply_pending();
    let mut commit = CommitSet::default();
    overlay.canonicalize::<io::Error>(&H1, &mut commit).unwrap();
    overlay.apply_pending();
    // block 3 still refers to key 1; key 2 was only in the discarded fork
    assert!(contains(&overlay, 1));
    assert!(!contains(&overlay, 2));
    assert!(overlay.have_block(&H3));
    assert!(!overlay.have_block(&H2));
    assert!(overlay.revert_one().is_some());
    assert!(!contains(&overlay, 1));
}

#[test]
fn top_level_lists_the_next_level() {
    let db = make_db(&[]);
    let mut overlay = NonCanonicalOverlay::new(&db).unwrap();
    assert_eq!(overlay.top_level(), vec![]);
    overlay.insert::<io::Error>(&H1, 4, &0, ChangeSet::default()).unwrap();
    overlay.insert::<io::Error>(&H2, 4, &0, ChangeSet::default()).unwrap();
    overlay.insert::<io::Error>(&H3, 5, &H1, ChangeSet::default()).unwrap();
    assert_eq!(overlay.top_level(), vec![(H1, 3), (H2, 3)]);
    assert_eq!(overlay.last_canonicalized_hash(), Some(0));
    let mut commit = CommitSet::default();
    overlay.canonicalize::<io::Error>(&H1, &mut commit).unwrap();
    assert_eq!(overlay.top_level(), vec![(H3, 4)]);
    assert_eq!(overlay.get_branch_range(&H3), Some(()));
    assert_eq!(overlay.get_branch_range(&0x7777), None);
}

struct BrokenDb;

impl MetaDb for BrokenDb {
    type Error = io::Error;

    fn get_meta(&self, _key: &[u8]) -> Result<Option<Vec<u8>>, io::Error> {
        Err(io::Error::new(io::ErrorKind::Other, "no database"))
    }
}

#[test]
fn database_error_is_handed_on() {
    assert!(matches!(NonCanonicalOverlay::new(&BrokenDb), Err(Error::Db(_))));
}

#[test]
fn applying_twice_changes_nothing() {
    let db = make_db(&[]);
    let mut overlay = NonCanonicalOverlay::new(&db).unwrap();
    overlay.insert::<io::Error>(&H1, 1, &0, make_changeset(&[1], &[])).unwrap();
    overlay.insert::<io::Error>(&H2, 1, &0, make_changeset(&[2], &[])).unwrap();
    overlay.insert::<io::Error>(&H3, 2, &H1, make_changeset(&[3], &[])).unwrap();
    let mut commit = CommitSet::default();
    overlay.canonicalize::<io::Error>(&H1, &mut commit).unwrap();
    overlay.apply_pending();
    let once = NonCanonicalOverlay::new(&make_db(&[])).unwrap();
    assert!(!same_tree(&overlay, &once));
    let (canonical, levels, parents) =
        (overlay.last_canonicalized(), overlay.levels_len(), overlay.parents_len());
    let hashes = overlay.level_hashes(0);
    overlay.apply_pending();
    assert_eq!(
        (canonical, levels, parents),
        (overlay.last_canonicalized(), overlay.levels_len(), overlay.parents_len())
    );
    assert_eq!(hashes, overlay.level_hashes(0));
    assert_eq!(hashes, vec![H3]);
    assert!(contains(&overlay, 3));
    assert!(!contains(&overlay, 1));
}

#[test]
fn accepts_tells_when_insert_may_be_called() {
    let db = make_db(&[]);
    let mut overlay = NonCanonicalOverlay::new(&db).unwrap();
    let changeset = make_changeset(&[1, 1, 2], &[3]);
    assert!(overlay.accepts(&H1, &changeset));
    overlay.insert::<io::Error>(&H1, 1, &0, changeset.clone()).unwrap();
    // the block is in the window now
    assert!(!overlay.accepts(&H1, &changeset));
    assert!(overlay.accepts(&H2, &changeset));
}

#[test]
fn same_key_twice_in_a_block_counts_twice() {
    let db = make_db(&[]);
    let mut overlay = NonCanonicalOverlay::new(&db).unwrap();
    overlay.insert::<io::Error>(&H1, 1, &0, make_changeset(&[1, 1], &[])).unwrap();
    overlay.insert::<io::Error>(&H2, 2, &H1, make_changeset(&[1], &[])).unwrap();
    assert!(overlay.revert_one().is_some());
    assert!(contains(&overlay, 1));
    assert!(overlay.revert_one().is_some());
    assert!(!contains(&overlay, 1));
}

#[test]
fn first_value_of_a_key_is_kept() {
    let db = make_db(&[]);
    let mut overlay = NonCanonicalOverlay::new(&db).unwrap();
    let first = ChangeSet { inserted: vec![(1, vec![10])], deleted: vec![] };
    let second = ChangeSet { inserted: vec![(1, vec![20])], deleted: vec![] };
    overlay.insert::<io::Error>(&H1, 1, &0, first).unwrap();
    overlay.insert::<io::Error>(&H2, 1, &0, second).unwrap();
    assert_eq!(overlay.get(&1), Some(vec![10]));
}

#[test]
fn pin_of_an_unknown_block_keeps_nothing() {
    let db = make_db(&[]);
    let mut overlay = NonCanonicalOverlay::new(&db).unwrap();
    overlay.insert::<io::Error>(&H1, 1, &0, make_changeset(&[1], &[])).unwrap();
    overlay.insert::<io::Error>(&H2, 1, &0, make_changeset(&[2], &[])).unwrap();
    assert_eq!(overlay.pin(&0x9999), None);
    assert_eq!(overlay.pin(&H1), Some(()));
    let mut commit = CommitSet::default();
    overlay.canonicalize::<io::Error>(&H1, &mut commit).unwrap();
    overlay.apply_pending();
    // the canonicalized block was pinned, the discarded one was not
    assert!(contains(&overlay, 1));
    assert!(!contains(&overlay, 2));
}

#[test]
fn stored_last_canonical_block_opens_the_overlay() {
    let overlay = NonCanonicalOverlay::from_last_canonical::<io::Error>(&None).unwrap();
    assert_eq!(overlay.last_canonicalized(), None);
    assert_eq!(overlay.levels_len(), 0);
    let stored = vec![0x07, 0, 0, 0, 0, 0, 0, 0, 0x02, 0x01, 0, 0, 0, 0, 0, 0];
    let overlay = NonCanonicalOverlay::from_last_canonical::<io::Error>(&Some(stored)).unwrap();
    assert_eq!(overlay.last_canonicalized(), Some((7, 0x0102)));
    assert_eq!(overlay.last_canonicalized_block_number(), Some(0x0102));
    assert_eq!(overlay.levels_len(), 0);
    assert!(matches!(
        NonCanonicalOverlay::from_last_canonical::<io::Error>(&Some(vec![0; 15])),
        Err(Error::Decoding)
    ));
}

#[test]
fn journal_is_read_in_order_until_an_entry_is_missing() {
    let mut db = make_db(&[]);
    let mut overlay = NonCanonicalOverlay::new(&db).unwrap();
    db.commit(&overlay.insert::<io::Error>(&H1, 5, &0, make_changeset(&[1], &[])).unwrap());
    db.commit(&overlay.insert::<io::Error>(&H2, 5, &0, make_changeset(&[2], &[])).unwrap());
    db.commit(&overlay.insert::<io::Error>(&H3, 6, &H2, make_changeset(&[3], &[])).unwrap());
    let restored = NonCanonicalOverlay::new(&db).unwrap();
    assert_eq!(restored.level_hashes(0), vec![H1, H2]);
    assert_eq!(restored.level_hashes(1), vec![H3]);
    for (level, index, number) in [(0, 0, 5), (0, 1, 5), (1, 0, 6)] {
        let (journal_key, _, _) = restored.block(level, index).unwrap();
        assert_eq!(journal_key, state_db::noncanonical::to_journal_key(number, index as u64));
    }
    // without the first entry of a level the level and all after it are not read
    db.meta.remove(&state_db::noncanonical::to_journal_key(5, 0));
    let restored = NonCanonicalOverlay::new(&db).unwrap();
    assert_eq!(restored.levels_len(), 0);
    assert_eq!(restored.last_canonicalized(), Some((0, 4)));
}
