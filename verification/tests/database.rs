use v1kpdb::db::V1Kpdb;
use v1kpdb::error::V1KpdbError;
use v1kpdb::tree::{child_indices, find_group_index, parent_index};

fn sample_db() -> V1Kpdb {
    let mut db =
        V1Kpdb::new("test.kdb".to_string(), Some(b"test".to_vec()), None).unwrap();
    db.create_group(b"Internet".to_vec(), None, Some(1), None).unwrap();
    db.create_group(b"mail".to_vec(), None, None, Some(0)).unwrap();
    db.create_group(b"misc".to_vec(), None, None, None).unwrap();
    db.create_entry(
        1,
        b"foo".to_vec(),
        None,
        Some(1),
        Some(b"http://example.test".to_vec()),
        Some(b"a comment".to_vec()),
        Some(b"user".to_vec()),
        Some(b"secret pw".to_vec()),
    )
    .unwrap();
    db.create_entry(2, b"bar".to_vec(), None, None, None, None, None, None).unwrap();
    db
}

#[test]
fn constructor_requires_a_factor() {
    assert_eq!(
        V1Kpdb::new("x".to_string(), None, None).unwrap_err(),
        V1KpdbError::EncFlagErr
    );
    assert!(V1Kpdb::new("x".to_string(), Some(b"p".to_vec()), None).is_ok());
    assert!(V1Kpdb::new("x".to_string(), None, Some(vec![7; 32])).is_ok());
}

#[test]
fn counters_follow_the_lists() {
    let mut db = sample_db();
    assert_eq!(db.header.num_groups, 3);
    assert_eq!(db.groups.len(), 3);
    assert_eq!(db.header.num_entries, 2);
    assert_eq!(db.entries.len(), 2);

    db.remove_entry(1).unwrap();
    assert_eq!(db.header.num_entries, 1);
    assert_eq!(db.entries.len(), 1);

    db.remove_group(2).unwrap();
    assert_eq!(db.header.num_groups, 2);
    assert_eq!(db.groups.len(), 2);
    assert_eq!(db.header.num_groups as usize, db.groups.len());
    assert_eq!(db.header.num_entries as usize, db.entries.len());
}

#[test]
fn tree_shape_after_creation() {
    let db = sample_db();
    // Pre-order: Internet (level 0), mail (level 1), misc (level 0).
    assert_eq!(db.groups[0].title, b"Internet".to_vec());
    assert_eq!(db.groups[0].level, 0);
    assert_eq!(db.groups[1].title, b"mail".to_vec());
    assert_eq!(db.groups[1].level, 1);
    assert_eq!(db.groups[2].title, b"misc".to_vec());
    assert_eq!(db.groups[2].level, 0);

    // Ids are fresh and non-zero.
    assert_eq!(db.groups[0].id, 1);
    assert_eq!(db.groups[1].id, 2);
    assert_eq!(db.groups[2].id, 3);

    // The parent of "mail" is "Internet"; "misc" is top-level.
    let p = parent_index(&db.groups, 1).unwrap();
    assert_eq!(db.groups[p].title, b"Internet".to_vec());
    assert!(parent_index(&db.groups, 2).is_none());
    assert_eq!(child_indices(&db.groups, 0), vec![1]);

    // Each entry points at its owning group.
    let o = find_group_index(&db.groups, db.entries[0].group_id).unwrap();
    assert_eq!(db.groups[o].title, b"mail".to_vec());
    let o2 = find_group_index(&db.groups, db.entries[1].group_id).unwrap();
    assert_eq!(db.groups[o2].title, b"misc".to_vec());
}

#[test]
fn removing_a_group_removes_its_subtree_and_entries() {
    let mut db = sample_db();
    // Removing "Internet" also removes its child "mail" and the
    // entry owned by "mail".
    db.remove_group(0).unwrap();
    assert_eq!(db.groups.len(), 1);
    assert_eq!(db.groups[0].title, b"misc".to_vec());
    assert_eq!(db.entries.len(), 1);
    assert_eq!(db.entries[0].title, b"bar".to_vec());
    assert_eq!(db.header.num_groups, 1);
    assert_eq!(db.header.num_entries, 1);

    assert_eq!(db.remove_group(5).unwrap_err(), V1KpdbError::WeakErr);
    assert_eq!(db.remove_entry(5).unwrap_err(), V1KpdbError::WeakErr);
}

#[test]
fn save_and_load_round_trip() {
    let mut db = sample_db();
    let bytes = db.save(None, None, None).unwrap();
    assert!(bytes.len() > 124);
    assert_eq!((bytes.len() - 124) % 16, 0);

    let mut db2 = V1Kpdb::new("copy.kdb".to_string(), Some(b"test".to_vec()), None).unwrap();
    db2.load(bytes.clone()).unwrap();

    assert_eq!(db2.header.num_groups, 3);
    assert_eq!(db2.header.num_entries, 2);
    assert_eq!(db2.groups.len(), 3);
    assert_eq!(db2.entries.len(), 2);
    for i in 0..3 {
        assert_eq!(db2.groups[i].title, db.groups[i].title);
        assert_eq!(db2.groups[i].id, db.groups[i].id);
        assert_eq!(db2.groups[i].level, db.groups[i].level);
        assert_eq!(db2.groups[i].image, db.groups[i].image);
        assert_eq!(db2.groups[i].creation, db.groups[i].creation);
        assert_eq!(db2.groups[i].expire, db.groups[i].expire);
    }
    assert_eq!(db2.entries[0].title, b"foo".to_vec());
    assert_eq!(db2.entries[0].url, b"http://example.test".to_vec());
    assert_eq!(db2.entries[0].username.plaintext_copy(), b"user".to_vec());
    assert_eq!(db2.entries[0].comment, b"a comment".to_vec());
    assert_eq!(db2.entries[0].uuid, db.entries[0].uuid);
    assert_eq!(db2.entries[0].group_id, db.entries[0].group_id);
    db2.entries[0].password.unlock();
    assert_eq!(db2.entries[0].password.unlocked_bytes().as_slice(), b"secret pw");
    db2.entries[0].password.lock();
    assert_eq!(db2.entries[1].title, b"bar".to_vec());

    // A second load of a fresh save agrees again.
    let bytes2 = db2.save(None, None, None).unwrap();
    let mut db3 = V1Kpdb::new("copy2.kdb".to_string(), Some(b"test".to_vec()), None).unwrap();
    db3.load(bytes2).unwrap();
    assert_eq!(db3.groups.len(), 3);
    assert_eq!(db3.entries.len(), 2);
}

#[test]
fn wrong_password_fails_the_hash_check() {
    let mut db = sample_db();
    let bytes = db.save(None, None, None).unwrap();

    let mut db2 = V1Kpdb::new("x.kdb".to_string(), Some(b"tes".to_vec()), None).unwrap();
    assert_eq!(db2.load(bytes).unwrap_err(), V1KpdbError::HashErr);
}

#[test]
fn malformed_files_are_rejected() {
    let mut db = sample_db();
    let bytes = db.save(None, None, None).unwrap();

    let mut db2 = V1Kpdb::new("x.kdb".to_string(), Some(b"test".to_vec()), None).unwrap();
    assert_eq!(db2.load(bytes[..100].to_vec()).unwrap_err(), V1KpdbError::ReadErr);

    let mut bad_sig = bytes.clone();
    bad_sig[0] ^= 0xFF;
    assert_eq!(db2.load(bad_sig).unwrap_err(), V1KpdbError::SignatureErr);

    let mut bad_body = bytes.clone();
    let last = bad_body.len() - 1;
    bad_body[last] ^= 0xFF;
    assert_eq!(db2.load(bad_body).unwrap_err(), V1KpdbError::HashErr);
}

#[test]
fn keyfile_factors() {
    // A 32-byte keyfile is used verbatim; saving under it and
    // loading with the same contents round-trips, while different
    // contents fail the hash check.
    let kf: Vec<u8> = (0..32).collect();
    let mut db = V1Kpdb::new("k.kdb".to_string(), None, Some(kf.clone())).unwrap();
    db.create_group(b"top".to_vec(), None, None, None).unwrap();
    let bytes = db.save(None, None, None).unwrap();

    let mut db2 = V1Kpdb::new("k.kdb".to_string(), None, Some(kf)).unwrap();
    db2.load(bytes.clone()).unwrap();
    assert_eq!(db2.groups[0].title, b"top".to_vec());

    let other: Vec<u8> = (1..33).collect();
    let mut db3 = V1Kpdb::new("k.kdb".to_string(), None, Some(other)).unwrap();
    assert_eq!(db3.load(bytes).unwrap_err(), V1KpdbError::HashErr);
}

#[test]
fn changing_factors_on_save() {
    let mut db = sample_db();
    // Clearing the only factor is refused before anything changes.
    assert_eq!(
        db.save(None, Some(Vec::new()), None).unwrap_err(),
        V1KpdbError::EncFlagErr
    );
    // Switching to a new password re-encrypts under it.
    let bytes = db.save(None, Some(b"other".to_vec()), None).unwrap();
    let mut db2 = V1Kpdb::new("y.kdb".to_string(), Some(b"other".to_vec()), None).unwrap();
    db2.load(bytes.clone()).unwrap();
    assert_eq!(db2.groups.len(), 3);
    let mut db3 = V1Kpdb::new("y.kdb".to_string(), Some(b"test".to_vec()), None).unwrap();
    assert_eq!(db3.load(bytes).unwrap_err(), V1KpdbError::HashErr);
}

#[test]
fn path_updates_on_save() {
    let mut db = sample_db();
    assert_eq!(db.path, "test.kdb".to_string());
    let _ = db.save(Some("moved.kdb".to_string()), None, None).unwrap();
    assert_eq!(db.path, "moved.kdb".to_string());
}

#[test]
fn create_group_rejects_a_missing_parent() {
    let mut db = sample_db();
    assert_eq!(
        db.create_group(b"orphan".to_vec(), None, None, Some(99)).unwrap_err(),
        V1KpdbError::WeakErr
    );
    assert_eq!(db.groups.len(), 3);
    assert_eq!(db.header.num_groups, 3);
    assert_eq!(db.header.num_entries, 2);
}

#[test]
fn fresh_ids_are_one_above_the_maximum() {
    let mut db = sample_db();
    // Ids 1, 2, 3 exist; removing the group with the largest id
    // frees it, so the next creation takes 3 again.
    db.remove_group(2).unwrap();
    db.create_group(b"again".to_vec(), None, None, None).unwrap();
    assert_eq!(db.groups[2].id, 3);
    // With 1, 2, 3 in use the next id is exactly 4.
    db.create_group(b"next".to_vec(), None, None, None).unwrap();
    assert_eq!(db.groups[3].id, 4);
}

#[test]
fn header_checks_run_in_order_on_load() {
    let mut db = sample_db();
    let bytes = db.save(None, None, None).unwrap();
    let mut db2 = V1Kpdb::new("x.kdb".to_string(), Some(b"test".to_vec()), None).unwrap();

    // A cleared AES bit in the encryption flags.
    let mut bad_flag = bytes.clone();
    bad_flag[8] = 0;
    assert_eq!(db2.load(bad_flag).unwrap_err(), V1KpdbError::EncFlagErr);

    // A wrong version word.
    let mut bad_version = bytes.clone();
    bad_version[14] = 0;
    assert_eq!(db2.load(bad_version).unwrap_err(), V1KpdbError::VersionErr);

    // When both the signature and the flags are wrong, the
    // signature check reports first.
    let mut bad_both = bytes.clone();
    bad_both[0] ^= 0xFF;
    bad_both[8] = 0;
    assert_eq!(db2.load(bad_both).unwrap_err(), V1KpdbError::SignatureErr);
}

#[test]
fn a_misshapen_ciphertext_is_a_decrypt_error() {
    let mut db = sample_db();
    let bytes = db.save(None, None, None).unwrap();
    let mut db2 = V1Kpdb::new("x.kdb".to_string(), Some(b"test".to_vec()), None).unwrap();

    // An empty ciphertext.
    assert_eq!(db2.load(bytes[..124].to_vec()).unwrap_err(), V1KpdbError::DecryptErr);
    // A ciphertext that is no whole number of blocks.
    assert_eq!(db2.load(bytes[..132].to_vec()).unwrap_err(), V1KpdbError::DecryptErr);
}

#[test]
fn children_are_listed_completely_and_in_order() {
    let mut db = V1Kpdb::new("t.kdb".to_string(), Some(b"p".to_vec()), None).unwrap();
    db.create_group(b"a".to_vec(), None, None, None).unwrap();
    db.create_group(b"c".to_vec(), None, None, Some(0)).unwrap();
    db.create_group(b"b".to_vec(), None, None, Some(0)).unwrap();
    // Pre-order now: a, b, c; adding a child under "b" must not
    // appear among the children of "a".
    db.create_group(b"g".to_vec(), None, None, Some(1)).unwrap();
    assert_eq!(db.groups[1].title, b"b".to_vec());
    assert_eq!(db.groups[2].title, b"g".to_vec());
    assert_eq!(child_indices(&db.groups, 0), vec![1, 3]);
    assert_eq!(child_indices(&db.groups, 1), vec![2]);
    assert_eq!(child_indices(&db.groups, 2), Vec::<usize>::new());
}

#[test]
fn absent_factor_arguments_keep_the_key() {
    let mut db = sample_db();
    // A save with no factor arguments leaves the password factor in
    // place: the old password still opens the fresh bytes, and a
    // keyfile handed to a later save replaces nothing it should not.
    let bytes = db.save(None, None, None).unwrap();
    let mut db2 = V1Kpdb::new("z.kdb".to_string(), Some(b"test".to_vec()), None).unwrap();
    db2.load(bytes).unwrap();

    // Adding a keyfile while keeping the password: both are needed.
    let kf: Vec<u8> = (0..32).collect();
    let bytes2 = db.save(None, None, Some(kf.clone())).unwrap();
    let mut both = V1Kpdb::new("z.kdb".to_string(), Some(b"test".to_vec()), Some(kf)).unwrap();
    both.load(bytes2.clone()).unwrap();
    let mut pw_only = V1Kpdb::new("z.kdb".to_string(), Some(b"test".to_vec()), None).unwrap();
    assert_eq!(pw_only.load(bytes2).unwrap_err(), V1KpdbError::HashErr);
}
