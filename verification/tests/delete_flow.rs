//! Cascading deletes and crash recovery through the journal.

use photo_catalog::journal::delete_album_authorized;
use photo_catalog::kv::{Store, TreeSel};
use photo_catalog::records::{File, FileMetadata};
use photo_catalog::journal::{Command, encode_command};
use photo_catalog::bytes::be8_bytes;

fn file_of(owner: &str, ts: i64, name: &str) -> File {
    File {
        owner_id: owner.as_bytes().to_vec(),
        width: 1,
        height: 2,
        metadata: FileMetadata {
            last_modified: ts,
            name: name.as_bytes().to_vec(),
            mime: b"*/*".to_vec(),
        },
    }
}

fn populated() -> (Store, Vec<u8>) {
    let mut store = Store::new_temporary().unwrap();
    store.create_user(b"u0", b"u0@example", b"h0").unwrap();
    store.create_session(b"u0", b"s0").unwrap();
    let key = b"u0.s0".to_vec();
    store.create_album(&key, b"u0", b"al", b"mine", b"UTC", 1).unwrap();
    let mut ids: Vec<Vec<u8>> = Vec::new();
    for n in 0..5 {
        let fid = format!("f{}", n).into_bytes();
        let f = file_of("u0", n as i64, &format!("n{}", n));
        store.upload_file(&key, b"u0", &fid, &f).unwrap();
        ids.push(fid);
    }
    store.add_remove_files(&key, b"u0", b"al", &ids, true, 2).unwrap();
    (store, key)
}

fn tree_len(store: &Store, t: TreeSel) -> usize {
    store.scan_prefix(t, b"").unwrap().len()
}

#[test]
fn album_delete_clears_everything_it_owns() {
    let (mut store, _key) = populated();
    Command::Album(b"al".to_vec()).run(&mut store).unwrap();
    assert!(store.get(TreeSel::Albums, b"al").unwrap().is_none());
    assert_eq!(tree_len(&store, TreeSel::UserToAlbum), 0);
    assert_eq!(tree_len(&store, TreeSel::AlbumToUser), 0);
    assert_eq!(tree_len(&store, TreeSel::Fragments), 0);
    assert_eq!(tree_len(&store, TreeSel::Inclusions), 0);
    assert_eq!(tree_len(&store, TreeSel::Journal), 0);
    // The files themselves survive an album delete.
    assert_eq!(tree_len(&store, TreeSel::Files), 5);
}

#[test]
fn file_delete_updates_every_album() {
    let (mut store, _key) = populated();
    let f = file_of("u0", 0, "n0");
    Command::File(b"f0".to_vec(), f).run(&mut store).unwrap();
    assert!(store.get(TreeSel::Files, b"f0").unwrap().is_none());
    assert!(store.get(TreeSel::FileNames, b"u0.n0").unwrap().is_none());
    assert!(store.get(TreeSel::Inclusions, b"f0.al").unwrap().is_none());
    let album = photo_catalog::records::decode_album(
        &store.get(TreeSel::Albums, b"al").unwrap().unwrap(),
    )
    .unwrap();
    assert_eq!(album.length, 4);
    assert_eq!(tree_len(&store, TreeSel::Journal), 0);
}

#[test]
fn user_delete_crash_replay() {
    let (mut store, _key) = populated();
    // A crash left the journalled user delete half done: the user row is
    // already gone, the cascades have not run.
    let id = store.generate_id().unwrap();
    store
        .tree_insert(
            TreeSel::Journal,
            &be8_bytes(id),
            &encode_command(&Command::User(b"u0".to_vec())),
        )
        .unwrap();
    store.delete_user_head(b"u0").unwrap();
    assert!(store.get(TreeSel::Users, b"u0").unwrap().is_none());
    assert_eq!(tree_len(&store, TreeSel::Journal), 1);

    Command::restore(&mut store).unwrap();

    assert_eq!(tree_len(&store, TreeSel::Users), 0);
    assert_eq!(tree_len(&store, TreeSel::Emails), 0);
    assert_eq!(tree_len(&store, TreeSel::Sessions), 0);
    assert_eq!(tree_len(&store, TreeSel::Albums), 0);
    assert_eq!(tree_len(&store, TreeSel::UserToAlbum), 0);
    assert_eq!(tree_len(&store, TreeSel::AlbumToUser), 0);
    assert_eq!(tree_len(&store, TreeSel::Fragments), 0);
    assert_eq!(tree_len(&store, TreeSel::Inclusions), 0);
    assert_eq!(tree_len(&store, TreeSel::Files), 0);
    assert_eq!(tree_len(&store, TreeSel::FileNames), 0);
    assert_eq!(tree_len(&store, TreeSel::Journal), 0);
}

#[test]
fn album_delete_requires_owner() {
    let (mut store, key) = populated();
    store.create_user(b"u1", b"u1@example", b"h1").unwrap();
    store.create_session(b"u1", b"s1").unwrap();
    store
        .share(&key, b"u0", b"al", b"u1@example", photo_catalog::wire::Role::Editor)
        .unwrap();
    // An editor may not delete the album; the owner may.
    assert_eq!(
        delete_album_authorized(&mut store, b"u1.s1", b"u1", b"al"),
        Err(photo_catalog::error::ApiError::Unauthorized)
    );
    assert!(store.get(TreeSel::Albums, b"al").unwrap().is_some());
    assert_eq!(
        delete_album_authorized(&mut store, b"u0.nosession", b"u0", b"al"),
        Err(photo_catalog::error::ApiError::Unauthorized)
    );
    delete_album_authorized(&mut store, &key, b"u0", b"al").unwrap();
    assert!(store.get(TreeSel::Albums, b"al").unwrap().is_none());
    assert_eq!(tree_len(&store, TreeSel::Fragments), 0);
    assert_eq!(tree_len(&store, TreeSel::Journal), 0);
}

#[test]
fn replay_is_idempotent() {
    let (mut store, _key) = populated();
    Command::User(b"u0".to_vec()).run(&mut store).unwrap();
    let before: Vec<usize> = vec![
        tree_len(&store, TreeSel::Users),
        tree_len(&store, TreeSel::Emails),
        tree_len(&store, TreeSel::Albums),
        tree_len(&store, TreeSel::Fragments),
        tree_len(&store, TreeSel::Files),
        tree_len(&store, TreeSel::Journal),
    ];
    // Replaying a completed cascade changes nothing.
    Command::restore(&mut store).unwrap();
    let after: Vec<usize> = vec![
        tree_len(&store, TreeSel::Users),
        tree_len(&store, TreeSel::Emails),
        tree_len(&store, TreeSel::Albums),
        tree_len(&store, TreeSel::Fragments),
        tree_len(&store, TreeSel::Files),
        tree_len(&store, TreeSel::Journal),
    ];
    assert_eq!(before, after);
    assert_eq!(after[5], 0);
}
