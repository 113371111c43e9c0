//! End-to-end scenarios of the Fragment Engine through the catalog store.

use photo_catalog::kv::{Store, TreeSel};
use photo_catalog::records::{File, FileMetadata, decode_album};
use photo_catalog::json::{encode_top, parse_top, parse_section, TopEntry};
use photo_catalog::engine::get_id;
use photo_catalog::tz::day_bucket;

const KOLKATA: &[u8] = b"Asia/Kolkata";

fn setup() -> (Store, Vec<u8>) {
    let mut store = Store::new_temporary().unwrap();
    store.create_user(b"u0", b"u0@example", b"hash").unwrap();
    store.create_session(b"u0", b"sess").unwrap();
    let key = b"u0.sess".to_vec();
    store.create_album(&key, b"u0", b"a", b"album_name", KOLKATA, 100).unwrap();
    (store, key)
}

fn dummy_file(num: i32, ts: i64, name: &str) -> File {
    File {
        owner_id: b"u0".to_vec(),
        width: 40 + 2 * num,
        height: 41 + 2 * num,
        metadata: FileMetadata {
            last_modified: ts,
            name: name.as_bytes().to_vec(),
            mime: b"*/*".to_vec(),
        },
    }
}

fn frag_count(store: &Store) -> usize {
    store.scan_prefix(TreeSel::Fragments, b"a.").unwrap().len()
}

fn frag(store: &Store, id: u64) -> Vec<u8> {
    store.get(TreeSel::Fragments, &get_id(b"a", id)).unwrap().unwrap()
}

fn album(store: &Store) -> photo_catalog::records::Album {
    decode_album(&store.get(TreeSel::Albums, b"a").unwrap().unwrap()).unwrap()
}

#[test]
fn empty_album() {
    let (store, _key) = setup();
    let frags = store.scan_prefix(TreeSel::Fragments, b"a.").unwrap();
    assert_eq!(frags.len(), 1);
    assert_eq!(frags[0].0, get_id(b"a", 0));
    assert_eq!(frags[0].1, b"[]".to_vec());
    let a = album(&store);
    assert_eq!(a.length, 0);
    assert_eq!(a.date_range, None);
    assert_eq!(a.fragment_head, 0);
}

#[test]
fn engine_add_remove() {
    let (mut store, key) = setup();
    assert_eq!(frag_count(&store), 1);

    let id_0 = dummy_file(0, 0, "name");
    let id_1 = dummy_file(1, 0, "name1");
    store.upload_file(&key, b"u0", b"id_0", &id_0).unwrap();
    store.upload_file(&key, b"u0", b"id_1", &id_1).unwrap();

    // A doubled id stages the same entry twice and keeps one copy.
    let ids = vec![b"id_0".to_vec(), b"id_0".to_vec(), b"id_1".to_vec()];
    store.add_remove_files(&key, b"u0", b"a", &ids, true, 200).unwrap();
    assert_eq!(frag_count(&store), 2);
    assert_eq!(frag(&store, 1), b"[[0,\"id_0\",40,41],[0,\"id_1\",42,43]]".to_vec());

    store
        .add_remove_files(&key, b"u0", b"a", &vec![b"id_0".to_vec()], false, 300)
        .unwrap();
    assert_eq!(frag_count(&store), 2);
    assert_eq!(frag(&store, 3), b"[[0,\"id_1\",42,43]]".to_vec());
    assert_eq!(album(&store).length, 1);

    let ids = vec![b"id_0".to_vec(), b"id_1".to_vec()];
    store.add_remove_files(&key, b"u0", b"a", &ids, false, 400).unwrap();
    assert_eq!(frag_count(&store), 1);
    assert_eq!(frag(&store, 5), b"[]".to_vec());
    let a = album(&store);
    assert_eq!(a.length, 0);
    assert_eq!(a.date_range, None);
}

#[test]
fn engine_empty_transaction() {
    let (mut store, key) = setup();
    let before = album(&store);
    store.add_remove_files(&key, b"u0", b"a", &Vec::new(), true, 999).unwrap();
    let after = album(&store);
    assert_eq!(after.fragment_head, 0);
    assert_eq!(after.length, 0);
    assert_eq!(after.last_update, before.last_update);
}

#[test]
fn engine() {
    let (mut store, key) = setup();
    let id_0 = dummy_file(0, 0, "name");
    let id_1 = dummy_file(1, 0, "name1");
    store.upload_file(&key, b"u0", b"id_0", &id_0).unwrap();
    store.upload_file(&key, b"u0", b"id_1", &id_1).unwrap();

    let ids = vec![b"id_0".to_vec(), b"id_1".to_vec()];
    store.add_remove_files(&key, b"u0", b"a", &ids, true, 200).unwrap();
    assert_eq!(frag(&store, 1), b"[[0,\"id_0\",40,41],[0,\"id_1\",42,43]]".to_vec());

    let bucket = day_bucket(0, KOLKATA).unwrap();
    let expected_top = encode_top(&vec![TopEntry { day: bucket, fragment_id: 1, length: 2 }]);
    assert_eq!(frag(&store, 2), expected_top);
    let a = album(&store);
    assert_eq!(a.fragment_head, 2);
    assert_eq!(a.length, 2);
    assert_eq!(a.date_range, Some((bucket, bucket)));
    assert_eq!(a.last_update, 200);

    store
        .add_remove_files(&key, b"u0", b"a", &vec![b"id_0".to_vec()], false, 300)
        .unwrap();
    assert_eq!(frag(&store, 3), b"[[0,\"id_1\",42,43]]".to_vec());
}

#[test]
fn rebucket() {
    let (mut store, key) = setup();
    // Three files over two Kolkata days: 0 and 10 fall on one local day,
    // 70000 on the next (the day starting at 66600).
    let specs: [(&[u8], i64); 3] = [(b"f0", 0), (b"f1", 10), (b"f2", 70000)];
    let mut ids: Vec<Vec<u8>> = Vec::new();
    for (n, (fid, ts)) in specs.iter().enumerate() {
        let f = dummy_file(n as i32, *ts, &format!("n{}", n));
        store.upload_file(&key, b"u0", fid, &f).unwrap();
        ids.push(fid.to_vec());
    }
    store.add_remove_files(&key, b"u0", b"a", &ids, true, 200).unwrap();

    let a = album(&store);
    let top = parse_top(&frag(&store, a.fragment_head)).unwrap();
    assert_eq!(top.len(), 2);
    assert_eq!(a.length, 3);

    // Patch the zone to UTC: a pure reshuffling of the same files.
    store.update_album(&key, b"u0", b"a", b"album_name", b"UTC", 300).unwrap();
    let a2 = album(&store);
    assert_eq!(a2.description.time_zone, b"UTC".to_vec());
    let top2 = parse_top(&frag(&store, a2.fragment_head)).unwrap();
    assert_eq!(top2.len(), 1);
    let mut total = 0;
    let mut seen: Vec<(Vec<u8>, i32, i32, i64)> = Vec::new();
    for te in &top2 {
        let entries = parse_section(&frag(&store, te.fragment_id)).unwrap();
        assert_eq!(entries.len(), te.length);
        total += entries.len();
        for e in entries {
            assert_eq!(day_bucket(e.time_stamp, b"UTC").unwrap(), te.day);
            seen.push((e.file_id, e.width, e.height, e.time_stamp));
        }
    }
    assert_eq!(total, 3);
    assert_eq!(a2.length, 3);
    // The multiset of (file_id, width, height, ts) is preserved.
    seen.sort();
    let mut expected = vec![
        (b"f0".to_vec(), 40, 41, 0i64),
        (b"f1".to_vec(), 42, 43, 10),
        (b"f2".to_vec(), 44, 45, 70000),
    ];
    expected.sort();
    assert_eq!(seen, expected);
}

#[test]
fn bad_zone_is_rejected() {
    let mut store = Store::new_temporary().unwrap();
    store.create_user(b"u0", b"u0@example", b"hash").unwrap();
    store.create_session(b"u0", b"sess").unwrap();
    let r = store.create_album(b"u0.sess", b"u0", b"a", b"n", b"Nowhere/Imaginary", 1);
    assert_eq!(r, Err(photo_catalog::error::ApiError::BadRequest));
}
