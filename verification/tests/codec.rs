//! Round trips of the fragment wire format and the persistence codec.

use photo_catalog::json::{encode_section, encode_top, parse_section, parse_top, SectionEntry,
    TopEntry};
use photo_catalog::records::{User, File, FileMetadata, AlbumSettings, Album, encode_user,
    decode_user, encode_file, decode_file, encode_album, decode_album, encode_role, decode_role};
use photo_catalog::journal::{Command, encode_command, decode_command};
use photo_catalog::wire::Role;
use photo_catalog::keys::{split_key, new_id, b64url_encode};

fn sentry(ts: i64, id: &str, w: i32, h: i32) -> SectionEntry {
    SectionEntry { time_stamp: ts, file_id: id.as_bytes().to_vec(), width: w, height: h }
}

#[test]
fn ser_de_section() {
    let s = vec![sentry(0, "a", 1, 2), sentry(3, "b", 4, 5)];
    let json = encode_section(&s);
    assert_eq!(b"[[0,\"a\",1,2],[3,\"b\",4,5]]".to_vec(), json);
    let s_de = parse_section(&json).unwrap();
    assert_eq!(s, s_de);
}

#[test]
fn engine_ser_de_section() {
    let s = vec![sentry(0, "a", 1, 2), sentry(3, "b", 4, 5)];
    let json = encode_section(&s);
    assert_eq!(b"[[0,\"a\",1,2],[3,\"b\",4,5]]".to_vec(), json);
    let s_de = parse_section(&json).unwrap();
    assert_eq!(s, s_de);
}

#[test]
fn ser_de_top() {
    let t = vec![
        TopEntry { day: 0, fragment_id: 4, length: 8 },
        TopEntry { day: 1, fragment_id: 5, length: 9 },
        TopEntry { day: 2, fragment_id: 6, length: 10 },
        TopEntry { day: 3, fragment_id: 7, length: 11 },
    ];
    let json = encode_top(&t);
    assert_eq!(b"[[0,4,8],[1,5,9],[2,6,10],[3,7,11]]".to_vec(), json);
    let t_de = parse_top(&json).unwrap();
    assert_eq!(t, t_de);
}

#[test]
fn engine_ser_de_top() {
    let t = vec![
        TopEntry { day: 0, fragment_id: 4, length: 8 },
        TopEntry { day: 1, fragment_id: 5, length: 9 },
        TopEntry { day: 2, fragment_id: 6, length: 10 },
    ];
    let json = encode_top(&t);
    assert_eq!(b"[[0,4,8],[1,5,9],[2,6,10]]".to_vec(), json);
    let t_de = parse_top(&json).unwrap();
    assert_eq!(t, t_de);
}

#[test]
fn empty_and_negative_fragments() {
    let empty: Vec<SectionEntry> = Vec::new();
    assert_eq!(b"[]".to_vec(), encode_section(&empty));
    assert_eq!(Some(empty), parse_section(b"[]"));
    let s = vec![sentry(-19800, "x-_9", -1, -2)];
    let json = encode_section(&s);
    assert_eq!(b"[[-19800,\"x-_9\",-1,-2]]".to_vec(), json);
    assert_eq!(Some(s), parse_section(&json));
    assert!(parse_section(b"[[0,\"a\",1,2]").is_none());
    assert!(parse_top(b"nonsense").is_none());
}

#[test]
fn record_round_trips() {
    let u = User { email: b"a@b.example".to_vec(), password: b"hash".to_vec() };
    assert_eq!(Some(u.clone()), decode_user(&encode_user(&u)));

    let f = File {
        owner_id: b"u0".to_vec(),
        width: -7,
        height: 1080,
        metadata: FileMetadata { last_modified: -3600, name: b"pic.jpg".to_vec(), mime: b"image/jpeg".to_vec() },
    };
    assert_eq!(Some(f.clone()), decode_file(&encode_file(&f)));

    let a = Album {
        description: AlbumSettings { name: b"holiday".to_vec(), time_zone: b"Asia/Kolkata".to_vec() },
        fragment_head: 42,
        length: 3,
        last_update: 1700000000,
        date_range: Some((-19800, 66600)),
    };
    assert_eq!(Some(a.clone()), decode_album(&encode_album(&a)));

    let a2 = Album { date_range: None, ..a };
    assert_eq!(Some(a2.clone()), decode_album(&encode_album(&a2)));

    assert_eq!(Some(Role::Owner), decode_role(&encode_role(&Role::Owner)));
    assert_eq!(Some(Role::Editor), decode_role(&encode_role(&Role::Editor)));
    assert_eq!(Some(Role::Reader), decode_role(&encode_role(&Role::Reader)));
    assert_eq!(None, decode_role(&[9]));
    assert!(decode_album(b"garbage").is_none());
}

#[test]
fn command_round_trips() {
    let c = Command::Album(b"al".to_vec());
    let b = encode_command(&c);
    assert!(matches!(decode_command(&b), Some(Command::Album(a)) if a == b"al".to_vec()));

    let f = File {
        owner_id: b"u0".to_vec(),
        width: 4,
        height: 5,
        metadata: FileMetadata { last_modified: 9, name: b"n".to_vec(), mime: b"m/m".to_vec() },
    };
    let c2 = Command::File(b"f0".to_vec(), f.clone());
    let b2 = encode_command(&c2);
    match decode_command(&b2) {
        Some(Command::File(fid, g)) => {
            assert_eq!(fid, b"f0".to_vec());
            assert_eq!(g, f);
        },
        _ => panic!("file command did not decode"),
    }

    let c3 = Command::User(b"u0".to_vec());
    let b3 = encode_command(&c3);
    assert!(matches!(decode_command(&b3), Some(Command::User(u)) if u == b"u0".to_vec()));
}

#[test]
fn keys_and_ids() {
    let (a, b) = split_key(b"u0.alb").unwrap();
    assert_eq!(a, b"u0".to_vec());
    assert_eq!(b, b"alb".to_vec());
    assert!(split_key(b"nodot").is_none());
    // names may contain dots; the split is at the first one
    let (o, n) = split_key(b"u0.pic.jpg").unwrap();
    assert_eq!(o, b"u0".to_vec());
    assert_eq!(n, b"pic.jpg".to_vec());

    assert_eq!(b64url_encode(&[]), b"".to_vec());
    assert_eq!(b64url_encode(&[251, 239, 190]), b"----".to_vec());
    assert_eq!(b64url_encode(&[0]), b"AA".to_vec());
    assert_eq!(b64url_encode(b"Man"), b"TWFu".to_vec());
    let id = new_id(16);
    assert_eq!(id.len(), 22);
    for byte in id {
        assert!(byte.is_ascii_alphanumeric() || byte == b'-' || byte == b'_');
    }
}
