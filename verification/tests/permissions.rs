//! Permission mirroring, owner and name uniqueness, and the unshare cascade.

use photo_catalog::kv::{Store, TreeSel};
use photo_catalog::records::{File, FileMetadata};
use photo_catalog::wire::{Role, UserDetailsRef, IntoOwned};
use photo_catalog::error::ApiError;
use photo_catalog::store::{serve_fragment, Served};

fn file_of(owner: &str, ts: i64, name: &str) -> File {
    File {
        owner_id: owner.as_bytes().to_vec(),
        width: 1,
        height: 2,
        metadata: FileMetadata {
            last_modified: ts,
            name: name.as_bytes().to_vec(),
            mime: b"*/*".to_vec(),
        },
    }
}

fn two_user_setup() -> (Store, Vec<u8>, Vec<u8>) {
    let mut store = Store::new_temporary().unwrap();
    store.create_user(b"u0", b"u0@example", b"h0").unwrap();
    store.create_user(b"u1", b"u1@example", b"h1").unwrap();
    store.create_session(b"u0", b"s0").unwrap();
    store.create_session(b"u1", b"s1").unwrap();
    store.create_album(b"u0.s0", b"u0", b"al", b"shared", b"UTC", 1).unwrap();
    (store, b"u0.s0".to_vec(), b"u1.s1".to_vec())
}

#[test]
fn acl_mirror() {
    let (mut store, k0, _k1) = two_user_setup();
    // Creator's Owner role is mirrored in both trees.
    assert!(store.get(TreeSel::UserToAlbum, b"u0.al").unwrap().is_some());
    assert!(store.get(TreeSel::AlbumToUser, b"al.u0").unwrap().is_some());

    store.share(&k0, b"u0", b"al", b"u1@example", Role::Editor).unwrap();
    assert!(store.get(TreeSel::UserToAlbum, b"u1.al").unwrap().is_some());
    assert!(store.get(TreeSel::AlbumToUser, b"al.u1").unwrap().is_some());

    store.unshare(&k0, b"u0", b"al", b"u1@example", 9).unwrap();
    assert!(store.get(TreeSel::UserToAlbum, b"u1.al").unwrap().is_none());
    assert!(store.get(TreeSel::AlbumToUser, b"al.u1").unwrap().is_none());
}

#[test]
fn owner_is_unique() {
    let (mut store, k0, k1) = two_user_setup();
    // Owner may not be granted through sharing.
    assert_eq!(
        store.share(&k0, b"u0", b"al", b"u1@example", Role::Owner),
        Err(ApiError::Unauthorized)
    );
    // The owner's role may not be overwritten.
    store.share(&k0, b"u0", b"al", b"u1@example", Role::Editor).unwrap();
    assert_eq!(
        store.share(&k1, b"u1", b"al", b"u0@example", Role::Reader),
        Err(ApiError::BadRequest)
    );
    // The owner cannot be unshared.
    assert_eq!(store.unshare(&k1, b"u1", b"al", b"u0@example", 9), Err(ApiError::BadRequest));
    // Unsharing an unknown email reports NotFound.
    assert_eq!(store.unshare(&k0, b"u0", b"al", b"zz@example", 9), Err(ApiError::NotFound));
}

#[test]
fn file_name_uniqueness() {
    let (mut store, k0, _k1) = two_user_setup();
    let f = file_of("u0", 0, "same");
    store.upload_file(&k0, b"u0", b"fa", &f).unwrap();
    assert_eq!(store.get(TreeSel::FileNames, b"u0.same").unwrap(), Some(b"fa".to_vec()));
    let g = file_of("u0", 5, "same");
    assert_eq!(store.upload_file(&k0, b"u0", b"fb", &g), Err(ApiError::FileExists));
    // Another owner may reuse the name.
    let h = file_of("u1", 5, "same");
    store.upload_file(b"u1.s1", b"u1", b"fc", &h).unwrap();
}

#[test]
fn email_taken() {
    let mut store = Store::new_temporary().unwrap();
    store.create_user(b"u0", b"dup@example", b"h").unwrap();
    assert_eq!(store.create_user(b"u9", b"dup@example", b"h"), Err(ApiError::EmailTaken));
}

#[test]
fn session_required() {
    let mut store = Store::new_temporary().unwrap();
    store.create_user(b"u0", b"u0@example", b"h").unwrap();
    assert_eq!(
        store.create_album(b"u0.nosuch", b"u0", b"al", b"n", b"UTC", 1),
        Err(ApiError::Unauthorized)
    );
    store.create_session(b"u0", b"s0").unwrap();
    store.create_album(b"u0.s0", b"u0", b"al", b"n", b"UTC", 1).unwrap();
    store.remove_session(b"u0.s0").unwrap();
    assert_eq!(
        store.create_album(b"u0.s0", b"u0", b"al2", b"n", b"UTC", 1),
        Err(ApiError::Unauthorized)
    );
}

#[test]
fn unshare_removes_contributed_files() {
    let (mut store, k0, k1) = two_user_setup();
    store.share(&k0, b"u0", b"al", b"u1@example", Role::Editor).unwrap();

    let mine = file_of("u0", 0, "mine");
    let theirs = file_of("u1", 0, "theirs");
    store.upload_file(&k0, b"u0", b"fm", &mine).unwrap();
    store.upload_file(&k1, b"u1", b"ft", &theirs).unwrap();

    store.add_remove_files(&k0, b"u0", b"al", &vec![b"fm".to_vec()], true, 2).unwrap();
    store.add_remove_files(&k1, b"u1", b"al", &vec![b"ft".to_vec()], true, 3).unwrap();
    assert!(store.get(TreeSel::Inclusions, b"ft.al").unwrap().is_some());

    // A user may not add someone else's file.
    assert_eq!(
        store.add_remove_files(&k0, b"u0", b"al", &vec![b"ft".to_vec()], true, 4),
        Err(ApiError::Unauthorized)
    );

    store.unshare(&k0, b"u0", b"al", b"u1@example", 5).unwrap();
    // The target's inclusion edge and section entry are gone; the owner's stay.
    assert!(store.get(TreeSel::Inclusions, b"ft.al").unwrap().is_none());
    assert!(store.get(TreeSel::Inclusions, b"fm.al").unwrap().is_some());
    let album = photo_catalog::records::decode_album(
        &store.get(TreeSel::Albums, b"al").unwrap().unwrap(),
    )
    .unwrap();
    assert_eq!(album.length, 1);
}

#[test]
fn serve_requires_role() {
    let (mut store, k0, k1) = two_user_setup();
    match serve_fragment(&store, &k0, b"u0", b"al", Some(0)).unwrap() {
        Served::Fragment(b) => assert_eq!(b, b"[]".to_vec()),
        _ => panic!("expected fragment bytes"),
    }
    assert_eq!(
        match serve_fragment(&store, &k1, b"u1", b"al", Some(0)) {
            Err(e) => e,
            Ok(_) => panic!("expected denial"),
        },
        ApiError::Unauthorized
    );
    assert_eq!(
        match serve_fragment(&store, &k0, b"u0", b"al", Some(7)) {
            Err(e) => e,
            Ok(_) => panic!("expected missing fragment"),
        },
        ApiError::NotFound
    );
    match serve_fragment(&store, &k0, b"u0", b"al", None).unwrap() {
        Served::Metadata(album, role) => {
            assert_eq!(album.description.name, b"shared".to_vec());
            assert_eq!(role, Role::Owner);
        },
        _ => panic!("expected metadata"),
    }
}

#[test]
fn file_listing_pages_in_order() {
    let (mut store, k0, _k1) = two_user_setup();
    for n in 0..5 {
        let f = file_of("u0", n as i64, &format!("pic{}", n));
        store
            .upload_file(&k0, b"u0", format!("f{}", n).as_bytes(), &f)
            .unwrap();
    }
    let all = photo_catalog::store::list_files(&store, &k0, b"u0", b"pic", 0, 10).unwrap();
    assert_eq!(all.len(), 5);
    for (i, (name_key, fid)) in all.iter().enumerate() {
        assert_eq!(name_key, &format!("u0.pic{}", i).into_bytes());
        assert_eq!(fid, &format!("f{}", i).into_bytes());
    }
    let page = photo_catalog::store::list_files(&store, &k0, b"u0", b"pic", 2, 2).unwrap();
    assert_eq!(page.len(), 2);
    assert_eq!(page[0].0, b"u0.pic2".to_vec());
    assert_eq!(page[1].0, b"u0.pic3".to_vec());
    let none = photo_catalog::store::list_files(&store, &k0, b"u0", b"zzz", 0, 10).unwrap();
    assert_eq!(none.len(), 0);

    let listing = photo_catalog::store::list_albums(&store, &k0, b"u0").unwrap();
    assert_eq!(listing.len(), 1);
    assert_eq!(listing[0].0, b"al".to_vec());
    assert_eq!(listing[0].2, Role::Owner);
}

#[test]
fn return_cow() {
    fn helper() -> photo_catalog::wire::UserDetails {
        let email = "email";
        let password = ["pass", "word"].concat();
        UserDetailsRef { email, password: &password }.into_owned()
    }

    let user = helper();
    assert_eq!(&user.email, "email");
    assert_eq!(&user.password, "password");
}

#[test]
fn session_listing_and_prefix_logout() {
    let mut store = Store::new_temporary().unwrap();
    store.create_user(b"u0", b"u0@example", b"h0").unwrap();
    store.create_session(b"u0", b"phone1").unwrap();
    store.create_session(b"u0", b"phone2").unwrap();
    store.create_session(b"u0", b"laptop").unwrap();
    store.create_user(b"u1", b"u1@example", b"h1").unwrap();
    store.create_session(b"u1", b"phone1").unwrap();

    let listed = photo_catalog::store::list_sessions(&store, b"u0.laptop", b"u0").unwrap();
    assert_eq!(
        listed,
        vec![b"u0.laptop".to_vec(), b"u0.phone1".to_vec(), b"u0.phone2".to_vec()]
    );
    assert_eq!(
        photo_catalog::store::list_sessions(&store, b"u0.gone", b"u0"),
        Err(ApiError::Unauthorized)
    );

    // Removing by prefix ends both phone sessions, the caller's laptop stays,
    // and the other user's session with the same tail survives.
    photo_catalog::store::logout(&mut store, b"u0.laptop", b"phone").unwrap();
    assert!(store.get(TreeSel::Sessions, b"u0.phone1").unwrap().is_none());
    assert!(store.get(TreeSel::Sessions, b"u0.phone2").unwrap().is_none());
    assert!(store.get(TreeSel::Sessions, b"u0.laptop").unwrap().is_some());
    assert!(store.get(TreeSel::Sessions, b"u1.phone1").unwrap().is_some());

    // A key without a separator is malformed; an unknown session is refused.
    assert_eq!(
        photo_catalog::store::logout(&mut store, b"nodot", b"x"),
        Err(ApiError::BadRequest)
    );
    assert_eq!(
        photo_catalog::store::logout(&mut store, b"u0.gone", b"x"),
        Err(ApiError::Unauthorized)
    );
}

#[test]
fn change_password_rewrites_hash_and_ends_sessions() {
    let mut store = Store::new_temporary().unwrap();
    store.create_user(b"u0", b"u0@example", b"oldhash").unwrap();
    store.create_session(b"u0", b"s0").unwrap();
    store.create_session(b"u0", b"s1").unwrap();

    photo_catalog::store::change_password(&mut store, b"u0.s0", b"u0", b"newhash").unwrap();

    let user = photo_catalog::records::decode_user(
        &store.get(TreeSel::Users, b"u0").unwrap().unwrap(),
    )
    .unwrap();
    assert_eq!(user.email, b"u0@example".to_vec());
    assert_eq!(user.password, b"newhash".to_vec());
    // Every session of the user is gone, the caller's own included.
    assert!(store.get(TreeSel::Sessions, b"u0.s0").unwrap().is_none());
    assert!(store.get(TreeSel::Sessions, b"u0.s1").unwrap().is_none());

    assert_eq!(
        photo_catalog::store::change_password(&mut store, b"u0.s0", b"u0", b"x"),
        Err(ApiError::Unauthorized)
    );
    store.create_session(b"u0", b"s2").unwrap();
    assert_eq!(
        photo_catalog::store::change_password(&mut store, b"u0.s2", b"zz", b"x"),
        Err(ApiError::NotFound)
    );
}
