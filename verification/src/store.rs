//! Transactional catalog operations.
//!
//! Each public operation of the album/file/permission store is a body meant
//! to run inside one multi-tree transaction.  A body's contract says, over
//! the tree views it was handed, exactly which keys it writes and when it
//! rejects; `Store` (in `kv`) runs a body atomically and carries the same
//! contract over the whole catalog.

use vstd::prelude::*;
use crate::error::ApiError;
use crate::kv::{TxMap, Fault};
use crate::keys::{compose, prefixed, compose_key, valid_id, has_prefix};
use crate::records::{
    User, UserV, File, FileV, Album, AlbumV, enc_user, enc_user_v, enc_file, enc_file_v,
    enc_album, enc_album_v, enc_role, dec_user_v, dec_file_v, dec_album_v, dec_role_v, encode_user,
    encode_file, encode_album, encode_role, decode_user, decode_file, decode_album, decode_role,
    lemma_enc_user_v, lemma_enc_file_v, lemma_enc_album_v,
};
use crate::engine::{Engine, frag_key, album_inv, spec_commit, stage, day_base, all_ids, cleared_cache};
use crate::json::{enc_top, SectionEntryV};
use crate::tz::{day_of, zone_ok, zone_exists};
use crate::wire::Role;

verus! {

/// The catalog: one map per tree.
pub struct StoreView {
    pub users: Map<Seq<u8>, Seq<u8>>,
    pub emails: Map<Seq<u8>, Seq<u8>>,
    pub sessions: Map<Seq<u8>, Seq<u8>>,
    pub files: Map<Seq<u8>, Seq<u8>>,
    pub file_names: Map<Seq<u8>, Seq<u8>>,
    pub albums: Map<Seq<u8>, Seq<u8>>,
    pub user_to_album: Map<Seq<u8>, Seq<u8>>,
    pub album_to_user: Map<Seq<u8>, Seq<u8>>,
    pub inclusions: Map<Seq<u8>, Seq<u8>>,
    pub fragments: Map<Seq<u8>, Seq<u8>>,
    pub journal: Map<Seq<u8>, Seq<u8>>,
}

/// A session key authenticates when present in `sessions`.
pub open spec fn logged_in(v: StoreView, key: Seq<u8>) -> bool {
    v.sessions.contains_key(key)
}

/// The role a user holds on an album, if any.
pub open spec fn role_of(v: StoreView, uid: Seq<u8>, aid: Seq<u8>) -> Option<Role> {
    if v.user_to_album.contains_key(compose(uid, aid)) {
        dec_role_v(v.user_to_album[compose(uid, aid)])
    } else {
        None
    }
}

pub open spec fn can_write(v: StoreView, uid: Seq<u8>, aid: Seq<u8>) -> bool {
    match role_of(v, uid, aid) {
        Some(r) => r == Role::Owner || r == Role::Editor,
        None => false,
    }
}

/// Sign-up: insert the user and the unique-email index together.
pub open spec fn spec_create_user(
    v: StoreView,
    uid: Seq<u8>,
    email: Seq<u8>,
    password: Seq<u8>,
) -> (StoreView, Result<(), ApiError>) {
    if v.emails.contains_key(email) {
        (v, Err(ApiError::EmailTaken))
    } else if v.users.contains_key(uid) {
        (v, Err(ApiError::BadRequest))
    } else {
        (
            StoreView {
                emails: v.emails.insert(email, uid),
                users: v.users.insert(uid, enc_user_v(UserV { email, password })),
                ..v
            },
            Ok(()),
        )
    }
}

pub fn create_user_body(
    users: &mut TxMap,
    emails: &mut TxMap,
    uid: &[u8],
    email: &[u8],
    password: &[u8],
) -> (r: Result<(), Fault>)
    ensures
        ({
            let (v2, res) = spec_create_user(
                StoreView { users: old(users)@, emails: old(emails)@, ..arbitrary() },
                uid@,
                email@,
                password@,
            );
            match r {
                Ok(u) => res == Ok::<(), ApiError>(()) && final(users)@ == v2.users && final(emails)@ == v2.emails,
                Err(Fault::User(e)) => res == Err::<(), ApiError>(e),
                Err(Fault::Store(f)) => true,
            }
        }),
{
    match emails.get(email) {
        Ok(Some(prev)) => {
            return Err(Fault::User(ApiError::EmailTaken));
        },
        Ok(None) => {},
        Err(f) => {
            return Err(f);
        },
    }
    match users.get(uid) {
        Ok(Some(prev)) => {
            return Err(Fault::User(ApiError::BadRequest));
        },
        Ok(None) => {},
        Err(f) => {
            return Err(f);
        },
    }
    match emails.insert(email, uid) {
        Ok(u) => {},
        Err(f) => {
            return Err(f);
        },
    }
    let mut em: Vec<u8> = Vec::new();
    em.extend_from_slice(email);
    let mut pw: Vec<u8> = Vec::new();
    pw.extend_from_slice(password);
    let u = User { email: em, password: pw };
    let bytes = encode_user(&u);
    proof {
        lemma_enc_user_v(u);
        assert(em@ =~= email@);
        assert(pw@ =~= password@);
        assert(u@ == UserV { email: email@, password: password@ });
    }
    match users.insert(uid, bytes.as_slice()) {
        Ok(u) => {},
        Err(f) => {
            return Err(f);
        },
    }
    Ok(())
}

/// Session issuance: record `user_id '.' session_key` for an existing user.
pub open spec fn spec_create_session(v: StoreView, uid: Seq<u8>, skey: Seq<u8>) -> (
    StoreView,
    Result<(), ApiError>,
) {
    if !v.users.contains_key(uid) {
        (v, Err(ApiError::Unauthorized))
    } else {
        (StoreView { sessions: v.sessions.insert(compose(uid, skey), Seq::empty()), ..v }, Ok(()))
    }
}

pub fn create_session_body(
    users: &mut TxMap,
    sessions: &mut TxMap,
    uid: &[u8],
    skey: &[u8],
) -> (r: Result<(), Fault>)
    ensures
        ({
            let (v2, res) = spec_create_session(
                StoreView { users: old(users)@, sessions: old(sessions)@, ..arbitrary() },
                uid@,
                skey@,
            );
            match r {
                Ok(u) => res == Ok::<(), ApiError>(()) && final(sessions)@ == v2.sessions && final(users)@ == old(users)@,
                Err(Fault::User(e)) => res == Err::<(), ApiError>(e),
                Err(Fault::Store(f)) => true,
            }
        }),
{
    match users.get(uid) {
        Ok(Some(b)) => {},
        Ok(None) => {
            return Err(Fault::User(ApiError::Unauthorized));
        },
        Err(f) => {
            return Err(f);
        },
    }
    let key = compose_key(uid, skey);
    let empty: Vec<u8> = Vec::new();
    match sessions.insert(key.as_slice(), empty.as_slice()) {
        Ok(u) => {
            proof {
                assert(empty@ =~= Seq::<u8>::empty());
            }
            Ok(())
        },
        Err(f) => Err(f),
    }
}

/// Logout: forget one session key.
pub open spec fn spec_remove_session(v: StoreView, key: Seq<u8>) -> (StoreView, Result<
    (),
    ApiError,
>) {
    (StoreView { sessions: v.sessions.remove(key), ..v }, Ok(()))
}

pub fn remove_session_body(sessions: &mut TxMap, key: &[u8]) -> (r: Result<(), Fault>)
    ensures
        ({
            let (v2, res) = spec_remove_session(
                StoreView { sessions: old(sessions)@, ..arbitrary() },
                key@,
            );
            match r {
                Ok(u) => final(sessions)@ == v2.sessions,
                Err(Fault::User(e)) => false,
                Err(Fault::Store(f)) => true,
            }
        }),
{
    match sessions.remove(key) {
        Ok(u) => Ok(()),
        Err(f) => Err(f),
    }
}

/// Album creation: an empty Top at fragment id 0, the album record, and the
/// creator's Owner role mirrored in both permission trees.
pub open spec fn spec_create_album(
    v: StoreView,
    key: Seq<u8>,
    uid: Seq<u8>,
    aid: Seq<u8>,
    name: Seq<u8>,
    zone: Seq<u8>,
    now: int,
) -> (StoreView, Result<(), ApiError>) {
    if !logged_in(v, key) {
        (v, Err(ApiError::Unauthorized))
    } else if !v.users.contains_key(uid) {
        (v, Err(ApiError::Unauthorized))
    } else if !zone_ok(zone) {
        (v, Err(ApiError::BadRequest))
    } else if v.albums.contains_key(aid) {
        (v, Err(ApiError::BadRequest))
    } else {
        (
            StoreView {
                albums: v.albums.insert(
                    aid,
                    enc_album_v(
                        AlbumV {
                            name,
                            time_zone: zone,
                            fragment_head: 0,
                            length: 0,
                            last_update: now,
                            date_range: None,
                        },
                    ),
                ),
                fragments: v.fragments.insert(frag_key(aid, 0), enc_top(Seq::empty())),
                user_to_album: v.user_to_album.insert(compose(uid, aid), enc_role(Role::Owner)),
                album_to_user: v.album_to_user.insert(compose(aid, uid), Seq::empty()),
                ..v
            },
            Ok(()),
        )
    }
}

pub fn create_album_body(
    sessions: &mut TxMap,
    users: &mut TxMap,
    albums: &mut TxMap,
    fragments: &mut TxMap,
    user_to_album: &mut TxMap,
    album_to_user: &mut TxMap,
    key: &[u8],
    uid: &[u8],
    aid: &[u8],
    name: &[u8],
    zone: &[u8],
    now: i64,
) -> (r: Result<(), Fault>)
    ensures
        ({
            let (v2, res) = spec_create_album(
                StoreView {
                    sessions: old(sessions)@,
                    users: old(users)@,
                    albums: old(albums)@,
                    fragments: old(fragments)@,
                    user_to_album: old(user_to_album)@,
                    album_to_user: old(album_to_user)@,
                    ..arbitrary()
                },
                key@,
                uid@,
                aid@,
                name@,
                zone@,
                now as int,
            );
            match r {
                Ok(u) => res == Ok::<(), ApiError>(()) && final(albums)@ == v2.albums && final(fragments)@ == v2.fragments && final(user_to_album)@ == v2.user_to_album && final(album_to_user)@ == v2.album_to_user && final(sessions)@ == old(sessions)@ && final(users)@ == old(
                    users,
                )@,
                Err(Fault::User(e)) => res == Err::<(), ApiError>(e),
                Err(Fault::Store(f)) => true,
            }
        }),
{
    match sessions.get(key) {
        Ok(Some(b)) => {},
        Ok(None) => {
            return Err(Fault::User(ApiError::Unauthorized));
        },
        Err(f) => {
            return Err(f);
        },
    }
    match users.get(uid) {
        Ok(Some(b)) => {},
        Ok(None) => {
            return Err(Fault::User(ApiError::Unauthorized));
        },
        Err(f) => {
            return Err(f);
        },
    }
    if !zone_exists(zone) {
        return Err(Fault::User(ApiError::BadRequest));
    }
    match albums.get(aid) {
        Ok(Some(b)) => {
            return Err(Fault::User(ApiError::BadRequest));
        },
        Ok(None) => {},
        Err(f) => {
            return Err(f);
        },
    }
    let mut nm: Vec<u8> = Vec::new();
    nm.extend_from_slice(name);
    let mut tz: Vec<u8> = Vec::new();
    tz.extend_from_slice(zone);
    let album = Album {
        description: crate::records::AlbumSettings { name: nm, time_zone: tz },
        fragment_head: 0,
        length: 0,
        last_update: now,
        date_range: None,
    };
    let bytes = encode_album(&album);
    proof {
        lemma_enc_album_v(album);
        assert(nm@ =~= name@);
        assert(tz@ =~= zone@);
        assert(album@ == AlbumV {
            name: name@,
            time_zone: zone@,
            fragment_head: 0,
            length: 0,
            last_update: now as int,
            date_range: None,
        });
    }
    match albums.insert(aid, bytes.as_slice()) {
        Ok(u) => {},
        Err(f) => {
            return Err(f);
        },
    }
    match Engine::empty(aid, fragments) {
        Ok(h) => {},
        Err(f) => {
            return Err(f);
        },
    }
    let role_bytes = encode_role(&Role::Owner);
    let ua_key = compose_key(uid, aid);
    match user_to_album.insert(ua_key.as_slice(), role_bytes.as_slice()) {
        Ok(u) => {},
        Err(f) => {
            return Err(f);
        },
    }
    let au_key = compose_key(aid, uid);
    let empty: Vec<u8> = Vec::new();
    match album_to_user.insert(au_key.as_slice(), empty.as_slice()) {
        Ok(u) => {
            proof {
                assert(empty@ =~= Seq::<u8>::empty());
            }
            Ok(())
        },
        Err(f) => Err(f),
    }
}

/// Upload: insert the file record and the per-owner name index entry.
pub open spec fn spec_upload_file(
    v: StoreView,
    key: Seq<u8>,
    owner: Seq<u8>,
    fid: Seq<u8>,
    file: FileV,
) -> (StoreView, Result<(), ApiError>) {
    if !logged_in(v, key) {
        (v, Err(ApiError::Unauthorized))
    } else if !v.users.contains_key(owner) {
        (v, Err(ApiError::Unauthorized))
    } else if v.files.contains_key(fid) {
        (v, Err(ApiError::BadRequest))
    } else if v.file_names.contains_key(compose(owner, file.name)) {
        (v, Err(ApiError::FileExists))
    } else {
        (
            StoreView {
                files: v.files.insert(fid, enc_file_v(file)),
                file_names: v.file_names.insert(compose(owner, file.name), fid),
                ..v
            },
            Ok(()),
        )
    }
}

pub fn upload_file_body(
    sessions: &mut TxMap,
    users: &mut TxMap,
    files: &mut TxMap,
    file_names: &mut TxMap,
    key: &[u8],
    owner: &[u8],
    fid: &[u8],
    file: &File,
) -> (r: Result<(), Fault>)
    requires
        file@.owner_id == owner@,
    ensures
        ({
            let (v2, res) = spec_upload_file(
                StoreView {
                    sessions: old(sessions)@,
                    users: old(users)@,
                    files: old(files)@,
                    file_names: old(file_names)@,
                    ..arbitrary()
                },
                key@,
                owner@,
                fid@,
                file@,
            );
            match r {
                Ok(u) => res == Ok::<(), ApiError>(()) && final(files)@ == v2.files && final(file_names)@ == v2.file_names && final(sessions)@ == old(sessions)@ && final(users)@ == old(
                    users,
                )@,
                Err(Fault::User(e)) => res == Err::<(), ApiError>(e),
                Err(Fault::Store(f)) => true,
            }
        }),
{
    match sessions.get(key) {
        Ok(Some(b)) => {},
        Ok(None) => {
            return Err(Fault::User(ApiError::Unauthorized));
        },
        Err(f) => {
            return Err(f);
        },
    }
    match users.get(owner) {
        Ok(Some(b)) => {},
        Ok(None) => {
            return Err(Fault::User(ApiError::Unauthorized));
        },
        Err(f) => {
            return Err(f);
        },
    }
    match files.get(fid) {
        Ok(Some(b)) => {
            return Err(Fault::User(ApiError::BadRequest));
        },
        Ok(None) => {},
        Err(f) => {
            return Err(f);
        },
    }
    let name_key = compose_key(owner, file.metadata.name.as_slice());
    match file_names.get(name_key.as_slice()) {
        Ok(Some(b)) => {
            return Err(Fault::User(ApiError::FileExists));
        },
        Ok(None) => {},
        Err(f) => {
            return Err(f);
        },
    }
    let bytes = encode_file(file);
    proof {
        lemma_enc_file_v(*file);
    }
    match files.insert(fid, bytes.as_slice()) {
        Ok(u) => {},
        Err(f) => {
            return Err(f);
        },
    }
    match file_names.insert(name_key.as_slice(), fid) {
        Ok(u) => Ok(()),
        Err(f) => Err(f),
    }
}

/// Share: grant a non-Owner role, mirrored in both permission trees; an
/// existing Owner must not be overwritten.
pub open spec fn spec_share(
    v: StoreView,
    key: Seq<u8>,
    uid: Seq<u8>,
    aid: Seq<u8>,
    email: Seq<u8>,
    role: Role,
) -> (StoreView, Result<(), ApiError>) {
    if role == Role::Owner {
        (v, Err(ApiError::Unauthorized))
    } else if !logged_in(v, key) {
        (v, Err(ApiError::Unauthorized))
    } else if !v.albums.contains_key(aid) {
        (v, Err(ApiError::Unauthorized))
    } else if !can_write(v, uid, aid) {
        (v, Err(ApiError::Unauthorized))
    } else if !v.emails.contains_key(email) {
        (v, Err(ApiError::NotFound))
    } else {
        let target = v.emails[email];
        if role_of(v, target, aid) == Some(Role::Owner) {
            (v, Err(ApiError::BadRequest))
        } else {
            (
                StoreView {
                    user_to_album: v.user_to_album.insert(compose(target, aid), enc_role(role)),
                    album_to_user: v.album_to_user.insert(compose(aid, target), Seq::empty()),
                    ..v
                },
                Ok(()),
            )
        }
    }
}

pub fn share_body(
    sessions: &mut TxMap,
    emails: &mut TxMap,
    albums: &mut TxMap,
    user_to_album: &mut TxMap,
    album_to_user: &mut TxMap,
    key: &[u8],
    uid: &[u8],
    aid: &[u8],
    email: &[u8],
    role: Role,
) -> (r: Result<(), Fault>)
    ensures
        ({
            let (v2, res) = spec_share(
                StoreView {
                    sessions: old(sessions)@,
                    emails: old(emails)@,
                    albums: old(albums)@,
                    user_to_album: old(user_to_album)@,
                    album_to_user: old(album_to_user)@,
                    ..arbitrary()
                },
                key@,
                uid@,
                aid@,
                email@,
                role,
            );
            match r {
                Ok(u) => res == Ok::<(), ApiError>(()) && final(user_to_album)@ == v2.user_to_album
                    && final(album_to_user)@ == v2.album_to_user && final(sessions)@ == old(
                    sessions,
                )@ && final(emails)@ == old(emails)@ && final(albums)@ == old(albums)@,
                Err(Fault::User(e)) => res == Err::<(), ApiError>(e),
                Err(Fault::Store(f)) => true,
            }
        }),
{
    if role.is_owner() {
        return Err(Fault::User(ApiError::Unauthorized));
    }
    match sessions.get(key) {
        Ok(Some(b)) => {},
        Ok(None) => {
            return Err(Fault::User(ApiError::Unauthorized));
        },
        Err(f) => {
            return Err(f);
        },
    }
    match albums.get(aid) {
        Ok(Some(b)) => {},
        Ok(None) => {
            return Err(Fault::User(ApiError::Unauthorized));
        },
        Err(f) => {
            return Err(f);
        },
    }
    match test_user_can_write(user_to_album, uid, aid) {
        Ok(u) => {},
        Err(f) => {
            return Err(f);
        },
    }
    let target = match emails.get(email) {
        Ok(Some(t)) => t,
        Ok(None) => {
            return Err(Fault::User(ApiError::NotFound));
        },
        Err(f) => {
            return Err(f);
        },
    };
    let ta_key = compose_key(target.as_slice(), aid);
    match user_to_album.get(ta_key.as_slice()) {
        Ok(Some(prev)) => {
            match decode_role(prev.as_slice()) {
                Some(Role::Owner) => {
                    return Err(Fault::User(ApiError::BadRequest));
                },
                _ => {},
            }
        },
        Ok(None) => {},
        Err(f) => {
            return Err(f);
        },
    }
    let role_bytes = encode_role(&role);
    match user_to_album.insert(ta_key.as_slice(), role_bytes.as_slice()) {
        Ok(u) => {},
        Err(f) => {
            return Err(f);
        },
    }
    let at_key = compose_key(aid, target.as_slice());
    let empty: Vec<u8> = Vec::new();
    match album_to_user.insert(at_key.as_slice(), empty.as_slice()) {
        Ok(u) => {
            proof {
                assert(empty@ =~= Seq::<u8>::empty());
            }
            Ok(())
        },
        Err(f) => Err(f),
    }
}

/// Staged engine mutations and inclusion edges accumulated while a batch of
/// files is added to or removed from one album.
pub struct StageSt {
    pub cache: Seq<crate::engine::CacheDayV>,
    pub inclusions: Map<Seq<u8>, Seq<u8>>,
}

pub open spec fn file_entry(id: Seq<u8>, f: FileV) -> SectionEntryV {
    SectionEntryV { time_stamp: f.last_modified, file_id: id, width: f.width, height: f.height }
}

/// Stage one file id of an add or remove batch.
pub open spec fn stage_file(
    st: StageSt,
    v: StoreView,
    aid: Seq<u8>,
    album: AlbumV,
    top: Seq<crate::json::TopEntryV>,
    uid: Seq<u8>,
    id: Seq<u8>,
    is_add: bool,
) -> Result<StageSt, ApiError> {
    if is_add {
        if !v.files.contains_key(id) {
            Err(ApiError::Unauthorized)
        } else {
            match dec_file_v(v.files[id]) {
                None => Err(ApiError::Storage),
                Some(f) => if f.owner_id != uid {
                    Err(ApiError::Unauthorized)
                } else if !(zone_ok(album.time_zone) && crate::tz::day_in_range(
                    f.last_modified,
                    album.time_zone,
                )) {
                    Err(ApiError::BadRequest)
                } else {
                    Ok(
                        StageSt {
                            cache: stage(
                                st.cache,
                                day_of(f.last_modified, album.time_zone),
                                day_base(
                                    v.fragments,
                                    aid,
                                    top,
                                    day_of(f.last_modified, album.time_zone),
                                ),
                                true,
                                file_entry(id, f),
                            ),
                            inclusions: st.inclusions.insert(compose(id, aid), Seq::empty()),
                        },
                    )
                },
            }
        }
    } else {
        if !v.files.contains_key(id) {
            Ok(st)
        } else {
            match dec_file_v(v.files[id]) {
                None => Err(ApiError::Storage),
                Some(f) => if !(zone_ok(album.time_zone) && crate::tz::day_in_range(
                    f.last_modified,
                    album.time_zone,
                )) {
                    Err(ApiError::BadRequest)
                } else {
                    Ok(
                        StageSt {
                            cache: stage(
                                st.cache,
                                day_of(f.last_modified, album.time_zone),
                                day_base(
                                    v.fragments,
                                    aid,
                                    top,
                                    day_of(f.last_modified, album.time_zone),
                                ),
                                false,
                                file_entry(id, f),
                            ),
                            inclusions: st.inclusions.remove(compose(id, aid)),
                        },
                    )
                },
            }
        }
    }
}

pub open spec fn stage_files(
    st: StageSt,
    v: StoreView,
    aid: Seq<u8>,
    album: AlbumV,
    top: Seq<crate::json::TopEntryV>,
    uid: Seq<u8>,
    ids: Seq<Seq<u8>>,
    is_add: bool,
) -> Result<StageSt, ApiError>
    decreases ids.len(),
{
    if ids.len() == 0 {
        Ok(st)
    } else {
        match stage_file(st, v, aid, album, top, uid, ids[0], is_add) {
            Err(e) => Err(e),
            Ok(st2) => stage_files(st2, v, aid, album, top, uid, ids.drop_first(), is_add),
        }
    }
}

/// Add or remove a batch of files: inclusion edges and the Fragment Engine
/// commit happen in one transaction.
pub open spec fn spec_add_remove_files(
    v: StoreView,
    key: Seq<u8>,
    uid: Seq<u8>,
    aid: Seq<u8>,
    ids: Seq<Seq<u8>>,
    is_add: bool,
    now: int,
) -> (StoreView, Result<(), ApiError>) {
    if !logged_in(v, key) {
        (v, Err(ApiError::Unauthorized))
    } else if !can_write(v, uid, aid) {
        (v, Err(ApiError::Unauthorized))
    } else if !v.albums.contains_key(aid) {
        (v, Err(ApiError::Unauthorized))
    } else {
        match dec_album_v(v.albums[aid]) {
            None => (v, Err(ApiError::Storage)),
            Some(album) => {
                let hk = frag_key(aid, album.fragment_head);
                if !(v.fragments.contains_key(hk) && crate::json::sp_top(v.fragments[hk]) is Some) {
                    (v, Err(ApiError::Storage))
                } else {
                    let top = crate::json::sp_top(v.fragments[hk]).unwrap();
                    match stage_files(
                        StageSt { cache: Seq::empty(), inclusions: v.inclusions },
                        v,
                        aid,
                        album,
                        top,
                        uid,
                        ids,
                        is_add,
                    ) {
                        Err(e) => (v, Err(e)),
                        Ok(st) => {
                            let (m2, a2) = spec_commit(v.fragments, aid, album, top, st.cache, now);
                            (
                                StoreView {
                                    albums: v.albums.insert(aid, enc_album_v(a2)),
                                    fragments: m2,
                                    inclusions: st.inclusions,
                                    ..v
                                },
                                Ok(()),
                            )
                        },
                    }
                }
            },
        }
    }
}

/// The album record under `aid`, if present and decodable, is internally
/// consistent with its fragment tree.
pub open spec fn album_engine_wf(v: StoreView, aid: Seq<u8>) -> bool {
    (v.albums.contains_key(aid) && dec_album_v(v.albums[aid]) is Some) ==> album_inv(
        v.fragments,
        aid,
        dec_album_v(v.albums[aid]).unwrap(),
    )
}

#[verifier::loop_isolation(false)]
#[verifier::rlimit(100)]
pub fn add_remove_files_body(
    sessions: &TxMap,
    user_to_album: &TxMap,
    files: &TxMap,
    albums: &mut TxMap,
    inclusions: &mut TxMap,
    fragments: &mut TxMap,
    key: &[u8],
    uid: &[u8],
    aid: &[u8],
    ids: &Vec<Vec<u8>>,
    is_add: bool,
    now: i64,
) -> (r: Result<(), Fault>)
    ensures
        ({
            let (v2, res) = spec_add_remove_files(
                StoreView {
                    sessions: sessions@,
                    user_to_album: user_to_album@,
                    files: files@,
                    albums: old(albums)@,
                    inclusions: old(inclusions)@,
                    fragments: old(fragments)@,
                    ..arbitrary()
                },
                key@,
                uid@,
                aid@,
                ids@.map_values(|x: Vec<u8>| x@),
                is_add,
                now as int,
            );
            match r {
                Ok(u) => res == Ok::<(), ApiError>(()) && final(albums)@ == v2.albums && final(inclusions)@ == v2.inclusions && final(fragments)@ == v2.fragments,
                Err(Fault::User(e)) => (res == Err::<(), ApiError>(e) || e == ApiError::Storage)
                    && ((album_engine_wf(
                    StoreView {
                        sessions: sessions@,
                        user_to_album: user_to_album@,
                        files: files@,
                        albums: old(albums)@,
                        inclusions: old(inclusions)@,
                        fragments: old(fragments)@,
                        ..arbitrary()
                    },
                    aid@,
                ) && (forall|j: int| 0 <= j < ids@.len() ==> valid_id(#[trigger] ids@[j]@))) ==> (
                res == Err::<(), ApiError>(e) || res is Ok)),
                Err(Fault::Store(f)) => true,
            }
        }),
{
    let ghost v0 = StoreView {
        sessions: sessions@,
        user_to_album: user_to_album@,
        files: files@,
        albums: albums@,
        inclusions: inclusions@,
        fragments: fragments@,
        ..arbitrary()
    };
    let ghost idsv = ids@.map_values(|x: Vec<u8>| x@);
    let ghost hyp = album_engine_wf(v0, aid@) && (forall|j: int|
        0 <= j < ids@.len() ==> valid_id(#[trigger] ids@[j]@));
    match sessions.get(key) {
        Ok(Some(b)) => {},
        Ok(None) => {
            return Err(Fault::User(ApiError::Unauthorized));
        },
        Err(f) => {
            return Err(f);
        },
    }
    match test_user_can_write(user_to_album, uid, aid) {
        Ok(u) => {},
        Err(Fault::User(e)) => {
            return Err(Fault::User(ApiError::Unauthorized));
        },
        Err(f) => {
            return Err(f);
        },
    }
    let album_bytes = match albums.get(aid) {
        Ok(Some(b)) => b,
        Ok(None) => {
            return Err(Fault::User(ApiError::Unauthorized));
        },
        Err(f) => {
            return Err(f);
        },
    };
    let album = match decode_album(album_bytes.as_slice()) {
        Some(a) => a,
        None => {
            return Err(Fault::User(ApiError::Storage));
        },
    };
    let ghost albumv = album@;
    proof {
        if hyp {
            assert(dec_album_v(v0.albums[aid@]) == Some(albumv));
            assert(album_inv(v0.fragments, aid@, albumv));
        }
    }
    let mut en = match Engine::new(aid, album, fragments) {
        Ok(en) => en,
        Err(f) => {
            return Err(f);
        },
    };
    let ghost top = en@.top;
    let ghost st0 = StageSt { cache: Seq::empty(), inclusions: v0.inclusions };
    let n = ids.len();
    let mut i: usize = 0;
    proof {
        assert(idsv.skip(0) =~= idsv);
        if hyp {
            crate::engine::lemma_engine_inv_tree_ok(en@, fragments@);
        }
    }
    while i < n
        invariant
            i <= n,
            n == ids@.len(),
            fragments@ == v0.fragments,
            en@.album_id == aid@,
            en@.album == albumv,
            en@.top == top,
            crate::engine::cache_sorted(en@),
            hyp ==> crate::engine::engine_inv(en@, fragments@),
            hyp ==> crate::engine::tree_ok(fragments@, aid@, en@.top),
            stage_files(st0, v0, aid@, albumv, top, uid@, idsv, is_add) == (match stage_files(
                StageSt { cache: en@.cache, inclusions: inclusions@ },
                v0,
                aid@,
                albumv,
                top,
                uid@,
                idsv.skip(i as int),
                is_add,
            ) {
                Ok(st) => Ok::<StageSt, ApiError>(st),
                Err(e) => Err::<StageSt, ApiError>(e),
            }),
        decreases n - i,
    {
        let ghost sti = StageSt { cache: en@.cache, inclusions: inclusions@ };
        let ghost suf = idsv.skip(i as int);
        proof {
            assert(suf[0] == idsv[i as int]);
            assert(suf.drop_first() =~= idsv.skip(i + 1));
            assert(idsv[i as int] == ids@[i as int]@);
        }
        let id = &ids[i];
        let file_bytes_opt = match files.get(id.as_slice()) {
            Ok(o) => o,
            Err(f) => {
                return Err(f);
            },
        };
        if is_add {
            let fb = match file_bytes_opt {
                Some(b) => b,
                None => {
                    return Err(Fault::User(ApiError::Unauthorized));
                },
            };
            let file = match decode_file(fb.as_slice()) {
                Some(f) => f,
                None => {
                    return Err(Fault::User(ApiError::Storage));
                },
            };
            if !crate::keys::bytes_eq(file.owner_id.as_slice(), uid) {
                return Err(Fault::User(ApiError::Unauthorized));
            }
            let ikey = compose_key(id.as_slice(), aid);
            let empty: Vec<u8> = Vec::new();
            match inclusions.insert(ikey.as_slice(), empty.as_slice()) {
                Ok(u) => {
                    proof {
                        assert(empty@ =~= Seq::<u8>::empty());
                    }
                },
                Err(f) => {
                    return Err(f);
                },
            }
            match en.add(id.as_slice(), &file, fragments) {
                Ok(u) => {},
                Err(Fault::User(e)) => {
                    return Err(Fault::User(e));
                },
                Err(f) => {
                    return Err(f);
                },
            }
        } else {
            match file_bytes_opt {
                Some(fb) => {
                    let file = match decode_file(fb.as_slice()) {
                        Some(f) => f,
                        None => {
                            return Err(Fault::User(ApiError::Storage));
                        },
                    };
                    let ikey = compose_key(id.as_slice(), aid);
                    match inclusions.remove(ikey.as_slice()) {
                        Ok(u) => {},
                        Err(f) => {
                            return Err(f);
                        },
                    }
                    match en.remove(id.as_slice(), &file, fragments) {
                        Ok(u) => {},
                        Err(Fault::User(e)) => {
                            return Err(Fault::User(e));
                        },
                        Err(f) => {
                            return Err(f);
                        },
                    }
                },
                None => {},
            }
        }
        i += 1;
    }
    proof {
        assert(idsv.skip(n as int) =~= Seq::<Seq<u8>>::empty());
    }
    let album2 = match en.commit(fragments, now) {
        Ok(a) => a,
        Err(Fault::User(e)) => {
            return Err(Fault::User(ApiError::Storage));
        },
        Err(f) => {
            return Err(f);
        },
    };
    let bytes = encode_album(&album2);
    proof {
        lemma_enc_album_v(album2);
    }
    match albums.insert(aid, bytes.as_slice()) {
        Ok(u) => Ok(()),
        Err(f) => Err(f),
    }
}

/// Re-add one file while rebucketing under a new time zone.
pub open spec fn readd_file(
    cache: Seq<crate::engine::CacheDayV>,
    v: StoreView,
    aid: Seq<u8>,
    album2: AlbumV,
    top: Seq<crate::json::TopEntryV>,
    id: Seq<u8>,
) -> Result<Seq<crate::engine::CacheDayV>, ApiError> {
    if !v.files.contains_key(id) {
        Ok(cache)
    } else {
        match dec_file_v(v.files[id]) {
            None => Err(ApiError::Storage),
            Some(f) => if !(zone_ok(album2.time_zone) && crate::tz::day_in_range(
                f.last_modified,
                album2.time_zone,
            )) {
                Err(ApiError::BadRequest)
            } else {
                Ok(
                    stage(
                        cache,
                        day_of(f.last_modified, album2.time_zone),
                        day_base(v.fragments, aid, top, day_of(f.last_modified, album2.time_zone)),
                        true,
                        file_entry(id, f),
                    ),
                )
            },
        }
    }
}

pub open spec fn readd_files(
    cache: Seq<crate::engine::CacheDayV>,
    v: StoreView,
    aid: Seq<u8>,
    album2: AlbumV,
    top: Seq<crate::json::TopEntryV>,
    ids: Seq<Seq<u8>>,
) -> Result<Seq<crate::engine::CacheDayV>, ApiError>
    decreases ids.len(),
{
    if ids.len() == 0 {
        Ok(cache)
    } else {
        match readd_file(cache, v, aid, album2, top, ids[0]) {
            Err(e) => Err(e),
            Ok(c2) => readd_files(c2, v, aid, album2, top, ids.drop_first()),
        }
    }
}

/// Update an album's settings; a changed time zone rebuckets every file.
pub open spec fn spec_update_album(
    v: StoreView,
    key: Seq<u8>,
    uid: Seq<u8>,
    aid: Seq<u8>,
    name: Seq<u8>,
    zone: Seq<u8>,
    now: int,
) -> (StoreView, Result<(), ApiError>) {
    if !logged_in(v, key) {
        (v, Err(ApiError::Unauthorized))
    } else if !can_write(v, uid, aid) {
        (v, Err(ApiError::Unauthorized))
    } else if !v.albums.contains_key(aid) {
        (v, Err(ApiError::Unauthorized))
    } else {
        match dec_album_v(v.albums[aid]) {
            None => (v, Err(ApiError::Storage)),
            Some(album) => if !zone_ok(zone) {
                (v, Err(ApiError::BadRequest))
            } else if zone == album.time_zone {
                (
                    StoreView {
                        albums: v.albums.insert(
                            aid,
                            enc_album_v(AlbumV { name, time_zone: zone, ..album }),
                        ),
                        ..v
                    },
                    Ok(()),
                )
            } else {
                let album2 = AlbumV { name, time_zone: zone, ..album };
                let hk = frag_key(aid, album.fragment_head);
                if !(v.fragments.contains_key(hk) && crate::json::sp_top(v.fragments[hk]) is Some) {
                    (v, Err(ApiError::Storage))
                } else {
                    let top = crate::json::sp_top(v.fragments[hk]).unwrap();
                    if !(forall|k: int, l: int|
                        0 <= k < l < top.len() ==> #[trigger] top[k].day < #[trigger] top[l].day) {
                        (v, Err(ApiError::Storage))
                    } else {
                        let ids = all_ids(v.fragments, aid, top);
                        match readd_files(cleared_cache(top), v, aid, album2, top, ids) {
                            Err(e) => (v, Err(e)),
                            Ok(cache) => {
                                let (m2, a2) = spec_commit(
                                    v.fragments,
                                    aid,
                                    album2,
                                    top,
                                    cache,
                                    now,
                                );
                                (
                                    StoreView {
                                        albums: v.albums.insert(aid, enc_album_v(a2)),
                                        fragments: m2,
                                        ..v
                                    },
                                    Ok(()),
                                )
                            },
                        }
                    }
                }
            },
        }
    }
}

#[verifier::loop_isolation(false)]
#[verifier::rlimit(100)]
pub fn update_album_body(
    sessions: &TxMap,
    user_to_album: &TxMap,
    files: &TxMap,
    albums: &mut TxMap,
    fragments: &mut TxMap,
    key: &[u8],
    uid: &[u8],
    aid: &[u8],
    name: &[u8],
    zone: &[u8],
    now: i64,
) -> (r: Result<(), Fault>)
    ensures
        ({
            let (v2, res) = spec_update_album(
                StoreView {
                    sessions: sessions@,
                    user_to_album: user_to_album@,
                    files: files@,
                    albums: old(albums)@,
                    fragments: old(fragments)@,
                    ..arbitrary()
                },
                key@,
                uid@,
                aid@,
                name@,
                zone@,
                now as int,
            );
            match r {
                Ok(u) => res == Ok::<(), ApiError>(()) && final(albums)@ == v2.albums && final(fragments)@ == v2.fragments,
                Err(Fault::User(e)) => (res == Err::<(), ApiError>(e) || e == ApiError::Storage)
                    && (album_engine_wf(
                    StoreView {
                        sessions: sessions@,
                        user_to_album: user_to_album@,
                        files: files@,
                        albums: old(albums)@,
                        fragments: old(fragments)@,
                        ..arbitrary()
                    },
                    aid@,
                ) ==> (res == Err::<(), ApiError>(e) || res is Ok)),
                Err(Fault::Store(f)) => true,
            }
        }),
{
    let ghost v0 = StoreView {
        sessions: sessions@,
        user_to_album: user_to_album@,
        files: files@,
        albums: albums@,
        fragments: fragments@,
        ..arbitrary()
    };
    let ghost hyp = album_engine_wf(v0, aid@);
    match sessions.get(key) {
        Ok(Some(b)) => {},
        Ok(None) => {
            return Err(Fault::User(ApiError::Unauthorized));
        },
        Err(f) => {
            return Err(f);
        },
    }
    match test_user_can_write(user_to_album, uid, aid) {
        Ok(u) => {},
        Err(Fault::User(e)) => {
            return Err(Fault::User(ApiError::Unauthorized));
        },
        Err(f) => {
            return Err(f);
        },
    }
    let album_bytes = match albums.get(aid) {
        Ok(Some(b)) => b,
        Ok(None) => {
            return Err(Fault::User(ApiError::Unauthorized));
        },
        Err(f) => {
            return Err(f);
        },
    };
    let mut album = match decode_album(album_bytes.as_slice()) {
        Some(a) => a,
        None => {
            return Err(Fault::User(ApiError::Storage));
        },
    };
    let ghost album0 = album@;
    proof {
        if hyp {
            assert(dec_album_v(v0.albums[aid@]) == Some(album0));
            assert(album_inv(v0.fragments, aid@, album0));
        }
    }
    if !zone_exists(zone) {
        return Err(Fault::User(ApiError::BadRequest));
    }
    let mut nm: Vec<u8> = Vec::new();
    nm.extend_from_slice(name);
    let mut tz: Vec<u8> = Vec::new();
    tz.extend_from_slice(zone);
    proof {
        assert(nm@ =~= name@);
        assert(tz@ =~= zone@);
    }
    let same_zone = crate::keys::bytes_eq(album.description.time_zone.as_slice(), zone);
    album.description = crate::records::AlbumSettings { name: nm, time_zone: tz };
    let ghost album2v = album@;
    proof {
        assert(album2v == AlbumV { name: name@, time_zone: zone@, ..album0 });
    }
    if same_zone {
        let bytes = encode_album(&album);
        proof {
            lemma_enc_album_v(album);
        }
        match albums.insert(aid, bytes.as_slice()) {
            Ok(u) => {
                return Ok(());
            },
            Err(f) => {
                return Err(f);
            },
        }
    }
    let mut en = match Engine::new(aid, album, fragments) {
        Ok(en) => en,
        Err(f) => {
            return Err(f);
        },
    };
    let ghost top = en@.top;
    proof {
        if hyp {
            assert forall|k: int| 0 <= k < top.len() implies fragments@.contains_key(
                crate::engine::frag_key(aid@, #[trigger] top[k].fragment_id as u64),
            ) && crate::json::sp_section(
                fragments@[crate::engine::frag_key(aid@, top[k].fragment_id as u64)],
            ) is Some by {
                assert(crate::engine::section_ok(v0.fragments, aid@, top[k],
                    album0.time_zone));
            }
            assert(crate::engine::tree_ok(fragments@, aid@, top));
            assert(crate::engine::wf_top(top));
        }
    }
    let ids = match en.list_file_ids(fragments) {
        Ok(v) => v,
        Err(f) => {
            return Err(f);
        },
    };
    match en.clear_all(fragments) {
        Ok(u) => {},
        Err(f) => {
            return Err(Fault::User(ApiError::Storage));
        },
    }
    proof {
        assert forall|k: int, l: int| 0 <= k < l < top.len() implies #[trigger] top[k].day
            < #[trigger] top[l].day by {
            assert(cleared_cache(top)[k].day == top[k].day);
            assert(cleared_cache(top)[l].day == top[l].day);
            assert(en@.cache[k].day < en@.cache[l].day);
        }
    }
    let ghost idsv = ids@.map_values(|x: Vec<u8>| x@);
    let n = ids.len();
    let mut i: usize = 0;
    proof {
        assert(idsv.skip(0) =~= idsv);
    }
    while i < n
        invariant
            i <= n,
            n == ids@.len(),
            fragments@ == v0.fragments,
            en@.album_id == aid@,
            en@.album == album2v,
            en@.top == top,
            crate::engine::cache_sorted(en@),
            hyp ==> crate::engine::tree_ok(fragments@, aid@, en@.top),
            readd_files(cleared_cache(top), v0, aid@, album2v, top, idsv) == (match readd_files(
                en@.cache,
                v0,
                aid@,
                album2v,
                top,
                idsv.skip(i as int),
            ) {
                Ok(c) => Ok::<Seq<crate::engine::CacheDayV>, ApiError>(c),
                Err(e) => Err::<Seq<crate::engine::CacheDayV>, ApiError>(e),
            }),
        decreases n - i,
    {
        let ghost suf = idsv.skip(i as int);
        proof {
            assert(suf[0] == idsv[i as int]);
            assert(suf.drop_first() =~= idsv.skip(i + 1));
            assert(idsv[i as int] == ids@[i as int]@);
        }
        let id = &ids[i];
        match files.get(id.as_slice()) {
            Ok(Some(fb)) => {
                let file = match decode_file(fb.as_slice()) {
                    Some(f) => f,
                    None => {
                        return Err(Fault::User(ApiError::Storage));
                    },
                };
                match en.add(id.as_slice(), &file, fragments) {
                    Ok(u) => {},
                    Err(Fault::User(e)) => {
                        return Err(Fault::User(e));
                    },
                    Err(f) => {
                        return Err(f);
                    },
                }
            },
            Ok(None) => {},
            Err(f) => {
                return Err(f);
            },
        }
        i += 1;
    }
    proof {
        assert(idsv.skip(n as int) =~= Seq::<Seq<u8>>::empty());
    }
    let album2 = match en.commit(fragments, now) {
        Ok(a) => a,
        Err(Fault::User(e)) => {
            return Err(Fault::User(ApiError::Storage));
        },
        Err(f) => {
            return Err(f);
        },
    };
    let bytes = encode_album(&album2);
    proof {
        lemma_enc_album_v(album2);
    }
    match albums.insert(aid, bytes.as_slice()) {
        Ok(u) => Ok(()),
        Err(f) => Err(f),
    }
}

/// Remove one file id while unsharing, when the file belongs to the target.
pub open spec fn unshare_file(
    st: StageSt,
    v: StoreView,
    aid: Seq<u8>,
    album: AlbumV,
    top: Seq<crate::json::TopEntryV>,
    target: Seq<u8>,
    id: Seq<u8>,
) -> Result<StageSt, ApiError> {
    if !v.files.contains_key(id) {
        Ok(st)
    } else {
        match dec_file_v(v.files[id]) {
            None => Err(ApiError::Storage),
            Some(f) => if f.owner_id != target {
                Ok(st)
            } else if !(zone_ok(album.time_zone) && crate::tz::day_in_range(
                f.last_modified,
                album.time_zone,
            )) {
                Err(ApiError::BadRequest)
            } else {
                Ok(
                    StageSt {
                        cache: stage(
                            st.cache,
                            day_of(f.last_modified, album.time_zone),
                            day_base(v.fragments, aid, top, day_of(f.last_modified, album.time_zone)),
                            false,
                            file_entry(id, f),
                        ),
                        inclusions: st.inclusions.remove(compose(id, aid)),
                    },
                )
            },
        }
    }
}

pub open spec fn unshare_files(
    st: StageSt,
    v: StoreView,
    aid: Seq<u8>,
    album: AlbumV,
    top: Seq<crate::json::TopEntryV>,
    target: Seq<u8>,
    ids: Seq<Seq<u8>>,
) -> Result<StageSt, ApiError>
    decreases ids.len(),
{
    if ids.len() == 0 {
        Ok(st)
    } else {
        match unshare_file(st, v, aid, album, top, target, ids[0]) {
            Err(e) => Err(e),
            Ok(st2) => unshare_files(st2, v, aid, album, top, target, ids.drop_first()),
        }
    }
}

/// Unshare: drop both permission edges and remove every file the target had
/// contributed, in one transaction.  The owner cannot be removed; a user may
/// always remove themselves.
pub open spec fn spec_unshare(
    v: StoreView,
    key: Seq<u8>,
    uid: Seq<u8>,
    aid: Seq<u8>,
    email: Seq<u8>,
    now: int,
) -> (StoreView, Result<(), ApiError>) {
    if !logged_in(v, key) {
        (v, Err(ApiError::Unauthorized))
    } else if !v.emails.contains_key(email) {
        (v, Err(ApiError::NotFound))
    } else {
        let target = v.emails[email];
        if target != uid && !can_write(v, uid, aid) {
            (v, Err(ApiError::Unauthorized))
        } else if !v.user_to_album.contains_key(compose(target, aid)) {
            (v, Ok(()))
        } else {
            match dec_role_v(v.user_to_album[compose(target, aid)]) {
                None => (v, Err(ApiError::Storage)),
                Some(Role::Owner) => (v, Err(ApiError::BadRequest)),
                Some(other) => if !v.albums.contains_key(aid) {
                    (v, Err(ApiError::Unauthorized))
                } else {
                    match dec_album_v(v.albums[aid]) {
                        None => (v, Err(ApiError::Storage)),
                        Some(album) => {
                            let hk = frag_key(aid, album.fragment_head);
                            if !(v.fragments.contains_key(hk) && crate::json::sp_top(
                                v.fragments[hk],
                            ) is Some) {
                                (v, Err(ApiError::Storage))
                            } else {
                                let top = crate::json::sp_top(v.fragments[hk]).unwrap();
                                let ids = all_ids(v.fragments, aid, top);
                                match unshare_files(
                                    StageSt { cache: Seq::empty(), inclusions: v.inclusions },
                                    v,
                                    aid,
                                    album,
                                    top,
                                    target,
                                    ids,
                                ) {
                                    Err(e) => (v, Err(e)),
                                    Ok(st) => {
                                        let (m2, a2) = spec_commit(
                                            v.fragments,
                                            aid,
                                            album,
                                            top,
                                            st.cache,
                                            now,
                                        );
                                        (
                                            StoreView {
                                                user_to_album: v.user_to_album.remove(
                                                    compose(target, aid),
                                                ),
                                                album_to_user: v.album_to_user.remove(
                                                    compose(aid, target),
                                                ),
                                                albums: v.albums.insert(aid, enc_album_v(a2)),
                                                fragments: m2,
                                                inclusions: st.inclusions,
                                                ..v
                                            },
                                            Ok(()),
                                        )
                                    },
                                }
                            }
                        },
                    }
                },
            }
        }
    }
}

#[verifier::loop_isolation(false)]
#[verifier::rlimit(100)]
pub fn unshare_body(
    sessions: &TxMap,
    emails: &TxMap,
    files: &TxMap,
    user_to_album: &mut TxMap,
    album_to_user: &mut TxMap,
    albums: &mut TxMap,
    inclusions: &mut TxMap,
    fragments: &mut TxMap,
    key: &[u8],
    uid: &[u8],
    aid: &[u8],
    email: &[u8],
    now: i64,
) -> (r: Result<(), Fault>)
    ensures
        ({
            let (v2, res) = spec_unshare(
                StoreView {
                    sessions: sessions@,
                    emails: emails@,
                    files: files@,
                    user_to_album: old(user_to_album)@,
                    album_to_user: old(album_to_user)@,
                    albums: old(albums)@,
                    inclusions: old(inclusions)@,
                    fragments: old(fragments)@,
                    ..arbitrary()
                },
                key@,
                uid@,
                aid@,
                email@,
                now as int,
            );
            match r {
                Ok(u) => res == Ok::<(), ApiError>(()) && final(user_to_album)@ == v2.user_to_album
                    && final(album_to_user)@ == v2.album_to_user && final(albums)@ == v2.albums
                    && final(inclusions)@ == v2.inclusions && final(fragments)@ == v2.fragments,
                Err(Fault::User(e)) => (res == Err::<(), ApiError>(e) || e == ApiError::Storage)
                    && (album_engine_wf(
                    StoreView {
                        sessions: sessions@,
                        emails: emails@,
                        files: files@,
                        user_to_album: old(user_to_album)@,
                        album_to_user: old(album_to_user)@,
                        albums: old(albums)@,
                        inclusions: old(inclusions)@,
                        fragments: old(fragments)@,
                        ..arbitrary()
                    },
                    aid@,
                ) ==> (res == Err::<(), ApiError>(e) || res is Ok)),
                Err(Fault::Store(f)) => true,
            }
        }),
{
    let ghost v0 = StoreView {
        sessions: sessions@,
        emails: emails@,
        files: files@,
        user_to_album: user_to_album@,
        album_to_user: album_to_user@,
        albums: albums@,
        inclusions: inclusions@,
        fragments: fragments@,
        ..arbitrary()
    };
    let ghost hyp = album_engine_wf(v0, aid@);
    match sessions.get(key) {
        Ok(Some(b)) => {},
        Ok(None) => {
            return Err(Fault::User(ApiError::Unauthorized));
        },
        Err(f) => {
            return Err(f);
        },
    }
    let target = match emails.get(email) {
        Ok(Some(t)) => t,
        Ok(None) => {
            return Err(Fault::User(ApiError::NotFound));
        },
        Err(f) => {
            return Err(f);
        },
    };
    if !crate::keys::bytes_eq(target.as_slice(), uid) {
        match test_user_can_write(&*user_to_album, uid, aid) {
            Ok(u) => {},
            Err(Fault::User(e)) => {
                return Err(Fault::User(ApiError::Unauthorized));
            },
            Err(f) => {
                return Err(f);
            },
        }
    }
    let ta_key = compose_key(target.as_slice(), aid);
    let role_bytes = match user_to_album.get(ta_key.as_slice()) {
        Ok(Some(b)) => b,
        Ok(None) => {
            return Ok(());
        },
        Err(f) => {
            return Err(f);
        },
    };
    let role = match decode_role(role_bytes.as_slice()) {
        Some(role) => role,
        None => {
            return Err(Fault::User(ApiError::Storage));
        },
    };
    if role.is_owner() {
        return Err(Fault::User(ApiError::BadRequest));
    }
    let album_bytes = match albums.get(aid) {
        Ok(Some(b)) => b,
        Ok(None) => {
            return Err(Fault::User(ApiError::Unauthorized));
        },
        Err(f) => {
            return Err(f);
        },
    };
    let album = match decode_album(album_bytes.as_slice()) {
        Some(a) => a,
        None => {
            return Err(Fault::User(ApiError::Storage));
        },
    };
    let ghost albumv = album@;
    proof {
        if hyp {
            assert(dec_album_v(v0.albums[aid@]) == Some(albumv));
            assert(album_inv(v0.fragments, aid@, albumv));
        }
    }
    let mut en = match Engine::new(aid, album, fragments) {
        Ok(en) => en,
        Err(f) => {
            return Err(f);
        },
    };
    let ghost top = en@.top;
    let ids = match en.list_file_ids(fragments) {
        Ok(v) => v,
        Err(f) => {
            return Err(f);
        },
    };
    let ghost idsv = ids@.map_values(|x: Vec<u8>| x@);
    let ghost st0 = StageSt { cache: Seq::empty(), inclusions: v0.inclusions };
    let n = ids.len();
    let mut i: usize = 0;
    proof {
        assert(idsv.skip(0) =~= idsv);
        if hyp {
            crate::engine::lemma_engine_inv_tree_ok(en@, fragments@);
            assert(forall|k: int| 0 <= k < idsv.len() ==> valid_id(#[trigger] idsv[k]));
        }
    }
    while i < n
        invariant
            i <= n,
            n == ids@.len(),
            fragments@ == v0.fragments,
            en@.album_id == aid@,
            en@.album == albumv,
            en@.top == top,
            crate::engine::cache_sorted(en@),
            hyp ==> crate::engine::engine_inv(en@, fragments@),
            hyp ==> crate::engine::tree_ok(fragments@, aid@, en@.top),
            hyp ==> forall|k: int| 0 <= k < idsv.len() ==> valid_id(#[trigger] idsv[k]),
            unshare_files(st0, v0, aid@, albumv, top, target@, idsv) == (match unshare_files(
                StageSt { cache: en@.cache, inclusions: inclusions@ },
                v0,
                aid@,
                albumv,
                top,
                target@,
                idsv.skip(i as int),
            ) {
                Ok(st) => Ok::<StageSt, ApiError>(st),
                Err(e) => Err::<StageSt, ApiError>(e),
            }),
        decreases n - i,
    {
        let ghost suf = idsv.skip(i as int);
        proof {
            assert(suf[0] == idsv[i as int]);
            assert(suf.drop_first() =~= idsv.skip(i + 1));
            assert(idsv[i as int] == ids@[i as int]@);
        }
        let id = &ids[i];
        match files.get(id.as_slice()) {
            Ok(Some(fb)) => {
                let file = match decode_file(fb.as_slice()) {
                    Some(f) => f,
                    None => {
                        return Err(Fault::User(ApiError::Storage));
                    },
                };
                if crate::keys::bytes_eq(file.owner_id.as_slice(), target.as_slice()) {
                    let ikey = compose_key(id.as_slice(), aid);
                    match inclusions.remove(ikey.as_slice()) {
                        Ok(u) => {},
                        Err(f) => {
                            return Err(f);
                        },
                    }
                    match en.remove(id.as_slice(), &file, fragments) {
                        Ok(u) => {},
                        Err(Fault::User(e)) => {
                            return Err(Fault::User(e));
                        },
                        Err(f) => {
                            return Err(f);
                        },
                    }
                }
            },
            Ok(None) => {},
            Err(f) => {
                return Err(f);
            },
        }
        i += 1;
    }
    proof {
        assert(idsv.skip(n as int) =~= Seq::<Seq<u8>>::empty());
    }
    let album2 = match en.commit(fragments, now) {
        Ok(a) => a,
        Err(Fault::User(e)) => {
            return Err(Fault::User(ApiError::Storage));
        },
        Err(f) => {
            return Err(f);
        },
    };
    let bytes = encode_album(&album2);
    proof {
        lemma_enc_album_v(album2);
    }
    match albums.insert(aid, bytes.as_slice()) {
        Ok(u) => {},
        Err(f) => {
            return Err(f);
        },
    }
    match user_to_album.remove(ta_key.as_slice()) {
        Ok(u) => {},
        Err(f) => {
            return Err(f);
        },
    }
    let at_key = compose_key(aid, target.as_slice());
    match album_to_user.remove(at_key.as_slice()) {
        Ok(u) => Ok(()),
        Err(f) => Err(f),
    }
}

/// Drop both permission edges of one user on one album.
pub open spec fn spec_remove_acl_pair(v: StoreView, aid: Seq<u8>, uid: Seq<u8>) -> StoreView {
    StoreView {
        user_to_album: v.user_to_album.remove(compose(uid, aid)),
        album_to_user: v.album_to_user.remove(compose(aid, uid)),
        ..v
    }
}

pub fn remove_acl_pair_body(
    user_to_album: &mut TxMap,
    album_to_user: &mut TxMap,
    aid: &[u8],
    uid: &[u8],
) -> (r: Result<(), Fault>)
    ensures
        ({
            let v2 = spec_remove_acl_pair(
                StoreView {
                    user_to_album: old(user_to_album)@,
                    album_to_user: old(album_to_user)@,
                    ..arbitrary()
                },
                aid@,
                uid@,
            );
            match r {
                Ok(u) => final(user_to_album)@ == v2.user_to_album && final(album_to_user)@
                    == v2.album_to_user,
                Err(Fault::User(e)) => false,
                Err(Fault::Store(f)) => true,
            }
        }),
{
    let ua = compose_key(uid, aid);
    match user_to_album.remove(ua.as_slice()) {
        Ok(u) => {},
        Err(f) => {
            return Err(f);
        },
    }
    let au = compose_key(aid, uid);
    match album_to_user.remove(au.as_slice()) {
        Ok(u) => Ok(()),
        Err(f) => Err(f),
    }
}

/// Remove a file's record and its name-index entry together.
pub open spec fn spec_delete_file_head(v: StoreView, fid: Seq<u8>, file: FileV) -> StoreView {
    StoreView {
        files: v.files.remove(fid),
        file_names: v.file_names.remove(compose(file.owner_id, file.name)),
        ..v
    }
}

pub fn delete_file_head_body(
    files: &mut TxMap,
    file_names: &mut TxMap,
    fid: &[u8],
    file: &File,
) -> (r: Result<(), Fault>)
    ensures
        ({
            let v2 = spec_delete_file_head(
                StoreView { files: old(files)@, file_names: old(file_names)@, ..arbitrary() },
                fid@,
                file@,
            );
            match r {
                Ok(u) => final(files)@ == v2.files && final(file_names)@ == v2.file_names,
                Err(Fault::User(e)) => false,
                Err(Fault::Store(f)) => true,
            }
        }),
{
    match files.remove(fid) {
        Ok(u) => {},
        Err(f) => {
            return Err(f);
        },
    }
    let nk = compose_key(file.owner_id.as_slice(), file.metadata.name.as_slice());
    match file_names.remove(nk.as_slice()) {
        Ok(u) => Ok(()),
        Err(f) => Err(f),
    }
}

/// Remove a user's row and the email index entry naming them.
pub open spec fn spec_delete_user_head(v: StoreView, uid: Seq<u8>) -> (StoreView, Result<
    (),
    ApiError,
>) {
    if !v.users.contains_key(uid) {
        (v, Ok(()))
    } else {
        match dec_user_v(v.users[uid]) {
            None => (v, Err(ApiError::Storage)),
            Some(u) => (
                StoreView { users: v.users.remove(uid), emails: v.emails.remove(u.email), ..v },
                Ok(()),
            ),
        }
    }
}

pub fn delete_user_head_body(users: &mut TxMap, emails: &mut TxMap, uid: &[u8]) -> (r: Result<
    (),
    Fault,
>)
    ensures
        ({
            let (v2, res) = spec_delete_user_head(
                StoreView { users: old(users)@, emails: old(emails)@, ..arbitrary() },
                uid@,
            );
            match r {
                Ok(u) => res == Ok::<(), ApiError>(()) && final(users)@ == v2.users && final(emails)@ == v2.emails,
                Err(Fault::User(e)) => res == Err::<(), ApiError>(e) && final(users)@ == old(
                    users,
                )@ && final(emails)@ == old(emails)@,
                Err(Fault::Store(f)) => true,
            }
        }),
{
    let ub = match users.get(uid) {
        Ok(Some(b)) => b,
        Ok(None) => {
            return Ok(());
        },
        Err(f) => {
            return Err(f);
        },
    };
    let user = match decode_user(ub.as_slice()) {
        Some(u) => u,
        None => {
            return Err(Fault::User(ApiError::Storage));
        },
    };
    match users.remove(uid) {
        Ok(u) => {},
        Err(f) => {
            return Err(f);
        },
    }
    match emails.remove(user.email.as_slice()) {
        Ok(u) => Ok(()),
        Err(f) => Err(f),
    }
}

/// One step of a file-delete cascade: take the file out of one album's
/// fragments and drop the inclusion edge, updating the album record.
pub open spec fn spec_delete_file_from_album(
    v: StoreView,
    aid: Seq<u8>,
    fid: Seq<u8>,
    file: FileV,
    now: int,
) -> (StoreView, Result<(), ApiError>) {
    if !v.albums.contains_key(aid) {
        (v, Ok(()))
    } else {
        match dec_album_v(v.albums[aid]) {
            None => (v, Err(ApiError::Storage)),
            Some(album) => {
                let hk = frag_key(aid, album.fragment_head);
                if !(v.fragments.contains_key(hk) && crate::json::sp_top(v.fragments[hk]) is Some) {
                    (v, Err(ApiError::Storage))
                } else {
                    let top = crate::json::sp_top(v.fragments[hk]).unwrap();
                    if !(zone_ok(album.time_zone) && crate::tz::day_in_range(
                        file.last_modified,
                        album.time_zone,
                    )) {
                        (v, Err(ApiError::BadRequest))
                    } else {
                        let cache = stage(
                            Seq::empty(),
                            day_of(file.last_modified, album.time_zone),
                            day_base(
                                v.fragments,
                                aid,
                                top,
                                day_of(file.last_modified, album.time_zone),
                            ),
                            false,
                            file_entry(fid, file),
                        );
                        let (m2, a2) = spec_commit(v.fragments, aid, album, top, cache, now);
                        (
                            StoreView {
                                albums: v.albums.insert(aid, enc_album_v(a2)),
                                fragments: m2,
                                inclusions: v.inclusions.remove(compose(fid, aid)),
                                ..v
                            },
                            Ok(()),
                        )
                    }
                }
            },
        }
    }
}

pub fn delete_file_from_album_body(
    albums: &mut TxMap,
    fragments: &mut TxMap,
    inclusions: &mut TxMap,
    aid: &[u8],
    fid: &[u8],
    file: &File,
    now: i64,
) -> (r: Result<(), Fault>)
    ensures
        ({
            let (v2, res) = spec_delete_file_from_album(
                StoreView {
                    albums: old(albums)@,
                    fragments: old(fragments)@,
                    inclusions: old(inclusions)@,
                    ..arbitrary()
                },
                aid@,
                fid@,
                file@,
                now as int,
            );
            match r {
                Ok(u) => res == Ok::<(), ApiError>(()) && final(albums)@ == v2.albums && final(fragments)@ == v2.fragments && final(inclusions)@ == v2.inclusions,
                Err(Fault::User(e)) => (res == Err::<(), ApiError>(e) || e == ApiError::Storage)
                    && (album_engine_wf(
                    StoreView {
                        albums: old(albums)@,
                        fragments: old(fragments)@,
                        inclusions: old(inclusions)@,
                        ..arbitrary()
                    },
                    aid@,
                ) ==> (res == Err::<(), ApiError>(e) || res is Ok)),
                Err(Fault::Store(f)) => true,
            }
        }),
{
    let ghost v0 = StoreView {
        albums: albums@,
        fragments: fragments@,
        inclusions: inclusions@,
        ..arbitrary()
    };
    let ghost hyp = album_engine_wf(v0, aid@);
    let album_bytes = match albums.get(aid) {
        Ok(Some(b)) => b,
        Ok(None) => {
            return Ok(());
        },
        Err(f) => {
            return Err(f);
        },
    };
    let album = match decode_album(album_bytes.as_slice()) {
        Some(a) => a,
        None => {
            return Err(Fault::User(ApiError::Storage));
        },
    };
    proof {
        if hyp {
            assert(dec_album_v(v0.albums[aid@]) == Some(album@));
            assert(album_inv(v0.fragments, aid@, album@));
        }
    }
    let mut en = match Engine::new(aid, album, fragments) {
        Ok(en) => en,
        Err(f) => {
            return Err(f);
        },
    };
    proof {
        if hyp {
            crate::engine::lemma_engine_inv_tree_ok(en@, fragments@);
        }
    }
    match en.remove(fid, file, fragments) {
        Ok(u) => {},
        Err(Fault::User(e)) => {
            return Err(Fault::User(e));
        },
        Err(f) => {
            return Err(f);
        },
    }
    let album2 = match en.commit(fragments, now) {
        Ok(a) => a,
        Err(Fault::User(e)) => {
            return Err(Fault::User(ApiError::Storage));
        },
        Err(f) => {
            return Err(f);
        },
    };
    let bytes = encode_album(&album2);
    proof {
        lemma_enc_album_v(album2);
    }
    match albums.insert(aid, bytes.as_slice()) {
        Ok(u) => {},
        Err(f) => {
            return Err(f);
        },
    }
    let ikey = compose_key(fid, aid);
    match inclusions.remove(ikey.as_slice()) {
        Ok(u) => Ok(()),
        Err(f) => Err(f),
    }
}

/// The caller must hold a writable role on the album.
pub fn test_user_can_write(user_to_album: &TxMap, uid: &[u8], aid: &[u8]) -> (r: Result<(), Fault>)
    ensures
        match r {
            Ok(u) => can_write(
                StoreView { user_to_album: user_to_album@, ..arbitrary() },
                uid@,
                aid@,
            ),
            Err(Fault::User(e)) => e == ApiError::Unauthorized && !can_write(
                StoreView { user_to_album: user_to_album@, ..arbitrary() },
                uid@,
                aid@,
            ),
            Err(Fault::Store(f)) => true,
        },
{
    let k = compose_key(uid, aid);
    match user_to_album.get(k.as_slice()) {
        Ok(Some(b)) => {
            match decode_role(b.as_slice()) {
                Some(role) => {
                    if role.can_write() {
                        Ok(())
                    } else {
                        Err(Fault::User(ApiError::Unauthorized))
                    }
                },
                None => Err(Fault::User(ApiError::Unauthorized)),
            }
        },
        Ok(None) => Err(Fault::User(ApiError::Unauthorized)),
        Err(f) => Err(f),
    }
}

/// What `serve_fragment` returns: the raw bytes of one fragment, or the
/// album record with the caller's role.
pub enum Served {
    Fragment(Vec<u8>),
    Metadata(Album, Role),
}

/// Serve one fragment of an album, or its metadata; authorization is by
/// presence in `user_to_album`.  Each rejection is tied to its condition,
/// and success is owed whenever the caller is authorized and the requested
/// thing exists, storage faults aside.
pub fn serve_fragment(
    store: &crate::kv::Store,
    key: &[u8],
    uid: &[u8],
    aid: &[u8],
    frag: Option<u64>,
) -> (r: Result<Served, ApiError>)
    ensures
        ({
            let v = crate::kv::store_view(*store);
            match r {
                Ok(Served::Fragment(b)) => logged_in(v, key@) && role_of(v, uid@, aid@) is Some
                    && (frag matches Some(fid) && v.fragments.contains_key(frag_key(aid@, fid))
                    && b@ == v.fragments[frag_key(aid@, fid)]),
                Ok(Served::Metadata(a, role)) => logged_in(v, key@) && frag is None
                    && role_of(v, uid@, aid@) == Some(role) && v.albums.contains_key(aid@)
                    && v.albums[aid@] == enc_album(a),
                Err(e) => e == ApiError::Unauthorized || e == ApiError::NotFound || e
                    == ApiError::Storage,
            }
        }),
        ({
            let v = crate::kv::store_view(*store);
            r == Err::<Served, ApiError>(ApiError::Unauthorized) ==> !logged_in(v, key@)
                || !v.user_to_album.contains_key(compose(uid@, aid@)) || (frag is None
                && !v.albums.contains_key(aid@))
        }),
        ({
            let v = crate::kv::store_view(*store);
            r == Err::<Served, ApiError>(ApiError::NotFound) ==> (frag matches Some(fid)
                && logged_in(v, key@) && v.user_to_album.contains_key(compose(uid@, aid@))
                && !v.fragments.contains_key(frag_key(aid@, fid)))
        }),
        ({
            let v = crate::kv::store_view(*store);
            (logged_in(v, key@) && v.user_to_album.contains_key(compose(uid@, aid@)) && dec_role_v(
                v.user_to_album[compose(uid@, aid@)],
            ) is Some && (match frag {
                Some(fid) => v.fragments.contains_key(frag_key(aid@, fid)),
                None => v.albums.contains_key(aid@) && dec_album_v(v.albums[aid@]) is Some,
            })) ==> (r is Ok || r == Err::<Served, ApiError>(ApiError::Storage))
        }),
{
    match store.get(crate::kv::TreeSel::Sessions, key) {
        Ok(Some(b)) => {},
        Ok(None) => {
            return Err(ApiError::Unauthorized);
        },
        Err(e) => {
            return Err(e);
        },
    }
    let rk = compose_key(uid, aid);
    let role_bytes = match store.get(crate::kv::TreeSel::UserToAlbum, rk.as_slice()) {
        Ok(Some(b)) => b,
        Ok(None) => {
            return Err(ApiError::Unauthorized);
        },
        Err(e) => {
            return Err(e);
        },
    };
    let role = match decode_role(role_bytes.as_slice()) {
        Some(role) => role,
        None => {
            return Err(ApiError::Storage);
        },
    };
    match frag {
        Some(fid) => {
            let fk = crate::engine::get_id(aid, fid);
            match store.get(crate::kv::TreeSel::Fragments, fk.as_slice()) {
                Ok(Some(b)) => Ok(Served::Fragment(b)),
                Ok(None) => Err(ApiError::NotFound),
                Err(e) => Err(e),
            }
        },
        None => {
            let ab = match store.get(crate::kv::TreeSel::Albums, aid) {
                Ok(Some(b)) => b,
                Ok(None) => {
                    return Err(ApiError::Unauthorized);
                },
                Err(e) => {
                    return Err(e);
                },
            };
            let album = match decode_album(ab.as_slice()) {
                Some(a) => a,
                None => {
                    return Err(ApiError::Storage);
                },
            };
            Ok(Served::Metadata(album, role))
        },
    }
}

/// List a user's files by name prefix with paging: a contiguous window of
/// the name index under `owner '.' prefix`, in index order, starting after
/// `skip` matching entries and holding at most `length` pairs of
/// (key, file id).
#[verifier::loop_isolation(false)]
#[verifier::rlimit(100)]
#[verifier::spinoff_prover]
pub fn list_files(
    store: &crate::kv::Store,
    key: &[u8],
    owner: &[u8],
    prefix: &[u8],
    skip: usize,
    length: usize,
) -> (r: Result<Vec<(Vec<u8>, Vec<u8>)>, ApiError>)
    ensures
        ({
            let v = crate::kv::store_view(*store);
            (match r {
                Ok(out) => logged_in(v, key@) && out@.len() <= length && (forall|i: int|
                    0 <= i < out@.len() ==> v.file_names.contains_key(#[trigger] out@[i].0@)
                        && out@[i].1@ == v.file_names[out@[i].0@] && has_prefix(
                        out@[i].0@,
                        compose(owner@, prefix@),
                    )) && (forall|i: int, j: int|
                    0 <= i < j < out@.len() ==> crate::keys::bytes_lt(
                        #[trigger] out@[i].0@,
                        #[trigger] out@[j].0@,
                    )) && (forall|i: int, k: Seq<u8>|
                    0 <= i && i + 1 < out@.len() && v.file_names.contains_key(k) && has_prefix(
                        k,
                        compose(owner@, prefix@),
                    ) && #[trigger] crate::keys::bytes_lt(out@[i].0@, k)
                        && #[trigger] crate::keys::bytes_lt(k, out@[i + 1].0@) ==> false) && (skip
                    == 0 && out@.len() > 0 ==> forall|k: Seq<u8>|
                    v.file_names.contains_key(k) && #[trigger] has_prefix(
                        k,
                        compose(owner@, prefix@),
                    ) ==> !crate::keys::bytes_lt(k, out@[0].0@)) && (out@.len() < length
                    && out@.len() > 0 ==> forall|k: Seq<u8>|
                    v.file_names.contains_key(k) && #[trigger] has_prefix(
                        k,
                        compose(owner@, prefix@),
                    ) ==> !crate::keys::bytes_lt(out@[out@.len() - 1].0@, k)) && (skip == 0
                    && out@.len() == 0 && length > 0 ==> forall|k: Seq<u8>|
                    v.file_names.contains_key(k) ==> !(#[trigger] has_prefix(
                        k,
                        compose(owner@, prefix@),
                    ))),
                Err(e) => (e == ApiError::Unauthorized || e == ApiError::Storage) && (e
                    == ApiError::Unauthorized ==> !logged_in(v, key@)),
            }) && (logged_in(v, key@) ==> (r is Ok || r == Err::<
                Vec<(Vec<u8>, Vec<u8>)>,
                ApiError,
            >(ApiError::Storage)))
        }),
{
    match store.get(crate::kv::TreeSel::Sessions, key) {
        Ok(Some(b)) => {},
        Ok(None) => {
            return Err(ApiError::Unauthorized);
        },
        Err(e) => {
            return Err(e);
        },
    }
    let mut scan_prefix_bytes: Vec<u8> = Vec::new();
    scan_prefix_bytes.extend_from_slice(owner);
    scan_prefix_bytes.push(crate::keys::SEP);
    scan_prefix_bytes.extend_from_slice(prefix);
    proof {
        assert(scan_prefix_bytes@ =~= compose(owner@, prefix@));
    }
    let entries = match store.scan_prefix(
        crate::kv::TreeSel::FileNames,
        scan_prefix_bytes.as_slice(),
    ) {
        Ok(v) => v,
        Err(e) => {
            return Err(e);
        },
    };
    let mut out: Vec<(Vec<u8>, Vec<u8>)> = Vec::new();
    let n = entries.len();
    let start: usize = if skip > n {
        n
    } else {
        skip
    };
    let mut i: usize = start;
    while i < n && out.len() < length
        invariant
            start <= i <= n,
            n == entries@.len(),
            out@.len() == i - start,
            out@.len() <= length,
            forall|j: int|
                0 <= j < out@.len() ==> #[trigger] out@[j].0@ == entries@[start + j].0@
                    && out@[j].1@ == entries@[start + j].1@,
        decreases n - i,
    {
        let mut k: Vec<u8> = Vec::new();
        k.extend_from_slice(entries[i].0.as_slice());
        let mut val: Vec<u8> = Vec::new();
        val.extend_from_slice(entries[i].1.as_slice());
        proof {
            assert(k@ =~= entries@[i as int].0@);
            assert(val@ =~= entries@[i as int].1@);
        }
        out.push((k, val));
        i += 1;
    }
    proof {
        let v = crate::kv::store_view(*store);
        let pfx = compose(owner@, prefix@);
        assert forall|a: int, b: int| 0 <= a < b < out@.len() implies crate::keys::bytes_lt(
            #[trigger] out@[a].0@,
            #[trigger] out@[b].0@,
        ) by {
            assert(crate::keys::bytes_lt(entries@[start + a].0@, entries@[start + b].0@));
        }
        assert forall|a: int, k: Seq<u8>|
            0 <= a && a + 1 < out@.len() && v.file_names.contains_key(k) && has_prefix(k, pfx)
                && #[trigger] crate::keys::bytes_lt(out@[a].0@, k)
                && #[trigger] crate::keys::bytes_lt(k, out@[a + 1].0@) implies false by {
            let q = choose|q: int| 0 <= q < entries@.len() && entries@[q].0@ == k;
            let p = start + a;
            crate::keys::lemma_bytes_lt_trichotomy(entries@[p].0@, k);
            crate::keys::lemma_bytes_lt_trichotomy(k, entries@[p + 1].0@);
            if q <= p {
                if q < p {
                    assert(crate::keys::bytes_lt(entries@[q].0@, entries@[p].0@));
                }
                crate::keys::lemma_bytes_lt_trichotomy(entries@[q].0@, entries@[p].0@);
            } else {
                if p + 1 < q {
                    assert(crate::keys::bytes_lt(entries@[p + 1].0@, entries@[q].0@));
                }
                crate::keys::lemma_bytes_lt_trichotomy(entries@[p + 1].0@, entries@[q].0@);
            }
        }
        if skip == 0 && out@.len() > 0 {
            assert forall|k: Seq<u8>|
                v.file_names.contains_key(k) && #[trigger] has_prefix(k, pfx)
                implies !crate::keys::bytes_lt(k, out@[0].0@) by {
                let q = choose|q: int| 0 <= q < entries@.len() && entries@[q].0@ == k;
                if q > 0 {
                    assert(crate::keys::bytes_lt(entries@[0].0@, entries@[q].0@));
                }
                crate::keys::lemma_bytes_lt_trichotomy(entries@[0].0@, k);
            }
        }
        if out@.len() < length && out@.len() > 0 {
            assert(i == n);
            assert forall|k: Seq<u8>|
                v.file_names.contains_key(k) && #[trigger] has_prefix(k, pfx)
                implies !crate::keys::bytes_lt(out@[out@.len() - 1].0@, k) by {
                let q = choose|q: int| 0 <= q < entries@.len() && entries@[q].0@ == k;
                let last = start + out@.len() - 1;
                assert(last == n - 1);
                if q < last {
                    assert(crate::keys::bytes_lt(entries@[q].0@, entries@[last].0@));
                }
                crate::keys::lemma_bytes_lt_trichotomy(entries@[last].0@, k);
            }
        }
        if skip == 0 && out@.len() == 0 && length > 0 {
            assert(start == 0);
            assert(i == 0);
            assert(n == 0);
            assert forall|k: Seq<u8>|
                v.file_names.contains_key(k) implies !(#[trigger] has_prefix(k, pfx)) by {
                if has_prefix(k, pfx) {
                    let q = choose|q: int| 0 <= q < entries@.len() && entries@[q].0@ == k;
                }
            }
        }
    }
    Ok(out)
}

/// Every session key that begins with the caller's user id, in key order:
/// the caller sees where their account is logged in.
#[verifier::rlimit(100)]
#[verifier::spinoff_prover]
pub fn list_sessions(store: &crate::kv::Store, key: &[u8], uid: &[u8]) -> (r: Result<
    Vec<Vec<u8>>,
    ApiError,
>)
    ensures
        r matches Ok(out) ==> logged_in(crate::kv::store_view(*store), key@),
        r matches Ok(out) ==> forall|i: int|
            0 <= i < out@.len() ==> crate::kv::store_view(*store).sessions.contains_key(
                #[trigger] out@[i]@,
            ) && has_prefix(out@[i]@, uid@),
        r matches Ok(out) ==> forall|k: Seq<u8>|
            crate::kv::store_view(*store).sessions.contains_key(k) && #[trigger] has_prefix(
                k,
                uid@,
            ) ==> out@.map_values(|x: Vec<u8>| x@).contains(k),
        r matches Ok(out) ==> forall|i: int, j: int|
            0 <= i < j < out@.len() ==> crate::keys::bytes_lt(
                #[trigger] out@[i]@,
                #[trigger] out@[j]@,
            ),
        r matches Err(e) ==> (e == ApiError::Unauthorized || e == ApiError::Storage) && (e
            == ApiError::Unauthorized ==> !logged_in(crate::kv::store_view(*store), key@)),
        logged_in(crate::kv::store_view(*store), key@) ==> (r is Ok || r == Err::<
            Vec<Vec<u8>>,
            ApiError,
        >(ApiError::Storage)),
{
    match store.get(crate::kv::TreeSel::Sessions, key) {
        Ok(Some(b)) => {},
        Ok(None) => {
            return Err(ApiError::Unauthorized);
        },
        Err(e) => {
            return Err(e);
        },
    }
    let entries = match store.scan_prefix(crate::kv::TreeSel::Sessions, uid) {
        Ok(v) => v,
        Err(e) => {
            return Err(e);
        },
    };
    let mut out: Vec<Vec<u8>> = Vec::new();
    let n = entries.len();
    let mut i: usize = 0;
    while i < n
        invariant
            i <= n,
            n == entries@.len(),
            forall|j: int| 0 <= j < out@.len() ==> #[trigger] out@[j]@ == entries@[j].0@,
            out@.len() == i,
        decreases n - i,
    {
        let mut k: Vec<u8> = Vec::new();
        k.extend_from_slice(entries[i].0.as_slice());
        proof {
            assert(k@ =~= entries@[i as int].0@);
        }
        out.push(k);
        i += 1;
    }
    proof {
        let v = crate::kv::store_view(*store);
        assert forall|k: Seq<u8>|
            v.sessions.contains_key(k) && #[trigger] has_prefix(k, uid@) implies out@.map_values(
            |x: Vec<u8>| x@,
        ).contains(k) by {
            let p = choose|p: int| 0 <= p < entries@.len() && entries@[p].0@ == k;
            assert(out@[p]@ == k);
            assert(out@.map_values(|x: Vec<u8>| x@)[p] == k);
        }
        assert forall|j: int|
            0 <= j < out@.len() implies v.sessions.contains_key(#[trigger] out@[j]@)
            && has_prefix(out@[j]@, uid@) by {
            assert(out@[j]@ == entries@[j].0@);
        }
        assert forall|a: int, b: int|
            0 <= a < b < out@.len() implies crate::keys::bytes_lt(
            #[trigger] out@[a]@,
            #[trigger] out@[b]@,
        ) by {
            assert(out@[a]@ == entries@[a].0@);
            assert(out@[b]@ == entries@[b].0@);
        }
    }
    Ok(out)
}

/// End every session of the caller's user whose tail begins with `prefix`:
/// the named sessions are removed and nothing else changes.
#[verifier::loop_isolation(false)]
pub fn logout(store: &mut crate::kv::Store, key: &[u8], prefix: &[u8]) -> (r: Result<
    (),
    ApiError,
>)
    ensures
        ({
            let v = crate::kv::store_view(*old(store));
            let v2 = crate::kv::store_view(*final(store));
            &&& (match r {
                Ok(u) => !crate::keys::dot_free(key@) && logged_in(v, key@) && (exists|
                    h: Seq<u8>,
                    t: Seq<u8>,
                |
                    key@ == #[trigger] compose(h, t) && crate::keys::dot_free(h) && (forall|
                        k: Seq<u8>,
                    |
                        #[trigger] v2.sessions.contains_key(k) <==> (v.sessions.contains_key(k)
                            && !has_prefix(k, compose(h, prefix@))))),
                Err(e) => e == ApiError::BadRequest || e == ApiError::Unauthorized || e
                    == ApiError::Storage,
            })
            &&& (r == Err::<(), ApiError>(ApiError::BadRequest) ==> crate::keys::dot_free(key@))
            &&& (r == Err::<(), ApiError>(ApiError::Unauthorized) ==> !logged_in(v, key@))
            &&& v2.users == v.users
            &&& v2.emails == v.emails
            &&& v2.albums == v.albums
            &&& v2.files == v.files
            &&& v2.file_names == v.file_names
            &&& v2.user_to_album == v.user_to_album
            &&& v2.album_to_user == v.album_to_user
            &&& v2.inclusions == v.inclusions
            &&& v2.fragments == v.fragments
            &&& v2.journal == v.journal
            &&& forall|k: Seq<u8>|
                #[trigger] crate::kv::store_view(*final(store)).sessions.contains_key(k)
                    ==> crate::kv::store_view(*old(store)).sessions.contains_key(k)
        }),
{
    let ghost v0 = crate::kv::store_view(*store);
    let (head, _tail) = match crate::keys::split_key(key) {
        Some(parts) => parts,
        None => {
            return Err(ApiError::BadRequest);
        },
    };
    match store.get(crate::kv::TreeSel::Sessions, key) {
        Ok(Some(b)) => {},
        Ok(None) => {
            return Err(ApiError::Unauthorized);
        },
        Err(e) => {
            return Err(e);
        },
    }
    let to_remove = compose_key(head.as_slice(), prefix);
    let entries = match store.scan_prefix(crate::kv::TreeSel::Sessions, to_remove.as_slice()) {
        Ok(v) => v,
        Err(e) => {
            return Err(e);
        },
    };
    let n = entries.len();
    let mut i: usize = 0;
    while i < n
        invariant
            i <= n,
            n == entries@.len(),
            crate::kv::store_view(*store).users == v0.users,
            crate::kv::store_view(*store).emails == v0.emails,
            crate::kv::store_view(*store).albums == v0.albums,
            crate::kv::store_view(*store).files == v0.files,
            crate::kv::store_view(*store).file_names == v0.file_names,
            crate::kv::store_view(*store).user_to_album == v0.user_to_album,
            crate::kv::store_view(*store).album_to_user == v0.album_to_user,
            crate::kv::store_view(*store).inclusions == v0.inclusions,
            crate::kv::store_view(*store).fragments == v0.fragments,
            crate::kv::store_view(*store).journal == v0.journal,
            forall|k: Seq<u8>|
                #[trigger] crate::kv::store_view(*store).sessions.contains_key(k)
                    ==> v0.sessions.contains_key(k),
            forall|k: Seq<u8>|
                v0.sessions.contains_key(k) && !has_prefix(k, to_remove@)
                    ==> #[trigger] crate::kv::store_view(*store).sessions.contains_key(k),
            forall|p: int|
                0 <= p < i ==> !crate::kv::store_view(*store).sessions.contains_key(
                    #[trigger] entries@[p].0@,
                ),
        decreases n - i,
    {
        match store.tree_remove(crate::kv::TreeSel::Sessions, entries[i].0.as_slice()) {
            Ok(u) => {},
            Err(e) => {
                return Err(e);
            },
        }
        i += 1;
    }
    proof {
        let v2 = crate::kv::store_view(*store);
        assert forall|k: Seq<u8>| #[trigger] v2.sessions.contains_key(k) implies (
        v0.sessions.contains_key(k) && !has_prefix(k, to_remove@)) by {
            if has_prefix(k, to_remove@) {
                let p = choose|p: int| 0 <= p < entries@.len() && entries@[p].0@ == k;
            }
        }
        assert(key@ == compose(head@, _tail@));
        assert(to_remove@ == compose(head@, prefix@));
        assert(!crate::keys::dot_free(key@)) by {
            assert(key@[head@.len() as int] == crate::keys::SEP);
        }
        assert(forall|k: Seq<u8>|
            #[trigger] v2.sessions.contains_key(k) <==> (v0.sessions.contains_key(k)
                && !has_prefix(k, compose(head@, prefix@))));
    }
    Ok(())
}

/// Replace the caller's password hash and end every one of their
/// sessions, so only the new secret can open a session again.
#[verifier::loop_isolation(false)]
pub fn change_password(
    store: &mut crate::kv::Store,
    key: &[u8],
    uid: &[u8],
    new_password: &[u8],
) -> (r: Result<(), ApiError>)
    ensures
        ({
            let v = crate::kv::store_view(*old(store));
            let v2 = crate::kv::store_view(*final(store));
            &&& (match r {
                Ok(u) => logged_in(v, key@) && v.users.contains_key(uid@) && (match dec_user_v(
                    v.users[uid@],
                ) {
                    Some(u0) => v2.users == v.users.insert(
                        uid@,
                        enc_user_v(
                            crate::records::UserV { email: u0.email, password: new_password@ },
                        ),
                    ),
                    None => false,
                }) && (forall|k: Seq<u8>|
                    #[trigger] v2.sessions.contains_key(k) <==> (v.sessions.contains_key(k)
                        && !has_prefix(k, prefixed(uid@)))),
                Err(e) => e == ApiError::Unauthorized || e == ApiError::NotFound || e
                    == ApiError::Storage,
            })
            &&& (r == Err::<(), ApiError>(ApiError::Unauthorized) ==> !logged_in(v, key@))
            &&& (r == Err::<(), ApiError>(ApiError::NotFound) ==> !v.users.contains_key(uid@))
            &&& (forall|k: Seq<u8>|
                #[trigger] v2.users.contains_key(k) == v.users.contains_key(k))
            &&& (forall|k: Seq<u8>|
                #[trigger] v2.sessions.contains_key(k) ==> v.sessions.contains_key(k))
            &&& v2.emails == v.emails
            &&& v2.albums == v.albums
            &&& v2.files == v.files
            &&& v2.file_names == v.file_names
            &&& v2.user_to_album == v.user_to_album
            &&& v2.album_to_user == v.album_to_user
            &&& v2.inclusions == v.inclusions
            &&& v2.fragments == v.fragments
            &&& v2.journal == v.journal
        }),
{
    let ghost v0 = crate::kv::store_view(*store);
    match store.get(crate::kv::TreeSel::Sessions, key) {
        Ok(Some(b)) => {},
        Ok(None) => {
            return Err(ApiError::Unauthorized);
        },
        Err(e) => {
            return Err(e);
        },
    }
    let user_bytes = match store.get(crate::kv::TreeSel::Users, uid) {
        Ok(Some(b)) => b,
        Ok(None) => {
            return Err(ApiError::NotFound);
        },
        Err(e) => {
            return Err(e);
        },
    };
    let user = match decode_user(user_bytes.as_slice()) {
        Some(u) => u,
        None => {
            return Err(ApiError::Storage);
        },
    };
    let mut np: Vec<u8> = Vec::new();
    np.extend_from_slice(new_password);
    proof {
        assert(np@ =~= new_password@);
    }
    let user2 = crate::records::User { email: user.email, password: np };
    let bytes = encode_user(&user2);
    proof {
        crate::records::lemma_enc_user_v(user2);
    }
    match store.tree_insert(crate::kv::TreeSel::Users, uid, bytes.as_slice()) {
        Ok(u) => {},
        Err(e) => {
            return Err(e);
        },
    }
    let ghost vu = crate::kv::store_view(*store);
    let pref = crate::keys::prefix_key(uid);
    let entries = match store.scan_prefix(crate::kv::TreeSel::Sessions, pref.as_slice()) {
        Ok(v) => v,
        Err(e) => {
            return Err(e);
        },
    };
    let n = entries.len();
    let mut i: usize = 0;
    while i < n
        invariant
            i <= n,
            n == entries@.len(),
            crate::kv::store_view(*store).users == vu.users,
            crate::kv::store_view(*store).emails == v0.emails,
            crate::kv::store_view(*store).albums == v0.albums,
            crate::kv::store_view(*store).files == v0.files,
            crate::kv::store_view(*store).file_names == v0.file_names,
            crate::kv::store_view(*store).user_to_album == v0.user_to_album,
            crate::kv::store_view(*store).album_to_user == v0.album_to_user,
            crate::kv::store_view(*store).inclusions == v0.inclusions,
            crate::kv::store_view(*store).fragments == v0.fragments,
            crate::kv::store_view(*store).journal == v0.journal,
            forall|k: Seq<u8>|
                #[trigger] crate::kv::store_view(*store).sessions.contains_key(k)
                    ==> v0.sessions.contains_key(k),
            forall|k: Seq<u8>|
                v0.sessions.contains_key(k) && !has_prefix(k, prefixed(uid@))
                    ==> #[trigger] crate::kv::store_view(*store).sessions.contains_key(k),
            forall|p: int|
                0 <= p < i ==> !crate::kv::store_view(*store).sessions.contains_key(
                    #[trigger] entries@[p].0@,
                ),
        decreases n - i,
    {
        match store.tree_remove(crate::kv::TreeSel::Sessions, entries[i].0.as_slice()) {
            Ok(u) => {},
            Err(e) => {
                return Err(e);
            },
        }
        i += 1;
    }
    proof {
        let v2 = crate::kv::store_view(*store);
        assert forall|k: Seq<u8>| #[trigger] v2.sessions.contains_key(k) implies (
        v0.sessions.contains_key(k) && !has_prefix(k, prefixed(uid@))) by {
            if has_prefix(k, prefixed(uid@)) {
                let p = choose|p: int| 0 <= p < entries@.len() && entries@[p].0@ == k;
            }
        }
        assert(vu.users == v0.users.insert(uid@, bytes@));
        assert(v0.users.contains_key(uid@));
        assert forall|k: Seq<u8>| #[trigger] v2.users.contains_key(k) == v0.users.contains_key(
            k,
        ) by {
            if k == uid@ {
                assert(v2.users.contains_key(uid@));
            }
        }
    }
    Ok(())
}

/// Every album the user can reach, with each entry's
/// decoded album record and the user's role on it.
#[verifier::loop_isolation(false)]
pub fn list_albums(store: &crate::kv::Store, key: &[u8], uid: &[u8]) -> (r: Result<
    Vec<(Vec<u8>, Album, Role)>,
    ApiError,
>)
    ensures
        ({
            let v = crate::kv::store_view(*store);
            (match r {
                Ok(out) => logged_in(v, key@) && (forall|i: int|
                    0 <= i < out@.len() ==> v.albums.contains_key(#[trigger] out@[i].0@)
                        && v.albums[out@[i].0@] == enc_album(out@[i].1)
                        && v.user_to_album.contains_key(compose(uid@, out@[i].0@)) && dec_role_v(
                        v.user_to_album[compose(uid@, out@[i].0@)],
                    ) == Some(out@[i].2)) && (crate::keys::dot_free(uid@) ==> forall|a: Seq<u8>|
                    v.user_to_album.contains_key(#[trigger] compose(uid@, a))
                        && v.albums.contains_key(a) ==> exists|i: int|
                        0 <= i < out@.len() && out@[i].0@ == a),
                Err(e) => (e == ApiError::Unauthorized || e == ApiError::Storage) && (e
                    == ApiError::Unauthorized ==> !logged_in(v, key@)),
            }) && (logged_in(v, key@) ==> (r is Ok || r == Err::<
                Vec<(Vec<u8>, Album, Role)>,
                ApiError,
            >(ApiError::Storage)))
        }),
{
    match store.get(crate::kv::TreeSel::Sessions, key) {
        Ok(Some(b)) => {},
        Ok(None) => {
            return Err(ApiError::Unauthorized);
        },
        Err(e) => {
            return Err(e);
        },
    }
    let pref = crate::keys::prefix_key(uid);
    let edges = match store.scan_prefix(crate::kv::TreeSel::UserToAlbum, pref.as_slice()) {
        Ok(v) => v,
        Err(e) => {
            return Err(e);
        },
    };
    let mut out: Vec<(Vec<u8>, Album, Role)> = Vec::new();
    let n = edges.len();
    let mut i: usize = 0;
    while i < n
        invariant
            i <= n,
            n == edges@.len(),
            forall|j: int|
                0 <= j < out@.len() ==> crate::kv::store_view(*store).albums.contains_key(
                    #[trigger] out@[j].0@,
                ) && crate::kv::store_view(*store).albums[out@[j].0@] == enc_album(out@[j].1)
                    && crate::kv::store_view(*store).user_to_album.contains_key(
                    compose(uid@, out@[j].0@),
                ) && dec_role_v(
                    crate::kv::store_view(*store).user_to_album[compose(uid@, out@[j].0@)],
                ) == Some(out@[j].2),
            crate::keys::dot_free(uid@) ==> forall|a: Seq<u8>, p: int|
                0 <= p < i && #[trigger] edges@[p].0@ == #[trigger] compose(uid@, a)
                    && crate::kv::store_view(*store).albums.contains_key(a) ==> exists|j: int|
                    0 <= j < out@.len() && out@[j].0@ == a,
        decreases n - i,
    {
        let ghost pre_out = out@;
        let edge_key = &edges[i].0;
        proof {
            assert(has_prefix(edge_key@, crate::keys::prefixed(uid@)));
            assert(edge_key@[uid@.len() as int] == crate::keys::prefixed(uid@)[uid@.len() as int]);
            assert(edge_key@[uid@.len() as int] == crate::keys::SEP);
        }
        match crate::keys::split_key(edge_key.as_slice()) {
            Some((head, aid)) => {
                proof {
                    if crate::keys::dot_free(uid@) {
                        assert forall|a: Seq<u8>| edge_key@ == compose(uid@, a) implies head@
                            == uid@ && aid@ == a by {
                            crate::keys::lemma_compose_injective(head@, aid@, uid@, a);
                        }
                    }
                }
                if crate::keys::bytes_eq(head.as_slice(), uid) {
                    let role = match decode_role(edges[i].1.as_slice()) {
                        Some(role) => role,
                        None => {
                            return Err(ApiError::Storage);
                        },
                    };
                    match store.get(crate::kv::TreeSel::Albums, aid.as_slice()) {
                        Ok(Some(ab)) => {
                            let album = match decode_album(ab.as_slice()) {
                                Some(a) => a,
                                None => {
                                    return Err(ApiError::Storage);
                                },
                            };
                            proof {
                                assert(compose(uid@, aid@) =~= edge_key@);
                            }
                            let ghost aidv = aid@;
                            out.push((aid, album, role));
                            proof {
                                assert(out@[out@.len() - 1].0@ == aidv);
                                assert(forall|j: int|
                                    0 <= j < pre_out.len() ==> out@[j] == #[trigger] pre_out[j]);
                                if crate::keys::dot_free(uid@) {
                                    assert forall|a: Seq<u8>|
                                        edges@[i as int].0@ == compose(uid@, a) implies exists|
                                        j: int,
                                    | 0 <= j < out@.len() && out@[j].0@ == a by {
                                        assert(a == aidv);
                                        assert(out@[out@.len() - 1].0@ == a);
                                    }
                                }
                            }
                        },
                        Ok(None) => {
                            proof {
                                if crate::keys::dot_free(uid@) {
                                    assert forall|a: Seq<u8>|
                                        edges@[i as int].0@ == compose(uid@, a)
                                        implies !crate::kv::store_view(
                                        *store,
                                    ).albums.contains_key(a) by {
                                        assert(a == aid@);
                                    }
                                }
                            }
                        },
                        Err(e) => {
                            return Err(e);
                        },
                    }
                } else {
                    proof {
                        if crate::keys::dot_free(uid@) {
                            assert forall|a: Seq<u8>|
                                edges@[i as int].0@ == compose(uid@, a) implies false by {}
                        }
                    }
                }
            },
            None => {
                proof {
                    assert(false);
                }
            },
        }
        i += 1;
    }
    proof {
        if crate::keys::dot_free(uid@) {
            let v = crate::kv::store_view(*store);
            assert forall|a: Seq<u8>|
                v.user_to_album.contains_key(#[trigger] compose(uid@, a)) && v.albums.contains_key(
                    a,
                ) implies exists|j: int| 0 <= j < out@.len() && out@[j].0@ == a by {
                let k = compose(uid@, a);
                assert(has_prefix(k, crate::keys::prefixed(uid@))) by {
                    assert(k.subrange(0, crate::keys::prefixed(uid@).len() as int)
                        =~= crate::keys::prefixed(uid@));
                }
                let p = choose|p: int| 0 <= p < edges@.len() && edges@[p].0@ == k;
            }
        }
    }
    Ok(out)
}

} // verus!
