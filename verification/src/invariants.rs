//! The catalog's cross-tree invariants, and proofs that the transactional
//! operations preserve them.
//!
//! Each invariant quantifies over well-formed ids (the id alphabet never
//! holds the key separator, so composite keys split uniquely).  The
//! operations are given fresh or index-supplied ids by their callers; the
//! lemmas take that well-formedness as hypotheses.

use vstd::prelude::*;
use crate::error::ApiError;
use crate::keys::{compose, valid_id, dot_free, lemma_valid_id_dot_free, lemma_compose_injective};
use crate::records::{dec_file_v, dec_role_v};
use crate::store::{
    StoreView, role_of, spec_create_user, spec_create_album, spec_share, spec_unshare,
    spec_upload_file, spec_remove_acl_pair, spec_delete_file_head, spec_delete_user_head,
};
use crate::wire::Role;

verus! {

/// The forward and reverse permission trees mirror one another: an edge
/// `user '.' album` exists exactly when `album '.' user` does.
pub open spec fn acl_mirror(v: StoreView) -> bool {
    forall|u: Seq<u8>, a: Seq<u8>|
        valid_id(u) && valid_id(a) ==> (#[trigger] v.user_to_album.contains_key(compose(u, a))
            <==> #[trigger] v.album_to_user.contains_key(compose(a, u)))
}

/// At most one user holds the Owner role on any album.
pub open spec fn owner_unique(v: StoreView) -> bool {
    forall|a: Seq<u8>, u1: Seq<u8>, u2: Seq<u8>|
        valid_id(a) && valid_id(u1) && valid_id(u2) && #[trigger] role_of(v, u1, a) == Some(
            Role::Owner,
        ) && #[trigger] role_of(v, u2, a) == Some(Role::Owner) ==> u1 == u2
}

/// The per-owner name index points at files that carry exactly that owner
/// and name, and every stored file is indexed under its own name.
pub open spec fn names_consistent(v: StoreView) -> bool {
    &&& forall|o: Seq<u8>, n: Seq<u8>|
        valid_id(o) && #[trigger] v.file_names.contains_key(compose(o, n)) ==> {
            let fid = v.file_names[compose(o, n)];
            &&& v.files.contains_key(fid)
            &&& dec_file_v(v.files[fid]) is Some
            &&& dec_file_v(v.files[fid]).unwrap().owner_id == o
            &&& dec_file_v(v.files[fid]).unwrap().name == n
        }
    &&& forall|fid: Seq<u8>|
        #[trigger] v.files.contains_key(fid) ==> (dec_file_v(v.files[fid]) matches Some(f)
            && valid_id(f.owner_id) && v.file_names.contains_key(compose(f.owner_id, f.name))
            && v.file_names[compose(f.owner_id, f.name)] == fid)
}

/// Granting a non-Owner role keeps the permission mirror.
pub proof fn lemma_share_keeps_mirror(
    v: StoreView,
    key: Seq<u8>,
    uid: Seq<u8>,
    aid: Seq<u8>,
    email: Seq<u8>,
    role: Role,
)
    requires
        acl_mirror(v),
        valid_id(aid),
        v.emails.contains_key(email) ==> valid_id(v.emails[email]),
    ensures
        acl_mirror(spec_share(v, key, uid, aid, email, role).0),
{
    let v2 = spec_share(v, key, uid, aid, email, role).0;
    if v2 != v {
        let target = v.emails[email];
        lemma_valid_id_dot_free(target);
        lemma_valid_id_dot_free(aid);
        assert forall|u: Seq<u8>, a: Seq<u8>| valid_id(u) && valid_id(a) implies (
        #[trigger] v2.user_to_album.contains_key(compose(u, a))
            <==> #[trigger] v2.album_to_user.contains_key(compose(a, u))) by {
            lemma_valid_id_dot_free(u);
            lemma_valid_id_dot_free(a);
            if compose(u, a) == compose(target, aid) {
                lemma_compose_injective(u, a, target, aid);
            }
            if compose(a, u) == compose(aid, target) {
                lemma_compose_injective(a, u, aid, target);
            }
        }
    }
}

/// Creating an album grants its creator a mirrored pair of edges.
pub proof fn lemma_create_album_keeps_mirror(
    v: StoreView,
    key: Seq<u8>,
    uid: Seq<u8>,
    aid: Seq<u8>,
    name: Seq<u8>,
    zone: Seq<u8>,
    now: int,
)
    requires
        acl_mirror(v),
        valid_id(uid),
        valid_id(aid),
    ensures
        acl_mirror(spec_create_album(v, key, uid, aid, name, zone, now).0),
{
    let v2 = spec_create_album(v, key, uid, aid, name, zone, now).0;
    if v2 != v {
        lemma_valid_id_dot_free(uid);
        lemma_valid_id_dot_free(aid);
        assert forall|u: Seq<u8>, a: Seq<u8>| valid_id(u) && valid_id(a) implies (
        #[trigger] v2.user_to_album.contains_key(compose(u, a))
            <==> #[trigger] v2.album_to_user.contains_key(compose(a, u))) by {
            lemma_valid_id_dot_free(u);
            lemma_valid_id_dot_free(a);
            if compose(u, a) == compose(uid, aid) {
                lemma_compose_injective(u, a, uid, aid);
            }
            if compose(a, u) == compose(aid, uid) {
                lemma_compose_injective(a, u, aid, uid);
            }
        }
    }
}

/// Dropping both edges of one pair keeps the mirror.
pub proof fn lemma_remove_acl_pair_keeps_mirror(v: StoreView, aid: Seq<u8>, uid: Seq<u8>)
    requires
        acl_mirror(v),
        valid_id(uid),
        valid_id(aid),
    ensures
        acl_mirror(spec_remove_acl_pair(v, aid, uid)),
{
    let v2 = spec_remove_acl_pair(v, aid, uid);
    lemma_valid_id_dot_free(uid);
    lemma_valid_id_dot_free(aid);
    assert forall|u: Seq<u8>, a: Seq<u8>| valid_id(u) && valid_id(a) implies (
    #[trigger] v2.user_to_album.contains_key(compose(u, a))
        <==> #[trigger] v2.album_to_user.contains_key(compose(a, u))) by {
        lemma_valid_id_dot_free(u);
        lemma_valid_id_dot_free(a);
        if compose(u, a) == compose(uid, aid) {
            lemma_compose_injective(u, a, uid, aid);
        }
        if compose(a, u) == compose(aid, uid) {
            lemma_compose_injective(a, u, aid, uid);
        }
    }
}

/// Unsharing removes one mirrored pair (and touches nothing else in the
/// permission trees), keeping the mirror.
pub proof fn lemma_unshare_keeps_mirror(
    v: StoreView,
    key: Seq<u8>,
    uid: Seq<u8>,
    aid: Seq<u8>,
    email: Seq<u8>,
    now: int,
)
    requires
        acl_mirror(v),
        valid_id(aid),
        v.emails.contains_key(email) ==> valid_id(v.emails[email]),
    ensures
        acl_mirror(spec_unshare(v, key, uid, aid, email, now).0),
{
    let v2 = spec_unshare(v, key, uid, aid, email, now).0;
    if v2 != v && v2.user_to_album != v.user_to_album {
        let target = v.emails[email];
        lemma_valid_id_dot_free(target);
        lemma_valid_id_dot_free(aid);
        assert forall|u: Seq<u8>, a: Seq<u8>| valid_id(u) && valid_id(a) implies (
        #[trigger] v2.user_to_album.contains_key(compose(u, a))
            <==> #[trigger] v2.album_to_user.contains_key(compose(a, u))) by {
            lemma_valid_id_dot_free(u);
            lemma_valid_id_dot_free(a);
            if compose(u, a) == compose(target, aid) {
                lemma_compose_injective(u, a, target, aid);
            }
            if compose(a, u) == compose(aid, target) {
                lemma_compose_injective(a, u, aid, target);
            }
        }
    }
}

/// Sharing never mints a second Owner: the granted role is not Owner, and an
/// existing Owner's entry is never overwritten.
pub proof fn lemma_share_keeps_owner_unique(
    v: StoreView,
    key: Seq<u8>,
    uid: Seq<u8>,
    aid: Seq<u8>,
    email: Seq<u8>,
    role: Role,
)
    requires
        owner_unique(v),
        valid_id(aid),
        v.emails.contains_key(email) ==> valid_id(v.emails[email]),
    ensures
        owner_unique(spec_share(v, key, uid, aid, email, role).0),
{
    let v2 = spec_share(v, key, uid, aid, email, role).0;
    if v2 != v {
        let target = v.emails[email];
        lemma_valid_id_dot_free(target);
        lemma_valid_id_dot_free(aid);
        assert forall|a: Seq<u8>, u1: Seq<u8>, u2: Seq<u8>|
            valid_id(a) && valid_id(u1) && valid_id(u2) && #[trigger] role_of(v2, u1, a) == Some(
                Role::Owner,
            ) && #[trigger] role_of(v2, u2, a) == Some(Role::Owner) implies u1 == u2 by {
            lemma_valid_id_dot_free(a);
            lemma_valid_id_dot_free(u1);
            lemma_valid_id_dot_free(u2);
            if compose(u1, a) == compose(target, aid) {
                lemma_compose_injective(u1, a, target, aid);
            }
            if compose(u2, a) == compose(target, aid) {
                lemma_compose_injective(u2, a, target, aid);
            }
            assert(role_of(v, u1, a) == Some(Role::Owner));
            assert(role_of(v, u2, a) == Some(Role::Owner));
        }
    }
}

/// Creating an album makes its creator the one Owner; other albums keep
/// theirs.
pub proof fn lemma_create_album_keeps_owner_unique(
    v: StoreView,
    key: Seq<u8>,
    uid: Seq<u8>,
    aid: Seq<u8>,
    name: Seq<u8>,
    zone: Seq<u8>,
    now: int,
)
    requires
        owner_unique(v),
        valid_id(uid),
        valid_id(aid),
        forall|u: Seq<u8>|
            valid_id(u) ==> #[trigger] role_of(v, u, aid) != Some(Role::Owner),
    ensures
        owner_unique(spec_create_album(v, key, uid, aid, name, zone, now).0),
{
    let v2 = spec_create_album(v, key, uid, aid, name, zone, now).0;
    if v2 != v {
        lemma_valid_id_dot_free(uid);
        lemma_valid_id_dot_free(aid);
        assert forall|a: Seq<u8>, u1: Seq<u8>, u2: Seq<u8>|
            valid_id(a) && valid_id(u1) && valid_id(u2) && #[trigger] role_of(v2, u1, a) == Some(
                Role::Owner,
            ) && #[trigger] role_of(v2, u2, a) == Some(Role::Owner) implies u1 == u2 by {
            lemma_valid_id_dot_free(a);
            lemma_valid_id_dot_free(u1);
            lemma_valid_id_dot_free(u2);
            if compose(u1, a) == compose(uid, aid) {
                lemma_compose_injective(u1, a, uid, aid);
            }
            if compose(u2, a) == compose(uid, aid) {
                lemma_compose_injective(u2, a, uid, aid);
            }
            if u1 != uid || a != aid {
                assert(role_of(v, u1, a) == Some(Role::Owner));
            }
            if u2 != uid || a != aid {
                assert(role_of(v, u2, a) == Some(Role::Owner));
            }
        }
    }
}

/// Uploading keeps the name index consistent: the new file is fresh, its
/// name is free, and both sides are inserted together.
pub proof fn lemma_upload_keeps_names(
    v: StoreView,
    key: Seq<u8>,
    owner: Seq<u8>,
    fid: Seq<u8>,
    file: crate::records::FileV,
)
    requires
        names_consistent(v),
        valid_id(owner),
        file.owner_id == owner,
        dec_file_v(crate::records::enc_file_v(file)) == Some(file),
    ensures
        names_consistent(spec_upload_file(v, key, owner, fid, file).0),
{
    let v2 = spec_upload_file(v, key, owner, fid, file).0;
    if v2 != v {
        lemma_valid_id_dot_free(owner);
        assert forall|o: Seq<u8>, n: Seq<u8>|
            valid_id(o) && #[trigger] v2.file_names.contains_key(compose(o, n)) implies {
            let f2 = v2.file_names[compose(o, n)];
            &&& v2.files.contains_key(f2)
            &&& dec_file_v(v2.files[f2]) is Some
            &&& dec_file_v(v2.files[f2]).unwrap().owner_id == o
            &&& dec_file_v(v2.files[f2]).unwrap().name == n
        } by {
            lemma_valid_id_dot_free(o);
            if compose(o, n) == compose(owner, file.name) {
                lemma_compose_injective(o, n, owner, file.name);
            } else {
                assert(v.file_names.contains_key(compose(o, n)));
                let fx = v.file_names[compose(o, n)];
                if fx == fid {
                    assert(v.files.contains_key(fid));
                    assert(false);
                }
            }
        }
        assert forall|f2: Seq<u8>| #[trigger] v2.files.contains_key(f2) implies (dec_file_v(
            v2.files[f2],
        ) matches Some(f) && valid_id(f.owner_id) && v2.file_names.contains_key(
            compose(f.owner_id, f.name),
        ) && v2.file_names[compose(f.owner_id, f.name)] == f2) by {
            if f2 == fid {
            } else {
                assert(v.files.contains_key(f2));
                let f = dec_file_v(v.files[f2]).unwrap();
                lemma_valid_id_dot_free(f.owner_id);
                if compose(f.owner_id, f.name) == compose(owner, file.name) {
                    lemma_compose_injective(f.owner_id, f.name, owner, file.name);
                    assert(v.file_names.contains_key(compose(owner, file.name)));
                    assert(false);
                }
            }
        }
    }
}

/// Replaying a finished album delete is a no-op: removing what is already
/// gone changes nothing.
pub proof fn lemma_remove_acl_pair_idempotent(v: StoreView, aid: Seq<u8>, uid: Seq<u8>)
    ensures
        spec_remove_acl_pair(spec_remove_acl_pair(v, aid, uid), aid, uid) == spec_remove_acl_pair(
            v,
            aid,
            uid,
        ),
{
    let v1 = spec_remove_acl_pair(v, aid, uid);
    let v2 = spec_remove_acl_pair(v1, aid, uid);
    assert(v2.user_to_album =~= v1.user_to_album);
    assert(v2.album_to_user =~= v1.album_to_user);
}

/// Replaying a finished file-delete head is a no-op.
pub proof fn lemma_delete_file_head_idempotent(v: StoreView, fid: Seq<u8>, file: crate::records::FileV)
    ensures
        spec_delete_file_head(spec_delete_file_head(v, fid, file), fid, file)
            == spec_delete_file_head(v, fid, file),
{
    let v1 = spec_delete_file_head(v, fid, file);
    let v2 = spec_delete_file_head(v1, fid, file);
    assert(v2.files =~= v1.files);
    assert(v2.file_names =~= v1.file_names);
}

/// Replaying a finished user-delete head is a no-op: the user row is gone,
/// so the second pass does nothing.
pub proof fn lemma_delete_user_head_idempotent(v: StoreView, uid: Seq<u8>)
    ensures
        ({
            let v1 = spec_delete_user_head(v, uid).0;
            spec_delete_user_head(v1, uid).0 == v1
        }),
{
}

/// Creating an album establishes the album invariant for it: the fresh id
/// has no fragments yet, and creation writes exactly the empty Top at id 0
/// with a zeroed record.
pub proof fn lemma_create_album_establishes_inv(
    v: StoreView,
    key: Seq<u8>,
    uid: Seq<u8>,
    aid: Seq<u8>,
    name: Seq<u8>,
    zone: Seq<u8>,
    now: int,
)
    requires
        valid_id(aid),
        forall|k: Seq<u8>|
            #[trigger] v.fragments.contains_key(k) ==> !crate::keys::has_prefix(
                k,
                crate::keys::prefixed(aid),
            ),
        spec_create_album(v, key, uid, aid, name, zone, now).1 is Ok,
        name.len() <= usize::MAX,
        zone.len() <= usize::MAX,
        i64::MIN <= now <= i64::MAX,
    ensures
        ({
            let v2 = spec_create_album(v, key, uid, aid, name, zone, now).0;
            &&& crate::records::dec_album_v(v2.albums[aid]) is Some
            &&& crate::engine::album_inv(
                v2.fragments,
                aid,
                crate::records::dec_album_v(v2.albums[aid]).unwrap(),
            )
        }),
{
    let v2 = spec_create_album(v, key, uid, aid, name, zone, now).0;
    let a = crate::records::AlbumV {
        name,
        time_zone: zone,
        fragment_head: 0,
        length: 0,
        last_update: now,
        date_range: None,
    };
    crate::records::lemma_dec_enc_album_v(a);
    assert(v2.albums[aid] == crate::records::enc_album_v(a));
    crate::engine::lemma_fresh_album_inv(v2.fragments, aid, a);
}

/// The album's current fragments hold an entry for file `f`.
pub open spec fn album_holds_file(v: StoreView, a: Seq<u8>, f: Seq<u8>) -> bool {
    &&& v.albums.contains_key(a)
    &&& crate::records::dec_album_v(v.albums[a]) is Some
    &&& ({
        let album = crate::records::dec_album_v(v.albums[a]).unwrap();
        let hk = crate::engine::frag_key(a, album.fragment_head);
        &&& v.fragments.contains_key(hk)
        &&& crate::json::sp_top(v.fragments[hk]) is Some
        &&& exists|j: int, i: int| #[trigger] holds_at(v, a, f, j, i)
    })
}

/// Entry `i` of the Section that entry `j` of the album's Top points at is
/// the file `f`.
pub open spec fn holds_at(v: StoreView, a: Seq<u8>, f: Seq<u8>, j: int, i: int) -> bool {
    let album = crate::records::dec_album_v(v.albums[a]).unwrap();
    let hk = crate::engine::frag_key(a, album.fragment_head);
    let t = crate::json::sp_top(v.fragments[hk]).unwrap();
    &&& 0 <= j < t.len()
    &&& crate::json::sp_section(v.fragments[crate::engine::frag_key(a, t[j].fragment_id as u64)]) is Some
    &&& 0 <= i < crate::json::sp_section(
        v.fragments[crate::engine::frag_key(a, t[j].fragment_id as u64)],
    ).unwrap().len()
    &&& crate::json::sp_section(
        v.fragments[crate::engine::frag_key(a, t[j].fragment_id as u64)],
    ).unwrap()[i].file_id == f
}

/// An inclusion edge `file '.' album` exists exactly when some Section of
/// the album holds the file.
pub open spec fn inclusion_mirror(v: StoreView) -> bool {
    forall|f: Seq<u8>, a: Seq<u8>|
        valid_id(f) && valid_id(a) ==> (#[trigger] v.inclusions.contains_key(compose(f, a))
            <==> album_holds_file(v, a, f))
}

/// Operations that touch neither the inclusion edges nor any album's
/// fragments keep the inclusion mirror.
pub proof fn lemma_untouched_keeps_inclusion_mirror(v: StoreView, v2: StoreView)
    requires
        inclusion_mirror(v),
        v2.inclusions == v.inclusions,
        v2.albums == v.albums,
        v2.fragments == v.fragments,
    ensures
        inclusion_mirror(v2),
{
    assert forall|f: Seq<u8>, a: Seq<u8>| valid_id(f) && valid_id(a) implies (
    #[trigger] v2.inclusions.contains_key(compose(f, a)) <==> album_holds_file(v2, a, f)) by {
        assert forall|j: int, i: int| #[trigger] holds_at(v2, a, f, j, i) == holds_at(
            v,
            a,
            f,
            j,
            i,
        ) by {}
        assert(album_holds_file(v2, a, f) == album_holds_file(v, a, f)) by {
            if album_holds_file(v, a, f) {
                let (j, i) = choose|j: int, i: int| #[trigger] holds_at(v, a, f, j, i);
                assert(holds_at(v2, a, f, j, i));
            }
            if album_holds_file(v2, a, f) {
                let (j, i) = choose|j: int, i: int| #[trigger] holds_at(v2, a, f, j, i);
                assert(holds_at(v, a, f, j, i));
            }
        }
    }
}

/// Sign-up keeps the inclusion mirror.
pub proof fn lemma_create_user_keeps_inclusion_mirror(
    v: StoreView,
    uid: Seq<u8>,
    email: Seq<u8>,
    password: Seq<u8>,
)
    requires
        inclusion_mirror(v),
    ensures
        inclusion_mirror(spec_create_user(v, uid, email, password).0),
{
    lemma_untouched_keeps_inclusion_mirror(v, spec_create_user(v, uid, email, password).0);
}

/// Upload keeps the inclusion mirror: a fresh file is in no album yet.
pub proof fn lemma_upload_keeps_inclusion_mirror(
    v: StoreView,
    key: Seq<u8>,
    owner: Seq<u8>,
    fid: Seq<u8>,
    file: crate::records::FileV,
)
    requires
        inclusion_mirror(v),
    ensures
        inclusion_mirror(spec_upload_file(v, key, owner, fid, file).0),
{
    lemma_untouched_keeps_inclusion_mirror(v, spec_upload_file(v, key, owner, fid, file).0);
}

/// Sharing keeps the inclusion mirror.
pub proof fn lemma_share_keeps_inclusion_mirror(
    v: StoreView,
    key: Seq<u8>,
    uid: Seq<u8>,
    aid: Seq<u8>,
    email: Seq<u8>,
    role: Role,
)
    requires
        inclusion_mirror(v),
    ensures
        inclusion_mirror(spec_share(v, key, uid, aid, email, role).0),
{
    lemma_untouched_keeps_inclusion_mirror(v, spec_share(v, key, uid, aid, email, role).0);
}

/// Creating an album keeps the inclusion mirror: the fresh album's Top is
/// empty and no edge names a fresh id.
pub proof fn lemma_create_album_keeps_inclusion_mirror(
    v: StoreView,
    key: Seq<u8>,
    uid: Seq<u8>,
    aid: Seq<u8>,
    name: Seq<u8>,
    zone: Seq<u8>,
    now: int,
)
    requires
        inclusion_mirror(v),
        valid_id(aid),
        forall|f: Seq<u8>| !v.inclusions.contains_key(#[trigger] compose(f, aid)),
        forall|k: Seq<u8>|
            #[trigger] v.fragments.contains_key(k) ==> !crate::keys::has_prefix(
                k,
                crate::keys::prefixed(aid),
            ),
        !v.albums.contains_key(aid),
        name.len() <= usize::MAX,
        zone.len() <= usize::MAX,
        i64::MIN <= now <= i64::MAX,
    ensures
        inclusion_mirror(spec_create_album(v, key, uid, aid, name, zone, now).0),
{
    let v2 = spec_create_album(v, key, uid, aid, name, zone, now).0;
    if v2 != v {
        lemma_valid_id_dot_free(aid);
        let a0 = crate::records::AlbumV {
            name,
            time_zone: zone,
            fragment_head: 0,
            length: 0,
            last_update: now,
            date_range: None,
        };
        crate::records::lemma_dec_enc_album_v(a0);
        crate::json::lemma_parse_top_enc(Seq::empty());
        assert forall|f: Seq<u8>, a: Seq<u8>| valid_id(f) && valid_id(a) implies (
        #[trigger] v2.inclusions.contains_key(compose(f, a)) <==> album_holds_file(v2, a, f)) by {
            lemma_valid_id_dot_free(f);
            lemma_valid_id_dot_free(a);
            if a == aid {
                assert(crate::records::dec_album_v(v2.albums[aid]) == Some(a0));
                assert(crate::json::sp_top(
                    v2.fragments[crate::engine::frag_key(aid, 0)],
                ) == Some(Seq::<crate::json::TopEntryV>::empty()));
                assert(!album_holds_file(v2, a, f));
            } else {
                assert(v2.albums.contains_key(a) == v.albums.contains_key(a));
                if v.albums.contains_key(a) {
                    assert(v2.albums[a] == v.albums[a]);
                    assert forall|fid2: u64|
                        v2.fragments[#[trigger] crate::engine::frag_key(a, fid2)]
                            == v.fragments[crate::engine::frag_key(a, fid2)] && v2.fragments.contains_key(
                            crate::engine::frag_key(a, fid2),
                        ) == v.fragments.contains_key(crate::engine::frag_key(a, fid2)) by {
                        if crate::engine::frag_key(a, fid2) == crate::engine::frag_key(aid, 0) {
                            crate::keys::lemma_compose_injective(
                                a,
                                crate::bytes::be8(fid2),
                                aid,
                                crate::bytes::be8(0),
                            );
                        }
                    }
                    assert forall|j: int, i: int| #[trigger] holds_at(v2, a, f, j, i) == holds_at(
                        v,
                        a,
                        f,
                        j,
                        i,
                    ) by {}
                    assert(album_holds_file(v2, a, f) == album_holds_file(v, a, f)) by {
                        if album_holds_file(v, a, f) {
                            let (j, i) = choose|j: int, i: int| #[trigger] holds_at(v, a, f, j, i);
                            assert(holds_at(v2, a, f, j, i));
                        }
                        if album_holds_file(v2, a, f) {
                            let (j, i) = choose|j: int, i: int|
                                #[trigger] holds_at(v2, a, f, j, i);
                            assert(holds_at(v, a, f, j, i));
                        }
                    }
                } else {
                    assert(!album_holds_file(v2, a, f) && !album_holds_file(v, a, f));
                }
            }
        }
    }
}

} // verus!
