//! Trusted boundary to the embedded ordered key-value store (sled).
//!
//! `TxMap` wraps one transactional tree handle and is specified as a map
//! from byte keys to byte values; `Fault` carries either a user-level abort
//! or the store's own fault through a transaction body.

use vstd::prelude::*;
use sled::Transactional;
use crate::error::ApiError;

verus! {

#[verifier::external_type_specification]
#[verifier::external_body]
pub struct ExUnabortableTransactionError(sled::transaction::UnabortableTransactionError);

#[verifier::external_type_specification]
#[verifier::external_body]
pub struct ExTransactionalTree(sled::transaction::TransactionalTree);

#[verifier::external_type_specification]
#[verifier::external_body]
pub struct ExTree(sled::Tree);

/// Why a transaction body stopped: a user-visible rejection (the transaction
/// aborts and surfaces it), or a store fault (conflict or storage error,
/// handed back to the store's retry machinery).
pub enum Fault {
    User(ApiError),
    Store(sled::transaction::UnabortableTransactionError),
}

/// What a transactional tree holds, as a map from byte keys to byte values.
pub uninterp spec fn tx_view(t: TxMap) -> Map<Seq<u8>, Seq<u8>>;

/// One tree's handle inside a transaction.
#[verifier::external_body]
pub struct TxMap {
    inner: sled::transaction::TransactionalTree,
}

impl View for TxMap {
    type V = Map<Seq<u8>, Seq<u8>>;

    open spec fn view(&self) -> Map<Seq<u8>, Seq<u8>> {
        tx_view(*self)
    }
}

impl TxMap {
    /// Used by the transaction runner to hand a tree into verified code.
    #[verifier::external_body]
    pub(crate) fn wrap(inner: &sled::transaction::TransactionalTree) -> TxMap {
        TxMap { inner: inner.clone() }
    }

    /// Relies on `TransactionalTree::get`: the value stored under `key`.
    #[verifier::external_body]
    pub fn get(&self, key: &[u8]) -> (r: Result<Option<Vec<u8>>, Fault>)
        ensures
            match r {
                Ok(Some(v)) => tx_view(*self).contains_key(key@) && v@ == tx_view(*self)[key@],
                Ok(None) => !tx_view(*self).contains_key(key@),
                Err(f) => f is Store,
            },
    {
        match self.inner.get(key) {
            Ok(Some(v)) => Ok(Some(v.to_vec())),
            Ok(None) => Ok(None),
            Err(e) => Err(Fault::Store(e)),
        }
    }

    /// Relies on `TransactionalTree::insert`: sets `key` to `value`.
    #[verifier::external_body]
    pub fn insert(&mut self, key: &[u8], value: &[u8]) -> (r: Result<(), Fault>)
        ensures
            match r {
                Ok(u) => tx_view(*final(self)) == tx_view(*old(self)).insert(key@, value@),
                Err(f) => f is Store && tx_view(*final(self)) == tx_view(*old(self)),
            },
    {
        match self.inner.insert(key, value) {
            Ok(_) => Ok(()),
            Err(e) => Err(Fault::Store(e)),
        }
    }

    /// Relies on `TransactionalTree::remove`: clears `key`.  The removal is
    /// staged into the transaction's write cache before the internal read can
    /// fail, so the staged view loses the key whether or not an error comes
    /// back.
    #[verifier::external_body]
    pub fn remove(&mut self, key: &[u8]) -> (r: Result<(), Fault>)
        ensures
            tx_view(*final(self)) == tx_view(*old(self)).remove(key@),
            r matches Err(f) ==> f is Store,
    {
        match self.inner.remove(key) {
            Ok(_) => Ok(()),
            Err(e) => Err(Fault::Store(e)),
        }
    }
}

#[verifier::external_type_specification]
#[verifier::external_body]
#[verifier::reject_recursive_types(T)]
pub struct ExConflictableTransactionError<T>(sled::transaction::ConflictableTransactionError<T>);

#[verifier::external_type_specification]
#[verifier::external_body]
#[verifier::reject_recursive_types(T)]
pub struct ExTransactionError<T>(sled::transaction::TransactionError<T>);

/// Turns a body's verdict into what sled's transaction loop expects: user
/// rejections abort, store faults feed the retry machinery.
#[verifier::external_body]
fn map_fault<T>(r: Result<T, Fault>) -> sled::transaction::ConflictableTransactionResult<
    T,
    ApiError,
> {
    match r {
        Ok(x) => Ok(x),
        Err(Fault::User(e)) => Err(sled::transaction::ConflictableTransactionError::Abort(e)),
        Err(Fault::Store(e)) => Err(e.into()),
    }
}

/// Maps a finished transaction's verdict back to the caller.
#[verifier::external_body]
fn unwrap_tx<T>(r: sled::transaction::TransactionResult<T, ApiError>) -> Result<T, ApiError> {
    match r {
        Ok(x) => Ok(x),
        Err(sled::transaction::TransactionError::Abort(e)) => Err(e),
        Err(sled::transaction::TransactionError::Storage(e)) => Err(ApiError::Storage),
    }
}

/// Relies on `rand::thread_rng`: one random byte; nothing is promised of
/// its value.
#[verifier::external_body]
pub fn random_byte() -> u8 {
    rand::Rng::gen(&mut rand::thread_rng())
}

/// What the whole catalog holds.
pub uninterp spec fn store_view(s: Store) -> crate::store::StoreView;

/// The catalog: one sled database with one tree per keyspace.
#[verifier::external_body]
pub struct Store {
    db: sled::Db,
    users: sled::Tree,
    emails: sled::Tree,
    sessions: sled::Tree,
    files: sled::Tree,
    file_names: sled::Tree,
    albums: sled::Tree,
    user_to_album: sled::Tree,
    album_to_user: sled::Tree,
    inclusions: sled::Tree,
    fragments: sled::Tree,
    journal: sled::Tree,
}

impl View for Store {
    type V = crate::store::StoreView;

    open spec fn view(&self) -> crate::store::StoreView {
        store_view(*self)
    }
}

/// Names one tree of the catalog.
#[derive(Clone, Copy, Debug, PartialEq, Eq, Structural)]
pub enum TreeSel {
    Users,
    Emails,
    Sessions,
    Files,
    FileNames,
    Albums,
    UserToAlbum,
    AlbumToUser,
    Inclusions,
    Fragments,
    Journal,
}

pub open spec fn tree_of(v: crate::store::StoreView, t: TreeSel) -> Map<Seq<u8>, Seq<u8>> {
    match t {
        TreeSel::Users => v.users,
        TreeSel::Emails => v.emails,
        TreeSel::Sessions => v.sessions,
        TreeSel::Files => v.files,
        TreeSel::FileNames => v.file_names,
        TreeSel::Albums => v.albums,
        TreeSel::UserToAlbum => v.user_to_album,
        TreeSel::AlbumToUser => v.album_to_user,
        TreeSel::Inclusions => v.inclusions,
        TreeSel::Fragments => v.fragments,
        TreeSel::Journal => v.journal,
    }
}

pub open spec fn set_tree(
    v: crate::store::StoreView,
    t: TreeSel,
    m: Map<Seq<u8>, Seq<u8>>,
) -> crate::store::StoreView {
    match t {
        TreeSel::Users => crate::store::StoreView { users: m, ..v },
        TreeSel::Emails => crate::store::StoreView { emails: m, ..v },
        TreeSel::Sessions => crate::store::StoreView { sessions: m, ..v },
        TreeSel::Files => crate::store::StoreView { files: m, ..v },
        TreeSel::FileNames => crate::store::StoreView { file_names: m, ..v },
        TreeSel::Albums => crate::store::StoreView { albums: m, ..v },
        TreeSel::UserToAlbum => crate::store::StoreView { user_to_album: m, ..v },
        TreeSel::AlbumToUser => crate::store::StoreView { album_to_user: m, ..v },
        TreeSel::Inclusions => crate::store::StoreView { inclusions: m, ..v },
        TreeSel::Fragments => crate::store::StoreView { fragments: m, ..v },
        TreeSel::Journal => crate::store::StoreView { journal: m, ..v },
    }
}

/// Every tree empty: a fresh catalog.
pub open spec fn empty_store() -> crate::store::StoreView {
    crate::store::StoreView {
        users: Map::empty(),
        emails: Map::empty(),
        sessions: Map::empty(),
        files: Map::empty(),
        file_names: Map::empty(),
        albums: Map::empty(),
        user_to_album: Map::empty(),
        album_to_user: Map::empty(),
        inclusions: Map::empty(),
        fragments: Map::empty(),
        journal: Map::empty(),
    }
}

impl Store {
    /// Picks the sled tree a selector names; used by the trusted accessors.
    #[verifier::external_body]
    fn tree(&self, t: TreeSel) -> &sled::Tree {
        match t {
            TreeSel::Users => &self.users,
            TreeSel::Emails => &self.emails,
            TreeSel::Sessions => &self.sessions,
            TreeSel::Files => &self.files,
            TreeSel::FileNames => &self.file_names,
            TreeSel::Albums => &self.albums,
            TreeSel::UserToAlbum => &self.user_to_album,
            TreeSel::AlbumToUser => &self.album_to_user,
            TreeSel::Inclusions => &self.inclusions,
            TreeSel::Fragments => &self.fragments,
            TreeSel::Journal => &self.journal,
        }
    }

    /// Relies on `sled::Config::open` with `temporary(true)`: a fresh store
    /// whose trees are all empty.
    #[verifier::external_body]
    pub fn new_temporary() -> (r: Result<Store, ApiError>)
        ensures
            r matches Ok(s) ==> store_view(s) == empty_store(),
    {
        let db = sled::Config::new().temporary(true).open().map_err(|_| ApiError::Storage)?;
        let t = |n: &str| db.open_tree(n.as_bytes()).map_err(|_| ApiError::Storage);
        Ok(Store {
            users: t("users")?, emails: t("emails")?, sessions: t("sessions")?,
            files: t("files")?, file_names: t("file_names")?, albums: t("albums")?,
            user_to_album: t("user_to_album")?, album_to_user: t("album_to_user")?,
            inclusions: t("inclusions")?, fragments: t("fragments")?, journal: t("journal")?,
            db,
        })
    }

    /// Relies on `sled::Tree::get`: the value under `key`, if any.
    #[verifier::external_body]
    pub fn get(&self, t: TreeSel, key: &[u8]) -> (r: Result<Option<Vec<u8>>, ApiError>)
        ensures
            match r {
                Ok(Some(v)) => tree_of(store_view(*self), t).contains_key(key@) && v@ == tree_of(
                    store_view(*self),
                    t,
                )[key@],
                Ok(None) => !tree_of(store_view(*self), t).contains_key(key@),
                Err(e) => e == ApiError::Storage,
            },
    {
        match self.tree(t).get(key) {
            Ok(Some(v)) => Ok(Some(v.to_vec())),
            Ok(None) => Ok(None),
            Err(_) => Err(ApiError::Storage),
        }
    }

    /// Relies on `sled::Tree::scan_prefix`: every entry whose key starts with
    /// the prefix, ascending by key.
    #[verifier::external_body]
    pub fn scan_prefix(&self, t: TreeSel, prefix: &[u8]) -> (r: Result<
        Vec<(Vec<u8>, Vec<u8>)>,
        ApiError,
    >)
        ensures
            match r {
                Ok(v) => (forall|i: int|
                    0 <= i < v@.len() ==> crate::keys::has_prefix(#[trigger] v@[i].0@, prefix@)
                        && tree_of(store_view(*self), t).contains_key(v@[i].0@) && v@[i].1@
                        == tree_of(store_view(*self), t)[v@[i].0@]) && (forall|k: Seq<u8>|
                    tree_of(store_view(*self), t).contains_key(k) && crate::keys::has_prefix(
                        k,
                        prefix@,
                    ) ==> exists|i: int| 0 <= i < v@.len() && #[trigger] v@[i].0@ == k) && (forall|
                    i: int,
                    j: int,
                |
                    0 <= i < j < v@.len() ==> crate::keys::bytes_lt(
                        #[trigger] v@[i].0@,
                        #[trigger] v@[j].0@,
                    )),
                Err(e) => e == ApiError::Storage,
            },
    {
        let mut out: Vec<(Vec<u8>, Vec<u8>)> = Vec::new();
        for entry in self.tree(t).scan_prefix(prefix) {
            match entry {
                Ok((k, v)) => out.push((k.to_vec(), v.to_vec())),
                Err(_) => {
                    return Err(ApiError::Storage);
                },
            }
        }
        Ok(out)
    }

    /// Relies on `sled::Db::generate_id`: a fresh id, monotonic within one
    /// database.
    #[verifier::external_body]
    pub fn generate_id(&self) -> (r: Result<u64, ApiError>)
        ensures
            r matches Err(e) ==> e == ApiError::Storage,
    {
        self.db.generate_id().map_err(|_| ApiError::Storage)
    }

    /// Relies on `sled::Tree::insert` (one key, atomic).
    #[verifier::external_body]
    pub fn tree_insert(&mut self, t: TreeSel, key: &[u8], value: &[u8]) -> (r: Result<
        (),
        ApiError,
    >)
        ensures
            match r {
                Ok(u) => store_view(*final(self)) == set_tree(
                    store_view(*old(self)),
                    t,
                    tree_of(store_view(*old(self)), t).insert(key@, value@),
                ),
                Err(e) => e == ApiError::Storage && store_view(*final(self)) == store_view(
                    *old(self),
                ),
            },
    {
        match self.tree(t).insert(key, value) {
            Ok(_) => Ok(()),
            Err(_) => Err(ApiError::Storage),
        }
    }

    /// Relies on `sled::Tree::remove` (one key, atomic).
    #[verifier::external_body]
    pub fn tree_remove(&mut self, t: TreeSel, key: &[u8]) -> (r: Result<(), ApiError>)
        ensures
            match r {
                Ok(u) => store_view(*final(self)) == set_tree(
                    store_view(*old(self)),
                    t,
                    tree_of(store_view(*old(self)), t).remove(key@),
                ),
                Err(e) => e == ApiError::Storage && store_view(*final(self)) == store_view(
                    *old(self),
                ),
            },
    {
        match self.tree(t).remove(key) {
            Ok(_) => Ok(()),
            Err(_) => Err(ApiError::Storage),
        }
    }

    /// Relies on sled's `Transactional::transaction`: runs `create_user_body` over
    /// `users` and `emails`, atomically and retried on conflict.
    #[verifier::external_body]
    pub fn create_user(&mut self, uid: &[u8], email: &[u8], password: &[u8]) -> (r: Result<
        (),
        ApiError,
    >)
        ensures
            ({
                let (v2, res) = crate::store::spec_create_user(
                    store_view(*old(self)),
                    uid@,
                    email@,
                    password@,
                );
                match r {
                    Ok(u) => res == Ok::<(), ApiError>(()) && store_view(*final(self)) == v2,
                    Err(e) => (res == Err::<(), ApiError>(e) || e == ApiError::Storage) && (e
                        != ApiError::Storage ==> store_view(*final(self)) == store_view(
                        *old(self),
                    )),
                }
            }),
    {
        let r = (&self.users, &self.emails).transaction(
            |(u, e): &(sled::transaction::TransactionalTree, sled::transaction::TransactionalTree)|
                map_fault(crate::store::create_user_body(&mut TxMap::wrap(u), &mut TxMap::wrap(e), uid, email, password)),
        );
        unwrap_tx(r)
    }

    /// Relies on sled's `Transactional::transaction`: runs
    /// `create_session_body` atomically, retried on conflict.
    #[verifier::external_body]
    pub fn create_session(&mut self, uid: &[u8], skey: &[u8]) -> (r: Result<(), ApiError>)
        ensures
            ({
                let (v2, res) = crate::store::spec_create_session(
                    store_view(*old(self)),
                    uid@,
                    skey@,
                );
                match r {
                    Ok(u) => res == Ok::<(), ApiError>(()) && store_view(*final(self)) == v2,
                    Err(e) => (res == Err::<(), ApiError>(e) || e == ApiError::Storage) && (e
                        != ApiError::Storage ==> store_view(*final(self)) == store_view(
                        *old(self),
                    )),
                }
            }),
    {
        let r = (&self.users, &self.sessions).transaction(
            |(u, s): &(sled::transaction::TransactionalTree, sled::transaction::TransactionalTree)|
                map_fault(crate::store::create_session_body(&mut TxMap::wrap(u), &mut TxMap::wrap(s), uid, skey)),
        );
        unwrap_tx(r)
    }

    /// Relies on sled's `Transactional::transaction`: runs
    /// `remove_session_body` atomically, retried on conflict.
    #[verifier::external_body]
    pub fn remove_session(&mut self, key: &[u8]) -> (r: Result<(), ApiError>)
        ensures
            ({
                let (v2, res) = crate::store::spec_remove_session(store_view(*old(self)), key@);
                match r {
                    Ok(u) => res == Ok::<(), ApiError>(()) && store_view(*final(self)) == v2,
                    Err(e) => e == ApiError::Storage,
                }
            }),
    {
        let r = (&self.sessions).transaction(
            |s: &sled::transaction::TransactionalTree|
                map_fault(crate::store::remove_session_body(&mut TxMap::wrap(s), key)),
        );
        unwrap_tx(r)
    }

    /// Relies on sled's `Transactional::transaction`: runs `create_album_body` over
    /// six trees, atomically and retried on conflict.
    #[verifier::external_body]
    pub fn create_album(
        &mut self,
        key: &[u8],
        uid: &[u8],
        aid: &[u8],
        name: &[u8],
        zone: &[u8],
        now: i64,
    ) -> (r: Result<(), ApiError>)
        ensures
            ({
                let (v2, res) = crate::store::spec_create_album(
                    store_view(*old(self)),
                    key@,
                    uid@,
                    aid@,
                    name@,
                    zone@,
                    now as int,
                );
                match r {
                    Ok(u) => res == Ok::<(), ApiError>(()) && store_view(*final(self)) == v2,
                    Err(e) => (res == Err::<(), ApiError>(e) || e == ApiError::Storage) && (e
                        != ApiError::Storage ==> store_view(*final(self)) == store_view(
                        *old(self),
                    )),
                }
            }),
    {
        let trees = [
            &self.sessions,
            &self.users,
            &self.albums,
            &self.fragments,
            &self.user_to_album,
            &self.album_to_user,
        ];
        let r = trees[..].transaction(
            |ts: &Vec<sled::transaction::TransactionalTree>|
                map_fault(crate::store::create_album_body(&mut TxMap::wrap(&ts[0]), &mut TxMap::wrap(&ts[1]), &mut TxMap::wrap(&ts[2]), &mut TxMap::wrap(&ts[3]), &mut TxMap::wrap(&ts[4]), &mut TxMap::wrap(&ts[5]), key, uid, aid, name, zone, now)),
        );
        unwrap_tx(r)
    }

    /// Relies on sled's `Transactional::transaction`: runs `upload_file_body` over
    /// four trees, atomically and retried on conflict.
    #[verifier::external_body]
    pub fn upload_file(
        &mut self,
        key: &[u8],
        owner: &[u8],
        fid: &[u8],
        file: &crate::records::File,
    ) -> (r: Result<(), ApiError>)
        requires
            file@.owner_id == owner@,
        ensures
            ({
                let (v2, res) = crate::store::spec_upload_file(
                    store_view(*old(self)),
                    key@,
                    owner@,
                    fid@,
                    file@,
                );
                match r {
                    Ok(u) => res == Ok::<(), ApiError>(()) && store_view(*final(self)) == v2,
                    Err(e) => (res == Err::<(), ApiError>(e) || e == ApiError::Storage) && (e
                        != ApiError::Storage ==> store_view(*final(self)) == store_view(
                        *old(self),
                    )),
                }
            }),
    {
        let trees = [&self.sessions, &self.users, &self.files, &self.file_names];
        let r = trees[..].transaction(
            |ts: &Vec<sled::transaction::TransactionalTree>|
                map_fault(crate::store::upload_file_body(&mut TxMap::wrap(&ts[0]), &mut TxMap::wrap(&ts[1]), &mut TxMap::wrap(&ts[2]), &mut TxMap::wrap(&ts[3]), key, owner, fid, file)),
        );
        unwrap_tx(r)
    }

    /// Relies on sled's `Transactional::transaction`: runs `share_body` over
    /// five trees, atomically and retried on conflict.
    #[verifier::external_body]
    pub fn share(
        &mut self,
        key: &[u8],
        uid: &[u8],
        aid: &[u8],
        email: &[u8],
        role: crate::wire::Role,
    ) -> (r: Result<(), ApiError>)
        ensures
            ({
                let (v2, res) = crate::store::spec_share(
                    store_view(*old(self)),
                    key@,
                    uid@,
                    aid@,
                    email@,
                    role,
                );
                match r {
                    Ok(u) => res == Ok::<(), ApiError>(()) && store_view(*final(self)) == v2,
                    Err(e) => (res == Err::<(), ApiError>(e) || e == ApiError::Storage) && (e
                        != ApiError::Storage ==> store_view(*final(self)) == store_view(
                        *old(self),
                    )),
                }
            }),
    {
        let trees = [
            &self.sessions,
            &self.emails,
            &self.albums,
            &self.user_to_album,
            &self.album_to_user,
        ];
        let r = trees[..].transaction(
            |ts: &Vec<sled::transaction::TransactionalTree>|
                map_fault(crate::store::share_body(&mut TxMap::wrap(&ts[0]), &mut TxMap::wrap(&ts[1]), &mut TxMap::wrap(&ts[2]), &mut TxMap::wrap(&ts[3]), &mut TxMap::wrap(&ts[4]), key, uid, aid, email, role)),
        );
        unwrap_tx(r)
    }

    /// Relies on sled's `Transactional::transaction`: runs `add_remove_files_body` over
    /// six trees, atomically and retried on conflict.
    #[verifier::external_body]
    pub fn add_remove_files(
        &mut self,
        key: &[u8],
        uid: &[u8],
        aid: &[u8],
        ids: &Vec<Vec<u8>>,
        is_add: bool,
        now: i64,
    ) -> (r: Result<(), ApiError>)
        ensures
            ({
                let (v2, res) = crate::store::spec_add_remove_files(
                    store_view(*old(self)),
                    key@,
                    uid@,
                    aid@,
                    ids@.map_values(|x: Vec<u8>| x@),
                    is_add,
                    now as int,
                );
                match r {
                    Ok(u) => res == Ok::<(), ApiError>(()) && store_view(*final(self)) == v2,
                    Err(e) => (res == Err::<(), ApiError>(e) || e == ApiError::Storage) && (e
                        != ApiError::Storage ==> store_view(*final(self)) == store_view(
                        *old(self),
                    )),
                }
            }),
    {
        let trees = [
            &self.sessions,
            &self.user_to_album,
            &self.files,
            &self.albums,
            &self.inclusions,
            &self.fragments,
        ];
        let r = trees[..].transaction(
            |ts: &Vec<sled::transaction::TransactionalTree>|
                map_fault(crate::store::add_remove_files_body(&TxMap::wrap(&ts[0]), &TxMap::wrap(&ts[1]), &TxMap::wrap(&ts[2]), &mut TxMap::wrap(&ts[3]), &mut TxMap::wrap(&ts[4]), &mut TxMap::wrap(&ts[5]), key, uid, aid, ids, is_add, now)),
        );
        unwrap_tx(r)
    }

    /// Relies on sled's `Transactional::transaction`: runs `update_album_body` over
    /// five trees, atomically and retried on conflict.
    #[verifier::external_body]
    pub fn update_album(
        &mut self,
        key: &[u8],
        uid: &[u8],
        aid: &[u8],
        name: &[u8],
        zone: &[u8],
        now: i64,
    ) -> (r: Result<(), ApiError>)
        ensures
            ({
                let (v2, res) = crate::store::spec_update_album(
                    store_view(*old(self)),
                    key@,
                    uid@,
                    aid@,
                    name@,
                    zone@,
                    now as int,
                );
                match r {
                    Ok(u) => res == Ok::<(), ApiError>(()) && store_view(*final(self)) == v2,
                    Err(e) => (res == Err::<(), ApiError>(e) || e == ApiError::Storage) && (e
                        != ApiError::Storage ==> store_view(*final(self)) == store_view(
                        *old(self),
                    )),
                }
            }),
    {
        let trees = [
            &self.sessions,
            &self.user_to_album,
            &self.files,
            &self.albums,
            &self.fragments,
        ];
        let r = trees[..].transaction(
            |ts: &Vec<sled::transaction::TransactionalTree>|
                map_fault(crate::store::update_album_body(&TxMap::wrap(&ts[0]), &TxMap::wrap(&ts[1]), &TxMap::wrap(&ts[2]), &mut TxMap::wrap(&ts[3]), &mut TxMap::wrap(&ts[4]), key, uid, aid, name, zone, now)),
        );
        unwrap_tx(r)
    }

    /// Relies on sled's `Transactional::transaction`: runs `unshare_body` over
    /// eight trees, atomically and retried on conflict.
    #[verifier::external_body]
    pub fn unshare(&mut self, key: &[u8], uid: &[u8], aid: &[u8], email: &[u8], now: i64) -> (r:
        Result<(), ApiError>)
        ensures
            ({
                let (v2, res) = crate::store::spec_unshare(
                    store_view(*old(self)),
                    key@,
                    uid@,
                    aid@,
                    email@,
                    now as int,
                );
                match r {
                    Ok(u) => res == Ok::<(), ApiError>(()) && store_view(*final(self)) == v2,
                    Err(e) => (res == Err::<(), ApiError>(e) || e == ApiError::Storage) && (e
                        != ApiError::Storage ==> store_view(*final(self)) == store_view(
                        *old(self),
                    )),
                }
            }),
    {
        let trees = [
            &self.sessions,
            &self.emails,
            &self.files,
            &self.user_to_album,
            &self.album_to_user,
            &self.albums,
            &self.inclusions,
            &self.fragments,
        ];
        let r = trees[..].transaction(
            |ts: &Vec<sled::transaction::TransactionalTree>|
                map_fault(crate::store::unshare_body(&TxMap::wrap(&ts[0]), &TxMap::wrap(&ts[1]), &TxMap::wrap(&ts[2]), &mut TxMap::wrap(&ts[3]), &mut TxMap::wrap(&ts[4]), &mut TxMap::wrap(&ts[5]), &mut TxMap::wrap(&ts[6]), &mut TxMap::wrap(&ts[7]), key, uid, aid, email, now)),
        );
        unwrap_tx(r)
    }

    /// Relies on sled's `Transactional::transaction`: even when a commit
    /// fails partway, only writes the body staged can land, and the body
    /// only removes one key from each of its two trees.  Runs
    /// `remove_acl_pair_body` over both edges, atomically and retried on
    /// conflict.
    #[verifier::external_body]
    pub fn remove_acl_pair(&mut self, aid: &[u8], uid: &[u8]) -> (r: Result<(), ApiError>)
        ensures
            match r {
                Ok(u) => store_view(*final(self)) == crate::store::spec_remove_acl_pair(
                    store_view(*old(self)),
                    aid@,
                    uid@,
                ),
                Err(e) => e == ApiError::Storage,
            },
            forall|k: Seq<u8>|
                #[trigger] store_view(*final(self)).user_to_album.contains_key(k) ==> store_view(
                    *old(self),
                ).user_to_album.contains_key(k),
            forall|k: Seq<u8>|
                #[trigger] store_view(*final(self)).album_to_user.contains_key(k) ==> store_view(
                    *old(self),
                ).album_to_user.contains_key(k),
            store_view(*final(self)).users == store_view(*old(self)).users,
            store_view(*final(self)).emails == store_view(*old(self)).emails,
            store_view(*final(self)).sessions == store_view(*old(self)).sessions,
            store_view(*final(self)).albums == store_view(*old(self)).albums,
            store_view(*final(self)).files == store_view(*old(self)).files,
            store_view(*final(self)).file_names == store_view(*old(self)).file_names,
            store_view(*final(self)).inclusions == store_view(*old(self)).inclusions,
            store_view(*final(self)).fragments == store_view(*old(self)).fragments,
            store_view(*final(self)).journal == store_view(*old(self)).journal,
    {
        let r = (&self.user_to_album, &self.album_to_user).transaction(
            |(ua, au): &(sled::transaction::TransactionalTree, sled::transaction::TransactionalTree)|
                map_fault(crate::store::remove_acl_pair_body(&mut TxMap::wrap(ua), &mut TxMap::wrap(au), aid, uid)),
        );
        unwrap_tx(r)
    }

    /// Relies on sled's `Transactional::transaction`: even when a commit
    /// fails partway, only writes the body staged can land, and the body
    /// only removes keys from its two trees; other trees are never handed
    /// to the transaction.  Runs `delete_file_head_body` over
    /// both file trees, atomically and retried on conflict.
    #[verifier::external_body]
    pub fn delete_file_head(&mut self, fid: &[u8], file: &crate::records::File) -> (r: Result<
        (),
        ApiError,
    >)
        ensures
            match r {
                Ok(u) => store_view(*final(self)) == crate::store::spec_delete_file_head(
                    store_view(*old(self)),
                    fid@,
                    file@,
                ),
                Err(e) => e == ApiError::Storage,
            },
            forall|k: Seq<u8>|
                #[trigger] store_view(*final(self)).files.contains_key(k) ==> store_view(
                    *old(self),
                ).files.contains_key(k),
            forall|k: Seq<u8>|
                #[trigger] store_view(*final(self)).file_names.contains_key(k) ==> store_view(
                    *old(self),
                ).file_names.contains_key(k),
            store_view(*final(self)).users == store_view(*old(self)).users,
            store_view(*final(self)).emails == store_view(*old(self)).emails,
            store_view(*final(self)).sessions == store_view(*old(self)).sessions,
            store_view(*final(self)).albums == store_view(*old(self)).albums,
            store_view(*final(self)).user_to_album == store_view(*old(self)).user_to_album,
            store_view(*final(self)).album_to_user == store_view(*old(self)).album_to_user,
            store_view(*final(self)).inclusions == store_view(*old(self)).inclusions,
            store_view(*final(self)).fragments == store_view(*old(self)).fragments,
            store_view(*final(self)).journal == store_view(*old(self)).journal,
    {
        let r = (&self.files, &self.file_names).transaction(
            |(fs, fnm): &(sled::transaction::TransactionalTree, sled::transaction::TransactionalTree)|
                map_fault(crate::store::delete_file_head_body(&mut TxMap::wrap(fs), &mut TxMap::wrap(fnm), fid, file)),
        );
        unwrap_tx(r)
    }

    /// Relies on sled's `Transactional::transaction`: even when a commit
    /// fails partway, only writes the body staged can land, and the body
    /// only removes keys from its two trees.  Runs
    /// `delete_user_head_body` over `users` and `emails`, atomically.
    #[verifier::external_body]
    pub fn delete_user_head(&mut self, uid: &[u8]) -> (r: Result<(), ApiError>)
        ensures
            ({
                let (v2, res) = crate::store::spec_delete_user_head(store_view(*old(self)), uid@);
                match r {
                    Ok(u) => res == Ok::<(), ApiError>(()) && store_view(*final(self)) == v2,
                    Err(e) => (res == Err::<(), ApiError>(e) || e == ApiError::Storage) && (e
                        != ApiError::Storage ==> store_view(*final(self)) == store_view(
                        *old(self),
                    )),
                }
            }),
            forall|k: Seq<u8>|
                #[trigger] store_view(*final(self)).users.contains_key(k) ==> store_view(
                    *old(self),
                ).users.contains_key(k),
            forall|k: Seq<u8>|
                #[trigger] store_view(*final(self)).emails.contains_key(k) ==> store_view(
                    *old(self),
                ).emails.contains_key(k),
            store_view(*final(self)).sessions == store_view(*old(self)).sessions,
            store_view(*final(self)).albums == store_view(*old(self)).albums,
            store_view(*final(self)).files == store_view(*old(self)).files,
            store_view(*final(self)).file_names == store_view(*old(self)).file_names,
            store_view(*final(self)).user_to_album == store_view(*old(self)).user_to_album,
            store_view(*final(self)).album_to_user == store_view(*old(self)).album_to_user,
            store_view(*final(self)).inclusions == store_view(*old(self)).inclusions,
            store_view(*final(self)).fragments == store_view(*old(self)).fragments,
            store_view(*final(self)).journal == store_view(*old(self)).journal,
    {
        let r = (&self.users, &self.emails).transaction(
            |(u, e): &(sled::transaction::TransactionalTree, sled::transaction::TransactionalTree)|
                map_fault(crate::store::delete_user_head_body(&mut TxMap::wrap(u), &mut TxMap::wrap(e), uid)),
        );
        unwrap_tx(r)
    }

    /// Relies on sled's `Transactional::transaction`: even when a commit
    /// fails partway, only writes the body staged can land: the body removes
    /// inclusion keys, writes the album record only at a key its snapshot
    /// held, and writes fragments only under the album's prefix.  Runs
    /// `delete_file_from_album_body` over three trees, atomically.
    #[verifier::external_body]
    pub fn delete_file_from_album(
        &mut self,
        aid: &[u8],
        fid: &[u8],
        file: &crate::records::File,
        now: i64,
    ) -> (r: Result<(), ApiError>)
        ensures
            ({
                let (v2, res) = crate::store::spec_delete_file_from_album(
                    store_view(*old(self)),
                    aid@,
                    fid@,
                    file@,
                    now as int,
                );
                match r {
                    Ok(u) => res == Ok::<(), ApiError>(()) && store_view(*final(self)) == v2,
                    Err(e) => (res == Err::<(), ApiError>(e) || e == ApiError::Storage) && (e
                        != ApiError::Storage ==> store_view(*final(self)) == store_view(
                        *old(self),
                    )),
                }
            }),
            forall|k: Seq<u8>|
                #[trigger] store_view(*final(self)).albums.contains_key(k) ==> store_view(
                    *old(self),
                ).albums.contains_key(k),
            forall|k: Seq<u8>|
                #[trigger] store_view(*final(self)).inclusions.contains_key(k) ==> store_view(
                    *old(self),
                ).inclusions.contains_key(k),
            forall|k: Seq<u8>|
                #[trigger] store_view(*final(self)).fragments.contains_key(k) ==> store_view(
                    *old(self),
                ).fragments.contains_key(k) || crate::keys::has_prefix(
                    k,
                    crate::keys::prefixed(aid@),
                ),
            store_view(*final(self)).users == store_view(*old(self)).users,
            store_view(*final(self)).emails == store_view(*old(self)).emails,
            store_view(*final(self)).sessions == store_view(*old(self)).sessions,
            store_view(*final(self)).files == store_view(*old(self)).files,
            store_view(*final(self)).file_names == store_view(*old(self)).file_names,
            store_view(*final(self)).user_to_album == store_view(*old(self)).user_to_album,
            store_view(*final(self)).album_to_user == store_view(*old(self)).album_to_user,
            store_view(*final(self)).journal == store_view(*old(self)).journal,
    {
        let trees = [&self.albums, &self.fragments, &self.inclusions];
        let r = trees[..].transaction(
            |ts: &Vec<sled::transaction::TransactionalTree>|
                map_fault(crate::store::delete_file_from_album_body(&mut TxMap::wrap(&ts[0]), &mut TxMap::wrap(&ts[1]), &mut TxMap::wrap(&ts[2]), aid, fid, file, now)),
        );
        unwrap_tx(r)
    }
}

} // verus!
