//! Crash-safe cascading deletes.
//!
//! A cascade touches many keys over many transactions, so its intent is
//! journalled first: `run` writes the command, `finish` executes it step by
//! step and removes it, and `restore` replays every journalled command at
//! startup.  Each step is idempotent, so replaying a partially executed
//! cascade is safe.

use vstd::prelude::*;
use crate::error::ApiError;
use crate::kv::{Store, TxMap, Fault, TreeSel, tree_of, set_tree, store_view};
use crate::keys::{compose, prefixed, compose_key, prefix_key, dot_free, split_key, bytes_eq,
    has_prefix, lemma_compose_injective};
use crate::records::{
    File, FileV, file_fields, enc_file, dec_user_v, dec_file_v, dec_album_v, decode_user,
    decode_file, decode_album, encode_file, lemma_enc_file_v,
};
use crate::bytes::{be8_bytes, lemma_fields_roundtrip, lemma_enc_of_decode, decode_fields,
    enc_fields, spec_decode_fields};
use crate::store::StoreView;
use crate::engine::{Engine, frag_key};

verus! {

broadcast use vstd::std_specs::vec::axiom_spec_len, crate::bytes::lemma_be8_len;

/// A journalled cascade: delete an album, one file (with its record carried
/// inline, since `files` may already lack it at replay), or a user.
pub enum Command {
    Album(Vec<u8>),
    File(Vec<u8>, File),
    User(Vec<u8>),
}

pub open spec fn command_fields(c: Command) -> Seq<Seq<u8>> {
    match c {
        Command::Album(aid) => seq![seq![0u8], aid@],
        Command::File(fid, f) => seq![seq![1u8], fid@] + file_fields(f),
        Command::User(uid) => seq![seq![2u8], uid@],
    }
}

pub open spec fn enc_command(c: Command) -> Seq<u8> {
    enc_fields(command_fields(c))
}

/// Serialize a command for the journal.
pub fn encode_command(c: &Command) -> (r: Vec<u8>)
    ensures
        r@ == enc_command(*c),
{
    let mut fields: Vec<u8> = Vec::new();
    match c {
        Command::Album(aid) => {
            let mut tag: Vec<u8> = Vec::new();
            tag.push(0u8);
            proof {
                assert(tag@ =~= seq![0u8]);
                assert(command_fields(*c).take(1) =~= Seq::<Seq<u8>>::empty().push(seq![0u8]));
                assert(command_fields(*c) =~= command_fields(*c).take(1).push(aid@));
                assert(fields@ =~= enc_fields(Seq::<Seq<u8>>::empty()));
            }
            crate::records::push_named_field(&mut fields, tag.as_slice(), Ghost(Seq::empty()));
            crate::records::push_named_field(
                &mut fields,
                aid.as_slice(),
                Ghost(command_fields(*c).take(1)),
            );
        },
        Command::User(uid) => {
            let mut tag: Vec<u8> = Vec::new();
            tag.push(2u8);
            proof {
                assert(tag@ =~= seq![2u8]);
                assert(command_fields(*c).take(1) =~= Seq::<Seq<u8>>::empty().push(seq![2u8]));
                assert(command_fields(*c) =~= command_fields(*c).take(1).push(uid@));
                assert(fields@ =~= enc_fields(Seq::<Seq<u8>>::empty()));
            }
            crate::records::push_named_field(&mut fields, tag.as_slice(), Ghost(Seq::empty()));
            crate::records::push_named_field(
                &mut fields,
                uid.as_slice(),
                Ghost(command_fields(*c).take(1)),
            );
        },
        Command::File(fid, f) => {
            let mut tag: Vec<u8> = Vec::new();
            tag.push(1u8);
            proof {
                assert(fields@ =~= enc_fields(Seq::<Seq<u8>>::empty()));
            }
            let w8 = be8_bytes(#[verifier::truncate] (f.width as u64));
            let h8 = be8_bytes(#[verifier::truncate] (f.height as u64));
            let m8 = be8_bytes(#[verifier::truncate] (f.metadata.last_modified as u64));
            proof {
                assert(tag@ =~= seq![1u8]);
                assert(command_fields(*c).take(1) =~= Seq::<Seq<u8>>::empty().push(seq![1u8]));
                assert(command_fields(*c).take(2) =~= command_fields(*c).take(1).push(fid@));
                assert(command_fields(*c).take(3) =~= command_fields(*c).take(2).push(f.owner_id@));
                assert(command_fields(*c).take(4) =~= command_fields(*c).take(3).push(
                    crate::bytes::be8(f.width as u64),
                ));
                assert(command_fields(*c).take(5) =~= command_fields(*c).take(4).push(
                    crate::bytes::be8(f.height as u64),
                ));
                assert(command_fields(*c).take(6) =~= command_fields(*c).take(5).push(
                    crate::bytes::be8(f.metadata.last_modified as u64),
                ));
                assert(command_fields(*c).take(7) =~= command_fields(*c).take(6).push(
                    f.metadata.name@,
                ));
                assert(command_fields(*c) =~= command_fields(*c).take(7).push(f.metadata.mime@));
            }
            crate::records::push_named_field(&mut fields, tag.as_slice(), Ghost(Seq::empty()));
            crate::records::push_named_field(
                &mut fields,
                fid.as_slice(),
                Ghost(command_fields(*c).take(1)),
            );
            crate::records::push_named_field(
                &mut fields,
                f.owner_id.as_slice(),
                Ghost(command_fields(*c).take(2)),
            );
            crate::records::push_named_field(
                &mut fields,
                w8.as_slice(),
                Ghost(command_fields(*c).take(3)),
            );
            crate::records::push_named_field(
                &mut fields,
                h8.as_slice(),
                Ghost(command_fields(*c).take(4)),
            );
            crate::records::push_named_field(
                &mut fields,
                m8.as_slice(),
                Ghost(command_fields(*c).take(5)),
            );
            crate::records::push_named_field(
                &mut fields,
                f.metadata.name.as_slice(),
                Ghost(command_fields(*c).take(6)),
            );
            crate::records::push_named_field(
                &mut fields,
                f.metadata.mime.as_slice(),
                Ghost(command_fields(*c).take(7)),
            );
        },
    }
    fields
}

proof fn lemma_command_fields_fit(c: Command)
    ensures
        forall|k: int|
            0 <= k < command_fields(c).len() ==> #[trigger] command_fields(c)[k].len()
                <= usize::MAX,
{
    match c {
        Command::Album(aid) => {
            assert(aid.len() == aid@.len());
        },
        Command::User(uid) => {
            assert(uid.len() == uid@.len());
        },
        Command::File(fid, f) => {
            assert(fid.len() == fid@.len());
            lemma_file_fields_pub(f);
            assert forall|k: int|
                0 <= k < command_fields(c).len() implies #[trigger] command_fields(c)[k].len()
                <= usize::MAX by {
                if k >= 2 {
                    assert(command_fields(c)[k] == file_fields(f)[k - 2]);
                }
            }
        },
    }
}

proof fn lemma_file_fields_pub(f: File)
    ensures
        forall|k: int|
            0 <= k < file_fields(f).len() ==> #[trigger] file_fields(f)[k].len() <= usize::MAX,
{
    assert(f.owner_id.len() == f.owner_id@.len());
    assert(f.metadata.name.len() == f.metadata.name@.len());
    assert(f.metadata.mime.len() == f.metadata.mime@.len());
}

/// Parse a journalled command.
pub fn decode_command(b: &[u8]) -> (r: Option<Command>)
    ensures
        r matches Some(c) ==> b@ == enc_command(c),
        forall|c: Command| b@ == enc_command(c) ==> r is Some,
{
    proof {
        assert forall|c: Command| b@ == enc_command(c) implies spec_decode_fields(b@) == Some(
            command_fields(c),
        ) by {
            lemma_command_fields_fit(c);
            lemma_fields_roundtrip(command_fields(c));
        }
    }
    let fields = match decode_fields(b) {
        Some(fs) => fs,
        None => {
            return None;
        },
    };
    let ghost orig = fields@.map_values(|f: Vec<u8>| f@);
    if fields.len() < 2 {
        return None;
    }
    let tag = &fields[0];
    if tag.len() != 1 {
        return None;
    }
    proof {
        lemma_enc_of_decode(b@);
    }
    if tag[0] == 0u8 {
        if fields.len() != 2 {
            return None;
        }
        let mut aid: Vec<u8> = Vec::new();
        aid.extend_from_slice(fields[1].as_slice());
        let c = Command::Album(aid);
        proof {
            assert(aid@ =~= orig[1]);
            assert(orig[0] =~= seq![0u8]);
            assert(command_fields(c) =~= orig);
        }
        Some(c)
    } else if tag[0] == 2u8 {
        if fields.len() != 2 {
            return None;
        }
        let mut uid: Vec<u8> = Vec::new();
        uid.extend_from_slice(fields[1].as_slice());
        let c = Command::User(uid);
        proof {
            assert(uid@ =~= orig[1]);
            assert(orig[0] =~= seq![2u8]);
            assert(command_fields(c) =~= orig);
        }
        Some(c)
    } else if tag[0] == 1u8 {
        if fields.len() != 8 {
            return None;
        }
        let mut body: Vec<u8> = Vec::new();
        let mut i: usize = 2;
        proof {
            assert(body@ =~= enc_fields(orig.subrange(2, 2)));
            assert(orig.subrange(2, 2) =~= Seq::<Seq<u8>>::empty());
        }
        while i < 8
            invariant
                2 <= i <= 8,
                fields@.len() == 8,
                orig == fields@.map_values(|f: Vec<u8>| f@),
                body@ == enc_fields(orig.subrange(2, i as int)),
            decreases 8 - i,
        {
            crate::records::push_named_field(
                &mut body,
                fields[i].as_slice(),
                Ghost(orig.subrange(2, i as int)),
            );
            i += 1;
            proof {
                assert(orig.subrange(2, i as int) =~= orig.subrange(2, i - 1).push(orig[i - 1]));
            }
        }
        let file = match decode_file(body.as_slice()) {
            Some(f) => f,
            None => {
                proof {
                    assert forall|c: Command| b@ == enc_command(c) implies false by {
                        match c {
                            Command::File(f2id, f2) => {
                                assert(orig.subrange(2, 8) =~= file_fields(f2));
                                assert(body@ == enc_file(f2));
                            },
                            Command::Album(a2) => {
                                assert(orig.len() == 2);
                            },
                            Command::User(u2) => {
                                assert(orig.len() == 2);
                            },
                        }
                    }
                }
                return None;
            },
        };
        let mut fid: Vec<u8> = Vec::new();
        fid.extend_from_slice(fields[1].as_slice());
        let c = Command::File(fid, file);
        proof {
            assert(fid@ =~= orig[1]);
            assert(orig[0] =~= seq![1u8]);
            assert(body@ == enc_fields(orig.subrange(2, 8)));
            assert(crate::records::file_fields(file) =~= orig.subrange(2, 8)) by {
                lemma_file_fields_pub(file);
                lemma_fields_roundtrip(crate::records::file_fields(file));
                assert forall|k: int|
                    0 <= k < orig.subrange(2, 8).len() implies #[trigger] orig.subrange(
                    2,
                    8,
                )[k].len() <= usize::MAX by {
                    assert(orig.subrange(2, 8)[k] == fields@[k + 2]@);
                    assert(fields@[k + 2].len() <= usize::MAX);
                }
                lemma_fields_roundtrip(orig.subrange(2, 8));
            }
            assert(command_fields(c) =~= orig);
        }
        Some(c)
    } else {
        None
    }
}

/// Write a command into the journal, returning its key.
fn journal_entry(store: &mut Store, cmd: &Command) -> (r: Result<Vec<u8>, ApiError>)
    ensures
        r matches Err(e) ==> e == ApiError::Storage && store_view(*final(store)) == store_view(
            *old(store),
        ),
        r matches Ok(k8) ==> store_view(*final(store)) == set_tree(
            store_view(*old(store)),
            TreeSel::Journal,
            store_view(*old(store)).journal.insert(k8@, enc_command(*cmd)),
        ),
{
    let id = match store.generate_id() {
        Ok(i) => i,
        Err(e) => {
            return Err(e);
        },
    };
    let id8 = be8_bytes(id);
    let bytes = encode_command(cmd);
    match store.tree_insert(TreeSel::Journal, id8.as_slice(), bytes.as_slice()) {
        Ok(u) => Ok(id8),
        Err(e) => Err(e),
    }
}

/// Journal and run one album cascade: the command is written ahead of the
/// cascade's first effect and cleared after its last.
fn run_album_cmd(store: &mut Store, aid: &[u8]) -> (r: Result<(), ApiError>)
    ensures
        r matches Err(e) ==> e == ApiError::Storage,
        tables_shrink(store_view(*old(store)), store_view(*final(store))),
        journal_bounded(store_view(*old(store)), store_view(*final(store))),
        r is Ok ==> album_tables(store_view(*old(store)), store_view(*final(store)), aid@)
            && (forall|q: Seq<u8>|
            #[trigger] store_view(*final(store)).journal.contains_key(q) ==> store_view(
                *old(store),
            ).journal.contains_key(q)),
        (r matches Ok(u) && dot_free(aid@)) ==> album_purged(
            store_view(*old(store)),
            store_view(*final(store)),
            aid@,
        ),
{
    let ghost v0g = store_view(*store);
    let mut aidv: Vec<u8> = Vec::new();
    aidv.extend_from_slice(aid);
    let id8 = match journal_entry(store, &Command::Album(aidv)) {
        Ok(k) => k,
        Err(e) => {
            return Err(e);
        },
    };
    let ghost va = store_view(*store);
    match delete_album(store, aid) {
        Ok(u) => {},
        Err(e) => {
            return Err(e);
        },
    }
    let ghost vb = store_view(*store);
    let r = store.tree_remove(TreeSel::Journal, id8.as_slice());
    proof {
        if r is Ok {
            let v2 = store_view(*store);
            assert(va.album_to_user == v0g.album_to_user);
            assert(va.user_to_album == v0g.user_to_album);
            assert(va.albums == v0g.albums);
            assert(v2.album_to_user == vb.album_to_user);
            assert(v2.user_to_album == vb.user_to_album);
            assert(v2.albums == vb.albums);
            assert(v2.fragments == vb.fragments);
            assert(v2.inclusions == vb.inclusions);
            assert(v2.users == vb.users && v2.emails == vb.emails && v2.sessions == vb.sessions);
            assert(v2.files == vb.files && v2.file_names == vb.file_names);
            assert forall|q: Seq<u8>| #[trigger] v2.journal.contains_key(q) implies v0g.journal.contains_key(q) by {
                assert(vb.journal == va.journal);
            }
        }
    }
    r
}

/// Journal and run one file cascade: the command, with the record carried
/// inline, is written ahead of the cascade and cleared after it.
fn run_file_cmd(store: &mut Store, fid: &[u8], file: &File) -> (r: Result<(), ApiError>)
    ensures
        r matches Err(e) ==> e == ApiError::Storage || e == ApiError::BadRequest,
        tables_shrink(store_view(*old(store)), store_view(*final(store))),
        journal_bounded(store_view(*old(store)), store_view(*final(store))),
        r is Ok ==> file_purged(store_view(*old(store)), store_view(*final(store)), fid@, file@)
            && (forall|q: Seq<u8>|
            #[trigger] store_view(*final(store)).journal.contains_key(q) ==> store_view(
                *old(store),
            ).journal.contains_key(q)),
        (r matches Ok(u) && dot_free(fid@)) ==> forall|a: Seq<u8>|
            store_view(*final(store)).albums.contains_key(a)
                ==> !store_view(*final(store)).inclusions.contains_key(#[trigger] compose(fid@, a)),
{
    let mut fidv: Vec<u8> = Vec::new();
    fidv.extend_from_slice(fid);
    let cloned = File {
        owner_id: clone_bytes(&file.owner_id),
        width: file.width,
        height: file.height,
        metadata: crate::records::FileMetadata {
            last_modified: file.metadata.last_modified,
            name: clone_bytes(&file.metadata.name),
            mime: clone_bytes(&file.metadata.mime),
        },
    };
    let ghost v0g = store_view(*store);
    let id8 = match journal_entry(store, &Command::File(fidv, cloned)) {
        Ok(k) => k,
        Err(e) => {
            return Err(e);
        },
    };
    let ghost va = store_view(*store);
    match delete_file(store, fid, file) {
        Ok(u) => {},
        Err(e) => {
            return Err(e);
        },
    }
    let ghost vb = store_view(*store);
    let r = store.tree_remove(TreeSel::Journal, id8.as_slice());
    proof {
        if r is Ok {
            let v2 = store_view(*store);
            assert(va.files == v0g.files && va.file_names == v0g.file_names);
            assert(va.albums == v0g.albums && va.inclusions == v0g.inclusions);
            assert(v2.files == vb.files && v2.file_names == vb.file_names);
            assert(v2.albums == vb.albums && v2.inclusions == vb.inclusions);
            assert(v2.users == vb.users && v2.emails == vb.emails && v2.sessions == vb.sessions);
            assert(v2.user_to_album == vb.user_to_album && v2.album_to_user == vb.album_to_user);
            assert forall|q: Seq<u8>| #[trigger] v2.journal.contains_key(q) implies v0g.journal.contains_key(q) by {
                assert(vb.journal == va.journal);
            }
        }
    }
    r
}

/// An owned copy of a byte string.
fn clone_bytes(b: &Vec<u8>) -> (r: Vec<u8>)
    ensures
        r@ == b@,
{
    let mut r: Vec<u8> = Vec::new();
    r.extend_from_slice(b.as_slice());
    proof {
        assert(r@ =~= b@);
    }
    r
}

/// What a finished cascade guarantees, by command kind.
pub open spec fn cascade_done(c: Command, v0: StoreView, v2: StoreView) -> bool {
    match c {
        Command::Album(aid) => album_tables(v0, v2, aid@) && (dot_free(aid@) ==> album_purged(
            v0,
            v2,
            aid@,
        )),
        Command::File(fid, f) => file_purged(v0, v2, fid@, f@) && (dot_free(fid@) ==> forall|
            a: Seq<u8>,
        |
            v2.albums.contains_key(a) ==> !v2.inclusions.contains_key(
                #[trigger] compose(fid@, a),
            )),
        Command::User(uid) => user_purged(v0, v2, uid@) && (dot_free(uid@) ==> forall|a: Seq<u8>|
            dot_free(a) && v0.user_to_album.contains_key(#[trigger] compose(uid@, a))
                && crate::records::dec_role_v(v0.user_to_album[compose(uid@, a)]) == Some(
                crate::wire::Role::Owner,
            ) ==> !v2.albums.contains_key(a)),
    }
}

impl Command {
    /// Journal the command, then run it to completion and clear the entry:
    /// the entry is written before the cascade's first effect and removed
    /// only after its last, so an incomplete cascade always has its entry.
    pub fn run(&self, store: &mut Store) -> (r: Result<(), ApiError>)
        ensures
            r matches Err(e) ==> e == ApiError::Storage || e == ApiError::BadRequest,
            tables_shrink(store_view(*old(store)), store_view(*final(store))),
            journal_bounded(store_view(*old(store)), store_view(*final(store))),
            r is Ok ==> cascade_done(*self, store_view(*old(store)), store_view(*final(store)))
                && tables_shrink(store_view(*old(store)), store_view(*final(store))) && (forall|
                q: Seq<u8>,
            |
                #[trigger] store_view(*final(store)).journal.contains_key(q) ==> store_view(
                    *old(store),
                ).journal.contains_key(q)),
    {
        match self {
            Command::Album(aid) => run_album_cmd(store, aid.as_slice()),
            Command::File(fid, file) => {
                let fs = fid.as_slice();
                let r = run_file_cmd(store, fs, file);
                proof {
                    if r is Ok && dot_free(fid@) {
                        assert forall|a: Seq<u8>|
                            store_view(*store).albums.contains_key(a)
                            implies !store_view(*store).inclusions.contains_key(
                            #[trigger] compose(fid@, a),
                        ) by {
                            assert(fs@ == fid@);
                            assert(dot_free(fs@));
                            assert(compose(fs@, a) == compose(fid@, a));
                            assert(!store_view(*store).inclusions.contains_key(compose(fs@, a)));
                        }
                    }
                }
                r
            },
            Command::User(uid) => {
                let ghost v0g = store_view(*store);
                let id8 = match journal_entry(store, self) {
                    Ok(k) => k,
                    Err(e) => {
                        return Err(e);
                    },
                };
                let ghost va = store_view(*store);
                match delete_user(store, uid.as_slice()) {
                    Ok(u) => {},
                    Err(e) => {
                        return Err(e);
                    },
                }
                let ghost vb = store_view(*store);
                let r = store.tree_remove(TreeSel::Journal, id8.as_slice());
                proof {
                    if r is Ok {
                        let v2 = store_view(*store);
                        assert(va.users == v0g.users && va.emails == v0g.emails);
                        assert(va.sessions == v0g.sessions && va.files == v0g.files);
                        assert(va.file_names == v0g.file_names);
                        assert(va.user_to_album == v0g.user_to_album);
                        assert(v2.users == vb.users && v2.emails == vb.emails);
                        assert(v2.sessions == vb.sessions && v2.files == vb.files);
                        assert(v2.file_names == vb.file_names && v2.albums == vb.albums);
                        assert(v2.user_to_album == vb.user_to_album && v2.album_to_user
                            == vb.album_to_user);
                        assert(v2.inclusions == vb.inclusions);
                        assert forall|q: Seq<u8>|
                            #[trigger] v2.journal.contains_key(q) implies v0g.journal.contains_key(
                            q,
                        ) by {}
                    }
                }
                r
            },
        }
    }

    /// Execute the cascade, then remove the journal entry.
    pub fn finish(&self, store: &mut Store, cmd_id: &[u8]) -> (r: Result<(), ApiError>)
        ensures
            r matches Err(e) ==> e == ApiError::Storage || e == ApiError::BadRequest,
            tables_shrink(store_view(*old(store)), store_view(*final(store))),
            journal_bounded(store_view(*old(store)), store_view(*final(store))),
            r is Ok ==> cascade_done(*self, store_view(*old(store)), store_view(*final(store)))
                && tables_shrink(store_view(*old(store)), store_view(*final(store)))
                && !store_view(*final(store)).journal.contains_key(cmd_id@) && (forall|q: Seq<u8>|
                #[trigger] store_view(*final(store)).journal.contains_key(q) ==> store_view(
                    *old(store),
                ).journal.contains_key(q)),
    {
        match self {
            Command::Album(aid) => {
                match delete_album(store, aid.as_slice()) {
                    Ok(u) => {},
                    Err(e) => {
                        return Err(e);
                    },
                }
            },
            Command::File(fid, file) => {
                let fs = fid.as_slice();
                match delete_file(store, fs, file) {
                    Ok(u) => {},
                    Err(e) => {
                        return Err(e);
                    },
                }
                proof {
                    if dot_free(fid@) {
                        assert forall|a: Seq<u8>|
                            store_view(*store).albums.contains_key(a)
                            implies !store_view(*store).inclusions.contains_key(
                            #[trigger] compose(fid@, a),
                        ) by {
                            assert(fs@ == fid@);
                            assert(dot_free(fs@));
                            assert(compose(fs@, a) == compose(fid@, a));
                            assert(!store_view(*store).inclusions.contains_key(compose(fs@, a)));
                        }
                    }
                }
            },
            Command::User(uid) => {
                match delete_user(store, uid.as_slice()) {
                    Ok(u) => {},
                    Err(e) => {
                        return Err(e);
                    },
                }
            },
        }
        let ghost vb = store_view(*store);
        let r = store.tree_remove(TreeSel::Journal, cmd_id);
        proof {
            if r is Ok {
                let v2 = store_view(*store);
                assert(v2.users == vb.users && v2.emails == vb.emails);
                assert(v2.sessions == vb.sessions && v2.files == vb.files);
                assert(v2.file_names == vb.file_names && v2.albums == vb.albums);
                assert(v2.user_to_album == vb.user_to_album && v2.album_to_user
                    == vb.album_to_user);
                assert(v2.inclusions == vb.inclusions && v2.fragments == vb.fragments);
            }
        }
        r
    }

    /// Replay every journalled cascade, in key order; run at startup.  On
    /// success the journal is empty and no tree has grown; replaying an
    /// already-empty journal changes nothing, so a second replay after a
    /// completed one reaches the same state.
    #[verifier::loop_isolation(false)]
    pub fn restore(store: &mut Store) -> (r: Result<(), ApiError>)
        ensures
            r matches Err(e) ==> e == ApiError::Storage || e == ApiError::BadRequest,
            tables_shrink(store_view(*old(store)), store_view(*final(store))),
            journal_bounded(store_view(*old(store)), store_view(*final(store))),
            r is Ok ==> (forall|q: Seq<u8>|
                !(#[trigger] store_view(*final(store)).journal.contains_key(q))) && tables_shrink(
                store_view(*old(store)),
                store_view(*final(store)),
            ),
            (forall|q: Seq<u8>| !(#[trigger] store_view(*old(store)).journal.contains_key(q)))
                ==> store_view(*final(store)) == store_view(*old(store)),
    {
        let ghost v0 = store_view(*store);
        let empty_prefix: Vec<u8> = Vec::new();
        proof {
            assert(empty_prefix@ =~= Seq::<u8>::empty());
        }
        let entries = match store.scan_prefix(TreeSel::Journal, empty_prefix.as_slice()) {
            Ok(v) => v,
            Err(e) => {
                return Err(e);
            },
        };
        proof {
            assert forall|q: Seq<u8>| #[trigger] v0.journal.contains_key(q) implies exists|p: int|
                0 <= p < entries@.len() && entries@[p].0@ == q by {
                assert(has_prefix(q, empty_prefix@)) by {
                    assert(q.subrange(0, 0) =~= Seq::<u8>::empty());
                }
            }
        }
        proof {
            if forall|q: Seq<u8>| !(#[trigger] v0.journal.contains_key(q)) {
                assert(entries@.len() == 0) by {
                    if entries@.len() > 0 {
                        assert(v0.journal.contains_key(entries@[0].0@));
                    }
                }
            }
        }
        let n = entries.len();
        let mut i: usize = 0;
        while i < n
            invariant
                i <= n,
                n == entries@.len(),
                store_view(*store) == v0 || i > 0,
                tables_shrink(v0, store_view(*store)),
                journal_bounded(v0, store_view(*store)),
                forall|q: Seq<u8>|
                    #[trigger] store_view(*store).journal.contains_key(q)
                        ==> v0.journal.contains_key(q),
                forall|p: int|
                    0 <= p < i ==> !store_view(*store).journal.contains_key(
                        #[trigger] entries@[p].0@,
                    ),
            decreases n - i,
        {
            let cmd = match decode_command(entries[i].1.as_slice()) {
                Some(c) => c,
                None => {
                    return Err(ApiError::Storage);
                },
            };
            let ghost before = store_view(*store);
            match cmd.finish(store, entries[i].0.as_slice()) {
                Ok(u) => {},
                Err(e) => {
                    return Err(e);
                },
            }
            proof {
                lemma_tables_shrink_trans(v0, before, store_view(*store));
                lemma_journal_bounded_trans(v0, before, store_view(*store));
            }
            i += 1;
        }
        proof {
            let v2 = store_view(*store);
            assert forall|q: Seq<u8>| !(#[trigger] v2.journal.contains_key(q)) by {
                if v2.journal.contains_key(q) {
                    assert(v0.journal.contains_key(q));
                    let p = choose|p: int| 0 <= p < entries@.len() && entries@[p].0@ == q;
                }
            }
        }
        Ok(())
    }
}

/// The second component of a composite key with a known first component.
pub open spec fn key_tail(k: Seq<u8>, a: Seq<u8>) -> Seq<u8> {
    k.subrange(a.len() as int + 1, k.len() as int)
}

/// No tree of the catalog grew: the deletion handlers only take keys away
/// (fragments and the journal are excluded, since a file cascade rewrites
/// fragments under fresh ids and nested cascades journal themselves).
pub open spec fn tables_shrink(v0: StoreView, v2: StoreView) -> bool {
    &&& forall|k: Seq<u8>| #[trigger] v2.users.contains_key(k) ==> v0.users.contains_key(k)
    &&& forall|k: Seq<u8>| #[trigger] v2.emails.contains_key(k) ==> v0.emails.contains_key(k)
    &&& forall|k: Seq<u8>| #[trigger] v2.sessions.contains_key(k) ==> v0.sessions.contains_key(k)
    &&& forall|k: Seq<u8>| #[trigger] v2.albums.contains_key(k) ==> v0.albums.contains_key(k)
    &&& forall|k: Seq<u8>| #[trigger] v2.files.contains_key(k) ==> v0.files.contains_key(k)
    &&& forall|k: Seq<u8>|
        #[trigger] v2.file_names.contains_key(k) ==> v0.file_names.contains_key(k)
    &&& forall|k: Seq<u8>|
        #[trigger] v2.user_to_album.contains_key(k) ==> v0.user_to_album.contains_key(k)
    &&& forall|k: Seq<u8>|
        #[trigger] v2.album_to_user.contains_key(k) ==> v0.album_to_user.contains_key(k)
    &&& forall|k: Seq<u8>|
        #[trigger] v2.inclusions.contains_key(k) ==> v0.inclusions.contains_key(k)
}

/// Whatever the outcome, a journal entry present afterwards either was
/// already there with the same value, or holds an encoded command, so a
/// later replay can decode and run it.
pub open spec fn journal_bounded(v0: StoreView, v2: StoreView) -> bool {
    forall|q: Seq<u8>|
        #[trigger] v2.journal.contains_key(q) ==> (v0.journal.contains_key(q) && v2.journal[q]
            == v0.journal[q]) || (exists|c: Command| v2.journal[q] == enc_command(c))
}

pub proof fn lemma_journal_bounded_trans(v0: StoreView, v1: StoreView, v2: StoreView)
    requires
        journal_bounded(v0, v1),
        journal_bounded(v1, v2),
    ensures
        journal_bounded(v0, v2),
{
    assert forall|q: Seq<u8>| #[trigger] v2.journal.contains_key(q) implies (
    v0.journal.contains_key(q) && v2.journal[q] == v0.journal[q]) || (exists|c: Command|
        v2.journal[q] == enc_command(c)) by {
        if v1.journal.contains_key(q) && v2.journal[q] == v1.journal[q] {
            assert(v1.journal.contains_key(q));
        }
    }
}

pub proof fn lemma_tables_shrink_trans(v0: StoreView, v1: StoreView, v2: StoreView)
    requires
        tables_shrink(v0, v1),
        tables_shrink(v1, v2),
    ensures
        tables_shrink(v0, v2),
{
}

/// Everything an album delete removes: the record, both permission edges of
/// every member, every fragment under the album's prefix, and every
/// inclusion edge naming the album; permission edges of other albums
/// survive untouched.
pub open spec fn album_purged(v0: StoreView, v2: StoreView, aid: Seq<u8>) -> bool {
    &&& forall|k: Seq<u8>|
        has_prefix(k, prefixed(aid)) ==> !(#[trigger] v2.album_to_user.contains_key(k))
    &&& forall|u: Seq<u8>|
        dot_free(u) && v0.album_to_user.contains_key(#[trigger] compose(aid, u))
            ==> !v2.user_to_album.contains_key(compose(u, aid))
    &&& forall|k: Seq<u8>|
        has_prefix(k, prefixed(aid)) ==> !(#[trigger] v2.fragments.contains_key(k))
    &&& forall|f: Seq<u8>| dot_free(f) ==> !v2.inclusions.contains_key(#[trigger] compose(f, aid))
    &&& forall|k: Seq<u8>|
        #[trigger] v2.user_to_album.contains_key(k) ==> v0.user_to_album.contains_key(k)
}

/// The table facts of an album delete that need no assumption on the id:
/// the record is gone, and no tree but the two permission trees, the
/// fragments and the inclusions is touched.
pub open spec fn album_tables(v0: StoreView, v2: StoreView, aid: Seq<u8>) -> bool {
    &&& v2.albums == v0.albums.remove(aid)
    &&& v2.users == v0.users
    &&& v2.emails == v0.emails
    &&& v2.sessions == v0.sessions
    &&& v2.files == v0.files
    &&& v2.file_names == v0.file_names
    &&& forall|k: Seq<u8>|
        #[trigger] v2.inclusions.contains_key(k) ==> v0.inclusions.contains_key(k)
    &&& forall|k: Seq<u8>|
        #[trigger] v2.album_to_user.contains_key(k) ==> v0.album_to_user.contains_key(k)
    &&& forall|k: Seq<u8>|
        #[trigger] v2.user_to_album.contains_key(k) ==> v0.user_to_album.contains_key(k)
}

/// Delete an album: unlink the record first (making the album unreachable),
/// then both permission edges per user, every fragment, and every inclusion
/// edge naming the album.
#[verifier::loop_isolation(false)]
#[verifier::rlimit(100)]
pub fn delete_album(store: &mut Store, aid: &[u8]) -> (r: Result<(), ApiError>)
    ensures
        r matches Err(e) ==> e == ApiError::Storage,
        tables_shrink(store_view(*old(store)), store_view(*final(store))),
        store_view(*final(store)).journal == store_view(*old(store)).journal,
        r is Ok ==> album_tables(store_view(*old(store)), store_view(*final(store)), aid@)
            && store_view(*final(store)).journal == store_view(*old(store)).journal,
        (r matches Ok(u) && dot_free(aid@)) ==> album_purged(
            store_view(*old(store)),
            store_view(*final(store)),
            aid@,
        ),
{
    let ghost v0 = store_view(*store);
    match store.tree_remove(TreeSel::Albums, aid) {
        Ok(u) => {},
        Err(e) => {
            return Err(e);
        },
    }
    let pref = prefix_key(aid);
    let acl = match store.scan_prefix(TreeSel::AlbumToUser, pref.as_slice()) {
        Ok(v) => v,
        Err(e) => {
            return Err(e);
        },
    };
    let n = acl.len();
    let mut i: usize = 0;
    while i < n
        invariant
            i <= n,
            n == acl@.len(),
            store_view(*store).albums == v0.albums.remove(aid@),
            store_view(*store).users == v0.users,
            store_view(*store).emails == v0.emails,
            store_view(*store).sessions == v0.sessions,
            store_view(*store).files == v0.files,
            store_view(*store).file_names == v0.file_names,
            store_view(*store).journal == v0.journal,
            store_view(*store).fragments == v0.fragments,
            store_view(*store).inclusions == v0.inclusions,
            forall|k: Seq<u8>|
                #[trigger] store_view(*store).album_to_user.contains_key(k)
                    ==> v0.album_to_user.contains_key(k),
            forall|k: Seq<u8>|
                #[trigger] store_view(*store).user_to_album.contains_key(k)
                    ==> v0.user_to_album.contains_key(k),
            forall|j: int|
                0 <= j < i && dot_free(aid@) ==> !store_view(*store).album_to_user.contains_key(
                    #[trigger] acl@[j].0@,
                ),
            forall|j: int|
                0 <= j < i && dot_free(aid@) ==> !store_view(*store).user_to_album.contains_key(
                    compose(key_tail(#[trigger] acl@[j].0@, aid@), aid@),
                ),
            forall|j: int|
                0 <= j < acl@.len() ==> has_prefix(#[trigger] acl@[j].0@, prefixed(aid@))
                    && v0.album_to_user.contains_key(acl@[j].0@),
            forall|k: Seq<u8>|
                v0.album_to_user.contains_key(k) && has_prefix(k, prefixed(aid@)) ==> exists|j: int|
                    0 <= j < acl@.len() && #[trigger] acl@[j].0@ == k,
        decreases n - i,
    {
        let key = &acl[i].0;
        proof {
            assert(has_prefix(key@, prefixed(aid@)));
            assert(key@[aid@.len() as int] == prefixed(aid@)[aid@.len() as int]);
            assert(key@[aid@.len() as int] == crate::keys::SEP);
        }
        match split_key(key.as_slice()) {
            Some((head, uid)) => {
                proof {
                    if dot_free(aid@) {
                        assert(key@ =~= compose(aid@, key_tail(key@, aid@)));
                        lemma_compose_injective(head@, uid@, aid@, key_tail(key@, aid@));
                    }
                }
                match store.remove_acl_pair(aid, uid.as_slice()) {
                    Ok(u) => {},
                    Err(e) => {
                        return Err(e);
                    },
                }
            },
            None => {
                proof {
                    assert(false);
                }
            },
        }
        i += 1;
    }
    let ghost va = store_view(*store);
    proof {
        if dot_free(aid@) {
            assert forall|k: Seq<u8>| has_prefix(k, prefixed(aid@)) implies !(
            #[trigger] va.album_to_user.contains_key(k)) by {
                if va.album_to_user.contains_key(k) {
                    let j = choose|j: int| 0 <= j < acl@.len() && acl@[j].0@ == k;
                    assert(!va.album_to_user.contains_key(acl@[j].0@));
                }
            }
            assert forall|u: Seq<u8>|
                dot_free(u) && v0.album_to_user.contains_key(#[trigger] compose(aid@, u)) implies !va.user_to_album.contains_key(compose(u, aid@)) by {
                let k = compose(aid@, u);
                assert(has_prefix(k, prefixed(aid@))) by {
                    assert(k.subrange(0, prefixed(aid@).len() as int) =~= prefixed(aid@));
                }
                let j = choose|j: int| 0 <= j < acl@.len() && acl@[j].0@ == k;
                assert(key_tail(k, aid@) =~= u);
            }
        }
    }
    let frags = match store.scan_prefix(TreeSel::Fragments, pref.as_slice()) {
        Ok(v) => v,
        Err(e) => {
            return Err(e);
        },
    };
    let n2 = frags.len();
    let mut j: usize = 0;
    while j < n2
        invariant
            j <= n2,
            n2 == frags@.len(),
            store_view(*store) == crate::kv::set_tree(va, TreeSel::Fragments, store_view(*store).fragments),
            forall|k: Seq<u8>|
                #[trigger] store_view(*store).fragments.contains_key(k)
                    ==> v0.fragments.contains_key(k),
            forall|p: int|
                0 <= p < j ==> !store_view(*store).fragments.contains_key(#[trigger] frags@[p].0@),
            forall|p: int|
                0 <= p < frags@.len() ==> has_prefix(#[trigger] frags@[p].0@, prefixed(aid@))
                    && v0.fragments.contains_key(frags@[p].0@),
            forall|k: Seq<u8>|
                v0.fragments.contains_key(k) && has_prefix(k, prefixed(aid@)) ==> exists|p: int|
                    0 <= p < frags@.len() && #[trigger] frags@[p].0@ == k,
        decreases n2 - j,
    {
        match store.tree_remove(TreeSel::Fragments, frags[j].0.as_slice()) {
            Ok(u) => {},
            Err(e) => {
                return Err(e);
            },
        }
        j += 1;
    }
    let ghost vb = store_view(*store);
    proof {
        assert forall|k: Seq<u8>| has_prefix(k, prefixed(aid@)) implies !(
        #[trigger] vb.fragments.contains_key(k)) by {
            if vb.fragments.contains_key(k) {
                let p = choose|p: int| 0 <= p < frags@.len() && frags@[p].0@ == k;
                assert(!vb.fragments.contains_key(frags@[p].0@));
            }
        }
    }
    let empty_prefix: Vec<u8> = Vec::new();
    proof {
        assert(empty_prefix@ =~= Seq::<u8>::empty());
    }
    let incl = match store.scan_prefix(TreeSel::Inclusions, empty_prefix.as_slice()) {
        Ok(v) => v,
        Err(e) => {
            return Err(e);
        },
    };
    proof {
        assert forall|q: Seq<u8>| #[trigger] vb.inclusions.contains_key(q) implies exists|p: int|
            0 <= p < incl@.len() && incl@[p].0@ == q by {
            assert(has_prefix(q, empty_prefix@)) by {
                assert(q.subrange(0, 0) =~= Seq::<u8>::empty());
            }
        }
    }
    let n3 = incl.len();
    let mut k: usize = 0;
    while k < n3
        invariant
            k <= n3,
            n3 == incl@.len(),
            store_view(*store) == crate::kv::set_tree(vb, TreeSel::Inclusions, store_view(*store).inclusions),
            forall|q: Seq<u8>|
                #[trigger] store_view(*store).inclusions.contains_key(q)
                    ==> v0.inclusions.contains_key(q),
            forall|f: Seq<u8>, p: int|
                dot_free(f) && 0 <= p < k && #[trigger] incl@[p].0@ == #[trigger] compose(f, aid@)
                    ==> !store_view(*store).inclusions.contains_key(compose(f, aid@)),
            forall|p: int|
                0 <= p < incl@.len() ==> v0.inclusions.contains_key(#[trigger] incl@[p].0@),
            forall|q: Seq<u8>|
                #[trigger] v0.inclusions.contains_key(q) ==> exists|p: int|
                    0 <= p < incl@.len() && incl@[p].0@ == q,
            vb.inclusions == v0.inclusions,
        decreases n3 - k,
    {
        let key = &incl[k].0;
        match split_key(key.as_slice()) {
            Some((fid, album_part)) => {
                if bytes_eq(album_part.as_slice(), aid) {
                    match store.tree_remove(TreeSel::Inclusions, key.as_slice()) {
                        Ok(u) => {},
                        Err(e) => {
                            return Err(e);
                        },
                    }
                }
                proof {
                    assert forall|f: Seq<u8>|
                        dot_free(f) && incl@[k as int].0@ == compose(f, aid@) implies !store_view(
                        *store,
                    ).inclusions.contains_key(compose(f, aid@)) by {
                        lemma_compose_injective(fid@, album_part@, f, aid@);
                    }
                }
            },
            None => {
                proof {
                    assert forall|f: Seq<u8>|
                        dot_free(f) && incl@[k as int].0@ == compose(f, aid@) implies false by {
                        assert(compose(f, aid@)[f.len() as int] == crate::keys::SEP);
                        assert(dot_free(incl@[k as int].0@));
                    }
                }
            },
        }
        k += 1;
    }
    proof {
        let v2 = store_view(*store);
        assert forall|f: Seq<u8>| dot_free(f) implies !v2.inclusions.contains_key(
            #[trigger] compose(f, aid@),
        ) by {
            if v2.inclusions.contains_key(compose(f, aid@)) {
                let p = choose|p: int|
                    0 <= p < incl@.len() && incl@[p].0@ == compose(f, aid@);
            }
        }
    }
    Ok(())
}

/// The file-delete cascade's per-album steps, applied in order: each one is
/// `spec_delete_file_from_album` at its own transaction clock.
pub open spec fn delete_file_steps(
    v: StoreView,
    aids: Seq<Seq<u8>>,
    fid: Seq<u8>,
    file: FileV,
    nows: Seq<int>,
) -> StoreView
    decreases aids.len(),
{
    if aids.len() == 0 {
        v
    } else {
        delete_file_steps(
            crate::store::spec_delete_file_from_album(v, aids[0], fid, file, nows[0]).0,
            aids.drop_first(),
            fid,
            file,
            nows.drop_first(),
        )
    }
}

proof fn lemma_delete_file_steps_snoc(
    v: StoreView,
    aids: Seq<Seq<u8>>,
    fid: Seq<u8>,
    file: FileV,
    nows: Seq<int>,
    a: Seq<u8>,
    n: int,
)
    requires
        aids.len() == nows.len(),
    ensures
        delete_file_steps(v, aids.push(a), fid, file, nows.push(n))
            == crate::store::spec_delete_file_from_album(
            delete_file_steps(v, aids, fid, file, nows),
            a,
            fid,
            file,
            n,
        ).0,
    decreases aids.len(),
{
    if aids.len() == 0 {
        assert(aids.push(a)[0] == a);
        assert(nows.push(n)[0] == n);
        assert(aids.push(a).drop_first() =~= aids);
        assert(nows.push(n).drop_first() =~= nows);
        assert(delete_file_steps(v, aids, fid, file, nows) == v);
        let v1 = crate::store::spec_delete_file_from_album(v, a, fid, file, n).0;
        assert(delete_file_steps(v1, aids, fid, file, nows) == v1);
    } else {
        assert(aids.push(a)[0] == aids[0]);
        assert(nows.push(n)[0] == nows[0]);
        assert(aids.push(a).drop_first() =~= aids.drop_first().push(a));
        assert(nows.push(n).drop_first() =~= nows.drop_first().push(n));
        lemma_delete_file_steps_snoc(
            crate::store::spec_delete_file_from_album(v, aids[0], fid, file, nows[0]).0,
            aids.drop_first(),
            fid,
            file,
            nows.drop_first(),
            a,
            n,
        );
    }
}

/// Re-running the file-delete cascade on its own result is a no-op: the
/// head removals hit absent keys, and every edge a second run can find
/// names an album that is gone, so each per-album step does nothing.
pub proof fn lemma_delete_file_idempotent(
    v2: StoreView,
    fid: Seq<u8>,
    file: FileV,
    aids: Seq<Seq<u8>>,
    nows: Seq<int>,
)
    requires
        aids.len() == nows.len(),
        !v2.files.contains_key(fid),
        !v2.file_names.contains_key(compose(file.owner_id, file.name)),
        forall|p: int| 0 <= p < aids.len() ==> !v2.albums.contains_key(#[trigger] aids[p]),
    ensures
        delete_file_steps(
            crate::store::spec_delete_file_head(v2, fid, file),
            aids,
            fid,
            file,
            nows,
        ) == v2,
{
    let vh = crate::store::spec_delete_file_head(v2, fid, file);
    assert(vh.files =~= v2.files);
    assert(vh.file_names =~= v2.file_names);
    assert(vh == v2);
    lemma_delete_file_steps_noop(v2, aids, fid, file, nows);
}

proof fn lemma_delete_file_steps_noop(
    v: StoreView,
    aids: Seq<Seq<u8>>,
    fid: Seq<u8>,
    file: FileV,
    nows: Seq<int>,
)
    requires
        aids.len() == nows.len(),
        forall|p: int| 0 <= p < aids.len() ==> !v.albums.contains_key(#[trigger] aids[p]),
    ensures
        delete_file_steps(v, aids, fid, file, nows) == v,
    decreases aids.len(),
{
    if aids.len() > 0 {
        assert(crate::store::spec_delete_file_from_album(v, aids[0], fid, file, nows[0]).0 == v);
        assert(forall|p: int|
            0 <= p < aids.drop_first().len() ==> !v.albums.contains_key(
                #[trigger] aids.drop_first()[p],
            ));
        lemma_delete_file_steps_noop(v, aids.drop_first(), fid, file, nows.drop_first());
    }
}

/// Everything a file delete removes: the record and its name-index entry,
/// and — for every album still present — the inclusion edge naming the
/// file.  No tree but files, file_names, albums, fragments and inclusions
/// is touched, and album keys are neither added nor dropped (their records
/// are rewritten by the per-album engine commits).
pub open spec fn file_purged(v0: StoreView, v2: StoreView, fid: Seq<u8>, file: FileV) -> bool {
    &&& v2.files == v0.files.remove(fid)
    &&& v2.file_names == v0.file_names.remove(compose(file.owner_id, file.name))
    &&& v2.users == v0.users
    &&& v2.emails == v0.emails
    &&& v2.sessions == v0.sessions
    &&& v2.user_to_album == v0.user_to_album
    &&& v2.album_to_user == v0.album_to_user
    &&& forall|k: Seq<u8>|
        #[trigger] v2.albums.contains_key(k) == v0.albums.contains_key(k)
    &&& forall|k: Seq<u8>|
        #[trigger] v2.inclusions.contains_key(k) ==> v0.inclusions.contains_key(k)
}

/// Delete a file: its record and name-index entry in one transaction, then
/// remove it from every album that includes it, one album per transaction.
#[verifier::loop_isolation(false)]
#[verifier::rlimit(100)]
pub fn delete_file(store: &mut Store, fid: &[u8], file: &File) -> (r: Result<(), ApiError>)
    ensures
        r matches Err(e) ==> e == ApiError::Storage || e == ApiError::BadRequest,
        tables_shrink(store_view(*old(store)), store_view(*final(store))),
        store_view(*final(store)).journal == store_view(*old(store)).journal,
        r is Ok ==> file_purged(store_view(*old(store)), store_view(*final(store)), fid@, file@)
            && store_view(*final(store)).journal == store_view(*old(store)).journal,
        (r matches Ok(u) && dot_free(fid@)) ==> forall|a: Seq<u8>|
            store_view(*final(store)).albums.contains_key(a)
                ==> !store_view(*final(store)).inclusions.contains_key(#[trigger] compose(fid@, a)),
        r is Ok ==> exists|aids: Seq<Seq<u8>>, nows: Seq<int>|
            {
                &&& aids.len() == nows.len()
                &&& store_view(*final(store)) == delete_file_steps(
                    crate::store::spec_delete_file_head(store_view(*old(store)), fid@, file@),
                    aids,
                    fid@,
                    file@,
                    nows,
                )
                &&& (dot_free(fid@) ==> ((forall|p: int|
                    0 <= p < aids.len() ==> store_view(*old(store)).inclusions.contains_key(
                        #[trigger] compose(fid@, aids[p]),
                    )) && (forall|a: Seq<u8>|
                    store_view(*old(store)).inclusions.contains_key(#[trigger] compose(fid@, a))
                        ==> aids.contains(a)) && (forall|p: int, q: int|
                    0 <= p < q < aids.len() ==> #[trigger] aids[p] != #[trigger] aids[q])))
            },
{
    let ghost v0 = store_view(*store);
    match store.delete_file_head(fid, file) {
        Ok(u) => {},
        Err(e) => {
            return Err(e);
        },
    }
    let ghost vh = store_view(*store);
    let ghost mut aids_done: Seq<Seq<u8>> = Seq::empty();
    let ghost mut nows_done: Seq<int> = Seq::empty();
    let pref = prefix_key(fid);
    let incl = match store.scan_prefix(TreeSel::Inclusions, pref.as_slice()) {
        Ok(v) => v,
        Err(e) => {
            return Err(e);
        },
    };
    let n = incl.len();
    let mut i: usize = 0;
    while i < n
        invariant
            i <= n,
            n == incl@.len(),
            store_view(*store).files == v0.files.remove(fid@),
            store_view(*store).file_names == v0.file_names.remove(
                compose(file@.owner_id, file@.name),
            ),
            store_view(*store).users == v0.users,
            store_view(*store).emails == v0.emails,
            store_view(*store).sessions == v0.sessions,
            store_view(*store).user_to_album == v0.user_to_album,
            store_view(*store).album_to_user == v0.album_to_user,
            store_view(*store).journal == v0.journal,
            forall|k: Seq<u8>|
                #[trigger] store_view(*store).albums.contains_key(k) == v0.albums.contains_key(k),
            forall|q: Seq<u8>|
                #[trigger] store_view(*store).inclusions.contains_key(q)
                    ==> v0.inclusions.contains_key(q),
            forall|p: int|
                0 <= p < i && dot_free(fid@) && store_view(*store).albums.contains_key(
                    key_tail(#[trigger] incl@[p].0@, fid@),
                ) ==> !store_view(*store).inclusions.contains_key(incl@[p].0@),
            aids_done.len() == i as int,
            nows_done.len() == i as int,
            vh == crate::store::spec_delete_file_head(v0, fid@, file@),
            store_view(*store) == delete_file_steps(vh, aids_done, fid@, file@, nows_done),
            dot_free(fid@) ==> forall|p: int|
                0 <= p < i ==> #[trigger] aids_done[p] == key_tail(incl@[p].0@, fid@),
            forall|p: int|
                0 <= p < incl@.len() ==> has_prefix(#[trigger] incl@[p].0@, prefixed(fid@))
                    && v0.inclusions.contains_key(incl@[p].0@),
            forall|q: Seq<u8>|
                v0.inclusions.contains_key(q) && has_prefix(q, prefixed(fid@)) ==> exists|p: int|
                    0 <= p < incl@.len() && #[trigger] incl@[p].0@ == q,
        decreases n - i,
    {
        let key = &incl[i].0;
        proof {
            assert(has_prefix(key@, prefixed(fid@)));
            assert(key@[fid@.len() as int] == prefixed(fid@)[fid@.len() as int]);
            assert(key@[fid@.len() as int] == crate::keys::SEP);
        }
        match split_key(key.as_slice()) {
            Some((head, aid)) => {
                proof {
                    if dot_free(fid@) {
                        assert(key@ =~= compose(fid@, key_tail(key@, fid@)));
                        lemma_compose_injective(head@, aid@, fid@, key_tail(key@, fid@));
                    }
                }
                let now = crate::tz::now_ts();
                let ghost before = store_view(*store);
                match store.delete_file_from_album(aid.as_slice(), fid, file, now) {
                    Ok(u) => {},
                    Err(e) => {
                        return Err(e);
                    },
                }
                proof {
                    lemma_delete_file_steps_snoc(
                        vh,
                        aids_done,
                        fid@,
                        file@,
                        nows_done,
                        aid@,
                        now as int,
                    );
                    aids_done = aids_done.push(aid@);
                    nows_done = nows_done.push(now as int);
                    assert forall|p: int|
                        0 <= p <= i && dot_free(fid@) && store_view(*store).albums.contains_key(
                            key_tail(#[trigger] incl@[p].0@, fid@),
                        ) implies !store_view(*store).inclusions.contains_key(incl@[p].0@) by {
                        if p < i {
                            assert(before.albums.contains_key(key_tail(incl@[p].0@, fid@)));
                            assert(!before.inclusions.contains_key(incl@[p].0@));
                        } else {
                            assert(key_tail(incl@[p].0@, fid@) == aid@);
                            assert(incl@[p].0@ == compose(fid@, aid@));
                        }
                    }
                }
            },
            None => {
                proof {
                    assert(false);
                }
            },
        }
        i += 1;
    }
    proof {
        if dot_free(fid@) {
            let v2 = store_view(*store);
            assert forall|a: Seq<u8>|
                v2.albums.contains_key(a) implies !v2.inclusions.contains_key(
                #[trigger] compose(fid@, a),
            ) by {
                if v2.inclusions.contains_key(compose(fid@, a)) {
                    let q = compose(fid@, a);
                    assert(v0.inclusions.contains_key(q));
                    assert(has_prefix(q, prefixed(fid@))) by {
                        assert(q.subrange(0, prefixed(fid@).len() as int) =~= prefixed(fid@));
                    }
                    let p = choose|p: int| 0 <= p < incl@.len() && incl@[p].0@ == q;
                    assert(key_tail(q, fid@) =~= a);
                }
            }
            assert forall|p: int|
                0 <= p < aids_done.len() implies v0.inclusions.contains_key(
                #[trigger] compose(fid@, aids_done[p]),
            ) by {
                assert(aids_done[p] == key_tail(incl@[p].0@, fid@));
                assert(incl@[p].0@ =~= compose(fid@, key_tail(incl@[p].0@, fid@)));
            }
            assert forall|a: Seq<u8>|
                v0.inclusions.contains_key(#[trigger] compose(fid@, a))
                implies aids_done.contains(a) by {
                let q = compose(fid@, a);
                assert(has_prefix(q, prefixed(fid@))) by {
                    assert(q.subrange(0, prefixed(fid@).len() as int) =~= prefixed(fid@));
                }
                let p = choose|p: int| 0 <= p < incl@.len() && incl@[p].0@ == q;
                assert(key_tail(q, fid@) =~= a);
                assert(aids_done[p] == a);
            }
            assert forall|p: int, q: int|
                0 <= p < q < aids_done.len() implies #[trigger] aids_done[p]
                != #[trigger] aids_done[q] by {
                if aids_done[p] == aids_done[q] {
                    assert(incl@[p].0@ =~= compose(fid@, key_tail(incl@[p].0@, fid@)));
                    assert(incl@[q].0@ =~= compose(fid@, key_tail(incl@[q].0@, fid@)));
                    assert(incl@[p].0@ == incl@[q].0@);
                    assert(crate::keys::bytes_lt(incl@[p].0@, incl@[q].0@));
                    crate::keys::lemma_bytes_lt_trichotomy(incl@[p].0@, incl@[q].0@);
                }
            }
        }
    }
    Ok(())
}

/// Everything a user delete removes: the user row and email index entry,
/// every session, every owned file; nothing anywhere grows.
pub open spec fn user_purged(v0: StoreView, v2: StoreView, uid: Seq<u8>) -> bool {
    &&& v2.users == v0.users.remove(uid)
    &&& (!v0.users.contains_key(uid) ==> v2.emails == v0.emails)
    &&& (v0.users.contains_key(uid) ==> (dec_user_v(v0.users[uid]) matches Some(u) && v2.emails
        == v0.emails.remove(u.email)))
    &&& forall|s: Seq<u8>| !v2.sessions.contains_key(#[trigger] compose(uid, s))
    &&& forall|nk: Seq<u8>|
        #[trigger] v0.file_names.contains_key(nk) && has_prefix(nk, prefixed(uid))
            ==> !v2.files.contains_key(v0.file_names[nk])
    &&& tables_shrink(v0, v2)
}

/// Delete a user: the user row and email index first, then every session,
/// then a nested cascade per owned album and per owned file (found through
/// the name index); a merely shared album only loses the member's edges.
#[verifier::loop_isolation(false)]
#[verifier::rlimit(100)]
#[verifier::spinoff_prover]
pub fn delete_user(store: &mut Store, uid: &[u8]) -> (r: Result<(), ApiError>)
    ensures
        r matches Err(e) ==> e == ApiError::Storage || e == ApiError::BadRequest,
        tables_shrink(store_view(*old(store)), store_view(*final(store))),
        journal_bounded(store_view(*old(store)), store_view(*final(store))),
        r is Ok ==> user_purged(store_view(*old(store)), store_view(*final(store)), uid@) && (
        forall|q: Seq<u8>|
            #[trigger] store_view(*final(store)).journal.contains_key(q) ==> store_view(
                *old(store),
            ).journal.contains_key(q)),
        (r matches Ok(u) && dot_free(uid@)) ==> forall|a: Seq<u8>|
            dot_free(a) && store_view(*old(store)).user_to_album.contains_key(
                #[trigger] compose(uid@, a),
            ) && crate::records::dec_role_v(
                store_view(*old(store)).user_to_album[compose(uid@, a)],
            ) == Some(crate::wire::Role::Owner) ==> !store_view(*final(store)).albums.contains_key(
                a,
            ),
{
    let ghost v0 = store_view(*store);
    match store.delete_user_head(uid) {
        Ok(u) => {},
        Err(e) => {
            return Err(e);
        },
    }
    let pref = prefix_key(uid);
    let sess = match store.scan_prefix(TreeSel::Sessions, pref.as_slice()) {
        Ok(v) => v,
        Err(e) => {
            return Err(e);
        },
    };
    let n = sess.len();
    let mut i: usize = 0;
    while i < n
        invariant
            i <= n,
            n == sess@.len(),
            store_view(*store).users == store_view(*old(store)).users.remove(uid@),
            (!v0.users.contains_key(uid@) ==> store_view(*store).emails == v0.emails),
            (v0.users.contains_key(uid@) ==> (dec_user_v(v0.users[uid@]) matches Some(u)
                && store_view(*store).emails == v0.emails.remove(u.email))),
            store_view(*store).files == v0.files,
            store_view(*store).file_names == v0.file_names,
            store_view(*store).albums == v0.albums,
            store_view(*store).user_to_album == v0.user_to_album,
            store_view(*store).album_to_user == v0.album_to_user,
            store_view(*store).inclusions == v0.inclusions,
            store_view(*store).fragments == v0.fragments,
            store_view(*store).journal == v0.journal,
            forall|k: Seq<u8>|
                #[trigger] store_view(*store).sessions.contains_key(k)
                    ==> v0.sessions.contains_key(k),
            forall|p: int|
                0 <= p < i ==> !store_view(*store).sessions.contains_key(#[trigger] sess@[p].0@),
            forall|p: int|
                0 <= p < sess@.len() ==> has_prefix(#[trigger] sess@[p].0@, prefixed(uid@))
                    && v0.sessions.contains_key(sess@[p].0@),
            forall|k: Seq<u8>|
                v0.sessions.contains_key(k) && has_prefix(k, prefixed(uid@)) ==> exists|p: int|
                    0 <= p < sess@.len() && #[trigger] sess@[p].0@ == k,
        decreases n - i,
    {
        match store.tree_remove(TreeSel::Sessions, sess[i].0.as_slice()) {
            Ok(u) => {},
            Err(e) => {
                return Err(e);
            },
        }
        i += 1;
    }
    let ghost vs = store_view(*store);
    proof {
        assert forall|sk: Seq<u8>| !vs.sessions.contains_key(#[trigger] compose(uid@, sk)) by {
            let k = compose(uid@, sk);
            if vs.sessions.contains_key(k) {
                assert(has_prefix(k, prefixed(uid@))) by {
                    assert(k.subrange(0, prefixed(uid@).len() as int) =~= prefixed(uid@));
                }
                let p = choose|p: int| 0 <= p < sess@.len() && sess@[p].0@ == k;
            }
        }
    }
    let albums_scan = match store.scan_prefix(TreeSel::UserToAlbum, pref.as_slice()) {
        Ok(v) => v,
        Err(e) => {
            return Err(e);
        },
    };
    let n2 = albums_scan.len();
    let mut j: usize = 0;
    while j < n2
        invariant
            j <= n2,
            n2 == albums_scan@.len(),
            store_view(*store).users == vs.users,
            store_view(*store).emails == vs.emails,
            store_view(*store).sessions == vs.sessions,
            store_view(*store).files == vs.files,
            store_view(*store).file_names == vs.file_names,
            forall|k: Seq<u8>|
                #[trigger] store_view(*store).albums.contains_key(k) ==> v0.albums.contains_key(k),
            forall|k: Seq<u8>|
                #[trigger] store_view(*store).user_to_album.contains_key(k)
                    ==> v0.user_to_album.contains_key(k),
            forall|k: Seq<u8>|
                #[trigger] store_view(*store).album_to_user.contains_key(k)
                    ==> v0.album_to_user.contains_key(k),
            forall|k: Seq<u8>|
                #[trigger] store_view(*store).inclusions.contains_key(k)
                    ==> v0.inclusions.contains_key(k),
            forall|q: Seq<u8>|
                #[trigger] store_view(*store).journal.contains_key(q)
                    ==> v0.journal.contains_key(q),
            journal_bounded(v0, store_view(*store)),
            forall|p: int|
                0 <= p < albums_scan@.len() ==> has_prefix(
                    #[trigger] albums_scan@[p].0@,
                    prefixed(uid@),
                ) && v0.user_to_album.contains_key(albums_scan@[p].0@) && albums_scan@[p].1@
                    == v0.user_to_album[albums_scan@[p].0@],
            forall|k: Seq<u8>|
                v0.user_to_album.contains_key(k) && has_prefix(k, prefixed(uid@)) ==> exists|
                    p: int,
                |
                    0 <= p < albums_scan@.len() && #[trigger] albums_scan@[p].0@ == k,
            dot_free(uid@) ==> forall|p: int|
                0 <= p < j && crate::records::dec_role_v(
                    v0.user_to_album[#[trigger] albums_scan@[p].0@],
                ) == Some(crate::wire::Role::Owner) ==> !store_view(*store).albums.contains_key(
                    key_tail(albums_scan@[p].0@, uid@),
                ),
        decreases n2 - j,
    {
        let key = &albums_scan[j].0;
        proof {
            assert(has_prefix(key@, prefixed(uid@)));
            assert(key@[uid@.len() as int] == prefixed(uid@)[uid@.len() as int]);
            assert(key@[uid@.len() as int] == crate::keys::SEP);
        }
        match split_key(key.as_slice()) {
            Some((head, aid)) => {
                proof {
                    if dot_free(uid@) {
                        assert(key@ =~= compose(uid@, key_tail(key@, uid@)));
                        lemma_compose_injective(head@, aid@, uid@, key_tail(key@, uid@));
                    }
                }
                // The role comes from the scan's snapshot of this edge.
                let owned = match crate::records::decode_role(albums_scan[j].1.as_slice()) {
                    Some(role) => role.is_owner(),
                    None => false,
                };
                let ghost before = store_view(*store);
                if owned {
                    match run_album_cmd(store, aid.as_slice()) {
                        Ok(u) => {},
                        Err(e) => {
                            return Err(e);
                        },
                    }
                } else {
                    match store.remove_acl_pair(aid.as_slice(), uid) {
                        Ok(u) => {},
                        Err(e) => {
                            return Err(e);
                        },
                    }
                }
                proof {
                    assert(journal_bounded(before, store_view(*store)));
                    lemma_journal_bounded_trans(v0, before, store_view(*store));
                    if dot_free(uid@) {
                        assert forall|p: int|
                            0 <= p < j + 1 && crate::records::dec_role_v(
                                v0.user_to_album[#[trigger] albums_scan@[p].0@],
                            ) == Some(crate::wire::Role::Owner) implies !store_view(
                            *store,
                        ).albums.contains_key(key_tail(albums_scan@[p].0@, uid@)) by {
                            if p < j {
                                assert(!before.albums.contains_key(
                                    key_tail(albums_scan@[p].0@, uid@),
                                ));
                            } else {
                                assert(albums_scan@[p].1@ == v0.user_to_album[albums_scan@[p].0@]);
                                assert(owned);
                                assert(key_tail(key@, uid@) == aid@);
                            }
                        }
                    }
                }
            },
            None => {
                proof {
                    assert(false);
                }
            },
        }
        j += 1;
    }
    let ghost va = store_view(*store);
    proof {
        if dot_free(uid@) {
            assert forall|a: Seq<u8>|
                dot_free(a) && v0.user_to_album.contains_key(#[trigger] compose(uid@, a))
                    && crate::records::dec_role_v(v0.user_to_album[compose(uid@, a)]) == Some(
                    crate::wire::Role::Owner,
                ) implies !va.albums.contains_key(a) by {
                let kk = compose(uid@, a);
                assert(has_prefix(kk, prefixed(uid@))) by {
                    assert(kk.subrange(0, prefixed(uid@).len() as int) =~= prefixed(uid@));
                }
                let p = choose|p: int| 0 <= p < albums_scan@.len() && albums_scan@[p].0@ == kk;
                assert(key_tail(kk, uid@) =~= a);
            }
        }
    }
    let names = match store.scan_prefix(TreeSel::FileNames, pref.as_slice()) {
        Ok(v) => v,
        Err(e) => {
            return Err(e);
        },
    };
    let n3 = names.len();
    let mut k: usize = 0;
    while k < n3
        invariant
            k <= n3,
            n3 == names@.len(),
            store_view(*store).users == vs.users,
            store_view(*store).emails == vs.emails,
            store_view(*store).sessions == vs.sessions,
            forall|q: Seq<u8>|
                #[trigger] store_view(*store).files.contains_key(q) ==> v0.files.contains_key(q),
            forall|q: Seq<u8>|
                #[trigger] store_view(*store).file_names.contains_key(q)
                    ==> v0.file_names.contains_key(q),
            forall|q: Seq<u8>|
                #[trigger] store_view(*store).albums.contains_key(q) ==> v0.albums.contains_key(q),
            forall|q: Seq<u8>|
                #[trigger] store_view(*store).user_to_album.contains_key(q)
                    ==> v0.user_to_album.contains_key(q),
            forall|q: Seq<u8>|
                #[trigger] store_view(*store).album_to_user.contains_key(q)
                    ==> v0.album_to_user.contains_key(q),
            forall|q: Seq<u8>|
                #[trigger] store_view(*store).inclusions.contains_key(q)
                    ==> v0.inclusions.contains_key(q),
            forall|q: Seq<u8>|
                #[trigger] store_view(*store).journal.contains_key(q)
                    ==> v0.journal.contains_key(q),
            journal_bounded(v0, store_view(*store)),
            dot_free(uid@) ==> forall|a: Seq<u8>|
                dot_free(a) && v0.user_to_album.contains_key(#[trigger] compose(uid@, a))
                    && crate::records::dec_role_v(v0.user_to_album[compose(uid@, a)]) == Some(
                    crate::wire::Role::Owner,
                ) ==> !store_view(*store).albums.contains_key(a),
            forall|p: int|
                0 <= p < names@.len() ==> has_prefix(#[trigger] names@[p].0@, prefixed(uid@))
                    && va.file_names.contains_key(names@[p].0@) && names@[p].1@
                    == va.file_names[names@[p].0@],
            forall|q: Seq<u8>|
                va.file_names.contains_key(q) && has_prefix(q, prefixed(uid@)) ==> exists|p: int|
                    0 <= p < names@.len() && #[trigger] names@[p].0@ == q,
            forall|p: int|
                0 <= p < k ==> !store_view(*store).files.contains_key(#[trigger] names@[p].1@),
        decreases n3 - k,
    {
        let file_id = &names[k].1;
        let ghost before = store_view(*store);
        match store.get(TreeSel::Files, file_id.as_slice()) {
            Ok(Some(fb)) => {
                match decode_file(fb.as_slice()) {
                    Some(file) => {
                        match run_file_cmd(store, file_id.as_slice(), &file) {
                            Ok(u) => {},
                            Err(e) => {
                                return Err(e);
                            },
                        }
                    },
                    None => {
                        return Err(ApiError::Storage);
                    },
                }
            },
            Ok(None) => {},
            Err(e) => {
                return Err(e);
            },
        }
        proof {
            assert(journal_bounded(before, store_view(*store)));
            lemma_journal_bounded_trans(v0, before, store_view(*store));
        }
        k += 1;
    }
    proof {
        let v2 = store_view(*store);
        assert forall|nk: Seq<u8>|
            #[trigger] v0.file_names.contains_key(nk) && has_prefix(nk, prefixed(uid@))
            implies !v2.files.contains_key(v0.file_names[nk]) by {
            assert(va.file_names == v0.file_names);
            let p = choose|p: int| 0 <= p < names@.len() && names@[p].0@ == nk;
            assert(names@[p].1@ == v0.file_names[nk]);
        }
    }
    Ok(())
}

/// The album delete of the public surface: only a logged-in caller holding
/// the Owner role may run the journalled cascade.
pub fn delete_album_authorized(
    store: &mut Store,
    key: &[u8],
    uid: &[u8],
    aid: &[u8],
) -> (r: Result<(), ApiError>)
    ensures
        r == Err::<(), ApiError>(ApiError::Unauthorized) ==> !(crate::store::logged_in(
            store_view(*old(store)),
            key@,
        ) && crate::store::role_of(store_view(*old(store)), uid@, aid@) == Some(
            crate::wire::Role::Owner,
        )) && store_view(*final(store)) == store_view(*old(store)),
        (crate::store::logged_in(store_view(*old(store)), key@) && crate::store::role_of(
            store_view(*old(store)),
            uid@,
            aid@,
        ) == Some(crate::wire::Role::Owner)) ==> (r is Ok || r == Err::<(), ApiError>(
            ApiError::Storage,
        )),
        !(crate::store::logged_in(store_view(*old(store)), key@) && crate::store::role_of(
            store_view(*old(store)),
            uid@,
            aid@,
        ) == Some(crate::wire::Role::Owner)) ==> (r == Err::<(), ApiError>(ApiError::Unauthorized)
            || r == Err::<(), ApiError>(ApiError::Storage)),
        r is Ok || r == Err::<(), ApiError>(ApiError::Unauthorized) || r == Err::<(), ApiError>(
            ApiError::Storage,
        ),
        r is Ok ==> album_tables(store_view(*old(store)), store_view(*final(store)), aid@) && (
        forall|q: Seq<u8>|
            #[trigger] store_view(*final(store)).journal.contains_key(q) ==> store_view(
                *old(store),
            ).journal.contains_key(q)),
        (r matches Ok(u) && dot_free(aid@)) ==> album_purged(
            store_view(*old(store)),
            store_view(*final(store)),
            aid@,
        ),
{
    match store.get(TreeSel::Sessions, key) {
        Ok(Some(b)) => {},
        Ok(None) => {
            return Err(ApiError::Unauthorized);
        },
        Err(e) => {
            return Err(e);
        },
    }
    let rk = compose_key(uid, aid);
    let role_bytes = match store.get(TreeSel::UserToAlbum, rk.as_slice()) {
        Ok(Some(b)) => b,
        Ok(None) => {
            return Err(ApiError::Unauthorized);
        },
        Err(e) => {
            return Err(e);
        },
    };
    let owner = match crate::records::decode_role(role_bytes.as_slice()) {
        Some(role) => role.is_owner(),
        None => false,
    };
    if !owner {
        return Err(ApiError::Unauthorized);
    }
    run_album_cmd(store, aid)
}

} // verus!
