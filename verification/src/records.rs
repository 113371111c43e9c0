//! Stored records and their persistence codec.
//!
//! Values in the key-value trees are compact binary records: a sequence of
//! length-prefixed fields (`bytes::enc_fields`).  Every decoder is proved
//! sound (a successful decode names a record whose encoding is the input) and
//! complete (the encoding of any record decodes).

use vstd::prelude::*;
use crate::bytes::{
    be8, enc_field, enc_fields, spec_decode_fields, lemma_fields_roundtrip, push_be8, read_be8,
    decode_fields, lemma_enc_of_decode,
};
use crate::wire::Role;

verus! {

/// A user at rest: login email and password hash.
#[derive(Clone, Debug, PartialEq, Eq)]
pub struct User {
    pub email: Vec<u8>,
    pub password: Vec<u8>,
}

/// Client-supplied description of a stored file.
#[derive(Clone, Debug, PartialEq, Eq)]
pub struct FileMetadata {
    pub last_modified: i64,
    pub name: Vec<u8>,
    pub mime: Vec<u8>,
}

/// A stored file: owner, pixel dimensions and client metadata.
#[derive(Clone, Debug, PartialEq, Eq)]
pub struct File {
    pub owner_id: Vec<u8>,
    pub width: i32,
    pub height: i32,
    pub metadata: FileMetadata,
}

/// User-editable album settings; the time zone is an IANA zone name.
#[derive(Clone, Debug, PartialEq, Eq)]
pub struct AlbumSettings {
    pub name: Vec<u8>,
    pub time_zone: Vec<u8>,
}

/// An album at rest.  `fragment_head` is the id of the current Top fragment;
/// `length` counts the files over all Sections; `date_range` is the least and
/// greatest day of the Top, if any.
#[derive(Clone, Debug, PartialEq, Eq)]
pub struct Album {
    pub description: AlbumSettings,
    pub fragment_head: u64,
    pub length: usize,
    pub last_update: i64,
    pub date_range: Option<(i64, i64)>,
}

/// Spec model of an album record.
pub struct AlbumV {
    pub name: Seq<u8>,
    pub time_zone: Seq<u8>,
    pub fragment_head: u64,
    pub length: int,
    pub last_update: int,
    pub date_range: Option<(int, int)>,
}

impl View for Album {
    type V = AlbumV;

    open spec fn view(&self) -> AlbumV {
        AlbumV {
            name: self.description.name@,
            time_zone: self.description.time_zone@,
            fragment_head: self.fragment_head,
            length: self.length as int,
            last_update: self.last_update as int,
            date_range: match self.date_range {
                None => None,
                Some((lo, hi)) => Some((lo as int, hi as int)),
            },
        }
    }
}

pub open spec fn user_fields(u: User) -> Seq<Seq<u8>> {
    seq![u.email@, u.password@]
}

pub open spec fn enc_user(u: User) -> Seq<u8> {
    enc_fields(user_fields(u))
}

pub open spec fn file_fields(f: File) -> Seq<Seq<u8>> {
    seq![
        f.owner_id@,
        be8(f.width as u64),
        be8(f.height as u64),
        be8(f.metadata.last_modified as u64),
        f.metadata.name@,
        f.metadata.mime@,
    ]
}

pub open spec fn enc_file(f: File) -> Seq<u8> {
    enc_fields(file_fields(f))
}

pub open spec fn range_field(d: Option<(i64, i64)>) -> Seq<u8> {
    match d {
        None => Seq::empty(),
        Some((lo, hi)) => be8(lo as u64) + be8(hi as u64),
    }
}

pub open spec fn album_fields(a: Album) -> Seq<Seq<u8>> {
    seq![
        a.description.name@,
        a.description.time_zone@,
        be8(a.fragment_head),
        be8(a.length as u64),
        be8(a.last_update as u64),
        range_field(a.date_range),
    ]
}

pub open spec fn enc_album(a: Album) -> Seq<u8> {
    enc_fields(album_fields(a))
}

pub open spec fn role_tag(r: Role) -> u8 {
    match r {
        Role::Owner => 0u8,
        Role::Editor => 1u8,
        Role::Reader => 2u8,
    }
}

pub open spec fn enc_role(r: Role) -> Seq<u8> {
    seq![role_tag(r)]
}

/// Spec model of a file record.
pub struct FileV {
    pub owner_id: Seq<u8>,
    pub width: int,
    pub height: int,
    pub last_modified: int,
    pub name: Seq<u8>,
    pub mime: Seq<u8>,
}

impl View for File {
    type V = FileV;

    open spec fn view(&self) -> FileV {
        FileV {
            owner_id: self.owner_id@,
            width: self.width as int,
            height: self.height as int,
            last_modified: self.metadata.last_modified as int,
            name: self.metadata.name@,
            mime: self.metadata.mime@,
        }
    }
}

/// Spec model of a user record.
pub struct UserV {
    pub email: Seq<u8>,
    pub password: Seq<u8>,
}

impl View for User {
    type V = UserV;

    open spec fn view(&self) -> UserV {
        UserV { email: self.email@, password: self.password@ }
    }
}

pub open spec fn enc_user_v(u: UserV) -> Seq<u8> {
    enc_fields(seq![u.email, u.password])
}

pub open spec fn enc_file_v(f: FileV) -> Seq<u8> {
    enc_fields(
        seq![
            f.owner_id,
            be8(f.width as u64),
            be8(f.height as u64),
            be8(f.last_modified as u64),
            f.name,
            f.mime,
        ],
    )
}

pub open spec fn range_field_v(d: Option<(int, int)>) -> Seq<u8> {
    match d {
        None => Seq::empty(),
        Some((lo, hi)) => be8(lo as u64) + be8(hi as u64),
    }
}

pub open spec fn enc_album_v(a: AlbumV) -> Seq<u8> {
    enc_fields(
        seq![
            a.name,
            a.time_zone,
            be8(a.fragment_head),
            be8(a.length as u64),
            be8(a.last_update as u64),
            range_field_v(a.date_range),
        ],
    )
}

/// Spec-level decoding of a user record.
pub open spec fn dec_user_v(b: Seq<u8>) -> Option<UserV> {
    match spec_decode_fields(b) {
        None => None,
        Some(fs) => if fs.len() == 2 {
            Some(UserV { email: fs[0], password: fs[1] })
        } else {
            None
        },
    }
}

/// Spec-level decoding of a file record.
pub open spec fn dec_file_v(b: Seq<u8>) -> Option<FileV> {
    match spec_decode_fields(b) {
        None => None,
        Some(fs) => if fs.len() == 6 && fs[1].len() == 8 && fs[2].len() == 8 && fs[3].len() == 8 {
            let w = crate::bytes::be8_val(fs[1]);
            let h = crate::bytes::be8_val(fs[2]);
            let lm = crate::bytes::be8_val(fs[3]);
            if ((w as i32) as u64) == w && ((h as i32) as u64) == h {
                Some(
                    FileV {
                        owner_id: fs[0],
                        width: (w as i32) as int,
                        height: (h as i32) as int,
                        last_modified: (lm as i64) as int,
                        name: fs[4],
                        mime: fs[5],
                    },
                )
            } else {
                None
            }
        } else {
            None
        },
    }
}

/// Spec-level decoding of an album record.
pub open spec fn dec_album_v(b: Seq<u8>) -> Option<AlbumV> {
    match spec_decode_fields(b) {
        None => None,
        Some(fs) => if fs.len() == 6 && fs[2].len() == 8 && fs[3].len() == 8 && fs[4].len() == 8
            && crate::bytes::be8_val(fs[3]) <= usize::MAX as u64 && (fs[5].len() == 0 || fs[5].len()
            == 16) {
            Some(
                AlbumV {
                    name: fs[0],
                    time_zone: fs[1],
                    fragment_head: crate::bytes::be8_val(fs[2]),
                    length: crate::bytes::be8_val(fs[3]) as int,
                    last_update: (crate::bytes::be8_val(fs[4]) as i64) as int,
                    date_range: if fs[5].len() == 0 {
                        None
                    } else {
                        Some(
                            (
                                (crate::bytes::be8_val(fs[5].subrange(0, 8)) as i64) as int,
                                (crate::bytes::be8_val(fs[5].subrange(8, 16)) as i64) as int,
                            ),
                        )
                    },
                },
            )
        } else {
            None
        },
    }
}

/// Spec-level decoding of a role byte.
pub open spec fn dec_role_v(b: Seq<u8>) -> Option<Role> {
    if b.len() == 1 {
        if b[0] == 0 {
            Some(Role::Owner)
        } else if b[0] == 1 {
            Some(Role::Editor)
        } else if b[0] == 2 {
            Some(Role::Reader)
        } else {
            None
        }
    } else {
        None
    }
}

/// A bounded album model decodes from its own encoding.
pub proof fn lemma_dec_enc_album_v(a: AlbumV)
    requires
        a.name.len() <= usize::MAX,
        a.time_zone.len() <= usize::MAX,
        0 <= a.length <= usize::MAX,
        i64::MIN <= a.last_update <= i64::MAX,
        (a.date_range matches Some(p) ==> i64::MIN <= p.0 <= i64::MAX && i64::MIN <= p.1
            <= i64::MAX),
    ensures
        dec_album_v(enc_album_v(a)) == Some(a),
{
    let fs = seq![
        a.name,
        a.time_zone,
        be8(a.fragment_head),
        be8(a.length as u64),
        be8(a.last_update as u64),
        range_field_v(a.date_range),
    ];
    assert(forall|k: int| 0 <= k < fs.len() ==> #[trigger] fs[k].len() <= usize::MAX);
    lemma_fields_roundtrip(fs);
    crate::bytes::lemma_be8_val(a.fragment_head);
    crate::bytes::lemma_be8_val(a.length as u64);
    crate::bytes::lemma_be8_val(a.last_update as u64);
    assert((a.length as u64) as int == a.length);
    let w: i64 = a.last_update as i64;
    assert(w as int == a.last_update);
    crate::bytes::lemma_i64_roundtrip(w);
    assert(((w as u64) as i64) as int == a.last_update);
    match a.date_range {
        None => {
            assert(range_field_v(a.date_range).len() == 0);
        },
        Some((lo, hi)) => {
            let rf = range_field_v(a.date_range);
            assert(rf == be8(lo as u64) + be8(hi as u64));
            assert(rf.len() == 16);
            assert(rf.subrange(0, 8) =~= be8(lo as u64));
            assert(rf.subrange(8, 16) =~= be8(hi as u64));
            crate::bytes::lemma_be8_val(lo as u64);
            crate::bytes::lemma_be8_val(hi as u64);
            let wl: i64 = lo as i64;
            let wh: i64 = hi as i64;
            assert(wl as int == lo && wh as int == hi);
            crate::bytes::lemma_i64_roundtrip(wl);
            crate::bytes::lemma_i64_roundtrip(wh);
        },
    }
}

/// The record-level and model-level encodings agree.
pub proof fn lemma_enc_user_v(u: User)
    ensures
        enc_user(u) == enc_user_v(u@),
{
    assert(user_fields(u) =~= seq![u@.email, u@.password]);
}

pub proof fn lemma_enc_file_v(f: File)
    ensures
        enc_file(f) == enc_file_v(f@),
{
    assert(file_fields(f) =~= seq![
        f@.owner_id,
        be8(f@.width as u64),
        be8(f@.height as u64),
        be8(f@.last_modified as u64),
        f@.name,
        f@.mime,
    ]);
}

pub proof fn lemma_enc_album_v(a: Album)
    ensures
        enc_album(a) == enc_album_v(a@),
{
    assert(range_field(a.date_range) == range_field_v(a@.date_range));
    assert(album_fields(a) =~= seq![
        a@.name,
        a@.time_zone,
        be8(a@.fragment_head),
        be8(a@.length as u64),
        be8(a@.last_update as u64),
        range_field_v(a@.date_range),
    ]);
}

proof fn lemma_enc_fields_append(xs: Seq<Seq<u8>>, ys: Seq<Seq<u8>>)
    ensures
        enc_fields(xs + ys) == enc_fields(xs) + enc_fields(ys),
    decreases xs.len(),
{
    if xs.len() == 0 {
        assert(xs + ys =~= ys);
        assert(enc_fields(xs) =~= Seq::<u8>::empty());
        assert(Seq::<u8>::empty() + enc_fields(ys) =~= enc_fields(ys));
    } else {
        assert((xs + ys).drop_first() =~= xs.drop_first() + ys);
        lemma_enc_fields_append(xs.drop_first(), ys);
        assert((xs + ys)[0] == xs[0]);
        assert(enc_field(xs[0]) + (enc_fields(xs.drop_first()) + enc_fields(ys)) =~= (enc_field(
            xs[0],
        ) + enc_fields(xs.drop_first())) + enc_fields(ys));
    }
}

proof fn lemma_enc_fields_one(x: Seq<u8>)
    ensures
        enc_fields(seq![x]) == enc_field(x),
{
    let s = seq![x];
    assert(s.len() == 1);
    assert(enc_fields(s) == enc_field(s[0]) + enc_fields(s.drop_first()));
    assert(s[0] == x);
    assert(s.drop_first() =~= Seq::<Seq<u8>>::empty());
    assert(enc_fields(Seq::<Seq<u8>>::empty()) == Seq::<u8>::empty());
    assert(enc_field(x) + Seq::<u8>::empty() =~= enc_field(x));
}

/// `out` grows by one length-prefixed field holding `f`.
pub fn push_field(out: &mut Vec<u8>, f: &[u8])
    ensures
        final(out)@ == old(out)@ + enc_field(f@),
{
    push_be8(out, f.len() as u64);
    out.extend_from_slice(f);
    assert(out@ =~= old(out)@ + enc_field(f@));
}

/// Append one field to a running encoding; keeps the fields-so-far view.
pub fn push_named_field(out: &mut Vec<u8>, f: &[u8], Ghost(fs): Ghost<Seq<Seq<u8>>>)
    requires
        old(out)@ == enc_fields(fs),
    ensures
        final(out)@ == enc_fields(fs.push(f@)),
{
    push_field(out, f);
    proof {
        assert(fs.push(f@) =~= fs + seq![f@]);
        lemma_enc_fields_append(fs, seq![f@]);
        lemma_enc_fields_one(f@);
    }
}

pub fn encode_user(u: &User) -> (r: Vec<u8>)
    ensures
        r@ == enc_user(*u),
{
    let mut out: Vec<u8> = Vec::new();
    assert(out@ =~= enc_fields(Seq::<Seq<u8>>::empty()));
    proof {
        assert(user_fields(*u).take(1) =~= Seq::<Seq<u8>>::empty().push(u.email@));
        assert(user_fields(*u) =~= user_fields(*u).take(1).push(u.password@));
    }
    push_named_field(&mut out, u.email.as_slice(), Ghost(Seq::empty()));
    push_named_field(&mut out, u.password.as_slice(), Ghost(user_fields(*u).take(1)));
    out
}

pub fn encode_file(f: &File) -> (r: Vec<u8>)
    ensures
        r@ == enc_file(*f),
{
    let mut out: Vec<u8> = Vec::new();
    assert(out@ =~= enc_fields(Seq::<Seq<u8>>::empty()));
    let w8 = crate::bytes::be8_bytes(#[verifier::truncate] (f.width as u64));
    let h8 = crate::bytes::be8_bytes(#[verifier::truncate] (f.height as u64));
    let m8 = crate::bytes::be8_bytes(#[verifier::truncate] (f.metadata.last_modified as u64));
    proof {
        assert(file_fields(*f).take(1) =~= Seq::<Seq<u8>>::empty().push(f.owner_id@));
        assert(file_fields(*f).take(2) =~= file_fields(*f).take(1).push(be8(f.width as u64)));
        assert(file_fields(*f).take(3) =~= file_fields(*f).take(2).push(be8(f.height as u64)));
        assert(file_fields(*f).take(4) =~= file_fields(*f).take(3).push(
            be8(f.metadata.last_modified as u64),
        ));
        assert(file_fields(*f).take(5) =~= file_fields(*f).take(4).push(f.metadata.name@));
        assert(file_fields(*f) =~= file_fields(*f).take(5).push(f.metadata.mime@));
    }
    push_named_field(&mut out, f.owner_id.as_slice(), Ghost(Seq::empty()));
    push_named_field(&mut out, w8.as_slice(), Ghost(file_fields(*f).take(1)));
    push_named_field(&mut out, h8.as_slice(), Ghost(file_fields(*f).take(2)));
    push_named_field(&mut out, m8.as_slice(), Ghost(file_fields(*f).take(3)));
    push_named_field(&mut out, f.metadata.name.as_slice(), Ghost(file_fields(*f).take(4)));
    push_named_field(&mut out, f.metadata.mime.as_slice(), Ghost(file_fields(*f).take(5)));
    out
}

pub fn encode_album(a: &Album) -> (r: Vec<u8>)
    ensures
        r@ == enc_album(*a),
{
    let mut out: Vec<u8> = Vec::new();
    assert(out@ =~= enc_fields(Seq::<Seq<u8>>::empty()));
    let head8 = crate::bytes::be8_bytes(a.fragment_head);
    let len8 = crate::bytes::be8_bytes(a.length as u64);
    let upd8 = crate::bytes::be8_bytes(#[verifier::truncate] (a.last_update as u64));
    let mut range: Vec<u8> = Vec::new();
    match &a.date_range {
        None => {
            assert(range@ =~= range_field(a.date_range));
        },
        Some(pair) => {
            push_be8(&mut range, #[verifier::truncate] (pair.0 as u64));
            push_be8(&mut range, #[verifier::truncate] (pair.1 as u64));
            assert(range@ =~= range_field(a.date_range));
        },
    }
    proof {
        assert(album_fields(*a).take(1) =~= Seq::<Seq<u8>>::empty().push(a.description.name@));
        assert(album_fields(*a).take(2) =~= album_fields(*a).take(1).push(a.description.time_zone@));
        assert(album_fields(*a).take(3) =~= album_fields(*a).take(2).push(be8(a.fragment_head)));
        assert(album_fields(*a).take(4) =~= album_fields(*a).take(3).push(be8(a.length as u64)));
        assert(album_fields(*a).take(5) =~= album_fields(*a).take(4).push(be8(a.last_update as u64)));
        assert(album_fields(*a) =~= album_fields(*a).take(5).push(range_field(a.date_range)));
    }
    push_named_field(&mut out, a.description.name.as_slice(), Ghost(Seq::empty()));
    push_named_field(&mut out, a.description.time_zone.as_slice(), Ghost(album_fields(*a).take(1)));
    push_named_field(&mut out, head8.as_slice(), Ghost(album_fields(*a).take(2)));
    push_named_field(&mut out, len8.as_slice(), Ghost(album_fields(*a).take(3)));
    push_named_field(&mut out, upd8.as_slice(), Ghost(album_fields(*a).take(4)));
    push_named_field(&mut out, range.as_slice(), Ghost(album_fields(*a).take(5)));
    out
}

pub fn encode_role(r: &Role) -> (out: Vec<u8>)
    ensures
        out@ == enc_role(*r),
{
    let mut out: Vec<u8> = Vec::new();
    let tag: u8 = match r {
        Role::Owner => 0u8,
        Role::Editor => 1u8,
        Role::Reader => 2u8,
    };
    out.push(tag);
    assert(out@ =~= enc_role(*r));
    out
}

broadcast use vstd::std_specs::vec::axiom_spec_len, crate::bytes::lemma_be8_len;

proof fn lemma_user_fields_fit(u: User)
    ensures
        forall|k: int|
            0 <= k < user_fields(u).len() ==> #[trigger] user_fields(u)[k].len() <= usize::MAX,
{
    assert(u.email.len() == u.email@.len());
    assert(u.password.len() == u.password@.len());
}

proof fn lemma_file_fields_fit(f: File)
    ensures
        forall|k: int|
            0 <= k < file_fields(f).len() ==> #[trigger] file_fields(f)[k].len() <= usize::MAX,
{
    assert(f.owner_id.len() == f.owner_id@.len());
    assert(f.metadata.name.len() == f.metadata.name@.len());
    assert(f.metadata.mime.len() == f.metadata.mime@.len());
}

proof fn lemma_album_fields_fit(a: Album)
    ensures
        forall|k: int|
            0 <= k < album_fields(a).len() ==> #[trigger] album_fields(a)[k].len() <= usize::MAX,
{
    assert(a.description.name.len() == a.description.name@.len());
    assert(a.description.time_zone.len() == a.description.time_zone@.len());
    assert(album_fields(a)[5].len() <= 16);
}

/// Read the integer out of an eight-byte field.
fn read_u64_field(f: &[u8]) -> (r: Option<u64>)
    ensures
        r matches Some(v) ==> f@ == be8(v),
        f@.len() == 8 ==> r is Some,
{
    if f.len() != 8 {
        return None;
    }
    match read_be8(f, 0) {
        Some((v, _)) => {
            proof {
                assert(f@.subrange(0, 8) =~= f@);
            }
            Some(v)
        },
        None => None,
    }
}

#[verifier::rlimit(100)]
#[verifier::spinoff_prover]
pub fn decode_user(b: &[u8]) -> (r: Option<User>)
    ensures
        r matches Some(u) ==> b@ == enc_user(u),
        forall|u: User| b@ == enc_user(u) ==> r is Some,
        (match r {
            Some(u) => dec_user_v(b@) == Some(u@),
            None => dec_user_v(b@) is None,
        }),
{
    proof {
        assert forall|u: User| b@ == enc_user(u) implies spec_decode_fields(b@) == Some(
            user_fields(u),
        ) by {
            lemma_user_fields_fit(u);
            lemma_fields_roundtrip(user_fields(u));
        }
    }
    let mut fields = match decode_fields(b) {
        Some(fs) => fs,
        None => {
            return None;
        },
    };
    let ghost orig = fields@.map_values(|f: Vec<u8>| f@);
    if fields.len() != 2 {
        return None;
    }
    let password = match fields.pop() {
        Some(x) => x,
        None => {
            return None;
        },
    };
    let email = match fields.pop() {
        Some(x) => x,
        None => {
            return None;
        },
    };
    let u = User { email, password };
    proof {
        lemma_enc_of_decode(b@);
        assert(user_fields(u) =~= orig);
    }
    Some(u)
}

pub fn decode_file(b: &[u8]) -> (r: Option<File>)
    ensures
        r matches Some(f) ==> b@ == enc_file(f),
        forall|f: File| b@ == enc_file(f) ==> r is Some,
        (match r {
            Some(f) => dec_file_v(b@) == Some(f@),
            None => dec_file_v(b@) is None,
        }),
{
    proof {
        assert forall|f: File| b@ == enc_file(f) implies spec_decode_fields(b@) == Some(
            file_fields(f),
        ) by {
            lemma_file_fields_fit(f);
            lemma_fields_roundtrip(file_fields(f));
        }
    }
    let mut fields = match decode_fields(b) {
        Some(fs) => fs,
        None => {
            return None;
        },
    };
    let ghost orig = fields@.map_values(|f: Vec<u8>| f@);
    if fields.len() != 6 {
        return None;
    }
    let mime = match fields.pop() {
        Some(x) => x,
        None => {
            return None;
        },
    };
    let name = match fields.pop() {
        Some(x) => x,
        None => {
            return None;
        },
    };
    let m8 = match fields.pop() {
        Some(x) => x,
        None => {
            return None;
        },
    };
    let h8 = match fields.pop() {
        Some(x) => x,
        None => {
            return None;
        },
    };
    let w8 = match fields.pop() {
        Some(x) => x,
        None => {
            return None;
        },
    };
    let owner_id = match fields.pop() {
        Some(x) => x,
        None => {
            return None;
        },
    };
    assert(orig == seq![owner_id@, w8@, h8@, m8@, name@, mime@]);
    let wv = match read_u64_field(w8.as_slice()) {
        Some(v) => v,
        None => {
            return None;
        },
    };
    let hv = match read_u64_field(h8.as_slice()) {
        Some(v) => v,
        None => {
            return None;
        },
    };
    let mv = match read_u64_field(m8.as_slice()) {
        Some(v) => v,
        None => {
            return None;
        },
    };
    let width: i32 = #[verifier::truncate] (wv as i32);
    let height: i32 = #[verifier::truncate] (hv as i32);
    let last_modified: i64 = #[verifier::truncate] (mv as i64);
    if #[verifier::truncate] (width as u64) != wv || #[verifier::truncate] (height as u64) != hv {
        proof {
            crate::bytes::lemma_be8_val(wv);
            crate::bytes::lemma_be8_val(hv);
            assert forall|f: File| b@ == enc_file(f) implies false by {
                crate::bytes::lemma_i32_cast(f.width);
                crate::bytes::lemma_i32_cast(f.height);
                crate::bytes::lemma_be8_injective(wv, f.width as u64);
                crate::bytes::lemma_be8_injective(hv, f.height as u64);
            }
        }
        return None;
    }
    let f = File { owner_id, width, height, metadata: FileMetadata { last_modified, name, mime } };
    proof {
        lemma_enc_of_decode(b@);
        crate::bytes::lemma_i64_cast(mv);
        crate::bytes::lemma_be8_val(wv);
        crate::bytes::lemma_be8_val(hv);
        crate::bytes::lemma_be8_val(mv);
        assert(file_fields(f) =~= orig);
    }
    Some(f)
}

pub fn decode_album(b: &[u8]) -> (r: Option<Album>)
    ensures
        r matches Some(a) ==> b@ == enc_album(a),
        forall|a: Album| b@ == enc_album(a) ==> r is Some,
        (match r {
            Some(a) => dec_album_v(b@) == Some(a@),
            None => dec_album_v(b@) is None,
        }),
{
    proof {
        assert forall|a: Album| b@ == enc_album(a) implies spec_decode_fields(b@) == Some(
            album_fields(a),
        ) by {
            lemma_album_fields_fit(a);
            lemma_fields_roundtrip(album_fields(a));
        }
    }
    let mut fields = match decode_fields(b) {
        Some(fs) => fs,
        None => {
            return None;
        },
    };
    let ghost orig = fields@.map_values(|f: Vec<u8>| f@);
    if fields.len() != 6 {
        return None;
    }
    let range = match fields.pop() {
        Some(x) => x,
        None => {
            return None;
        },
    };
    let upd8 = match fields.pop() {
        Some(x) => x,
        None => {
            return None;
        },
    };
    let len8 = match fields.pop() {
        Some(x) => x,
        None => {
            return None;
        },
    };
    let head8 = match fields.pop() {
        Some(x) => x,
        None => {
            return None;
        },
    };
    let time_zone = match fields.pop() {
        Some(x) => x,
        None => {
            return None;
        },
    };
    let name = match fields.pop() {
        Some(x) => x,
        None => {
            return None;
        },
    };
    assert(orig == seq![name@, time_zone@, head8@, len8@, upd8@, range@]);
    let fragment_head = match read_u64_field(head8.as_slice()) {
        Some(v) => v,
        None => {
            return None;
        },
    };
    let lenv = match read_u64_field(len8.as_slice()) {
        Some(v) => v,
        None => {
            return None;
        },
    };
    let updv = match read_u64_field(upd8.as_slice()) {
        Some(v) => v,
        None => {
            return None;
        },
    };
    if lenv > usize::MAX as u64 {
        proof {
            crate::bytes::lemma_be8_val(lenv);
            assert forall|a: Album| b@ == enc_album(a) implies false by {
                crate::bytes::lemma_be8_injective(lenv, a.length as u64);
            }
        }
        return None;
    }
    let length: usize = lenv as usize;
    let last_update: i64 = #[verifier::truncate] (updv as i64);
    let date_range: Option<(i64, i64)> = if range.len() == 0 {
        None
    } else if range.len() == 16 {
        let lo8 = match read_be8(range.as_slice(), 0) {
            Some((v, _)) => v,
            None => {
                return None;
            },
        };
        let hi8 = match read_be8(range.as_slice(), 8) {
            Some((v, _)) => v,
            None => {
                return None;
            },
        };
        proof {
            crate::bytes::lemma_i64_cast(lo8);
            crate::bytes::lemma_i64_cast(hi8);
            crate::bytes::lemma_be8_val(lo8);
            crate::bytes::lemma_be8_val(hi8);
            assert(range@.subrange(0, 8) + range@.subrange(8, 16) =~= range@);
        }
        Some((#[verifier::truncate] (lo8 as i64), #[verifier::truncate] (hi8 as i64)))
    } else {
        proof {
            assert forall|a: Album| b@ == enc_album(a) implies false by {
                assert(range_field(a.date_range).len() == 0 || range_field(a.date_range).len()
                    == 16);
            }
        }
        return None;
    };
    let a = Album {
        description: AlbumSettings { name, time_zone },
        fragment_head,
        length,
        last_update,
        date_range,
    };
    proof {
        lemma_enc_of_decode(b@);
        crate::bytes::lemma_i64_cast(updv);
        crate::bytes::lemma_be8_val(fragment_head);
        crate::bytes::lemma_be8_val(lenv);
        crate::bytes::lemma_be8_val(updv);
        match a.date_range {
            None => {
                assert(range_field(a.date_range) =~= range@);
            },
            Some((lo, hi)) => {
                assert(range@.subrange(0, 8) + range@.subrange(8, 16) =~= range@);
                assert(range_field(a.date_range) =~= range@);
            },
        }
        assert(album_fields(a) =~= orig);
    }
    Some(a)
}

pub fn decode_role(b: &[u8]) -> (r: Option<Role>)
    ensures
        r matches Some(role) ==> b@ == enc_role(role),
        forall|role: Role| b@ == enc_role(role) ==> r is Some,
        r == dec_role_v(b@),
{
    if b.len() != 1 {
        return None;
    }
    let r = if b[0] == 0u8 {
        Some(Role::Owner)
    } else if b[0] == 1u8 {
        Some(Role::Editor)
    } else if b[0] == 2u8 {
        Some(Role::Reader)
    } else {
        None
    };
    proof {
        match r {
            Some(role) => {
                assert(b@ =~= enc_role(role));
            },
            None => {},
        }
    }
    r
}

} // verus!
