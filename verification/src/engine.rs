//! The Fragment Engine: day-sharded, immutable album metadata.
//!
//! An album's metadata is a two-level tree of immutable JSON fragments in the
//! `fragments` keyspace, keyed `album_id '.' fragment_id` (the id as eight
//! big-endian bytes).  One Top per album lists its Sections; each Section
//! holds the files of one calendar day in the album's time zone.  Every
//! mutation writes fresh fragment ids and deletes the old fragments in the
//! same transaction, so a fragment id is a stable cache tag.

use vstd::prelude::*;
use crate::records::{Album, AlbumV, File};
use crate::json::{
    SectionEntry, SectionEntryV, TopEntry, TopEntryV, entries_view, top_view, enc_section,
    enc_top, sp_section, sp_top, wf_sentry, wf_tentry, parse_section, parse_top, encode_section,
    encode_top, lemma_parse_section_enc, lemma_parse_top_enc,
};
use crate::keys::{compose, valid_id, dot_free, bytes_lt, bytes_lt_e, bytes_eq, compose_key,
    prefixed, has_prefix};
use crate::bytes::{be8, be8_bytes};
use crate::kv::{TxMap, Fault};
use crate::tz::{day_of, day_bucket, day_in_range, zone_ok};
use crate::error::ApiError;

verus! {

/// Key of one fragment of one album.
pub open spec fn frag_key(aid: Seq<u8>, fid: u64) -> Seq<u8> {
    compose(aid, be8(fid))
}

/// Build a fragment key: `album_id '.' fragment_id` big-endian.
pub fn get_id(album_id: &[u8], fragment_id: u64) -> (r: Vec<u8>)
    ensures
        r@ == frag_key(album_id@, fragment_id),
{
    let suffix = be8_bytes(fragment_id);
    compose_key(album_id, suffix.as_slice())
}

/// Section order: by timestamp, then file id.
pub open spec fn sentry_lt(a: SectionEntryV, b: SectionEntryV) -> bool {
    a.time_stamp < b.time_stamp || (a.time_stamp == b.time_stamp && bytes_lt(a.file_id, b.file_id))
}

pub open spec fn sentry_key_eq(a: SectionEntryV, b: SectionEntryV) -> bool {
    a.time_stamp == b.time_stamp && a.file_id == b.file_id
}

pub open spec fn sorted_sentries(es: Seq<SectionEntryV>) -> bool {
    forall|i: int, j: int| 0 <= i < j < es.len() ==> sentry_lt(#[trigger] es[i], #[trigger] es[j])
}

/// A well-formed Section: sorted entries in machine range with proper ids.
pub open spec fn wf_section(es: Seq<SectionEntryV>) -> bool {
    sorted_sentries(es) && forall|i: int| 0 <= i < es.len() ==> wf_sentry(#[trigger] es[i])
}

/// A well-formed Top: sorted strictly by day, each entry counting at least
/// one file.
pub open spec fn wf_top(t: Seq<TopEntryV>) -> bool {
    (forall|i: int, j: int| 0 <= i < j < t.len() ==> #[trigger] t[i].day < #[trigger] t[j].day)
        && (forall|i: int| 0 <= i < t.len() ==> wf_tentry(#[trigger] t[i]) && t[i].length >= 1)
}

/// Total file count of a Top.
pub open spec fn top_total(t: Seq<TopEntryV>) -> int
    decreases t.len(),
{
    if t.len() == 0 {
        0
    } else {
        t[0].length + top_total(t.drop_first())
    }
}

/// The Top entry of a day, if any.
pub open spec fn top_find(t: Seq<TopEntryV>, d: int) -> Option<TopEntryV>
    decreases t.len(),
{
    if t.len() == 0 {
        None
    } else if t[0].day == d {
        Some(t[0])
    } else {
        top_find(t.drop_first(), d)
    }
}

/// Upsert one day's entry, keeping day order.
pub open spec fn top_upsert(t: Seq<TopEntryV>, e: TopEntryV) -> Seq<TopEntryV>
    decreases t.len(),
{
    if t.len() == 0 {
        seq![e]
    } else if t[0].day == e.day {
        seq![e] + t.drop_first()
    } else if e.day < t[0].day {
        seq![e] + t
    } else {
        seq![t[0]] + top_upsert(t.drop_first(), e)
    }
}

/// Remove one day's entry.
pub open spec fn top_remove(t: Seq<TopEntryV>, d: int) -> Seq<TopEntryV>
    decreases t.len(),
{
    if t.len() == 0 {
        t
    } else if t[0].day == d {
        t.drop_first()
    } else {
        seq![t[0]] + top_remove(t.drop_first(), d)
    }
}

/// Insert an entry in Section order, replacing one with the same key.
pub open spec fn insert_sentry(es: Seq<SectionEntryV>, e: SectionEntryV) -> Seq<SectionEntryV>
    decreases es.len(),
{
    if es.len() == 0 {
        seq![e]
    } else if sentry_key_eq(e, es[0]) {
        seq![e] + es.drop_first()
    } else if sentry_lt(e, es[0]) {
        seq![e] + es
    } else {
        seq![es[0]] + insert_sentry(es.drop_first(), e)
    }
}

/// Remove the entry with the given key, if present.
pub open spec fn remove_sentry(es: Seq<SectionEntryV>, ts: int, id: Seq<u8>) -> Seq<SectionEntryV>
    decreases es.len(),
{
    if es.len() == 0 {
        es
    } else if es[0].time_stamp == ts && es[0].file_id == id {
        es.drop_first()
    } else {
        seq![es[0]] + remove_sentry(es.drop_first(), ts, id)
    }
}

/// Every Section the Top points at is present, parses, has the promised
/// length, and buckets to its day.
pub open spec fn section_ok(
    m: Map<Seq<u8>, Seq<u8>>,
    aid: Seq<u8>,
    te: TopEntryV,
    zone: Seq<u8>,
) -> bool {
    let sk = frag_key(aid, te.fragment_id as u64);
    &&& m.contains_key(sk)
    &&& sp_section(m[sk]) is Some
    &&& {
        let es = sp_section(m[sk]).unwrap();
        &&& wf_section(es)
        &&& es.len() == te.length
        &&& forall|i: int|
            0 <= i < es.len() ==> day_of(#[trigger] es[i].time_stamp, zone) == te.day
    }
}

/// The album's fragments are exactly one Top and its Sections, and the
/// album record's derived fields agree with the Top.
pub open spec fn album_inv(m: Map<Seq<u8>, Seq<u8>>, aid: Seq<u8>, a: AlbumV) -> bool {
    let hk = frag_key(aid, a.fragment_head);
    &&& valid_id(aid)
    &&& m.contains_key(hk)
    &&& sp_top(m[hk]) is Some
    &&& {
        let t = sp_top(m[hk]).unwrap();
        &&& wf_top(t)
        &&& forall|k: int|
            0 <= k < t.len() ==> 0 <= #[trigger] t[k].fragment_id < a.fragment_head as int
        &&& forall|k: int| 0 <= k < t.len() ==> section_ok(m, aid, #[trigger] t[k], a.time_zone)
        &&& a.length == top_total(t)
        &&& a.date_range == (if t.len() == 0 {
            None::<(int, int)>
        } else {
            Some((t[0].day, t[t.len() - 1].day))
        })
        &&& forall|k: Seq<u8>|
            m.contains_key(k) && has_prefix(k, prefixed(aid)) ==> k == hk || (exists|j: int|
                0 <= j < t.len() && k == frag_key(aid, #[trigger] t[j].fragment_id as u64))
    }
}

/// One staged day: the Section under construction and, if the day already
/// had a Section, the fragment id to delete at commit.
pub struct CacheDay {
    pub day: i64,
    pub orig: Option<u64>,
    pub entries: Vec<SectionEntry>,
}

pub struct CacheDayV {
    pub day: int,
    pub orig: Option<u64>,
    pub entries: Seq<SectionEntryV>,
}

impl View for CacheDay {
    type V = CacheDayV;

    open spec fn view(&self) -> CacheDayV {
        CacheDayV { day: self.day as int, orig: self.orig, entries: entries_view(self.entries@) }
    }
}

pub open spec fn cache_view(c: Seq<CacheDay>) -> Seq<CacheDayV> {
    c.map_values(|cd: CacheDay| cd@)
}

/// The staged mutations of one album between open and commit.
pub struct Engine {
    pub album_id: Vec<u8>,
    pub album: Album,
    pub top: Vec<TopEntry>,
    pub cache: Vec<CacheDay>,
}

pub struct EngineV {
    pub album_id: Seq<u8>,
    pub album: AlbumV,
    pub top: Seq<TopEntryV>,
    pub cache: Seq<CacheDayV>,
}

impl View for Engine {
    type V = EngineV;

    open spec fn view(&self) -> EngineV {
        EngineV {
            album_id: self.album_id@,
            album: self.album@,
            top: top_view(self.top@),
            cache: cache_view(self.cache@),
        }
    }
}

/// The engine's own invariant, relative to the fragments keyspace it was
/// opened against.
pub open spec fn engine_inv(ev: EngineV, m: Map<Seq<u8>, Seq<u8>>) -> bool {
    &&& album_inv(m, ev.album_id, ev.album)
    &&& ev.top == sp_top(m[frag_key(ev.album_id, ev.album.fragment_head)]).unwrap()
    &&& cache_inv(ev)
}

/// Every Section a Top names is present and parses; says nothing of days
/// or the time zone.
pub open spec fn tree_ok(m: Map<Seq<u8>, Seq<u8>>, aid: Seq<u8>, t: Seq<TopEntryV>) -> bool {
    forall|k: int|
        0 <= k < t.len() ==> m.contains_key(frag_key(aid, #[trigger] t[k].fragment_id as u64))
            && sp_section(m[frag_key(aid, t[k].fragment_id as u64)]) is Some
}

pub proof fn lemma_engine_inv_tree_ok(ev: EngineV, m: Map<Seq<u8>, Seq<u8>>)
    requires
        engine_inv(ev, m),
    ensures
        tree_ok(m, ev.album_id, ev.top),
{
    assert forall|k: int|
        0 <= k < ev.top.len() implies m.contains_key(
        frag_key(ev.album_id, #[trigger] ev.top[k].fragment_id as u64),
    ) && sp_section(m[frag_key(ev.album_id, ev.top[k].fragment_id as u64)]) is Some by {
        assert(section_ok(m, ev.album_id, ev.top[k], ev.album.time_zone));
    }
}

pub open spec fn cache_inv(ev: EngineV) -> bool {
    &&& forall|i: int, j: int|
        0 <= i < j < ev.cache.len() ==> #[trigger] ev.cache[i].day < #[trigger] ev.cache[j].day
    &&& forall|i: int| 0 <= i < ev.cache.len() ==> cache_day_ok(#[trigger] ev.cache[i], ev)
}

pub open spec fn cache_day_ok(cd: CacheDayV, ev: EngineV) -> bool {
    &&& wf_section(cd.entries)
    &&& forall|i: int|
        0 <= i < cd.entries.len() ==> day_of(#[trigger] cd.entries[i].time_stamp,
            ev.album.time_zone) == cd.day
    &&& (match top_find(ev.top, cd.day) {
        Some(te) => cd.orig == Some(te.fragment_id as u64),
        None => cd.orig is None,
    })
}

pub proof fn lemma_sentry_lt_trans(a: SectionEntryV, b: SectionEntryV, c: SectionEntryV)
    requires
        sentry_lt(a, b),
        sentry_lt(b, c),
    ensures
        sentry_lt(a, c),
{
    if a.time_stamp == b.time_stamp && b.time_stamp == c.time_stamp {
        crate::keys::lemma_bytes_lt_trans(a.file_id, b.file_id, c.file_id);
    }
}

pub proof fn lemma_sentry_trichotomy(a: SectionEntryV, b: SectionEntryV)
    ensures
        sentry_lt(a, b) || sentry_lt(b, a) || sentry_key_eq(a, b),
        sentry_lt(a, b) ==> !sentry_lt(b, a) && !sentry_key_eq(a, b),
        sentry_lt(b, a) ==> !sentry_lt(a, b) && !sentry_key_eq(a, b),
{
    crate::keys::lemma_bytes_lt_trichotomy(a.file_id, b.file_id);
}

/// Sorted insert keeps a Section well formed; every entry of the result is
/// the new entry or one that was already there, and the new entry is there.
pub proof fn lemma_insert_sentry_props(es: Seq<SectionEntryV>, e: SectionEntryV)
    requires
        sorted_sentries(es),
    ensures
        sorted_sentries(insert_sentry(es, e)),
        forall|i: int|
            0 <= i < insert_sentry(es, e).len() ==> #[trigger] insert_sentry(es, e)[i] == e
                || es.contains(insert_sentry(es, e)[i]),
        insert_sentry(es, e).contains(e),
        es.len() <= insert_sentry(es, e).len() <= es.len() + 1,
    decreases es.len(),
{
    let r = insert_sentry(es, e);
    if es.len() == 0 {
        assert(r[0] == e);
    } else if sentry_key_eq(e, es[0]) {
        lemma_sentry_trichotomy(e, es[0]);
        assert(r == seq![e] + es.drop_first());
        assert(r[0] == e);
        assert forall|i: int| 0 <= i < r.len() implies r[i] == e || es.contains(r[i]) by {
            if i > 0 {
                assert(r[i] == es[i]);
            }
        }
        assert forall|i: int, j: int| 0 <= i < j < r.len() implies sentry_lt(r[i], r[j]) by {
            if i == 0 {
                assert(sentry_lt(es[0], es[j]));
            } else {
                assert(sentry_lt(es[i], es[j]));
            }
        }
    } else if sentry_lt(e, es[0]) {
        assert(r == seq![e] + es);
        assert(r[0] == e);
        assert forall|i: int| 0 <= i < r.len() implies r[i] == e || es.contains(r[i]) by {
            if i > 0 {
                assert(r[i] == es[i - 1]);
            }
        }
        assert forall|i: int, j: int| 0 <= i < j < r.len() implies sentry_lt(r[i], r[j]) by {
            if i == 0 {
                assert(r[i] == e);
                assert(r[j] == es[j - 1]);
                if j > 1 {
                    assert(sentry_lt(es[0], es[j - 1]));
                    lemma_sentry_lt_trans(e, es[0], es[j - 1]);
                }
            } else {
                assert(r[i] == es[i - 1] && r[j] == es[j - 1]);
                assert(sentry_lt(es[i - 1], es[j - 1]));
            }
        }
    } else {
        lemma_sentry_trichotomy(e, es[0]);
        assert(sorted_sentries(es.drop_first())) by {
            assert(forall|i: int, j: int|
                0 <= i < j < es.drop_first().len() ==> sentry_lt(
                    #[trigger] es.drop_first()[i],
                    #[trigger] es.drop_first()[j],
                ));
        }
        lemma_insert_sentry_props(es.drop_first(), e);
        let rr = insert_sentry(es.drop_first(), e);
        assert(r == seq![es[0]] + rr);
        assert(r.contains(e)) by {
            let w = choose|w: int| 0 <= w < rr.len() && rr[w] == e;
            assert(r[w + 1] == e);
        }
        assert forall|i: int| 0 <= i < r.len() implies r[i] == e || es.contains(r[i]) by {
            if i == 0 {
                assert(es.contains(es[0]));
            } else {
                assert(r[i] == rr[i - 1]);
                if rr[i - 1] == e {
                } else {
                    let w = choose|w: int|
                        0 <= w < es.drop_first().len() && es.drop_first()[w] == rr[i - 1];
                    assert(es[w + 1] == rr[i - 1]);
                    assert(es.contains(es[w + 1]));
                }
            }
        }
        assert forall|i: int, j: int| 0 <= i < j < r.len() implies sentry_lt(r[i], r[j]) by {
            if i == 0 {
                assert(r[j] == rr[j - 1]);
                if rr[j - 1] == e {
                } else {
                    let w = choose|w: int|
                        0 <= w < es.drop_first().len() && es.drop_first()[w] == rr[j - 1];
                    assert(sentry_lt(es[0], es[w + 1]));
                }
            } else {
                assert(r[i] == rr[i - 1] && r[j] == rr[j - 1]);
            }
        }
    }
}

/// Removal keeps a Section well formed; every surviving entry was there.
pub proof fn lemma_remove_sentry_props(es: Seq<SectionEntryV>, ts: int, id: Seq<u8>)
    requires
        sorted_sentries(es),
    ensures
        sorted_sentries(remove_sentry(es, ts, id)),
        forall|i: int|
            0 <= i < remove_sentry(es, ts, id).len() ==> es.contains(
                #[trigger] remove_sentry(es, ts, id)[i],
            ),
        remove_sentry(es, ts, id).len() <= es.len(),
    decreases es.len(),
{
    let r = remove_sentry(es, ts, id);
    if es.len() == 0 {
    } else if es[0].time_stamp == ts && es[0].file_id == id {
        assert forall|i: int| 0 <= i < r.len() implies es.contains(r[i]) by {
            assert(r[i] == es[i + 1]);
        }
        assert forall|i: int, j: int| 0 <= i < j < r.len() implies sentry_lt(r[i], r[j]) by {
            assert(sentry_lt(es[i + 1], es[j + 1]));
        }
    } else {
        assert(sorted_sentries(es.drop_first())) by {
            assert(forall|i: int, j: int|
                0 <= i < j < es.drop_first().len() ==> sentry_lt(
                    #[trigger] es.drop_first()[i],
                    #[trigger] es.drop_first()[j],
                ));
        }
        lemma_remove_sentry_props(es.drop_first(), ts, id);
        let rr = remove_sentry(es.drop_first(), ts, id);
        assert(r == seq![es[0]] + rr);
        assert forall|i: int| 0 <= i < r.len() implies es.contains(r[i]) by {
            if i == 0 {
                assert(es.contains(es[0]));
            } else {
                assert(r[i] == rr[i - 1]);
                let w = choose|w: int|
                    0 <= w < es.drop_first().len() && es.drop_first()[w] == rr[i - 1];
                assert(es[w + 1] == rr[i - 1]);
                assert(es.contains(es[w + 1]));
            }
        }
        assert forall|i: int, j: int| 0 <= i < j < r.len() implies sentry_lt(r[i], r[j]) by {
            if i == 0 {
                assert(r[j] == rr[j - 1]);
                let w = choose|w: int|
                    0 <= w < es.drop_first().len() && es.drop_first()[w] == rr[j - 1];
                assert(sentry_lt(es[0], es[w + 1]));
            } else {
                assert(r[i] == rr[i - 1] && r[j] == rr[j - 1]);
            }
        }
    }
}

/// Insert an entry into a Section held as a sorted vector.
#[verifier::loop_isolation(false)]
pub fn insert_sentry_e(es: &mut Vec<SectionEntry>, e: SectionEntry)
    ensures
        entries_view(final(es)@) == insert_sentry(entries_view(old(es)@), e@),
{
    let ghost v0 = entries_view(old(es)@);
    let n = es.len();
    let mut i: usize = 0;
    proof {
        assert(v0.skip(0) =~= v0);
        assert(v0.take(0) + insert_sentry(v0, e@) =~= insert_sentry(v0, e@));
    }
    while i < n
        invariant
            i <= n,
            n == es@.len(),
            es@ == old(es)@,
            insert_sentry(v0, e@) == v0.take(i as int) + insert_sentry(v0.skip(i as int), e@),
        decreases n - i,
    {
        let ghost suf = v0.skip(i as int);
        proof {
            assert(suf[0] == v0[i as int]);
            assert(suf.drop_first() =~= v0.skip(i + 1));
        }
        let same_ts: bool = e.time_stamp == es[i].time_stamp;
        let keq: bool = same_ts && bytes_eq(e.file_id.as_slice(), es[i].file_id.as_slice());
        if keq {
            assert(sentry_key_eq(e@, v0[i as int]));
            let ghost pre = es@;
            es.remove(i);
            es.insert(i, e);
            proof {
                assert(insert_sentry(suf, e@) == seq![e@] + suf.drop_first());
                assert(entries_view(es@) =~= v0.take(i as int) + (seq![e@] + v0.skip(i + 1)));
                assert(v0.take(i as int) + (seq![e@] + v0.skip(i + 1)) =~= v0.take(i as int)
                    + insert_sentry(suf, e@));
            }
            return ;
        }
        let lt: bool = e.time_stamp < es[i].time_stamp || (same_ts && bytes_lt_e(
            e.file_id.as_slice(),
            es[i].file_id.as_slice(),
        ));
        if lt {
            assert(sentry_lt(e@, v0[i as int]));
            assert(!sentry_key_eq(e@, v0[i as int]));
            es.insert(i, e);
            proof {
                assert(insert_sentry(suf, e@) == seq![e@] + suf);
                assert(entries_view(es@) =~= v0.take(i as int) + (seq![e@] + v0.skip(i as int)));
            }
            return ;
        }
        proof {
            assert(!sentry_key_eq(e@, suf[0]) && !sentry_lt(e@, suf[0]));
            assert(insert_sentry(suf, e@) == seq![suf[0]] + insert_sentry(suf.drop_first(), e@));
            assert(v0.take(i as int) + (seq![suf[0]] + insert_sentry(v0.skip(i + 1), e@)) =~= v0.take(
                i + 1,
            ) + insert_sentry(v0.skip(i + 1), e@));
        }
        i += 1;
    }
    proof {
        assert(v0.skip(n as int) =~= Seq::<SectionEntryV>::empty());
        assert(insert_sentry(v0.skip(n as int), e@) == seq![e@]);
    }
    es.push(e);
    proof {
        assert(v0.take(n as int) =~= v0);
        assert(entries_view(es@) =~= v0 + seq![e@]);
        assert(v0 + seq![e@] =~= v0.take(n as int) + insert_sentry(v0.skip(n as int), e@));
    }
}

/// Remove the entry with the given key from a Section vector.
#[verifier::loop_isolation(false)]
pub fn remove_sentry_e(es: &mut Vec<SectionEntry>, ts: i64, id: &[u8])
    ensures
        entries_view(final(es)@) == remove_sentry(entries_view(old(es)@), ts as int, id@),
{
    let ghost v0 = entries_view(old(es)@);
    let n = es.len();
    let mut i: usize = 0;
    proof {
        assert(v0.skip(0) =~= v0);
        assert(v0.take(0) + remove_sentry(v0, ts as int, id@) =~= remove_sentry(v0, ts as int, id@));
    }
    while i < n
        invariant
            i <= n,
            n == es@.len(),
            es@ == old(es)@,
            remove_sentry(v0, ts as int, id@) == v0.take(i as int) + remove_sentry(
                v0.skip(i as int),
                ts as int,
                id@,
            ),
        decreases n - i,
    {
        let ghost suf = v0.skip(i as int);
        proof {
            assert(suf[0] == v0[i as int]);
            assert(suf.drop_first() =~= v0.skip(i + 1));
        }
        if es[i].time_stamp == ts && bytes_eq(es[i].file_id.as_slice(), id) {
            es.remove(i);
            proof {
                assert(remove_sentry(suf, ts as int, id@) == suf.drop_first());
                assert(entries_view(es@) =~= v0.take(i as int) + v0.skip(i + 1));
            }
            return ;
        }
        proof {
            assert(remove_sentry(suf, ts as int, id@) == seq![suf[0]] + remove_sentry(
                suf.drop_first(),
                ts as int,
                id@,
            ));
            assert(v0.take(i as int) + (seq![suf[0]] + remove_sentry(v0.skip(i + 1), ts as int, id@))
                =~= v0.take(i + 1) + remove_sentry(v0.skip(i + 1), ts as int, id@));
        }
        i += 1;
    }
    proof {
        assert(v0.skip(n as int) =~= Seq::<SectionEntryV>::empty());
        assert(v0.take(n as int) =~= v0);
        assert(entries_view(es@) =~= v0.take(n as int) + remove_sentry(
            v0.skip(n as int),
            ts as int,
            id@,
        ));
    }
}

/// Find the position of a day in the Top.
#[verifier::loop_isolation(false)]
pub fn top_find_e(t: &Vec<TopEntry>, d: i64) -> (r: Option<usize>)
    ensures
        match r {
            Some(i) => i < t@.len() && t@[i as int].day == d && top_find(top_view(t@), d as int)
                == Some(t@[i as int]@),
            None => top_find(top_view(t@), d as int) is None,
        },
{
    let ghost v0 = top_view(t@);
    let n = t.len();
    let mut i: usize = 0;
    proof {
        assert(v0.skip(0) =~= v0);
    }
    while i < n
        invariant
            i <= n,
            n == t@.len(),
            top_find(v0, d as int) == top_find(v0.skip(i as int), d as int),
        decreases n - i,
    {
        let ghost suf = v0.skip(i as int);
        proof {
            assert(suf[0] == v0[i as int]);
            assert(suf.drop_first() =~= v0.skip(i + 1));
        }
        if t[i].day == d {
            return Some(i);
        }
        i += 1;
    }
    proof {
        assert(v0.skip(n as int) =~= Seq::<TopEntryV>::empty());
    }
    None
}

/// Find the position of a day in the cache.
#[verifier::loop_isolation(false)]
pub fn cache_find_e(c: &Vec<CacheDay>, d: i64) -> (r: Option<usize>)
    ensures
        match r {
            Some(i) => i < c@.len() && c@[i as int].day == d,
            None => forall|k: int| 0 <= k < c@.len() ==> #[trigger] c@[k].day != d as int,
        },
{
    let n = c.len();
    let mut i: usize = 0;
    while i < n
        invariant
            i <= n,
            n == c@.len(),
            forall|k: int| 0 <= k < i ==> #[trigger] c@[k].day != d as int,
        decreases n - i,
    {
        if c[i].day == d {
            return Some(i);
        }
        i += 1;
    }
    None
}

/// What a freshly touched day starts from: the stored Section and its
/// fragment id, or nothing.
pub open spec fn day_base(
    m: Map<Seq<u8>, Seq<u8>>,
    aid: Seq<u8>,
    top: Seq<TopEntryV>,
    d: int,
) -> (Option<u64>, Seq<SectionEntryV>) {
    match top_find(top, d) {
        Some(te) => (
            Some(te.fragment_id as u64),
            sp_section(m[frag_key(aid, te.fragment_id as u64)]).unwrap(),
        ),
        None => (None, Seq::empty()),
    }
}

pub open spec fn staged_entries(
    base: Seq<SectionEntryV>,
    is_add: bool,
    e: SectionEntryV,
) -> Seq<SectionEntryV> {
    if is_add {
        insert_sentry(base, e)
    } else {
        remove_sentry(base, e.time_stamp, e.file_id)
    }
}

/// Stage one mutation in the day cache.
pub open spec fn stage(
    c: Seq<CacheDayV>,
    d: int,
    base: (Option<u64>, Seq<SectionEntryV>),
    is_add: bool,
    e: SectionEntryV,
) -> Seq<CacheDayV>
    decreases c.len(),
{
    if c.len() == 0 {
        seq![CacheDayV { day: d, orig: base.0, entries: staged_entries(base.1, is_add, e) }]
    } else if c[0].day == d {
        seq![CacheDayV { day: d, orig: c[0].orig, entries: staged_entries(c[0].entries, is_add, e) }]
            + c.drop_first()
    } else if d < c[0].day {
        seq![CacheDayV { day: d, orig: base.0, entries: staged_entries(base.1, is_add, e) }] + c
    } else {
        seq![c[0]] + stage(c.drop_first(), d, base, is_add, e)
    }
}

proof fn lemma_top_find_props(t: Seq<TopEntryV>, d: int)
    ensures
        match top_find(t, d) {
            Some(te) => te.day == d && exists|j: int| 0 <= j < t.len() && t[j] == te,
            None => forall|j: int| 0 <= j < t.len() ==> #[trigger] t[j].day != d,
        },
    decreases t.len(),
{
    if t.len() > 0 && t[0].day != d {
        lemma_top_find_props(t.drop_first(), d);
        match top_find(t.drop_first(), d) {
            Some(te) => {
                let j = choose|j: int|
                    0 <= j < t.drop_first().len() && t.drop_first()[j] == te;
                assert(t[j + 1] == te);
            },
            None => {
                assert forall|j: int| 0 <= j < t.len() implies #[trigger] t[j].day != d by {
                    if j > 0 {
                        assert(t.drop_first()[j - 1] == t[j]);
                    }
                }
            },
        }
    }
}

/// The cache is sorted by day; every engine keeps this from creation on.
pub open spec fn cache_sorted(ev: EngineV) -> bool {
    forall|k: int, l: int|
        0 <= k < l < ev.cache.len() ==> #[trigger] ev.cache[k].day < #[trigger] ev.cache[l].day
}

/// Staging keeps the cache sorted; its days are the staged day and old days.
proof fn lemma_stage_sorted(
    c: Seq<CacheDayV>,
    d: int,
    base: (Option<u64>, Seq<SectionEntryV>),
    is_add: bool,
    e: SectionEntryV,
)
    requires
        forall|k: int, l: int| 0 <= k < l < c.len() ==> #[trigger] c[k].day < #[trigger] c[l].day,
    ensures
        ({
            let r = stage(c, d, base, is_add, e);
            &&& forall|k: int, l: int|
                0 <= k < l < r.len() ==> #[trigger] r[k].day < #[trigger] r[l].day
            &&& forall|k: int|
                0 <= k < r.len() ==> #[trigger] r[k].day == d || (exists|j: int|
                    0 <= j < c.len() && #[trigger] c[j].day == r[k].day)
        }),
    decreases c.len(),
{
    let r = stage(c, d, base, is_add, e);
    if c.len() == 0 {
    } else if c[0].day == d {
        assert forall|k: int|
            0 <= k < r.len() implies #[trigger] r[k].day == d || (exists|j: int|
            0 <= j < c.len() && #[trigger] c[j].day == r[k].day) by {
            if k > 0 {
                assert(c[k].day == r[k].day);
            }
        }
        assert forall|k: int, l: int| 0 <= k < l < r.len() implies #[trigger] r[k].day
            < #[trigger] r[l].day by {
            if k == 0 {
                assert(r[l] == c[l]);
                assert(c[0].day < c[l].day);
            } else {
                assert(r[k] == c[k] && r[l] == c[l]);
            }
        }
    } else if d < c[0].day {
        assert forall|k: int|
            0 <= k < r.len() implies #[trigger] r[k].day == d || (exists|j: int|
            0 <= j < c.len() && #[trigger] c[j].day == r[k].day) by {
            if k > 0 {
                assert(c[k - 1].day == r[k].day);
            }
        }
        assert forall|k: int, l: int| 0 <= k < l < r.len() implies #[trigger] r[k].day
            < #[trigger] r[l].day by {
            if k == 0 {
                assert(r[l] == c[l - 1]);
                if l > 1 {
                    assert(c[0].day < c[l - 1].day);
                }
            } else {
                assert(r[k] == c[k - 1] && r[l] == c[l - 1]);
            }
        }
    } else {
        assert(c[0].day < d);
        assert(forall|k: int, l: int|
            0 <= k < l < c.drop_first().len() ==> #[trigger] c.drop_first()[k].day
                < #[trigger] c.drop_first()[l].day);
        lemma_stage_sorted(c.drop_first(), d, base, is_add, e);
        let rr = stage(c.drop_first(), d, base, is_add, e);
        assert(r == seq![c[0]] + rr);
        assert forall|k: int|
            0 <= k < r.len() implies #[trigger] r[k].day == d || (exists|j: int|
            0 <= j < c.len() && #[trigger] c[j].day == r[k].day) by {
            if k == 0 {
                assert(c[0].day == r[0].day);
            } else {
                assert(r[k] == rr[k - 1]);
                if rr[k - 1].day == d {
                } else {
                    let w = choose|w: int|
                        0 <= w < c.drop_first().len() && c.drop_first()[w].day == rr[k - 1].day;
                    assert(c[w + 1].day == rr[k - 1].day);
                }
            }
        }
        assert forall|k: int, l: int| 0 <= k < l < r.len() implies #[trigger] r[k].day
            < #[trigger] r[l].day by {
            if k == 0 {
                assert(r[l] == rr[l - 1]);
                if rr[l - 1].day == d {
                } else {
                    let w = choose|w: int|
                        0 <= w < c.drop_first().len() && c.drop_first()[w].day == rr[l - 1].day;
                    assert(c[0].day < c[w + 1].day);
                }
            } else {
                assert(r[k] == rr[k - 1] && r[l] == rr[l - 1]);
            }
        }
    }
}

proof fn lemma_stage_hit(
    c: Seq<CacheDayV>,
    i: int,
    d: int,
    base: (Option<u64>, Seq<SectionEntryV>),
    is_add: bool,
    e: SectionEntryV,
)
    requires
        0 <= i < c.len(),
        c[i].day == d,
        forall|k: int, l: int| 0 <= k < l < c.len() ==> #[trigger] c[k].day < #[trigger] c[l].day,
    ensures
        stage(c, d, base, is_add, e) == c.take(i) + seq![
            CacheDayV { day: d, orig: c[i].orig, entries: staged_entries(c[i].entries, is_add, e) },
        ] + c.skip(i + 1),
    decreases i,
{
    let upd = CacheDayV { day: d, orig: c[i].orig, entries: staged_entries(c[i].entries, is_add, e) };
    if i == 0 {
        assert(c.take(0) =~= Seq::<CacheDayV>::empty());
        assert(c.skip(1) =~= c.drop_first());
        assert(c.take(0) + seq![upd] + c.skip(1) =~= seq![upd] + c.drop_first());
    } else {
        assert(c[0].day < c[i].day);
        assert(forall|k: int, l: int|
            0 <= k < l < c.drop_first().len() ==> #[trigger] c.drop_first()[k].day
                < #[trigger] c.drop_first()[l].day);
        assert(c.drop_first()[i - 1] == c[i]);
        lemma_stage_hit(c.drop_first(), i - 1, d, base, is_add, e);
        assert(c.drop_first().take(i - 1) =~= c.take(i).drop_first());
        assert(c.drop_first().skip(i) =~= c.skip(i + 1));
        assert(seq![c[0]] + (c.take(i).drop_first() + seq![upd] + c.skip(i + 1)) =~= c.take(i)
            + seq![upd] + c.skip(i + 1));
    }
}

proof fn lemma_stage_miss(
    c: Seq<CacheDayV>,
    i: int,
    d: int,
    base: (Option<u64>, Seq<SectionEntryV>),
    is_add: bool,
    e: SectionEntryV,
)
    requires
        0 <= i <= c.len(),
        forall|k: int| 0 <= k < c.len() ==> #[trigger] c[k].day != d,
        forall|k: int| 0 <= k < i ==> #[trigger] c[k].day < d,
        i < c.len() ==> d < c[i].day,
        forall|k: int, l: int| 0 <= k < l < c.len() ==> #[trigger] c[k].day < #[trigger] c[l].day,
    ensures
        stage(c, d, base, is_add, e) == c.take(i) + seq![
            CacheDayV { day: d, orig: base.0, entries: staged_entries(base.1, is_add, e) },
        ] + c.skip(i),
    decreases i,
{
    let fresh = CacheDayV { day: d, orig: base.0, entries: staged_entries(base.1, is_add, e) };
    if c.len() == 0 {
        assert(c.take(0) =~= Seq::<CacheDayV>::empty());
        assert(c.skip(0) =~= c);
        assert(c.take(0) + seq![fresh] + c.skip(0) =~= seq![fresh]);
    } else if i == 0 {
        assert(d < c[0].day);
        assert(c.take(0) =~= Seq::<CacheDayV>::empty());
        assert(c.skip(0) =~= c);
        assert(c.take(0) + seq![fresh] + c.skip(0) =~= seq![fresh] + c);
    } else {
        assert(c[0].day < d);
        assert(forall|k: int, l: int|
            0 <= k < l < c.drop_first().len() ==> #[trigger] c.drop_first()[k].day
                < #[trigger] c.drop_first()[l].day);
        lemma_stage_miss(c.drop_first(), i - 1, d, base, is_add, e);
        assert(c.drop_first().take(i - 1) =~= c.take(i).drop_first());
        assert(c.drop_first().skip(i - 1) =~= c.skip(i));
        assert(seq![c[0]] + (c.take(i).drop_first() + seq![fresh] + c.skip(i)) =~= c.take(i)
            + seq![fresh] + c.skip(i));
    }
}

/// Staging keeps the cache invariant.
proof fn lemma_stage_inv_rec(
    c: Seq<CacheDayV>,
    d: int,
    base: (Option<u64>, Seq<SectionEntryV>),
    is_add: bool,
    e: SectionEntryV,
    ev: EngineV,
)
    requires
        forall|k: int, l: int| 0 <= k < l < c.len() ==> #[trigger] c[k].day < #[trigger] c[l].day,
        forall|k: int| 0 <= k < c.len() ==> cache_day_ok(#[trigger] c[k], ev),
        wf_section(base.1),
        forall|i: int|
            0 <= i < base.1.len() ==> day_of(#[trigger] base.1[i].time_stamp, ev.album.time_zone)
                == d,
        (match top_find(ev.top, d) {
            Some(te) => base.0 == Some(te.fragment_id as u64),
            None => base.0 is None,
        }),
        wf_sentry(e),
        is_add ==> day_of(e.time_stamp, ev.album.time_zone) == d,
    ensures
        ({
            let r = stage(c, d, base, is_add, e);
            &&& forall|k: int, l: int|
                0 <= k < l < r.len() ==> #[trigger] r[k].day < #[trigger] r[l].day
            &&& forall|k: int| 0 <= k < r.len() ==> cache_day_ok(#[trigger] r[k], ev)
            &&& forall|k: int|
                0 <= k < r.len() ==> #[trigger] r[k].day == d || (exists|j: int|
                    0 <= j < c.len() && #[trigger] c[j].day == r[k].day)
        }),
    decreases c.len(),
{
    let r = stage(c, d, base, is_add, e);
    let fresh = CacheDayV { day: d, orig: base.0, entries: staged_entries(base.1, is_add, e) };
    assert(wf_section(staged_entries(base.1, is_add, e)) && forall|i: int|
        0 <= i < staged_entries(base.1, is_add, e).len() ==> day_of(
            #[trigger] staged_entries(base.1, is_add, e)[i].time_stamp,
            ev.album.time_zone,
        ) == d) by {
        if is_add {
            lemma_insert_sentry_props(base.1, e);
            assert forall|i: int|
                0 <= i < insert_sentry(base.1, e).len() implies wf_sentry(
                #[trigger] insert_sentry(base.1, e)[i],
            ) && day_of(insert_sentry(base.1, e)[i].time_stamp, ev.album.time_zone) == d by {
                if insert_sentry(base.1, e)[i] == e {
                } else {
                    let w = choose|w: int|
                        0 <= w < base.1.len() && base.1[w] == insert_sentry(base.1, e)[i];
                }
            }
        } else {
            lemma_remove_sentry_props(base.1, e.time_stamp, e.file_id);
            assert forall|i: int|
                0 <= i < remove_sentry(base.1, e.time_stamp, e.file_id).len() implies wf_sentry(
                #[trigger] remove_sentry(base.1, e.time_stamp, e.file_id)[i],
            ) && day_of(
                remove_sentry(base.1, e.time_stamp, e.file_id)[i].time_stamp,
                ev.album.time_zone,
            ) == d by {
                let w = choose|w: int|
                    0 <= w < base.1.len() && base.1[w] == remove_sentry(
                        base.1,
                        e.time_stamp,
                        e.file_id,
                    )[i];
            }
        }
    }
    assert(cache_day_ok(fresh, ev));
    if c.len() == 0 {
    } else if c[0].day == d {
        let upd = CacheDayV {
            day: d,
            orig: c[0].orig,
            entries: staged_entries(c[0].entries, is_add, e),
        };
        assert(cache_day_ok(c[0], ev));
        assert(wf_section(staged_entries(c[0].entries, is_add, e)) && forall|i: int|
            0 <= i < staged_entries(c[0].entries, is_add, e).len() ==> day_of(
                #[trigger] staged_entries(c[0].entries, is_add, e)[i].time_stamp,
                ev.album.time_zone,
            ) == d) by {
            if is_add {
                lemma_insert_sentry_props(c[0].entries, e);
                assert forall|i: int|
                    0 <= i < insert_sentry(c[0].entries, e).len() implies wf_sentry(
                    #[trigger] insert_sentry(c[0].entries, e)[i],
                ) && day_of(insert_sentry(c[0].entries, e)[i].time_stamp, ev.album.time_zone)
                    == d by {
                    if insert_sentry(c[0].entries, e)[i] == e {
                    } else {
                        let w = choose|w: int|
                            0 <= w < c[0].entries.len() && c[0].entries[w] == insert_sentry(
                                c[0].entries,
                                e,
                            )[i];
                    }
                }
            } else {
                lemma_remove_sentry_props(c[0].entries, e.time_stamp, e.file_id);
                assert forall|i: int|
                    0 <= i < remove_sentry(c[0].entries, e.time_stamp, e.file_id).len()
                    implies wf_sentry(
                    #[trigger] remove_sentry(c[0].entries, e.time_stamp, e.file_id)[i],
                ) && day_of(
                    remove_sentry(c[0].entries, e.time_stamp, e.file_id)[i].time_stamp,
                    ev.album.time_zone,
                ) == d by {
                    let w = choose|w: int|
                        0 <= w < c[0].entries.len() && c[0].entries[w] == remove_sentry(
                            c[0].entries,
                            e.time_stamp,
                            e.file_id,
                        )[i];
                }
            }
        }
        assert(cache_day_ok(upd, ev));
        assert(r == seq![upd] + c.drop_first());
        assert forall|k: int| 0 <= k < r.len() implies cache_day_ok(#[trigger] r[k], ev) by {
            if k > 0 {
                assert(r[k] == c[k]);
            }
        }
        assert forall|k: int, l: int| 0 <= k < l < r.len() implies #[trigger] r[k].day
            < #[trigger] r[l].day by {
            if k == 0 {
                assert(r[l] == c[l]);
                assert(c[0].day < c[l].day);
            } else {
                assert(r[k] == c[k] && r[l] == c[l]);
            }
        }
        assert forall|k: int|
            0 <= k < r.len() implies #[trigger] r[k].day == d || (exists|j: int|
            0 <= j < c.len() && #[trigger] c[j].day == r[k].day) by {
            if k > 0 {
                assert(c[k].day == r[k].day);
            }
        }
    } else if d < c[0].day {
        assert(r == seq![fresh] + c);
        assert forall|k: int| 0 <= k < r.len() implies cache_day_ok(#[trigger] r[k], ev) by {
            if k > 0 {
                assert(r[k] == c[k - 1]);
            }
        }
        assert forall|k: int, l: int| 0 <= k < l < r.len() implies #[trigger] r[k].day
            < #[trigger] r[l].day by {
            if k == 0 {
                assert(r[l] == c[l - 1]);
                if l > 1 {
                    assert(c[0].day < c[l - 1].day);
                }
            } else {
                assert(r[k] == c[k - 1] && r[l] == c[l - 1]);
            }
        }
        assert forall|k: int|
            0 <= k < r.len() implies #[trigger] r[k].day == d || (exists|j: int|
            0 <= j < c.len() && #[trigger] c[j].day == r[k].day) by {
            if k > 0 {
                assert(c[k - 1].day == r[k].day);
            }
        }
    } else {
        assert(c[0].day < d);
        assert(forall|k: int, l: int|
            0 <= k < l < c.drop_first().len() ==> #[trigger] c.drop_first()[k].day
                < #[trigger] c.drop_first()[l].day);
        assert(forall|k: int|
            0 <= k < c.drop_first().len() ==> cache_day_ok(#[trigger] c.drop_first()[k], ev));
        lemma_stage_inv_rec(c.drop_first(), d, base, is_add, e, ev);
        let rr = stage(c.drop_first(), d, base, is_add, e);
        assert(r == seq![c[0]] + rr);
        assert forall|k: int| 0 <= k < r.len() implies cache_day_ok(#[trigger] r[k], ev) by {
            if k > 0 {
                assert(r[k] == rr[k - 1]);
            }
        }
        assert forall|k: int|
            0 <= k < r.len() implies #[trigger] r[k].day == d || (exists|j: int|
            0 <= j < c.len() && #[trigger] c[j].day == r[k].day) by {
            if k == 0 {
                assert(c[0].day == r[0].day);
            } else {
                assert(r[k] == rr[k - 1]);
                if rr[k - 1].day == d {
                } else {
                    let w = choose|w: int|
                        0 <= w < c.drop_first().len() && c.drop_first()[w].day == rr[k - 1].day;
                    assert(c[w + 1].day == rr[k - 1].day);
                }
            }
        }
        assert forall|k: int, l: int| 0 <= k < l < r.len() implies #[trigger] r[k].day
            < #[trigger] r[l].day by {
            if k == 0 {
                assert(r[l] == rr[l - 1]);
                if rr[l - 1].day == d {
                } else {
                    let w = choose|w: int|
                        0 <= w < c.drop_first().len() && c.drop_first()[w].day == rr[l - 1].day;
                    assert(c[0].day < c[w + 1].day);
                }
            } else {
                assert(r[k] == rr[k - 1] && r[l] == rr[l - 1]);
            }
        }
    }
}

/// The position where a new day belongs in the sorted cache.
#[verifier::loop_isolation(false)]
fn cache_insert_pos(c: &Vec<CacheDay>, d: i64) -> (i: usize)
    requires
        forall|k: int, l: int|
            0 <= k < l < c@.len() ==> #[trigger] c@[k]@.day < #[trigger] c@[l]@.day,
    ensures
        i <= c@.len(),
        forall|k: int| 0 <= k < i ==> #[trigger] c@[k]@.day < d as int,
        i < c@.len() ==> d as int <= c@[i as int]@.day,
{
    let n = c.len();
    let mut i: usize = 0;
    while i < n
        invariant
            i <= n,
            forall|k: int| 0 <= k < i ==> #[trigger] c@[k]@.day < d as int,
        decreases n - i,
    {
        if c[i].day >= d {
            return i;
        }
        i += 1;
    }
    i
}

impl Engine {
    /// Write the empty Top of a fresh album at fragment id 0.
    pub fn empty(album_id: &[u8], fragments: &mut TxMap) -> (r: Result<u64, Fault>)
        ensures
            match r {
                Ok(h) => h == 0 && final(fragments)@ == old(fragments)@.insert(
                    frag_key(album_id@, 0),
                    enc_top(Seq::empty()),
                ),
                Err(f) => f is Store && final(fragments)@ == old(fragments)@,
            },
    {
        let key = get_id(album_id, 0);
        let empty_top: Vec<TopEntry> = Vec::new();
        let bytes = encode_top(&empty_top);
        proof {
            assert(top_view(empty_top@) =~= Seq::<TopEntryV>::empty());
        }
        match fragments.insert(key.as_slice(), bytes.as_slice()) {
            Ok(u) => Ok(0),
            Err(f) => Err(f),
        }
    }

    /// Open the album's current Top.
    pub fn new(album_id: &[u8], album: Album, fragments: &TxMap) -> (r: Result<Engine, Fault>)
        ensures
            match r {
                Ok(en) => en@ == (EngineV {
                    album_id: album_id@,
                    album: album@,
                    top: sp_top(fragments@[frag_key(album_id@, album@.fragment_head)]).unwrap(),
                    cache: Seq::empty(),
                }) && cache_sorted(en@) && fragments@.contains_key(
                    frag_key(album_id@, album@.fragment_head),
                ) && sp_top(fragments@[frag_key(album_id@, album@.fragment_head)]) is Some && (
                album_inv(fragments@, album_id@, album@) ==> engine_inv(en@, fragments@)),
                Err(f) => (f is Store || f == Fault::User(ApiError::Storage)) && (album_inv(
                    fragments@,
                    album_id@,
                    album@,
                ) ==> f is Store) && (f == Fault::User(ApiError::Storage) ==> !(
                fragments@.contains_key(frag_key(album_id@, album@.fragment_head)) && sp_top(
                    fragments@[frag_key(album_id@, album@.fragment_head)],
                ) is Some)),
            },
    {
        let key = get_id(album_id, album.fragment_head);
        let bytes = match fragments.get(key.as_slice()) {
            Ok(Some(b)) => b,
            Ok(None) => {
                return Err(Fault::User(ApiError::Storage));
            },
            Err(f) => {
                return Err(f);
            },
        };
        let top = match parse_top(bytes.as_slice()) {
            Some(t) => t,
            None => {
                return Err(Fault::User(ApiError::Storage));
            },
        };
        let mut aid_own: Vec<u8> = Vec::new();
        aid_own.extend_from_slice(album_id);
        proof {
            assert(aid_own@ =~= album_id@);
        }
        let en = Engine { album_id: aid_own, album, top, cache: Vec::new() };
        proof {
            assert(cache_view(en.cache@) =~= Seq::<CacheDayV>::empty());
        }
        Ok(en)
    }

    /// Stage one mutation of one day.
    #[verifier::rlimit(100)]
    #[verifier::spinoff_prover]
    fn stage_day(
        &mut self,
        fragments: &TxMap,
        d: i64,
        e: SectionEntry,
        is_add: bool,
    ) -> (r: Result<(), Fault>)
        requires
            is_add ==> day_of(e@.time_stamp, old(self)@.album.time_zone) == d as int,
            cache_sorted(old(self)@),
        ensures
            match r {
                Ok(u) => final(self)@ == (EngineV {
                    cache: stage(
                        old(self)@.cache,
                        d as int,
                        day_base(fragments@, old(self)@.album_id, old(self)@.top, d as int),
                        is_add,
                        e@,
                    ),
                    ..old(self)@
                }) && cache_sorted(final(self)@) && ((engine_inv(old(self)@, fragments@)
                    && wf_sentry(e@)) ==> engine_inv(final(self)@, fragments@)),
                Err(f) => final(self)@ == old(self)@ && (f is Store || f == Fault::User(
                    ApiError::Storage,
                )) && (tree_ok(fragments@, old(self)@.album_id, old(self)@.top) ==> f is Store),
            },
    {
        let ghost ev0 = self@;
        let ghost m = fragments@;
        let ghost base = day_base(m, ev0.album_id, ev0.top, d as int);
        proof {
            lemma_stage_sorted(ev0.cache, d as int, base, is_add, e@);
            if engine_inv(ev0, m) && wf_sentry(e@) {
                lemma_top_find_props(ev0.top, d as int);
                match top_find(ev0.top, d as int) {
                    Some(te) => {
                        let j = choose|j: int| 0 <= j < ev0.top.len() && ev0.top[j] == te;
                        assert(section_ok(m, ev0.album_id, ev0.top[j], ev0.album.time_zone));
                    },
                    None => {},
                }
                lemma_stage_inv_rec(ev0.cache, d as int, base, is_add, e@, ev0);
            }
        }
        match cache_find_e(&self.cache, d) {
            Some(i) => {
                let mut cd = self.cache.remove(i);
                if is_add {
                    insert_sentry_e(&mut cd.entries, e);
                } else {
                    remove_sentry_e(&mut cd.entries, e.time_stamp, e.file_id.as_slice());
                }
                self.cache.insert(i, cd);
                proof {
                    lemma_stage_hit(ev0.cache, i as int, d as int, base, is_add, e@);
                    assert(cache_view(self.cache@) =~= ev0.cache.take(i as int) + seq![
                        CacheDayV {
                            day: d as int,
                            orig: ev0.cache[i as int].orig,
                            entries: staged_entries(ev0.cache[i as int].entries, is_add, e@),
                        },
                    ] + ev0.cache.skip(i + 1));
                }
                Ok(())
            },
            None => {
                let found = top_find_e(&self.top, d);
                let (orig, mut entries): (Option<u64>, Vec<SectionEntry>) = match found {
                    Some(j) => {
                        let fid = self.top[j].fragment_id;
                        let key = get_id(self.album_id.as_slice(), fid);
                        let bytes = match fragments.get(key.as_slice()) {
                            Ok(Some(b)) => b,
                            Ok(None) => {
                                proof {
                                    if tree_ok(m, ev0.album_id, ev0.top) {
                                        lemma_top_find_props(ev0.top, d as int);
                                        let te = top_find(ev0.top, d as int).unwrap();
                                        let j = choose|j: int|
                                            0 <= j < ev0.top.len() && ev0.top[j] == te;
                                        assert(m.contains_key(frag_key(ev0.album_id,
                                            ev0.top[j].fragment_id as u64)));
                                        assert(false);
                                    }
                                }
                                return Err(Fault::User(ApiError::Storage));
                            },
                            Err(f) => {
                                return Err(f);
                            },
                        };
                        let es = match parse_section(bytes.as_slice()) {
                            Some(es) => es,
                            None => {
                                proof {
                                    if tree_ok(m, ev0.album_id, ev0.top) {
                                        lemma_top_find_props(ev0.top, d as int);
                                        let te = top_find(ev0.top, d as int).unwrap();
                                        let j = choose|j: int|
                                            0 <= j < ev0.top.len() && ev0.top[j] == te;
                                        assert(sp_section(m[frag_key(ev0.album_id,
                                            ev0.top[j].fragment_id as u64)]) is Some);
                                        assert(false);
                                    }
                                }
                                return Err(Fault::User(ApiError::Storage));
                            },
                        };
                        (Some(fid), es)
                    },
                    None => (None, Vec::new()),
                };
                proof {
                    assert(entries_view(entries@) == base.1);
                }
                if is_add {
                    insert_sentry_e(&mut entries, e);
                } else {
                    remove_sentry_e(&mut entries, e.time_stamp, e.file_id.as_slice());
                }
                let cd = CacheDay { day: d, orig, entries };
                proof {
                    assert(cd@ == CacheDayV {
                        day: d as int,
                        orig: base.0,
                        entries: staged_entries(base.1, is_add, e@),
                    });
                }
                proof {
                    assert(forall|k: int|
                        0 <= k < self.cache@.len() ==> #[trigger] self.cache@[k]@
                            == ev0.cache[k]);
                }
                let pos = cache_insert_pos(&self.cache, d);
                self.cache.insert(pos, cd);
                proof {
                    lemma_stage_miss(ev0.cache, pos as int, d as int, base, is_add, e@);
                    assert(cache_view(self.cache@) =~= ev0.cache.take(pos as int) + seq![cd@]
                        + ev0.cache.skip(pos as int));
                }
                Ok(())
            },
        }
    }
}

/// Upsert a day's entry in the Top vector.
#[verifier::loop_isolation(false)]
fn top_upsert_e(t: &mut Vec<TopEntry>, e: TopEntry)
    ensures
        top_view(final(t)@) == top_upsert(top_view(old(t)@), e@),
{
    let ghost v0 = top_view(old(t)@);
    let n = t.len();
    let mut i: usize = 0;
    proof {
        assert(v0.skip(0) =~= v0);
        assert(v0.take(0) + top_upsert(v0, e@) =~= top_upsert(v0, e@));
    }
    while i < n
        invariant
            i <= n,
            n == t@.len(),
            t@ == old(t)@,
            top_upsert(v0, e@) == v0.take(i as int) + top_upsert(v0.skip(i as int), e@),
        decreases n - i,
    {
        let ghost suf = v0.skip(i as int);
        proof {
            assert(suf[0] == v0[i as int]);
            assert(suf.drop_first() =~= v0.skip(i + 1));
        }
        if t[i].day == e.day {
            t.remove(i);
            t.insert(i, e);
            proof {
                assert(top_upsert(suf, e@) == seq![e@] + suf.drop_first());
                assert(top_view(t@) =~= v0.take(i as int) + (seq![e@] + v0.skip(i + 1)));
            }
            return ;
        }
        if e.day < t[i].day {
            t.insert(i, e);
            proof {
                assert(top_upsert(suf, e@) == seq![e@] + suf);
                assert(top_view(t@) =~= v0.take(i as int) + (seq![e@] + v0.skip(i as int)));
            }
            return ;
        }
        proof {
            assert(top_upsert(suf, e@) == seq![suf[0]] + top_upsert(suf.drop_first(), e@));
            assert(v0.take(i as int) + (seq![suf[0]] + top_upsert(v0.skip(i + 1), e@)) =~= v0.take(
                i + 1,
            ) + top_upsert(v0.skip(i + 1), e@));
        }
        i += 1;
    }
    proof {
        assert(v0.skip(n as int) =~= Seq::<TopEntryV>::empty());
        assert(top_upsert(v0.skip(n as int), e@) == seq![e@]);
        assert(v0.take(n as int) =~= v0);
    }
    t.push(e);
    proof {
        assert(top_view(t@) =~= v0 + seq![e@]);
        assert(v0 + seq![e@] =~= v0.take(n as int) + top_upsert(v0.skip(n as int), e@));
    }
}

/// Remove a day's entry from the Top vector.
#[verifier::loop_isolation(false)]
fn top_remove_e(t: &mut Vec<TopEntry>, d: i64)
    ensures
        top_view(final(t)@) == top_remove(top_view(old(t)@), d as int),
{
    let ghost v0 = top_view(old(t)@);
    let n = t.len();
    let mut i: usize = 0;
    proof {
        assert(v0.skip(0) =~= v0);
        assert(v0.take(0) + top_remove(v0, d as int) =~= top_remove(v0, d as int));
    }
    while i < n
        invariant
            i <= n,
            n == t@.len(),
            t@ == old(t)@,
            top_remove(v0, d as int) == v0.take(i as int) + top_remove(v0.skip(i as int), d as int),
        decreases n - i,
    {
        let ghost suf = v0.skip(i as int);
        proof {
            assert(suf[0] == v0[i as int]);
            assert(suf.drop_first() =~= v0.skip(i + 1));
        }
        if t[i].day == d {
            t.remove(i);
            proof {
                assert(top_remove(suf, d as int) == suf.drop_first());
                assert(top_view(t@) =~= v0.take(i as int) + v0.skip(i + 1));
            }
            return ;
        }
        proof {
            assert(top_remove(suf, d as int) == seq![suf[0]] + top_remove(
                suf.drop_first(),
                d as int,
            ));
            assert(v0.take(i as int) + (seq![suf[0]] + top_remove(v0.skip(i + 1), d as int))
                =~= v0.take(i + 1) + top_remove(v0.skip(i + 1), d as int));
        }
        i += 1;
    }
    proof {
        assert(v0.skip(n as int) =~= Seq::<TopEntryV>::empty());
        assert(v0.take(n as int) =~= v0);
        assert(top_view(t@) =~= v0.take(n as int) + top_remove(v0.skip(n as int), d as int));
    }
}

/// One commit in flight: the fragments keyspace, the Top being rebuilt, the
/// highest fragment id used, and the running file count.
pub struct CommitSt {
    pub m: Map<Seq<u8>, Seq<u8>>,
    pub top: Seq<TopEntryV>,
    pub head: int,
    pub length: int,
}

/// Apply one staged day at commit.
pub open spec fn commit_step(st: CommitSt, cd: CacheDayV, aid: Seq<u8>) -> CommitSt {
    let m1 = match cd.orig {
        Some(fid) => st.m.remove(frag_key(aid, fid)),
        None => st.m,
    };
    let prev = match top_find(st.top, cd.day) {
        Some(te) => te.length,
        None => 0,
    };
    if cd.entries.len() > 0 {
        CommitSt {
            m: m1.insert(frag_key(aid, (st.head + 1) as u64), enc_section(cd.entries)),
            top: top_upsert(
                st.top,
                TopEntryV {
                    day: cd.day,
                    fragment_id: st.head + 1,
                    length: cd.entries.len() as int,
                },
            ),
            head: st.head + 1,
            length: st.length + cd.entries.len() - prev,
        }
    } else {
        CommitSt { m: m1, top: top_remove(st.top, cd.day), head: st.head, length: st.length - prev }
    }
}

pub open spec fn commit_fold(st: CommitSt, c: Seq<CacheDayV>, aid: Seq<u8>) -> CommitSt
    decreases c.len(),
{
    if c.len() == 0 {
        st
    } else {
        commit_fold(commit_step(st, c[0], aid), c.drop_first(), aid)
    }
}

/// What one commit does: the new fragments keyspace and album record.
pub open spec fn spec_commit(
    m: Map<Seq<u8>, Seq<u8>>,
    aid: Seq<u8>,
    a: AlbumV,
    t0: Seq<TopEntryV>,
    cache: Seq<CacheDayV>,
    now: int,
) -> (Map<Seq<u8>, Seq<u8>>, AlbumV) {
    if cache.len() == 0 {
        (m, a)
    } else {
        let st0 = CommitSt {
            m: m.remove(frag_key(aid, a.fragment_head)),
            top: t0,
            head: a.fragment_head as int,
            length: a.length,
        };
        let st = commit_fold(st0, cache, aid);
        let newm = st.m.insert(frag_key(aid, (st.head + 1) as u64), enc_top(st.top));
        let a2 = AlbumV {
            fragment_head: (st.head + 1) as u64,
            length: st.length,
            last_update: now,
            date_range: if st.top.len() == 0 {
                None
            } else {
                Some((st.top[0].day, st.top[st.top.len() - 1].day))
            },
            ..a
        };
        (newm, a2)
    }
}

/// What `top_upsert` does to order, membership, lookups and the total.
pub proof fn lemma_top_upsert_props(t: Seq<TopEntryV>, e: TopEntryV)
    requires
        forall|i: int, j: int| 0 <= i < j < t.len() ==> #[trigger] t[i].day < #[trigger] t[j].day,
    ensures
        ({
            let r = top_upsert(t, e);
            let prev = match top_find(t, e.day) {
                Some(te) => te.length,
                None => 0,
            };
            &&& forall|i: int, j: int|
                0 <= i < j < r.len() ==> #[trigger] r[i].day < #[trigger] r[j].day
            &&& top_find(r, e.day) == Some(e)
            &&& forall|d: int| d != e.day ==> #[trigger] top_find(r, d) == top_find(t, d)
            &&& top_total(r) == top_total(t) - prev + e.length
            &&& forall|k: int|
                0 <= k < r.len() ==> #[trigger] r[k] == e || (exists|j: int|
                    0 <= j < t.len() && t[j] == r[k] && t[j].day != e.day)
            &&& top_find(t, e.day) is Some ==> r.len() == t.len() && (forall|k: int|
                0 <= k < r.len() ==> #[trigger] r[k].day == t[k].day && (r[k] == e || r[k]
                    == t[k]))
        }),
    decreases t.len(),
{
    let r = top_upsert(t, e);
    if t.len() == 0 {
        assert(r == seq![e]);
        assert(top_total(r) == e.length + top_total(r.drop_first()));
        assert(r.drop_first() =~= Seq::<TopEntryV>::empty());
        assert forall|d: int| d != e.day implies #[trigger] top_find(r, d) == top_find(t, d) by {
            assert(top_find(r, d) == top_find(r.drop_first(), d));
        }
    } else if t[0].day == e.day {
        assert(r == seq![e] + t.drop_first());
        assert(r[0] == e);
        assert(r.drop_first() =~= t.drop_first());
        assert(top_total(r) == e.length + top_total(t.drop_first()));
        assert(top_total(t) == t[0].length + top_total(t.drop_first()));
        assert forall|d: int| d != e.day implies #[trigger] top_find(r, d) == top_find(t, d) by {}
        assert forall|k: int|
            0 <= k < r.len() implies #[trigger] r[k] == e || (exists|j: int|
            0 <= j < t.len() && t[j] == r[k] && t[j].day != e.day) by {
            if k > 0 {
                assert(r[k] == t[k]);
                assert(t[0].day < t[k].day);
            }
        }
        assert forall|i: int, j: int| 0 <= i < j < r.len() implies #[trigger] r[i].day
            < #[trigger] r[j].day by {
            if i == 0 {
                assert(r[j] == t[j]);
                assert(t[0].day < t[j].day);
            } else {
                assert(r[i] == t[i] && r[j] == t[j]);
            }
        }
    } else if e.day < t[0].day {
        assert(r == seq![e] + t);
        assert(r.drop_first() =~= t);
        assert(top_total(r) == e.length + top_total(t));
        assert(top_find(t, e.day) is None) by {
            lemma_top_find_props(t, e.day);
            if top_find(t, e.day) is Some {
                let te = top_find(t, e.day).unwrap();
                let j = choose|j: int| 0 <= j < t.len() && t[j] == te;
                if j > 0 {
                    assert(t[0].day < t[j].day);
                }
                assert(false);
            }
        }
        assert forall|d: int| d != e.day implies #[trigger] top_find(r, d) == top_find(t, d) by {
            assert(top_find(r, d) == top_find(r.drop_first(), d));
        }
        assert forall|k: int|
            0 <= k < r.len() implies #[trigger] r[k] == e || (exists|j: int|
            0 <= j < t.len() && t[j] == r[k] && t[j].day != e.day) by {
            if k > 0 {
                assert(r[k] == t[k - 1]);
                if k == 1 {
                } else {
                    assert(t[0].day < t[k - 1].day);
                }
            }
        }
        assert forall|i: int, j: int| 0 <= i < j < r.len() implies #[trigger] r[i].day
            < #[trigger] r[j].day by {
            if i == 0 {
                assert(r[j] == t[j - 1]);
                if j > 1 {
                    assert(t[0].day < t[j - 1].day);
                }
            } else {
                assert(r[i] == t[i - 1] && r[j] == t[j - 1]);
            }
        }
    } else {
        assert(t[0].day < e.day);
        assert(forall|i: int, j: int|
            0 <= i < j < t.drop_first().len() ==> #[trigger] t.drop_first()[i].day
                < #[trigger] t.drop_first()[j].day);
        lemma_top_upsert_props(t.drop_first(), e);
        let rr = top_upsert(t.drop_first(), e);
        assert(r == seq![t[0]] + rr);
        assert(r.drop_first() =~= rr);
        assert(top_total(r) == t[0].length + top_total(rr));
        assert(top_total(t) == t[0].length + top_total(t.drop_first()));
        assert(top_find(r, e.day) == top_find(rr, e.day));
        assert forall|d: int| d != e.day implies #[trigger] top_find(r, d) == top_find(t, d) by {
            if d == t[0].day {
            } else {
                assert(top_find(r, d) == top_find(rr, d));
                assert(top_find(t, d) == top_find(t.drop_first(), d));
            }
        }
        assert forall|k: int|
            0 <= k < r.len() implies #[trigger] r[k] == e || (exists|j: int|
            0 <= j < t.len() && t[j] == r[k] && t[j].day != e.day) by {
            if k == 0 {
                assert(t[0] == r[0] && t[0].day != e.day);
            } else {
                assert(r[k] == rr[k - 1]);
                if rr[k - 1] == e {
                } else {
                    let w = choose|w: int|
                        0 <= w < t.drop_first().len() && t.drop_first()[w] == rr[k - 1]
                            && t.drop_first()[w].day != e.day;
                    assert(t[w + 1] == rr[k - 1]);
                }
            }
        }
        assert forall|i: int, j: int| 0 <= i < j < r.len() implies #[trigger] r[i].day
            < #[trigger] r[j].day by {
            if i == 0 {
                assert(r[j] == rr[j - 1]);
                if rr[j - 1] == e {
                } else {
                    let w = choose|w: int|
                        0 <= w < t.drop_first().len() && t.drop_first()[w] == rr[j - 1]
                            && t.drop_first()[w].day != e.day;
                    assert(t[0].day < t[w + 1].day);
                }
            } else {
                assert(r[i] == rr[i - 1] && r[j] == rr[j - 1]);
            }
        }
    }
}

/// What `top_remove` does to order, membership, lookups and the total.
#[verifier::rlimit(100)]
#[verifier::spinoff_prover]
pub proof fn lemma_top_remove_props(t: Seq<TopEntryV>, d: int)
    requires
        forall|i: int, j: int| 0 <= i < j < t.len() ==> #[trigger] t[i].day < #[trigger] t[j].day,
    ensures
        ({
            let r = top_remove(t, d);
            let prev = match top_find(t, d) {
                Some(te) => te.length,
                None => 0,
            };
            &&& forall|i: int, j: int|
                0 <= i < j < r.len() ==> #[trigger] r[i].day < #[trigger] r[j].day
            &&& top_find(r, d) is None
            &&& forall|dd: int| dd != d ==> #[trigger] top_find(r, dd) == top_find(t, dd)
            &&& top_total(r) == top_total(t) - prev
            &&& forall|k: int|
                0 <= k < r.len() ==> exists|j: int|
                    0 <= j < t.len() && #[trigger] t[j] == #[trigger] r[k] && t[j].day != d
            &&& top_find(t, d) is None ==> r == t
        }),
    decreases t.len(),
{
    let r = top_remove(t, d);
    if t.len() == 0 {
    } else if t[0].day == d {
        assert(r == t.drop_first());
        assert(top_total(t) == t[0].length + top_total(t.drop_first()));
        assert forall|k: int|
            0 <= k < r.len() implies exists|j: int|
            0 <= j < t.len() && #[trigger] t[j] == #[trigger] r[k] && t[j].day != d by {
            assert(t[k + 1] == r[k]);
            assert(t[0].day < t[k + 1].day);
        }
        assert(top_find(r, d) is None) by {
            lemma_top_find_props(r, d);
            if top_find(r, d) is Some {
                let te = top_find(r, d).unwrap();
                let j = choose|j: int| 0 <= j < r.len() && r[j] == te;
                assert(t[0].day < t[j + 1].day);
                assert(false);
            }
        }
        assert forall|i: int, j: int| 0 <= i < j < r.len() implies #[trigger] r[i].day
            < #[trigger] r[j].day by {
            assert(r[i] == t[i + 1] && r[j] == t[j + 1]);
        }
    } else {
        assert(forall|i: int, j: int|
            0 <= i < j < t.drop_first().len() ==> #[trigger] t.drop_first()[i].day
                < #[trigger] t.drop_first()[j].day);
        lemma_top_remove_props(t.drop_first(), d);
        let rr = top_remove(t.drop_first(), d);
        assert(r == seq![t[0]] + rr);
        assert(r.drop_first() =~= rr);
        assert(top_total(r) == t[0].length + top_total(rr));
        assert(top_total(t) == t[0].length + top_total(t.drop_first()));
        assert forall|dd: int| dd != d implies #[trigger] top_find(r, dd) == top_find(t, dd) by {
            if dd == t[0].day {
            } else {
                assert(top_find(r, dd) == top_find(rr, dd));
                assert(top_find(t, dd) == top_find(t.drop_first(), dd));
            }
        }
        assert forall|k: int|
            0 <= k < r.len() implies exists|j: int|
            0 <= j < t.len() && #[trigger] t[j] == #[trigger] r[k] && t[j].day != d by {
            if k == 0 {
                assert(t[0] == r[0] && t[0].day != d);
            } else {
                assert(r[k] == rr[k - 1]);
                let w = choose|w: int|
                    0 <= w < t.drop_first().len() && t.drop_first()[w] == rr[k - 1]
                        && t.drop_first()[w].day != d;
                assert(t[w + 1] == rr[k - 1]);
            }
        }
        assert forall|i: int, j: int| 0 <= i < j < r.len() implies #[trigger] r[i].day
            < #[trigger] r[j].day by {
            if i == 0 {
                assert(r[j] == rr[j - 1]);
                let w = choose|w: int|
                    0 <= w < t.drop_first().len() && t.drop_first()[w] == rr[j - 1]
                        && t.drop_first()[w].day != d;
                assert(t[0].day < t[w + 1].day);
            } else {
                assert(r[i] == rr[i - 1] && r[j] == rr[j - 1]);
            }
        }
    }
}

pub open spec fn section_ids(es: Seq<SectionEntryV>) -> Seq<Seq<u8>> {
    es.map_values(|e: SectionEntryV| e.file_id)
}

/// Every file id in every Section of the Top, in day order.
pub open spec fn all_ids(m: Map<Seq<u8>, Seq<u8>>, aid: Seq<u8>, t: Seq<TopEntryV>) -> Seq<Seq<u8>>
    decreases t.len(),
{
    if t.len() == 0 {
        Seq::empty()
    } else {
        section_ids(sp_section(m[frag_key(aid, t[0].fragment_id as u64)]).unwrap()) + all_ids(
            m,
            aid,
            t.drop_first(),
        )
    }
}

/// The cache that clears every Section of the Top.
pub open spec fn cleared_cache(t: Seq<TopEntryV>) -> Seq<CacheDayV> {
    t.map_values(
        |te: TopEntryV|
            CacheDayV { day: te.day, orig: Some(te.fragment_id as u64), entries: Seq::empty() },
    )
}

proof fn lemma_top_find_self(t: Seq<TopEntryV>, j: int)
    requires
        forall|i: int, l: int| 0 <= i < l < t.len() ==> #[trigger] t[i].day < #[trigger] t[l].day,
        0 <= j < t.len(),
    ensures
        top_find(t, t[j].day) == Some(t[j]),
    decreases j,
{
    if j > 0 {
        assert(t[0].day < t[j].day);
        assert(forall|i: int, l: int|
            0 <= i < l < t.drop_first().len() ==> #[trigger] t.drop_first()[i].day
                < #[trigger] t.drop_first()[l].day);
        assert(t.drop_first()[j - 1] == t[j]);
        lemma_top_find_self(t.drop_first(), j - 1);
    }
}

proof fn lemma_frag_key_injective(aid: Seq<u8>, f1: u64, f2: u64)
    requires
        dot_free(aid),
        frag_key(aid, f1) == frag_key(aid, f2),
    ensures
        f1 == f2,
{
    crate::keys::lemma_compose_injective(aid, be8(f1), aid, be8(f2));
    crate::bytes::lemma_be8_injective(f1, f2);
}

/// The running state of a commit is well formed: one entry per day, fresh
/// ids bounded by the head, every Section present and counted.
pub open spec fn fold_ok(st: CommitSt, aid: Seq<u8>, zone: Seq<u8>) -> bool {
    &&& wf_top(st.top)
    &&& forall|k: int|
        0 <= k < st.top.len() ==> 0 <= #[trigger] st.top[k].fragment_id <= st.head
    &&& forall|k: int, l: int|
        0 <= k < l < st.top.len() ==> #[trigger] st.top[k].fragment_id
            != #[trigger] st.top[l].fragment_id
    &&& forall|k: int| 0 <= k < st.top.len() ==> section_ok(st.m, aid, #[trigger] st.top[k], zone)
    &&& st.length == top_total(st.top)
    &&& forall|key: Seq<u8>|
        st.m.contains_key(key) && has_prefix(key, prefixed(aid)) ==> exists|j: int|
            0 <= j < st.top.len() && key == frag_key(aid, #[trigger] st.top[j].fragment_id as u64)
}

/// Hygiene of one staged day as the commit lemmas need it.
pub open spec fn cache_day_fits(cd: CacheDayV) -> bool {
    &&& i64::MIN <= cd.day <= i64::MAX
    &&& cd.entries.len() <= usize::MAX
}

#[verifier::rlimit(100)]
#[verifier::spinoff_prover]
proof fn lemma_commit_step_ok(st: CommitSt, cd: CacheDayV, aid: Seq<u8>, zone: Seq<u8>)
    requires
        valid_id(aid),
        fold_ok(st, aid, zone),
        wf_section(cd.entries),
        forall|i: int|
            0 <= i < cd.entries.len() ==> day_of(#[trigger] cd.entries[i].time_stamp, zone)
                == cd.day,
        cache_day_fits(cd),
        (match top_find(st.top, cd.day) {
            Some(te) => cd.orig == Some(te.fragment_id as u64),
            None => cd.orig is None,
        }),
        st.head + 1 <= u64::MAX,
        st.head >= 0,
    ensures
        fold_ok(commit_step(st, cd, aid), aid, zone),
        st.head <= commit_step(st, cd, aid).head <= st.head + 1,
        forall|d: int|
            d != cd.day ==> #[trigger] top_find(commit_step(st, cd, aid).top, d) == top_find(
                st.top,
                d,
            ),
{
    crate::keys::lemma_valid_id_dot_free(aid);
    let st2 = commit_step(st, cd, aid);
    let m1 = match cd.orig {
        Some(fid) => st.m.remove(frag_key(aid, fid)),
        None => st.m,
    };
    let prev = match top_find(st.top, cd.day) {
        Some(te) => te.length,
        None => 0,
    };
    lemma_top_find_props(st.top, cd.day);
    let ghost dayidx: int = if top_find(st.top, cd.day) is Some {
        choose|j: int| 0 <= j < st.top.len() && st.top[j] == top_find(st.top, cd.day).unwrap()
    } else {
        arbitrary()
    };
    assert forall|k: int|
        0 <= k < st.top.len() && st.top[k].day != cd.day implies section_ok(
        m1,
        aid,
        #[trigger] st.top[k],
        zone,
    ) by {
        match cd.orig {
            Some(fid) => {
                assert(st.top[dayidx].day == cd.day);
                assert(k != dayidx);
                if k < dayidx {
                    assert(st.top[k].fragment_id != st.top[dayidx].fragment_id);
                } else {
                    assert(st.top[dayidx].fragment_id != st.top[k].fragment_id);
                }
                if frag_key(aid, st.top[k].fragment_id as u64) == frag_key(aid, fid) {
                    lemma_frag_key_injective(aid, st.top[k].fragment_id as u64, fid);
                    assert(false);
                }
            },
            None => {},
        }
    }
    if cd.entries.len() > 0 {
        let e2 = TopEntryV {
            day: cd.day,
            fragment_id: st.head + 1,
            length: cd.entries.len() as int,
        };
        lemma_top_upsert_props(st.top, e2);
        let r = top_upsert(st.top, e2);
        let newkey = frag_key(aid, (st.head + 1) as u64);
        lemma_parse_section_enc(cd.entries);
        assert(section_ok(st2.m, aid, e2, zone)) by {
            assert(st2.m[newkey] == enc_section(cd.entries));
        }
        assert forall|k: int|
            0 <= k < r.len() implies section_ok(st2.m, aid, #[trigger] r[k], zone) by {
            if r[k] == e2 {
            } else {
                let j = choose|j: int|
                    0 <= j < st.top.len() && st.top[j] == r[k] && st.top[j].day != e2.day;
                assert(section_ok(m1, aid, st.top[j], zone));
                if frag_key(aid, st.top[j].fragment_id as u64) == newkey {
                    lemma_frag_key_injective(aid, st.top[j].fragment_id as u64, (st.head
                        + 1) as u64);
                    assert(false);
                }
            }
        }
        assert forall|k: int|
            0 <= k < r.len() implies 0 <= #[trigger] r[k].fragment_id <= st2.head by {
            if r[k] != e2 {
                let j = choose|j: int|
                    0 <= j < st.top.len() && st.top[j] == r[k] && st.top[j].day != e2.day;
            }
        }
        assert forall|k: int, l: int|
            0 <= k < l < r.len() implies #[trigger] r[k].fragment_id
            != #[trigger] r[l].fragment_id by {
            assert(r[k].day < r[l].day);
            if r[k] == e2 {
                let j = choose|j: int|
                    0 <= j < st.top.len() && st.top[j] == r[l] && st.top[j].day != e2.day;
            } else if r[l] == e2 {
                let j = choose|j: int|
                    0 <= j < st.top.len() && st.top[j] == r[k] && st.top[j].day != e2.day;
            } else {
                let j1 = choose|j: int|
                    0 <= j < st.top.len() && st.top[j] == r[k] && st.top[j].day != e2.day;
                let j2 = choose|j: int|
                    0 <= j < st.top.len() && st.top[j] == r[l] && st.top[j].day != e2.day;
                assert(j1 != j2) by {
                    if j1 == j2 {
                        assert(r[k].day == r[l].day);
                    }
                }
                if j1 < j2 {
                    assert(st.top[j1].fragment_id != st.top[j2].fragment_id);
                } else {
                    assert(st.top[j2].fragment_id != st.top[j1].fragment_id);
                }
            }
        }
        assert forall|key: Seq<u8>|
            st2.m.contains_key(key) && has_prefix(key, prefixed(aid)) implies exists|j: int|
            0 <= j < r.len() && key == frag_key(aid, #[trigger] r[j].fragment_id as u64) by {
            if key == newkey {
                lemma_top_find_props(r, e2.day);
                let w = choose|w: int| 0 <= w < r.len() && r[w] == e2;
                assert(key == frag_key(aid, r[w].fragment_id as u64));
            } else {
                assert(m1.contains_key(key));
                assert(st.m.contains_key(key));
                let j = choose|j: int|
                    0 <= j < st.top.len() && key == frag_key(
                        aid,
                        #[trigger] st.top[j].fragment_id as u64,
                    );
                assert(st.top[j].day != cd.day) by {
                    if st.top[j].day == cd.day {
                        assert(j == dayidx) by {
                            if j != dayidx {
                                if j < dayidx {
                                    assert(st.top[j].day < st.top[dayidx].day);
                                } else {
                                    assert(st.top[dayidx].day < st.top[j].day);
                                }
                            }
                        }
                        assert(cd.orig == Some(st.top[dayidx].fragment_id as u64));
                        assert(!m1.contains_key(key));
                        assert(false);
                    }
                }
                lemma_top_find_self(st.top, j);
                assert(top_find(r, st.top[j].day) == Some(st.top[j]));
                lemma_top_find_props(r, st.top[j].day);
                let w = choose|w: int| 0 <= w < r.len() && r[w] == st.top[j];
                assert(key == frag_key(aid, r[w].fragment_id as u64));
            }
        }
        assert(st2.length == top_total(r));
    } else {
        lemma_top_remove_props(st.top, cd.day);
        let r = top_remove(st.top, cd.day);
        assert forall|k: int|
            0 <= k < r.len() implies section_ok(st2.m, aid, #[trigger] r[k], zone) by {
            let j = choose|j: int|
                0 <= j < st.top.len() && #[trigger] st.top[j] == r[k] && st.top[j].day != cd.day;
            assert(section_ok(m1, aid, st.top[j], zone));
        }
        assert forall|k: int|
            0 <= k < r.len() implies 0 <= #[trigger] r[k].fragment_id <= st2.head by {
            let j = choose|j: int|
                0 <= j < st.top.len() && #[trigger] st.top[j] == r[k] && st.top[j].day != cd.day;
        }
        assert forall|k: int, l: int|
            0 <= k < l < r.len() implies #[trigger] r[k].fragment_id
            != #[trigger] r[l].fragment_id by {
            assert(r[k].day < r[l].day);
            let j1 = choose|j: int|
                0 <= j < st.top.len() && #[trigger] st.top[j] == r[k] && st.top[j].day != cd.day;
            let j2 = choose|j: int|
                0 <= j < st.top.len() && #[trigger] st.top[j] == r[l] && st.top[j].day != cd.day;
            assert(j1 != j2) by {
                if j1 == j2 {
                    assert(r[k].day == r[l].day);
                }
            }
            if j1 < j2 {
                assert(st.top[j1].fragment_id != st.top[j2].fragment_id);
            } else {
                assert(st.top[j2].fragment_id != st.top[j1].fragment_id);
            }
        }
        assert forall|key: Seq<u8>|
            st2.m.contains_key(key) && has_prefix(key, prefixed(aid)) implies exists|j: int|
            0 <= j < r.len() && key == frag_key(aid, #[trigger] r[j].fragment_id as u64) by {
            assert(st.m.contains_key(key));
            let j = choose|j: int|
                0 <= j < st.top.len() && key == frag_key(
                    aid,
                    #[trigger] st.top[j].fragment_id as u64,
                );
            assert(st.top[j].day != cd.day) by {
                if st.top[j].day == cd.day {
                    assert(j == dayidx) by {
                        if j != dayidx {
                            if j < dayidx {
                                assert(st.top[j].day < st.top[dayidx].day);
                            } else {
                                assert(st.top[dayidx].day < st.top[j].day);
                            }
                        }
                    }
                    assert(cd.orig == Some(st.top[dayidx].fragment_id as u64));
                    assert(!m1.contains_key(key));
                    assert(false);
                }
            }
            lemma_top_find_self(st.top, j);
            assert(top_find(r, st.top[j].day) == Some(st.top[j]));
            lemma_top_find_props(r, st.top[j].day);
            let w = choose|w: int| 0 <= w < r.len() && r[w] == st.top[j];
            assert(key == frag_key(aid, r[w].fragment_id as u64));
        }
        assert(st2.length == top_total(r));
    }
}

proof fn lemma_commit_fold_ok(
    st: CommitSt,
    c: Seq<CacheDayV>,
    aid: Seq<u8>,
    zone: Seq<u8>,
    t0: Seq<TopEntryV>,
)
    requires
        valid_id(aid),
        fold_ok(st, aid, zone),
        forall|k: int, l: int| 0 <= k < l < c.len() ==> #[trigger] c[k].day < #[trigger] c[l].day,
        forall|k: int| 0 <= k < c.len() ==> wf_section(#[trigger] c[k].entries),
        forall|k: int, i: int|
            0 <= k < c.len() && 0 <= i < c[k].entries.len() ==> day_of(
                #[trigger] c[k].entries[i].time_stamp,
                zone,
            ) == c[k].day,
        forall|k: int| 0 <= k < c.len() ==> cache_day_fits(#[trigger] c[k]),
        forall|k: int|
            0 <= k < c.len() ==> (match top_find(t0, #[trigger] c[k].day) {
                Some(te) => c[k].orig == Some(te.fragment_id as u64),
                None => c[k].orig is None,
            }),
        forall|k: int|
            0 <= k < c.len() ==> #[trigger] top_find(st.top, c[k].day) == top_find(t0, c[k].day),
        st.head + c.len() <= u64::MAX,
        st.head >= 0,
    ensures
        fold_ok(commit_fold(st, c, aid), aid, zone),
        st.head <= commit_fold(st, c, aid).head <= st.head + c.len(),
    decreases c.len(),
{
    if c.len() > 0 {
        lemma_commit_step_ok(st, c[0], aid, zone);
        let st2 = commit_step(st, c[0], aid);
        let rest = c.drop_first();
        assert forall|k: int|
            0 <= k < rest.len() implies #[trigger] top_find(st2.top, rest[k].day) == top_find(
            t0,
            rest[k].day,
        ) by {
            assert(rest[k] == c[k + 1]);
            assert(c[0].day < c[k + 1].day);
            assert(top_find(st2.top, rest[k].day) == top_find(st.top, rest[k].day));
            assert(top_find(st.top, c[k + 1].day) == top_find(t0, c[k + 1].day));
        }
        assert(forall|k: int, l: int|
            0 <= k < l < rest.len() ==> #[trigger] rest[k].day < #[trigger] rest[l].day);
        assert(forall|k: int| 0 <= k < rest.len() ==> wf_section(#[trigger] rest[k].entries));
        assert forall|k: int, i: int|
            0 <= k < rest.len() && 0 <= i < rest[k].entries.len() implies day_of(
            #[trigger] rest[k].entries[i].time_stamp,
            zone,
        ) == rest[k].day by {
            assert(rest[k] == c[k + 1]);
        }
        assert(forall|k: int| 0 <= k < rest.len() ==> cache_day_fits(#[trigger] rest[k]));
        assert forall|k: int|
            0 <= k < rest.len() implies (match top_find(t0, #[trigger] rest[k].day) {
            Some(te) => rest[k].orig == Some(te.fragment_id as u64),
            None => rest[k].orig is None,
        }) by {
            assert(rest[k] == c[k + 1]);
        }
        lemma_commit_fold_ok(st2, rest, aid, zone, t0);
    }
}

/// Exactly one Top and its Sections exist after a commit, and the album's
/// derived fields agree with the Top: committing preserves the album
/// invariant.
#[verifier::rlimit(100)]
#[verifier::spinoff_prover]
pub proof fn lemma_commit_preserves_album_inv(
    m: Map<Seq<u8>, Seq<u8>>,
    aid: Seq<u8>,
    a: AlbumV,
    t0: Seq<TopEntryV>,
    cache: Seq<CacheDayV>,
    now: int,
)
    requires
        album_inv(m, aid, a),
        t0 == sp_top(m[frag_key(aid, a.fragment_head)]).unwrap(),
        cache_inv(EngineV { album_id: aid, album: a, top: t0, cache }),
        forall|k: int, l: int|
            0 <= k < l < cache.len() ==> #[trigger] cache[k].day < #[trigger] cache[l].day,
        forall|k: int| 0 <= k < cache.len() ==> cache_day_fits(#[trigger] cache[k]),
        a.fragment_head + cache.len() + 1 <= u64::MAX,
        i64::MIN <= now <= i64::MAX,
    ensures
        ({
            let (m2, a2) = spec_commit(m, aid, a, t0, cache, now);
            album_inv(m2, aid, a2)
        }),
{
    crate::keys::lemma_valid_id_dot_free(aid);
    if cache.len() == 0 {
        return ;
    }
    let ev = EngineV { album_id: aid, album: a, top: t0, cache };
    let hk = frag_key(aid, a.fragment_head);
    assert forall|k: int, l: int|
        0 <= k < l < t0.len() implies #[trigger] t0[k].fragment_id
        != #[trigger] t0[l].fragment_id by {
        if t0[k].fragment_id == t0[l].fragment_id {
            assert(section_ok(m, aid, t0[k], a.time_zone));
            assert(section_ok(m, aid, t0[l], a.time_zone));
            let es = sp_section(m[frag_key(aid, t0[k].fragment_id as u64)]).unwrap();
            assert(es.len() >= 1);
            assert(day_of(es[0].time_stamp, a.time_zone) == t0[k].day);
            assert(day_of(es[0].time_stamp, a.time_zone) == t0[l].day);
            assert(t0[k].day < t0[l].day);
        }
    }
    let st0 = CommitSt {
        m: m.remove(hk),
        top: t0,
        head: a.fragment_head as int,
        length: a.length,
    };
    assert(fold_ok(st0, aid, a.time_zone)) by {
        assert forall|k: int|
            0 <= k < t0.len() implies section_ok(st0.m, aid, #[trigger] t0[k], a.time_zone) by {
            assert(section_ok(m, aid, t0[k], a.time_zone));
            if frag_key(aid, t0[k].fragment_id as u64) == hk {
                lemma_frag_key_injective(aid, t0[k].fragment_id as u64, a.fragment_head);
                assert(false);
            }
        }
        assert forall|key: Seq<u8>|
            st0.m.contains_key(key) && has_prefix(key, prefixed(aid)) implies exists|j: int|
            0 <= j < t0.len() && key == frag_key(aid, #[trigger] t0[j].fragment_id as u64) by {
            assert(m.contains_key(key));
        }
    }
    assert forall|k: int|
        0 <= k < cache.len() implies wf_section(#[trigger] cache[k].entries) && (forall|i: int|
        0 <= i < cache[k].entries.len() ==> day_of(
            #[trigger] cache[k].entries[i].time_stamp,
            a.time_zone,
        ) == cache[k].day) && (match top_find(t0, cache[k].day) {
        Some(te) => cache[k].orig == Some(te.fragment_id as u64),
        None => cache[k].orig is None,
    }) by {
        assert(cache_day_ok(cache[k], ev));
    }
    lemma_commit_fold_ok(st0, cache, aid, a.time_zone, t0);
    let st = commit_fold(st0, cache, aid);
    let m2 = spec_commit(m, aid, a, t0, cache, now).0;
    let a2 = spec_commit(m, aid, a, t0, cache, now).1;
    let head2 = (st.head + 1) as u64;
    let hk2 = frag_key(aid, head2);
    assert(head2 as int == st.head + 1);
    assert forall|k: int|
        0 <= k < st.top.len() implies wf_tentry(#[trigger] st.top[k]) by {}
    lemma_parse_top_enc(st.top);
    assert(sp_top(m2[hk2]) == Some(st.top)) by {
        assert(m2[hk2] == enc_top(st.top));
    }
    assert forall|k: int|
        0 <= k < st.top.len() implies 0 <= #[trigger] st.top[k].fragment_id
        < a2.fragment_head as int by {}
    assert forall|k: int|
        0 <= k < st.top.len() implies section_ok(m2, aid, #[trigger] st.top[k], a2.time_zone) by {
        assert(section_ok(st.m, aid, st.top[k], a.time_zone));
        if frag_key(aid, st.top[k].fragment_id as u64) == hk2 {
            lemma_frag_key_injective(aid, st.top[k].fragment_id as u64, head2);
            assert(st.top[k].fragment_id == st.head + 1);
            assert(false);
        }
    }
    assert forall|key: Seq<u8>|
        m2.contains_key(key) && has_prefix(key, prefixed(aid)) implies key == hk2 || (exists|
        j: int,
    |
        0 <= j < st.top.len() && key == frag_key(aid, #[trigger] st.top[j].fragment_id as u64)) by {
        if key != hk2 {
            assert(st.m.contains_key(key));
        }
    }
    assert(a2.length == top_total(st.top));
}


/// Removing an entry just inserted restores the Section, provided its key
/// was not already present.
proof fn lemma_remove_after_insert(es: Seq<SectionEntryV>, e: SectionEntryV)
    requires
        sorted_sentries(es),
        forall|i: int| 0 <= i < es.len() ==> !sentry_key_eq(e, #[trigger] es[i]),
    ensures
        remove_sentry(insert_sentry(es, e), e.time_stamp, e.file_id) == es,
    decreases es.len(),
{
    let ins = insert_sentry(es, e);
    if es.len() == 0 {
        assert(ins == seq![e]);
        assert(remove_sentry(ins, e.time_stamp, e.file_id) =~= es);
    } else if sentry_key_eq(e, es[0]) {
        assert(false);
    } else if sentry_lt(e, es[0]) {
        assert(ins == seq![e] + es);
        assert(ins[0].time_stamp == e.time_stamp && ins[0].file_id == e.file_id);
        assert(remove_sentry(ins, e.time_stamp, e.file_id) =~= es);
    } else {
        assert(sorted_sentries(es.drop_first())) by {
            assert(forall|i: int, j: int|
                0 <= i < j < es.drop_first().len() ==> sentry_lt(
                    #[trigger] es.drop_first()[i],
                    #[trigger] es.drop_first()[j],
                ));
        }
        assert(forall|i: int|
            0 <= i < es.drop_first().len() ==> !sentry_key_eq(e, #[trigger] es.drop_first()[i]));
        lemma_remove_after_insert(es.drop_first(), e);
        assert(ins == seq![es[0]] + insert_sentry(es.drop_first(), e));
        assert(!(ins[0].time_stamp == e.time_stamp && ins[0].file_id == e.file_id));
        assert(ins.drop_first() =~= insert_sentry(es.drop_first(), e));
        assert(remove_sentry(ins, e.time_stamp, e.file_id) == seq![es[0]] + remove_sentry(
            insert_sentry(es.drop_first(), e),
            e.time_stamp,
            e.file_id,
        ));
        assert(seq![es[0]] + es.drop_first() =~= es);
    }
}

/// Adding a file and then removing it again, in one commit, leaves the album
/// record as it was, except that `last_update` becomes the commit time and
/// `fragment_head` advances.
#[verifier::rlimit(100)]
#[verifier::spinoff_prover]
pub proof fn lemma_add_then_remove_album(
    m: Map<Seq<u8>, Seq<u8>>,
    aid: Seq<u8>,
    a: AlbumV,
    t0: Seq<TopEntryV>,
    e: SectionEntryV,
    now: int,
)
    requires
        album_inv(m, aid, a),
        t0 == sp_top(m[frag_key(aid, a.fragment_head)]).unwrap(),
        forall|i: int|
            0 <= i < day_base(m, aid, t0, day_of(e.time_stamp, a.time_zone)).1.len()
                ==> !sentry_key_eq(
                e,
                #[trigger] day_base(m, aid, t0, day_of(e.time_stamp, a.time_zone)).1[i],
            ),
        a.fragment_head + 2 <= u64::MAX,
    ensures
        ({
            let d = day_of(e.time_stamp, a.time_zone);
            let base = day_base(m, aid, t0, d);
            let cache = stage(stage(Seq::empty(), d, base, true, e), d, base, false, e);
            let (m2, a2) = spec_commit(m, aid, a, t0, cache, now);
            &&& a2.name == a.name
            &&& a2.time_zone == a.time_zone
            &&& a2.length == a.length
            &&& a2.date_range == a.date_range
            &&& a2.last_update == now
            &&& a2.fragment_head > a.fragment_head
            &&& sp_top(m2[frag_key(aid, a2.fragment_head)]) is Some
            &&& ({
                let t2 = sp_top(m2[frag_key(aid, a2.fragment_head)]).unwrap();
                &&& t2.len() == t0.len()
                &&& forall|k: int|
                    0 <= k < t2.len() ==> #[trigger] t2[k].day == t0[k].day && t2[k].length
                        == t0[k].length && sp_section(m2[frag_key(aid, t2[k].fragment_id as u64)])
                        == sp_section(m[frag_key(aid, t0[k].fragment_id as u64)])
            })
        }),
{
    crate::keys::lemma_valid_id_dot_free(aid);
    let d = day_of(e.time_stamp, a.time_zone);
    let base = day_base(m, aid, t0, d);
    let c1 = stage(Seq::empty(), d, base, true, e);
    let cache = stage(c1, d, base, false, e);
    assert(c1 == seq![CacheDayV { day: d, orig: base.0, entries: insert_sentry(base.1, e) }]);
    assert(cache == seq![
        CacheDayV {
            day: d,
            orig: base.0,
            entries: remove_sentry(insert_sentry(base.1, e), e.time_stamp, e.file_id),
        },
    ]);
    lemma_top_find_props(t0, d);
    assert(sorted_sentries(base.1)) by {
        match top_find(t0, d) {
            Some(te) => {
                let j = choose|j: int| 0 <= j < t0.len() && t0[j] == te;
                assert(section_ok(m, aid, t0[j], a.time_zone));
            },
            None => {},
        }
    }
    lemma_remove_after_insert(base.1, e);
    let cd = cache[0];
    assert(cd.entries == base.1);
    let hk = frag_key(aid, a.fragment_head);
    let st0 = CommitSt {
        m: m.remove(hk),
        top: t0,
        head: a.fragment_head as int,
        length: a.length,
    };
    assert(cache.drop_first() =~= Seq::<CacheDayV>::empty());
    let st1 = commit_step(st0, cd, aid);
    assert(commit_fold(st1, cache.drop_first(), aid) == st1);
    assert(commit_fold(st0, cache, aid) == st1);
    let (m2, a2) = spec_commit(m, aid, a, t0, cache, now);
    let prev = match top_find(t0, d) {
        Some(te) => te.length,
        None => 0,
    };
    // Distinct fragment ids in the Top (as in the invariant preservation
    // proof): a shared id would make one Section bucket to two days.
    assert forall|k: int, l: int|
        0 <= k < l < t0.len() implies #[trigger] t0[k].fragment_id
        != #[trigger] t0[l].fragment_id by {
        if t0[k].fragment_id == t0[l].fragment_id {
            assert(section_ok(m, aid, t0[k], a.time_zone));
            assert(section_ok(m, aid, t0[l], a.time_zone));
            let es = sp_section(m[frag_key(aid, t0[k].fragment_id as u64)]).unwrap();
            assert(es.len() >= 1);
            assert(day_of(es[0].time_stamp, a.time_zone) == t0[k].day);
            assert(day_of(es[0].time_stamp, a.time_zone) == t0[l].day);
            assert(t0[k].day < t0[l].day);
        }
    }
    let t2 = sp_top(m2[frag_key(aid, a2.fragment_head)]).unwrap();
    match top_find(t0, d) {
        Some(te) => {
            let j = choose|j: int| 0 <= j < t0.len() && t0[j] == te;
            lemma_top_find_self_pub(t0, j);
            assert(section_ok(m, aid, t0[j], a.time_zone));
            assert(base.1.len() == te.length);
            assert(cd.entries.len() == prev);
            assert(cd.entries.len() > 0);
            let e2 = TopEntryV {
                day: d,
                fragment_id: st0.head + 1,
                length: cd.entries.len() as int,
            };
            lemma_top_upsert_props(t0, e2);
            let r = top_upsert(t0, e2);
            assert(st1.top == r);
            assert(st1.length == a.length - prev + cd.entries.len());
            assert(r.len() == t0.len());
            assert(r[0].day == t0[0].day);
            assert(r[r.len() - 1].day == t0[t0.len() - 1].day);
            assert(a2.date_range == a.date_range);
            assert forall|k: int| 0 <= k < r.len() implies wf_tentry(#[trigger] r[k]) by {}
            lemma_parse_top_enc(r);
            assert(m2[frag_key(aid, a2.fragment_head)] == enc_top(r)) by {
                assert(a2.fragment_head as int == st0.head + 2);
                if frag_key(aid, (st0.head + 2) as u64) == frag_key(aid, (st0.head + 1) as u64) {
                    lemma_frag_key_injective(aid, (st0.head + 2) as u64, (st0.head + 1) as u64);
                }
            }
            assert(t2 == r);
            assert forall|k: int|
                0 <= k < t2.len() implies #[trigger] t2[k].day == t0[k].day && t2[k].length
                == t0[k].length && sp_section(m2[frag_key(aid, t2[k].fragment_id as u64)])
                == sp_section(m[frag_key(aid, t0[k].fragment_id as u64)]) by {
                if r[k] == e2 {
                    assert(t0[k].day == e2.day);
                    assert(k == j) by {
                        if k != j {
                            if k < j {
                                assert(t0[k].day < t0[j].day);
                            } else {
                                assert(t0[j].day < t0[k].day);
                            }
                        }
                    }
                    assert(t0[k].length == prev);
                    lemma_parse_section_enc(cd.entries);
                    assert(m2[frag_key(aid, (st0.head + 1) as u64)] == enc_section(cd.entries)) by {
                        if frag_key(aid, (st0.head + 2) as u64) == frag_key(
                            aid,
                            (st0.head + 1) as u64,
                        ) {
                            lemma_frag_key_injective(
                                aid,
                                (st0.head + 2) as u64,
                                (st0.head + 1) as u64,
                            );
                        }
                    }
                    assert(sp_section(m2[frag_key(aid, t2[k].fragment_id as u64)]) == Some(
                        cd.entries,
                    ));
                    assert(sp_section(m[frag_key(aid, t0[k].fragment_id as u64)]) == Some(base.1));
                } else {
                    assert(r[k] == t0[k]);
                    let fk = frag_key(aid, t0[k].fragment_id as u64);
                    assert(t0[k].fragment_id < a.fragment_head as int);
                    assert(m2[fk] == m[fk]) by {
                        if fk == frag_key(aid, a.fragment_head) {
                            lemma_frag_key_injective(aid, t0[k].fragment_id as u64, a.fragment_head);
                        }
                        if fk == frag_key(aid, te.fragment_id as u64) {
                            lemma_frag_key_injective(
                                aid,
                                t0[k].fragment_id as u64,
                                te.fragment_id as u64,
                            );
                            assert(t0[k].fragment_id == t0[j].fragment_id);
                            assert(k == j || t0[k].fragment_id != t0[j].fragment_id);
                            assert(k == j);
                            assert(r[j].day == e2.day && r[j] == t0[j]);
                            assert(false);
                        }
                        if fk == frag_key(aid, (st0.head + 1) as u64) {
                            lemma_frag_key_injective(
                                aid,
                                t0[k].fragment_id as u64,
                                (st0.head + 1) as u64,
                            );
                        }
                        if fk == frag_key(aid, (st0.head + 2) as u64) {
                            lemma_frag_key_injective(
                                aid,
                                t0[k].fragment_id as u64,
                                (st0.head + 2) as u64,
                            );
                        }
                        assert(m2.contains_key(fk) == m.contains_key(fk));
                    }
                }
            }
        },
        None => {
            assert(base.1 =~= Seq::<SectionEntryV>::empty());
            assert(cd.entries.len() == 0);
            lemma_top_remove_props(t0, d);
            assert(st1.top == top_remove(t0, d));
            assert(st1.top == t0);
            assert(st1.length == a.length);
            assert(a2.date_range == a.date_range);
            assert forall|k: int| 0 <= k < t0.len() implies wf_tentry(#[trigger] t0[k]) by {}
            lemma_parse_top_enc(t0);
            assert(m2[frag_key(aid, a2.fragment_head)] == enc_top(t0)) by {
                assert(a2.fragment_head as int == st0.head + 1);
            }
            assert(t2 == t0);
            assert forall|k: int|
                0 <= k < t2.len() implies #[trigger] t2[k].day == t0[k].day && t2[k].length
                == t0[k].length && sp_section(m2[frag_key(aid, t2[k].fragment_id as u64)])
                == sp_section(m[frag_key(aid, t0[k].fragment_id as u64)]) by {
                let fk = frag_key(aid, t0[k].fragment_id as u64);
                assert(t0[k].fragment_id < a.fragment_head as int);
                assert(m2[fk] == m[fk]) by {
                    if fk == frag_key(aid, a.fragment_head) {
                        lemma_frag_key_injective(aid, t0[k].fragment_id as u64, a.fragment_head);
                    }
                    if fk == frag_key(aid, (st0.head + 1) as u64) {
                        lemma_frag_key_injective(
                            aid,
                            t0[k].fragment_id as u64,
                            (st0.head + 1) as u64,
                        );
                    }
                    assert(m2.contains_key(fk) == m.contains_key(fk));
                }
            }
        },
    }
}

/// `top_find` returns the entry of its own day.
pub proof fn lemma_top_find_self_pub(t: Seq<TopEntryV>, j: int)
    requires
        forall|i: int, l: int| 0 <= i < l < t.len() ==> #[trigger] t[i].day < #[trigger] t[l].day,
        0 <= j < t.len(),
    ensures
        top_find(t, t[j].day) == Some(t[j]),
{
    lemma_top_find_self(t, j);
}

/// A fresh album satisfies the album invariant: its head points at the empty
/// Top written at fragment id 0, and the derived fields are zeroed.
pub proof fn lemma_fresh_album_inv(m: Map<Seq<u8>, Seq<u8>>, aid: Seq<u8>, a: AlbumV)
    requires
        valid_id(aid),
        a.fragment_head == 0,
        a.length == 0,
        a.date_range is None,
        forall|key: Seq<u8>|
            #[trigger] m.contains_key(key) && has_prefix(key, prefixed(aid)) ==> key == frag_key(
                aid,
                0,
            ),
        m.contains_key(frag_key(aid, 0)),
        m[frag_key(aid, 0)] == enc_top(Seq::empty()),
    ensures
        album_inv(m, aid, a),
{
    lemma_parse_top_enc(Seq::empty());
    assert(sp_top(m[frag_key(aid, 0)]) == Some(Seq::<TopEntryV>::empty()));
}


/// Total number of staged entries across the cache.
pub open spec fn total_staged(c: Seq<CacheDayV>) -> int
    decreases c.len(),
{
    if c.len() == 0 {
        0
    } else {
        c[0].entries.len() + total_staged(c.drop_first())
    }
}

proof fn lemma_total_staged_take(c: Seq<CacheDayV>, i: int)
    requires
        0 <= i < c.len(),
    ensures
        total_staged(c.take(i + 1)) == total_staged(c.take(i)) + c[i].entries.len(),
    decreases i,
{
    if i == 0 {
        assert(c.take(0) =~= Seq::<CacheDayV>::empty());
        assert(c.take(1) =~= seq![c[0]]);
        assert(c.take(1).drop_first() =~= Seq::<CacheDayV>::empty());
    } else {
        assert(c.take(i + 1)[0] == c[0]);
        assert(c.take(i)[0] == c[0]);
        assert(c.take(i + 1).drop_first() =~= c.drop_first().take(i));
        assert(c.take(i).drop_first() =~= c.drop_first().take(i - 1));
        assert(c.drop_first()[i - 1] == c[i]);
        lemma_total_staged_take(c.drop_first(), i - 1);
    }
}

proof fn lemma_total_staged_le(c: Seq<CacheDayV>, i: int)
    requires
        0 <= i <= c.len(),
    ensures
        total_staged(c.take(i)) <= total_staged(c),
    decreases c.len() - i,
{
    if i < c.len() {
        lemma_total_staged_take(c, i);
        lemma_total_staged_le(c, i + 1);
    } else {
        assert(c.take(i) =~= c);
    }
}

/// A found Top entry's length is at most the total, when no length is
/// negative.
proof fn lemma_find_le_total(t: Seq<TopEntryV>, d: int)
    requires
        forall|k: int| 0 <= k < t.len() ==> #[trigger] t[k].length >= 0,
    ensures
        top_total(t) >= 0,
        (match top_find(t, d) {
            Some(te) => te.length <= top_total(t),
            None => true,
        }),
    decreases t.len(),
{
    if t.len() > 0 {
        assert(forall|k: int|
            0 <= k < t.drop_first().len() ==> #[trigger] t.drop_first()[k].length >= 0);
        lemma_find_le_total(t.drop_first(), d);
    }
}

/// The commit state built from an album satisfying the invariant is well
/// formed.
#[verifier::rlimit(100)]
#[verifier::spinoff_prover]
proof fn lemma_fold_ok_init(m: Map<Seq<u8>, Seq<u8>>, aid: Seq<u8>, a: AlbumV, t0: Seq<TopEntryV>)
    requires
        album_inv(m, aid, a),
        t0 == sp_top(m[frag_key(aid, a.fragment_head)]).unwrap(),
    ensures
        fold_ok(
            CommitSt {
                m: m.remove(frag_key(aid, a.fragment_head)),
                top: t0,
                head: a.fragment_head as int,
                length: a.length,
            },
            aid,
            a.time_zone,
        ),
{
    crate::keys::lemma_valid_id_dot_free(aid);
    let hk = frag_key(aid, a.fragment_head);
    assert forall|k: int, l: int|
        0 <= k < l < t0.len() implies #[trigger] t0[k].fragment_id
        != #[trigger] t0[l].fragment_id by {
        if t0[k].fragment_id == t0[l].fragment_id {
            assert(section_ok(m, aid, t0[k], a.time_zone));
            assert(section_ok(m, aid, t0[l], a.time_zone));
            let es = sp_section(m[frag_key(aid, t0[k].fragment_id as u64)]).unwrap();
            assert(es.len() >= 1);
            assert(day_of(es[0].time_stamp, a.time_zone) == t0[k].day);
            assert(day_of(es[0].time_stamp, a.time_zone) == t0[l].day);
            assert(t0[k].day < t0[l].day);
        }
    }
    let st0 = CommitSt {
        m: m.remove(hk),
        top: t0,
        head: a.fragment_head as int,
        length: a.length,
    };
    assert forall|k: int|
        0 <= k < t0.len() implies section_ok(st0.m, aid, #[trigger] t0[k], a.time_zone) by {
        assert(section_ok(m, aid, t0[k], a.time_zone));
        if frag_key(aid, t0[k].fragment_id as u64) == hk {
            lemma_frag_key_injective(aid, t0[k].fragment_id as u64, a.fragment_head);
            assert(false);
        }
    }
    assert forall|key: Seq<u8>|
        st0.m.contains_key(key) && has_prefix(key, prefixed(aid)) implies exists|j: int|
        0 <= j < t0.len() && key == frag_key(aid, #[trigger] t0[j].fragment_id as u64) by {
        assert(m.contains_key(key));
    }
}

/// The side conditions under which a commit cannot fail internally: the
/// invariant holds, fragment ids have head-room, and the staged sizes fit.
pub open spec fn commit_headroom(ev: EngineV, m: Map<Seq<u8>, Seq<u8>>) -> bool {
    &&& engine_inv(ev, m)
    &&& ev.album.fragment_head as int + ev.cache.len() + 1 <= u64::MAX
    &&& ev.album.length + total_staged(ev.cache) <= usize::MAX
    &&& forall|k: int| 0 <= k < ev.cache.len() ==> cache_day_fits(#[trigger] ev.cache[k])
}

impl Engine {
    /// Every file id in the album, for rebucketing and the unshare cascade.
    #[verifier::loop_isolation(false)]
    #[verifier::rlimit(100)]
    pub fn list_file_ids(&self, fragments: &TxMap) -> (r: Result<Vec<Vec<u8>>, Fault>)
        ensures
            match r {
                Ok(v) => v@.map_values(|x: Vec<u8>| x@) == all_ids(
                    fragments@,
                    self@.album_id,
                    self@.top,
                ) && (engine_inv(self@, fragments@) ==> forall|k: int|
                    0 <= k < v@.len() ==> valid_id(#[trigger] v@[k]@)),
                Err(f) => (f is Store || f == Fault::User(ApiError::Storage)) && (tree_ok(
                    fragments@,
                    self@.album_id,
                    self@.top,
                ) ==> f is Store),
            },
    {
        let ghost m = fragments@;
        let ghost tv = self@.top;
        let mut out: Vec<Vec<u8>> = Vec::new();
        let n = self.top.len();
        let mut i: usize = 0;
        proof {
            assert(tv.skip(0) =~= tv);
            assert(out@.map_values(|x: Vec<u8>| x@) + all_ids(m, self@.album_id, tv) =~= all_ids(
                m,
                self@.album_id,
                tv,
            ));
        }
        while i < n
            invariant
                i <= n,
                n == self.top@.len(),
                engine_inv(self@, m) ==> forall|k: int|
                    0 <= k < out@.len() ==> valid_id(#[trigger] out@[k]@),
                all_ids(m, self@.album_id, tv) == out@.map_values(|x: Vec<u8>| x@) + all_ids(
                    m,
                    self@.album_id,
                    tv.skip(i as int),
                ),
            decreases n - i,
        {
            let ghost suf = tv.skip(i as int);
            proof {
                assert(suf[0] == tv[i as int]);
                assert(suf.drop_first() =~= tv.skip(i + 1));
                if engine_inv(self@, m) {
                    assert(section_ok(m, self@.album_id, tv[i as int], self@.album.time_zone));
                }
            }
            let fid = self.top[i].fragment_id;
            let key = get_id(self.album_id.as_slice(), fid);
            let bytes = match fragments.get(key.as_slice()) {
                Ok(Some(b)) => b,
                Ok(None) => {
                    proof {
                        if tree_ok(m, self@.album_id, tv) {
                            assert(m.contains_key(frag_key(self@.album_id,
                                tv[i as int].fragment_id as u64)));
                            assert(false);
                        }
                    }
                    return Err(Fault::User(ApiError::Storage));
                },
                Err(f) => {
                    return Err(f);
                },
            };
            let es = match parse_section(bytes.as_slice()) {
                Some(es) => es,
                None => {
                    proof {
                        if tree_ok(m, self@.album_id, tv) {
                            assert(sp_section(m[frag_key(self@.album_id,
                                tv[i as int].fragment_id as u64)]) is Some);
                            assert(false);
                        }
                    }
                    return Err(Fault::User(ApiError::Storage));
                },
            };
            let ghost pre = out@;
            let en = es.len();
            let mut j: usize = 0;
            let ghost mut ob = out@;
            while j < en
                invariant
                    j <= en,
                    en == es@.len(),
                    ob == out@,
                    entries_view(es@) == sp_section(
                        m[frag_key(self@.album_id, tv[i as int].fragment_id as u64)],
                    ).unwrap(),
                    engine_inv(self@, m) ==> wf_section(entries_view(es@)),
                    engine_inv(self@, m) ==> forall|k: int|
                        0 <= k < out@.len() ==> valid_id(#[trigger] out@[k]@),
                    out@.map_values(|x: Vec<u8>| x@) == pre.map_values(|x: Vec<u8>| x@)
                        + section_ids(entries_view(es@)).take(j as int),
                decreases en - j,
            {
                let mut idc: Vec<u8> = Vec::new();
                idc.extend_from_slice(es[j].file_id.as_slice());
                proof {
                    assert(idc@ =~= es@[j as int].file_id@);
                    assert(entries_view(es@)[j as int] == es@[j as int]@);
                    if engine_inv(self@, m) {
                        assert(wf_sentry(entries_view(es@)[j as int]));
                    }
                }
                out.push(idc);
                j += 1;
                proof {
                    let sids = section_ids(entries_view(es@));
                    assert(out@ == ob.push(idc));
                    assert(out@.map_values(|x: Vec<u8>| x@) =~= ob.map_values(|x: Vec<u8>| x@).push(
                        idc@,
                    ));
                    assert(sids[j - 1] == entries_view(es@)[j - 1].file_id);
                    assert(sids.take(j as int) =~= sids.take(j - 1).push(sids[j - 1]));
                    assert(out@.map_values(|x: Vec<u8>| x@) =~= pre.map_values(|x: Vec<u8>| x@)
                        + sids.take(j as int));
                    ob = out@;
                }
            }
            i += 1;
            proof {
                assert(section_ids(entries_view(es@)).take(en as int) =~= section_ids(
                    entries_view(es@),
                ));
                assert(pre.map_values(|x: Vec<u8>| x@) + section_ids(entries_view(es@))
                    + all_ids(m, self@.album_id, tv.skip(i as int)) =~= pre.map_values(
                    |x: Vec<u8>| x@,
                ) + (section_ids(entries_view(es@)) + all_ids(m, self@.album_id, tv.skip(i as int))));
            }
        }
        proof {
            assert(tv.skip(n as int) =~= Seq::<TopEntryV>::empty());
            assert(out@.map_values(|x: Vec<u8>| x@) + Seq::<Seq<u8>>::empty() =~= out@.map_values(
                |x: Vec<u8>| x@,
            ));
        }
        Ok(out)
    }

    /// Stage the removal of every Section.
    #[verifier::loop_isolation(false)]
    pub fn clear_all(&mut self, fragments: &TxMap) -> (r: Result<(), Fault>)
        requires
            old(self)@.cache.len() == 0,
        ensures
            match r {
                Ok(u) => final(self)@ == (EngineV {
                    cache: cleared_cache(old(self)@.top),
                    ..old(self)@
                }) && cache_sorted(final(self)@) && (engine_inv(old(self)@, fragments@)
                    ==> engine_inv(final(self)@, fragments@)),
                Err(f) => final(self)@ == old(self)@ && f == Fault::User(ApiError::Storage) && !(
                forall|k: int, l: int|
                    0 <= k < l < old(self)@.top.len() ==> #[trigger] old(self)@.top[k].day
                        < #[trigger] old(self)@.top[l].day),
            },
    {
        let ghost tv = self@.top;
        let n = self.top.len();
        let mut i: usize = 0;
        let mut fresh: Vec<CacheDay> = Vec::new();
        proof {
            assert(cache_view(fresh@) =~= cleared_cache(tv).take(0));
        }
        while i < n
            invariant
                i <= n,
                n == self.top@.len(),
                self.top@ == old(self).top@,
                self.cache@ == old(self).cache@,
                self.album_id@ == old(self).album_id@,
                self.album == old(self).album,
                cache_view(fresh@) == cleared_cache(tv).take(i as int),
                forall|k: int, l: int| 0 <= k < l < i ==> #[trigger] tv[k].day < #[trigger] tv[l].day,
            decreases n - i,
        {
            if i > 0 && self.top[i - 1].day >= self.top[i].day {
                proof {
                    assert(tv[i - 1].day >= tv[i as int].day);
                }
                return Err(Fault::User(ApiError::Storage));
            }
            proof {
                assert forall|k: int, l: int| 0 <= k < l < i + 1 implies #[trigger] tv[k].day
                    < #[trigger] tv[l].day by {
                    if l == i {
                        if k < i - 1 {
                            assert(tv[k].day < tv[i - 1].day);
                        }
                    }
                }
            }
            let te = self.top[i];
            fresh.push(CacheDay { day: te.day, orig: Some(te.fragment_id), entries: Vec::new() });
            i += 1;
            proof {
                assert(entries_view(Seq::<SectionEntry>::empty()) =~= Seq::<SectionEntryV>::empty());
                assert(cache_view(fresh@) =~= cleared_cache(tv).take(i as int));
            }
        }
        self.cache = fresh;
        proof {
            assert(cleared_cache(tv).take(n as int) =~= cleared_cache(tv));
            if engine_inv(old(self)@, fragments@) {
                let evf = self@;
                assert forall|k: int| 0 <= k < evf.cache.len() implies cache_day_ok(
                    #[trigger] evf.cache[k],
                    evf,
                ) by {
                    assert(evf.cache[k] == cleared_cache(tv)[k]);
                    lemma_top_find_self(tv, k);
                }
            }
        }
        Ok(())
    }

    /// Stage a file into its day's Section.
    pub fn add(&mut self, file_id: &[u8], file: &File, fragments: &TxMap) -> (r: Result<(), Fault>)
        requires
            cache_sorted(old(self)@),
        ensures
            match r {
                Ok(u) => final(self)@ == (EngineV {
                    cache: stage(
                        old(self)@.cache,
                        day_of(file.metadata.last_modified as int, old(self)@.album.time_zone),
                        day_base(
                            fragments@,
                            old(self)@.album_id,
                            old(self)@.top,
                            day_of(file.metadata.last_modified as int, old(self)@.album.time_zone),
                        ),
                        true,
                        SectionEntryV {
                            time_stamp: file.metadata.last_modified as int,
                            file_id: file_id@,
                            width: file.width as int,
                            height: file.height as int,
                        },
                    ),
                    ..old(self)@
                }) && cache_sorted(final(self)@) && zone_ok(old(self)@.album.time_zone)
                    && day_in_range(file.metadata.last_modified as int, old(self)@.album.time_zone)
                    && ((engine_inv(old(self)@, fragments@) && valid_id(file_id@)) ==> engine_inv(
                    final(self)@,
                    fragments@,
                )),
                Err(f) => final(self)@ == old(self)@ && (f is Store || f == Fault::User(
                    ApiError::Storage,
                ) || (f == Fault::User(ApiError::BadRequest) && !(zone_ok(
                    old(self)@.album.time_zone,
                ) && day_in_range(
                    file.metadata.last_modified as int,
                    old(self)@.album.time_zone,
                )))) && (tree_ok(fragments@, old(self)@.album_id, old(self)@.top) ==> !(f
                    == Fault::User(ApiError::Storage))),
            },
    {
        let d = match day_bucket(file.metadata.last_modified, self.album.description.time_zone.as_slice()) {
            Some(d) => d,
            None => {
                return Err(Fault::User(ApiError::BadRequest));
            },
        };
        let mut id: Vec<u8> = Vec::new();
        id.extend_from_slice(file_id);
        proof {
            assert(id@ =~= file_id@);
        }
        let e = SectionEntry {
            time_stamp: file.metadata.last_modified,
            file_id: id,
            width: file.width,
            height: file.height,
        };
        self.stage_day(fragments, d, e, true)
    }

    /// Stage a file's removal from its day's Section.
    pub fn remove(&mut self, file_id: &[u8], file: &File, fragments: &TxMap) -> (r: Result<
        (),
        Fault,
    >)
        requires
            cache_sorted(old(self)@),
        ensures
            match r {
                Ok(u) => final(self)@ == (EngineV {
                    cache: stage(
                        old(self)@.cache,
                        day_of(file.metadata.last_modified as int, old(self)@.album.time_zone),
                        day_base(
                            fragments@,
                            old(self)@.album_id,
                            old(self)@.top,
                            day_of(file.metadata.last_modified as int, old(self)@.album.time_zone),
                        ),
                        false,
                        SectionEntryV {
                            time_stamp: file.metadata.last_modified as int,
                            file_id: file_id@,
                            width: file.width as int,
                            height: file.height as int,
                        },
                    ),
                    ..old(self)@
                }) && cache_sorted(final(self)@) && zone_ok(old(self)@.album.time_zone)
                    && day_in_range(file.metadata.last_modified as int, old(self)@.album.time_zone)
                    && ((engine_inv(old(self)@, fragments@) && valid_id(file_id@)) ==> engine_inv(
                    final(self)@,
                    fragments@,
                )),
                Err(f) => final(self)@ == old(self)@ && (f is Store || f == Fault::User(
                    ApiError::Storage,
                ) || (f == Fault::User(ApiError::BadRequest) && !(zone_ok(
                    old(self)@.album.time_zone,
                ) && day_in_range(
                    file.metadata.last_modified as int,
                    old(self)@.album.time_zone,
                )))) && (tree_ok(fragments@, old(self)@.album_id, old(self)@.top) ==> !(f
                    == Fault::User(ApiError::Storage))),
            },
    {
        let d = match day_bucket(file.metadata.last_modified, self.album.description.time_zone.as_slice()) {
            Some(d) => d,
            None => {
                return Err(Fault::User(ApiError::BadRequest));
            },
        };
        let mut id: Vec<u8> = Vec::new();
        id.extend_from_slice(file_id);
        proof {
            assert(id@ =~= file_id@);
        }
        let e = SectionEntry {
            time_stamp: file.metadata.last_modified,
            file_id: id,
            width: file.width,
            height: file.height,
        };
        self.stage_day(fragments, d, e, false)
    }

    /// Apply every staged mutation: delete replaced fragments, write each
    /// non-empty Section under a fresh id, then write the new Top and update
    /// the album record.
    #[verifier::loop_isolation(false)]
    #[verifier::rlimit(100)]
    #[verifier::spinoff_prover]
    pub fn commit(self, fragments: &mut TxMap, now: i64) -> (r: Result<Album, Fault>)
        ensures
            match r {
                Ok(a2) => (final(fragments)@, a2@) == spec_commit(
                    old(fragments)@,
                    self@.album_id,
                    self@.album,
                    self@.top,
                    self@.cache,
                    now as int,
                ),
                Err(f) => f is Store || f == Fault::User(ApiError::Storage),
            },
            self@.cache.len() == 0 ==> r is Ok,
            commit_headroom(self@, old(fragments)@) ==> (r matches Err(f) ==> f is Store),
    {
        let ghost ev = self@;
        let ghost m0 = old(fragments)@;
        let Engine { album_id, mut album, mut top, cache } = self;
        if cache.len() == 0 {
            return Ok(album);
        }
        let head_key = get_id(album_id.as_slice(), album.fragment_head);
        match fragments.remove(head_key.as_slice()) {
            Ok(u) => {},
            Err(f) => {
                return Err(f);
            },
        }
        let ghost st0 = CommitSt {
            m: m0.remove(frag_key(ev.album_id, ev.album.fragment_head)),
            top: ev.top,
            head: ev.album.fragment_head as int,
            length: ev.album.length,
        };
        let n = cache.len();
        let mut i: usize = 0;
        proof {
            assert(ev.cache.skip(0) =~= ev.cache);
            if commit_headroom(ev, m0) {
                lemma_fold_ok_init(m0, ev.album_id, ev.album, ev.top);
                assert(ev.cache.take(0) =~= Seq::<CacheDayV>::empty());
            }
        }
        while i < n
            invariant
                i <= n,
                n == cache@.len(),
                cache_view(cache@) == ev.cache,
                album_id@ == ev.album_id,
                album.description.name@ == ev.album.name,
                album.description.time_zone@ == ev.album.time_zone,
                album.last_update == self@.album.last_update,
                album.date_range == ({
                    let a0: Album = self.album;
                    a0.date_range
                }),
                commit_fold(st0, ev.cache, ev.album_id) == commit_fold(
                    CommitSt {
                        m: fragments@,
                        top: top_view(top@),
                        head: album.fragment_head as int,
                        length: album.length as int,
                    },
                    ev.cache.skip(i as int),
                    ev.album_id,
                ),
                commit_headroom(ev, m0) ==> fold_ok(
                    CommitSt {
                        m: fragments@,
                        top: top_view(top@),
                        head: album.fragment_head as int,
                        length: album.length as int,
                    },
                    ev.album_id,
                    ev.album.time_zone,
                ),
                commit_headroom(ev, m0) ==> forall|p: int|
                    i <= p < n ==> #[trigger] top_find(top_view(top@), ev.cache[p].day)
                        == top_find(ev.top, ev.cache[p].day),
                commit_headroom(ev, m0) ==> album.fragment_head as int
                    <= ev.album.fragment_head as int + i,
                commit_headroom(ev, m0) ==> album.length as int <= ev.album.length + total_staged(
                    ev.cache.take(i as int),
                ),
            decreases n - i,
        {
            let ghost sti = CommitSt {
                m: fragments@,
                top: top_view(top@),
                head: album.fragment_head as int,
                length: album.length as int,
            };
            let ghost suf = ev.cache.skip(i as int);
            proof {
                assert(suf[0] == ev.cache[i as int]);
                assert(suf.drop_first() =~= ev.cache.skip(i + 1));
                assert(ev.cache[i as int] == cache@[i as int]@);
                if commit_headroom(ev, m0) {
                    let cd = ev.cache[i as int];
                    assert(cache_day_ok(cd, ev));
                    assert(top_find(sti.top, cd.day) == top_find(ev.top, cd.day));
                    lemma_commit_step_ok(sti, cd, ev.album_id, ev.album.time_zone);
                    lemma_find_le_total(sti.top, cd.day);
                    lemma_total_staged_take(ev.cache, i as int);
                    lemma_total_staged_le(ev.cache, i + 1);
                }
            }
            match cache[i].orig {
                Some(fid) => {
                    let k = get_id(album_id.as_slice(), fid);
                    match fragments.remove(k.as_slice()) {
                        Ok(u) => {},
                        Err(f) => {
                            return Err(f);
                        },
                    }
                },
                None => {},
            }
            let prev: usize = match top_find_e(&top, cache[i].day) {
                Some(j) => top[j].length,
                None => 0,
            };
            if cache[i].entries.len() > 0 {
                if album.fragment_head == u64::MAX {
                    proof {
                        if commit_headroom(ev, m0) {
                            assert(false);
                        }
                    }
                    return Err(Fault::User(ApiError::Storage));
                }
                album.fragment_head = album.fragment_head + 1;
                let bytes = encode_section(&cache[i].entries);
                let k = get_id(album_id.as_slice(), album.fragment_head);
                match fragments.insert(k.as_slice(), bytes.as_slice()) {
                    Ok(u) => {},
                    Err(f) => {
                        return Err(f);
                    },
                }
                top_upsert_e(
                    &mut top,
                    TopEntry {
                        day: cache[i].day,
                        fragment_id: album.fragment_head,
                        length: cache[i].entries.len(),
                    },
                );
                if prev > album.length {
                    proof {
                        if commit_headroom(ev, m0) {
                            assert(false);
                        }
                    }
                    return Err(Fault::User(ApiError::Storage));
                }
                let base = album.length - prev;
                if cache[i].entries.len() > usize::MAX - base {
                    proof {
                        if commit_headroom(ev, m0) {
                            assert(false);
                        }
                    }
                    return Err(Fault::User(ApiError::Storage));
                }
                album.length = base + cache[i].entries.len();
            } else {
                top_remove_e(&mut top, cache[i].day);
                if prev > album.length {
                    proof {
                        if commit_headroom(ev, m0) {
                            assert(false);
                        }
                    }
                    return Err(Fault::User(ApiError::Storage));
                }
                album.length = album.length - prev;
            }
            i += 1;
            proof {
                assert(CommitSt {
                    m: fragments@,
                    top: top_view(top@),
                    head: album.fragment_head as int,
                    length: album.length as int,
                } == commit_step(sti, suf[0], ev.album_id));
                if commit_headroom(ev, m0) {
                    assert forall|p: int|
                        i <= p < n implies #[trigger] top_find(top_view(top@), ev.cache[p].day)
                        == top_find(ev.top, ev.cache[p].day) by {
                        assert(ev.cache[i - 1].day < ev.cache[p].day);
                        assert(top_find(top_view(top@), ev.cache[p].day) == top_find(
                            sti.top,
                            ev.cache[p].day,
                        ));
                    }
                }
            }
        }
        proof {
            assert(ev.cache.skip(n as int) =~= Seq::<CacheDayV>::empty());
        }
        if album.fragment_head == u64::MAX {
            proof {
                if commit_headroom(ev, m0) {
                    assert(false);
                }
            }
            return Err(Fault::User(ApiError::Storage));
        }
        album.fragment_head = album.fragment_head + 1;
        let bytes = encode_top(&top);
        let k = get_id(album_id.as_slice(), album.fragment_head);
        match fragments.insert(k.as_slice(), bytes.as_slice()) {
            Ok(u) => {},
            Err(f) => {
                return Err(f);
            },
        }
        album.last_update = now;
        album.date_range = if top.len() == 0 {
            None
        } else {
            Some((top[0].day, top[top.len() - 1].day))
        };
        Ok(album)
    }
}

} // verus!
