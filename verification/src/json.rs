//! Fragment wire format.
//!
//! A Section is sent as `[[ts,"file_id",width,height], ...]` and a Top as
//! `[[day_ts,fragment_id,length], ...]`, both sorted ascending by their first
//! element.  The encoders and parsers here are the library's own, with the
//! encoding stated byte for byte and a proved round trip
//! (`lemma_parse_section_enc`, `lemma_parse_top_enc`).

use vstd::prelude::*;
use crate::keys::id_byte;

verus! {

/// Spec model of one Section entry.
pub struct SectionEntryV {
    pub time_stamp: int,
    pub file_id: Seq<u8>,
    pub width: int,
    pub height: int,
}

/// Spec model of one Top entry.
pub struct TopEntryV {
    pub day: int,
    pub fragment_id: int,
    pub length: int,
}

/// One file in a Section: its timestamp, id and pixel dimensions.
#[derive(Clone, Debug, PartialEq, Eq)]
pub struct SectionEntry {
    pub time_stamp: i64,
    pub file_id: Vec<u8>,
    pub width: i32,
    pub height: i32,
}

impl View for SectionEntry {
    type V = SectionEntryV;

    open spec fn view(&self) -> SectionEntryV {
        SectionEntryV {
            time_stamp: self.time_stamp as int,
            file_id: self.file_id@,
            width: self.width as int,
            height: self.height as int,
        }
    }
}

/// One Section in the Top: its day, fragment id and file count.
#[derive(Clone, Copy, Debug, PartialEq, Eq)]
pub struct TopEntry {
    pub day: i64,
    pub fragment_id: u64,
    pub length: usize,
}

impl View for TopEntry {
    type V = TopEntryV;

    open spec fn view(&self) -> TopEntryV {
        TopEntryV {
            day: self.day as int,
            fragment_id: self.fragment_id as int,
            length: self.length as int,
        }
    }
}

pub open spec fn entries_view(v: Seq<SectionEntry>) -> Seq<SectionEntryV> {
    v.map_values(|e: SectionEntry| e@)
}

pub open spec fn top_view(v: Seq<TopEntry>) -> Seq<TopEntryV> {
    v.map_values(|e: TopEntry| e@)
}

/// Decimal digits of `n`, most significant first.
pub open spec fn dec_u64(n: nat) -> Seq<u8>
    decreases n,
{
    if n < 10 {
        seq![(48 + n) as u8]
    } else {
        dec_u64(n / 10) + seq![(48 + n % 10) as u8]
    }
}

/// Decimal text of a signed number.
pub open spec fn dec_i64(n: int) -> Seq<u8> {
    if n < 0 {
        seq![45u8] + dec_u64((-n) as nat)
    } else {
        dec_u64(n as nat)
    }
}

/// `[ts,"id",w,h]`
pub open spec fn enc_sentry(e: SectionEntryV) -> Seq<u8> {
    seq![91u8] + dec_i64(e.time_stamp) + seq![44u8, 34u8] + e.file_id + seq![34u8, 44u8] + dec_i64(
        e.width,
    ) + seq![44u8] + dec_i64(e.height) + seq![93u8]
}

/// Entries joined with commas.
pub open spec fn enc_slist(es: Seq<SectionEntryV>) -> Seq<u8>
    decreases es.len(),
{
    if es.len() == 0 {
        Seq::empty()
    } else if es.len() == 1 {
        enc_sentry(es[0])
    } else {
        enc_sentry(es[0]) + seq![44u8] + enc_slist(es.drop_first())
    }
}

/// The serialized Section.
pub open spec fn enc_section(es: Seq<SectionEntryV>) -> Seq<u8> {
    seq![91u8] + enc_slist(es) + seq![93u8]
}

/// `[day,fragment_id,length]`
pub open spec fn enc_tentry(e: TopEntryV) -> Seq<u8> {
    seq![91u8] + dec_i64(e.day) + seq![44u8] + dec_i64(e.fragment_id) + seq![44u8] + dec_i64(
        e.length,
    ) + seq![93u8]
}

pub open spec fn enc_tlist(es: Seq<TopEntryV>) -> Seq<u8>
    decreases es.len(),
{
    if es.len() == 0 {
        Seq::empty()
    } else if es.len() == 1 {
        enc_tentry(es[0])
    } else {
        enc_tentry(es[0]) + seq![44u8] + enc_tlist(es.drop_first())
    }
}

/// The serialized Top.
pub open spec fn enc_top(es: Seq<TopEntryV>) -> Seq<u8> {
    seq![91u8] + enc_tlist(es) + seq![93u8]
}

/// Append the decimal digits of `n`.
pub fn print_u64(out: &mut Vec<u8>, n: u64)
    ensures
        final(out)@ == old(out)@ + dec_u64(n as nat),
    decreases n,
{
    if n < 10 {
        out.push(48 + (n as u8));
        assert(out@ =~= old(out)@ + dec_u64(n as nat));
    } else {
        print_u64(out, n / 10);
        out.push(48 + ((n % 10) as u8));
        assert(out@ =~= old(out)@ + dec_u64(n as nat));
    }
}

/// Append the decimal text of `n`.
pub fn print_i64(out: &mut Vec<u8>, n: i64)
    ensures
        final(out)@ == old(out)@ + dec_i64(n as int),
{
    if n < 0 {
        out.push(45);
        let m: u64 = if n == i64::MIN {
            9223372036854775808u64
        } else {
            (-n) as u64
        };
        assert(m as nat == (-(n as int)) as nat);
        print_u64(out, m);
        assert(out@ =~= old(out)@ + dec_i64(n as int));
    } else {
        print_u64(out, n as u64);
        assert(out@ =~= old(out)@ + dec_i64(n as int));
    }
}

/// Serialize one Section entry.
pub fn print_sentry(out: &mut Vec<u8>, e: &SectionEntry)
    ensures
        final(out)@ == old(out)@ + enc_sentry(e@),
{
    out.push(91);
    print_i64(out, e.time_stamp);
    out.push(44);
    out.push(34);
    out.extend_from_slice(e.file_id.as_slice());
    out.push(34);
    out.push(44);
    print_i64(out, e.width as i64);
    out.push(44);
    print_i64(out, e.height as i64);
    out.push(93);
    assert(out@ =~= old(out)@ + enc_sentry(e@));
}

/// Serialize a Section.
pub fn encode_section(es: &Vec<SectionEntry>) -> (r: Vec<u8>)
    ensures
        r@ == enc_section(entries_view(es@)),
{
    let mut out: Vec<u8> = Vec::new();
    out.push(91);
    let n = es.len();
    let mut i: usize = 0;
    while i < n
        invariant
            i <= n,
            n == es@.len(),
            out@ == seq![91u8] + enc_slist(entries_view(es@.subrange(0, i as int))) + (
            if 0 < i < n {
                seq![44u8]
            } else {
                Seq::<u8>::empty()
            }),
        decreases n - i,
    {
        let ghost pre = out@;
        print_sentry(&mut out, &es[i]);
        if i + 1 < n {
            out.push(44);
        }
        i += 1;
        proof {
            lemma_slist_snoc(entries_view(es@.subrange(0, i as int)));
            assert(entries_view(es@.subrange(0, i - 1)) =~= entries_view(
                es@.subrange(0, i as int),
            ).drop_last());
            assert(entries_view(es@.subrange(0, i as int)).last() == es@[i - 1]@);
            if i < n {
                assert(out@ =~= seq![91u8] + enc_slist(entries_view(es@.subrange(0, i as int)))
                    + seq![44u8]);
            } else {
                assert(out@ =~= seq![91u8] + enc_slist(entries_view(es@.subrange(0, i as int))));
            }
        }
    }
    out.push(93);
    proof {
        assert(es@.subrange(0, n as int) =~= es@);
        assert(out@ =~= enc_section(entries_view(es@)));
    }
    out
}

/// Serialize one Top entry.
pub fn print_tentry(out: &mut Vec<u8>, e: &TopEntry)
    ensures
        final(out)@ == old(out)@ + enc_tentry(e@),
{
    out.push(91);
    print_i64(out, e.day);
    out.push(44);
    print_u64(out, e.fragment_id);
    out.push(44);
    print_u64(out, e.length as u64);
    out.push(93);
    proof {
        assert(dec_i64(e.fragment_id as int) == dec_u64(e.fragment_id as nat));
        assert(dec_i64(e.length as int) == dec_u64(e.length as nat));
        assert(out@ =~= old(out)@ + enc_tentry(e@));
    }
}

/// Serialize a Top.
pub fn encode_top(es: &Vec<TopEntry>) -> (r: Vec<u8>)
    ensures
        r@ == enc_top(top_view(es@)),
{
    let mut out: Vec<u8> = Vec::new();
    out.push(91);
    let n = es.len();
    let mut i: usize = 0;
    while i < n
        invariant
            i <= n,
            n == es@.len(),
            out@ == seq![91u8] + enc_tlist(top_view(es@.subrange(0, i as int))) + (
            if 0 < i < n {
                seq![44u8]
            } else {
                Seq::<u8>::empty()
            }),
        decreases n - i,
    {
        let ghost pre = out@;
        print_tentry(&mut out, &es[i]);
        if i + 1 < n {
            out.push(44);
        }
        i += 1;
        proof {
            lemma_tlist_snoc(top_view(es@.subrange(0, i as int)));
            assert(top_view(es@.subrange(0, i - 1)) =~= top_view(
                es@.subrange(0, i as int),
            ).drop_last());
            assert(top_view(es@.subrange(0, i as int)).last() == es@[i - 1]@);
            if i < n {
                assert(out@ =~= seq![91u8] + enc_tlist(top_view(es@.subrange(0, i as int)))
                    + seq![44u8]);
            } else {
                assert(out@ =~= seq![91u8] + enc_tlist(top_view(es@.subrange(0, i as int))));
            }
        }
    }
    out.push(93);
    proof {
        assert(es@.subrange(0, n as int) =~= es@);
        assert(out@ =~= enc_top(top_view(es@)));
    }
    out
}

/// Appending one entry extends the comma-joined list at its tail.
pub proof fn lemma_slist_snoc(es: Seq<SectionEntryV>)
    requires
        es.len() > 0,
    ensures
        enc_slist(es) == if es.len() == 1 {
            enc_sentry(es[0])
        } else {
            enc_slist(es.drop_last()) + seq![44u8] + enc_sentry(es.last())
        },
    decreases es.len(),
{
    if es.len() <= 1 {
    } else {
        lemma_slist_snoc(es.drop_first());
        assert(es.drop_first().drop_last() =~= es.drop_last().drop_first());
        assert(es.drop_first().last() == es.last());
        if es.len() == 2 {
            assert(es.drop_last() =~= seq![es[0]]);
            assert(enc_slist(es.drop_last()) == enc_sentry(es[0]));
            assert(enc_slist(es) == enc_sentry(es[0]) + seq![44u8] + enc_slist(es.drop_first()));
            assert(enc_slist(es.drop_first()) == enc_sentry(es[1]));
        } else {
            assert(es.drop_last()[0] == es[0]);
            assert(es.drop_last().len() >= 2);
            assert(enc_slist(es.drop_last()) == enc_sentry(es[0]) + seq![44u8] + enc_slist(
                es.drop_last().drop_first(),
            ));
            assert((enc_sentry(es[0]) + seq![44u8] + (enc_slist(es.drop_first().drop_last())
                + seq![44u8] + enc_sentry(es.last()))) =~= ((enc_sentry(es[0]) + seq![44u8]
                + enc_slist(es.drop_first().drop_last())) + seq![44u8] + enc_sentry(es.last())));
        }
    }
}

pub open spec fn is_digit(b: u8) -> bool {
    48 <= b && b <= 57
}

/// First position at or after `i` that does not hold a digit.
pub open spec fn digit_end(s: Seq<u8>, i: int) -> int
    decreases s.len() - i when 0 <= i <= s.len()
{
    if i < s.len() && is_digit(s[i]) {
        digit_end(s, i + 1)
    } else {
        i
    }
}

/// Value of the digits `s[i..j]`, most significant first.
pub open spec fn digits_val(s: Seq<u8>, i: int, j: int) -> nat
    decreases j - i,
{
    if i >= j {
        0
    } else {
        digits_val(s, i, j - 1) * 10 + (if 48 <= s[j - 1] {
            (s[j - 1] - 48) as nat
        } else {
            0
        })
    }
}

/// Parse an unsigned decimal number at `i`.
pub open spec fn sp_u64(s: Seq<u8>, i: int) -> Option<(u64, int)> {
    let j = digit_end(s, i);
    if j == i || digits_val(s, i, j) > u64::MAX {
        None
    } else {
        Some((digits_val(s, i, j) as u64, j))
    }
}

/// Parse a signed decimal number at `i`.
pub open spec fn sp_i64(s: Seq<u8>, i: int) -> Option<(i64, int)> {
    if 0 <= i < s.len() && s[i] == 45 {
        match sp_u64(s, i + 1) {
            None => None,
            Some((v, j)) => if v as nat > 9223372036854775808nat {
                None
            } else {
                Some(((0 - v as int) as i64, j))
            },
        }
    } else {
        match sp_u64(s, i) {
            None => None,
            Some((v, j)) => if v > i64::MAX as u64 {
                None
            } else {
                Some((v as i64, j))
            },
        }
    }
}

/// First position at or after `i` holding a closing quote.
pub open spec fn quote_end(s: Seq<u8>, i: int) -> int
    decreases s.len() - i when 0 <= i <= s.len()
{
    if i < s.len() && s[i] != 34 {
        quote_end(s, i + 1)
    } else {
        i
    }
}

/// Parse the inside of a quoted id at `i`; the returned position is at the
/// closing quote.
pub open spec fn sp_id(s: Seq<u8>, i: int) -> Option<(Seq<u8>, int)> {
    let j = quote_end(s, i);
    if 0 <= i && j < s.len() {
        Some((s.subrange(i, j), j))
    } else {
        None
    }
}

/// Parse one Section entry `[ts,"id",w,h]` at `i`.
pub open spec fn sp_sentry(s: Seq<u8>, i: int) -> Option<(SectionEntryV, int)> {
    if 0 <= i < s.len() && s[i] == 91 {
        match sp_i64(s, i + 1) {
            None => None,
            Some((ts, j1)) => if j1 + 1 < s.len() && s[j1] == 44 && s[j1 + 1] == 34 {
                match sp_id(s, j1 + 2) {
                    None => None,
                    Some((id, j2)) => if j2 + 1 < s.len() && s[j2 + 1] == 44 {
                        match sp_i64(s, j2 + 2) {
                            None => None,
                            Some((w, j3)) => if j3 < s.len() && s[j3] == 44 {
                                match sp_i64(s, j3 + 1) {
                                    None => None,
                                    Some((h, j4)) => if j4 < s.len() && s[j4] == 93 && i32::MIN
                                        <= w <= i32::MAX && i32::MIN <= h <= i32::MAX {
                                        Some(
                                            (
                                                SectionEntryV {
                                                    time_stamp: ts as int,
                                                    file_id: id,
                                                    width: w as int,
                                                    height: h as int,
                                                },
                                                j4 + 1,
                                            ),
                                        )
                                    } else {
                                        None
                                    },
                                }
                            } else {
                                None
                            },
                        }
                    } else {
                        None
                    },
                }
            } else {
                None
            },
        }
    } else {
        None
    }
}

/// Parse `entry (',' entry)* ']'` at `i`.
pub open spec fn sp_sentries(s: Seq<u8>, i: int) -> Option<(Seq<SectionEntryV>, int)>
    decreases s.len() - i when 0 <= i <= s.len()
{
    match sp_sentry(s, i) {
        None => None,
        Some((e, j)) => if j < s.len() && s[j] == 44 {
            if i < j + 1 <= s.len() {
                match sp_sentries(s, j + 1) {
                    None => None,
                    Some((es, k)) => Some((seq![e] + es, k)),
                }
            } else {
                None
            }
        } else if j < s.len() && s[j] == 93 {
            Some((seq![e], j + 1))
        } else {
            None
        },
    }
}

/// Parse a whole Section, consuming every byte.
pub open spec fn sp_section(s: Seq<u8>) -> Option<Seq<SectionEntryV>> {
    if s.len() >= 2 && s[0] == 91 {
        if s[1] == 93 {
            if s.len() == 2 {
                Some(Seq::empty())
            } else {
                None
            }
        } else {
            match sp_sentries(s, 1) {
                None => None,
                Some((es, k)) => if k == s.len() {
                    Some(es)
                } else {
                    None
                },
            }
        }
    } else {
        None
    }
}

/// Parse one Top entry `[day,fid,len]` at `i`.
pub open spec fn sp_tentry(s: Seq<u8>, i: int) -> Option<(TopEntryV, int)> {
    if 0 <= i < s.len() && s[i] == 91 {
        match sp_i64(s, i + 1) {
            None => None,
            Some((day, j1)) => if j1 < s.len() && s[j1] == 44 {
                match sp_u64(s, j1 + 1) {
                    None => None,
                    Some((fid, j2)) => if j2 < s.len() && s[j2] == 44 {
                        match sp_u64(s, j2 + 1) {
                            None => None,
                            Some((n, j3)) => if j3 < s.len() && s[j3] == 93 && n
                                <= usize::MAX as u64 {
                                Some(
                                    (
                                        TopEntryV {
                                            day: day as int,
                                            fragment_id: fid as int,
                                            length: n as int,
                                        },
                                        j3 + 1,
                                    ),
                                )
                            } else {
                                None
                            },
                        }
                    } else {
                        None
                    },
                }
            } else {
                None
            },
        }
    } else {
        None
    }
}

pub open spec fn sp_tentries(s: Seq<u8>, i: int) -> Option<(Seq<TopEntryV>, int)>
    decreases s.len() - i when 0 <= i <= s.len()
{
    match sp_tentry(s, i) {
        None => None,
        Some((e, j)) => if j < s.len() && s[j] == 44 {
            if i < j + 1 <= s.len() {
                match sp_tentries(s, j + 1) {
                    None => None,
                    Some((es, k)) => Some((seq![e] + es, k)),
                }
            } else {
                None
            }
        } else if j < s.len() && s[j] == 93 {
            Some((seq![e], j + 1))
        } else {
            None
        },
    }
}

/// Parse a whole Top, consuming every byte.
pub open spec fn sp_top(s: Seq<u8>) -> Option<Seq<TopEntryV>> {
    if s.len() >= 2 && s[0] == 91 {
        if s[1] == 93 {
            if s.len() == 2 {
                Some(Seq::empty())
            } else {
                None
            }
        } else {
            match sp_tentries(s, 1) {
                None => None,
                Some((es, k)) => if k == s.len() {
                    Some(es)
                } else {
                    None
                },
            }
        }
    } else {
        None
    }
}

pub proof fn lemma_tlist_snoc(es: Seq<TopEntryV>)
    requires
        es.len() > 0,
    ensures
        enc_tlist(es) == if es.len() == 1 {
            enc_tentry(es[0])
        } else {
            enc_tlist(es.drop_last()) + seq![44u8] + enc_tentry(es.last())
        },
    decreases es.len(),
{
    if es.len() <= 1 {
    } else {
        lemma_tlist_snoc(es.drop_first());
        assert(es.drop_first().drop_last() =~= es.drop_last().drop_first());
        assert(es.drop_first().last() == es.last());
        if es.len() == 2 {
            assert(es.drop_last() =~= seq![es[0]]);
            assert(enc_tlist(es.drop_last()) == enc_tentry(es[0]));
            assert(enc_tlist(es) == enc_tentry(es[0]) + seq![44u8] + enc_tlist(es.drop_first()));
            assert(enc_tlist(es.drop_first()) == enc_tentry(es[1]));
        } else {
            assert(es.drop_last()[0] == es[0]);
            assert(es.drop_last().len() >= 2);
            assert(enc_tlist(es.drop_last()) == enc_tentry(es[0]) + seq![44u8] + enc_tlist(
                es.drop_last().drop_first(),
            ));
            assert((enc_tentry(es[0]) + seq![44u8] + (enc_tlist(es.drop_first().drop_last())
                + seq![44u8] + enc_tentry(es.last()))) =~= ((enc_tentry(es[0]) + seq![44u8]
                + enc_tlist(es.drop_first().drop_last())) + seq![44u8] + enc_tentry(es.last())));
        }
    }
}

proof fn lemma_digit_end_bounds(s: Seq<u8>, i: int)
    requires
        0 <= i <= s.len(),
    ensures
        i <= digit_end(s, i) <= s.len(),
        digit_end(s, i) == s.len() || !is_digit(s[digit_end(s, i)]),
    decreases s.len() - i,
{
    if i < s.len() && is_digit(s[i]) {
        lemma_digit_end_bounds(s, i + 1);
    }
}

proof fn lemma_quote_end_bounds(s: Seq<u8>, i: int)
    requires
        0 <= i <= s.len(),
    ensures
        i <= quote_end(s, i) <= s.len(),
        quote_end(s, i) == s.len() || s[quote_end(s, i)] == 34,
        forall|k: int| i <= k < quote_end(s, i) ==> s[k] != 34,
    decreases s.len() - i,
{
    if i < s.len() && s[i] != 34 {
        lemma_quote_end_bounds(s, i + 1);
    }
}

/// Parse an unsigned decimal number at `i`.
pub fn parse_u64(b: &[u8], i: usize) -> (r: Option<(u64, usize)>)
    requires
        i <= b@.len(),
    ensures
        sp_u64(b@, i as int) == (match r {
            Some((v, j)) => Some((v, j as int)),
            None => None::<(u64, int)>,
        }),
        r matches Some(p) ==> i < p.1 <= b@.len(),
{
    let n = b.len();
    let mut j: usize = i;
    let mut v: u64 = 0;
    let mut overflow: bool = false;
    while j < n && 48 <= b[j] && b[j] <= 57
        invariant
            i <= j <= n,
            n == b@.len(),
            digit_end(b@, i as int) == digit_end(b@, j as int),
            !overflow ==> v == digits_val(b@, i as int, j as int),
            overflow ==> digits_val(b@, i as int, j as int) > u64::MAX,
        decreases n - j,
    {
        let d: u64 = (b[j] - 48) as u64;
        proof {
            assert(digits_val(b@, i as int, j + 1) == digits_val(b@, i as int, j as int) * 10 + d);
        }
        if !overflow {
            if v > (u64::MAX - d) / 10 {
                overflow = true;
            } else {
                v = v * 10 + d;
            }
        }
        j += 1;
    }
    proof {
        assert(digit_end(b@, j as int) == j);
    }
    if j == i || overflow {
        return None;
    }
    Some((v, j))
}

/// Parse a signed decimal number at `i`.
pub fn parse_i64(b: &[u8], i: usize) -> (r: Option<(i64, usize)>)
    requires
        i <= b@.len(),
    ensures
        sp_i64(b@, i as int) == (match r {
            Some((v, j)) => Some((v, j as int)),
            None => None::<(i64, int)>,
        }),
        r matches Some(p) ==> i < p.1 <= b@.len(),
{
    if i < b.len() && b[i] == 45 {
        match parse_u64(b, i + 1) {
            None => None,
            Some((v, j)) => {
                if v > 9223372036854775808u64 {
                    None
                } else if v == 9223372036854775808u64 {
                    Some((i64::MIN, j))
                } else {
                    Some((-(v as i64), j))
                }
            },
        }
    } else {
        match parse_u64(b, i) {
            None => None,
            Some((v, j)) => {
                if v > (i64::MAX as u64) {
                    None
                } else {
                    Some((v as i64, j))
                }
            },
        }
    }
}

/// Parse a quoted id's text at `i`, stopping at the closing quote.
pub fn parse_id(b: &[u8], i: usize) -> (r: Option<(Vec<u8>, usize)>)
    requires
        i <= b@.len(),
    ensures
        match (r, sp_id(b@, i as int)) {
            (Some(p), Some(sp)) => p.0@ == sp.0 && p.1 as int == sp.1,
            (None, None) => true,
            _ => false,
        },
        r matches Some(p) ==> i <= p.1 < b@.len(),
{
    let n = b.len();
    let mut j: usize = i;
    let mut id: Vec<u8> = Vec::new();
    while j < n && b[j] != 34
        invariant
            i <= j <= n,
            n == b@.len(),
            quote_end(b@, i as int) == quote_end(b@, j as int),
            id@ == b@.subrange(i as int, j as int),
        decreases n - j,
    {
        id.push(b[j]);
        j += 1;
        assert(id@ =~= b@.subrange(i as int, j as int));
    }
    proof {
        assert(quote_end(b@, j as int) == j);
    }
    if j == n {
        return None;
    }
    Some((id, j))
}

/// Parse one Section entry at `i`.
pub fn parse_sentry(b: &[u8], i: usize) -> (r: Option<(SectionEntry, usize)>)
    requires
        i <= b@.len(),
    ensures
        match (r, sp_sentry(b@, i as int)) {
            (Some(p), Some(sp)) => p.0@ == sp.0 && p.1 as int == sp.1,
            (None, None) => true,
            _ => false,
        },
        r matches Some(p) ==> i < p.1 <= b@.len(),
{
    if i >= b.len() || b[i] != 91 {
        return None;
    }
    let (ts, j1) = match parse_i64(b, i + 1) {
        Some(p) => p,
        None => {
            return None;
        },
    };
    if !(j1 < b.len() && b[j1] == 44) {
        return None;
    }
    if !(j1 + 1 < b.len() && b[j1 + 1] == 34) {
        return None;
    }
    let (id, j2) = match parse_id(b, j1 + 2) {
        Some(p) => p,
        None => {
            return None;
        },
    };
    if !(j2 + 1 < b.len() && b[j2 + 1] == 44) {
        return None;
    }
    let (w, j3) = match parse_i64(b, j2 + 2) {
        Some(p) => p,
        None => {
            return None;
        },
    };
    if !(j3 < b.len() && b[j3] == 44) {
        return None;
    }
    let (h, j4) = match parse_i64(b, j3 + 1) {
        Some(p) => p,
        None => {
            return None;
        },
    };
    if !(j4 < b.len() && b[j4] == 93) {
        return None;
    }
    if w < i32::MIN as i64 || w > i32::MAX as i64 || h < i32::MIN as i64 || h > i32::MAX as i64 {
        return None;
    }
    Some(
        (
            SectionEntry {
                time_stamp: ts,
                file_id: id,
                width: w as i32,
                height: h as i32,
            },
            j4 + 1,
        ),
    )
}

/// Parse one Top entry at `i`.
pub fn parse_tentry(b: &[u8], i: usize) -> (r: Option<(TopEntry, usize)>)
    requires
        i <= b@.len(),
    ensures
        match (r, sp_tentry(b@, i as int)) {
            (Some(p), Some(sp)) => p.0@ == sp.0 && p.1 as int == sp.1,
            (None, None) => true,
            _ => false,
        },
        r matches Some(p) ==> i < p.1 <= b@.len(),
{
    if i >= b.len() || b[i] != 91 {
        return None;
    }
    let (day, j1) = match parse_i64(b, i + 1) {
        Some(p) => p,
        None => {
            return None;
        },
    };
    if !(j1 < b.len() && b[j1] == 44) {
        return None;
    }
    let (fid, j2) = match parse_u64(b, j1 + 1) {
        Some(p) => p,
        None => {
            return None;
        },
    };
    if !(j2 < b.len() && b[j2] == 44) {
        return None;
    }
    let (n, j3) = match parse_u64(b, j2 + 1) {
        Some(p) => p,
        None => {
            return None;
        },
    };
    if !(j3 < b.len() && b[j3] == 93) {
        return None;
    }
    if n > usize::MAX as u64 {
        return None;
    }
    Some((TopEntry { day, fragment_id: fid, length: n as usize }, j3 + 1))
}

/// Parse a whole Section; mirrors `sp_section`.
pub fn parse_section(b: &[u8]) -> (r: Option<Vec<SectionEntry>>)
    ensures
        match (r, sp_section(b@)) {
            (Some(v), Some(sv)) => entries_view(v@) == sv,
            (None, None) => true,
            _ => false,
        },
{
    if b.len() < 2 || b[0] != 91 {
        return None;
    }
    if b[1] == 93 {
        if b.len() == 2 {
            let empty: Vec<SectionEntry> = Vec::new();
            assert(entries_view(empty@) =~= Seq::<SectionEntryV>::empty());
            return Some(empty);
        } else {
            return None;
        }
    }
    let mut acc: Vec<SectionEntry> = Vec::new();
    let mut cur: usize = 1;
    loop
        invariant
            1 <= cur <= b@.len(),
            b@.len() >= 2,
            b@[0] == 91,
            b@[1] != 93,
            sp_sentries(b@, 1) == (match sp_sentries(b@, cur as int) {
                Some(p) => Some((entries_view(acc@) + p.0, p.1)),
                None => None::<(Seq<SectionEntryV>, int)>,
            }),
        decreases b@.len() - cur,
    {
        let (e, j) = match parse_sentry(b, cur) {
            Some(p) => p,
            None => {
                proof {
                    assert(sp_sentries(b@, cur as int) is None);
                    assert(sp_sentries(b@, 1) is None);
                    assert(sp_section(b@) is None);
                }
                return None;
            },
        };
        let ghost pre = acc@;
        acc.push(e);
        proof {
            assert(entries_view(acc@) =~= entries_view(pre).push(e@));
        }
        if j < b.len() && b[j] == 44 {
            cur = j + 1;
            proof {
                match sp_sentries(b@, cur as int) {
                    Some(p) => {
                        assert(entries_view(pre) + (seq![e@] + p.0) =~= entries_view(acc@) + p.0);
                    },
                    None => {},
                }
            }
        } else if j < b.len() && b[j] == 93 {
            proof {
                assert(entries_view(pre) + seq![e@] =~= entries_view(acc@));
            }
            if j + 1 == b.len() {
                proof {
                    assert(entries_view(acc@) + Seq::<SectionEntryV>::empty() =~= entries_view(
                        acc@,
                    ));
                    match sp_sentries(b@, 1) {
                        Some(p) => {
                            assert(p.0 =~= entries_view(acc@));
                        },
                        None => {},
                    }
                }
                return Some(acc);
            } else {
                return None;
            }
        } else {
            return None;
        }
    }
}

/// Parse a whole Top; mirrors `sp_top`.
pub fn parse_top(b: &[u8]) -> (r: Option<Vec<TopEntry>>)
    ensures
        match (r, sp_top(b@)) {
            (Some(v), Some(sv)) => top_view(v@) == sv,
            (None, None) => true,
            _ => false,
        },
{
    if b.len() < 2 || b[0] != 91 {
        return None;
    }
    if b[1] == 93 {
        if b.len() == 2 {
            let empty: Vec<TopEntry> = Vec::new();
            assert(top_view(empty@) =~= Seq::<TopEntryV>::empty());
            return Some(empty);
        } else {
            return None;
        }
    }
    let mut acc: Vec<TopEntry> = Vec::new();
    let mut cur: usize = 1;
    loop
        invariant
            1 <= cur <= b@.len(),
            b@.len() >= 2,
            b@[0] == 91,
            b@[1] != 93,
            sp_tentries(b@, 1) == (match sp_tentries(b@, cur as int) {
                Some(p) => Some((top_view(acc@) + p.0, p.1)),
                None => None::<(Seq<TopEntryV>, int)>,
            }),
        decreases b@.len() - cur,
    {
        let (e, j) = match parse_tentry(b, cur) {
            Some(p) => p,
            None => {
                proof {
                    assert(sp_tentries(b@, cur as int) is None);
                    assert(sp_tentries(b@, 1) is None);
                    assert(sp_top(b@) is None);
                }
                return None;
            },
        };
        let ghost pre = acc@;
        acc.push(e);
        proof {
            assert(top_view(acc@) =~= top_view(pre).push(e@));
        }
        if j < b.len() && b[j] == 44 {
            cur = j + 1;
            proof {
                match sp_tentries(b@, cur as int) {
                    Some(p) => {
                        assert(top_view(pre) + (seq![e@] + p.0) =~= top_view(acc@) + p.0);
                    },
                    None => {},
                }
            }
        } else if j < b.len() && b[j] == 93 {
            proof {
                assert(top_view(pre) + seq![e@] =~= top_view(acc@));
            }
            if j + 1 == b.len() {
                proof {
                    assert(top_view(acc@) + Seq::<TopEntryV>::empty() =~= top_view(acc@));
                    match sp_tentries(b@, 1) {
                        Some(p) => {
                            assert(p.0 =~= top_view(acc@));
                        },
                        None => {},
                    }
                }
                return Some(acc);
            } else {
                return None;
            }
        } else {
            return None;
        }
    }
}

/// The bytes of `t` stand in `s` at position `i`.
pub open spec fn at(s: Seq<u8>, i: int, t: Seq<u8>) -> bool {
    0 <= i && i + t.len() <= s.len() && s.subrange(i, i + t.len()) == t
}

pub proof fn lemma_at_split(s: Seq<u8>, i: int, t1: Seq<u8>, t2: Seq<u8>)
    requires
        at(s, i, t1 + t2),
    ensures
        at(s, i, t1),
        at(s, i + t1.len(), t2),
{
    let t = t1 + t2;
    assert forall|k: int| 0 <= k < t1.len() implies s.subrange(i, i + t1.len())[k] == t1[k] by {
        assert(s[i + k] == s.subrange(i, i + t.len())[k]);
        assert(t[k] == t1[k]);
    }
    assert(s.subrange(i, i + t1.len()) =~= t1);
    assert forall|k: int|
        0 <= k < t2.len() implies s.subrange(i + t1.len(), i + t.len())[k] == t2[k] by {
        assert(s[i + t1.len() + k] == s.subrange(i, i + t.len())[t1.len() + k]);
        assert(t[t1.len() + k] == t2[k]);
    }
    assert(s.subrange(i + t1.len(), i + t.len()) =~= t2);
}

proof fn lemma_dec_digits(n: nat)
    ensures
        dec_u64(n).len() >= 1,
        forall|k: int| 0 <= k < dec_u64(n).len() ==> is_digit(#[trigger] dec_u64(n)[k]),
    decreases n,
{
    if n >= 10 {
        lemma_dec_digits(n / 10);
    }
}

proof fn lemma_digits_val_congruent(s1: Seq<u8>, i1: int, s2: Seq<u8>, i2: int, m: int)
    requires
        0 <= m,
        0 <= i1,
        0 <= i2,
        forall|k: int| 0 <= k < m ==> #[trigger] s1[i1 + k] == s2[i2 + k],
    ensures
        digits_val(s1, i1, i1 + m) == digits_val(s2, i2, i2 + m),
    decreases m,
{
    if m > 0 {
        lemma_digits_val_congruent(s1, i1, s2, i2, m - 1);
        assert(s1[i1 + (m - 1)] == s2[i2 + (m - 1)]);
    }
}

proof fn lemma_dval_dec(n: nat)
    ensures
        digits_val(dec_u64(n), 0, dec_u64(n).len() as int) == n,
    decreases n,
{
    let d = dec_u64(n);
    if n < 10 {
        assert(digits_val(d, 0, 0) == 0);
        assert(d[0] == (48 + n) as u8);
        assert(digits_val(d, 0, 1) == n);
    } else {
        lemma_dval_dec(n / 10);
        let pre = dec_u64(n / 10);
        lemma_dec_digits(n / 10);
        assert(d == pre + seq![(48 + n % 10) as u8]);
        assert(d[d.len() - 1] == (48 + n % 10) as u8);
        assert(forall|k: int| 0 <= k < pre.len() ==> #[trigger] d[0 + k] == pre[0 + k]);
        lemma_digits_val_congruent(d, 0, pre, 0, pre.len() as int);
        assert(digits_val(d, 0, d.len() as int) == digits_val(d, 0, d.len() - 1) * 10 + (n % 10));
    }
}

proof fn lemma_digit_end_run(s: Seq<u8>, i: int, k: int)
    requires
        0 <= i <= k <= s.len(),
        forall|j: int| i <= j < k ==> is_digit(#[trigger] s[j]),
        k == s.len() || !is_digit(s[k]),
    ensures
        digit_end(s, i) == k,
    decreases k - i,
{
    if i < k {
        lemma_digit_end_run(s, i + 1, k);
    }
}

proof fn lemma_quote_end_run(s: Seq<u8>, i: int, k: int)
    requires
        0 <= i <= k < s.len(),
        forall|j: int| i <= j < k ==> #[trigger] s[j] != 34,
        s[k] == 34,
    ensures
        quote_end(s, i) == k,
    decreases k - i,
{
    if i < k {
        lemma_quote_end_run(s, i + 1, k);
    }
}

proof fn lemma_sp_u64_at(s: Seq<u8>, i: int, n: u64)
    requires
        at(s, i, dec_u64(n as nat)),
        i + dec_u64(n as nat).len() == s.len() || !is_digit(s[i + dec_u64(n as nat).len()]),
    ensures
        sp_u64(s, i) == Some((n, i + dec_u64(n as nat).len())),
{
    let d = dec_u64(n as nat);
    let ln = d.len() as int;
    lemma_dec_digits(n as nat);
    assert(forall|j: int| i <= j < i + ln ==> is_digit(#[trigger] s[j])) by {
        assert(forall|j: int|
            i <= j < i + ln ==> #[trigger] s[j] == s.subrange(i, i + ln)[j - i]);
    }
    lemma_digit_end_run(s, i, i + ln);
    assert(forall|k: int| 0 <= k < ln ==> #[trigger] s[i + k] == d[0 + k]) by {
        assert(forall|k: int| 0 <= k < ln ==> #[trigger] d[k] == s.subrange(i, i + ln)[k]);
    }
    lemma_digits_val_congruent(s, i, d, 0, ln);
    lemma_dval_dec(n as nat);
    assert(digits_val(s, i, i + ln) == n as nat);
}

proof fn lemma_sp_i64_at(s: Seq<u8>, i: int, n: int)
    requires
        i64::MIN <= n <= i64::MAX,
        at(s, i, dec_i64(n)),
        i + dec_i64(n).len() == s.len() || !is_digit(s[i + dec_i64(n).len()]),
    ensures
        sp_i64(s, i) == Some((n as i64, i + dec_i64(n).len())),
{
    if n < 0 {
        let m = (-n) as nat;
        let mu = m as u64;
        assert(dec_i64(n) == seq![45u8] + dec_u64(m));
        lemma_at_split(s, i, seq![45u8], dec_u64(m));
        assert(s[i] == s.subrange(i, i + 1)[0]);
        assert(s[i] == 45);
        assert(dec_u64(mu as nat) == dec_u64(m));
        lemma_sp_u64_at(s, i + 1, mu);
        assert(sp_u64(s, i + 1) == Some((mu, i + 1 + dec_u64(m).len())));
        assert(!(mu as nat > 9223372036854775808nat));
        assert((0 - mu as int) as i64 == n as i64);
    } else {
        assert(dec_i64(n) == dec_u64(n as nat));
        lemma_dec_digits(n as nat);
        assert(s[i] == s.subrange(i, i + dec_i64(n).len())[0]);
        assert(is_digit(s[i]));
        assert(s[i] != 45);
        lemma_sp_u64_at(s, i, n as u64);
    }
}

/// A well-formed Section entry: machine-range numbers and a proper id.
pub open spec fn wf_sentry(e: SectionEntryV) -> bool {
    i64::MIN <= e.time_stamp <= i64::MAX && i32::MIN <= e.width <= i32::MAX && i32::MIN <= e.height
        <= i32::MAX && crate::keys::valid_id(e.file_id)
}

/// A well-formed Top entry.
pub open spec fn wf_tentry(e: TopEntryV) -> bool {
    i64::MIN <= e.day <= i64::MAX && 0 <= e.fragment_id <= u64::MAX && 0 <= e.length
        <= usize::MAX
}

proof fn lemma_sp_sentry_at(s: Seq<u8>, i: int, e: SectionEntryV)
    requires
        wf_sentry(e),
        at(s, i, enc_sentry(e)),
    ensures
        sp_sentry(s, i) == Some((e, i + enc_sentry(e).len())),
{
    let p1 = seq![91u8];
    let p2 = dec_i64(e.time_stamp);
    let p3 = seq![44u8, 34u8];
    let p4 = e.file_id;
    let p5 = seq![34u8, 44u8];
    let p6 = dec_i64(e.width);
    let p7 = seq![44u8];
    let p8 = dec_i64(e.height);
    let p9 = seq![93u8];
    assert(enc_sentry(e) == p1 + p2 + p3 + p4 + p5 + p6 + p7 + p8 + p9);
    let i1 = i + p1.len();
    let i2 = i1 + p2.len();
    let i3 = i2 + p3.len();
    let i4 = i3 + p4.len();
    let i5 = i4 + p5.len();
    let i6 = i5 + p6.len();
    let i7 = i6 + p7.len();
    let i8 = i7 + p8.len();
    let i9 = i8 + p9.len();
    lemma_at_split(s, i, p1 + p2 + p3 + p4 + p5 + p6 + p7 + p8, p9);
    lemma_at_split(s, i, p1 + p2 + p3 + p4 + p5 + p6 + p7, p8);
    lemma_at_split(s, i, p1 + p2 + p3 + p4 + p5 + p6, p7);
    lemma_at_split(s, i, p1 + p2 + p3 + p4 + p5, p6);
    lemma_at_split(s, i, p1 + p2 + p3 + p4, p5);
    lemma_at_split(s, i, p1 + p2 + p3, p4);
    lemma_at_split(s, i, p1 + p2, p3);
    lemma_at_split(s, i, p1, p2);
    assert(s[i] == s.subrange(i, i1)[0]);
    assert(s[i] == 91);
    assert(s[i2] == s.subrange(i2, i3)[0] && s[i2 + 1] == s.subrange(i2, i3)[1]);
    assert(s[i2] == 44 && s[i2 + 1] == 34);
    assert(s[i4] == s.subrange(i4, i5)[0] && s[i4 + 1] == s.subrange(i4, i5)[1]);
    assert(s[i4] == 34 && s[i4 + 1] == 44);
    assert(s[i6] == s.subrange(i6, i7)[0]);
    assert(s[i6] == 44);
    assert(s[i8] == s.subrange(i8, i9)[0]);
    assert(s[i8] == 93);
    lemma_sp_i64_at(s, i + 1, e.time_stamp);
    assert(sp_i64(s, i + 1) == Some((e.time_stamp as i64, i2)));
    assert(forall|j: int| i3 <= j < i4 ==> #[trigger] s[j] != 34) by {
        assert(forall|j: int| i3 <= j < i4 ==> #[trigger] s[j] == s.subrange(i3, i4)[j - i3]);
        assert(forall|k: int|
            0 <= k < p4.len() ==> crate::keys::id_byte(#[trigger] p4[k]) && p4[k] != 34);
    }
    lemma_quote_end_run(s, i3, i4);
    assert(sp_id(s, i3) == Some((s.subrange(i3, i4), i4)));
    assert(s.subrange(i3, i4) == p4);
    lemma_sp_i64_at(s, i4 + 2, e.width);
    assert(sp_i64(s, i4 + 2) == Some((e.width as i64, i6)));
    lemma_sp_i64_at(s, i6 + 1, e.height);
    assert(sp_i64(s, i6 + 1) == Some((e.height as i64, i8)));
    assert(sp_sentry(s, i) == Some(
        (
            SectionEntryV {
                time_stamp: e.time_stamp as i64 as int,
                file_id: p4,
                width: e.width as i64 as int,
                height: e.height as i64 as int,
            },
            i8 + 1,
        ),
    ));
    assert(SectionEntryV {
        time_stamp: e.time_stamp as i64 as int,
        file_id: p4,
        width: e.width as i64 as int,
        height: e.height as i64 as int,
    } == e);
}

proof fn lemma_sp_tentry_at(s: Seq<u8>, i: int, e: TopEntryV)
    requires
        wf_tentry(e),
        at(s, i, enc_tentry(e)),
    ensures
        sp_tentry(s, i) == Some((e, i + enc_tentry(e).len())),
{
    let p1 = seq![91u8];
    let p2 = dec_i64(e.day);
    let p3 = seq![44u8];
    let p4 = dec_i64(e.fragment_id);
    let p5 = seq![44u8];
    let p6 = dec_i64(e.length);
    let p7 = seq![93u8];
    assert(enc_tentry(e) == p1 + p2 + p3 + p4 + p5 + p6 + p7);
    let i1 = i + p1.len();
    let i2 = i1 + p2.len();
    let i3 = i2 + p3.len();
    let i4 = i3 + p4.len();
    let i5 = i4 + p5.len();
    let i6 = i5 + p6.len();
    let i7 = i6 + p7.len();
    lemma_at_split(s, i, p1 + p2 + p3 + p4 + p5 + p6, p7);
    lemma_at_split(s, i, p1 + p2 + p3 + p4 + p5, p6);
    lemma_at_split(s, i, p1 + p2 + p3 + p4, p5);
    lemma_at_split(s, i, p1 + p2 + p3, p4);
    lemma_at_split(s, i, p1 + p2, p3);
    lemma_at_split(s, i, p1, p2);
    assert(s[i] == s.subrange(i, i1)[0]);
    assert(s[i] == 91);
    assert(s[i2] == s.subrange(i2, i3)[0]);
    assert(s[i2] == 44);
    assert(s[i4] == s.subrange(i4, i5)[0]);
    assert(s[i4] == 44);
    assert(s[i6] == s.subrange(i6, i7)[0]);
    assert(s[i6] == 93);
    lemma_sp_i64_at(s, i + 1, e.day);
    assert(sp_i64(s, i + 1) == Some((e.day as i64, i2)));
    assert(dec_i64(e.fragment_id) == dec_u64(e.fragment_id as nat));
    assert(dec_u64((e.fragment_id as u64) as nat) == dec_u64(e.fragment_id as nat));
    lemma_sp_u64_at(s, i3, e.fragment_id as u64);
    assert(sp_u64(s, i3) == Some((e.fragment_id as u64, i4)));
    assert(dec_i64(e.length) == dec_u64(e.length as nat));
    assert(dec_u64((e.length as u64) as nat) == dec_u64(e.length as nat));
    lemma_sp_u64_at(s, i5, e.length as u64);
    assert(sp_u64(s, i5) == Some((e.length as u64, i6)));
    assert(sp_tentry(s, i) == Some(
        (
            TopEntryV {
                day: e.day as i64 as int,
                fragment_id: e.fragment_id as u64 as int,
                length: e.length as u64 as usize as int,
            },
            i6 + 1,
        ),
    ));
    assert(TopEntryV {
        day: e.day as i64 as int,
        fragment_id: e.fragment_id as u64 as int,
        length: e.length as u64 as usize as int,
    } == e);
}

proof fn lemma_sp_sentries_enc(s: Seq<u8>, i: int, es: Seq<SectionEntryV>)
    requires
        es.len() >= 1,
        forall|k: int| 0 <= k < es.len() ==> wf_sentry(#[trigger] es[k]),
        at(s, i, enc_slist(es) + seq![93u8]),
        i + (enc_slist(es) + seq![93u8]).len() == s.len(),
    ensures
        sp_sentries(s, i) == Some((es, s.len() as int)),
    decreases es.len(),
{
    if es.len() == 1 {
        lemma_at_split(s, i, enc_sentry(es[0]), seq![93u8]);
        lemma_sp_sentry_at(s, i, es[0]);
        let j = i + enc_sentry(es[0]).len();
        assert(s[j] == s.subrange(j, j + 1)[0]);
        assert(s[j] == 93);
        assert(j + 1 == s.len());
        assert(seq![es[0]] =~= es);
    } else {
        assert(enc_slist(es) == enc_sentry(es[0]) + seq![44u8] + enc_slist(es.drop_first()));
        assert((enc_sentry(es[0]) + seq![44u8] + enc_slist(es.drop_first())) + seq![93u8]
            =~= enc_sentry(es[0]) + (seq![44u8] + (enc_slist(es.drop_first()) + seq![93u8])));
        lemma_at_split(s, i, enc_sentry(es[0]), seq![44u8] + (enc_slist(es.drop_first())
            + seq![93u8]));
        let j = i + enc_sentry(es[0]).len();
        lemma_at_split(s, j, seq![44u8], enc_slist(es.drop_first()) + seq![93u8]);
        lemma_sp_sentry_at(s, i, es[0]);
        assert(s[j] == s.subrange(j, j + 1)[0]);
        assert(s[j] == 44);
        assert(forall|k: int| 0 <= k < es.drop_first().len() ==> wf_sentry(
            #[trigger] es.drop_first()[k],
        ));
        lemma_sp_sentries_enc(s, j + 1, es.drop_first());
        assert(seq![es[0]] + es.drop_first() =~= es);
    }
}

proof fn lemma_sp_tentries_enc(s: Seq<u8>, i: int, es: Seq<TopEntryV>)
    requires
        es.len() >= 1,
        forall|k: int| 0 <= k < es.len() ==> wf_tentry(#[trigger] es[k]),
        at(s, i, enc_tlist(es) + seq![93u8]),
        i + (enc_tlist(es) + seq![93u8]).len() == s.len(),
    ensures
        sp_tentries(s, i) == Some((es, s.len() as int)),
    decreases es.len(),
{
    if es.len() == 1 {
        lemma_at_split(s, i, enc_tentry(es[0]), seq![93u8]);
        lemma_sp_tentry_at(s, i, es[0]);
        let j = i + enc_tentry(es[0]).len();
        assert(s[j] == s.subrange(j, j + 1)[0]);
        assert(s[j] == 93);
        assert(j + 1 == s.len());
        assert(seq![es[0]] =~= es);
    } else {
        assert(enc_tlist(es) == enc_tentry(es[0]) + seq![44u8] + enc_tlist(es.drop_first()));
        assert((enc_tentry(es[0]) + seq![44u8] + enc_tlist(es.drop_first())) + seq![93u8]
            =~= enc_tentry(es[0]) + (seq![44u8] + (enc_tlist(es.drop_first()) + seq![93u8])));
        lemma_at_split(s, i, enc_tentry(es[0]), seq![44u8] + (enc_tlist(es.drop_first())
            + seq![93u8]));
        let j = i + enc_tentry(es[0]).len();
        lemma_at_split(s, j, seq![44u8], enc_tlist(es.drop_first()) + seq![93u8]);
        lemma_sp_tentry_at(s, i, es[0]);
        assert(s[j] == s.subrange(j, j + 1)[0]);
        assert(s[j] == 44);
        assert(forall|k: int| 0 <= k < es.drop_first().len() ==> wf_tentry(
            #[trigger] es.drop_first()[k],
        ));
        lemma_sp_tentries_enc(s, j + 1, es.drop_first());
        assert(seq![es[0]] + es.drop_first() =~= es);
    }
}

/// The round trip: a well-formed Section's encoding parses back to it.
pub proof fn lemma_parse_section_enc(es: Seq<SectionEntryV>)
    requires
        forall|k: int| 0 <= k < es.len() ==> wf_sentry(#[trigger] es[k]),
    ensures
        sp_section(enc_section(es)) == Some(es),
{
    let s = enc_section(es);
    assert(s[0] == 91);
    if es.len() == 0 {
        assert(enc_slist(es) == Seq::<u8>::empty());
        assert(s =~= seq![91u8, 93u8]);
        assert(sp_section(s) == Some(Seq::<SectionEntryV>::empty()));
        assert(Seq::<SectionEntryV>::empty() =~= es);
    } else {
        assert(s[1] == enc_sentry(es[0])[0]) by {
            if es.len() == 1 {
                assert(enc_slist(es) == enc_sentry(es[0]));
            }
            assert(enc_slist(es)[0] == enc_sentry(es[0])[0]);
            assert(s[1] == enc_slist(es)[0]);
        }
        assert(enc_sentry(es[0])[0] == 91);
        assert(s[1] != 93);
        assert(s =~= seq![91u8] + (enc_slist(es) + seq![93u8]));
        assert(s.subrange(0, s.len() as int) =~= s);
        lemma_at_split(s, 0, seq![91u8], enc_slist(es) + seq![93u8]);
        lemma_sp_sentries_enc(s, 1, es);
    }
}

/// The round trip: a well-formed Top's encoding parses back to it.
pub proof fn lemma_parse_top_enc(es: Seq<TopEntryV>)
    requires
        forall|k: int| 0 <= k < es.len() ==> wf_tentry(#[trigger] es[k]),
    ensures
        sp_top(enc_top(es)) == Some(es),
{
    let s = enc_top(es);
    assert(s[0] == 91);
    if es.len() == 0 {
        assert(enc_tlist(es) == Seq::<u8>::empty());
        assert(s =~= seq![91u8, 93u8]);
        assert(sp_top(s) == Some(Seq::<TopEntryV>::empty()));
        assert(Seq::<TopEntryV>::empty() =~= es);
    } else {
        assert(s[1] == enc_tentry(es[0])[0]) by {
            if es.len() == 1 {
                assert(enc_tlist(es) == enc_tentry(es[0]));
            }
            assert(enc_tlist(es)[0] == enc_tentry(es[0])[0]);
            assert(s[1] == enc_tlist(es)[0]);
        }
        assert(enc_tentry(es[0])[0] == 91);
        assert(s[1] != 93);
        assert(s =~= seq![91u8] + (enc_tlist(es) + seq![93u8]));
        assert(s.subrange(0, s.len() as int) =~= s);
        lemma_at_split(s, 0, seq![91u8], enc_tlist(es) + seq![93u8]);
        lemma_sp_tentries_enc(s, 1, es);
    }
}

} // verus!
