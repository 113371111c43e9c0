//! Key algebra of the catalog.
//!
//! Ids are URL-safe base64 text, so they never contain the `'.'` separator;
//! composite keys join two components with one `'.'`.  The lemmas here are
//! what makes prefix scans and the mirror invariants sound: composition is
//! injective and a composite key starts with `a '.'` exactly when its first
//! component is `a`.

use vstd::prelude::*;

verus! {

/// The in-band separator of composite keys.
pub const SEP: u8 = 0x2E;

/// Bytes allowed in an id: the URL-safe base64 alphabet.
pub open spec fn id_byte(b: u8) -> bool {
    (65 <= b && b <= 90) || (97 <= b && b <= 122) || (48 <= b && b <= 57) || b == 45 || b == 95
}

/// An id: non-empty URL-safe base64 text.
pub open spec fn valid_id(s: Seq<u8>) -> bool {
    s.len() > 0 && forall|i: int| 0 <= i < s.len() ==> id_byte(#[trigger] s[i])
}

/// No separator anywhere in `s`.
pub open spec fn dot_free(s: Seq<u8>) -> bool {
    forall|i: int| 0 <= i < s.len() ==> #[trigger] s[i] != SEP
}

pub proof fn lemma_valid_id_dot_free(s: Seq<u8>)
    requires
        valid_id(s),
    ensures
        dot_free(s),
{
    assert forall|i: int| 0 <= i < s.len() implies #[trigger] s[i] != SEP by {
        assert(id_byte(s[i]));
    }
}

/// `a '.' b`.
pub open spec fn compose(a: Seq<u8>, b: Seq<u8>) -> Seq<u8> {
    a + seq![SEP] + b
}

/// `a '.'`: what a prefix scan for the first component `a` uses.
pub open spec fn prefixed(a: Seq<u8>) -> Seq<u8> {
    a + seq![SEP]
}

/// `k` starts with `p`.
pub open spec fn has_prefix(k: Seq<u8>, p: Seq<u8>) -> bool {
    k.len() >= p.len() && k.subrange(0, p.len() as int) == p
}

pub fn compose_key(a: &[u8], b: &[u8]) -> (r: Vec<u8>)
    ensures
        r@ == compose(a@, b@),
{
    let mut r: Vec<u8> = Vec::new();
    r.extend_from_slice(a);
    r.push(SEP);
    r.extend_from_slice(b);
    assert(r@ =~= compose(a@, b@));
    r
}

pub fn prefix_key(a: &[u8]) -> (r: Vec<u8>)
    ensures
        r@ == prefixed(a@),
{
    let mut r: Vec<u8> = Vec::new();
    r.extend_from_slice(a);
    r.push(SEP);
    assert(r@ =~= prefixed(a@));
    r
}

/// With a dot-free first component, composition is injective in both parts.
pub proof fn lemma_compose_injective(a1: Seq<u8>, b1: Seq<u8>, a2: Seq<u8>, b2: Seq<u8>)
    requires
        dot_free(a1),
        dot_free(a2),
        compose(a1, b1) == compose(a2, b2),
    ensures
        a1 == a2,
        b1 == b2,
{
    let k = compose(a1, b1);
    assert(k[a1.len() as int] == SEP);
    assert(k[a2.len() as int] == SEP);
    if a1.len() < a2.len() {
        assert(compose(a2, b2)[a1.len() as int] == a2[a1.len() as int]);
        assert(false);
    }
    if a2.len() < a1.len() {
        assert(compose(a1, b1)[a2.len() as int] == a1[a2.len() as int]);
        assert(false);
    }
    assert(a1 =~= a2) by {
        assert(forall|i: int| 0 <= i < a1.len() ==> k[i] == a1[i] && k[i] == a2[i]);
    }
    assert(k.len() == a1.len() + 1 + b1.len());
    assert(compose(a2, b2).len() == a2.len() + 1 + b2.len());
    assert(b1.len() == b2.len());
    assert forall|i: int| 0 <= i < b1.len() implies b1[i] == b2[i] by {
        assert(k[a1.len() + 1 + i] == b1[i]);
        assert(compose(a2, b2)[a2.len() + 1 + i] == b2[i]);
    }
    assert(b1 =~= b2);
}

/// A composite key carries the prefix of `a2` exactly when its own first
/// component is `a2`.
pub proof fn lemma_compose_prefix(a1: Seq<u8>, b1: Seq<u8>, a2: Seq<u8>)
    requires
        dot_free(a1),
        dot_free(a2),
    ensures
        has_prefix(compose(a1, b1), prefixed(a2)) <==> a1 == a2,
{
    let k = compose(a1, b1);
    if a1 == a2 {
        assert(k.subrange(0, prefixed(a2).len() as int) =~= prefixed(a2));
    }
    if has_prefix(k, prefixed(a2)) {
        assert(k[a2.len() as int] == prefixed(a2)[a2.len() as int]);
        assert(k[a2.len() as int] == SEP);
        assert(k[a1.len() as int] == SEP);
        if a1.len() < a2.len() {
            assert(prefixed(a2)[a1.len() as int] == a2[a1.len() as int]);
            assert(k[a1.len() as int] == prefixed(a2)[a1.len() as int]);
            assert(false);
        }
        if a2.len() < a1.len() {
            assert(k[a2.len() as int] == a1[a2.len() as int]);
            assert(false);
        }
        assert(a1 =~= a2) by {
            assert(forall|i: int|
                0 <= i < a1.len() ==> k[i] == a1[i] && k[i] == prefixed(a2)[i] && prefixed(a2)[i]
                    == a2[i]);
        }
    }
}

/// The part of a composite key after a known first component.
pub fn key_suffix(k: &[u8], a_len: usize) -> (r: Vec<u8>)
    requires
        a_len < k@.len(),
    ensures
        r@ == k@.subrange(a_len + 1, k@.len() as int),
{
    let n = k.len();
    assert(k@.len() == n);
    let mut r: Vec<u8> = Vec::new();
    let mut i: usize = a_len + 1;
    while i < k.len()
        invariant
            a_len + 1 <= i <= k@.len(),
            k@.len() <= usize::MAX,
            r@ == k@.subrange(a_len + 1, i as int),
        decreases k@.len() - i,
    {
        r.push(k[i]);
        i += 1;
        assert(r@ =~= k@.subrange(a_len + 1, i as int));
    }
    r
}

/// Split a key at its first separator.
pub fn split_key(k: &[u8]) -> (r: Option<(Vec<u8>, Vec<u8>)>)
    ensures
        match r {
            Some(parts) => k@ == compose(parts.0@, parts.1@) && dot_free(parts.0@),
            None => dot_free(k@),
        },
{
    let n = k.len();
    assert(k@.len() == n);
    let mut i: usize = 0;
    while i < k.len()
        invariant
            i <= k@.len(),
            k@.len() <= usize::MAX,
            forall|j: int| 0 <= j < i ==> #[trigger] k@[j] != SEP,
        decreases k@.len() - i,
    {
        if k[i] == SEP {
            let mut a: Vec<u8> = Vec::new();
            let mut j: usize = 0;
            while j < i
                invariant
                    j <= i < k@.len(),
                    a@ == k@.subrange(0, j as int),
                decreases i - j,
            {
                a.push(k[j]);
                j += 1;
                assert(a@ =~= k@.subrange(0, j as int));
            }
            let b = key_suffix(k, i);
            proof {
                assert(forall|j: int| 0 <= j < i ==> #[trigger] a@[j] != SEP);
                assert(k@ =~= compose(a@, b@));
            }
            return Some((a, b));
        }
        i += 1;
    }
    None
}

/// Strict lexicographic order on byte strings.
pub open spec fn bytes_lt(a: Seq<u8>, b: Seq<u8>) -> bool
    decreases a.len(),
{
    if b.len() == 0 {
        false
    } else if a.len() == 0 {
        true
    } else if a[0] < b[0] {
        true
    } else if a[0] > b[0] {
        false
    } else {
        bytes_lt(a.drop_first(), b.drop_first())
    }
}

/// Exactly one of `a < b`, `a == b`, `b < a` holds.
pub proof fn lemma_bytes_lt_trichotomy(a: Seq<u8>, b: Seq<u8>)
    ensures
        bytes_lt(a, b) || bytes_lt(b, a) || a == b,
        bytes_lt(a, b) ==> !bytes_lt(b, a) && a != b,
        bytes_lt(b, a) ==> !bytes_lt(a, b) && a != b,
    decreases a.len(),
{
    if a.len() > 0 && b.len() > 0 && a[0] == b[0] {
        lemma_bytes_lt_trichotomy(a.drop_first(), b.drop_first());
        if a.drop_first() == b.drop_first() {
            assert forall|i: int| 0 <= i < a.len() implies a[i] == b[i] by {
                if i > 0 {
                    assert(a.drop_first()[i - 1] == b.drop_first()[i - 1]);
                }
            }
            assert(a =~= b);
        }
        if a == b {
            assert(a.drop_first() =~= b.drop_first());
        }
    } else {
        if a == b && a.len() > 0 {
            assert(a[0] == b[0]);
        }
    }
}

/// Lexicographic order is transitive.
pub proof fn lemma_bytes_lt_trans(a: Seq<u8>, b: Seq<u8>, c: Seq<u8>)
    requires
        bytes_lt(a, b),
        bytes_lt(b, c),
    ensures
        bytes_lt(a, c),
    decreases a.len(),
{
    if a.len() > 0 && b.len() > 0 && c.len() > 0 && a[0] == b[0] && b[0] == c[0] {
        lemma_bytes_lt_trans(a.drop_first(), b.drop_first(), c.drop_first());
    }
}

/// Compare two byte strings.
pub fn bytes_lt_e(a: &[u8], b: &[u8]) -> (r: bool)
    ensures
        r == bytes_lt(a@, b@),
    decreases a@.len(),
{
    if b.len() == 0 {
        false
    } else if a.len() == 0 {
        true
    } else if a[0] < b[0] {
        true
    } else if a[0] > b[0] {
        false
    } else {
        let r = bytes_lt_e(
            vstd::slice::slice_subrange(a, 1, a.len()),
            vstd::slice::slice_subrange(b, 1, b.len()),
        );
        proof {
            assert(a@.subrange(1, a@.len() as int) =~= a@.drop_first());
            assert(b@.subrange(1, b@.len() as int) =~= b@.drop_first());
        }
        r
    }
}

/// Byte-string equality.
pub fn bytes_eq(a: &[u8], b: &[u8]) -> (r: bool)
    ensures
        r == (a@ == b@),
{
    if a.len() != b.len() {
        return false;
    }
    let n = a.len();
    let mut i: usize = 0;
    while i < n
        invariant
            i <= n,
            n == a@.len() == b@.len(),
            forall|k: int| 0 <= k < i ==> a@[k] == b@[k],
        decreases n - i,
    {
        if a[i] != b[i] {
            return false;
        }
        i += 1;
    }
    proof {
        assert(a@ =~= b@);
    }
    true
}

/// One base64url output byte for a 6-bit value.
pub open spec fn b64_char(v: u8) -> u8 {
    if v < 26 {
        (65 + v) as u8
    } else if v < 52 {
        (97 + (v - 26)) as u8
    } else if v < 62 {
        (48 + (v - 52)) as u8
    } else if v == 62 {
        45u8
    } else {
        95u8
    }
}

/// Unpadded base64url text of `bytes`, three input bytes to four output
/// bytes.
pub open spec fn b64url(bytes: Seq<u8>) -> Seq<u8>
    decreases bytes.len(),
{
    if bytes.len() == 0 {
        Seq::empty()
    } else if bytes.len() == 1 {
        let b0 = bytes[0];
        seq![b64_char((b0 >> 2) as u8), b64_char(((b0 & 3) << 4) as u8)]
    } else if bytes.len() == 2 {
        let b0 = bytes[0];
        let b1 = bytes[1];
        seq![
            b64_char((b0 >> 2) as u8),
            b64_char((((b0 & 3) << 4) | (b1 >> 4)) as u8),
            b64_char(((b1 & 15) << 2) as u8),
        ]
    } else {
        let b0 = bytes[0];
        let b1 = bytes[1];
        let b2 = bytes[2];
        seq![
            b64_char((b0 >> 2) as u8),
            b64_char((((b0 & 3) << 4) | (b1 >> 4)) as u8),
            b64_char((((b1 & 15) << 2) | (b2 >> 6)) as u8),
            b64_char((b2 & 63) as u8),
        ] + b64url(bytes.subrange(3, bytes.len() as int))
    }
}

pub proof fn lemma_b64url_valid(bytes: Seq<u8>)
    requires
        bytes.len() > 0,
    ensures
        valid_id(b64url(bytes)),
    decreases bytes.len(),
{
    let b0 = bytes[0];
    assert(b0 >> 2 < 64 && (b0 & 3) << 4 < 64) by (bit_vector);
    if bytes.len() == 1 {
    } else {
        let b1 = bytes[1];
        assert(((b0 & 3) << 4) | (b1 >> 4) < 64 && (b1 & 15) << 2 < 64) by (bit_vector);
        if bytes.len() == 2 {
        } else {
            let b2 = bytes[2];
            assert((((b1 & 15) << 2) | (b2 >> 6)) < 64 && (b2 & 63) < 64) by (bit_vector);
            if bytes.len() > 3 {
                lemma_b64url_valid(bytes.subrange(3, bytes.len() as int));
            }
        }
    }
    assert forall|i: int| 0 <= i < b64url(bytes).len() implies id_byte(#[trigger] b64url(bytes)[i]) by {
        if bytes.len() > 3 && i >= 4 {
            let tail = b64url(bytes.subrange(3, bytes.len() as int));
            assert(b64url(bytes)[i] == tail[i - 4]);
            assert(id_byte(tail[i - 4]));
        }
    }
}

fn b64_byte(v: u8) -> (r: u8)
    requires
        v < 64,
    ensures
        r == b64_char(v),
{
    if v < 26 {
        65 + v
    } else if v < 52 {
        97 + (v - 26)
    } else if v < 62 {
        48 + (v - 52)
    } else if v == 62 {
        45
    } else {
        95
    }
}

/// Encode bytes as unpadded base64url text.
pub fn b64url_encode(bytes: &[u8]) -> (r: Vec<u8>)
    ensures
        r@ == b64url(bytes@),
    decreases bytes@.len(),
{
    let mut out: Vec<u8> = Vec::new();
    if bytes.len() == 0 {
        assert(out@ =~= b64url(bytes@));
        return out;
    }
    let b0 = bytes[0];
    proof {
        assert(b0 >> 2 < 64 && (b0 & 3) << 4 < 64) by (bit_vector);
    }
    if bytes.len() == 1 {
        out.push(b64_byte(b0 >> 2));
        out.push(b64_byte((b0 & 3) << 4));
        assert(out@ =~= b64url(bytes@));
        return out;
    }
    let b1 = bytes[1];
    proof {
        assert(((b0 & 3) << 4) | (b1 >> 4) < 64 && (b1 & 15) << 2 < 64) by (bit_vector);
    }
    if bytes.len() == 2 {
        out.push(b64_byte(b0 >> 2));
        out.push(b64_byte(((b0 & 3) << 4) | (b1 >> 4)));
        out.push(b64_byte((b1 & 15) << 2));
        assert(out@ =~= b64url(bytes@));
        return out;
    }
    let b2 = bytes[2];
    proof {
        assert((((b1 & 15) << 2) | (b2 >> 6)) < 64 && (b2 & 63) < 64) by (bit_vector);
    }
    out.push(b64_byte(b0 >> 2));
    out.push(b64_byte(((b0 & 3) << 4) | (b1 >> 4)));
    out.push(b64_byte(((b1 & 15) << 2) | (b2 >> 6)));
    out.push(b64_byte(b2 & 63));
    let rest = b64url_encode(vstd::slice::slice_subrange(bytes, 3, bytes.len()));
    let ghost head = out@;
    let rest_n = rest.len();
    assert(rest@.len() == rest_n);
    let mut k: usize = 0;
    while k < rest.len()
        invariant
            k <= rest@.len(),
            rest@.len() <= usize::MAX,
            out@ == head + rest@.subrange(0, k as int),
        decreases rest@.len() - k,
    {
        out.push(rest[k]);
        k += 1;
        assert(out@ =~= head + rest@.subrange(0, k as int));
    }
    proof {
        assert(rest@.subrange(0, rest@.len() as int) =~= rest@);
        assert(out@ =~= b64url(bytes@));
    }
    out
}

/// A fresh random id: unpadded base64url text of `n` random bytes.
pub fn new_id(n: usize) -> (r: Vec<u8>)
    requires
        n >= 1,
    ensures
        valid_id(r@),
{
    let mut bytes: Vec<u8> = Vec::new();
    let mut i: usize = 0;
    while i < n
        invariant
            i <= n,
            bytes@.len() == i,
        decreases n - i,
    {
        bytes.push(crate::kv::random_byte());
        i += 1;
    }
    let r = b64url_encode(bytes.as_slice());
    proof {
        lemma_b64url_valid(bytes@);
    }
    r
}

} // verus!
