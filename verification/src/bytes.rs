//! Byte-level encoding primitives shared by the persistence codec and the
//! fragment key layout: big-endian 64-bit integers and sequences of
//! length-prefixed fields.

use vstd::prelude::*;

verus! {

/// Big-endian bytes of a 64-bit integer.
#[verifier::opaque]
pub open spec fn be8(n: u64) -> Seq<u8> {
    seq![
        (n >> 56) as u8,
        (n >> 48) as u8,
        (n >> 40) as u8,
        (n >> 32) as u8,
        (n >> 24) as u8,
        (n >> 16) as u8,
        (n >> 8) as u8,
        n as u8,
    ]
}

/// The integer read back from eight big-endian bytes.
#[verifier::opaque]
pub open spec fn be8_val(s: Seq<u8>) -> u64
    recommends
        s.len() == 8,
{
    ((s[0] as u64) << 56) | ((s[1] as u64) << 48) | ((s[2] as u64) << 40) | ((s[3] as u64) << 32)
        | ((s[4] as u64) << 24) | ((s[5] as u64) << 16) | ((s[6] as u64) << 8) | (s[7] as u64)
}

pub proof fn lemma_be8_val(n: u64)
    ensures
        be8(n).len() == 8,
        be8_val(be8(n)) == n,
{
    reveal(be8);
    reveal(be8_val);
    assert(((((n >> 56) as u8) as u64) << 56) | ((((n >> 48) as u8) as u64) << 48) | ((((n
        >> 40) as u8) as u64) << 40) | ((((n >> 32) as u8) as u64) << 32) | ((((n
        >> 24) as u8) as u64) << 24) | ((((n >> 16) as u8) as u64) << 16) | ((((n
        >> 8) as u8) as u64) << 8) | ((n as u8) as u64) == n) by (bit_vector);
}

/// Eight big-endian bytes exist for every integer.
pub broadcast proof fn lemma_be8_len(n: u64)
    ensures
        (#[trigger] be8(n)).len() == 8,
{
    reveal(be8);
}

/// Big-endian bytes are unique: equal encodings carry equal integers.
pub proof fn lemma_be8_injective(a: u64, b: u64)
    requires
        be8(a) == be8(b),
    ensures
        a == b,
{
    lemma_be8_val(a);
    lemma_be8_val(b);
}

/// Eight bytes are recovered from the integer they encode.
pub proof fn lemma_be8_of_val(s: Seq<u8>)
    requires
        s.len() == 8,
    ensures
        be8(be8_val(s)) == s,
{
    reveal(be8);
    reveal(be8_val);
    let x0 = s[0];
    let x1 = s[1];
    let x2 = s[2];
    let x3 = s[3];
    let x4 = s[4];
    let x5 = s[5];
    let x6 = s[6];
    let x7 = s[7];
    let w = ((x0 as u64) << 56) | ((x1 as u64) << 48) | ((x2 as u64) << 40) | ((x3 as u64) << 32)
        | ((x4 as u64) << 24) | ((x5 as u64) << 16) | ((x6 as u64) << 8) | (x7 as u64);
    assert((w >> 56) as u8 == x0 && (w >> 48) as u8 == x1 && (w >> 40) as u8 == x2 && (w
        >> 32) as u8 == x3 && (w >> 24) as u8 == x4 && (w >> 16) as u8 == x5 && (w >> 8) as u8 == x6
        && w as u8 == x7) by (bit_vector)
        requires
            w == ((x0 as u64) << 56) | ((x1 as u64) << 48) | ((x2 as u64) << 40) | ((x3 as u64)
                << 32) | ((x4 as u64) << 24) | ((x5 as u64) << 16) | ((x6 as u64) << 8) | (
            x7 as u64),
    ;
    assert(be8(w) =~= s);
}

/// Sign-extension to 64 bits is undone by truncation.
pub proof fn lemma_i32_cast(w: i32)
    ensures
        ((w as u64) as i32) == w,
{
    assert(((w as u64) as i32) == w) by (bit_vector);
}

/// A signed 64-bit value survives the round trip through `u64`.
pub proof fn lemma_i64_roundtrip(w: i64)
    ensures
        ((w as u64) as i64) == w,
{
    assert(((w as u64) as i64) == w) by (bit_vector);
}

/// A 64-bit integer survives the round trip through `i64`.
pub proof fn lemma_i64_cast(v: u64)
    ensures
        ((v as i64) as u64) == v,
{
    assert(((v as i64) as u64) == v) by (bit_vector);
}

/// A decoded field sequence re-encodes to the bytes it came from.
#[verifier::rlimit(100)]
#[verifier::spinoff_prover]
pub proof fn lemma_enc_of_decode(s: Seq<u8>)
    ensures
        spec_decode_fields(s) matches Some(fs) ==> enc_fields(fs) == s,
    decreases s.len(),
{
    if s.len() == 0 {
    } else {
        match spec_read_field(s) {
            None => {},
            Some((f, rest)) => {
                let pre = s.subrange(0, 8);
                let n = be8_val(pre) as int;
                lemma_enc_of_decode(rest);
                match spec_decode_fields(rest) {
                    None => {},
                    Some(tail) => {
                        assert(spec_decode_fields(s) == Some(seq![f] + tail));
                        assert(enc_fields(seq![f] + tail) == enc_field(f) + enc_fields(tail)) by {
                            assert((seq![f] + tail)[0] == f);
                            assert((seq![f] + tail).drop_first() =~= tail);
                        };
                        assert(enc_field(f) == pre + f) by {
                            lemma_be8_of_val(pre);
                            assert(f.len() == n);
                        };
                        assert((pre + f) + rest =~= s);
                    },
                }
            },
        }
    }
}

/// Append the big-endian bytes of `n` to `out`.
pub fn push_be8(out: &mut Vec<u8>, n: u64)
    ensures
        final(out)@ == old(out)@ + be8(n),
{
    out.push(#[verifier::truncate] ((n >> 56) as u8));
    out.push(#[verifier::truncate] ((n >> 48) as u8));
    out.push(#[verifier::truncate] ((n >> 40) as u8));
    out.push(#[verifier::truncate] ((n >> 32) as u8));
    out.push(#[verifier::truncate] ((n >> 24) as u8));
    out.push(#[verifier::truncate] ((n >> 16) as u8));
    out.push(#[verifier::truncate] ((n >> 8) as u8));
    out.push(#[verifier::truncate] (n as u8));
    proof {
        reveal(be8);
        assert(out@ =~= old(out)@ + be8(n));
    }
}

/// The big-endian bytes of `n` on their own.
pub fn be8_bytes(n: u64) -> (r: Vec<u8>)
    ensures
        r@ == be8(n),
{
    let mut out: Vec<u8> = Vec::new();
    push_be8(&mut out, n);
    assert(out@ =~= be8(n));
    out
}

/// Read a big-endian 64-bit integer at offset `i`.
pub fn read_be8(b: &[u8], i: usize) -> (r: Option<(u64, usize)>)
    ensures
        match r {
            Some((v, j)) => j == i + 8 && j <= b@.len() && b@.subrange(i as int, j as int) == be8(
                v,
            ),
            None => i + 8 > b@.len(),
        },
{
    if i >= b.len() || b.len() - i < 8 {
        return None;
    }
    let v: u64 = ((b[i] as u64) << 56) | ((b[i + 1] as u64) << 48) | ((b[i + 2] as u64) << 40) | ((
    b[i + 3] as u64) << 32) | ((b[i + 4] as u64) << 24) | ((b[i + 5] as u64) << 16) | ((b[i
        + 6] as u64) << 8) | (b[i + 7] as u64);
    proof {
        reveal(be8);
        reveal(be8_val);
        let s = b@.subrange(i as int, i + 8);
        assert(s[0] == b@[i as int] && s[1] == b@[i + 1] && s[2] == b@[i + 2] && s[3] == b@[i + 3]
            && s[4] == b@[i + 4] && s[5] == b@[i + 5] && s[6] == b@[i + 6] && s[7] == b@[i + 7]);
        assert(be8_val(s) == v);
        let x0 = s[0];
        let x1 = s[1];
        let x2 = s[2];
        let x3 = s[3];
        let x4 = s[4];
        let x5 = s[5];
        let x6 = s[6];
        let x7 = s[7];
        let w = ((x0 as u64) << 56) | ((x1 as u64) << 48) | ((x2 as u64) << 40) | ((x3 as u64)
            << 32) | ((x4 as u64) << 24) | ((x5 as u64) << 16) | ((x6 as u64) << 8) | (x7 as u64);
        assert((w >> 56) as u8 == x0 && (w >> 48) as u8 == x1 && (w >> 40) as u8 == x2 && (w
            >> 32) as u8 == x3 && (w >> 24) as u8 == x4 && (w >> 16) as u8 == x5 && (w >> 8) as u8
            == x6 && w as u8 == x7) by (bit_vector)
            requires
                w == ((x0 as u64) << 56) | ((x1 as u64) << 48) | ((x2 as u64) << 40) | ((
                x3 as u64) << 32) | ((x4 as u64) << 24) | ((x5 as u64) << 16) | ((x6 as u64) << 8)
                    | (x7 as u64),
        ;
        assert(be8(v) =~= s);
    }
    Some((v, i + 8))
}

/// One length-prefixed field.
pub open spec fn enc_field(f: Seq<u8>) -> Seq<u8> {
    be8(f.len() as u64) + f
}

/// A record body: its fields one after another, each length-prefixed.
pub open spec fn enc_fields(fs: Seq<Seq<u8>>) -> Seq<u8>
    decreases fs.len(),
{
    if fs.len() == 0 {
        Seq::empty()
    } else {
        enc_field(fs[0]) + enc_fields(fs.drop_first())
    }
}

/// Reading one field off the front of a record body.
pub open spec fn spec_read_field(s: Seq<u8>) -> Option<(Seq<u8>, Seq<u8>)> {
    if s.len() >= 8 {
        let n = be8_val(s.subrange(0, 8)) as int;
        if 8 + n <= s.len() {
            Some((s.subrange(8, 8 + n), s.subrange(8 + n, s.len() as int)))
        } else {
            None
        }
    } else {
        None
    }
}

/// All fields of a record body, if it is exactly a sequence of fields.
pub open spec fn spec_decode_fields(s: Seq<u8>) -> Option<Seq<Seq<u8>>>
    decreases s.len(),
{
    if s.len() == 0 {
        Some(Seq::empty())
    } else {
        match spec_read_field(s) {
            None => None,
            Some((f, rest)) => match spec_decode_fields(rest) {
                None => None,
                Some(fs) => Some(seq![f] + fs),
            },
        }
    }
}

/// Decoding inverts encoding, field for field.
#[verifier::rlimit(100)]
#[verifier::spinoff_prover]
pub proof fn lemma_fields_roundtrip(fs: Seq<Seq<u8>>)
    requires
        forall|k: int| 0 <= k < fs.len() ==> #[trigger] fs[k].len() <= usize::MAX,
    ensures
        spec_decode_fields(enc_fields(fs)) == Some(fs),
    decreases fs.len(),
{
    if fs.len() == 0 {
        assert(enc_fields(fs) == Seq::<u8>::empty());
    } else {
        let f = fs[0];
        let s = enc_fields(fs);
        lemma_be8_val(f.len() as u64);
        assert(s == enc_field(f) + enc_fields(fs.drop_first()));
        assert(s.len() >= 8);
        assert(s.subrange(0, 8) =~= be8(f.len() as u64));
        assert(be8_val(s.subrange(0, 8)) == f.len() as u64);
        let n = f.len() as int;
        assert(s.subrange(8, 8 + n) =~= f);
        assert(s.subrange(8 + n, s.len() as int) =~= enc_fields(fs.drop_first()));
        assert(spec_read_field(s) == Some((f, enc_fields(fs.drop_first()))));
        lemma_fields_roundtrip(fs.drop_first());
        assert(seq![f] + fs.drop_first() =~= fs);
    }
}

/// Split a record body into its fields.
pub fn decode_fields(b: &[u8]) -> (r: Option<Vec<Vec<u8>>>)
    ensures
        match r {
            Some(v) => Some(v@.map_values(|f: Vec<u8>| f@)) == spec_decode_fields(b@),
            None => spec_decode_fields(b@) is None,
        },
{
    let mut out: Vec<Vec<u8>> = Vec::new();
    let mut i: usize = 0;
    let ghost whole = b@;
    proof {
        assert(whole.subrange(0, whole.len() as int) =~= whole);
        assert(out@.map_values(|f: Vec<u8>| f@) =~= Seq::<Seq<u8>>::empty());
        match spec_decode_fields(whole) {
            Some(rest) => {
                assert(Seq::<Seq<u8>>::empty() + rest =~= rest);
            },
            None => {},
        }
    }
    loop
        invariant
            i <= b@.len(),
            b@ == whole,
            spec_decode_fields(whole) == (match spec_decode_fields(whole.subrange(
                i as int,
                whole.len() as int,
            )) {
                Some(rest) => Some(out@.map_values(|f: Vec<u8>| f@) + rest),
                None => None::<Seq<Seq<u8>>>,
            }),
        decreases b@.len() - i,
    {
        let ghost remaining = whole.subrange(i as int, whole.len() as int);
        if i == b.len() {
            proof {
                assert(remaining.len() == 0);
                assert(spec_decode_fields(remaining) == Some(Seq::<Seq<u8>>::empty()));
                assert(out@.map_values(|f: Vec<u8>| f@) + Seq::<Seq<u8>>::empty() =~= out@.map_values(
                    |f: Vec<u8>| f@,
                ));
            }
            return Some(out);
        }
        let (n, j) = match read_be8(b, i) {
            Some(p) => p,
            None => {
                proof {
                    assert(remaining.len() < 8);
                    assert(spec_read_field(remaining) is None);
                }
                return None;
            },
        };
        if n > (b.len() - j) as u64 {
            proof {
                assert(remaining.subrange(0, 8) =~= b@.subrange(i as int, i + 8));
                assert(be8_val(remaining.subrange(0, 8)) == n) by {
                    lemma_be8_val(n);
                }
                assert(spec_read_field(remaining) is None);
            }
            return None;
        }
        let len: usize = n as usize;
        assert(j + len <= b@.len());
        let mut field: Vec<u8> = Vec::new();
        let mut k: usize = 0;
        while k < len
            invariant
                k <= len,
                j + len <= b@.len(),
                b@.len() <= usize::MAX,
                field@ == b@.subrange(j as int, j + k),
            decreases len - k,
        {
            field.push(b[j + k]);
            k += 1;
            assert(field@ =~= b@.subrange(j as int, j + k));
        }
        proof {
            assert(remaining.subrange(0, 8) =~= b@.subrange(i as int, i + 8));
            assert(be8_val(remaining.subrange(0, 8)) == n) by {
                lemma_be8_val(n);
            }
            assert(remaining.subrange(8, 8 + n as int) =~= b@.subrange(j as int, j + n as int));
            assert(remaining.subrange(8 + n as int, remaining.len() as int) =~= whole.subrange(
                j + n as int,
                whole.len() as int,
            ));
            assert(spec_read_field(remaining) == Some(
                (
                    b@.subrange(j as int, j + n as int),
                    whole.subrange(j + n as int, whole.len() as int),
                ),
            ));
        }
        let ghost old_out = out@;
        out.push(field);
        i = j + len;
        proof {
            assert(out@.map_values(|f: Vec<u8>| f@) =~= old_out.map_values(|f: Vec<u8>| f@) + seq![
                b@.subrange(j as int, j + len as int),
            ]);
            assert(remaining.len() != 0);
            let tail = whole.subrange(i as int, whole.len() as int);
            match spec_decode_fields(tail) {
                Some(rest) => {
                    assert(spec_decode_fields(remaining) == Some(
                        seq![b@.subrange(j as int, j + len as int)] + rest,
                    ));
                    assert(out@.map_values(|f: Vec<u8>| f@) + rest =~= old_out.map_values(
                        |f: Vec<u8>| f@,
                    ) + (seq![b@.subrange(j as int, j + len as int)] + rest));
                },
                None => {
                    assert(spec_decode_fields(remaining) is None);
                },
            }
        }
    }
}

} // verus!
