//! Byte-level encoding of records.
//!
//! Every persisted value — a WAL payload or a chunk file — is a sequence of
//! the primitives below: big-endian fixed-width integers, length-prefixed
//! byte strings holding UTF-8 text, and a sign tag plus magnitude for signed
//! timestamps. The format is deterministic: the spec-level readers `rd_*`
//! invert the spec-level encoders `enc_*`/`be*` exactly, which is what the
//! round-trip lemmas state.

use vstd::prelude::*;
use vstd::utf8::{decode_utf8, encode_utf8, valid_utf8};
use crate::record::{Record, RecordView};

verus! {

// --- big-endian fixed-width integers -------------------------------------

/// The four bytes of `x`, most significant first.
pub open spec fn be32(x: u32) -> Seq<u8> {
    seq![(x >> 24) as u8, (x >> 16) as u8, (x >> 8) as u8, x as u8]
}

/// The value whose big-endian bytes are `b` (of length four).
pub open spec fn be32_value(b: Seq<u8>) -> u32
    recommends
        b.len() == 4,
{
    (((b[0] as u32) << 24) | ((b[1] as u32) << 16) | ((b[2] as u32) << 8) | (b[3] as u32)) as u32
}

pub proof fn lemma_be32_round(x: u32)
    ensures
        be32(x).len() == 4,
        be32_value(be32(x)) == x,
{
    let b0 = (x >> 24) as u8;
    let b1 = (x >> 16) as u8;
    let b2 = (x >> 8) as u8;
    let b3 = x as u8;
    assert((((b0 as u32) << 24) | ((b1 as u32) << 16) | ((b2 as u32) << 8) | (b3 as u32)) as u32
        == x) by (bit_vector)
        requires
            b0 == (x >> 24) as u8 && b1 == (x >> 16) as u8 && b2 == (x >> 8) as u8 && b3 == (
            x as u8),
    ;
}

/// The eight bytes of `x`, most significant first.
pub open spec fn be64(x: u64) -> Seq<u8> {
    seq![
        (x >> 56) as u8,
        (x >> 48) as u8,
        (x >> 40) as u8,
        (x >> 32) as u8,
        (x >> 24) as u8,
        (x >> 16) as u8,
        (x >> 8) as u8,
        x as u8,
    ]
}

/// The value whose big-endian bytes are `b` (of length eight).
pub open spec fn be64_value(b: Seq<u8>) -> u64
    recommends
        b.len() == 8,
{
    (((b[0] as u64) << 56) | ((b[1] as u64) << 48) | ((b[2] as u64) << 40) | ((b[3] as u64) << 32)
        | ((b[4] as u64) << 24) | ((b[5] as u64) << 16) | ((b[6] as u64) << 8) | (
    b[7] as u64)) as u64
}

pub proof fn lemma_be64_round(x: u64)
    ensures
        be64(x).len() == 8,
        be64_value(be64(x)) == x,
{
    let b0 = (x >> 56) as u8;
    let b1 = (x >> 48) as u8;
    let b2 = (x >> 40) as u8;
    let b3 = (x >> 32) as u8;
    let b4 = (x >> 24) as u8;
    let b5 = (x >> 16) as u8;
    let b6 = (x >> 8) as u8;
    let b7 = x as u8;
    assert((((b0 as u64) << 56) | ((b1 as u64) << 48) | ((b2 as u64) << 40) | ((b3 as u64) << 32)
        | ((b4 as u64) << 24) | ((b5 as u64) << 16) | ((b6 as u64) << 8) | (b7 as u64)) as u64
        == x) by (bit_vector)
        requires
            b0 == (x >> 56) as u8 && b1 == (x >> 48) as u8 && b2 == (x >> 40) as u8 && b3 == (x
                >> 32) as u8 && b4 == (x >> 24) as u8 && b5 == (x >> 16) as u8 && b6 == (x
                >> 8) as u8 && b7 == (x as u8),
    ;
}

// --- exec writers ---------------------------------------------------------

pub fn push_be32(out: &mut Vec<u8>, x: u32)
    ensures
        final(out)@ == old(out)@ + be32(x),
{
    out.push(#[verifier::truncate] ((x >> 24) as u8));
    out.push(#[verifier::truncate] ((x >> 16) as u8));
    out.push(#[verifier::truncate] ((x >> 8) as u8));
    out.push(#[verifier::truncate] (x as u8));
    proof {
        assert(out@ =~= old(out)@ + be32(x));
    }
}

pub fn push_be64(out: &mut Vec<u8>, x: u64)
    ensures
        final(out)@ == old(out)@ + be64(x),
{
    out.push(#[verifier::truncate] ((x >> 56) as u8));
    out.push(#[verifier::truncate] ((x >> 48) as u8));
    out.push(#[verifier::truncate] ((x >> 40) as u8));
    out.push(#[verifier::truncate] ((x >> 32) as u8));
    out.push(#[verifier::truncate] ((x >> 24) as u8));
    out.push(#[verifier::truncate] ((x >> 16) as u8));
    out.push(#[verifier::truncate] ((x >> 8) as u8));
    out.push(#[verifier::truncate] (x as u8));
    proof {
        assert(out@ =~= old(out)@ + be64(x));
    }
}

// --- exec readers for the fixed-width primitives ---------------------------

/// Reads a big-endian `u32` at `pos`.
pub fn read_be32(b: &[u8], pos: usize) -> (r: u32)
    requires
        pos + 4 <= b@.len(),
    ensures
        r == be32_value(b@.subrange(pos as int, pos as int + 4)),
{
    let b0 = b[pos];
    let b1 = b[pos + 1];
    let b2 = b[pos + 2];
    let b3 = b[pos + 3];
    proof {
        let s = b@.subrange(pos as int, pos as int + 4);
        assert(s[0] == b0 && s[1] == b1 && s[2] == b2 && s[3] == b3);
    }
    ((b0 as u32) << 24) | ((b1 as u32) << 16) | ((b2 as u32) << 8) | (b3 as u32)
}

/// Reads a big-endian `u64` at `pos`.
pub fn read_be64(b: &[u8], pos: usize) -> (r: u64)
    requires
        pos + 8 <= b@.len(),
    ensures
        r == be64_value(b@.subrange(pos as int, pos as int + 8)),
{
    let b0 = b[pos];
    let b1 = b[pos + 1];
    let b2 = b[pos + 2];
    let b3 = b[pos + 3];
    let b4 = b[pos + 4];
    let b5 = b[pos + 5];
    let b6 = b[pos + 6];
    let b7 = b[pos + 7];
    proof {
        let s = b@.subrange(pos as int, pos as int + 8);
        assert(s[0] == b0 && s[1] == b1 && s[2] == b2 && s[3] == b3 && s[4] == b4 && s[5] == b5
            && s[6] == b6 && s[7] == b7);
    }
    ((b0 as u64) << 56) | ((b1 as u64) << 48) | ((b2 as u64) << 40) | ((b3 as u64) << 32) | ((
    b4 as u64) << 24) | ((b5 as u64) << 16) | ((b6 as u64) << 8) | (b7 as u64)
}

} // verus!

verus! {

// --- generic helpers --------------------------------------------------------

/// Pushing onto a vector pushes onto its element-wise view.
pub proof fn lemma_deep_view_push<T: DeepView>(prev: Vec<T>, cur: Vec<T>, e: T)
    requires
        cur@ == prev@.push(e),
    ensures
        cur.deep_view() == prev.deep_view().push(e.deep_view()),
{
    assert(cur.deep_view() =~= prev.deep_view().push(e.deep_view()));
}

/// Splits knowledge of a two-part subrange into its parts.
pub proof fn lemma_subrange_split(b: Seq<u8>, p: int, x: Seq<u8>, y: Seq<u8>)
    requires
        0 <= p,
        p + x.len() + y.len() <= b.len(),
        b.subrange(p, p + x.len() + y.len()) == x + y,
    ensures
        b.subrange(p, p + x.len()) == x,
        b.subrange(p + x.len(), p + x.len() + y.len()) == y,
{
    let whole = b.subrange(p, p + x.len() + y.len());
    assert forall|i: int| 0 <= i < x.len() implies b.subrange(p, p + x.len())[i] == x[i] by {
        assert(whole[i] == (x + y)[i]);
    }
    assert(b.subrange(p, p + x.len()) =~= x);
    assert forall|i: int| 0 <= i < y.len() implies b.subrange(
        p + x.len(),
        p + x.len() + y.len(),
    )[i] == y[i] by {
        assert(whole[x.len() + i] == (x + y)[x.len() + i]);
    }
    assert(b.subrange(p + x.len(), p + x.len() + y.len()) =~= y);
}

// --- spec-level readers -----------------------------------------------------

/// Reads one byte at `p`.
pub open spec fn rd_byte(b: Seq<u8>, p: int) -> Option<(u8, int)> {
    if 0 <= p && p + 1 <= b.len() {
        Some((b[p], p + 1))
    } else {
        None
    }
}

/// Reads a big-endian `u32` at `p`.
pub open spec fn rd_be32(b: Seq<u8>, p: int) -> Option<(u32, int)> {
    if 0 <= p && p + 4 <= b.len() {
        Some((be32_value(b.subrange(p, p + 4)), p + 4))
    } else {
        None
    }
}

/// Reads a big-endian `u64` at `p`.
pub open spec fn rd_be64(b: Seq<u8>, p: int) -> Option<(u64, int)> {
    if 0 <= p && p + 8 <= b.len() {
        Some((be64_value(b.subrange(p, p + 8)), p + 8))
    } else {
        None
    }
}

/// Reads a signed 64-bit value: a sign tag byte, then the magnitude.
/// A non-negative value `t` is stored as `(0, t)`; a negative one as
/// `(1, -1 - t)`.
pub open spec fn rd_i64(b: Seq<u8>, p: int) -> Option<(int, int)> {
    match rd_byte(b, p) {
        Some((tag, q)) => match rd_be64(b, q) {
            Some((mag, r)) => if tag == 0 && mag <= i64::MAX as u64 {
                Some((mag as int, r))
            } else if tag == 1 && mag <= i64::MAX as u64 {
                Some((-1 - mag as int, r))
            } else {
                None
            },
            None => None,
        },
        None => None,
    }
}

/// Reads a length-prefixed byte string at `p`.
pub open spec fn rd_bytes(b: Seq<u8>, p: int) -> Option<(Seq<u8>, int)> {
    match rd_be32(b, p) {
        Some((n, q)) => if q + n <= b.len() {
            Some((b.subrange(q, q + n), q + n))
        } else {
            None
        },
        None => None,
    }
}

/// Reads a length-prefixed UTF-8 string at `p`.
pub open spec fn rd_str(b: Seq<u8>, p: int) -> Option<(Seq<char>, int)> {
    match rd_bytes(b, p) {
        Some((bs, q)) => if valid_utf8(bs) {
            Some((decode_utf8(bs), q))
        } else {
            None
        },
        None => None,
    }
}

/// Reads `n` key/value string pairs at `p`.
pub open spec fn rd_pairs(b: Seq<u8>, p: int, n: nat) -> Option<
    (Seq<(Seq<char>, Seq<char>)>, int),
>
    decreases n,
{
    if n == 0 {
        Some((Seq::empty(), p))
    } else {
        match rd_str(b, p) {
            Some((k, q)) => match rd_str(b, q) {
                Some((v, r)) => match rd_pairs(b, r, (n - 1) as nat) {
                    Some((rest, s)) => Some((seq![(k, v)] + rest, s)),
                    None => None,
                },
                None => None,
            },
            None => None,
        }
    }
}

/// Reads one record: timestamp, value, metric name, resource type, context.
pub open spec fn rd_record(b: Seq<u8>, p: int) -> Option<(RecordView, int)> {
    match rd_i64(b, p) {
        Some((ts, q1)) => match rd_be64(b, q1) {
            Some((value, q2)) => match rd_str(b, q2) {
                Some((metric, q3)) => match rd_str(b, q3) {
                    Some((rt, q4)) => match rd_be32(b, q4) {
                        Some((n, q5)) => match rd_pairs(b, q5, n as nat) {
                            Some((ctx, q6)) => Some(
                                (
                                    RecordView {
                                        timestamp: ts,
                                        metric_name: metric,
                                        value: value,
                                        context: ctx,
                                        resource_type: rt,
                                    },
                                    q6,
                                ),
                            ),
                            None => None,
                        },
                        None => None,
                    },
                    None => None,
                },
                None => None,
            },
            None => None,
        },
        None => None,
    }
}

// --- spec-level encoders ----------------------------------------------------

/// The encoding of a signed 64-bit value; see [`rd_i64`].
pub open spec fn enc_i64(t: int) -> Seq<u8>
    recommends
        i64::MIN <= t <= i64::MAX,
{
    if t >= 0 {
        seq![0u8] + be64(t as u64)
    } else {
        seq![1u8] + be64((-1 - t) as u64)
    }
}

/// The encoding of a length-prefixed byte string.
pub open spec fn enc_bytes(s: Seq<u8>) -> Seq<u8>
    recommends
        s.len() <= u32::MAX,
{
    be32(s.len() as u32) + s
}

/// The encoding of a length-prefixed UTF-8 string.
pub open spec fn enc_str(s: Seq<char>) -> Seq<u8>
    recommends
        str_encodable(s),
{
    enc_bytes(encode_utf8(s))
}

/// A string fits the length prefix.
pub open spec fn str_encodable(s: Seq<char>) -> bool {
    encode_utf8(s).len() <= u32::MAX
}

/// The encoding of a sequence of key/value string pairs, without a count.
pub open spec fn enc_pairs(ps: Seq<(Seq<char>, Seq<char>)>) -> Seq<u8>
    decreases ps.len(),
{
    if ps.len() == 0 {
        Seq::empty()
    } else {
        enc_str(ps[0].0) + enc_str(ps[0].1) + enc_pairs(ps.drop_first())
    }
}

pub open spec fn pairs_encodable(ps: Seq<(Seq<char>, Seq<char>)>) -> bool {
    &&& ps.len() <= u32::MAX
    &&& forall|i: int|
        0 <= i < ps.len() ==> str_encodable(#[trigger] ps[i].0) && str_encodable(ps[i].1)
}

/// The payload encoding of one record; see [`rd_record`].
pub open spec fn enc_record(v: RecordView) -> Seq<u8>
    recommends
        record_encodable(v),
{
    enc_i64(v.timestamp) + be64(v.value) + enc_str(v.metric_name) + enc_str(v.resource_type)
        + be32(v.context.len() as u32) + enc_pairs(v.context)
}

/// The record can be written faithfully: its timestamp is a 64-bit value and
/// every variable-length field fits its length prefix.
pub open spec fn record_encodable(v: RecordView) -> bool {
    &&& i64::MIN <= v.timestamp <= i64::MAX
    &&& str_encodable(v.metric_name)
    &&& str_encodable(v.resource_type)
    &&& pairs_encodable(v.context)
}

} // verus!

verus! {

// --- round-trip lemmas: the readers invert the encoders ---------------------

pub proof fn lemma_rd_be32_at(b: Seq<u8>, p: int, x: u32)
    requires
        0 <= p,
        p + 4 <= b.len(),
        b.subrange(p, p + 4) == be32(x),
    ensures
        rd_be32(b, p) == Some((x, p + 4)),
{
    lemma_be32_round(x);
}

pub proof fn lemma_rd_be64_at(b: Seq<u8>, p: int, x: u64)
    requires
        0 <= p,
        p + 8 <= b.len(),
        b.subrange(p, p + 8) == be64(x),
    ensures
        rd_be64(b, p) == Some((x, p + 8)),
{
    lemma_be64_round(x);
}

pub proof fn lemma_rd_i64_at(b: Seq<u8>, p: int, t: int)
    requires
        0 <= p,
        p + 9 <= b.len(),
        i64::MIN <= t <= i64::MAX,
        b.subrange(p, p + 9) == enc_i64(t),
    ensures
        rd_i64(b, p) == Some((t, p + 9)),
{
    let tag: u8 = if t >= 0 { 0u8 } else { 1u8 };
    let mag: u64 = if t >= 0 { t as u64 } else { (-1 - t) as u64 };
    assert(enc_i64(t) == seq![tag] + be64(mag));
    lemma_be64_round(mag);
    lemma_subrange_split(b, p, seq![tag], be64(mag));
    assert(b[p] == b.subrange(p, p + 1)[0]);
    assert(rd_byte(b, p) == Some((tag, p + 1)));
    lemma_rd_be64_at(b, p + 1, mag);
}

pub proof fn lemma_rd_bytes_at(b: Seq<u8>, p: int, s: Seq<u8>)
    requires
        0 <= p,
        s.len() <= u32::MAX,
        p + 4 + s.len() <= b.len(),
        b.subrange(p, p + 4 + s.len()) == enc_bytes(s),
    ensures
        rd_bytes(b, p) == Some((s, p + 4 + s.len())),
{
    let n: u32 = s.len() as u32;
    lemma_be32_round(n);
    lemma_subrange_split(b, p, be32(n), s);
    lemma_rd_be32_at(b, p, n);
}

pub proof fn lemma_rd_str_at(b: Seq<u8>, p: int, s: Seq<char>)
    requires
        0 <= p,
        str_encodable(s),
        p + enc_str(s).len() <= b.len(),
        b.subrange(p, p + enc_str(s).len()) == enc_str(s),
    ensures
        rd_str(b, p) == Some((s, p + enc_str(s).len())),
{
    let bs = encode_utf8(s);
    lemma_rd_bytes_at(b, p, bs);
    vstd::utf8::encode_utf8_valid_utf8(s);
    vstd::utf8::encode_utf8_decode_utf8(s);
}

pub proof fn lemma_rd_pairs_at(b: Seq<u8>, p: int, ps: Seq<(Seq<char>, Seq<char>)>)
    requires
        0 <= p,
        pairs_encodable(ps),
        p + enc_pairs(ps).len() <= b.len(),
        b.subrange(p, p + enc_pairs(ps).len()) == enc_pairs(ps),
    ensures
        rd_pairs(b, p, ps.len()) == Some((ps, p + enc_pairs(ps).len())),
    decreases ps.len(),
{
    if ps.len() == 0 {
        assert(rd_pairs(b, p, 0) == Some((Seq::<(Seq<char>, Seq<char>)>::empty(), p)));
        assert(ps =~= Seq::<(Seq<char>, Seq<char>)>::empty());
    } else {
        let k = ps[0].0;
        let v = ps[0].1;
        let rest = ps.drop_first();
        let ek = enc_str(k);
        let ev = enc_str(v);
        let er = enc_pairs(rest);
        assert(enc_pairs(ps) == ek + ev + er);
        assert(enc_pairs(ps) =~= ek + (ev + er));
        lemma_subrange_split(b, p, ek, ev + er);
        let q = p + ek.len();
        lemma_subrange_split(b, q, ev, er);
        let r = q + ev.len();
        lemma_rd_str_at(b, p, k);
        lemma_rd_str_at(b, q, v);
        assert(forall|i: int| 0 <= i < rest.len() ==> rest[i] == ps[i + 1]);
        lemma_rd_pairs_at(b, r, rest);
        assert(seq![(k, v)] + rest =~= ps);
    }
}

pub proof fn lemma_rd_record_at(b: Seq<u8>, p: int, v: RecordView)
    requires
        0 <= p,
        record_encodable(v),
        p + enc_record(v).len() <= b.len(),
        b.subrange(p, p + enc_record(v).len()) == enc_record(v),
    ensures
        rd_record(b, p) == Some((v, p + enc_record(v).len())),
{
    let e1 = enc_i64(v.timestamp);
    let e2 = be64(v.value);
    let e3 = enc_str(v.metric_name);
    let e4 = enc_str(v.resource_type);
    let e5 = be32(v.context.len() as u32);
    let e6 = enc_pairs(v.context);
    assert(enc_record(v) =~= e1 + (e2 + (e3 + (e4 + (e5 + e6)))));
    lemma_subrange_split(b, p, e1, e2 + (e3 + (e4 + (e5 + e6))));
    let q1 = p + e1.len();
    lemma_subrange_split(b, q1, e2, e3 + (e4 + (e5 + e6)));
    let q2 = q1 + e2.len();
    lemma_subrange_split(b, q2, e3, e4 + (e5 + e6));
    let q3 = q2 + e3.len();
    lemma_subrange_split(b, q3, e4, e5 + e6);
    let q4 = q3 + e4.len();
    lemma_subrange_split(b, q4, e5, e6);
    let q5 = q4 + e5.len();
    lemma_rd_i64_at(b, p, v.timestamp);
    lemma_rd_be64_at(b, q1, v.value);
    lemma_rd_str_at(b, q2, v.metric_name);
    lemma_rd_str_at(b, q3, v.resource_type);
    lemma_rd_be32_at(b, q4, v.context.len() as u32);
    lemma_rd_pairs_at(b, q5, v.context);
}

} // verus!

verus! {

// --- exec encoding ----------------------------------------------------------

/// Relies on `str::from_utf8` (std): it succeeds exactly on valid UTF-8 and
/// returns the decoded characters of its input.
#[verifier::external_body]
fn bytes_to_str(v: &[u8]) -> (r: Option<&str>)
    ensures
        match r {
            Some(s) => valid_utf8(v@) && s@ == decode_utf8(v@),
            None => !valid_utf8(v@),
        },
{
    core::str::from_utf8(v).ok()
}

/// True when the UTF-8 bytes of `s` fit a 32-bit length prefix.
pub fn str_fits(s: &str) -> (r: bool)
    ensures
        r == str_encodable(s@),
{
    s.as_bytes().len() <= (u32::MAX as usize)
}

/// Appends a slice of bytes.
pub fn push_slice(out: &mut Vec<u8>, s: &[u8])
    ensures
        final(out)@ == old(out)@ + s@,
{
    out.extend_from_slice(s);
    proof {
        assert(out@ =~= old(out)@ + s@);
    }
}

/// Appends a length-prefixed byte string.
pub fn push_bytes_field(out: &mut Vec<u8>, s: &[u8])
    requires
        s@.len() <= u32::MAX,
    ensures
        final(out)@ == old(out)@ + enc_bytes(s@),
{
    push_be32(out, #[verifier::truncate] (s.len() as u32));
    push_slice(out, s);
    proof {
        assert(out@ =~= old(out)@ + enc_bytes(s@));
    }
}

/// Appends a length-prefixed UTF-8 string.
pub fn push_str_field(out: &mut Vec<u8>, s: &str)
    requires
        str_encodable(s@),
    ensures
        final(out)@ == old(out)@ + enc_str(s@),
{
    push_bytes_field(out, s.as_bytes());
}

/// Appends a sign-tagged signed 64-bit value.
pub fn push_i64(out: &mut Vec<u8>, t: i64)
    ensures
        final(out)@ == old(out)@ + enc_i64(t as int),
{
    if t >= 0 {
        out.push(0u8);
        push_be64(out, t as u64);
    } else {
        out.push(1u8);
        push_be64(out, (-(t + 1)) as u64);
    }
    proof {
        assert(out@ =~= old(out)@ + enc_i64(t as int));
    }
}

/// Appends the payload encoding of `r`, or reports that a field does not
/// fit its length prefix.
pub fn encode_record_onto(r: &Record, out: &mut Vec<u8>) -> (ok: bool)
    ensures
        ok == record_encodable(r@),
        ok ==> final(out)@ == old(out)@ + enc_record(r@),
        !ok ==> final(out)@ == old(out)@,
{
    if !str_fits(r.metric_name.as_str()) || !str_fits(r.resource_type.as_str()) || r.context.len()
        > (u32::MAX as usize) {
        return false;
    }
    let mut i: usize = 0;
    while i < r.context.len()
        invariant
            i <= r.context.len(),
            forall|j: int|
                0 <= j < i as int ==> str_encodable(#[trigger] r.context.deep_view()[j].0)
                    && str_encodable(r.context.deep_view()[j].1),
        decreases r.context.len() - i,
    {
        let pair: &(String, String) = &r.context[i];
        proof {
            assert(r.context.deep_view()[i as int].0 == pair.0@);
            assert(r.context.deep_view()[i as int].1 == pair.1@);
        }
        if !str_fits(pair.0.as_str()) || !str_fits(pair.1.as_str()) {
            proof {
                assert(!(str_encodable(r.context.deep_view()[i as int].0) && str_encodable(
                    r.context.deep_view()[i as int].1,
                )));
            }
            return false;
        }
        i = i + 1;
    }
    push_i64(out, r.timestamp);
    push_be64(out, r.value);
    push_str_field(out, r.metric_name.as_str());
    push_str_field(out, r.resource_type.as_str());
    push_be32(out, #[verifier::truncate] (r.context.len() as u32));
    let ghost mid = out@;
    let mut k: usize = 0;
    while k < r.context.len()
        invariant
            k <= r.context.len(),
            pairs_encodable(r.context.deep_view()),
            out@ == mid + enc_pairs(r.context.deep_view().take(k as int)),
        decreases r.context.len() - k,
    {
        let pair: &(String, String) = &r.context[k];
        proof {
            assert(r.context.deep_view()[k as int].0 == pair.0@);
            assert(r.context.deep_view()[k as int].1 == pair.1@);
            assert(str_encodable(r.context.deep_view()[k as int].0));
            assert(str_encodable(r.context.deep_view()[k as int].1));
        }
        push_str_field(out, pair.0.as_str());
        push_str_field(out, pair.1.as_str());
        proof {
            lemma_enc_pairs_snoc(r.context.deep_view(), k as int);
            assert(out@ =~= mid + enc_pairs(r.context.deep_view().take(k as int + 1)));
        }
        k = k + 1;
    }
    proof {
        assert(r.context.deep_view().take(r.context.len() as int) =~= r.context.deep_view());
        assert(out@ =~= old(out)@ + enc_record(r@));
    }
    true
}

/// Extending a pair sequence by one extends its encoding at the end.
proof fn lemma_enc_pairs_snoc(ps: Seq<(Seq<char>, Seq<char>)>, k: int)
    requires
        0 <= k < ps.len(),
    ensures
        enc_pairs(ps.take(k + 1)) == enc_pairs(ps.take(k)) + enc_str(ps[k].0) + enc_str(ps[k].1),
    decreases k,
{
    if k == 0 {
        assert(ps.take(1) =~= seq![ps[0]]);
        assert(ps.take(1).drop_first() =~= Seq::<(Seq<char>, Seq<char>)>::empty());
        assert(ps.take(0) =~= Seq::<(Seq<char>, Seq<char>)>::empty());
        assert(enc_pairs(ps.take(1)) =~= enc_pairs(ps.take(0)) + enc_str(ps[0].0) + enc_str(
            ps[0].1,
        ));
    } else {
        lemma_enc_pairs_snoc(ps.drop_first(), k - 1);
        assert(ps.take(k + 1).drop_first() =~= ps.drop_first().take(k));
        assert(ps.take(k).drop_first() =~= ps.drop_first().take(k - 1));
        assert(ps.take(k + 1)[0] == ps[0]);
        assert(ps.take(k)[0] == ps[0]);
        assert(ps.drop_first()[k - 1] == ps[k]);
        assert(enc_pairs(ps.take(k + 1)) == enc_str(ps[0].0) + enc_str(ps[0].1) + enc_pairs(
            ps.drop_first().take(k),
        ));
        assert(enc_pairs(ps.take(k)) == enc_str(ps[0].0) + enc_str(ps[0].1) + enc_pairs(
            ps.drop_first().take(k - 1),
        ));
        assert(enc_pairs(ps.take(k)) + enc_str(ps[k].0) + enc_str(ps[k].1) =~= enc_str(ps[0].0)
            + enc_str(ps[0].1) + (enc_pairs(ps.drop_first().take(k - 1)) + enc_str(
            ps.drop_first()[k - 1].0,
        ) + enc_str(ps.drop_first()[k - 1].1)));
    }
}

/// The payload encoding of one record, or `None` when a field does not fit
/// its length prefix.
pub fn encode_record(r: &Record) -> (out: Option<Vec<u8>>)
    ensures
        match out {
            Some(v) => record_encodable(r@) && v@ == enc_record(r@),
            None => !record_encodable(r@),
        },
{
    let mut buf: Vec<u8> = Vec::new();
    if encode_record_onto(r, &mut buf) {
        Some(buf)
    } else {
        None
    }
}

} // verus!

verus! {

// --- exec decoding ----------------------------------------------------------

/// Reads a big-endian `u32`, or `None` past the end of the buffer.
pub fn read_be32_opt(b: &[u8], pos: usize) -> (r: Option<(u32, usize)>)
    ensures
        match r {
            Some((x, q)) => rd_be32(b@, pos as int) == Some((x, q as int)),
            None => rd_be32(b@, pos as int) is None,
        },
{
    if b.len() < 4 || pos > b.len() - 4 {
        None
    } else {
        Some((read_be32(b, pos), pos + 4))
    }
}

/// Reads a big-endian `u64`, or `None` past the end of the buffer.
pub fn read_be64_opt(b: &[u8], pos: usize) -> (r: Option<(u64, usize)>)
    ensures
        match r {
            Some((x, q)) => rd_be64(b@, pos as int) == Some((x, q as int)),
            None => rd_be64(b@, pos as int) is None,
        },
{
    if b.len() < 8 || pos > b.len() - 8 {
        None
    } else {
        Some((read_be64(b, pos), pos + 8))
    }
}

/// Reads a sign-tagged signed 64-bit value.
pub fn read_i64(b: &[u8], pos: usize) -> (r: Option<(i64, usize)>)
    ensures
        match r {
            Some((t, q)) => rd_i64(b@, pos as int) == Some((t as int, q as int)),
            None => rd_i64(b@, pos as int) is None,
        },
{
    if b.len() < 9 || pos > b.len() - 9 {
        return None;
    }
    let tag = b[pos];
    let mag = read_be64(b, pos + 1);
    if tag == 0 && mag <= (i64::MAX as u64) {
        Some((mag as i64, pos + 9))
    } else if tag == 1 && mag <= (i64::MAX as u64) {
        Some((-1i64 - (mag as i64), pos + 9))
    } else {
        None
    }
}

/// Reads a length-prefixed byte string, as a slice of the buffer.
pub fn read_bytes<'a>(b: &'a [u8], pos: usize) -> (r: Option<(&'a [u8], usize)>)
    ensures
        match r {
            Some((s, q)) => rd_bytes(b@, pos as int) == Some((s@, q as int)),
            None => rd_bytes(b@, pos as int) is None,
        },
{
    if b.len() < 4 || pos > b.len() - 4 {
        return None;
    }
    let n = read_be32(b, pos);
    let q = pos + 4;
    if (n as usize) > b.len() - q {
        return None;
    }
    Some((vstd::slice::slice_subrange(b, q, q + (n as usize)), q + (n as usize)))
}

/// Reads a length-prefixed UTF-8 string.
pub fn read_str(b: &[u8], pos: usize) -> (r: Option<(String, usize)>)
    ensures
        match r {
            Some((s, q)) => rd_str(b@, pos as int) == Some((s@, q as int)),
            None => rd_str(b@, pos as int) is None,
        },
{
    match read_bytes(b, pos) {
        None => None,
        Some((bs, q)) => match bytes_to_str(bs) {
            None => None,
            Some(st) => Some((st.to_owned(), q)),
        },
    }
}

/// Reads `n` key/value string pairs.
pub fn read_pairs(b: &[u8], pos: usize, n: u32) -> (r: Option<(Vec<(String, String)>, usize)>)
    ensures
        match r {
            Some((ps, q)) => rd_pairs(b@, pos as int, n as nat) == Some(
                (ps.deep_view(), q as int),
            ),
            None => rd_pairs(b@, pos as int, n as nat) is None,
        },
{
    let mut acc: Vec<(String, String)> = Vec::new();
    let mut cur: usize = pos;
    let mut i: u32 = 0;
    proof {
        assert(acc.deep_view() =~= Seq::<(Seq<char>, Seq<char>)>::empty());
    }
    while i < n
        invariant
            i <= n,
            match rd_pairs(b@, cur as int, (n - i) as nat) {
                Some((tail, q)) => rd_pairs(b@, pos as int, n as nat) == Some(
                    (acc.deep_view() + tail, q),
                ),
                None => rd_pairs(b@, pos as int, n as nat) is None,
            },
        decreases n - i,
    {
        let (k, q) = match read_str(b, cur) {
            Some(x) => x,
            None => {
                return None;
            },
        };
        let (v, q2) = match read_str(b, q) {
            Some(x) => x,
            None => {
                return None;
            },
        };
        let ghost prev = acc;
        let ghost kv = (k@, v@);
        acc.push((k, v));
        proof {
            lemma_deep_view_push(prev, acc, ((k, v)));
            if rd_pairs(b@, q2 as int, (n - i - 1) as nat) is Some {
                let (tail2, qf) = rd_pairs(b@, q2 as int, (n - i - 1) as nat)->Some_0;
                assert(rd_pairs(b@, cur as int, (n - i) as nat) == Some(
                    (seq![kv] + tail2, qf),
                ));
                assert(prev.deep_view() + (seq![kv] + tail2) =~= acc.deep_view() + tail2);
            }
        }
        cur = q2;
        i = i + 1;
    }
    proof {
        assert(rd_pairs(b@, cur as int, 0) == Some(
            (Seq::<(Seq<char>, Seq<char>)>::empty(), cur as int),
        ));
        assert(acc.deep_view() + Seq::<(Seq<char>, Seq<char>)>::empty() =~= acc.deep_view());
    }
    Some((acc, cur))
}

/// Reads one record starting at `pos`.
pub fn read_record(b: &[u8], pos: usize) -> (r: Option<(Record, usize)>)
    ensures
        match r {
            Some((rec, q)) => rd_record(b@, pos as int) == Some((rec@, q as int)),
            None => rd_record(b@, pos as int) is None,
        },
{
    let (ts, q1) = match read_i64(b, pos) {
        Some(x) => x,
        None => {
            return None;
        },
    };
    let (value, q2) = match read_be64_opt(b, q1) {
        Some(x) => x,
        None => {
            return None;
        },
    };
    let (metric, q3) = match read_str(b, q2) {
        Some(x) => x,
        None => {
            return None;
        },
    };
    let (rt, q4) = match read_str(b, q3) {
        Some(x) => x,
        None => {
            return None;
        },
    };
    let (n, q5) = match read_be32_opt(b, q4) {
        Some(x) => x,
        None => {
            return None;
        },
    };
    let (ctx, q6) = match read_pairs(b, q5, n) {
        Some(x) => x,
        None => {
            return None;
        },
    };
    let rec = Record {
        timestamp: ts,
        metric_name: metric,
        value,
        context: ctx,
        resource_type: rt,
    };
    proof {
        assert(rd_record(b@, pos as int)->Some_0.0 =~= rec@);
    }
    Some((rec, q6))
}

/// The record held by a whole buffer: one record encoding and nothing more.
pub open spec fn payload_record(b: Seq<u8>) -> Option<RecordView> {
    match rd_record(b, 0) {
        Some((v, q)) => if q == b.len() {
            Some(v)
        } else {
            None
        },
        None => None,
    }
}

/// Decodes a whole buffer as one record.
pub fn decode_record(b: &[u8]) -> (r: Option<Record>)
    ensures
        match r {
            Some(rec) => payload_record(b@) == Some(rec@),
            None => payload_record(b@) is None,
        },
{
    match read_record(b, 0) {
        Some((rec, q)) => {
            if q == b.len() {
                Some(rec)
            } else {
                None
            }
        },
        None => None,
    }
}

/// Decoding inverts encoding: the payload written for an encodable record
/// reads back as exactly that record.
pub proof fn lemma_record_round_trip(v: RecordView)
    requires
        record_encodable(v),
    ensures
        payload_record(enc_record(v)) == Some(v),
{
    let b = enc_record(v);
    assert(b.subrange(0, b.len() as int) =~= b);
    lemma_rd_record_at(b, 0, v);
}

} // verus!

verus! {

/// Decodes bytes as an owned UTF-8 string; fails exactly on invalid UTF-8.
pub fn bytes_to_string(v: &[u8]) -> (r: Option<String>)
    ensures
        match r {
            Some(s) => valid_utf8(v@) && s@ == decode_utf8(v@),
            None => !valid_utf8(v@),
        },
{
    match bytes_to_str(v) {
        Some(s) => Some(s.to_owned()),
        None => None,
    }
}

} // verus!
