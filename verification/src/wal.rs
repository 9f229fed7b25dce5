//! Write-ahead log framing.
//!
//! The log is a flat byte stream of frames: a 4-byte big-endian length, then
//! that many bytes of record payload. Replay walks the frames from the start
//! and stops cleanly at a torn tail — a length prefix or payload that runs
//! past the end of the stream. The lemmas at the bottom state the framing
//! guarantees: a full log replays to exactly the records appended, and a log
//! truncated at any byte offset replays to a prefix of them.

use vstd::prelude::*;
use crate::codec::{
    be32, enc_record, lemma_rd_be32_at, lemma_record_round_trip, payload_record, rd_be32,
    read_be32_opt, record_encodable, encode_record_onto, push_be32, push_slice, decode_record,
};
use crate::record::{Record, RecordView};

verus! {

/// A payload wrapped in its length frame.
pub open spec fn frame(payload: Seq<u8>) -> Seq<u8>
    recommends
        payload.len() <= u32::MAX,
{
    be32(payload.len() as u32) + payload
}

/// The record's payload fits one frame.
pub open spec fn frame_encodable(v: RecordView) -> bool {
    record_encodable(v) && enc_record(v).len() <= u32::MAX
}

/// The log bytes written for a sequence of records, one frame each.
pub open spec fn frames(rs: Seq<RecordView>) -> Seq<u8>
    decreases rs.len(),
{
    if rs.len() == 0 {
        Seq::empty()
    } else {
        frame(enc_record(rs[0])) + frames(rs.drop_first())
    }
}

pub open spec fn frames_encodable(rs: Seq<RecordView>) -> bool {
    forall|i: int| 0 <= i < rs.len() ==> frame_encodable(#[trigger] rs[i])
}

/// The records recovered from log bytes `b`, reading frames from `p`.
///
/// A frame that runs past the end of the stream ends replay; a complete
/// frame whose payload is not exactly one record is skipped.
pub open spec fn sp_replay(b: Seq<u8>, p: int) -> Seq<RecordView>
    decreases b.len() - p,
{
    match rd_be32(b, p) {
        None => Seq::empty(),
        Some((n, q)) => if q + n <= b.len() {
            let payload = b.subrange(q, q + n);
            let rest = sp_replay(b, q + n);
            match payload_record(payload) {
                Some(v) => seq![v] + rest,
                None => rest,
            }
        } else {
            Seq::empty()
        },
    }
}

/// Reads every whole record framed in `b`, discarding a torn tail.
pub fn replay(b: &[u8]) -> (rs: Vec<Record>)
    ensures
        rs.deep_view() == sp_replay(b@, 0),
{
    let mut rs: Vec<Record> = Vec::new();
    let mut pos: usize = 0;
    proof {
        assert(rs.deep_view() =~= Seq::<RecordView>::empty());
    }
    loop
        invariant_except_break
            pos <= b@.len(),
            sp_replay(b@, 0) == rs.deep_view() + sp_replay(b@, pos as int),
        ensures
            rs.deep_view() == sp_replay(b@, 0),
        decreases b@.len() - pos,
    {
        match read_be32_opt(b, pos) {
            None => {
                proof {
                    assert(rs.deep_view() + sp_replay(b@, pos as int) =~= rs.deep_view());
                }
                break ;
            },
            Some((n, q)) => {
                if (n as usize) > b.len() - q {
                    proof {
                        assert(rs.deep_view() + sp_replay(b@, pos as int) =~= rs.deep_view());
                    }
                    break ;
                }
                let next = q + (n as usize);
                let payload = vstd::slice::slice_subrange(b, q, next);
                let ghost mid = rs.deep_view();
                match decode_record(payload) {
                    Some(rec) => {
                        let ghost prev = rs;
                        let ghost v = rec@;
                        rs.push(rec);
                        proof {
                            crate::codec::lemma_deep_view_push(prev, rs, rec);
                            assert(sp_replay(b@, pos as int) == seq![v] + sp_replay(
                                b@,
                                next as int,
                            ));
                            assert(mid + (seq![v] + sp_replay(b@, next as int)) =~= rs.deep_view()
                                + sp_replay(b@, next as int));
                        }
                    },
                    None => {
                        proof {
                            assert(sp_replay(b@, pos as int) == sp_replay(b@, next as int));
                        }
                    },
                }
                pos = next;
            },
        }
    }
    rs
}

/// The log bytes to append for one record, or `None` when it cannot be
/// framed faithfully.
pub fn frame_record(r: &Record) -> (out: Option<Vec<u8>>)
    ensures
        match out {
            Some(v) => frame_encodable(r@) && v@ == frame(enc_record(r@)),
            None => !frame_encodable(r@),
        },
{
    let mut payload: Vec<u8> = Vec::new();
    if !encode_record_onto(r, &mut payload) {
        return None;
    }
    if payload.len() > (u32::MAX as usize) {
        return None;
    }
    let mut out: Vec<u8> = Vec::new();
    push_be32(&mut out, #[verifier::truncate] (payload.len() as u32));
    push_slice(&mut out, payload.as_slice());
    proof {
        assert(out@ =~= frame(enc_record(r@)));
    }
    Some(out)
}

/// Appending one record appends its frame at the end of the log image.
pub(crate) proof fn lemma_frames_snoc(rs: Seq<RecordView>, k: int)
    requires
        0 <= k < rs.len(),
    ensures
        frames(rs.take(k + 1)) == frames(rs.take(k)) + frame(enc_record(rs[k])),
    decreases k,
{
    if k == 0 {
        assert(rs.take(1) =~= seq![rs[0]]);
        assert(rs.take(1).drop_first() =~= Seq::<RecordView>::empty());
        assert(rs.take(0) =~= Seq::<RecordView>::empty());
        assert(frames(rs.take(1)) =~= frames(rs.take(0)) + frame(enc_record(rs[0])));
    } else {
        lemma_frames_snoc(rs.drop_first(), k - 1);
        assert(rs.take(k + 1).drop_first() =~= rs.drop_first().take(k));
        assert(rs.take(k).drop_first() =~= rs.drop_first().take(k - 1));
        assert(rs.take(k + 1)[0] == rs[0]);
        assert(rs.take(k)[0] == rs[0]);
        assert(rs.drop_first()[k - 1] == rs[k]);
        assert(frames(rs.take(k)) + frame(enc_record(rs[k])) =~= frame(enc_record(rs[0])) + (
        frames(rs.drop_first().take(k - 1)) + frame(enc_record(rs.drop_first()[k - 1]))));
    }
}

/// Framing one more record appends its frame.
pub(crate) proof fn lemma_frames_push(rs: Seq<RecordView>, v: RecordView)
    ensures
        frames(rs.push(v)) == frames(rs) + frame(enc_record(v)),
{
    lemma_frames_snoc(rs.push(v), rs.len() as int);
    assert(rs.push(v).take(rs.len() as int) =~= rs);
    assert(rs.push(v).take(rs.len() as int + 1) =~= rs.push(v));
    assert(rs.push(v)[rs.len() as int] == v);
}

/// The log bytes to append for a batch, one frame per record, written as a
/// single buffer; `None` when some record cannot be framed faithfully.
pub fn frame_records(rs: &Vec<Record>) -> (out: Option<Vec<u8>>)
    ensures
        match out {
            Some(v) => frames_encodable(rs.deep_view()) && v@ == frames(rs.deep_view()),
            None => !frames_encodable(rs.deep_view()),
        },
{
    let mut out: Vec<u8> = Vec::new();
    let mut i: usize = 0;
    proof {
        assert(rs.deep_view().take(0) =~= Seq::<RecordView>::empty());
    }
    while i < rs.len()
        invariant
            i <= rs.len(),
            out@ == frames(rs.deep_view().take(i as int)),
            forall|j: int| 0 <= j < i as int ==> frame_encodable(#[trigger] rs.deep_view()[j]),
        decreases rs.len() - i,
    {
        proof {
            assert(rs.deep_view()[i as int] == rs[i as int].deep_view());
        }
        match frame_record(&rs[i]) {
            Some(fr) => {
                push_slice(&mut out, fr.as_slice());
                proof {
                    lemma_frames_snoc(rs.deep_view(), i as int);
                }
            },
            None => {
                return None;
            },
        }
        i = i + 1;
    }
    proof {
        assert(rs.deep_view().take(rs.len() as int) =~= rs.deep_view());
    }
    Some(out)
}

} // verus!

verus! {

/// Replay of a buffer whose tail from `p` is exactly the frames of `rs`
/// recovers `rs` in full.
#[verifier::rlimit(100)]
proof fn lemma_replay_frames_at(b: Seq<u8>, p: int, rs: Seq<RecordView>)
    requires
        frames_encodable(rs),
        0 <= p <= b.len(),
        p + frames(rs).len() == b.len(),
        b.subrange(p, b.len() as int) == frames(rs),
    ensures
        sp_replay(b, p) == rs,
    decreases rs.len(),
{
    if rs.len() == 0 {
        assert(rd_be32(b, p) is None);
        assert(sp_replay(b, p) =~= rs);
    } else {
        let v0 = rs[0];
        let payload = enc_record(v0);
        let n0 = payload.len() as int;
        let f0 = frame(payload);
        let rest = rs.drop_first();
        assert(frames(rs) == f0 + frames(rest));
        assert(f0 == be32(payload.len() as u32) + payload);
        crate::codec::lemma_subrange_split(b, p, f0, frames(rest));
        crate::codec::lemma_subrange_split(b, p, be32(payload.len() as u32), payload);
        lemma_rd_be32_at(b, p, payload.len() as u32);
        assert(rd_be32(b, p) == Some((payload.len() as u32, p + 4)));
        assert(p + 4 + n0 <= b.len());
        assert(b.subrange(p + 4, p + 4 + n0) == payload);
        lemma_record_round_trip(v0);
        assert(payload_record(b.subrange(p + 4, p + 4 + n0)) == Some(v0));
        assert(forall|i: int| 0 <= i < rest.len() ==> rest[i] == rs[i + 1]);
        lemma_replay_frames_at(b, p + 4 + n0, rest);
        assert(sp_replay(b, p) == seq![v0] + rest);
        assert(seq![v0] + rest =~= rs);
    }
}

/// Replaying an intact log yields exactly the records whose frames were
/// appended, in order.
pub proof fn lemma_replay_all(rs: Seq<RecordView>)
    requires
        frames_encodable(rs),
    ensures
        sp_replay(frames(rs), 0) == rs,
{
    let b = frames(rs);
    assert(b.subrange(0, b.len() as int) =~= b);
    lemma_replay_frames_at(b, 0, rs);
}

/// What a truncation of a concatenation holds of the two halves.
proof fn lemma_take_concat(b: Seq<u8>, p: int, x: Seq<u8>, y: Seq<u8>)
    requires
        0 <= p <= b.len(),
        b.len() - p <= x.len() + y.len(),
        b.subrange(p, b.len() as int) == (x + y).take(b.len() - p),
    ensures
        b.len() - p >= x.len() ==> b.subrange(p, p + x.len()) == x && b.subrange(
            p + x.len(),
            b.len() as int,
        ) == y.take(b.len() - p - x.len()),
        b.len() - p < x.len() ==> b.subrange(p, b.len() as int) == x.take(b.len() - p),
{
    let avail = b.len() - p;
    if avail >= x.len() {
        assert forall|i: int| 0 <= i < x.len() implies #[trigger] b.subrange(p, p + x.len())[i]
            == x[i] by {
            assert(b.subrange(p, b.len() as int)[i] == (x + y).take(avail)[i]);
        }
        assert(b.subrange(p, p + x.len()) =~= x);
        assert forall|i: int| 0 <= i < avail - x.len() implies #[trigger] b.subrange(
            p + x.len(),
            b.len() as int,
        )[i] == y.take(avail - x.len())[i] by {
            assert(b.subrange(p, b.len() as int)[x.len() + i] == (x + y).take(avail)[x.len() + i]);
        }
        assert(b.subrange(p + x.len(), b.len() as int) =~= y.take(avail - x.len()));
    } else {
        assert forall|i: int| 0 <= i < avail implies #[trigger] b.subrange(p, b.len() as int)[i]
            == x.take(avail)[i] by {
            assert(b.subrange(p, b.len() as int)[i] == (x + y).take(avail)[i]);
        }
        assert(b.subrange(p, b.len() as int) =~= x.take(avail));
    }
}

/// Replay of a buffer whose tail from `p` is a truncation of the frames of
/// `rs` recovers a prefix of `rs`.
#[verifier::rlimit(100)]
proof fn lemma_replay_truncated_at(b: Seq<u8>, p: int, rs: Seq<RecordView>)
    requires
        frames_encodable(rs),
        0 <= p <= b.len(),
        b.len() <= p + frames(rs).len(),
        b.subrange(p, b.len() as int) == frames(rs).take(b.len() - p),
    ensures
        exists|k: int| 0 <= k <= rs.len() && sp_replay(b, p) == rs.take(k),
    decreases rs.len(),
{
    let avail = b.len() - p;
    if rs.len() == 0 {
        assert(avail == 0);
        assert(rd_be32(b, p) is None);
        assert(sp_replay(b, p) =~= rs.take(0));
    } else {
        let v0 = rs[0];
        let payload = enc_record(v0);
        let n0 = payload.len() as int;
        let f0 = frame(payload);
        let rest = rs.drop_first();
        assert(frames(rs) == f0 + frames(rest));
        assert(forall|i: int| 0 <= i < rest.len() ==> rest[i] == rs[i + 1]);
        lemma_take_concat(b, p, f0, frames(rest));
        if avail < 4 {
            assert(rd_be32(b, p) is None);
            assert(sp_replay(b, p) =~= rs.take(0));
        } else if avail < 4 + n0 {
            assert(f0 == be32(payload.len() as u32) + payload);
            lemma_take_concat(b, p, be32(payload.len() as u32), payload);
            lemma_rd_be32_at(b, p, payload.len() as u32);
            assert(p + 4 + n0 > b.len());
            assert(sp_replay(b, p) =~= rs.take(0));
        } else {
            assert(b.subrange(p, p + f0.len()) == f0);
            crate::codec::lemma_subrange_split(b, p, be32(payload.len() as u32), payload);
            lemma_rd_be32_at(b, p, payload.len() as u32);
            assert(b.subrange(p + 4, p + 4 + n0) == payload);
            lemma_record_round_trip(v0);
            assert(payload_record(b.subrange(p + 4, p + 4 + n0)) == Some(v0));
            let p2 = p + 4 + n0;
            assert(b.subrange(p2, b.len() as int) == frames(rest).take(b.len() - p2));
            lemma_replay_truncated_at(b, p2, rest);
            let k2 = choose|k2: int| 0 <= k2 <= rest.len() && sp_replay(b, p2) == rest.take(k2);
            assert(sp_replay(b, p) == seq![v0] + rest.take(k2));
            assert(seq![v0] + rest.take(k2) =~= rs.take(k2 + 1));
        }
    }
}

/// Cutting the log at any byte offset and replaying yields a prefix of the
/// records that were appended: a torn tail never invents or reorders data.
pub proof fn lemma_replay_prefix(rs: Seq<RecordView>, cut: int)
    requires
        frames_encodable(rs),
        0 <= cut <= frames(rs).len(),
    ensures
        exists|k: int| 0 <= k <= rs.len() && sp_replay(frames(rs).take(cut), 0) == rs.take(k),
{
    let b = frames(rs).take(cut);
    assert(b.subrange(0, b.len() as int) =~= frames(rs).take(b.len() - 0));
    lemma_replay_truncated_at(b, 0, rs);
}

} // verus!
