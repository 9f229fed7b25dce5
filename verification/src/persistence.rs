//! Persistence bookkeeping: chunk file names, the active-records table that
//! tracks which metrics still depend on the write-ahead log, and the sorting
//! of chunk ids found on disk. The file operations themselves live with the
//! caller; this module computes every name and byte it writes or parses.

use vstd::prelude::*;
use vstd::utf8::{decode_utf8, encode_utf8, valid_utf8};
use crate::chunk::{series_lookup, ChunkError, ChunkView, SeriesView, TimeChunk};
use crate::codec::{be32, be64, enc_i64, enc_record, payload_record, rd_be32, rd_be64, rd_bytes, rd_i64};
use crate::record::{Record, RecordView};
use crate::storage::by_metric;
use crate::wal::{frame, frame_encodable, frames, frames_encodable};

verus! {

/// ASCII bytes are valid UTF-8.
pub proof fn lemma_ascii_valid(bytes: Seq<u8>)
    requires
        forall|i: int| 0 <= i < bytes.len() ==> (#[trigger] bytes[i]) < 0x80,
    ensures
        valid_utf8(bytes),
{
    assert(bytes.subrange(0, 0) =~= Seq::<u8>::empty());
    assert(valid_utf8(bytes.subrange(0, 0)));
    assert(vstd::utf8::partial_valid_utf8(bytes, 0));
    assert forall|i: int| 0 <= i < bytes.len() implies #[trigger] vstd::utf8::is_leading_byte_width_1(
        bytes[i],
    ) by {
        assert(bytes[i] < 0x80);
    }
    vstd::utf8::partial_valid_utf8_extend_ascii_block(bytes, 0, bytes.len() as int);
    assert(bytes.subrange(0, bytes.len() as int) =~= bytes);
}

/// The decimal digits of `n >= 0`, most significant first, no leading zeros.
pub open spec fn dec_digits(n: int) -> Seq<u8>
    decreases n,
{
    if n < 10 {
        seq![(48 + (if n < 0 { 0int } else { n })) as u8]
    } else {
        dec_digits(n / 10) + seq![(48 + n % 10) as u8]
    }
}

/// The decimal rendering of a signed value: an optional minus sign, then
/// digits.
pub open spec fn spec_i64_dec(t: int) -> Seq<u8> {
    if t < 0 {
        seq![45u8] + dec_digits(-t)
    } else {
        dec_digits(t)
    }
}

/// Digits of a non-negative value are ASCII.
pub proof fn lemma_dec_digits_ascii(n: int)
    requires
        n >= 0,
    ensures
        dec_digits(n).len() >= 1,
        forall|i: int| 0 <= i < dec_digits(n).len() ==> 48 <= #[trigger] dec_digits(n)[i] <= 57,
    decreases n,
{
    if n >= 10 {
        lemma_dec_digits_ascii(n / 10);
        vstd::arithmetic::div_mod::lemma_mod_bound(n, 10);
        assert(forall|i: int|
            0 <= i < dec_digits(n / 10).len() ==> #[trigger] dec_digits(n)[i] == dec_digits(
                n / 10,
            )[i]);
        assert(dec_digits(n)[dec_digits(n).len() - 1] == (48 + n % 10) as u8);
    } else {
        assert(dec_digits(n)[0] == (48 + n) as u8);
    }
}

/// Writes the decimal digits of `n` onto `out`.
fn push_dec_u64(out: &mut Vec<u8>, n: u64)
    ensures
        final(out)@ == old(out)@ + dec_digits(n as int),
    decreases n,
{
    if n < 10 {
        out.push(#[verifier::truncate] ((48 + n) as u8));
        proof {
            assert(out@ =~= old(out)@ + dec_digits(n as int));
        }
    } else {
        proof {
            vstd::arithmetic::div_mod::lemma_mod_bound(n as int, 10);
            assert(n as int / 10 < n as int && n as int / 10 >= 0) by (nonlinear_arith)
                requires
                    n as int >= 10,
            ;
            assert((n / 10) as int == n as int / 10);
            assert((n % 10) as int == n as int % 10);
        }
        push_dec_u64(out, n / 10);
        out.push(#[verifier::truncate] ((48 + n % 10) as u8));
        proof {
            assert(out@ =~= old(out)@ + dec_digits(n as int));
        }
    }
}

/// The decimal bytes of a signed value.
pub fn i64_dec_bytes(t: i64) -> (r: Vec<u8>)
    ensures
        r@ == spec_i64_dec(t as int),
{
    let mut out: Vec<u8> = Vec::new();
    if t < 0 {
        out.push(45u8);
        let mag: u64 = ((-(t + 1)) as u64) + 1;
        proof {
            assert(mag as int == -(t as int));
        }
        push_dec_u64(&mut out, mag);
        proof {
            assert(out@ =~= spec_i64_dec(t as int));
        }
    } else {
        push_dec_u64(&mut out, t as u64);
    }
    out
}

/// Turns ASCII bytes into an owned string; the bytes are the UTF-8 image of
/// the result.
pub fn ascii_to_string(b: &Vec<u8>) -> (r: Option<String>)
    ensures
        (forall|i: int| 0 <= i < b@.len() ==> (#[trigger] b@[i]) < 0x80) ==> (r is Some
            && encode_utf8(r->Some_0@) == b@),
{
    proof {
        if forall|i: int| 0 <= i < b@.len() ==> (#[trigger] b@[i]) < 0x80 {
            lemma_ascii_valid(b@);
            vstd::utf8::decode_utf8_encode_utf8(b@);
        }
    }
    match crate::codec::bytes_to_string(b.as_slice()) {
        Some(s) => Some(s),
        None => None,
    }
}

/// The file name under which a chunk with this window start is stored:
/// its decimal id, then the chunk suffix.
pub open spec fn spec_chunk_file_name(id: int) -> Seq<u8> {
    spec_i64_dec(id) + seq![46u8, 99u8, 104u8, 117u8, 110u8, 107u8]
}

/// Renders the file name for a chunk id; see [`spec_chunk_file_name`].
pub fn chunk_file_name(chunk_id: i64) -> (r: String)
    ensures
        encode_utf8(r@) == spec_chunk_file_name(chunk_id as int),
{
    let mut b = i64_dec_bytes(chunk_id);
    b.push(46u8);
    b.push(99u8);
    b.push(104u8);
    b.push(117u8);
    b.push(110u8);
    b.push(107u8);
    proof {
        assert(b@ =~= spec_chunk_file_name(chunk_id as int));
        if chunk_id >= 0 {
            lemma_dec_digits_ascii(chunk_id as int);
        } else {
            lemma_dec_digits_ascii(-(chunk_id as int));
        }
        assert forall|i: int| 0 <= i < b@.len() implies (#[trigger] b@[i]) < 0x80 by {
            let digits = spec_i64_dec(chunk_id as int);
            if i < digits.len() {
                if chunk_id >= 0 {
                    assert(b@[i] == dec_digits(chunk_id as int)[i]);
                } else {
                    if i > 0 {
                        assert(b@[i] == dec_digits(-(chunk_id as int))[i - 1]);
                    }
                }
            }
        }
    }
    match ascii_to_string(&b) {
        Some(s) => s,
        None => {
            proof {
                assert(false);
            }
            String::new()
        },
    }
}

} // verus!

verus! {

/// All bytes are ASCII digits.
pub open spec fn all_digits(b: Seq<u8>) -> bool {
    forall|i: int| 0 <= i < b.len() ==> 48 <= #[trigger] b[i] <= 57
}

/// The value of ASCII digits, most significant first.
pub open spec fn dec_value(b: Seq<u8>) -> int
    decreases b.len(),
{
    if b.len() == 0 {
        0
    } else {
        dec_value(b.drop_last()) * 10 + (b.last() - 48)
    }
}

/// Parses a decimal rendering with an optional minus sign, within the
/// signed 64-bit range.
pub open spec fn spec_parse_i64(b: Seq<u8>) -> Option<int> {
    if b.len() > 0 && b[0] == 45 {
        let digits = b.drop_first();
        if digits.len() > 0 && all_digits(digits) && -dec_value(digits) >= i64::MIN {
            Some(-dec_value(digits))
        } else {
            None
        }
    } else if b.len() > 0 && all_digits(b) && dec_value(b) <= i64::MAX {
        Some(dec_value(b))
    } else {
        None
    }
}

/// Digit prefixes never exceed the whole value.
pub(crate) proof fn lemma_dec_value_mono(b: Seq<u8>, j: int)
    requires
        all_digits(b),
        0 <= j <= b.len(),
    ensures
        0 <= dec_value(b.take(j)) <= dec_value(b),
        dec_value(b.take(b.len() as int)) == dec_value(b),
    decreases b.len() - j,
{
    lemma_dec_value_nonneg(b);
    assert(b.take(b.len() as int) =~= b);
    if j < b.len() {
        lemma_dec_value_mono(b, j + 1);
        assert(b.take(j + 1).drop_last() =~= b.take(j));
        assert(b.take(j + 1).last() == b[j]);
        assert(all_digits(b.take(j))) by {
            assert(forall|i: int| 0 <= i < j ==> b.take(j)[i] == b[i]);
        }
        lemma_dec_value_nonneg(b.take(j));
        assert(dec_value(b.take(j)) <= dec_value(b.take(j)) * 10 + (b[j] - 48)) by (nonlinear_arith)
            requires
                dec_value(b.take(j)) >= 0,
                48 <= b[j] <= 57,
        ;
    }
}

/// The value of digits is never negative.
pub(crate) proof fn lemma_dec_value_nonneg(b: Seq<u8>)
    requires
        all_digits(b),
    ensures
        dec_value(b) >= 0,
    decreases b.len(),
{
    if b.len() > 0 {
        assert(all_digits(b.drop_last())) by {
            assert(forall|i: int| 0 <= i < b.len() - 1 ==> b.drop_last()[i] == b[i]);
        }
        lemma_dec_value_nonneg(b.drop_last());
        assert(dec_value(b.drop_last()) * 10 >= 0) by (nonlinear_arith)
            requires
                dec_value(b.drop_last()) >= 0,
        ;
    }
}

/// Parses decimal bytes as a signed 64-bit value; see [`spec_parse_i64`].
pub fn parse_i64_dec(b: &[u8]) -> (r: Option<i64>)
    ensures
        match r {
            Some(t) => spec_parse_i64(b@) == Some(t as int),
            None => spec_parse_i64(b@) is None,
        },
{
    if b.len() == 0 {
        return None;
    }
    let negative = b[0] == 45u8;
    let start: usize = if negative {
        1
    } else {
        0
    };
    if b.len() == start {
        return None;
    }
    let ghost digits = if negative {
        b@.drop_first()
    } else {
        b@
    };
    proof {
        assert(digits.len() == b@.len() - start as int);
        assert(forall|i: int| 0 <= i < digits.len() ==> digits[i] == b@[i + start as int]);
    }
    let mut acc: i64 = 0;
    let mut j: usize = start;
    proof {
        assert(digits.take(0) =~= Seq::<u8>::empty());
    }
    while j < b.len()
        invariant
            start <= j <= b@.len(),
            b@.len() > 0,
            negative == (b@[0] == 45),
            start as int == (if negative {
                1int
            } else {
                0int
            }),
            digits == (if negative {
                b@.drop_first()
            } else {
                b@
            }),
            digits.len() == b@.len() - start as int,
            forall|i: int| 0 <= i < digits.len() ==> digits[i] == b@[i + start as int],
            all_digits(digits.take(j - start)),
            acc as int == (if negative {
                -dec_value(digits.take(j - start))
            } else {
                dec_value(digits.take(j - start))
            }),
        decreases b@.len() - j,
    {
        let ghost jj = j - start;
        let c = b[j];
        if c < 48u8 || c > 57u8 {
            proof {
                assert(digits[jj] == c);
                assert(!all_digits(digits));
            }
            return None;
        }
        proof {
            assert(digits.take(jj + 1).drop_last() =~= digits.take(jj as int));
            assert(digits.take(jj + 1).last() == digits[jj]);
            assert(all_digits(digits.take(jj + 1))) by {
                assert(forall|i: int|
                    0 <= i < jj + 1 ==> digits.take(jj + 1)[i] == digits[i]);
            }
        }
        let step = if negative {
            match acc.checked_mul(10) {
                Some(x) => x.checked_sub((c - 48u8) as i64),
                None => None,
            }
        } else {
            match acc.checked_mul(10) {
                Some(x) => x.checked_add((c - 48u8) as i64),
                None => None,
            }
        };
        match step {
            Some(x) => {
                acc = x;
            },
            None => {
                proof {
                    lemma_dec_value_nonneg(digits.take(jj as int));
                    lemma_overflow_implies_out_of_range(digits, jj + 1, negative);
                }
                return None;
            },
        }
        j = j + 1;
    }
    proof {
        assert(digits.take(digits.len() as int) =~= digits);
    }
    Some(acc)
}

/// A prefix already out of the 64-bit range puts the whole value out of it.
proof fn lemma_overflow_implies_out_of_range(digits: Seq<u8>, j: int, negative: bool)
    requires
        all_digits(digits.take(j)),
        0 < j <= digits.len(),
        negative ==> -(dec_value(digits.take(j - 1)) * 10 + (digits[j - 1] - 48)) < i64::MIN,
        !negative ==> dec_value(digits.take(j - 1)) * 10 + (digits[j - 1] - 48) > i64::MAX,
    ensures
        all_digits(digits) ==> (if negative {
            -dec_value(digits) < i64::MIN
        } else {
            dec_value(digits) > i64::MAX
        }),
{
    if all_digits(digits) {
        lemma_dec_value_mono(digits, j);
        assert(digits.take(j).drop_last() =~= digits.take(j - 1));
        assert(digits.take(j).last() == digits[j - 1]);
        assert(dec_value(digits.take(j)) == dec_value(digits.take(j - 1)) * 10 + (digits[j - 1]
            - 48));
    }
}

/// The suffix that marks a chunk file.
pub open spec fn chunk_suffix() -> Seq<u8> {
    seq![46u8, 99u8, 104u8, 117u8, 110u8, 107u8]
}

/// A chunk file name is decimal digits and the chunk suffix; the digits are
/// the chunk id.
pub open spec fn spec_parse_chunk_name(b: Seq<u8>) -> Option<int> {
    if b.len() >= 6 && b.subrange(b.len() - 6, b.len() as int) == chunk_suffix() {
        spec_parse_i64(b.take(b.len() - 6))
    } else {
        None
    }
}

/// Parses a directory entry name as a chunk id; see
/// [`spec_parse_chunk_name`].
pub fn parse_chunk_file_name(name: &str) -> (r: Option<i64>)
    ensures
        match r {
            Some(id) => spec_parse_chunk_name(encode_utf8(name@)) == Some(id as int),
            None => spec_parse_chunk_name(encode_utf8(name@)) is None,
        },
{
    let b = name.as_bytes();
    if b.len() < 6 {
        return None;
    }
    let n = b.len();
    if !(b[n - 6] == 46u8 && b[n - 5] == 99u8 && b[n - 4] == 104u8 && b[n - 3] == 117u8 && b[n
        - 2] == 110u8 && b[n - 1] == 107u8) {
        proof {
            assert(b@.subrange(b@.len() - 6, b@.len() as int) != chunk_suffix()) by {
                if b@.subrange(b@.len() - 6, b@.len() as int) == chunk_suffix() {
                    assert(b@.subrange(b@.len() - 6, b@.len() as int)[0] == b@[b@.len() - 6]);
                    assert(b@.subrange(b@.len() - 6, b@.len() as int)[1] == b@[b@.len() - 5]);
                    assert(b@.subrange(b@.len() - 6, b@.len() as int)[2] == b@[b@.len() - 4]);
                    assert(b@.subrange(b@.len() - 6, b@.len() as int)[3] == b@[b@.len() - 3]);
                    assert(b@.subrange(b@.len() - 6, b@.len() as int)[4] == b@[b@.len() - 2]);
                    assert(b@.subrange(b@.len() - 6, b@.len() as int)[5] == b@[b@.len() - 1]);
                }
            }
        }
        return None;
    }
    proof {
        assert(b@.subrange(b@.len() - 6, b@.len() as int) =~= chunk_suffix());
    }
    let stem = vstd::slice::slice_subrange(b, 0, n - 6);
    parse_i64_dec(stem)
}

} // verus!

verus! {

/// Some directory entry parses to this chunk id.
pub open spec fn names_have_id(ns: Seq<Seq<char>>, id: int) -> bool {
    exists|i: int|
        0 <= i < ns.len() && spec_parse_chunk_name(encode_utf8(#[trigger] ns[i])) == Some(id)
}

/// The latest timestamp the write-ahead log has seen for each metric, used
/// to tell which log entries a flushed chunk has made redundant.
pub struct PersistenceManager {
    /// One entry per metric: the greatest timestamp appended for it.
    pub active_records: Vec<(String, i64)>,
}

/// The latest noted timestamp for a metric, scanning in entry order.
pub open spec fn ar_lookup(es: Seq<(Seq<char>, i64)>, m: Seq<char>) -> Option<i64>
    decreases es.len(),
{
    if es.len() == 0 {
        None
    } else if es[0].0 == m {
        Some(es[0].1)
    } else {
        ar_lookup(es.drop_first(), m)
    }
}

/// Entry keys are unique.
pub open spec fn ar_wf(es: Seq<(Seq<char>, i64)>) -> bool {
    forall|i: int, j: int| 0 <= i < j < es.len() ==> (#[trigger] es[i]).0 != (#[trigger] es[j]).0
}

/// The entries whose timestamps are not yet covered by a durable chunk.
pub open spec fn ar_retain(es: Seq<(Seq<char>, i64)>, chunk_end: int) -> Seq<(Seq<char>, i64)>
    decreases es.len(),
{
    if es.len() == 0 {
        Seq::empty()
    } else if es[0].1 >= chunk_end {
        seq![es[0]] + ar_retain(es.drop_first(), chunk_end)
    } else {
        ar_retain(es.drop_first(), chunk_end)
    }
}

impl PersistenceManager {
    pub open spec fn entries(self) -> Seq<(Seq<char>, i64)> {
        self.active_records.deep_view()
    }

    pub open spec fn wf(self) -> bool {
        ar_wf(self.entries())
    }

    /// A manager with an empty table.
    pub fn new() -> (r: Self)
        ensures
            r.wf(),
            r.entries().len() == 0,
    {
        let r = PersistenceManager { active_records: Vec::new() };
        proof {
            assert(r.entries() =~= Seq::<(Seq<char>, i64)>::empty());
        }
        r
    }

    /// Notes that the log now holds `timestamp` as the latest entry for the
    /// metric.
    pub fn note_record(&mut self, metric: &String, timestamp: i64)
        requires
            old(self).wf(),
        ensures
            final(self).wf(),
            ar_lookup(final(self).entries(), metric@) == Some(timestamp),
            forall|m: Seq<char>|
                m != metric@ ==> #[trigger] ar_lookup(final(self).entries(), m) == ar_lookup(
                    old(self).entries(),
                    m,
                ),
    {
        let ghost olde = self.entries();
        let mut i: usize = 0;
        while i < self.active_records.len()
            invariant
                i <= self.active_records@.len(),
                olde == self.entries(),
                old(self).wf(),
                olde == old(self).entries(),
                forall|j: int| 0 <= j < i as int ==> (#[trigger] olde[j]).0 != metric@,
            decreases self.active_records@.len() - i,
        {
            if crate::strutil::str_eq(self.active_records[i].0.as_str(), metric.as_str()) {
                proof {
                    assert(olde[i as int].0 == metric@);
                }
                let _old_entry = self.active_records.remove(i);
                self.active_records.insert(i, (metric.clone(), timestamp));
                proof {
                    let e2 = (metric@, timestamp);
                    assert(self.entries() =~= olde.update(i as int, e2));
                    lemma_ar_update(olde, i as int, e2, metric@);
                    assert forall|m: Seq<char>| m != metric@ implies #[trigger] ar_lookup(
                        self.entries(),
                        m,
                    ) == ar_lookup(olde, m) by {
                        lemma_ar_update(olde, i as int, e2, m);
                    }
                }
                return ;
            }
            i = i + 1;
        }
        let ghost prev = self.active_records;
        let entry = (metric.clone(), timestamp);
        let ghost ev = entry;
        self.active_records.push(entry);
        proof {
            crate::codec::lemma_deep_view_push(prev, self.active_records, ev);
            assert(self.entries() == olde.push((metric@, timestamp)));
            lemma_ar_push(olde, (metric@, timestamp), metric@);
            assert forall|m: Seq<char>| m != metric@ implies #[trigger] ar_lookup(
                self.entries(),
                m,
            ) == ar_lookup(olde, m) by {
                lemma_ar_push(olde, (metric@, timestamp), m);
            }
            assert forall|a: int, b: int|
                0 <= a < b < self.entries().len() implies (#[trigger] self.entries()[a]).0 != (
            #[trigger] self.entries()[b]).0 by {
                if b == self.entries().len() - 1 {
                    assert(self.entries()[a] == olde[a]);
                } else {
                    assert(self.entries()[a] == olde[a] && self.entries()[b] == olde[b]);
                }
            }
        }
    }

    /// Drops every entry a durable chunk now covers: those with timestamps
    /// before the chunk's window end.
    pub fn mark_chunk_durable(&mut self, chunk_id: i64, chunk_duration_secs: i64) -> (r: Result<
        (),
        crate::storage::StorageError,
    >)
        requires
            old(self).wf(),
            chunk_id as int + chunk_duration_secs as int <= i64::MAX,
            chunk_duration_secs >= 0,
        ensures
            r is Ok,
            final(self).wf(),
            final(self).entries() == ar_retain(
                old(self).entries(),
                chunk_id as int + chunk_duration_secs as int,
            ),
    {
        let chunk_end = chunk_id + chunk_duration_secs;
        let ghost olde = self.entries();
        let total = self.active_records.len();
        let mut kept: Vec<(String, i64)> = Vec::new();
        proof {
            assert(olde.skip(0) =~= olde);
            assert(kept.deep_view() + ar_retain(olde.skip(0), chunk_end as int) =~= ar_retain(
                olde,
                chunk_end as int,
            ));
        }
        let mut p: usize = 0;
        while self.active_records.len() > 0
            invariant
                p <= total,
                total as int == olde.len(),
                p as int + self.active_records@.len() == olde.len(),
                self.active_records.deep_view() == olde.skip(p as int),
                ar_retain(olde, chunk_end as int) == kept.deep_view() + ar_retain(
                    olde.skip(p as int),
                    chunk_end as int,
                ),
            decreases self.active_records@.len(),
        {
            let ghost preq = self.active_records@;
            let ghost predeep = self.active_records.deep_view();
            let e = self.active_records.remove(0);
            let ghost ev = e.deep_view();
            proof {
                preq.remove_ensures(0);
                assert(ev == olde.skip(p as int)[0]);
                assert forall|j: int| 0 <= j < self.active_records.deep_view().len() implies
                    #[trigger] self.active_records.deep_view()[j] == olde.skip(p as int + 1)[j] by {
                    assert(self.active_records@[j] == preq[j + 1]);
                    assert(predeep[j + 1] == preq[j + 1].deep_view());
                    assert(predeep[j + 1] == olde.skip(p as int)[j + 1]);
                }
                assert(self.active_records.deep_view() =~= olde.skip(p as int + 1));
                assert(olde.skip(p as int).drop_first() =~= olde.skip(p as int + 1));
            }
            if e.1 >= chunk_end {
                let ghost prev = kept;
                kept.push(e);
                proof {
                    crate::codec::lemma_deep_view_push(prev, kept, e);
                    assert(kept.deep_view() + ar_retain(olde.skip(p as int + 1), chunk_end as int)
                        =~= prev.deep_view() + (seq![ev] + ar_retain(
                        olde.skip(p as int + 1),
                        chunk_end as int,
                    )));
                }
            }
            p = p + 1;
        }
        proof {
            assert(olde.skip(olde.len() as int) =~= Seq::<(Seq<char>, i64)>::empty());
            assert(ar_retain(Seq::<(Seq<char>, i64)>::empty(), chunk_end as int) == Seq::<
                (Seq<char>, i64),
            >::empty());
            assert(kept.deep_view() + Seq::<(Seq<char>, i64)>::empty() =~= kept.deep_view());
        }
        self.active_records = kept;
        proof {
            lemma_ar_retain_wf(olde, chunk_end as int);
        }
        Ok(())
    }
}

/// Replacing an entry with one of the same key rewrites that key alone.
proof fn lemma_ar_update(es: Seq<(Seq<char>, i64)>, i: int, e2: (Seq<char>, i64), m: Seq<char>)
    requires
        ar_wf(es),
        0 <= i < es.len(),
        e2.0 == es[i].0,
    ensures
        ar_lookup(es.update(i, e2), m) == (if m == es[i].0 {
            Some(e2.1)
        } else {
            ar_lookup(es, m)
        }),
        ar_wf(es.update(i, e2)),
    decreases i,
{
    let u = es.update(i, e2);
    if i == 0 {
        assert(u.drop_first() =~= es.drop_first());
    } else {
        let d = es.drop_first();
        assert(forall|j: int| 0 <= j < d.len() ==> d[j] == es[j + 1]);
        assert(ar_wf(d));
        lemma_ar_update(d, i - 1, e2, m);
        assert(u.drop_first() =~= d.update(i - 1, e2));
        assert(u[0] == es[0]);
        assert(es[0].0 != es[i].0);
    }
    assert forall|a: int, b: int| 0 <= a < b < u.len() implies (#[trigger] u[a]).0 != (
    #[trigger] u[b]).0 by {
        assert(u[a].0 == es[a].0 && u[b].0 == es[b].0);
    }
}

/// Appending an entry with a fresh key adds that key alone.
proof fn lemma_ar_push(es: Seq<(Seq<char>, i64)>, e2: (Seq<char>, i64), m: Seq<char>)
    requires
        forall|j: int| 0 <= j < es.len() ==> (#[trigger] es[j]).0 != e2.0,
    ensures
        ar_lookup(es.push(e2), m) == (if m == e2.0 {
            Some(e2.1)
        } else {
            ar_lookup(es, m)
        }),
    decreases es.len(),
{
    let u = es.push(e2);
    assert(u.len() == es.len() + 1);
    if es.len() == 0 {
        assert(u[0] == e2);
        assert(u.drop_first() =~= Seq::<(Seq<char>, i64)>::empty());
        assert(ar_lookup(Seq::<(Seq<char>, i64)>::empty(), m) is None);
    } else {
        lemma_ar_push(es.drop_first(), e2, m);
        assert(u.drop_first() =~= es.drop_first().push(e2));
        assert(u[0] == es[0]);
    }
}

/// Retention keeps key uniqueness.
proof fn lemma_ar_retain_wf(es: Seq<(Seq<char>, i64)>, chunk_end: int)
    requires
        ar_wf(es),
    ensures
        ar_wf(ar_retain(es, chunk_end)),
        forall|j: int|
            0 <= j < ar_retain(es, chunk_end).len() ==> es.contains(
                #[trigger] ar_retain(es, chunk_end)[j],
            ),
    decreases es.len(),
{
    if es.len() > 0 {
        let d = es.drop_first();
        assert(forall|j: int| 0 <= j < d.len() ==> d[j] == es[j + 1]);
        assert(ar_wf(d));
        lemma_ar_retain_wf(d, chunk_end);
        let r = ar_retain(es, chunk_end);
        let rd = ar_retain(d, chunk_end);
        assert forall|j: int| 0 <= j < r.len() implies es.contains(#[trigger] r[j]) by {
            let base: int = if es[0].1 >= chunk_end {
                1
            } else {
                0
            };
            if base == 1 && j == 0 {
                assert(es[0] == r[0]);
            } else {
                assert(r[j] == rd[j - base]);
                let a = choose|a: int| 0 <= a < d.len() && d[a] == rd[j - base];
                assert(es[a + 1] == r[j]);
            }
        }
        if es[0].1 >= chunk_end {
            assert forall|a: int, b: int| 0 <= a < b < r.len() implies (#[trigger] r[a]).0 != (
            #[trigger] r[b]).0 by {
                if a == 0 {
                    assert(r[b] == rd[b - 1]);
                    let x = choose|x: int| 0 <= x < d.len() && d[x] == rd[b - 1];
                    assert(es[x + 1] == r[b]);
                } else {
                    assert(r[a] == rd[a - 1] && r[b] == rd[b - 1]);
                }
            }
        }
    }
}

/// The chunk ids named by directory entries, each once and in ascending
/// order.
pub fn list_chunks(names: &Vec<String>) -> (r: Vec<i64>)
    ensures
        forall|j: int, l: int| 0 <= j < l < r@.len() ==> r@[j] < r@[l],
        forall|id: i64| #[trigger] r@.contains(id) == names_have_id(names.deep_view(), id as int),
{
    let ghost ns = names.deep_view();
    let mut out: Vec<i64> = Vec::new();
    let mut i: usize = 0;
    proof {
        assert forall|id: i64| !(#[trigger] out@.contains(id)) by {
            assert(out@.len() == 0);
        }
    }
    while i < names.len()
        invariant
            i <= names@.len(),
            ns == names.deep_view(),
            forall|j: int, l: int| 0 <= j < l < out@.len() ==> out@[j] < out@[l],
            forall|id: i64|
                #[trigger] out@.contains(id) == exists|a: int|
                    0 <= a < i as int && spec_parse_chunk_name(encode_utf8(#[trigger] ns[a]))
                        == Some(id as int),
        decreases names@.len() - i,
    {
        proof {
            assert(ns[i as int] == names@[i as int]@);
        }
        match parse_chunk_file_name(names[i].as_str()) {
            Some(id) => {
                let mut pos: usize = 0;
                while pos < out.len() && out[pos] < id
                    invariant
                        pos <= out@.len(),
                        forall|j: int, l: int| 0 <= j < l < out@.len() ==> out@[j] < out@[l],
                        forall|j: int| 0 <= j < pos as int ==> out@[j] < id,
                    decreases out@.len() - pos,
                {
                    pos = pos + 1;
                }
                let dup = pos < out.len() && out[pos] == id;
                if !dup {
                    let ghost prev = out@;
                    out.insert(pos, id);
                    proof {
                        prev.insert_ensures(pos as int, id);
                        assert forall|j: int, l: int| 0 <= j < l < out@.len() implies out@[j]
                            < out@[l] by {
                            if l < pos as int {
                            } else if j < pos as int && l == pos as int {
                            } else if j < pos as int {
                                assert(out@[l] == prev[l - 1]);
                            } else if j == pos as int {
                                assert(out@[l] == prev[l - 1]);
                                assert(prev[l - 1] > id || prev[l - 1] == id || prev[l - 1] < id);
                                if (pos as int) < prev.len() {
                                    assert(prev[pos as int] > id);
                                }
                            } else {
                                assert(out@[j] == prev[j - 1] && out@[l] == prev[l - 1]);
                            }
                        }
                        assert forall|x: i64| #[trigger] out@.contains(x) == (prev.contains(x) || x
                            == id) by {
                            if prev.contains(x) {
                                let a = choose|a: int| 0 <= a < prev.len() && prev[a] == x;
                                if a < pos as int {
                                    assert(out@[a] == x);
                                } else {
                                    assert(out@[a + 1] == x);
                                }
                            }
                            if x == id {
                                assert(out@[pos as int] == x);
                            }
                            if out@.contains(x) {
                                let a = choose|a: int| 0 <= a < out@.len() && out@[a] == x;
                                if a < pos as int {
                                    assert(prev[a] == x);
                                } else if a > pos as int {
                                    assert(prev[a - 1] == x);
                                }
                            }
                        }
                    }
                }
                proof {
                    assert forall|x: i64| #[trigger] out@.contains(x) == exists|a: int|
                        0 <= a < i as int + 1 && spec_parse_chunk_name(
                        encode_utf8(#[trigger] ns[a]),
                    ) == Some(x as int) by {
                        if out@.contains(x) && !(exists|a: int|
                            0 <= a < i as int && spec_parse_chunk_name(
                            encode_utf8(#[trigger] ns[a]),
                        ) == Some(x as int)) {
                            assert(x == id);
                            assert(spec_parse_chunk_name(encode_utf8(ns[i as int])) == Some(
                                x as int,
                            ));
                        }
                        if exists|a: int|
                            0 <= a < i as int + 1 && spec_parse_chunk_name(
                            encode_utf8(#[trigger] ns[a]),
                        ) == Some(x as int) {
                            let a = choose|a: int|
                                0 <= a < i as int + 1 && spec_parse_chunk_name(
                                encode_utf8(#[trigger] ns[a]),
                            ) == Some(x as int);
                            if a == i as int {
                                assert(x == id);
                            }
                        }
                    }
                }
            },
            None => {
                proof {
                    assert forall|x: i64| #[trigger] out@.contains(x) == exists|a: int|
                        0 <= a < i as int + 1 && spec_parse_chunk_name(
                        encode_utf8(#[trigger] ns[a]),
                    ) == Some(x as int) by {
                        if exists|a: int|
                            0 <= a < i as int + 1 && spec_parse_chunk_name(
                            encode_utf8(#[trigger] ns[a]),
                        ) == Some(x as int) {
                            let a = choose|a: int|
                                0 <= a < i as int + 1 && spec_parse_chunk_name(
                                encode_utf8(#[trigger] ns[a]),
                            ) == Some(x as int);
                            assert(a < i as int);
                        }
                    }
                }
            },
        }
        i = i + 1;
    }
    out
}

} // verus!

verus! {

/// Reads one length-framed record.
pub open spec fn rd_frec(b: Seq<u8>, p: int) -> Option<(RecordView, int)> {
    match rd_bytes(b, p) {
        Some((pl, q)) => match payload_record(pl) {
            Some(v) => Some((v, q)),
            None => None,
        },
        None => None,
    }
}

/// Reads `n` length-framed records.
pub open spec fn rd_frecs(b: Seq<u8>, p: int, n: nat) -> Option<(Seq<RecordView>, int)>
    decreases n,
{
    if n == 0 {
        Some((Seq::empty(), p))
    } else {
        match rd_frec(b, p) {
            Some((v, q)) => match rd_frecs(b, q, (n - 1) as nat) {
                Some((rest, r)) => Some((seq![v] + rest, r)),
                None => None,
            },
            None => None,
        }
    }
}

/// All records of a chunk, series by series in index order.
pub open spec fn flatten_series(ss: Seq<SeriesView>) -> Seq<RecordView>
    decreases ss.len(),
{
    if ss.len() == 0 {
        Seq::empty()
    } else {
        ss[0].records + flatten_series(ss.drop_first())
    }
}

/// The parsed pieces of a chunk file: window start and end, creation and
/// access times, compression ratio pattern, and the stored records. The
/// whole buffer must be consumed.
pub open spec fn rd_chunk(b: Seq<u8>) -> Option<(int, int, int, int, u64, Seq<RecordView>)> {
    match rd_i64(b, 0) {
        Some((st, p1)) => match rd_i64(b, p1) {
            Some((en, p2)) => match rd_i64(b, p2) {
                Some((cr, p3)) => match rd_i64(b, p3) {
                    Some((la, p4)) => match rd_be64(b, p4) {
                        Some((ratio, p5)) => match rd_be32(b, p5) {
                            Some((n, p6)) => match rd_frecs(b, p6, n as nat) {
                                Some((rs, p7)) => if p7 == b.len() {
                                    Some((st, en, cr, la, ratio, rs))
                                } else {
                                    None
                                },
                                None => None,
                            },
                            None => None,
                        },
                        None => None,
                    },
                    None => None,
                },
                None => None,
            },
            None => None,
        },
        None => None,
    }
}

/// A chunk fits the file format: the record count fits its prefix and every
/// record fits its frame.
pub open spec fn chunk_encodable(cv: ChunkView) -> bool {
    &&& flatten_series(cv.series).len() <= u32::MAX
    &&& frames_encodable(flatten_series(cv.series))
    &&& i64::MIN <= cv.start_time <= i64::MAX
    &&& i64::MIN <= cv.end_time <= i64::MAX
    &&& i64::MIN <= cv.created_at <= i64::MAX
    &&& i64::MIN <= cv.last_access <= i64::MAX
}

/// The byte image of a chunk file.
pub open spec fn enc_chunk(cv: ChunkView) -> Seq<u8> {
    enc_i64(cv.start_time) + (enc_i64(cv.end_time) + (enc_i64(cv.created_at) + (enc_i64(
        cv.last_access,
    ) + (be64(cv.compression_ratio_bits) + (be32(flatten_series(cv.series).len() as u32) + frames(
        flatten_series(cv.series),
    ))))))
}

/// One frame read inverts one frame written.
#[verifier::rlimit(100)]
proof fn lemma_rd_frec_at(b: Seq<u8>, p: int, v: RecordView)
    requires
        0 <= p,
        frame_encodable(v),
        p + frame(enc_record(v)).len() <= b.len(),
        b.subrange(p, p + frame(enc_record(v)).len()) == frame(enc_record(v)),
    ensures
        rd_frec(b, p) == Some((v, p + frame(enc_record(v)).len())),
{
    crate::codec::lemma_rd_bytes_at(b, p, enc_record(v));
    crate::codec::lemma_record_round_trip(v);
}

/// Reading `n` frames inverts writing them.
proof fn lemma_rd_frecs_at(b: Seq<u8>, p: int, rs: Seq<RecordView>)
    requires
        0 <= p,
        frames_encodable(rs),
        p + frames(rs).len() <= b.len(),
        b.subrange(p, p + frames(rs).len()) == frames(rs),
    ensures
        rd_frecs(b, p, rs.len()) == Some((rs, p + frames(rs).len())),
    decreases rs.len(),
{
    if rs.len() == 0 {
        assert(rs =~= Seq::<RecordView>::empty());
    } else {
        let v0 = rs[0];
        let f0 = frame(enc_record(v0));
        let rest = rs.drop_first();
        assert(frames(rs) == f0 + frames(rest));
        crate::codec::lemma_subrange_split(b, p, f0, frames(rest));
        lemma_rd_frec_at(b, p, v0);
        assert(forall|i: int| 0 <= i < rest.len() ==> rest[i] == rs[i + 1]);
        lemma_rd_frecs_at(b, p + f0.len(), rest);
        assert(seq![v0] + rest =~= rs);
    }
}

/// Restricting to one metric distributes over concatenation.
pub proof fn lemma_by_metric_concat(a: Seq<RecordView>, b: Seq<RecordView>, m: Seq<char>)
    ensures
        by_metric(a + b, m) == by_metric(a, m) + by_metric(b, m),
    decreases b.len(),
{
    if b.len() == 0 {
        assert(a + b =~= a);
        assert(by_metric(a, m) + by_metric(b, m) =~= by_metric(a, m));
    } else {
        lemma_by_metric_concat(a, b.drop_last(), m);
        assert((a + b).drop_last() =~= a + b.drop_last());
        assert((a + b).last() == b.last());
        if b.last().metric_name == m {
            assert(by_metric(a, m) + by_metric(b, m) =~= (by_metric(a, m) + by_metric(
                b.drop_last(),
                m,
            )).push(b.last()));
        }
    }
}

/// Restricting a uniformly named sequence keeps all or nothing.
pub proof fn lemma_by_metric_uniform(rs: Seq<RecordView>, name: Seq<char>, m: Seq<char>)
    requires
        forall|k: int| 0 <= k < rs.len() ==> (#[trigger] rs[k]).metric_name == name,
    ensures
        by_metric(rs, m) == (if m == name && rs.len() > 0 {
            rs
        } else if rs.len() == 0 {
            Seq::<RecordView>::empty()
        } else {
            Seq::<RecordView>::empty()
        }),
    decreases rs.len(),
{
    if rs.len() > 0 {
        assert(forall|k: int| 0 <= k < rs.len() - 1 ==> rs.drop_last()[k] == rs[k]);
        lemma_by_metric_uniform(rs.drop_last(), name, m);
        if m == name {
            assert(by_metric(rs, m) =~= rs);
        }
    } else {
        assert(by_metric(rs, m) =~= Seq::<RecordView>::empty());
    }
}

/// Grouping the flattened records by metric recovers each series.
pub proof fn lemma_flatten_by_metric(ss: Seq<SeriesView>, m: Seq<char>)
    requires
        crate::chunk::series_wf(ss),
    ensures
        by_metric(flatten_series(ss), m) == series_lookup(ss, m),
    decreases ss.len(),
{
    if ss.len() == 0 {
        assert(by_metric(flatten_series(ss), m) =~= series_lookup(ss, m));
    } else {
        let d = ss.drop_first();
        assert(forall|i: int| 0 <= i < d.len() ==> d[i] == ss[i + 1]);
        assert(crate::chunk::series_wf(d));
        lemma_flatten_by_metric(d, m);
        lemma_by_metric_concat(ss[0].records, flatten_series(d), m);
        lemma_by_metric_uniform(ss[0].records, ss[0].name, m);
        if m == ss[0].name {
            crate::chunk::lemma_series_has_iff(d, m);
            crate::chunk::lemma_lookup_props(d, m);
            assert(!crate::chunk::series_has(d, m)) by {
                if crate::chunk::series_has(d, m) {
                    let i = choose|i: int| 0 <= i < d.len() && (#[trigger] d[i]).name == m;
                    assert(ss[i + 1].name == ss[0].name);
                }
            }
            assert(series_lookup(d, m) == Seq::<RecordView>::empty());
            assert(ss[0].records + Seq::<RecordView>::empty() =~= ss[0].records);
        } else {
            assert(Seq::<RecordView>::empty() + series_lookup(d, m) =~= series_lookup(d, m));
        }
    }
}

/// The flattened record stream counts every record.
pub proof fn lemma_flatten_total(ss: Seq<SeriesView>)
    ensures
        flatten_series(ss).len() == crate::chunk::series_total(ss),
    decreases ss.len(),
{
    if ss.len() > 0 {
        lemma_flatten_total(ss.drop_first());
    }
}

/// One signed header field parses and leaves the rest of the image.
proof fn lemma_hdr_i64(b: Seq<u8>, p: int, t: int, rest: Seq<u8>)
    requires
        0 <= p,
        i64::MIN <= t <= i64::MAX,
        p + 9 + rest.len() == b.len(),
        b.subrange(p, b.len() as int) == enc_i64(t) + rest,
    ensures
        rd_i64(b, p) == Some((t, p + 9)),
        b.subrange(p + 9, b.len() as int) == rest,
{
    assert(enc_i64(t).len() == 9);
    crate::codec::lemma_subrange_split(b, p, enc_i64(t), rest);
    crate::codec::lemma_rd_i64_at(b, p, t);
}

/// One unsigned 64-bit header field parses and leaves the rest.
proof fn lemma_hdr_be64(b: Seq<u8>, p: int, x: u64, rest: Seq<u8>)
    requires
        0 <= p,
        p + 8 + rest.len() == b.len(),
        b.subrange(p, b.len() as int) == be64(x) + rest,
    ensures
        rd_be64(b, p) == Some((x, p + 8)),
        b.subrange(p + 8, b.len() as int) == rest,
{
    assert(be64(x).len() == 8);
    crate::codec::lemma_subrange_split(b, p, be64(x), rest);
    crate::codec::lemma_rd_be64_at(b, p, x);
}

/// One unsigned 32-bit header field parses and leaves the rest.
proof fn lemma_hdr_be32(b: Seq<u8>, p: int, x: u32, rest: Seq<u8>)
    requires
        0 <= p,
        p + 4 + rest.len() == b.len(),
        b.subrange(p, b.len() as int) == be32(x) + rest,
    ensures
        rd_be32(b, p) == Some((x, p + 4)),
        b.subrange(p + 4, b.len() as int) == rest,
{
    assert(be32(x).len() == 4);
    crate::codec::lemma_subrange_split(b, p, be32(x), rest);
    crate::codec::lemma_rd_be32_at(b, p, x);
}

/// The first half of a chunk header parses at fixed offsets.
#[verifier::rlimit(100)]
#[verifier::spinoff_prover]
proof fn lemma_chunk_header_a(b: Seq<u8>, cv: ChunkView)
    requires
        chunk_encodable(cv),
        b == enc_chunk(cv),
    ensures
        rd_i64(b, 0) == Some((cv.start_time, 9int)),
        rd_i64(b, 9) == Some((cv.end_time, 18int)),
        rd_i64(b, 18) == Some((cv.created_at, 27int)),
        b.subrange(27, b.len() as int) == enc_i64(cv.last_access) + (be64(
            cv.compression_ratio_bits,
        ) + (be32(flatten_series(cv.series).len() as u32) + frames(flatten_series(cv.series)))),
{
    let rs = flatten_series(cv.series);
    let e5 = be64(cv.compression_ratio_bits);
    let e6 = be32(rs.len() as u32);
    let e7 = frames(rs);
    assert(b.subrange(0, b.len() as int) =~= b);
    lemma_hdr_i64(
        b,
        0,
        cv.start_time,
        enc_i64(cv.end_time) + (enc_i64(cv.created_at) + (enc_i64(cv.last_access) + (e5 + (e6
            + e7)))),
    );
    lemma_hdr_i64(
        b,
        9,
        cv.end_time,
        enc_i64(cv.created_at) + (enc_i64(cv.last_access) + (e5 + (e6 + e7))),
    );
    lemma_hdr_i64(b, 18, cv.created_at, enc_i64(cv.last_access) + (e5 + (e6 + e7)));
}

/// The second half of a chunk header parses at fixed offsets.
#[verifier::rlimit(100)]
#[verifier::spinoff_prover]
proof fn lemma_chunk_header_b(b: Seq<u8>, cv: ChunkView)
    requires
        chunk_encodable(cv),
        b.len() == 48 + frames(flatten_series(cv.series)).len(),
        b.subrange(27, b.len() as int) == enc_i64(cv.last_access) + (be64(
            cv.compression_ratio_bits,
        ) + (be32(flatten_series(cv.series).len() as u32) + frames(flatten_series(cv.series)))),
    ensures
        rd_i64(b, 27) == Some((cv.last_access, 36int)),
        rd_be64(b, 36) == Some((cv.compression_ratio_bits, 44int)),
        rd_be32(b, 44) == Some((flatten_series(cv.series).len() as u32, 48int)),
        b.subrange(48, b.len() as int) == frames(flatten_series(cv.series)),
{
    let rs = flatten_series(cv.series);
    let e5 = be64(cv.compression_ratio_bits);
    let e6 = be32(rs.len() as u32);
    let e7 = frames(rs);
    lemma_hdr_i64(b, 27, cv.last_access, e5 + (e6 + e7));
    lemma_hdr_be64(b, 36, cv.compression_ratio_bits, e6 + e7);
    lemma_hdr_be32(b, 44, rs.len() as u32, e7);
}

/// Reading a chunk file inverts writing it.
#[verifier::rlimit(100)]
pub proof fn lemma_chunk_round_trip(cv: ChunkView)
    requires
        chunk_encodable(cv),
    ensures
        rd_chunk(enc_chunk(cv)) == Some(
            (
                cv.start_time,
                cv.end_time,
                cv.created_at,
                cv.last_access,
                cv.compression_ratio_bits,
                flatten_series(cv.series),
            ),
        ),
{
    let b = enc_chunk(cv);
    let rs = flatten_series(cv.series);
    lemma_chunk_header_a(b, cv);
    lemma_chunk_header_b(b, cv);
    lemma_rd_frecs_at(b, 48, rs);
}

} // verus!

verus! {

/// Flattening distributes over concatenation.
proof fn lemma_flatten_concat(a: Seq<SeriesView>, b: Seq<SeriesView>)
    ensures
        flatten_series(a + b) == flatten_series(a) + flatten_series(b),
    decreases a.len(),
{
    if a.len() == 0 {
        assert(a + b =~= b);
        assert(flatten_series(a) + flatten_series(b) =~= flatten_series(b));
    } else {
        lemma_flatten_concat(a.drop_first(), b);
        assert((a + b).drop_first() =~= a.drop_first() + b);
        assert((a + b)[0] == a[0]);
        assert(flatten_series(a) + flatten_series(b) =~= a[0].records + (flatten_series(
            a.drop_first(),
        ) + flatten_series(b)));
    }
}

/// One more series extends the flattened stream at the end.
proof fn lemma_flatten_snoc(ss: Seq<SeriesView>, i: int)
    requires
        0 <= i < ss.len(),
    ensures
        flatten_series(ss.take(i + 1)) == flatten_series(ss.take(i)) + ss[i].records,
        flatten_series(ss) == flatten_series(ss.take(i)) + (ss[i].records + flatten_series(
            ss.skip(i + 1),
        )),
{
    assert(ss.take(i + 1) =~= ss.take(i) + seq![ss[i]]);
    lemma_flatten_concat(ss.take(i), seq![ss[i]]);
    assert(flatten_series(seq![ss[i]]) =~= ss[i].records) by {
        assert(seq![ss[i]][0] == ss[i]);
        assert(seq![ss[i]].drop_first() =~= Seq::<SeriesView>::empty());
        assert(flatten_series(Seq::<SeriesView>::empty()) == Seq::<RecordView>::empty());
        assert(ss[i].records + Seq::<RecordView>::empty() =~= ss[i].records);
    }
    assert(ss =~= ss.take(i) + (seq![ss[i]] + ss.skip(i + 1)));
    lemma_flatten_concat(ss.take(i), seq![ss[i]] + ss.skip(i + 1));
    lemma_flatten_concat(seq![ss[i]], ss.skip(i + 1));
    assert(flatten_series(ss.take(i + 1)) =~= flatten_series(ss.take(i)) + ss[i].records);
    assert(flatten_series(ss) =~= flatten_series(ss.take(i)) + (ss[i].records + flatten_series(
        ss.skip(i + 1),
    )));
}

/// The chunk file image of a well-formed chunk, or `None` when it does not
/// fit the format: too many records for the count prefix, or a record too
/// large for its frame.
#[verifier::rlimit(100)]
pub fn encode_chunk(c: &TimeChunk) -> (out: Option<Vec<u8>>)
    ensures
        match out {
            Some(v) => chunk_encodable(c@) && v@ == enc_chunk(c@),
            None => !chunk_encodable(c@),
        },
{
    let ghost ss = c@.series;
    let mut body: Vec<u8> = Vec::new();
    let mut count: u32 = 0;
    let mut i: usize = 0;
    proof {
        assert(ss.take(0) =~= Seq::<SeriesView>::empty());
        assert(body@ =~= frames(flatten_series(ss.take(0))));
    }
    while i < c.series.len()
        invariant
            i <= c.series@.len(),
            ss == c@.series,
            body@ == frames(flatten_series(ss.take(i as int))),
            count as int == flatten_series(ss.take(i as int)).len(),
            frames_encodable(flatten_series(ss.take(i as int))),
        decreases c.series@.len() - i,
    {
        let s = &c.series[i];
        let ghost recs = s.deep_view().records;
        proof {
            assert(ss[i as int] == s.deep_view());
            lemma_flatten_snoc(ss, i as int);
            assert(recs.take(0) =~= Seq::<RecordView>::empty());
            assert(flatten_series(ss.take(i as int)) + recs.take(0) =~= flatten_series(
                ss.take(i as int),
            ));
        }
        let mut k: usize = 0;
        while k < s.records.len()
            invariant
                k <= s.records@.len(),
                recs == s.records.deep_view(),
                ss == c@.series,
                (i as int) < ss.len(),
                ss[i as int] == s.deep_view(),
                body@ == frames(flatten_series(ss.take(i as int)) + recs.take(k as int)),
                count as int == flatten_series(ss.take(i as int)).len() + k as int,
                frames_encodable(flatten_series(ss.take(i as int)) + recs.take(k as int)),
            decreases s.records@.len() - k,
        {
            let ghost emitted = flatten_series(ss.take(i as int)) + recs.take(k as int);
            let ghost rv = recs[k as int];
            proof {
                assert(recs[k as int] == s.records.deep_view()[k as int]);
            }
            match crate::wal::frame_record(&s.records[k]) {
                Some(f) => {
                    crate::codec::push_slice(&mut body, f.as_slice());
                    proof {
                        assert(emitted.push(rv) =~= flatten_series(ss.take(i as int)) + recs.take(
                            k as int + 1,
                        ));
                        crate::wal::lemma_frames_push(emitted, rv);
                        assert forall|x: int|
                            0 <= x < emitted.push(rv).len() implies frame_encodable(
                            #[trigger] emitted.push(rv)[x],
                        ) by {
                            if x < emitted.len() {
                                assert(emitted.push(rv)[x] == emitted[x]);
                            }
                        }
                    }
                },
                None => {
                    proof {
                        lemma_flatten_snoc(ss, i as int);
                        let full = flatten_series(ss);
                        let x = flatten_series(ss.take(i as int)).len() + k as int;
                        assert(full[x] == rv);
                        assert(!frames_encodable(full));
                    }
                    return None;
                },
            }
            match count.checked_add(1) {
                Some(x) => {
                    count = x;
                },
                None => {
                    proof {
                        lemma_flatten_snoc(ss, i as int);
                        let full = flatten_series(ss);
                        assert(full.len() >= flatten_series(ss.take(i as int)).len() + recs.len());
                        assert(full.len() > u32::MAX);
                    }
                    return None;
                },
            }
            k = k + 1;
        }
        proof {
            assert(recs.take(s.records@.len() as int) =~= recs);
            lemma_flatten_snoc(ss, i as int);
        }
        i = i + 1;
    }
    proof {
        assert(ss.take(c.series@.len() as int) =~= ss);
    }
    let mut out: Vec<u8> = Vec::new();
    crate::codec::push_i64(&mut out, c.start_time);
    crate::codec::push_i64(&mut out, c.end_time);
    crate::codec::push_i64(&mut out, c.metadata.created_at);
    crate::codec::push_i64(&mut out, c.metadata.last_access);
    crate::codec::push_be64(&mut out, c.metadata.compression_ratio_bits);
    crate::codec::push_be32(&mut out, count);
    crate::codec::push_slice(&mut out, body.as_slice());
    proof {
        assert(out@ =~= enc_chunk(c@));
    }
    Some(out)
}

} // verus!

verus! {

/// One replayed record extends the rebuilt chunk's model by one position.
proof fn lemma_decode_step(
    cpre: ChunkView,
    cpost: ChunkView,
    whole: Seq<RecordView>,
    k: int,
    rv: RecordView,
    st: int,
    en: int,
)
    requires
        0 <= k < whole.len(),
        whole[k] == rv,
        whole.take(k + 1) == whole.take(k).push(rv),
        forall|m: Seq<char>| #[trigger] cpre.records_for(m) == by_metric(whole.take(k), m),
        forall|rt: Seq<char>, m: Seq<char>|
            #[trigger] cpre.has_resource_metric(rt, m) == (exists|x: int|
                0 <= x < k && (#[trigger] whole.take(k)[x]).metric_name == m && whole.take(
                    k,
                )[x].resource_type == rt),
        forall|x: int| 0 <= x < k ==> st <= (#[trigger] whole.take(k)[x]).timestamp < en,
        st <= rv.timestamp < en,
        cpost.records_for(rv.metric_name) == cpre.records_for(rv.metric_name).push(rv),
        forall|m: Seq<char>|
            m != rv.metric_name ==> #[trigger] cpost.records_for(m) == cpre.records_for(m),
        forall|rt: Seq<char>, m: Seq<char>|
            #[trigger] cpost.has_resource_metric(rt, m) == (cpre.has_resource_metric(rt, m) || (rt
                == rv.resource_type && m == rv.metric_name)),
    ensures
        forall|m: Seq<char>| #[trigger] cpost.records_for(m) == by_metric(whole.take(k + 1), m),
        forall|rt: Seq<char>, m: Seq<char>|
            #[trigger] cpost.has_resource_metric(rt, m) == (exists|x: int|
                0 <= x < k + 1 && (#[trigger] whole.take(k + 1)[x]).metric_name == m && whole.take(
                    k + 1,
                )[x].resource_type == rt),
        forall|x: int| 0 <= x < k + 1 ==> st <= (#[trigger] whole.take(k + 1)[x]).timestamp < en,
{
    let m0 = rv.metric_name;
    assert forall|m: Seq<char>| #[trigger] cpost.records_for(m) == by_metric(
        whole.take(k + 1),
        m,
    ) by {
        assert(whole.take(k + 1).drop_last() =~= whole.take(k));
        assert(whole.take(k + 1).last() == rv);
    }
    assert forall|rt: Seq<char>, m: Seq<char>| #[trigger] cpost.has_resource_metric(rt, m) == (
    exists|x: int|
        0 <= x < k + 1 && (#[trigger] whole.take(k + 1)[x]).metric_name == m && whole.take(k + 1)[
        x].resource_type == rt) by {
        if cpost.has_resource_metric(rt, m) {
            if rt == rv.resource_type && m == rv.metric_name {
                assert(whole.take(k + 1)[k] == rv);
            } else {
                let x = choose|x: int|
                    0 <= x < k && (#[trigger] whole.take(k)[x]).metric_name == m && whole.take(k)[
                    x].resource_type == rt;
                assert(whole.take(k + 1)[x] == whole.take(k)[x]);
            }
        }
        if exists|x: int|
            0 <= x < k + 1 && (#[trigger] whole.take(k + 1)[x]).metric_name == m && whole.take(
                k + 1,
            )[x].resource_type == rt {
            let x = choose|x: int|
                0 <= x < k + 1 && (#[trigger] whole.take(k + 1)[x]).metric_name == m && whole.take(
                    k + 1,
                )[x].resource_type == rt;
            if x < k {
                assert(whole.take(k)[x] == whole.take(k + 1)[x]);
            } else {
                assert(whole.take(k + 1)[x] == rv);
            }
        }
    }
    assert forall|x: int| 0 <= x < k + 1 implies st <= (
    #[trigger] whole.take(k + 1)[x]).timestamp < en by {
        if x < k {
            assert(whole.take(k + 1)[x] == whole.take(k)[x]);
        } else {
            assert(whole.take(k + 1)[x] == rv);
        }
    }
}

/// Assembles the whole-file reader from its parts.
proof fn lemma_rd_chunk_assemble(
    b: Seq<u8>,
    st: int,
    en: int,
    cr: int,
    la: int,
    ratio: u64,
    n: u32,
    p1: int,
    p2: int,
    p3: int,
    p4: int,
    p5: int,
    p6: int,
    rs: Seq<RecordView>,
    pend: int,
)
    requires
        rd_i64(b, 0) == Some((st, p1)),
        rd_i64(b, p1) == Some((en, p2)),
        rd_i64(b, p2) == Some((cr, p3)),
        rd_i64(b, p3) == Some((la, p4)),
        rd_be64(b, p4) == Some((ratio, p5)),
        rd_be32(b, p5) == Some((n, p6)),
        rd_frecs(b, p6, n as nat) == Some((rs, pend)),
        pend == b.len(),
    ensures
        rd_chunk(b) == Some((st, en, cr, la, ratio, rs)),
{
}

/// Rebuilds a chunk from its file image.
///
/// The records are replayed through the ordinary append path, so both
/// indexes are rebuilt from the data itself; the secondary index afterwards
/// holds exactly the pairs the records witness. Fails with `DataCorrupted`
/// exactly when the image does not parse, its window is empty or inverted,
/// or a record lies outside the window.
#[verifier::rlimit(100)]
pub fn decode_chunk(b: &[u8]) -> (r: Result<TimeChunk, ChunkError>)
    ensures
        r is Ok ==> rd_chunk(b@) is Some,
        r is Ok ==> ({
            let c = r->Ok_0;
            let (st, en, cr, la, ratio, rs) = rd_chunk(b@)->Some_0;
            &&& c@.wf()
            &&& c@.in_window()
            &&& c@.compression_state is Uncompressed
            &&& !c@.dirty
            &&& c@.start_time == st
            &&& c@.end_time == en
            &&& c@.created_at == cr
            &&& c@.last_access == la
            &&& c@.compression_ratio_bits == ratio
        }),
        r is Ok ==> ({
            let c = r->Ok_0;
            let rs = rd_chunk(b@)->Some_0.5;
            forall|m: Seq<char>| #[trigger] c@.records_for(m) == by_metric(rs, m)
        }),
        r is Ok ==> ({
            let c = r->Ok_0;
            let rs = rd_chunk(b@)->Some_0.5;
            forall|rt: Seq<char>, m: Seq<char>|
                #[trigger] c@.has_resource_metric(rt, m) == (exists|x: int|
                    0 <= x < rs.len() && (#[trigger] rs[x]).metric_name == m
                        && rs[x].resource_type == rt)
        }),
        r is Err ==> r->Err_0 is DataCorrupted,
        r is Err ==> (rd_chunk(b@) is None || ({
            let (st, en, cr, la, ratio, rs) = rd_chunk(b@)->Some_0;
            st >= en || exists|x: int|
                0 <= x < rs.len() && !(st <= (#[trigger] rs[x]).timestamp < en)
        })),
{
    let (st, p1) = match crate::codec::read_i64(b, 0) {
        Some(x) => x,
        None => {
            return Err(ChunkError::DataCorrupted("bad chunk header".to_owned()));
        },
    };
    let (en, p2) = match crate::codec::read_i64(b, p1) {
        Some(x) => x,
        None => {
            return Err(ChunkError::DataCorrupted("bad chunk header".to_owned()));
        },
    };
    let (cr, p3) = match crate::codec::read_i64(b, p2) {
        Some(x) => x,
        None => {
            return Err(ChunkError::DataCorrupted("bad chunk header".to_owned()));
        },
    };
    let (la, p4) = match crate::codec::read_i64(b, p3) {
        Some(x) => x,
        None => {
            return Err(ChunkError::DataCorrupted("bad chunk header".to_owned()));
        },
    };
    let (ratio, p5) = match crate::codec::read_be64_opt(b, p4) {
        Some(x) => x,
        None => {
            return Err(ChunkError::DataCorrupted("bad chunk header".to_owned()));
        },
    };
    let (n, p6) = match crate::codec::read_be32_opt(b, p5) {
        Some(x) => x,
        None => {
            return Err(ChunkError::DataCorrupted("bad chunk header".to_owned()));
        },
    };
    if st >= en {
        proof {
            if rd_chunk(b@) is Some {
            }
        }
        return Err(ChunkError::DataCorrupted("empty chunk window".to_owned()));
    }
    let mut c = TimeChunk::new(st, en);
    let mut pos: usize = p6;
    let mut k: u32 = 0;
    proof {
        assert(Seq::<RecordView>::empty().take(0) =~= Seq::<RecordView>::empty());
    }
    while k < n
        invariant
            k <= n,
            rd_i64(b@, 0) == Some((st as int, p1 as int)),
            rd_i64(b@, p1 as int) == Some((en as int, p2 as int)),
            rd_i64(b@, p2 as int) == Some((cr as int, p3 as int)),
            rd_i64(b@, p3 as int) == Some((la as int, p4 as int)),
            rd_be64(b@, p4 as int) == Some((ratio, p5 as int)),
            rd_be32(b@, p5 as int) == Some((n, p6 as int)),
            c@.wf(),
            c@.in_window(),
            c@.compression_state is Uncompressed,
            c@.start_time == st as int,
            c@.end_time == en as int,
            st < en,
            match rd_frecs(b@, pos as int, (n - k) as nat) {
                Some((tail, q)) => rd_frecs(b@, p6 as int, n as nat) is Some && ({
                    let (whole, qq) = rd_frecs(b@, p6 as int, n as nat)->Some_0;
                    qq == q && whole.len() == k as int + tail.len() && whole.take(k as int) + tail
                        =~= whole && (forall|m: Seq<char>|
                        #[trigger] c@.records_for(m) == by_metric(whole.take(k as int), m)) && (
                    forall|rt: Seq<char>, m: Seq<char>|
                        #[trigger] c@.has_resource_metric(rt, m) == (exists|x: int|
                            0 <= x < k as int && (#[trigger] whole.take(k as int)[x]).metric_name
                                == m && whole.take(k as int)[x].resource_type == rt)) && (forall|
                        x: int,
                    |
                        0 <= x < k as int ==> st as int <= (
                        #[trigger] whole.take(k as int)[x]).timestamp < en as int)
                }),
                None => rd_frecs(b@, p6 as int, n as nat) is None,
            },
        decreases n - k,
    {
        let (payload, q) = match crate::codec::read_bytes(b, pos) {
            Some(x) => x,
            None => {
                proof {
                    assert(rd_frec(b@, pos as int) is None);
                    assert(rd_frecs(b@, pos as int, (n - k) as nat) is None);
                }
                return Err(ChunkError::DataCorrupted("torn chunk record".to_owned()));
            },
        };
        let rec = match crate::codec::decode_record(payload) {
            Some(x) => x,
            None => {
                proof {
                    assert(rd_frec(b@, pos as int) is None);
                    assert(rd_frecs(b@, pos as int, (n - k) as nat) is None);
                }
                return Err(ChunkError::DataCorrupted("bad chunk record".to_owned()));
            },
        };
        proof {
            assert(rd_frec(b@, pos as int) == Some((rec@, q as int)));
        }
        let ghost rv = rec@;
        let ghost whole = rd_frecs(b@, p6 as int, n as nat)->Some_0.0;
        let ghost cpre = c@;
        match c.append(rec) {
            Ok(()) => {},
            Err(_) => {
                proof {
                    assert(!(st as int <= rv.timestamp < en as int));
                    if rd_frecs(b@, q as int, (n - k - 1) as nat) is Some {
                        let (tail, qf) = rd_frecs(b@, q as int, (n - k - 1) as nat)->Some_0;
                        assert(rd_frecs(b@, pos as int, (n - k) as nat) == Some(
                            (seq![rv] + tail, qf),
                        ));
                        assert(rd_frecs(b@, p6 as int, n as nat) is Some);
                        let tail_arm = rd_frecs(b@, pos as int, (n - k) as nat)->Some_0.0;
                        assert(tail_arm == seq![rv] + tail);
                        assert(whole == rd_frecs(b@, p6 as int, n as nat)->Some_0.0);
                        assert(whole.take(k as int) + tail_arm == whole);
                        assert(whole.take(k as int) + (seq![rv] + tail) =~= whole);
                        assert(whole.take(k as int).len() == k as int);
                        assert(whole[k as int] == (whole.take(k as int) + (seq![rv] + tail))[
                            k as int
                        ]);
                        assert(whole[k as int] == rv);
                        if rd_chunk(b@) is Some {
                            assert(rd_chunk(b@)->Some_0.5 == whole);
                        }
                    } else {
                        assert(rd_frecs(b@, pos as int, (n - k) as nat) is None);
                    }
                }
                return Err(ChunkError::DataCorrupted("record outside chunk window".to_owned()));
            },
        }
        proof {
            if rd_frecs(b@, q as int, (n - k - 1) as nat) is Some {
                let (tail, qf) = rd_frecs(b@, q as int, (n - k - 1) as nat)->Some_0;
                assert(rd_frecs(b@, pos as int, (n - k) as nat) == Some((seq![rv] + tail, qf)));
                assert(whole.take(k as int) + (seq![rv] + tail) =~= whole);
                assert(whole.take(k as int).len() == k as int);
                assert(whole.take(k as int + 1) =~= whole.take(k as int).push(rv));
                assert(whole.take(k as int + 1) + tail =~= whole);
                lemma_decode_step(cpre, c@, whole, k as int, rv, st as int, en as int);
            } else {
                assert(rd_frecs(b@, pos as int, (n - k) as nat) is None);
            }
        }
        pos = q;
        k = k + 1;
    }
    if pos != b.len() {
        proof {
            let (whole, qq) = rd_frecs(b@, p6 as int, n as nat)->Some_0;
            assert(rd_frecs(b@, pos as int, 0) == Some((Seq::<RecordView>::empty(), pos as int)));
        }
        return Err(ChunkError::DataCorrupted("trailing bytes in chunk image".to_owned()));
    }
    let ghost cpre2 = c@;
    c.metadata.created_at = cr;
    c.metadata.last_access = la;
    c.metadata.compression_ratio_bits = ratio;
    c.dirty = false;
    proof {
        assert(c@.series == cpre2.series);
        assert(c@.resource_metrics == cpre2.resource_metrics);
        assert(c@.record_count == cpre2.record_count);
        assert(c@.start_time == cpre2.start_time && c@.end_time == cpre2.end_time);
        assert(c@.wf()) by {
            assert(cpre2.wf());
        }
        assert(c@.in_window()) by {
            assert(cpre2.in_window());
        }
        assert(rd_frecs(b@, pos as int, 0) == Some((Seq::<RecordView>::empty(), pos as int)));
        let (whole, qq) = rd_frecs(b@, p6 as int, n as nat)->Some_0;
        assert(whole.take(k as int) =~= whole) by {
            assert(whole.take(k as int) + Seq::<RecordView>::empty() =~= whole);
        }
        assert forall|m: Seq<char>| #[trigger] c@.records_for(m) == by_metric(whole, m) by {
            assert(cpre2.records_for(m) == by_metric(whole.take(k as int), m));
            assert(c@.records_for(m) == cpre2.records_for(m));
        }
        assert forall|rt: Seq<char>, m: Seq<char>| #[trigger] c@.has_resource_metric(rt, m) == (
        exists|x: int|
            0 <= x < whole.len() && (#[trigger] whole[x]).metric_name == m
                && whole[x].resource_type == rt) by {
            assert(c@.has_resource_metric(rt, m) == cpre2.has_resource_metric(rt, m));
            assert(cpre2.has_resource_metric(rt, m) == (exists|x: int|
                0 <= x < k as int && (#[trigger] whole.take(k as int)[x]).metric_name == m
                    && whole.take(k as int)[x].resource_type == rt));
            if cpre2.has_resource_metric(rt, m) {
                let x = choose|x: int|
                    0 <= x < k as int && (#[trigger] whole.take(k as int)[x]).metric_name == m
                        && whole.take(k as int)[x].resource_type == rt;
                assert(whole[x] == whole.take(k as int)[x]);
            }
            if exists|x: int|
                0 <= x < whole.len() && (#[trigger] whole[x]).metric_name == m
                    && whole[x].resource_type == rt {
                let x = choose|x: int|
                    0 <= x < whole.len() && (#[trigger] whole[x]).metric_name == m
                        && whole[x].resource_type == rt;
                assert(whole.take(k as int)[x] == whole[x]);
            }
        }
        lemma_rd_chunk_assemble(
            b@,
            st as int,
            en as int,
            cr as int,
            la as int,
            ratio,
            n,
            p1 as int,
            p2 as int,
            p3 as int,
            p4 as int,
            p5 as int,
            p6 as int,
            whole,
            qq,
        );
        let rsf = rd_chunk(b@)->Some_0.5;
        assert(rsf == whole);
        assert forall|rt: Seq<char>, m: Seq<char>| #[trigger] c@.has_resource_metric(rt, m) == (
        exists|x: int|
            0 <= x < rsf.len() && (#[trigger] rsf[x]).metric_name == m && rsf[x].resource_type
                == rt) by {
            if c@.has_resource_metric(rt, m) {
                let x = choose|x: int|
                    0 <= x < whole.len() && (#[trigger] whole[x]).metric_name == m
                        && whole[x].resource_type == rt;
                assert(rsf[x].metric_name == m && rsf[x].resource_type == rt);
            }
            if exists|x: int|
                0 <= x < rsf.len() && (#[trigger] rsf[x]).metric_name == m && rsf[x].resource_type
                    == rt {
                let x = choose|x: int|
                    0 <= x < rsf.len() && (#[trigger] rsf[x]).metric_name == m
                        && rsf[x].resource_type == rt;
                assert(whole[x].metric_name == m && whole[x].resource_type == rt);
            }
        }
    }
    Ok(c)
}

} // verus!
