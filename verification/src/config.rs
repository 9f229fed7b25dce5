//! Configuration: the storage root, the service address, and the chunk
//! window length parsed from a human-readable duration.

use vstd::prelude::*;
use vstd::utf8::encode_utf8;
use crate::persistence::{all_digits, dec_value, lemma_dec_value_mono, lemma_dec_value_nonneg};

verus! {

/// Where the store keeps its files.
#[derive(Debug)]
pub struct StorageConfig {
    pub path: String,
    /// Advisory upper bound for a chunk file, in bytes.
    pub max_chunk_size: usize,
}

/// Where the serving layer listens.
#[derive(Debug)]
pub struct ApiConfig {
    pub host: String,
    pub port: u16,
}

/// The full configuration the store consumes.
#[derive(Debug)]
pub struct Config {
    pub storage: StorageConfig,
    pub api: ApiConfig,
    /// Chunk window length in seconds; positive.
    pub chunk_duration_secs: u64,
}

/// Seconds per unit letter: `s`, `m`, `h` or `d`.
pub open spec fn unit_seconds(unit: u8) -> Option<int> {
    if unit == 115 {
        Some(1int)
    } else if unit == 109 {
        Some(60int)
    } else if unit == 104 {
        Some(3600int)
    } else if unit == 100 {
        Some(86400int)
    } else {
        None
    }
}

/// A duration is decimal digits and one unit letter; the result in seconds
/// must fit 64 unsigned bits.
pub open spec fn spec_parse_duration(b: Seq<u8>) -> Option<int> {
    if b.len() < 2 {
        None
    } else {
        let ds = b.drop_last();
        if !all_digits(ds) {
            None
        } else {
            match unit_seconds(b.last()) {
                Some(mult) => if dec_value(ds) <= u64::MAX && dec_value(ds) * mult <= u64::MAX {
                    Some(dec_value(ds) * mult)
                } else {
                    None
                },
                None => None,
            }
        }
    }
}

/// Parses a human-readable duration such as a count of seconds, minutes,
/// hours or days into seconds; see [`spec_parse_duration`]. Rejects the
/// forms the rendering cannot hold, including any that overflow.
pub fn parse_duration(duration_str: &str) -> (r: Result<u64, String>)
    ensures
        match r {
            Ok(v) => spec_parse_duration(encode_utf8(duration_str@)) == Some(v as int),
            Err(_) => spec_parse_duration(encode_utf8(duration_str@)) is None,
        },
{
    let b = duration_str.as_bytes();
    if b.len() < 2 {
        return Err("invalid duration value".to_owned());
    }
    let ghost ds = b@.drop_last();
    let unit = b[b.len() - 1];
    let mult: u64 = if unit == 115u8 {
        1
    } else if unit == 109u8 {
        60
    } else if unit == 104u8 {
        3600
    } else if unit == 100u8 {
        86400
    } else {
        return Err("invalid duration unit".to_owned());
    };
    proof {
        assert(unit_seconds(b@.last()) == Some(mult as int));
    }
    let mut acc: u64 = 0;
    let mut j: usize = 0;
    proof {
        assert(ds.take(0) =~= Seq::<u8>::empty());
    }
    while j < b.len() - 1
        invariant
            0 <= j <= b@.len() - 1,
            b@.len() >= 2,
            b@ == encode_utf8(duration_str@),
            unit_seconds(b@.last()) is Some,
            unit_seconds(b@.last())->Some_0 >= 1,
            ds == b@.drop_last(),
            all_digits(ds.take(j as int)),
            acc as int == dec_value(ds.take(j as int)),
        decreases b@.len() - 1 - j,
    {
        let c = b[j];
        proof {
            assert(ds[j as int] == b@[j as int]);
        }
        if c < 48u8 || c > 57u8 {
            proof {
                assert(!all_digits(ds));
            }
            return Err("invalid duration value".to_owned());
        }
        proof {
            assert(ds.take(j as int + 1).drop_last() =~= ds.take(j as int));
            assert(ds.take(j as int + 1).last() == ds[j as int]);
            assert(all_digits(ds.take(j as int + 1))) by {
                assert(forall|i: int| 0 <= i < j + 1 ==> ds.take(j as int + 1)[i] == ds[i]);
            }
        }
        let step = match acc.checked_mul(10) {
            Some(x) => x.checked_add((c - 48u8) as u64),
            None => None,
        };
        match step {
            Some(x) => {
                acc = x;
            },
            None => {
                proof {
                    lemma_dec_value_nonneg(ds.take(j as int));
                    if all_digits(ds) {
                        lemma_dec_value_mono(ds, j + 1);
                        assert(ds.take(j + 1).drop_last() =~= ds.take(j as int));
                        assert(ds.take(j + 1).last() == ds[j as int]);
                        assert(dec_value(ds) >= dec_value(ds.take(j + 1)));
                        assert(dec_value(ds) > u64::MAX);
                        lemma_dec_value_nonneg(ds);
                        assert(unit_seconds(b@.last())->Some_0 >= 1);
                        assert(dec_value(ds) * unit_seconds(b@.last())->Some_0 >= dec_value(ds))
                            by (nonlinear_arith)
                            requires
                                dec_value(ds) >= 0,
                                unit_seconds(b@.last())->Some_0 >= 1,
                        ;
                    }
                }
                return Err("invalid duration value".to_owned());
            },
        }
        j = j + 1;
    }
    proof {
        assert(ds.take(b@.len() - 1) =~= ds);
        lemma_dec_value_nonneg(ds);
    }
    match acc.checked_mul(mult) {
        Some(total) => {
            proof {
                assert((acc * mult) as int == acc as int * mult as int);
            }
            Ok(total)
        },
        None => {
            proof {
                assert(dec_value(ds) * mult as int > u64::MAX);
            }
            Err("invalid duration value".to_owned())
        },
    }
}

} // verus!
