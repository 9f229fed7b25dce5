//! The uniform measurement tuple that every component stores and queries.

use vstd::prelude::*;

verus! {

/// One measurement.
///
/// `value` carries the 64-bit representation of the numeric measurement.
/// The store never interprets it: it is routed, persisted and returned
/// bit-for-bit, and callers give it numeric meaning at the boundary.
#[derive(Debug)]
pub struct Record {
    /// When the measurement was taken, in Unix seconds.
    pub timestamp: i64,
    /// Identifier for the measurement type; an opaque key to the store.
    pub metric_name: String,
    /// The measurement value, as an opaque 64-bit pattern.
    pub value: u64,
    /// Additional provenance, as key/value pairs. The store carries the
    /// mapping opaquely and never reads it; keeping the keys unique is the
    /// producer's concern, as it is for every other field's meaning.
    pub context: Vec<(String, String)>,
    /// Tag for the kind of source resource; drives the secondary index.
    pub resource_type: String,
}

/// The mathematical shape of a record: what the contracts speak about.
#[verifier::ext_equal]
pub ghost struct RecordView {
    pub timestamp: int,
    pub metric_name: Seq<char>,
    pub value: u64,
    pub context: Seq<(Seq<char>, Seq<char>)>,
    pub resource_type: Seq<char>,
}

impl View for Record {
    type V = RecordView;

    open spec fn view(&self) -> RecordView {
        RecordView {
            timestamp: self.timestamp as int,
            metric_name: self.metric_name@,
            value: self.value,
            context: self.context.deep_view(),
            resource_type: self.resource_type@,
        }
    }
}

impl DeepView for Record {
    type V = RecordView;

    open spec fn deep_view(&self) -> RecordView {
        self.view()
    }
}

/// An owned copy of a context mapping, pair for pair.
pub fn clone_context(ctx: &Vec<(String, String)>) -> (r: Vec<(String, String)>)
    ensures
        r.deep_view() == ctx.deep_view(),
{
    let mut context: Vec<(String, String)> = Vec::new();
    let mut i: usize = 0;
    while i < ctx.len()
        invariant
            i <= ctx.len(),
            context@.len() == i as int,
            forall|j: int|
                0 <= j < i as int ==> #[trigger] context.deep_view()[j] == ctx.deep_view()[j],
        decreases ctx.len() - i,
    {
        let pair: &(String, String) = &ctx[i];
        let k = pair.0.clone();
        let v = pair.1.clone();
        let ghost entry = (k, v);
        let ghost prev = context;
        context.push((k, v));
        proof {
            assert forall|j: int| 0 <= j < i as int + 1 implies #[trigger] context.deep_view()[j]
                == ctx.deep_view()[j] by {
                if j < i as int {
                    assert(context@[j] == prev@[j]);
                    assert(prev.deep_view()[j] == ctx.deep_view()[j]);
                } else {
                    assert(context@[j] == entry);
                    assert(entry.deep_view() == ctx@[j].deep_view());
                }
            }
        }
        i = i + 1;
    }
    proof {
        assert(context.deep_view() =~= ctx.deep_view());
    }
    context
}

impl Clone for Record {
    fn clone(&self) -> (res: Self)
        ensures
            res@ == self@,
    {
        let context = clone_context(&self.context);
        let res = Record {
            timestamp: self.timestamp,
            metric_name: self.metric_name.clone(),
            value: self.value,
            context,
            resource_type: self.resource_type.clone(),
        };
        proof {
            assert(res@ =~= self@) by {
                assert(res@.context == self@.context);
            }
        }
        res
    }
}

} // verus!
