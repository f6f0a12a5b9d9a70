//! The batch partitioner: splits the decoded records into contiguous chunks
//! no longer than the store's batch-write limit.

use vstd::prelude::*;
use crate::message::{DomainRecord, RecordView};

verus! {

/// The store's ceiling on how many records one batch write may carry.
pub const MAX_BATCH_SIZE: usize = 25;

/// The contiguous chunks of `records`, each of at most `max` elements, in
/// order.  An empty input has no chunks; otherwise every chunk is non-empty
/// and only the last may be shorter than `max`.
pub open spec fn chunks_of(records: Seq<RecordView>, max: int) -> Seq<Seq<RecordView>>
    decreases records.len(),
{
    if max < 1 {
        Seq::empty()
    } else if records.len() == 0 {
        Seq::empty()
    } else if records.len() <= max {
        seq![records]
    } else {
        seq![records.take(max)] + chunks_of(records.skip(max), max)
    }
}

/// Partitioning is order-preserving and lossless: the chunks concatenate back
/// to the input, none exceeds `max`, none is empty, and there are exactly
/// `ceil(|records| / max)` of them.
pub proof fn lemma_chunks_of(records: Seq<RecordView>, max: int)
    requires
        max >= 1,
    ensures
        chunks_of(records, max).flatten() == records,
        forall|i: int|
            0 <= i < chunks_of(records, max).len() ==> 0 < (
            #[trigger] chunks_of(records, max)[i]).len() <= max,
        chunks_of(records, max).len() == (records.len() + max - 1) / max,
    decreases records.len(),
{
    let cs = chunks_of(records, max);
    if records.len() == 0 {
        assert(cs.flatten() =~= records);
        assert((0 + max - 1) / max == 0) by (nonlinear_arith)
            requires
                max >= 1,
        ;
    } else if records.len() <= max {
        assert(cs.flatten() =~= records) by {
            cs.lemma_flatten_one_element();
        }
        assert((records.len() + max - 1) / max == 1) by (nonlinear_arith)
            requires
                max >= 1,
                1 <= records.len() <= max,
        ;
    } else {
        lemma_chunks_of(records.skip(max), max);
        let rest = chunks_of(records.skip(max), max);
        assert(cs =~= seq![records.take(max)] + rest);
        vstd::seq_lib::lemma_flatten_concat(seq![records.take(max)], rest);
        assert(seq![records.take(max)].flatten() =~= records.take(max)) by {
            seq![records.take(max)].lemma_flatten_one_element();
        }
        assert(cs.flatten() =~= records);
        assert((records.len() - max + max - 1) / max + 1 == (records.len() + max - 1) / max)
            by (nonlinear_arith)
            requires
                max >= 1,
                records.len() > max,
        ;
    }
}

/// Split `records` into contiguous chunks of at most `max_size` records each.
/// Deterministic and pure: the result is exactly [`chunks_of`] of the input.
pub fn partition(records: Vec<DomainRecord>, max_size: usize) -> (chunks: Vec<Vec<DomainRecord>>)
    requires
        max_size >= 1,
    ensures
        chunks.deep_view() == chunks_of(records.deep_view(), max_size as int),
{
    let ghost orig: Seq<RecordView> = records.deep_view();
    let ghost max: int = max_size as int;
    let mut rest: Vec<DomainRecord> = records;
    let mut chunks: Vec<Vec<DomainRecord>> = Vec::new();
    let mut cur: Vec<DomainRecord> = Vec::new();
    while rest.len() > 0
        invariant
            max == max_size as int,
            max_size >= 1,
            cur.deep_view().len() < max,
            chunks.deep_view() + chunks_of(cur.deep_view() + rest.deep_view(), max) =~= chunks_of(
                orig,
                max,
            ),
        decreases rest.len(),
    {
        let ghost pre_cur = cur.deep_view();
        let ghost pre_rest = rest.deep_view();
        let r = rest.remove(0);
        cur.push(r);
        proof {
            assert(cur.deep_view() =~= pre_cur.push(r@));
            assert(rest.deep_view() =~= pre_rest.skip(1));
            assert(cur.deep_view() + rest.deep_view() =~= pre_cur + pre_rest);
        }
        if cur.len() == max_size {
            let ghost full = cur.deep_view();
            let ghost tail = rest.deep_view();
            proof {
                assert(full + tail =~= pre_cur + pre_rest);
                if tail.len() == 0 {
                    assert(full + tail =~= full);
                    assert(chunks_of(full + tail, max) =~= seq![full]);
                } else {
                    assert((full + tail).take(max) =~= full);
                    assert((full + tail).skip(max) =~= tail);
                    assert(chunks_of(full + tail, max) =~= seq![full] + chunks_of(tail, max));
                }
            }
            chunks.push(cur);
            cur = Vec::new();
            proof {
                assert(chunks.deep_view() =~= chunks.deep_view().drop_last().push(full));
                assert(cur.deep_view() + rest.deep_view() =~= tail);
                assert(chunks.deep_view() + chunks_of(tail, max) =~= chunks.deep_view().drop_last()
                    + (seq![full] + chunks_of(tail, max)));
            }
        }
    }
    proof {
        assert(rest.deep_view().len() == 0);
        if cur.deep_view().len() == 0 {
            assert(cur.deep_view() + rest.deep_view() =~= Seq::<RecordView>::empty());
            assert(chunks_of(cur.deep_view() + rest.deep_view(), max) =~= Seq::<
                Seq<RecordView>,
            >::empty());
            assert(chunks.deep_view() =~= chunks_of(orig, max));
        } else {
            assert(cur.deep_view() + rest.deep_view() =~= cur.deep_view());
        }
    }
    if cur.len() > 0 {
        let ghost last = cur.deep_view();
        proof {
            assert(chunks_of(last, max) =~= seq![last]);
        }
        chunks.push(cur);
        proof {
            assert(chunks.deep_view() =~= chunks.deep_view().drop_last().push(last));
            assert(chunks.deep_view() =~= chunks.deep_view().drop_last() + seq![last]);
            assert(chunks.deep_view() =~= chunks_of(orig, max));
        }
    }
    chunks
}

} // verus!
