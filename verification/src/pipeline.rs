//! The batch orchestrator: one pass over an inbound batch.
//!
//! The decode phase turns every message into either an immediate failure or a
//! registered domain record; the records are partitioned into chunks; the
//! caller writes each chunk against the store and feeds the outcome back; the
//! failures accumulated across both phases form the partial-failure report.

use vstd::prelude::*;
use crate::codec::{decode, decode_spec};
use crate::correlate::{CorrelationMap, chunk_ids, resolve_ids, resolve_unprocessed,
    resolve_chunk_error};
use crate::message::{ChunkOutcome, DomainRecord, InboundMessage, MessageView, OutcomeView,
    RecordView};
use crate::partition::{chunks_of, partition};

verus! {

/// The identifiers of the messages of `msgs` that fail to decode, in batch
/// order.
pub open spec fn decode_failures(msgs: Seq<MessageView>) -> Seq<Seq<char>>
    decreases msgs.len(),
{
    if msgs.len() == 0 {
        Seq::empty()
    } else {
        let rest = decode_failures(msgs.drop_last());
        match decode_spec(msgs.last().body) {
            Result::Ok(rec) => rest,
            Result::Err(e) => rest.push(msgs.last().id),
        }
    }
}

/// The records of the messages of `msgs` that decode, in batch order.
pub open spec fn decoded_records(msgs: Seq<MessageView>) -> Seq<RecordView>
    decreases msgs.len(),
{
    if msgs.len() == 0 {
        Seq::empty()
    } else {
        let rest = decoded_records(msgs.drop_last());
        match decode_spec(msgs.last().body) {
            Result::Ok(rec) => rest.push(rec),
            Result::Err(e) => rest,
        }
    }
}

/// The correlation map the decode phase builds: each decoded record's item
/// identifier mapped to its message's identifier, later registrations
/// replacing earlier ones.
pub open spec fn correlation_of(msgs: Seq<MessageView>) -> Map<Seq<char>, Seq<char>>
    decreases msgs.len(),
{
    if msgs.len() == 0 {
        Map::empty()
    } else {
        let rest = correlation_of(msgs.drop_last());
        match decode_spec(msgs.last().body) {
            Result::Ok(rec) => rest.insert(rec.item_id, msgs.last().id),
            Result::Err(e) => rest,
        }
    }
}

/// The item identifiers one chunk's outcome reports as not committed: the
/// store's own list for a completed call, the whole chunk for a hard failure.
pub open spec fn outcome_ids(chunk: Seq<RecordView>, out: OutcomeView) -> Seq<Option<Seq<char>>> {
    match out {
        OutcomeView::Completed(entries) => entries,
        OutcomeView::Failed => chunk_ids(chunk),
    }
}

/// The write-phase failures and the remaining correlation map after resolving
/// the first `min(|chunks|, |outs|)` chunk outcomes in order.
pub open spec fn apply_outcomes(
    chunks: Seq<Seq<RecordView>>,
    outs: Seq<OutcomeView>,
    corr: Map<Seq<char>, Seq<char>>,
) -> (Seq<Seq<char>>, Map<Seq<char>, Seq<char>>)
    decreases outs.len(), chunks.len(),
{
    if outs.len() == 0 || chunks.len() == 0 {
        (Seq::empty(), corr)
    } else if outs.len() < chunks.len() {
        apply_outcomes(chunks.take(outs.len() as int), outs, corr)
    } else if outs.len() > chunks.len() {
        apply_outcomes(chunks, outs.take(chunks.len() as int), corr)
    } else {
        let (fs, m) = apply_outcomes(chunks.drop_last(), outs.drop_last(), corr);
        let (fs2, m2) = resolve_ids(outcome_ids(chunks.last(), outs.last()), m);
        (fs + fs2, m2)
    }
}

/// The full report of one invocation, given the batch, the chunk limit and
/// the store's per-chunk outcomes: the decode failures followed by the write
/// failures.
pub open spec fn report_spec(msgs: Seq<MessageView>, max: int, outs: Seq<OutcomeView>) -> Seq<
    Seq<char>,
> {
    decode_failures(msgs) + apply_outcomes(
        chunks_of(decoded_records(msgs), max),
        outs,
        correlation_of(msgs),
    ).0
}

/// The state of one invocation after the decode phase: the failures so far,
/// the chunks awaiting their store writes, the correlation map, and how many
/// chunk outcomes have been applied.
pub struct Pipeline {
    failures: Vec<String>,
    chunks: Vec<Vec<DomainRecord>>,
    correlation: CorrelationMap,
    applied: usize,
}

/// Mathematical image of a [`Pipeline`].
pub struct PipelineView {
    pub failures: Seq<Seq<char>>,
    pub chunks: Seq<Seq<RecordView>>,
    pub correlation: Map<Seq<char>, Seq<char>>,
    pub applied: int,
}

impl View for Pipeline {
    type V = PipelineView;

    closed spec fn view(&self) -> PipelineView {
        PipelineView {
            failures: self.failures.deep_view(),
            chunks: self.chunks.deep_view(),
            correlation: self.correlation@,
            applied: self.applied as int,
        }
    }
}

impl Pipeline {
    /// Run the decode phase over an inbound batch and partition the decoded
    /// records into chunks of at most `max_size`.  Every message either
    /// contributes an immediate failure or registers its record in the
    /// correlation map.
    pub fn prepare(messages: &Vec<InboundMessage>, max_size: usize) -> (p: Pipeline)
        requires
            max_size >= 1,
        ensures
            p@.failures == decode_failures(messages.deep_view()),
            p@.chunks == chunks_of(decoded_records(messages.deep_view()), max_size as int),
            p@.correlation == correlation_of(messages.deep_view()),
            p@.applied == 0,
    {
        let ghost all: Seq<MessageView> = messages.deep_view();
        let mut failures: Vec<String> = Vec::new();
        let mut records: Vec<DomainRecord> = Vec::new();
        let mut correlation = CorrelationMap::new();
        let mut i: usize = 0;
        while i < messages.len()
            invariant
                i <= messages.len(),
                all == messages.deep_view(),
                all.len() == messages.len(),
                failures.deep_view() == decode_failures(all.take(i as int)),
                records.deep_view() == decoded_records(all.take(i as int)),
                correlation@ == correlation_of(all.take(i as int)),
            decreases messages.len() - i,
        {
            proof {
                assert(all.take(i + 1).drop_last() =~= all.take(i as int));
                assert(all.take(i + 1).last() == all[i as int]);
            }
            let msg = &messages[i];
            let ghost pre_failures = failures.deep_view();
            let ghost pre_records = records.deep_view();
            match decode(&msg.body) {
                Result::Ok(record) => {
                    correlation.register(record.item_id.clone(), msg.message_id.clone());
                    records.push(record);
                    proof {
                        assert(records.deep_view() =~= pre_records.push(
                            decoded_records(all.take(i + 1)).last(),
                        ));
                    }
                },
                Result::Err(e) => {
                    failures.push(msg.message_id.clone());
                    proof {
                        assert(failures.deep_view() =~= pre_failures.push(all[i as int].id));
                    }
                },
            }
            i += 1;
        }
        proof {
            assert(all.take(messages.len() as int) =~= all);
        }
        let chunks = partition(records, max_size);
        Pipeline { failures, chunks, correlation, applied: 0 }
    }

    /// How many chunks the write phase must attempt.
    pub fn chunk_count(&self) -> (n: usize)
        ensures
            n == self@.chunks.len(),
    {
        self.chunks.len()
    }

    /// How many chunk outcomes have been applied so far.
    pub fn applied_count(&self) -> (n: usize)
        ensures
            n == self@.applied,
    {
        self.applied
    }

    /// The next chunk awaiting its store write.
    pub fn next_chunk(&self) -> (chunk: &Vec<DomainRecord>)
        requires
            self@.applied < self@.chunks.len(),
        ensures
            chunk.deep_view() == self@.chunks[self@.applied],
    {
        &self.chunks[self.applied]
    }

    /// Apply the store's outcome for the next chunk: resolve its unprocessed
    /// entries — or, on a hard failure, the whole chunk — against the
    /// correlation map, appending the recovered message identifiers to the
    /// failures.
    pub fn apply_outcome(&mut self, outcome: &ChunkOutcome)
        requires
            old(self)@.applied < old(self)@.chunks.len(),
        ensures
            final(self)@.chunks == old(self)@.chunks,
            final(self)@.applied == old(self)@.applied + 1,
            final(self)@.failures == old(self)@.failures + resolve_ids(
                outcome_ids(old(self)@.chunks[old(self)@.applied], outcome@),
                old(self)@.correlation,
            ).0,
            final(self)@.correlation == resolve_ids(
                outcome_ids(old(self)@.chunks[old(self)@.applied], outcome@),
                old(self)@.correlation,
            ).1,
    {
        match outcome {
            ChunkOutcome::Completed(entries) => {
                resolve_unprocessed(entries, &mut self.correlation, &mut self.failures);
            },
            ChunkOutcome::Failed => {
                let chunk = &self.chunks[self.applied];
                resolve_chunk_error(chunk, &mut self.correlation, &mut self.failures);
            },
        }
        let n = self.chunks.len();
        proof {
            assert(self.chunks.deep_view().len() == self.chunks@.len());
            assert(self.applied < n);
        }
        self.applied = self.applied + 1;
    }

    /// The partial-failure report accumulated so far: the identifiers of the
    /// messages that must be redelivered, decode failures first, then write
    /// failures in resolution order.
    pub fn into_report(self) -> (report: Vec<String>)
        ensures
            report.deep_view() == self@.failures,
    {
        self.failures
    }
}

/// Run the whole pipeline over an inbound batch, taking the store's per-chunk
/// outcomes as a list: decode every message, partition the records into
/// chunks of at most `max_size`, resolve each chunk's outcome in order, and
/// return the partial-failure report.  The invocation never fails as a whole
/// on account of individual messages.
pub fn run(messages: &Vec<InboundMessage>, max_size: usize, outcomes: &Vec<ChunkOutcome>) -> (report:
    Vec<String>)
    requires
        max_size >= 1,
        outcomes.deep_view().len() == chunks_of(
            decoded_records(messages.deep_view()),
            max_size as int,
        ).len(),
    ensures
        report.deep_view() == report_spec(
            messages.deep_view(),
            max_size as int,
            outcomes.deep_view(),
        ),
{
    let ghost msgs = messages.deep_view();
    let ghost outs: Seq<OutcomeView> = outcomes.deep_view();
    let ghost corr0 = correlation_of(msgs);
    let ghost all_chunks = chunks_of(decoded_records(msgs), max_size as int);
    let mut p = Pipeline::prepare(messages, max_size);
    let ghost fail0 = p@.failures;
    let mut i: usize = 0;
    while i < outcomes.len()
        invariant
            i <= outcomes.len(),
            msgs == messages.deep_view(),
            outs == outcomes.deep_view(),
            outs.len() == outcomes.len(),
            p@.chunks == all_chunks,
            all_chunks.len() == outcomes.len(),
            p@.applied == i,
            fail0 == decode_failures(msgs),
            corr0 == correlation_of(msgs),
            p@.failures == fail0 + apply_outcomes(
                all_chunks.take(i as int),
                outs.take(i as int),
                corr0,
            ).0,
            p@.correlation == apply_outcomes(all_chunks.take(i as int), outs.take(i as int), corr0).1,
        decreases outcomes.len() - i,
    {
        proof {
            assert(all_chunks.take(i + 1).drop_last() =~= all_chunks.take(i as int));
            assert(outs.take(i + 1).drop_last() =~= outs.take(i as int));
            assert(all_chunks.take(i + 1).last() == all_chunks[i as int]);
            assert(outs.take(i + 1).last() == outs[i as int]);
        }
        let outcome = &outcomes[i];
        p.apply_outcome(outcome);
        i += 1;
    }
    proof {
        assert(all_chunks.take(outcomes.len() as int) =~= all_chunks);
        assert(outs.take(outcomes.len() as int) =~= outs);
    }
    p.into_report()
}

/// [`run`], guarded for callers that cannot know the chunk count in advance:
/// when the outcome list does not line up with the chunks the batch needs, no
/// report is produced.
pub fn run_checked(
    messages: &Vec<InboundMessage>,
    max_size: usize,
    outcomes: &Vec<ChunkOutcome>,
) -> (report: Option<Vec<String>>)
    requires
        max_size >= 1,
    ensures
        match report {
            Option::Some(r) => outcomes.deep_view().len() == chunks_of(
                decoded_records(messages.deep_view()),
                max_size as int,
            ).len() && r.deep_view() == report_spec(
                messages.deep_view(),
                max_size as int,
                outcomes.deep_view(),
            ),
            Option::None => outcomes.deep_view().len() != chunks_of(
                decoded_records(messages.deep_view()),
                max_size as int,
            ).len(),
        },
{
    let p = Pipeline::prepare(messages, max_size);
    if outcomes.len() == p.chunk_count() {
        Option::Some(run(messages, max_size, outcomes))
    } else {
        Option::None
    }
}

} // verus!
