//! The data carried through one invocation of the pipeline: inbound queue
//! messages, decoded domain records, and the outcomes the store reports for
//! each attempted chunk.

use vstd::prelude::*;

verus! {

/// One message taken from the queue.  The queue guarantees every message a
/// unique identifier; the body is optional on the wire.
pub struct InboundMessage {
    pub message_id: String,
    pub body: Option<String>,
}

/// Mathematical image of an [`InboundMessage`].
pub struct MessageView {
    pub id: Seq<char>,
    pub body: Option<Seq<char>>,
}

impl View for InboundMessage {
    type V = MessageView;

    open spec fn view(&self) -> MessageView {
        MessageView {
            id: self.message_id@,
            body: match self.body {
                Option::Some(s) => Option::Some(s@),
                Option::None => Option::None,
            },
        }
    }
}

impl DeepView for InboundMessage {
    type V = MessageView;

    open spec fn deep_view(&self) -> MessageView {
        self@
    }
}

/// A domain record decoded from a message body.  `item_id` is the primary key
/// under which the store writes the record; `payload` is the record's full
/// wire form, kept so the store writer can encode it.
#[derive(Debug, PartialEq, Eq)]
pub struct DomainRecord {
    pub item_id: String,
    pub payload: String,
}

/// Mathematical image of a [`DomainRecord`].
pub struct RecordView {
    pub item_id: Seq<char>,
    pub payload: Seq<char>,
}

impl View for DomainRecord {
    type V = RecordView;

    open spec fn view(&self) -> RecordView {
        RecordView { item_id: self.item_id@, payload: self.payload@ }
    }
}

impl DeepView for DomainRecord {
    type V = RecordView;

    open spec fn deep_view(&self) -> RecordView {
        self@
    }
}

/// One entry the store reported as not durably written.  Decoding the store's
/// native encoding back into a record can itself fail; such an entry is
/// `Undecodable` and carries no identifier.
pub enum UnprocessedEntry {
    Decoded(DomainRecord),
    Undecodable,
}

impl View for UnprocessedEntry {
    /// The item identifier of the entry, if one could be recovered.
    type V = Option<Seq<char>>;

    open spec fn view(&self) -> Option<Seq<char>> {
        match self {
            UnprocessedEntry::Decoded(rec) => Option::Some(rec.item_id@),
            UnprocessedEntry::Undecodable => Option::None,
        }
    }
}

impl DeepView for UnprocessedEntry {
    type V = Option<Seq<char>>;

    open spec fn deep_view(&self) -> Option<Seq<char>> {
        self@
    }
}

/// What the store reported for one attempted chunk: either the call went
/// through and the store named the subset of entries it did not commit
/// (possibly empty), or the whole call failed hard.
pub enum ChunkOutcome {
    Completed(Vec<UnprocessedEntry>),
    Failed,
}

/// Mathematical image of a [`ChunkOutcome`].
pub enum OutcomeView {
    Completed(Seq<Option<Seq<char>>>),
    Failed,
}

impl View for ChunkOutcome {
    type V = OutcomeView;

    open spec fn view(&self) -> OutcomeView {
        match self {
            ChunkOutcome::Completed(entries) => OutcomeView::Completed(entries.deep_view()),
            ChunkOutcome::Failed => OutcomeView::Failed,
        }
    }
}

impl DeepView for ChunkOutcome {
    type V = OutcomeView;

    open spec fn deep_view(&self) -> OutcomeView {
        self@
    }
}

/// The identifiers of a sequence of messages, in batch order.
pub open spec fn message_ids(msgs: Seq<MessageView>) -> Seq<Seq<char>> {
    msgs.map_values(|m: MessageView| m.id)
}

} // verus!
