//! The failure correlator: a per-invocation map from item identifier to
//! originating message identifier, and the resolution of store-level failures
//! into message-level failures through it.
//!
//! Every successfully decoded record is registered before any write; an entry
//! is removed as soon as it is resolved against a failure, so a second,
//! unrelated failure naming the same item identifier cannot consume an
//! already-resolved mapping.

use vstd::prelude::*;
use vstd::hash_map::StringHashMap;
use crate::message::{DomainRecord, UnprocessedEntry};

verus! {

/// The per-invocation mapping from item identifier to the identifier of the
/// message the item came from.
pub struct CorrelationMap {
    map: StringHashMap<String>,
}

impl View for CorrelationMap {
    type V = Map<Seq<char>, Seq<char>>;

    closed spec fn view(&self) -> Map<Seq<char>, Seq<char>> {
        self.map@.map_values(|v: String| v@)
    }
}

impl CorrelationMap {
    /// An empty correlation map.
    pub fn new() -> (r: Self)
        ensures
            r@ == Map::<Seq<char>, Seq<char>>::empty(),
    {
        let r = CorrelationMap { map: StringHashMap::new() };
        proof {
            assert(r@ =~= Map::<Seq<char>, Seq<char>>::empty());
        }
        r
    }

    /// Record that the record keyed `item_id` originated from the message
    /// `message_id`.  A later registration for the same item identifier
    /// replaces the earlier one.
    pub fn register(&mut self, item_id: String, message_id: String)
        ensures
            final(self)@ == old(self)@.insert(item_id@, message_id@),
    {
        self.map.insert(item_id, message_id);
        proof {
            assert(self@ =~= old(self)@.insert(item_id@, message_id@));
        }
    }

    /// Look up and consume the message identifier for `item_id`.  Returns the
    /// identifier and removes the entry, or returns `None` and leaves the map
    /// unchanged when no entry is present.
    pub fn resolve(&mut self, item_id: &str) -> (r: Option<String>)
        ensures
            match r {
                Option::Some(mid) => old(self)@.contains_key(item_id@) && mid@ == old(
                    self,
                )@[item_id@] && final(self)@ == old(self)@.remove(item_id@),
                Option::None => !old(self)@.contains_key(item_id@) && final(self)@ == old(self)@,
            },
    {
        let found = match self.map.get(item_id) {
            Option::Some(mid) => Option::Some(mid.clone()),
            Option::None => Option::None,
        };
        match found {
            Option::Some(mid) => {
                self.map.remove(item_id);
                proof {
                    assert(self@ =~= old(self)@.remove(item_id@));
                }
                Option::Some(mid)
            },
            Option::None => Option::None,
        }
    }

    /// Whether an entry for `item_id` is present.
    pub fn contains(&self, item_id: &str) -> (r: bool)
        ensures
            r == self@.contains_key(item_id@),
    {
        self.map.contains_key(item_id)
    }
}

/// The result of resolving a list of reported item identifiers (`None` for an
/// entry whose identifier could not be recovered) against a correlation map,
/// left to right: the message identifiers emitted, and the map that remains.
/// An identifier with no live entry is dropped; a resolved entry is consumed.
pub open spec fn resolve_ids(
    ids: Seq<Option<Seq<char>>>,
    corr: Map<Seq<char>, Seq<char>>,
) -> (Seq<Seq<char>>, Map<Seq<char>, Seq<char>>)
    decreases ids.len(),
{
    if ids.len() == 0 {
        (Seq::empty(), corr)
    } else {
        let (fs, m) = resolve_ids(ids.drop_last(), corr);
        match ids.last() {
            Option::None => (fs, m),
            Option::Some(k) => if m.contains_key(k) {
                (fs.push(m[k]), m.remove(k))
            } else {
                (fs, m)
            },
        }
    }
}

/// The item identifiers a whole chunk contributes when its write call failed
/// hard: every record of the chunk, in order.
pub open spec fn chunk_ids(chunk: Seq<crate::message::RecordView>) -> Seq<Option<Seq<char>>> {
    chunk.map_values(|r: crate::message::RecordView| Option::Some(r.item_id))
}

/// Resolve one recovered item identifier: consume its correlation entry and
/// report the originating message, or drop it silently when no entry is live.
fn resolve_one(correlation: &mut CorrelationMap, failures: &mut Vec<String>, item_id: &str)
    ensures
        old(correlation)@.contains_key(item_id@) ==> final(failures).deep_view() == old(
            failures,
        ).deep_view().push(old(correlation)@[item_id@]) && final(correlation)@ == old(
            correlation,
        )@.remove(item_id@),
        !old(correlation)@.contains_key(item_id@) ==> final(failures).deep_view() == old(
            failures,
        ).deep_view() && final(correlation)@ == old(correlation)@,
{
    let ghost pre = failures.deep_view();
    match correlation.resolve(item_id) {
        Option::Some(message_id) => {
            failures.push(message_id);
            proof {
                assert(failures.deep_view() =~= pre.push(old(correlation)@[item_id@]));
            }
        },
        Option::None => {},
    }
}

/// Resolve the store's unprocessed entries for one completed chunk write:
/// each entry with a recoverable item identifier and a live correlation entry
/// adds the originating message identifier to `failures`; entries whose
/// identifier cannot be recovered, and identifiers with no live entry, are
/// dropped.
pub fn resolve_unprocessed(
    entries: &Vec<UnprocessedEntry>,
    correlation: &mut CorrelationMap,
    failures: &mut Vec<String>,
)
    ensures
        final(failures).deep_view() == old(failures).deep_view() + resolve_ids(
            entries.deep_view(),
            old(correlation)@,
        ).0,
        final(correlation)@ == resolve_ids(entries.deep_view(), old(correlation)@).1,
{
    let ghost all: Seq<Option<Seq<char>>> = entries.deep_view();
    let ghost corr0 = old(correlation)@;
    let ghost fail0 = old(failures).deep_view();
    let mut i: usize = 0;
    while i < entries.len()
        invariant
            i <= entries.len(),
            all == entries.deep_view(),
            all.len() == entries.len(),
            failures.deep_view() == fail0 + resolve_ids(all.take(i as int), corr0).0,
            correlation@ == resolve_ids(all.take(i as int), corr0).1,
        decreases entries.len() - i,
    {
        proof {
            assert(all.take(i + 1).drop_last() =~= all.take(i as int));
            assert(all.take(i + 1).last() == all[i as int]);
        }
        match &entries[i] {
            UnprocessedEntry::Decoded(rec) => {
                resolve_one(correlation, failures, rec.item_id.as_str());
            },
            UnprocessedEntry::Undecodable => {},
        }
        i += 1;
    }
    proof {
        assert(all.take(entries.len() as int) =~= all);
    }
}

/// Resolve a hard-failed chunk write: every record of the chunk is treated as
/// unprocessed, and each live correlation entry among them adds the
/// originating message identifier to `failures`.
pub fn resolve_chunk_error(
    chunk: &Vec<DomainRecord>,
    correlation: &mut CorrelationMap,
    failures: &mut Vec<String>,
)
    ensures
        final(failures).deep_view() == old(failures).deep_view() + resolve_ids(
            chunk_ids(chunk.deep_view()),
            old(correlation)@,
        ).0,
        final(correlation)@ == resolve_ids(chunk_ids(chunk.deep_view()), old(correlation)@).1,
{
    let ghost all: Seq<Option<Seq<char>>> = chunk_ids(chunk.deep_view());
    let ghost corr0 = old(correlation)@;
    let ghost fail0 = old(failures).deep_view();
    let mut i: usize = 0;
    while i < chunk.len()
        invariant
            i <= chunk.len(),
            all == chunk_ids(chunk.deep_view()),
            all.len() == chunk.len(),
            failures.deep_view() == fail0 + resolve_ids(all.take(i as int), corr0).0,
            correlation@ == resolve_ids(all.take(i as int), corr0).1,
        decreases chunk.len() - i,
    {
        proof {
            assert(all.take(i + 1).drop_last() =~= all.take(i as int));
            assert(all.take(i + 1).last() == all[i as int]);
            assert(all[i as int] == Option::Some(chunk.deep_view()[i as int].item_id));
        }
        resolve_one(correlation, failures, chunk[i].item_id.as_str());
        i += 1;
    }
    proof {
        assert(all.take(chunk.len() as int) =~= all);
    }
}

} // verus!
