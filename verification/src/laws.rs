//! The guarantees of the pipeline, proved over its specification model: what
//! the partial-failure report can and cannot contain.

use vstd::prelude::*;
use crate::correlate::{chunk_ids, resolve_ids};
use crate::message::{MessageView, OutcomeView, RecordView, message_ids};
use crate::partition::chunks_of;
use crate::pipeline::{apply_outcomes, correlation_of, decode_failures, decoded_records,
    outcome_ids, report_spec};

verus! {

broadcast use vstd::set::group_set_axioms, vstd::map::group_map_axioms;

/// A map that never sends two keys to the same value.  The correlation map
/// has this shape whenever the batch's message identifiers are unique.
pub open spec fn injective(m: Map<Seq<char>, Seq<char>>) -> bool {
    forall|k1: Seq<char>, k2: Seq<char>|
        m.contains_key(k1) && m.contains_key(k2) && m[k1] == m[k2] ==> k1 == k2
}

/// The item identifiers of a sequence of records, in order.
pub open spec fn item_ids(recs: Seq<RecordView>) -> Seq<Seq<char>> {
    recs.map_values(|r: RecordView| r.item_id)
}

/// The store answers only about entries it was handed: every decodable
/// unprocessed entry of a completed chunk write names an item identifier of
/// the attempted chunk.
pub open spec fn outcomes_from_chunks(
    chunks: Seq<Seq<RecordView>>,
    outs: Seq<OutcomeView>,
) -> bool {
    forall|c: int, j: int|
        0 <= c < chunks.len() && c < outs.len() && outs[c] is Completed && 0 <= j
            < outs[c]->Completed_0.len() && outs[c]->Completed_0[j] is Some ==> chunk_ids(
            chunks[c],
        ).contains(#[trigger] outs[c]->Completed_0[j])
}

/// Whether some attempted chunk's outcome names `k` as not committed.
pub open spec fn mentioned(
    chunks: Seq<Seq<RecordView>>,
    outs: Seq<OutcomeView>,
    k: Seq<char>,
) -> bool {
    exists|c: int|
        0 <= c < chunks.len() && c < outs.len() && outcome_ids(chunks[c], outs[c]).contains(
            Option::Some(k),
        )
}

proof fn lemma_contains_concat_left<A>(a: Seq<A>, b: Seq<A>, x: A)
    requires
        a.contains(x),
    ensures
        (a + b).contains(x),
{
    let i = choose|i: int| 0 <= i < a.len() && a[i] == x;
    assert((a + b)[i] == x);
}

proof fn lemma_contains_concat_right<A>(a: Seq<A>, b: Seq<A>, x: A)
    requires
        b.contains(x),
    ensures
        (a + b).contains(x),
{
    let i = choose|i: int| 0 <= i < b.len() && b[i] == x;
    assert((a + b)[a.len() + i] == x);
}

proof fn lemma_push_contains<A>(a: Seq<A>, y: A, x: A)
    requires
        a.contains(x),
    ensures
        a.push(y).contains(x),
{
    let i = choose|i: int| 0 <= i < a.len() && a[i] == x;
    assert(a.push(y)[i] == x);
}

proof fn lemma_contains_drop_last<A>(a: Seq<A>, x: A)
    requires
        a.len() > 0,
        a.drop_last().contains(x),
    ensures
        a.contains(x),
{
    let i = choose|i: int| 0 <= i < a.drop_last().len() && a.drop_last()[i] == x;
    assert(a[i] == x);
}

proof fn lemma_contains_push<A>(a: Seq<A>, y: A, x: A)
    requires
        a.push(y).contains(x),
    ensures
        a.contains(x) || x == y,
{
    let i = choose|i: int| 0 <= i < a.push(y).len() && a.push(y)[i] == x;
    if i < a.len() {
        assert(a[i] == x);
    }
}

/// The identifiers of a batch, restricted to its first `n` messages, are the
/// first `n` of its identifiers.
proof fn lemma_ids_drop_last(msgs: Seq<MessageView>)
    requires
        msgs.len() > 0,
    ensures
        message_ids(msgs.drop_last()) =~= message_ids(msgs).drop_last(),
        message_ids(msgs).last() == msgs.last().id,
        message_ids(msgs).no_duplicates() ==> message_ids(msgs.drop_last()).no_duplicates(),
        message_ids(msgs).no_duplicates() ==> !message_ids(msgs.drop_last()).contains(
            msgs.last().id,
        ),
{
    assert(message_ids(msgs.drop_last()) =~= message_ids(msgs).drop_last());
    if message_ids(msgs).no_duplicates() && message_ids(msgs.drop_last()).contains(
        msgs.last().id,
    ) {
        let i = choose|i: int|
            0 <= i < message_ids(msgs.drop_last()).len() && message_ids(msgs.drop_last())[i]
                == msgs.last().id;
        assert(message_ids(msgs)[i] == message_ids(msgs)[msgs.len() - 1]);
    }
}

/// What the decode phase leaves behind.  Unconditionally: every recorded
/// failure and every correlation value is an identifier of the batch, every
/// message that fails to decode is recorded, and failures and map entries
/// together never outnumber the batch.  With unique message identifiers the
/// failures are distinct, the map is injective, and no identifier sits both
/// in the failures and in the map.
proof fn lemma_decode_phase(msgs: Seq<MessageView>)
    ensures
        decode_failures(msgs).len() + correlation_of(msgs).len() <= msgs.len(),
        correlation_of(msgs).dom().finite(),
        forall|x: Seq<char>| #[trigger]
            decode_failures(msgs).contains(x) ==> message_ids(msgs).contains(x),
        forall|k: Seq<char>| #[trigger]
            correlation_of(msgs).contains_key(k) ==> message_ids(msgs).contains(
                correlation_of(msgs)[k],
            ),
        forall|i: int|
            0 <= i < msgs.len() && crate::codec::decode_spec(#[trigger] msgs[i].body) is Err
                ==> decode_failures(msgs).contains(msgs[i].id),
        forall|k: Seq<char>| #[trigger]
            correlation_of(msgs).contains_key(k) ==> item_ids(decoded_records(msgs)).contains(k),
        message_ids(msgs).no_duplicates() ==> decode_failures(msgs).no_duplicates(),
        message_ids(msgs).no_duplicates() ==> injective(correlation_of(msgs)),
        message_ids(msgs).no_duplicates() ==> forall|k: Seq<char>| #[trigger]
            correlation_of(msgs).contains_key(k) ==> !decode_failures(msgs).contains(
                correlation_of(msgs)[k],
            ),
        message_ids(msgs).no_duplicates() ==> forall|i: int|
            0 <= i < msgs.len() && crate::codec::decode_spec(#[trigger] msgs[i].body) is Ok
                ==> !decode_failures(msgs).contains(msgs[i].id),
    decreases msgs.len(),
{
    if msgs.len() == 0 {
        assert(correlation_of(msgs).dom() =~= Set::<Seq<char>>::empty());
    } else {
        let pre = msgs.drop_last();
        let last = msgs.last();
        lemma_decode_phase(pre);
        lemma_ids_drop_last(msgs);
        let fs_pre = decode_failures(pre);
        let corr_pre = correlation_of(pre);
        let fs = decode_failures(msgs);
        let corr = correlation_of(msgs);
        let nodup = message_ids(msgs).no_duplicates();

        assert forall|x: Seq<char>| #[trigger] message_ids(pre).contains(x) implies message_ids(
            msgs,
        ).contains(x) by {
            let i = choose|i: int| 0 <= i < message_ids(pre).len() && message_ids(pre)[i] == x;
            assert(message_ids(msgs)[i] == x);
        }
        assert(message_ids(msgs).contains(last.id)) by {
            assert(message_ids(msgs)[msgs.len() - 1] == last.id);
        }
        assert forall|i: int| 0 <= i < pre.len() implies pre[i] == msgs[i] && msgs[i].id
            == message_ids(pre)[i] by {}

        match crate::codec::decode_spec(last.body) {
            Result::Err(e) => {
                assert(fs == fs_pre.push(last.id));
                assert(corr == corr_pre);
                assert(decoded_records(msgs) == decoded_records(pre));
                assert forall|x: Seq<char>| #[trigger] fs.contains(x) implies message_ids(
                    msgs,
                ).contains(x) by {
                    lemma_contains_push(fs_pre, last.id, x);
                }
                assert forall|i: int|
                    0 <= i < msgs.len() && crate::codec::decode_spec(
                        #[trigger] msgs[i].body,
                    ) is Err implies fs.contains(msgs[i].id) by {
                    if i < msgs.len() - 1 {
                        assert(fs_pre.contains(msgs[i].id));
                        lemma_push_contains(fs_pre, last.id, msgs[i].id);
                    } else {
                        assert(fs[fs.len() - 1] == last.id);
                    }
                }
                if nodup {
                    assert(fs.no_duplicates()) by {
                        assert(!fs_pre.contains(last.id));
                        assert forall|i: int, j: int|
                            0 <= i < fs.len() && 0 <= j < fs.len() && i != j implies fs[i]
                            != fs[j] by {
                            if i < fs_pre.len() && j < fs_pre.len() {
                            } else if i < fs_pre.len() {
                                assert(fs_pre.contains(fs[i])) by {
                                    assert(fs_pre[i] == fs[i]);
                                }
                            } else if j < fs_pre.len() {
                                assert(fs_pre.contains(fs[j])) by {
                                    assert(fs_pre[j] == fs[j]);
                                }
                            }
                        }
                    }
                    assert forall|k: Seq<char>| #[trigger] corr.contains_key(k) implies !fs
                        .contains(corr[k]) by {
                        if fs.contains(corr[k]) {
                            lemma_contains_push(fs_pre, last.id, corr[k]);
                        }
                    }
                    assert forall|i: int|
                        0 <= i < msgs.len() && crate::codec::decode_spec(
                            #[trigger] msgs[i].body,
                        ) is Ok implies !fs.contains(msgs[i].id) by {
                        if fs.contains(msgs[i].id) {
                            lemma_contains_push(fs_pre, last.id, msgs[i].id);
                            if i < msgs.len() - 1 && msgs[i].id == last.id {
                                assert(message_ids(msgs)[i] == message_ids(msgs)[msgs.len() - 1]);
                            }
                        }
                    }
                }
            },
            Result::Ok(rec) => {
                assert(fs == fs_pre);
                assert(corr == corr_pre.insert(rec.item_id, last.id));
                assert(corr.len() <= corr_pre.len() + 1);
                assert(decoded_records(msgs) == decoded_records(pre).push(rec));
                assert(item_ids(decoded_records(msgs)) =~= item_ids(decoded_records(pre)).push(
                    rec.item_id,
                ));
                assert forall|k: Seq<char>| #[trigger] corr.contains_key(k) implies item_ids(
                    decoded_records(msgs),
                ).contains(k) by {
                    if k == rec.item_id {
                        assert(item_ids(decoded_records(msgs))[item_ids(
                            decoded_records(msgs),
                        ).len() - 1] == rec.item_id);
                    } else {
                        assert(corr_pre.contains_key(k));
                        lemma_push_contains(item_ids(decoded_records(pre)), rec.item_id, k);
                    }
                }
                assert forall|k: Seq<char>| #[trigger] corr.contains_key(k) implies message_ids(
                    msgs,
                ).contains(corr[k]) by {
                    if k != rec.item_id {
                        assert(corr_pre.contains_key(k) && corr[k] == corr_pre[k]);
                    }
                }
                assert forall|i: int|
                    0 <= i < msgs.len() && crate::codec::decode_spec(
                        #[trigger] msgs[i].body,
                    ) is Err implies fs.contains(msgs[i].id) by {
                    if i < msgs.len() - 1 {
                        assert(fs_pre.contains(msgs[i].id));
                    }
                }
                if nodup {
                    assert(injective(corr)) by {
                        assert forall|k1: Seq<char>, k2: Seq<char>|
                            corr.contains_key(k1) && corr.contains_key(k2) && corr[k1] == corr[k2]
                            implies k1 == k2 by {
                            if k1 != rec.item_id && k2 != rec.item_id {
                                assert(corr_pre.contains_key(k1) && corr[k1] == corr_pre[k1]);
                                assert(corr_pre.contains_key(k2) && corr[k2] == corr_pre[k2]);
                            } else if k1 == rec.item_id && k2 != rec.item_id {
                                assert(corr_pre.contains_key(k2) && corr[k2] == corr_pre[k2]);
                                assert(message_ids(pre).contains(corr_pre[k2]));
                            } else if k2 == rec.item_id && k1 != rec.item_id {
                                assert(corr_pre.contains_key(k1) && corr[k1] == corr_pre[k1]);
                                assert(message_ids(pre).contains(corr_pre[k1]));
                            }
                        }
                    }
                    assert forall|k: Seq<char>| #[trigger] corr.contains_key(k) implies !fs
                        .contains(corr[k]) by {
                        if k != rec.item_id {
                            assert(corr_pre.contains_key(k) && corr[k] == corr_pre[k]);
                        } else {
                            if fs.contains(last.id) {
                                assert(message_ids(pre).contains(last.id));
                            }
                        }
                    }
                    assert forall|i: int|
                        0 <= i < msgs.len() && crate::codec::decode_spec(
                            #[trigger] msgs[i].body,
                        ) is Ok implies !fs.contains(msgs[i].id) by {
                        if i == msgs.len() - 1 {
                            if fs.contains(last.id) {
                                assert(message_ids(pre).contains(last.id));
                            }
                        }
                    }
                }
            },
        }
    }
}

/// Resolution consumes the map it resolves against: the remaining map is a
/// restriction of the original, each emitted identifier is the image of a
/// resolved key, and as many identifiers are emitted as entries disappear.
/// Against an injective map the emitted identifiers are distinct and disjoint
/// from the values that remain.
proof fn lemma_resolve_ids(ids: Seq<Option<Seq<char>>>, corr: Map<Seq<char>, Seq<char>>)
    ensures
        forall|k: Seq<char>| #[trigger]
            resolve_ids(ids, corr).1.contains_key(k) ==> corr.contains_key(k) && resolve_ids(
                ids,
                corr,
            ).1[k] == corr[k],
        forall|v: Seq<char>| #[trigger]
            resolve_ids(ids, corr).0.contains(v) ==> exists|k: Seq<char>|
                corr.contains_key(k) && corr[k] == v && ids.contains(Option::Some(k)),
        corr.dom().finite() ==> resolve_ids(ids, corr).1.dom().finite() && resolve_ids(
            ids,
            corr,
        ).0.len() + resolve_ids(ids, corr).1.len() == corr.len(),
        injective(corr) ==> resolve_ids(ids, corr).0.no_duplicates(),
        injective(corr) ==> injective(resolve_ids(ids, corr).1),
        injective(corr) ==> forall|k: Seq<char>| #[trigger]
            resolve_ids(ids, corr).1.contains_key(k) ==> !resolve_ids(ids, corr).0.contains(
                resolve_ids(ids, corr).1[k],
            ),
    decreases ids.len(),
{
    if ids.len() == 0 {
    } else {
        let pre = ids.drop_last();
        lemma_resolve_ids(pre, corr);
        let fs1 = resolve_ids(pre, corr).0;
        let m1 = resolve_ids(pre, corr).1;
        let fs = resolve_ids(ids, corr).0;
        let m = resolve_ids(ids, corr).1;
        assert forall|x: Option<Seq<char>>| #[trigger] pre.contains(x) implies ids.contains(x) by {
            lemma_contains_drop_last(ids, x);
        }
        match ids.last() {
            Option::None => {},
            Option::Some(k0) => {
                if m1.contains_key(k0) {
                    assert(fs == fs1.push(m1[k0]));
                    assert(m == m1.remove(k0));
                    assert(ids.contains(Option::Some(k0))) by {
                        assert(ids[ids.len() - 1] == Option::Some(k0));
                    }
                    assert forall|v: Seq<char>| #[trigger] fs.contains(v) implies exists|
                        k: Seq<char>,
                    |
                        corr.contains_key(k) && corr[k] == v && ids.contains(
                            Option::Some(k),
                        ) by {
                        lemma_contains_push(fs1, m1[k0], v);
                        if fs1.contains(v) {
                        } else {
                            assert(corr.contains_key(k0) && corr[k0] == v);
                        }
                    }
                    if injective(corr) {
                        assert(fs.no_duplicates()) by {
                            assert(!fs1.contains(m1[k0]));
                            assert forall|i: int, j: int|
                                0 <= i < fs.len() && 0 <= j < fs.len() && i != j implies fs[i]
                                != fs[j] by {
                                if i < fs1.len() && j < fs1.len() {
                                } else if i < fs1.len() {
                                    assert(fs1.contains(fs[i])) by {
                                        assert(fs1[i] == fs[i]);
                                    }
                                } else if j < fs1.len() {
                                    assert(fs1.contains(fs[j])) by {
                                        assert(fs1[j] == fs[j]);
                                    }
                                }
                            }
                        }
                        assert forall|k: Seq<char>| #[trigger] m.contains_key(k) implies !fs
                            .contains(m[k]) by {
                            assert(m1.contains_key(k) && m[k] == m1[k]);
                            if fs.contains(m[k]) {
                                lemma_contains_push(fs1, m1[k0], m[k]);
                                if m[k] == m1[k0] {
                                    assert(corr.contains_key(k) && corr.contains_key(k0));
                                    assert(corr[k] == m1[k] && corr[k0] == m1[k0]);
                                }
                            }
                        }
                    }
                }
            },
        }
    }
}

/// [`lemma_resolve_ids`], lifted over the whole write phase.
proof fn lemma_apply_outcomes(
    chunks: Seq<Seq<RecordView>>,
    outs: Seq<OutcomeView>,
    corr: Map<Seq<char>, Seq<char>>,
)
    ensures
        forall|k: Seq<char>| #[trigger]
            apply_outcomes(chunks, outs, corr).1.contains_key(k) ==> corr.contains_key(k)
                && apply_outcomes(chunks, outs, corr).1[k] == corr[k],
        forall|v: Seq<char>| #[trigger]
            apply_outcomes(chunks, outs, corr).0.contains(v) ==> exists|k: Seq<char>|
                corr.contains_key(k) && corr[k] == v && mentioned(chunks, outs, k),
        corr.dom().finite() ==> apply_outcomes(chunks, outs, corr).1.dom().finite()
            && apply_outcomes(chunks, outs, corr).0.len() + apply_outcomes(
            chunks,
            outs,
            corr,
        ).1.len() == corr.len(),
        injective(corr) ==> apply_outcomes(chunks, outs, corr).0.no_duplicates(),
        injective(corr) ==> injective(apply_outcomes(chunks, outs, corr).1),
        injective(corr) ==> forall|k: Seq<char>| #[trigger]
            apply_outcomes(chunks, outs, corr).1.contains_key(k) ==> !apply_outcomes(
                chunks,
                outs,
                corr,
            ).0.contains(apply_outcomes(chunks, outs, corr).1[k]),
    decreases outs.len(), chunks.len(),
{
    let fs = apply_outcomes(chunks, outs, corr).0;
    let m = apply_outcomes(chunks, outs, corr).1;
    if outs.len() == 0 || chunks.len() == 0 {
    } else if outs.len() < chunks.len() {
        lemma_apply_outcomes(chunks.take(outs.len() as int), outs, corr);
        assert(apply_outcomes(chunks, outs, corr).0 == apply_outcomes(
            chunks.take(outs.len() as int),
            outs,
            corr,
        ).0);
        assert(apply_outcomes(chunks, outs, corr).1 == apply_outcomes(
            chunks.take(outs.len() as int),
            outs,
            corr,
        ).1);
        assert forall|v: Seq<char>| #[trigger] fs.contains(v) implies exists|k: Seq<char>|
            corr.contains_key(k) && corr[k] == v && mentioned(chunks, outs, k) by {
            assert(apply_outcomes(chunks.take(outs.len() as int), outs, corr).0.contains(v));
            let k = choose|k: Seq<char>|
                corr.contains_key(k) && corr[k] == v && mentioned(
                    chunks.take(outs.len() as int),
                    outs,
                    k,
                );
            let c = choose|c: int|
                0 <= c < chunks.take(outs.len() as int).len() && c < outs.len() && outcome_ids(
                    chunks.take(outs.len() as int)[c],
                    outs[c],
                ).contains(Option::Some(k));
            assert(outcome_ids(chunks[c], outs[c]).contains(Option::Some(k)));
        }
    } else if outs.len() > chunks.len() {
        lemma_apply_outcomes(chunks, outs.take(chunks.len() as int), corr);
        assert(apply_outcomes(chunks, outs, corr).0 == apply_outcomes(
            chunks,
            outs.take(chunks.len() as int),
            corr,
        ).0);
        assert(apply_outcomes(chunks, outs, corr).1 == apply_outcomes(
            chunks,
            outs.take(chunks.len() as int),
            corr,
        ).1);
        assert forall|v: Seq<char>| #[trigger] fs.contains(v) implies exists|k: Seq<char>|
            corr.contains_key(k) && corr[k] == v && mentioned(chunks, outs, k) by {
            assert(apply_outcomes(chunks, outs.take(chunks.len() as int), corr).0.contains(v));
            let k = choose|k: Seq<char>|
                corr.contains_key(k) && corr[k] == v && mentioned(
                    chunks,
                    outs.take(chunks.len() as int),
                    k,
                );
            let c = choose|c: int|
                0 <= c < chunks.len() && c < outs.take(chunks.len() as int).len() && outcome_ids(
                    chunks[c],
                    outs.take(chunks.len() as int)[c],
                ).contains(Option::Some(k));
            assert(outcome_ids(chunks[c], outs[c]).contains(Option::Some(k)));
        }
    } else {
        let cpre = chunks.drop_last();
        let opre = outs.drop_last();
        lemma_apply_outcomes(cpre, opre, corr);
        let fs1 = apply_outcomes(cpre, opre, corr).0;
        let m1 = apply_outcomes(cpre, opre, corr).1;
        let last_ids = outcome_ids(chunks.last(), outs.last());
        lemma_resolve_ids(last_ids, m1);
        let fs2 = resolve_ids(last_ids, m1).0;
        let m2 = resolve_ids(last_ids, m1).1;
        assert(fs == fs1 + fs2);
        assert(m == m2);
        assert forall|v: Seq<char>| #[trigger] fs.contains(v) implies exists|k: Seq<char>|
            corr.contains_key(k) && corr[k] == v && mentioned(chunks, outs, k) by {
            let i = choose|i: int| 0 <= i < fs.len() && fs[i] == v;
            if i < fs1.len() {
                assert(fs1.contains(v)) by {
                    assert(fs1[i] == v);
                }
                let k = choose|k: Seq<char>|
                    corr.contains_key(k) && corr[k] == v && mentioned(cpre, opre, k);
                let c = choose|c: int|
                    0 <= c < cpre.len() && c < opre.len() && outcome_ids(
                        cpre[c],
                        opre[c],
                    ).contains(Option::Some(k));
                assert(outcome_ids(chunks[c], outs[c]).contains(Option::Some(k)));
            } else {
                assert(fs2.contains(v)) by {
                    assert(fs2[i - fs1.len()] == v);
                }
                let k = choose|k: Seq<char>|
                    m1.contains_key(k) && m1[k] == v && last_ids.contains(Option::Some(k));
                assert(corr.contains_key(k) && corr[k] == v);
                assert(outcome_ids(chunks[chunks.len() - 1], outs[outs.len() - 1]).contains(
                    Option::Some(k),
                ));
            }
        }
        if injective(corr) {
            assert(injective(m1));
            assert(fs.no_duplicates()) by {
                assert forall|i: int, j: int|
                    0 <= i < fs.len() && 0 <= j < fs.len() && i != j implies fs[i] != fs[j] by {
                    if i < fs1.len() && j < fs1.len() {
                    } else if i >= fs1.len() && j >= fs1.len() {
                        assert(fs[i] == fs2[i - fs1.len()] && fs[j] == fs2[j - fs1.len()]);
                    } else {
                        let (a, b) = if i < fs1.len() {
                            (i, j)
                        } else {
                            (j, i)
                        };
                        assert(fs1.contains(fs[a])) by {
                            assert(fs1[a] == fs[a]);
                        }
                        assert(fs2.contains(fs[b])) by {
                            assert(fs2[b - fs1.len()] == fs[b]);
                        }
                        let k = choose|k: Seq<char>|
                            m1.contains_key(k) && m1[k] == fs[b] && last_ids.contains(
                                Option::Some(k),
                            );
                        assert(!fs1.contains(m1[k]));
                    }
                }
            }
            assert forall|k: Seq<char>| #[trigger] m.contains_key(k) implies !fs.contains(
                m[k],
            ) by {
                assert(m1.contains_key(k) && m[k] == m1[k]);
                if fs.contains(m[k]) {
                    let i = choose|i: int| 0 <= i < fs.len() && fs[i] == m[k];
                    if i < fs1.len() {
                        assert(fs1.contains(m1[k])) by {
                            assert(fs1[i] == fs[i]);
                        }
                    } else {
                        assert(fs2.contains(m2[k])) by {
                            assert(fs2[i - fs1.len()] == fs[i]);
                        }
                    }
                }
            }
        }
    }
}

/// For every inbound batch: the report never outgrows the batch, and every
/// identifier it carries is the identifier of some inbound message.  When the
/// batch's message identifiers are unique — as the queue guarantees — the
/// report names no message twice.
pub proof fn lemma_report_within_batch(msgs: Seq<MessageView>, max: int, outs: Seq<OutcomeView>)
    ensures
        report_spec(msgs, max, outs).len() <= msgs.len(),
        forall|x: Seq<char>| #[trigger]
            report_spec(msgs, max, outs).contains(x) ==> message_ids(msgs).contains(x),
        message_ids(msgs).no_duplicates() ==> report_spec(msgs, max, outs).no_duplicates(),
{
    let fs0 = decode_failures(msgs);
    let corr = correlation_of(msgs);
    let chunks = chunks_of(decoded_records(msgs), max);
    let wfs = apply_outcomes(chunks, outs, corr).0;
    let report = report_spec(msgs, max, outs);
    lemma_decode_phase(msgs);
    lemma_apply_outcomes(chunks, outs, corr);
    assert(report == fs0 + wfs);
    assert(report.len() <= msgs.len());
    assert forall|x: Seq<char>| #[trigger] report.contains(x) implies message_ids(msgs).contains(
        x,
    ) by {
        let i = choose|i: int| 0 <= i < report.len() && report[i] == x;
        if i < fs0.len() {
            assert(fs0.contains(x)) by {
                assert(fs0[i] == x);
            }
        } else {
            assert(wfs.contains(x)) by {
                assert(wfs[i - fs0.len()] == x);
            }
            let k = choose|k: Seq<char>|
                corr.contains_key(k) && corr[k] == x && mentioned(chunks, outs, k);
        }
    }
    if message_ids(msgs).no_duplicates() {
        assert forall|i: int, j: int|
            0 <= i < report.len() && 0 <= j < report.len() && i != j implies report[i]
            != report[j] by {
            if i < fs0.len() && j < fs0.len() {
            } else if i >= fs0.len() && j >= fs0.len() {
                assert(report[i] == wfs[i - fs0.len()] && report[j] == wfs[j - fs0.len()]);
            } else {
                let (a, b) = if i < fs0.len() {
                    (i, j)
                } else {
                    (j, i)
                };
                assert(fs0.contains(report[a])) by {
                    assert(fs0[a] == report[a]);
                }
                assert(wfs.contains(report[b])) by {
                    assert(wfs[b - fs0.len()] == report[b]);
                }
                let k = choose|k: Seq<char>|
                    corr.contains_key(k) && corr[k] == report[b] && mentioned(chunks, outs, k);
            }
        }
    }
}

proof fn lemma_no_dup_drop_last<A>(s: Seq<A>)
    requires
        s.len() > 0,
        s.no_duplicates(),
    ensures
        s.drop_last().no_duplicates(),
        !s.drop_last().contains(s.last()),
{
    if s.drop_last().contains(s.last()) {
        let i = choose|i: int| 0 <= i < s.drop_last().len() && s.drop_last()[i] == s.last();
        assert(s[i] == s[s.len() - 1]);
    }
}

/// A key that no entry of the list names keeps its mapping through
/// resolution.
proof fn lemma_resolve_ids_preserves(
    ids: Seq<Option<Seq<char>>>,
    corr: Map<Seq<char>, Seq<char>>,
    k: Seq<char>,
)
    requires
        corr.contains_key(k),
        !ids.contains(Option::Some(k)),
    ensures
        resolve_ids(ids, corr).1.contains_key(k),
        resolve_ids(ids, corr).1[k] == corr[k],
    decreases ids.len(),
{
    if ids.len() == 0 {
    } else {
        let pre = ids.drop_last();
        if pre.contains(Option::Some(k)) {
            lemma_contains_drop_last(ids, Option::Some(k));
        }
        lemma_resolve_ids_preserves(pre, corr, k);
        match ids.last() {
            Option::None => {},
            Option::Some(k0) => {
                assert(k0 != k) by {
                    if k0 == k {
                        assert(ids[ids.len() - 1] == Option::Some(k));
                    }
                }
            },
        }
    }
}

/// A key that the list names while its mapping is live has its message
/// identifier emitted.
proof fn lemma_resolve_ids_hits(
    ids: Seq<Option<Seq<char>>>,
    corr: Map<Seq<char>, Seq<char>>,
    k: Seq<char>,
)
    requires
        corr.contains_key(k),
        ids.contains(Option::Some(k)),
    ensures
        resolve_ids(ids, corr).0.contains(corr[k]),
    decreases ids.len(),
{
    let pre = ids.drop_last();
    let fs1 = resolve_ids(pre, corr).0;
    let m1 = resolve_ids(pre, corr).1;
    if pre.contains(Option::Some(k)) {
        lemma_resolve_ids_hits(pre, corr, k);
        match ids.last() {
            Option::None => {},
            Option::Some(k0) => {
                if m1.contains_key(k0) {
                    lemma_push_contains(fs1, m1[k0], corr[k]);
                }
            },
        }
    } else {
        let i = choose|i: int| 0 <= i < ids.len() && ids[i] == Option::Some(k);
        assert(i == ids.len() - 1) by {
            if i < ids.len() - 1 {
                assert(pre[i] == Option::Some(k));
            }
        }
        lemma_resolve_ids_preserves(pre, corr, k);
        assert(resolve_ids(ids, corr).0 == fs1.push(m1[k]));
        assert(fs1.push(m1[k])[fs1.len() as int] == corr[k]);
    }
}

/// [`lemma_resolve_ids_preserves`], lifted over the whole write phase.
proof fn lemma_apply_outcomes_preserves(
    chunks: Seq<Seq<RecordView>>,
    outs: Seq<OutcomeView>,
    corr: Map<Seq<char>, Seq<char>>,
    k: Seq<char>,
)
    requires
        chunks.len() == outs.len(),
        corr.contains_key(k),
        forall|c: int|
            0 <= c < outs.len() ==> !outcome_ids(#[trigger] chunks[c], outs[c]).contains(
                Option::Some(k),
            ),
    ensures
        apply_outcomes(chunks, outs, corr).1.contains_key(k),
        apply_outcomes(chunks, outs, corr).1[k] == corr[k],
    decreases outs.len(),
{
    if outs.len() == 0 {
    } else {
        let cpre = chunks.drop_last();
        let opre = outs.drop_last();
        lemma_apply_outcomes_preserves(cpre, opre, corr, k);
        let m1 = apply_outcomes(cpre, opre, corr).1;
        let last_ids = outcome_ids(chunks.last(), outs.last());
        assert(!last_ids.contains(Option::Some(k))) by {
            assert(chunks.last() == chunks[chunks.len() - 1]);
        }
        lemma_resolve_ids_preserves(last_ids, m1, k);
    }
}

/// If the first chunk outcome to name a live key is outcome `c`, the key's
/// message identifier is emitted during the write phase.
proof fn lemma_apply_outcomes_hits(
    chunks: Seq<Seq<RecordView>>,
    outs: Seq<OutcomeView>,
    corr: Map<Seq<char>, Seq<char>>,
    k: Seq<char>,
    c: int,
)
    requires
        chunks.len() == outs.len(),
        corr.contains_key(k),
        0 <= c < outs.len(),
        outcome_ids(chunks[c], outs[c]).contains(Option::Some(k)),
        forall|c2: int|
            0 <= c2 < c ==> !outcome_ids(#[trigger] chunks[c2], outs[c2]).contains(
                Option::Some(k),
            ),
    ensures
        apply_outcomes(chunks, outs, corr).0.contains(corr[k]),
    decreases outs.len(),
{
    let n = outs.len() as int;
    let cpre = chunks.drop_last();
    let opre = outs.drop_last();
    let fs1 = apply_outcomes(cpre, opre, corr).0;
    let m1 = apply_outcomes(cpre, opre, corr).1;
    let last_ids = outcome_ids(chunks.last(), outs.last());
    let fs2 = resolve_ids(last_ids, m1).0;
    if c < n - 1 {
        lemma_apply_outcomes_hits(cpre, opre, corr, k, c);
        lemma_contains_concat_left(fs1, fs2, corr[k]);
    } else {
        lemma_apply_outcomes_preserves(cpre, opre, corr, k);
        assert(last_ids.contains(Option::Some(k))) by {
            assert(chunks.last() == chunks[n - 1] && outs.last() == outs[n - 1]);
        }
        lemma_resolve_ids_hits(last_ids, m1, k);
        lemma_contains_concat_right(fs1, fs2, m1[k]);
    }
}

/// With distinct item identifiers among the decoded records, the correlation
/// map sends each decoded record's item identifier to the identifier of the
/// message the record came from.
proof fn lemma_correlation_entry(msgs: Seq<MessageView>, i: int)
    requires
        0 <= i < msgs.len(),
        crate::codec::decode_spec(msgs[i].body) is Ok,
        item_ids(decoded_records(msgs)).no_duplicates(),
    ensures
        correlation_of(msgs).contains_key(
            crate::codec::decode_spec(msgs[i].body)->Ok_0.item_id,
        ),
        correlation_of(msgs)[crate::codec::decode_spec(msgs[i].body)->Ok_0.item_id]
            == msgs[i].id,
    decreases msgs.len(),
{
    let pre = msgs.drop_last();
    let last = msgs.last();
    let rec_i = crate::codec::decode_spec(msgs[i].body)->Ok_0;
    if i == msgs.len() - 1 {
        assert(correlation_of(msgs) == correlation_of(pre).insert(rec_i.item_id, last.id));
    } else {
        assert(pre[i] == msgs[i]);
        match crate::codec::decode_spec(last.body) {
            Result::Err(e) => {
                assert(decoded_records(msgs) == decoded_records(pre));
                assert(correlation_of(msgs) == correlation_of(pre));
                lemma_correlation_entry(pre, i);
            },
            Result::Ok(rec_l) => {
                assert(decoded_records(msgs) == decoded_records(pre).push(rec_l));
                assert(item_ids(decoded_records(pre)) =~= item_ids(
                    decoded_records(msgs),
                ).drop_last());
                lemma_no_dup_drop_last(item_ids(decoded_records(msgs)));
                lemma_correlation_entry(pre, i);
                lemma_decode_phase(pre);
                assert(item_ids(decoded_records(pre)).contains(rec_i.item_id));
                assert(rec_l.item_id != rec_i.item_id) by {
                    assert(item_ids(decoded_records(msgs)).last() == rec_l.item_id);
                }
                assert(correlation_of(msgs) == correlation_of(pre).insert(
                    rec_l.item_id,
                    last.id,
                ));
            },
        }
    }
}

proof fn lemma_flatten_split(ss: Seq<Seq<RecordView>>, c: int)
    requires
        0 <= c <= ss.len(),
    ensures
        ss.flatten() == ss.take(c).flatten() + ss.skip(c).flatten(),
{
    assert(ss =~= ss.take(c) + ss.skip(c));
    vstd::seq_lib::lemma_flatten_concat(ss.take(c), ss.skip(c));
}

proof fn lemma_flatten_at(ss: Seq<Seq<RecordView>>, c: int, j: int)
    requires
        0 <= c < ss.len(),
        0 <= j < ss[c].len(),
    ensures
        0 <= ss.take(c).flatten().len() + j < ss.flatten().len(),
        ss.flatten()[ss.take(c).flatten().len() + j] == ss[c][j],
{
    lemma_flatten_split(ss, c);
    let sk = ss.skip(c);
    lemma_flatten_split(sk, 1);
    assert(sk.take(1).flatten() == ss[c]) by {
        assert(sk.take(1).len() == 1 && sk.take(1)[0] == ss[c]);
        sk.take(1).lemma_flatten_one_element();
    }
    assert(sk.flatten()[j] == ss[c][j]);
    assert(ss.flatten()[ss.take(c).flatten().len() + j] == sk.flatten()[j]);
}

proof fn lemma_flatten_take_succ(ss: Seq<Seq<RecordView>>, c: int)
    requires
        0 <= c < ss.len(),
    ensures
        ss.take(c + 1).flatten() == ss.take(c).flatten() + ss[c],
{
    assert(ss.take(c + 1) =~= ss.take(c).push(ss[c]));
    ss.take(c).lemma_flatten_push(ss[c]);
}

proof fn lemma_flatten_take_mono(ss: Seq<Seq<RecordView>>, a: int, b: int)
    requires
        0 <= a < b <= ss.len(),
    ensures
        ss.take(a).flatten().len() + ss[a].len() <= ss.take(b).flatten().len(),
    decreases b - a,
{
    lemma_flatten_take_succ(ss, a);
    if a + 1 < b {
        lemma_flatten_take_mono(ss, a + 1, b);
    }
}

/// Under distinct item identifiers, two distinct positions across the chunks
/// never hold the same item identifier.
proof fn lemma_distinct_chunk_ids(ss: Seq<Seq<RecordView>>, c1: int, j1: int, c2: int, j2: int)
    requires
        item_ids(ss.flatten()).no_duplicates(),
        0 <= c1 < ss.len(),
        0 <= j1 < ss[c1].len(),
        0 <= c2 < ss.len(),
        0 <= j2 < ss[c2].len(),
        c1 != c2 || j1 != j2,
    ensures
        ss[c1][j1].item_id != ss[c2][j2].item_id,
{
    lemma_flatten_at(ss, c1, j1);
    lemma_flatten_at(ss, c2, j2);
    let i1 = ss.take(c1).flatten().len() + j1;
    let i2 = ss.take(c2).flatten().len() + j2;
    if c1 < c2 {
        lemma_flatten_take_mono(ss, c1, c2);
    } else if c2 < c1 {
        lemma_flatten_take_mono(ss, c2, c1);
    }
    assert(i1 != i2);
    assert(item_ids(ss.flatten())[i1] == ss[c1][j1].item_id);
    assert(item_ids(ss.flatten())[i2] == ss[c2][j2].item_id);
}

/// When the store answers only about what it was handed, no other chunk's
/// outcome can name an identifier that sits in chunk `c`.
proof fn lemma_unmentioned_elsewhere(
    chunks: Seq<Seq<RecordView>>,
    outs: Seq<OutcomeView>,
    c: int,
    j: int,
    c2: int,
)
    requires
        item_ids(chunks.flatten()).no_duplicates(),
        outcomes_from_chunks(chunks, outs),
        0 <= c < chunks.len(),
        0 <= j < chunks[c].len(),
        0 <= c2 < chunks.len(),
        c2 < outs.len(),
        c2 != c,
    ensures
        !outcome_ids(chunks[c2], outs[c2]).contains(Option::Some(chunks[c][j].item_id)),
{
    let k = chunks[c][j].item_id;
    if outcome_ids(chunks[c2], outs[c2]).contains(Option::Some(k)) {
        assert(chunk_ids(chunks[c2]).contains(Option::Some(k))) by {
            match outs[c2] {
                OutcomeView::Failed => {},
                OutcomeView::Completed(entries) => {
                    let je = choose|je: int|
                        0 <= je < entries.len() && entries[je] == Option::Some(k);
                    assert(outs[c2]->Completed_0[je] == Option::Some(k));
                },
            }
        }
        let j2 = choose|j2: int|
            0 <= j2 < chunk_ids(chunks[c2]).len() && chunk_ids(chunks[c2])[j2] == Option::Some(
                k,
            );
        assert(chunks[c2][j2].item_id == k);
        lemma_distinct_chunk_ids(chunks, c, j, c2, j2);
    }
}

/// The shared heart of the failure laws: a decoded record that its own
/// chunk's outcome names as unprocessed has its originating message reported.
proof fn lemma_record_failure_reported(
    msgs: Seq<MessageView>,
    max: int,
    outs: Seq<OutcomeView>,
    i: int,
    c: int,
    j: int,
)
    requires
        max >= 1,
        message_ids(msgs).no_duplicates(),
        item_ids(decoded_records(msgs)).no_duplicates(),
        outs.len() == chunks_of(decoded_records(msgs), max).len(),
        outcomes_from_chunks(chunks_of(decoded_records(msgs), max), outs),
        0 <= i < msgs.len(),
        crate::codec::decode_spec(msgs[i].body) is Ok,
        0 <= c < outs.len(),
        0 <= j < chunks_of(decoded_records(msgs), max)[c].len(),
        chunks_of(decoded_records(msgs), max)[c][j] == crate::codec::decode_spec(
            msgs[i].body,
        )->Ok_0,
        outcome_ids(chunks_of(decoded_records(msgs), max)[c], outs[c]).contains(
            Option::Some(crate::codec::decode_spec(msgs[i].body)->Ok_0.item_id),
        ),
    ensures
        report_spec(msgs, max, outs).contains(msgs[i].id),
{
    let recs = decoded_records(msgs);
    let chunks = chunks_of(recs, max);
    let corr = correlation_of(msgs);
    let rec = crate::codec::decode_spec(msgs[i].body)->Ok_0;
    let k = rec.item_id;
    lemma_decode_phase(msgs);
    lemma_correlation_entry(msgs, i);
    crate::partition::lemma_chunks_of(recs, max);
    assert(item_ids(chunks.flatten()).no_duplicates());
    assert forall|c2: int| 0 <= c2 < c implies !outcome_ids(
        #[trigger] chunks[c2],
        outs[c2],
    ).contains(Option::Some(k)) by {
        lemma_unmentioned_elsewhere(chunks, outs, c, j, c2);
    }
    lemma_apply_outcomes_hits(chunks, outs, corr, k, c);
    lemma_contains_concat_right(
        decode_failures(msgs),
        apply_outcomes(chunks, outs, corr).0,
        corr[k],
    );
}

/// If the store reports a record as unprocessed in the chunk that attempted
/// it, the message the record correlates to appears in the report — and,
/// message and item identifiers being unique, exactly once.
pub proof fn lemma_unprocessed_reported_once(
    msgs: Seq<MessageView>,
    max: int,
    outs: Seq<OutcomeView>,
    i: int,
    c: int,
    j: int,
)
    requires
        max >= 1,
        message_ids(msgs).no_duplicates(),
        item_ids(decoded_records(msgs)).no_duplicates(),
        outs.len() == chunks_of(decoded_records(msgs), max).len(),
        outcomes_from_chunks(chunks_of(decoded_records(msgs), max), outs),
        0 <= i < msgs.len(),
        crate::codec::decode_spec(msgs[i].body) is Ok,
        0 <= c < outs.len(),
        0 <= j < chunks_of(decoded_records(msgs), max)[c].len(),
        chunks_of(decoded_records(msgs), max)[c][j] == crate::codec::decode_spec(
            msgs[i].body,
        )->Ok_0,
        outs[c] is Completed,
        outs[c]->Completed_0.contains(
            Option::Some(crate::codec::decode_spec(msgs[i].body)->Ok_0.item_id),
        ),
    ensures
        report_spec(msgs, max, outs).contains(msgs[i].id),
        report_spec(msgs, max, outs).no_duplicates(),
{
    lemma_record_failure_reported(msgs, max, outs, i, c, j);
    lemma_report_within_batch(msgs, max, outs);
}

/// If a chunk's write call hard-fails, every message whose record sat in that
/// chunk appears in the report.
pub proof fn lemma_failed_chunk_reported(
    msgs: Seq<MessageView>,
    max: int,
    outs: Seq<OutcomeView>,
    i: int,
    c: int,
    j: int,
)
    requires
        max >= 1,
        message_ids(msgs).no_duplicates(),
        item_ids(decoded_records(msgs)).no_duplicates(),
        outs.len() == chunks_of(decoded_records(msgs), max).len(),
        outcomes_from_chunks(chunks_of(decoded_records(msgs), max), outs),
        0 <= i < msgs.len(),
        crate::codec::decode_spec(msgs[i].body) is Ok,
        0 <= c < outs.len(),
        0 <= j < chunks_of(decoded_records(msgs), max)[c].len(),
        chunks_of(decoded_records(msgs), max)[c][j] == crate::codec::decode_spec(
            msgs[i].body,
        )->Ok_0,
        outs[c] is Failed,
    ensures
        report_spec(msgs, max, outs).contains(msgs[i].id),
{
    let chunks = chunks_of(decoded_records(msgs), max);
    let rec = crate::codec::decode_spec(msgs[i].body)->Ok_0;
    assert(outcome_ids(chunks[c], outs[c]).contains(Option::Some(rec.item_id))) by {
        assert(chunk_ids(chunks[c])[j] == Option::Some(rec.item_id));
    }
    lemma_record_failure_reported(msgs, max, outs, i, c, j);
}

/// A message that decodes and whose record no chunk outcome names as
/// unprocessed — the store committed it — never appears in the report.
pub proof fn lemma_committed_not_reported(
    msgs: Seq<MessageView>,
    max: int,
    outs: Seq<OutcomeView>,
    i: int,
)
    requires
        max >= 1,
        message_ids(msgs).no_duplicates(),
        item_ids(decoded_records(msgs)).no_duplicates(),
        0 <= i < msgs.len(),
        crate::codec::decode_spec(msgs[i].body) is Ok,
        forall|c: int|
            0 <= c < chunks_of(decoded_records(msgs), max).len() && c < outs.len()
                ==> !outcome_ids(
                #[trigger] chunks_of(decoded_records(msgs), max)[c],
                outs[c],
            ).contains(Option::Some(crate::codec::decode_spec(msgs[i].body)->Ok_0.item_id)),
    ensures
        !report_spec(msgs, max, outs).contains(msgs[i].id),
{
    let fs0 = decode_failures(msgs);
    let corr = correlation_of(msgs);
    let chunks = chunks_of(decoded_records(msgs), max);
    let wfs = apply_outcomes(chunks, outs, corr).0;
    let report = report_spec(msgs, max, outs);
    let rec = crate::codec::decode_spec(msgs[i].body)->Ok_0;
    lemma_decode_phase(msgs);
    lemma_correlation_entry(msgs, i);
    lemma_apply_outcomes(chunks, outs, corr);
    if report.contains(msgs[i].id) {
        let idx = choose|idx: int| 0 <= idx < report.len() && report[idx] == msgs[i].id;
        if idx < fs0.len() {
            assert(fs0.contains(msgs[i].id)) by {
                assert(fs0[idx] == msgs[i].id);
            }
        } else {
            assert(wfs.contains(msgs[i].id)) by {
                assert(wfs[idx - fs0.len()] == report[idx]);
            }
            let k2 = choose|k2: Seq<char>|
                corr.contains_key(k2) && corr[k2] == msgs[i].id && mentioned(chunks, outs, k2);
            assert(k2 == rec.item_id);
            let c = choose|c: int|
                0 <= c < chunks.len() && c < outs.len() && outcome_ids(
                    chunks[c],
                    outs[c],
                ).contains(Option::Some(k2));
        }
    }
}

/// A message that arrives without a body always appears in the report,
/// whatever the store did.
pub proof fn lemma_empty_body_reported(
    msgs: Seq<MessageView>,
    max: int,
    outs: Seq<OutcomeView>,
    i: int,
)
    requires
        0 <= i < msgs.len(),
        msgs[i].body is None,
    ensures
        report_spec(msgs, max, outs).contains(msgs[i].id),
{
    lemma_decode_phase(msgs);
    lemma_contains_concat_left(
        decode_failures(msgs),
        apply_outcomes(
            chunks_of(decoded_records(msgs), max),
            outs,
            correlation_of(msgs),
        ).0,
        msgs[i].id,
    );
}

} // verus!

