//! What holds of the store as a whole, proved over its model. The contracts
//! of `Db` and `Table` say that the executable operations compute exactly
//! the model's `post`, `get`, `delete`, `nuke` and scan, and keep the model
//! well formed; these laws therefore hold of every run.

use crate::errors::Errors;
use crate::model::{scan_step, scan_yields, Answers, DbModel, ScanOutcome, StoreModel, HEADER_LEN};
use vstd::prelude::*;

verus! {

/// Round trip: a payload that was posted is read back, byte for byte,
/// under the identifier it was posted with.
pub proof fn law_round_trip(db: DbModel, key: Seq<char>, id: Seq<char>, payload: Seq<u8>)
    requires
        db.wf(),
        db.post_result(key, id, payload) is Ok,
    ensures
        db.post(key, id, payload).wf(),
        db.post(key, id, payload).get(key, id) == Ok::<Seq<u8>, Errors>(payload),
{
    db.stores[key].lemma_create(id, payload);
    let after = db.post(key, id, payload);
    assert forall|k: Seq<char>| (#[trigger] after.stores[k]).wf() by {
        assert(db.stores.dom().contains(k));
        assert(db.stores[k].wf());
    }
    assert forall|k: Seq<char>| #[trigger] after.stores.dom().contains(k) by {
        assert(db.stores.dom().contains(k));
    }
}

/// Posting a record changes what no other identifier reads as, in its own
/// collection or in any other.
pub proof fn law_post_keeps_other_records(
    db: DbModel,
    key: Seq<char>,
    id: Seq<char>,
    payload: Seq<u8>,
    other_key: Seq<char>,
    other_id: Seq<char>,
)
    requires
        db.wf(),
        db.post_result(key, id, payload) is Ok,
        other_key != key || other_id != id,
    ensures
        db.post(key, id, payload).get(other_key, other_id) == db.get(other_key, other_id),
{
    db.stores[key].lemma_create(id, payload);
}

/// Isolation: what is done to the collection of one key leaves the
/// collection of every other key exactly as it was.
pub proof fn law_isolation(
    db: DbModel,
    key: Seq<char>,
    id: Seq<char>,
    payload: Seq<u8>,
    other_key: Seq<char>,
)
    requires
        other_key != key,
    ensures
        db.post(key, id, payload).stores[other_key] == db.stores[other_key],
        db.delete(key, id).stores[other_key] == db.stores[other_key],
        forall|other_id: Seq<char>| #[trigger]
            db.post(key, id, payload).get(other_key, other_id) == db.get(other_key, other_id),
        forall|other_id: Seq<char>| #[trigger]
            db.delete(key, id).get(other_key, other_id) == db.get(other_key, other_id),
{
}

/// Isolation of records that look alike: the same identifier posted to two
/// collections reads in each as what was posted there, also where both
/// frames start at the same offset of their logs.
pub proof fn law_same_id_in_two_collections(
    db: DbModel,
    key: Seq<char>,
    other_key: Seq<char>,
    id: Seq<char>,
    payload: Seq<u8>,
    other_payload: Seq<u8>,
)
    requires
        db.wf(),
        other_key != key,
        db.post_result(key, id, payload) is Ok,
        db.post_result(other_key, id, other_payload) is Ok,
    ensures
        db.post(key, id, payload).post_result(other_key, id, other_payload) is Ok,
        db.post(key, id, payload).post(other_key, id, other_payload).get(key, id) == Ok::<
            Seq<u8>,
            Errors,
        >(payload),
        db.post(key, id, payload).post(other_key, id, other_payload).get(other_key, id) == Ok::<
            Seq<u8>,
            Errors,
        >(other_payload),
{
    law_round_trip(db, key, id, payload);
    law_round_trip(db.post(key, id, payload), other_key, id, other_payload);
}

/// Deletion is terminal: once a record was deleted, reading it and
/// deleting it again both give `NotFound`.
pub proof fn law_delete_is_terminal(db: DbModel, key: Seq<char>, id: Seq<char>)
    requires
        db.wf(),
        db.delete_result(key, id) is Ok,
    ensures
        db.delete(key, id).wf(),
        db.delete(key, id).stores[key].index.retired(id),
        db.delete(key, id).get(key, id) == Err::<Seq<u8>, Errors>(Errors::NotFound),
        db.delete(key, id).delete_result(key, id) == Err::<(), Errors>(Errors::NotFound),
{
    db.stores[key].lemma_delete(id);
    let after = db.delete(key, id);
    assert forall|k: Seq<char>| (#[trigger] after.stores[k]).wf() by {
        assert(db.stores.dom().contains(k));
        assert(db.stores[k].wf());
    }
    assert forall|k: Seq<char>| #[trigger] after.stores.dom().contains(k) by {
        assert(db.stores.dom().contains(k));
    }
}

/// Deleting a record changes what no other identifier reads as.
pub proof fn law_delete_keeps_other_records(
    db: DbModel,
    key: Seq<char>,
    id: Seq<char>,
    other_key: Seq<char>,
    other_id: Seq<char>,
)
    requires
        db.wf(),
        other_key != key || other_id != id,
    ensures
        db.delete(key, id).get(other_key, other_id) == db.get(other_key, other_id),
{
    if db.delete_result(key, id) is Ok {
        db.stores[key].lemma_delete(id);
    }
}

/// A retired identifier stays retired: it reads as `NotFound`, it cannot
/// be posted again, and no later post or delete in the database brings it
/// back. Only `nuke` forgets it.
pub proof fn law_retired_stays_retired(
    db: DbModel,
    key: Seq<char>,
    id: Seq<char>,
    later_key: Seq<char>,
    later_id: Seq<char>,
    later_payload: Seq<u8>,
)
    requires
        db.wf(),
        db.stores[key].index.retired(id),
    ensures
        db.get(key, id) == Err::<Seq<u8>, Errors>(Errors::NotFound),
        db.post_result(key, id, later_payload) is Err,
        db.post_result(later_key, later_id, later_payload) is Ok ==> db.post(
            later_key,
            later_id,
            later_payload,
        ).stores[key].index.retired(id),
        db.delete(later_key, later_id).stores[key].index.retired(id),
{
    let store = db.stores[key];
    if later_key == key {
        if db.post_result(later_key, later_id, later_payload) is Ok {
            store.index.lemma_insert(later_id, store.next_entry(later_payload.len()));
            assert(store.create(later_id, later_payload).index.used(id));
        }
        if store.index.live(later_id) {
            store.index.lemma_remove(later_id);
            assert(store.delete(later_id).index.used(id));
        }
    }
}

/// Append monotonicity: of two identifiers created in one collection, the
/// frame of the later one starts at or after the end of the earlier one's
/// payload, whether either was deleted since or not.
pub proof fn law_append_monotonic(store: StoreModel, first: Seq<char>, second: Seq<char>)
    requires
        store.wf(),
        store.index.created_before(first, second),
    ensures
        store.index.entry_of(second).position >= store.index.entry_of(first).position
            + HEADER_LEN + store.index.entry_of(first).length,
        store.index.entry_of(second).position >= store.index.entry_of(first).position
            + store.index.entry_of(first).length,
{
    store.lemma_ordered(store.index.slot(first), store.index.slot(second));
}

/// Creation fixes the order: a new record is created after every
/// identifier that the collection has used, at the end of the log, and no
/// later create or delete changes which of two identifiers came first.
pub proof fn law_creation_order(
    store: StoreModel,
    id: Seq<char>,
    payload: Seq<u8>,
    first: Seq<char>,
    second: Seq<char>,
)
    requires
        store.wf(),
    ensures
        store.create_result(id, payload) is Ok ==> {
            &&& store.create(id, payload).index.entry_of(id).position == store.next_append_offset()
            &&& store.index.used(first) ==> store.create(id, payload).index.created_before(first, id)
            &&& store.index.created_before(first, second) ==> store.create(
                id,
                payload,
            ).index.created_before(first, second)
        },
        store.index.created_before(first, second) ==> store.delete(id).index.created_before(
            first,
            second,
        ),
        store.index.used(first) ==> store.delete(id).index.entry_of(first)
            == store.index.entry_of(first),
{
    if store.create_result(id, payload) is Ok {
        store.index.lemma_insert(id, store.next_entry(payload.len()));
        let after = store.create(id, payload);
        assert(after.index.records[after.index.slot(id)].entry == store.next_entry(payload.len()));
        if store.index.used(first) {
            assert(after.index.used(first));
        }
        if store.index.created_before(first, second) {
            assert(after.index.used(first));
            assert(after.index.used(second));
        }
    }
    if store.index.live(id) {
        store.index.lemma_remove(id);
        let after = store.delete(id);
        if store.index.used(first) {
            assert(after.index.used(first));
        }
        if store.index.created_before(first, second) {
            assert(after.index.used(second));
        }
    }
}

/// Layout: the log is the bytes that it held before its first frame,
/// followed by the frames of all records ever created, live or retired,
/// back to back in order of creation, with nothing between or behind them.
pub proof fn law_log_is_frames_back_to_back(store: StoreModel)
    requires
        store.wf(),
    ensures
        store.log == store.unindexed() + store.frames().flatten(),
{
    let n = store.index.records.len() as int;
    if n > 0 {
        store.lemma_layout_upto(n);
        assert(store.frames().take(n) =~= store.frames());
        assert(store.log.take(store.log.len() as int) =~= store.log);
    } else {
        assert(store.frames() =~= Seq::<Seq<u8>>::empty());
        assert(store.log =~= store.unindexed() + store.frames().flatten());
    }
}

/// Creating and deleting records leave the bytes in front of the first
/// frame as they are: in a collection that began with an empty log there
/// are none, ever.
pub proof fn law_unindexed_bytes_stay(store: StoreModel, id: Seq<char>, payload: Seq<u8>)
    requires
        store.wf(),
    ensures
        store.create_result(id, payload) is Ok ==> store.create(id, payload).unindexed()
            == store.unindexed(),
        store.delete(id).unindexed() == store.unindexed(),
        StoreModel::empty().unindexed() == Seq::<u8>::empty(),
{
    if store.create_result(id, payload) is Ok {
        let after = store.create(id, payload);
        if store.index.records.len() > 0 {
            assert(store.holds(store.index.records[0].entry));
            assert(after.index.records.first() == store.index.records.first());
            assert(after.unindexed() =~= store.unindexed());
        } else {
            assert(after.index.records.first().entry.position == store.log.len());
            assert(after.unindexed() =~= store.unindexed());
        }
    }
    if store.index.live(id) {
        store.index.lemma_remove(id);
        assert(store.delete(id).index.records.first().entry
            == store.index.records.first().entry);
    }
}

/// Scan bound: a scan never gives more than `limit` payloads, each of them
/// is a payload that was scanned and that the predicate accepted, and a
/// scan fails only with `Corrupt`.
pub proof fn law_scan_bound(
    payloads: Seq<Seq<u8>>,
    limit: nat,
    answers: Answers,
    outcome: ScanOutcome,
)
    requires
        scan_yields(payloads, limit, answers, outcome),
    ensures
        match outcome {
            Ok(found) => {
                &&& found.len() <= limit
                &&& found.len() <= payloads.len()
                &&& forall|j: int|
                    0 <= j < found.len() ==> answers(#[trigger] found[j], Some(true))
                        && payloads.contains(found[j])
            },
            Err(e) => e == Errors::Corrupt,
        },
    decreases payloads.len(),
{
    if payloads.len() > 0 {
        let before = choose|before: ScanOutcome|
            scan_yields(payloads.drop_last(), limit, answers, before) && #[trigger] scan_step(
                before,
                payloads.last(),
                limit,
                answers,
                outcome,
            );
        law_scan_bound(payloads.drop_last(), limit, answers, before);
        if let Ok(found) = outcome {
            assert forall|j: int| 0 <= j < found.len() implies answers(
                #[trigger] found[j],
                Some(true),
            ) && payloads.contains(found[j]) by {
                let had = before->Ok_0;
                if j < had.len() {
                    assert(found[j] == had[j]);
                    let at = choose|at: int|
                        0 <= at < payloads.drop_last().len() && payloads.drop_last()[at] == had[j];
                    assert(payloads[at] == found[j]);
                } else {
                    assert(found[j] == payloads.last());
                    assert(payloads[payloads.len() - 1] == found[j]);
                }
            }
        }
    }
}

/// The first `limit` elements of `payloads`, or all of them where there
/// are fewer.
pub open spec fn first_upto(payloads: Seq<Seq<u8>>, limit: nat) -> Seq<Seq<u8>> {
    if payloads.len() <= limit {
        payloads
    } else {
        payloads.take(limit as int)
    }
}

/// A scan is a filter: where the predicate can decode every payload and
/// always says the same of the same payload, the scan gives the payloads
/// that it accepts, in order, up to the first `limit` of them.
pub proof fn law_scan_is_filter(
    payloads: Seq<Seq<u8>>,
    limit: nat,
    answers: Answers,
    accepts: spec_fn(Seq<u8>) -> bool,
    outcome: ScanOutcome,
)
    requires
        scan_yields(payloads, limit, answers, outcome),
        forall|payload: Seq<u8>, verdict: Option<bool>| #[trigger]
            answers(payload, verdict) ==> verdict == Some(accepts(payload)),
    ensures
        outcome == Ok::<Seq<Seq<u8>>, Errors>(first_upto(payloads.filter(accepts), limit)),
    decreases payloads.len(),
{
    reveal(Seq::filter);
    if payloads.len() > 0 {
        let before = choose|before: ScanOutcome|
            scan_yields(payloads.drop_last(), limit, answers, before) && #[trigger] scan_step(
                before,
                payloads.last(),
                limit,
                answers,
                outcome,
            );
        law_scan_is_filter(payloads.drop_last(), limit, answers, accepts, before);
        let earlier = payloads.drop_last().filter(accepts);
        if earlier.len() >= limit {
            assert(first_upto(payloads.filter(accepts), limit) =~= first_upto(earlier, limit));
        } else if accepts(payloads.last()) {
            assert(answers(payloads.last(), Some(true)));
        } else {
            assert(answers(payloads.last(), Some(false)));
        }
    } else {
        assert(payloads.filter(accepts) =~= Seq::<Seq<u8>>::empty());
    }
}

/// Destructive reset: after `nuke` no identifier reads in any collection,
/// and a record posted then is stored and read back like any other.
pub proof fn law_nuke_resets(db: DbModel, key: Seq<char>, id: Seq<char>, payload: Seq<u8>)
    ensures
        db.nuke().wf(),
        db.nuke().name == db.name,
        forall|any_key: Seq<char>, any_id: Seq<char>| #[trigger]
            db.nuke().get(any_key, any_id) == Err::<Seq<u8>, Errors>(Errors::NotFound),
        payload.len() <= u32::MAX && HEADER_LEN + payload.len() <= isize::MAX ==> {
            &&& db.nuke().post_result(key, id, payload) is Ok
            &&& db.nuke().post(key, id, payload).get(key, id) == Ok::<Seq<u8>, Errors>(payload)
        },
{
    let fresh = db.nuke();
    assert(fresh.wf());
    if payload.len() <= u32::MAX && HEADER_LEN + payload.len() <= isize::MAX {
        law_round_trip(fresh, key, id, payload);
    }
}

} // verus!
