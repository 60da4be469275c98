//! Lemmas about the model: what inserting, removing, creating and
//! deleting do to an index and to a collection, and how a scan goes on.

use crate::errors::Errors;
use crate::model::{
    frame_of, header_of, scan_step, scan_yields, Answers, IndexEntry, IndexModel, Record,
    ScanOutcome, StoreModel, HEADER_LEN,
};
use vstd::bytes::lemma_auto_spec_u64_to_from_le_bytes;
use vstd::prelude::*;

verus! {

impl IndexModel {
    /// In a well-formed index the record at place `i` is the one that its
    /// identifier is found at.
    pub proof fn lemma_slot_is(self, i: int)
        requires
            self.wf(),
            0 <= i < self.records.len(),
        ensures
            self.used(self.records[i].id),
            self.slot(self.records[i].id) == i,
    {
        let id = self.records[i].id;
        let found = self.slot(id);
        assert(self.records[found].id == id);
        if found < i {
            assert(self.records[found].id != self.records[i].id);
        } else if i < found {
            assert(self.records[i].id != self.records[found].id);
        }
    }

    /// Inserting an unused identifier keeps the index well formed, makes
    /// that identifier live at the newest place, and moves no other.
    pub proof fn lemma_insert(self, id: Seq<char>, entry: IndexEntry)
        requires
            self.wf(),
            !self.used(id),
        ensures
            self.insert(id, entry).wf(),
            self.insert(id, entry).used(id),
            self.insert(id, entry).slot(id) == self.records.len(),
            self.insert(id, entry).lookup(id) == Some(entry),
            forall|other: Seq<char>|
                other != id ==> {
                    &&& #[trigger] self.insert(id, entry).used(other) == self.used(other)
                    &&& self.used(other) ==> self.insert(id, entry).slot(other) == self.slot(other)
                },
            forall|other: Seq<char>|
                other != id ==> #[trigger] self.insert(id, entry).lookup(other) == self.lookup(
                    other,
                ),
    {
        let after = self.insert(id, entry);
        let n = self.records.len() as int;
        assert(after.records[n].id == id);
        assert(after.wf()) by {
            assert forall|i: int, j: int| 0 <= i < j < after.records.len() implies (
            #[trigger] after.records[i]).id != (#[trigger] after.records[j]).id by {
                if j == n {
                    assert(self.records[i].id != id);
                } else {
                    assert(self.records[i].id != self.records[j].id);
                }
            }
        }
        after.lemma_slot_is(n);
        assert forall|other: Seq<char>| other != id implies {
            &&& #[trigger] after.used(other) == self.used(other)
            &&& self.used(other) ==> after.slot(other) == self.slot(other)
        } by {
            if self.used(other) {
                let at = self.slot(other);
                assert(after.records[at].id == other);
                after.lemma_slot_is(at);
            }
            if after.used(other) {
                let at = after.slot(other);
                assert(at != n);
                assert(self.records[at].id == other);
            }
        }
        assert forall|other: Seq<char>| other != id implies #[trigger] after.lookup(other)
            == self.lookup(other) by {
            assert(after.used(other) == self.used(other));
            if self.used(other) {
                assert(after.slot(other) == self.slot(other));
            }
        }
    }

    /// Removing a live identifier keeps the index well formed, retires that
    /// identifier for good, and touches no other.
    pub proof fn lemma_remove(self, id: Seq<char>)
        requires
            self.wf(),
            self.live(id),
        ensures
            self.remove(id).wf(),
            self.remove(id).records.len() == self.records.len(),
            self.remove(id).used(id),
            self.remove(id).slot(id) == self.slot(id),
            !self.remove(id).live(id),
            forall|other: Seq<char>|
                {
                    &&& #[trigger] self.remove(id).used(other) == self.used(other)
                    &&& self.used(other) ==> self.remove(id).slot(other) == self.slot(other)
                },
            forall|other: Seq<char>|
                other != id ==> #[trigger] self.remove(id).lookup(other) == self.lookup(other),
            forall|i: int|
                0 <= i < self.records.len() ==> (#[trigger] self.remove(id).records[i]).entry
                    == self.records[i].entry,
    {
        let after = self.remove(id);
        let at = self.slot(id);
        assert forall|i: int| 0 <= i < self.records.len() implies (#[trigger] after.records[i]).id
            == self.records[i].id && after.records[i].entry == self.records[i].entry by {}
        assert(after.wf()) by {
            assert forall|i: int, j: int| 0 <= i < j < after.records.len() implies (
            #[trigger] after.records[i]).id != (#[trigger] after.records[j]).id by {
                assert(self.records[i].id != self.records[j].id);
            }
        }
        assert forall|other: Seq<char>|
            {
                &&& #[trigger] after.used(other) == self.used(other)
                &&& self.used(other) ==> after.slot(other) == self.slot(other)
            } by {
            if self.used(other) {
                let place = self.slot(other);
                assert(after.records[place].id == other);
                after.lemma_slot_is(place);
            }
            if after.used(other) {
                let place = after.slot(other);
                assert(self.records[place].id == other);
            }
        }
        assert(after.used(id) == self.used(id));
        assert forall|other: Seq<char>| other != id implies #[trigger] after.lookup(other)
            == self.lookup(other) by {
            assert(after.used(other) == self.used(other));
            if self.used(other) {
                assert(after.slot(other) == self.slot(other));
                assert(self.slot(other) != at);
            }
        }
    }
}

impl StoreModel {
    /// A log that grows at its end leaves every payload inside it as it was.
    pub proof fn lemma_grown_log_keeps(self, grown: StoreModel, entry: IndexEntry)
        requires
            self.holds(entry),
            self.log.len() <= grown.log.len(),
            grown.log.subrange(0, self.log.len() as int) == self.log,
        ensures
            grown.holds(entry),
            grown.payload(entry) == self.payload(entry),
    {
        let whole = self.log.len() as int;
        assert(grown.payload(entry) =~= self.payload(entry)) by {
            assert forall|i: int| 0 <= i < entry.length implies grown.payload(entry)[i]
                == self.payload(entry)[i] by {
                assert(grown.log.subrange(0, whole)[entry.payload_start() + i]
                    == grown.log[entry.payload_start() + i]);
            }
        }
        assert(grown.log.subrange(entry.position as int, entry.end()) =~= self.log.subrange(
            entry.position as int,
            entry.end(),
        )) by {
            assert forall|i: int| 0 <= i < entry.end() - entry.position implies grown.log.subrange(
                entry.position as int,
                entry.end(),
            )[i] == self.log.subrange(entry.position as int, entry.end())[i] by {
                assert(grown.log.subrange(0, whole)[entry.position + i] == grown.log[entry.position
                    + i]);
            }
        }
    }

    /// Of two records, the one created first ends before the other starts.
    pub proof fn lemma_ordered(self, i: int, j: int)
        requires
            self.wf(),
            0 <= i < j < self.index.records.len(),
        ensures
            self.index.records[i].entry.end() <= self.index.records[j].entry.position,
        decreases j - i,
    {
        if i + 1 < j {
            self.lemma_ordered(i, j - 1);
            assert(self.index.records[j - 1].entry.end() == self.index.records[j].entry.position);
        } else {
            assert(self.index.records[i].entry.end() == self.index.records[i + 1].entry.position);
        }
    }

    /// Creating a record keeps the collection well formed, makes the new
    /// identifier read as the payload, and changes what no other
    /// identifier reads as.
    pub proof fn lemma_create(self, id: Seq<char>, payload: Seq<u8>)
        requires
            self.wf(),
            self.create_result(id, payload) is Ok,
        ensures
            self.create(id, payload).wf(),
            self.create(id, payload).index.lookup(id) == Some(self.next_entry(payload.len())),
            self.create(id, payload).read(id) == Ok::<Seq<u8>, Errors>(payload),
            forall|other: Seq<char>|
                other != id ==> #[trigger] self.create(id, payload).read(other) == self.read(other),
    {
        let after = self.create(id, payload);
        let entry = self.next_entry(payload.len());
        let n = self.index.records.len() as int;
        lemma_auto_spec_u64_to_from_le_bytes();
        assert(header_of(payload.len()).len() == HEADER_LEN);
        assert(after.log.subrange(0, self.log.len() as int) =~= self.log);
        assert(after.payload(entry) =~= payload);
        assert(after.log.subrange(entry.position as int, entry.end()) =~= frame_of(payload));
        self.index.lemma_insert(id, entry);
        assert forall|i: int| 0 <= i < after.index.records.len() implies after.holds(
            (#[trigger] after.index.records[i]).entry,
        ) by {
            if i < n {
                assert(self.holds(self.index.records[i].entry));
                self.lemma_grown_log_keeps(after, self.index.records[i].entry);
            }
        }
        assert forall|i: int, j: int|
            0 <= i && j == i + 1 && j < after.index.records.len() implies (
        #[trigger] after.index.records[i]).entry.end() == (
        #[trigger] after.index.records[j]).entry.position by {
            if j < n {
                assert(self.index.records[i].entry.end() == self.index.records[j].entry.position);
            }
        }
        assert forall|other: Seq<char>| other != id implies #[trigger] after.read(other)
            == self.read(other) by {
            assert(after.index.lookup(other) == self.index.lookup(other));
            if self.index.live(other) {
                let held = self.index.records[self.index.slot(other)].entry;
                assert(self.holds(held));
                self.lemma_grown_log_keeps(after, held);
            }
        }
    }

    /// Deleting a live record keeps the collection well formed and the log
    /// as it is, makes the identifier unreadable and unusable from then on,
    /// and changes what no other identifier reads as.
    pub proof fn lemma_delete(self, id: Seq<char>)
        requires
            self.wf(),
            self.delete_result(id) is Ok,
        ensures
            self.delete(id).wf(),
            self.delete(id).index.retired(id),
            self.delete(id).read(id) == Err::<Seq<u8>, Errors>(Errors::NotFound),
            self.delete(id).delete_result(id) == Err::<(), Errors>(Errors::NotFound),
            forall|other: Seq<char>|
                other != id ==> #[trigger] self.delete(id).read(other) == self.read(other),
    {
        let after = self.delete(id);
        self.index.lemma_remove(id);
        assert forall|i: int| 0 <= i < after.index.records.len() implies after.holds(
            (#[trigger] after.index.records[i]).entry,
        ) by {
            assert(self.holds(self.index.records[i].entry));
        }
        assert forall|i: int, j: int|
            0 <= i && j == i + 1 && j < after.index.records.len() implies (
        #[trigger] after.index.records[i]).entry.end() == (
        #[trigger] after.index.records[j]).entry.position by {
            assert(self.index.records[i].entry.end() == self.index.records[j].entry.position);
        }
        assert forall|other: Seq<char>| other != id implies #[trigger] after.read(other)
            == self.read(other) by {
            assert(after.index.lookup(other) == self.index.lookup(other));
        }
    }

    /// The log up to the end of the `n`th frame is the unindexed bytes
    /// followed by the first `n` frames, back to back.
    pub proof fn lemma_layout_upto(self, n: int)
        requires
            self.wf(),
            0 < n <= self.index.records.len(),
        ensures
            self.log.take(self.index.records[n - 1].entry.end()) == self.unindexed()
                + self.frames().take(n).flatten(),
        decreases n,
    {
        let frames = self.frames().take(n);
        let last = self.index.records[n - 1].entry;
        frames.lemma_flatten_and_flatten_alt_are_equivalent();
        assert(self.holds(last));
        assert(frames.last() == self.log.subrange(last.position as int, last.end()));
        if n == 1 {
            assert(frames.drop_last().flatten_alt() =~= Seq::<u8>::empty());
            assert(self.log.take(last.end()) =~= self.unindexed() + frames.flatten());
        } else {
            self.lemma_layout_upto(n - 1);
            let before = self.index.records[n - 2].entry;
            assert(before.end() == last.position);
            assert(frames.drop_last() =~= self.frames().take(n - 1));
            frames.drop_last().lemma_flatten_and_flatten_alt_are_equivalent();
            assert(self.log.take(last.end()) =~= self.log.take(last.position as int)
                + self.log.subrange(last.position as int, last.end()));
            assert(self.log.take(last.end()) =~= self.unindexed() + frames.flatten());
        }
    }

    /// Before any identifier was created there was no live payload, and
    /// when all were created the collection was as it is.
    pub proof fn lemma_first_bounds(self)
        ensures
            self.first(0).live_payloads() == Seq::<Seq<u8>>::empty(),
            self.first(self.index.records.len() as int) == self,
    {
        reveal(Seq::filter);
        assert(self.index.records.take(self.index.records.len() as int) =~= self.index.records);
        assert(self.first(0).live_payloads() =~= Seq::<Seq<u8>>::empty());
    }

    /// The payload of a live record is among the live payloads.
    pub proof fn lemma_live_payload_is_listed(self, i: int)
        requires
            0 <= i < self.index.records.len(),
            self.index.records[i].live,
        ensures
            self.live_payloads().contains(self.payload(self.index.records[i].entry)),
    {
        let live = self.index.records.filter(|record: Record| record.live);
        self.index.records.lemma_filter_contains(|record: Record| record.live, i);
        let k = choose|k: int| 0 <= k < live.len() && live[k] == self.index.records[i];
        assert(self.live_payloads()[k] == self.payload(self.index.records[i].entry));
    }

    /// The live payloads among the first `n + 1` records are those among
    /// the first `n`, and the payload of the next record where it is live.
    pub proof fn lemma_live_payloads_step(self, n: int)
        requires
            0 <= n < self.index.records.len(),
        ensures
            self.first(n + 1).live_payloads() == (if self.index.records[n].live {
                self.first(n).live_payloads().push(self.payload(self.index.records[n].entry))
            } else {
                self.first(n).live_payloads()
            }),
    {
        reveal(Seq::filter);
        let longer = self.index.records.take(n + 1);
        assert(longer.drop_last() =~= self.index.records.take(n));
        assert(self.first(n + 1).live_payloads() =~= (if self.index.records[n].live {
            self.first(n).live_payloads().push(self.payload(self.index.records[n].entry))
        } else {
            self.first(n).live_payloads()
        }));
    }

    /// A scan that has failed, or has all the matches it was asked for,
    /// ends with the same outcome however many records follow.
    pub proof fn lemma_scan_settled(
        self,
        from: int,
        to: int,
        limit: nat,
        answers: Answers,
        outcome: ScanOutcome,
    )
        requires
            0 <= from <= to <= self.index.records.len(),
            scan_yields(self.first(from).live_payloads(), limit, answers, outcome),
            match outcome {
                Ok(found) => found.len() >= limit,
                Err(_) => true,
            },
        ensures
            scan_yields(self.first(to).live_payloads(), limit, answers, outcome),
        decreases to - from,
    {
        if from < to {
            self.lemma_scan_settled(from, to - 1, limit, answers, outcome);
            self.lemma_live_payloads_step(to - 1);
            let record = self.index.records[to - 1];
            if record.live {
                lemma_scan_step(
                    self.first(to - 1).live_payloads(),
                    self.payload(record.entry),
                    limit,
                    answers,
                    outcome,
                    outcome,
                );
            }
        }
    }
}

/// A scan that can end with `before` on `payloads`, and takes one step
/// over `payload` to `after`, can end with `after` on the longer sequence.
pub proof fn lemma_scan_step(
    payloads: Seq<Seq<u8>>,
    payload: Seq<u8>,
    limit: nat,
    answers: Answers,
    before: ScanOutcome,
    after: ScanOutcome,
)
    requires
        scan_yields(payloads, limit, answers, before),
        scan_step(before, payload, limit, answers, after),
    ensures
        scan_yields(payloads.push(payload), limit, answers, after),
{
    let all = payloads.push(payload);
    assert(all.drop_last() =~= payloads);
    assert(all.last() == payload);
    assert(scan_yields(all.drop_last(), limit, answers, before));
    assert(scan_step(before, all.last(), limit, answers, after));
}

} // verus!
