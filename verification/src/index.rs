//! The offset index: from a record's identifier to the place of its frame.

use crate::errors::Errors;
use crate::model::{IndexEntry, IndexModel, Record};
use vstd::hash_map::StringHashMap;
use vstd::prelude::*;

verus! {

/// One place in the index, in order of creation.
struct Slot {
    id: String,
    entry: IndexEntry,
    live: bool,
}

/// The offset index of one collection. Identifiers are found through a hash
/// map; the slots keep the order of creation.
pub struct OffsetIndex {
    slots: Vec<Slot>,
    by_id: StringHashMap<usize>,
}

impl View for OffsetIndex {
    type V = IndexModel;

    closed spec fn view(&self) -> IndexModel {
        IndexModel {
            records: Seq::new(
                self.slots.len() as nat,
                |i: int|
                    Record {
                        id: self.slots[i].id@,
                        entry: self.slots[i].entry,
                        live: self.slots[i].live,
                    },
            ),
        }
    }
}

impl OffsetIndex {
    /// The hash map knows exactly the identifiers in the slots, each with its place.
    pub closed spec fn wf(&self) -> bool {
        &&& forall|i: int|
            0 <= i < self.slots.len() ==> self.by_id@.contains_key((#[trigger] self.slots[i]).id@)
                && self.by_id@[self.slots[i].id@] == i
        &&& forall|k: Seq<char>|
            self.by_id@.contains_key(k) ==> 0 <= (#[trigger] self.by_id@[k]) < self.slots.len()
                && self.slots[self.by_id@[k] as int].id@ == k
    }

    /// A well-formed index has a well-formed model, and the hash map
    /// answers for it.
    pub proof fn lemma_wf(&self)
        requires
            self.wf(),
        ensures
            self@.wf(),
    {
        assert forall|i: int, j: int| 0 <= i < j < self@.records.len() implies (
        #[trigger] self@.records[i]).id != (#[trigger] self@.records[j]).id by {
            assert(self.by_id@[self.slots[i].id@] == i);
            assert(self.by_id@[self.slots[j].id@] == j);
        }
    }

    proof fn lemma_by_id(&self, id: Seq<char>)
        requires
            self.wf(),
        ensures
            self@.wf(),
            self@.used(id) == self.by_id@.contains_key(id),
            self@.used(id) ==> self@.slot(id) == self.by_id@[id],
    {
        self.lemma_wf();
        if self.by_id@.contains_key(id) {
            let at = self.by_id@[id] as int;
            assert(self@.records[at].id == id);
            self@.lemma_slot_is(at);
        }
        if self@.used(id) {
            let at = self@.slot(id);
            assert(self.slots[at].id@ == id);
        }
    }

    /// An index without records.
    pub fn new() -> (r: OffsetIndex)
        ensures
            r.wf(),
            r@ == IndexModel::empty(),
    {
        let r = OffsetIndex { slots: Vec::new(), by_id: StringHashMap::new() };
        assert(r@.records =~= Seq::empty());
        r
    }

    /// How many identifiers were created, retired ones included.
    pub fn len(&self) -> (n: usize)
        ensures
            n == self@.records.len(),
    {
        self.slots.len()
    }

    /// Whether `id` was ever created here.
    pub fn contains(&self, id: &str) -> (r: bool)
        requires
            self.wf(),
        ensures
            r == self@.used(id@),
    {
        proof {
            self.lemma_by_id(id@);
        }
        self.by_id.contains_key(id)
    }

    /// The entry of `id`, where `id` is live.
    pub fn lookup(&self, id: &str) -> (r: Option<IndexEntry>)
        requires
            self.wf(),
        ensures
            r == self@.lookup(id@),
    {
        proof {
            self.lemma_by_id(id@);
        }
        match self.by_id.get(id) {
            Some(at) => {
                let slot = &self.slots[*at];
                if slot.live {
                    Some(slot.entry)
                } else {
                    None
                }
            },
            None => None,
        }
    }

    /// The entry at place `at` in the order of creation, where that record is live.
    pub fn live_entry_at(&self, at: usize) -> (r: Option<IndexEntry>)
        requires
            at < self@.records.len(),
        ensures
            r == (if self@.records[at as int].live {
                Some(self@.records[at as int].entry)
            } else {
                None
            }),
    {
        let slot = &self.slots[at];
        if slot.live {
            Some(slot.entry)
        } else {
            None
        }
    }

    /// Adds `id` with `entry` as the newest record. An identifier that was
    /// ever created here, live or retired, is refused.
    pub fn insert(&mut self, id: String, entry: IndexEntry) -> (r: Result<(), Errors>)
        requires
            old(self).wf(),
        ensures
            final(self).wf(),
            r == old(self)@.insert_result(id@),
            final(self)@ == (if r is Ok {
                old(self)@.insert(id@, entry)
            } else {
                old(self)@
            }),
    {
        proof {
            self.lemma_by_id(id@);
        }
        if self.by_id.contains_key(id.as_str()) {
            return Err(Errors::DuplicateId);
        }
        let at = self.slots.len();
        let key = id.clone();
        self.slots.push(Slot { id, entry, live: true });
        self.by_id.insert(key, at);
        proof {
            assert(final(self)@.records =~= old(self)@.insert(id@, entry).records);
            assert forall|k: Seq<char>| self.by_id@.contains_key(k) implies 0 <= (
            #[trigger] self.by_id@[k]) < self.slots.len() && self.slots[self.by_id@[k] as int].id@
                == k by {
                if k != id@ {
                    assert(old(self).by_id@.contains_key(k));
                }
            }
        }
        Ok(())
    }

    /// Retires `id` and gives its entry, where `id` is live.
    pub fn remove(&mut self, id: &str) -> (r: Option<IndexEntry>)
        requires
            old(self).wf(),
        ensures
            final(self).wf(),
            r == old(self)@.lookup(id@),
            final(self)@ == old(self)@.remove(id@),
    {
        proof {
            self.lemma_by_id(id@);
        }
        let at = match self.by_id.get(id) {
            Some(at) => *at,
            None => {
                return None;
            },
        };
        if !self.slots[at].live {
            return None;
        }
        let entry = self.slots[at].entry;
        self.slots[at].live = false;
        proof {
            assert(final(self)@.records =~= old(self)@.remove(id@).records);
            assert forall|i: int| 0 <= i < self.slots.len() implies self.by_id@.contains_key(
                (#[trigger] self.slots[i]).id@,
            ) && self.by_id@[self.slots[i].id@] == i by {
                assert(self.slots[i].id@ == old(self).slots[i].id@);
            }
        }
        Some(entry)
    }

    /// Forgets every record, retired ones included.
    pub fn clear(&mut self)
        ensures
            final(self).wf(),
            final(self)@ == IndexModel::empty(),
    {
        self.slots.clear();
        self.by_id.clear();
        assert(self@.records =~= Seq::empty());
    }
}

} // verus!
