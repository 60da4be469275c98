//! The record store of one collection: an append-only log of frames and
//! the offset index over it.

use crate::errors::Errors;
use crate::frame::encode_frame;
use crate::ident::{fresh_id, is_random_id};
use crate::index::OffsetIndex;
use crate::lemmas::lemma_scan_step;
use crate::model::{scan_yields, Answers, IndexEntry, ScanOutcome, StoreModel, HEADER_LEN};
use vstd::prelude::*;
use vstd::slice::{slice_subrange, slice_to_vec};

verus! {

/// What the predicate `predicate` may answer of a payload, as its contract says.
pub open spec fn observed<F: Fn(&Vec<u8>) -> Option<bool>>(predicate: F) -> Answers {
    |payload: Seq<u8>, verdict: Option<bool>|
        exists|bytes: Vec<u8>|
            bytes@ == payload && #[trigger] call_ensures(predicate, (&bytes,), verdict)
}

/// The payloads in `found`, as sequences of bytes.
pub open spec fn payloads_of(found: Seq<Vec<u8>>) -> Seq<Seq<u8>> {
    Seq::new(found.len(), |i: int| found[i]@)
}

/// The outcome of a scan as the model sees it.
pub open spec fn outcome_of(r: Result<Vec<Vec<u8>>, Errors>) -> ScanOutcome {
    match r {
        Ok(found) => Ok(payloads_of(found@)),
        Err(e) => Err(e),
    }
}

/// The record store of one collection.
pub struct Table {
    log: Vec<u8>,
    index: OffsetIndex,
}

impl View for Table {
    type V = StoreModel;

    closed spec fn view(&self) -> StoreModel {
        StoreModel { log: self.log@, index: self.index@ }
    }
}

impl Table {
    /// The index is consistent and the collection is well formed.
    pub closed spec fn wf(&self) -> bool {
        &&& self.index.wf()
        &&& self@.wf()
    }

    /// A well-formed table has a well-formed model.
    pub proof fn lemma_wf(&self)
        requires
            self.wf(),
        ensures
            self@.wf(),
    {
    }

    /// An empty collection: no bytes in the log, no identifier in the index.
    pub fn new() -> (r: Table)
        ensures
            r.wf(),
            r@ == StoreModel::empty(),
    {
        Table { log: Vec::new(), index: OffsetIndex::new() }
    }

    /// A collection over a log that already holds bytes, as one that was
    /// written earlier does: the index is empty, so nothing in those bytes
    /// can be read, and the next frame goes behind them.
    pub fn open(log: Vec<u8>) -> (r: Table)
        ensures
            r.wf(),
            r@ == StoreModel::over(log@),
    {
        Table { log, index: OffsetIndex::new() }
    }

    /// Whether nothing was ever written here: the log has no bytes and the
    /// index no identifier.
    pub fn is_empty(&self) -> (r: bool)
        ensures
            r == (self@ == StoreModel::empty()),
    {
        let r = self.log.len() == 0 && self.index.len() == 0;
        proof {
            if r {
                assert(self@.log =~= Seq::<u8>::empty());
                assert(self@.index.records =~= Seq::empty());
            }
        }
        r
    }

    /// The bytes of the log.
    pub fn log(&self) -> (r: &Vec<u8>)
        ensures
            r@ == self@.log,
    {
        &self.log
    }

    /// The offset at which the next frame will start: the length of the log.
    pub fn next_append_offset(&self) -> (r: u64)
        ensures
            r == self@.next_append_offset(),
    {
        self.log.len() as u64
    }

    /// The place of the frame of `id`, where `id` is live.
    pub fn lookup(&self, id: &str) -> (r: Option<IndexEntry>)
        requires
            self.wf(),
        ensures
            r == self@.index.lookup(id@),
            r matches Some(entry) ==> self@.holds(entry),
    {
        proof {
            self.index.lemma_wf();
            if self@.index.live(id@) {
                assert(self@.holds(self@.index.records[self@.index.slot(id@)].entry));
            }
        }
        self.index.lookup(id)
    }

    /// Copies out the payload that `entry` points at.
    fn fetch(&self, entry: IndexEntry) -> (r: Vec<u8>)
        requires
            self@.holds(entry),
        ensures
            r@ == self@.payload(entry),
    {
        proof {
            assert(self.log@.len() == self.log.len());
        }
        let start = entry.position as usize + HEADER_LEN;
        let end = start + entry.length as usize;
        slice_to_vec(slice_subrange(self.log.as_slice(), start, end))
    }

    /// Stores `payload` under `id`: appends its frame to the log and adds
    /// the identifier to the index. A payload that the log cannot take is
    /// refused with `Io`, an identifier that was used before with
    /// `DuplicateId`; the collection is then unchanged.
    pub fn create_with_id(&mut self, id: &str, payload: &Vec<u8>) -> (r: Result<(), Errors>)
        requires
            old(self).wf(),
        ensures
            final(self).wf(),
            r == old(self)@.create_result(id@, payload@),
            final(self)@ == (if r is Ok {
                old(self)@.create(id@, payload@)
            } else {
                old(self)@
            }),
    {
        let length = payload.len();
        let room = isize::MAX as usize - HEADER_LEN;
        if length > 0xffff_ffff || length > room || self.log.len() > room - length {
            return Err(Errors::Io);
        }
        if self.index.contains(id) {
            return Err(Errors::DuplicateId);
        }
        let mut frame = match encode_frame(payload) {
            Ok(frame) => frame,
            Err(_) => {
                return Err(Errors::Io);
            },
        };
        let entry = IndexEntry { position: self.log.len() as u64, length: length as u32 };
        match self.index.insert(id.to_owned(), entry) {
            Ok(()) => {},
            Err(e) => {
                return Err(e);
            },
        }
        self.log.append(&mut frame);
        proof {
            old(self)@.lemma_create(id@, payload@);
            assert(final(self)@ =~~= old(self)@.create(id@, payload@));
        }
        Ok(())
    }

    /// Stores `payload` under a fresh random identifier and gives the
    /// identifier back. Which identifier that is, is left to chance: where
    /// chance gives one that the collection has used, and only then, the
    /// call is refused with `DuplicateId`.
    pub fn create(&mut self, payload: &Vec<u8>) -> (r: Result<String, Errors>)
        requires
            old(self).wf(),
        ensures
            final(self).wf(),
            match r {
                Ok(id) => {
                    &&& is_random_id(id@)
                    &&& old(self)@.create_result(id@, payload@) is Ok
                    &&& final(self)@ == old(self)@.create(id@, payload@)
                },
                Err(e) => {
                    &&& final(self)@ == old(self)@
                    &&& exists|id: Seq<char>| #[trigger]
                        old(self)@.create_result(id, payload@) == Err::<(), Errors>(e)
                },
            },
    {
        let id = fresh_id();
        match self.create_with_id(id.as_str(), payload) {
            Ok(()) => Ok(id),
            Err(e) => Err(e),
        }
    }

    /// The payload stored under `id`: exactly the bytes of its frame's
    /// payload. `NotFound` where `id` is not live.
    pub fn read(&self, id: &str) -> (r: Result<Vec<u8>, Errors>)
        requires
            self.wf(),
        ensures
            match r {
                Ok(bytes) => self@.read(id@) == Ok::<Seq<u8>, Errors>(bytes@),
                Err(e) => self@.read(id@) == Err::<Seq<u8>, Errors>(e),
            },
    {
        match self.lookup(id) {
            Some(entry) => Ok(self.fetch(entry)),
            None => Err(Errors::NotFound),
        }
    }

    /// The frame of `id` as it stands in the log: the header, then the
    /// payload. `NotFound` where `id` is not live.
    pub fn frame(&self, id: &str) -> (r: Result<Vec<u8>, Errors>)
        requires
            self.wf(),
        ensures
            match r {
                Ok(bytes) => self@.frame(id@) == Ok::<Seq<u8>, Errors>(bytes@),
                Err(e) => self@.frame(id@) == Err::<Seq<u8>, Errors>(e),
            },
    {
        match self.lookup(id) {
            Some(entry) => {
                proof {
                    assert(self.log@.len() == self.log.len());
                }
                let start = entry.position as usize;
                let end = start + HEADER_LEN + entry.length as usize;
                Ok(slice_to_vec(slice_subrange(self.log.as_slice(), start, end)))
            },
            None => Err(Errors::NotFound),
        }
    }

    /// Deletes `id`: the identifier is retired, the bytes of its frame
    /// stay in the log. `NotFound` where `id` is not live.
    pub fn delete(&mut self, id: &str) -> (r: Result<(), Errors>)
        requires
            old(self).wf(),
        ensures
            final(self).wf(),
            r == old(self)@.delete_result(id@),
            final(self)@ == old(self)@.delete(id@),
    {
        proof {
            self.index.lemma_wf();
            if old(self)@.index.live(id@) {
                old(self)@.lemma_delete(id@);
            }
        }
        match self.index.remove(id) {
            Some(_) => Ok(()),
            None => Err(Errors::NotFound),
        }
    }

    /// Goes through the live records in order of creation and collects the
    /// payloads that `predicate` accepts, up to `limit` of them. It stops
    /// asking as soon as it has `limit` matches. A payload of which the
    /// predicate says `None` ends the scan with `Corrupt`.
    pub fn scan<F: Fn(&Vec<u8>) -> Option<bool>>(&self, predicate: F, limit: usize) -> (r: Result<
        Vec<Vec<u8>>,
        Errors,
    >)
        requires
            self.wf(),
            forall|bytes: &Vec<u8>|
                self@.live_payloads().contains(bytes@) ==> call_requires(predicate, (bytes,)),
        ensures
            scan_yields(self@.live_payloads(), limit as nat, observed(predicate), outcome_of(r)),
            r matches Ok(found) ==> {
                &&& found.len() <= limit
                &&& forall|j: int|
                    0 <= j < found.len() ==> call_ensures(predicate, (&#[trigger] found[j],), Some(true))
            },
    {
        let mut found: Vec<Vec<u8>> = Vec::new();
        let count = self.index.len();
        let mut at: usize = 0;
        proof {
            assert(payloads_of(found@) =~= Seq::empty());
            self@.lemma_first_bounds();
        }
        while at < count && found.len() < limit
            invariant
                self.wf(),
                count == self@.index.records.len(),
                at <= count,
                found.len() <= limit,
                forall|bytes: &Vec<u8>|
                    self@.live_payloads().contains(bytes@) ==> call_requires(predicate, (bytes,)),
                scan_yields(
                    self@.first(at as int).live_payloads(),
                    limit as nat,
                    observed(predicate),
                    Ok::<Seq<Seq<u8>>, Errors>(payloads_of(found@)),
                ),
                forall|j: int|
                    0 <= j < found.len() ==> call_ensures(predicate, (&#[trigger] found[j],), Some(true)),
            decreases count - at,
        {
            let ghost before = self@.first(at as int).live_payloads();
            let ghost had: ScanOutcome = Ok(payloads_of(found@));
            proof {
                self@.lemma_live_payloads_step(at as int);
            }
            match self.index.live_entry_at(at) {
                Some(entry) => {
                    proof {
                        assert(self@.holds(self@.index.records[at as int].entry));
                    }
                    let bytes = self.fetch(entry);
                    proof {
                        self@.lemma_live_payload_is_listed(at as int);
                    }
                    let verdict = predicate(&bytes);
                    proof {
                        assert(self@.first(at + 1).live_payloads() == before.push(bytes@));
                        assert(observed(predicate)(bytes@, verdict));
                    }
                    match verdict {
                        None => {
                            proof {
                                let failed: ScanOutcome = Err(Errors::Corrupt);
                                self@.lemma_first_bounds();
                                lemma_scan_step(
                                    before,
                                    bytes@,
                                    limit as nat,
                                    observed(predicate),
                                    had,
                                    failed,
                                );
                                self@.lemma_scan_settled(
                                    at + 1,
                                    count as int,
                                    limit as nat,
                                    observed(predicate),
                                    failed,
                                );
                            }
                            return Err(Errors::Corrupt);
                        },
                        Some(false) => {
                            proof {
                                lemma_scan_step(
                                    before,
                                    bytes@,
                                    limit as nat,
                                    observed(predicate),
                                    had,
                                    had,
                                );
                            }
                        },
                        Some(true) => {
                            found.push(bytes);
                            proof {
                                let has: ScanOutcome = Ok(payloads_of(found@));
                                assert(payloads_of(found@) =~= had->Ok_0.push(bytes@));
                                lemma_scan_step(
                                    before,
                                    bytes@,
                                    limit as nat,
                                    observed(predicate),
                                    had,
                                    has,
                                );
                            }
                        },
                    }
                },
                None => {
                    proof {
                        assert(self@.first(at + 1).live_payloads() == before);
                    }
                },
            }
            at = at + 1;
        }
        proof {
            self@.lemma_first_bounds();
            if at < count {
                self@.lemma_scan_settled(
                    at as int,
                    count as int,
                    limit as nat,
                    observed(predicate),
                    Ok(payloads_of(found@)),
                );
            }
        }
        Ok(found)
    }

    /// Throws the collection away: the log and the index are emptied, and
    /// identifiers that were retired are forgotten with the rest.
    pub fn destroy(&mut self)
        ensures
            final(self).wf(),
            final(self)@ == StoreModel::empty(),
    {
        self.log.clear();
        self.index.clear();
    }
}

} // verus!
