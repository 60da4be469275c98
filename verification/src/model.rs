//! The mathematical model of the store: what a log, an index, a collection
//! and a database are, and what each operation makes of them.

use crate::errors::Errors;
use vstd::bytes::spec_u64_to_le_bytes;
use vstd::prelude::*;

verus! {

/// Number of bytes in a frame's length header.
pub const HEADER_LEN: usize = 8;

/// The header of a frame whose payload has `length` bytes: the length as
/// eight little-endian bytes.
pub open spec fn header_of(length: nat) -> Seq<u8> {
    spec_u64_to_le_bytes(length as u64)
}

/// The frame that stores `payload`: its header, then the payload itself.
pub open spec fn frame_of(payload: Seq<u8>) -> Seq<u8> {
    header_of(payload.len()) + payload
}

/// Where one record's frame lies in its collection's log.
#[derive(Clone, Copy, Debug, PartialEq, Eq, Structural)]
pub struct IndexEntry {
    /// Offset of the first byte of the frame's header.
    pub position: u64,
    /// Number of payload bytes that follow the header.
    pub length: u32,
}

impl IndexEntry {
    /// Offset of the first payload byte.
    pub open spec fn payload_start(self) -> int {
        self.position + HEADER_LEN
    }

    /// Offset just past the last payload byte.
    pub open spec fn end(self) -> int {
        self.position + HEADER_LEN + self.length
    }
}

/// One identifier that a collection has handed out, with the place of its
/// frame and whether the record can still be read.
#[verifier::ext_equal]
pub struct Record {
    pub id: Seq<char>,
    pub entry: IndexEntry,
    pub live: bool,
}

/// The offset index of one collection: every identifier ever created in it,
/// in order of creation. A deleted record stays as a retired identifier, so
/// that it is never handed out again.
#[verifier::ext_equal]
pub struct IndexModel {
    pub records: Seq<Record>,
}

impl IndexModel {
    /// The index in which no identifier was ever created.
    pub open spec fn empty() -> IndexModel {
        IndexModel { records: Seq::empty() }
    }

    /// No identifier occurs twice.
    pub open spec fn wf(self) -> bool {
        forall|i: int, j: int|
            #![trigger self.records[i], self.records[j]]
            0 <= i < j < self.records.len() ==> self.records[i].id != self.records[j].id
    }

    /// `id` was created here at some time, whether it is still live or not.
    pub open spec fn used(self, id: Seq<char>) -> bool {
        exists|i: int| 0 <= i < self.records.len() && (#[trigger] self.records[i]).id == id
    }

    /// The place of `id` in the order of creation.
    pub open spec fn slot(self, id: Seq<char>) -> int {
        choose|i: int| 0 <= i < self.records.len() && (#[trigger] self.records[i]).id == id
    }

    /// `id` is live: created and not deleted since.
    pub open spec fn live(self, id: Seq<char>) -> bool {
        self.used(id) && self.records[self.slot(id)].live
    }

    /// The mapping from live identifiers to entries.
    pub open spec fn lookup(self, id: Seq<char>) -> Option<IndexEntry> {
        if self.live(id) {
            Some(self.records[self.slot(id)].entry)
        } else {
            None
        }
    }

    /// `id` was used and is live no more: it was deleted.
    pub open spec fn retired(self, id: Seq<char>) -> bool {
        self.used(id) && !self.live(id)
    }

    /// Both identifiers were created here, `first` before `second`.
    pub open spec fn created_before(self, first: Seq<char>, second: Seq<char>) -> bool {
        self.used(first) && self.used(second) && self.slot(first) < self.slot(second)
    }

    /// The entry that `id` was created with, whether `id` is live or retired.
    pub open spec fn entry_of(self, id: Seq<char>) -> IndexEntry
        recommends
            self.used(id),
    {
        self.records[self.slot(id)].entry
    }

    /// Whether `id` can be inserted: an identifier that was used before,
    /// live or retired, is refused with `DuplicateId`.
    pub open spec fn insert_result(self, id: Seq<char>) -> Result<(), Errors> {
        if self.used(id) {
            Err(Errors::DuplicateId)
        } else {
            Ok(())
        }
    }

    /// The index with `id` added as its newest, live record.
    pub open spec fn insert(self, id: Seq<char>, entry: IndexEntry) -> IndexModel {
        IndexModel { records: self.records.push(Record { id, entry, live: true }) }
    }

    /// The index with `id` retired; unchanged where `id` is not live.
    pub open spec fn remove(self, id: Seq<char>) -> IndexModel {
        if self.live(id) {
            let at = self.slot(id);
            IndexModel {
                records: self.records.update(
                    at,
                    Record { id, entry: self.records[at].entry, live: false },
                ),
            }
        } else {
            self
        }
    }
}

/// One collection: the bytes of its append-only log and its offset index.
#[verifier::ext_equal]
pub struct StoreModel {
    pub log: Seq<u8>,
    pub index: IndexModel,
}

impl StoreModel {
    /// The collection with an empty log and an empty index.
    pub open spec fn empty() -> StoreModel {
        StoreModel { log: Seq::empty(), index: IndexModel::empty() }
    }

    /// The collection over a log that holds `log` already, with an empty index.
    pub open spec fn over(log: Seq<u8>) -> StoreModel {
        StoreModel { log, index: IndexModel::empty() }
    }

    /// The payload bytes that `entry` points at.
    pub open spec fn payload(self, entry: IndexEntry) -> Seq<u8> {
        self.log.subrange(entry.payload_start(), entry.end())
    }

    /// `entry` lies inside the log, and the bytes there are the frame of its payload.
    pub open spec fn holds(self, entry: IndexEntry) -> bool {
        &&& entry.end() <= self.log.len()
        &&& self.log.subrange(entry.position as int, entry.end()) == frame_of(self.payload(entry))
    }

    /// Identifiers are unique, and the log is laid out as the index says:
    /// every record, live or retired, points at a whole frame inside the
    /// log, each frame starts where the one created before it ends, and the
    /// newest frame ends where the log ends.
    pub open spec fn wf(self) -> bool {
        &&& self.index.wf()
        &&& forall|i: int|
            0 <= i < self.index.records.len() ==> self.holds((#[trigger] self.index.records[i]).entry)
        &&& forall|i: int, j: int|
            #![trigger self.index.records[i], self.index.records[j]]
            0 <= i && j == i + 1 && j < self.index.records.len()
                ==> self.index.records[i].entry.end() == self.index.records[j].entry.position
        &&& self.index.records.len() > 0 ==> self.index.records.last().entry.end()
            == self.log.len()
    }

    /// The bytes of the log that no record points at: what the log held
    /// before its first frame was written.
    pub open spec fn unindexed(self) -> Seq<u8> {
        if self.index.records.len() > 0 {
            self.log.take(self.index.records.first().entry.position as int)
        } else {
            self.log
        }
    }

    /// The frames of all records, live or retired, in order of creation.
    pub open spec fn frames(self) -> Seq<Seq<u8>> {
        self.index.records.map_values(|record: Record| frame_of(self.payload(record.entry)))
    }

    /// The offset at which the next frame will be written: the log's length.
    pub open spec fn next_append_offset(self) -> nat {
        self.log.len()
    }

    /// A payload of `length` bytes can be stored: its length fits the
    /// entry's field, and the log with its frame is no longer than a
    /// vector of bytes can be.
    pub open spec fn can_take(self, length: nat) -> bool {
        &&& length <= u32::MAX
        &&& self.log.len() + HEADER_LEN + length <= isize::MAX
    }

    /// The entry that a payload of `length` bytes gets when created now.
    pub open spec fn next_entry(self, length: nat) -> IndexEntry {
        IndexEntry { position: self.log.len() as u64, length: length as u32 }
    }

    /// Whether `payload` can be stored under `id`: `Io` where the log cannot
    /// take the payload, else `DuplicateId` where `id` was used before.
    pub open spec fn create_result(self, id: Seq<char>, payload: Seq<u8>) -> Result<(), Errors> {
        if !self.can_take(payload.len()) {
            Err(Errors::Io)
        } else {
            self.index.insert_result(id)
        }
    }

    /// The collection after `payload` was stored under `id`.
    pub open spec fn create(self, id: Seq<char>, payload: Seq<u8>) -> StoreModel {
        StoreModel {
            log: self.log + frame_of(payload),
            index: self.index.insert(id, self.next_entry(payload.len())),
        }
    }

    /// The payload stored under `id`; `NotFound` where `id` is not live.
    pub open spec fn read(self, id: Seq<char>) -> Result<Seq<u8>, Errors> {
        match self.index.lookup(id) {
            Some(entry) => Ok(self.payload(entry)),
            None => Err(Errors::NotFound),
        }
    }

    /// The frame of `id` as it stands in the log, where `id` is live.
    pub open spec fn frame(self, id: Seq<char>) -> Result<Seq<u8>, Errors> {
        match self.index.lookup(id) {
            Some(entry) => Ok(frame_of(self.payload(entry))),
            None => Err(Errors::NotFound),
        }
    }

    /// Whether `id` can be deleted: `NotFound` where `id` is not live.
    pub open spec fn delete_result(self, id: Seq<char>) -> Result<(), Errors> {
        if self.index.live(id) {
            Ok(())
        } else {
            Err(Errors::NotFound)
        }
    }

    /// The collection after `id` was deleted: the log keeps its bytes.
    pub open spec fn delete(self, id: Seq<char>) -> StoreModel {
        StoreModel { log: self.log, index: self.index.remove(id) }
    }

    /// The collection as it was when only its first `n` identifiers had
    /// been created, over the log of now.
    pub open spec fn first(self, n: int) -> StoreModel {
        StoreModel { log: self.log, index: IndexModel { records: self.index.records.take(n) } }
    }

    /// The payloads of all live records, in order of creation.
    pub open spec fn live_payloads(self) -> Seq<Seq<u8>> {
        self.index.records.filter(|record: Record| record.live).map_values(
            |record: Record| self.payload(record.entry),
        )
    }
}

/// What a scan has in hand: the matching payloads found so far, or the
/// error that ended it.
pub type ScanOutcome = Result<Seq<Seq<u8>>, Errors>;

/// What a predicate may say of a payload: `Some(true)` for a match,
/// `Some(false)` for none, `None` where the payload cannot be decoded.
pub type Answers = spec_fn(Seq<u8>, Option<bool>) -> bool;

/// One step of a scan, from the outcome `before` to the outcome `after`
/// over the next live payload. A scan that has failed or has `limit`
/// matches does not look at the payload. Otherwise the predicate is asked:
/// a payload that cannot be decoded ends the scan with `Corrupt`, a match is
/// added to the matches, anything else is passed over.
pub open spec fn scan_step(
    before: ScanOutcome,
    payload: Seq<u8>,
    limit: nat,
    answers: Answers,
    after: ScanOutcome,
) -> bool {
    match before {
        Err(_) => after == before,
        Ok(found) => if found.len() >= limit {
            after == before
        } else {
            ||| answers(payload, None) && after == Err::<Seq<Seq<u8>>, Errors>(Errors::Corrupt)
            ||| answers(payload, Some(false)) && after == before
            ||| answers(payload, Some(true)) && after == Ok::<Seq<Seq<u8>>, Errors>(
                found.push(payload),
            )
        },
    }
}

/// `outcome` is what a scan of `payloads`, in order, can end with when the
/// predicate answers as `answers` allows.
pub open spec fn scan_yields(
    payloads: Seq<Seq<u8>>,
    limit: nat,
    answers: Answers,
    outcome: ScanOutcome,
) -> bool
    decreases payloads.len(),
{
    if payloads.len() == 0 {
        outcome == Ok::<Seq<Seq<u8>>, Errors>(Seq::empty())
    } else {
        exists|before: ScanOutcome|
            scan_yields(payloads.drop_last(), limit, answers, before) && #[trigger] scan_step(
                before,
                payloads.last(),
                limit,
                answers,
                outcome,
            )
    }
}

/// A database: its name, and a collection for every key. A key that was
/// never written to has the empty collection.
#[verifier::ext_equal]
pub struct DbModel {
    pub name: Seq<char>,
    pub stores: Map<Seq<char>, StoreModel>,
}

impl DbModel {
    /// The database of the given name in which every collection is empty.
    pub open spec fn empty(name: Seq<char>) -> DbModel {
        DbModel { name, stores: Map::total(|key: Seq<char>| StoreModel::empty()) }
    }

    /// Every key has a collection, and every collection is well formed.
    pub open spec fn wf(self) -> bool {
        &&& forall|key: Seq<char>| #[trigger] self.stores.dom().contains(key)
        &&& forall|key: Seq<char>| (#[trigger] self.stores[key]).wf()
    }

    /// The database with the collection of `key` replaced by `store`.
    pub open spec fn with_store(self, key: Seq<char>, store: StoreModel) -> DbModel {
        DbModel { name: self.name, stores: self.stores.insert(key, store) }
    }

    /// Whether `payload` can be stored under `id` in the collection of `key`.
    pub open spec fn post_result(self, key: Seq<char>, id: Seq<char>, payload: Seq<u8>) -> Result<
        (),
        Errors,
    > {
        self.stores[key].create_result(id, payload)
    }

    /// The database after `payload` was stored under `id` in the collection of `key`.
    pub open spec fn post(self, key: Seq<char>, id: Seq<char>, payload: Seq<u8>) -> DbModel {
        self.with_store(key, self.stores[key].create(id, payload))
    }

    /// The payload stored under `id` in the collection of `key`.
    pub open spec fn get(self, key: Seq<char>, id: Seq<char>) -> Result<Seq<u8>, Errors> {
        self.stores[key].read(id)
    }

    /// Whether `id` can be deleted from the collection of `key`.
    pub open spec fn delete_result(self, key: Seq<char>, id: Seq<char>) -> Result<(), Errors> {
        self.stores[key].delete_result(id)
    }

    /// The database after `id` was deleted from the collection of `key`.
    pub open spec fn delete(self, key: Seq<char>, id: Seq<char>) -> DbModel {
        self.with_store(key, self.stores[key].delete(id))
    }

    /// The database after everything in it was thrown away.
    pub open spec fn nuke(self) -> DbModel {
        DbModel::empty(self.name)
    }
}

} // verus!
