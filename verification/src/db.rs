//! The database: one record store for every collection key, under one name.

use crate::errors::Errors;
use crate::ident::is_random_id;
use crate::model::{scan_yields, DbModel, ScanOutcome, StoreModel};
use crate::table::{observed, outcome_of, payloads_of, Table};
use vstd::hash_map::StringHashMap;
use vstd::prelude::*;

verus! {

/// The outcome of a search for one record as the model sees it: no match
/// is no payload, a match is the one payload.
pub open spec fn outcome_of_one(r: Result<Option<Vec<u8>>, Errors>) -> ScanOutcome {
    match r {
        Ok(Some(bytes)) => Ok(seq![bytes@]),
        Ok(None) => Ok(Seq::empty()),
        Err(e) => Err(e),
    }
}

/// A database: the record stores of its collections, found by key.
pub struct Db {
    name: String,
    tables: Vec<Table>,
    by_key: StringHashMap<usize>,
}

impl View for Db {
    type V = DbModel;

    closed spec fn view(&self) -> DbModel {
        DbModel { name: self.name@, stores: Map::total(|key: Seq<char>| self.store_at(key)) }
    }
}

impl Db {
    /// The collection of `key`: its table where one was made, the empty
    /// collection where none was.
    pub closed spec fn store_at(&self, key: Seq<char>) -> StoreModel {
        if self.by_key@.contains_key(key) {
            self.tables[self.by_key@[key] as int]@
        } else {
            StoreModel::empty()
        }
    }

    /// Every key has a table of its own, and every table is well formed.
    pub closed spec fn wf(&self) -> bool {
        &&& forall|key: Seq<char>|
            self.by_key@.contains_key(key) ==> 0 <= (#[trigger] self.by_key@[key])
                < self.tables.len()
        &&& forall|a: Seq<char>, b: Seq<char>|
            #![trigger self.by_key@[a], self.by_key@[b]]
            self.by_key@.contains_key(a) && self.by_key@.contains_key(b) && self.by_key@[a]
                == self.by_key@[b] ==> a == b
        &&& forall|i: int| 0 <= i < self.tables.len() ==> (#[trigger] self.tables[i]).wf()
    }

    /// A well-formed database has a well-formed model.
    pub proof fn lemma_wf(&self)
        requires
            self.wf(),
        ensures
            self@.wf(),
    {
        assert forall|key: Seq<char>| (#[trigger] self@.stores[key]).wf() by {
            if self.by_key@.contains_key(key) {
                self.tables[self.by_key@[key] as int].lemma_wf();
            }
        }
    }

    /// A database of the given name in which nothing is stored.
    pub fn new(name: String) -> (r: Db)
        ensures
            r.wf(),
            r@ == DbModel::empty(name@),
    {
        let r = Db { name, tables: Vec::new(), by_key: StringHashMap::new() };
        assert(r@.stores =~= DbModel::empty(name@).stores);
        r
    }

    /// The name that the database was made with.
    pub fn name(&self) -> (r: &str)
        ensures
            r@ == self@.name,
    {
        self.name.as_str()
    }

    /// The record store of `key`, where one was made.
    pub fn table(&self, key: &str) -> (r: Option<&Table>)
        requires
            self.wf(),
        ensures
            match r {
                Some(table) => table.wf() && table@ == self@.stores[key@],
                None => self@.stores[key@] == StoreModel::empty(),
            },
    {
        match self.by_key.get(key) {
            Some(at) => Some(&self.tables[*at]),
            None => None,
        }
    }

    /// The record store of `key`, made empty on first use. Each key has one
    /// store for as long as the database lives; what is done to the store
    /// through the reference is done to the collection of `key` and to no other.
    pub fn store_for(&mut self, key: &str) -> (r: &mut Table)
        requires
            old(self).wf(),
        ensures
            r.wf(),
            r@ == old(self)@.stores[key@],
            final(self)@ == old(self)@.with_store(key@, final(r)@),
            final(r).wf() ==> final(self).wf(),
    {
        let at = match self.by_key.get(key) {
            Some(at) => *at,
            None => {
                let at = self.tables.len();
                self.tables.push(Table::new());
                self.by_key.insert(key.to_owned(), at);
                at
            },
        };
        proof {
            assert(self@.stores =~= old(self)@.stores);
            let now = *self;
            assert forall|after: Db, table: Table|
                #![trigger after.view(), table.view()]
                #![trigger after.wf(), table.wf()]
                after.name == now.name && after.by_key == now.by_key && after.tables@
                    == now.tables@.update(at as int, table) implies after@ == old(self)@.with_store(
                key@,
                table@,
            ) && (table.wf() ==> after.wf()) by {
                now.lemma_store_replaced(after, key@, table);
            }
        }
        &mut self.tables[at]
    }

    /// Putting another table in the place of the one of `key` changes the
    /// collection of `key` and no other.
    proof fn lemma_store_replaced(&self, after: Db, key: Seq<char>, table: Table)
        requires
            self.wf(),
            self.by_key@.contains_key(key),
            after.name == self.name,
            after.by_key == self.by_key,
            after.tables@ == self.tables@.update(self.by_key@[key] as int, table),
        ensures
            after@ == self@.with_store(key, table@),
            table.wf() ==> after.wf(),
    {
        let at = self.by_key@[key] as int;
        assert(after@.stores =~= self@.with_store(key, table@).stores) by {
            assert forall|k: Seq<char>| #[trigger]
                after@.stores[k] == self@.with_store(key, table@).stores[k] by {
                if k != key && self.by_key@.contains_key(k) {
                    assert(self.by_key@[k] != self.by_key@[key]);
                }
            }
        }
        if table.wf() {
            assert forall|i: int| 0 <= i < after.tables.len() implies (#[trigger] after.tables[i]).wf() by {
                if i != at {
                    assert(self.tables[i].wf());
                }
            }
        }
    }

    /// Makes the collection of `key` one over a log that holds `log`
    /// already, as a collection that was written earlier does. This is done
    /// only where nothing was written to the collection yet; the result
    /// says whether it was done.
    pub fn adopt(&mut self, key: &str, log: Vec<u8>) -> (adopted: bool)
        requires
            old(self).wf(),
        ensures
            final(self).wf(),
            adopted == (old(self)@.stores[key@] == StoreModel::empty()),
            final(self)@ == (if adopted {
                old(self)@.with_store(key@, StoreModel::over(log@))
            } else {
                old(self)@
            }),
    {
        let table = self.store_for(key);
        if table.is_empty() {
            *table = Table::open(log);
            true
        } else {
            proof {
                assert(final(self)@.stores =~= old(self)@.stores);
            }
            false
        }
    }

    /// Stores `payload` in the collection of `key` under `id`. Refused with
    /// `Io` where the collection's log cannot take the payload, with
    /// `DuplicateId` where `id` was used in that collection before; the
    /// database is then unchanged.
    pub fn post_with_id(&mut self, key: &str, id: &str, payload: &Vec<u8>) -> (r: Result<
        (),
        Errors,
    >)
        requires
            old(self).wf(),
        ensures
            final(self).wf(),
            r == old(self)@.post_result(key@, id@, payload@),
            final(self)@ == (if r is Ok {
                old(self)@.post(key@, id@, payload@)
            } else {
                old(self)@
            }),
    {
        let table = self.store_for(key);
        let r = table.create_with_id(id, payload);
        proof {
            if r is Err {
                assert(final(self)@.stores =~= old(self)@.stores);
            }
        }
        r
    }

    /// Stores `payload` in the collection of `key` under a fresh random
    /// identifier, and gives the identifier back.
    pub fn post(&mut self, key: &str, payload: &Vec<u8>) -> (r: Result<String, Errors>)
        requires
            old(self).wf(),
        ensures
            final(self).wf(),
            match r {
                Ok(id) => {
                    &&& is_random_id(id@)
                    &&& old(self)@.post_result(key@, id@, payload@) is Ok
                    &&& final(self)@ == old(self)@.post(key@, id@, payload@)
                },
                Err(e) => {
                    &&& final(self)@ == old(self)@
                    &&& exists|id: Seq<char>| #[trigger]
                        old(self)@.post_result(key@, id, payload@) == Err::<(), Errors>(e)
                },
            },
    {
        let table = self.store_for(key);
        let r = table.create(payload);
        proof {
            if let Err(e) = r {
                let before = old(self)@.stores[key@];
                let id = choose|id: Seq<char>| #[trigger]
                    before.create_result(id, payload@) == Err::<(), Errors>(e);
                assert(old(self)@.post_result(key@, id, payload@) == Err::<(), Errors>(e));
                assert(final(self)@.stores =~= old(self)@.stores);
            }
        }
        r
    }

    /// The payload stored under `id` in the collection of `key`.
    /// `NotFound` where `id` is not live there, which includes a collection
    /// that nothing was ever written to.
    pub fn get(&self, key: &str, id: &String) -> (r: Result<Vec<u8>, Errors>)
        requires
            self.wf(),
        ensures
            match r {
                Ok(bytes) => self@.get(key@, id@) == Ok::<Seq<u8>, Errors>(bytes@),
                Err(e) => self@.get(key@, id@) == Err::<Seq<u8>, Errors>(e),
            },
    {
        match self.table(key) {
            Some(table) => table.read(id.as_str()),
            None => Err(Errors::NotFound),
        }
    }

    /// Deletes `id` from the collection of `key`. `NotFound` where `id` is
    /// not live there; the database is then unchanged.
    pub fn delete(&mut self, key: &str, id: &String) -> (r: Result<(), Errors>)
        requires
            old(self).wf(),
        ensures
            final(self).wf(),
            r == old(self)@.delete_result(key@, id@),
            final(self)@ == old(self)@.delete(key@, id@),
    {
        if !self.by_key.contains_key(key) {
            proof {
                assert(self@.delete(key@, id@).stores =~= self@.stores);
            }
            return Err(Errors::NotFound);
        }
        let table = self.store_for(key);
        table.delete(id.as_str())
    }

    /// Goes through the live records of the collection of `key` in order
    /// of creation and collects the payloads that `predicate` accepts, up
    /// to `limit` of them. A payload of which the predicate says `None`
    /// ends the search with `Corrupt`.
    pub fn find<F: Fn(&Vec<u8>) -> Option<bool>>(&self, key: &str, predicate: F, limit: usize) -> (r:
        Result<Vec<Vec<u8>>, Errors>)
        requires
            self.wf(),
            forall|bytes: &Vec<u8>|
                self@.stores[key@].live_payloads().contains(bytes@) ==> call_requires(
                    predicate,
                    (bytes,),
                ),
        ensures
            scan_yields(
                self@.stores[key@].live_payloads(),
                limit as nat,
                observed(predicate),
                outcome_of(r),
            ),
            r matches Ok(found) ==> {
                &&& found.len() <= limit
                &&& forall|j: int|
                    0 <= j < found.len() ==> call_ensures(
                        predicate,
                        (&#[trigger] found[j],),
                        Some(true),
                    )
            },
    {
        match self.table(key) {
            Some(table) => table.scan(predicate, limit),
            None => {
                let found: Vec<Vec<u8>> = Vec::new();
                proof {
                    assert(payloads_of(found@) =~= Seq::<Seq<u8>>::empty());
                }
                Ok(found)
            },
        }
    }

    /// The first live record of the collection of `key`, in order of
    /// creation, that `predicate` accepts, if there is one.
    pub fn find_one<F: Fn(&Vec<u8>) -> Option<bool>>(&self, key: &str, predicate: F) -> (r: Result<
        Option<Vec<u8>>,
        Errors,
    >)
        requires
            self.wf(),
            forall|bytes: &Vec<u8>|
                self@.stores[key@].live_payloads().contains(bytes@) ==> call_requires(
                    predicate,
                    (bytes,),
                ),
        ensures
            scan_yields(
                self@.stores[key@].live_payloads(),
                1,
                observed(predicate),
                outcome_of_one(r),
            ),
            r matches Ok(Some(bytes)) ==> call_ensures(predicate, (&bytes,), Some(true)),
    {
        match self.find(key, predicate, 1) {
            Ok(found) => {
                let mut found = found;
                let ghost all = found@;
                let first = found.pop();
                proof {
                    if all.len() == 1 {
                        assert(payloads_of(all) =~= seq![all[0]@]);
                    } else {
                        assert(payloads_of(all) =~= Seq::<Seq<u8>>::empty());
                    }
                }
                Ok(first)
            },
            Err(e) => Err(e),
        }
    }

    /// Throws away every collection with all it holds. The name stays.
    pub fn nuke(&mut self) -> (r: Result<(), Errors>)
        ensures
            final(self).wf(),
            r is Ok,
            final(self)@ == old(self)@.nuke(),
    {
        self.tables.clear();
        self.by_key.clear();
        proof {
            assert(self@.stores =~= old(self)@.nuke().stores);
        }
        Ok(())
    }
}

} // verus!
