//! The store: sixteen namespaces of keys, each key with a value and an
//! optional instant from which it is gone. Expired entries are dropped
//! lazily, by the read that finds them.
//!
//! Instants are nanoseconds since the Unix epoch; the caller reads the clock
//! and passes the time in.

use vstd::prelude::*;
use crate::snapshot::{DataType, DataValue, RdbData, SnapshotModel};
use crate::table::{keys_distinct, lemma_table_map_at, table_map, Table};

verus! {

/// The number of namespaces.
pub const NUM_DATABASES: usize = 16;

pub struct EntryModel {
    /// The first instant at which the entry is expired.
    pub gone_at: Option<nat>,
    pub value: DataValue,
}

pub struct CacheEntry {
    /// The first instant at which the entry is expired.
    pub gone_at: Option<u128>,
    pub value: DataType,
}

impl View for CacheEntry {
    type V = EntryModel;

    open spec fn view(&self) -> EntryModel {
        EntryModel {
            gone_at: match self.gone_at {
                Some(t) => Some(t as nat),
                None => None,
            },
            value: self.value@,
        }
    }
}

/// Each namespace's keys and entries.
pub type StoreModel = Seq<Map<Seq<char>, EntryModel>>;

/// An entry that is gone at `now`.
pub open spec fn is_expired(e: EntryModel, now: nat) -> bool {
    match e.gone_at {
        Some(t) => t <= now,
        None => false,
    }
}

/// What a read of `key` in namespace `db` at `now` returns.
pub open spec fn read_value(s: StoreModel, db: nat, key: Seq<char>, now: nat) -> Option<DataValue> {
    if db < NUM_DATABASES && s[db as int].contains_key(key) && !is_expired(s[db as int][key], now) {
        Some(s[db as int][key].value)
    } else {
        None
    }
}

/// When an entry set at `now` for `ttl` is gone. With a time to live of
/// zero it is gone at once. With one of `t > 0` its expiry instant is
/// `now + t`, and it is gone once that instant is strictly in the past, at
/// `now + t + 1`; an instant past the end of time stays at the last one.
pub open spec fn expiry_after(now: nat, ttl: Option<nat>) -> Option<nat> {
    match ttl {
        Some(t) => Some(if t == 0 {
            now
        } else if now + t + 1 > u128::MAX {
            u128::MAX as nat
        } else {
            now + t + 1
        }),
        None => None,
    }
}

/// The store after `set`: the key holds the text `value` with the given
/// expiry, whatever it held before; a namespace out of range is left alone.
pub open spec fn after_set(s: StoreModel, db: nat, key: Seq<char>, value: Seq<char>, gone_at: Option<nat>) -> StoreModel {
    if db < NUM_DATABASES {
        s.update(db as int, s[db as int].insert(key, EntryModel { gone_at, value: DataValue::Text(value) }))
    } else {
        s
    }
}

/// The store after removing `key` from namespace `db`.
pub open spec fn after_evict(s: StoreModel, db: nat, key: Seq<char>) -> StoreModel {
    if db < NUM_DATABASES {
        s.update(db as int, s[db as int].remove(key))
    } else {
        s
    }
}

/// The namespace that a snapshot's database `db` becomes: its values, each
/// gone once the expiry instant that the snapshot gave its key (in
/// milliseconds) is strictly in the past.
pub open spec fn loaded_namespace(m: SnapshotModel, db: int) -> Map<Seq<char>, EntryModel> {
    Map::new(
        |k: Seq<char>| m.databases[db].contains_key(k),
        |k: Seq<char>| EntryModel {
            gone_at: if m.expirations[db].contains_key(k) {
                Some(m.expirations[db][k] * 1_000_000 + 1)
            } else {
                None
            },
            value: m.databases[db][k],
        },
    )
}

/// A `set` without expiry is seen, unchanged, by any later read of the same
/// key in the same namespace, for every namespace from 0 to 15.
pub proof fn lemma_set_then_get(s: StoreModel, db: nat, key: Seq<char>, value: Seq<char>, now: nat)
    requires
        s.len() == NUM_DATABASES,
        db < NUM_DATABASES,
    ensures
        read_value(after_set(s, db, key, value, None), db, key, now) == Some(DataValue::Text(value)),
{
}

/// A `set` with a time to live of zero has expired already: no read from
/// the instant of the `set` on sees it.
pub proof fn lemma_zero_ttl_expired(s: StoreModel, db: nat, key: Seq<char>, value: Seq<char>, set_at: nat, now: nat)
    requires
        s.len() == NUM_DATABASES,
        db < NUM_DATABASES,
        set_at <= u128::MAX,
        set_at <= now,
    ensures
        read_value(after_set(s, db, key, value, expiry_after(set_at, Some(0))), db, key, now) is None,
{
}

/// A `set` with a time to live of `ttl > 0` is seen by reads up to and
/// including its expiry instant, `set_at + ttl`, and by none after it.
pub proof fn lemma_ttl_window(s: StoreModel, db: nat, key: Seq<char>, value: Seq<char>, set_at: nat, ttl: nat, now: nat)
    requires
        s.len() == NUM_DATABASES,
        db < NUM_DATABASES,
        ttl > 0,
        set_at + ttl < u128::MAX,
    ensures
        read_value(after_set(s, db, key, value, expiry_after(set_at, Some(ttl))), db, key, now)
            == if now <= set_at + ttl { Some(DataValue::Text(value)) } else { None },
{
}

/// Evicting a key twice leaves the store as evicting it once.
pub proof fn lemma_evict_idempotent(s: StoreModel, db: nat, key: Seq<char>)
    requires
        s.len() == NUM_DATABASES,
    ensures
        after_evict(after_evict(s, db, key), db, key) == after_evict(s, db, key),
{
    if db < NUM_DATABASES {
        assert(s[db as int].remove(key).remove(key) =~= s[db as int].remove(key));
        assert(after_evict(after_evict(s, db, key), db, key) =~= after_evict(s, db, key));
    }
}

/// The first phase of a read: what shared access finds.
pub enum Lookup {
    Found(DataType),
    /// The entry is there but expired: the key is to be evicted.
    Expired,
    Missing,
}

/// The entry for `k` that a snapshot's value and expiry tables give.
pub open spec fn loaded_entry(values: Map<Seq<char>, DataType>, expirations: Map<Seq<char>, u64>, k: Seq<char>) -> EntryModel {
    EntryModel {
        gone_at: if expirations.contains_key(k) {
            Some(expirations[k] as nat * 1_000_000 + 1)
        } else {
            None
        },
        value: values[k]@,
    }
}

/// One namespace built from a snapshot's value and expiry tables.
fn build_namespace(values: &Table<DataType>, expirations: &Table<u64>) -> (r: Table<CacheEntry>)
    requires
        values.wf(),
        expirations.wf(),
    ensures
        r.wf(),
        forall|k: Seq<char>| #[trigger] r@.contains_key(k) <==> values@.contains_key(k),
        forall|k: Seq<char>| #[trigger] r@.contains_key(k) ==> r@[k]@ == loaded_entry(values@, expirations@, k),
{
    let entries = values.entries();
    let mut t: Table<CacheEntry> = Table::new();
    let mut i: usize = 0;
    while i < entries.len()
        invariant
            i <= entries@.len(),
            t.wf(),
            expirations.wf(),
            keys_distinct(entries@),
            table_map(entries@) == values@,
            forall|k: Seq<char>| #[trigger] t@.contains_key(k) <==> exists|j: int| 0 <= j < i && entries@[j].0@ == k,
            forall|j: int| 0 <= j < i ==> #[trigger] t@[entries@[j].0@]@ == loaded_entry(values@, expirations@, entries@[j].0@),
        decreases entries.len() - i,
    {
        let key = &entries[i].0;
        let gone_at = match expirations.get(key) {
            Some(ms) => Some((*ms as u128) * 1_000_000 + 1),
            None => None,
        };
        proof {
            lemma_table_map_at(entries@, i as int);
        }
        let entry = CacheEntry { gone_at, value: entries[i].1.duplicate() };
        assert(entry@ == loaded_entry(values@, expirations@, key@));
        let ghost before = t@;
        t.insert(key.clone(), entry);
        proof {
            assert forall|j: int| 0 <= j < i + 1 implies #[trigger] t@[entries@[j].0@]@ == loaded_entry(values@, expirations@, entries@[j].0@) by {
                if j < i {
                    assert(entries@[j].0@ != key@);
                }
            }
            assert forall|k: Seq<char>| #[trigger] t@.contains_key(k) <==> exists|j: int| 0 <= j < i + 1 && entries@[j].0@ == k by {
                if exists|j: int| 0 <= j < i + 1 && entries@[j].0@ == k {
                    let j = choose|j: int| 0 <= j < i + 1 && entries@[j].0@ == k;
                    if j < i {
                        assert(before.contains_key(k));
                    }
                }
            }
        }
        i = i + 1;
    }
    proof {
        assert forall|k: Seq<char>| #[trigger] t@.contains_key(k) <==> values@.contains_key(k) by {
            if values@.contains_key(k) {
                let j = choose|j: int| 0 <= j < entries@.len() && entries@[j].0@ == k;
                assert(t@.contains_key(entries@[j].0@));
            }
        }
        assert forall|k: Seq<char>| #[trigger] t@.contains_key(k) implies t@[k]@ == loaded_entry(values@, expirations@, k) by {
            let j = choose|j: int| 0 <= j < i && entries@[j].0@ == k;
            assert(t@[entries@[j].0@]@ == loaded_entry(values@, expirations@, entries@[j].0@));
        }
    }
    t
}

pub struct Store {
    databases: Vec<Table<CacheEntry>>,
}

impl View for Store {
    type V = StoreModel;

    closed spec fn view(&self) -> StoreModel {
        self.databases@.map_values(|t: Table<CacheEntry>| t@.map_values(|e: CacheEntry| e@))
    }
}

impl Store {
    pub closed spec fn wf(&self) -> bool {
        &&& self.databases@.len() == NUM_DATABASES
        &&& forall|i: int| 0 <= i < NUM_DATABASES ==> (#[trigger] self.databases@[i]).wf()
    }

    /// A well-formed store has its sixteen namespaces.
    pub proof fn lemma_namespaces(&self)
        requires
            self.wf(),
        ensures
            self@.len() == NUM_DATABASES,
    {
    }

    /// Sixteen empty namespaces.
    pub fn new() -> (r: Store)
        ensures
            r.wf(),
            r@.len() == NUM_DATABASES,
            forall|i: int| 0 <= i < NUM_DATABASES ==> #[trigger] r@[i] == Map::<Seq<char>, EntryModel>::empty(),
    {
        let mut databases: Vec<Table<CacheEntry>> = Vec::new();
        let mut i: usize = 0;
        while i < NUM_DATABASES
            invariant
                i <= NUM_DATABASES,
                databases@.len() == i,
                forall|j: int| 0 <= j < i ==> (#[trigger] databases@[j]).wf() && databases@[j]@ == Map::<Seq<char>, CacheEntry>::empty(),
            decreases NUM_DATABASES - i,
        {
            databases.push(Table::new());
            i = i + 1;
        }
        let r = Store { databases };
        assert forall|j: int| 0 <= j < NUM_DATABASES implies #[trigger] r@[j] == Map::<Seq<char>, EntryModel>::empty() by {
            assert(r@[j] =~= Map::<Seq<char>, EntryModel>::empty());
        }
        r
    }

    /// The first phase of a read, under shared access: the value of `key`
    /// in namespace `db_id` if it has not expired at `now`, or word that it
    /// has expired.
    pub fn lookup(&self, db_id: usize, key: &String, now: u128) -> (r: Lookup)
        requires
            self.wf(),
        ensures
            match r {
                Lookup::Found(v) => read_value(self@, db_id as nat, key@, now as nat) == Some(v@),
                Lookup::Expired => read_value(self@, db_id as nat, key@, now as nat) is None
                    && db_id < NUM_DATABASES && self@[db_id as int].contains_key(key@),
                Lookup::Missing => read_value(self@, db_id as nat, key@, now as nat) is None
                    && !(db_id < NUM_DATABASES && self@[db_id as int].contains_key(key@)),
            },
    {
        if db_id >= NUM_DATABASES {
            return Lookup::Missing;
        }
        let ghost t = self.databases@[db_id as int];
        match self.databases[db_id].get(key) {
            Some(entry) => {
                let expired = match entry.gone_at {
                    Some(t) => t <= now,
                    None => false,
                };
                if expired {
                    Lookup::Expired
                } else {
                    Lookup::Found(entry.value.duplicate())
                }
            },
            None => Lookup::Missing,
        }
    }

    /// The second phase of a read, under exclusive access: removes `key`
    /// from namespace `db_id`. A key that is already gone is no error.
    pub fn evict(&mut self, db_id: usize, key: &String)
        requires
            old(self).wf(),
        ensures
            final(self).wf(),
            final(self)@.len() == NUM_DATABASES,
            final(self)@ == after_evict(old(self)@, db_id as nat, key@),
    {
        if db_id < NUM_DATABASES {
            self.databases[db_id].remove(key);
            proof {
                assert(self.databases@[db_id as int]@.map_values(|e: CacheEntry| e@)
                    =~= old(self)@[db_id as int].remove(key@));
                assert(self@ =~= after_evict(old(self)@, db_id as nat, key@));
            }
        } else {
            assert(self@ =~= after_evict(old(self)@, db_id as nat, key@));
        }
    }

    /// A read that runs both phases in turn, for a caller that holds the
    /// store alone.
    pub fn get(&mut self, db_id: usize, key: &String, now: u128) -> (r: Option<DataType>)
        requires
            old(self).wf(),
        ensures
            final(self).wf(),
            final(self)@.len() == NUM_DATABASES,
            match r {
                Some(v) => read_value(old(self)@, db_id as nat, key@, now as nat) == Some(v@),
                None => read_value(old(self)@, db_id as nat, key@, now as nat) is None,
            },
            read_value(old(self)@, db_id as nat, key@, now as nat) is None ==> final(self)@ == after_evict(old(self)@, db_id as nat, key@),
            read_value(old(self)@, db_id as nat, key@, now as nat) is Some ==> final(self)@ == old(self)@,
    {
        match self.lookup(db_id, key, now) {
            Lookup::Found(v) => Some(v),
            Lookup::Expired => {
                self.evict(db_id, key);
                None
            },
            Lookup::Missing => {
                proof {
                    if db_id < NUM_DATABASES {
                        assert(old(self)@[db_id as int].remove(key@) =~= old(self)@[db_id as int]);
                        assert(old(self)@.update(db_id as int, old(self)@[db_id as int]) =~= old(self)@);
                    }
                }
                None
            },
        }
    }

    /// Sets `key` in namespace `db_id` to the text `value`, expiring `ttl`
    /// nanoseconds after `now` if a `ttl` is given. Any earlier entry, and
    /// its expiry, is replaced. A namespace out of range is left alone.
    pub fn set(&mut self, db_id: usize, key: String, value: String, ttl: Option<u128>, now: u128)
        requires
            old(self).wf(),
        ensures
            final(self).wf(),
            final(self)@.len() == NUM_DATABASES,
            final(self)@ == after_set(old(self)@, db_id as nat, key@, value@,
                expiry_after(now as nat, match ttl { Some(t) => Some(t as nat), None => None })),
            ttl == Some(0u128) ==> forall|t: nat| t >= now ==> #[trigger] read_value(final(self)@, db_id as nat, key@, t) is None,
    {
        if db_id < NUM_DATABASES {
            let gone_at = match ttl {
                Some(0) => Some(now),
                Some(t) => Some(now.saturating_add(t).saturating_add(1)),
                None => None,
            };
            let ghost k = key@;
            let ghost v = value@;
            let entry = CacheEntry { gone_at, value: DataType::String(value) };
            let ghost em = entry@;
            self.databases[db_id].insert(key, entry);
            proof {
                assert(self.databases@[db_id as int]@.map_values(|e: CacheEntry| e@)
                    =~= old(self)@[db_id as int].insert(k, em));
                assert(self@ =~= old(self)@.update(db_id as int, old(self)@[db_id as int].insert(k, em)));
            }
        } else {
            assert(self@ =~= old(self)@);
        }
    }

    /// Replaces every namespace with what `data` holds for its index:
    /// the values, each with the expiry that the snapshot gave its key.
    /// Snapshot databases past the last namespace are not kept.
    pub fn load(&mut self, data: &RdbData)
        requires
            old(self).wf(),
            data.wf(),
        ensures
            final(self).wf(),
            final(self)@.len() == NUM_DATABASES,
            forall|db: int| 0 <= db < NUM_DATABASES ==> #[trigger] final(self)@[db] == loaded_namespace(data@, db),
    {
        let mut i: usize = 0;
        while i < NUM_DATABASES
            invariant
                i <= NUM_DATABASES,
                self.wf(),
                data.wf(),
                forall|db: int| 0 <= db < i ==> #[trigger] self@[db] == loaded_namespace(data@, db),
            decreases NUM_DATABASES - i,
        {
            let table = build_namespace(&data.databases[i], &data.expirations[i]);
            let ghost before = self@;
            self.databases.set(i, table);
            proof {
                let m = data@;
                let vals = data.databases@[i as int]@;
                let exps = data.expirations@[i as int]@;
                assert(m.databases[i as int] == vals.map_values(|d: DataType| d@));
                assert(m.expirations[i as int] == exps.map_values(|x: u64| x as nat));
                assert(self@[i as int] =~= loaded_namespace(m, i as int)) by {
                    assert forall|k: Seq<char>| #[trigger] self@[i as int].contains_key(k) implies self@[i as int][k]
                        == loaded_namespace(m, i as int)[k] by {
                        assert(table@.contains_key(k));
                        assert(table@[k]@ == loaded_entry(vals, exps, k));
                    }
                }
                assert forall|db: int| 0 <= db < i implies #[trigger] self@[db] == loaded_namespace(data@, db) by {
                    assert(self@[db] == before[db]);
                }
            }
            i = i + 1;
        }
    }

    /// The keys of namespace `db_id`, expired or not; `None` where the
    /// namespace does not exist.
    pub fn list_keys(&self, db_id: usize) -> (r: Option<Vec<String>>)
        requires
            self.wf(),
        ensures
            match r {
                Some(keys) => db_id < NUM_DATABASES
                    && (forall|i: int, j: int| 0 <= i < j < keys@.len() ==> keys@[i]@ != keys@[j]@)
                    && (forall|k: Seq<char>| self@[db_id as int].contains_key(k)
                        <==> exists|i: int| 0 <= i < keys@.len() && keys@[i]@ == k),
                None => db_id >= NUM_DATABASES,
            },
    {
        if db_id >= NUM_DATABASES {
            return None;
        }
        let keys = self.databases[db_id].keys();
        proof {
            let t = self.databases@[db_id as int];
            assert(self@[db_id as int] == t@.map_values(|e: CacheEntry| e@));
            assert forall|k: Seq<char>| self@[db_id as int].contains_key(k)
                <==> exists|i: int| 0 <= i < keys@.len() && keys@[i]@ == k by {
                assert(self@[db_id as int].contains_key(k) == t@.contains_key(k));
            }
            assert(forall|i: int, j: int| 0 <= i < j < keys@.len() ==> keys@[i]@ != keys@[j]@);
            assert(db_id < NUM_DATABASES);
        }
        Some(keys)
    }
}

} // verus!
