//! The in-memory key-value store with per-key expiry, and its read-only
//! configuration table.
//!
//! Time enters every operation as an explicit millisecond reading of the
//! caller's monotonic clock, so the store itself is pure and every operation
//! is verified for all clock values.

use vstd::prelude::*;
use vstd::seq_lib::*;

use crate::text::str_eq;

verus! {

/// Expiry bookkeeping for one entry: the clock reading at the write and the
/// time to live, both in milliseconds.
#[derive(Clone, Copy, Debug)]
pub struct Px {
    pub instant: u64,
    pub miliseconds: u128,
}

/// Whether the deadline of `px` lies strictly in the past at `now`.
pub open spec fn px_expired(px: Px, now: int) -> bool {
    now > px.instant + px.miliseconds
}

impl Px {
    /// An expiry of `miliseconds` starting at the clock reading `now_ms`.
    pub fn new(miliseconds: u128, now_ms: u64) -> (r: Self)
        ensures
            r == (Px { instant: now_ms, miliseconds }),
    {
        Self { instant: now_ms, miliseconds }
    }

    /// Strict comparison: the entry expires only after its exact deadline.
    pub fn has_expired(&self, now_ms: u64) -> (r: bool)
        ensures
            r == px_expired(*self, now_ms as int),
    {
        now_ms > self.instant && (now_ms - self.instant) as u128 > self.miliseconds
    }
}

/// A stored value together with its optional expiry.
#[derive(Debug)]
pub struct Value {
    pub value: String,
    pub px: Option<Px>,
}

/// Whether the entry's deadline, if it has one, lies strictly in the past.
pub open spec fn value_expired(v: Value, now: int) -> bool {
    match v.px {
        Some(px) => px_expired(px, now),
        None => false,
    }
}

impl Value {
    /// A value that never expires.
    pub fn new(value: String) -> (r: Self)
        ensures
            r.value == value,
            r.px is None,
    {
        Self { value, px: None }
    }

    /// Attaches an expiry of `miliseconds`, measured from `now_ms`.
    pub fn with_px(&mut self, miliseconds: u128, now_ms: u64)
        ensures
            final(self).value == old(self).value,
            final(self).px == Some(Px { instant: now_ms, miliseconds }),
    {
        let px = Px::new(miliseconds, now_ms);
        self.px = Some(px);
    }

    /// Whether this entry's deadline lies strictly in the past.
    pub fn has_expired(&self, now_ms: u64) -> (r: bool)
        ensures
            r == value_expired(*self, now_ms as int),
    {
        match &self.px {
            Some(px) => px.has_expired(now_ms),
            None => false,
        }
    }
}

/// An exact copy of an entry.
fn clone_value(v: &Value) -> (r: Value)
    ensures
        r == *v,
{
    let r = Value { value: v.value.clone(), px: v.px };
    proof {
        assert(r == *v);
    }
    r
}

/// What one entry means: the stored text and its expiry, if any.
#[verifier::ext_equal]
pub struct EntryModel {
    pub value: Seq<char>,
    pub px: Option<Px>,
}

/// Whether the modelled entry's deadline lies strictly in the past.
pub open spec fn entry_expired(e: EntryModel, now: int) -> bool {
    match e.px {
        Some(px) => px_expired(px, now),
        None => false,
    }
}

/// The model of a concrete entry.
pub open spec fn entry_model(v: Value) -> EntryModel {
    EntryModel { value: v.value@, px: v.px }
}

/// The entry stored under `key`, scanning the newest binding first.
pub open spec fn slookup(entries: Seq<(String, Value)>, key: Seq<char>) -> Option<(String, Value)>
    decreases entries.len(),
{
    if entries.len() == 0 {
        None
    } else if entries.last().0@ == key {
        Some(entries.last())
    } else {
        slookup(entries.drop_last(), key)
    }
}

/// No two entries share a key.
pub open spec fn keys_unique(entries: Seq<(String, Value)>) -> bool {
    forall|i: int, j: int|
        0 <= i < j < entries.len() ==> (#[trigger] entries[i]).0@ != (#[trigger] entries[j]).0@
}

/// What `set` does to the store's model.
pub open spec fn set_model(
    m: Map<Seq<char>, EntryModel>,
    key: Seq<char>,
    value: Seq<char>,
    px: Option<Px>,
) -> Map<Seq<char>, EntryModel> {
    m.insert(key, EntryModel { value, px })
}

/// What `get` returns against the store's model: the value exactly when the
/// key is present and not past its deadline.
pub open spec fn get_model(m: Map<Seq<char>, EntryModel>, key: Seq<char>, now: int) -> Option<
    Seq<char>,
> {
    if m.contains_key(key) && !entry_expired(m[key], now) {
        Some(m[key].value)
    } else {
        None
    }
}

/// The read-only configuration table: a directory and a file name for the
/// (unimplemented) on-disk snapshot.
struct Config {
    rdb_dir: Option<String>,
    rdb_file_name: Option<String>,
}

impl Config {
    fn new() -> (r: Self)
        ensures
            r.rdb_dir is None,
            r.rdb_file_name is None,
    {
        Self { rdb_dir: None, rdb_file_name: None }
    }
}

/// The key-value store: a map from key to value-with-expiry, plus the
/// configuration table.
pub struct Store {
    cache: Vec<(String, Value)>,
    config: Config,
}

impl View for Store {
    type V = Map<Seq<char>, EntryModel>;

    /// The store as a map from key to entry model.
    closed spec fn view(&self) -> Map<Seq<char>, EntryModel> {
        Map::new(
            |k: Seq<char>| slookup(self.cache@, k) is Some,
            |k: Seq<char>|
                (match slookup(self.cache@, k) {
                    Some(p) => entry_model(p.1),
                    None => EntryModel { value: Seq::empty(), px: None },
                }),
        )
    }
}

/// A key bound at index `i` is what lookup finds, given unique keys.
proof fn lemma_slookup_at(entries: Seq<(String, Value)>, i: int)
    requires
        keys_unique(entries),
        0 <= i < entries.len(),
    ensures
        slookup(entries, entries[i].0@) == Some(entries[i]),
    decreases entries.len(),
{
    if i == entries.len() - 1 {
    } else {
        assert(entries.last().0@ != entries[i].0@);
        assert(keys_unique(entries.drop_last())) by {
            assert(forall|x: int, y: int|
                0 <= x < y < entries.drop_last().len() ==> (#[trigger] entries.drop_last()[x])
                    == entries[x] && (#[trigger] entries.drop_last()[y]) == entries[y]);
        }
        assert(entries.drop_last()[i] == entries[i]);
        lemma_slookup_at(entries.drop_last(), i);
    }
}

/// Lookup fails exactly when no entry holds the key.
proof fn lemma_slookup_none(entries: Seq<(String, Value)>, key: Seq<char>)
    ensures
        (slookup(entries, key) is None) <==> (forall|i: int|
            0 <= i < entries.len() ==> (#[trigger] entries[i]).0@ != key),
    decreases entries.len(),
{
    if entries.len() == 0 {
    } else {
        let dl = entries.drop_last();
        lemma_slookup_none(dl, key);
        if entries.last().0@ == key {
            assert(entries[entries.len() - 1].0@ == key);
        } else {
            if slookup(entries, key) is None {
                assert forall|i: int| 0 <= i < entries.len() implies (#[trigger] entries[i]).0@
                    != key by {
                    if i < entries.len() - 1 {
                        assert(dl[i] == entries[i]);
                    } else {
                        assert(entries[i] == entries.last());
                    }
                }
            } else {
                assert(!(forall|x: int| 0 <= x < dl.len() ==> (#[trigger] dl[x]).0@ != key));
                let w = choose|x: int| 0 <= x < dl.len() && !((#[trigger] dl[x]).0@ != key);
                assert(entries[w] == dl[w]);
                assert(entries[w].0@ == key);
            }
        }
    }
}

/// What lookup finds holds the key it was asked for.
proof fn lemma_slookup_key(entries: Seq<(String, Value)>, key: Seq<char>)
    ensures
        (match slookup(entries, key) {
            Some(p) => p.0@ == key,
            None => true,
        }),
    decreases entries.len(),
{
    if entries.len() == 0 {
    } else if entries.last().0@ == key {
    } else {
        lemma_slookup_key(entries.drop_last(), key);
    }
}

/// Replacing the entry at `i` by one with the same key updates exactly that
/// key's binding and keeps keys unique.
proof fn lemma_slookup_update(entries: Seq<(String, Value)>, i: int, pair: (String, Value))
    requires
        keys_unique(entries),
        0 <= i < entries.len(),
        pair.0@ == entries[i].0@,
    ensures
        keys_unique(entries.update(i, pair)),
        forall|k: Seq<char>| #![auto]
            slookup(entries.update(i, pair), k) == (if k == pair.0@ {
                Some(pair)
            } else {
                slookup(entries, k)
            }),
    decreases entries.len(),
{
    let upd = entries.update(i, pair);
    assert(forall|x: int| 0 <= x < upd.len() ==> (#[trigger] upd[x]).0@ == entries[x].0@);
    assert(keys_unique(upd));
    if i == entries.len() - 1 {
        assert(upd.last() == pair);
        assert(upd.drop_last() =~= entries.drop_last());
        assert forall|k: Seq<char>| #![auto]
            slookup(upd, k) == (if k == pair.0@ {
                Some(pair)
            } else {
                slookup(entries, k)
            }) by {
            if k == pair.0@ {
            } else {
                assert(slookup(upd, k) == slookup(upd.drop_last(), k));
                assert(slookup(entries, k) == slookup(entries.drop_last(), k));
            }
        }
    } else {
        assert(keys_unique(entries.drop_last())) by {
            assert(forall|x: int|
                0 <= x < entries.drop_last().len() ==> (#[trigger] entries.drop_last()[x])
                    == entries[x]);
        }
        assert(entries.drop_last()[i] == entries[i]);
        lemma_slookup_update(entries.drop_last(), i, pair);
        assert(upd.last() == entries.last());
        assert(upd.drop_last() =~= entries.drop_last().update(i, pair));
        assert(entries.last().0@ != pair.0@);
        assert forall|k: Seq<char>| #![auto]
            slookup(upd, k) == (if k == pair.0@ {
                Some(pair)
            } else {
                slookup(entries, k)
            }) by {
            if k == upd.last().0@ {
            } else {
                assert(slookup(upd, k) == slookup(upd.drop_last(), k));
            }
        }
    }
}

/// Filtering entries keeps keys unique, and lookup afterwards finds exactly
/// the surviving bindings.
proof fn lemma_filter_slookup(entries: Seq<(String, Value)>, pred: spec_fn((String, Value)) -> bool)
    requires
        keys_unique(entries),
    ensures
        keys_unique(entries.filter(pred)),
        forall|k: Seq<char>| #![auto]
            slookup(entries.filter(pred), k) == (match slookup(entries, k) {
                Some(p) => if pred(p) {
                    Some(p)
                } else {
                    None
                },
                None => None,
            }),
    decreases entries.len(),
{
    reveal(Seq::filter);
    if entries.len() == 0 {
    } else {
        let l = entries.last();
        let dl = entries.drop_last();
        assert(keys_unique(dl)) by {
            assert(forall|x: int| 0 <= x < dl.len() ==> (#[trigger] dl[x]) == entries[x]);
        }
        lemma_filter_slookup(dl, pred);
        assert(forall|x: int| 0 <= x < dl.len() ==> (#[trigger] dl[x]) == entries[x]);
        assert(forall|x: int| 0 <= x < dl.len() ==> (#[trigger] dl[x]).0@ != l.0@);
        lemma_slookup_none(dl, l.0@);
        assert(slookup(dl, l.0@) is None);
        if pred(l) {
            let f = dl.filter(pred).push(l);
            assert(entries.filter(pred) == f);
            // keys of the filtered prefix exclude the last key
            lemma_slookup_none(dl.filter(pred), l.0@);
            assert(forall|x: int|
                0 <= x < dl.filter(pred).len() ==> (#[trigger] dl.filter(pred)[x]).0@ != l.0@);
            assert(forall|x: int|
                0 <= x < f.len() - 1 ==> (#[trigger] f[x]) == dl.filter(pred)[x]);
            assert(f.last() == l);
            assert(keys_unique(f));
            assert forall|k: Seq<char>| #![auto]
                slookup(f, k) == (match slookup(entries, k) {
                    Some(p) => if pred(p) {
                        Some(p)
                    } else {
                        None
                    },
                    None => None,
                }) by {
                if k == l.0@ {
                    assert(slookup(entries, k) == Some(l));
                } else {
                    assert(f.drop_last() =~= dl.filter(pred));
                    assert(slookup(f, k) == slookup(dl.filter(pred), k));
                    assert(slookup(entries, k) == slookup(dl, k));
                }
            }
        } else {
            assert(entries.filter(pred) == dl.filter(pred));
            assert forall|k: Seq<char>| #![auto]
                slookup(entries.filter(pred), k) == (match slookup(entries, k) {
                    Some(p) => if pred(p) {
                        Some(p)
                    } else {
                        None
                    },
                    None => None,
                }) by {
                if k == l.0@ {
                    assert(slookup(entries, k) == Some(l));
                    lemma_slookup_none(dl.filter(pred), k);
                    assert(slookup(dl.filter(pred), k) is None);
                } else {
                    assert(slookup(entries, k) == slookup(dl, k));
                }
            }
        }
    }
}

/// The index holding `key`, if any.
fn find_key(cache: &Vec<(String, Value)>, key: &str) -> (r: Option<usize>)
    ensures
        (match r {
            Some(i) => i < cache@.len() && cache@[i as int].0@ == key@,
            None => forall|i: int| 0 <= i < cache@.len() ==> (#[trigger] cache@[i]).0@ != key@,
        }),
{
    let n = cache.len();
    let mut i: usize = 0;
    while i < n
        invariant
            i <= n,
            n == cache@.len(),
            forall|j: int| 0 <= j < i ==> (#[trigger] cache@[j]).0@ != key@,
        decreases n - i,
    {
        if str_eq(cache[i].0.as_str(), key) {
            return Some(i);
        }
        i = i + 1;
    }
    None
}

impl Store {
    /// Keys are stored at most once.
    pub closed spec fn wf(self) -> bool {
        keys_unique(self.cache@)
    }

    /// The configured snapshot directory, if any.
    pub closed spec fn dir_model(self) -> Option<Seq<char>> {
        match self.config.rdb_dir {
            Some(d) => Some(d@),
            None => None,
        }
    }

    /// The configured snapshot file name, if any.
    pub closed spec fn file_model(self) -> Option<Seq<char>> {
        match self.config.rdb_file_name {
            Some(f) => Some(f@),
            None => None,
        }
    }

    /// An empty store with an empty configuration.
    pub fn new() -> (r: Self)
        ensures
            r.wf(),
            r@ == Map::<Seq<char>, EntryModel>::empty(),
            r.dir_model() is None,
            r.file_model() is None,
    {
        let cache: Vec<(String, Value)> = Vec::new();
        let r = Self { cache, config: Config::new() };
        proof {
            assert(r@ =~= Map::<Seq<char>, EntryModel>::empty());
        }
        r
    }

    /// Inserts or overwrites the entry for `key`. A `px` of `ms` sets the
    /// deadline `now_ms + ms`; no `px` makes the entry persistent, whatever
    /// expiry an overwritten entry carried.
    pub fn set(&mut self, key: String, value: String, px: Option<u128>, now_ms: u64)
        requires
            old(self).wf(),
        ensures
            final(self).wf(),
            final(self)@ == set_model(
                old(self)@,
                key@,
                value@,
                (match px {
                    Some(ms) => Some(Px { instant: now_ms, miliseconds: ms }),
                    None => None,
                }),
            ),
            final(self).dir_model() == old(self).dir_model(),
            final(self).file_model() == old(self).file_model(),
    {
        let mut entry = Value::new(value);
        if let Some(ms) = px {
            entry.with_px(ms, now_ms);
        }
        let ghost target = set_model(
            old(self)@,
            key@,
            value@,
            (match px {
                Some(ms) => Some(Px { instant: now_ms, miliseconds: ms }),
                None => None,
            }),
        );
        match find_key(&self.cache, key.as_str()) {
            Some(i) => {
                proof {
                    lemma_slookup_update(self.cache@, i as int, (key, entry));
                }
                self.cache[i] = (key, entry);
                proof {
                    assert(self@ =~= target);
                }
            },
            None => {
                proof {
                    lemma_slookup_none(self.cache@, key@);
                }
                let ghost before = self.cache@;
                self.cache.push((key, entry));
                proof {
                    assert(self.cache@.drop_last() =~= before);
                    assert(self.cache@.last() == (key, entry));
                    assert(forall|x: int|
                        0 <= x < before.len() ==> (#[trigger] self.cache@[x]) == before[x]);
                    assert(keys_unique(self.cache@));
                    assert forall|k: Seq<char>| #![auto]
                        slookup(self.cache@, k) == (if k == key@ {
                            Some((key, entry))
                        } else {
                            slookup(before, k)
                        }) by {
                        if k != key@ {
                            assert(slookup(self.cache@, k) == slookup(
                                self.cache@.drop_last(),
                                k,
                            ));
                        }
                    }
                    assert(self@ =~= target);
                }
            },
        }
    }

    /// Reads `key`: its value, unless the key is absent or its deadline lies
    /// strictly in the past at `now_ms` (the expired entry is left in place;
    /// the sweeper reclaims it).
    pub fn get(&self, key: &str, now_ms: u64) -> (r: Option<&String>)
        requires
            self.wf(),
        ensures
            (match r {
                Some(s) => get_model(self@, key@, now_ms as int) == Some(s@),
                None => get_model(self@, key@, now_ms as int) is None,
            }),
    {
        match find_key(&self.cache, key) {
            Some(i) => {
                proof {
                    lemma_slookup_at(self.cache@, i as int);
                }
                let entry = &self.cache[i].1;
                if entry.has_expired(now_ms) {
                    None
                } else {
                    Some(&entry.value)
                }
            },
            None => {
                proof {
                    lemma_slookup_none(self.cache@, key@);
                }
                None
            },
        }
    }

    /// Removes, in one pass, exactly the entries whose deadline lies
    /// strictly in the past at `now_ms`; every other entry is untouched.
    #[verifier::loop_isolation(false)]
    pub fn clean_expired_keys(&mut self, now_ms: u64)
        requires
            old(self).wf(),
        ensures
            final(self).wf(),
            forall|k: Seq<char>| #![auto]
                final(self)@.contains_key(k) <==> (old(self)@.contains_key(k) && !entry_expired(
                    old(self)@[k],
                    now_ms as int,
                )),
            forall|k: Seq<char>| #![auto]
                final(self)@.contains_key(k) ==> final(self)@[k] == old(self)@[k],
            final(self).dir_model() == old(self).dir_model(),
            final(self).file_model() == old(self).file_model(),
    {
        let ghost pred = |p: (String, Value)| !value_expired(p.1, now_ms as int);
        let n = self.cache.len();
        let mut kept: Vec<(String, Value)> = Vec::new();
        let mut i: usize = 0;
        proof {
            reveal(Seq::filter);
            assert(self.cache@.subrange(0, 0).filter(pred) =~= Seq::<(String, Value)>::empty());
            assert(kept@ =~= self.cache@.subrange(0, 0).filter(pred));
        }
        while i < n
            invariant
                i <= n,
                kept@ == self.cache@.subrange(0, i as int).filter(pred),
            decreases n - i,
        {
            let p = &self.cache[i];
            let keep = !p.1.has_expired(now_ms);
            proof {
                reveal(Seq::filter);
                let sub = self.cache@.subrange(0, i + 1);
                assert(sub.drop_last() =~= self.cache@.subrange(0, i as int));
                assert(sub.last() == self.cache@[i as int]);
            }
            if keep {
                kept.push((p.0.clone(), clone_value(&p.1)));
                proof {
                    let cur = self.cache@[i as int];
                    assert((cur.0, cur.1) == cur);
                    assert(kept@ =~= self.cache@.subrange(0, i + 1).filter(pred));
                }
            } else {
                proof {
                    assert(kept@ =~= self.cache@.subrange(0, i + 1).filter(pred));
                }
            }
            i = i + 1;
        }
        proof {
            assert(self.cache@.subrange(0, n as int) =~= self.cache@);
            lemma_filter_slookup(self.cache@, pred);
        }
        let ghost before = self.cache@;
        self.cache = kept;
        proof {
            assert(self.cache@ == before.filter(pred));
            assert forall|k: Seq<char>| #![auto]
                self@.contains_key(k) <==> (old(self)@.contains_key(k) && !entry_expired(
                    old(self)@[k],
                    now_ms as int,
                )) by {
                lemma_slookup_key(before, k);
            }
            assert forall|k: Seq<char>| #![auto]
                self@.contains_key(k) implies self@[k] == old(self)@[k] by {
                lemma_slookup_key(before, k);
            }
        }
    }

    /// Records the snapshot directory in the configuration table.
    pub fn set_rdb_dir(&mut self, rdb_dir: String)
        requires
            old(self).wf(),
        ensures
            final(self).wf(),
            final(self)@ == old(self)@,
            final(self).dir_model() == Some(rdb_dir@),
            final(self).file_model() == old(self).file_model(),
    {
        self.config.rdb_dir = Some(rdb_dir);
        proof {
            assert(self@ =~= old(self)@);
        }
    }

    /// Records the snapshot file name in the configuration table.
    pub fn set_rdb_file_name(&mut self, rdb_file_name: String)
        requires
            old(self).wf(),
        ensures
            final(self).wf(),
            final(self)@ == old(self)@,
            final(self).dir_model() == old(self).dir_model(),
            final(self).file_model() == Some(rdb_file_name@),
    {
        self.config.rdb_file_name = Some(rdb_file_name);
        proof {
            assert(self@ =~= old(self)@);
        }
    }

    /// Looks `key` up in the configuration table: `dir` and `dbfilename`
    /// resolve to their configured values; every other key resolves to
    /// nothing.
    pub fn get_config(&self, key: &str) -> (r: Option<&String>)
        ensures
            ((match r {
                Some(s) => Some(s@),
                None => None::<Seq<char>>,
            })) == (if key@ == "dir"@ {
                self.dir_model()
            } else if key@ == "dbfilename"@ {
                self.file_model()
            } else {
                None::<Seq<char>>
            }),
    {
        if str_eq(key, "dir") {
            match &self.config.rdb_dir {
                Some(d) => Some(d),
                None => None,
            }
        } else if str_eq(key, "dbfilename") {
            match &self.config.rdb_file_name {
                Some(f) => Some(f),
                None => None,
            }
        } else {
            None
        }
    }
}

/// Law: a key just written without expiry reads back at any later time, and
/// a key the store does not hold reads back as nothing.
pub proof fn lemma_set_then_get(
    m: Map<Seq<char>, EntryModel>,
    k: Seq<char>,
    v: Seq<char>,
    t: int,
    absent: Seq<char>,
)
    requires
        !m.contains_key(absent),
    ensures
        get_model(set_model(m, k, v, None), k, t) == Some(v),
        get_model(m, absent, t) is None,
{
}

/// Law: a key written with expiry `ms` at clock reading `now` reads back at
/// every time up to and including `now + ms`, and as nothing after that.
pub proof fn lemma_set_px_get(
    m: Map<Seq<char>, EntryModel>,
    k: Seq<char>,
    v: Seq<char>,
    ms: u128,
    now: u64,
    t: int,
)
    ensures
        t <= now + ms ==> get_model(
            set_model(m, k, v, Some(Px { instant: now, miliseconds: ms })),
            k,
            t,
        ) == Some(v),
        t > now + ms ==> get_model(
            set_model(m, k, v, Some(Px { instant: now, miliseconds: ms })),
            k,
            t,
        ) is None,
{
}

/// Law: re-writing a key without `PX` clears a previously set expiry: the
/// key reads back at every later time, whatever expiry the first write set.
pub proof fn lemma_reset_clears_expiry(
    m: Map<Seq<char>, EntryModel>,
    k: Seq<char>,
    v1: Seq<char>,
    v2: Seq<char>,
    px: Option<Px>,
    t: int,
)
    ensures
        get_model(set_model(set_model(m, k, v1, px), k, v2, None), k, t) == Some(v2),
{
}

} // verus!
