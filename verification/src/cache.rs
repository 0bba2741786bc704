//! Per-session price cache with a freshness window.
//!
//! Entries are keyed by (item, board); boards are compared trimmed and
//! ASCII-case-insensitively, so "cactuar" and "Cactuar" are one entry. Time
//! is handed in by the caller as milliseconds on any clock that only moves
//! forward.

use vstd::prelude::*;
use crate::text::{trim, trim_spec, lowercase_ascii, ascii_lower_seq, str_equal};

verus! {

/// How long a price snapshot stays fresh, in milliseconds: three minutes.
pub const DEFAULT_TTL_MS: u64 = 180_000;

/// A cached snapshot plus how stale it is.
pub struct Cached<V> {
    pub price: V,
    /// Milliseconds since the snapshot was stored.
    pub age_ms: u64,
}

impl<V> Cached<V> {
    /// Younger than `ttl_ms`.
    pub fn is_fresh(&self, ttl_ms: u64) -> (r: bool)
        ensures
            r == (self.age_ms < ttl_ms),
    {
        self.age_ms < ttl_ms
    }
}

/// The key an (item, board) pair is filed under: the board trimmed and in
/// ASCII lower case.
pub open spec fn key_spec(item_id: u32, scope: Seq<char>) -> (u32, Seq<char>) {
    (item_id, ascii_lower_seq(trim_spec(scope)))
}

/// Milliseconds from `stored_at` to `now`; zero if `now` is earlier.
pub open spec fn age_spec(now_ms: u64, stored_at: u64) -> u64 {
    if now_ms >= stored_at {
        (now_ms - stored_at) as u64
    } else {
        0
    }
}

/// The key an (item, board) pair is filed under.
pub fn key(item_id: u32, scope: &str) -> (r: (u32, String))
    ensures
        r.0 == key_spec(item_id, scope@).0,
        r.1@ == key_spec(item_id, scope@).1,
{
    (item_id, lowercase_ascii(trim(scope)))
}

struct Entry<V> {
    item_id: u32,
    scope: String,
    stored_at: u64,
    price: V,
}

spec fn entry_key<V>(e: Entry<V>) -> (u32, Seq<char>) {
    (e.item_id, e.scope@)
}

spec fn keys_of<V>(es: Seq<Entry<V>>) -> Seq<(u32, Seq<char>)> {
    es.map_values(|e: Entry<V>| entry_key(e))
}

spec fn slot_of<V>(es: Seq<Entry<V>>, k: (u32, Seq<char>)) -> int {
    choose|i: int| 0 <= i < es.len() && entry_key(es[i]) == k
}

spec fn map_of<V>(es: Seq<Entry<V>>) -> Map<(u32, Seq<char>), (u64, V)> {
    Map::new(
        |k: (u32, Seq<char>)| keys_of(es).contains(k),
        |k: (u32, Seq<char>)| (es[slot_of(es, k)].stored_at, es[slot_of(es, k)].price),
    )
}

proof fn lemma_slot<V>(es: Seq<Entry<V>>, i: int)
    requires
        keys_of(es).no_duplicates(),
        0 <= i < es.len(),
    ensures
        slot_of(es, entry_key(es[i])) == i,
        keys_of(es).contains(entry_key(es[i])),
        map_of(es)[entry_key(es[i])] == (es[i].stored_at, es[i].price),
{
    let k = entry_key(es[i]);
    assert(keys_of(es)[i] == k);
    let j = slot_of(es, k);
    assert(0 <= j < es.len() && entry_key(es[j]) == k);
    assert(keys_of(es)[j] == k);
}

/// Price snapshots by (item, board), each with the time it was stored.
pub struct PriceCache<V> {
    entries: Vec<Entry<V>>,
    ttl_ms: u64,
}

impl<V> View for PriceCache<V> {
    type V = Map<(u32, Seq<char>), (u64, V)>;

    /// Each key's storing time and snapshot.
    closed spec fn view(&self) -> Map<(u32, Seq<char>), (u64, V)> {
        map_of(self.entries@)
    }
}

impl<V> PriceCache<V> {
    #[verifier::type_invariant]
    spec fn keys_unique(self) -> bool {
        keys_of(self.entries@).no_duplicates()
    }

    /// The freshness window, in milliseconds.
    pub closed spec fn ttl_spec(&self) -> u64 {
        self.ttl_ms
    }

    /// An empty cache whose snapshots stay fresh for `ttl_ms`.
    pub fn new(ttl_ms: u64) -> (r: Self)
        ensures
            r@ == Map::<(u32, Seq<char>), (u64, V)>::empty(),
            r.ttl_spec() == ttl_ms,
    {
        let r = PriceCache { entries: Vec::new(), ttl_ms };
        assert(map_of(r.entries@) =~= Map::<(u32, Seq<char>), (u64, V)>::empty());
        r
    }

    /// The freshness window, in milliseconds.
    pub fn ttl(&self) -> (r: u64)
        ensures
            r == self.ttl_spec(),
    {
        self.ttl_ms
    }

    fn find(&self, item_id: u32, normalized: &str) -> (r: Option<usize>)
        ensures
            r matches Some(i) ==> i < self.entries@.len() && entry_key(self.entries@[i as int]) == (
                item_id,
                normalized@,
            ),
            r is None ==> !keys_of(self.entries@).contains((item_id, normalized@)),
    {
        let mut i: usize = 0;
        while i < self.entries.len()
            invariant
                i <= self.entries@.len(),
                forall|j: int| 0 <= j < i ==> entry_key(self.entries@[j]) != (item_id, normalized@),
            decreases self.entries@.len() - i,
        {
            if self.entries[i].item_id == item_id && str_equal(self.entries[i].scope.as_str(), normalized) {
                return Some(i);
            }
            i += 1;
        }
        proof {
            if keys_of(self.entries@).contains((item_id, normalized@)) {
                let j = choose|j: int| 0 <= j < keys_of(self.entries@).len() && keys_of(self.entries@)[j] == (item_id, normalized@);
                assert(entry_key(self.entries@[j]) == (item_id, normalized@));
            }
        }
        None
    }

    /// Store a snapshot for (item, board) taken at `now_ms`, replacing any
    /// earlier one for the same pair.
    pub fn insert(&mut self, item_id: u32, scope: &str, price: V, now_ms: u64)
        ensures
            final(self)@ == old(self)@.insert(key_spec(item_id, scope@), (now_ms, price)),
            final(self).ttl_spec() == old(self).ttl_spec(),
    {
        proof {
            use_type_invariant(&*self);
        }
        let (id, normalized) = key(item_id, scope);
        let ghost k = key_spec(item_id, scope@);
        let ghost old_es = self.entries@;
        let entry = Entry { item_id: id, scope: normalized, stored_at: now_ms, price };
        match self.find(id, entry.scope.as_str()) {
            Some(i) => {
                let mut es: Vec<Entry<V>> = Vec::new();
                std::mem::swap(&mut es, &mut self.entries);
                es.set(i, entry);
                proof {
                    let es = es@;
                    assert(keys_of(es) =~= keys_of(old_es).update(i as int, k));
                    assert(keys_of(es).no_duplicates()) by {
                        assert forall|a: int, b: int| 0 <= a < b < keys_of(es).len() implies keys_of(es)[a] != keys_of(es)[b] by {
                            if a != i && b != i {
                                assert(keys_of(old_es)[a] != keys_of(old_es)[b]);
                            } else if a == i {
                                assert(keys_of(old_es)[a] != keys_of(old_es)[b]);
                            } else {
                                assert(keys_of(old_es)[a] != keys_of(old_es)[b]);
                            }
                        }
                    }
                    assert forall|q: (u32, Seq<char>)| #[trigger] map_of(es).contains_key(q) <==> map_of(old_es).insert(k, (now_ms, entry.price)).contains_key(q) by {
                        if q == k {
                            assert(keys_of(es)[i as int] == k);
                        } else if keys_of(old_es).contains(q) {
                            let j = choose|j: int| 0 <= j < keys_of(old_es).len() && keys_of(old_es)[j] == q;
                            assert(keys_of(es)[j] == q);
                        } else if keys_of(es).contains(q) {
                            let j = choose|j: int| 0 <= j < keys_of(es).len() && keys_of(es)[j] == q;
                            assert(keys_of(old_es)[j] == q);
                        }
                    }
                    assert forall|q: (u32, Seq<char>)| #[trigger] map_of(es).contains_key(q) implies map_of(es)[q] == map_of(old_es).insert(k, (now_ms, entry.price))[q] by {
                        let j = choose|j: int| 0 <= j < keys_of(es).len() && keys_of(es)[j] == q;
                        lemma_slot(es, j);
                        if q != k {
                            assert(keys_of(old_es)[j] == q);
                            lemma_slot(old_es, j);
                        }
                    }
                    assert(map_of(es) =~= map_of(old_es).insert(k, (now_ms, entry.price)));
                }
                self.entries = es;
            },
            None => {
                let mut es: Vec<Entry<V>> = Vec::new();
                std::mem::swap(&mut es, &mut self.entries);
                es.push(entry);
                proof {
                    let es = es@;
                    assert(keys_of(es) =~= keys_of(old_es).push(k));
                    assert forall|q: (u32, Seq<char>)| #[trigger] map_of(es).contains_key(q) <==> map_of(old_es).insert(k, (now_ms, entry.price)).contains_key(q) by {
                        if q == k {
                            assert(keys_of(es)[old_es.len() as int] == k);
                        } else if keys_of(old_es).contains(q) {
                            let j = choose|j: int| 0 <= j < keys_of(old_es).len() && keys_of(old_es)[j] == q;
                            assert(keys_of(es)[j] == q);
                        } else if keys_of(es).contains(q) {
                            let j = choose|j: int| 0 <= j < keys_of(es).len() && keys_of(es)[j] == q;
                            assert(keys_of(old_es)[j] == q);
                        }
                    }
                    assert forall|q: (u32, Seq<char>)| #[trigger] map_of(es).contains_key(q) implies map_of(es)[q] == map_of(old_es).insert(k, (now_ms, entry.price))[q] by {
                        let j = choose|j: int| 0 <= j < keys_of(es).len() && keys_of(es)[j] == q;
                        lemma_slot(es, j);
                        if q != k {
                            assert(keys_of(old_es)[j] == q);
                            lemma_slot(old_es, j);
                        }
                    }
                    assert(map_of(es) =~= map_of(old_es).insert(k, (now_ms, entry.price)));
                }
                self.entries = es;
            },
        }
    }

    /// The snapshot for (item, board) if one is stored, however stale, with
    /// its age at `now_ms`.
    pub fn peek(&self, item_id: u32, scope: &str, now_ms: u64) -> (r: Option<Cached<V>>)
        where V: Clone,
        ensures
            r is Some <==> self@.contains_key(key_spec(item_id, scope@)),
            r matches Some(c) ==> {
                let (stored_at, price) = self@[key_spec(item_id, scope@)];
                &&& c.age_ms == age_spec(now_ms, stored_at)
                &&& cloned(price, c.price)
            },
    {
        proof {
            use_type_invariant(self);
        }
        let (id, normalized) = key(item_id, scope);
        match self.find(id, normalized.as_str()) {
            Some(i) => {
                proof {
                    lemma_slot(self.entries@, i as int);
                }
                let stored_at = self.entries[i].stored_at;
                let age_ms = if now_ms >= stored_at { now_ms - stored_at } else { 0 };
                Some(Cached { price: self.entries[i].price.clone(), age_ms })
            },
            None => None,
        }
    }

    /// The snapshot for (item, board) only while it is fresh: stored less
    /// than the freshness window before `now_ms`.
    pub fn get(&self, item_id: u32, scope: &str, now_ms: u64) -> (r: Option<V>)
        where V: Clone,
        ensures
            r is Some <==> self@.contains_key(key_spec(item_id, scope@)) && age_spec(
                now_ms,
                self@[key_spec(item_id, scope@)].0,
            ) < self.ttl_spec(),
            r matches Some(p) ==> cloned(self@[key_spec(item_id, scope@)].1, p),
    {
        match self.peek(item_id, scope, now_ms) {
            Some(c) => {
                if c.is_fresh(self.ttl_ms) {
                    Some(c.price)
                } else {
                    None
                }
            },
            None => None,
        }
    }

    /// Drop the snapshot for (item, board), if any, so the next lookup goes
    /// to the network.
    pub fn invalidate(&mut self, item_id: u32, scope: &str)
        ensures
            final(self)@ == old(self)@.remove(key_spec(item_id, scope@)),
            final(self).ttl_spec() == old(self).ttl_spec(),
    {
        proof {
            use_type_invariant(&*self);
        }
        let (id, normalized) = key(item_id, scope);
        let ghost k = key_spec(item_id, scope@);
        let ghost old_es = self.entries@;
        match self.find(id, normalized.as_str()) {
            Some(i) => {
                let mut es: Vec<Entry<V>> = Vec::new();
                std::mem::swap(&mut es, &mut self.entries);
                es.remove(i);
                proof {
                    let es = es@;
                    assert(keys_of(es) =~= keys_of(old_es).remove(i as int));
                    assert(keys_of(es).no_duplicates()) by {
                        assert forall|a: int, b: int| 0 <= a < b < keys_of(es).len() implies keys_of(es)[a] != keys_of(es)[b] by {
                            let a0 = if a < i { a } else { a + 1 };
                            let b0 = if b < i { b } else { b + 1 };
                            assert(keys_of(es)[a] == keys_of(old_es)[a0]);
                            assert(keys_of(es)[b] == keys_of(old_es)[b0]);
                        }
                    }
                    assert forall|q: (u32, Seq<char>)| #[trigger] map_of(es).contains_key(q) <==> map_of(old_es).remove(k).contains_key(q) by {
                        if keys_of(es).contains(q) {
                            let j = choose|j: int| 0 <= j < keys_of(es).len() && keys_of(es)[j] == q;
                            let j0 = if j < i { j } else { j + 1 };
                            assert(keys_of(old_es)[j0] == q);
                            assert(keys_of(old_es)[i as int] == k);
                        }
                        if q != k && keys_of(old_es).contains(q) {
                            let j = choose|j: int| 0 <= j < keys_of(old_es).len() && keys_of(old_es)[j] == q;
                            assert(j != i);
                            let j1 = if j < i { j } else { j - 1 };
                            assert(keys_of(es)[j1] == q);
                        }
                    }
                    assert forall|q: (u32, Seq<char>)| #[trigger] map_of(es).contains_key(q) implies map_of(es)[q] == map_of(old_es).remove(k)[q] by {
                        let j = choose|j: int| 0 <= j < keys_of(es).len() && keys_of(es)[j] == q;
                        let j0 = if j < i { j } else { j + 1 };
                        lemma_slot(es, j);
                        assert(keys_of(old_es)[j0] == q);
                        lemma_slot(old_es, j0);
                    }
                    assert(map_of(es) =~= map_of(old_es).remove(k));
                }
                self.entries = es;
            },
            None => {
                assert(map_of(old_es).remove(k) =~= map_of(old_es));
            },
        }
    }

    /// Drop every snapshot: they were all taken for boards that changed.
    pub fn clear(&mut self)
        ensures
            final(self)@ == Map::<(u32, Seq<char>), (u64, V)>::empty(),
            final(self).ttl_spec() == old(self).ttl_spec(),
    {
        self.entries = Vec::new();
        assert(map_of(self.entries@) =~= Map::<(u32, Seq<char>), (u64, V)>::empty());
    }

    /// How many (item, board) pairs hold a snapshot.
    pub fn len(&self) -> (r: usize)
        ensures
            r == self@.len(),
    {
        proof {
            use_type_invariant(self);
            let es = self.entries@;
            assert(map_of(es).dom() =~= keys_of(es).to_set());
            keys_of(es).unique_seq_to_set();
        }
        self.entries.len()
    }

    /// No snapshot is stored.
    pub fn is_empty(&self) -> (r: bool)
        ensures
            r == (self@.len() == 0),
    {
        self.len() == 0
    }
}

impl<V> Default for PriceCache<V> {
    /// An empty cache with the three-minute freshness window.
    fn default() -> (r: Self)
        ensures
            r@ == Map::<(u32, Seq<char>), (u64, V)>::empty(),
            r.ttl_spec() == DEFAULT_TTL_MS,
    {
        Self::new(DEFAULT_TTL_MS)
    }
}

/// A snapshot stored at `stored_at` is fresh at `now_ms` exactly while
/// fewer than `ttl_ms` milliseconds have passed: a read right after a write
/// hits (for any window above zero), and once the window has passed only a
/// peek still finds it.
pub proof fn law_fresh_within_window<V>(
    entries: Map<(u32, Seq<char>), (u64, V)>,
    item_id: u32,
    scope: Seq<char>,
    price: V,
    stored_at: u64,
    now_ms: u64,
    ttl_ms: u64,
)
    requires
        stored_at <= now_ms,
    ensures
        ({
            let k = key_spec(item_id, scope);
            let after = entries.insert(k, (stored_at, price));
            &&& after.contains_key(k)
            &&& after[k] == (stored_at, price)
            &&& (age_spec(now_ms, after[k].0) < ttl_ms <==> now_ms - stored_at < ttl_ms)
            &&& (ttl_ms > 0 ==> age_spec(stored_at, after[k].0) < ttl_ms)
        }),
{
}

/// Boards are told apart trimmed and ignoring ASCII case: two spellings
/// that agree that way file under one key, for every item.
pub proof fn law_keys_ignore_case_and_blanks(item_id: u32, a: Seq<char>, b: Seq<char>)
    requires
        ascii_lower_seq(trim_spec(a)) == ascii_lower_seq(trim_spec(b)),
    ensures
        key_spec(item_id, a) == key_spec(item_id, b),
{
}

/// Dropping one (item, board) leaves every other snapshot in place and that
/// one gone.
pub proof fn law_invalidate_drops_only_its_key<V>(
    entries: Map<(u32, Seq<char>), (u64, V)>,
    item_id: u32,
    scope: Seq<char>,
    other: (u32, Seq<char>),
)
    requires
        other != key_spec(item_id, scope),
    ensures
        !entries.remove(key_spec(item_id, scope)).contains_key(key_spec(item_id, scope)),
        entries.remove(key_spec(item_id, scope)).contains_key(other) == entries.contains_key(other),
        entries.contains_key(other) ==> entries.remove(key_spec(item_id, scope))[other] == entries[other],
{
}

} // verus!
