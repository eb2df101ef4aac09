use vstd::prelude::*;

verus! {

/// One resident cache entry: a key, its cached value, and the weight
/// ("charge") it was inserted with.
pub struct Entry<V> {
    pub key: u64,
    pub value: V,
    pub charge: usize,
}

/// A capacity-bounded least-recently-used cache with weighted entries.
///
/// Residents are kept in `entries` in recency order: index 0 is the most
/// recently used, the last index the least recently used. `usage` is the sum
/// of the residents' charges. When `hook_enabled` is set, every entry that
/// leaves residency (overwrite, eviction under capacity pressure, or explicit
/// erase) is appended to `events`, the eviction hook's log; entries still
/// resident when the cache is dropped are not logged.
pub struct LruCache<V> {
    pub capacity: usize,
    pub usage: usize,
    pub entries: Vec<Entry<V>>,
    pub hook_enabled: bool,
    pub events: Vec<(u64, V)>,
}

/// The total charge of a run of entries.
pub open spec fn sum_charge<V>(s: Seq<Entry<V>>) -> int
    decreases s.len(),
{
    if s.len() == 0 {
        0
    } else {
        sum_charge(s.drop_last()) + s.last().charge
    }
}

/// No key occurs twice.
pub open spec fn distinct_keys<V>(s: Seq<Entry<V>>) -> bool {
    forall|i: int, j: int| 0 <= i < j < s.len() ==> s[i].key != s[j].key
}

/// Some entry holds `key`.
pub open spec fn has_key<V>(s: Seq<Entry<V>>, key: u64) -> bool {
    exists|i: int| 0 <= i < s.len() && s[i].key == key
}

/// The position of the entry holding `key` (unique when keys are distinct).
pub open spec fn key_index<V>(s: Seq<Entry<V>>, key: u64) -> int {
    choose|i: int| 0 <= i < s.len() && s[i].key == key
}

/// The value cached under `key`.
pub open spec fn value_at<V>(s: Seq<Entry<V>>, key: u64) -> V {
    s[key_index(s, key)].value
}

/// The charge cached under `key`.
pub open spec fn charge_at<V>(s: Seq<Entry<V>>, key: u64) -> int {
    s[key_index(s, key)].charge as int
}

/// The residents left after the admission loop has made room under `cap`:
/// entries leave from the least-recently-used end while the total charge is
/// still at least `cap` and any resident remains.
pub open spec fn spec_evict<V>(s: Seq<Entry<V>>, cap: int) -> Seq<Entry<V>>
    decreases s.len(),
{
    if s.len() == 0 || sum_charge(s) < cap {
        s
    } else {
        spec_evict(s.drop_last(), cap)
    }
}

/// The `(key, value)` pairs displaced by that loop, in eviction order.
pub open spec fn spec_evict_events<V>(s: Seq<Entry<V>>, cap: int) -> Seq<(u64, V)>
    decreases s.len(),
{
    if s.len() == 0 || sum_charge(s) < cap {
        Seq::<(u64, V)>::empty()
    } else {
        seq![(s.last().key, s.last().value)] + spec_evict_events(s.drop_last(), cap)
    }
}

/// Entry `i` leaves its place and `e` takes the most-recently-used slot.
pub open spec fn promote_with<V>(s: Seq<Entry<V>>, i: int, e: Entry<V>) -> Seq<Entry<V>> {
    s.remove(i).insert(0, e)
}

/// The residents after `insert(key, value, charge)` on a cache holding `s`
/// with capacity `cap`: a no-op at capacity 0; an in-place overwrite plus
/// promotion when `key` is resident; otherwise eviction from the tail as
/// needed, then admission at the front.
pub open spec fn spec_insert<V>(
    s: Seq<Entry<V>>,
    cap: int,
    key: u64,
    value: V,
    charge: usize,
) -> Seq<Entry<V>> {
    if cap == 0 {
        s
    } else if has_key(s, key) {
        promote_with(s, key_index(s, key), (Entry { key, value, charge }))
    } else {
        spec_evict(s, cap).insert(0, (Entry { key, value, charge }))
    }
}

/// What `insert` returns: the displaced value on an overwrite, else `None`.
pub open spec fn spec_insert_ret<V>(s: Seq<Entry<V>>, cap: int, key: u64) -> Option<V> {
    if cap != 0 && has_key(s, key) {
        Some(value_at(s, key))
    } else {
        None::<V>
    }
}

/// The `(key, value)` pairs that `insert` displaces, in the order the
/// eviction hook observes them.
pub open spec fn spec_insert_events<V>(s: Seq<Entry<V>>, cap: int, key: u64) -> Seq<(u64, V)> {
    if cap == 0 {
        Seq::<(u64, V)>::empty()
    } else if has_key(s, key) {
        seq![(key, value_at(s, key))]
    } else {
        spec_evict_events(s, cap)
    }
}

/// The hook log only grows when the hook is enabled.
pub open spec fn logged<V>(enabled: bool, evs: Seq<(u64, V)>) -> Seq<(u64, V)> {
    if enabled {
        evs
    } else {
        Seq::<(u64, V)>::empty()
    }
}

/// The keys of a run of entries, in the same order.
pub open spec fn keys_of<V>(s: Seq<Entry<V>>) -> Seq<u64> {
    s.map_values(|e: Entry<V>| e.key)
}

/// The hash index is one entry per key, and exactly as large as the recency
/// list: over entries with distinct keys, the set of keys has the same
/// cardinality as the list.
pub proof fn lemma_index_matches_list<V>(s: Seq<Entry<V>>)
    requires
        distinct_keys(s),
    ensures
        keys_of(s).no_duplicates(),
        keys_of(s).to_set().len() == s.len(),
        forall|i: int, j: int|
            0 <= i < s.len() && 0 <= j < s.len() && s[i].key == s[j].key ==> i == j,
{
    assert forall|i: int, j: int|
        0 <= i < keys_of(s).len() && 0 <= j < keys_of(s).len() && i != j implies keys_of(s)[i]
        != keys_of(s)[j] by {
        assert(keys_of(s)[i] == s[i].key);
        assert(keys_of(s)[j] == s[j].key);
    }
    keys_of(s).unique_seq_to_set();
}

/// What the admission loop leaves holds strictly less total charge than the
/// capacity (it empties the cache if need be).
pub proof fn lemma_evict_bounds_sum<V>(s: Seq<Entry<V>>, cap: int)
    requires
        0 < cap,
    ensures
        sum_charge(spec_evict(s, cap)) < cap,
    decreases s.len(),
{
    if s.len() == 0 || sum_charge(s) < cap {
    } else {
        lemma_evict_bounds_sum(s.drop_last(), cap);
    }
}

/// An insert whose charge is at most 1 — and, on an overwrite, at most the
/// charge it replaces — keeps the total charge within a positive capacity if
/// it was within it before. (A charge larger than the capacity can exceed the
/// bound: admission only evicts while the usage is at least the capacity.)
pub proof fn lemma_unit_charge_keeps_bound<V>(
    s: Seq<Entry<V>>,
    cap: int,
    key: u64,
    value: V,
    charge: usize,
)
    requires
        distinct_keys(s),
        0 < cap,
        sum_charge(s) <= cap,
        charge <= 1,
        has_key(s, key) ==> charge <= charge_at(s, key),
    ensures
        sum_charge(spec_insert(s, cap, key, value, charge)) <= cap,
{
    let e = (Entry { key, value, charge });
    if has_key(s, key) {
        let i = key_index(s, key);
        lemma_key_index(s, key);
        lemma_sum_remove(s, i);
        lemma_sum_insert0(s.remove(i), e);
    } else {
        lemma_evict_bounds_sum(s, cap);
        lemma_sum_insert0(spec_evict(s, cap), e);
    }
}

/// Eviction consumes a run at the least-recently-used end only: the
/// survivors are a prefix of the residents in recency order, so the
/// most-recently-used entry is never the victim while any less-recently-used
/// resident remains.
pub proof fn lemma_evict_keeps_prefix<V>(s: Seq<Entry<V>>, cap: int)
    ensures
        spec_evict(s, cap).len() <= s.len(),
        spec_evict(s, cap) == s.take(spec_evict(s, cap).len() as int),
        spec_evict(s, cap).len() > 0 ==> spec_evict(s, cap)[0] == s[0],
    decreases s.len(),
{
    let r = spec_evict(s, cap);
    if s.len() == 0 || sum_charge(s) < cap {
        assert(r =~= s.take(r.len() as int));
    } else {
        lemma_evict_keeps_prefix(s.drop_last(), cap);
        assert(s.drop_last().take(r.len() as int) =~= s.take(r.len() as int));
    }
}

/// The most-recently-used entry is never the eviction victim while any
/// less-recently-used resident exists: if anyone survives the admission
/// loop, the front entry does, and it keeps its place.
pub proof fn lemma_mru_not_victim<V>(s: Seq<Entry<V>>, cap: int, key: u64)
    requires
        s.len() > 0,
        s[0].key == key,
    ensures
        spec_evict(s, cap).len() > 0 ==> has_key(spec_evict(s, cap), key),
        spec_evict(s, cap).len() > 0 ==> spec_evict(s, cap)[0].key == key,
{
    lemma_evict_keeps_prefix(s, cap);
    let r = spec_evict(s, cap);
    if r.len() > 0 {
        assert(r[0].key == key);
        assert(has_key(r, key));
    }
}

proof fn lemma_sum_nonneg<V>(s: Seq<Entry<V>>)
    ensures
        sum_charge(s) >= 0,
    decreases s.len(),
{
    if s.len() > 0 {
        lemma_sum_nonneg(s.drop_last());
    }
}

proof fn lemma_sum_insert0<V>(s: Seq<Entry<V>>, e: Entry<V>)
    ensures
        sum_charge(s.insert(0, e)) == sum_charge(s) + e.charge,
    decreases s.len(),
{
    let t = s.insert(0, e);
    assert(t.len() == s.len() + 1);
    if s.len() == 0 {
        assert(t.drop_last() =~= Seq::<Entry<V>>::empty());
        assert(t.last() == e);
        assert(sum_charge(t) == sum_charge(t.drop_last()) + t.last().charge);
    } else {
        assert(t.drop_last() =~= s.drop_last().insert(0, e));
        assert(t.last() == s.last());
        lemma_sum_insert0(s.drop_last(), e);
    }
}

proof fn lemma_sum_remove<V>(s: Seq<Entry<V>>, i: int)
    requires
        0 <= i < s.len(),
    ensures
        sum_charge(s.remove(i)) == sum_charge(s) - s[i].charge,
    decreases s.len(),
{
    if i == s.len() - 1 {
        assert(s.remove(i) =~= s.drop_last());
    } else {
        assert(s.remove(i).drop_last() =~= s.drop_last().remove(i));
        assert(s.remove(i).last() == s.last());
        lemma_sum_remove(s.drop_last(), i);
    }
}

proof fn lemma_key_index<V>(s: Seq<Entry<V>>, key: u64)
    requires
        has_key(s, key),
    ensures
        0 <= key_index(s, key) < s.len(),
        s[key_index(s, key)].key == key,
{
}

proof fn lemma_key_index_unique<V>(s: Seq<Entry<V>>, i: int)
    requires
        distinct_keys(s),
        0 <= i < s.len(),
    ensures
        has_key(s, s[i].key),
        key_index(s, s[i].key) == i,
{
    let key = s[i].key;
    assert(has_key(s, key));
    lemma_key_index(s, key);
}

proof fn lemma_remove_keys<V>(s: Seq<Entry<V>>, i: int)
    requires
        distinct_keys(s),
        0 <= i < s.len(),
    ensures
        distinct_keys(s.remove(i)),
        !has_key(s.remove(i), s[i].key),
        forall|k: u64| k != s[i].key ==> (has_key(s.remove(i), k) <==> has_key(s, k)),
{
    let t = s.remove(i);
    assert(forall|j: int| 0 <= j < i ==> t[j] == s[j]);
    assert(forall|j: int| i <= j < t.len() ==> t[j] == s[j + 1]);
    assert forall|k: u64| k != s[i].key && has_key(s, k) implies has_key(t, k) by {
        let j = key_index(s, k);
        lemma_key_index(s, k);
        if j < i {
            assert(t[j].key == k);
        } else {
            assert(t[j - 1].key == k);
        }
    }
}

proof fn lemma_insert0_keys<V>(t: Seq<Entry<V>>, e: Entry<V>)
    requires
        distinct_keys(t),
        !has_key(t, e.key),
    ensures
        distinct_keys(t.insert(0, e)),
        has_key(t.insert(0, e), e.key),
        forall|k: u64| k != e.key ==> (has_key(t.insert(0, e), k) <==> has_key(t, k)),
        t.insert(0, e)[0] == e,
{
    let u = t.insert(0, e);
    assert(forall|j: int| 1 <= j < u.len() ==> u[j] == t[j - 1]);
    assert(u[0] == e);
    assert forall|i: int, j: int| 0 <= i < j < u.len() implies u[i].key != u[j].key by {
        if i == 0 {
            assert(u[j] == t[j - 1]);
            assert(!(t[j - 1].key == e.key)) by {
                if t[j - 1].key == e.key {
                    assert(has_key(t, e.key));
                }
            }
        }
    }
    assert forall|k: u64| k != e.key && has_key(t, k) implies has_key(u, k) by {
        let j = key_index(t, k);
        lemma_key_index(t, k);
        assert(u[j + 1].key == k);
    }
    assert forall|k: u64| k != e.key && has_key(u, k) implies has_key(t, k) by {
        let j = key_index(u, k);
        lemma_key_index(u, k);
        assert(t[j - 1].key == k);
    }
}

impl<V: Copy> LruCache<V> {
    /// The cache's internal consistency: one entry per key, the usage counter
    /// equal to the residents' total charge, and a zero-capacity cache
    /// permanently empty.
    pub open spec fn wf(self) -> bool {
        &&& distinct_keys(self.entries@)
        &&& self.usage == sum_charge(self.entries@)
        &&& self.capacity == 0 ==> self.entries@.len() == 0
    }

    /// A cache with the given capacity, measured in the unit of `charge`.
    /// Capacity 0 is a valid, permanent "caching disabled" mode. The eviction
    /// hook is disabled.
    pub fn new(capacity: usize) -> (r: LruCache<V>)
        ensures
            r.wf(),
            r.capacity == capacity,
            r.entries@.len() == 0,
            r.usage == 0,
            !r.hook_enabled,
            r.events@.len() == 0,
    {
        LruCache {
            capacity,
            usage: 0,
            entries: Vec::new(),
            hook_enabled: false,
            events: Vec::new(),
        }
    }

    /// As `new`, but with the eviction hook enabled: every displaced entry
    /// will be appended to the hook log.
    pub fn with_hook(capacity: usize) -> (r: LruCache<V>)
        ensures
            r.wf(),
            r.capacity == capacity,
            r.entries@.len() == 0,
            r.usage == 0,
            r.hook_enabled,
            r.events@.len() == 0,
    {
        LruCache {
            capacity,
            usage: 0,
            entries: Vec::new(),
            hook_enabled: true,
            events: Vec::new(),
        }
    }

    /// The sum of the charges of all resident entries.
    pub fn total_charge(&self) -> (r: usize)
        ensures
            r == self.usage,
            self.wf() ==> r == sum_charge(self.entries@),
    {
        self.usage
    }

    /// The number of resident entries.
    pub fn len(&self) -> (r: usize)
        ensures
            r == self.entries@.len(),
    {
        self.entries.len()
    }

    /// The configured capacity.
    pub fn capacity(&self) -> (r: usize)
        ensures
            r == self.capacity,
    {
        self.capacity
    }

    /// The eviction hook's log: every displaced `(key, value)` pair recorded
    /// so far, oldest first.
    pub fn hook_log(&self) -> (r: &Vec<(u64, V)>)
        ensures
            r@ == self.events@,
    {
        &self.events
    }

    /// The key of the least-recently-used resident — the next eviction
    /// victim — or `None` when the cache is empty.
    pub fn tail_victim(&self) -> (r: Option<u64>)
        ensures
            self.entries@.len() == 0 ==> r == None::<u64>,
            self.entries@.len() > 0 ==> r == Some(self.entries@.last().key),
    {
        let n = self.entries.len();
        if n == 0 {
            None
        } else {
            Some(self.entries[n - 1].key)
        }
    }

    /// Caches `value` under `key` with the given weight.
    ///
    /// At capacity 0 this is a no-op returning `None`. If `key` is already
    /// resident, its value and charge are replaced in place, the entry is
    /// promoted to most-recently-used, the hook (when enabled) logs the
    /// displaced `(key, old_value)` pair, and the old value is returned.
    /// Otherwise entries are evicted from the least-recently-used end while
    /// the usage counter is still at least the capacity — each eviction
    /// logged by the hook — and the new entry is admitted at the front;
    /// `None` is returned.
    pub fn insert(&mut self, key: u64, value: V, charge: usize) -> (prev: Option<V>)
        requires
            old(self).wf(),
            old(self).usage + charge <= usize::MAX,
        ensures
            final(self).wf(),
            final(self).capacity == old(self).capacity,
            final(self).hook_enabled == old(self).hook_enabled,
            final(self).entries@ == spec_insert(
                old(self).entries@,
                old(self).capacity as int,
                key,
                value,
                charge,
            ),
            prev == spec_insert_ret(old(self).entries@, old(self).capacity as int, key),
            final(self).events@ == old(self).events@ + logged(
                old(self).hook_enabled,
                spec_insert_events(old(self).entries@, old(self).capacity as int, key),
            ),
            old(self).capacity == 0 ==> {
                &&& final(self).entries@ == old(self).entries@
                &&& final(self).usage == old(self).usage
                &&& final(self).events@ == old(self).events@
            },
            old(self).capacity > 0 ==> {
                &&& has_key(final(self).entries@, key)
                &&& final(self).entries@[0].key == key
                &&& final(self).entries@[0].value == value
                &&& final(self).entries@[0].charge == charge
                &&& value_at(final(self).entries@, key) == value
            },
            old(self).capacity > 0 && has_key(old(self).entries@, key) ==> {
                &&& final(self).entries@.len() == old(self).entries@.len()
                &&& final(self).usage == old(self).usage - charge_at(old(self).entries@, key)
                    + charge
            },
            old(self).capacity > 0 && !has_key(old(self).entries@, key) ==> final(self).usage
                < old(self).capacity + charge,
    {
        if self.capacity == 0 {
            proof {
                assert(old(self).events@ + logged(
                    old(self).hook_enabled,
                    Seq::<(u64, V)>::empty(),
                ) =~= old(self).events@);
            }
            return None;
        }
        match self.find_index(key) {
            Some(i) => {
                proof {
                    let s = old(self).entries@;
                    lemma_key_index_unique(s, i as int);
                    lemma_remove_keys(s, i as int);
                    lemma_sum_remove(s, i as int);
                    lemma_sum_nonneg(s.remove(i as int));
                }
                let mut e = self.entries.remove(i);
                let prev_value = e.value;
                let prev_charge = e.charge;
                e.value = value;
                e.charge = charge;
                self.entries.insert(0, e);
                self.usage = self.usage - prev_charge + charge;
                if self.hook_enabled {
                    self.events.push((key, prev_value));
                }
                proof {
                    let s = old(self).entries@;
                    let t = s.remove(i as int);
                    let e2 = (Entry { key, value, charge });
                    lemma_insert0_keys(t, e2);
                    lemma_sum_insert0(t, e2);
                    lemma_key_index_unique(self.entries@, 0);
                    if !old(self).hook_enabled {
                        assert(self.events@ =~= old(self).events@ + logged(
                            false,
                            spec_insert_events(s, old(self).capacity as int, key),
                        ));
                    }
                }
                Some(prev_value)
            },
            None => {
                let ghost orig = old(self).entries@;
                let ghost cap = old(self).capacity as int;
                while self.usage >= self.capacity && self.entries.len() > 0
                    invariant
                        cap == old(self).capacity as int,
                        orig == old(self).entries@,
                        self.capacity == old(self).capacity,
                        self.capacity > 0,
                        self.hook_enabled == old(self).hook_enabled,
                        distinct_keys(self.entries@),
                        self.usage == sum_charge(self.entries@),
                        !has_key(self.entries@, key),
                        self.usage <= old(self).usage,
                        spec_evict(self.entries@, cap) == spec_evict(orig, cap),
                        old(self).events@ + logged(
                            self.hook_enabled,
                            spec_evict_events(orig, cap),
                        ) == self.events@ + logged(
                            self.hook_enabled,
                            spec_evict_events(self.entries@, cap),
                        ),
                    decreases self.entries@.len(),
                {
                    let ghost s_before = self.entries@;
                    let ghost ev_before = self.events@;
                    proof {
                        lemma_sum_nonneg(s_before.drop_last());
                        assert(sum_charge(s_before) >= cap);
                        assert(spec_evict(s_before, cap) == spec_evict(
                            s_before.drop_last(),
                            cap,
                        ));
                        assert(spec_evict_events(s_before, cap) == seq![
                            (s_before.last().key, s_before.last().value),
                        ] + spec_evict_events(s_before.drop_last(), cap));
                    }
                    let victim = self.entries.pop().unwrap();
                    self.usage = self.usage - victim.charge;
                    if self.hook_enabled {
                        self.events.push((victim.key, victim.value));
                        proof {
                            assert(self.events@ =~= ev_before + seq![
                                (victim.key, victim.value),
                            ]);
                        }
                    }
                    proof {
                        assert(self.entries@ =~= s_before.drop_last());
                        if has_key(self.entries@, key) {
                            let w = key_index(self.entries@, key);
                            lemma_key_index(self.entries@, key);
                            assert(s_before[w].key == key);
                        }
                    }
                }
                proof {
                    assert(spec_evict(self.entries@, cap) == self.entries@);
                    assert(spec_evict_events(self.entries@, cap) =~= Seq::<(u64, V)>::empty());
                    if self.entries@.len() > 0 {
                        assert(sum_charge(self.entries@) < cap);
                    }
                    let t = self.entries@;
                    let e2 = (Entry { key, value, charge });
                    lemma_insert0_keys(t, e2);
                    lemma_sum_insert0(t, e2);
                    assert(self.events@ + logged(
                        self.hook_enabled,
                        Seq::<(u64, V)>::empty(),
                    ) =~= self.events@);
                    assert(old(self).events@ + logged(
                        self.hook_enabled,
                        spec_evict_events(orig, cap),
                    ) =~= self.events@);
                }
                let e2 = Entry { key, value, charge };
                self.entries.insert(0, e2);
                self.usage = self.usage + charge;
                proof {
                    lemma_key_index_unique(self.entries@, 0);
                }
                None
            },
        }
    }

    /// Looks `key` up; on a hit the entry is promoted to most-recently-used
    /// and a copy of its value is returned. A lookup displaces nothing: the
    /// usage counter and the hook log are untouched.
    pub fn get(&mut self, key: u64) -> (r: Option<V>)
        requires
            old(self).wf(),
        ensures
            final(self).wf(),
            final(self).capacity == old(self).capacity,
            final(self).usage == old(self).usage,
            final(self).hook_enabled == old(self).hook_enabled,
            final(self).events@ == old(self).events@,
            has_key(old(self).entries@, key) ==> {
                &&& r == Some(value_at(old(self).entries@, key))
                &&& final(self).entries@ == promote_with(
                    old(self).entries@,
                    key_index(old(self).entries@, key),
                    old(self).entries@[key_index(old(self).entries@, key)],
                )
                &&& final(self).entries@.len() == old(self).entries@.len()
                &&& final(self).entries@[0].key == key
                &&& value_at(final(self).entries@, key) == value_at(old(self).entries@, key)
            },
            !has_key(old(self).entries@, key) ==> {
                &&& r == None::<V>
                &&& final(self).entries@ == old(self).entries@
            },
            forall|k: u64| has_key(final(self).entries@, k) <==> has_key(old(self).entries@, k),
    {
        match self.find_index(key) {
            Some(i) => {
                let e = self.entries.remove(i);
                let v = e.value;
                self.entries.insert(0, e);
                proof {
                    let s = old(self).entries@;
                    lemma_key_index_unique(s, i as int);
                    lemma_remove_keys(s, i as int);
                    lemma_sum_remove(s, i as int);
                    lemma_insert0_keys(s.remove(i as int), s[i as int]);
                    lemma_sum_insert0(s.remove(i as int), s[i as int]);
                    lemma_key_index_unique(self.entries@, 0);
                }
                Some(v)
            },
            None => None,
        }
    }

    /// Removes `key`'s entry if it is resident: the entry leaves the recency
    /// order and the index, its charge leaves the usage counter, and the hook
    /// (when enabled) logs the displaced pair. On an absent key nothing
    /// happens and nothing is logged.
    pub fn erase(&mut self, key: u64)
        requires
            old(self).wf(),
        ensures
            final(self).wf(),
            final(self).capacity == old(self).capacity,
            final(self).hook_enabled == old(self).hook_enabled,
            !has_key(final(self).entries@, key),
            has_key(old(self).entries@, key) ==> {
                &&& final(self).entries@ == old(self).entries@.remove(
                    key_index(old(self).entries@, key),
                )
                &&& final(self).usage == old(self).usage - charge_at(old(self).entries@, key)
                &&& final(self).events@ == old(self).events@ + logged(
                    old(self).hook_enabled,
                    seq![(key, value_at(old(self).entries@, key))],
                )
            },
            !has_key(old(self).entries@, key) ==> {
                &&& final(self).entries@ == old(self).entries@
                &&& final(self).usage == old(self).usage
                &&& final(self).events@ == old(self).events@
            },
            forall|k: u64|
                k != key ==> (has_key(final(self).entries@, k) <==> has_key(
                    old(self).entries@,
                    k,
                )),
    {
        match self.find_index(key) {
            Some(i) => {
                proof {
                    let s = old(self).entries@;
                    lemma_key_index_unique(s, i as int);
                    lemma_remove_keys(s, i as int);
                    lemma_sum_remove(s, i as int);
                    lemma_sum_nonneg(s.remove(i as int));
                }
                let e = self.entries.remove(i);
                self.usage = self.usage - e.charge;
                if self.hook_enabled {
                    self.events.push((key, e.value));
                }
                proof {
                    if !old(self).hook_enabled {
                        assert(self.events@ =~= old(self).events@ + logged(
                            false,
                            seq![(key, value_at(old(self).entries@, key))],
                        ));
                    }
                }
            },
            None => {},
        }
    }

    /// A zero-capacity cache is permanently empty: caching is disabled, no
    /// key is ever resident, and the usage counter stays 0.
    pub proof fn lemma_zero_capacity(self)
        requires
            self.wf(),
            self.capacity == 0,
        ensures
            self.entries@.len() == 0,
            self.usage == 0,
            forall|k: u64| !has_key(self.entries@, k),
    {
    }

    /// The position of `key`'s entry, if it is resident.
    fn find_index(&self, key: u64) -> (r: Option<usize>)
        ensures
            match r {
                Some(i) => i < self.entries@.len() && self.entries@[i as int].key == key,
                None => !has_key(self.entries@, key),
            },
    {
        let n = self.entries.len();
        let mut i: usize = 0;
        while i < n
            invariant
                i <= n,
                n == self.entries@.len(),
                forall|j: int| 0 <= j < i ==> self.entries@[j].key != key,
            decreases n - i,
        {
            if self.entries[i].key == key {
                return Some(i);
            }
            i = i + 1;
        }
        None
    }
}

} // verus!

