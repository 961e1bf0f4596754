//! The decision cache: a bounded map from User-Agent to the decision taken
//! for it, evicting the least recently used entry.

use vstd::prelude::*;

use crate::text::str_is;

verus! {

/// What was decided for a User-Agent.
#[derive(Clone, Copy, Debug, PartialEq, Eq, Structural)]
pub enum CacheDecision {
    FwWhitelist,
    Modify,
    Pass,
}

/// The tag under which a decision is written.
pub open spec fn decision_tag(d: CacheDecision) -> Seq<char> {
    match d {
        CacheDecision::FwWhitelist => "FW_WHITELIST"@,
        CacheDecision::Modify => "MODIFY"@,
        CacheDecision::Pass => "PASS"@,
    }
}

impl CacheDecision {
    pub fn as_str(self) -> (r: &'static str)
        ensures
            r@ == decision_tag(self),
    {
        match self {
            CacheDecision::FwWhitelist => "FW_WHITELIST",
            CacheDecision::Modify => "MODIFY",
            CacheDecision::Pass => "PASS",
        }
    }

    /// The decision written as `s`, if any.
    pub fn from_str(s: &str) -> (r: Option<CacheDecision>)
        ensures
            r matches Some(d) ==> decision_tag(d) == s@,
            r.is_none() ==> (forall|d: CacheDecision| decision_tag(d) != s@),
    {
        if str_is(s, "FW_WHITELIST") {
            Some(CacheDecision::FwWhitelist)
        } else if str_is(s, "MODIFY") {
            Some(CacheDecision::Modify)
        } else if str_is(s, "PASS") {
            Some(CacheDecision::Pass)
        } else {
            proof {
                assert forall|d: CacheDecision| decision_tag(d) != s@ by {
                    match d {
                        CacheDecision::FwWhitelist => {},
                        CacheDecision::Modify => {},
                        CacheDecision::Pass => {},
                    }
                }
            }
            None
        }
    }
}

/// Cache contents, least recently used first.
pub type Entries = Seq<(Seq<char>, CacheDecision)>;

pub open spec fn entry_has(s: Entries, k: Seq<char>) -> bool {
    exists|i: int| 0 <= i < s.len() && (#[trigger] s[i]).0 == k
}

pub open spec fn entry_index(s: Entries, k: Seq<char>) -> int {
    choose|i: int| 0 <= i < s.len() && (#[trigger] s[i]).0 == k
}

/// No key occurs twice.
pub open spec fn distinct_keys(s: Entries) -> bool {
    forall|i: int, j: int| 0 <= i < s.len() && 0 <= j < s.len() && i != j ==> (#[trigger] s[i]).0 != (#[trigger] s[j]).0
}

/// The decision stored under `k`.
pub open spec fn lru_lookup(s: Entries, k: Seq<char>) -> Option<CacheDecision> {
    if entry_has(s, k) {
        Some(s[entry_index(s, k)].1)
    } else {
        None
    }
}

/// The contents after reading `k`: a present entry becomes the most recent.
pub open spec fn lru_touch(s: Entries, k: Seq<char>) -> Entries {
    if entry_has(s, k) {
        s.remove(entry_index(s, k)).push(s[entry_index(s, k)])
    } else {
        s
    }
}

/// The contents after storing `v` under `k` with room for `cap` entries: the
/// entry becomes the most recent, and when a new key finds the cache full the
/// least recent entry leaves.
pub open spec fn lru_insert(s: Entries, k: Seq<char>, v: CacheDecision, cap: nat) -> Entries {
    if entry_has(s, k) {
        s.remove(entry_index(s, k)).push((k, v))
    } else if s.len() >= cap {
        s.drop_first().push((k, v))
    } else {
        s.push((k, v))
    }
}

#[verifier::external_type_specification]
#[verifier::external_body]
#[verifier::reject_recursive_types(K)]
#[verifier::reject_recursive_types(V)]
#[verifier::reject_recursive_types(S)]
pub struct ExLruCache<K, V, S>(lru::LruCache<K, V, S>);

/// The cache type used here, hashing keys with std's `RandomState`.
pub type Store = lru::LruCache<String, CacheDecision, std::collections::hash_map::RandomState>;

/// What an `lru::LruCache` holds, least recently used first.
pub uninterp spec fn lru_entries(c: Store) -> Seq<(Seq<char>, CacheDecision)>;

/// The bound an `lru::LruCache` was made with.
pub uninterp spec fn lru_capacity(c: Store) -> nat;

/// Relies on `lru::LruCache::with_hasher`: an empty cache that holds at most `cap` entries.
#[verifier::external_body]
fn lru_new(cap: usize) -> (r: Store)
    requires
        cap >= 1,
    ensures
        lru_entries(r) == Seq::<(Seq<char>, CacheDecision)>::empty(),
        lru_capacity(r) == cap,
{
    lru::LruCache::with_hasher(
        std::num::NonZeroUsize::new(cap).unwrap(),
        std::collections::hash_map::RandomState::new(),
    )
}

/// Relies on `lru::LruCache::get`: the value under `key`, whose entry moves to
/// the most recent place; the contents stay otherwise as they were.
#[verifier::external_body]
fn lru_get(c: &mut Store, key: &str) -> (r: Option<CacheDecision>)
    ensures
        r == lru_lookup(lru_entries(*old(c)), key@),
        lru_entries(*final(c)) == lru_touch(lru_entries(*old(c)), key@),
        lru_capacity(*final(c)) == lru_capacity(*old(c)),
{
    c.get(key).copied()
}

/// Relies on `lru::LruCache::put`: stores the value, moving the key to the most
/// recent place, and when a new key finds the cache full drops the least
/// recent entry.
#[verifier::external_body]
fn lru_put(c: &mut Store, key: String, v: CacheDecision)
    ensures
        lru_entries(*final(c)) == lru_insert(lru_entries(*old(c)), key@, v, lru_capacity(*old(c))),
        lru_capacity(*final(c)) == lru_capacity(*old(c)),
{
    c.put(key, v);
}

/// The decision cache. A capacity of zero disables it.
pub struct Cache {
    inner: Store,
    capacity: usize,
}

impl Cache {
    /// The contents, least recently used first.
    pub closed spec fn entries(&self) -> Entries {
        lru_entries(self.inner)
    }

    pub closed spec fn spec_capacity(&self) -> nat {
        self.capacity as nat
    }

    /// The cache holds distinct keys and no more entries than its capacity.
    pub open spec fn bounded(&self) -> bool {
        &&& distinct_keys(self.entries())
        &&& self.entries().len() <= self.spec_capacity()
    }

    /// What the invariant gives a caller.
    pub proof fn lemma_wf_bounded(&self)
        requires
            self.wf(),
        ensures
            self.bounded(),
    {
    }

    pub closed spec fn wf(&self) -> bool {
        &&& lru_capacity(self.inner) == (if self.capacity == 0 { 1 } else { self.capacity as nat })
        &&& distinct_keys(self.entries())
        &&& self.entries().len() <= lru_capacity(self.inner)
        &&& self.capacity == 0 ==> self.entries().len() == 0
    }

    pub fn new(cap: usize) -> (r: Self)
        ensures
            r.wf(),
            r.bounded(),
            r.spec_capacity() == cap,
            r.entries() == Seq::<(Seq<char>, CacheDecision)>::empty(),
    {
        let inner = lru_new(if cap == 0 { 1 } else { cap });
        Cache { inner, capacity: cap }
    }

    pub fn is_disabled(&self) -> (r: bool)
        ensures
            r == (self.spec_capacity() == 0),
    {
        self.capacity == 0
    }

    /// The decision cached for `key`, which becomes the most recent entry.
    pub fn get(&mut self, key: &str) -> (r: Option<CacheDecision>)
        requires
            old(self).wf(),
        ensures
            final(self).wf(),
            old(self).spec_capacity() == 0 ==> r.is_none() && final(self).entries() == old(self).entries(),
            final(self).spec_capacity() == old(self).spec_capacity(),
            r == lru_lookup(old(self).entries(), key@),
            final(self).entries() == lru_touch(old(self).entries(), key@),
    {
        if self.capacity == 0 {
            return None;
        }
        let r = lru_get(&mut self.inner, key);
        proof {
            lemma_touch_keeps(old(self).entries(), key@);
        }
        r
    }

    /// Stores `value` under `key`; with capacity zero nothing is stored.
    pub fn put(&mut self, key: String, value: CacheDecision)
        requires
            old(self).wf(),
        ensures
            final(self).wf(),
            final(self).bounded(),
            final(self).spec_capacity() == old(self).spec_capacity(),
            final(self).entries() == (if old(self).spec_capacity() == 0 {
                old(self).entries()
            } else {
                lru_insert(old(self).entries(), key@, value, old(self).spec_capacity())
            }),
    {
        if self.capacity == 0 {
            return;
        }
        let ghost k = key@;
        lru_put(&mut self.inner, key, value);
        proof {
            lemma_insert_keeps(old(self).entries(), k, value, self.capacity as nat);
        }
    }
}

proof fn lemma_remove_distinct(s: Entries, i: int)
    requires
        distinct_keys(s),
        0 <= i < s.len(),
    ensures
        distinct_keys(s.remove(i)),
        !entry_has(s.remove(i), s[i].0),
{
    let t = s.remove(i);
    assert forall|a: int, b: int| 0 <= a < t.len() && 0 <= b < t.len() && a != b implies (#[trigger] t[a]).0 != (#[trigger] t[b]).0 by {
        let sa = if a < i { a } else { a + 1 };
        let sb = if b < i { b } else { b + 1 };
        assert(t[a] == s[sa] && t[b] == s[sb]);
    }
    if entry_has(t, s[i].0) {
        let a = choose|a: int| 0 <= a < t.len() && (#[trigger] t[a]).0 == s[i].0;
        let sa = if a < i { a } else { a + 1 };
        assert(t[a] == s[sa]);
    }
}

proof fn lemma_push_distinct(s: Entries, e: (Seq<char>, CacheDecision))
    requires
        distinct_keys(s),
        !entry_has(s, e.0),
    ensures
        distinct_keys(s.push(e)),
{
    let t = s.push(e);
    assert forall|a: int, b: int| 0 <= a < t.len() && 0 <= b < t.len() && a != b implies (#[trigger] t[a]).0 != (#[trigger] t[b]).0 by {
        if a < s.len() && b < s.len() {
            assert(t[a] == s[a] && t[b] == s[b]);
        } else if a < s.len() {
            assert(t[a] == s[a]);
        } else {
            assert(t[b] == s[b]);
        }
    }
}

pub(crate) proof fn lemma_touch_keeps(s: Entries, k: Seq<char>)
    requires
        distinct_keys(s),
    ensures
        distinct_keys(lru_touch(s, k)),
        lru_touch(s, k).len() == s.len(),
{
    if entry_has(s, k) {
        let i = entry_index(s, k);
        lemma_remove_distinct(s, i);
        lemma_push_distinct(s.remove(i), s[i]);
    }
}

/// After storing `v` under `k`, reading `k` gives `v`.
pub(crate) proof fn lemma_lookup_after_insert(s: Entries, k: Seq<char>, v: CacheDecision, cap: nat)
    requires
        distinct_keys(s),
        cap >= 1,
        s.len() <= cap,
    ensures
        lru_lookup(lru_insert(s, k, v, cap), k) == Some(v),
{
    lemma_insert_keeps(s, k, v, cap);
    let t = lru_insert(s, k, v, cap);
    let last = t.len() - 1;
    assert(t[last] == (k, v));
    assert(entry_has(t, k));
    let j = entry_index(t, k);
    assert(j == last);
}

pub(crate) proof fn lemma_insert_keeps(s: Entries, k: Seq<char>, v: CacheDecision, cap: nat)
    requires
        distinct_keys(s),
        cap >= 1,
        s.len() <= cap,
    ensures
        distinct_keys(lru_insert(s, k, v, cap)),
        lru_insert(s, k, v, cap).len() <= cap,
{
    if entry_has(s, k) {
        let i = entry_index(s, k);
        lemma_remove_distinct(s, i);
        lemma_push_distinct(s.remove(i), (k, v));
    } else if s.len() >= cap {
        let t = s.drop_first();
        assert forall|a: int, b: int| 0 <= a < t.len() && 0 <= b < t.len() && a != b implies (#[trigger] t[a]).0 != (#[trigger] t[b]).0 by {
            assert(t[a] == s[a + 1] && t[b] == s[b + 1]);
        }
        if entry_has(t, k) {
            let a = choose|a: int| 0 <= a < t.len() && (#[trigger] t[a]).0 == k;
            assert(t[a] == s[a + 1]);
        }
        lemma_push_distinct(t, (k, v));
    } else {
        lemma_push_distinct(s, (k, v));
    }
}

/// One operation on the cache, as the contracts of `get` and `put` describe it.
pub enum CacheOp {
    Get(Seq<char>),
    Put(Seq<char>, CacheDecision),
}

/// The contents after one operation with room for `cap` entries.
pub open spec fn apply_op(e: Entries, op: CacheOp, cap: nat) -> Entries {
    if cap == 0 {
        e
    } else {
        match op {
            CacheOp::Get(k) => lru_touch(e, k),
            CacheOp::Put(k, v) => lru_insert(e, k, v, cap),
        }
    }
}

/// The contents after running `ops` on an empty cache.
pub open spec fn run_ops(ops: Seq<CacheOp>, cap: nat) -> Entries
    decreases ops.len(),
{
    if ops.len() == 0 {
        Seq::<(Seq<char>, CacheDecision)>::empty()
    } else {
        apply_op(run_ops(ops.drop_last(), cap), ops.last(), cap)
    }
}

/// The keys of the entries, in order.
pub open spec fn keys_of(e: Entries) -> Seq<Seq<char>> {
    e.map_values(|x: (Seq<char>, CacheDecision)| x.0)
}

/// `s` without `k`.
pub open spec fn without(s: Seq<Seq<char>>, k: Seq<char>) -> Seq<Seq<char>> {
    if s.contains(k) {
        s.remove(s.index_of(k))
    } else {
        s
    }
}

/// The distinct keys of `t`, ordered by their last occurrence.
pub open spec fn by_last_use(t: Seq<Seq<char>>) -> Seq<Seq<char>>
    decreases t.len(),
{
    if t.len() == 0 {
        Seq::<Seq<char>>::empty()
    } else {
        without(by_last_use(t.drop_last()), t.last()).push(t.last())
    }
}

/// The last `k` elements of `s`, or all of them when there are fewer.
pub open spec fn last_k(s: Seq<Seq<char>>, k: nat) -> Seq<Seq<char>> {
    if s.len() <= k {
        s
    } else {
        s.subrange(s.len() - k, s.len() as int)
    }
}

/// The keys that `ops` use, in order, in an LRU cache of `cap` entries: every
/// put, and every get of a key among the `cap` most recently used so far.
pub open spec fn touched(ops: Seq<CacheOp>, cap: nat) -> Seq<Seq<char>>
    decreases ops.len(),
{
    if ops.len() == 0 {
        Seq::<Seq<char>>::empty()
    } else {
        let t = touched(ops.drop_last(), cap);
        match ops.last() {
            CacheOp::Put(k, _) => t.push(k),
            CacheOp::Get(k) => if last_k(by_last_use(t), cap).contains(k) {
                t.push(k)
            } else {
                t
            },
        }
    }
}

/// The value last put under `k`.
pub open spec fn last_put(ops: Seq<CacheOp>, k: Seq<char>) -> Option<CacheDecision>
    decreases ops.len(),
{
    if ops.len() == 0 {
        None
    } else {
        match ops.last() {
            CacheOp::Put(k2, v) => if k2 == k {
                Some(v)
            } else {
                last_put(ops.drop_last(), k)
            },
            CacheOp::Get(_) => last_put(ops.drop_last(), k),
        }
    }
}

proof fn lemma_keys_remove(e: Entries, i: int)
    requires
        0 <= i < e.len(),
    ensures
        keys_of(e.remove(i)) == keys_of(e).remove(i),
{
    e.remove_ensures(i);
    keys_of(e).remove_ensures(i);
    assert(keys_of(e.remove(i)) =~= keys_of(e).remove(i));
}

proof fn lemma_keys_index(e: Entries, k: Seq<char>)
    requires
        distinct_keys(e),
    ensures
        entry_has(e, k) == keys_of(e).contains(k),
        entry_has(e, k) ==> keys_of(e).index_of(k) == entry_index(e, k),
        keys_of(e).no_duplicates(),
{
    let ks = keys_of(e);
    if entry_has(e, k) {
        let i = entry_index(e, k);
        assert(ks[i] == k);
        let j = ks.index_of(k);
        assert(e[j].0 == k);
    }
    if ks.contains(k) {
        let j = ks.index_of(k);
        assert(e[j].0 == k);
    }
    assert forall|a: int, b: int| 0 <= a < ks.len() && 0 <= b < ks.len() && a != b implies ks[a] != ks[b] by {
        assert(ks[a] == e[a].0 && ks[b] == e[b].0);
    }
}

/// How the last `cap` keys by last use change when `k` is used once more.
proof fn lemma_use_key(d: Seq<Seq<char>>, k: Seq<char>, cap: nat)
    requires
        d.no_duplicates(),
        cap >= 1,
    ensures
        without(d, k).push(k).no_duplicates(),
        last_k(d, cap).no_duplicates(),
        last_k(d, cap).len() <= cap,
        last_k(d, cap).contains(k) ==> last_k(without(d, k).push(k), cap) == last_k(d, cap).remove(
            last_k(d, cap).index_of(k),
        ).push(k),
        !last_k(d, cap).contains(k) && last_k(d, cap).len() >= cap ==> last_k(without(d, k).push(k), cap)
            == last_k(d, cap).drop_first().push(k),
        !last_k(d, cap).contains(k) && last_k(d, cap).len() < cap ==> last_k(without(d, k).push(k), cap)
            == last_k(d, cap).push(k),
{
    let n = d.len();
    let l = last_k(d, cap);
    let off: int = if n <= cap { 0 } else { n - cap };
    assert(l =~= d.subrange(off, n as int));
    assert forall|a: int, b: int| 0 <= a < l.len() && 0 <= b < l.len() && a != b implies l[a] != l[b] by {
        assert(l[a] == d[a + off] && l[b] == d[b + off]);
    }
    let w = without(d, k);
    if d.contains(k) {
        let j = d.index_of(k);
        d.remove_ensures(j);
        assert(w == d.remove(j));
        assert(!w.contains(k)) by {
            if w.contains(k) {
                let x = w.index_of(k);
                if x < j {
                    assert(d[x] == k);
                } else {
                    assert(d[x + 1] == k);
                }
            }
        }
        assert forall|a: int, b: int| 0 <= a < w.len() && 0 <= b < w.len() && a != b implies w[a] != w[b] by {
            let sa = if a < j { a } else { a + 1 };
            let sb = if b < j { b } else { b + 1 };
            assert(w[a] == d[sa] && w[b] == d[sb]);
        }
    }
    let d2 = w.push(k);
    assert forall|a: int, b: int| 0 <= a < d2.len() && 0 <= b < d2.len() && a != b implies d2[a] != d2[b] by {
        if a < w.len() && b < w.len() {
        } else if a < w.len() {
            assert(w.contains(k) == false || !d.contains(k));
            if d.contains(k) {
                assert(d2[a] == w[a]);
            } else {
                assert(w == d);
                assert(d2[a] == d[a]);
            }
        } else if b < w.len() {
            if d.contains(k) {
                assert(d2[b] == w[b]);
            } else {
                assert(w == d);
                assert(d2[b] == d[b]);
            }
        }
    }
    if l.contains(k) {
        let i = l.index_of(k);
        let j = i + off;
        assert(d[j] == k);
        assert(d.contains(k));
        assert(d.index_of(k) == j);
        l.remove_ensures(i);
        d.remove_ensures(j);
        assert(d2.len() == n);
        if n <= cap {
            assert(last_k(d2, cap) =~= l.remove(i).push(k));
        } else {
            assert forall|x: int| 0 <= x < cap implies #[trigger] last_k(d2, cap)[x] == l.remove(i).push(k)[x] by {
                if x < cap - 1 {
                    if x < i {
                        assert(last_k(d2, cap)[x] == d[off + x]);
                    } else {
                        assert(last_k(d2, cap)[x] == d[off + x + 1]);
                    }
                }
            }
            assert(last_k(d2, cap) =~= l.remove(i).push(k));
        }
    } else if d.contains(k) {
        let j = d.index_of(k);
        assert(j < off) by {
            if j >= off {
                assert(l[j - off] == k);
            }
        }
        d.remove_ensures(j);
        assert(n > cap);
        assert forall|x: int| 0 <= x < cap implies #[trigger] last_k(d2, cap)[x] == l.drop_first().push(k)[x] by {
            if x < cap - 1 {
                assert(last_k(d2, cap)[x] == d[off + x + 1]);
            }
        }
        assert(last_k(d2, cap) =~= l.drop_first().push(k));
    } else {
        assert(w == d);
        if n < cap {
            assert(last_k(d2, cap) =~= l.push(k));
        } else {
            assert forall|x: int| 0 <= x < cap implies #[trigger] last_k(d2, cap)[x] == l.drop_first().push(k)[x] by {
                if x < cap - 1 {
                    assert(last_k(d2, cap)[x] == d[off + x + 1]);
                }
            }
            assert(last_k(d2, cap) =~= l.drop_first().push(k));
        }
    }
}

/// The cache is an LRU cache of `cap` entries: after any sequence of gets and
/// puts on an empty cache, it holds exactly the `cap` most recently used keys
/// (all of them when fewer were used), least recent first, each with the value
/// last put under it. With `cap` zero it holds nothing.
pub proof fn lemma_cache_is_lru(ops: Seq<CacheOp>, cap: nat)
    ensures
        keys_of(run_ops(ops, cap)) == last_k(by_last_use(touched(ops, cap)), cap),
        forall|i: int| 0 <= i < run_ops(ops, cap).len()
            ==> last_put(ops, (#[trigger] run_ops(ops, cap)[i]).0) == Some(run_ops(ops, cap)[i].1),
    decreases ops.len(),
{
    if cap == 0 {
        lemma_run_empty(ops);
        assert(keys_of(run_ops(ops, cap)) =~= last_k(by_last_use(touched(ops, cap)), cap));
    } else {
        lemma_run_is_lru(ops, cap);
    }
}

proof fn lemma_run_empty(ops: Seq<CacheOp>)
    ensures
        run_ops(ops, 0) == Seq::<(Seq<char>, CacheDecision)>::empty(),
    decreases ops.len(),
{
    if ops.len() > 0 {
        lemma_run_empty(ops.drop_last());
    }
}

proof fn lemma_run_is_lru(ops: Seq<CacheOp>, cap: nat)
    requires
        cap >= 1,
    ensures
        keys_of(run_ops(ops, cap)) == last_k(by_last_use(touched(ops, cap)), cap),
        by_last_use(touched(ops, cap)).no_duplicates(),
        distinct_keys(run_ops(ops, cap)),
        run_ops(ops, cap).len() <= cap,
        forall|i: int| 0 <= i < run_ops(ops, cap).len()
            ==> last_put(ops, (#[trigger] run_ops(ops, cap)[i]).0) == Some(run_ops(ops, cap)[i].1),
    decreases ops.len(),
{
    if ops.len() == 0 {
        assert(keys_of(run_ops(ops, cap)) =~= Seq::<Seq<char>>::empty());
        assert(by_last_use(touched(ops, cap)) =~= Seq::<Seq<char>>::empty());
    } else {
        let pre = ops.drop_last();
        lemma_run_is_lru(pre, cap);
        let c = run_ops(pre, cap);
        let t = touched(pre, cap);
        let d = by_last_use(t);
        let l = last_k(d, cap);
        let r = run_ops(ops, cap);
        let op = ops.last();
        let k = match op {
            CacheOp::Get(k) => k,
            CacheOp::Put(k, _) => k,
        };
        lemma_use_key(d, k, cap);
        lemma_keys_index(c, k);
        assert(keys_of(c) == l);
        assert(c.len() == l.len());
        match op {
            CacheOp::Put(k, v) => {
                assert(touched(ops, cap) == t.push(k));
                assert(t.push(k).drop_last() =~= t);
                assert(by_last_use(touched(ops, cap)) == without(d, k).push(k));
                lemma_insert_keeps(c, k, v, cap);
                assert(r == lru_insert(c, k, v, cap));
                if entry_has(c, k) {
                    let i = entry_index(c, k);
                    lemma_keys_remove(c, i);
                    assert(keys_of(r) =~= keys_of(c.remove(i)).push(k));
                    c.remove_ensures(i);
                    assert forall|x: int| 0 <= x < r.len() implies last_put(ops, (#[trigger] r[x]).0) == Some(r[x].1) by {
                        if x < r.len() - 1 {
                            let y = if x < i { x } else { x + 1 };
                            assert(r[x] == c[y]);
                            assert(r[x].0 != k) by {
                                assert(r[r.len() - 1].0 == k);
                            }
                        }
                    }
                } else if c.len() >= cap {
                    assert(keys_of(r) =~= l.drop_first().push(k));
                    assert forall|x: int| 0 <= x < r.len() implies last_put(ops, (#[trigger] r[x]).0) == Some(r[x].1) by {
                        if x < r.len() - 1 {
                            assert(r[x] == c[x + 1]);
                            assert(r[x].0 != k) by {
                                assert(r[r.len() - 1].0 == k);
                            }
                        }
                    }
                } else {
                    assert(keys_of(r) =~= l.push(k));
                    assert forall|x: int| 0 <= x < r.len() implies last_put(ops, (#[trigger] r[x]).0) == Some(r[x].1) by {
                        if x < r.len() - 1 {
                            assert(r[x] == c[x]);
                            assert(r[x].0 != k) by {
                                assert(r[r.len() - 1].0 == k);
                            }
                        }
                    }
                }
            },
            CacheOp::Get(k) => {
                lemma_touch_keeps(c, k);
                assert(r == lru_touch(c, k));
                if l.contains(k) {
                    assert(touched(ops, cap) == t.push(k));
                    assert(t.push(k).drop_last() =~= t);
                    assert(by_last_use(touched(ops, cap)) == without(d, k).push(k));
                    let i = entry_index(c, k);
                    lemma_keys_remove(c, i);
                    assert(keys_of(r) =~= keys_of(c.remove(i)).push(k));
                    c.remove_ensures(i);
                    assert forall|x: int| 0 <= x < r.len() implies last_put(ops, (#[trigger] r[x]).0) == Some(r[x].1) by {
                        if x < r.len() - 1 {
                            let y = if x < i { x } else { x + 1 };
                            assert(r[x] == c[y]);
                        } else {
                            assert(r[x] == c[i]);
                        }
                    }
                } else {
                    assert(touched(ops, cap) == t);
                    assert(r == c);
                    assert forall|x: int| 0 <= x < r.len() implies last_put(ops, (#[trigger] r[x]).0) == Some(r[x].1) by {
                        assert(r[x] == c[x]);
                    }
                }
            },
        }
    }
}

} // verus!
