//! The firewall decision engine: per-destination profiles, the pending batch
//! of set entries, and the commands that install them.

use vstd::prelude::*;

use crate::config::FirewallConfig;
use crate::text::{chars_of, decimal, push_decimal, push_str, string_of};

verus! {

/// A destination: IPv4 address (most significant octet first) and port.
#[derive(Clone, Copy, Debug, PartialEq, Eq, Structural)]
pub struct Endpoint {
    pub ip: u32,
    pub port: u16,
}

/// What the engine remembers of one destination. Times are milliseconds of a
/// monotonic clock.
#[derive(Clone, Copy, Debug, PartialEq, Eq, Structural)]
pub struct PortProfile {
    pub non_http_score: u32,
    pub http_lock_expires: Option<u64>,
    pub last_event: u64,
    pub decision_deadline: Option<u64>,
}

/// `a + b`, held at `u64::MAX`.
pub open spec fn sat_add(a: u64, b: u64) -> u64 {
    if a + b > u64::MAX {
        u64::MAX
    } else {
        (a + b) as u64
    }
}

pub fn saturating_add(a: u64, b: u64) -> (r: u64)
    ensures
        r == sat_add(a, b),
{
    if a > u64::MAX - b {
        u64::MAX
    } else {
        a + b
    }
}

/// A sequence of entries keyed by destination.
pub open spec fn has_key<V>(s: Seq<(Endpoint, V)>, k: Endpoint) -> bool {
    exists|i: int| 0 <= i < s.len() && (#[trigger] s[i]).0 == k
}

/// No destination occurs twice.
pub open spec fn unique_keys<V>(s: Seq<(Endpoint, V)>) -> bool {
    forall|i: int, j: int| 0 <= i < s.len() && 0 <= j < s.len() && i != j ==> (#[trigger] s[i]).0 != (#[trigger] s[j]).0
}

/// The entries as a map from destination to value.
pub open spec fn keyed_map<V>(s: Seq<(Endpoint, V)>) -> Map<Endpoint, V> {
    Map::new(
        |k: Endpoint| has_key(s, k),
        |k: Endpoint| s[choose|i: int| 0 <= i < s.len() && (#[trigger] s[i]).0 == k].1,
    )
}

proof fn lemma_keyed_at<V>(s: Seq<(Endpoint, V)>, i: int)
    requires
        unique_keys(s),
        0 <= i < s.len(),
    ensures
        keyed_map(s).contains_key(s[i].0),
        keyed_map(s)[s[i].0] == s[i].1,
{
    let k = s[i].0;
    assert(has_key(s, k));
    let j = choose|j: int| 0 <= j < s.len() && (#[trigger] s[j]).0 == k;
    assert(i == j);
}

proof fn lemma_keyed_update<V>(s: Seq<(Endpoint, V)>, i: int, v: V)
    requires
        unique_keys(s),
        0 <= i < s.len(),
    ensures
        unique_keys(s.update(i, (s[i].0, v))),
        keyed_map(s.update(i, (s[i].0, v))) == keyed_map(s).insert(s[i].0, v),
{
    let t = s.update(i, (s[i].0, v));
    assert forall|a: int, b: int| 0 <= a < t.len() && 0 <= b < t.len() && a != b implies (#[trigger] t[a]).0 != (#[trigger] t[b]).0 by {
        assert(t[a].0 == s[a].0);
        assert(t[b].0 == s[b].0);
    }
    assert forall|k: Endpoint| has_key(t, k) == has_key(s, k) by {
        if has_key(s, k) {
            let j = choose|j: int| 0 <= j < s.len() && (#[trigger] s[j]).0 == k;
            assert(t[j].0 == k);
        }
        if has_key(t, k) {
            let j = choose|j: int| 0 <= j < t.len() && (#[trigger] t[j]).0 == k;
            assert(s[j].0 == k);
        }
    }
    assert forall|k: Endpoint| #[trigger] keyed_map(t).contains_key(k) implies keyed_map(t)[k] == keyed_map(s).insert(s[i].0, v)[k] by {
        let j = choose|j: int| 0 <= j < t.len() && (#[trigger] t[j]).0 == k;
        lemma_keyed_at(t, j);
        lemma_keyed_at(s, j);
    }
    assert(keyed_map(t) =~= keyed_map(s).insert(s[i].0, v));
}

proof fn lemma_keyed_push<V>(s: Seq<(Endpoint, V)>, k: Endpoint, v: V)
    requires
        unique_keys(s),
        !has_key(s, k),
    ensures
        unique_keys(s.push((k, v))),
        keyed_map(s.push((k, v))) == keyed_map(s).insert(k, v),
{
    let t = s.push((k, v));
    assert forall|a: int, b: int| 0 <= a < t.len() && 0 <= b < t.len() && a != b implies (#[trigger] t[a]).0 != (#[trigger] t[b]).0 by {
        if a < s.len() && b < s.len() {
            assert(t[a] == s[a] && t[b] == s[b]);
        } else if a < s.len() {
            assert(t[a] == s[a]);
        } else {
            assert(t[b] == s[b]);
        }
    }
    assert forall|q: Endpoint| has_key(t, q) == (has_key(s, q) || q == k) by {
        if has_key(s, q) {
            let j = choose|j: int| 0 <= j < s.len() && (#[trigger] s[j]).0 == q;
            assert(t[j] == s[j]);
        }
        if q == k {
            assert(t[s.len() as int].0 == k);
        }
        if has_key(t, q) && q != k {
            let j = choose|j: int| 0 <= j < t.len() && (#[trigger] t[j]).0 == q;
            assert(j < s.len());
            assert(t[j] == s[j]);
        }
    }
    assert forall|q: Endpoint| #[trigger] keyed_map(t).contains_key(q) implies keyed_map(t)[q] == keyed_map(s).insert(k, v)[q] by {
        let j = choose|j: int| 0 <= j < t.len() && (#[trigger] t[j]).0 == q;
        lemma_keyed_at(t, j);
        if j < s.len() {
            assert(t[j] == s[j]);
            lemma_keyed_at(s, j);
        }
    }
    assert(keyed_map(t) =~= keyed_map(s).insert(k, v));
}

/// The position of `k` in `v`, if it is there.
fn find_key<V>(v: &Vec<(Endpoint, V)>, k: Endpoint) -> (r: Option<usize>)
    ensures
        match r {
            Some(i) => i < v@.len() && v@[i as int].0 == k,
            None => !has_key(v@, k),
        },
{
    let mut i: usize = 0;
    while i < v.len()
        invariant
            i <= v@.len(),
            forall|j: int| 0 <= j < i ==> (#[trigger] v@[j]).0 != k,
        decreases v@.len() - i,
    {
        if v[i].0 == k {
            return Some(i);
        }
        i = i + 1;
    }
    None
}

/// Stores `val` under `k`, in place where `k` is already present.
fn put_key<V: Copy>(v: &mut Vec<(Endpoint, V)>, k: Endpoint, val: V)
    requires
        unique_keys(old(v)@),
    ensures
        unique_keys(final(v)@),
        keyed_map(final(v)@) == keyed_map(old(v)@).insert(k, val),
        has_key(old(v)@, k) ==> final(v)@.len() == old(v)@.len(),
        !has_key(old(v)@, k) ==> final(v)@.len() == old(v)@.len() + 1,
{
    match find_key(v, k) {
        Some(i) => {
            proof {
                lemma_keyed_update(v@, i as int, val);
                assert(has_key(old(v)@, k));
            }
            v.set(i, (k, val));
        },
        None => {
            proof {
                lemma_keyed_push(v@, k, val);
            }
            v.push((k, val));
        },
    }
}

/// Inactive time after which a profile without timers is forgotten, in ms.
pub const CLEANUP_INTERVAL_MS: u64 = 600000;

/// How long an entry may wait in the batch, in ms.
pub const BATCH_DELAY_MS: u64 = 100;

/// Batch size that forces an immediate flush.
pub const BATCH_LIMIT: usize = 200;

/// The profile of a destination seen for the first time at `now`.
pub open spec fn fresh_profile(now: u64) -> PortProfile {
    PortProfile { non_http_score: 0, http_lock_expires: None, last_event: now, decision_deadline: None }
}

impl PortProfile {
    pub fn new(now: u64) -> (r: Self)
        ensures
            r == fresh_profile(now),
    {
        PortProfile { non_http_score: 0, http_lock_expires: None, last_event: now, decision_deadline: None }
    }
}

/// Whether the HTTP cooldown of `p` is still running at `now`.
pub open spec fn is_locked(p: PortProfile, now: u64) -> bool {
    match p.http_lock_expires {
        Some(t) => now < t,
        None => false,
    }
}

fn locked(p: &PortProfile, now: u64) -> (r: bool)
    ensures
        r == is_locked(*p, now),
{
    match p.http_lock_expires {
        Some(t) => now < t,
        None => false,
    }
}

/// One more non-HTTP sighting, held at `u32::MAX`.
pub open spec fn bump(score: u32) -> u32 {
    if score == u32::MAX {
        score
    } else {
        (score + 1) as u32
    }
}

/// The profile that an event for `k` starts from.
pub open spec fn current(m: Map<Endpoint, PortProfile>, k: Endpoint, now: u64) -> PortProfile {
    if m.contains_key(k) {
        m[k]
    } else {
        fresh_profile(now)
    }
}

/// The profiles after an HTTP request to `k` at `now`: outside a cooldown the
/// score is cleared, any pending decision is dropped and a cooldown starts.
pub open spec fn after_http(m: Map<Endpoint, PortProfile>, k: Endpoint, now: u64, cooldown: u64) -> Map<Endpoint, PortProfile> {
    let p = current(m, k, now);
    if is_locked(p, now) {
        m.insert(k, p)
    } else {
        m.insert(
            k,
            PortProfile {
                non_http_score: 0,
                http_lock_expires: Some(sat_add(now, cooldown)),
                last_event: now,
                decision_deadline: None,
            },
        )
    }
}

/// The profiles after a non-HTTP flow to `k` at `now`: inside a cooldown only
/// the time of the last event moves; outside it the score grows, and once it
/// reaches `threshold` a decision deadline is set unless one is pending.
pub open spec fn after_non_http(
    m: Map<Endpoint, PortProfile>,
    k: Endpoint,
    now: u64,
    threshold: u32,
    delay: u64,
) -> Map<Endpoint, PortProfile> {
    let p = current(m, k, now);
    if is_locked(p, now) {
        m.insert(k, PortProfile { last_event: now, ..p })
    } else {
        let score = bump(p.non_http_score);
        m.insert(
            k,
            PortProfile {
                non_http_score: score,
                last_event: now,
                decision_deadline: if score >= threshold && p.decision_deadline.is_none() {
                    Some(sat_add(now, delay))
                } else {
                    p.decision_deadline
                },
                ..p
            },
        )
    }
}

/// Whether the decision on `p` has come: its deadline has passed, the score
/// still reaches the threshold and no cooldown runs.
pub open spec fn is_due(p: PortProfile, now: u64, threshold: u32) -> bool {
    match p.decision_deadline {
        Some(d) => now >= d && p.non_http_score >= threshold && !is_locked(p, now),
        None => false,
    }
}

/// Whether `p` may be forgotten: no timer is active and it has been quiet for
/// longer than the cleanup interval.
pub open spec fn is_stale(p: PortProfile, now: u64) -> bool {
    p.decision_deadline.is_none() && !is_locked(p, now) && now - p.last_event > CLEANUP_INTERVAL_MS
}

/// The profiles of `m` for which `keep` holds.
pub open spec fn retain(m: Map<Endpoint, PortProfile>, keep: spec_fn(PortProfile) -> bool) -> Map<Endpoint, PortProfile> {
    Map::new(|k: Endpoint| m.contains_key(k) && keep(m[k]), |k: Endpoint| m[k])
}

/// A message to the engine.
#[derive(Clone, Copy, Debug, PartialEq, Eq, Structural)]
pub enum Event {
    /// A client made an HTTP request to the destination.
    Http { ip: u32, port: u16 },
    /// A client opened a flow to the destination that is not HTTP.
    NonHttp { ip: u32, port: u16 },
    /// Install the destination in the bypass set with `timeout` seconds.
    Add { ip: u32, port: u16, timeout: u32 },
    /// Flush what is pending and stop.
    Stop,
}

/// Whether `e` asks directly for `k` to be installed.
pub open spec fn is_add_for(e: Option<Event>, k: Endpoint) -> bool {
    match e {
        Some(Event::Add { ip, port, .. }) => k == Endpoint { ip, port },
        _ => false,
    }
}

/// The single-writer engine that owns the profile table and the batch.
pub struct FirewallEngine {
    config: FirewallConfig,
    profiles: Vec<(Endpoint, PortProfile)>,
    batch: Vec<(Endpoint, u32)>,
    batch_deadline: Option<u64>,
    cleanup_deadline: u64,
    clock: u64,
    /// For each destination, the non-HTTP events seen since its last HTTP event.
    bursts: Ghost<Map<Endpoint, nat>>,
}

impl FirewallEngine {
    pub closed spec fn profile_view(&self) -> Map<Endpoint, PortProfile> {
        keyed_map(self.profiles@)
    }

    /// The pending set entries, in the order they will be written.
    pub closed spec fn batch_view(&self) -> Seq<(Endpoint, u32)> {
        self.batch@
    }

    pub closed spec fn spec_batch_deadline(&self) -> Option<u64> {
        self.batch_deadline
    }

    pub closed spec fn spec_cleanup_deadline(&self) -> u64 {
        self.cleanup_deadline
    }

    /// The latest time the engine has been told of.
    pub closed spec fn spec_clock(&self) -> u64 {
        self.clock
    }

    pub closed spec fn spec_config(&self) -> FirewallConfig {
        self.config
    }

    /// Non-HTTP events for `k` counted since the last HTTP event for `k`:
    /// those that arrived with the firewall configured for bypass and outside
    /// an HTTP cooldown.
    pub closed spec fn burst(&self, k: Endpoint) -> nat {
        if self.bursts@.contains_key(k) {
            self.bursts@[k]
        } else {
            0
        }
    }

    pub open spec fn batch_has(&self, k: Endpoint) -> bool {
        has_key(self.batch_view(), k)
    }

    /// The engine's invariant: keys are unique; a profile under cooldown has
    /// no score and no pending decision; and no score exceeds the burst of
    /// non-HTTP events since the destination's last HTTP event.
    pub closed spec fn wf(&self) -> bool {
        &&& unique_keys(self.profiles@)
        &&& unique_keys(self.batch@)
        &&& (self.batch@.len() > 0 <==> self.batch_deadline.is_some())
        &&& forall|k: Endpoint| #[trigger] keyed_map(self.profiles@).contains_key(k) ==> {
            let p = keyed_map(self.profiles@)[k];
            &&& (is_locked(p, self.clock) ==> p.non_http_score == 0 && p.decision_deadline.is_none())
            &&& p.non_http_score <= self.burst(k)
        }
    }

    /// An engine with nothing pending, started at `now`.
    pub fn new(config: FirewallConfig, now: u64) -> (r: Self)
        ensures
            r.wf(),
            r.spec_config() == config,
            r.profile_view() == Map::<Endpoint, PortProfile>::empty(),
            r.batch_view() == Seq::<(Endpoint, u32)>::empty(),
            r.spec_batch_deadline().is_none(),
            r.spec_cleanup_deadline() == sat_add(now, CLEANUP_INTERVAL_MS),
            r.spec_clock() == now,
            forall|k: Endpoint| #[trigger] r.burst(k) == 0,
    {
        let r = FirewallEngine {
            config,
            profiles: Vec::new(),
            batch: Vec::new(),
            batch_deadline: None,
            cleanup_deadline: saturating_add(now, CLEANUP_INTERVAL_MS),
            clock: now,
            bursts: Ghost(Map::empty()),
        };
        proof {
            assert(r.profile_view() =~= Map::<Endpoint, PortProfile>::empty());
        }
        r
    }

    /// The profile held for a destination.
    pub fn profile(&self, ip: u32, port: u16) -> (r: Option<PortProfile>)
        requires
            self.wf(),
        ensures
            r == (if self.profile_view().contains_key(Endpoint { ip, port }) {
                Some(self.profile_view()[Endpoint { ip, port }])
            } else {
                None
            }),
    {
        let k = Endpoint { ip, port };
        match find_key(&self.profiles, k) {
            Some(i) => {
                proof {
                    lemma_keyed_at(self.profiles@, i as int);
                }
                Some(self.profiles[i].1)
            },
            None => None,
        }
    }

    /// Number of entries waiting in the batch.
    pub fn batch_len(&self) -> (r: usize)
        ensures
            r == self.batch_view().len(),
    {
        self.batch.len()
    }

    fn current_profile(&self, k: Endpoint, now: u64) -> (r: PortProfile)
        requires
            self.wf(),
        ensures
            r == current(self.profile_view(), k, now),
    {
        match find_key(&self.profiles, k) {
            Some(i) => {
                proof {
                    lemma_keyed_at(self.profiles@, i as int);
                }
                self.profiles[i].1
            },
            None => PortProfile::new(now),
        }
    }

    fn on_http(&mut self, k: Endpoint, now: u64)
        requires
            old(self).wf(),
            now == old(self).clock,
        ensures
            final(self).wf(),
            final(self).profile_view() == after_http(
                old(self).profile_view(),
                k,
                now,
                old(self).config.spec_http_cooldown(),
            ),
            final(self).bursts@ == old(self).bursts@.insert(k, 0),
            final(self).batch == old(self).batch,
            final(self).batch_deadline == old(self).batch_deadline,
            final(self).cleanup_deadline == old(self).cleanup_deadline,
            final(self).clock == old(self).clock,
            final(self).config == old(self).config,
    {
        let cooldown = self.config.get_http_cooldown();
        let p = self.current_profile(k, now);
        let np = if locked(&p, now) {
            p
        } else {
            PortProfile {
                non_http_score: 0,
                http_lock_expires: Some(saturating_add(now, cooldown)),
                last_event: now,
                decision_deadline: None,
            }
        };
        put_key(&mut self.profiles, k, np);
        self.bursts = Ghost(self.bursts@.insert(k, 0));
        proof {
            assert(self.profile_view() == after_http(old(self).profile_view(), k, now, cooldown));
            assert forall|q: Endpoint| #[trigger] keyed_map(self.profiles@).contains_key(q) implies {
                let p = keyed_map(self.profiles@)[q];
                &&& (is_locked(p, self.clock) ==> p.non_http_score == 0 && p.decision_deadline.is_none())
                &&& p.non_http_score <= self.burst(q)
            } by {
                if q != k {
                    assert(keyed_map(old(self).profiles@).contains_key(q));
                }
            }
        }
    }

    fn on_non_http(&mut self, k: Endpoint, now: u64)
        requires
            old(self).wf(),
            now == old(self).clock,
        ensures
            final(self).wf(),
            final(self).profile_view() == after_non_http(
                old(self).profile_view(),
                k,
                now,
                old(self).config.fw_nonhttp_threshold,
                old(self).config.spec_decision_delay(),
            ),
            final(self).bursts@ == old(self).bursts@.insert(
                k,
                old(self).burst(k) + if is_locked(current(old(self).profile_view(), k, now), now) { 0nat } else { 1nat },
            ),
            final(self).batch == old(self).batch,
            final(self).batch_deadline == old(self).batch_deadline,
            final(self).cleanup_deadline == old(self).cleanup_deadline,
            final(self).clock == old(self).clock,
            final(self).config == old(self).config,
    {
        let delay = self.config.get_decision_delay();
        let threshold = self.config.fw_nonhttp_threshold;
        let p = self.current_profile(k, now);
        let np = if locked(&p, now) {
            PortProfile { last_event: now, ..p }
        } else {
            let score = if p.non_http_score == u32::MAX {
                p.non_http_score
            } else {
                p.non_http_score + 1
            };
            let deadline = if score >= threshold && p.decision_deadline.is_none() {
                Some(saturating_add(now, delay))
            } else {
                p.decision_deadline
            };
            PortProfile { non_http_score: score, last_event: now, decision_deadline: deadline, ..p }
        };
        let ghost b = self.burst(k) + if is_locked(p, now) { 0nat } else { 1nat };
        put_key(&mut self.profiles, k, np);
        self.bursts = Ghost(self.bursts@.insert(k, b));
        proof {
            assert(self.profile_view() == after_non_http(old(self).profile_view(), k, now, threshold, delay));
            assert forall|q: Endpoint| #[trigger] keyed_map(self.profiles@).contains_key(q) implies {
                let p = keyed_map(self.profiles@)[q];
                &&& (is_locked(p, self.clock) ==> p.non_http_score == 0 && p.decision_deadline.is_none())
                &&& p.non_http_score <= self.burst(q)
            } by {
                if q != k {
                    assert(keyed_map(old(self).profiles@).contains_key(q));
                }
            }
        }
    }
}

proof fn lemma_keyed_prefix<V>(s: Seq<(Endpoint, V)>, i: int)
    requires
        unique_keys(s),
        0 <= i < s.len(),
    ensures
        unique_keys(s.subrange(0, i)),
        !has_key(s.subrange(0, i), s[i].0),
        keyed_map(s.subrange(0, i + 1)) == keyed_map(s.subrange(0, i)).insert(s[i].0, s[i].1),
{
    let a = s.subrange(0, i);
    assert forall|x: int, y: int| 0 <= x < a.len() && 0 <= y < a.len() && x != y implies (#[trigger] a[x]).0 != (#[trigger] a[y]).0 by {
        assert(a[x] == s[x] && a[y] == s[y]);
    }
    if has_key(a, s[i].0) {
        let j = choose|j: int| 0 <= j < a.len() && (#[trigger] a[j]).0 == s[i].0;
        assert(a[j] == s[j]);
    }
    assert(s.subrange(0, i + 1) =~= a.push(s[i]));
    lemma_keyed_push(a, s[i].0, s[i].1);
}

/// Whether some profile of `m` is due at `now`.
pub open spec fn any_due(m: Map<Endpoint, PortProfile>, now: u64, threshold: u32) -> bool {
    exists|k: Endpoint| m.contains_key(k) && is_due(m[k], now, threshold)
}

/// The set entries that finalizing `m` at `now` produces.
pub open spec fn due_entries(m: Map<Endpoint, PortProfile>, now: u64, threshold: u32, timeout: u32) -> Map<Endpoint, u32> {
    Map::new(|k: Endpoint| m.contains_key(k) && is_due(m[k], now, threshold), |k: Endpoint| timeout)
}

impl FirewallEngine {
    /// Moves every profile whose decision has come into the batch.
    fn finalize_decisions(&mut self, now: u64)
        requires
            old(self).wf(),
            now == old(self).clock,
        ensures
            final(self).wf(),
            final(self).profile_view() == retain(
                old(self).profile_view(),
                |p: PortProfile| !is_due(p, now, old(self).config.fw_nonhttp_threshold),
            ),
            keyed_map(final(self).batch@) == keyed_map(old(self).batch@).union_prefer_right(
                due_entries(
                    old(self).profile_view(),
                    now,
                    old(self).config.fw_nonhttp_threshold,
                    old(self).config.fw_timeout,
                ),
            ),
            final(self).batch_deadline == (if old(self).batch_deadline.is_none() && any_due(
                old(self).profile_view(),
                now,
                old(self).config.fw_nonhttp_threshold,
            ) {
                Some(sat_add(now, BATCH_DELAY_MS))
            } else {
                old(self).batch_deadline
            }),
            final(self).bursts == old(self).bursts,
            final(self).cleanup_deadline == old(self).cleanup_deadline,
            final(self).clock == old(self).clock,
            final(self).config == old(self).config,
    {
        let threshold = self.config.fw_nonhttp_threshold;
        let timeout = self.config.fw_timeout;
        let ghost old_map = keyed_map(self.profiles@);
        let ghost old_batch = keyed_map(self.batch@);
        let ghost keep = |p: PortProfile| !is_due(p, now, threshold);
        let mut kept: Vec<(Endpoint, PortProfile)> = Vec::new();
        let mut i: usize = 0;
        let mut any = false;
        proof {
            assert(keyed_map(kept@) =~= retain(keyed_map(self.profiles@.subrange(0, 0)), keep));
            assert(!any_due(keyed_map(self.profiles@.subrange(0, 0)), now, threshold));
            assert(old_batch =~= old_batch.union_prefer_right(
                due_entries(keyed_map(self.profiles@.subrange(0, 0)), now, threshold, timeout)));
        }
        while i < self.profiles.len()
            invariant
                self.wf(),
                self.profiles == old(self).profiles,
                self.bursts == old(self).bursts,
                self.cleanup_deadline == old(self).cleanup_deadline,
                self.clock == now,
                self.config == old(self).config,
                threshold == self.config.fw_nonhttp_threshold,
                timeout == self.config.fw_timeout,
                old_map == keyed_map(self.profiles@),
                old_batch == keyed_map(old(self).batch@),
                keep == (|p: PortProfile| !is_due(p, now, threshold)),
                i <= self.profiles@.len(),
                unique_keys(kept@),
                keyed_map(kept@) == retain(keyed_map(self.profiles@.subrange(0, i as int)), keep),
                keyed_map(self.batch@) == old_batch.union_prefer_right(
                    due_entries(keyed_map(self.profiles@.subrange(0, i as int)), now, threshold, timeout),
                ),
                any == any_due(keyed_map(self.profiles@.subrange(0, i as int)), now, threshold),
                self.batch_deadline == (if old(self).batch_deadline.is_none() && any {
                    Some(sat_add(now, BATCH_DELAY_MS))
                } else {
                    old(self).batch_deadline
                }),
            decreases self.profiles@.len() - i,
        {
            let entry = self.profiles[i];
            let ghost pre = keyed_map(self.profiles@.subrange(0, i as int));
            proof {
                lemma_keyed_prefix(self.profiles@, i as int);
            }
            let ghost post = keyed_map(self.profiles@.subrange(0, i as int + 1));
            let due = match entry.1.decision_deadline {
                Some(d) => now >= d && entry.1.non_http_score >= threshold && !locked(&entry.1, now),
                None => false,
            };
            if due {
                put_key(&mut self.batch, entry.0, timeout);
                if self.batch_deadline.is_none() {
                    self.batch_deadline = Some(saturating_add(now, BATCH_DELAY_MS));
                }
                proof {
                    assert(due_entries(post, now, threshold, timeout) =~= due_entries(pre, now, threshold, timeout).insert(entry.0, timeout));
                    assert(retain(post, keep) =~= retain(pre, keep));
                    assert(keyed_map(self.batch@) =~= old_batch.union_prefer_right(due_entries(post, now, threshold, timeout)));
                    lemma_keyed_at(self.profiles@.subrange(0, i as int + 1), i as int);
                    assert(post.contains_key(entry.0) && is_due(post[entry.0], now, threshold));
                }
                any = true;
            } else {
                proof {
                    assert(!has_key(kept@, entry.0)) by {
                        if has_key(kept@, entry.0) {
                            let j = choose|j: int| 0 <= j < kept@.len() && (#[trigger] kept@[j]).0 == entry.0;
                            lemma_keyed_at(kept@, j);
                        }
                    }
                    lemma_keyed_push(kept@, entry.0, entry.1);
                    assert(due_entries(post, now, threshold, timeout) =~= due_entries(pre, now, threshold, timeout));
                    assert(retain(post, keep) =~= retain(pre, keep).insert(entry.0, entry.1));
                    assert(any_due(post, now, threshold) == any_due(pre, now, threshold)) by {
                        if any_due(post, now, threshold) {
                            let q = choose|q: Endpoint| post.contains_key(q) && is_due(post[q], now, threshold);
                            assert(pre.contains_key(q));
                        }
                        if any_due(pre, now, threshold) {
                            let q = choose|q: Endpoint| pre.contains_key(q) && is_due(pre[q], now, threshold);
                            assert(post.contains_key(q));
                        }
                    }
                }
                kept.push(entry);
            }
            i = i + 1;
        }
        proof {
            assert(self.profiles@.subrange(0, self.profiles@.len() as int) =~= self.profiles@);
        }
        self.profiles = kept;
        proof {
            assert forall|q: Endpoint| #[trigger] keyed_map(self.profiles@).contains_key(q) implies {
                let p = keyed_map(self.profiles@)[q];
                &&& (is_locked(p, self.clock) ==> p.non_http_score == 0 && p.decision_deadline.is_none())
                &&& p.non_http_score <= self.burst(q)
            } by {
                assert(old_map.contains_key(q));
            }
        }
    }

    /// Forgets every profile that has no active timer and has been quiet for
    /// longer than the cleanup interval.
    fn cleanup_profiles(&mut self, now: u64)
        requires
            old(self).wf(),
            now == old(self).clock,
        ensures
            final(self).wf(),
            final(self).profile_view() == retain(old(self).profile_view(), |p: PortProfile| !is_stale(p, now)),
            final(self).batch == old(self).batch,
            final(self).batch_deadline == old(self).batch_deadline,
            final(self).bursts == old(self).bursts,
            final(self).cleanup_deadline == old(self).cleanup_deadline,
            final(self).clock == old(self).clock,
            final(self).config == old(self).config,
    {
        let ghost old_map = keyed_map(self.profiles@);
        let ghost keep = |p: PortProfile| !is_stale(p, now);
        let mut kept: Vec<(Endpoint, PortProfile)> = Vec::new();
        let mut i: usize = 0;
        proof {
            assert(keyed_map(kept@) =~= retain(keyed_map(self.profiles@.subrange(0, 0)), keep));
        }
        while i < self.profiles.len()
            invariant
                self.wf(),
                self.profiles == old(self).profiles,
                self.clock == now,
                old_map == keyed_map(self.profiles@),
                keep == (|p: PortProfile| !is_stale(p, now)),
                i <= self.profiles@.len(),
                unique_keys(kept@),
                keyed_map(kept@) == retain(keyed_map(self.profiles@.subrange(0, i as int)), keep),
            decreases self.profiles@.len() - i,
        {
            let entry = self.profiles[i];
            let ghost pre = keyed_map(self.profiles@.subrange(0, i as int));
            proof {
                lemma_keyed_prefix(self.profiles@, i as int);
            }
            let ghost post = keyed_map(self.profiles@.subrange(0, i as int + 1));
            let stale = entry.1.decision_deadline.is_none() && !locked(&entry.1, now)
                && now > entry.1.last_event && now - entry.1.last_event > CLEANUP_INTERVAL_MS;
            if stale {
                proof {
                    assert(retain(post, keep) =~= retain(pre, keep));
                }
            } else {
                proof {
                    assert(!has_key(kept@, entry.0)) by {
                        if has_key(kept@, entry.0) {
                            let j = choose|j: int| 0 <= j < kept@.len() && (#[trigger] kept@[j]).0 == entry.0;
                            lemma_keyed_at(kept@, j);
                        }
                    }
                    lemma_keyed_push(kept@, entry.0, entry.1);
                    assert(retain(post, keep) =~= retain(pre, keep).insert(entry.0, entry.1));
                }
                kept.push(entry);
            }
            i = i + 1;
        }
        proof {
            assert(self.profiles@.subrange(0, self.profiles@.len() as int) =~= self.profiles@);
        }
        self.profiles = kept;
        proof {
            assert forall|q: Endpoint| #[trigger] keyed_map(self.profiles@).contains_key(q) implies {
                let p = keyed_map(self.profiles@)[q];
                &&& (is_locked(p, self.clock) ==> p.non_http_score == 0 && p.decision_deadline.is_none())
                &&& p.non_http_score <= self.burst(q)
            } by {
                assert(old_map.contains_key(q));
            }
        }
    }
}

/// The tool that installs set entries.
#[derive(Clone, Copy, Debug, PartialEq, Eq, Structural)]
pub enum Backend {
    Ipset,
    Nft,
}

/// `nft` when the configured type says so, `ipset` otherwise.
pub open spec fn backend_of(fw_type: Option<String>) -> Backend {
    match fw_type {
        Some(t) => if t@ == seq!['n', 'f', 't'] {
            Backend::Nft
        } else {
            Backend::Ipset
        },
        None => Backend::Ipset,
    }
}

fn select_backend(fw_type: &Option<String>) -> (r: Backend)
    ensures
        r == backend_of(*fw_type),
{
    match fw_type {
        Some(t) => {
            let cs = chars_of(t.as_str());
            if cs.len() == 3 && cs[0] == 'n' && cs[1] == 'f' && cs[2] == 't' {
                proof {
                    assert(t@ =~= seq!['n', 'f', 't']);
                }
                Backend::Nft
            } else {
                Backend::Ipset
            }
        },
        None => Backend::Ipset,
    }
}

/// A batch of set entries to hand to the firewall tool.
pub struct Flush {
    pub backend: Backend,
    pub set_name: String,
    pub entries: Vec<(Endpoint, u32)>,
}

/// Whether some flush of `fs` holds an entry for `k`.
pub open spec fn flushes_mention(fs: Seq<Flush>, k: Endpoint) -> bool {
    exists|i: int| 0 <= i < fs.len() && has_key((#[trigger] fs[i]).entries@, k)
}

/// What one run of the engine produced.
pub struct StepOutcome {
    /// The batches to install, in order.
    pub flushes: Vec<Flush>,
    /// Whether the engine has stopped.
    pub stopped: bool,
}

/// The profiles after the event part of a step.
pub open spec fn event_profiles(m: Map<Endpoint, PortProfile>, event: Option<Event>, now: u64, cfg: FirewallConfig) -> Map<Endpoint, PortProfile> {
    match event {
        Some(Event::Http { ip, port }) => after_http(m, Endpoint { ip, port }, now, cfg.spec_http_cooldown()),
        Some(Event::NonHttp { ip, port }) => if cfg.spec_enabled() && cfg.fw_bypass {
            after_non_http(m, Endpoint { ip, port }, now, cfg.fw_nonhttp_threshold, cfg.spec_decision_delay())
        } else {
            m
        },
        _ => m,
    }
}

impl FirewallEngine {
    /// Every flush carries the configured backend and set and at least one entry.
    pub open spec fn well_made(&self, f: Flush) -> bool {
        &&& f.backend == backend_of(self.spec_config().fw_type)
        &&& self.spec_config().fw_set_name == Some(f.set_name)
        &&& f.entries@.len() > 0
    }

    /// Empties the batch; where the firewall is configured, hands its entries
    /// over as one flush.
    fn flush_into(&mut self, flushes: &mut Vec<Flush>)
        requires
            old(self).wf(),
        ensures
            final(self).wf(),
            final(self).batch@ == Seq::<(Endpoint, u32)>::empty(),
            final(self).batch_deadline.is_none(),
            old(flushes)@.len() <= final(flushes)@.len() <= old(flushes)@.len() + 1,
            final(flushes)@.subrange(0, old(flushes)@.len() as int) == old(flushes)@,
            final(flushes)@.len() == old(flushes)@.len() + 1 <==> (old(self).config.spec_enabled() && old(self).batch@.len() > 0),
            final(flushes)@.len() == old(flushes)@.len() + 1 ==> {
                let f = final(flushes)@[old(flushes)@.len() as int];
                &&& f.entries@ == old(self).batch@
                &&& old(self).well_made(f)
            },
            final(self).profiles == old(self).profiles,
            final(self).bursts == old(self).bursts,
            final(self).cleanup_deadline == old(self).cleanup_deadline,
            final(self).clock == old(self).clock,
            final(self).config == old(self).config,
    {
        let mut entries: Vec<(Endpoint, u32)> = Vec::new();
        std::mem::swap(&mut entries, &mut self.batch);
        self.batch_deadline = None;
        if entries.len() > 0 && self.config.enable_firewall_set() {
            let set_name = match &self.config.fw_set_name {
                Some(n) => n.clone(),
                None => String::new(),
            };
            let backend = select_backend(&self.config.fw_type);
            flushes.push(Flush { backend, set_name, entries });
        }
        proof {
            assert(unique_keys(self.batch@));
            assert(flushes@.subrange(0, old(flushes)@.len() as int) =~= old(flushes)@);
        }
    }

    fn on_add(&mut self, k: Endpoint, timeout: u32, now: u64)
        requires
            old(self).wf(),
        ensures
            final(self).wf(),
            keyed_map(final(self).batch@) == keyed_map(old(self).batch@).insert(k, timeout),
            final(self).batch_deadline == (if old(self).batch_deadline.is_none() {
                Some(sat_add(now, BATCH_DELAY_MS))
            } else {
                old(self).batch_deadline
            }),
            final(self).profiles == old(self).profiles,
            final(self).bursts == old(self).bursts,
            final(self).cleanup_deadline == old(self).cleanup_deadline,
            final(self).clock == old(self).clock,
            final(self).config == old(self).config,
    {
        put_key(&mut self.batch, k, timeout);
        if self.batch_deadline.is_none() {
            self.batch_deadline = Some(saturating_add(now, BATCH_DELAY_MS));
        }
    }
}

/// With unique keys, the map has exactly as many keys as the sequence has entries.
proof fn lemma_keyed_len<V>(s: Seq<(Endpoint, V)>)
    requires
        unique_keys(s),
    ensures
        keyed_map(s).dom().finite(),
        keyed_map(s).dom().len() == s.len(),
    decreases s.len(),
{
    if s.len() == 0 {
        assert(keyed_map(s) =~= Map::<Endpoint, V>::empty());
    } else {
        let t = s.drop_last();
        let i = s.len() - 1;
        lemma_keyed_prefix(s, i);
        assert(s.subrange(0, i) =~= t);
        assert(s.subrange(0, i + 1) =~= s);
        lemma_keyed_len(t);
        assert(!keyed_map(t).dom().contains(s[i].0));
        assert(keyed_map(s).dom() =~= keyed_map(t).dom().insert(s[i].0));
    }
}

/// Empties the batch when `cond` holds, recording what was drained.
pub open spec fn drain_when(
    b: Map<Endpoint, u32>,
    d: Option<u64>,
    drains: Seq<Map<Endpoint, u32>>,
    cond: bool,
) -> (Map<Endpoint, u32>, Option<u64>, Seq<Map<Endpoint, u32>>) {
    if cond {
        (Map::<Endpoint, u32>::empty(), None, drains.push(b))
    } else {
        (b, d, drains)
    }
}

/// What a step does to the batch `b0` with deadline `d0`, given the profiles
/// `m1` after the event: the batch and deadline afterwards, and the batches
/// drained, in order. An `Add` stores its timeout under its key and starts
/// the batch delay if none runs; a batch of the limit size is drained at
/// once; a batch whose deadline has passed is drained; destinations that come
/// due are added with the configured timeout; the limit is checked again.
/// `Stop` drains what is pending.
pub open spec fn step_batches(
    cfg: FirewallConfig,
    b0: Map<Endpoint, u32>,
    d0: Option<u64>,
    event: Option<Event>,
    m1: Map<Endpoint, PortProfile>,
    now: u64,
) -> (Map<Endpoint, u32>, Option<u64>, Seq<Map<Endpoint, u32>>) {
    if event == Some(Event::Stop) {
        (
            Map::<Endpoint, u32>::empty(),
            None,
            if b0.dom().len() > 0 { seq![b0] } else { Seq::<Map<Endpoint, u32>>::empty() },
        )
    } else {
        let b1 = match event {
            Some(Event::Add { ip, port, timeout }) => b0.insert(Endpoint { ip, port }, timeout),
            _ => b0,
        };
        let d1 = match event {
            Some(Event::Add { .. }) => if d0.is_none() { Some(sat_add(now, BATCH_DELAY_MS)) } else { d0 },
            _ => d0,
        };
        let s2 = drain_when(b1, d1, Seq::<Map<Endpoint, u32>>::empty(), b1.dom().len() >= BATCH_LIMIT);
        let s3 = drain_when(s2.0, s2.1, s2.2, s2.1 matches Some(t) && now >= t && s2.0.dom().len() > 0);
        let b4 = s3.0.union_prefer_right(due_entries(m1, now, cfg.fw_nonhttp_threshold, cfg.fw_timeout));
        let d4 = if s3.1.is_none() && any_due(m1, now, cfg.fw_nonhttp_threshold) {
            Some(sat_add(now, BATCH_DELAY_MS))
        } else {
            s3.1
        };
        drain_when(b4, d4, s3.2, b4.dom().len() >= BATCH_LIMIT)
    }
}

/// The flushes carry the drained batches, one each, when the firewall is
/// configured, and there are none otherwise.
pub open spec fn flushes_carry(fs: Seq<Flush>, drains: Seq<Map<Endpoint, u32>>, enabled: bool) -> bool {
    &&& fs.len() == if enabled { drains.len() } else { 0 }
    &&& forall|i: int| 0 <= i < fs.len() ==> {
        &&& unique_keys((#[trigger] fs[i]).entries@)
        &&& keyed_map(fs[i].entries@) == drains[i]
    }
}

proof fn lemma_flushes_carry_push(
    fs: Seq<Flush>,
    fs2: Seq<Flush>,
    drains: Seq<Map<Endpoint, u32>>,
    enabled: bool,
    batch: Seq<(Endpoint, u32)>,
)
    requires
        flushes_carry(fs, drains, enabled),
        unique_keys(batch),
        batch.len() > 0,
        fs.len() <= fs2.len() <= fs.len() + 1,
        fs2.subrange(0, fs.len() as int) == fs,
        fs2.len() == fs.len() + 1 <==> enabled,
        fs2.len() == fs.len() + 1 ==> fs2[fs.len() as int].entries@ == batch,
    ensures
        flushes_carry(fs2, drains.push(keyed_map(batch)), enabled),
{
    assert forall|i: int| 0 <= i < fs2.len() implies {
        &&& unique_keys((#[trigger] fs2[i]).entries@)
        &&& keyed_map(fs2[i].entries@) == drains.push(keyed_map(batch))[i]
    } by {
        if i < fs.len() {
            assert(fs2[i] == fs2.subrange(0, fs.len() as int)[i]);
            assert(drains.push(keyed_map(batch))[i] == drains[i]);
        } else {
            assert(i == drains.len());
        }
    }
}

impl FirewallEngine {
    /// Whether every key pending in the batch or flushed in `fs` came from
    /// the batch of `start`, from an `Add` event, or from a profile of `m`
    /// whose score reached the threshold.
    spec fn traced(&self, fs: Seq<Flush>, start: Seq<(Endpoint, u32)>, event: Option<Event>, m: Map<Endpoint, PortProfile>) -> bool {
        forall|k: Endpoint| #![trigger has_key(self.batch@, k)] #![trigger flushes_mention(fs, k)]
            (has_key(self.batch@, k) || flushes_mention(fs, k)) ==> {
            ||| has_key(start, k)
            ||| is_add_for(event, k)
            ||| (m.contains_key(k) && m[k].non_http_score >= self.config.fw_nonhttp_threshold)
        }
    }

    /// Whether every key of `start`, every key added by `event` and every
    /// key of `due` is pending in the batch or flushed in `fs`.
    spec fn conserved(&self, fs: Seq<Flush>, start: Seq<(Endpoint, u32)>, event: Option<Event>, due: Map<Endpoint, u32>) -> bool {
        forall|k: Endpoint| #![trigger has_key(start, k)] #![trigger is_add_for(event, k)] #![trigger due.contains_key(k)]
            (has_key(start, k) || is_add_for(event, k) || due.contains_key(k))
                ==> has_key(self.batch@, k) || flushes_mention(fs, k)
    }

    proof fn lemma_conserved_flush(&self, after: &Self, fs: Seq<Flush>, fs2: Seq<Flush>, start: Seq<(Endpoint, u32)>, event: Option<Event>, due: Map<Endpoint, u32>)
        requires
            self.conserved(fs, start, event, due),
            fs.len() <= fs2.len(),
            fs2.subrange(0, fs.len() as int) == fs,
            self.batch@.len() > 0 ==> fs2.len() == fs.len() + 1 && fs2[fs.len() as int].entries@ == self.batch@,
        ensures
            after.conserved(fs2, start, event, due),
    {
        assert forall|k: Endpoint| #![trigger has_key(start, k)] #![trigger is_add_for(event, k)] #![trigger due.contains_key(k)]
            (has_key(start, k) || is_add_for(event, k) || due.contains_key(k))
                implies has_key(after.batch@, k) || flushes_mention(fs2, k) by {
            if has_key(self.batch@, k) {
                assert(has_key(fs2[fs.len() as int].entries@, k));
                assert(flushes_mention(fs2, k));
            } else {
                let i = choose|i: int| 0 <= i < fs.len() && has_key((#[trigger] fs[i]).entries@, k);
                assert(fs2[i] == fs2.subrange(0, fs.len() as int)[i]);
                assert(has_key(fs2[i].entries@, k));
            }
        }
    }

    proof fn lemma_traced_flush(&self, after: &Self, fs: Seq<Flush>, fs2: Seq<Flush>, start: Seq<(Endpoint, u32)>, event: Option<Event>, m: Map<Endpoint, PortProfile>)
        requires
            self.traced(fs, start, event, m),
            after.config == self.config,
            after.batch@ == Seq::<(Endpoint, u32)>::empty(),
            fs.len() <= fs2.len() <= fs.len() + 1,
            fs2.subrange(0, fs.len() as int) == fs,
            fs2.len() == fs.len() + 1 ==> fs2[fs.len() as int].entries@ == self.batch@,
        ensures
            after.traced(fs2, start, event, m),
    {
        assert forall|k: Endpoint| #![trigger has_key(after.batch@, k)] #![trigger flushes_mention(fs2, k)]
            (has_key(after.batch@, k) || flushes_mention(fs2, k)) implies {
            ||| has_key(start, k)
            ||| is_add_for(event, k)
            ||| (m.contains_key(k) && m[k].non_http_score >= after.config.fw_nonhttp_threshold)
        } by {
            assert(!has_key(after.batch@, k));
            if flushes_mention(fs2, k) {
                let i = choose|i: int| 0 <= i < fs2.len() && has_key((#[trigger] fs2[i]).entries@, k);
                if i < fs.len() {
                    assert(fs2[i] == fs2.subrange(0, fs.len() as int)[i]);
                    assert(fs[i] == fs2[i]);
                    assert(flushes_mention(fs, k));
                } else {
                    assert(has_key(self.batch@, k));
                }
            }
        }
    }

    /// Runs the engine once: handles `event` if there is one, then the timers.
    #[verifier::rlimit(60)]
    ///
    /// `now` is read from a monotonic clock; an earlier time than one already
    /// seen counts as that one.
    pub fn step(&mut self, event: Option<Event>, now: u64) -> (r: StepOutcome)
        requires
            old(self).wf(),
        ensures
            final(self).wf(),
            final(self).spec_config() == old(self).spec_config(),
            final(self).spec_clock() == (if now < old(self).spec_clock() {
                old(self).spec_clock()
            } else {
                now
            }),
            r.stopped == (event == Some(Event::Stop)),
            forall|i: int| 0 <= i < r.flushes@.len() ==> old(self).well_made(#[trigger] r.flushes@[i]),
            // Fewer than the batch limit stay pending, and what stays pending
            // has a batch deadline still ahead.
            final(self).batch_view().len() < BATCH_LIMIT,
            final(self).batch_view().len() > 0 ==> (final(self).spec_batch_deadline() matches Some(t)
                && (t > final(self).spec_clock() || final(self).spec_clock() == u64::MAX)),
            // The batch afterwards, its deadline, and what was flushed.
            ({
                let plan = step_batches(
                    old(self).spec_config(),
                    keyed_map(old(self).batch_view()),
                    old(self).spec_batch_deadline(),
                    event,
                    event_profiles(old(self).profile_view(), event, final(self).spec_clock(), old(self).spec_config()),
                    final(self).spec_clock(),
                );
                &&& keyed_map(final(self).batch_view()) == plan.0
                &&& final(self).spec_batch_deadline() == plan.1
                &&& flushes_carry(r.flushes@, plan.2, old(self).spec_config().spec_enabled())
            }),
            // Stopping drains the batch and leaves the profiles alone.
            r.stopped ==> final(self).batch_view().len() == 0,
            r.stopped ==> final(self).profile_view() == old(self).profile_view(),
            // How the profiles move.
            !r.stopped ==> {
                let m1 = event_profiles(old(self).profile_view(), event, final(self).spec_clock(), old(self).spec_config());
                let m2 = retain(m1, |p: PortProfile| !is_due(p, final(self).spec_clock(), old(self).spec_config().fw_nonhttp_threshold));
                final(self).profile_view() == if final(self).spec_clock() >= old(self).spec_cleanup_deadline() {
                    retain(m2, |p: PortProfile| !is_stale(p, final(self).spec_clock()))
                } else {
                    m2
                }
            },
            // The burst count of a destination: cleared by HTTP, grown by each
            // non-HTTP event that is counted.
            forall|k: Endpoint| #[trigger] final(self).burst(k) == match event {
                Some(Event::Http { ip, port }) => if k == (Endpoint { ip, port }) { 0 } else { old(self).burst(k) },
                Some(Event::NonHttp { ip, port }) => if k == (Endpoint { ip, port }) && old(self).spec_config().spec_enabled()
                    && old(self).spec_config().fw_bypass && !is_locked(
                    current(old(self).profile_view(), k, final(self).spec_clock()),
                    final(self).spec_clock(),
                ) {
                    old(self).burst(k) + 1
                } else {
                    old(self).burst(k)
                },
                _ => old(self).burst(k),
            },
            // A destination that is not pending, is not added directly, and has
            // not had the threshold of counted non-HTTP events since its last
            // HTTP event is neither pending afterwards nor flushed.
            forall|k: Endpoint|
                !old(self).batch_has(k) && !is_add_for(event, k)
                    && #[trigger] final(self).burst(k) < old(self).spec_config().fw_nonhttp_threshold
                ==> !final(self).batch_has(k) && !flushes_mention(r.flushes@, k),
            // With the firewall configured nothing is lost: what was pending, what
            // was added and what came due is pending afterwards or flushed.
            old(self).spec_config().spec_enabled() ==> forall|k: Endpoint|
                (old(self).batch_has(k) || is_add_for(event, k) || (!r.stopped && due_entries(
                    event_profiles(old(self).profile_view(), event, final(self).spec_clock(), old(self).spec_config()),
                    final(self).spec_clock(),
                    old(self).spec_config().fw_nonhttp_threshold,
                    old(self).spec_config().fw_timeout,
                ).contains_key(k))) ==> #[trigger] final(self).batch_has(k) || flushes_mention(r.flushes@, k),
            // After an HTTP request the destination is under cooldown bookkeeping
            // and has no pending decision.
            forall|ip: u32, port: u16| event == Some(Event::Http { ip, port }) ==> {
                &&& #[trigger] final(self).profile_view().contains_key(Endpoint { ip, port })
                &&& final(self).profile_view()[Endpoint { ip, port }].decision_deadline.is_none()
                &&& final(self).profile_view()[Endpoint { ip, port }].http_lock_expires.is_some()
            },
    {
        let now = if now < self.clock { self.clock } else { now };
        self.clock = now;
        proof {
            assert forall|q: Endpoint| #[trigger] keyed_map(self.profiles@).contains_key(q) implies {
                let p = keyed_map(self.profiles@)[q];
                &&& (is_locked(p, self.clock) ==> p.non_http_score == 0 && p.decision_deadline.is_none())
                &&& p.non_http_score <= self.burst(q)
            } by {
                let p = keyed_map(self.profiles@)[q];
                assert(is_locked(p, self.clock) ==> is_locked(p, old(self).clock));
            }
        }
        let ghost start = self.batch@;
        let ghost cfg = self.config;
        let threshold = self.config.fw_nonhttp_threshold;
        let mut flushes: Vec<Flush> = Vec::new();
        let ghost m0 = self.profile_view();
        let ghost en = cfg.spec_enabled();
        proof {
            lemma_keyed_len(self.batch@);
            assert(flushes@ =~= Seq::<Flush>::empty());
        }
        let stop = match event {
            Some(Event::Stop) => true,
            _ => false,
        };
        if stop {
            self.flush_into(&mut flushes);
            proof {
                assert(self.batch@ =~= Seq::<(Endpoint, u32)>::empty());
                assert forall|k: Endpoint| !flushes_mention(flushes@, k) || has_key(start, k) by {
                    if flushes_mention(flushes@, k) {
                        let i = choose|i: int| 0 <= i < flushes@.len() && has_key((#[trigger] flushes@[i]).entries@, k);
                        assert(i == 0);
                    }
                }
                if cfg.spec_enabled() {
                    assert forall|k: Endpoint| has_key(start, k) implies flushes_mention(flushes@, k) by {
                        assert(has_key(flushes@[0].entries@, k));
                    }
                }
                assert(keyed_map(self.batch@) =~= Map::<Endpoint, u32>::empty());
                if start.len() > 0 {
                    assert(flushes@.subrange(0, 0) =~= Seq::<Flush>::empty());
                    lemma_flushes_carry_push(Seq::<Flush>::empty(), flushes@, Seq::<Map<Endpoint, u32>>::empty(), en, start);
                    assert(Seq::<Map<Endpoint, u32>>::empty().push(keyed_map(start)) =~= seq![keyed_map(start)]);
                }
            }
            return StepOutcome { flushes, stopped: true };
        }
        match event {
            Some(Event::Add { ip, port, timeout }) => {
                self.on_add(Endpoint { ip, port }, timeout, now);
            },
            Some(Event::Http { ip, port }) => {
                self.on_http(Endpoint { ip, port }, now);
            },
            Some(Event::NonHttp { ip, port }) => {
                if self.config.enable_firewall_set() && self.config.fw_bypass {
                    self.on_non_http(Endpoint { ip, port }, now);
                }
            },
            _ => {},
        }
        let ghost m1 = self.profile_view();
        proof {
            assert(m1 == event_profiles(m0, event, now, cfg));
            assert forall|k: Endpoint| #[trigger] has_key(self.batch@, k) implies has_key(start, k) || is_add_for(event, k) by {
                if !is_add_for(event, k) {
                    match event {
                        Some(Event::Add { ip, port, timeout }) => {
                            assert(keyed_map(self.batch@).contains_key(k));
                            assert(keyed_map(start).contains_key(k));
                        },
                        _ => {},
                    }
                }
            }
            assert(self.traced(flushes@, start, event, m1));
            assert forall|k: Endpoint| #![trigger has_key(start, k)] #![trigger is_add_for(event, k)]
                #![trigger Map::<Endpoint, u32>::empty().contains_key(k)]
                (has_key(start, k) || is_add_for(event, k) || Map::<Endpoint, u32>::empty().contains_key(k))
                    implies has_key(self.batch@, k) || flushes_mention(flushes@, k) by {
                match event {
                    Some(Event::Add { ip, port, timeout }) => {
                        if has_key(start, k) {
                            assert(keyed_map(start).contains_key(k));
                        }
                        assert(keyed_map(self.batch@).contains_key(k));
                    },
                    _ => {},
                }
            }
            assert(self.conserved(flushes@, start, event, Map::<Endpoint, u32>::empty()));
        }
        let ghost g1 = (keyed_map(self.batch@), self.batch_deadline, Seq::<Map<Endpoint, u32>>::empty());
        proof {
            lemma_keyed_len(self.batch@);
        }
        let ghost g2 = drain_when(g1.0, g1.1, g1.2, g1.0.dom().len() >= BATCH_LIMIT);
        if self.batch.len() >= BATCH_LIMIT {
            let ghost before = *self;
            let ghost fs = flushes@;
            self.flush_into(&mut flushes);
            proof {
                lemma_flushes_carry_push(fs, flushes@, g1.2, en, before.batch@);
                assert(keyed_map(self.batch@) =~= Map::<Endpoint, u32>::empty());
                before.lemma_traced_flush(self, fs, flushes@, start, event, m1);
                if cfg.spec_enabled() {
                    before.lemma_conserved_flush(self, fs, flushes@, start, event, Map::<Endpoint, u32>::empty());
                }
            }
        }
        proof {
            assert(keyed_map(self.batch@) == g2.0 && self.batch_deadline == g2.1 && flushes_carry(flushes@, g2.2, en));
            lemma_keyed_len(self.batch@);
        }
        let ghost g3 = drain_when(g2.0, g2.1, g2.2, g2.1 matches Some(t) && now >= t && g2.0.dom().len() > 0);
        let due_flush = match self.batch_deadline {
            Some(t) => now >= t && self.batch.len() > 0,
            None => false,
        };
        if due_flush {
            let ghost before = *self;
            let ghost fs = flushes@;
            self.flush_into(&mut flushes);
            proof {
                lemma_flushes_carry_push(fs, flushes@, g2.2, en, before.batch@);
                assert(keyed_map(self.batch@) =~= Map::<Endpoint, u32>::empty());
                before.lemma_traced_flush(self, fs, flushes@, start, event, m1);
                if cfg.spec_enabled() {
                    before.lemma_conserved_flush(self, fs, flushes@, start, event, Map::<Endpoint, u32>::empty());
                }
            }
        }
        assert(self.batch_deadline matches Some(t) ==> t > now);
        assert(keyed_map(self.batch@) == g3.0 && self.batch_deadline == g3.1 && flushes_carry(flushes@, g3.2, en));
        let ghost b1 = self.batch@;
        let ghost due = due_entries(m1, now, threshold, self.config.fw_timeout);
        self.finalize_decisions(now);
        proof {
            assert forall|k: Endpoint| #![trigger has_key(self.batch@, k)] #![trigger flushes_mention(flushes@, k)]
                (has_key(self.batch@, k) || flushes_mention(flushes@, k)) implies {
                ||| has_key(start, k)
                ||| is_add_for(event, k)
                ||| (m1.contains_key(k) && m1[k].non_http_score >= self.config.fw_nonhttp_threshold)
            } by {
                if has_key(self.batch@, k) {
                    assert(keyed_map(self.batch@).contains_key(k));
                    if !keyed_map(b1).contains_key(k) {
                        assert(due_entries(m1, now, threshold, self.config.fw_timeout).contains_key(k));
                    } else {
                        assert(has_key(b1, k));
                    }
                }
            }
            if cfg.spec_enabled() {
                assert forall|k: Endpoint| #![trigger has_key(start, k)] #![trigger is_add_for(event, k)]
                    #![trigger due.contains_key(k)]
                    (has_key(start, k) || is_add_for(event, k) || due.contains_key(k))
                        implies has_key(self.batch@, k) || flushes_mention(flushes@, k) by {
                    if due.contains_key(k) {
                        assert(keyed_map(self.batch@).contains_key(k));
                    } else if !flushes_mention(flushes@, k) {
                        assert(Map::<Endpoint, u32>::empty().contains_key(k) == false);
                        assert(has_key(b1, k));
                        assert(keyed_map(b1).contains_key(k));
                        assert(keyed_map(self.batch@).contains_key(k));
                    }
                }
            }
        }
        let ghost b4 = g3.0.union_prefer_right(due);
        let ghost d4 = if g3.1.is_none() && any_due(m1, now, threshold) {
            Some(sat_add(now, BATCH_DELAY_MS))
        } else {
            g3.1
        };
        proof {
            assert(keyed_map(self.batch@) == b4 && self.batch_deadline == d4);
            lemma_keyed_len(self.batch@);
        }
        let ghost g5 = drain_when(b4, d4, g3.2, b4.dom().len() >= BATCH_LIMIT);
        if self.batch.len() >= BATCH_LIMIT {
            let ghost before = *self;
            let ghost fs = flushes@;
            self.flush_into(&mut flushes);
            proof {
                lemma_flushes_carry_push(fs, flushes@, g3.2, en, before.batch@);
                assert(keyed_map(self.batch@) =~= Map::<Endpoint, u32>::empty());
                before.lemma_traced_flush(self, fs, flushes@, start, event, m1);
                if cfg.spec_enabled() {
                    before.lemma_conserved_flush(self, fs, flushes@, start, event, due);
                }
            }
        }
        assert(keyed_map(self.batch@) == g5.0 && self.batch_deadline == g5.1 && flushes_carry(flushes@, g5.2, en));
        assert(self.batch@.len() < BATCH_LIMIT);
        assert(self.batch@.len() > 0 ==> (self.batch_deadline matches Some(t) && (t > now || now == u64::MAX)));
        if now >= self.cleanup_deadline {
            self.cleanup_profiles(now);
            self.cleanup_deadline = saturating_add(now, CLEANUP_INTERVAL_MS);
        }
        proof {
            assert(cfg.spec_enabled() ==> self.conserved(flushes@, start, event, due));
            assert forall|k: Endpoint|
                !has_key(start, k) && !is_add_for(event, k)
                    && #[trigger] self.burst(k) < self.config.fw_nonhttp_threshold
            implies !has_key(self.batch@, k) && !flushes_mention(flushes@, k) by {}
        }
        StepOutcome { flushes, stopped: false }
    }
}

/// Dotted-quad rendering of an IPv4 address.
pub open spec fn ipv4_text(ip: u32) -> Seq<char> {
    decimal((ip / 16777216) as nat) + "."@ + decimal(((ip / 65536) % 256) as nat) + "."@
        + decimal(((ip / 256) % 256) as nat) + "."@ + decimal((ip % 256) as nat)
}

/// One line of `ipset restore` input; a zero timeout is left out.
pub open spec fn ipset_line(set: Seq<char>, e: (Endpoint, u32)) -> Seq<char> {
    "add "@ + set + " "@ + ipv4_text(e.0.ip) + ","@ + decimal(e.0.port as nat) + (if e.1 > 0 {
        " timeout "@ + decimal(e.1 as nat)
    } else {
        Seq::<char>::empty()
    }) + " -exist\n"@
}

/// The whole `ipset restore` input for `entries`.
pub open spec fn ipset_script(set: Seq<char>, entries: Seq<(Endpoint, u32)>) -> Seq<char>
    decreases entries.len(),
{
    if entries.len() == 0 {
        Seq::<char>::empty()
    } else {
        ipset_script(set, entries.drop_last()) + ipset_line(set, entries.last())
    }
}

/// One element of an `nft add element` list; a zero timeout is left out.
pub open spec fn nft_element(e: (Endpoint, u32)) -> Seq<char> {
    ipv4_text(e.0.ip) + " . "@ + decimal(e.0.port as nat) + (if e.1 > 0 {
        " timeout "@ + decimal(e.1 as nat) + "s"@
    } else {
        Seq::<char>::empty()
    })
}

/// The elements of `entries`, separated by `", "`.
pub open spec fn nft_elements(entries: Seq<(Endpoint, u32)>) -> Seq<char>
    decreases entries.len(),
{
    if entries.len() == 0 {
        Seq::<char>::empty()
    } else if entries.len() == 1 {
        nft_element(entries[0])
    } else {
        nft_elements(entries.drop_last()) + ", "@ + nft_element(entries.last())
    }
}

fn push_ipv4(out: &mut Vec<char>, ip: u32)
    ensures
        final(out)@ == old(out)@ + ipv4_text(ip),
{
    push_decimal(out, (ip / 16777216) as u64);
    push_str(out, ".");
    push_decimal(out, ((ip / 65536) % 256) as u64);
    push_str(out, ".");
    push_decimal(out, ((ip / 256) % 256) as u64);
    push_str(out, ".");
    push_decimal(out, (ip % 256) as u64);
    proof {
        assert(out@ =~= old(out)@ + ipv4_text(ip));
    }
}

fn push_ipset_line(out: &mut Vec<char>, set: &str, e: (Endpoint, u32))
    ensures
        final(out)@ == old(out)@ + ipset_line(set@, e),
{
    push_str(out, "add ");
    push_str(out, set);
    push_str(out, " ");
    push_ipv4(out, e.0.ip);
    push_str(out, ",");
    push_decimal(out, e.0.port as u64);
    let ghost mid = out@;
    if e.1 > 0 {
        push_str(out, " timeout ");
        push_decimal(out, e.1 as u64);
    }
    proof {
        assert(out@ =~= mid + (if e.1 > 0 {
            " timeout "@ + decimal(e.1 as nat)
        } else {
            Seq::<char>::empty()
        }));
    }
    push_str(out, " -exist\n");
    proof {
        assert(out@ =~= old(out)@ + ipset_line(set@, e));
    }
}

fn push_nft_element(out: &mut Vec<char>, e: (Endpoint, u32))
    ensures
        final(out)@ == old(out)@ + nft_element(e),
{
    push_ipv4(out, e.0.ip);
    push_str(out, " . ");
    push_decimal(out, e.0.port as u64);
    let ghost mid = out@;
    if e.1 > 0 {
        push_str(out, " timeout ");
        push_decimal(out, e.1 as u64);
        push_str(out, "s");
    }
    proof {
        assert(out@ =~= old(out)@ + nft_element(e));
    }
}

impl Flush {
    /// The `ipset restore` input that installs the entries.
    pub fn ipset_input(&self) -> (r: String)
        ensures
            r@ == ipset_script(self.set_name@, self.entries@),
    {
        let mut out: Vec<char> = Vec::new();
        let mut i: usize = 0;
        while i < self.entries.len()
            invariant
                i <= self.entries@.len(),
                out@ == ipset_script(self.set_name@, self.entries@.subrange(0, i as int)),
            decreases self.entries@.len() - i,
        {
            push_ipset_line(&mut out, self.set_name.as_str(), self.entries[i]);
            proof {
                let s = self.entries@.subrange(0, i as int + 1);
                assert(s.drop_last() =~= self.entries@.subrange(0, i as int));
            }
            i = i + 1;
        }
        proof {
            assert(self.entries@.subrange(0, self.entries@.len() as int) =~= self.entries@);
        }
        string_of(&out)
    }

    /// The element list of `nft add element` for the entries.
    pub fn nft_element_list(&self) -> (r: String)
        ensures
            r@ == nft_elements(self.entries@),
    {
        let mut out: Vec<char> = Vec::new();
        let mut i: usize = 0;
        while i < self.entries.len()
            invariant
                i <= self.entries@.len(),
                out@ == nft_elements(self.entries@.subrange(0, i as int)),
            decreases self.entries@.len() - i,
        {
            let ghost before = out@;
            if i > 0 {
                push_str(&mut out, ", ");
            }
            push_nft_element(&mut out, self.entries[i]);
            proof {
                let s = self.entries@.subrange(0, i as int + 1);
                assert(s.drop_last() =~= self.entries@.subrange(0, i as int));
                if i == 0 {
                    assert(out@ =~= nft_element(s[0]));
                } else {
                    assert(out@ =~= before + ", "@ + nft_element(s.last()));
                }
            }
            i = i + 1;
        }
        proof {
            assert(self.entries@.subrange(0, self.entries@.len() as int) =~= self.entries@);
        }
        string_of(&out)
    }

    /// The program to run: `nft` or `ipset`.
    pub fn program(&self) -> (r: String)
        ensures
            r@ == (if self.backend == Backend::Nft { "nft"@ } else { "ipset"@ }),
    {
        match self.backend {
            Backend::Nft => "nft".to_owned(),
            Backend::Ipset => "ipset".to_owned(),
        }
    }

    /// The arguments of the program: `restore` for ipset, which reads
    /// `ipset_input` on its standard input; for nft the whole element list.
    pub fn args(&self) -> (r: Vec<String>)
        ensures
            self.backend == Backend::Ipset ==> r@.len() == 1 && r@[0]@ == "restore"@,
            self.backend == Backend::Nft ==> {
                &&& r@.len() == 8
                &&& r@[0]@ == "add"@
                &&& r@[1]@ == "element"@
                &&& r@[2]@ == "inet"@
                &&& r@[3]@ == "fw4"@
                &&& r@[4]@ == self.set_name@
                &&& r@[5]@ == "{"@
                &&& r@[6]@ == nft_elements(self.entries@)
                &&& r@[7]@ == "}"@
            },
    {
        let mut r: Vec<String> = Vec::new();
        match self.backend {
            Backend::Ipset => {
                r.push("restore".to_owned());
            },
            Backend::Nft => {
                r.push("add".to_owned());
                r.push("element".to_owned());
                r.push("inet".to_owned());
                r.push("fw4".to_owned());
                r.push(self.set_name.clone());
                r.push("{".to_owned());
                r.push(self.nft_element_list());
                r.push("}".to_owned());
            },
        }
        r
    }
}

/// The earlier of a time and an optional one.
pub open spec fn earlier(a: u64, b: Option<u64>) -> u64 {
    match b {
        Some(x) => if x < a { x } else { a },
        None => a,
    }
}

/// The earliest of `b` and those of `a` and `c` that are present.
pub fn min_instant(a: Option<u64>, b: u64, c: Option<u64>) -> (r: Option<u64>)
    ensures
        r == Some(earlier(earlier(b, a), c)),
{
    let mut out = b;
    if let Some(x) = a {
        if x < out {
            out = x;
        }
    }
    if let Some(x) = c {
        if x < out {
            out = x;
        }
    }
    Some(out)
}

impl FirewallEngine {
    /// The earliest pending decision deadline of any profile.
    pub fn decision_deadline(&self) -> (r: Option<u64>)
        requires
            self.wf(),
        ensures
            r.is_none() <==> (forall|k: Endpoint| #[trigger] self.profile_view().contains_key(k)
                ==> self.profile_view()[k].decision_deadline.is_none()),
            r matches Some(d) ==> {
                &&& exists|k: Endpoint| #[trigger] self.profile_view().contains_key(k)
                    && self.profile_view()[k].decision_deadline == Some(d)
                &&& forall|k: Endpoint| #[trigger] self.profile_view().contains_key(k)
                    ==> (self.profile_view()[k].decision_deadline matches Some(e) ==> d <= e)
            },
    {
        let mut best: Option<u64> = None;
        let mut i: usize = 0;
        while i < self.profiles.len()
            invariant
                self.wf(),
                i <= self.profiles@.len(),
                best.is_none() <==> (forall|j: int| 0 <= j < i ==> (#[trigger] self.profiles@[j]).1.decision_deadline.is_none()),
                best matches Some(d) ==> {
                    &&& exists|j: int| 0 <= j < i && (#[trigger] self.profiles@[j]).1.decision_deadline == Some(d)
                    &&& forall|j: int| 0 <= j < i ==> ((#[trigger] self.profiles@[j]).1.decision_deadline matches Some(e) ==> d <= e)
                },
            decreases self.profiles@.len() - i,
        {
            if let Some(x) = self.profiles[i].1.decision_deadline {
                match best {
                    Some(d) => {
                        if x < d {
                            best = Some(x);
                        }
                    },
                    None => {
                        best = Some(x);
                    },
                }
            }
            i = i + 1;
        }
        proof {
            let s = self.profiles@;
            assert forall|k: Endpoint| #[trigger] self.profile_view().contains_key(k) implies
                exists|j: int| 0 <= j < s.len() && s[j].0 == k && s[j].1 == self.profile_view()[k] by {
                let j = choose|j: int| 0 <= j < s.len() && (#[trigger] s[j]).0 == k;
                lemma_keyed_at(s, j);
            }
            if let Some(d) = best {
                let j = choose|j: int| 0 <= j < s.len() && (#[trigger] s[j]).1.decision_deadline == Some(d);
                lemma_keyed_at(s, j);
                assert(self.profile_view().contains_key(s[j].0));
            } else {
                assert forall|k: Endpoint| #[trigger] self.profile_view().contains_key(k) implies
                    self.profile_view()[k].decision_deadline.is_none() by {
                    let j = choose|j: int| 0 <= j < s.len() && s[j].0 == k && s[j].1 == self.profile_view()[k];
                    assert(s[j].1.decision_deadline.is_none());
                }
            }
            if best.is_some() {
                let j = choose|j: int| 0 <= j < s.len() && (#[trigger] s[j]).1.decision_deadline.is_some();
                lemma_keyed_at(s, j);
                assert(self.profile_view().contains_key(s[j].0));
            }
        }
        best
    }

    /// When the engine next has timer work: the earliest of the batch
    /// deadline, the cleanup deadline and any decision deadline.
    pub fn next_wake(&self) -> (r: Option<u64>)
        requires
            self.wf(),
        ensures
            r matches Some(t) && t <= self.spec_cleanup_deadline()
                && (self.spec_batch_deadline() matches Some(b) ==> t <= b)
                && (forall|k: Endpoint| #[trigger] self.profile_view().contains_key(k)
                    ==> (self.profile_view()[k].decision_deadline matches Some(e) ==> t <= e))
                && (t == self.spec_cleanup_deadline() || self.spec_batch_deadline() == Some(t)
                    || exists|k: Endpoint| #[trigger] self.profile_view().contains_key(k)
                    && self.profile_view()[k].decision_deadline == Some(t)),
    {
        min_instant(self.batch_deadline, self.cleanup_deadline, self.decision_deadline())
    }
}

/// The non-HTTP score never wraps: at `u32::MAX` another non-HTTP flow
/// leaves it there, and below it the score grows by one.
pub proof fn lemma_score_saturates(m: Map<Endpoint, PortProfile>, k: Endpoint, now: u64, threshold: u32, delay: u64)
    requires
        !is_locked(current(m, k, now), now),
    ensures
        after_non_http(m, k, now, threshold, delay)[k].non_http_score == if current(m, k, now).non_http_score == u32::MAX {
            u32::MAX
        } else {
            (current(m, k, now).non_http_score + 1) as u32
        },
        after_non_http(m, k, now, threshold, delay)[k].non_http_score >= current(m, k, now).non_http_score,
{
}

impl FirewallEngine {
    /// While the HTTP cooldown of a destination runs, the destination has no
    /// non-HTTP score and no pending decision, so it cannot be promoted.
    pub proof fn lemma_cooldown_blocks_decision(&self, k: Endpoint)
        requires
            self.wf(),
            self.profile_view().contains_key(k),
            is_locked(self.profile_view()[k], self.spec_clock()),
        ensures
            self.profile_view()[k].decision_deadline.is_none(),
            self.profile_view()[k].non_http_score == 0,
    {
    }

    /// A destination's non-HTTP score never exceeds the number of non-HTTP
    /// events seen for it since its last HTTP event.
    pub proof fn lemma_score_within_burst(&self, k: Endpoint)
        requires
            self.wf(),
            self.profile_view().contains_key(k),
        ensures
            self.profile_view()[k].non_http_score <= self.burst(k),
    {
    }
}

} // verus!
