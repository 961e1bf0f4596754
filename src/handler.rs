//! The per-request decision: firewall whitelist first, then the decision
//! cache, then the rewrite policy.

use vstd::prelude::*;

use crate::config::Config;
use crate::lru::{
    Cache, CacheDecision, Entries, distinct_keys, lemma_insert_keeps, lemma_lookup_after_insert,
    lemma_touch_keeps, lru_insert, lru_lookup, lru_touch,
};
use crate::policy::{
    CompiledPattern, MatchMode, any_contained, compile_pattern, contains_any, modify_rule,
    pattern_matches, regex_valid,
};
use crate::text::chars_of;

verus! {

/// What to do with the `User-Agent` of a request.
#[derive(Clone, Copy, Debug, PartialEq, Eq, Structural)]
pub enum UaAction {
    /// Forward the request as it is.
    Keep,
    /// Put the configured replacement in place of the `User-Agent`.
    Replace,
    /// Close the client connection without forwarding.
    Drop,
}

/// The decision on one request.
#[derive(Clone, Copy, Debug, PartialEq, Eq, Structural)]
pub struct RequestOutcome {
    pub action: UaAction,
    /// The destination is to be added to the bypass set.
    pub whitelist_add: bool,
    /// The decision was read from the cache: `Pass`, or `Modify` for any
    /// other cached tag.
    pub cache_hit: Option<CacheDecision>,
}

/// Why a handler could not be built.
#[derive(Clone, Copy, Debug, PartialEq, Eq, Structural)]
pub enum HandlerError {
    /// The regex pattern does not compile.
    InvalidRegex,
}

/// Nothing changes and nothing is counted.
pub open spec fn untouched() -> RequestOutcome {
    RequestOutcome { action: UaAction::Keep, whitelist_add: false, cache_hit: None }
}

/// A cache read: nothing is found and nothing moves when the capacity is zero.
pub open spec fn cache_read(e: Entries, cap: nat, k: Seq<char>) -> (Option<CacheDecision>, Entries) {
    if cap == 0 {
        (None, e)
    } else {
        (lru_lookup(e, k), lru_touch(e, k))
    }
}

/// A cache write: nothing is stored when the capacity is zero.
pub open spec fn cache_write(e: Entries, cap: nat, k: Seq<char>, v: CacheDecision) -> Entries {
    if cap == 0 {
        e
    } else {
        lru_insert(e, k, v, cap)
    }
}

/// Whether the firewall whitelist is consulted.
pub open spec fn whitelist_active(cfg: Config) -> bool {
    cfg.firewall.spec_enabled() && cfg.firewall.fw_ua_w@.len() > 0
}

/// The decision on a request whose `User-Agent` reads `ua` (none when absent
/// or not printable), with cache contents `e`, and the contents afterwards.
/// The firewall whitelist comes first; a User-Agent on the rewrite whitelist
/// is then left alone; the cache and the policy decide the rest.
pub open spec fn plan(cfg: Config, e: Entries, ua: Option<Seq<char>>) -> (RequestOutcome, Entries) {
    match ua {
        None => (untouched(), e),
        Some(u) => if u.len() == 0 {
            (untouched(), e)
        } else {
            let cap = cfg.cache_size as nat;
            let (c1, e1) = if whitelist_active(cfg) { cache_read(e, cap, u) } else { (None, e) };
            if whitelist_active(cfg) && c1 == Some(CacheDecision::FwWhitelist) {
                (untouched(), e1)
            } else if whitelist_active(cfg) && any_contained(u, cfg.firewall.fw_ua_w@) {
                (
                    RequestOutcome {
                        action: if cfg.firewall.fw_drop { UaAction::Drop } else { UaAction::Keep },
                        whitelist_add: true,
                        cache_hit: None,
                    },
                    cache_write(e1, cap, u, CacheDecision::FwWhitelist),
                )
            } else if any_contained(u, cfg.whitelist@) {
                (untouched(), e1)
            } else {
                let (c2, e2) = cache_read(e1, cap, u);
                let modify = match c2 {
                    Some(CacheDecision::Pass) => false,
                    Some(_) => true,
                    None => modify_rule(cfg.match_mode, u),
                };
                (
                    RequestOutcome {
                        action: if modify { UaAction::Replace } else { UaAction::Keep },
                        whitelist_add: false,
                        cache_hit: match c2 {
                            Some(CacheDecision::Pass) => Some(CacheDecision::Pass),
                            Some(_) => Some(CacheDecision::Modify),
                            None => None,
                        },
                    },
                    cache_write(e2, cap, u, if modify { CacheDecision::Modify } else { CacheDecision::Pass }),
                )
            }
        },
    }
}

/// Whether every character may stand in an HTTP header value: a tab, or no
/// control character.
pub open spec fn header_value_ok(s: Seq<char>) -> bool {
    forall|i: int| 0 <= i < s.len() ==> (#[trigger] s[i] == '\t' || (' ' <= s[i] && s[i] != '\x7f'))
}

/// The replacement written into requests: the configured one when it can
/// stand in a header, `UAForge` otherwise.
pub open spec fn replacement_of(ua: Seq<char>) -> Seq<char> {
    if header_value_ok(ua) {
        ua
    } else {
        "UAForge"@
    }
}

fn header_value_valid(s: &str) -> (r: bool)
    ensures
        r == header_value_ok(s@),
{
    let cs = chars_of(s);
    let mut i: usize = 0;
    while i < cs.len()
        invariant
            cs@ == s@,
            i <= cs@.len(),
            forall|j: int| 0 <= j < i ==> (#[trigger] cs@[j] == '\t' || (' ' <= cs@[j] && cs@[j] != '\x7f')),
        decreases cs@.len() - i,
    {
        let c = cs[i];
        if !(c == '\t' || (' ' <= c && c != '\x7f')) {
            return false;
        }
        i = i + 1;
    }
    true
}

/// The request handler: configuration, decision cache and the replacement.
pub struct HttpHandler {
    config: Config,
    cache: Cache,
    user_agent_header: String,
    /// The regex of `Regex` mode, compiled once.
    regex: Option<CompiledPattern>,
}

/// The optional view of an optional string.
pub open spec fn opt_view(ua: Option<&str>) -> Option<Seq<char>> {
    match ua {
        Some(u) => Some(u@),
        None => None,
    }
}

impl HttpHandler {
    pub closed spec fn spec_config(&self) -> Config {
        self.config
    }

    /// The cache contents, least recently used first.
    pub closed spec fn cache_entries(&self) -> Entries {
        self.cache.entries()
    }

    pub closed spec fn spec_replacement(&self) -> Seq<char> {
        self.user_agent_header@
    }

    pub closed spec fn wf(&self) -> bool {
        &&& self.cache.wf()
        &&& self.cache.spec_capacity() == self.config.cache_size
        &&& self.user_agent_header@ == replacement_of(self.config.user_agent@)
        &&& (self.config.match_mode matches MatchMode::Regex { pattern } ==> {
            &&& regex_valid(pattern@)
            &&& self.regex matches Some(c) && c.source() == pattern@
        })
    }

    /// The rewrite rule, with the regex compiled at construction.
    fn rule_says_modify(&self, ua: &str) -> (r: bool)
        requires
            self.wf(),
        ensures
            r == modify_rule(self.config.match_mode, ua@),
    {
        match &self.config.match_mode {
            MatchMode::Force => true,
            MatchMode::Keywords(k) => contains_any(ua, k),
            MatchMode::Regex { .. } => match &self.regex {
                Some(c) => pattern_matches(c, ua),
                None => false,
            },
        }
    }

    /// The cache of a handler holds distinct keys, no more of them than the
    /// configured cache size.
    pub proof fn lemma_cache_bounded(&self)
        requires
            self.wf(),
        ensures
            distinct_keys(self.cache_entries()),
            self.cache_entries().len() <= self.spec_config().cache_size,
    {
        self.cache.lemma_wf_bounded();
    }

    /// On a handler with a cache: after a request whose User-Agent hit the
    /// firewall whitelist, a second request with that User-Agent adds nothing.
    pub proof fn lemma_whitelist_once(&self, ua: Seq<char>)
        requires
            self.wf(),
            self.spec_config().cache_size > 0,
            plan(self.spec_config(), self.cache_entries(), Some(ua)).0.whitelist_add,
        ensures
            !plan(
                self.spec_config(),
                plan(self.spec_config(), self.cache_entries(), Some(ua)).1,
                Some(ua),
            ).0.whitelist_add,
    {
        self.lemma_cache_bounded();
        lemma_whitelist_hit_added_once(self.spec_config(), self.cache_entries(), ua);
    }

    /// Builds a handler; a regex pattern that does not compile is refused.
    pub fn new(config: Config) -> (r: Result<HttpHandler, HandlerError>)
        ensures
            r is Err <==> (config.match_mode matches MatchMode::Regex { pattern } && !regex_valid(pattern@)),
            r matches Err(e) ==> e == HandlerError::InvalidRegex,
            r matches Ok(h) ==> {
                &&& h.wf()
                &&& h.spec_config() == config
                &&& h.cache_entries() == Seq::<(Seq<char>, CacheDecision)>::empty()
                &&& h.spec_replacement() == replacement_of(config.user_agent@)
            },
    {
        let regex = match &config.match_mode {
            MatchMode::Regex { pattern } => match compile_pattern(pattern.as_str()) {
                Some(c) => Some(c),
                None => {
                    return Err(HandlerError::InvalidRegex);
                },
            },
            _ => None,
        };
        let cache = Cache::new(config.cache_size);
        let user_agent_header = if header_value_valid(config.user_agent.as_str()) {
            config.user_agent.clone()
        } else {
            "UAForge".to_owned()
        };
        Ok(HttpHandler { config, cache, user_agent_header, regex })
    }

    /// The text that replaces a rewritten `User-Agent`.
    pub fn replacement(&self) -> (r: &str)
        ensures
            r@ == self.spec_replacement(),
    {
        self.user_agent_header.as_str()
    }

    /// Decides on a request whose `User-Agent` reads `ua`; `None` stands for
    /// a header that is absent or not printable.
    pub fn modify_request(&mut self, ua: Option<&str>) -> (r: RequestOutcome)
        requires
            old(self).wf(),
        ensures
            final(self).wf(),
            final(self).spec_config() == old(self).spec_config(),
            final(self).spec_replacement() == old(self).spec_replacement(),
            (r, final(self).cache_entries()) == plan(old(self).spec_config(), old(self).cache_entries(), opt_view(ua)),
    {
        let u = match ua {
            None => {
                return RequestOutcome { action: UaAction::Keep, whitelist_add: false, cache_hit: None };
            },
            Some(u) => u,
        };
        if u.is_empty() {
            return RequestOutcome { action: UaAction::Keep, whitelist_add: false, cache_hit: None };
        }
        let whitelist = self.config.firewall.enable_firewall_set() && self.config.firewall.fw_ua_w.len() > 0;
        if whitelist {
            let cached = self.cache.get(u);
            if let Some(CacheDecision::FwWhitelist) = cached {
                return RequestOutcome { action: UaAction::Keep, whitelist_add: false, cache_hit: None };
            }
            if contains_any(u, &self.config.firewall.fw_ua_w) {
                self.cache.put(u.to_owned(), CacheDecision::FwWhitelist);
                let action = if self.config.firewall.fw_drop {
                    UaAction::Drop
                } else {
                    UaAction::Keep
                };
                return RequestOutcome { action, whitelist_add: true, cache_hit: None };
            }
        }
        if contains_any(u, &self.config.whitelist) {
            return RequestOutcome { action: UaAction::Keep, whitelist_add: false, cache_hit: None };
        }
        let cached = self.cache.get(u);
        let (modify, cache_hit) = match cached {
            Some(CacheDecision::Pass) => (false, Some(CacheDecision::Pass)),
            Some(_) => (true, Some(CacheDecision::Modify)),
            None => (self.rule_says_modify(u), None),
        };
        let tag = if modify {
            CacheDecision::Modify
        } else {
            CacheDecision::Pass
        };
        self.cache.put(u.to_owned(), tag);
        let action = if modify {
            UaAction::Replace
        } else {
            UaAction::Keep
        };
        RequestOutcome { action, whitelist_add: false, cache_hit }
    }

    /// Whether a non-HTTP flow is to be reported to the firewall engine.
    pub fn report_non_http(&self) -> (r: bool)
        ensures
            r == (self.spec_config().firewall.spec_enabled() && self.spec_config().firewall.fw_bypass),
    {
        self.config.firewall.enable_firewall_set() && self.config.firewall.fw_bypass
    }
}

/// A User-Agent that hits the firewall whitelist adds its destination once:
/// while the cache still holds the decision, a second request with the same
/// User-Agent adds nothing.
pub proof fn lemma_whitelist_hit_added_once(cfg: Config, e: Entries, ua: Seq<char>)
    requires
        distinct_keys(e),
        e.len() <= cfg.cache_size,
        cfg.cache_size > 0,
        plan(cfg, e, Some(ua)).0.whitelist_add,
    ensures
        !plan(cfg, plan(cfg, e, Some(ua)).1, Some(ua)).0.whitelist_add,
{
    let cap = cfg.cache_size as nat;
    lemma_touch_keeps(e, ua);
    let e1 = lru_touch(e, ua);
    lemma_lookup_after_insert(e1, ua, CacheDecision::FwWhitelist, cap);
}

} // verus!
