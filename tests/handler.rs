use uaforge::config::{Config, FirewallConfig};
use uaforge::handler::{HandlerError, HttpHandler, RequestOutcome, UaAction};
use uaforge::lru::CacheDecision;
use uaforge::policy::{contains_any, should_modify, MatchMode};

fn strings(v: &[&str]) -> Vec<String> {
    v.iter().map(|s| s.to_string()).collect()
}

fn config(mode: MatchMode) -> Config {
    Config {
        user_agent: "FFF".to_string(),
        port: 8080,
        log_level: "info".to_string(),
        show_version: false,
        log_file: None,
        whitelist: Vec::new(),
        cache_size: 100,
        match_mode: mode,
        firewall: FirewallConfig {
            fw_type: None,
            fw_set_name: None,
            fw_drop: false,
            fw_ua_w: Vec::new(),
            fw_bypass: false,
            fw_nonhttp_threshold: 5,
            fw_timeout: 28800,
            fw_decision_delay: None,
            fw_http_cooldown: None,
        },
    }
}

fn whitelist_config(drop: bool) -> Config {
    let mut c = config(MatchMode::Force);
    c.firewall.fw_type = Some("nft".to_string());
    c.firewall.fw_set_name = Some("bypass".to_string());
    c.firewall.fw_ua_w = strings(&["MyApp"]);
    c.firewall.fw_drop = drop;
    c
}

#[test]
fn keyword_rewrite() {
    let mut h = HttpHandler::new(config(MatchMode::Keywords(strings(&["iPhone"])))).unwrap();
    let r = h.modify_request(Some("Mozilla (iPhone)"));
    assert_eq!(r, RequestOutcome { action: UaAction::Replace, whitelist_add: false, cache_hit: None });
    assert_eq!(h.replacement(), "FFF");
    let r = h.modify_request(Some("Mozilla (iPhone)"));
    assert_eq!(r.action, UaAction::Replace);
    assert_eq!(r.cache_hit, Some(CacheDecision::Modify));
}

#[test]
fn cache_pass() {
    let mut h = HttpHandler::new(config(MatchMode::Keywords(strings(&["iPhone"])))).unwrap();
    let first = h.modify_request(Some("curl/8.0"));
    assert_eq!(first, RequestOutcome { action: UaAction::Keep, whitelist_add: false, cache_hit: None });
    let second = h.modify_request(Some("curl/8.0"));
    assert_eq!(second, RequestOutcome { action: UaAction::Keep, whitelist_add: false, cache_hit: Some(CacheDecision::Pass) });
}

#[test]
fn ua_whitelist_with_fw_drop() {
    let mut h = HttpHandler::new(whitelist_config(true)).unwrap();
    let r = h.modify_request(Some("MyApp/1.0"));
    assert_eq!(r, RequestOutcome { action: UaAction::Drop, whitelist_add: true, cache_hit: None });
}

#[test]
fn whitelist_hit_adds_only_once() {
    let mut h = HttpHandler::new(whitelist_config(false)).unwrap();
    let r = h.modify_request(Some("MyApp/1.0"));
    assert_eq!(r, RequestOutcome { action: UaAction::Keep, whitelist_add: true, cache_hit: None });
    let r = h.modify_request(Some("MyApp/1.0"));
    assert_eq!(r, RequestOutcome { action: UaAction::Keep, whitelist_add: false, cache_hit: None });
    // Other User-Agents still go through the policy.
    let r = h.modify_request(Some("Other"));
    assert_eq!(r.action, UaAction::Replace);
}

#[test]
fn whitelist_without_cache_adds_each_time() {
    let mut c = whitelist_config(false);
    c.cache_size = 0;
    let mut h = HttpHandler::new(c).unwrap();
    assert!(h.modify_request(Some("MyApp/1.0")).whitelist_add);
    assert!(h.modify_request(Some("MyApp/1.0")).whitelist_add);
}

#[test]
fn whitelist_ignored_when_firewall_not_configured() {
    let mut c = whitelist_config(true);
    c.firewall.fw_set_name = None;
    let mut h = HttpHandler::new(c).unwrap();
    let r = h.modify_request(Some("MyApp/1.0"));
    assert_eq!(r, RequestOutcome { action: UaAction::Replace, whitelist_add: false, cache_hit: None });
}

#[test]
fn missing_or_empty_ua_is_untouched() {
    let mut h = HttpHandler::new(config(MatchMode::Force)).unwrap();
    let keep = RequestOutcome { action: UaAction::Keep, whitelist_add: false, cache_hit: None };
    assert_eq!(h.modify_request(None), keep);
    assert_eq!(h.modify_request(Some("")), keep);
}

#[test]
fn zero_cache_counts_no_hits() {
    let mut c = config(MatchMode::Force);
    c.cache_size = 0;
    let mut h = HttpHandler::new(c).unwrap();
    assert_eq!(h.modify_request(Some("a")).cache_hit, None);
    assert_eq!(h.modify_request(Some("a")).cache_hit, None);
}

#[test]
fn regex_mode_matches_pattern() {
    let mut h = HttpHandler::new(config(MatchMode::Regex { pattern: "Mobile|Android".to_string() })).unwrap();
    assert_eq!(h.modify_request(Some("Linux; Android 14")).action, UaAction::Replace);
    assert_eq!(h.modify_request(Some("curl/8.0")).action, UaAction::Keep);
}

#[test]
fn invalid_regex_is_refused() {
    let r = HttpHandler::new(config(MatchMode::Regex { pattern: "(unclosed".to_string() }));
    assert!(matches!(r, Err(HandlerError::InvalidRegex)));
}

#[test]
fn replacement_falls_back_when_not_a_header_value() {
    let mut c = config(MatchMode::Force);
    c.user_agent = "bad\nvalue".to_string();
    let h = HttpHandler::new(c).unwrap();
    assert_eq!(h.replacement(), "UAForge");
}

#[test]
fn non_http_reporting_needs_firewall_and_bypass() {
    let mut c = whitelist_config(false);
    c.firewall.fw_bypass = true;
    assert!(HttpHandler::new(c).unwrap().report_non_http());
    let mut c = whitelist_config(false);
    c.firewall.fw_bypass = false;
    assert!(!HttpHandler::new(c).unwrap().report_non_http());
}

#[test]
fn policy_modes() {
    let kws = strings(&["iPhone", "Windows"]);
    assert!(contains_any("Mozilla (Windows NT)", &kws));
    assert!(!contains_any("Mozilla (iphone)", &kws));
    assert!(should_modify("anything", &MatchMode::Force));
    assert!(!should_modify("curl", &MatchMode::Keywords(kws.clone())));
    assert!(should_modify("x iPhone", &MatchMode::Keywords(kws)));
    assert!(should_modify("abc123", &MatchMode::Regex { pattern: "[0-9]+".to_string() }));
    assert!(!should_modify("abc", &MatchMode::Regex { pattern: "[0-9]+".to_string() }));
    assert!(!should_modify("abc", &MatchMode::Regex { pattern: "(".to_string() }));
    assert_eq!(should_modify("same UA", &MatchMode::Keywords(strings(&["UA"]))), should_modify("same UA", &MatchMode::Keywords(strings(&["UA"]))));
}

#[test]
fn rewrite_whitelist_bypasses_rewrite() {
    let mut c = config(MatchMode::Force);
    c.whitelist = strings(&["curl"]);
    let mut h = HttpHandler::new(c).unwrap();
    let keep = RequestOutcome { action: UaAction::Keep, whitelist_add: false, cache_hit: None };
    assert_eq!(h.modify_request(Some("curl/8.0")), keep);
    assert_eq!(h.modify_request(Some("curl/8.0")), keep);
    assert_eq!(h.modify_request(Some("wget")).action, UaAction::Replace);
}

#[test]
fn firewall_whitelist_comes_before_rewrite_whitelist() {
    let mut c = whitelist_config(false);
    c.whitelist = strings(&["MyApp"]);
    let mut h = HttpHandler::new(c).unwrap();
    assert!(h.modify_request(Some("MyApp/1.0")).whitelist_add);
}
