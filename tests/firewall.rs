use uaforge::config::FirewallConfig;
use uaforge::firewall::{min_instant, Backend, Event, FirewallEngine, Flush, PortProfile};

const IP_1234: u32 = (1 << 24) | (2 << 16) | (3 << 8) | 4;

fn fw_config(kind: &str, threshold: u32, delay_ms: u64, cooldown_ms: u64) -> FirewallConfig {
    FirewallConfig {
        fw_type: Some(kind.to_string()),
        fw_set_name: Some("bypass".to_string()),
        fw_drop: false,
        fw_ua_w: Vec::new(),
        fw_bypass: true,
        fw_nonhttp_threshold: threshold,
        fw_timeout: 28800,
        fw_decision_delay: Some(delay_ms),
        fw_http_cooldown: Some(cooldown_ms),
    }
}

fn non_http(ip: u32, port: u16) -> Option<Event> {
    Some(Event::NonHttp { ip, port })
}

#[test]
fn firewall_promotion_emits_one_nft_command() {
    let mut e = FirewallEngine::new(fw_config("nft", 3, 100, 3_600_000), 0);
    for t in [0u64, 300, 600] {
        let out = e.step(non_http(IP_1234, 443), t);
        assert!(out.flushes.is_empty());
    }
    let p = e.profile(IP_1234, 443).unwrap();
    assert_eq!(p.non_http_score, 3);
    assert_eq!(p.decision_deadline, Some(700));
    // The deadline passes: the row leaves the table for the batch.
    let out = e.step(None, 700);
    assert!(out.flushes.is_empty());
    assert!(e.profile(IP_1234, 443).is_none());
    assert_eq!(e.batch_len(), 1);
    // The batch delay passes: exactly one command.
    let out = e.step(None, 800);
    assert_eq!(out.flushes.len(), 1);
    let f = &out.flushes[0];
    assert_eq!(f.program(), "nft");
    assert_eq!(
        f.args(),
        vec!["add", "element", "inet", "fw4", "bypass", "{", "1.2.3.4 . 443 timeout 28800s", "}"]
    );
    assert_eq!(e.batch_len(), 0);
    let out = e.step(None, 5000);
    assert!(out.flushes.is_empty());
}

#[test]
fn http_cooldown_defeats_promotion() {
    let mut e = FirewallEngine::new(fw_config("nft", 3, 100, 3_600_000), 0);
    e.step(non_http(IP_1234, 80), 0);
    e.step(non_http(IP_1234, 80), 1);
    e.step(Some(Event::Http { ip: IP_1234, port: 80 }), 2);
    assert_eq!(e.profile(IP_1234, 80).unwrap().non_http_score, 0);
    e.step(non_http(IP_1234, 80), 3);
    e.step(non_http(IP_1234, 80), 4);
    // Inside the cooldown the later non-HTTP flows are absorbed.
    let p = e.profile(IP_1234, 80).unwrap();
    assert_eq!(p.non_http_score, 0);
    assert_eq!(p.last_event, 4);
    let out = e.step(None, 1000);
    assert!(out.flushes.is_empty());
    assert_eq!(e.batch_len(), 0);
}

#[test]
fn http_reset_without_cooldown_counts_again_from_zero() {
    let mut e = FirewallEngine::new(fw_config("nft", 3, 100, 0), 0);
    e.step(non_http(IP_1234, 80), 0);
    e.step(non_http(IP_1234, 80), 1);
    e.step(Some(Event::Http { ip: IP_1234, port: 80 }), 2);
    e.step(non_http(IP_1234, 80), 3);
    e.step(non_http(IP_1234, 80), 4);
    let p = e.profile(IP_1234, 80).unwrap();
    assert_eq!(p.non_http_score, 2);
    assert_eq!(p.decision_deadline, None);
    let out = e.step(None, 10_000);
    assert!(out.flushes.is_empty());
}

#[test]
fn http_event_leaves_no_decision_pending() {
    let mut e = FirewallEngine::new(fw_config("nft", 1, 100, 60_000), 0);
    e.step(non_http(7, 22), 0);
    assert_eq!(e.profile(7, 22).unwrap().decision_deadline, Some(100));
    e.step(Some(Event::Http { ip: 7, port: 22 }), 50);
    let p = e.profile(7, 22).unwrap();
    assert_eq!(p.decision_deadline, None);
    assert_eq!(p.http_lock_expires, Some(60_050));
    assert_eq!(p.non_http_score, 0);
    e.step(non_http(7, 22), 100);
    assert_eq!(e.profile(7, 22).unwrap().decision_deadline, None);
}

#[test]
fn add_event_is_batched_and_flushed_after_delay() {
    let mut e = FirewallEngine::new(fw_config("ipset", 5, 60_000, 3_600_000), 1000);
    let out = e.step(Some(Event::Add { ip: 10, port: 8080, timeout: 0 }), 1000);
    assert!(out.flushes.is_empty());
    assert_eq!(e.batch_len(), 1);
    let out = e.step(Some(Event::Add { ip: 10, port: 8080, timeout: 60 }), 1050);
    assert!(out.flushes.is_empty());
    assert_eq!(e.batch_len(), 1);
    let out = e.step(None, 1100);
    assert_eq!(out.flushes.len(), 1);
    let f = &out.flushes[0];
    assert_eq!(f.backend, Backend::Ipset);
    assert_eq!(f.program(), "ipset");
    assert_eq!(f.args(), vec!["restore"]);
    assert_eq!(f.ipset_input(), "add bypass 0.0.0.10,8080 timeout 60 -exist\n");
}

#[test]
fn full_batch_is_flushed_at_once() {
    let mut e = FirewallEngine::new(fw_config("nft", 5, 60_000, 3_600_000), 0);
    for i in 0..199u32 {
        let out = e.step(Some(Event::Add { ip: i, port: 1, timeout: 5 }), 0);
        assert!(out.flushes.is_empty());
    }
    let out = e.step(Some(Event::Add { ip: 199, port: 1, timeout: 5 }), 0);
    assert_eq!(out.flushes.len(), 1);
    assert_eq!(out.flushes[0].entries.len(), 200);
    assert_eq!(e.batch_len(), 0);
}

#[test]
fn stop_flushes_pending_entries() {
    let mut e = FirewallEngine::new(fw_config("nft", 5, 60_000, 3_600_000), 0);
    e.step(Some(Event::Add { ip: IP_1234, port: 53, timeout: 0 }), 0);
    let out = e.step(Some(Event::Stop), 1);
    assert!(out.stopped);
    assert_eq!(out.flushes.len(), 1);
    assert_eq!(out.flushes[0].args()[6], "1.2.3.4 . 53");
    assert_eq!(e.batch_len(), 0);
}

#[test]
fn unconfigured_firewall_emits_nothing() {
    let mut cfg = fw_config("nft", 1, 0, 0);
    cfg.fw_set_name = Some(String::new());
    let mut e = FirewallEngine::new(cfg, 0);
    e.step(non_http(1, 1), 0);
    assert!(e.profile(1, 1).is_none());
    e.step(Some(Event::Add { ip: 1, port: 1, timeout: 0 }), 0);
    let out = e.step(None, 1000);
    assert!(out.flushes.is_empty());
    assert_eq!(e.batch_len(), 0);
}

#[test]
fn bypass_disabled_ignores_non_http() {
    let mut cfg = fw_config("nft", 1, 0, 0);
    cfg.fw_bypass = false;
    let mut e = FirewallEngine::new(cfg, 0);
    e.step(non_http(1, 1), 0);
    assert!(e.profile(1, 1).is_none());
}

#[test]
fn quiet_profiles_are_cleaned_up() {
    let mut e = FirewallEngine::new(fw_config("nft", 10, 60_000, 0), 0);
    e.step(non_http(3, 3), 0);
    assert!(e.profile(3, 3).is_some());
    e.step(None, 600_000);
    assert!(e.profile(3, 3).is_some());
    e.step(None, 1_200_001);
    assert!(e.profile(3, 3).is_none());
}

#[test]
fn next_wake_is_earliest_timer() {
    let mut e = FirewallEngine::new(fw_config("nft", 1, 500, 0), 0);
    assert_eq!(e.next_wake(), Some(600_000));
    e.step(non_http(3, 3), 10);
    assert_eq!(e.decision_deadline(), Some(510));
    assert_eq!(e.next_wake(), Some(510));
    e.step(Some(Event::Add { ip: 9, port: 9, timeout: 1 }), 20);
    assert_eq!(e.next_wake(), Some(120));
}

#[test]
fn min_instant_picks_earliest_present() {
    assert_eq!(min_instant(None, 5, None), Some(5));
    assert_eq!(min_instant(Some(3), 5, None), Some(3));
    assert_eq!(min_instant(Some(7), 5, Some(4)), Some(4));
    assert_eq!(min_instant(None, 5, Some(9)), Some(5));
}

#[test]
fn nft_element_list_joins_entries() {
    let f = Flush {
        backend: Backend::Nft,
        set_name: "s".to_string(),
        entries: vec![
            (uaforge::firewall::Endpoint { ip: IP_1234, port: 443 }, 10),
            (uaforge::firewall::Endpoint { ip: 0xC0A8_0001, port: 80 }, 0),
        ],
    };
    assert_eq!(f.nft_element_list(), "1.2.3.4 . 443 timeout 10s, 192.168.0.1 . 80");
}

#[test]
fn ipset_input_has_one_line_per_entry() {
    let f = Flush {
        backend: Backend::Ipset,
        set_name: "byp".to_string(),
        entries: vec![
            (uaforge::firewall::Endpoint { ip: 0xFFFF_FFFF, port: 65535 }, 0),
            (uaforge::firewall::Endpoint { ip: IP_1234, port: 1 }, 28800),
        ],
    };
    assert_eq!(
        f.ipset_input(),
        "add byp 255.255.255.255,65535 -exist\nadd byp 1.2.3.4,1 timeout 28800 -exist\n"
    );
}

#[test]
fn fresh_profile_is_empty() {
    let p = PortProfile::new(42);
    assert_eq!(p.non_http_score, 0);
    assert_eq!(p.last_event, 42);
    assert_eq!(p.http_lock_expires, None);
    assert_eq!(p.decision_deadline, None);
}

#[test]
fn firewall_config_defaults_and_enabled() {
    let mut c = fw_config("nft", 5, 0, 0);
    c.fw_decision_delay = None;
    c.fw_http_cooldown = None;
    assert_eq!(c.get_decision_delay(), 60_000);
    assert_eq!(c.get_http_cooldown(), 3_600_000);
    assert!(c.enable_firewall_set());
    c.fw_type = None;
    assert!(!c.enable_firewall_set());
    c.fw_type = Some(String::new());
    assert!(!c.enable_firewall_set());
}

#[test]
fn absorbed_non_http_leaves_batch_alone() {
    let mut e = FirewallEngine::new(fw_config("nft", 1, 0, 60_000), 0);
    e.step(Some(Event::Http { ip: 5, port: 5 }), 0);
    e.step(Some(Event::Add { ip: 6, port: 6, timeout: 9 }), 1);
    let out = e.step(non_http(5, 5), 2);
    assert!(out.flushes.is_empty());
    assert_eq!(e.batch_len(), 1);
    assert_eq!(e.profile(5, 5).unwrap().decision_deadline, None);
    let out = e.step(None, 101);
    assert_eq!(out.flushes.len(), 1);
    assert_eq!(out.flushes[0].args()[6], "0.0.0.6 . 6 timeout 9s");
}

#[test]
fn unconfigured_type_flushes_nothing() {
    let mut cfg = fw_config("nft", 1, 0, 0);
    cfg.fw_type = None;
    let mut e = FirewallEngine::new(cfg, 0);
    e.step(Some(Event::Add { ip: 1, port: 1, timeout: 5 }), 0);
    let out = e.step(Some(Event::Stop), 0);
    assert!(out.stopped);
    assert!(out.flushes.is_empty());
    assert_eq!(e.batch_len(), 0);
}
