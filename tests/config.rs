use uaforge::config::{
    normalize_args, parse_duration, parse_duration_trimmed, split_keywords, CliArgs, Config,
    ConfigError, DurationError, FirewallConfig, DEFAULT_REGEX_PATTERN,
};
use uaforge::logger::Level;
use uaforge::policy::MatchMode;

fn strings(v: &[&str]) -> Vec<String> {
    v.iter().map(|s| s.to_string()).collect()
}

fn cli() -> CliArgs {
    CliArgs {
        user_agent: "FFF".to_string(),
        port: 8080,
        loglevel: "info".to_string(),
        version: false,
        log: None,
        whitelist: Vec::new(),
        keywords: "iPhone,iPad,Android,Macintosh,Windows".to_string(),
        regex_pattern: None,
        cache_size: 1000,
        force: false,
        enable_regex: false,
        buffer_size: None,
        firewall: FirewallConfig {
            fw_type: None,
            fw_set_name: None,
            fw_drop: false,
            fw_ua_w: Vec::new(),
            fw_bypass: false,
            fw_nonhttp_threshold: 5,
            fw_timeout: 28800,
            fw_decision_delay: None,
            fw_http_cooldown: None,
        },
    }
}

#[test]
fn durations_read_seconds_and_units() {
    assert_eq!(parse_duration("60"), Ok(60_000));
    assert_eq!(parse_duration("60s"), Ok(60_000));
    assert_eq!(parse_duration("1m"), Ok(60_000));
    assert_eq!(parse_duration("1h"), Ok(3_600_000));
    assert_eq!(parse_duration("  5m "), Ok(300_000));
    assert_eq!(parse_duration("+7"), Ok(7_000));
    assert_eq!(parse_duration("0s"), Ok(0));
}

#[test]
fn durations_refused_with_reason() {
    assert_eq!(parse_duration(""), Err(DurationError::Empty));
    assert_eq!(parse_duration("   "), Err(DurationError::Empty));
    assert_eq!(parse_duration("x"), Err(DurationError::TooShort));
    assert_eq!(parse_duration("abs"), Err(DurationError::BadNumber));
    assert_eq!(parse_duration("5x"), Err(DurationError::BadUnit));
    assert_eq!(parse_duration("18446744073709551615"), Err(DurationError::TooLarge));
    assert_eq!(parse_duration("99999999999999999999s"), Err(DurationError::BadNumber));
    assert_eq!(DurationError::Empty.message(), "empty duration");
}

#[test]
fn trimmed_duration_keeps_white_space_significant() {
    assert_eq!(parse_duration_trimmed(" 5"), Err(DurationError::BadNumber));
    assert_eq!(parse_duration_trimmed("2h"), Ok(7_200_000));
}

#[test]
fn single_dash_long_flags_gain_a_dash() {
    let out = normalize_args(strings(&["-prog", "-port", "12032", "-u", "-loglevel", "info", "--fw-type", "-x"]));
    assert_eq!(
        out,
        strings(&["-prog", "--port", "12032", "-u", "--loglevel", "info", "--fw-type", "-x"])
    );
}

#[test]
fn double_dash_arguments_are_unchanged() {
    let args = strings(&["uaforge", "--port", "8080", "--fw-type", "nft", "--force"]);
    assert_eq!(normalize_args(args.clone()), args);
    assert_eq!(normalize_args(Vec::new()), Vec::<String>::new());
}

#[test]
fn keywords_are_trimmed_and_empty_ones_dropped() {
    assert_eq!(split_keywords("iPhone, iPad,,Android ,"), strings(&["iPhone", "iPad", "Android"]));
    assert_eq!(split_keywords(""), Vec::<String>::new());
    assert_eq!(split_keywords("a"), strings(&["a"]));
}

#[test]
fn default_mode_is_keywords() {
    let c = Config::from_cli(cli()).unwrap();
    match c.match_mode {
        MatchMode::Keywords(k) => assert_eq!(k, strings(&["iPhone", "iPad", "Android", "Macintosh", "Windows"])),
        _ => panic!("expected keywords"),
    }
    assert_eq!(c.user_agent, "FFF");
    assert_eq!(c.port, 8080);
    assert_eq!(c.cache_size, 1000);
}

#[test]
fn force_wins_over_regex() {
    let mut a = cli();
    a.force = true;
    a.enable_regex = true;
    assert!(matches!(Config::from_cli(a).unwrap().match_mode, MatchMode::Force));
}

#[test]
fn regex_mode_uses_default_pattern() {
    let mut a = cli();
    a.enable_regex = true;
    match Config::from_cli(a).unwrap().match_mode {
        MatchMode::Regex { pattern } => assert_eq!(pattern, DEFAULT_REGEX_PATTERN),
        _ => panic!("expected regex"),
    }
    let mut b = cli();
    b.enable_regex = true;
    b.regex_pattern = Some("curl".to_string());
    match Config::from_cli(b).unwrap().match_mode {
        MatchMode::Regex { pattern } => assert_eq!(pattern, "curl"),
        _ => panic!("expected regex"),
    }
}

#[test]
fn buffer_size_outside_range_is_refused() {
    for (size, ok) in [(1023usize, false), (1024, true), (65536, true), (65537, false), (0, false)] {
        let mut a = cli();
        a.buffer_size = Some(size);
        let r = Config::from_cli(a);
        assert_eq!(r.is_ok(), ok, "size {size}");
        if !ok {
            assert!(matches!(r, Err(ConfigError::BufferSize)));
        }
    }
    assert!(Config::from_cli(cli()).is_ok());
    assert!(ConfigError::BufferSize.message().contains("1024"));
}

#[test]
fn log_levels_parse_ignoring_case() {
    assert_eq!(Level::parse("debug"), Level::Debug);
    assert_eq!(Level::parse("WARN"), Level::Warn);
    assert_eq!(Level::parse("Error"), Level::Error);
    assert_eq!(Level::parse("info"), Level::Info);
    assert_eq!(Level::parse("verbose"), Level::Info);
    assert!(Level::Debug < Level::Error);
}

#[test]
fn unicode_white_space_is_trimmed() {
    assert_eq!(parse_duration("\u{3000}5m\u{a0}"), Ok(300_000));
    assert_eq!(parse_duration("\u{2003}\u{85}"), Err(DurationError::Empty));
    assert_eq!(split_keywords("\u{2003}a\t,\r\nb\u{205f}, \u{200b}"), strings(&["a", "b", "\u{200b}"]));
}
