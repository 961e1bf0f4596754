//! Configuration records and the pure parts of reading them.

use vstd::prelude::*;

use crate::policy::MatchMode;
use crate::text::{chars_of, string_of, trim_of, trim_string};

verus! {

/// Decision delay used when none is configured, in milliseconds.
pub const DEFAULT_DECISION_DELAY_MS: u64 = 60000;

/// HTTP cooldown used when none is configured, in milliseconds.
pub const DEFAULT_HTTP_COOLDOWN_MS: u64 = 3600000;

/// Settings of the firewall side channel.
///
/// Durations are held in milliseconds.
#[derive(Clone, Debug)]
pub struct FirewallConfig {
    pub fw_type: Option<String>,
    pub fw_set_name: Option<String>,
    pub fw_drop: bool,
    pub fw_ua_w: Vec<String>,
    pub fw_bypass: bool,
    pub fw_nonhttp_threshold: u32,
    pub fw_timeout: u32,
    pub fw_decision_delay: Option<u64>,
    pub fw_http_cooldown: Option<u64>,
}

/// Whether an optional name is present and non-empty.
pub open spec fn named(s: Option<String>) -> bool {
    match s {
        Some(v) => v@.len() > 0,
        None => false,
    }
}

fn is_named(s: &Option<String>) -> (r: bool)
    ensures
        r == named(*s),
{
    match s {
        Some(v) => !v.as_str().is_empty(),
        None => false,
    }
}

impl FirewallConfig {
    /// The firewall is usable only when both its type and its set are named.
    pub open spec fn spec_enabled(&self) -> bool {
        named(self.fw_type) && named(self.fw_set_name)
    }

    pub open spec fn spec_decision_delay(&self) -> u64 {
        match self.fw_decision_delay {
            Some(d) => d,
            None => DEFAULT_DECISION_DELAY_MS,
        }
    }

    pub open spec fn spec_http_cooldown(&self) -> u64 {
        match self.fw_http_cooldown {
            Some(d) => d,
            None => DEFAULT_HTTP_COOLDOWN_MS,
        }
    }

    pub fn enable_firewall_set(&self) -> (r: bool)
        ensures
            r == self.spec_enabled(),
    {
        is_named(&self.fw_type) && is_named(&self.fw_set_name)
    }

    /// The decision delay in milliseconds.
    pub fn get_decision_delay(&self) -> (r: u64)
        ensures
            r == self.spec_decision_delay(),
    {
        match self.fw_decision_delay {
            Some(d) => d,
            None => DEFAULT_DECISION_DELAY_MS,
        }
    }

    /// The HTTP cooldown in milliseconds.
    pub fn get_http_cooldown(&self) -> (r: u64)
        ensures
            r == self.spec_http_cooldown(),
    {
        match self.fw_http_cooldown {
            Some(d) => d,
            None => DEFAULT_HTTP_COOLDOWN_MS,
        }
    }
}

/// Whether `c` is an ASCII digit.
pub open spec fn is_digit(c: char) -> bool {
    '0' <= c && c <= '9'
}

/// The value of a run of decimal digits.
pub open spec fn digits_value(s: Seq<char>) -> nat
    decreases s.len(),
{
    if s.len() == 0 {
        0
    } else {
        digits_value(s.drop_last()) * 10 + ((s.last() as u32) - ('0' as u32)) as nat
    }
}

/// `s` without one leading `+`.
pub open spec fn unsigned_body(s: Seq<char>) -> Seq<char> {
    if s.len() > 0 && s[0] == '+' {
        s.drop_first()
    } else {
        s
    }
}

/// Whether every character of `s` is a digit.
pub open spec fn all_digits(s: Seq<char>) -> bool {
    forall|i: int| 0 <= i < s.len() ==> is_digit(#[trigger] s[i])
}

/// What `u64`'s `from_str` reads from `s`: an optional `+` and at least one
/// digit, with a value that fits.
pub open spec fn u64_of(s: Seq<char>) -> Option<u64> {
    let body = unsigned_body(s);
    if body.len() > 0 && all_digits(body) && digits_value(body) <= u64::MAX {
        Some(digits_value(body) as u64)
    } else {
        None
    }
}

/// Reads an unsigned decimal number as `u64`'s `from_str` does.
pub fn parse_u64(s: &Vec<char>) -> (r: Option<u64>)
    ensures
        r == u64_of(s@),
{
    let start: usize = if s.len() > 0 && s[0] == '+' { 1 } else { 0 };
    let ghost body = unsigned_body(s@);
    if start >= s.len() {
        return None;
    }
    proof {
        assert(body =~= s@.subrange(start as int, s@.len() as int));
    }
    let mut acc: u64 = 0;
    let mut i: usize = start;
    while i < s.len()
        invariant
            start <= i <= s@.len(),
            body == s@.subrange(start as int, s@.len() as int),
            body == unsigned_body(s@),
            forall|j: int| start <= j < i ==> is_digit(#[trigger] s@[j]),
            acc as nat == digits_value(s@.subrange(start as int, i as int)),
        decreases s@.len() - i,
    {
        let c = s[i];
        let ghost pre = s@.subrange(start as int, i as int);
        let ghost next = s@.subrange(start as int, i as int + 1);
        proof {
            assert(next.drop_last() =~= pre);
        }
        if !('0' <= c && c <= '9') {
            proof {
                assert(body[i - start] == c);
                assert(!is_digit(body[i - start]));
                assert(!all_digits(body));
            }
            return None;
        }
        let d: u64 = (c as u32 - '0' as u32) as u64;
        if acc > (u64::MAX - d) / 10 {
            proof {
                assert(digits_value(next) == acc * 10 + d);
                assert(digits_value(next) > u64::MAX) by (nonlinear_arith)
                    requires
                        digits_value(next) == acc * 10 + d,
                        acc > (u64::MAX - d) / 10,
                        d < 10;
                if all_digits(body) {
                    lemma_digits_grow(body, (i - start) as int + 1);
                    assert(body.subrange(0, (i - start) as int + 1) =~= next);
                }
            }
            return None;
        }
        acc = acc * 10 + d;
        i = i + 1;
    }
    proof {
        assert(s@.subrange(start as int, s@.len() as int) =~= body);
        assert forall|j: int| 0 <= j < body.len() implies is_digit(#[trigger] body[j]) by {
            assert(body[j] == s@[j + start]);
        }
        assert(all_digits(body));
    }
    Some(acc)
}

proof fn lemma_digits_grow(s: Seq<char>, n: int)
    requires
        0 <= n <= s.len(),
        all_digits(s),
    ensures
        digits_value(s) >= digits_value(s.subrange(0, n)),
    decreases s.len(),
{
    if n < s.len() {
        let t = s.drop_last();
        assert(t.subrange(0, n) =~= s.subrange(0, n));
        lemma_digits_grow(t, n);
    } else {
        assert(s.subrange(0, n) =~= s);
    }
}

/// Why a duration was refused.
#[derive(Clone, Copy, Debug, PartialEq, Eq, Structural)]
pub enum DurationError {
    Empty,
    TooShort,
    BadNumber,
    BadUnit,
    TooLarge,
}

impl DurationError {
    /// A sentence for the user.
    pub fn message(self) -> (r: &'static str)
        ensures
            r@ == match self {
                DurationError::Empty => "empty duration"@,
                DurationError::TooShort => "duration too short (expected format: 60s, 1m, 1h)"@,
                DurationError::BadNumber => "invalid duration number"@,
                DurationError::BadUnit => "invalid duration unit (expected s/m/h)"@,
                DurationError::TooLarge => "duration too large"@,
            },
    {
        match self {
            DurationError::Empty => "empty duration",
            DurationError::TooShort => "duration too short (expected format: 60s, 1m, 1h)",
            DurationError::BadNumber => "invalid duration number",
            DurationError::BadUnit => "invalid duration unit (expected s/m/h)",
            DurationError::TooLarge => "duration too large",
        }
    }
}

/// `n` units of `unit_ms` milliseconds, if that fits.
pub open spec fn scaled(n: u64, unit_ms: u64) -> Result<u64, DurationError> {
    if n * unit_ms <= u64::MAX {
        Ok((n * unit_ms) as u64)
    } else {
        Err(DurationError::TooLarge)
    }
}

/// A duration in milliseconds, written as whole seconds or as a number
/// followed by `s`, `m` or `h`.
pub open spec fn duration_of(t: Seq<char>) -> Result<u64, DurationError> {
    if t.len() == 0 {
        Err(DurationError::Empty)
    } else if u64_of(t).is_some() {
        scaled(u64_of(t).unwrap(), 1000)
    } else if t.len() < 2 {
        Err(DurationError::TooShort)
    } else {
        match u64_of(t.drop_last()) {
            None => Err(DurationError::BadNumber),
            Some(n) => if t.last() == 's' {
                scaled(n, 1000)
            } else if t.last() == 'm' {
                scaled(n, 60000)
            } else if t.last() == 'h' {
                scaled(n, 3600000)
            } else {
                Err(DurationError::BadUnit)
            },
        }
    }
}

fn scale(n: u64, unit_ms: u64) -> (r: Result<u64, DurationError>)
    requires
        unit_ms > 0,
    ensures
        r == scaled(n, unit_ms),
{
    if n > u64::MAX / unit_ms {
        proof {
            assert(n * unit_ms > u64::MAX) by (nonlinear_arith)
                requires
                    n > u64::MAX / unit_ms,
                    unit_ms > 0;
        }
        Err(DurationError::TooLarge)
    } else {
        proof {
            assert(n * unit_ms <= u64::MAX) by (nonlinear_arith)
                requires
                    n <= u64::MAX / unit_ms,
                    unit_ms > 0;
        }
        Ok(n * unit_ms)
    }
}

/// Reads a duration that has already been trimmed.
pub fn parse_duration_trimmed(t: &str) -> (r: Result<u64, DurationError>)
    ensures
        r == duration_of(t@),
{
    let cs = chars_of(t);
    if cs.len() == 0 {
        return Err(DurationError::Empty);
    }
    if let Some(n) = parse_u64(&cs) {
        return scale(n, 1000);
    }
    if cs.len() < 2 {
        return Err(DurationError::TooShort);
    }
    let mut num: Vec<char> = Vec::new();
    let mut i: usize = 0;
    while i < cs.len() - 1
        invariant
            cs@.len() >= 2,
            i + 1 <= cs@.len(),
            num@ == cs@.subrange(0, i as int),
        decreases cs@.len() - i,
    {
        num.push(cs[i]);
        i = i + 1;
        proof {
            assert(num@ =~= cs@.subrange(0, i as int));
        }
    }
    proof {
        assert(num@ =~= t@.drop_last());
    }
    let unit = cs[cs.len() - 1];
    match parse_u64(&num) {
        None => Err(DurationError::BadNumber),
        Some(n) => {
            if unit == 's' {
                scale(n, 1000)
            } else if unit == 'm' {
                scale(n, 60000)
            } else if unit == 'h' {
                scale(n, 3600000)
            } else {
                Err(DurationError::BadUnit)
            }
        },
    }
}

/// Reads a duration in milliseconds from its command-line form, white space
/// around it ignored.
pub fn parse_duration(s: &str) -> (r: Result<u64, DurationError>)
    ensures
        r == duration_of(trim_of(s@)),
{
    parse_duration_trimmed(trim_string(s).as_str())
}

/// A single-dash long flag such as `-port`, kept for old init scripts.
pub open spec fn legacy_long(s: Seq<char>) -> bool {
    s.len() > 2 && s[0] == '-' && s[1] != '-'
}

/// Argument `i` after normalization: past the program name, a single-dash
/// long flag gains a second dash.
pub open spec fn normalized_arg(i: int, s: Seq<char>) -> Seq<char> {
    if i > 0 && legacy_long(s) {
        seq!['-'] + s
    } else {
        s
    }
}

/// Rewrites single-dash long flags to their double-dash form.
pub fn normalize_args(args: Vec<String>) -> (r: Vec<String>)
    ensures
        r@.len() == args@.len(),
        forall|i: int| 0 <= i < args@.len() ==> #[trigger] r@[i]@ == normalized_arg(i, args@[i]@),
{
    let mut r: Vec<String> = Vec::new();
    let mut i: usize = 0;
    while i < args.len()
        invariant
            i <= args@.len(),
            r@.len() == i,
            forall|j: int| 0 <= j < i ==> #[trigger] r@[j]@ == normalized_arg(j, args@[j]@),
        decreases args@.len() - i,
    {
        let cs = chars_of(args[i].as_str());
        if i > 0 && cs.len() > 2 && cs[0] == '-' && cs[1] != '-' {
            let mut out: Vec<char> = Vec::new();
            out.push('-');
            let mut k: usize = 0;
            while k < cs.len()
                invariant
                    k <= cs@.len(),
                    out@ == seq!['-'] + cs@.subrange(0, k as int),
                decreases cs@.len() - k,
            {
                out.push(cs[k]);
                k = k + 1;
                proof {
                    assert(out@ =~= seq!['-'] + cs@.subrange(0, k as int));
                }
            }
            proof {
                assert(cs@.subrange(0, cs@.len() as int) =~= cs@);
            }
            r.push(string_of(&out));
        } else {
            r.push(args[i].clone());
        }
        i = i + 1;
    }
    r
}

/// Normalizing leaves alone a command line whose flags all have two dashes.
pub proof fn lemma_double_dash_unchanged(args: Seq<Seq<char>>)
    requires
        forall|i: int| 0 < i < args.len() && (#[trigger] args[i]).len() > 0 && args[i][0] == '-'
            ==> args[i].len() > 1 && args[i][1] == '-',
    ensures
        forall|i: int| 0 <= i < args.len() ==> normalized_arg(i, #[trigger] args[i]) == args[i],
{
}

/// The pieces of `s` between commas.
pub open spec fn split_commas(s: Seq<char>) -> Seq<Seq<char>>
    decreases s.len(),
{
    if s.len() == 0 {
        seq![Seq::<char>::empty()]
    } else {
        let p = split_commas(s.drop_last());
        if s.last() == ',' {
            p.push(Seq::<char>::empty())
        } else {
            p.update(p.len() - 1, p.last().push(s.last()))
        }
    }
}

/// The trimmed pieces that are not empty.
pub open spec fn trimmed_pieces(ps: Seq<Seq<char>>) -> Seq<Seq<char>>
    decreases ps.len(),
{
    if ps.len() == 0 {
        Seq::<Seq<char>>::empty()
    } else {
        let r = trimmed_pieces(ps.drop_last());
        if trim_of(ps.last()).len() > 0 {
            r.push(trim_of(ps.last()))
        } else {
            r
        }
    }
}

/// The keywords of a comma-separated list: each trimmed, empty ones dropped.
pub open spec fn keyword_list(s: Seq<char>) -> Seq<Seq<char>> {
    trimmed_pieces(split_commas(s))
}

proof fn lemma_split_nonempty(s: Seq<char>)
    ensures
        split_commas(s).len() >= 1,
    decreases s.len(),
{
    if s.len() > 0 {
        lemma_split_nonempty(s.drop_last());
    }
}

/// The views of a list of strings.
pub open spec fn views(v: Seq<String>) -> Seq<Seq<char>> {
    v.map_values(|x: String| x@)
}

/// Splits a comma-separated keyword list.
pub fn split_keywords(s: &str) -> (r: Vec<String>)
    ensures
        views(r@) == keyword_list(s@),
{
    let cs = chars_of(s);
    let mut r: Vec<String> = Vec::new();
    let mut cur: Vec<char> = Vec::new();
    let mut i: usize = 0;
    proof {
        assert(cs@.subrange(0, 0) =~= Seq::<char>::empty());
        assert(views(r@) =~= trimmed_pieces(split_commas(cs@.subrange(0, 0)).drop_last()));
    }
    while i < cs.len()
        invariant
            i <= cs@.len(),
            split_commas(cs@.subrange(0, i as int)).len() >= 1,
            cur@ == split_commas(cs@.subrange(0, i as int)).last(),
            views(r@) == trimmed_pieces(split_commas(cs@.subrange(0, i as int)).drop_last()),
        decreases cs@.len() - i,
    {
        let ghost pre = cs@.subrange(0, i as int);
        let ghost next = cs@.subrange(0, i as int + 1);
        proof {
            assert(next.drop_last() =~= pre);
            lemma_split_nonempty(pre);
        }
        let c = cs[i];
        if c == ',' {
            let piece = string_of(&cur);
            let t = trim_string(piece.as_str());
            let ghost before = r@;
            if !t.as_str().is_empty() {
                r.push(t);
                proof {
                    assert(views(r@) =~= views(before).push(t@));
                }
            }
            cur = Vec::new();
            proof {
                let p = split_commas(pre);
                assert(split_commas(next) == p.push(Seq::<char>::empty()));
                assert(split_commas(next).drop_last() =~= p);
                assert(p =~= p.drop_last().push(p.last()));
                assert(cur@ =~= split_commas(next).last());
            }
        } else {
            cur.push(c);
            proof {
                let p = split_commas(pre);
                assert(split_commas(next).drop_last() =~= p.drop_last());
            }
        }
        i = i + 1;
    }
    proof {
        assert(cs@.subrange(0, cs@.len() as int) =~= cs@);
        lemma_split_nonempty(cs@);
    }
    let piece = string_of(&cur);
    let t = trim_string(piece.as_str());
    let ghost before = r@;
    if !t.as_str().is_empty() {
        r.push(t);
        proof {
            assert(views(r@) =~= views(before).push(t@));
        }
    }
    proof {
        let p = split_commas(cs@);
        assert(p =~= p.drop_last().push(p.last()));
    }
    r
}

/// Pattern used in regex mode when none is given.
pub const DEFAULT_REGEX_PATTERN: &'static str = "(iPhone|iPad|Android|Macintosh|Windows|Linux|Apple|Mac OS X|Mobile)";

/// Smallest accepted buffer size.
pub const MIN_BUFFER_SIZE: usize = 1024;

/// Largest accepted buffer size.
pub const MAX_BUFFER_SIZE: usize = 65536;

/// The command line as parsed, before it is checked and interpreted.
#[derive(Clone, Debug)]
pub struct CliArgs {
    pub user_agent: String,
    pub port: u16,
    pub loglevel: String,
    pub version: bool,
    pub log: Option<String>,
    pub whitelist: Vec<String>,
    pub keywords: String,
    pub regex_pattern: Option<String>,
    pub cache_size: usize,
    pub force: bool,
    pub enable_regex: bool,
    pub buffer_size: Option<usize>,
    pub firewall: FirewallConfig,
}

/// The configuration the proxy runs with.
#[derive(Clone, Debug)]
pub struct Config {
    pub user_agent: String,
    pub port: u16,
    pub log_level: String,
    pub show_version: bool,
    pub log_file: Option<String>,
    pub whitelist: Vec<String>,
    pub cache_size: usize,
    pub match_mode: MatchMode,
    pub firewall: FirewallConfig,
}

/// Why a command line was refused.
#[derive(Clone, Copy, Debug, PartialEq, Eq, Structural)]
pub enum ConfigError {
    /// `buffer-size` lies outside the accepted range.
    BufferSize,
}

impl ConfigError {
    /// A sentence for the user.
    pub fn message(self) -> (r: &'static str)
        ensures
            r@ == "buffer-size must lie between 1024 and 65536"@,
    {
        match self {
            ConfigError::BufferSize => "buffer-size must lie between 1024 and 65536",
        }
    }
}

/// Whether a given buffer size is acceptable; none given is.
pub open spec fn buffer_size_ok(b: Option<usize>) -> bool {
    match b {
        Some(n) => MIN_BUFFER_SIZE <= n && n <= MAX_BUFFER_SIZE,
        None => true,
    }
}

/// Whether `m` is the match mode that `cli` asks for.
pub open spec fn mode_matches(m: MatchMode, cli: CliArgs) -> bool {
    if cli.force {
        m == MatchMode::Force
    } else if cli.enable_regex {
        m matches MatchMode::Regex { pattern } && pattern@ == match cli.regex_pattern {
            Some(p) => p@,
            None => DEFAULT_REGEX_PATTERN@,
        }
    } else {
        m matches MatchMode::Keywords(k) && views(k@) == keyword_list(cli.keywords@)
    }
}

impl Config {
    /// Checks and interprets a parsed command line.
    pub fn from_cli(cli: CliArgs) -> (r: Result<Config, ConfigError>)
        ensures
            r is Err <==> !buffer_size_ok(cli.buffer_size),
            r matches Err(e) ==> e == ConfigError::BufferSize,
            r matches Ok(c) ==> {
                &&& c.user_agent == cli.user_agent
                &&& c.port == cli.port
                &&& c.log_level == cli.loglevel
                &&& c.show_version == cli.version
                &&& c.log_file == cli.log
                &&& c.whitelist == cli.whitelist
                &&& c.cache_size == cli.cache_size
                &&& c.firewall == cli.firewall
                &&& mode_matches(c.match_mode, cli)
            },
    {
        if let Some(n) = cli.buffer_size {
            if n < MIN_BUFFER_SIZE || n > MAX_BUFFER_SIZE {
                return Err(ConfigError::BufferSize);
            }
        }
        let match_mode = if cli.force {
            MatchMode::Force
        } else if cli.enable_regex {
            let pattern = match cli.regex_pattern {
                Some(p) => p,
                None => DEFAULT_REGEX_PATTERN.to_owned(),
            };
            MatchMode::Regex { pattern }
        } else {
            MatchMode::Keywords(split_keywords(cli.keywords.as_str()))
        };
        Ok(Config {
            user_agent: cli.user_agent,
            port: cli.port,
            log_level: cli.loglevel,
            show_version: cli.version,
            log_file: cli.log,
            whitelist: cli.whitelist,
            cache_size: cli.cache_size,
            match_mode,
            firewall: cli.firewall,
        })
    }
}

} // verus!
