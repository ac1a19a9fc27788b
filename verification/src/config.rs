//! The configuration, built from the values of the environment.
use vstd::prelude::*;
use crate::types::AppConfig;
use crate::pathing::{expand_home, expand_home_spec, join_path, path_join};
use crate::text::chars_of;

verus! {

/// The environment values that the configuration reads.
pub struct EnvValues {
    /// The home directory.
    pub home: String,
    /// `DOWNLOADS_DIR`
    pub downloads_dir: Option<String>,
    /// `MEMORY_PATH`
    pub memory_path: Option<String>,
    /// `COMPLETE_DELAY_MS`
    pub complete_delay_ms: Option<String>,
    /// `BATCH_WINDOW_MS`
    pub batch_window_ms: Option<String>,
    /// `SCAN_EXISTING`
    pub scan_existing: Option<String>,
}

pub open spec fn is_digit(c: char) -> bool {
    '0' <= c && c <= '9'
}

pub open spec fn digit_value(c: char) -> nat {
    (c as int - '0' as int) as nat
}

/// The value of a run of decimal digits.
pub open spec fn digits_value(s: Seq<char>) -> nat
    decreases s.len(),
{
    if s.len() == 0 {
        0
    } else {
        digits_value(s.drop_last()) * 10 + digit_value(s.last())
    }
}

/// What `str::parse::<u64>` gives: an optional `+`, then at least one
/// decimal digit and nothing else, with a value that fits.
pub open spec fn all_digits(d: Seq<char>) -> bool {
    forall|i: int| 0 <= i < d.len() ==> is_digit(#[trigger] d[i])
}

/// The digits of a number, after an optional leading `+`.
pub open spec fn unsigned_digits(s: Seq<char>) -> Seq<char> {
    if s.len() > 0 && s[0] == '+' { s.drop_first() } else { s }
}

pub open spec fn parse_u64_spec(s: Seq<char>) -> Option<u64> {
    let d = unsigned_digits(s);
    if d.len() > 0 && all_digits(d) && digits_value(d) <= u64::MAX {
        Some(digits_value(d) as u64)
    } else {
        None
    }
}

proof fn lemma_digits_value_grows(s: Seq<char>, i: int)
    requires
        0 <= i <= s.len(),
    ensures
        digits_value(s.take(i)) <= digits_value(s),
    decreases s.len() - i,
{
    if i < s.len() {
        lemma_digits_value_grows(s, i + 1);
        assert(s.take(i + 1).drop_last() == s.take(i));
    } else {
        assert(s.take(i) == s);
    }
}

/// Parses an unsigned decimal number as `str::parse::<u64>` does.
pub fn parse_u64(s: &str) -> (r: Option<u64>)
    ensures
        r == parse_u64_spec(s@),
{
    let cs = chars_of(s);
    let start: usize = if cs.len() > 0 && cs[0] == '+' { 1 } else { 0 };
    let ghost d = unsigned_digits(s@);
    assert(d == cs@.skip(start as int));
    if start >= cs.len() {
        return None;
    }
    let mut value: u64 = 0;
    let mut i: usize = start;
    while i < cs.len()
        invariant
            start <= i <= cs@.len(),
            d == cs@.skip(start as int),
            d == unsigned_digits(s@),
            forall|j: int| 0 <= j < i - start ==> is_digit(#[trigger] d[j]),
            value == digits_value(d.take(i - start)),
        decreases cs.len() - i,
    {
        let c = cs[i];
        assert(d[i - start] == c);
        if !('0' <= c && c <= '9') {
            assert(!is_digit(d[i - start]));
            assert(!all_digits(d));
            return None;
        }
        assert(d.take(i - start + 1).drop_last() == d.take(i - start));
        assert(d.take(i - start + 1).last() == c);
        let digit = (c as u64) - ('0' as u64);
        assert(digit == digit_value(c));
        assert(digits_value(d.take(i - start + 1)) == value * 10 + digit);
        match value.checked_mul(10) {
            None => {
                proof { lemma_digits_value_grows(d, i - start + 1); }
                return None;
            },
            Some(v) => match v.checked_add(digit) {
                None => {
                    proof { lemma_digits_value_grows(d, i - start + 1); }
                    return None;
                },
                Some(w) => {
                    value = w;
                },
            },
        }
        i = i + 1;
    }
    assert(d.take(d.len() as int) == d);
    Some(value)
}

/// The configuration that `from_env` yields for given environment values.
pub open spec fn config_spec_downloads(env: EnvValues) -> Seq<char> {
    match env.downloads_dir {
        Some(d) => expand_home_spec(d@, env.home@),
        None => expand_home_spec(path_join(env.home@, "Downloads"@), env.home@),
    }
}

pub open spec fn config_spec_memory(env: EnvValues) -> Seq<char> {
    match env.memory_path {
        Some(m) => expand_home_spec(m@, env.home@),
        None => expand_home_spec(path_join(path_join(env.home@, ".config"@), "smart_dl_memory.json"@), env.home@),
    }
}

pub open spec fn number_or(v: Option<String>, default: u64) -> u64 {
    match v {
        Some(s) => match parse_u64_spec(s@) {
            Some(n) => n,
            None => default,
        },
        None => default,
    }
}

impl AppConfig {
    /// The configuration for the given environment: the downloads folder and
    /// memory file (home-relative defaults, `~` expanded), the completion delay
    /// (500 ms unless a number is given), the batch window (5000 ms unless a
    /// number is given), and whether existing files are offered (`SCAN_EXISTING=1`).
    pub fn from_env(env: &EnvValues) -> (c: AppConfig)
        ensures
            c.downloads_dir@ == config_spec_downloads(*env),
            c.memory_path@ == config_spec_memory(*env),
            c.complete_delay_ms == number_or(env.complete_delay_ms, 500),
            c.batch_window_ms == number_or(env.batch_window_ms, 5000),
            c.scan_existing == (env.scan_existing matches Some(v) && v@ == "1"@),
    {
        let home = env.home.as_str();
        let downloads = match &env.downloads_dir {
            Some(d) => expand_home(d.as_str(), home),
            None => {
                let joined = join_path(home, "Downloads");
                expand_home(joined.as_str(), home)
            },
        };
        let memory = match &env.memory_path {
            Some(m) => expand_home(m.as_str(), home),
            None => {
                let config_dir = join_path(home, ".config");
                let joined = join_path(config_dir.as_str(), "smart_dl_memory.json");
                expand_home(joined.as_str(), home)
            },
        };
        let complete_delay_ms = match &env.complete_delay_ms {
            Some(s) => match parse_u64(s.as_str()) {
                Some(n) => n,
                None => 500,
            },
            None => 500,
        };
        let batch_window_ms = match &env.batch_window_ms {
            Some(s) => match parse_u64(s.as_str()) {
                Some(n) => n,
                None => 5000,
            },
            None => 5000,
        };
        let scan_existing = match &env.scan_existing {
            Some(v) => {
                let cs = chars_of(v.as_str());
                let one = chars_of("1");
                crate::text::seq_eq(cs.as_slice(), one.as_slice())
            },
            None => false,
        };
        AppConfig {
            downloads_dir: downloads,
            memory_path: memory,
            complete_delay_ms,
            batch_window_ms,
            scan_existing,
        }
    }
}

} // verus!
