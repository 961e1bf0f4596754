//! Log levels.

use vstd::prelude::*;

use crate::text::chars_of;

verus! {

/// Severity of a log line, least severe first.
#[derive(Clone, Copy, Debug, PartialEq, Eq, PartialOrd, Ord, Structural)]
pub enum Level {
    Debug,
    Info,
    Warn,
    Error,
}

/// `c` with an ASCII capital letter made small.
pub open spec fn ascii_lower(c: char) -> char {
    if 'A' <= c && c <= 'Z' {
        ((c as u8) + 32) as char
    } else {
        c
    }
}

/// The level named by `s`, ignoring ASCII case; `Info` for any other text.
pub open spec fn level_named(s: Seq<char>) -> Level {
    let l = s.map_values(|c: char| ascii_lower(c));
    if l == "debug"@ {
        Level::Debug
    } else if l == "warn"@ {
        Level::Warn
    } else if l == "error"@ {
        Level::Error
    } else {
        Level::Info
    }
}

fn lower(c: char) -> (r: char)
    ensures
        r == ascii_lower(c),
{
    if 'A' <= c && c <= 'Z' {
        ((c as u8) + 32) as char
    } else {
        c
    }
}

impl Level {
    pub fn parse(s: &str) -> (r: Level)
        ensures
            r == level_named(s@),
    {
        let cs = chars_of(s);
        let mut l: Vec<char> = Vec::new();
        let mut i: usize = 0;
        while i < cs.len()
            invariant
                i <= cs@.len(),
                cs@ == s@,
                l@ == cs@.subrange(0, i as int).map_values(|c: char| ascii_lower(c)),
            decreases cs@.len() - i,
        {
            l.push(lower(cs[i]));
            i = i + 1;
            proof {
                assert(l@ =~= cs@.subrange(0, i as int).map_values(|c: char| ascii_lower(c)));
            }
        }
        proof {
            assert(cs@.subrange(0, cs@.len() as int) =~= cs@);
        }
        if crate::text::chars_equal(&l, &chars_of("debug")) {
            Level::Debug
        } else if crate::text::chars_equal(&l, &chars_of("warn")) {
            Level::Warn
        } else if crate::text::chars_equal(&l, &chars_of("error")) {
            Level::Error
        } else {
            Level::Info
        }
    }
}

} // verus!
