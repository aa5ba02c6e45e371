//! The command-line surface as plain data, and the verified key=value
//! argument parser.
//!
//! Argument handling itself lives outside the engine; what stands here is
//! the parsed shape of an invocation and the one piece of parsing with
//! real logic in it: splitting a `NAME=WEIGHT` metric argument and reading
//! the signed 16-bit weight.

use vstd::prelude::*;

use crate::search::GenerationStrategy;
use crate::EngineError;

verus! {

/// The corpus and keyboard names an analysis works on.
#[derive(Clone, Debug)]
pub struct AnalysisArgs {
    pub corpus: String,
    pub keyboard: String,
}

/// One parsed subcommand with its arguments.
#[derive(Clone, Debug)]
pub enum Commands {
    /// Show the available corpora, keyboards and layouts.
    Env,
    /// Sample the random-assignment metric distribution into a table.
    Collect { count: u64, char_set: String, metrics: Vec<String>, analysis_args: AnalysisArgs },
    /// Show the stats of named layouts.
    Stats { layouts: Vec<String>, analysis_args: AnalysisArgs },
    /// Show a corpus's raw data.
    Corpus { name: String },
    /// Optimize layouts with a chosen strategy.
    RunGeneration {
        runs: u64,
        strategy: GenerationStrategy,
        char_set: String,
        metrics: Vec<(String, i16)>,
        stdout: bool,
        pin: usize,
        analysis_args: AnalysisArgs,
    },
    /// Pretty-print a charset as a key matrix.
    FormatLayout { chars: String },
    /// Emit a layout description for a keyboard.
    LayoutData { chars: String, keyboard: String, name: Option<String>, fixed: bool },
    /// Show a keyboard's combo keys under a layout.
    Combos { layout: String, analysis_args: AnalysisArgs },
}

/// A whole parsed invocation.
pub struct Cli {
    pub command: Option<Commands>,
}

/// The index of the first `=` at or after `i`, or `-1` when there is
/// none.
pub open spec fn first_eq(s: Seq<char>, i: int) -> int
    decreases s.len() - i,
{
    if i < 0 || i >= s.len() {
        -1
    } else if s[i] == '=' {
        i
    } else {
        first_eq(s, i + 1)
    }
}

/// Reads decimal digits from `i` to the end onto the accumulator; any
/// non-digit spoils the number.
pub open spec fn parse_digits(s: Seq<char>, i: int, acc: int) -> Option<int>
    decreases s.len() - i,
{
    if i < 0 || i >= s.len() {
        Some(acc)
    } else if 48 <= s[i] as int <= 57 {
        parse_digits(s, i + 1, acc * 10 + (s[i] as int - 48))
    } else {
        None
    }
}

/// A signed 16-bit decimal: an optional sign, then at least one digit,
/// and a value within the type's range.
pub open spec fn parse_i16_spec(s: Seq<char>) -> Option<int> {
    if s.len() == 0 {
        None
    } else if s[0] == '-' {
        if s.len() == 1 {
            None
        } else {
            match parse_digits(s, 1, 0) {
                Some(v) => if v <= 32768 {
                    Some(-v)
                } else {
                    None
                },
                None => None,
            }
        }
    } else if s[0] == '+' {
        if s.len() == 1 {
            None
        } else {
            match parse_digits(s, 1, 0) {
                Some(v) => if v <= 32767 {
                    Some(v)
                } else {
                    None
                },
                None => None,
            }
        }
    } else {
        match parse_digits(s, 0, 0) {
            Some(v) => if v <= 32767 {
                Some(v)
            } else {
                None
            },
            None => None,
        }
    }
}

/// Splits a `KEY=value` argument at its first `=` and parses the value as
/// a signed 16-bit weight.
///
/// Fails with `InvalidKeyVal` exactly when no `=` occurs or the value
/// part is not a decimal in range.
pub fn parse_key_val(s: &str) -> (r: Result<(String, i16), EngineError>)
    ensures
        match r {
            Ok(kv) => {
                &&& first_eq(s@, 0) >= 0
                &&& kv.0@ == s@.subrange(0, first_eq(s@, 0))
                &&& parse_i16_spec(s@.subrange(first_eq(s@, 0) + 1, s@.len() as int)) == Some(
                    kv.1 as int,
                )
            },
            Err(e) => {
                &&& e == EngineError::InvalidKeyVal
                &&& (first_eq(s@, 0) < 0 || parse_i16_spec(
                    s@.subrange(first_eq(s@, 0) + 1, s@.len() as int),
                ) is None)
            },
        },
{
    let len = s.unicode_len();
    let mut pos: usize = 0;
    let mut found = false;
    while pos < len && !found
        invariant
            len == s@.len(),
            pos <= len,
            found ==> pos < len && s@[pos as int] == '=',
            found ==> first_eq(s@, 0) == pos,
            !found ==> first_eq(s@, 0) == first_eq(s@, pos as int),
        decreases len - pos, (if found {
            0int
        } else {
            1int
        }),
    {
        let c = s.get_char(pos);
        if c == '=' {
            found = true;
        } else {
            pos = pos + 1;
        }
    }
    if !found {
        proof {
            assert(first_eq(s@, pos as int) == -1);
        }
        return Err(EngineError::InvalidKeyVal);
    }
    let key_str = s.substring_char(0, pos);
    let key: String = key_str.to_owned();
    match parse_i16_tail(s, pos + 1) {
        Some(v) => Ok((key, v)),
        None => Err(EngineError::InvalidKeyVal),
    }
}

/// Parses `s[from..]` as a signed 16-bit decimal; `None` exactly when the
/// spec-level parse rejects it.
fn parse_i16_tail(s: &str, from: usize) -> (r: Option<i16>)
    requires
        from <= s@.len(),
    ensures
        match r {
            Some(v) => parse_i16_spec(s@.subrange(from as int, s@.len() as int)) == Some(v as int),
            None => parse_i16_spec(s@.subrange(from as int, s@.len() as int)) is None,
        },
{
    let len = s.unicode_len();
    let ghost tail = s@.subrange(from as int, s@.len() as int);
    if from >= len {
        return None;
    }
    let first = s.get_char(from);
    proof {
        assert(tail[0] == s@[from as int]);
    }
    let (negative, start): (bool, usize) = if first == '-' {
        (true, from + 1)
    } else if first == '+' {
        (false, from + 1)
    } else {
        (false, from)
    };
    if start >= len {
        return None;
    }
    let ghost dstart: int = start - from;
    let mut i: usize = start;
    let mut acc: u32 = 0;
    let ghost mut acc_full: int = 0;
    let mut too_big = false;
    while i < len
        invariant
            len == s@.len(),
            tail == s@.subrange(from as int, s@.len() as int),
            tail.len() == len - from,
            from <= start <= i <= len,
            start < len,
            dstart == start - from,
            dstart == 0 || dstart == 1,
            dstart == 1 ==> (tail[0] == '-' || tail[0] == '+'),
            dstart == 0 ==> (tail[0] != '-' && tail[0] != '+'),
            too_big ==> acc_full > 32768,
            !too_big ==> acc == acc_full && acc <= 32768,
            acc_full >= 0,
            parse_digits(tail, dstart, 0) == parse_digits(tail, i - from, acc_full),
        decreases len - i,
    {
        let c = s.get_char(i);
        let cu = c as u32;
        proof {
            assert(tail[i - from] == s@[i as int]);
        }
        if cu < 48 || cu > 57 {
            proof {
                assert(parse_digits(tail, i - from, acc_full) is None);
            }
            return None;
        }
        let d = cu - 48;
        proof {
            acc_full = acc_full * 10 + (d as int);
        }
        if too_big || acc > 3276 || (acc == 3276 && d > 8) {
            too_big = true;
        } else {
            acc = acc * 10 + d;
        }
        i = i + 1;
    }
    proof {
        assert(parse_digits(tail, len - from, acc_full) == Some(acc_full));
    }
    if too_big {
        return None;
    }
    if negative {
        if acc > 32768 {
            return None;
        }
        Some((-(acc as i32)) as i16)
    } else {
        if acc > 32767 {
            return None;
        }
        Some(acc as i16)
    }
}

} // verus!
