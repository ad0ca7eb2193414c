//! Solver settings shared by every ILP extractor.
use crate::text::{chars_of, eq_word, same_word, trim, trimmed, trimmed_end, trimmed_start};
use vstd::prelude::*;

verus! {

/// Which extraction to hand the solver as its starting incumbent.
#[derive(Debug, Clone, Copy, PartialEq, Eq, Structural)]
pub enum WarmStart {
    /// No MIP start.
    Off,
    /// Start from the initial expression. Requires the e-graph to flag its
    /// initial nodes.
    Initial,
    /// Start from the fallback: the better of the initial expression (if
    /// flagged) and the objective's greedy extraction.
    Greedy,
}

/// The text is none of the warm starts.
#[derive(Debug, Clone, Copy, PartialEq, Eq)]
pub struct UnknownWarmStart;

/// A length of time.
#[derive(Debug, Clone, Copy, PartialEq, Eq, Structural)]
pub struct TimeLimit {
    pub secs: u64,
    pub nanos: u32,
}

/// The limit of a solve that sets none, in seconds.
pub const DEFAULT_TIME_LIMIT: u64 = 10;

/// Solver settings.
#[derive(Debug, Clone)]
pub struct IlpOptions {
    /// Wall-clock limit for the solve, rounded up to whole seconds. `None` is
    /// unbounded, which can take hours on large e-graphs. Zero stops the
    /// solver before it even loads a warm start, so it always returns the
    /// fallback.
    pub time_limit: Option<TimeLimit>,
    /// Solver threads. Keep `threads x concurrent solver processes` within the
    /// CPU allocation.
    pub threads: u32,
    pub warm_start: WarmStart,
    /// Where to write the solver's own log (enables the incumbent trajectory
    /// in the report).
    pub solver_log: Option<String>,
    /// Backend-specific parameters, passed verbatim.
    pub raw_params: Vec<(String, String)>,
}

impl WarmStart {
    /// The name of a warm start.
    pub open spec fn text(self) -> Seq<char> {
        match self {
            WarmStart::Off => "none"@,
            WarmStart::Initial => "initial"@,
            WarmStart::Greedy => "greedy"@,
        }
    }

    pub fn as_str(self) -> (r: &'static str)
        ensures
            r@ == self.text(),
    {
        match self {
            WarmStart::Off => "none",
            WarmStart::Initial => "initial",
            WarmStart::Greedy => "greedy",
        }
    }

    /// The warm start a text names, whatever its case and the space around it.
    pub open spec fn named(text: Seq<char>) -> Option<WarmStart> {
        let t = trimmed(text);
        if same_word(t, "none"@) || same_word(t, "off"@) {
            Some(WarmStart::Off)
        } else if same_word(t, "initial"@) {
            Some(WarmStart::Initial)
        } else if same_word(t, "greedy"@) {
            Some(WarmStart::Greedy)
        } else {
            None
        }
    }

    /// [`Self::named`].
    pub fn parse(s: &str) -> (r: Result<WarmStart, UnknownWarmStart>)
        ensures
            r == (match WarmStart::named(s@) {
                Some(w) => Ok(w),
                None => Err(UnknownWarmStart),
            }),
    {
        let chars: Vec<char> = chars_of(s);
        let t: &[char] = trim(chars.as_slice());
        let none: Vec<char> = chars_of("none");
        let off: Vec<char> = chars_of("off");
        let initial: Vec<char> = chars_of("initial");
        let greedy: Vec<char> = chars_of("greedy");
        if eq_word(t, none.as_slice()) || eq_word(t, off.as_slice()) {
            Ok(WarmStart::Off)
        } else if eq_word(t, initial.as_slice()) {
            Ok(WarmStart::Initial)
        } else if eq_word(t, greedy.as_slice()) {
            Ok(WarmStart::Greedy)
        } else {
            Err(UnknownWarmStart)
        }
    }
}

/// Every warm start is named by its own name.
pub proof fn warm_start_names_round_trip(w: WarmStart)
    ensures
        WarmStart::named(w.text()) == Some(w),
{
    reveal_strlit("none");
    reveal_strlit("off");
    reveal_strlit("initial");
    reveal_strlit("greedy");
    let t = w.text();
    assert(trimmed_start(t) == t);
    assert(t.last() == 'e' || t.last() == 'l' || t.last() == 'y');
    assert(trimmed_end(t) == t);
    assert(same_word(t, t));
    match w {
        WarmStart::Off => {},
        WarmStart::Initial => {
            assert(t.len() != "none"@.len() && t.len() != "off"@.len());
        },
        WarmStart::Greedy => {
            assert(t.len() != "none"@.len() && t.len() != "off"@.len());
            assert(t.len() != "initial"@.len());
        },
    }
}

impl Default for WarmStart {
    fn default() -> (r: WarmStart)
        ensures
            r == WarmStart::Initial,
    {
        WarmStart::Initial
    }
}

impl Default for IlpOptions {
    /// Ten seconds on one thread, starting from the initial expression.
    fn default() -> (r: IlpOptions)
        ensures
            r.time_limit == (Some(TimeLimit { secs: DEFAULT_TIME_LIMIT, nanos: 0 })),
            r.threads == 1,
            r.warm_start == WarmStart::Initial,
            r.solver_log is None,
            r.raw_params@.len() == 0,
    {
        IlpOptions {
            time_limit: Some(TimeLimit { secs: DEFAULT_TIME_LIMIT, nanos: 0 }),
            threads: 1,
            warm_start: WarmStart::Initial,
            solver_log: None,
            raw_params: Vec::new(),
        }
    }
}

impl IlpOptions {
    pub fn with_time_limit(self, time_limit: TimeLimit) -> (r: Self)
        ensures
            r == (IlpOptions { time_limit: Some(time_limit), ..self }),
    {
        let mut r: IlpOptions = self;
        r.time_limit = Some(time_limit);
        r
    }

    pub fn with_warm_start(self, warm_start: WarmStart) -> (r: Self)
        ensures
            r == (IlpOptions { warm_start, ..self }),
    {
        let mut r: IlpOptions = self;
        r.warm_start = warm_start;
        r
    }

    /// The limit in the backend's whole seconds (rounded up; `u32::MAX` for
    /// unbounded).
    pub fn time_limit_seconds(&self) -> (r: u32)
        ensures
            r == whole_seconds(self.time_limit),
    {
        time_limit_seconds(self.time_limit)
    }
}

/// A time limit in whole seconds, rounded up, `u32::MAX` for none or for more.
pub open spec fn whole_seconds(time_limit: Option<TimeLimit>) -> int {
    match time_limit {
        None => u32::MAX as int,
        Some(d) => {
            let secs = d.secs + (d.nanos + 999_999_999) / 1_000_000_000;
            if secs > u32::MAX {
                u32::MAX as int
            } else {
                secs
            }
        },
    }
}

/// [`whole_seconds`].
pub fn time_limit_seconds(time_limit: Option<TimeLimit>) -> (r: u32)
    ensures
        r == whole_seconds(time_limit),
{
    match time_limit {
        None => u32::MAX,
        Some(d) => {
            let secs: u128 = d.secs as u128 + (d.nanos as u128 + 999_999_999) / 1_000_000_000;
            if secs > u32::MAX as u128 {
                u32::MAX
            } else {
                secs as u32
            }
        },
    }
}

/// The limit of so many seconds, `u32::MAX` being none.
pub open spec fn limit_of_seconds(seconds: u32) -> Option<TimeLimit> {
    if seconds == u32::MAX {
        None
    } else {
        Some(TimeLimit { secs: seconds as u64, nanos: 0 })
    }
}

/// [`limit_of_seconds`].
pub fn time_limit_from_seconds(seconds: u32) -> (r: Option<TimeLimit>)
    ensures
        r == limit_of_seconds(seconds),
{
    if seconds == u32::MAX {
        None
    } else {
        Some(TimeLimit { secs: seconds as u64, nanos: 0 })
    }
}

/// Seconds made a limit and read back are the same seconds.
pub proof fn seconds_round_trip(seconds: u32)
    ensures
        whole_seconds(limit_of_seconds(seconds)) == seconds,
{
}

} // verus!
