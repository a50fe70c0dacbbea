//! The evaluation instant: a fixed placement of "now" within the
//! current local day, captured once per fetch and threaded as a plain
//! value through normalization, so that filtering and display work from
//! the same moment.

use vstd::prelude::*;
use vstd::string::StringExecFns;

verus! {

/// A fixed evaluation instant within the current local day.
///
/// * `now_offset` — seconds elapsed on the real timeline since the most
///   recent local midnight; a departure whose offset from midnight is
///   `o` is `o - now_offset` seconds away.
/// * `clock_now` — the wall-clock second of the day shown now, in
///   `0..86400`; used when a departure time cannot be resolved.
/// * `amb_start..amb_end` — the half-open range of offsets from
///   midnight whose local-time resolution is ambiguous today (a clock
///   transition); empty on an ordinary day.  A departure in this range
///   falls back to the current instant, so its remaining time is zero.
#[derive(Clone, Copy, PartialEq, Eq, Structural, Debug)]
pub struct EvalInstant {
    pub now_offset: i64,
    pub clock_now: i64,
    pub amb_start: i64,
    pub amb_end: i64,
}

impl EvalInstant {
    /// The instant lies within one local day: at most a bit over a full
    /// day past midnight, with a wall clock inside the day.
    pub open spec fn wf(&self) -> bool {
        &&& 0 <= self.now_offset <= 100_000
        &&& 0 <= self.clock_now < 86_400
        &&& self.amb_start <= self.amb_end
    }

    /// Whether the local time at `offset` seconds past midnight is
    /// ambiguous at this instant.
    pub open spec fn spec_is_ambiguous(&self, offset: int) -> bool {
        self.amb_start <= offset < self.amb_end
    }

    /// Seconds remaining until a departure at `offset` seconds past
    /// midnight: the difference to now, or zero where the local time is
    /// ambiguous and the departure falls back to the current instant.
    pub open spec fn spec_seconds_left(&self, offset: int) -> int {
        if self.spec_is_ambiguous(offset) {
            0
        } else {
            offset - self.now_offset
        }
    }

    /// The wall-clock second of the day under which a departure at
    /// `offset` is displayed: the offset folded into one day, or the
    /// current wall clock where resolution is ambiguous.
    pub open spec fn spec_display_second(&self, offset: int) -> int {
        if self.spec_is_ambiguous(offset) {
            self.clock_now as int
        } else {
            offset % 86_400
        }
    }

    pub fn is_ambiguous(&self, offset: i64) -> (r: bool)
        ensures
            r == self.spec_is_ambiguous(offset as int),
    {
        self.amb_start <= offset && offset < self.amb_end
    }

    /// Relies on chrono to place the current moment in the local day:
    /// `Local::now` for the moment itself, `DateTime::date_naive` and
    /// `NaiveDate::and_hms_opt` for today's midnight,
    /// `TimeZone::from_local_datetime` to resolve that midnight (falling
    /// back to the moment itself where it does not resolve uniquely),
    /// `DateTime::signed_duration_since` for the elapsed seconds, and
    /// `Timelike::num_seconds_from_midnight` — documented to lie in
    /// `0..86400` — for the wall clock.  The current local time is
    /// within a day of the most recent local midnight, so the elapsed
    /// seconds lie well under `100_000`.  No probe for a clock
    /// transition is made here: the ambiguous range is left empty.
    #[verifier::external_body]
    pub fn now() -> (r: EvalInstant)
        ensures
            r.wf(),
            r.amb_start == r.amb_end,
    {
        let now = chrono::Local::now();
        let midnight_naive = now.date_naive().and_hms_opt(0, 0, 0).unwrap();
        let midnight = chrono::TimeZone::from_local_datetime(&chrono::Local, &midnight_naive)
            .single()
            .unwrap_or(now);
        let now_offset = now.signed_duration_since(midnight).num_seconds();
        let clock_now = chrono::Timelike::num_seconds_from_midnight(&now.time()) as i64;
        EvalInstant { now_offset, clock_now, amb_start: 0, amb_end: 0 }
    }
}

/// The character for one decimal digit.
pub open spec fn digit_char(d: int) -> char {
    if d == 0 {
        '0'
    } else if d == 1 {
        '1'
    } else if d == 2 {
        '2'
    } else if d == 3 {
        '3'
    } else if d == 4 {
        '4'
    } else if d == 5 {
        '5'
    } else if d == 6 {
        '6'
    } else if d == 7 {
        '7'
    } else if d == 8 {
        '8'
    } else {
        '9'
    }
}

/// A number below 100 as two decimal digits, zero-padded.
pub open spec fn spec_two_digits(n: int) -> Seq<char> {
    seq![digit_char(n / 10), digit_char(n % 10)]
}

/// The "HH:MM" rendering of a wall-clock second of the day.
pub open spec fn spec_clock_hm(second_of_day: int) -> Seq<char> {
    spec_two_digits(second_of_day / 3600) + seq![':'] + spec_two_digits((second_of_day % 3600) / 60)
}

fn digit_str(d: u64) -> (r: &'static str)
    requires
        d < 10,
    ensures
        r@ == seq![digit_char(d as int)],
{
    proof {
        reveal_strlit("0");
        reveal_strlit("1");
        reveal_strlit("2");
        reveal_strlit("3");
        reveal_strlit("4");
        reveal_strlit("5");
        reveal_strlit("6");
        reveal_strlit("7");
        reveal_strlit("8");
        reveal_strlit("9");
    }
    if d == 0 {
        "0"
    } else if d == 1 {
        "1"
    } else if d == 2 {
        "2"
    } else if d == 3 {
        "3"
    } else if d == 4 {
        "4"
    } else if d == 5 {
        "5"
    } else if d == 6 {
        "6"
    } else if d == 7 {
        "7"
    } else if d == 8 {
        "8"
    } else {
        "9"
    }
}

/// Renders a wall-clock second of the day as "HH:MM", zero-padded.
pub fn format_clock_hm(second_of_day: i64) -> (r: String)
    requires
        0 <= second_of_day < 86_400,
    ensures
        r@ == spec_clock_hm(second_of_day as int),
{
    let total: u64 = second_of_day as u64;
    let h: u64 = total / 3600;
    let m: u64 = (total % 3600) / 60;
    let mut s = String::new();
    s.append(digit_str(h / 10));
    s.append(digit_str(h % 10));
    proof {
        reveal_strlit(":");
    }
    s.append(":");
    s.append(digit_str(m / 10));
    s.append(digit_str(m % 10));
    proof {
        assert(s@ =~= spec_clock_hm(second_of_day as int));
    }
    s
}

} // verus!
