//! The dashboard's text and thresholds: durations, clock and session dates,
//! name truncation, the charge bar's fill, and the severity bands that pick
//! a color. Drawing is the terminal front end's.

use vstd::prelude::*;

use crate::app::PatternAxis;
use crate::storage::Session;
use crate::text::{decimal, decimal2, push_char, push_decimal, push_decimal2};

verus! {

/// Charge level at or above which the battery is fine.
pub const BATTERY_OK: u8 = 50;

/// Charge level below which the battery is critical.
pub const BATTERY_WARN: u8 = 20;

/// The palette role a value is drawn in.
#[derive(Debug, Clone, Copy, PartialEq, Eq, Structural)]
pub enum Tone {
    Accent,
    AccentAlt,
    Good,
    Warn,
    Danger,
}

pub open spec fn charge_tone(capacity: u8, charging: bool) -> Tone {
    if charging {
        Tone::Accent
    } else if capacity >= BATTERY_OK {
        Tone::Good
    } else if capacity >= BATTERY_WARN {
        Tone::Warn
    } else {
        Tone::Danger
    }
}

/// Charging: accent; otherwise ok / warn / danger by capacity.
pub fn charge_level(capacity: u8, charging: bool) -> (r: Tone)
    ensures
        r == charge_tone(capacity, charging),
{
    if charging {
        Tone::Accent
    } else if capacity >= BATTERY_OK {
        Tone::Good
    } else if capacity >= BATTERY_WARN {
        Tone::Warn
    } else {
        Tone::Danger
    }
}

/// The charge tone only falls as the charge falls.
pub proof fn lemma_charge_tone_monotone(a: u8, b: u8)
    requires
        a <= b,
    ensures
        charge_tone(b, false) == Tone::Danger ==> charge_tone(a, false) == Tone::Danger,
        charge_tone(a, false) == Tone::Good ==> charge_tone(b, false) == Tone::Good,
{
}

/// Tone of a session's % drop: large drops stand out.
pub fn drop_level(drop: i16) -> (r: Tone)
    ensures
        r == (if drop >= 15 {
            Tone::AccentAlt
        } else if drop >= 5 {
            Tone::Warn
        } else {
            Tone::Good
        }),
{
    if drop >= 15 {
        Tone::AccentAlt
    } else if drop >= 5 {
        Tone::Warn
    } else {
        Tone::Good
    }
}

/// Columns of a `width`-wide charge bar that are filled at `capacity`%.
pub fn filled_columns(capacity: u8, width: u16) -> (r: usize)
    ensures
        r == (capacity as int * width as int) / 100,
{
    assert(capacity as int * width as int <= 255 * 65535) by (nonlinear_arith)
        requires
            capacity <= 255,
            width <= 65535,
    ;
    ((capacity as u32 * width as u32) / 100) as usize
}

/// A full battery fills the bar, an empty one leaves it empty, and more
/// charge never fills fewer columns.
pub proof fn lemma_fill_bounds(a: u8, b: u8, width: u16)
    requires
        a <= b,
    ensures
        (0 * width as int) / 100 == 0,
        (100 * width as int) / 100 == width,
        (a as int * width as int) / 100 <= (b as int * width as int) / 100,
{
    assert(a as int * width as int <= b as int * width as int) by (nonlinear_arith)
        requires
            a <= b,
    ;
    vstd::arithmetic::div_mod::lemma_div_is_ordered(a as int * width as int, b as int * width as int, 100);
}

// ---------------------------------------------------------------------------
// Text
// ---------------------------------------------------------------------------

/// `"1h 05m"` / `"45m"` / `"30s"` for a duration in seconds (negative
/// counts as zero).
pub open spec fn duration_text(secs: int) -> Seq<char> {
    let s = if secs < 0 {
        0
    } else {
        secs
    };
    let h = s / 3600;
    let m = (s % 3600) / 60;
    if h > 0 {
        decimal(h as nat) + "h "@ + decimal2(m as nat) + "m"@
    } else if m > 0 {
        decimal(m as nat) + "m"@
    } else {
        decimal(s as nat) + "s"@
    }
}

/// Seconds as `"1h 23m"`, `"45m"` or `"30s"`.
pub fn fmt_duration(secs: i64) -> (r: String)
    ensures
        r@ == duration_text(secs as int),
{
    let s: u64 = if secs < 0 {
        0
    } else {
        secs as u64
    };
    let h = s / 3600;
    let m = (s % 3600) / 60;
    let mut out = String::new();
    proof {
        reveal_strlit("h ");
        reveal_strlit("m");
        reveal_strlit("s");
    }
    if h > 0 {
        push_decimal(&mut out, h);
        push_char(&mut out, 'h');
        push_char(&mut out, ' ');
        push_decimal2(&mut out, m);
        push_char(&mut out, 'm');
    } else if m > 0 {
        push_decimal(&mut out, m);
        push_char(&mut out, 'm');
    } else {
        push_decimal(&mut out, s);
        push_char(&mut out, 's');
    }
    assert(out@ =~= duration_text(secs as int));
    out
}

/// `"Xh MMm"` for a remaining time in seconds, `"—"` when unknown.
pub open spec fn remaining_text(secs: Option<u64>) -> Seq<char> {
    match secs {
        Some(s) => {
            let mins = s / 60;
            decimal((mins / 60) as nat) + "h "@ + decimal2((mins % 60) as nat) + "m"@
        },
        None => "\u{2014}"@,
    }
}

/// Estimated time remaining as `"Xh MMm"` (`"—"` when unknown).
pub fn opt_dur(secs: Option<u64>) -> (r: String)
    ensures
        r@ == remaining_text(secs),
{
    proof {
        reveal_strlit("h ");
        reveal_strlit("m");
        reveal_strlit("\u{2014}");
    }
    match secs {
        Some(s) => {
            let mins = s / 60;
            let mut out = String::new();
            push_decimal(&mut out, mins / 60);
            push_char(&mut out, 'h');
            push_char(&mut out, ' ');
            push_decimal2(&mut out, mins % 60);
            push_char(&mut out, 'm');
            assert(out@ =~= remaining_text(secs));
            out
        },
        None => {
            let mut out = String::new();
            push_char(&mut out, '\u{2014}');
            assert(out@ =~= remaining_text(secs));
            out
        },
    }
}

/// `"HH:MM"` of the time of day (UTC) of a Unix time.
pub open spec fn clock_text(secs: u64) -> Seq<char> {
    decimal2(((secs % 86400) / 3600) as nat) + ":"@ + decimal2(((secs % 3600) / 60) as nat)
}

/// Header clock, `"HH:MM"`.
pub fn fmt_clock(secs: u64) -> (r: String)
    ensures
        r@ == clock_text(secs),
{
    proof {
        reveal_strlit(":");
    }
    let mut out = String::new();
    push_decimal2(&mut out, (secs % 86400) / 3600);
    push_char(&mut out, ':');
    push_decimal2(&mut out, (secs % 3600) / 60);
    assert(out@ =~= clock_text(secs));
    out
}

pub open spec fn weekday_name(d: int) -> Seq<char> {
    if d == 0 {
        "Sun"@
    } else if d == 1 {
        "Mon"@
    } else if d == 2 {
        "Tue"@
    } else if d == 3 {
        "Wed"@
    } else if d == 4 {
        "Thu"@
    } else if d == 5 {
        "Fri"@
    } else {
        "Sat"@
    }
}

/// An `i64` as a 64-bit `usize` holds it (`as usize`).
pub open spec fn wrap64(x: int) -> int {
    if x < 0 {
        x + 0x1_0000_0000_0000_0000
    } else {
        x
    }
}

/// `"Mon DD HH:MM"` for a session start: the weekday and time of day in
/// UTC, and a day of month approximated from the day count.
pub open spec fn session_when_text(ts: int) -> Seq<char> {
    let days = ts / 86400;
    let secs = ts % 86400;
    let weekday = wrap64(days + 4) % 7;
    let dom = 1 + wrap64(days) % 28;
    weekday_name(weekday) + " "@ + (if dom < 10 {
        " "@
    } else {
        Seq::empty()
    }) + decimal(dom as nat) + " "@ + decimal2((secs / 3600) as nat) + ":"@ + decimal2(
        ((secs % 3600) / 60) as nat,
    )
}

/// `x` as a 64-bit `usize` holds it.
fn as_u64_wrapping(x: i64) -> (r: u64)
    ensures
        r as int == wrap64(x as int),
{
    if x >= 0 {
        x as u64
    } else {
        ((x + 9223372036854775807) + 1) as u64 + 9223372036854775808u64
    }
}

/// Session start as `"Mon DD HH:MM"`.
pub fn fmt_session_when(ts: i64) -> (r: String)
    ensures
        r@ == session_when_text(ts as int),
{
    // Euclidean division by a day.
    let (days, secs): (i64, i64) = if ts >= 0 {
        (ts / 86400, ts % 86400)
    } else {
        let a: i64 = -(ts + 1);
        (-(a / 86400) - 1, 86399 - a % 86400)
    };
    proof {
        if ts >= 0 {
            vstd::arithmetic::div_mod::lemma_fundamental_div_mod(ts as int, 86400);
        } else {
            let a: int = -(ts + 1);
            vstd::arithmetic::div_mod::lemma_fundamental_div_mod(a, 86400);
            vstd::arithmetic::div_mod::lemma_mod_bound(a, 86400);
            vstd::arithmetic::div_mod::lemma_fundamental_div_mod_converse(
                ts as int,
                86400,
                days as int,
                secs as int,
            );
        }
    }
    assert(days as int == ts as int / 86400 && secs as int == ts as int % 86400);
    let weekday = as_u64_wrapping(days + 4) % 7;
    let dom = 1 + as_u64_wrapping(days) % 28;
    let hour = (secs / 3600) as u64;
    let minute = ((secs % 3600) / 60) as u64;
    proof {
        reveal_strlit("Sun");
        reveal_strlit("Mon");
        reveal_strlit("Tue");
        reveal_strlit("Wed");
        reveal_strlit("Thu");
        reveal_strlit("Fri");
        reveal_strlit("Sat");
        reveal_strlit(" ");
        reveal_strlit(":");
    }
    let name: &str = if weekday == 0 {
        "Sun"
    } else if weekday == 1 {
        "Mon"
    } else if weekday == 2 {
        "Tue"
    } else if weekday == 3 {
        "Wed"
    } else if weekday == 4 {
        "Thu"
    } else if weekday == 5 {
        "Fri"
    } else {
        "Sat"
    };
    let mut out = String::new();
    out.append(name);
    push_char(&mut out, ' ');
    if dom < 10 {
        push_char(&mut out, ' ');
    }
    push_decimal(&mut out, dom);
    push_char(&mut out, ' ');
    push_decimal2(&mut out, hour);
    push_char(&mut out, ':');
    push_decimal2(&mut out, minute);
    assert(out@ =~= session_when_text(ts as int));
    out
}

// ---------------------------------------------------------------------------
// Pattern tab
// ---------------------------------------------------------------------------

/// Number of bins on a pattern axis: 24 hours of the day or 7 days of the
/// week.
pub open spec fn axis_bins(a: PatternAxis) -> int {
    match a {
        PatternAxis::Hourly => 24,
        PatternAxis::Weekday => 7,
    }
}

/// The number of bars the pattern chart draws on axis `a`.
pub fn pattern_bins(a: PatternAxis) -> (r: u8)
    ensures
        r == axis_bins(a),
{
    match a {
        PatternAxis::Hourly => 24,
        PatternAxis::Weekday => 7,
    }
}

/// Two-letter weekday label, Sunday first.
pub open spec fn weekday_short(d: int) -> Seq<char> {
    if d == 0 {
        "Su"@
    } else if d == 1 {
        "Mo"@
    } else if d == 2 {
        "Tu"@
    } else if d == 3 {
        "We"@
    } else if d == 4 {
        "Th"@
    } else if d == 5 {
        "Fr"@
    } else {
        "Sa"@
    }
}

/// The label under bar `idx`: the two-digit hour, or the short weekday.
pub open spec fn bin_label_text(a: PatternAxis, idx: int) -> Seq<char> {
    match a {
        PatternAxis::Hourly => decimal2(idx as nat),
        PatternAxis::Weekday => weekday_short(idx),
    }
}

/// The label under bar `idx` of the pattern chart.
pub fn bin_label(a: PatternAxis, idx: u8) -> (r: String)
    requires
        idx < axis_bins(a),
    ensures
        r@ == bin_label_text(a, idx as int),
{
    let mut out = String::new();
    match a {
        PatternAxis::Hourly => {
            push_decimal2(&mut out, idx as u64);
        },
        PatternAxis::Weekday => {
            proof {
                reveal_strlit("Su");
                reveal_strlit("Mo");
                reveal_strlit("Tu");
                reveal_strlit("We");
                reveal_strlit("Th");
                reveal_strlit("Fr");
                reveal_strlit("Sa");
            }
            let name: &str = if idx == 0 {
                "Su"
            } else if idx == 1 {
                "Mo"
            } else if idx == 2 {
                "Tu"
            } else if idx == 3 {
                "We"
            } else if idx == 4 {
                "Th"
            } else if idx == 5 {
                "Fr"
            } else {
                "Sa"
            };
            out.append(name);
        },
    }
    assert(out@ =~= bin_label_text(a, idx as int));
    out
}

/// The name of bin `idx` in the summary: `"HH:00"`, or the weekday's
/// three-letter name (empty past Saturday).
pub open spec fn bin_name_text(a: PatternAxis, idx: int) -> Seq<char> {
    match a {
        PatternAxis::Hourly => decimal2(idx as nat) + ":00"@,
        PatternAxis::Weekday => if idx < 7 {
            weekday_name(idx)
        } else {
            Seq::empty()
        },
    }
}

/// The name of bin `idx` in the pattern summary.
pub fn bin_name(a: PatternAxis, idx: u8) -> (r: String)
    ensures
        r@ == bin_name_text(a, idx as int),
{
    proof {
        reveal_strlit(":00");
        reveal_strlit("Sun");
        reveal_strlit("Mon");
        reveal_strlit("Tue");
        reveal_strlit("Wed");
        reveal_strlit("Thu");
        reveal_strlit("Fri");
        reveal_strlit("Sat");
    }
    let mut out = String::new();
    match a {
        PatternAxis::Hourly => {
            push_decimal2(&mut out, idx as u64);
            push_char(&mut out, ':');
            push_char(&mut out, '0');
            push_char(&mut out, '0');
        },
        PatternAxis::Weekday => {
            if idx < 7 {
                let name: &str = if idx == 0 {
                    "Sun"
                } else if idx == 1 {
                    "Mon"
                } else if idx == 2 {
                    "Tue"
                } else if idx == 3 {
                    "Wed"
                } else if idx == 4 {
                    "Thu"
                } else if idx == 5 {
                    "Fri"
                } else {
                    "Sat"
                };
                out.append(name);
            }
        },
    }
    assert(out@ =~= bin_name_text(a, idx as int));
    out
}

/// The pattern chart's day names follow the calendar the session dates
/// use, Sunday first: the summary name of weekday bin `idx` is the day
/// name of the session date `idx + 3` days after the epoch (1970-01-04
/// was a Sunday), bin 0 is `"Sun"`, and each bar label is the first two
/// letters of that name. An hour bin's summary name is its bar label
/// followed by `":00"`.
pub proof fn lemma_bin_names_follow_the_calendar(idx: int)
    requires
        0 <= idx < 7,
    ensures
        bin_name_text(PatternAxis::Weekday, idx) == weekday_name(idx),
        bin_name_text(PatternAxis::Weekday, idx) == session_when_text((idx + 3) * 86400).take(3),
        bin_label_text(PatternAxis::Weekday, idx) == bin_name_text(PatternAxis::Weekday, idx).take(2),
        bin_name_text(PatternAxis::Weekday, 0) == "Sun"@,
        bin_name_text(PatternAxis::Hourly, idx) == bin_label_text(PatternAxis::Hourly, idx) + ":00"@,
{
    reveal_strlit("Sun");
    reveal_strlit("Mon");
    reveal_strlit("Tue");
    reveal_strlit("Wed");
    reveal_strlit("Thu");
    reveal_strlit("Fri");
    reveal_strlit("Sat");
    reveal_strlit("Su");
    reveal_strlit("Mo");
    reveal_strlit("Tu");
    reveal_strlit("We");
    reveal_strlit("Th");
    reveal_strlit("Fr");
    reveal_strlit("Sa");
    let ts = (idx + 3) * 86400;
    let w = wrap64(ts / 86400 + 4) % 7;
    assert(ts / 86400 == idx + 3) by {
        vstd::arithmetic::div_mod::lemma_div_multiples_vanish(idx + 3, 86400);
    }
    assert(w == idx);
    assert(weekday_name(idx).len() == 3);
    assert(session_when_text(ts).take(3) =~= weekday_name(idx));
    assert(weekday_short(idx) =~= weekday_name(idx).take(2));
}

/// The hour of the day (UTC) of a Unix time in seconds.
pub fn hour_of_day(secs: u64) -> (r: u8)
    ensures
        r == (secs / 3600) % 24,
{
    ((secs / 3600) % 24) as u8
}

/// `s` cut to `max` characters: kept whole when it fits, else its first
/// `keep` characters and an ellipsis.
pub open spec fn truncated(s: Seq<char>, max: int, keep: int) -> Seq<char> {
    if s.len() <= max {
        s
    } else {
        s.take(keep) + "\u{2026}"@
    }
}

fn truncate_to(s: &str, max: usize, keep: usize) -> (r: String)
    requires
        keep <= max,
    ensures
        r@ == truncated(s@, max as int, keep as int),
{
    let v = crate::text::chars_of(s);
    if v.len() <= max {
        let r = crate::text::string_from_chars(&v, 0, v.len());
        assert(v@.subrange(0, v@.len() as int) =~= s@);
        r
    } else {
        let mut r = crate::text::string_from_chars(&v, 0, keep);
        assert(v@.subrange(0, keep as int) =~= s@.take(keep as int));
        push_char(&mut r, '\u{2026}');
        proof {
            reveal_strlit("\u{2026}");
        }
        assert(r@ =~= truncated(s@, max as int, keep as int));
        r
    }
}

/// Truncate a long process name to `max` characters with an ellipsis.
pub fn truncate_name(name: &str, max: usize) -> (r: String)
    requires
        max >= 1 || name@.len() == 0,
    ensures
        r@ == truncated(name@, max as int, max - 1),
{
    if max == 0 {
        let r = String::new();
        assert(r@ =~= truncated(name@, max as int, max - 1));
        r
    } else {
        truncate_to(name, max, max - 1)
    }
}

/// Cut long text to `max` characters with an ellipsis (at least the
/// ellipsis when `max` is 0).
pub fn truncate(s: &str, max: usize) -> (r: String)
    ensures
        r@ == truncated(s@, max as int, if max >= 1 {
            max - 1
        } else {
            0
        }),
{
    let keep = if max >= 1 {
        max - 1
    } else {
        0
    };
    truncate_to(s, max, keep)
}

/// A truncated name never exceeds `max` characters, and a fitting one is
/// unchanged.
pub proof fn lemma_truncated_fits(s: Seq<char>, max: int)
    requires
        max >= 1,
    ensures
        truncated(s, max, max - 1).len() <= max,
        s.len() <= max ==> truncated(s, max, max - 1) == s,
{
    reveal_strlit("\u{2026}");
}

// ---------------------------------------------------------------------------
// Session totals
// ---------------------------------------------------------------------------

/// Sum of the sessions' durations.
pub open spec fn total_duration(s: Seq<Session>) -> int
    decreases s.len(),
{
    if s.len() == 0 {
        0
    } else {
        total_duration(s.drop_last()) + (s.last().end_ts - s.last().start_ts)
    }
}

/// Sum of the sessions' % drops, gains counted as zero.
pub open spec fn total_drop(s: Seq<Session>) -> int
    decreases s.len(),
{
    if s.len() == 0 {
        0
    } else {
        let d = s.last().start_capacity - s.last().end_capacity;
        total_drop(s.drop_last()) + if d > 0 {
            d
        } else {
            0
        }
    }
}

/// The running sums fit their types: durations in `i64`, drops in `i16`.
pub open spec fn totals_fit(s: Seq<Session>) -> bool {
    &&& forall|k: int| 0 <= k <= s.len() ==> i64::MIN <= #[trigger] total_duration(s.take(k)) <= i64::MAX
    &&& forall|k: int| 0 <= k < s.len() ==> i64::MIN <= (#[trigger] s[k]).end_ts - s[k].start_ts <= i64::MAX
    &&& total_drop(s) <= i16::MAX
}

proof fn lemma_total_drop_monotone(s: Seq<Session>, k: int)
    requires
        0 <= k <= s.len(),
    ensures
        0 <= total_drop(s.take(k)) <= total_drop(s),
    decreases s.len() - k,
{
    if k < s.len() {
        lemma_total_drop_monotone(s, k + 1);
        lemma_total_drop_nonneg(s.take(k));
        assert(s.take(k + 1).drop_last() =~= s.take(k));
    } else {
        assert(s.take(k) =~= s);
        lemma_total_drop_nonneg(s);
    }
}

proof fn lemma_total_drop_nonneg(s: Seq<Session>)
    ensures
        total_drop(s) >= 0,
    decreases s.len(),
{
    if s.len() > 0 {
        lemma_total_drop_nonneg(s.drop_last());
    }
}

/// Total time on battery and total % consumed over the sessions.
pub fn session_totals(sessions: &Vec<Session>) -> (r: (i64, i16))
    requires
        totals_fit(sessions@),
    ensures
        r.0 == total_duration(sessions@),
        r.1 == total_drop(sessions@),
{
    let mut dur: i64 = 0;
    let mut drop: i16 = 0;
    let mut i: usize = 0;
    while i < sessions.len()
        invariant
            i <= sessions@.len(),
            totals_fit(sessions@),
            dur == total_duration(sessions@.take(i as int)),
            drop == total_drop(sessions@.take(i as int)),
        decreases sessions@.len() - i,
    {
        let s = &sessions[i];
        assert(sessions@.take(i + 1).drop_last() =~= sessions@.take(i as int));
        assert(sessions@.take(i + 1).last() == sessions@[i as int]);
        proof {
            lemma_total_drop_monotone(sessions@, i + 1);
        }
        assert(i64::MIN <= total_duration(sessions@.take(i + 1)) <= i64::MAX);
        assert(i64::MIN <= sessions@[i as int].end_ts - sessions@[i as int].start_ts <= i64::MAX);
        dur = dur + s.duration_secs();
        let d = s.capacity_drop();
        drop = drop + if d > 0 {
            d
        } else {
            0
        };
        i += 1;
    }
    assert(sessions@.take(sessions@.len() as int) =~= sessions@);
    (dur, drop)
}

/// Whether `session_totals` may be called on `sessions`: every running sum
/// and every duration fits its type.
pub fn session_totals_fit(sessions: &Vec<Session>) -> (b: bool)
    ensures
        b == totals_fit(sessions@),
{
    let mut dur: i128 = 0;
    let mut drop: i128 = 0;
    let mut i: usize = 0;
    while i < sessions.len()
        invariant
            i <= sessions@.len(),
            dur == total_duration(sessions@.take(i as int)),
            drop == total_drop(sessions@.take(i as int)),
            0 <= drop <= i * 255,
            forall|k: int| 0 <= k <= i ==> i64::MIN <= #[trigger] total_duration(sessions@.take(k)) <= i64::MAX,
            forall|k: int| 0 <= k < i ==> i64::MIN <= (#[trigger] sessions@[k]).end_ts - sessions@[k].start_ts <= i64::MAX,
        decreases sessions@.len() - i,
    {
        let s = &sessions[i];
        assert(sessions@.take(i + 1).drop_last() =~= sessions@.take(i as int));
        assert(sessions@.take(i + 1).last() == sessions@[i as int]);
        assert(sessions@.take(i as int) =~= sessions@.take(i as int).take(i as int));
        let d: i128 = s.end_ts as i128 - s.start_ts as i128;
        if !(-9223372036854775808i128 <= d && d <= 9223372036854775807i128) {
            assert(sessions@[i as int].end_ts - sessions@[i as int].start_ts == d);
            return false;
        }
        dur = dur + d;
        if !(-9223372036854775808i128 <= dur && dur <= 9223372036854775807i128) {
            assert(total_duration(sessions@.take(i + 1)) == dur);
            return false;
        }
        let c: i128 = s.start_capacity as i128 - s.end_capacity as i128;
        if c > 0 {
            drop = drop + c;
        }
        i += 1;
    }
    assert(sessions@.take(sessions@.len() as int) =~= sessions@);
    drop <= 32767
}

} // verus!
