use wattea::storage::Session;
use wattea::app::PatternAxis;
use wattea::ui::{
    bin_label, bin_name, hour_of_day, pattern_bins,
    charge_level, drop_level, filled_columns, fmt_clock, fmt_duration, fmt_session_when, opt_dur, session_totals,
    truncate, truncate_name, Tone,
};

#[test]
fn charge_color_charging_is_accent_regardless_of_capacity() {
    assert_eq!(charge_level(5, true), Tone::Accent);
    assert_eq!(charge_level(99, true), Tone::Accent);
}

#[test]
fn charge_color_discharging_bands() {
    assert_eq!(charge_level(80, false), Tone::Good); // >=50
    assert_eq!(charge_level(50, false), Tone::Good); // boundary
    assert_eq!(charge_level(49, false), Tone::Warn); // 20..49
    assert_eq!(charge_level(20, false), Tone::Warn); // boundary
    assert_eq!(charge_level(19, false), Tone::Danger); // <20
    assert_eq!(charge_level(0, false), Tone::Danger);
}

#[test]
fn drop_bands() {
    assert_eq!(drop_level(15), Tone::AccentAlt);
    assert_eq!(drop_level(14), Tone::Warn);
    assert_eq!(drop_level(5), Tone::Warn);
    assert_eq!(drop_level(4), Tone::Good);
    assert_eq!(drop_level(-3), Tone::Good);
}

#[test]
fn battery_cell_fill_proportion_matches_capacity() {
    // 50% of a 4-wide bar: 2 columns filled.
    assert_eq!(filled_columns(50, 4), 2);
    assert_eq!(filled_columns(0, 4), 0);
    assert_eq!(filled_columns(100, 6), 6);
    assert_eq!(filled_columns(33, 10), 3);
    assert_eq!(filled_columns(255, 65535), 167114);
}

#[test]
fn battery_cell_renders_at_extremes() {
    // An empty battery fills no column of a 4-wide bar, a full one all four.
    for (cap, filled) in [(0u8, 0usize), (100u8, 4usize)] {
        assert_eq!(filled_columns(cap, 4), filled);
    }
}

#[test]
fn durations() {
    assert_eq!(fmt_duration(5000), "1h 23m");
    assert_eq!(fmt_duration(3600), "1h 00m");
    assert_eq!(fmt_duration(2700), "45m");
    assert_eq!(fmt_duration(30), "30s");
    assert_eq!(fmt_duration(0), "0s");
    assert_eq!(fmt_duration(-20), "0s");
    assert_eq!(fmt_duration(36000 + 540), "10h 09m");
    assert_eq!(opt_dur(Some(4 * 3600)), "4h 00m");
    assert_eq!(opt_dur(Some(3599)), "0h 59m");
    assert_eq!(opt_dur(None), "\u{2014}");
}

#[test]
fn clock_and_session_dates() {
    assert_eq!(fmt_clock(0), "00:00");
    assert_eq!(fmt_clock(86400 + 13 * 3600 + 7 * 60 + 59), "13:07");
    // 1970-01-01 was a Thursday.
    assert_eq!(fmt_session_when(0), "Thu  1 00:00");
    assert_eq!(fmt_session_when(86400 * 9 + 3600 * 15 + 60 * 4), "Sat 10 15:04");
    assert_eq!(fmt_session_when(86400 * 28), "Thu  1 00:00");
    // Before the epoch: the day count wraps as a 64-bit `usize` does.
    assert_eq!(fmt_session_when(-1), "Wed 16 23:59");
}

#[test]
fn truncation() {
    assert_eq!(truncate_name("chrome", 28), "chrome");
    assert_eq!(truncate_name("abcdef", 4), "abc\u{2026}");
    assert_eq!(truncate_name("abcd", 4), "abcd");
    assert_eq!(truncate_name("", 0), "");
    assert_eq!(truncate("\u{00e9}t\u{00e9}s", 3), "\u{00e9}t\u{2026}");
    assert_eq!(truncate("abc", 0), "\u{2026}");
    assert_eq!(truncate("", 0), "");
}

#[test]
fn totals_over_sessions() {
    let s = |start_ts, end_ts, start_capacity, end_capacity| Session {
        start_ts,
        end_ts,
        start_capacity,
        end_capacity,
        sample_count: 1,
        first: 0,
    };
    let v = vec![s(1000, 6400, 90, 80), s(10000, 10000, 50, 50), s(20000, 56000, 40, 20), s(0, 10, 10, 30)];
    assert_eq!(session_totals(&v), (5400 + 36000 + 10, 30));
    assert_eq!(session_totals(&vec![]), (0, 0));
}

#[test]
fn pattern_labels_and_bins() {
    assert_eq!(pattern_bins(PatternAxis::Hourly), 24);
    assert_eq!(pattern_bins(PatternAxis::Weekday), 7);
    assert_eq!(bin_label(PatternAxis::Hourly, 7), "07");
    assert_eq!(bin_label(PatternAxis::Hourly, 23), "23");
    assert_eq!(bin_label(PatternAxis::Weekday, 0), "Su");
    assert_eq!(bin_label(PatternAxis::Weekday, 6), "Sa");
    assert_eq!(bin_name(PatternAxis::Hourly, 9), "09:00");
    assert_eq!(bin_name(PatternAxis::Weekday, 3), "Wed");
    assert_eq!(bin_name(PatternAxis::Weekday, 9), "");
    assert_eq!(hour_of_day(0), 0);
    assert_eq!(hour_of_day(86400 + 5 * 3600 + 59), 5);
    assert_eq!(hour_of_day(23 * 3600 + 3599), 23);
}
