use wattea::system::{cpu_times_fit_in, millicelsius_from_sysfs, parse_cpu_times, pick_thermal_zone, SystemReader};

#[test]
fn parse_proc_stat_handles_realistic_line() {
    let text = "cpu  100 0 50 900 0 5 0 0 0 0\ncpu0 1 2 3 4\n";
    assert!(cpu_times_fit_in(text));
    // busy = user + nice + system + irq + softirq + steal; total adds idle + iowait.
    assert_eq!(parse_cpu_times(text), Some((155, 1055)));
}

#[test]
fn cpu_times_short_and_odd_lines() {
    assert_eq!(parse_cpu_times("cpu 1 2 3 4"), Some((6, 10)));
    assert_eq!(parse_cpu_times("cpu 1 2 3"), None);
    assert_eq!(parse_cpu_times(""), None);
    // Unparsable counters are skipped, not counted as zero.
    assert_eq!(parse_cpu_times("cpu 1 x 2 3 4\r\n"), Some((6, 10)));
    assert!(!cpu_times_fit_in("cpu 18446744073709551615 1 0 0"));
}

#[test]
fn cpu_load_is_none_on_first_call() {
    let mut r = SystemReader::new(None, None);
    // The first reading sets the baseline.
    assert_eq!(r.cpu_delta(Some((100, 1000))), None);
    assert_eq!(r.cpu_delta(Some((150, 1100))), Some((50, 100)));
    // No time passed: no load.
    assert_eq!(r.cpu_delta(Some((150, 1100))), None);
    // An unreadable reading keeps the baseline.
    assert_eq!(r.cpu_delta(None), None);
    assert_eq!(r.cpu_delta(Some((160, 1200))), Some((10, 100)));
}

#[test]
fn thermal_zone_and_temperature() {
    let names: Vec<String> = vec!["cooling_device0".into(), "thermal_zone3".into(), "thermal_zone0".into()];
    assert_eq!(pick_thermal_zone(&names), Some(1));
    assert_eq!(pick_thermal_zone(&vec!["thermal".into()]), None);
    assert_eq!(millicelsius_from_sysfs(Some("45000\n")), Some(45000));
    assert_eq!(millicelsius_from_sysfs(Some("18446744073709551615")), Some(-1));
    assert_eq!(millicelsius_from_sysfs(Some("warm")), None);
}
