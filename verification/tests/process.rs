use wattea::process::{is_package_zone, parse_proc_stat, proc_stat_ticks_fit, ProcStat, ProcessReader};

fn stat_line(pid: &str, comm: &str, utime: &str, stime: &str) -> String {
    let mut rest = String::from("R ");
    for _ in 0..10 {
        rest.push_str("0 ");
    }
    format!("{pid} ({comm}) {rest}{utime} {stime} 0")
}

#[test]
fn parse_simple_comm() {
    // After the parens: state(0) ppid(1) pgrp(2) session(3) tty_nr(4) tpgid(5)
    // flags(6) minflt(7) cminflt(8) majflt(9) cmajflt(10) utime(11) stime(12).
    let mut rest = String::from("R ");
    for _ in 0..10 {
        rest.push_str("0 ");
    }
    rest.push_str("500 600 "); // idx 11=utime, 12=stime
    let line = format!("1234 (chrome) {rest}0 0 0");
    assert!(proc_stat_ticks_fit(&line));
    let (pid, comm, ticks) = parse_proc_stat(&line).unwrap();
    assert_eq!(pid, 1234);
    assert_eq!(comm, "chrome");
    assert_eq!(ticks, 1100);
}

#[test]
fn parse_comm_with_spaces() {
    let mut rest = String::from("R ");
    for _ in 0..10 {
        rest.push_str("0 ");
    }
    rest.push_str("100 200 ");
    let line = format!("5678 (my cool app) {rest}0");
    let (pid, comm, ticks) = parse_proc_stat(&line).unwrap();
    assert_eq!(pid, 5678);
    assert_eq!(comm, "my cool app");
    assert_eq!(ticks, 300);
}

#[test]
fn parse_comm_with_parens() {
    // Everything between the first ( and the last ) is the comm.
    let line = "9 (foo (bar) baz) S 0 0 0 0 0 0 0 0 0 0 7 8 0".to_string();
    let (pid, comm, ticks) = parse_proc_stat(&line).unwrap();
    assert_eq!(pid, 9);
    assert_eq!(comm, "foo (bar) baz");
    assert_eq!(ticks, 15);
}

#[test]
fn parse_malformed_returns_none() {
    assert_eq!(parse_proc_stat("no parens here"), None);
    assert_eq!(parse_proc_stat("(no pid) R"), None);
    assert_eq!(parse_proc_stat("abc (x) R"), None); // pid cannot be parsed
}

#[test]
fn parse_rejects_short_lines_and_bad_numbers() {
    // Only 12 fields after the comm: stime is missing.
    assert_eq!(parse_proc_stat("1 (a) R 0 0 0 0 0 0 0 0 0 0 5"), None);
    assert_eq!(parse_proc_stat(&stat_line("1", "a", "x5", "6")), None);
    assert_eq!(parse_proc_stat(&stat_line("1", "a", "5", "-6")), None);
    // `)` before `(`.
    assert_eq!(parse_proc_stat(") 1 ("), None);
    // pid above u32::MAX.
    assert_eq!(parse_proc_stat(&stat_line("4294967296", "a", "1", "2")), None);
    // Surrounding whitespace of the pid and a leading '+' are accepted.
    let (pid, _, ticks) = parse_proc_stat(&stat_line("  +42\t", "a", "1", "+2")).unwrap();
    assert_eq!((pid, ticks), (42, 3));
}

#[test]
fn tick_sum_overflow_is_detected() {
    let line = stat_line("1", "a", "18446744073709551615", "1");
    assert!(!proc_stat_ticks_fit(&line));
    assert!(proc_stat_ticks_fit("garbage"));
    assert!(proc_stat_ticks_fit(&stat_line("1", "a", "18446744073709551614", "1")));
}

fn snap(pid: u32, comm: &str, ticks: u64) -> ProcStat {
    ProcStat { pid, comm: comm.to_string(), ticks }
}

#[test]
fn process_reader_first_sample_empty() {
    // The first sample has no delta.
    let mut r = ProcessReader::new();
    let out = r.sample(vec![snap(1, "init", 10)], Some(5), 5);
    assert!(out.is_none(), "first sample must be empty (no delta yet)");
}

#[test]
fn process_reader_ranks_deltas_high_to_low() {
    let mut r = ProcessReader::new();
    assert!(r
        .sample(
            vec![snap(1, "a", 100), snap(2, "b", 100), snap(3, "c", 100), snap(4, "d", 50)],
            Some(1_000),
            10
        )
        .is_none());
    // pid 5 is new (no previous sample); pid 4's counter went backwards.
    let a = r
        .sample(
            vec![snap(1, "a", 110), snap(2, "b", 150), snap(3, "c", 110), snap(5, "e", 999), snap(4, "d", 40)],
            Some(1_600),
            3,
        )
        .unwrap();
    let got: Vec<(u32, &str, u64)> = a.procs.iter().map(|p| (p.pid, p.name.as_str(), p.ticks)).collect();
    // b first; a and c tie and keep their order; truncated to 3 (d dropped).
    assert_eq!(got, vec![(2, "b", 50), (1, "a", 10), (3, "c", 10)]);
    assert_eq!(a.energy_uj, Some(600));
    // Without RAPL in one of the samples there is no energy.
    let b = r.sample(vec![snap(2, "b", 160)], None, 3).unwrap();
    assert_eq!(b.energy_uj, None);
    assert_eq!(b.procs.len(), 1);
    assert_eq!(b.procs[0].ticks, 10);
}

#[test]
fn process_reader_energy_saturates() {
    let mut r = ProcessReader::new();
    let _ = r.sample(vec![], Some(500), 1);
    let a = r.sample(vec![], Some(100), 1).unwrap();
    assert_eq!(a.energy_uj, Some(0));
    assert!(a.procs.is_empty());
}

#[test]
fn rapl_package_node_is_recognised() {
    assert!(is_package_zone("package-0\n"));
    assert!(is_package_zone("  package"));
    assert!(!is_package_zone("core\n"));
    assert!(!is_package_zone("packag"));
    assert!(!is_package_zone("dram package"));
}
