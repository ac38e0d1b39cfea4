use wattea::battery::Status;
use wattea::upower::{
    advance, parse_dat_text, parse_state, pick_suffix, plan_import, ChargeRow, HistoryFile, ImportRow,
};

#[test]
fn state_parsing_covers_upower_labels() {
    assert_eq!(parse_state("charging"), Status::Charging);
    assert_eq!(parse_state("discharging"), Status::Discharging);
    assert_eq!(parse_state("pending-charge"), Status::Full);
    assert_eq!(parse_state("fully-charged"), Status::Full);
    assert_eq!(parse_state("unknown"), Status::Unknown);
    assert_eq!(parse_state("garbage"), Status::Unknown);
}

#[test]
fn advance_finds_last_known_before_target() {
    let data: Vec<i64> = vec![100, 200, 300];
    let mut c = 0;
    advance(&data, &mut c, 250);
    assert_eq!(data[c], 200); // largest <= 250 is 200
    advance(&data, &mut c, 300);
    assert_eq!(data[c], 300);
    // A target in the past does not move the cursor back.
    advance(&data, &mut c, 150);
    assert_eq!(data[c], 300);
}

#[test]
fn advance_on_empty_and_early_targets() {
    let empty: Vec<i64> = vec![];
    let mut c = 0;
    advance(&empty, &mut c, 10);
    assert_eq!(c, 0);
    let data: Vec<i64> = vec![100, 200];
    advance(&data, &mut c, 50);
    assert_eq!(c, 0);
}

#[test]
fn parse_dat_handles_realistic_upower_format() {
    let rows = parse_dat_text(
        "1781939602\t79.000\tdischarging\n1781939700\t78.000\tdischarging\n1781939800\t0.000\tunknown\n",
    );
    assert_eq!(rows.len(), 3);
    assert_eq!(rows[0].ts, 1781939602);
    assert!((rows[0].value.parse::<f64>().unwrap() - 79.0).abs() < 1e-9);
    assert_eq!(rows[0].state, "discharging");
    // 0.000 + unknown is parsed too (filtering happens on import).
    assert_eq!(rows[2].state, "unknown");
}

#[test]
fn parse_dat_skips_malformed_lines() {
    let rows = parse_dat_text("100\t50.0\tdischarging\ngarbage line\n200\tnotanumber\tx\n\n");
    // Only the first valid line remains.
    assert_eq!(rows.len(), 1);
    assert_eq!(rows[0].ts, 100);
}

#[test]
fn parse_dat_text_edge_cases() {
    // CRLF endings, surrounding whitespace, extra fields and a missing final newline.
    let rows = parse_dat_text(" -5 \t 1.5 \t charging \r\n7\t2\tfull\textra\r");
    assert_eq!(rows.len(), 2);
    assert_eq!((rows[0].ts, rows[0].value.as_str(), rows[0].state.as_str()), (-5, "1.5", "charging"));
    assert_eq!((rows[1].ts, rows[1].state.as_str()), (7, "full"));
    assert!(parse_dat_text("").is_empty());
    assert!(parse_dat_text("1\t2\n").is_empty());
    // Values are kept exactly when f64::from_str accepts them.
    let values = [
        "1", "+2.", "-.5", "3.25e-2", "1E+5", "inf", "-Infinity", "NaN", ".", "1e", "e5", "1.2.3", "0x10", "1_0", "",
        "infx",
    ];
    for v in values {
        let rows = parse_dat_text(&format!("9\t{v}\tx\n"));
        assert_eq!(rows.len() == 1, v.parse::<f64>().is_ok(), "value {v:?}");
    }
}

fn file(name: &str, size: u64) -> HistoryFile {
    HistoryFile { name: name.to_string(), size }
}

#[test]
fn pick_suffix_prefers_model_then_largest() {
    let files = vec![
        file("history-charge-generic_id.dat", 500),
        file("history-rate-L21M4PD0-56.dat", 9000),
        file("history-charge-L21M4PD0-56.dat", 4000),
        file("history-charge-XZ10.dat", 4000),
        file("notes.txt", 99999),
    ];
    assert_eq!(pick_suffix(&files, Some("L21M4")).as_deref(), Some("L21M4PD0-56"));
    // No model: the largest; the last of equally large ones.
    assert_eq!(pick_suffix(&files, None).as_deref(), Some("XZ10"));
    // A model that matches nothing falls back to the largest.
    assert_eq!(pick_suffix(&files, Some("nope")).as_deref(), Some("XZ10"));
    assert_eq!(pick_suffix(&vec![file("history-charge-.dat", 1)], None).as_deref(), Some(""));
    assert_eq!(pick_suffix(&vec![file("history-charge-x.txt", 1)], None), None);
}

fn charge(ts: i64, state: &str, positive: bool) -> ChargeRow {
    ChargeRow { ts, state: state.to_string(), positive }
}

#[test]
fn import_plan_joins_last_known_rate_and_voltage() {
    let charge_rows = vec![
        charge(100, "discharging", true),
        charge(150, "unknown", true),
        charge(200, "charging", false),
        charge(300, "fully-charged", true),
        charge(50, "discharging", true),
    ];
    let rate = vec![90, 250, 400];
    let voltage = vec![120];
    let plan = plan_import(&charge_rows, &rate, &voltage);
    assert_eq!(
        plan,
        vec![
            ImportRow { charge: 0, status: Status::Discharging, rate: Some(0), voltage: None },
            ImportRow { charge: 3, status: Status::Full, rate: Some(1), voltage: Some(0) },
            // The cursors never go back: at ts 50 the rate record at 250 is later.
            ImportRow { charge: 4, status: Status::Discharging, rate: None, voltage: None },
        ]
    );
}
