use wattea::battery::Status;
use wattea::storage::{parse_status, segment_sessions, Session, SessionPoint};

fn pt(ts: i64, capacity: u8, status: Status) -> SessionPoint {
    SessionPoint { ts, capacity, status }
}

#[test]
fn sessions_segment_discharging_runs() {
    // discharge(10) -> charge (interrupt) -> discharge(10) -> long gap -> discharge(1)
    let mut pts = Vec::new();
    for i in 0..10 {
        pts.push(pt(i, 90 - i as u8, Status::Discharging));
    }
    pts.push(pt(10, 80, Status::Charging));
    for i in 0..10 {
        pts.push(pt(20 + i, 70, Status::Discharging));
    }
    // A gap larger than 10 min (600s): a separate session.
    pts.push(pt(20 + 10 + 700, 70, Status::Discharging));

    let sessions = segment_sessions(&pts, 600);
    // 3 sessions: [0..10), [20..30), [last].
    assert_eq!(sessions.len(), 3);
    // First session: 90 -> 81, 10 samples.
    assert_eq!(sessions[2].start_capacity, 90);
    assert_eq!(sessions[2].end_capacity, 81);
    assert_eq!(sessions[2].sample_count, 10);
    // Newest first.
    assert!(sessions[0].start_ts >= sessions[1].start_ts);
    // The sessions name their samples.
    assert_eq!((sessions[2].first, sessions[1].first, sessions[0].first), (0, 11, 21));
}

#[test]
fn sessions_gap_boundary_and_empty_history() {
    assert!(segment_sessions(&vec![], 600).is_empty());
    // A gap of exactly gap_secs continues the session.
    let pts = vec![pt(0, 50, Status::Discharging), pt(600, 49, Status::Discharging), pt(1201, 48, Status::Discharging)];
    let s = segment_sessions(&pts, 600);
    assert_eq!(s.len(), 2);
    assert_eq!(
        s[1],
        Session { start_ts: 0, end_ts: 600, start_capacity: 50, end_capacity: 49, sample_count: 2, first: 0 }
    );
    assert_eq!(s[0].sample_count, 1);
    // Full and unknown samples close a session as charging does.
    let pts = vec![pt(0, 50, Status::Discharging), pt(1, 50, Status::Full), pt(2, 50, Status::Discharging)];
    assert_eq!(segment_sessions(&pts, 600).len(), 2);
}

#[test]
fn session_duration_and_drop() {
    let s = Session { start_ts: 0, end_ts: 3600, start_capacity: 80, end_capacity: 70, sample_count: 60, first: 0 };
    assert_eq!(s.capacity_drop(), 10);
    assert_eq!(s.duration_secs(), 3600);
    let gained = Session { start_capacity: 40, end_capacity: 45, ..s };
    assert_eq!(gained.capacity_drop(), -5);
}

#[test]
fn stored_status_round_trips() {
    for s in [Status::Charging, Status::Discharging, Status::Full, Status::NotCharging, Status::Unknown] {
        assert_eq!(parse_status(s.label()), s);
    }
    // The store's text is matched exactly.
    assert_eq!(parse_status(" Charging"), Status::Unknown);
    assert_eq!(parse_status("charging"), Status::Unknown);
}
