use std::collections::VecDeque;
use wattea::app::{key_action, push_bounded, Action, Effects, Key, Message, PatternAxis, ProcessView, Tab, ViewState};

#[test]
fn tabs_cycle_and_label() {
    let mut t = Tab::Live;
    let mut seen = Vec::new();
    for _ in 0..5 {
        seen.push(t.label());
        t = t.next();
    }
    assert_eq!(t, Tab::Live);
    assert_eq!(seen, vec!["Live", "Trend \u{00B7} 24h", "Pattern", "Sessions", "Processes"]);
    assert_eq!(PatternAxis::Hourly.toggle(), PatternAxis::Weekday);
    assert_eq!(PatternAxis::Weekday.toggle().toggle(), PatternAxis::Weekday);
    assert_eq!(ProcessView::Live.toggle(), ProcessView::LastHour);
}

#[test]
fn messages_update_the_view() {
    let mut s = ViewState::new();
    assert!(s.compact && s.tab == Tab::Live && !s.should_quit);
    let e = s.update(Message::Refresh);
    assert!(e.sample_live && e.trend && e.pattern && e.sessions && !e.anomalies && !e.process_history);
    let e = s.update(Message::NextTab);
    assert_eq!(s.tab, Tab::Trend);
    assert!(e.anomalies && !e.sample_live);
    let e = s.update(Message::ToggleProcessView);
    assert_eq!(s.process_view, ProcessView::LastHour);
    assert!(e.process_history);
    assert!(s.update(Message::Refresh).process_history);
    let e = s.update(Message::ToggleProcessView);
    assert!(!e.process_history);
    s.update(Message::ToggleCompact);
    assert!(!s.compact);
    let e = s.update(Message::TogglePatternAxis);
    assert_eq!(s.pattern_axis, PatternAxis::Weekday);
    assert!(e.pattern && !e.trend);
    s.update(Message::Quit);
    assert!(s.should_quit);
}

#[test]
fn goto_tab_is_a_no_op_on_the_current_tab() {
    let mut s = ViewState::new();
    let none = Effects {
        sample_live: false,
        process_history: false,
        trend: false,
        pattern: false,
        sessions: false,
        anomalies: false,
    };
    assert_eq!(s.goto_tab(Tab::Live), none);
    let e = s.goto_tab(Tab::Sessions);
    assert_eq!(s.tab, Tab::Sessions);
    assert!(e.trend && e.pattern && e.sessions && e.anomalies);
}

#[test]
fn bounded_history_drops_the_oldest() {
    let mut h: VecDeque<u32> = VecDeque::new();
    for i in 0..5 {
        push_bounded(&mut h, Some(i), 3);
    }
    assert_eq!(h.iter().copied().collect::<Vec<_>>(), vec![2, 3, 4]);
    // A missing reading still ages the full history.
    push_bounded(&mut h, None, 3);
    assert_eq!(h.iter().copied().collect::<Vec<_>>(), vec![3, 4]);
    push_bounded(&mut h, None, 3);
    assert_eq!(h.len(), 2);
}

#[test]
fn keys_map_to_actions_on_each_tab() {
    assert_eq!(key_action(Key::Char('q'), Tab::Trend), Some(Action::Send(Message::Quit)));
    assert_eq!(key_action(Key::Esc, Tab::Live), Some(Action::Send(Message::Quit)));
    assert_eq!(key_action(Key::Char('r'), Tab::Live), Some(Action::Send(Message::Refresh)));
    assert_eq!(key_action(Key::Tab, Tab::Sessions), Some(Action::Send(Message::NextTab)));
    assert_eq!(key_action(Key::Char('c'), Tab::Live), Some(Action::Send(Message::ToggleCompact)));
    assert_eq!(key_action(Key::Char('d'), Tab::Pattern), Some(Action::Send(Message::TogglePatternAxis)));
    assert_eq!(key_action(Key::Char('d'), Tab::Processes), Some(Action::Send(Message::ToggleProcessView)));
    assert_eq!(key_action(Key::Char('d'), Tab::Live), None);
    assert_eq!(key_action(Key::Char('4'), Tab::Live), Some(Action::Goto(Tab::Sessions)));
    assert_eq!(key_action(Key::Char('5'), Tab::Live), Some(Action::Goto(Tab::Processes)));
    assert_eq!(key_action(Key::Char('x'), Tab::Live), None);
    assert_eq!(key_action(Key::Other, Tab::Live), None);
}
