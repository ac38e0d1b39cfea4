//! Dashboard state in the Elm style (Model, Message, Update): the view
//! choices and how each message changes them, with the data refreshes the
//! change calls for. The terminal loop performs those refreshes.

use vstd::prelude::*;
use std::collections::VecDeque;

verus! {

/// Number of live samples kept for the sparkline (~5 min at 1s sampling).
pub const HISTORY_LEN: usize = 300;

/// Window shown on the Trend tab: the last 24 hours.
pub const TREND_WINDOW_SECS: u64 = 24 * 3600;

/// A gap longer than this (seconds) starts a new on-battery session.
pub const SESSION_GAP_SECS: i64 = 600;

/// Window of the process history (seconds).
pub const PROCESS_WINDOW_SECS: u64 = 3600;

/// Number of processes shown live.
pub const PROCESS_TOP_N: usize = 15;

/// Pattern tab axis: hour of day or day of week.
#[derive(Debug, Clone, Copy, PartialEq, Eq, Structural)]
pub enum PatternAxis {
    Hourly,
    Weekday,
}

impl PatternAxis {
    pub fn toggle(self) -> (r: Self)
        ensures
            r == match self {
                PatternAxis::Hourly => PatternAxis::Weekday,
                PatternAxis::Weekday => PatternAxis::Hourly,
            },
    {
        match self {
            PatternAxis::Hourly => PatternAxis::Weekday,
            PatternAxis::Weekday => PatternAxis::Hourly,
        }
    }
}

/// Process tab view: live or last-hour aggregate (history).
#[derive(Debug, Clone, Copy, PartialEq, Eq, Structural)]
pub enum ProcessView {
    Live,
    LastHour,
}

impl ProcessView {
    pub fn toggle(self) -> (r: Self)
        ensures
            r == match self {
                ProcessView::Live => ProcessView::LastHour,
                ProcessView::LastHour => ProcessView::Live,
            },
    {
        match self {
            ProcessView::Live => ProcessView::LastHour,
            ProcessView::LastHour => ProcessView::Live,
        }
    }
}

/// Active view tab.
#[derive(Debug, Clone, Copy, PartialEq, Eq, Structural)]
pub enum Tab {
    /// Live sysfs panel.
    Live,
    /// 24-hour history trend from the store.
    Trend,
    /// Usage pattern by hour-of-day / day-of-week.
    Pattern,
    /// On-battery sessions (unplug to plug cycles).
    Sessions,
    /// Per-process estimated power consumption (live).
    Processes,
}

pub open spec fn next_tab(t: Tab) -> Tab {
    match t {
        Tab::Live => Tab::Trend,
        Tab::Trend => Tab::Pattern,
        Tab::Pattern => Tab::Sessions,
        Tab::Sessions => Tab::Processes,
        Tab::Processes => Tab::Live,
    }
}

pub open spec fn tab_label(t: Tab) -> Seq<char> {
    match t {
        Tab::Live => "Live"@,
        Tab::Trend => "Trend \u{00B7} 24h"@,
        Tab::Pattern => "Pattern"@,
        Tab::Sessions => "Sessions"@,
        Tab::Processes => "Processes"@,
    }
}

impl Tab {
    pub fn next(self) -> (r: Self)
        ensures
            r == next_tab(self),
    {
        match self {
            Tab::Live => Tab::Trend,
            Tab::Trend => Tab::Pattern,
            Tab::Pattern => Tab::Sessions,
            Tab::Sessions => Tab::Processes,
            Tab::Processes => Tab::Live,
        }
    }

    pub fn label(self) -> (r: &'static str)
        ensures
            r@ == tab_label(self),
    {
        match self {
            Tab::Live => "Live",
            Tab::Trend => "Trend \u{00B7} 24h",
            Tab::Pattern => "Pattern",
            Tab::Sessions => "Sessions",
            Tab::Processes => "Processes",
        }
    }
}

/// `next` applied `k` times.
pub open spec fn next_n(t: Tab, k: nat) -> Tab
    decreases k,
{
    if k == 0 {
        t
    } else {
        next_tab(next_n(t, (k - 1) as nat))
    }
}

/// Cycling tabs visits all five and comes back: five steps return to the
/// start, and fewer never do.
pub proof fn lemma_tab_cycle(t: Tab)
    ensures
        next_n(t, 5) == t,
        forall|k: nat| 0 < k < 5 ==> #[trigger] next_n(t, k) != t,
{
    reveal_with_fuel(next_n, 6);
    assert forall|k: nat| 0 < k < 5 implies #[trigger] next_n(t, k) != t by {
        reveal_with_fuel(next_n, 5);
        if k == 1 {
        } else if k == 2 {
        } else if k == 3 {
        } else {
        }
    }
}

/// Toggling twice gives back the axis and the process view.
pub proof fn lemma_toggles_are_involutions(a: PatternAxis, v: ProcessView)
    ensures
        (match (match a {
            PatternAxis::Hourly => PatternAxis::Weekday,
            PatternAxis::Weekday => PatternAxis::Hourly,
        }) {
            PatternAxis::Hourly => PatternAxis::Weekday,
            PatternAxis::Weekday => PatternAxis::Hourly,
        }) == a,
        (match (match v {
            ProcessView::Live => ProcessView::LastHour,
            ProcessView::LastHour => ProcessView::Live,
        }) {
            ProcessView::Live => ProcessView::LastHour,
            ProcessView::LastHour => ProcessView::Live,
        }) == v,
{
}

/// A message delivered to the app by keyboard/tick events.
#[derive(Debug, Clone, Copy, PartialEq, Eq, Structural)]
pub enum Message {
    /// Refresh data (manual 'r' or automatic tick).
    Refresh,
    /// Change tab (Tab).
    NextTab,
    /// Switch pattern axis (hourly / weekday, 'd').
    TogglePatternAxis,
    /// Switch process view (live / last-hour, 'd').
    ToggleProcessView,
    /// Toggle compact mode ('c').
    ToggleCompact,
    Quit,
}

/// The view choices of the dashboard.
#[derive(Debug, Clone, Copy, PartialEq, Eq, Structural)]
pub struct ViewState {
    pub tab: Tab,
    pub pattern_axis: PatternAxis,
    pub process_view: ProcessView,
    /// Compact mode (dense single screen); on at startup.
    pub compact: bool,
    pub should_quit: bool,
}

/// The reads and queries an update asks the terminal loop to perform.
#[derive(Debug, Clone, Copy, PartialEq, Eq, Structural)]
pub struct Effects {
    /// Read the battery, the system metrics and the live processes.
    pub sample_live: bool,
    pub process_history: bool,
    pub trend: bool,
    pub pattern: bool,
    pub sessions: bool,
    pub anomalies: bool,
}

pub open spec fn no_effects() -> Effects {
    Effects {
        sample_live: false,
        process_history: false,
        trend: false,
        pattern: false,
        sessions: false,
        anomalies: false,
    }
}

/// What changing tabs reloads: trend, pattern, sessions and anomalies.
pub open spec fn tab_change_effects() -> Effects {
    Effects { trend: true, pattern: true, sessions: true, anomalies: true, ..no_effects() }
}

/// The state after `m` and the effects it calls for.
pub open spec fn step(s: ViewState, m: Message) -> (ViewState, Effects) {
    match m {
        Message::Refresh => (
            s,
            Effects {
                sample_live: true,
                process_history: s.process_view == ProcessView::LastHour,
                trend: true,
                pattern: true,
                sessions: true,
                anomalies: false,
            },
        ),
        Message::NextTab => (ViewState { tab: next_tab(s.tab), ..s }, tab_change_effects()),
        Message::TogglePatternAxis => {
            let a = match s.pattern_axis {
                PatternAxis::Hourly => PatternAxis::Weekday,
                PatternAxis::Weekday => PatternAxis::Hourly,
            };
            (ViewState { pattern_axis: a, ..s }, Effects { pattern: true, ..no_effects() })
        },
        Message::ToggleProcessView => {
            let v = match s.process_view {
                ProcessView::Live => ProcessView::LastHour,
                ProcessView::LastHour => ProcessView::Live,
            };
            (
                ViewState { process_view: v, ..s },
                Effects { process_history: v == ProcessView::LastHour, ..no_effects() },
            )
        },
        Message::ToggleCompact => (ViewState { compact: !s.compact, ..s }, no_effects()),
        Message::Quit => (ViewState { should_quit: true, ..s }, no_effects()),
    }
}

impl ViewState {
    /// The startup view: compact, live tab, hourly pattern, live processes.
    pub fn new() -> (r: Self)
        ensures
            r == (ViewState {
                tab: Tab::Live,
                pattern_axis: PatternAxis::Hourly,
                process_view: ProcessView::Live,
                compact: true,
                should_quit: false,
            }),
    {
        ViewState {
            tab: Tab::Live,
            pattern_axis: PatternAxis::Hourly,
            process_view: ProcessView::Live,
            compact: true,
            should_quit: false,
        }
    }

    /// Apply a message; returns the refreshes it calls for.
    pub fn update(&mut self, m: Message) -> (e: Effects)
        ensures
            (*final(self), e) == step(*old(self), m),
    {
        match m {
            Message::Refresh => Effects {
                sample_live: true,
                process_history: self.process_view == ProcessView::LastHour,
                trend: true,
                pattern: true,
                sessions: true,
                anomalies: false,
            },
            Message::NextTab => {
                self.tab = self.tab.next();
                Effects {
                    sample_live: false,
                    process_history: false,
                    trend: true,
                    pattern: true,
                    sessions: true,
                    anomalies: true,
                }
            },
            Message::TogglePatternAxis => {
                self.pattern_axis = self.pattern_axis.toggle();
                Effects {
                    sample_live: false,
                    process_history: false,
                    trend: false,
                    pattern: true,
                    sessions: false,
                    anomalies: false,
                }
            },
            Message::ToggleProcessView => {
                self.process_view = self.process_view.toggle();
                Effects {
                    sample_live: false,
                    process_history: self.process_view == ProcessView::LastHour,
                    trend: false,
                    pattern: false,
                    sessions: false,
                    anomalies: false,
                }
            },
            Message::ToggleCompact => {
                self.compact = !self.compact;
                Effects {
                    sample_live: false,
                    process_history: false,
                    trend: false,
                    pattern: false,
                    sessions: false,
                    anomalies: false,
                }
            },
            Message::Quit => {
                self.should_quit = true;
                Effects {
                    sample_live: false,
                    process_history: false,
                    trend: false,
                    pattern: false,
                    sessions: false,
                    anomalies: false,
                }
            },
        }
    }

    /// Go to a specific tab; a no-op if already there.
    pub fn goto_tab(&mut self, tab: Tab) -> (e: Effects)
        ensures
            if old(self).tab == tab {
                *final(self) == *old(self) && e == no_effects()
            } else {
                *final(self) == (ViewState { tab, ..*old(self) }) && e == tab_change_effects()
            },
    {
        if self.tab != tab {
            self.tab = tab;
            Effects {
                sample_live: false,
                process_history: false,
                trend: true,
                pattern: true,
                sessions: true,
                anomalies: true,
            }
        } else {
            Effects {
                sample_live: false,
                process_history: false,
                trend: false,
                pattern: false,
                sessions: false,
                anomalies: false,
            }
        }
    }
}

/// A key press, as far as the dashboard distinguishes keys.
#[derive(Debug, Clone, Copy, PartialEq, Eq, Structural)]
pub enum Key {
    Char(char),
    Tab,
    Esc,
    Other,
}

/// What a key asks of the dashboard: a message, or a jump to a tab.
#[derive(Debug, Clone, Copy, PartialEq, Eq, Structural)]
pub enum Action {
    Send(Message),
    Goto(Tab),
}

/// The key bindings: `q`/Esc quit, `r` refreshes, Tab cycles tabs, `c`
/// toggles compact mode, `d` toggles the hour/day axis on the Pattern tab
/// and the live/last-hour view on the Processes tab, `1`–`5` jump to a tab.
pub open spec fn key_binding(k: Key, tab: Tab) -> Option<Action> {
    match k {
        Key::Esc => Some(Action::Send(Message::Quit)),
        Key::Tab => Some(Action::Send(Message::NextTab)),
        Key::Char(c) => if c == 'q' {
            Some(Action::Send(Message::Quit))
        } else if c == 'r' {
            Some(Action::Send(Message::Refresh))
        } else if c == 'c' {
            Some(Action::Send(Message::ToggleCompact))
        } else if c == 'd' && tab == Tab::Pattern {
            Some(Action::Send(Message::TogglePatternAxis))
        } else if c == 'd' && tab == Tab::Processes {
            Some(Action::Send(Message::ToggleProcessView))
        } else if c == '1' {
            Some(Action::Goto(Tab::Live))
        } else if c == '2' {
            Some(Action::Goto(Tab::Trend))
        } else if c == '3' {
            Some(Action::Goto(Tab::Pattern))
        } else if c == '4' {
            Some(Action::Goto(Tab::Sessions))
        } else if c == '5' {
            Some(Action::Goto(Tab::Processes))
        } else {
            None
        },
        Key::Other => None,
    }
}

/// The action a key asks for on the current tab; `None` for an unbound key.
pub fn key_action(k: Key, tab: Tab) -> (r: Option<Action>)
    ensures
        r == key_binding(k, tab),
{
    match k {
        Key::Esc => Some(Action::Send(Message::Quit)),
        Key::Tab => Some(Action::Send(Message::NextTab)),
        Key::Char(c) => if c == 'q' {
            Some(Action::Send(Message::Quit))
        } else if c == 'r' {
            Some(Action::Send(Message::Refresh))
        } else if c == 'c' {
            Some(Action::Send(Message::ToggleCompact))
        } else if c == 'd' && tab == Tab::Pattern {
            Some(Action::Send(Message::TogglePatternAxis))
        } else if c == 'd' && tab == Tab::Processes {
            Some(Action::Send(Message::ToggleProcessView))
        } else if c == '1' {
            Some(Action::Goto(Tab::Live))
        } else if c == '2' {
            Some(Action::Goto(Tab::Trend))
        } else if c == '3' {
            Some(Action::Goto(Tab::Pattern))
        } else if c == '4' {
            Some(Action::Goto(Tab::Sessions))
        } else if c == '5' {
            Some(Action::Goto(Tab::Processes))
        } else {
            None
        },
        Key::Other => None,
    }
}

/// The view after a key: the message's step, the tab jump, or no change
/// for an unbound key.
pub open spec fn after_key(s: ViewState, k: Key) -> ViewState {
    match key_binding(k, s.tab) {
        Some(Action::Send(m)) => step(s, m).0,
        Some(Action::Goto(t)) => ViewState { tab: t, ..s },
        None => s,
    }
}

/// `d` toggles exactly the setting of the tab it is pressed on, and only
/// there; the number keys reach every tab; `q` and Esc always quit.
pub proof fn lemma_key_laws(s: ViewState)
    ensures
        after_key(s, Key::Char('d')).tab == s.tab,
        after_key(s, Key::Char('d')).compact == s.compact,
        (s.tab == Tab::Pattern) == (after_key(s, Key::Char('d')).pattern_axis != s.pattern_axis),
        (s.tab == Tab::Processes) == (after_key(s, Key::Char('d')).process_view != s.process_view),
        after_key(s, Key::Char('1')).tab == Tab::Live,
        after_key(s, Key::Char('2')).tab == Tab::Trend,
        after_key(s, Key::Char('3')).tab == Tab::Pattern,
        after_key(s, Key::Char('4')).tab == Tab::Sessions,
        after_key(s, Key::Char('5')).tab == Tab::Processes,
        after_key(s, Key::Char('q')).should_quit,
        after_key(s, Key::Esc).should_quit,
{
}

/// A refresh never changes the view; toggling the pattern axis, the process
/// view or compact mode twice gives the view back; changing tab reloads the
/// tab data.
pub proof fn lemma_update_laws(s: ViewState)
    ensures
        step(s, Message::Refresh).0 == s,
        step(step(s, Message::TogglePatternAxis).0, Message::TogglePatternAxis).0 == s,
        step(step(s, Message::ToggleProcessView).0, Message::ToggleProcessView).0 == s,
        step(step(s, Message::ToggleCompact).0, Message::ToggleCompact).0 == s,
        step(s, Message::NextTab).1 == tab_change_effects(),
{
}

/// The samples of a bounded history after recording `v`: the oldest is
/// dropped when the history is full, then `v` (if any) is appended.
pub open spec fn recorded<T>(h: Seq<T>, v: Option<T>, cap: int) -> Seq<T> {
    let kept = if h.len() >= cap && h.len() > 0 {
        h.drop_first()
    } else {
        h
    };
    match v {
        Some(x) => kept.push(x),
        None => kept,
    }
}

/// Record a reading in a bounded history (the sparkline's samples).
pub fn push_bounded<T>(h: &mut VecDeque<T>, v: Option<T>, cap: usize)
    ensures
        final(h)@ == recorded(old(h)@, v, cap as int),
{
    if h.len() >= cap {
        h.pop_front();
    }
    match v {
        Some(x) => {
            h.push_back(x);
        },
        None => {},
    }
}

/// A history never grows past its capacity.
pub proof fn lemma_history_bounded<T>(h: Seq<T>, v: Option<T>, cap: int)
    requires
        cap >= 1,
        h.len() <= cap,
    ensures
        recorded(h, v, cap).len() <= cap,
        recorded(h, v, cap).len() >= 1 || v is None,
{
}

} // verus!
