//! System metrics that explain battery drain: CPU load, screen brightness,
//! temperature.
//!
//! CPU load is delta-based (the difference between two `/proc/stat`
//! readings), so `SystemReader` keeps the previous reading.

use vstd::prelude::*;
use std::path::PathBuf;

use crate::battery::{file_text, uint_file};
use crate::text::{chars_of, parse_u64_in, parse_uint, split_whitespace, views, words};

verus! {

// ---------------------------------------------------------------------------
// /proc/stat
// ---------------------------------------------------------------------------

/// The first line of `s`, as `s.lines().next()` gives it: the text up to
/// the first `\n` (without a `\r` just before it), or all of `s` when it has
/// no `\n`; `None` for empty text.
pub open spec fn first_line(s: Seq<char>) -> Option<Seq<char>> {
    if s.len() == 0 {
        None
    } else {
        let n = crate::text::find_char(s, '\n');
        if n < 0 {
            Some(s)
        } else if n > 0 && s[n - 1] == '\r' {
            Some(s.take(n - 1))
        } else {
            Some(s.take(n))
        }
    }
}

/// The words of `ws` that parse as `u64`, in order (others are dropped).
pub open spec fn numeric_fields(ws: Seq<Seq<char>>) -> Seq<int>
    decreases ws.len(),
{
    if ws.len() == 0 {
        Seq::empty()
    } else {
        let rest = numeric_fields(ws.drop_last());
        match parse_uint(ws.last(), u64::MAX as int) {
            Some(x) => rest.push(x),
            None => rest,
        }
    }
}

/// The counters of the aggregate `cpu` line: the numeric fields after the
/// label.
pub open spec fn cpu_fields(s: Seq<char>) -> Option<Seq<int>> {
    match first_line(s) {
        Some(l) => {
            let ws = words(l);
            Some(numeric_fields(if ws.len() > 0 { ws.drop_first() } else { ws }))
        },
        None => None,
    }
}

pub open spec fn field_or_zero(f: Seq<int>, i: int) -> int {
    if i < f.len() {
        f[i]
    } else {
        0
    }
}

/// `(busy, total)` jiffies: busy = user + nice + system + irq + softirq +
/// steal, total = busy + idle + iowait (missing trailing counters count 0).
pub open spec fn cpu_times(s: Seq<char>) -> Option<(int, int)> {
    match cpu_fields(s) {
        Some(f) => if f.len() < 4 {
            None
        } else {
            let busy = f[0] + f[1] + f[2] + field_or_zero(f, 5) + field_or_zero(f, 6) + field_or_zero(f, 7);
            Some((busy, busy + f[3] + field_or_zero(f, 4)))
        },
        None => None,
    }
}

/// Busy time never counts idle or iowait: with the counters `f` of the
/// `cpu` line (user, nice, system, idle, iowait, irq, softirq, steal, ...;
/// missing trailing ones count 0), busy is user + nice + system + irq +
/// softirq + steal and total - busy is idle + iowait. So a reading that
/// differs from another only in idle or iowait has the same busy time.
pub proof fn lemma_cpu_busy_excludes_idle(s: Seq<char>, t: Seq<char>)
    ensures
        cpu_times(s) matches Some((busy, total)) ==> cpu_fields(s) matches Some(f) && f.len() >= 4 && busy
            == f[0] + f[1] + f[2] + (if f.len() > 5 {
            f[5]
        } else {
            0
        }) + (if f.len() > 6 {
            f[6]
        } else {
            0
        }) + (if f.len() > 7 {
            f[7]
        } else {
            0
        }) && total - busy == f[3] + (if f.len() > 4 {
            f[4]
        } else {
            0
        }),
        cpu_times(s) matches Some((b1, t1)) ==> cpu_times(t) matches Some((b2, t2)) ==> cpu_fields(s) matches Some(
            f,
        ) ==> cpu_fields(t) matches Some(g) ==> (f.len() == g.len() && f.len() > 4 && f[0] == g[0] && f[1] == g[1]
            && f[2] == g[2] && (forall|i: int| 5 <= i < f.len() ==> f[i] == g[i])) ==> b1 == b2,
{
}

/// The sums of `cpu_times` fit in a `u64`.
pub open spec fn cpu_times_fit(s: Seq<char>) -> bool {
    match cpu_times(s) {
        Some((_, total)) => total <= u64::MAX,
        None => true,
    }
}

/// The counters of the `cpu` line of `/proc/stat` text.
pub fn cpu_counters(content: &str) -> (r: Option<Vec<u64>>)
    ensures
        match cpu_fields(content@) {
            Some(f) => r matches Some(v) && v@.len() == f.len() && forall|i: int| 0 <= i < f.len() ==> v@[i] == f[i],
            None => r is None,
        },
{
    let v = chars_of(content);
    if v.len() == 0 {
        return None;
    }
    let mut n: usize = 0;
    while n < v.len() && v[n] != '\n'
        invariant
            n <= v@.len(),
            v@ == content@,
            crate::text::find_char(v@, '\n') == crate::text::find_from(v@, '\n', n as int),
        decreases v@.len() - n,
    {
        n += 1;
    }
    let mut end = n;
    if n < v.len() && n > 0 && v[n - 1] == '\r' {
        end = n - 1;
    }
    let ghost line = v@.subrange(0, end as int);
    proof {
        if n < v@.len() {
            assert(line =~= (if n > 0 && v@[n - 1] == '\r' { v@.take(n - 1) } else { v@.take(n as int) }));
        } else {
            assert(crate::text::find_char(v@, '\n') == -1);
            assert(line =~= v@);
        }
        assert(first_line(content@) == Some(line));
    }
    let mut lv: Vec<char> = Vec::new();
    let mut k: usize = 0;
    while k < end
        invariant
            k <= end <= v@.len(),
            lv@ == v@.subrange(0, k as int),
        decreases end - k,
    {
        lv.push(v[k]);
        assert(v@.subrange(0, k + 1) =~= v@.subrange(0, k as int).push(v@[k as int]));
        k += 1;
    }
    assert(lv@.subrange(0, lv@.len() as int) =~= line);
    let ws = split_whitespace(&lv, 0);
    let ghost wsv = views(ws@);
    let ghost tail = if wsv.len() > 0 { wsv.drop_first() } else { wsv };
    let mut out: Vec<u64> = Vec::new();
    let mut i: usize = if ws.len() > 0 { 1 } else { 0 };
    let first = i;
    while i < ws.len()
        invariant
            first <= i <= ws@.len(),
            wsv == views(ws@),
            first == (if ws@.len() > 0 { 1int } else { 0int }),
            tail == wsv.subrange(first as int, wsv.len() as int),
            out@.len() == numeric_fields(tail.take(i - first)).len(),
            forall|j: int| 0 <= j < out@.len() ==> out@[j] == numeric_fields(tail.take(i - first))[j],
        decreases ws@.len() - i,
    {
        let w = &ws[i];
        assert(tail.take(i + 1 - first).drop_last() =~= tail.take(i - first));
        assert(tail.take(i + 1 - first).last() == w@);
        assert(w@.subrange(0, w@.len() as int) =~= w@);
        match parse_u64_in(w, 0, w.len()) {
            Some(x) => {
                out.push(x);
            },
            None => {},
        }
        i += 1;
    }
    assert(tail.take(ws@.len() - first) =~= tail);
    Some(out)
}

/// `(busy, total)` jiffies from the text of `/proc/stat`.
pub fn parse_cpu_times(content: &str) -> (r: Option<(u64, u64)>)
    requires
        cpu_times_fit(content@),
    ensures
        match cpu_times(content@) {
            Some((b, t)) => r == Some((b as u64, t as u64)),
            None => r is None,
        },
{
    let f = match cpu_counters(content) {
        Some(f) => f,
        None => return None,
    };
    if f.len() < 4 {
        return None;
    }
    let iowait = if f.len() > 4 { f[4] } else { 0 };
    let irq = if f.len() > 5 { f[5] } else { 0 };
    let softirq = if f.len() > 6 { f[6] } else { 0 };
    let steal = if f.len() > 7 { f[7] } else { 0 };
    let busy = f[0] + f[1] + f[2] + irq + softirq + steal;
    let total = busy + f[3] + iowait;
    Some((busy, total))
}

/// Whether `parse_cpu_times` may be called on `content`: its sums fit in a
/// `u64`.
pub fn cpu_times_fit_in(content: &str) -> (b: bool)
    ensures
        b == cpu_times_fit(content@),
{
    let f = match cpu_counters(content) {
        Some(f) => f,
        None => return true,
    };
    if f.len() < 4 {
        return true;
    }
    let iowait: u128 = if f.len() > 4 { f[4] as u128 } else { 0 };
    let irq: u128 = if f.len() > 5 { f[5] as u128 } else { 0 };
    let softirq: u128 = if f.len() > 6 { f[6] as u128 } else { 0 };
    let steal: u128 = if f.len() > 7 { f[7] as u128 } else { 0 };
    let total = f[0] as u128 + f[1] as u128 + f[2] as u128 + irq + softirq + steal + f[3] as u128 + iowait;
    total <= u64::MAX as u128
}

// ---------------------------------------------------------------------------
// The stateful reader
// ---------------------------------------------------------------------------

/// Stateful system reader. Remembers the previous `/proc/stat` reading for
/// the CPU delta, and the backlight and thermal devices found at startup.
pub struct SystemReader {
    /// The previous `(busy, total)` jiffies reading.
    pub prev_cpu: Option<(u64, u64)>,
    pub backlight: Option<PathBuf>,
    pub thermal: Option<PathBuf>,
}

pub open spec fn sat_sub(a: u64, b: u64) -> u64 {
    if a >= b {
        (a - b) as u64
    } else {
        0
    }
}

impl SystemReader {
    /// The previous `(busy, total)` reading.
    pub open spec fn previous(&self) -> Option<(u64, u64)> {
        self.prev_cpu
    }

    pub fn new(backlight: Option<PathBuf>, thermal: Option<PathBuf>) -> (r: Self)
        ensures
            r.previous() is None,
            r.backlight == backlight,
            r.thermal == thermal,
    {
        SystemReader { prev_cpu: None, backlight, thermal }
    }

    /// Feed a `/proc/stat` reading; returns `(busy, total)` jiffies elapsed
    /// since the previous reading when there is one and time passed (the
    /// load is `busy / total`). An unreadable reading leaves the state as
    /// it was.
    pub fn cpu_delta(&mut self, cur: Option<(u64, u64)>) -> (r: Option<(u64, u64)>)
        ensures
            match cur {
                None => r is None && final(self).previous() == old(self).previous(),
                Some((b, t)) => {
                    &&& final(self).previous() == Some((b, t))
                    &&& r == match old(self).previous() {
                        Some((pb, pt)) => if sat_sub(t, pt) > 0 {
                            Some((sat_sub(b, pb), sat_sub(t, pt)))
                        } else {
                            None
                        },
                        None => None,
                    }
                },
            },
            final(self).backlight == old(self).backlight,
            final(self).thermal == old(self).thermal,
    {
        let cur = match cur {
            Some(c) => c,
            None => return None,
        };
        let load = match self.prev_cpu {
            Some((pb, pt)) => {
                let d_busy = cur.0.saturating_sub(pb);
                let d_total = cur.1.saturating_sub(pt);
                if d_total > 0 {
                    Some((d_busy, d_total))
                } else {
                    None
                }
            },
            None => None,
        };
        self.prev_cpu = Some(cur);
        load
    }
}

// ---------------------------------------------------------------------------
// Devices
// ---------------------------------------------------------------------------

/// Index of the first name that starts with `thermal_zone`.
pub open spec fn first_thermal_zone(names: Seq<Seq<char>>) -> Option<int>
    decreases names.len(),
{
    if names.len() == 0 {
        None
    } else if names[0].len() >= 12 && names[0].take(12) == "thermal_zone"@ {
        Some(0)
    } else {
        match first_thermal_zone(names.drop_first()) {
            Some(i) => Some(i + 1),
            None => None,
        }
    }
}

/// Pick the thermal zone among the entries of `/sys/class/thermal`.
pub fn pick_thermal_zone(names: &Vec<String>) -> (r: Option<usize>)
    ensures
        match first_thermal_zone(names@.map_values(|n: String| n@)) {
            Some(i) => r == Some(i as usize),
            None => r is None,
        },
{
    let ghost ns = names@.map_values(|n: String| n@);
    let mut i: usize = 0;
    assert(ns.skip(0) =~= ns);
    while i < names.len()
        invariant
            i <= names@.len(),
            ns == names@.map_values(|n: String| n@),
            first_thermal_zone(ns) == match first_thermal_zone(ns.skip(i as int)) {
                Some(k) => Some(k + i),
                None => None,
            },
        decreases names@.len() - i,
    {
        let v = chars_of(names[i].as_str());
        assert(ns.skip(i as int)[0] == v@);
        assert(ns.skip(i as int).drop_first() =~= ns.skip(i + 1));
        if v.len() >= 12 {
            proof {
                reveal_strlit("thermal_zone");
            }
            assert(v@.subrange(0, 12) =~= v@.take(12));
            if crate::battery::chars_eq(&v, 0, 12, "thermal_zone") {
                return Some(i);
            }
        }
        i += 1;
    }
    assert(ns.skip(i as int) =~= Seq::<Seq<char>>::empty());
    None
}

/// A `temp` file in millidegrees Celsius: the `u64` value reinterpreted as
/// `i64` (as an `as i64` cast does).
pub fn millicelsius_from_sysfs(raw: Option<&str>) -> (r: Option<i64>)
    ensures
        match uint_file(file_text(raw)) {
            Some(x) => r == Some((x as u64) as i64),
            None => r is None,
        },
{
    match crate::battery::read_uint(raw) {
        Some(x) => Some(x as i64),
        None => None,
    }
}

} // verus!
