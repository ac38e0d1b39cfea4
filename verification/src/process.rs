//! Per-process CPU attribution.
//!
//! The kernel does not report per-process watts. Wattea measures each
//! process's CPU time (`utime + stime` from `/proc/[pid]/stat`) between two
//! samples and apportions the package energy (RAPL `energy_uj`) by that
//! share. This module holds the `/proc/[pid]/stat` parser and the stateful
//! reader that turns two consecutive snapshots into per-process tick deltas,
//! ranked high to low; converting ticks into CPU% and watts is left to the
//! caller, which owns the clock.

use vstd::prelude::*;
use std::collections::HashMap;

use crate::text::{
    chars_of, find_char, lemma_find_from_range, lemma_rfind_upto_range, find_from, parse_u64_in, parse_uint, rfind_char, rfind_upto, split_whitespace,
    string_from_chars, trim, trim_bounds, views, words,
};

verus! {

broadcast use vstd::std_specs::hash::group_hash_axioms;

// ---------------------------------------------------------------------------
// /proc/[pid]/stat
// ---------------------------------------------------------------------------

/// The fields of a `/proc/[pid]/stat` line: `(pid, comm, utime, stime)`.
///
/// `comm` is everything between the first `(` and the last `)` (it may hold
/// spaces and parentheses); the pid is the trimmed text before the `(`; and
/// `utime`, `stime` are the 12th and 13th whitespace-separated fields after
/// the `)`.
pub open spec fn stat_fields(s: Seq<char>) -> Option<(int, Seq<char>, int, int)> {
    let l = find_char(s, '(');
    let r = rfind_char(s, ')');
    if l < 0 || r < 0 || r <= l {
        None
    } else {
        match parse_uint(trim(s.subrange(0, l)), u32::MAX as int) {
            None => None,
            Some(pid) => {
                let rest = words(s.subrange(r + 1, s.len() as int));
                if rest.len() <= 12 {
                    None
                } else {
                    match (parse_uint(rest[11], u64::MAX as int), parse_uint(rest[12], u64::MAX as int)) {
                        (Some(u), Some(st)) => Some((pid, s.subrange(l + 1, r), u, st)),
                        _ => None,
                    }
                }
            },
        }
    }
}

/// `parse_proc_stat`'s result: `(pid, comm, utime + stime)`.
pub open spec fn proc_stat(s: Seq<char>) -> Option<(int, Seq<char>, int)> {
    match stat_fields(s) {
        Some((pid, comm, u, st)) => Some((pid, comm, u + st)),
        None => None,
    }
}

/// The tick sum of a parsable line fits in a `u64`.
pub open spec fn stat_ticks_fit(s: Seq<char>) -> bool {
    match stat_fields(s) {
        Some((_, _, u, st)) => u + st <= u64::MAX,
        None => true,
    }
}

/// The words of a stat line after its last `)`.
pub open spec fn words_after_comm(s: Seq<char>) -> Seq<Seq<char>> {
    words(s.subrange(rfind_char(s, ')') + 1, s.len() as int))
}

/// The CPU times of a parsed stat line are the 12th and 13th words after
/// the last `)` (`utime`, `stime`) read as `u64`, and nothing else: the
/// pid is the trimmed text before the first `(` and comm is the text
/// between the first `(` and the last `)`. So two lines that agree on
/// those words give the same times whatever their other fields hold
/// (such as the children's times that follow `stime`), and the tick sum
/// is `utime + stime`.
pub proof fn lemma_stat_times_are_utime_stime(s: Seq<char>, t: Seq<char>)
    ensures
        stat_fields(s) matches Some((p, c, u, st)) ==> {
            &&& words_after_comm(s).len() > 12
            &&& parse_uint(words_after_comm(s)[11], u64::MAX as int) == Some(u)
            &&& parse_uint(words_after_comm(s)[12], u64::MAX as int) == Some(st)
            &&& parse_uint(trim(s.subrange(0, find_char(s, '('))), u32::MAX as int) == Some(p)
            &&& c == s.subrange(find_char(s, '(') + 1, rfind_char(s, ')'))
        },
        proc_stat(s) matches Some((p, c, ticks)) ==> stat_fields(s) matches Some((p2, c2, u, st)) && ticks == u + st,
        stat_fields(s) matches Some((p1, c1, u1, s1)) ==> stat_fields(t) matches Some((p2, c2, u2, s2)) ==> (
        words_after_comm(s)[11] == words_after_comm(t)[11] && words_after_comm(s)[12] == words_after_comm(t)[12])
            ==> u1 == u2 && s1 == s2,
{
}

/// Position of the first `c` in `v`, as `find_char` defines it.
fn find_first(v: &Vec<char>, c: char) -> (r: Option<usize>)
    ensures
        match r {
            Some(i) => find_char(v@, c) == i as int,
            None => find_char(v@, c) == -1,
        },
{
    let mut i: usize = 0;
    while i < v.len()
        invariant
            i <= v@.len(),
            find_char(v@, c) == find_from(v@, c, i as int),
        decreases v@.len() - i,
    {
        if v[i] == c {
            return Some(i);
        }
        i += 1;
    }
    None
}

/// Position of the last `c` in `v`, as `rfind_char` defines it.
fn find_last(v: &Vec<char>, c: char) -> (r: Option<usize>)
    ensures
        match r {
            Some(i) => rfind_char(v@, c) == i as int,
            None => rfind_char(v@, c) == -1,
        },
{
    let mut n: usize = v.len();
    while n > 0
        invariant
            n <= v@.len(),
            rfind_char(v@, c) == rfind_upto(v@, c, n as int),
        decreases n,
    {
        if v[n - 1] == c {
            return Some(n - 1);
        }
        n -= 1;
    }
    None
}

/// The four fields of a `/proc/[pid]/stat` line: `(pid, comm, utime, stime)`.
pub fn parse_proc_stat_fields(line: &str) -> (r: Option<(u32, String, u64, u64)>)
    ensures
        match r {
            Some((p, c, u, st)) => stat_fields(line@) == Some((p as int, c@, u as int, st as int)),
            None => stat_fields(line@) is None,
        },
{
    let v = chars_of(line);
    let lp = match find_first(&v, '(') {
        Some(i) => i,
        None => return None,
    };
    let rp = match find_last(&v, ')') {
        Some(i) => i,
        None => return None,
    };
    proof {
        lemma_find_from_range(v@, '(', 0);
        lemma_rfind_upto_range(v@, ')', v@.len() as int);
    }
    if rp <= lp {
        return None;
    }
    let (a, b) = trim_bounds(&v, 0, lp);
    let pid64 = match parse_u64_in(&v, a, b) {
        Some(x) => x,
        None => return None,
    };
    if pid64 > 4294967295u64 {
        return None;
    }
    let pid = pid64 as u32;
    let comm = string_from_chars(&v, lp + 1, rp);
    let rest = split_whitespace(&v, rp + 1);
    if rest.len() <= 12 {
        return None;
    }
    let wu = &rest[11];
    let ws = &rest[12];
    assert(views(rest@)[11] == wu@);
    assert(views(rest@)[12] == ws@);
    assert(wu@.subrange(0, wu@.len() as int) =~= wu@);
    assert(ws@.subrange(0, ws@.len() as int) =~= ws@);
    let utime = match parse_u64_in(wu, 0, wu.len()) {
        Some(x) => x,
        None => return None,
    };
    let stime = match parse_u64_in(ws, 0, ws.len()) {
        Some(x) => x,
        None => return None,
    };
    Some((pid, comm, utime, stime))
}

/// Parse a `/proc/[pid]/stat` line into `(pid, comm, utime + stime ticks)`.
///
/// `comm` is wrapped in parentheses and may contain spaces and parentheses,
/// so everything between the first `(` and the last `)` is taken as comm.
pub fn parse_proc_stat(line: &str) -> (r: Option<(u32, String, u64)>)
    requires
        stat_ticks_fit(line@),
    ensures
        match r {
            Some((p, c, t)) => proc_stat(line@) == Some((p as int, c@, t as int)),
            None => proc_stat(line@) is None,
        },
{
    match parse_proc_stat_fields(line) {
        Some((pid, comm, utime, stime)) => Some((pid, comm, utime + stime)),
        None => None,
    }
}

/// Whether `parse_proc_stat` may be called on `line`: the tick sum of a
/// parsable line fits in a `u64`.
pub fn proc_stat_ticks_fit(line: &str) -> (b: bool)
    ensures
        b == stat_ticks_fit(line@),
{
    match parse_proc_stat_fields(line) {
        Some((_, _, utime, stime)) => utime <= u64::MAX - stime,
        None => true,
    }
}

/// The RAPL node of the CPU package: a powercap `name` file whose trimmed
/// text starts with `package`.
pub open spec fn is_package_name(name: Seq<char>) -> bool {
    trim(name).len() >= 7 && trim(name).take(7) == "package"@
}

/// Whether a powercap node's `name` file names the CPU package.
pub fn is_package_zone(name: &str) -> (r: bool)
    ensures
        r == is_package_name(name@),
{
    proof {
        reveal_strlit("package");
    }
    let v = chars_of(name);
    let (a, b) = trim_bounds(&v, 0, v.len());
    assert(v@.subrange(0, v@.len() as int) =~= name@);
    if b - a < 7 {
        return false;
    }
    assert(v@.subrange(a as int, a + 7) =~= trim(name@).take(7));
    crate::battery::chars_eq(&v, a, a + 7, "package")
}

// ---------------------------------------------------------------------------
// Stateful reader
// ---------------------------------------------------------------------------

/// One process as read from `/proc`: its pid, `comm` and `utime + stime`.
pub struct ProcStat {
    pub pid: u32,
    pub comm: String,
    pub ticks: u64,
}

/// What the reader remembers of a process between two samples.
pub struct ProcEntry {
    pub comm: String,
    pub ticks: u64,
}

/// CPU ticks a process spent between two samples.
pub struct ProcDelta {
    pub pid: u32,
    pub name: String,
    pub ticks: u64,
}

/// The outcome of a sample that had a predecessor: the busiest processes,
/// high to low, and the package energy spent since the previous sample in
/// microjoules (when RAPL was readable both times).
pub struct Attribution {
    pub procs: Vec<ProcDelta>,
    pub energy_uj: Option<u64>,
}

/// Stateful process reader: the CPU share of a process is the delta between
/// two samples, so the previous sample is kept.
pub struct ProcessReader {
    prev: Option<(HashMap<u32, ProcEntry>, Option<u64>)>,
}

/// The map of a snapshot: pid to (comm, ticks); a later entry for the same
/// pid replaces an earlier one.
pub open spec fn snapshot_map(cur: Seq<ProcStat>) -> Map<u32, ProcEntry>
    decreases cur.len(),
{
    if cur.len() == 0 {
        Map::empty()
    } else {
        snapshot_map(cur.drop_last()).insert(
            cur.last().pid,
            ProcEntry { comm: cur.last().comm, ticks: cur.last().ticks },
        )
    }
}

pub open spec fn sat_sub(a: u64, b: u64) -> u64 {
    if a >= b {
        (a - b) as u64
    } else {
        0
    }
}

/// The processes of `cur` (in order) that were also in the previous sample,
/// with the ticks they spent since.
pub open spec fn deltas(cur: Seq<ProcStat>, prev: Map<u32, ProcEntry>) -> Seq<ProcDelta>
    decreases cur.len(),
{
    if cur.len() == 0 {
        Seq::empty()
    } else {
        let e = cur.last();
        let rest = deltas(cur.drop_last(), prev);
        if prev.contains_key(e.pid) {
            rest.push(ProcDelta { pid: e.pid, name: e.comm, ticks: sat_sub(e.ticks, prev[e.pid].ticks) })
        } else {
            rest
        }
    }
}

/// `s` (sorted high to low by ticks) with `x` placed after every element of
/// at least its ticks.
pub open spec fn insert_by_ticks(s: Seq<ProcDelta>, x: ProcDelta) -> Seq<ProcDelta>
    decreases s.len(),
{
    if s.len() == 0 {
        seq![x]
    } else if s.last().ticks >= x.ticks {
        s.push(x)
    } else {
        insert_by_ticks(s.drop_last(), x).push(s.last())
    }
}

/// Stable sort by ticks, high to low: equal ticks keep their order.
pub open spec fn sort_by_ticks(s: Seq<ProcDelta>) -> Seq<ProcDelta>
    decreases s.len(),
{
    if s.len() == 0 {
        Seq::empty()
    } else {
        insert_by_ticks(sort_by_ticks(s.drop_last()), s.last())
    }
}

pub open spec fn ticks_descending(s: Seq<ProcDelta>) -> bool {
    forall|i: int, j: int| 0 <= i < j < s.len() ==> s[i].ticks >= s[j].ticks
}

/// The first `n` of a sequence (all of it when it is shorter).
pub open spec fn first_n<T>(s: Seq<T>, n: int) -> Seq<T> {
    if n < s.len() {
        s.take(n)
    } else {
        s
    }
}

pub open spec fn energy_delta(cur: Option<u64>, prev: Option<u64>) -> Option<u64> {
    match (cur, prev) {
        (Some(c), Some(p)) => Some(sat_sub(c, p)),
        _ => None,
    }
}

proof fn lemma_insert_by_ticks_at(s: Seq<ProcDelta>, x: ProcDelta, j: int)
    requires
        0 <= j <= s.len(),
        forall|k: int| 0 <= k < j ==> s[k].ticks >= x.ticks,
        forall|k: int| j <= k < s.len() ==> s[k].ticks < x.ticks,
    ensures
        insert_by_ticks(s, x) == s.insert(j, x),
    decreases s.len(),
{
    if s.len() == 0 {
        assert(s.insert(j, x) =~= seq![x]);
    } else if s.last().ticks >= x.ticks {
        assert(j == s.len());
        assert(s.insert(j, x) =~= s.push(x));
    } else {
        let t = s.drop_last();
        lemma_insert_by_ticks_at(t, x, j);
        assert(t.insert(j, x).push(s.last()) =~= s.insert(j, x));
    }
}

impl ProcessReader {
    /// The previous sample: pid map and RAPL reading.
    pub closed spec fn previous(&self) -> Option<(Map<u32, ProcEntry>, Option<u64>)> {
        match self.prev {
            Some((m, r)) => Some((m@, r)),
            None => None,
        }
    }

    pub fn new() -> (r: Self)
        ensures
            r.previous() is None,
    {
        ProcessReader { prev: None }
    }

    /// Record the snapshot `cur` (with the RAPL reading `rapl`) and, when a
    /// previous snapshot exists, return the `n` processes with the most CPU
    /// ticks since it (high to low; equal ticks in the order of `cur`) and
    /// the energy spent since it. The first sample returns `None`.
    pub fn sample(&mut self, cur: Vec<ProcStat>, rapl: Option<u64>, n: usize) -> (r: Option<Attribution>)
        ensures
            final(self).previous() == Some((snapshot_map(cur@), rapl)),
            match old(self).previous() {
                None => r is None,
                Some((pm, prapl)) => r matches Some(a) && a.procs@ == first_n(
                    sort_by_ticks(deltas(cur@, pm)),
                    n as int,
                ) && a.energy_uj == energy_delta(rapl, prapl),
            },
    {
        let result = match &self.prev {
            None => None,
            Some((pmap, prapl)) => {
                let mut out: Vec<ProcDelta> = Vec::new();
                let mut i: usize = 0;
                while i < cur.len()
                    invariant
                        i <= cur@.len(),
                        out@ == sort_by_ticks(deltas(cur@.take(i as int), pmap@)),
                    decreases cur@.len() - i,
                {
                    let e = &cur[i];
                    assert(cur@.take(i + 1).drop_last() =~= cur@.take(i as int));
                    assert(cur@.take(i + 1).last() == cur@[i as int]);
                    match pmap.get(&e.pid) {
                        Some(p) => {
                            let d = ProcDelta {
                                pid: e.pid,
                                name: e.comm.clone(),
                                ticks: e.ticks.saturating_sub(p.ticks),
                            };
                            // Stable insertion: after every element of at least its ticks.
                            let ghost sorted = out@;
                            proof {
                                lemma_sort_by_ticks_descending(deltas(cur@.take(i as int), pmap@));
                            }
                            let mut j: usize = out.len();
                            while j > 0 && out[j - 1].ticks < d.ticks
                                invariant
                                    j <= out@.len(),
                                    out@ == sorted,
                                    ticks_descending(sorted),
                                    forall|k: int| j <= k < sorted.len() ==> sorted[k].ticks < d.ticks,
                                decreases j,
                            {
                                j -= 1;
                            }
                            proof {
                                assert forall|k: int| 0 <= k < j implies sorted[k].ticks >= d.ticks by {
                                    if j > 0 {
                                        assert(sorted[j - 1].ticks >= d.ticks);
                                    }
                                }
                                lemma_insert_by_ticks_at(sorted, d, j as int);
                            }
                            out.insert(j, d);
                            let ghost prefix = deltas(cur@.take(i as int), pmap@);
                            assert(deltas(cur@.take(i + 1), pmap@) == prefix.push(d));
                            assert(prefix.push(d).drop_last() =~= prefix);
                        },
                        None => {
                            assert(deltas(cur@.take(i + 1), pmap@) == deltas(cur@.take(i as int), pmap@));
                        },
                    }
                    i += 1;
                }
                assert(cur@.take(cur@.len() as int) =~= cur@);
                out.truncate(n);
                let energy_uj = match (rapl, *prapl) {
                    (Some(c), Some(p)) => Some(c.saturating_sub(p)),
                    _ => None,
                };
                Some(Attribution { procs: out, energy_uj })
            },
        };
        let mut map: HashMap<u32, ProcEntry> = HashMap::new();
        let mut i: usize = 0;
        while i < cur.len()
            invariant
                i <= cur@.len(),
                map@ == snapshot_map(cur@.take(i as int)),
            decreases cur@.len() - i,
        {
            let e = &cur[i];
            assert(cur@.take(i + 1).drop_last() =~= cur@.take(i as int));
            map.insert(e.pid, ProcEntry { comm: e.comm.clone(), ticks: e.ticks });
            i += 1;
        }
        assert(cur@.take(cur@.len() as int) =~= cur@);
        self.prev = Some((map, rapl));
        result
    }
}

/// The ranking holds exactly the processes it was given, by ticks high to
/// low.
pub proof fn lemma_sort_by_ticks_descending(s: Seq<ProcDelta>)
    ensures
        ticks_descending(sort_by_ticks(s)),
        sort_by_ticks(s).len() == s.len(),
        sort_by_ticks(s).to_multiset() == s.to_multiset(),
    decreases s.len(),
{
    broadcast use vstd::seq_lib::group_to_multiset_ensures;
    if s.len() > 0 {
        lemma_sort_by_ticks_descending(s.drop_last());
        lemma_insert_keeps_descending(sort_by_ticks(s.drop_last()), s.last());
        assert(s =~= s.drop_last().push(s.last()));
    } else {
        assert(sort_by_ticks(s).to_multiset() =~= s.to_multiset());
    }
}

/// A process is ranked only if it was in both samples, and every process
/// left out of the top `n` spent no more ticks than the last one kept.
pub proof fn lemma_top_processes(cur: Seq<ProcStat>, prev: Map<u32, ProcEntry>, n: int)
    requires
        n >= 0,
    ensures
        forall|k: int| 0 <= k < first_n(sort_by_ticks(deltas(cur, prev)), n).len() ==> prev.contains_key(
            (#[trigger] first_n(sort_by_ticks(deltas(cur, prev)), n)[k]).pid,
        ),
        ticks_descending(first_n(sort_by_ticks(deltas(cur, prev)), n)),
        n < deltas(cur, prev).len() ==> first_n(sort_by_ticks(deltas(cur, prev)), n).len() == n,
        forall|k: int, j: int|
            0 <= k < first_n(sort_by_ticks(deltas(cur, prev)), n).len() && n <= j < sort_by_ticks(deltas(cur, prev)).len()
                ==> (#[trigger] first_n(sort_by_ticks(deltas(cur, prev)), n)[k]).ticks >= (#[trigger] sort_by_ticks(deltas(cur, prev))[j]).ticks,
{
    broadcast use vstd::seq_lib::group_to_multiset_ensures;
    let d = deltas(cur, prev);
    let s = sort_by_ticks(d);
    lemma_sort_by_ticks_descending(d);
    lemma_deltas_in_prev(cur, prev);
    let t = first_n(s, n);
    assert forall|k: int| 0 <= k < t.len() implies prev.contains_key((#[trigger] t[k]).pid) by {
        assert(t[k] == s[k]);
        assert(s.to_multiset().count(s[k]) > 0);
        assert(d.to_multiset().count(s[k]) > 0);
        let j = choose|j: int| 0 <= j < d.len() && d[j] == s[k];
    }
    assert forall|k: int, j: int| 0 <= k < t.len() && n <= j < s.len() implies (#[trigger] t[k]).ticks >= (#[trigger] s[j]).ticks by {
        assert(t[k] == s[k]);
    }
}

proof fn lemma_deltas_in_prev(cur: Seq<ProcStat>, prev: Map<u32, ProcEntry>)
    ensures
        forall|k: int| 0 <= k < deltas(cur, prev).len() ==> prev.contains_key((#[trigger] deltas(cur, prev)[k]).pid),
    decreases cur.len(),
{
    if cur.len() > 0 {
        lemma_deltas_in_prev(cur.drop_last(), prev);
        let rest = deltas(cur.drop_last(), prev);
        let d = deltas(cur, prev);
        assert forall|k: int| 0 <= k < d.len() implies prev.contains_key((#[trigger] d[k]).pid) by {
            if k < rest.len() {
                assert(d[k] == rest[k]);
            }
        }
    }
}

proof fn lemma_insert_keeps_descending(s: Seq<ProcDelta>, x: ProcDelta)
    requires
        ticks_descending(s),
    ensures
        ticks_descending(insert_by_ticks(s, x)),
        insert_by_ticks(s, x).len() == s.len() + 1,
        insert_by_ticks(s, x).to_multiset() == s.to_multiset().insert(x),
    decreases s.len(),
{
    broadcast use vstd::seq_lib::group_to_multiset_ensures;
    if s.len() == 0 {
        assert(seq![x] =~= Seq::<ProcDelta>::empty().push(x));
    } else if s.last().ticks >= x.ticks {
    } else {
        let t = s.drop_last();
        assert(ticks_descending(t));
        lemma_insert_keeps_descending(t, x);
        let u = insert_by_ticks(t, x);
        assert forall|i: int, j: int| 0 <= i < j < u.push(s.last()).len() implies u.push(s.last())[i].ticks
            >= u.push(s.last())[j].ticks by {
            if j == u.len() {
                // every element of u is x or an element of t, all at least s.last().
                let w = u[i];
                assert(u.to_multiset().count(w) > 0);
                assert(t.to_multiset().insert(x).count(w) > 0);
                if w != x {
                    assert(t.to_multiset().count(w) > 0);
                    let k = choose|k: int| 0 <= k < t.len() && t[k] == w;
                    assert(t[k] == s[k]);
                }
            }
        }
        assert(s =~= t.push(s.last()));
    }
}

} // verus!
