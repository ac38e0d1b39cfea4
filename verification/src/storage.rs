//! The store's integer-valued logic: reading stored states back, and
//! segmenting the sample history into on-battery sessions.
//!
//! A session is a run of consecutive `Discharging` samples; it ends where the
//! status leaves `Discharging` (charging, full, ...) or where the time since
//! the previous sample of the run exceeds a gap (e.g. a suspend).

use vstd::prelude::*;

use crate::battery::{status_named, Status};
use crate::text::chars_of;

verus! {

/// Read back a state stored with `Status::label` (exact text).
pub fn parse_status(s: &str) -> (r: Status)
    ensures
        r == status_named(s@),
{
    let v = chars_of(s);
    assert(v@.subrange(0, v@.len() as int) =~= s@);
    crate::battery::status_of(&v, 0, v.len())
}

/// What session segmentation reads of a stored sample.
#[derive(Debug, Clone, Copy, PartialEq, Eq, Structural)]
pub struct SessionPoint {
    /// Unix epoch seconds.
    pub ts: i64,
    pub capacity: u8,
    pub status: Status,
}

/// A single on-battery ("unplugged") session: the samples
/// `first .. first + sample_count` of the history it was cut from.
#[derive(Debug, Clone, Copy, PartialEq, Eq, Structural)]
pub struct Session {
    pub start_ts: i64,
    pub end_ts: i64,
    pub start_capacity: u8,
    pub end_capacity: u8,
    pub sample_count: usize,
    /// Index of the session's first sample in the history.
    pub first: usize,
}

impl Session {
    /// Session duration (seconds).
    pub fn duration_secs(&self) -> (r: i64)
        requires
            i64::MIN <= self.end_ts - self.start_ts <= i64::MAX,
        ensures
            r == self.end_ts - self.start_ts,
    {
        self.end_ts - self.start_ts
    }

    /// Total % drop (negative = gained charge).
    pub fn capacity_drop(&self) -> (r: i16)
        ensures
            r == self.start_capacity - self.end_capacity,
    {
        self.start_capacity as i16 - self.end_capacity as i16
    }
}

pub open spec fn open_session(p: SessionPoint, i: int) -> Session {
    Session {
        start_ts: p.ts,
        end_ts: p.ts,
        start_capacity: p.capacity,
        end_capacity: p.capacity,
        sample_count: 1,
        first: i as usize,
    }
}

pub open spec fn extend_session(c: Session, p: SessionPoint) -> Session {
    Session { end_ts: p.ts, end_capacity: p.capacity, sample_count: (c.sample_count + 1) as usize, ..c }
}

/// The sessions closed so far and the one still open, after reading `pts`
/// in order.
pub open spec fn segment_state(pts: Seq<SessionPoint>, gap_secs: i64) -> (Seq<Session>, Option<Session>)
    decreases pts.len(),
{
    if pts.len() == 0 {
        (Seq::empty(), None)
    } else {
        let (done, cur) = segment_state(pts.drop_last(), gap_secs);
        let p = pts.last();
        let i = pts.len() - 1;
        if p.status == Status::Discharging {
            match cur {
                None => (done, Some(open_session(p, i))),
                Some(c) => if p.ts - c.end_ts > gap_secs {
                    (done.push(c), Some(open_session(p, i)))
                } else {
                    (done, Some(extend_session(c, p)))
                },
            }
        } else {
            match cur {
                Some(c) => (done.push(c), None),
                None => (done, None),
            }
        }
    }
}

/// All sessions of `pts`, in the order they were read.
pub open spec fn sessions_in_order(pts: Seq<SessionPoint>, gap_secs: i64) -> Seq<Session> {
    let (done, cur) = segment_state(pts, gap_secs);
    match cur {
        Some(c) => done.push(c),
        None => done,
    }
}

/// `s` (sorted newest first) with `x` placed after every session that
/// starts no earlier.
pub open spec fn insert_by_start(s: Seq<Session>, x: Session) -> Seq<Session>
    decreases s.len(),
{
    if s.len() == 0 {
        seq![x]
    } else if s.last().start_ts >= x.start_ts {
        s.push(x)
    } else {
        insert_by_start(s.drop_last(), x).push(s.last())
    }
}

/// Stable sort by start time, newest first.
pub open spec fn newest_first(s: Seq<Session>) -> Seq<Session>
    decreases s.len(),
{
    if s.len() == 0 {
        Seq::empty()
    } else {
        insert_by_start(newest_first(s.drop_last()), s.last())
    }
}

/// `segment_sessions`'s result.
pub open spec fn sessions_of(pts: Seq<SessionPoint>, gap_secs: i64) -> Seq<Session> {
    newest_first(sessions_in_order(pts, gap_secs))
}

pub open spec fn start_descending(s: Seq<Session>) -> bool {
    forall|i: int, j: int| 0 <= i < j < s.len() ==> s[i].start_ts >= s[j].start_ts
}

proof fn lemma_insert_by_start_at(s: Seq<Session>, x: Session, j: int)
    requires
        0 <= j <= s.len(),
        forall|k: int| 0 <= k < j ==> s[k].start_ts >= x.start_ts,
        forall|k: int| j <= k < s.len() ==> s[k].start_ts < x.start_ts,
    ensures
        insert_by_start(s, x) == s.insert(j, x),
    decreases s.len(),
{
    if s.len() == 0 {
        assert(s.insert(j, x) =~= seq![x]);
    } else if s.last().start_ts >= x.start_ts {
        assert(j == s.len());
        assert(s.insert(j, x) =~= s.push(x));
    } else {
        let t = s.drop_last();
        lemma_insert_by_start_at(t, x, j);
        assert(t.insert(j, x).push(s.last()) =~= s.insert(j, x));
    }
}

proof fn lemma_insert_by_start_sorted(s: Seq<Session>, x: Session)
    requires
        start_descending(s),
    ensures
        start_descending(insert_by_start(s, x)),
        insert_by_start(s, x).len() == s.len() + 1,
        insert_by_start(s, x).to_multiset() == s.to_multiset().insert(x),
    decreases s.len(),
{
    broadcast use vstd::seq_lib::group_to_multiset_ensures;
    if s.len() == 0 {
        assert(seq![x] =~= Seq::<Session>::empty().push(x));
    } else if s.last().start_ts >= x.start_ts {
    } else {
        let t = s.drop_last();
        lemma_insert_by_start_sorted(t, x);
        let u = insert_by_start(t, x);
        assert forall|i: int, j: int| 0 <= i < j < u.push(s.last()).len() implies u.push(s.last())[i].start_ts
            >= u.push(s.last())[j].start_ts by {
            if j == u.len() {
                let w = u[i];
                assert(u.to_multiset().count(w) > 0);
                assert(t.to_multiset().insert(x).count(w) > 0);
                if w != x {
                    assert(t.to_multiset().count(w) > 0);
                    let k = choose|k: int| 0 <= k < t.len() && t[k] == w;
                    assert(t[k] == s[k]);
                }
            }
        }
        assert(s =~= t.push(s.last()));
    }
}

/// The newest-first sort is a sorted permutation of its input.
pub proof fn lemma_newest_first_sorted(s: Seq<Session>)
    ensures
        start_descending(newest_first(s)),
        newest_first(s).to_multiset() == s.to_multiset(),
        newest_first(s).len() == s.len(),
    decreases s.len(),
{
    broadcast use vstd::seq_lib::group_to_multiset_ensures;
    if s.len() == 0 {
        assert(newest_first(s).to_multiset() =~= s.to_multiset());
    } else {
        lemma_newest_first_sorted(s.drop_last());
        lemma_insert_by_start_sorted(newest_first(s.drop_last()), s.last());
        assert(s =~= s.drop_last().push(s.last()));
    }
}

/// Stable newest-first sort of `v`.
fn sort_newest_first(v: Vec<Session>) -> (r: Vec<Session>)
    ensures
        r@ == newest_first(v@),
{
    let mut out: Vec<Session> = Vec::new();
    let mut i: usize = 0;
    while i < v.len()
        invariant
            i <= v@.len(),
            out@ == newest_first(v@.take(i as int)),
        decreases v@.len() - i,
    {
        let x = v[i];
        assert(v@.take(i + 1).drop_last() =~= v@.take(i as int));
        let ghost sorted = out@;
        proof {
            lemma_newest_first_sorted(v@.take(i as int));
        }
        let mut j: usize = out.len();
        while j > 0 && out[j - 1].start_ts < x.start_ts
            invariant
                j <= out@.len(),
                out@ == sorted,
                start_descending(sorted),
                forall|k: int| j <= k < sorted.len() ==> sorted[k].start_ts < x.start_ts,
            decreases j,
        {
            j -= 1;
        }
        proof {
            assert forall|k: int| 0 <= k < j implies sorted[k].start_ts >= x.start_ts by {
                if j > 0 {
                    assert(sorted[j - 1].start_ts >= x.start_ts);
                }
            }
            lemma_insert_by_start_at(sorted, x, j as int);
        }
        out.insert(j, x);
        i += 1;
    }
    assert(v@.take(v@.len() as int) =~= v@);
    out
}

/// Invariant of the open session while reading: it lies within the samples
/// read so far.
pub open spec fn open_within(cur: Option<Session>, i: int) -> bool {
    match cur {
        Some(c) => c.first + c.sample_count <= i && c.sample_count >= 1,
        None => true,
    }
}

/// Segment the history `pts` into on-battery sessions.
///
/// A gap larger than `gap_secs` between two samples of a run starts a new
/// session. Results are newest session first.
pub fn segment_sessions(pts: &Vec<SessionPoint>, gap_secs: i64) -> (r: Vec<Session>)
    ensures
        r@ == sessions_of(pts@, gap_secs),
{
    let mut sessions: Vec<Session> = Vec::new();
    let mut current: Option<Session> = None;
    let mut i: usize = 0;
    while i < pts.len()
        invariant
            i <= pts@.len(),
            (sessions@, current) == segment_state(pts@.take(i as int), gap_secs),
            open_within(current, i as int),
        decreases pts@.len() - i,
    {
        let p = pts[i];
        assert(pts@.take(i + 1).drop_last() =~= pts@.take(i as int));
        assert(pts@.take(i + 1).last() == p);
        if p.status == Status::Discharging {
            match current {
                None => {
                    current = Some(
                        Session {
                            start_ts: p.ts,
                            end_ts: p.ts,
                            start_capacity: p.capacity,
                            end_capacity: p.capacity,
                            sample_count: 1,
                            first: i,
                        },
                    );
                },
                Some(c) => {
                    let gap = p.ts as i128 - c.end_ts as i128;
                    if gap > gap_secs as i128 {
                        sessions.push(c);
                        current = Some(
                            Session {
                                start_ts: p.ts,
                                end_ts: p.ts,
                                start_capacity: p.capacity,
                                end_capacity: p.capacity,
                                sample_count: 1,
                                first: i,
                            },
                        );
                    } else {
                        current = Some(
                            Session {
                                end_ts: p.ts,
                                end_capacity: p.capacity,
                                sample_count: c.sample_count + 1,
                                ..c
                            },
                        );
                    }
                },
            }
        } else {
            match current {
                Some(c) => {
                    sessions.push(c);
                    current = None;
                },
                None => {},
            }
        }
        i += 1;
    }
    assert(pts@.take(pts@.len() as int) =~= pts@);
    match current {
        Some(c) => {
            sessions.push(c);
        },
        None => {},
    }
    sort_newest_first(sessions)
}

// ---------------------------------------------------------------------------
// What segmentation guarantees
// ---------------------------------------------------------------------------

/// Index of a session's last sample.
pub open spec fn last_index(c: Session) -> int {
    c.first + c.sample_count - 1
}

/// A run: every sample `Discharging`, each within `gap_secs` of the one
/// before.
pub open spec fn run_ok(r: Seq<SessionPoint>, gap_secs: i64) -> bool {
    &&& forall|k: int| 0 <= k < r.len() ==> (#[trigger] r[k]).status == Status::Discharging
    &&& forall|k: int| 0 <= k < r.len() - 1 ==> #[trigger] step_within(r, k, gap_secs)
}

/// Sample `k + 1` of `r` comes at most `gap_secs` after sample `k`.
pub open spec fn step_within(r: Seq<SessionPoint>, k: int, gap_secs: i64) -> bool {
    r[k + 1].ts - r[k].ts <= gap_secs
}

/// The samples of `c`.
pub open spec fn members(pts: Seq<SessionPoint>, c: Session) -> Seq<SessionPoint> {
    pts.subrange(c.first as int, c.first + c.sample_count)
}

/// `c` is a run of `pts`: consecutive `Discharging` samples, each within
/// `gap_secs` of the one before, whose first and last samples give the
/// session's start and end.
#[verifier::opaque]
pub open spec fn is_run(pts: Seq<SessionPoint>, gap_secs: i64, c: Session) -> bool {
    &&& c.sample_count >= 1
    &&& c.first + c.sample_count <= pts.len()
    &&& run_ok(members(pts, c), gap_secs)
    &&& c.start_ts == members(pts, c)[0].ts
    &&& c.start_capacity == members(pts, c)[0].capacity
    &&& c.end_ts == members(pts, c).last().ts
    &&& c.end_capacity == members(pts, c).last().capacity
}

/// `b` follows `a`, and they cannot be one run: a non-discharging sample
/// lies between them, or they are adjacent with more than `gap_secs` between.
#[verifier::opaque]
pub open spec fn separated(pts: Seq<SessionPoint>, gap_secs: i64, a: Session, b: Session) -> bool {
    &&& last_index(a) < b.first
    &&& {
        ||| exists|j: int| last_index(a) < j < b.first && (#[trigger] pts[j]).status != Status::Discharging
        ||| b.first == last_index(a) + 1 && pts[b.first as int].ts - pts[last_index(a)].ts > gap_secs
    }
}

/// Number of `Discharging` samples.
pub open spec fn count_discharging(pts: Seq<SessionPoint>) -> nat
    decreases pts.len(),
{
    if pts.len() == 0 {
        0
    } else {
        count_discharging(pts.drop_last()) + if pts.last().status == Status::Discharging {
            1nat
        } else {
            0nat
        }
    }
}

/// Number of samples over all sessions.
pub open spec fn total_samples(s: Seq<Session>) -> nat
    decreases s.len(),
{
    if s.len() == 0 {
        0
    } else {
        total_samples(s.drop_last()) + s.last().sample_count as nat
    }
}

pub open spec fn segment_inv(pts: Seq<SessionPoint>, gap_secs: i64, done: Seq<Session>, cur: Option<Session>) -> bool {
    &&& forall|k: int| 0 <= k < done.len() ==> is_run(pts, gap_secs, #[trigger] done[k])
    &&& forall|k: int| 0 <= k < done.len() - 1 ==> separated(pts, gap_secs, #[trigger] done[k], done[k + 1])
    &&& total_samples(done) + (match cur {
        Some(c) => c.sample_count as nat,
        None => 0nat,
    }) == count_discharging(pts)
    &&& match cur {
        Some(c) => {
            &&& is_run(pts, gap_secs, c)
            &&& last_index(c) == pts.len() - 1
            &&& done.len() > 0 ==> separated(pts, gap_secs, done.last(), c)
        },
        None => done.len() > 0 ==> exists|j: int|
            last_index(done.last()) < j < pts.len() && (#[trigger] pts[j]).status != Status::Discharging,
    }
}

proof fn lemma_run_extends(pts: Seq<SessionPoint>, gap_secs: i64, c: Session, p: SessionPoint)
    requires
        is_run(pts, gap_secs, c),
    ensures
        is_run(pts.push(p), gap_secs, c),
{
    reveal(is_run);
    assert(members(pts.push(p), c) =~= members(pts, c));
}

proof fn lemma_run_in_range(pts: Seq<SessionPoint>, gap_secs: i64, c: Session)
    requires
        is_run(pts, gap_secs, c),
    ensures
        0 <= c.first <= last_index(c) < pts.len(),
        c.end_ts == pts[last_index(c)].ts,
        pts[last_index(c)].status == Status::Discharging,
{
    reveal(is_run);
    let m = members(pts, c);
    assert(m.last() == pts[last_index(c)]);
    assert(m[m.len() - 1].status == Status::Discharging);
}

proof fn lemma_separated_extends(pts: Seq<SessionPoint>, gap_secs: i64, a: Session, b: Session, p: SessionPoint)
    requires
        is_run(pts, gap_secs, a),
        separated(pts, gap_secs, a, b),
        b.first < pts.len(),
    ensures
        separated(pts.push(p), gap_secs, a, b),
{
    reveal(separated);
    lemma_run_in_range(pts, gap_secs, a);
    let q = pts.push(p);
    if exists|j: int| last_index(a) < j < b.first && (#[trigger] pts[j]).status != Status::Discharging {
        let j = choose|j: int| last_index(a) < j < b.first && (#[trigger] pts[j]).status != Status::Discharging;
        assert(q[j] == pts[j]);
    } else {
        assert(q[b.first as int] == pts[b.first as int]);
        assert(q[last_index(a)] == pts[last_index(a)]);
    }
}

proof fn lemma_open_is_run(prev: Seq<SessionPoint>, gap_secs: i64, p: SessionPoint)
    requires
        p.status == Status::Discharging,
        prev.len() < usize::MAX,
    ensures
        is_run(prev.push(p), gap_secs, open_session(p, prev.len() as int)),
        last_index(open_session(p, prev.len() as int)) == prev.len(),
{
    reveal(is_run);
    let c = open_session(p, prev.len() as int);
    assert(members(prev.push(p), c) =~= seq![p]);
}

proof fn lemma_run_ok_push(m: Seq<SessionPoint>, gap_secs: i64, p: SessionPoint)
    requires
        run_ok(m, gap_secs),
        m.len() > 0,
        p.status == Status::Discharging,
        p.ts - m.last().ts <= gap_secs,
    ensures
        run_ok(m.push(p), gap_secs),
{
    let m2 = m.push(p);
    assert forall|k: int| 0 <= k < m2.len() implies (#[trigger] m2[k]).status == Status::Discharging by {
        if k < m.len() {
            assert(m2[k] == m[k]);
        }
    }
    assert forall|k: int| 0 <= k < m2.len() - 1 implies #[trigger] step_within(m2, k, gap_secs) by {
        if k < m.len() - 1 {
            assert(step_within(m, k, gap_secs));
            assert(m2[k] == m[k]);
            assert(m2[k + 1] == m[k + 1]);
        } else {
            assert(m2[k] == m.last());
            assert(m2[k + 1] == p);
        }
    }
}

proof fn lemma_extend_is_run(prev: Seq<SessionPoint>, gap_secs: i64, c: Session, p: SessionPoint)
    requires
        is_run(prev, gap_secs, c),
        last_index(c) == prev.len() - 1,
        p.status == Status::Discharging,
        p.ts - c.end_ts <= gap_secs,
        prev.len() < usize::MAX,
    ensures
        is_run(prev.push(p), gap_secs, extend_session(c, p)),
        last_index(extend_session(c, p)) == prev.len(),
{
    reveal(is_run);
    let e = extend_session(c, p);
    let m = members(prev, c);
    let m2 = members(prev.push(p), e);
    assert(m2 =~= m.push(p));
    lemma_run_ok_push(m, gap_secs, p);
}

proof fn lemma_separated_by_gap(prev: Seq<SessionPoint>, gap_secs: i64, c: Session, p: SessionPoint)
    requires
        prev.len() < usize::MAX,
        is_run(prev, gap_secs, c),
        last_index(c) == prev.len() - 1,
        p.ts - c.end_ts > gap_secs,
    ensures
        separated(prev.push(p), gap_secs, c, open_session(p, prev.len() as int)),
{
    reveal(separated);
    lemma_run_in_range(prev, gap_secs, c);
    let pts = prev.push(p);
    assert(pts[prev.len() as int] == p);
    assert(pts[last_index(c)] == prev[last_index(c)]);
}

proof fn lemma_separated_by_witness(pts: Seq<SessionPoint>, gap_secs: i64, a: Session, b: Session, j: int)
    requires
        last_index(a) < j < b.first,
        pts[j].status != Status::Discharging,
    ensures
        separated(pts, gap_secs, a, b),
{
    reveal(separated);
}

proof fn lemma_total_push(s: Seq<Session>, c: Session)
    ensures
        total_samples(s.push(c)) == total_samples(s) + c.sample_count,
{
    assert(s.push(c).drop_last() =~= s);
}

proof fn lemma_done_extends(prev: Seq<SessionPoint>, gap_secs: i64, done: Seq<Session>, p: SessionPoint)
    requires
        forall|k: int| 0 <= k < done.len() ==> is_run(prev, gap_secs, #[trigger] done[k]),
        forall|k: int| 0 <= k < done.len() - 1 ==> separated(prev, gap_secs, #[trigger] done[k], done[k + 1]),
    ensures
        forall|k: int| 0 <= k < done.len() ==> is_run(prev.push(p), gap_secs, #[trigger] done[k]),
        forall|k: int| 0 <= k < done.len() - 1 ==> separated(prev.push(p), gap_secs, #[trigger] done[k], done[k + 1]),
{
    assert forall|k: int| 0 <= k < done.len() implies is_run(prev.push(p), gap_secs, #[trigger] done[k]) by {
        lemma_run_extends(prev, gap_secs, done[k], p);
    }
    assert forall|k: int| 0 <= k < done.len() - 1 implies separated(prev.push(p), gap_secs, #[trigger] done[k], done[k + 1]) by {
        lemma_run_in_range(prev, gap_secs, done[k + 1]);
        lemma_separated_extends(prev, gap_secs, done[k], done[k + 1], p);
    }
}

proof fn lemma_close(pts: Seq<SessionPoint>, gap_secs: i64, done: Seq<Session>, c: Session)
    requires
        forall|k: int| 0 <= k < done.len() ==> is_run(pts, gap_secs, #[trigger] done[k]),
        forall|k: int| 0 <= k < done.len() - 1 ==> separated(pts, gap_secs, #[trigger] done[k], done[k + 1]),
        is_run(pts, gap_secs, c),
        done.len() > 0 ==> separated(pts, gap_secs, done.last(), c),
    ensures
        forall|k: int| 0 <= k < done.push(c).len() ==> is_run(pts, gap_secs, #[trigger] done.push(c)[k]),
        forall|k: int| 0 <= k < done.push(c).len() - 1 ==> separated(pts, gap_secs, #[trigger] done.push(c)[k], done.push(c)[k + 1]),
        total_samples(done.push(c)) == total_samples(done) + c.sample_count,
        done.push(c).last() == c,
{
    let d2 = done.push(c);
    lemma_total_push(done, c);
    assert forall|k: int| 0 <= k < d2.len() implies is_run(pts, gap_secs, #[trigger] d2[k]) by {
        if k < done.len() {
            assert(d2[k] == done[k]);
        }
    }
    assert forall|k: int| 0 <= k < d2.len() - 1 implies separated(pts, gap_secs, #[trigger] d2[k], d2[k + 1]) by {
        if k < done.len() - 1 {
            assert(d2[k] == done[k] && d2[k + 1] == done[k + 1]);
        } else {
            assert(d2[k] == done.last() && d2[k + 1] == c);
        }
    }
}

#[verifier::spinoff_prover]
proof fn lemma_segment_inv(pts: Seq<SessionPoint>, gap_secs: i64)
    requires
        pts.len() <= usize::MAX,
    ensures
        segment_inv(pts, gap_secs, segment_state(pts, gap_secs).0, segment_state(pts, gap_secs).1),
    decreases pts.len(),
{
    if pts.len() > 0 {
        let prev = pts.drop_last();
        lemma_segment_inv(prev, gap_secs);
        let (done, cur) = segment_state(prev, gap_secs);
        let p = pts.last();
        let i = prev.len() as int;
        assert(pts =~= prev.push(p));
        lemma_done_extends(prev, gap_secs, done, p);
        let (done2, cur2) = segment_state(pts, gap_secs);
        assert(count_discharging(pts) == count_discharging(prev) + if p.status == Status::Discharging { 1nat } else { 0nat });
        if p.status == Status::Discharging {
            match cur {
                None => {
                    lemma_open_is_run(prev, gap_secs, p);
                    if done.len() > 0 {
                        let j = choose|j: int| last_index(done.last()) < j < prev.len() && (#[trigger] prev[j]).status != Status::Discharging;
                        assert(pts[j] == prev[j]);
                        lemma_separated_by_witness(pts, gap_secs, done.last(), open_session(p, i), j);
                    }
                },
                Some(c) => {
                    lemma_run_extends(prev, gap_secs, c, p);
                    lemma_run_in_range(prev, gap_secs, c);
                    if done.len() > 0 {
                        lemma_separated_extends(prev, gap_secs, done.last(), c, p);
                    }
                    if p.ts - c.end_ts > gap_secs {
                        lemma_close(pts, gap_secs, done, c);
                        lemma_open_is_run(prev, gap_secs, p);
                        lemma_separated_by_gap(prev, gap_secs, c, p);
                    } else {
                        lemma_extend_is_run(prev, gap_secs, c, p);
                        if done.len() > 0 {
                            let e = extend_session(c, p);
                            reveal(separated);
                        }
                    }
                },
            }
        } else {
            match cur {
                Some(c) => {
                    lemma_run_extends(prev, gap_secs, c, p);
                    lemma_run_in_range(prev, gap_secs, c);
                    if done.len() > 0 {
                        lemma_separated_extends(prev, gap_secs, done.last(), c, p);
                    }
                    lemma_close(pts, gap_secs, done, c);
                    assert(pts[i].status != Status::Discharging);
                    lemma_run_in_range(prev, gap_secs, c);
                },
                None => {
                    if done.len() > 0 {
                        let j = choose|j: int| last_index(done.last()) < j < prev.len() && (#[trigger] prev[j]).status != Status::Discharging;
                        assert(pts[j] == prev[j]);
                    }
                },
            }
        }
    }
}

/// The sessions in reading order: runs, each separated from the next, that
/// together hold every discharging sample.
proof fn lemma_in_order(pts: Seq<SessionPoint>, gap_secs: i64)
    requires
        pts.len() <= usize::MAX,
    ensures
        forall|k: int| 0 <= k < sessions_in_order(pts, gap_secs).len() ==> is_run(pts, gap_secs, #[trigger] sessions_in_order(pts, gap_secs)[k]),
        forall|k: int| 0 <= k < sessions_in_order(pts, gap_secs).len() - 1 ==> separated(pts, gap_secs, #[trigger] sessions_in_order(pts, gap_secs)[k], sessions_in_order(pts, gap_secs)[k + 1]),
        total_samples(sessions_in_order(pts, gap_secs)) == count_discharging(pts),
{
    lemma_segment_inv(pts, gap_secs);
    let (done, cur) = segment_state(pts, gap_secs);
    let s = sessions_in_order(pts, gap_secs);
    if let Some(c) = cur {
        lemma_total_push(done, c);
        assert forall|k: int| 0 <= k < s.len() - 1 implies separated(pts, gap_secs, #[trigger] s[k], s[k + 1]) by {
            if k < done.len() - 1 {
                assert(s[k] == done[k] && s[k + 1] == done[k + 1]);
            } else {
                assert(s[k] == done.last() && s[k + 1] == c);
            }
        }
        assert forall|k: int| 0 <= k < s.len() implies is_run(pts, gap_secs, #[trigger] s[k]) by {
            if k < done.len() {
                assert(s[k] == done[k]);
            }
        }
    }
}

proof fn lemma_insert_by_start_total(s: Seq<Session>, x: Session)
    ensures
        total_samples(insert_by_start(s, x)) == total_samples(s) + x.sample_count,
    decreases s.len(),
{
    if s.len() == 0 {
        lemma_total_push(Seq::empty(), x);
        assert(seq![x] =~= Seq::<Session>::empty().push(x));
    } else if s.last().start_ts >= x.start_ts {
        lemma_total_push(s, x);
    } else {
        let t = s.drop_last();
        lemma_insert_by_start_total(t, x);
        lemma_total_push(insert_by_start(t, x), s.last());
    }
}

proof fn lemma_newest_first_total(s: Seq<Session>)
    ensures
        total_samples(newest_first(s)) == total_samples(s),
    decreases s.len(),
{
    if s.len() > 0 {
        lemma_newest_first_total(s.drop_last());
        lemma_insert_by_start_total(newest_first(s.drop_last()), s.last());
    }
}

/// Every session that `segment_sessions` returns is a run of consecutive
/// `Discharging` samples of the history, each at most `gap_secs` after the
/// one before, and its start/end time and capacity are those of its first
/// and last sample.
pub proof fn lemma_sessions_are_runs(pts: Seq<SessionPoint>, gap_secs: i64)
    requires
        pts.len() <= usize::MAX,
    ensures
        forall|k: int| 0 <= k < sessions_of(pts, gap_secs).len() ==> is_run(pts, gap_secs, #[trigger] sessions_of(pts, gap_secs)[k]),
{
    broadcast use vstd::seq_lib::group_to_multiset_ensures;
    lemma_in_order(pts, gap_secs);
    let s = sessions_in_order(pts, gap_secs);
    let r = sessions_of(pts, gap_secs);
    lemma_newest_first_sorted(s);
    assert forall|k: int| 0 <= k < r.len() implies is_run(pts, gap_secs, #[trigger] r[k]) by {
        assert(r.to_multiset().count(r[k]) > 0);
        assert(s.to_multiset().count(r[k]) > 0);
        let j = choose|j: int| 0 <= j < s.len() && s[j] == r[k];
        assert(is_run(pts, gap_secs, s[j]));
    }
}

/// The sessions hold every `Discharging` sample exactly once: their sample
/// counts add up to the number of discharging samples, and in reading order
/// each session ends before the next begins and cannot be merged with it
/// (a non-discharging sample, or a gap over `gap_secs`, lies between).
pub proof fn lemma_sessions_partition(pts: Seq<SessionPoint>, gap_secs: i64)
    requires
        pts.len() <= usize::MAX,
    ensures
        total_samples(sessions_of(pts, gap_secs)) == count_discharging(pts),
        forall|k: int| 0 <= k < sessions_in_order(pts, gap_secs).len() - 1 ==> separated(pts, gap_secs, #[trigger] sessions_in_order(pts, gap_secs)[k], sessions_in_order(pts, gap_secs)[k + 1]),
        sessions_of(pts, gap_secs).to_multiset() == sessions_in_order(pts, gap_secs).to_multiset(),
{
    lemma_in_order(pts, gap_secs);
    lemma_newest_first_total(sessions_in_order(pts, gap_secs));
    lemma_newest_first_sorted(sessions_in_order(pts, gap_secs));
}

/// `segment_sessions` lists sessions newest first.
pub proof fn lemma_sessions_newest_first(pts: Seq<SessionPoint>, gap_secs: i64)
    ensures
        start_descending(sessions_of(pts, gap_secs)),
{
    lemma_newest_first_sorted(sessions_in_order(pts, gap_secs));
}

} // verus!
