//! UPower history (`.dat`) backfill.
//!
//! UPower keeps a chronological TSV log in
//! `/var/lib/upower/history-{charge,rate,voltage}-<battery>.dat`
//! (`ts \t value \t state`). This module chooses the battery's files, reads
//! the lines, and joins rate/voltage rows onto the charge axis with a
//! "last known" rule; turning the rows into stored samples is the caller's.

use vstd::prelude::*;

use crate::battery::{chars_eq, Status};
use crate::text::{
    chars_of, contains_seq, find_from, float_text_in, is_float_text, lemma_find_from_range, parse_i64, parse_i64_in, string_from_chars,
    trim, trim_bounds,
};

verus! {

// ---------------------------------------------------------------------------
// States
// ---------------------------------------------------------------------------

/// The state a UPower label names.
pub open spec fn upower_state(s: Seq<char>) -> Status {
    if s == "charging"@ {
        Status::Charging
    } else if s == "discharging"@ {
        Status::Discharging
    } else if s == "pending-charge"@ || s == "fully-charged"@ {
        Status::Full
    } else {
        Status::Unknown
    }
}

/// Map a UPower state label to a `Status`.
pub fn parse_state(state: &str) -> (r: Status)
    ensures
        r == upower_state(state@),
{
    let v = chars_of(state);
    let n = v.len();
    assert(v@.subrange(0, n as int) =~= state@);
    if chars_eq(&v, 0, n, "charging") {
        Status::Charging
    } else if chars_eq(&v, 0, n, "discharging") {
        Status::Discharging
    } else if chars_eq(&v, 0, n, "pending-charge") || chars_eq(&v, 0, n, "fully-charged") {
        Status::Full
    } else {
        Status::Unknown
    }
}

// ---------------------------------------------------------------------------
// The "last known" cursor
// ---------------------------------------------------------------------------

/// Where `advance` leaves a cursor at `c`: it moves forward while the next
/// record's timestamp is not greater than `target`.
pub open spec fn advanced(ts: Seq<i64>, c: int, target: i64) -> int
    decreases ts.len() - c,
{
    if c >= 0 && c + 1 < ts.len() && ts[c + 1] <= target {
        advanced(ts, c + 1, target)
    } else {
        c
    }
}

proof fn lemma_advanced(ts: Seq<i64>, c: int, target: i64)
    requires
        c >= 0,
    ensures
        advanced(ts, c, target) >= c,
        forall|k: int| c < k <= advanced(ts, c, target) ==> ts[k] <= target,
        advanced(ts, c, target) + 1 < ts.len() ==> ts[advanced(ts, c, target) + 1] > target,
        advanced(ts, c, target) == c || advanced(ts, c, target) < ts.len(),
    decreases ts.len() - c,
{
    if c + 1 < ts.len() && ts[c + 1] <= target {
        lemma_advanced(ts, c + 1, target);
    }
}

/// Advance `cursor` up to the last record whose timestamp is not greater
/// than `target_ts`. The cursor never moves back (the files are
/// chronological).
pub fn advance(ts: &Vec<i64>, cursor: &mut usize, target_ts: i64)
    ensures
        *final(cursor) as int == advanced(ts@, *old(cursor) as int, target_ts),
        *final(cursor) >= *old(cursor),
        forall|k: int| *old(cursor) < k <= *final(cursor) ==> ts@[k] <= target_ts,
        *final(cursor) + 1 < ts@.len() ==> ts@[*final(cursor) + 1] > target_ts,
{
    proof {
        lemma_advanced(ts@, *cursor as int, target_ts);
    }
    while *cursor < ts.len() && *cursor + 1 < ts.len() && ts[*cursor + 1] <= target_ts
        invariant
            *cursor >= *old(cursor),
            advanced(ts@, *cursor as int, target_ts) == advanced(ts@, *old(cursor) as int, target_ts),
        decreases ts@.len() - *cursor,
    {
        *cursor += 1;
    }
}

/// The record a cursor names, if it is not after `target`.
pub open spec fn known_at(ts: Seq<i64>, c: int, target: i64) -> Option<int> {
    if 0 <= c < ts.len() && ts[c] <= target {
        Some(c)
    } else {
        None
    }
}

// ---------------------------------------------------------------------------
// The join
// ---------------------------------------------------------------------------

/// What the join reads of a charge record: its time, its state label, and
/// whether its charge value is above zero.
pub struct ChargeRow {
    pub ts: i64,
    pub state: String,
    pub positive: bool,
}

/// One sample to import: the charge record it comes from, its state, and
/// the rate and voltage records in force at its time.
#[derive(Debug, Clone, Copy, PartialEq, Eq, Structural)]
pub struct ImportRow {
    pub charge: usize,
    pub status: Status,
    pub rate: Option<usize>,
    pub voltage: Option<usize>,
}

/// A charge record UPower writes at boot/suspend: state `unknown` or a
/// charge of zero.
pub open spec fn is_noise(r: ChargeRow) -> bool {
    r.state@ == "unknown"@ || !r.positive
}

pub open spec fn opt_index(o: Option<int>) -> Option<usize> {
    match o {
        Some(i) => Some(i as usize),
        None => None,
    }
}

/// The rows planned from `charge`, with the rate and voltage cursors where
/// the join leaves them.
pub open spec fn plan_state(charge: Seq<ChargeRow>, rate: Seq<i64>, voltage: Seq<i64>) -> (Seq<ImportRow>, int, int)
    decreases charge.len(),
{
    if charge.len() == 0 {
        (Seq::empty(), 0, 0)
    } else {
        let (rows, ri, vi) = plan_state(charge.drop_last(), rate, voltage);
        let r = charge.last();
        if is_noise(r) {
            (rows, ri, vi)
        } else {
            let ri2 = advanced(rate, ri, r.ts);
            let vi2 = advanced(voltage, vi, r.ts);
            (
                rows.push(
                    ImportRow {
                        charge: (charge.len() - 1) as usize,
                        status: upower_state(r.state@),
                        rate: opt_index(known_at(rate, ri2, r.ts)),
                        voltage: opt_index(known_at(voltage, vi2, r.ts)),
                    },
                ),
                ri2,
                vi2,
            )
        }
    }
}

/// `plan_import`'s result.
pub open spec fn import_plan(charge: Seq<ChargeRow>, rate: Seq<i64>, voltage: Seq<i64>) -> Seq<ImportRow> {
    plan_state(charge, rate, voltage).0
}

proof fn lemma_plan_cursors(charge: Seq<ChargeRow>, rate: Seq<i64>, voltage: Seq<i64>)
    ensures
        plan_state(charge, rate, voltage).1 >= 0,
        plan_state(charge, rate, voltage).2 >= 0,
        plan_state(charge, rate, voltage).1 == 0 || plan_state(charge, rate, voltage).1 < rate.len(),
        plan_state(charge, rate, voltage).2 == 0 || plan_state(charge, rate, voltage).2 < voltage.len(),
    decreases charge.len(),
{
    if charge.len() > 0 {
        lemma_plan_cursors(charge.drop_last(), rate, voltage);
        let (rows, ri, vi) = plan_state(charge.drop_last(), rate, voltage);
        lemma_advanced(rate, ri, charge.last().ts);
        lemma_advanced(voltage, vi, charge.last().ts);
    }
}

/// Join the rate and voltage records onto the charge records.
///
/// Noise records (state `unknown` or zero charge) are skipped. For every
/// other charge record, in order, the rate and voltage cursors advance to
/// the last record not later than it, and that record is used when it is
/// not later than the charge record. `rate` and `voltage` are the record
/// timestamps, sorted.
pub fn plan_import(charge: &Vec<ChargeRow>, rate: &Vec<i64>, voltage: &Vec<i64>) -> (r: Vec<ImportRow>)
    ensures
        r@ == import_plan(charge@, rate@, voltage@),
{
    let mut rows: Vec<ImportRow> = Vec::new();
    let mut ri: usize = 0;
    let mut vi: usize = 0;
    let mut i: usize = 0;
    while i < charge.len()
        invariant
            i <= charge@.len(),
            (rows@, ri as int, vi as int) == plan_state(charge@.take(i as int), rate@, voltage@),
        decreases charge@.len() - i,
    {
        let c = &charge[i];
        assert(charge@.take(i + 1).drop_last() =~= charge@.take(i as int));
        assert(charge@.take(i + 1).last() == charge@[i as int]);
        proof {
            reveal_strlit("unknown");
        }
        let cv = chars_of(c.state.as_str());
        assert(cv@.subrange(0, cv@.len() as int) =~= c.state@);
        let noise = chars_eq(&cv, 0, cv.len(), "unknown") || !c.positive;
        if !noise {
            let status = parse_state(c.state.as_str());
            advance(rate, &mut ri, c.ts);
            advance(voltage, &mut vi, c.ts);
            let rk = if ri < rate.len() && rate[ri] <= c.ts {
                Some(ri)
            } else {
                None
            };
            let vk = if vi < voltage.len() && voltage[vi] <= c.ts {
                Some(vi)
            } else {
                None
            };
            rows.push(ImportRow { charge: i, status, rate: rk, voltage: vk });
        }
        i += 1;
    }
    assert(charge@.take(charge@.len() as int) =~= charge@);
    rows
}

/// The join only pairs a charge record with rate/voltage records that are
/// not later than it, skips exactly the noise records, and keeps the charge
/// records' order.
pub proof fn lemma_import_uses_known_records(charge: Seq<ChargeRow>, rate: Seq<i64>, voltage: Seq<i64>)
    requires
        charge.len() <= usize::MAX,
        rate.len() <= usize::MAX,
        voltage.len() <= usize::MAX,
    ensures
        forall|k: int| 0 <= k < import_plan(charge, rate, voltage).len() ==> row_ok(
            charge,
            rate,
            voltage,
            #[trigger] import_plan(charge, rate, voltage)[k],
        ),
        forall|a: int, b: int|
            0 <= a < b < import_plan(charge, rate, voltage).len() ==> (#[trigger] import_plan(
                charge,
                rate,
                voltage,
            )[a]).charge < (#[trigger] import_plan(charge, rate, voltage)[b]).charge,
        forall|k: int| 0 <= k < import_plan(charge, rate, voltage).len() ==> (#[trigger] import_plan(charge, rate, voltage)[k]).charge < charge.len(),
        import_plan(charge, rate, voltage).len() == count_kept(charge),
    decreases charge.len(),
{
    if charge.len() > 0 {
        let prev = charge.drop_last();
        lemma_import_uses_known_records(prev, rate, voltage);
        lemma_plan_cursors(prev, rate, voltage);
        let (rows, ri, vi) = plan_state(prev, rate, voltage);
        let rows2 = import_plan(charge, rate, voltage);
        let r = charge.last();
        assert forall|k: int| 0 <= k < rows.len() implies row_ok(charge, rate, voltage, #[trigger] rows[k]) by {
            assert(row_ok(prev, rate, voltage, rows[k]));
            assert(rows[k].charge < prev.len());
            assert(charge[rows[k].charge as int] == prev[rows[k].charge as int]);
        }
        if !is_noise(r) {
            lemma_advanced(rate, ri, r.ts);
            lemma_advanced(voltage, vi, r.ts);
            let row = rows2.last();
            assert(rows2 == rows.push(row));
            assert(charge[row.charge as int] == r);
            assert(row_ok(charge, rate, voltage, row));
            assert forall|k: int| 0 <= k < rows2.len() implies row_ok(charge, rate, voltage, #[trigger] rows2[k]) by {
                if k < rows.len() {
                    assert(rows2[k] == rows[k]);
                }
            }
            assert forall|a: int, b: int| 0 <= a < b < rows2.len() implies (#[trigger] rows2[a]).charge < (#[trigger] rows2[b]).charge by {
                assert(rows2[a] == rows[a]);
                if b < rows.len() {
                    assert(rows2[b] == rows[b]);
                }
            }
            assert forall|k: int| 0 <= k < rows2.len() implies (#[trigger] rows2[k]).charge < charge.len() by {
                if k < rows.len() {
                    assert(rows2[k] == rows[k]);
                }
            }
        }
    }
}

/// Some row of `plan` comes from charge record `k`.
pub open spec fn has_row(plan: Seq<ImportRow>, k: int) -> bool {
    exists|j: int| 0 <= j < plan.len() && (#[trigger] plan[j]).charge == k
}

proof fn lemma_rows_exactly_kept(charge: Seq<ChargeRow>, rate: Seq<i64>, voltage: Seq<i64>)
    requires
        charge.len() <= usize::MAX,
        rate.len() <= usize::MAX,
        voltage.len() <= usize::MAX,
    ensures
        forall|k: int| 0 <= k < charge.len() ==> (has_row(import_plan(charge, rate, voltage), k) <==> !is_noise(
            #[trigger] charge[k],
        )),
    decreases charge.len(),
{
    if charge.len() > 0 {
        let prev = charge.drop_last();
        lemma_rows_exactly_kept(prev, rate, voltage);
        lemma_import_uses_known_records(prev, rate, voltage);
        let (rows, ri, vi) = plan_state(prev, rate, voltage);
        let rows2 = import_plan(charge, rate, voltage);
        let n = charge.len() - 1;
        assert(charge[n] == charge.last());
        if is_noise(charge.last()) {
            assert(rows2 == rows);
            assert forall|k: int| 0 <= k < charge.len() implies (has_row(rows2, k) <==> !is_noise(
                #[trigger] charge[k],
            )) by {
                if k < n {
                    assert(charge[k] == prev[k]);
                } else {
                    if has_row(rows2, k) {
                        let j = choose|j: int| 0 <= j < rows2.len() && (#[trigger] rows2[j]).charge == k;
                        assert(rows[j].charge < prev.len());
                    }
                }
            }
        } else {
            let row = rows2.last();
            assert(rows2 == rows.push(row));
            assert(row.charge == n);
            assert forall|k: int| 0 <= k < charge.len() implies (has_row(rows2, k) <==> !is_noise(
                #[trigger] charge[k],
            )) by {
                if k < n {
                    assert(charge[k] == prev[k]);
                    if has_row(rows, k) {
                        let j = choose|j: int| 0 <= j < rows.len() && (#[trigger] rows[j]).charge == k;
                        assert(rows2[j] == rows[j]);
                    }
                    if has_row(rows2, k) {
                        let j = choose|j: int| 0 <= j < rows2.len() && (#[trigger] rows2[j]).charge == k;
                        if j < rows.len() {
                            assert(rows2[j] == rows[j]);
                        }
                    }
                } else {
                    assert(rows2[rows.len() as int].charge == k);
                }
            }
        }
    }
}

/// The import keeps exactly the charge records whose state is not
/// `unknown` and whose charge is above zero, one row each, and each row's
/// state follows UPower's label: `charging` is charging, `discharging` is
/// discharging, `pending-charge` and `fully-charged` are full. In
/// particular every positive `charging` record is imported as charging.
pub proof fn lemma_import_keeps_all_but_noise(charge: Seq<ChargeRow>, rate: Seq<i64>, voltage: Seq<i64>)
    requires
        charge.len() <= usize::MAX,
        rate.len() <= usize::MAX,
        voltage.len() <= usize::MAX,
    ensures
        forall|k: int| 0 <= k < charge.len() ==> (has_row(import_plan(charge, rate, voltage), k) <==> (
            (#[trigger] charge[k]).state@ != "unknown"@ && charge[k].positive)),
        forall|j: int| 0 <= j < import_plan(charge, rate, voltage).len() ==> {
            let row = #[trigger] import_plan(charge, rate, voltage)[j];
            let st = charge[row.charge as int].state@;
            &&& row.charge < charge.len()
            &&& (st == "charging"@ ==> row.status == Status::Charging)
            &&& (st == "discharging"@ ==> row.status == Status::Discharging)
            &&& (st == "pending-charge"@ ==> row.status == Status::Full)
            &&& (st == "fully-charged"@ ==> row.status == Status::Full)
        },
        forall|k: int| 0 <= k < charge.len() && (#[trigger] charge[k]).state@ == "charging"@ && charge[k].positive ==> exists|j: int|
            0 <= j < import_plan(charge, rate, voltage).len() && (#[trigger] import_plan(charge, rate, voltage)[j]).charge == k
                && import_plan(charge, rate, voltage)[j].status == Status::Charging,
{
    reveal_strlit("unknown");
    reveal_strlit("charging");
    reveal_strlit("discharging");
    reveal_strlit("pending-charge");
    reveal_strlit("fully-charged");
    lemma_rows_exactly_kept(charge, rate, voltage);
    lemma_import_uses_known_records(charge, rate, voltage);
    let plan = import_plan(charge, rate, voltage);
    assert forall|j: int| 0 <= j < plan.len() implies {
        let row = #[trigger] plan[j];
        let st = charge[row.charge as int].state@;
        &&& row.charge < charge.len()
        &&& (st == "charging"@ ==> row.status == Status::Charging)
        &&& (st == "discharging"@ ==> row.status == Status::Discharging)
        &&& (st == "pending-charge"@ ==> row.status == Status::Full)
        &&& (st == "fully-charged"@ ==> row.status == Status::Full)
    } by {
        assert(row_ok(charge, rate, voltage, plan[j]));
        let st = charge[plan[j].charge as int].state@;
        assert("discharging"@ != "charging"@) by {
            assert("discharging"@.len() != "charging"@.len());
        }
        assert("pending-charge"@ != "charging"@ && "pending-charge"@ != "discharging"@) by {
            assert("pending-charge"@.len() != "charging"@.len());
            assert("pending-charge"@.len() != "discharging"@.len());
        }
        assert("fully-charged"@ != "charging"@ && "fully-charged"@ != "discharging"@) by {
            assert("fully-charged"@.len() != "charging"@.len());
            assert("fully-charged"@[0] != "discharging"@[0]);
        }
    }
    assert forall|k: int| 0 <= k < charge.len() && (#[trigger] charge[k]).state@ == "charging"@ && charge[k].positive implies exists|j: int|
        0 <= j < plan.len() && (#[trigger] plan[j]).charge == k && plan[j].status == Status::Charging by {
        assert("charging"@ != "unknown"@) by {
            assert("charging"@.len() != "unknown"@.len());
        }
        assert(has_row(plan, k));
        let j = choose|j: int| 0 <= j < plan.len() && (#[trigger] plan[j]).charge == k;
        assert(row_ok(charge, rate, voltage, plan[j]));
    }
}

/// A planned row names a kept charge record, its state, and rate/voltage
/// records not later than it.
pub open spec fn row_ok(charge: Seq<ChargeRow>, rate: Seq<i64>, voltage: Seq<i64>, row: ImportRow) -> bool {
    &&& row.charge < charge.len()
    &&& !is_noise(charge[row.charge as int])
    &&& row.status == upower_state(charge[row.charge as int].state@)
    &&& (row.rate matches Some(j) ==> j < rate.len() && rate[j as int] <= charge[row.charge as int].ts)
    &&& (row.voltage matches Some(j) ==> j < voltage.len() && voltage[j as int] <= charge[row.charge as int].ts)
}

/// Number of charge records that are not noise.
pub open spec fn count_kept(charge: Seq<ChargeRow>) -> nat
    decreases charge.len(),
{
    if charge.len() == 0 {
        0
    } else {
        count_kept(charge.drop_last()) + if is_noise(charge.last()) {
            0nat
        } else {
            1nat
        }
    }
}

/// Timestamps in ascending order.
pub open spec fn ts_sorted(s: Seq<i64>) -> bool {
    forall|i: int, j: int| 0 <= i <= j < s.len() ==> s[i] <= s[j]
}

/// The kept (non-noise) charge records are in chronological order.
pub open spec fn kept_in_order(charge: Seq<ChargeRow>) -> bool {
    forall|a: int, b: int|
        0 <= a < b < charge.len() && !is_noise(#[trigger] charge[a]) && !is_noise(#[trigger] charge[b]) ==> charge[a].ts
            <= charge[b].ts
}

/// `pick` is the last record of `ts` not later than `t`, or `None` when
/// every record is later than `t`.
pub open spec fn last_known(ts: Seq<i64>, pick: Option<usize>, t: i64) -> bool {
    match pick {
        Some(j) => j < ts.len() && ts[j as int] <= t && forall|k: int| j < k < ts.len() ==> ts[k] > t,
        None => forall|k: int| 0 <= k < ts.len() ==> ts[k] > t,
    }
}

/// A cursor of the join is at the start, or at a record not later than
/// some kept charge record already read.
pub open spec fn cursor_known(ts: Seq<i64>, c: int, charge: Seq<ChargeRow>) -> bool {
    c == 0 || (0 <= c < ts.len() && exists|m: int|
        0 <= m < charge.len() && !is_noise(#[trigger] charge[m]) && ts[c] <= charge[m].ts)
}

proof fn lemma_cursors_known(charge: Seq<ChargeRow>, rate: Seq<i64>, voltage: Seq<i64>)
    requires
        kept_in_order(charge),
    ensures
        cursor_known(rate, plan_state(charge, rate, voltage).1, charge),
        cursor_known(voltage, plan_state(charge, rate, voltage).2, charge),
    decreases charge.len(),
{
    if charge.len() > 0 {
        let prev = charge.drop_last();
        assert(kept_in_order(prev)) by {
            assert forall|a: int, b: int|
                0 <= a < b < prev.len() && !is_noise(#[trigger] prev[a]) && !is_noise(#[trigger] prev[b]) implies prev[a].ts
                <= prev[b].ts by {
                assert(prev[a] == charge[a] && prev[b] == charge[b]);
            }
        }
        lemma_cursors_known(prev, rate, voltage);
        let (rows, ri, vi) = plan_state(prev, rate, voltage);
        let r = charge.last();
        let n = charge.len() - 1;
        assert(r == charge[n]);
        if is_noise(r) {
            lemma_cursor_known_extends(rate, ri, prev, charge);
            lemma_cursor_known_extends(voltage, vi, prev, charge);
        } else {
            lemma_cursor_step(rate, ri, prev, charge);
            lemma_cursor_step(voltage, vi, prev, charge);
        }
    }
}

proof fn lemma_cursor_known_extends(ts: Seq<i64>, c: int, prev: Seq<ChargeRow>, charge: Seq<ChargeRow>)
    requires
        charge.len() > 0,
        prev == charge.drop_last(),
        cursor_known(ts, c, prev),
    ensures
        cursor_known(ts, c, charge),
{
    if c != 0 {
        let m = choose|m: int| 0 <= m < prev.len() && !is_noise(#[trigger] prev[m]) && ts[c] <= prev[m].ts;
        assert(prev[m] == charge[m]);
    }
}

/// The cursor after advancing to a kept record is still known.
proof fn lemma_cursor_step(ts: Seq<i64>, c: int, prev: Seq<ChargeRow>, charge: Seq<ChargeRow>)
    requires
        charge.len() > 0,
        prev == charge.drop_last(),
        !is_noise(charge.last()),
        kept_in_order(charge),
        cursor_known(ts, c, prev),
    ensures
        cursor_known(ts, advanced(ts, c, charge.last().ts), charge),
        c == 0 || ts[c] <= charge.last().ts,
{
    let n = charge.len() - 1;
    let t = charge.last().ts;
    assert(charge[n] == charge.last());
    if c != 0 {
        let m = choose|m: int| 0 <= m < prev.len() && !is_noise(#[trigger] prev[m]) && ts[c] <= prev[m].ts;
        assert(prev[m] == charge[m]);
        assert(charge[m].ts <= charge[n].ts);
    }
    lemma_advanced(ts, c, t);
    let c2 = advanced(ts, c, t);
    if c2 != 0 {
        if c2 == c {
            assert(ts[c2] <= charge[n].ts);
        } else {
            assert(ts[c2] <= t);
        }
    }
}

/// The join is "last known": for chronological charge records and sorted
/// rate and voltage records, each imported sample takes the last rate and
/// voltage record not later than it, and none when every record is later.
pub proof fn lemma_import_joins_last_known(charge: Seq<ChargeRow>, rate: Seq<i64>, voltage: Seq<i64>)
    requires
        kept_in_order(charge),
        ts_sorted(rate),
        ts_sorted(voltage),
        charge.len() <= usize::MAX,
        rate.len() <= usize::MAX,
        voltage.len() <= usize::MAX,
    ensures
        forall|k: int| 0 <= k < import_plan(charge, rate, voltage).len() ==> {
            let row = #[trigger] import_plan(charge, rate, voltage)[k];
            &&& last_known(rate, row.rate, charge[row.charge as int].ts)
            &&& last_known(voltage, row.voltage, charge[row.charge as int].ts)
        },
    decreases charge.len(),
{
    lemma_import_uses_known_records(charge, rate, voltage);
    if charge.len() > 0 {
        let prev = charge.drop_last();
        assert(kept_in_order(prev)) by {
            assert forall|a: int, b: int|
                0 <= a < b < prev.len() && !is_noise(#[trigger] prev[a]) && !is_noise(#[trigger] prev[b]) implies prev[a].ts
                <= prev[b].ts by {
                assert(prev[a] == charge[a] && prev[b] == charge[b]);
            }
        }
        lemma_import_joins_last_known(prev, rate, voltage);
        lemma_import_uses_known_records(prev, rate, voltage);
        lemma_plan_cursors(prev, rate, voltage);
        lemma_cursors_known(prev, rate, voltage);
        let (rows, ri, vi) = plan_state(prev, rate, voltage);
        let rows2 = import_plan(charge, rate, voltage);
        let r = charge.last();
        assert forall|k: int| 0 <= k < rows.len() implies {
            let row = #[trigger] rows[k];
            &&& last_known(rate, row.rate, charge[row.charge as int].ts)
            &&& last_known(voltage, row.voltage, charge[row.charge as int].ts)
        } by {
            assert(rows[k].charge < prev.len());
            assert(charge[rows[k].charge as int] == prev[rows[k].charge as int]);
        }
        if !is_noise(r) {
            lemma_cursor_step(rate, ri, prev, charge);
            lemma_cursor_step(voltage, vi, prev, charge);
            lemma_pick_last_known(rate, ri, r.ts);
            lemma_pick_last_known(voltage, vi, r.ts);
            let row = rows2.last();
            assert(rows2 == rows.push(row));
            assert(charge[row.charge as int] == r);
            assert forall|k: int| 0 <= k < rows2.len() implies {
                let row = #[trigger] rows2[k];
                &&& last_known(rate, row.rate, charge[row.charge as int].ts)
                &&& last_known(voltage, row.voltage, charge[row.charge as int].ts)
            } by {
                if k < rows.len() {
                    assert(rows2[k] == rows[k]);
                }
            }
        }
    }
}

/// Advancing a cursor that is at the start or at a record not later than
/// `t` picks the last record not later than `t`.
proof fn lemma_pick_last_known(ts: Seq<i64>, c: int, t: i64)
    requires
        ts_sorted(ts),
        c >= 0,
        c == 0 || (c < ts.len() && ts[c] <= t),
        ts.len() <= usize::MAX,
    ensures
        last_known(ts, opt_index(known_at(ts, advanced(ts, c, t), t)), t),
{
    lemma_advanced(ts, c, t);
    let c2 = advanced(ts, c, t);
    match known_at(ts, c2, t) {
        Some(j) => {
            assert(j == c2);
            assert forall|k: int| j < k < ts.len() implies ts[k] > t by {
                assert(ts[c2 + 1] > t);
                assert(ts[c2 + 1] <= ts[k]);
            }
        },
        None => {
            if ts.len() > 0 {
                if c2 != 0 {
                    // c2 is c (a record not later than t) or was reached by steps not later than t.
                    assert(c2 < ts.len());
                    assert(ts[c2] <= t);
                }
                assert(ts[0] > t);
                assert forall|k: int| 0 <= k < ts.len() implies ts[k] > t by {
                    assert(ts[0] <= ts[k]);
                }
            }
        },
    }
}

// ---------------------------------------------------------------------------
// Reading the files
// ---------------------------------------------------------------------------

/// The lines of `s` that follow a partial line `cur`, as `str::lines`
/// yields them: split at `\n`, one trailing `\r` removed from a line that a
/// `\n` ends, no empty line after a final `\n`.
pub open spec fn lines_after(s: Seq<char>, cur: Seq<char>) -> Seq<Seq<char>>
    decreases s.len(),
{
    if s.len() == 0 {
        if cur.len() > 0 {
            seq![cur]
        } else {
            Seq::empty()
        }
    } else if s[0] == '\n' {
        let line = if cur.len() > 0 && cur.last() == '\r' {
            cur.drop_last()
        } else {
            cur
        };
        seq![line] + lines_after(s.drop_first(), Seq::empty())
    } else {
        lines_after(s.drop_first(), cur.push(s[0]))
    }
}

pub open spec fn lines(s: Seq<char>) -> Seq<Seq<char>> {
    lines_after(s, Seq::empty())
}

/// A parsed `.dat` line: timestamp, value text (a floating-point number)
/// and state, each trimmed.
pub struct DatLine {
    pub ts: i64,
    pub value: String,
    pub state: String,
}

/// The first three tab-separated fields of `l`, each trimmed, as
/// `(ts, value, state)`, when `l` has at least two tabs, the first field is
/// an `i64` and the second a floating-point number (as `f64::from_str`
/// reads it).
pub open spec fn dat_fields(l: Seq<char>) -> Option<(int, Seq<char>, Seq<char>)> {
    let t1 = find_from(l, '\t', 0);
    let t2 = find_from(l, '\t', t1 + 1);
    let t3 = find_from(l, '\t', t2 + 1);
    if t1 < 0 || t2 < 0 {
        None
    } else {
        let end = if t3 < 0 {
            l.len() as int
        } else {
            t3
        };
        let value = trim(l.subrange(t1 + 1, t2));
        match parse_i64(trim(l.subrange(0, t1))) {
            Some(ts) => if is_float_text(value) {
                Some((ts, value, trim(l.subrange(t2 + 1, end))))
            } else {
                None
            },
            None => None,
        }
    }
}

pub open spec fn dat_line_ok(l: Seq<char>, d: DatLine) -> bool {
    dat_fields(l) == Some((d.ts as int, d.value@, d.state@))
}

/// The parsed lines of a `.dat` file: every line with at least three
/// tab-separated fields whose first is an `i64` and whose second is a
/// floating-point number, in order.
pub open spec fn dat_rows(ls: Seq<Seq<char>>) -> Seq<(int, Seq<char>, Seq<char>)>
    decreases ls.len(),
{
    if ls.len() == 0 {
        Seq::empty()
    } else {
        let rest = dat_rows(ls.drop_last());
        match dat_fields(ls.last()) {
            Some(f) => rest.push(f),
            None => rest,
        }
    }
}

pub open spec fn dat_views(v: Seq<DatLine>) -> Seq<(int, Seq<char>, Seq<char>)> {
    v.map_values(|d: DatLine| (d.ts as int, d.value@, d.state@))
}

/// Fields of one line `v[from..to]`.
fn dat_line_in(v: &Vec<char>, from: usize, to: usize) -> (r: Option<DatLine>)
    requires
        from <= to <= v@.len(),
    ensures
        match r {
            Some(d) => dat_line_ok(v@.subrange(from as int, to as int), d),
            None => dat_fields(v@.subrange(from as int, to as int)) is None,
        },
{
    let ghost l = v@.subrange(from as int, to as int);
    let t1 = match find_tab(v, from, to) {
        Some(t) => t,
        None => return None,
    };
    let t2 = match find_tab(v, t1 + 1, to) {
        Some(t) => t,
        None => {
            proof {
                lemma_find_from_range(l, '\t', 0);
            }
            return None;
        },
    };
    let end = match find_tab(v, t2 + 1, to) {
        Some(t) => t,
        None => to,
    };
    proof {
        lemma_find_from_range(l, '\t', 0);
        lemma_find_from_range(l, '\t', (t1 - from) + 1);
        lemma_find_from_range(l, '\t', (t2 - from) + 1);
    }
    let (a, b) = trim_bounds(v, from, t1);
    assert(v@.subrange(from as int, t1 as int) =~= l.subrange(0, t1 - from));
    let ts = match parse_i64_in(v, a, b) {
        Some(x) => x,
        None => return None,
    };
    let (c, d) = trim_bounds(v, t1 + 1, t2);
    assert(v@.subrange(t1 + 1, t2 as int) =~= l.subrange(t1 - from + 1, t2 - from));
    if !float_text_in(v, c, d) {
        return None;
    }
    let (e, f) = trim_bounds(v, t2 + 1, end);
    assert(v@.subrange(t2 + 1, end as int) =~= l.subrange(t2 - from + 1, end - from));
    let value = string_from_chars(v, c, d);
    let state = string_from_chars(v, e, f);
    Some(DatLine { ts, value, state })
}

/// The first tab in `v[from..to]`, as `find_from` on that line finds it.
fn find_tab(v: &Vec<char>, from: usize, to: usize) -> (r: Option<usize>)
    requires
        from <= to <= v@.len(),
    ensures
        forall|base: int| 0 <= base <= from ==> match r {
            Some(t) => from <= t < to && find_from(v@.subrange(base, to as int), '\t', from - base) == t - base,
            None => find_from(v@.subrange(base, to as int), '\t', from - base) == -1,
        },
{
    let mut i = from;
    while i < to
        invariant
            from <= i <= to <= v@.len(),
            forall|base: int| 0 <= base <= from ==> find_from(v@.subrange(base, to as int), '\t', from - base)
                == find_from(v@.subrange(base, to as int), '\t', i - base),
        decreases to - i,
    {
        if v[i] == '\t' {
            return Some(i);
        }
        i += 1;
    }
    None
}

/// Parse the text of a `.dat` file: `ts \t value \t state` lines;
/// malformed lines are skipped.
pub fn parse_dat_text(content: &str) -> (r: Vec<DatLine>)
    ensures
        dat_views(r@) == dat_rows(lines(content@)),
{
    let v = chars_of(content);
    let mut out: Vec<DatLine> = Vec::new();
    let mut start: usize = 0;
    let mut i: usize = 0;
    let ghost mut done: Seq<Seq<char>> = Seq::empty();
    assert(v@.subrange(0, v@.len() as int) =~= content@);
    assert(v@.subrange(0, 0) =~= Seq::<char>::empty());
    assert(done + lines(content@) =~= lines(content@));
    while i < v.len()
        invariant
            start <= i <= v@.len(),
            v@ == content@,
            done + lines_after(v@.subrange(i as int, v@.len() as int), v@.subrange(start as int, i as int))
                == lines(content@),
            dat_views(out@) == dat_rows(done),
        decreases v@.len() - i,
    {
        let ghost rest = v@.subrange(i as int, v@.len() as int);
        assert(rest.drop_first() =~= v@.subrange(i + 1, v@.len() as int));
        if v[i] == '\n' {
            let mut end = i;
            if end > start && v[end - 1] == '\r' {
                end = end - 1;
            }
            let ghost cur = v@.subrange(start as int, i as int);
            let ghost line = v@.subrange(start as int, end as int);
            assert(line == (if cur.len() > 0 && cur.last() == '\r' { cur.drop_last() } else { cur }));
            let ghost before = out@;
            match dat_line_in(&v, start, end) {
                Some(d) => {
                    out.push(d);
                    assert(dat_views(out@) =~= dat_views(before).push((d.ts as int, d.value@, d.state@)));
                },
                None => {},
            }
            proof {
                assert(done.push(line).drop_last() =~= done);
                assert(done + (seq![line] + lines_after(rest.drop_first(), Seq::empty())) =~= done.push(line)
                    + lines_after(rest.drop_first(), Seq::empty()));
                done = done.push(line);
            }
            assert(v@.subrange(i + 1, i + 1) =~= Seq::<char>::empty());
            start = i + 1;
        } else {
            assert(v@.subrange(start as int, i + 1) =~= v@.subrange(start as int, i as int).push(v@[i as int]));
        }
        i += 1;
    }
    assert(v@.subrange(i as int, v@.len() as int) =~= Seq::<char>::empty());
    if start < i {
        let ghost line = v@.subrange(start as int, i as int);
        let ghost before = out@;
        match dat_line_in(&v, start, i) {
            Some(d) => {
                out.push(d);
                assert(dat_views(out@) =~= dat_views(before).push((d.ts as int, d.value@, d.state@)));
            },
            None => {},
        }
        assert(done.push(line).drop_last() =~= done);
        assert(done + seq![line] =~= done.push(line));
        assert(dat_views(out@) == dat_rows(done.push(line)));
    } else {
        assert(done + Seq::<Seq<char>>::empty() =~= done);
    }
    out
}

/// `s` (sorted by time) with `x` placed after every line not later.
pub open spec fn insert_by_time(s: Seq<DatLine>, x: DatLine) -> Seq<DatLine>
    decreases s.len(),
{
    if s.len() == 0 {
        seq![x]
    } else if s.last().ts <= x.ts {
        s.push(x)
    } else {
        insert_by_time(s.drop_last(), x).push(s.last())
    }
}

/// Stable sort by timestamp: lines with equal timestamps keep their order.
pub open spec fn sorted_by_time(s: Seq<DatLine>) -> Seq<DatLine>
    decreases s.len(),
{
    if s.len() == 0 {
        Seq::empty()
    } else {
        insert_by_time(sorted_by_time(s.drop_last()), s.last())
    }
}

pub open spec fn time_ascending(s: Seq<DatLine>) -> bool {
    forall|i: int, j: int| 0 <= i < j < s.len() ==> s[i].ts <= s[j].ts
}

proof fn lemma_insert_by_time_at(s: Seq<DatLine>, x: DatLine, j: int)
    requires
        0 <= j <= s.len(),
        forall|k: int| 0 <= k < j ==> s[k].ts <= x.ts,
        forall|k: int| j <= k < s.len() ==> s[k].ts > x.ts,
    ensures
        insert_by_time(s, x) == s.insert(j, x),
    decreases s.len(),
{
    if s.len() == 0 {
        assert(s.insert(j, x) =~= seq![x]);
    } else if s.last().ts <= x.ts {
        assert(j == s.len());
        assert(s.insert(j, x) =~= s.push(x));
    } else {
        let t = s.drop_last();
        lemma_insert_by_time_at(t, x, j);
        assert(t.insert(j, x).push(s.last()) =~= s.insert(j, x));
    }
}

proof fn lemma_insert_by_time_sorted(s: Seq<DatLine>, x: DatLine)
    requires
        time_ascending(s),
    ensures
        time_ascending(insert_by_time(s, x)),
        insert_by_time(s, x).len() == s.len() + 1,
        insert_by_time(s, x).to_multiset() == s.to_multiset().insert(x),
    decreases s.len(),
{
    broadcast use vstd::seq_lib::group_to_multiset_ensures;
    if s.len() == 0 {
        assert(seq![x] =~= Seq::<DatLine>::empty().push(x));
    } else if s.last().ts <= x.ts {
    } else {
        let t = s.drop_last();
        lemma_insert_by_time_sorted(t, x);
        let u = insert_by_time(t, x);
        assert forall|i: int, j: int| 0 <= i < j < u.push(s.last()).len() implies u.push(s.last())[i].ts
            <= u.push(s.last())[j].ts by {
            if j == u.len() {
                let w = u[i];
                assert(u.to_multiset().count(w) > 0);
                assert(t.to_multiset().insert(x).count(w) > 0);
                if w != x {
                    assert(t.to_multiset().count(w) > 0);
                    let k = choose|k: int| 0 <= k < t.len() && t[k] == w;
                    assert(t[k] == s[k]);
                }
            }
        }
        assert(s =~= t.push(s.last()));
    }
}

/// The time sort is a sorted permutation of its input.
pub proof fn lemma_sorted_by_time(s: Seq<DatLine>)
    ensures
        time_ascending(sorted_by_time(s)),
        sorted_by_time(s).to_multiset() == s.to_multiset(),
        sorted_by_time(s).len() == s.len(),
    decreases s.len(),
{
    broadcast use vstd::seq_lib::group_to_multiset_ensures;
    if s.len() == 0 {
        assert(sorted_by_time(s).to_multiset() =~= s.to_multiset());
    } else {
        lemma_sorted_by_time(s.drop_last());
        lemma_insert_by_time_sorted(sorted_by_time(s.drop_last()), s.last());
        assert(s =~= s.drop_last().push(s.last()));
    }
}

/// Sort `.dat` lines by timestamp (stable; usually already sorted, which
/// takes one comparison per line).
pub fn sort_by_time(v: Vec<DatLine>) -> (r: Vec<DatLine>)
    ensures
        r@ == sorted_by_time(v@),
{
    let mut v = v;
    let ghost orig = v@;
    let mut out: Vec<DatLine> = Vec::new();
    let mut i: usize = 0;
    let n = v.len();
    // Take the lines from the back so each is moved, not copied.
    let mut rev: Vec<DatLine> = Vec::new();
    while v.len() > 0
        invariant
            v@.len() + rev@.len() == n,
            n == orig.len(),
            forall|k: int| 0 <= k < v@.len() ==> v@[k] == orig[k],
            forall|k: int| 0 <= k < rev@.len() ==> rev@[k] == orig[n - 1 - k],
        decreases v@.len(),
    {
        let x = v.pop().unwrap();
        rev.push(x);
    }
    while i < n
        invariant
            i <= n,
            n == orig.len(),
            rev@.len() == n - i,
            forall|k: int| 0 <= k < rev@.len() ==> rev@[k] == orig[n - 1 - k],
            out@ == sorted_by_time(orig.take(i as int)),
        decreases n - i,
    {
        let x = rev.pop().unwrap();
        assert(x == orig[i as int]);
        assert(orig.take(i + 1).drop_last() =~= orig.take(i as int));
        let ghost sorted = out@;
        proof {
            lemma_sorted_by_time(orig.take(i as int));
        }
        let mut j: usize = out.len();
        while j > 0 && out[j - 1].ts > x.ts
            invariant
                j <= out@.len(),
                out@ == sorted,
                time_ascending(sorted),
                forall|k: int| j <= k < sorted.len() ==> sorted[k].ts > x.ts,
            decreases j,
        {
            j -= 1;
        }
        proof {
            assert forall|k: int| 0 <= k < j implies sorted[k].ts <= x.ts by {
                if j > 0 {
                    assert(sorted[j - 1].ts <= x.ts);
                }
            }
            lemma_insert_by_time_at(sorted, x, j as int);
        }
        out.insert(j, x);
        i += 1;
    }
    assert(orig.take(n as int) =~= orig);
    out
}

// ---------------------------------------------------------------------------
// Choosing the battery's files
// ---------------------------------------------------------------------------

/// A file of the history directory: its name and size in bytes.
pub struct HistoryFile {
    pub name: String,
    pub size: u64,
}

/// The battery suffix of a `history-charge-<suffix>.dat` name.
pub open spec fn charge_suffix(name: Seq<char>) -> Option<Seq<char>> {
    if name.len() >= 19 && name.take(15) == "history-charge-"@ && name.skip(name.len() - 4) == ".dat"@ {
        Some(name.subrange(15, name.len() - 4))
    } else {
        None
    }
}

/// The charge files of a directory listing, in order: `(size, suffix)`.
pub open spec fn charge_candidates(files: Seq<HistoryFile>) -> Seq<(u64, Seq<char>)>
    decreases files.len(),
{
    if files.len() == 0 {
        Seq::empty()
    } else {
        let rest = charge_candidates(files.drop_last());
        match charge_suffix(files.last().name@) {
            Some(s) => rest.push((files.last().size, s)),
            None => rest,
        }
    }
}

/// The largest candidate; the last of equally large ones.
pub open spec fn largest(c: Seq<(u64, Seq<char>)>) -> Option<Seq<char>>
    decreases c.len(),
{
    if c.len() == 0 {
        None
    } else {
        let best = largest_size(c.drop_last());
        if c.drop_last().len() == 0 || c.last().0 >= best {
            Some(c.last().1)
        } else {
            largest(c.drop_last())
        }
    }
}

/// Size of the largest candidate (0 when there is none).
pub open spec fn largest_size(c: Seq<(u64, Seq<char>)>) -> int
    decreases c.len(),
{
    if c.len() == 0 {
        0
    } else if c.drop_last().len() == 0 || c.last().0 >= largest_size(c.drop_last()) {
        c.last().0 as int
    } else {
        largest_size(c.drop_last())
    }
}

proof fn lemma_largest_index(c: Seq<(u64, Seq<char>)>) -> (i: int)
    requires
        c.len() > 0,
    ensures
        0 <= i < c.len(),
        largest(c) == Some(c[i].1),
        largest_size(c) == c[i].0,
        forall|j: int| 0 <= j < c.len() ==> c[j].0 <= c[i].0,
        forall|j: int| i < j < c.len() ==> c[j].0 < c[i].0,
    decreases c.len(),
{
    let p = c.drop_last();
    if p.len() == 0 {
        0
    } else {
        let k = lemma_largest_index(p);
        if c.last().0 >= largest_size(p) {
            let n = c.len() - 1;
            assert forall|j: int| 0 <= j < c.len() implies (#[trigger] c[j]).0 <= c[n].0 by {
                if j < p.len() {
                    assert(c[j] == p[j]);
                }
            }
            n
        } else {
            assert forall|j: int| 0 <= j < c.len() implies (#[trigger] c[j]).0 <= c[k].0 by {
                if j < p.len() {
                    assert(c[j] == p[j]);
                }
            }
            assert forall|j: int| k < j < c.len() implies (#[trigger] c[j]).0 < c[k].0 by {
                if j < p.len() {
                    assert(c[j] == p[j]);
                }
            }
            assert(c[k] == p[k]);
            k
        }
    }
}

/// Without a matching model the choice is the largest charge file, the
/// last of equally large ones; there is a choice exactly when there is a
/// charge file.
pub proof fn lemma_pick_largest(files: Seq<HistoryFile>)
    ensures
        largest(charge_candidates(files)) is Some <==> charge_candidates(files).len() > 0,
        charge_candidates(files).len() > 0 ==> exists|i: int|
            0 <= i < charge_candidates(files).len() && largest(charge_candidates(files)) == Some(
                #[trigger] charge_candidates(files)[i].1,
            ) && (forall|j: int|
                0 <= j < charge_candidates(files).len() ==> charge_candidates(files)[j].0 <= charge_candidates(
                    files,
                )[i].0) && (forall|j: int|
                i < j < charge_candidates(files).len() ==> charge_candidates(files)[j].0 < charge_candidates(
                    files,
                )[i].0),
{
    let c = charge_candidates(files);
    if c.len() > 0 {
        let i = lemma_largest_index(c);
        assert(largest(c) == Some(c[i].1));
    }
}

/// The first candidate whose suffix contains `model`.
pub open spec fn first_matching(c: Seq<(u64, Seq<char>)>, model: Seq<char>) -> Option<Seq<char>>
    decreases c.len(),
{
    if c.len() == 0 {
        None
    } else if contains_seq(c[0].1, model) {
        Some(c[0].1)
    } else {
        first_matching(c.drop_first(), model)
    }
}

/// `pick_suffix`'s choice: the first charge file whose suffix contains the
/// model, if a model is given and one does; else the largest charge file.
pub open spec fn chosen_suffix(files: Seq<HistoryFile>, model: Option<Seq<char>>) -> Option<Seq<char>> {
    let c = charge_candidates(files);
    match model {
        Some(m) => match first_matching(c, m) {
            Some(s) => Some(s),
            None => largest(c),
        },
        None => largest(c),
    }
}

pub open spec fn model_view(model: Option<&str>) -> Option<Seq<char>> {
    match model {
        Some(m) => Some(m@),
        None => None,
    }
}

/// Whether `needle` occurs in `hay`.
pub fn contains_chars(hay: &Vec<char>, needle: &Vec<char>) -> (r: bool)
    ensures
        r == contains_seq(hay@, needle@),
{
    let hl = hay.len();
    let nl = needle.len();
    if nl == 0 {
        assert(hay@.subrange(0int, 0int + needle@.len()) =~= needle@);
        return true;
    }
    if nl > hl {
        return false;
    }
    let mut i: usize = 0;
    while i < hl - nl + 1
        invariant
            hl == hay@.len(),
            nl == needle@.len(),
            0 < nl <= hl,
            forall|k: int| 0 <= k < i ==> #[trigger] hay@.subrange(k, k + needle@.len()) != needle@,
        decreases hl - nl + 1 - i,
    {
        let mut j: usize = 0;
        let mut same = true;
        while j < nl
            invariant
                hl == hay@.len(),
                nl == needle@.len(),
                i + nl <= hl,
                j <= nl,
                same ==> forall|t: int| 0 <= t < j ==> hay@[i + t] == needle@[t],
                !same ==> hay@.subrange(i as int, i + needle@.len()) != needle@,
            decreases nl - j,
        {
            if hay[i + j] != needle[j] {
                assert(hay@.subrange(i as int, i + needle@.len())[j as int] != needle@[j as int]);
                same = false;
            }
            j += 1;
        }
        if same {
            assert(hay@.subrange(i as int, i + needle@.len()) =~= needle@);
            return true;
        }
        i += 1;
    }
    false
}

/// The battery suffix of a `history-charge-<suffix>.dat` name.
pub fn suffix_of(name: &str) -> (r: Option<String>)
    ensures
        match charge_suffix(name@) {
            Some(s) => r matches Some(t) && t@ == s,
            None => r is None,
        },
{
    let v = chars_of(name);
    let n = v.len();
    proof {
        reveal_strlit("history-charge-");
        reveal_strlit(".dat");
    }
    if n < 19 {
        return None;
    }
    assert(v@.subrange(0, 15) =~= v@.take(15));
    assert(v@.subrange(n - 4, n as int) =~= v@.skip(n - 4));
    if chars_eq(&v, 0, 15, "history-charge-") && chars_eq(&v, n - 4, n, ".dat") {
        Some(string_from_chars(&v, 15, n - 4))
    } else {
        None
    }
}

/// Pick the filename suffix (e.g. `L21M4PD0-56-1044`) of the battery's
/// history files among the files of the history directory.
///
/// If a model is given, the first charge file whose suffix contains it;
/// otherwise (or if none does) the largest charge file, since the primary
/// battery usually produces the most data. `None` when there is no charge
/// file.
pub fn pick_suffix(files: &Vec<HistoryFile>, model: Option<&str>) -> (r: Option<String>)
    ensures
        match chosen_suffix(files@, model_view(model)) {
            Some(s) => r matches Some(t) && t@ == s,
            None => r is None,
        },
{
    let mv: Option<Vec<char>> = match model {
        Some(m) => Some(chars_of(m)),
        None => None,
    };
    let ghost msp: Option<Seq<char>> = model_view(model);
    let mut best: Option<(u64, String)> = None;
    let mut i: usize = 0;
    let ghost mut seen: Seq<(u64, Seq<char>)> = Seq::empty();
    while i < files.len()
        invariant
            i <= files@.len(),
            seen == charge_candidates(files@.take(i as int)),
            msp == model_view(model),
            match mv {
                Some(m) => msp == Some(m@) && first_matching(seen, m@) is None,
                None => msp is None,
            },
            match best {
                Some((sz, s)) => seen.len() > 0 && largest(seen) == Some(s@) && largest_size(seen) == sz,
                None => seen.len() == 0,
            },
        decreases files@.len() - i,
    {
        let f = &files[i];
        assert(files@.take(i + 1).drop_last() =~= files@.take(i as int));
        assert(files@.take(i + 1).last() == files@[i as int]);
        match suffix_of(f.name.as_str()) {
            Some(sfx) => {
                let sv = chars_of(sfx.as_str());
                let ghost seen2 = seen.push((f.size, sfx@));
                assert(seen2.drop_last() =~= seen);
                assert(seen2 == charge_candidates(files@.take(i + 1)));
                match &mv {
                    Some(m) => {
                        if contains_chars(&sv, m) {
                            proof {
                                lemma_first_matching_push(seen, (f.size, sfx@), m@);
                                assert(first_matching(seen2, m@) == Some(sfx@));
                                lemma_first_matching_prefix(seen2, charge_candidates(files@), m@, files@, i as int + 1);
                                assert(first_matching(charge_candidates(files@), m@) == Some(sfx@));
                                assert(msp == Some(m@));
                                assert(chosen_suffix(files@, msp) == Some(sfx@));
                            }
                            return Some(sfx);
                        }
                        proof {
                            lemma_first_matching_push(seen, (f.size, sfx@), m@);
                        }
                    },
                    None => {},
                }
                let replace = match &best {
                    None => true,
                    Some((sz, _)) => f.size >= *sz,
                };
                if replace {
                    best = Some((f.size, sfx));
                }
                proof {
                    seen = seen2;
                }
            },
            None => {},
        }
        i += 1;
    }
    assert(files@.take(files@.len() as int) =~= files@);
    match best {
        Some((_, s)) => Some(s),
        None => None,
    }
}

proof fn lemma_first_matching_push(s: Seq<(u64, Seq<char>)>, x: (u64, Seq<char>), m: Seq<char>)
    requires
        first_matching(s, m) is None,
    ensures
        first_matching(s.push(x), m) == (if contains_seq(x.1, m) {
            Some(x.1)
        } else {
            None
        }),
    decreases s.len(),
{
    if s.len() == 0 {
        assert(s.push(x).drop_first() =~= Seq::<(u64, Seq<char>)>::empty());
    } else {
        assert(s.push(x).drop_first() =~= s.drop_first().push(x));
        lemma_first_matching_push(s.drop_first(), x, m);
    }
}

/// Candidates of a longer listing extend those of its prefix, so a match
/// among the prefix's candidates is the first match of the whole.
proof fn lemma_first_matching_prefix(
    pre: Seq<(u64, Seq<char>)>,
    all: Seq<(u64, Seq<char>)>,
    m: Seq<char>,
    files: Seq<HistoryFile>,
    n: int,
)
    requires
        0 <= n <= files.len(),
        pre == charge_candidates(files.take(n)),
        all == charge_candidates(files),
        first_matching(pre, m) is Some,
    ensures
        first_matching(all, m) == first_matching(pre, m),
    decreases files.len() - n,
{
    if n < files.len() {
        let t = files.take(n + 1);
        let pre2 = charge_candidates(t);
        assert(t.drop_last() =~= files.take(n));
        assert(pre2 == pre || (pre2.drop_last() == pre && pre2.len() == pre.len() + 1)) by {
            match charge_suffix(t.last().name@) {
                Some(x) => {
                    assert(pre2 == pre.push((t.last().size, x)));
                    assert(pre.push((t.last().size, x)).drop_last() =~= pre);
                },
                None => {},
            }
        }
        lemma_first_matching_extend(pre, m, pre2);
        lemma_first_matching_prefix(pre2, all, m, files, n + 1);
    } else {
        assert(files.take(n) =~= files);
    }
}

proof fn lemma_first_matching_extend(pre: Seq<(u64, Seq<char>)>, m: Seq<char>, ext: Seq<(u64, Seq<char>)>)
    requires
        first_matching(pre, m) is Some,
        ext == pre || (ext.drop_last() == pre && ext.len() == pre.len() + 1),
    ensures
        first_matching(ext, m) == first_matching(pre, m),
    decreases pre.len(),
{
    if ext != pre {
        assert(ext[0] == pre[0]);
        if !contains_seq(pre[0].1, m) {
            assert(ext.drop_first().drop_last() =~= pre.drop_first());
            lemma_first_matching_extend(pre.drop_first(), m, ext.drop_first());
        }
    }
}

} // verus!
