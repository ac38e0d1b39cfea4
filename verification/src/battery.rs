//! The battery model: charging state, static identity, and the decoding of
//! the integer-valued sysfs attributes under
//! `/sys/class/power_supply/<BAT*>/`.
//!
//! Files may be missing, so each decoder takes `None` for an unreadable file.

use vstd::prelude::*;
use std::path::PathBuf;

use crate::text::{chars_of, parse_u64_in, parse_uint, string_from_chars, trim, trim_bounds};

verus! {

/// `std::path::PathBuf`, carried through as an opaque value.
#[verifier::external_type_specification]
#[verifier::external_body]
pub struct ExPathBuf(PathBuf);

/// Charging state read from sysfs.
#[derive(Debug, Clone, Copy, PartialEq, Eq, Structural)]
pub enum Status {
    Charging,
    Discharging,
    Full,
    NotCharging,
    Unknown,
}

/// The text sysfs and the store use for each state.
pub open spec fn status_label(s: Status) -> Seq<char> {
    match s {
        Status::Charging => "Charging"@,
        Status::Discharging => "Discharging"@,
        Status::Full => "Full"@,
        Status::NotCharging => "Not charging"@,
        Status::Unknown => "Unknown"@,
    }
}

/// The state a label names; any other text is `Unknown`.
pub open spec fn status_named(s: Seq<char>) -> Status {
    if s == "Charging"@ {
        Status::Charging
    } else if s == "Discharging"@ {
        Status::Discharging
    } else if s == "Full"@ {
        Status::Full
    } else if s == "Not charging"@ {
        Status::NotCharging
    } else {
        Status::Unknown
    }
}

pub open spec fn status_glyph(s: Status) -> Seq<char> {
    match s {
        Status::Charging => "\u{26A1}"@,
        Status::Discharging => "\u{1F50B}"@,
        Status::Full => "\u{1F50C}"@,
        Status::NotCharging => "\u{23F8}"@,
        Status::Unknown => "\u{2753}"@,
    }
}

/// `a[from..to]` equals `b`.
pub fn chars_eq(a: &Vec<char>, from: usize, to: usize, b: &str) -> (r: bool)
    requires
        from <= to <= a@.len(),
    ensures
        r == (a@.subrange(from as int, to as int) == b@),
{
    let bv = chars_of(b);
    if to - from != bv.len() {
        return false;
    }
    let mut k: usize = 0;
    while k < bv.len()
        invariant
            to - from == bv@.len(),
            from <= to <= a@.len(),
            k <= bv@.len(),
            bv@ == b@,
            forall|j: int| 0 <= j < k ==> a@[from + j] == bv@[j],
        decreases bv@.len() - k,
    {
        if a[from + k] != bv[k] {
            assert(a@.subrange(from as int, to as int)[k as int] != b@[k as int]);
            return false;
        }
        k += 1;
    }
    assert(a@.subrange(from as int, to as int) =~= b@);
    true
}

/// The state named by `v[from..to]`.
pub fn status_of(v: &Vec<char>, from: usize, to: usize) -> (r: Status)
    requires
        from <= to <= v@.len(),
    ensures
        r == status_named(v@.subrange(from as int, to as int)),
{
    if chars_eq(v, from, to, "Charging") {
        Status::Charging
    } else if chars_eq(v, from, to, "Discharging") {
        Status::Discharging
    } else if chars_eq(v, from, to, "Full") {
        Status::Full
    } else if chars_eq(v, from, to, "Not charging") {
        Status::NotCharging
    } else {
        Status::Unknown
    }
}

impl Status {
    /// The state in a sysfs `status` file (surrounding whitespace ignored).
    pub fn from_str(s: &str) -> (r: Status)
        ensures
            r == status_named(trim(s@)),
    {
        let v = chars_of(s);
        let (a, b) = trim_bounds(&v, 0, v.len());
        assert(v@.subrange(0, v@.len() as int) =~= s@);
        status_of(&v, a, b)
    }

    /// Single-glyph badge (for header/badge display).
    pub fn glyph(self) -> (r: &'static str)
        ensures
            r@ == status_glyph(self),
    {
        match self {
            Status::Charging => "\u{26A1}",
            Status::Discharging => "\u{1F50B}",
            Status::Full => "\u{1F50C}",
            Status::NotCharging => "\u{23F8}",
            Status::Unknown => "\u{2753}",
        }
    }

    pub fn label(self) -> (r: &'static str)
        ensures
            r@ == status_label(self),
    {
        match self {
            Status::Charging => "Charging",
            Status::Discharging => "Discharging",
            Status::Full => "Full",
            Status::NotCharging => "Not charging",
            Status::Unknown => "Unknown",
        }
    }
}

/// Reading a state's label back gives the state.
pub proof fn lemma_status_label_roundtrip(s: Status)
    ensures
        status_named(status_label(s)) == s,
{
    reveal_strlit("Charging");
    reveal_strlit("Discharging");
    reveal_strlit("Full");
    reveal_strlit("Not charging");
    reveal_strlit("Unknown");
    let c = "Charging"@;
    let d = "Discharging"@;
    let f = "Full"@;
    let n = "Not charging"@;
    let u = "Unknown"@;
    assert(c.len() == 8 && d.len() == 11 && f.len() == 4 && n.len() == 12 && u.len() == 7);
    assert(d != c);
    assert(f != c && f != d);
    assert(n != c && n != d && n != f);
    assert(u != c && u != d && u != f && u != n);
}

/// A sysfs `status` file holding a state's label (with any surrounding
/// whitespace) reads back as that state.
pub proof fn lemma_status_file_roundtrip(s: Status)
    ensures
        status_named(trim(status_label(s))) == s,
{
    lemma_status_label_roundtrip(s);
    reveal_strlit("Charging");
    reveal_strlit("Discharging");
    reveal_strlit("Full");
    reveal_strlit("Not charging");
    reveal_strlit("Unknown");
    let l = status_label(s);
    assert(!crate::text::is_ws(l[0]));
    assert(!crate::text::is_ws(l.last()));
    assert(crate::text::trim_start(l) == l);
    assert(crate::text::trim_end(l) == l);
}

/// Static (unchanging) battery identity, read once at startup.
#[derive(Debug, Clone)]
pub struct BatteryInfo {
    pub name: String,
    pub manufacturer: Option<String>,
    pub model: Option<String>,
    pub technology: Option<String>,
}

/// A detected battery: its sysfs directory and identity.
pub struct Battery {
    pub dir: PathBuf,
    pub info: BatteryInfo,
}

// ---------------------------------------------------------------------------
// sysfs attribute decoding
// ---------------------------------------------------------------------------

/// The text of a sysfs file, or `None` when it could not be read.
pub open spec fn file_text(raw: Option<&str>) -> Option<Seq<char>> {
    match raw {
        Some(s) => Some(s@),
        None => None,
    }
}

/// An unsigned integer file: trimmed text parsed as `u64`.
pub open spec fn uint_file(raw: Option<Seq<char>>) -> Option<int> {
    match raw {
        Some(s) => parse_uint(trim(s), u64::MAX as int),
        None => None,
    }
}

/// The `capacity` file: its value capped at 100; an unreadable or
/// unparsable file reads as 1000 and so caps to 100.
pub open spec fn capacity_value(raw: Option<Seq<char>>) -> int {
    let v = match uint_file(raw) {
        Some(x) => x,
        None => 1000,
    };
    if v < 100 {
        v
    } else {
        100
    }
}

/// `u64::from_str` of the trimmed text of a file.
pub fn read_uint(raw: Option<&str>) -> (r: Option<u64>)
    ensures
        match r {
            Some(x) => uint_file(file_text(raw)) == Some(x as int),
            None => uint_file(file_text(raw)) is None,
        },
{
    match raw {
        None => None,
        Some(s) => {
            let v = chars_of(s);
            let (a, b) = trim_bounds(&v, 0, v.len());
            assert(v@.subrange(0, v@.len() as int) =~= s@);
            parse_u64_in(&v, a, b)
        },
    }
}

/// Battery charge in percent from the `capacity` file.
pub fn capacity_from_sysfs(raw: Option<&str>) -> (r: u8)
    ensures
        r as int == capacity_value(file_text(raw)),
        r <= 100,
{
    let v = match read_uint(raw) {
        Some(x) => x,
        None => 1000,
    };
    if v < 100 {
        v as u8
    } else {
        100
    }
}

/// The cycle count from the `cycle_count` file: the `u64` value truncated
/// to 32 bits, as an `as u32` cast does.
pub fn cycle_count_from_sysfs(raw: Option<&str>) -> (r: Option<u32>)
    ensures
        match uint_file(file_text(raw)) {
            Some(x) => r == Some((x as u64) as u32),
            None => r is None,
        },
{
    match read_uint(raw) {
        Some(x) => Some(x as u32),
        None => None,
    }
}

/// A text attribute: trimmed, and `None` when empty or unreadable.
pub fn text_attribute(raw: Option<&str>) -> (r: Option<String>)
    ensures
        match file_text(raw) {
            Some(s) => if trim(s).len() == 0 {
                r is None
            } else {
                r matches Some(t) && t@ == trim(s)
            },
            None => r is None,
        },
{
    match raw {
        None => None,
        Some(s) => {
            let v = chars_of(s);
            let (a, b) = trim_bounds(&v, 0, v.len());
            assert(v@.subrange(0, v@.len() as int) =~= s@);
            if a == b {
                None
            } else {
                Some(string_from_chars(&v, a, b))
            }
        },
    }
}

/// Whether a `type` file names a battery (`Battery`, whitespace ignored);
/// an unreadable file does not.
pub fn is_battery_type(raw: Option<&str>) -> (r: bool)
    ensures
        r == match file_text(raw) {
            Some(s) => trim(s) == "Battery"@,
            None => false,
        },
{
    match raw {
        None => false,
        Some(s) => {
            let v = chars_of(s);
            let (a, b) = trim_bounds(&v, 0, v.len());
            assert(v@.subrange(0, v@.len() as int) =~= s@);
            chars_eq(&v, a, b, "Battery")
        },
    }
}

} // verus!
