use wattea::battery::{
    capacity_from_sysfs, cycle_count_from_sysfs, is_battery_type, read_uint, text_attribute, Status,
};

#[test]
fn status_from_sysfs_text() {
    assert_eq!(Status::from_str("Charging\n"), Status::Charging);
    assert_eq!(Status::from_str("  Discharging "), Status::Discharging);
    assert_eq!(Status::from_str("Full"), Status::Full);
    assert_eq!(Status::from_str("Not charging\n"), Status::NotCharging);
    assert_eq!(Status::from_str("Not  charging"), Status::Unknown);
    assert_eq!(Status::from_str(""), Status::Unknown);
    for s in [Status::Charging, Status::Discharging, Status::Full, Status::NotCharging, Status::Unknown] {
        assert_eq!(Status::from_str(s.label()), s);
    }
}

#[test]
fn status_labels_and_glyphs() {
    assert_eq!(Status::NotCharging.label(), "Not charging");
    assert_eq!(Status::Unknown.label(), "Unknown");
    assert_eq!(Status::Charging.glyph(), "\u{26A1}");
    assert_eq!(Status::Discharging.glyph(), "\u{1F50B}");
    assert_eq!(Status::Full.glyph(), "\u{1F50C}");
    assert_eq!(Status::NotCharging.glyph(), "\u{23F8}");
    assert_eq!(Status::Unknown.glyph(), "\u{2753}");
}

#[test]
fn capacity_is_capped_and_defaults_to_full() {
    assert_eq!(capacity_from_sysfs(Some("57\n")), 57);
    assert_eq!(capacity_from_sysfs(Some("100")), 100);
    assert_eq!(capacity_from_sysfs(Some("180")), 100);
    assert_eq!(capacity_from_sysfs(Some("n/a")), 100);
    assert_eq!(capacity_from_sysfs(None), 100);
    assert_eq!(capacity_from_sysfs(Some("0")), 0);
}

#[test]
fn integer_files() {
    assert_eq!(read_uint(Some(" 42\n")), Some(42));
    assert_eq!(read_uint(Some("-1")), None);
    assert_eq!(read_uint(Some("18446744073709551616")), None);
    assert_eq!(read_uint(Some("18446744073709551615")), Some(u64::MAX));
    assert_eq!(cycle_count_from_sysfs(Some("110\n")), Some(110));
    // Values above u32::MAX wrap as an `as u32` cast does.
    assert_eq!(cycle_count_from_sysfs(Some("4294967297")), Some(1));
    assert_eq!(cycle_count_from_sysfs(None), None);
}

#[test]
fn text_attributes_and_type() {
    assert_eq!(text_attribute(Some("  SMP \n")).as_deref(), Some("SMP"));
    assert_eq!(text_attribute(Some(" \n")), None);
    assert_eq!(text_attribute(None), None);
    assert!(is_battery_type(Some("Battery\n")));
    assert!(!is_battery_type(Some("Mains\n")));
    assert!(!is_battery_type(None));
}
