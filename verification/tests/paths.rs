use std::path::PathBuf;

#[test]
fn db_path_is_under_the_data_dir() {
    match (wattea::data_dir(), wattea::db_path()) {
        (Some(d), Some(p)) => {
            assert!(d.ends_with("wattea"));
            assert_eq!(p, d.join("db.sqlite"));
        }
        (None, None) => {}
        other => panic!("data_dir and db_path disagree: {other:?}"),
    }
}

#[test]
fn paths_are_built_from_the_given_data_dir() {
    let base = PathBuf::from("/home/u/.local/share");
    assert_eq!(wattea::data_dir_in(Some(base.clone())), Some(PathBuf::from("/home/u/.local/share/wattea")));
    assert_eq!(wattea::db_path_in(Some(base)), Some(PathBuf::from("/home/u/.local/share/wattea/db.sqlite")));
    assert_eq!(wattea::data_dir_in(None), None);
    assert_eq!(wattea::db_path_in(None), None);
}
