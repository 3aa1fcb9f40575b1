use path_monitor::stripped::strip_path;
use path_monitor::wide::{wide_starts_with, WidePath};

fn units(s: &str) -> Vec<u16> {
    s.encode_utf16().collect()
}

#[test]
fn parse_splits_on_backslashes_and_skips_empty_segments() {
    let parsed = WidePath::parse(&units("C:\\A\\\\B\\"));
    assert_eq!(parsed.components, vec![units("C:"), units("A"), units("B")]);
}

#[test]
fn join_round_trips_components() {
    let parsed = WidePath::parse(&units("C:\\A\\B"));
    assert_eq!(parsed.to_units(), units("C:\\A\\B"));
}

#[test]
fn strip_path_splits_into_top_level_directory_and_tail() {
    let split = strip_path(&WidePath::parse(&units("C:\\A\\B\\file.txt"))).unwrap();
    assert_eq!(split.prefix.components, vec![units("C:"), units("A")]);
    assert_eq!(split.tail, units("B\\file.txt"));
    assert!(strip_path(&WidePath::parse(&units("C:"))).is_err());
}

#[test]
fn name_prefix_matching_is_exact() {
    assert!(wide_starts_with(&units("B\\file.txt"), &units("B")));
    assert!(!wide_starts_with(&units("B\\file.txt"), &units("Z")));
    assert!(wide_starts_with(&units("B\\file.txt"), &units("")));
    assert!(!wide_starts_with(&units("B"), &units("B\\file.txt")));
}
