use dag_scheduler::paths::{
    find_from, is_absolute_from, last_slash, name_start, parent_end, split_scheme,
    start_after_drive,
};

#[test]
fn a_scheme_ends_at_a_colon_before_the_first_separator() {
    assert_eq!(split_scheme(b"a:b"), (Some(1), 2));
    assert_eq!(split_scheme(b"file:/foo"), (Some(4), 5));
    assert_eq!(split_scheme(b"/foo"), (None, 0));
    assert_eq!(split_scheme(b"foo"), (None, 0));
    assert_eq!(split_scheme(b"foo/bar:baz"), (None, 0));
    assert_eq!(split_scheme(b""), (None, 0));
    assert_eq!(split_scheme(b":"), (Some(0), 1));
}

#[test]
fn an_authority_is_skipped_up_to_the_next_separator() {
    assert_eq!(split_scheme(b"hdfs://host/foo/bar"), (Some(4), 11));
    assert_eq!(split_scheme(b"file:///foo/bar"), (Some(4), 7));
    assert_eq!(split_scheme(b"scheme:///foo/bar"), (Some(6), 9));
    assert_eq!(split_scheme(b"//host/p"), (None, 6));
    // two separators with nothing behind them open no authority
    assert_eq!(split_scheme(b"x://"), (Some(1), 2));
    assert_eq!(split_scheme(b"//"), (None, 0));
    // an authority that no separator closes leaves an empty path
    assert_eq!(split_scheme(b"hdfs://host"), (Some(4), 11));
}

#[test]
fn finding_a_byte_from_an_index_on() {
    assert_eq!(find_from(b"a/b/c", b'/', 0), 1);
    assert_eq!(find_from(b"a/b/c", b'/', 1), 1);
    assert_eq!(find_from(b"a/b/c", b'/', 2), 3);
    assert_eq!(find_from(b"a/b/c", b'/', 4), 5);
    assert_eq!(find_from(b"a/b/c", b'/', 9), 5);
    assert_eq!(find_from(b"", b'/', 0), 0);
}

#[test]
fn the_last_separator_of_a_path() {
    assert_eq!(last_slash(b"/foo/bar"), Some(4));
    assert_eq!(last_slash(b"/foo/"), Some(4));
    assert_eq!(last_slash(b"/"), Some(0));
    assert_eq!(last_slash(b"foo"), None);
    assert_eq!(last_slash(b""), None);
}

#[test]
fn the_name_of_a_path_follows_its_last_separator() {
    assert_eq!(name_start(b"/foo/bar"), Some(5));
    assert_eq!(name_start(b"/foo"), Some(1));
    assert_eq!(name_start(b"/foo/"), Some(5));
    assert_eq!(name_start(b"/"), Some(1));
    assert_eq!(name_start(b"foo"), None);
}

#[test]
fn the_parent_of_a_path_ends_before_its_last_separator() {
    assert_eq!(parent_end(b"/foo/bar", 0), Some(4));
    assert_eq!(parent_end(b"foo/bar", 0), Some(3));
    assert_eq!(parent_end(b"/foo", 0), Some(1));
    assert_eq!(parent_end(b"/C:/foo", 3), Some(4));
    assert_eq!(parent_end(b"/C:/foo/bar", 3), Some(7));
}

#[test]
fn a_root_has_no_parent() {
    assert_eq!(parent_end(b"/", 0), None);
    assert_eq!(parent_end(b"", 0), None);
    assert_eq!(parent_end(b"foo", 0), None);
    assert_eq!(parent_end(b"/C:/", 3), None);
    assert_eq!(parent_end(b"/C:", 3), None);
}

#[test]
fn a_path_is_absolute_if_a_separator_follows_its_drive() {
    assert!(is_absolute_from(b"/foo", 0));
    assert!(!is_absolute_from(b"foo", 0));
    assert!(!is_absolute_from(b"foo/bar", 0));
    assert!(!is_absolute_from(b".", 0));
    assert!(!is_absolute_from(b"", 0));
    assert!(is_absolute_from(b"/C:/a", 3));
    assert!(!is_absolute_from(b"C:a/b", 2));
    assert!(!is_absolute_from(b"/C:", 3));
}

#[test]
fn a_drive_specifier_takes_two_or_three_bytes() {
    assert_eq!(start_after_drive(b"/C:/a", true), 3);
    assert_eq!(start_after_drive(b"C:/a", true), 2);
    assert_eq!(start_after_drive(b"/a", false), 0);
    assert_eq!(start_after_drive(b"", false), 0);
}
