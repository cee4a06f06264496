use httm::path::{
    bytes_eq, count_components, ends_with_path, file_name_of, find_bytes, join_paths, parent_of,
    path_less, split_once_bytes, starts_with_bytes, strip_prefix_of,
};

fn b(text: &str) -> Vec<u8> {
    text.as_bytes().to_vec()
}

#[test]
fn parent_of_nested_path_drops_last_component() {
    assert_eq!(parent_of(&b("/a/b")), Some(b("/a")));
    assert_eq!(parent_of(&b("/tank/.zfs/snapshot/s1")), Some(b("/tank/.zfs/snapshot")));
}

#[test]
fn parent_of_top_level_entry_is_root() {
    assert_eq!(parent_of(&b("/a")), Some(b("/")));
}

#[test]
fn root_and_empty_path_have_no_parent() {
    assert_eq!(parent_of(&b("/")), None);
    assert_eq!(parent_of(&b("")), None);
}

#[test]
fn parent_of_single_relative_component_is_empty() {
    assert_eq!(parent_of(&b("a")), Some(b("")));
    assert_eq!(parent_of(&b("a/b")), Some(b("a")));
}

#[test]
fn component_counts() {
    assert_eq!(count_components(&b("/a/b")), 3);
    assert_eq!(count_components(&b("/")), 1);
    assert_eq!(count_components(&b("")), 0);
    assert_eq!(count_components(&b("a/b")), 2);
    assert_eq!(count_components(&b("a")), 1);
}

#[test]
fn file_name_is_last_component() {
    assert_eq!(file_name_of(&b("/a/b")), Some(b("b")));
    assert_eq!(file_name_of(&b("b")), Some(b("b")));
    assert_eq!(file_name_of(&b("/a/.hidden")), Some(b(".hidden")));
}

#[test]
fn root_empty_and_dot_dot_have_no_file_name() {
    assert_eq!(file_name_of(&b("/")), None);
    assert_eq!(file_name_of(&b("")), None);
    assert_eq!(file_name_of(&b("/a/..")), None);
}

#[test]
fn join_puts_separator_where_needed() {
    assert_eq!(join_paths(&b("/a"), &b("b")), b("/a/b"));
    assert_eq!(join_paths(&b("/"), &b("b")), b("/b"));
    assert_eq!(join_paths(&b(""), &b("b")), b("b"));
    assert_eq!(join_paths(&b("/a"), &b("b/c")), b("/a/b/c"));
    assert_eq!(join_paths(&b("/a"), &b("")), b("/a"));
    assert_eq!(join_paths(&b(""), &b("")), b(""));
}

#[test]
fn join_with_absolute_name_gives_the_name() {
    assert_eq!(join_paths(&b("/a"), &b("/x/y")), b("/x/y"));
}

#[test]
fn strip_prefix_takes_whole_components_only() {
    assert_eq!(strip_prefix_of(&b("/tank/a"), &b("/tank")), Some(b("a")));
    assert_eq!(strip_prefix_of(&b("/tank/a/b"), &b("/tank")), Some(b("a/b")));
    assert_eq!(strip_prefix_of(&b("/tankard"), &b("/tank")), None);
    assert_eq!(strip_prefix_of(&b("/other/a"), &b("/tank")), None);
}

#[test]
fn strip_prefix_of_itself_root_and_empty() {
    assert_eq!(strip_prefix_of(&b("/tank"), &b("/tank")), Some(b("")));
    assert_eq!(strip_prefix_of(&b("/a/b"), &b("/")), Some(b("a/b")));
    assert_eq!(strip_prefix_of(&b("/a/b"), &b("")), Some(b("/a/b")));
}

#[test]
fn ends_with_matches_whole_components() {
    assert!(ends_with_path(&b("/tank/.zfs"), &b(".zfs")));
    assert!(ends_with_path(&b(".zfs"), &b(".zfs")));
    assert!(ends_with_path(&b("/tank/.zfs/snapshot"), &b(".zfs/snapshot")));
    assert!(!ends_with_path(&b("/tank/x.zfs"), &b(".zfs")));
    assert!(!ends_with_path(&b("/tank/.zfs/a"), &b(".zfs")));
}

#[test]
fn paths_are_ordered_component_by_component() {
    // byte for byte `-` sorts before `/`; as paths, a shorter component sorts first
    assert!(path_less(&b("/a/b"), &b("/a-b")));
    assert!(!path_less(&b("/a-b"), &b("/a/b")));
    assert!(path_less(&b("/a"), &b("/a/b")));
    assert!(path_less(&b("/a/b"), &b("/a/c")));
    assert!(!path_less(&b("/a/b"), &b("/a/b")));
    assert!(path_less(&b(""), &b("/")));
}

#[test]
fn byte_prefix_and_equality() {
    assert!(starts_with_bytes(&b("/tankard"), &b("/tank")));
    assert!(!starts_with_bytes(&b("/tan"), &b("/tank")));
    assert!(bytes_eq(&b("/tank"), &b("/tank")));
    assert!(!bytes_eq(&b("/tank"), &b("/tanks")));
}

#[test]
fn find_bytes_gives_first_occurrence() {
    assert_eq!(find_bytes(&b("abcabc"), &b("bc")), Some(1));
    assert_eq!(find_bytes(&b("abcabc"), &b("cb")), None);
    assert_eq!(find_bytes(&b("abc"), &b("")), Some(0));
    assert_eq!(find_bytes(&b("ab"), &b("abc")), None);
}

#[test]
fn split_once_splits_at_first_occurrence() {
    assert_eq!(split_once_bytes(&b("a/b/c"), &b("/")), Some((b("a"), b("b/c"))));
    assert_eq!(split_once_bytes(&b("abc"), &b("/")), None);
    assert_eq!(
        split_once_bytes(&b("/tank/.zfs/snapshot/s1/f"), &b("/.zfs/snapshot/")),
        Some((b("/tank"), b("s1/f")))
    );
}
