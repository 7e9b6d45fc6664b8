use rust_examples::console::{enable_ansi_support, escape_pressed, KEY_EVENT, VK_ESCAPE};
use rust_examples::paths::{dedup_key, scan_search_dirs};

#[test]
fn ansi_flag_is_added_where_the_mode_was_read() {
    assert_eq!(enable_ansi_support(Some(0x3), None), (Some(0x7), None));
    assert_eq!(enable_ansi_support(None, Some(0x4)), (None, Some(0x4)));
    assert_eq!(enable_ansi_support(Some(0), Some(0x10)), (Some(0x4), Some(0x14)));
}

#[test]
fn only_a_pressed_escape_key_ends_the_wait() {
    assert!(escape_pressed(1, KEY_EVENT, 1, VK_ESCAPE));
    assert!(!escape_pressed(0, KEY_EVENT, 1, VK_ESCAPE));
    assert!(!escape_pressed(1, 2, 1, VK_ESCAPE));
    assert!(!escape_pressed(1, KEY_EVENT, 0, VK_ESCAPE));
    assert!(!escape_pressed(1, KEY_EVENT, 1, 0x41));
}

#[test]
fn dedup_key_prefers_the_canonical_path() {
    assert_eq!(dedup_key("./a.svg", Some("/home/u/a.svg".to_string())), "/home/u/a.svg");
    assert_eq!(dedup_key("./a.svg", None), "./a.svg");
}

#[test]
fn search_dirs_are_sorted_and_deduplicated() {
    assert_eq!(
        scan_search_dirs(Some("/work/b".to_string()), Some("/work/a".to_string())),
        vec!["/work/a".to_string(), "/work/b".to_string()]
    );
    assert_eq!(
        scan_search_dirs(Some("/work/a".to_string()), Some("/work/b".to_string())),
        vec!["/work/a".to_string(), "/work/b".to_string()]
    );
    assert_eq!(
        scan_search_dirs(Some("/work/a".to_string()), Some("/work/a/".to_string())),
        vec!["/work/a".to_string()]
    );
    // Paths order by components: `/a/b` comes before `/a-b`.
    assert_eq!(
        scan_search_dirs(Some("/a-b".to_string()), Some("/a/b".to_string())),
        vec!["/a/b".to_string(), "/a-b".to_string()]
    );
    assert_eq!(scan_search_dirs(None, Some("/x".to_string())), vec!["/x".to_string()]);
    assert_eq!(scan_search_dirs(Some("/y".to_string()), None), vec!["/y".to_string()]);
    assert_eq!(scan_search_dirs(None, None), vec![".".to_string()]);
}
