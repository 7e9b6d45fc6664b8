use rust_examples::paths::{file_name_utf8, relative_or_full};
use rust_examples::text::chars_of;
use rust_examples::versions::{
    choose_target, collect_files, files_with_max_after_v, largest_after_v, parse_version, stable_name_order, DirEntryInfo, VersionedSvg,
};

fn v(path: &str, after_v: u32, after_r: u32) -> VersionedSvg {
    VersionedSvg { path: path.to_string(), after_v, after_r }
}

#[test]
fn versioned_names_are_parsed() {
    assert_eq!(parse_version("всё_в3р12.svg"), Some((3, 12)));
    assert_eq!(parse_version("всё_в007р0.svg"), Some((7, 0)));
    assert_eq!(parse_version("всё_в99999999999р2.svg"), Some((0, 2)));
    assert_eq!(parse_version("всё_в4294967295р4294967296.svg"), Some((4294967295, 0)));
    assert_eq!(parse_version("всё_вр1.svg"), None);
    assert_eq!(parse_version("всё_в1р.svg"), None);
    assert_eq!(parse_version("всё_в1р2.SVG"), None);
    assert_eq!(parse_version("всё_в1x2.svg"), None);
    assert_eq!(parse_version("всё_в1р2р3.svg"), None);
    assert_eq!(parse_version("всё.svg"), None);
    assert_eq!(parse_version("xвсё_в1р2.svg"), None);
    assert_eq!(parse_version(""), None);
}

#[test]
fn written_versions_read_back() {
    for (a, b) in [(0u32, 0u32), (1, 2), (10, 305), (u32::MAX, 17)] {
        assert_eq!(parse_version(&format!("всё_в{a}р{b}.svg")), Some((a, b)));
    }
}

#[test]
fn target_has_largest_versions_then_first_path() {
    let vs = vec![v("/d/b", 2, 5), v("/d/a", 3, 1), v("/d/c", 3, 4), v("/d/e", 3, 4), v("/d/0", 1, 9)];
    assert_eq!(choose_target(&vs).unwrap().path, "/d/c");
    let vs2 = vec![v("/z", 3, 4), v("/y", 3, 4), v("/y", 3, 4)];
    let chosen = choose_target(&vs2).unwrap();
    assert_eq!(chosen.path, "/y");
    assert!(std::ptr::eq(chosen, &vs2[1]));
    assert!(choose_target(&Vec::new()).is_none());
}

#[test]
fn files_with_largest_first_number() {
    let vs = vec![v("/a", 2, 5), v("/b", 3, 1), v("/c", 3, 0)];
    let top: Vec<String> = files_with_max_after_v(&vs).into_iter().map(|x| x.path).collect();
    assert_eq!(top, vec!["/b".to_string(), "/c".to_string()]);
    assert!(files_with_max_after_v(&Vec::new()).is_empty());
}

#[test]
fn stable_order_by_name() {
    let keys: Vec<Vec<char>> = ["b", "a", "b", "", "a"].iter().map(|k| chars_of(k)).collect();
    assert_eq!(stable_name_order(&keys), vec![3, 1, 4, 0, 2]);
}

fn entry(path: &str, name: Option<&str>, is_file: bool, key: &str) -> DirEntryInfo {
    DirEntryInfo { path: path.to_string(), file_name: name.map(|n| n.to_string()), is_file, dedup_key: key.to_string() }
}

#[test]
fn collected_files_are_filtered_deduplicated_and_sorted() {
    let entries = vec![
        entry("/w/всё_в2р1.svg", Some("всё_в2р1.svg"), true, "/w/всё_в2р1.svg"),
        entry("/w/всё_старое.svg", Some("всё_старое.svg"), true, "/w/всё_старое.svg"),
        entry("/w/other.svg", Some("other.svg"), true, "/w/other.svg"),
        entry("/w/всё_в1р9.svg", Some("всё_в1р9.svg"), false, "/w/всё_в1р9.svg"),
        entry("/w/всё_в1р1.svg", Some("всё_в1р1.svg"), true, "/w/всё_в1р1.svg"),
        entry("/w/bad", None, true, "/w/bad"),
        entry("/e/всё_в2р1.svg", Some("всё_в2р1.svg"), true, "/w/всё_в2р1.svg"),
        entry("/e/всё_в1р1.svg", Some("всё_в1р1.svg"), true, "/e/всё_в1р1.svg"),
    ];
    let found = collect_files(&entries);
    let prefixed: Vec<&str> = found.all_prefixed.iter().map(|f| f.path.as_str()).collect();
    assert_eq!(prefixed, vec!["/w/всё_в1р1.svg", "/e/всё_в1р1.svg", "/w/всё_в2р1.svg", "/w/всё_старое.svg"]);
    let names: Vec<&str> = found.all_prefixed.iter().map(|f| f.file_name.as_str()).collect();
    assert_eq!(names, vec!["всё_в1р1.svg", "всё_в1р1.svg", "всё_в2р1.svg", "всё_старое.svg"]);
    let structured: Vec<(&str, u32, u32)> = found.structured.iter().map(|x| (x.path.as_str(), x.after_v, x.after_r)).collect();
    assert_eq!(structured, vec![("/w/всё_в1р1.svg", 1, 1), ("/e/всё_в1р1.svg", 1, 1), ("/w/всё_в2р1.svg", 2, 1)]);
}

#[test]
fn file_names_for_display() {
    assert_eq!(file_name_utf8("/a/b/всё_в1р2.svg"), "всё_в1р2.svg");
    assert_eq!(file_name_utf8("name"), "name");
    assert_eq!(file_name_utf8("/"), "?");
    assert_eq!(file_name_utf8("/a/.."), "?");
}

#[test]
fn paths_relative_to_the_root() {
    assert_eq!(relative_or_full("/root/dir", "/root/dir/sub/file.txt"), "sub/file.txt");
    assert_eq!(relative_or_full("/root/dir", "/other/file.txt"), "/other/file.txt");
    assert_eq!(relative_or_full("/root/d", "/root/dir/file.txt"), "/root/dir/file.txt");
    assert_eq!(relative_or_full("/root", "/root"), "");
}

#[test]
fn largest_number_after_v() {
    let vs = vec![v("/d/b", 2, 5), v("/d/a", 7, 1), v("/d/c", 3, 4)];
    assert_eq!(largest_after_v(&vs), 7);
    assert_eq!(largest_after_v(&[]), 0);
}
