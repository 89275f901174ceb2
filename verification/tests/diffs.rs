use dmap::common::FlatIndex;
use dmap::diff::{calc_diff, diff_flat, Diff};
use dmap::map::{map_directory, RawDir, RawFile};

fn index_of(entries: &[(&str, &str)]) -> FlatIndex {
    let mut m = FlatIndex::new();
    for (p, h) in entries {
        m.insert(String::from(*p), String::from(*h));
    }
    m
}

#[test]
fn scenario_three_way_classification() {
    let a = index_of(&[("a", "x"), ("b", "y")]);
    let b = index_of(&[("b", "z"), ("c", "w")]);
    let d = diff_flat(&a, &b);
    assert_eq!(
        d,
        vec![
            Diff::Remove(String::from("a")),
            Diff::Changed(String::from("b")),
            Diff::Add(String::from("c")),
        ]
    );
}

#[test]
fn equal_indices_diff_to_nothing() {
    let a = index_of(&[("a", "x"), ("b", "y"), ("c/d", "z")]);
    let b = index_of(&[("a", "x"), ("b", "y"), ("c/d", "z")]);
    assert_eq!(diff_flat(&a, &b), vec![]);
}

#[test]
fn all_added_when_first_index_is_empty() {
    let a = index_of(&[]);
    let b = index_of(&[("n", "1"), ("m", "2")]);
    assert_eq!(
        diff_flat(&a, &b),
        vec![Diff::Add(String::from("m")), Diff::Add(String::from("n"))]
    );
}

#[test]
fn all_removed_when_second_index_is_empty() {
    let a = index_of(&[("n", "1"), ("m", "2")]);
    let b = index_of(&[]);
    assert_eq!(
        diff_flat(&a, &b),
        vec![Diff::Remove(String::from("m")), Diff::Remove(String::from("n"))]
    );
}

#[test]
fn output_is_sorted_by_path() {
    let a = index_of(&[("zz", "1"), ("aa", "2")]);
    let b = index_of(&[("mm", "3"), ("aa", "2")]);
    assert_eq!(
        diff_flat(&a, &b),
        vec![Diff::Add(String::from("mm")), Diff::Remove(String::from("zz"))]
    );
}

#[test]
fn flat_index_insert_replaces_on_equal_path() {
    let mut m = FlatIndex::new();
    m.insert(String::from("a"), String::from("old"));
    m.insert(String::from("a"), String::from("new"));
    assert_eq!(m.len(), 1);
    assert_eq!(m.get("a"), Some(String::from("new")));
    assert_eq!(m.get("b"), None);
}

#[test]
fn snapshots_of_identical_trees_diff_to_nothing() {
    let build = || RawDir {
        name: String::new(),
        dirs: vec![RawDir {
            name: String::from("sub"),
            dirs: vec![],
            files: vec![RawFile { name: String::from("f"), content: b"data".to_vec() }],
        }],
        files: vec![RawFile { name: String::from("top"), content: b"other".to_vec() }],
    };
    let d1 = map_directory("", &build());
    let d2 = map_directory("", &build());
    assert_eq!(calc_diff(d1, d2), vec![]);
}

#[test]
fn snapshot_diff_reports_a_changed_file() {
    let build = |payload: &'static [u8]| RawDir {
        name: String::new(),
        dirs: vec![],
        files: vec![
            RawFile { name: String::from("a"), content: b"same".to_vec() },
            RawFile { name: String::from("b"), content: payload.to_vec() },
        ],
    };
    let d1 = map_directory("", &build(b"one"));
    let d2 = map_directory("", &build(b"two"));
    assert_eq!(calc_diff(d1, d2), vec![Diff::Changed(String::from("b"))]);
}
