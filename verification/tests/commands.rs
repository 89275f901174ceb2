use dmap::command::{create_path_type, PathType};
use dmap::common::{extension_of, InputType};

#[test]
#[allow(non_snake_case)]
fn dir_PathType_test_() {
    let expected = PathType::Directory(String::from("/home/Test"));

    let actual = create_path_type("/home/Test");

    assert_eq!(expected, actual);
}

#[test]
fn json_path_is_a_map_file() {
    let actual = create_path_type("/home/foo/snapshot.json");
    assert_eq!(PathType::MapFile(String::from("/home/foo/snapshot.json")), actual);
}

#[test]
fn dmap_path_is_a_map_file() {
    let actual = create_path_type("backup.dmap");
    assert_eq!(PathType::MapFile(String::from("backup.dmap")), actual);
}

#[test]
fn other_extension_is_a_directory_path_type() {
    let actual = create_path_type("/home/foo/bar.txt");
    assert_eq!(PathType::Directory(String::from("/home/foo/bar.txt")), actual);
}

#[test]
fn extension_of_finds_the_last_dot() {
    assert_eq!(extension_of("a/b/c.tar.gz"), Some(String::from("gz")));
    assert_eq!(extension_of("archive.dmap"), Some(String::from("dmap")));
}

#[test]
fn extension_of_none_without_dot() {
    assert_eq!(extension_of("/home/Test"), None);
    assert_eq!(extension_of("plain"), None);
}

#[test]
fn extension_of_none_for_hidden_files() {
    assert_eq!(extension_of(".bashrc"), None);
    assert_eq!(extension_of("dir/.hidden"), None);
}

#[test]
fn input_type_missing_path_is_rejected() {
    let r = InputType::create("/does/not/matter", false);
    assert_eq!(r.unwrap_err(), "Path does not exist");
}

#[test]
fn input_type_directory() {
    match InputType::create("/home/Test", true) {
        Ok(InputType::Directory(p)) => assert_eq!(p, "/home/Test"),
        other => panic!("expected a directory input, got {:?}", other),
    }
}

#[test]
fn input_type_map_file() {
    match InputType::create("old.json", true) {
        Ok(InputType::MapFile(p)) => assert_eq!(p, "old.json"),
        other => panic!("expected a map file input, got {:?}", other),
    }
}

#[test]
fn input_type_other_extension_is_rejected() {
    let r = InputType::create("notes.txt", true);
    assert_eq!(r.unwrap_err(), "Path is not a `.dmap` or `.json` file, or directory.");
}
