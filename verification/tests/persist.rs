use dmap::codec::{deserialize_dir, serialize_dir};
use dmap::common::{DirectoryInfo, FileInfo};
use dmap::map::{map_directory, RawDir, RawFile};

#[test]
fn serialize_exact_text() {
    let d = DirectoryInfo::create(
        String::new(),
        String::from("roothash"),
        vec![],
        vec![FileInfo::create(String::from("a.txt"), String::from("h1"))],
    );
    assert_eq!(
        serialize_dir(&d),
        "{\"path\":\"\",\"hash\":\"roothash\",\"children\":[],\"files\":[{\"path\":\"a.txt\",\"hash\":\"h1\"}]}"
    );
}

#[test]
fn serialize_escapes_quotes_and_backslashes() {
    let d = DirectoryInfo::create(
        String::from("we\"ird\\name"),
        String::from("h"),
        vec![],
        vec![],
    );
    assert_eq!(
        serialize_dir(&d),
        "{\"path\":\"we\\\"ird\\\\name\",\"hash\":\"h\",\"children\":[],\"files\":[]}"
    );
}

#[test]
fn round_trip_built_snapshot() {
    let root = RawDir {
        name: String::new(),
        dirs: vec![
            RawDir {
                name: String::from("inner"),
                dirs: vec![RawDir { name: String::from("deep"), dirs: vec![], files: vec![] }],
                files: vec![RawFile { name: String::from("b"), content: b"bb".to_vec() }],
            },
        ],
        files: vec![RawFile { name: String::from("a"), content: b"aa".to_vec() }],
    };
    let d = map_directory("", &root);
    let text = serialize_dir(&d);
    let back = deserialize_dir(text.as_str()).expect("a serialized snapshot reads back");
    assert_eq!(back, d);
}

#[test]
fn round_trip_with_escaped_characters() {
    let d = DirectoryInfo::create(
        String::from("dir \"x\" \\ y"),
        String::from("hash\\\"h"),
        vec![DirectoryInfo::create(String::from("c"), String::from("ch"), vec![], vec![])],
        vec![FileInfo::create(String::from("f\""), String::from("fh"))],
    );
    let text = serialize_dir(&d);
    let back = deserialize_dir(text.as_str()).expect("escaped text reads back");
    assert_eq!(back, d);
}

#[test]
fn deserialize_rejects_malformed_text() {
    assert_eq!(deserialize_dir(""), None);
    assert_eq!(deserialize_dir("not a snapshot"), None);
    assert_eq!(deserialize_dir("{\"path\":\"\",\"hash\":\"h\",\"children\":[]}"), None);
    // truncated
    assert_eq!(deserialize_dir("{\"path\":\"\",\"hash\":\"h\",\"children\":[],\"files\":["), None);
    // trailing content
    assert_eq!(
        deserialize_dir("{\"path\":\"\",\"hash\":\"h\",\"children\":[],\"files\":[]}x"),
        None
    );
}

#[test]
fn deserialize_accepts_nested_records() {
    let text = "{\"path\":\"\",\"hash\":\"r\",\"children\":[{\"path\":\"s\",\"hash\":\"sh\",\"children\":[],\"files\":[{\"path\":\"s/f\",\"hash\":\"fh\"}]}],\"files\":[]}";
    let d = deserialize_dir(text).expect("well-formed text reads back");
    assert_eq!(d.path, "");
    assert_eq!(d.hash, "r");
    assert_eq!(d.children.len(), 1);
    assert_eq!(d.children[0].files[0].path, "s/f");
    assert_eq!(serialize_dir(&d), text);
}
