use dmap::common::create_hash;
use dmap::map::{hash_directory, map_directory, DMap, RawDir, RawFile};

fn raw_file(name: &str, content: &[u8]) -> RawFile {
    RawFile { name: String::from(name), content: content.to_vec() }
}

fn sample_root() -> RawDir {
    RawDir {
        name: String::new(),
        dirs: vec![RawDir {
            name: String::from("sub"),
            dirs: vec![],
            files: vec![raw_file("b.txt", b"content of b")],
        }],
        files: vec![raw_file("a.txt", b"content of a")],
    }
}

#[test]
fn create_hash_known_value() {
    assert_eq!(
        create_hash(b"abc".to_vec()),
        "ba7816bf8f01cfea414140de5dae2223b00361a396177a9cb410ff61f20015ad"
    );
    assert_eq!(
        create_hash(Vec::new()),
        "e3b0c44298fc1c149afbf4c8996fb92427ae41e4649b934ca495991b7852b855"
    );
}

#[test]
fn scenario_flat_index_and_root_hash() {
    let m = DMap::create(String::from("/data"), &sample_root());

    let h1 = create_hash(b"content of a".to_vec());
    let h2 = create_hash(b"content of b".to_vec());
    let sub_hash = create_hash(h2.clone().into_bytes());
    let expected_root = create_hash(format!("{}{}", sub_hash, h1).into_bytes());

    let flat = m.flatten();
    assert_eq!(flat.len(), 2);
    assert_eq!(flat.get("a.txt"), Some(h1));
    assert_eq!(flat.get("sub/b.txt"), Some(h2));
    assert_eq!(flat.get("sub"), None);
    assert_eq!(m.get_hash(), expected_root);
    assert_eq!(m.get_base_path(), "/data");
}

#[test]
fn build_is_deterministic_across_entry_order() {
    let one = RawDir {
        name: String::new(),
        dirs: vec![
            RawDir { name: String::from("x"), dirs: vec![], files: vec![raw_file("f", b"1")] },
            RawDir { name: String::from("y"), dirs: vec![], files: vec![raw_file("g", b"2")] },
        ],
        files: vec![raw_file("p", b"3"), raw_file("q", b"4")],
    };
    let other = RawDir {
        name: String::new(),
        dirs: vec![
            RawDir { name: String::from("y"), dirs: vec![], files: vec![raw_file("g", b"2")] },
            RawDir { name: String::from("x"), dirs: vec![], files: vec![raw_file("f", b"1")] },
        ],
        files: vec![raw_file("q", b"4"), raw_file("p", b"3")],
    };
    let m1 = DMap::create(String::from("/data"), &one);
    let m2 = DMap::create(String::from("/data"), &other);
    assert_eq!(m1.get_hash(), m2.get_hash());
}

#[test]
fn tampering_with_one_file_changes_every_ancestor_hash() {
    let original = sample_root();
    let mut tampered = sample_root();
    tampered.dirs[0].files[0].content[0] ^= 1;

    let d1 = map_directory("", &original);
    let d2 = map_directory("", &tampered);

    // the tampered file's hash, its directory's hash and the root hash
    // all change
    assert_ne!(d1.children[0].files[0].hash, d2.children[0].files[0].hash);
    assert_ne!(d1.children[0].hash, d2.children[0].hash);
    assert_ne!(d1.hash, d2.hash);
    // the sibling file outside the tampered subtree is untouched
    assert_eq!(d1.files[0].hash, d2.files[0].hash);
    assert_eq!(d1.files[0].path, "a.txt");
}

#[test]
fn hash_directory_concatenates_entry_hashes() {
    let m = DMap::create(String::from("/data"), &sample_root());
    let root = map_directory("", &sample_root());
    let recomputed = hash_directory(&root.children, &root.files);
    assert_eq!(recomputed, m.get_hash());
}

#[test]
fn files_to_dict_holds_only_the_directory_own_files() {
    let root = map_directory("", &sample_root());
    let own = root.files_to_dict();
    // the root owns a.txt alone; sub/b.txt belongs to the child
    assert_eq!(own.len(), 1);
    assert_eq!(own.get("a.txt"), Some(create_hash(b"content of a".to_vec())));
    assert_eq!(own.get("sub/b.txt"), None);
    let full = root.flatten();
    assert_eq!(full.len(), 2);
}

#[test]
fn empty_directory_hash() {
    let empty = RawDir { name: String::new(), dirs: vec![], files: vec![] };
    let m = DMap::create(String::from("/nothing"), &empty);
    // no entries: the digest of the empty concatenation
    assert_eq!(m.get_hash(), create_hash(Vec::new()));
    assert_eq!(m.flatten().len(), 0);
}
