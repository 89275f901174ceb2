//! Building a snapshot from the raw contents of a directory tree, and the
//! snapshot handle `DMap`.
use vstd::prelude::*;
use vstd::seq_lib::*;
use vstd::utf8::is_ascii_chars;
use crate::common::{
    concat_hash_bytes, create_hash, dir_hash_of, dir_view, dirs_view, files_view,
    lemma_concat_hash_bytes_append, lemma_concat_hash_bytes_push, lemma_dirs_view_index,
    DirectoryInfo, DirectoryInfoV, FileInfo, FileInfoV, FlatIndex,
};
use crate::common::flat_of;
use crate::order::{insert_by, isort_by, lemma_insert_by_at, lemma_isort_by_multiset, lex_le, str_le};

verus! {

/// Spec-level image of a `RawFile`.
pub struct RawFileV {
    pub name: Seq<char>,
    pub content: Seq<u8>,
}

/// One file as the filesystem walk hands it over: its name within its
/// directory, and its full content.
pub struct RawFile {
    pub name: String,
    pub content: Vec<u8>,
}

impl View for RawFile {
    type V = RawFileV;

    open spec fn view(&self) -> RawFileV {
        RawFileV { name: self.name@, content: self.content@ }
    }
}

/// Spec-level image of a `RawDir`.
pub struct RawDirV {
    pub name: Seq<char>,
    pub dirs: Seq<RawDirV>,
    pub files: Seq<RawFileV>,
}

/// One directory as the filesystem walk hands it over, its entries in
/// whatever order the filesystem listed them.
pub struct RawDir {
    pub name: String,
    pub dirs: Vec<RawDir>,
    pub files: Vec<RawFile>,
}

pub open spec fn raw_files_view(fs: Seq<RawFile>) -> Seq<RawFileV> {
    fs.map_values(|f: RawFile| f@)
}

pub open spec fn raw_dirs_view(ds: Seq<RawDir>) -> Seq<RawDirV>
    decreases ds,
{
    if ds.len() == 0 {
        Seq::empty()
    } else {
        seq![raw_dir_view(ds[0])] + raw_dirs_view(ds.drop_first())
    }
}

pub open spec fn raw_dir_view(d: RawDir) -> RawDirV
    decreases d,
{
    RawDirV { name: d.name@, dirs: raw_dirs_view(d.dirs@), files: raw_files_view(d.files@) }
}

impl View for RawDir {
    type V = RawDirV;

    open spec fn view(&self) -> RawDirV {
        raw_dir_view(*self)
    }
}

pub proof fn lemma_raw_dirs_view_index(ds: Seq<RawDir>)
    ensures
        raw_dirs_view(ds).len() == ds.len(),
        forall|i: int| 0 <= i < ds.len() ==> #[trigger] raw_dirs_view(ds)[i] == raw_dir_view(ds[i]),
    decreases ds,
{
    if ds.len() > 0 {
        lemma_raw_dirs_view_index(ds.drop_first());
    }
}

/// The path of an entry named `name` directly below a directory at
/// `path`; the snapshot root's path is empty.
pub open spec fn join(path: Seq<char>, name: Seq<char>) -> Seq<char> {
    if path.len() == 0 {
        name
    } else {
        path + seq!['/'] + name
    }
}

/// Order on raw files: by name.
pub open spec fn raw_file_le() -> spec_fn(RawFileV, RawFileV) -> bool {
    |a: RawFileV, b: RawFileV| lex_le(a.name, b.name)
}

/// Order on raw directories: by name.
pub open spec fn raw_dir_le() -> spec_fn(RawDirV, RawDirV) -> bool {
    |a: RawDirV, b: RawDirV| lex_le(a.name, b.name)
}

/// Order on built directory nodes: by path.
pub open spec fn node_le() -> spec_fn(DirectoryInfoV, DirectoryInfoV) -> bool {
    |a: DirectoryInfoV, b: DirectoryInfoV| lex_le(a.path, b.path)
}

/// Order on built file records: by path.
pub open spec fn fnode_le() -> spec_fn(FileInfoV, FileInfoV) -> bool {
    |a: FileInfoV, b: FileInfoV| lex_le(a.path, b.path)
}

/// The file records of a directory at `path`: one per raw file, in order,
/// each carrying the digest of that file's content.
pub open spec fn file_nodes(path: Seq<char>, fs: Seq<RawFileV>) -> Seq<FileInfoV> {
    fs.map_values(
        |f: RawFileV|
            FileInfoV { path: join(path, f.name), hash: crate::common::sha256_hex(f.content) },
    )
}

pub open spec fn hashes_of_nodes(ds: Seq<DirectoryInfoV>) -> Seq<Seq<char>> {
    ds.map_values(|d: DirectoryInfoV| d.hash)
}

pub open spec fn hashes_of_fnodes(fs: Seq<FileInfoV>) -> Seq<Seq<char>> {
    fs.map_values(|f: FileInfoV| f.hash)
}

/// The snapshot node for a directory at `path` holding raw contents `r`:
/// children and files sorted by path, the node's hash composed from their
/// hashes in that order.
pub open spec fn snap_of(path: Seq<char>, r: RawDirV) -> DirectoryInfoV
    decreases r,
{
    let files = isort_by(fnode_le(), file_nodes(path, r.files));
    let kids = isort_by(node_le(), snap_kids(path, r.dirs));
    DirectoryInfoV {
        path: path,
        hash: dir_hash_of(hashes_of_nodes(kids), hashes_of_fnodes(files)),
        children: kids,
        files: files,
    }
}

/// The snapshot nodes of the raw directories `ds`, in order.
pub open spec fn snap_kids(path: Seq<char>, ds: Seq<RawDirV>) -> Seq<DirectoryInfoV>
    decreases ds,
{
    if ds.len() == 0 {
        Seq::empty()
    } else {
        seq![snap_of(join(path, ds[0].name), ds[0])] + snap_kids(path, ds.drop_first())
    }
}

pub proof fn lemma_snap_kids_index(path: Seq<char>, ds: Seq<RawDirV>)
    ensures
        snap_kids(path, ds).len() == ds.len(),
        forall|i: int|
            0 <= i < ds.len() ==> #[trigger] snap_kids(path, ds)[i] == snap_of(
                join(path, ds[i].name),
                ds[i],
            ),
    decreases ds,
{
    if ds.len() > 0 {
        lemma_snap_kids_index(path, ds.drop_first());
    }
}

/// Joins a directory path and an entry name with `/`; below the root
/// (whose path is empty) the name stands alone.
pub fn join_path(path: &str, name: &str) -> (r: String)
    ensures
        r@ == join(path@, name@),
{
    if path.unicode_len() == 0 {
        name.to_owned()
    } else {
        let mut s = path.to_owned();
        s.append("/");
        s.append(name);
        proof {
            reveal_strlit("/");
            assert(("/")@ =~= seq!['/']);
            assert(s@ =~= path@ + seq!['/'] + name@);
        }
        s
    }
}

/// Composes a directory's hash from its children's and files' hashes in
/// the order given: the hex digests are concatenated and hashed again.
pub fn hash_directory(children: &Vec<DirectoryInfo>, files: &Vec<FileInfo>) -> (r: String)
    requires
        forall|i: int|
            0 <= i < children@.len() ==> is_ascii_chars((#[trigger] children@[i]).hash@),
        forall|i: int| 0 <= i < files@.len() ==> is_ascii_chars((#[trigger] files@[i]).hash@),
    ensures
        r@ == dir_hash_of(
            hashes_of_nodes(dirs_view(children@)),
            hashes_of_fnodes(files_view(files@)),
        ),
        r@.len() == 64,
        is_ascii_chars(r@),
{
    broadcast use vstd::string::is_ascii_spec_bytes;

    let ghost ch = hashes_of_nodes(dirs_view(children@));
    let ghost fh = hashes_of_fnodes(files_view(files@));
    proof {
        lemma_dirs_view_index(children@);
        assert(ch.take(0) =~= Seq::empty());
    }
    let mut buf: Vec<u8> = Vec::new();
    let mut i: usize = 0;
    while i < children.len()
        invariant
            i <= children.len(),
            ch == hashes_of_nodes(dirs_view(children@)),
            ch.len() == children@.len(),
            forall|k: int| 0 <= k < children@.len() ==> ch[k] == (#[trigger] children@[k]).hash@,
            forall|k: int|
                0 <= k < children@.len() ==> is_ascii_chars((#[trigger] children@[k]).hash@),
            buf@ == concat_hash_bytes(ch.take(i as int)),
        decreases children.len() - i,
    {
        let hs = children[i].hash.as_str();
        let mut hb = hs.as_bytes_vec();
        proof {
            let s = children@[i as int].hash@;
            vstd::string::is_ascii_spec_bytes(hs);
            assert(hb@ =~= crate::common::ascii_bytes(s));
            assert(ch.take(i + 1) =~= ch.take(i as int).push(ch[i as int]));
            lemma_concat_hash_bytes_push(ch.take(i as int), ch[i as int]);
        }
        buf.append(&mut hb);
        i = i + 1;
    }
    proof {
        assert(ch.take(ch.len() as int) =~= ch);
        assert(fh.take(0) =~= Seq::empty());
        assert(buf@ =~= concat_hash_bytes(ch) + concat_hash_bytes(fh.take(0)));
    }
    let mut j: usize = 0;
    while j < files.len()
        invariant
            j <= files.len(),
            ch == hashes_of_nodes(dirs_view(children@)),
            fh == hashes_of_fnodes(files_view(files@)),
            fh.len() == files@.len(),
            forall|k: int| 0 <= k < files@.len() ==> fh[k] == (#[trigger] files@[k]).hash@,
            forall|k: int| 0 <= k < files@.len() ==> is_ascii_chars((#[trigger] files@[k]).hash@),
            buf@ == concat_hash_bytes(ch) + concat_hash_bytes(fh.take(j as int)),
        decreases files.len() - j,
    {
        let hs = files[j].hash.as_str();
        let mut hb = hs.as_bytes_vec();
        proof {
            let s = files@[j as int].hash@;
            vstd::string::is_ascii_spec_bytes(hs);
            assert(hb@ =~= crate::common::ascii_bytes(s));
            assert(fh.take(j + 1) =~= fh.take(j as int).push(fh[j as int]));
            lemma_concat_hash_bytes_push(fh.take(j as int), fh[j as int]);
            assert(concat_hash_bytes(ch) + concat_hash_bytes(fh.take(j as int)) + crate::common::ascii_bytes(s)
                =~= concat_hash_bytes(ch) + (concat_hash_bytes(fh.take(j as int))
                + crate::common::ascii_bytes(s)));
        }
        buf.append(&mut hb);
        j = j + 1;
    }
    proof {
        assert(fh.take(fh.len() as int) =~= fh);
        lemma_concat_hash_bytes_append(ch, fh);
        assert(buf@ == concat_hash_bytes(ch + fh));
    }
    create_hash(buf)
}

/// Inserts a built directory node into a vector kept sorted by path.
fn insert_node(out: &mut Vec<DirectoryInfo>, x: DirectoryInfo)
    ensures
        dirs_view(final(out)@) == insert_by(node_le(), dir_view(x), dirs_view(old(out)@)),
{
    let ghost s0 = dirs_view(out@);
    proof {
        lemma_dirs_view_index(out@);
    }
    let mut idx: usize = 0;
    while idx < out.len() && !str_le(x.path.as_str(), out[idx].path.as_str())
        invariant
            idx <= out@.len(),
            out@ == old(out)@,
            s0 == dirs_view(out@),
            s0.len() == out@.len(),
            forall|k: int| 0 <= k < out@.len() ==> #[trigger] s0[k] == dir_view(out@[k]),
            forall|k: int| 0 <= k < idx ==> !node_le()(dir_view(x), #[trigger] s0[k]),
        decreases out@.len() - idx,
    {
        idx = idx + 1;
    }
    let ghost inserted = dir_view(x);
    out.insert(idx, x);
    proof {
        lemma_insert_by_at(node_le(), inserted, s0, idx as int);
        old(out)@.insert_ensures(idx as int, x);
        lemma_dirs_view_index(out@);
        assert forall|k: int| 0 <= k < out@.len() implies dirs_view(out@)[k] == (s0.take(
            idx as int,
        ) + seq![inserted] + s0.skip(idx as int))[k] by {
            if k < idx {
                assert(out@[k] == old(out)@[k]);
            } else if k == idx {
            } else {
                assert(out@[k] == old(out)@[k - 1]);
            }
        }
        assert(dirs_view(out@) =~= s0.take(idx as int) + seq![inserted] + s0.skip(idx as int));
    }
}

/// Sorts built directory nodes by path.
fn sort_nodes(v: Vec<DirectoryInfo>) -> (r: Vec<DirectoryInfo>)
    ensures
        dirs_view(r@) == isort_by(node_le(), dirs_view(v@)),
{
    let ghost s = dirs_view(v@);
    let mut src = v;
    let mut out: Vec<DirectoryInfo> = Vec::new();
    proof {
        lemma_dirs_view_index(src@);
        assert(src@ =~= v@.take(src@.len() as int));
        assert(s.skip(s.len() as int) =~= Seq::empty());
        assert(dirs_view(out@) =~= Seq::empty());
    }
    while src.len() > 0
        invariant
            src@.len() <= v@.len(),
            src@ == v@.take(src@.len() as int),
            s == dirs_view(v@),
            s.len() == v@.len(),
            dirs_view(out@) == isort_by(node_le(), s.skip(src@.len() as int)),
        decreases src.len(),
    {
        let ghost m = src@.len() as int;
        let x = src.pop().unwrap();
        proof {
            assert(x == v@.take(m)[m - 1]);
            assert(v@.take(m)[m - 1] == v@[m - 1]);
            lemma_dirs_view_index(v@);
            assert(dir_view(x) == s[m - 1]);
            assert(src@ =~= v@.take(m - 1));
        }
        insert_node(&mut out, x);
        proof {
            assert(s.skip(m - 1).drop_first() =~= s.skip(m));
            assert(s.skip(m - 1)[0] == s[m - 1]);
        }
    }
    proof {
        assert(s.skip(0) =~= s);
    }
    out
}

/// Inserts a file record into a vector kept sorted by path.
fn insert_fnode(out: &mut Vec<FileInfo>, x: FileInfo)
    ensures
        files_view(final(out)@) == insert_by(fnode_le(), x@, files_view(old(out)@)),
{
    let ghost s0 = files_view(out@);
    let mut idx: usize = 0;
    while idx < out.len() && !str_le(x.path.as_str(), out[idx].path.as_str())
        invariant
            idx <= out@.len(),
            out@ == old(out)@,
            s0 == files_view(out@),
            s0.len() == out@.len(),
            forall|k: int| 0 <= k < idx ==> !fnode_le()(x@, #[trigger] s0[k]),
        decreases out@.len() - idx,
    {
        idx = idx + 1;
    }
    let ghost inserted = x@;
    out.insert(idx, x);
    proof {
        lemma_insert_by_at(fnode_le(), inserted, s0, idx as int);
        old(out)@.insert_ensures(idx as int, x);
        assert forall|k: int| 0 <= k < out@.len() implies files_view(out@)[k] == (s0.take(
            idx as int,
        ) + seq![inserted] + s0.skip(idx as int))[k] by {
            if k < idx {
                assert(out@[k] == old(out)@[k]);
            } else if k == idx {
            } else {
                assert(out@[k] == old(out)@[k - 1]);
            }
        }
        assert(files_view(out@) =~= s0.take(idx as int) + seq![inserted] + s0.skip(idx as int));
    }
}

/// Sorts file records by path.
fn sort_fnodes(v: Vec<FileInfo>) -> (r: Vec<FileInfo>)
    ensures
        files_view(r@) == isort_by(fnode_le(), files_view(v@)),
{
    let ghost s = files_view(v@);
    let mut src = v;
    let mut out: Vec<FileInfo> = Vec::new();
    proof {
        assert(src@ =~= v@.take(src@.len() as int));
        assert(s.skip(s.len() as int) =~= Seq::empty());
        assert(files_view(out@) =~= Seq::empty());
    }
    while src.len() > 0
        invariant
            src@.len() <= v@.len(),
            src@ == v@.take(src@.len() as int),
            s == files_view(v@),
            s.len() == v@.len(),
            files_view(out@) == isort_by(fnode_le(), s.skip(src@.len() as int)),
        decreases src.len(),
    {
        let ghost m = src@.len() as int;
        let x = src.pop().unwrap();
        proof {
            assert(x == v@.take(m)[m - 1]);
            assert(v@.take(m)[m - 1] == v@[m - 1]);
            assert(x@ == s[m - 1]);
            assert(src@ =~= v@.take(m - 1));
        }
        insert_fnode(&mut out, x);
        proof {
            assert(s.skip(m - 1).drop_first() =~= s.skip(m));
            assert(s.skip(m - 1)[0] == s[m - 1]);
        }
    }
    proof {
        assert(s.skip(0) =~= s);
    }
    out
}

/// Builds the snapshot node for the directory at `path` from its raw
/// contents. Entries are sorted by path before hashing, so the result
/// does not depend on the order in which the filesystem listed them.
pub fn map_directory(path: &str, raw: &RawDir) -> (d: DirectoryInfo)
    ensures
        d@ == snap_of(path@, raw@),
        d@.hash.len() == 64,
        is_ascii_chars(d@.hash),
    decreases *raw,
{
    let ghost rv = raw_dirs_view(raw.dirs@);
    proof {
        lemma_raw_dirs_view_index(raw.dirs@);
        assert(rv.take(0) =~= Seq::empty());
        assert(snap_kids(path@, rv.take(0)) =~= Seq::empty());
    }
    let mut kids: Vec<DirectoryInfo> = Vec::new();
    proof {
        assert(dirs_view(kids@) =~= Seq::empty());
    }
    let mut i: usize = 0;
    while i < raw.dirs.len()
        invariant
            i <= raw.dirs.len(),
            rv == raw_dirs_view(raw.dirs@),
            rv.len() == raw.dirs@.len(),
            forall|k: int| 0 <= k < raw.dirs@.len() ==> #[trigger] rv[k] == raw_dir_view(
                raw.dirs@[k],
            ),
            kids@.len() == i,
            dirs_view(kids@) == snap_kids(path@, rv.take(i as int)),
            forall|k: int|
                0 <= k < kids@.len() ==> (#[trigger] kids@[k]).hash@.len() == 64 && is_ascii_chars(
                    kids@[k].hash@,
                ),
        decreases raw.dirs.len() - i,
    {
        let child_path = join_path(path, raw.dirs[i].name.as_str());
        let child = map_directory(child_path.as_str(), &raw.dirs[i]);
        let ghost kids_before = kids@;
        kids.push(child);
        proof {
            crate::common::lemma_dirs_view_push(kids_before, child);
            assert(rv.take(i + 1) =~= rv.take(i as int).push(rv[i as int]));
            lemma_snap_kids_index(path@, rv.take(i + 1));
            lemma_snap_kids_index(path@, rv.take(i as int));
            assert forall|k: int| 0 <= k < i + 1 implies snap_kids(path@, rv.take(i + 1))[k]
                == dirs_view(kids@)[k] by {
                if k < i {
                    assert(rv.take(i + 1)[k] == rv.take(i as int)[k]);
                    assert(snap_kids(path@, rv.take(i as int))[k] == snap_of(
                        join(path@, rv.take(i as int)[k].name),
                        rv.take(i as int)[k],
                    ));
                } else {
                    assert(rv.take(i + 1)[k] == rv[i as int]);
                    assert(dir_view(child) == snap_of(join(path@, rv[i as int].name), rv[i as int]));
                }
            }
            assert(dirs_view(kids@) =~= snap_kids(path@, rv.take(i + 1)));
        }
        i = i + 1;
    }
    proof {
        assert(rv.take(rv.len() as int) =~= rv);
    }
    let ghost kids_unsorted = dirs_view(kids@);
    let ghost kids_hash_facts = kids@;
    let kids_sorted = sort_nodes(kids);

    let ghost fv = raw_files_view(raw.files@);
    proof {
        assert(file_nodes(path@, fv).take(0) =~= Seq::empty());
    }
    let mut fnodes: Vec<FileInfo> = Vec::new();
    proof {
        assert(files_view(fnodes@) =~= Seq::empty());
    }
    let mut j: usize = 0;
    while j < raw.files.len()
        invariant
            j <= raw.files.len(),
            fv == raw_files_view(raw.files@),
            fv.len() == raw.files@.len(),
            fnodes@.len() == j,
            files_view(fnodes@) == file_nodes(path@, fv).take(j as int),
            forall|k: int|
                0 <= k < fnodes@.len() ==> (#[trigger] fnodes@[k]).hash@.len() == 64
                    && is_ascii_chars(fnodes@[k].hash@),
        decreases raw.files.len() - j,
    {
        let content = vstd::slice::slice_to_vec(raw.files[j].content.as_slice());
        let h = create_hash(content);
        let fpath = join_path(path, raw.files[j].name.as_str());
        let ghost fnodes_before = fnodes@;
        fnodes.push(FileInfo { path: fpath, hash: h });
        proof {
            assert(fv[j as int] == raw.files@[j as int]@);
            assert(file_nodes(path@, fv)[j as int] == (FileInfoV {
                path: join(path@, fv[j as int].name),
                hash: crate::common::sha256_hex(fv[j as int].content),
            }));
            assert forall|k: int| 0 <= k < j + 1 implies files_view(fnodes@)[k] == file_nodes(
                path@,
                fv,
            ).take(j + 1)[k] by {
                if k < j {
                    assert(fnodes@[k] == fnodes_before[k]);
                }
            }
            assert(files_view(fnodes@) =~= file_nodes(path@, fv).take(j + 1));
        }
        j = j + 1;
    }
    proof {
        assert(file_nodes(path@, fv).take(file_nodes(path@, fv).len() as int) =~= file_nodes(
            path@,
            fv,
        ));
    }
    let ghost fnodes_unsorted = files_view(fnodes@);
    let ghost fnodes_hash_facts = fnodes@;
    let files_sorted = sort_fnodes(fnodes);

    proof {
        broadcast use vstd::seq_lib::group_to_multiset_ensures;

        crate::order::lemma_isort_by_multiset(node_le(), kids_unsorted);
        lemma_dirs_view_index(kids_sorted@);
        lemma_dirs_view_index(kids_hash_facts);
        assert forall|k: int| 0 <= k < kids_sorted@.len() implies is_ascii_chars(
            (#[trigger] kids_sorted@[k]).hash@,
        ) && kids_sorted@[k].hash@.len() == 64 by {
            let e = dirs_view(kids_sorted@)[k];
            assert(dirs_view(kids_sorted@).to_multiset().contains(e));
            assert(kids_unsorted.to_multiset().contains(e));
            assert(kids_unsorted.contains(e));
            let k2 = choose|k2: int| 0 <= k2 < kids_unsorted.len() && kids_unsorted[k2] == e;
            assert(kids_unsorted[k2] == dir_view(kids_hash_facts[k2]));
            assert(e.hash == kids_hash_facts[k2].hash@);
        }
        crate::order::lemma_isort_by_multiset(fnode_le(), fnodes_unsorted);
        assert forall|k: int| 0 <= k < files_sorted@.len() implies is_ascii_chars(
            (#[trigger] files_sorted@[k]).hash@,
        ) && files_sorted@[k].hash@.len() == 64 by {
            let e = files_view(files_sorted@)[k];
            assert(files_view(files_sorted@).to_multiset().contains(e));
            assert(fnodes_unsorted.to_multiset().contains(e));
            assert(fnodes_unsorted.contains(e));
            let k2 = choose|k2: int| 0 <= k2 < fnodes_unsorted.len() && fnodes_unsorted[k2] == e;
            assert(fnodes_unsorted[k2] == fnodes_hash_facts[k2]@);
            assert(e.hash == fnodes_hash_facts[k2].hash@);
        }
    }
    let hash = hash_directory(&kids_sorted, &files_sorted);
    let d = DirectoryInfo { path: path.to_owned(), hash: hash, children: kids_sorted, files:
        files_sorted };
    proof {
        assert(d@.children == isort_by(node_le(), snap_kids(path@, raw@.dirs)));
        assert(d@.files == isort_by(fnode_le(), file_nodes(path@, raw@.files)));
    }
    d
}

/// The raw tree with every directory's entries sorted by name: the normal
/// form shared by all enumeration orders of the same content. Two walks
/// over byte-identical trees differ at most in the order in which each
/// directory's entries were listed, so their normal forms are equal.
pub open spec fn normalize(r: RawDirV) -> RawDirV
    decreases r,
{
    RawDirV {
        name: r.name,
        dirs: isort_by(raw_dir_le(), norm_kids(r.dirs)),
        files: isort_by(raw_file_le(), r.files),
    }
}

pub open spec fn norm_kids(ds: Seq<RawDirV>) -> Seq<RawDirV>
    decreases ds,
{
    if ds.len() == 0 {
        Seq::empty()
    } else {
        seq![normalize(ds[0])] + norm_kids(ds.drop_first())
    }
}

pub proof fn lemma_norm_kids_index(ds: Seq<RawDirV>)
    ensures
        norm_kids(ds).len() == ds.len(),
        forall|i: int| 0 <= i < ds.len() ==> #[trigger] norm_kids(ds)[i] == normalize(ds[i]),
    decreases ds,
{
    if ds.len() > 0 {
        lemma_norm_kids_index(ds.drop_first());
    }
}

/// Building the nodes of a sequence of raw directories is a map.
proof fn lemma_snap_kids_is_map(path: Seq<char>, ds: Seq<RawDirV>)
    ensures
        snap_kids(path, ds) == ds.map_values(|d: RawDirV| snap_of(join(path, d.name), d)),
{
    let f = |d: RawDirV| snap_of(join(path, d.name), d);
    lemma_snap_kids_index(path, ds);
    assert forall|i: int| 0 <= i < ds.len() implies snap_kids(path, ds)[i] == ds.map_values(f)[i]
        by {}
    assert(snap_kids(path, ds) =~= ds.map_values(f));
}

/// Joining entry names onto one directory path keeps their relative
/// order.
proof fn lemma_join_preserves_order(path: Seq<char>, x: Seq<char>, y: Seq<char>)
    ensures
        lex_le(join(path, x), join(path, y)) == lex_le(x, y),
{
    if path.len() == 0 {
    } else {
        let p = path + seq!['/'];
        assert(join(path, x) =~= p + x);
        assert(join(path, y) =~= p + y);
        crate::order::lemma_lex_le_common_prefix(p, x, y);
    }
}

proof fn lemma_node_le_props()
    ensures
        forall|a: DirectoryInfoV, b: DirectoryInfoV|
            #[trigger] node_le()(a, b) || #[trigger] node_le()(b, a),
        forall|a: DirectoryInfoV, b: DirectoryInfoV, c: DirectoryInfoV|
            #[trigger] node_le()(a, b) && #[trigger] node_le()(b, c) ==> node_le()(a, c),
{
    assert forall|a: DirectoryInfoV, b: DirectoryInfoV|
        #[trigger] node_le()(a, b) || #[trigger] node_le()(b, a) by {
        crate::order::lemma_lex_le_total(a.path, b.path);
    }
    assert forall|a: DirectoryInfoV, b: DirectoryInfoV, c: DirectoryInfoV|
        #[trigger] node_le()(a, b) && #[trigger] node_le()(b, c) implies node_le()(a, c) by {
        crate::order::lemma_lex_le_transitive(a.path, b.path, c.path);
    }
}

proof fn lemma_fnode_le_props()
    ensures
        forall|a: FileInfoV, b: FileInfoV| #[trigger] fnode_le()(a, b) || #[trigger] fnode_le()(
            b,
            a,
        ),
        forall|a: FileInfoV, b: FileInfoV, c: FileInfoV|
            #[trigger] fnode_le()(a, b) && #[trigger] fnode_le()(b, c) ==> fnode_le()(a, c),
{
    assert forall|a: FileInfoV, b: FileInfoV|
        #[trigger] fnode_le()(a, b) || #[trigger] fnode_le()(b, a) by {
        crate::order::lemma_lex_le_total(a.path, b.path);
    }
    assert forall|a: FileInfoV, b: FileInfoV, c: FileInfoV|
        #[trigger] fnode_le()(a, b) && #[trigger] fnode_le()(b, c) implies fnode_le()(a, c) by {
        crate::order::lemma_lex_le_transitive(a.path, b.path, c.path);
    }
}

/// Building sees only the normal form: a directory and its normalized
/// form produce the same snapshot node. Sorting the raw entries first
/// and sorting the built nodes afterwards come to the same thing, since
/// an entry's name becomes the final component of its node's path.
pub proof fn lemma_snap_of_normalize(path: Seq<char>, r: RawDirV)
    ensures
        snap_of(path, normalize(r)) == snap_of(path, r),
    decreases r,
{
    let mk = |f: RawFileV| FileInfoV {
        path: join(path, f.name),
        hash: crate::common::sha256_hex(f.content),
    };
    // files: map the sorted raw files, or sort the mapped ones
    assert forall|a: RawFileV, b: RawFileV| #[trigger]
        fnode_le()(mk(a), mk(b)) == raw_file_le()(a, b) by {
        lemma_join_preserves_order(path, a.name, b.name);
    }
    crate::order::lemma_isort_by_map_commutes(raw_file_le(), fnode_le(), mk, r.files);
    lemma_fnode_le_props();
    crate::order::lemma_isort_by_sorted(fnode_le(), r.files.map_values(mk));
    crate::order::lemma_isort_by_of_sorted(fnode_le(), isort_by(fnode_le(), r.files.map_values(mk)));
    assert(file_nodes(path, normalize(r).files) == isort_by(fnode_le(), file_nodes(path, r.files)));
    assert(isort_by(fnode_le(), file_nodes(path, normalize(r).files)) == isort_by(
        fnode_le(),
        file_nodes(path, r.files),
    ));

    // directories: the snapshot of each raw child equals that of its
    // normal form, by induction
    let f = |d: RawDirV| snap_of(join(path, d.name), d);
    lemma_norm_kids_index(r.dirs);
    assert forall|k: int| 0 <= k < r.dirs.len() implies f(norm_kids(r.dirs)[k]) == f(
        #[trigger] r.dirs[k],
    ) by {
        lemma_snap_of_normalize(join(path, r.dirs[k].name), r.dirs[k]);
        assert(normalize(r.dirs[k]).name == r.dirs[k].name);
    }
    assert(norm_kids(r.dirs).map_values(f) =~= r.dirs.map_values(f));
    assert forall|a: RawDirV, b: RawDirV| #[trigger]
        node_le()(f(a), f(b)) == raw_dir_le()(a, b) by {
        lemma_join_preserves_order(path, a.name, b.name);
    }
    lemma_snap_kids_is_map(path, isort_by(raw_dir_le(), norm_kids(r.dirs)));
    crate::order::lemma_isort_by_map_commutes(raw_dir_le(), node_le(), f, norm_kids(r.dirs));
    lemma_snap_kids_is_map(path, r.dirs);
    lemma_node_le_props();
    crate::order::lemma_isort_by_sorted(node_le(), r.dirs.map_values(f));
    crate::order::lemma_isort_by_of_sorted(node_le(), isort_by(node_le(), r.dirs.map_values(f)));
    assert(isort_by(node_le(), snap_kids(path, normalize(r).dirs)) == isort_by(
        node_le(),
        snap_kids(path, r.dirs),
    ));
}

/// Determinism: the snapshot depends only on the tree's content, not on
/// the order in which the filesystem enumerated entries. Two raw trees
/// with equal sorted normal forms build to identical snapshot nodes, and
/// so to identical root hashes.
pub proof fn lemma_build_deterministic(path: Seq<char>, a: RawDirV, b: RawDirV)
    requires
        normalize(a) == normalize(b),
    ensures
        snap_of(path, a) == snap_of(path, b),
{
    lemma_snap_of_normalize(path, a);
    lemma_snap_of_normalize(path, b);
}

/// Normalisation only reorders what is there: it keeps the name and the
/// multiset of files, and its directories are the normalized children,
/// reordered.
pub proof fn lemma_normalize_reorders(r: RawDirV)
    ensures
        normalize(r).name == r.name,
        normalize(r).files.to_multiset() == r.files.to_multiset(),
        normalize(r).dirs.to_multiset() == norm_kids(r.dirs).to_multiset(),
        norm_kids(r.dirs).len() == r.dirs.len(),
        forall|i: int| 0 <= i < r.dirs.len() ==> #[trigger] norm_kids(r.dirs)[i] == normalize(
            r.dirs[i],
        ),
{
    crate::order::lemma_isort_by_multiset(raw_file_le(), r.files);
    crate::order::lemma_isort_by_multiset(raw_dir_le(), norm_kids(r.dirs));
    lemma_norm_kids_index(r.dirs);
}

/// A snapshot of one directory tree: the base path it was taken from and
/// the hashed root directory record.
pub struct DMap {
    pub base_path: String,
    pub dir: DirectoryInfo,
}

impl DMap {
    /// Takes a snapshot of raw directory contents. The root's path is
    /// empty; every hash is composed bottom-up from the entries below it.
    pub fn create(base_path: String, root: &RawDir) -> (m: DMap)
        ensures
            m.base_path@ == base_path@,
            m.dir@ == snap_of(Seq::<char>::empty(), root@),
    {
        let empty = String::new();
        let dir = map_directory(empty.as_str(), root);
        DMap { base_path: base_path, dir: dir }
    }

    /// Reassembles a snapshot from its stored parts.
    pub fn from_parts(base_path: String, dir: DirectoryInfo) -> (m: DMap)
        ensures
            m.base_path@ == base_path@,
            m.dir == dir,
    {
        DMap { base_path: base_path, dir: dir }
    }

    /// The root hash: a digest summarising the entire tree's content.
    pub fn get_hash(&self) -> (r: String)
        ensures
            r@ == self.dir@.hash,
    {
        self.dir.hash.clone()
    }

    pub fn get_base_path(&self) -> (r: String)
        ensures
            r@ == self.base_path@,
    {
        self.base_path.clone()
    }

    /// The flat path-to-hash index of the snapshot.
    pub fn flatten(&self) -> (r: FlatIndex)
        ensures
            r.wf(),
            r@ == flat_of(self.dir@),
    {
        self.dir.flatten()
    }
}

} // verus!
