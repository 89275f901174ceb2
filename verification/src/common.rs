//! The snapshot data model: file and directory records, the content hasher,
//! and the flat path-to-hash index used for diffing.
use vstd::prelude::*;
use vstd::utf8::is_ascii_chars;
pub use crate::diff::Diff;
use crate::order::{
    lemma_lex_le_reflexive, lemma_lex_le_total, lemma_lex_lt_transitive, lex_lt, str_eq, str_le,
};

verus! {

/// Spec-level image of a `FileInfo`.
pub struct FileInfoV {
    pub path: Seq<char>,
    pub hash: Seq<char>,
}

/// One regular file inside a snapshot: its path relative to the snapshot
/// root and the hex digest of its content.
#[derive(Debug, PartialEq)]
pub struct FileInfo {
    pub path: String,
    pub hash: String,
}

impl View for FileInfo {
    type V = FileInfoV;

    open spec fn view(&self) -> FileInfoV {
        FileInfoV { path: self.path@, hash: self.hash@ }
    }
}

impl FileInfo {
    pub fn create(path: String, hash: String) -> (r: FileInfo)
        ensures
            r@ == (FileInfoV { path: path@, hash: hash@ }),
    {
        FileInfo { path, hash }
    }
}

/// Spec-level image of a `DirectoryInfo`.
pub struct DirectoryInfoV {
    pub path: Seq<char>,
    pub hash: Seq<char>,
    pub children: Seq<DirectoryInfoV>,
    pub files: Seq<FileInfoV>,
}

/// One directory inside a snapshot: its path, the hash composed from its
/// entries, and the directories and files directly below it.
#[derive(Debug, PartialEq)]
pub struct DirectoryInfo {
    pub path: String,
    pub hash: String,
    pub children: Vec<DirectoryInfo>,
    pub files: Vec<FileInfo>,
}

pub open spec fn files_view(fs: Seq<FileInfo>) -> Seq<FileInfoV> {
    fs.map_values(|f: FileInfo| f@)
}

pub open spec fn dirs_view(cs: Seq<DirectoryInfo>) -> Seq<DirectoryInfoV>
    decreases cs,
{
    if cs.len() == 0 {
        Seq::empty()
    } else {
        seq![dir_view(cs[0])] + dirs_view(cs.drop_first())
    }
}

pub open spec fn dir_view(d: DirectoryInfo) -> DirectoryInfoV
    decreases d,
{
    DirectoryInfoV {
        path: d.path@,
        hash: d.hash@,
        children: dirs_view(d.children@),
        files: files_view(d.files@),
    }
}

impl View for DirectoryInfo {
    type V = DirectoryInfoV;

    open spec fn view(&self) -> DirectoryInfoV {
        dir_view(*self)
    }
}

pub proof fn lemma_dirs_view_index(cs: Seq<DirectoryInfo>)
    ensures
        dirs_view(cs).len() == cs.len(),
        forall|i: int| 0 <= i < cs.len() ==> #[trigger] dirs_view(cs)[i] == dir_view(cs[i]),
    decreases cs,
{
    if cs.len() > 0 {
        lemma_dirs_view_index(cs.drop_first());
    }
}

pub broadcast proof fn lemma_dirs_view_push(cs: Seq<DirectoryInfo>, d: DirectoryInfo)
    ensures
        #[trigger] dirs_view(cs.push(d)) == dirs_view(cs).push(dir_view(d)),
{
    lemma_dirs_view_index(cs);
    lemma_dirs_view_index(cs.push(d));
    assert forall|i: int| 0 <= i < cs.len() + 1 implies dirs_view(cs.push(d))[i] == dirs_view(
        cs,
    ).push(dir_view(d))[i] by {
        if i < cs.len() {
            assert(cs.push(d)[i] == cs[i]);
        } else {
            assert(cs.push(d)[i] == d);
        }
    }
    assert(dirs_view(cs.push(d)) =~= dirs_view(cs).push(dir_view(d)));
}

impl DirectoryInfo {
    pub fn create(
        path: String,
        hash: String,
        children: Vec<DirectoryInfo>,
        files: Vec<FileInfo>,
    ) -> (r: DirectoryInfo)
        ensures
            r@ == (DirectoryInfoV {
                path: path@,
                hash: hash@,
                children: dirs_view(children@),
                files: files_view(files@),
            }),
    {
        DirectoryInfo { path, hash, children, files }
    }
}

/// The index of the last occurrence of `c` in `s`, or -1 if there is
/// none.
pub open spec fn last_pos(s: Seq<char>, c: char) -> int
    decreases s.len(),
{
    if s.len() == 0 {
        -1
    } else if s.last() == c {
        s.len() - 1
    } else {
        last_pos(s.drop_last(), c)
    }
}

/// The extension of a path: what follows the last `.`, provided that dot
/// lies strictly after the last `/` and is not the first character of
/// the final component (so names that begin with a dot have none).
pub open spec fn path_ext(p: Seq<char>) -> Option<Seq<char>> {
    let ls = last_pos(p, '/');
    let ld = last_pos(p, '.');
    if ld > ls + 1 {
        Some(p.skip(ld + 1))
    } else {
        None
    }
}

/// Finds a path's extension, as `path_ext` defines it.
pub fn extension_of(filename: &str) -> (r: Option<String>)
    ensures
        match r {
            Some(e) => path_ext(filename@) == Some(e@),
            None => path_ext(filename@) is None,
        },
{
    let n = filename.unicode_len();
    let mut ls: Option<usize> = None;
    let mut ld: Option<usize> = None;
    proof {
        assert(filename@.take(0) =~= Seq::<char>::empty());
    }
    let mut i: usize = 0;
    while i < n
        invariant
            i <= n,
            n == filename@.len(),
            match ls {
                Some(v) => last_pos(filename@.take(i as int), '/') == v && v < i,
                None => last_pos(filename@.take(i as int), '/') == -1,
            },
            match ld {
                Some(v) => last_pos(filename@.take(i as int), '.') == v && v < i,
                None => last_pos(filename@.take(i as int), '.') == -1,
            },
        decreases n - i,
    {
        let c = filename.get_char(i);
        proof {
            assert(filename@.take(i + 1).drop_last() =~= filename@.take(i as int));
            assert(filename@.take(i + 1).last() == filename@[i as int]);
        }
        if c == '/' {
            ls = Some(i);
        }
        if c == '.' {
            ld = Some(i);
        }
        i = i + 1;
    }
    proof {
        assert(filename@.take(n as int) =~= filename@);
    }
    match ld {
        None => None,
        Some(d) => {
            let cond = match ls {
                None => d > 0,
                Some(s) => d > s + 1,
            };
            if cond {
                let e = filename.substring_char(d + 1, n);
                proof {
                    assert(e@ =~= filename@.skip(d + 1));
                }
                Some(e.to_owned())
            } else {
                None
            }
        },
    }
}

/// How one input argument is to be read, after resolution against the
/// filesystem: a directory to walk, or a stored snapshot to load.
#[derive(Debug)]
pub enum InputType {
    Directory(String),
    MapFile(String),
}

impl InputType {
    /// Classifies an argument: a missing path is rejected; a `.json` or
    /// `.dmap` extension names a stored snapshot; no extension means a
    /// directory; any other extension is rejected. Whether the path
    /// exists is the caller's to determine.
    pub fn create(filename: &str, exists: bool) -> (r: Result<InputType, &'static str>)
        ensures
            match r {
                Ok(InputType::Directory(d)) => exists && path_ext(filename@) is None && d@
                    == filename@,
                Ok(InputType::MapFile(m)) => exists && (path_ext(filename@) == Some(("json")@)
                    || path_ext(filename@) == Some(("dmap")@)) && m@ == filename@,
                Err(e) => (!exists && e@ == ("Path does not exist")@) || (exists && path_ext(
                    filename@,
                ) is Some && !(path_ext(filename@) == Some(("json")@) || path_ext(filename@)
                    == Some(("dmap")@)) && e@ == (
                "Path is not a `.dmap` or `.json` file, or directory.")@),
            },
    {
        if !exists {
            return Err("Path does not exist");
        }
        match extension_of(filename) {
            None => Ok(InputType::Directory(filename.to_owned())),
            Some(e) => {
                if str_eq(e.as_str(), "json") || str_eq(e.as_str(), "dmap") {
                    Ok(InputType::MapFile(filename.to_owned()))
                } else {
                    Err("Path is not a `.dmap` or `.json` file, or directory.")
                }
            },
        }
    }
}

/// Carries the details of a failure for display to the user.
pub struct Exception {
    pub message: String,
    pub inner: String,
    pub hint: String,
    pub debug: String,
}

/// The hex digest that the content hasher produces for the given bytes.
/// The digest itself is not modelled; two equal byte sequences are only
/// known to produce equal digests.
pub uninterp spec fn sha256_hex(data: Seq<u8>) -> Seq<char>;

/// Relies on `crypto::sha2::Sha256` through `crypto::digest::Digest`:
/// `input` feeds the bytes and `result_str` returns the 256-bit digest hex
/// encoded with lowercase ASCII digits, 64 characters, a function of the
/// input bytes alone.
#[verifier::external_body]
pub fn create_hash(data: Vec<u8>) -> (r: String)
    ensures
        r@ == sha256_hex(data@),
        r@.len() == 64,
        is_ascii_chars(r@),
{
    let mut hasher = crypto::sha2::Sha256::new();
    crypto::digest::Digest::input(&mut hasher, data.as_slice());
    crypto::digest::Digest::result_str(&mut hasher)
}

/// The bytes of an ASCII character sequence, one byte per character.
pub open spec fn ascii_bytes(s: Seq<char>) -> Seq<u8> {
    s.map_values(|c: char| c as u8)
}

/// The digest input a directory hash is computed over: the bytes of all
/// entry hashes joined in order.
pub open spec fn concat_hash_bytes(hs: Seq<Seq<char>>) -> Seq<u8>
    decreases hs,
{
    if hs.len() == 0 {
        Seq::empty()
    } else {
        ascii_bytes(hs[0]) + concat_hash_bytes(hs.drop_first())
    }
}

/// The hash of a directory whose children carry the hashes `ch` and whose
/// files carry the hashes `fh`, in order.
pub open spec fn dir_hash_of(ch: Seq<Seq<char>>, fh: Seq<Seq<char>>) -> Seq<char> {
    sha256_hex(concat_hash_bytes(ch + fh))
}

pub proof fn lemma_concat_hash_bytes_push(hs: Seq<Seq<char>>, h: Seq<char>)
    ensures
        concat_hash_bytes(hs.push(h)) == concat_hash_bytes(hs) + ascii_bytes(h),
    decreases hs,
{
    reveal_with_fuel(concat_hash_bytes, 3);
    if hs.len() == 0 {
        assert(hs.push(h).drop_first() =~= Seq::<Seq<char>>::empty());
        assert(concat_hash_bytes(hs.push(h)) =~= concat_hash_bytes(hs) + ascii_bytes(h));
    } else {
        assert(hs.push(h).drop_first() =~= hs.drop_first().push(h));
        lemma_concat_hash_bytes_push(hs.drop_first(), h);
        assert(concat_hash_bytes(hs.push(h)) =~= concat_hash_bytes(hs) + ascii_bytes(h));
    }
}

pub proof fn lemma_concat_hash_bytes_append(a: Seq<Seq<char>>, b: Seq<Seq<char>>)
    ensures
        concat_hash_bytes(a + b) == concat_hash_bytes(a) + concat_hash_bytes(b),
    decreases b.len(),
{
    if b.len() == 0 {
        assert(a + b =~= a);
        assert(concat_hash_bytes(b) =~= Seq::<u8>::empty());
        assert(concat_hash_bytes(a) + concat_hash_bytes(b) =~= concat_hash_bytes(a));
    } else {
        lemma_concat_hash_bytes_append(a, b.drop_last());
        assert(a + b =~= (a + b.drop_last()).push(b.last()));
        lemma_concat_hash_bytes_push(a + b.drop_last(), b.last());
        assert(b =~= b.drop_last().push(b.last()));
        lemma_concat_hash_bytes_push(b.drop_last(), b.last());
        assert(concat_hash_bytes(a + b) =~= concat_hash_bytes(a) + concat_hash_bytes(b));
    }
}

/// All hashes in the sequence are 64 ASCII characters long.
pub open spec fn all_digest_shaped(hs: Seq<Seq<char>>) -> bool {
    forall|i: int| 0 <= i < hs.len() ==> (#[trigger] hs[i]).len() == 64 && is_ascii_chars(hs[i])
}

proof fn lemma_ascii_bytes_injective(a: Seq<char>, b: Seq<char>)
    requires
        is_ascii_chars(a),
        is_ascii_chars(b),
        ascii_bytes(a) == ascii_bytes(b),
    ensures
        a == b,
{
    broadcast use vstd::utf8::char_u32_cast;

    assert(ascii_bytes(a).len() == a.len());
    assert(ascii_bytes(b).len() == b.len());
    assert forall|i: int| 0 <= i < a.len() implies a[i] == b[i] by {
        assert('\0' <= a[i] <= '\u{7f}');
        assert('\0' <= b[i] <= '\u{7f}');
        assert(ascii_bytes(a)[i] == a[i] as u8);
        assert(ascii_bytes(b)[i] == b[i] as u8);
        assert((a[i] as u32) < 128 && (b[i] as u32) < 128);
        assert((a[i] as u8) as u32 == a[i] as u32);
        assert((b[i] as u8) as u32 == b[i] as u32);
    }
    assert(a =~= b);
}

/// The digest never maps two different inputs to the same output. This
/// is the hasher's cryptographic collision resistance: it cannot be
/// proved here and is taken as an explicit hypothesis where a conclusion
/// depends on it.
pub open spec fn digest_collision_free() -> bool {
    forall|x: Seq<u8>, y: Seq<u8>| sha256_hex(x) == sha256_hex(y) ==> x == y
}

/// Tamper sensitivity of the hash composition: two directories with the
/// same number of children and files whose entry hashes differ anywhere
/// get different hashes, provided the digest is collision-free. So a
/// change in any entry's hash propagates to its parent, and by the same
/// argument at each level, to every ancestor up to the root.
pub proof fn lemma_dir_hash_tamper_sensitive(
    ch1: Seq<Seq<char>>,
    fh1: Seq<Seq<char>>,
    ch2: Seq<Seq<char>>,
    fh2: Seq<Seq<char>>,
)
    requires
        digest_collision_free(),
        ch1.len() == ch2.len(),
        fh1.len() == fh2.len(),
        all_digest_shaped(ch1 + fh1),
        all_digest_shaped(ch2 + fh2),
        ch1 != ch2 || fh1 != fh2,
    ensures
        dir_hash_of(ch1, fh1) != dir_hash_of(ch2, fh2),
{
    if dir_hash_of(ch1, fh1) == dir_hash_of(ch2, fh2) {
        assert(concat_hash_bytes(ch1 + fh1) == concat_hash_bytes(ch2 + fh2));
        lemma_digest_input_injective(ch1 + fh1, ch2 + fh2);
        assert((ch1 + fh1).take(ch1.len() as int) =~= ch1);
        assert((ch2 + fh2).take(ch2.len() as int) =~= ch2);
        assert((ch1 + fh1).skip(ch1.len() as int) =~= fh1);
        assert((ch2 + fh2).skip(ch2.len() as int) =~= fh2);
        assert(false);
    }
}

/// The digest input determines the entry hashes it was composed from:
/// two directories with the same number of children and files feed equal
/// bytes to the hasher only if every entry hash is equal. So a change in
/// any entry hash changes the bytes the parent's digest is computed over;
/// that it changes the digest itself is the hasher's collision resistance,
/// which is assumed, not proved.
pub proof fn lemma_digest_input_injective(h1: Seq<Seq<char>>, h2: Seq<Seq<char>>)
    requires
        h1.len() == h2.len(),
        all_digest_shaped(h1),
        all_digest_shaped(h2),
        concat_hash_bytes(h1) == concat_hash_bytes(h2),
    ensures
        h1 == h2,
    decreases h1,
{
    if h1.len() > 0 {
        let b1 = concat_hash_bytes(h1);
        let b2 = concat_hash_bytes(h2);
        assert(ascii_bytes(h1[0]).len() == 64);
        assert(ascii_bytes(h2[0]).len() == 64);
        assert(ascii_bytes(h1[0]) =~= b1.take(64));
        assert(ascii_bytes(h2[0]) =~= b2.take(64));
        lemma_ascii_bytes_injective(h1[0], h2[0]);
        assert(concat_hash_bytes(h1.drop_first()) =~= b1.skip(64));
        assert(concat_hash_bytes(h2.drop_first()) =~= b2.skip(64));
        assert(all_digest_shaped(h1.drop_first())) by {
            assert(forall|i: int|
                0 <= i < h1.drop_first().len() ==> h1.drop_first()[i] == h1[i + 1]);
        }
        assert(all_digest_shaped(h2.drop_first())) by {
            assert(forall|i: int|
                0 <= i < h2.drop_first().len() ==> h2.drop_first()[i] == h2[i + 1]);
        }
        lemma_digest_input_injective(h1.drop_first(), h2.drop_first());
        assert forall|i: int| 0 <= i < h1.len() implies h1[i] == h2[i] by {
            if i > 0 {
                assert(h1.drop_first()[i - 1] == h2.drop_first()[i - 1]);
            }
        }
        assert(h1 =~= h2);
    } else {
        assert(h1 =~= h2);
    }
}

/// Maps each entry's path to its hash, later entries overriding earlier
/// ones.
pub open spec fn map_of_entries(s: Seq<FileInfoV>) -> Map<Seq<char>, Seq<char>>
    decreases s,
{
    if s.len() == 0 {
        Map::empty()
    } else {
        map_of_entries(s.drop_last()).insert(s.last().path, s.last().hash)
    }
}

/// No two entries carry the same path.
pub open spec fn unique_paths(s: Seq<FileInfoV>) -> bool {
    forall|i: int, j: int|
        0 <= i < j < s.len() ==> (#[trigger] s[i]).path != (#[trigger] s[j]).path
}

pub proof fn lemma_map_of_entries_contains(s: Seq<FileInfoV>, p: Seq<char>)
    ensures
        map_of_entries(s).contains_key(p) == (exists|i: int|
            0 <= i < s.len() && (#[trigger] s[i]).path == p),
    decreases s,
{
    if s.len() > 0 {
        lemma_map_of_entries_contains(s.drop_last(), p);
        if s.last().path == p {
            assert(s[s.len() - 1].path == p);
        } else {
            if exists|i: int| 0 <= i < s.len() && (#[trigger] s[i]).path == p {
                let i = choose|i: int| 0 <= i < s.len() && (#[trigger] s[i]).path == p;
                assert(i < s.len() - 1);
                assert(s.drop_last()[i].path == p);
            }
            assert forall|i: int| 0 <= i < s.drop_last().len() && (#[trigger] s.drop_last()[i]).path
                == p implies exists|j: int| 0 <= j < s.len() && (#[trigger] s[j]).path == p by {
                assert(s[i].path == p);
            }
        }
    }
}

pub proof fn lemma_map_of_entries_value(s: Seq<FileInfoV>, i: int)
    requires
        unique_paths(s),
        0 <= i < s.len(),
    ensures
        map_of_entries(s).contains_key(s[i].path),
        map_of_entries(s)[s[i].path] == s[i].hash,
    decreases s,
{
    if i == s.len() - 1 {
        assert(s.last() == s[i]);
    } else {
        assert(unique_paths(s.drop_last())) by {
            assert(forall|k: int| 0 <= k < s.len() - 1 ==> s.drop_last()[k] == s[k]);
        }
        lemma_map_of_entries_value(s.drop_last(), i);
        assert(s.drop_last()[i] == s[i]);
        assert(s.last().path != s[i].path);
    }
}

pub proof fn lemma_map_of_entries_dom_len(s: Seq<FileInfoV>)
    requires
        unique_paths(s),
    ensures
        map_of_entries(s).dom().finite(),
        map_of_entries(s).dom().len() == s.len(),
    decreases s,
{
    if s.len() > 0 {
        assert(unique_paths(s.drop_last())) by {
            assert(forall|k: int| 0 <= k < s.len() - 1 ==> s.drop_last()[k] == s[k]);
        }
        lemma_map_of_entries_dom_len(s.drop_last());
        lemma_map_of_entries_contains(s.drop_last(), s.last().path);
        assert forall|i: int|
            0 <= i < s.drop_last().len() implies (#[trigger] s.drop_last()[i]).path
            != s.last().path by {
            assert(s[i] == s.drop_last()[i]);
            assert(s[i].path != s[s.len() - 1].path);
        }
        assert(!map_of_entries(s.drop_last()).contains_key(s.last().path));
        assert(map_of_entries(s).dom() =~= map_of_entries(s.drop_last()).dom().insert(
            s.last().path,
        ));
    } else {
        assert(map_of_entries(s).dom() =~= Set::empty());
    }
}

/// A flat path-to-hash index derived from a snapshot: one entry per file,
/// stored sorted strictly by path, viewed as a map from path to hash.
pub struct FlatIndex {
    pub entries: Vec<FileInfo>,
}

impl View for FlatIndex {
    type V = Map<Seq<char>, Seq<char>>;

    open spec fn view(&self) -> Map<Seq<char>, Seq<char>> {
        map_of_entries(files_view(self.entries@))
    }
}

impl FlatIndex {
    /// The stored entries, in path order.
    pub open spec fn entries_seq(&self) -> Seq<FileInfoV> {
        files_view(self.entries@)
    }

    /// Entries are strictly sorted by path, so each path occurs once.
    pub open spec fn wf(&self) -> bool {
        forall|i: int, j: int|
            0 <= i < j < self.entries_seq().len() ==> lex_lt(
                (#[trigger] self.entries_seq()[i]).path,
                (#[trigger] self.entries_seq()[j]).path,
            )
    }

    pub proof fn lemma_wf_unique(&self)
        requires
            self.wf(),
        ensures
            unique_paths(self.entries_seq()),
    {
    }

    pub fn new() -> (r: FlatIndex)
        ensures
            r.wf(),
            r@ == Map::<Seq<char>, Seq<char>>::empty(),
    {
        let r = FlatIndex { entries: Vec::new() };
        proof {
            assert(files_view(r.entries@) =~= Seq::empty());
        }
        r
    }

    /// The number of entries, which is the number of distinct paths.
    pub fn len(&self) -> (r: usize)
        requires
            self.wf(),
        ensures
            r == self@.dom().len(),
    {
        proof {
            self.lemma_wf_unique();
            lemma_map_of_entries_dom_len(self.entries_seq());
        }
        self.entries.len()
    }

    /// Adds one path-to-hash entry, replacing the hash if the path is
    /// already present.
    pub fn insert(&mut self, path: String, hash: String)
        requires
            old(self).wf(),
        ensures
            final(self).wf(),
            final(self)@ == old(self)@.insert(path@, hash@),
    {
        let ghost s0 = self.entries_seq();
        let mut idx: usize = 0;
        while idx < self.entries.len() && !str_le(path.as_str(), self.entries[idx].path.as_str())
            invariant
                idx <= self.entries.len(),
                *self == *old(self),
                s0 == self.entries_seq(),
                forall|k: int| 0 <= k < idx ==> lex_lt((#[trigger] s0[k]).path, path@),
            decreases self.entries.len() - idx,
        {
            proof {
                lemma_lex_le_total(path@, s0[idx as int].path);
                lemma_lex_le_reflexive(path@);
            }
            idx = idx + 1;
        }
        let replace = if idx < self.entries.len() {
            str_eq(path.as_str(), self.entries[idx].path.as_str())
        } else {
            false
        };
        if replace {
            let e = FileInfo { path, hash };
            let ghost ev = e@;
            self.entries.set(idx, e);
            proof {
                assert(self.entries_seq() =~= s0.update(idx as int, ev));
                old(self).lemma_wf_unique();
                lemma_map_of_entries_update(s0, idx as int, ev);
                assert forall|i: int, j: int|
                    0 <= i < j < self.entries_seq().len() implies lex_lt(
                    (#[trigger] self.entries_seq()[i]).path,
                    (#[trigger] self.entries_seq()[j]).path,
                ) by {
                    assert(self.entries_seq()[i].path == s0[i].path);
                    assert(self.entries_seq()[j].path == s0[j].path);
                }
            }
        } else {
            let e = FileInfo { path, hash };
            let ghost ev = e@;
            self.entries.insert(idx, e);
            proof {
                assert(self.entries_seq() =~= s0.insert(idx as int, ev));
                s0.insert_ensures(idx as int, ev);
                if (idx as int) < s0.len() {
                    assert(lex_lt(ev.path, s0[idx as int].path));
                }
                assert forall|k: int| 0 <= k < s0.len() implies (#[trigger] s0[k]).path
                    != ev.path by {
                    if k < idx {
                    } else if k == idx {
                    } else {
                        lemma_lex_lt_transitive(ev.path, s0[idx as int].path, s0[k].path);
                    }
                }
                lemma_map_of_entries_insert_at(s0, idx as int, ev);
                assert forall|i: int, j: int|
                    0 <= i < j < self.entries_seq().len() implies lex_lt(
                    (#[trigger] self.entries_seq()[i]).path,
                    (#[trigger] self.entries_seq()[j]).path,
                ) by {
                    let t = s0.insert(idx as int, ev);
                    if j < idx {
                        assert(t[i] == s0[i] && t[j] == s0[j]);
                    } else if i < idx && j == idx {
                        assert(t[i] == s0[i] && t[j] == ev);
                    } else if i < idx && j > idx {
                        assert(t[i] == s0[i] && t[j] == s0[j - 1]);
                        if j - 1 == idx {
                            assert(lex_lt(s0[i].path, ev.path));
                            assert(lex_lt(ev.path, s0[idx as int].path));
                            lemma_lex_lt_transitive(s0[i].path, ev.path, s0[idx as int].path);
                        }
                    } else if i == idx && j > idx {
                        assert(t[i] == ev && t[j] == s0[j - 1]);
                        if j - 1 > idx {
                            lemma_lex_lt_transitive(ev.path, s0[idx as int].path, s0[j - 1].path);
                        }
                    } else {
                        assert(t[i] == s0[i - 1] && t[j] == s0[j - 1]);
                    }
                }
            }
        }
    }

    /// Looks one path up, returning its hash when the path is present.
    pub fn get(&self, path: &str) -> (r: Option<String>)
        requires
            self.wf(),
        ensures
            match r {
                Some(h) => self@.contains_key(path@) && h@ == self@[path@],
                None => !self@.contains_key(path@),
            },
    {
        let mut i: usize = 0;
        while i < self.entries.len()
            invariant
                i <= self.entries.len(),
                self.wf(),
                forall|k: int| 0 <= k < i ==> (#[trigger] self.entries_seq()[k]).path != path@,
            decreases self.entries.len() - i,
        {
            if str_eq(self.entries[i].path.as_str(), path) {
                proof {
                    self.lemma_wf_unique();
                    lemma_map_of_entries_value(self.entries_seq(), i as int);
                }
                return Some(self.entries[i].hash.clone());
            }
            i = i + 1;
        }
        proof {
            lemma_map_of_entries_contains(self.entries_seq(), path@);
        }
        None
    }
}

/// The flat index of a directory: its own files keyed by path, merged
/// with the flat index of every child, later maps overriding earlier
/// ones.
pub open spec fn flat_of(d: DirectoryInfoV) -> Map<Seq<char>, Seq<char>>
    decreases d,
{
    flat_merge(map_of_entries(d.files), d.children)
}

pub open spec fn flat_merge(
    m: Map<Seq<char>, Seq<char>>,
    cs: Seq<DirectoryInfoV>,
) -> Map<Seq<char>, Seq<char>>
    decreases cs,
{
    if cs.len() == 0 {
        m
    } else {
        flat_merge(m.union_prefer_right(flat_of(cs[0])), cs.drop_first())
    }
}

impl DirectoryInfo {
    /// The directory's own files as a flat index, keyed by path.
    pub fn files_to_dict(&self) -> (r: FlatIndex)
        ensures
            r.wf(),
            r@ == map_of_entries(self@.files),
    {
        let mut r = FlatIndex::new();
        proof {
            assert(files_view(self.files@).take(0) =~= Seq::empty());
            assert(map_of_entries(Seq::empty()) =~= Map::<Seq<char>, Seq<char>>::empty());
        }
        let mut i: usize = 0;
        while i < self.files.len()
            invariant
                i <= self.files.len(),
                r.wf(),
                r@ == map_of_entries(files_view(self.files@).take(i as int)),
            decreases self.files.len() - i,
        {
            r.insert(self.files[i].path.clone(), self.files[i].hash.clone());
            proof {
                let fv = files_view(self.files@);
                assert(fv.take(i + 1).drop_last() =~= fv.take(i as int));
                assert(fv.take(i + 1).last() == fv[i as int]);
            }
            i = i + 1;
        }
        proof {
            assert(files_view(self.files@).take(self.files@.len() as int) =~= files_view(
                self.files@,
            ));
        }
        r
    }

    /// The flat index of the whole subtree: every reachable file keyed by
    /// its path; directory hashes are not part of the index.
    pub fn flatten(&self) -> (r: FlatIndex)
        ensures
            r.wf(),
            r@ == flat_of(self@),
        decreases *self,
    {
        let mut r = self.files_to_dict();
        proof {
            lemma_dirs_view_index(self.children@);
            assert(dirs_view(self.children@).skip(0) =~= dirs_view(self.children@));
        }
        let mut ci: usize = 0;
        while ci < self.children.len()
            invariant
                ci <= self.children.len(),
                r.wf(),
                dirs_view(self.children@).len() == self.children@.len(),
                flat_merge(r@, dirs_view(self.children@).skip(ci as int)) == flat_of(self@),
            decreases self.children.len() - ci,
        {
            let cf = self.children[ci].flatten();
            let ghost rbase = r@;
            proof {
                assert(cf.entries_seq().take(0) =~= Seq::empty());
                assert(map_of_entries(Seq::empty()) =~= Map::<Seq<char>, Seq<char>>::empty());
                assert(rbase.union_prefer_right(Map::empty()) =~= rbase);
            }
            let mut k: usize = 0;
            while k < cf.entries.len()
                invariant
                    k <= cf.entries.len(),
                    r.wf(),
                    cf.wf(),
                    r@ == rbase.union_prefer_right(
                        map_of_entries(cf.entries_seq().take(k as int)),
                    ),
                decreases cf.entries.len() - k,
            {
                r.insert(cf.entries[k].path.clone(), cf.entries[k].hash.clone());
                proof {
                    let es = cf.entries_seq();
                    assert(es.take(k + 1).drop_last() =~= es.take(k as int));
                    assert(es.take(k + 1).last() == es[k as int]);
                    assert(rbase.union_prefer_right(map_of_entries(es.take(k as int))).insert(
                        es[k as int].path,
                        es[k as int].hash,
                    ) =~= rbase.union_prefer_right(map_of_entries(es.take(k + 1))));
                }
                k = k + 1;
            }
            proof {
                let es = cf.entries_seq();
                assert(es.take(es.len() as int) =~= es);
                lemma_dirs_view_index(self.children@);
                let rest = dirs_view(self.children@).skip(ci as int);
                assert(rest[0] == dirs_view(self.children@)[ci as int]);
                assert(dirs_view(self.children@)[ci as int] == dir_view(self.children@[ci as int]));
                assert(rest.drop_first() =~= dirs_view(self.children@).skip(ci + 1));
            }
            ci = ci + 1;
        }
        proof {
            assert(dirs_view(self.children@).skip(self.children@.len() as int)
                =~= Seq::<DirectoryInfoV>::empty());
        }
        r
    }
}

/// Some file with path `p` is reachable in the tree below `d`.
pub open spec fn tree_has_file(d: DirectoryInfoV, p: Seq<char>) -> bool
    decreases d,
{
    (exists|i: int| 0 <= i < d.files.len() && (#[trigger] d.files[i]).path == p) || (exists|i: int|
        0 <= i < d.children.len() && tree_has_file(#[trigger] d.children[i], p))
}

proof fn lemma_flat_merge_contains(m: Map<Seq<char>, Seq<char>>, cs: Seq<DirectoryInfoV>, p: Seq<
    char,
>)
    ensures
        flat_merge(m, cs).contains_key(p) == (m.contains_key(p) || exists|i: int|
            0 <= i < cs.len() && flat_of(#[trigger] cs[i]).contains_key(p)),
    decreases cs,
{
    if cs.len() > 0 {
        lemma_flat_merge_contains(m.union_prefer_right(flat_of(cs[0])), cs.drop_first(), p);
        if exists|i: int|
            0 <= i < cs.drop_first().len() && flat_of(
                #[trigger] cs.drop_first()[i],
            ).contains_key(p) {
            let i = choose|i: int|
                0 <= i < cs.drop_first().len() && flat_of(
                    #[trigger] cs.drop_first()[i],
                ).contains_key(p);
            assert(flat_of(cs[i + 1]).contains_key(p));
        }
        if m.union_prefer_right(flat_of(cs[0])).contains_key(p) {
            assert(m.contains_key(p) || flat_of(cs[0]).contains_key(p));
        }
        if exists|i: int| 0 <= i < cs.len() && flat_of(#[trigger] cs[i]).contains_key(p) {
            let i = choose|i: int|
                0 <= i < cs.len() && flat_of(#[trigger] cs[i]).contains_key(p);
            if i > 0 {
                assert(flat_of(cs.drop_first()[i - 1]).contains_key(p));
            }
        }
    }
}

/// The flat index holds exactly the paths of the files reachable in the
/// tree: every file appears under its path, and nothing else does, in
/// particular no directory.
pub proof fn lemma_flat_of_contains(d: DirectoryInfoV, p: Seq<char>)
    ensures
        flat_of(d).contains_key(p) == tree_has_file(d, p),
    decreases d,
{
    lemma_flat_merge_contains(map_of_entries(d.files), d.children, p);
    lemma_map_of_entries_contains(d.files, p);
    assert forall|i: int| 0 <= i < d.children.len() implies flat_of(
        #[trigger] d.children[i],
    ).contains_key(p) == tree_has_file(d.children[i], p) by {
        lemma_flat_of_contains(d.children[i], p);
    }
}

pub proof fn lemma_map_of_entries_insert_at(s: Seq<FileInfoV>, i: int, e: FileInfoV)
    requires
        0 <= i <= s.len(),
        forall|k: int| 0 <= k < s.len() ==> (#[trigger] s[k]).path != e.path,
    ensures
        map_of_entries(s.insert(i, e)) == map_of_entries(s).insert(e.path, e.hash),
    decreases s.len(),
{
    let t = s.insert(i, e);
    s.insert_ensures(i, e);
    if i == s.len() {
        assert(t.drop_last() =~= s);
        assert(t.last() == e);
    } else {
        assert(t.last() == s.last());
        assert(t.drop_last() =~= s.drop_last().insert(i, e));
        assert(forall|k: int| 0 <= k < s.drop_last().len() ==> s.drop_last()[k] == s[k]);
        lemma_map_of_entries_insert_at(s.drop_last(), i, e);
        assert(e.path != s.last().path) by {
            assert(s[s.len() - 1].path != e.path);
        }
        assert(map_of_entries(s.drop_last()).insert(e.path, e.hash).insert(
            s.last().path,
            s.last().hash,
        ) =~= map_of_entries(s.drop_last()).insert(s.last().path, s.last().hash).insert(
            e.path,
            e.hash,
        ));
    }
}

pub proof fn lemma_map_of_entries_update(s: Seq<FileInfoV>, i: int, e: FileInfoV)
    requires
        unique_paths(s),
        0 <= i < s.len(),
        s[i].path == e.path,
    ensures
        map_of_entries(s.update(i, e)) == map_of_entries(s).insert(e.path, e.hash),
    decreases s.len(),
{
    let t = s.update(i, e);
    if i == s.len() - 1 {
        assert(t.drop_last() =~= s.drop_last());
        assert(t.last() == e);
        assert(map_of_entries(s.drop_last()).insert(e.path, e.hash) =~= map_of_entries(
            s.drop_last(),
        ).insert(s.last().path, s.last().hash).insert(e.path, e.hash));
    } else {
        assert(t.last() == s.last());
        assert(t.drop_last() =~= s.drop_last().update(i, e));
        assert(unique_paths(s.drop_last())) by {
            assert(forall|k: int| 0 <= k < s.len() - 1 ==> s.drop_last()[k] == s[k]);
        }
        assert(s.drop_last()[i] == s[i]);
        lemma_map_of_entries_update(s.drop_last(), i, e);
        assert(e.path != s.last().path) by {
            assert(s[i].path != s[s.len() - 1].path);
        }
        assert(map_of_entries(s.drop_last()).insert(e.path, e.hash).insert(
            s.last().path,
            s.last().hash,
        ) =~= map_of_entries(s.drop_last()).insert(s.last().path, s.last().hash).insert(
            e.path,
            e.hash,
        ));
    }
}

} // verus!
