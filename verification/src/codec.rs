//! The persisted form of a snapshot: a compact object text with `path`,
//! `hash`, `children` and `files` members, written and read back by this
//! module. Reading is exact: a text is accepted only if it is the
//! serialized form of some tree, and then yields that tree.
use vstd::prelude::*;
use crate::common::{
    dir_view, dirs_view, files_view, DirectoryInfo, DirectoryInfoV, FileInfo, FileInfoV,
};

verus! {

/// The escaped form of a string value: backslash and double quote are
/// preceded by a backslash, all other characters stand for themselves.
pub open spec fn esc(s: Seq<char>) -> Seq<char>
    decreases s.len(),
{
    if s.len() == 0 {
        Seq::empty()
    } else {
        let head = if s[0] == '"' || s[0] == '\\' {
            seq!['\\', s[0]]
        } else {
            seq![s[0]]
        };
        head + esc(s.drop_first())
    }
}

pub open spec fn lit_path() -> Seq<char> {
    seq!['{', '"', 'p', 'a', 't', 'h', '"', ':', '"']
}

pub open spec fn lit_hash() -> Seq<char> {
    seq![',', '"', 'h', 'a', 's', 'h', '"', ':', '"']
}

pub open spec fn lit_children() -> Seq<char> {
    seq![',', '"', 'c', 'h', 'i', 'l', 'd', 'r', 'e', 'n', '"', ':', '[']
}

pub open spec fn lit_files() -> Seq<char> {
    seq![']', ',', '"', 'f', 'i', 'l', 'e', 's', '"', ':', '[']
}

pub open spec fn lit_dir_end() -> Seq<char> {
    seq![']', '}']
}

pub open spec fn lit_file_end() -> Seq<char> {
    seq!['}']
}

/// The serialized form of one file record.
pub open spec fn ser_file(f: FileInfoV) -> Seq<char> {
    lit_path() + esc(f.path) + seq!['"'] + lit_hash() + esc(f.hash) + seq!['"'] + lit_file_end()
}

/// The serialized forms of a list of file records, separated by commas.
pub open spec fn ser_files(fs: Seq<FileInfoV>) -> Seq<char>
    decreases fs.len(),
{
    if fs.len() == 0 {
        Seq::empty()
    } else if fs.len() == 1 {
        ser_file(fs[0])
    } else {
        ser_file(fs[0]) + seq![','] + ser_files(fs.drop_first())
    }
}

/// The serialized form of one directory record, children before files.
pub open spec fn ser_dir(d: DirectoryInfoV) -> Seq<char>
    decreases d,
{
    lit_path() + esc(d.path) + seq!['"'] + lit_hash() + esc(d.hash) + seq!['"'] + lit_children()
        + ser_dirs(d.children) + lit_files() + ser_files(d.files) + lit_dir_end()
}

/// The serialized forms of a list of directory records, separated by
/// commas.
pub open spec fn ser_dirs(ds: Seq<DirectoryInfoV>) -> Seq<char>
    decreases ds,
{
    if ds.len() == 0 {
        Seq::empty()
    } else if ds.len() == 1 {
        ser_dir(ds[0])
    } else {
        ser_dir(ds[0]) + seq![','] + ser_dirs(ds.drop_first())
    }
}

/// Consumes one fixed literal at position `i`.
pub open spec fn p_lit(s: Seq<char>, i: int, lit: Seq<char>) -> Option<int> {
    if 0 <= i && i + lit.len() <= s.len() && s.subrange(i, i + lit.len()) == lit {
        Some(i + lit.len())
    } else {
        None
    }
}

/// Consumes an escaped string value and its closing quote, yielding the
/// unescaped value.
pub open spec fn p_str(s: Seq<char>, i: int) -> Option<(Seq<char>, int)>
    decreases s.len() - i,
{
    if i < 0 || i >= s.len() {
        None
    } else if s[i] == '"' {
        Some((Seq::empty(), i + 1))
    } else if s[i] == '\\' {
        if i + 1 < s.len() && (s[i + 1] == '"' || s[i + 1] == '\\') {
            match p_str(s, i + 2) {
                Some((v, j)) => Some((seq![s[i + 1]] + v, j)),
                None => None,
            }
        } else {
            None
        }
    } else {
        match p_str(s, i + 1) {
            Some((v, j)) => Some((seq![s[i]] + v, j)),
            None => None,
        }
    }
}

/// Consumes one directory record at position `i`.
pub open spec fn p_dir(s: Seq<char>, i: int) -> Option<(DirectoryInfoV, int)>
    decreases s.len() - i, 0int,
{
    match p_lit(s, i, lit_path()) {
        None => None,
        Some(j1) => match p_str(s, j1) {
            None => None,
            Some((path, j2)) => if j2 > s.len() || j2 <= i {
                None
            } else {
                match p_lit(s, j2, lit_hash()) {
                    None => None,
                    Some(j3) => match p_str(s, j3) {
                        None => None,
                        Some((hash, j4)) => if j4 > s.len() || j4 <= i {
                            None
                        } else {
                            match p_lit(s, j4, lit_children()) {
                                None => None,
                                Some(j5) => match p_dirs(s, j5) {
                                    None => None,
                                    Some((children, j6)) => if j6 > s.len() || j6 <= i {
                                        None
                                    } else {
                                        match p_lit(s, j6, lit_files()) {
                                            None => None,
                                            Some(j7) => match p_files(s, j7) {
                                                None => None,
                                                Some((files, j8)) => match p_lit(
                                                    s,
                                                    j8,
                                                    lit_dir_end(),
                                                ) {
                                                    None => None,
                                                    Some(j9) => Some(
                                                        (
                                                            DirectoryInfoV {
                                                                path: path,
                                                                hash: hash,
                                                                children: children,
                                                                files: files,
                                                            },
                                                            j9,
                                                        ),
                                                    ),
                                                },
                                            },
                                        }
                                    },
                                },
                            }
                        },
                    },
                }
            },
        },
    }
}

/// Consumes a possibly empty comma-separated list of directory records;
/// the closing `]` is left for the caller.
pub open spec fn p_dirs(s: Seq<char>, i: int) -> Option<(Seq<DirectoryInfoV>, int)>
    decreases s.len() - i, 2int,
{
    if i < 0 || i >= s.len() {
        None
    } else if s[i] == ']' {
        Some((Seq::empty(), i))
    } else {
        match p_dir(s, i) {
            None => None,
            Some((d, j)) => if j <= i || j > s.len() {
                None
            } else {
                match p_more_dirs(s, j) {
                    None => None,
                    Some((ds, k)) => Some((seq![d] + ds, k)),
                }
            },
        }
    }
}

/// Consumes the remaining `,`-led directory records of a list.
pub open spec fn p_more_dirs(s: Seq<char>, i: int) -> Option<(Seq<DirectoryInfoV>, int)>
    decreases s.len() - i, 1int,
{
    if 0 <= i && i < s.len() && s[i] == ',' {
        match p_dir(s, i + 1) {
            None => None,
            Some((d, j)) => if j <= i + 1 || j > s.len() {
                None
            } else {
                match p_more_dirs(s, j) {
                    None => None,
                    Some((ds, k)) => Some((seq![d] + ds, k)),
                }
            },
        }
    } else {
        Some((Seq::empty(), i))
    }
}

/// Consumes one file record at position `i`.
pub open spec fn p_file(s: Seq<char>, i: int) -> Option<(FileInfoV, int)> {
    match p_lit(s, i, lit_path()) {
        None => None,
        Some(j1) => match p_str(s, j1) {
            None => None,
            Some((path, j2)) => if j2 > s.len() || j2 <= i {
                None
            } else {
                match p_lit(s, j2, lit_hash()) {
                    None => None,
                    Some(j3) => match p_str(s, j3) {
                        None => None,
                        Some((hash, j4)) => if j4 > s.len() || j4 <= i {
                            None
                        } else {
                            match p_lit(s, j4, lit_file_end()) {
                                None => None,
                                Some(j5) => Some((FileInfoV { path: path, hash: hash }, j5)),
                            }
                        },
                    },
                }
            },
        },
    }
}

/// Consumes a possibly empty comma-separated list of file records; the
/// closing `]` is left for the caller.
pub open spec fn p_files(s: Seq<char>, i: int) -> Option<(Seq<FileInfoV>, int)>
    decreases s.len() - i, 1int,
{
    if i < 0 || i >= s.len() {
        None
    } else if s[i] == ']' {
        Some((Seq::empty(), i))
    } else {
        match p_file(s, i) {
            None => None,
            Some((f, j)) => if j <= i || j > s.len() {
                None
            } else {
                match p_more_files(s, j) {
                    None => None,
                    Some((fs, k)) => Some((seq![f] + fs, k)),
                }
            },
        }
    }
}

/// Consumes the remaining `,`-led file records of a list.
pub open spec fn p_more_files(s: Seq<char>, i: int) -> Option<(Seq<FileInfoV>, int)>
    decreases s.len() - i, 0int,
{
    if 0 <= i && i < s.len() && s[i] == ',' {
        match p_file(s, i + 1) {
            None => None,
            Some((f, j)) => if j <= i + 1 || j > s.len() {
                None
            } else {
                match p_more_files(s, j) {
                    None => None,
                    Some((fs, k)) => Some((seq![f] + fs, k)),
                }
            },
        }
    } else {
        Some((Seq::empty(), i))
    }
}

/// The escaped form of one character.
pub open spec fn esc1(c: char) -> Seq<char> {
    if c == '"' || c == '\\' {
        seq!['\\', c]
    } else {
        seq![c]
    }
}

proof fn lemma_esc_push(t: Seq<char>, c: char)
    ensures
        esc(t.push(c)) == esc(t) + esc1(c),
    decreases t.len(),
{
    reveal_with_fuel(esc, 3);
    if t.len() == 0 {
        assert(t.push(c)[0] == c);
        assert(t.push(c).drop_first() =~= Seq::<char>::empty());
        assert(esc(t.push(c)) =~= esc(t) + esc1(c));
    } else {
        assert(t.push(c)[0] == t[0]);
        assert(t.push(c).drop_first() =~= t.drop_first().push(c));
        lemma_esc_push(t.drop_first(), c);
        assert(esc(t.push(c)) =~= esc(t) + esc1(c));
    }
}

proof fn lemma_ser_files_push(t: Seq<FileInfoV>, f: FileInfoV)
    ensures
        ser_files(t.push(f)) == if t.len() == 0 {
            ser_file(f)
        } else {
            ser_files(t) + seq![','] + ser_file(f)
        },
    decreases t.len(),
{
    if t.len() == 0 {
        assert(t.push(f)[0] == f);
        assert(ser_files(t.push(f)) == ser_file(f));
    } else if t.len() == 1 {
        assert(t.push(f)[0] == t[0]);
        assert(t.push(f).drop_first() =~= seq![f]);
        assert(ser_files(seq![f]) == ser_file(f));
        assert(ser_files(t.push(f)) =~= ser_files(t) + seq![','] + ser_file(f));
    } else {
        assert(t.push(f)[0] == t[0]);
        assert(t.push(f).drop_first() =~= t.drop_first().push(f));
        lemma_ser_files_push(t.drop_first(), f);
        assert(ser_files(t.push(f)) =~= ser_files(t) + seq![','] + ser_file(f));
    }
}

proof fn lemma_ser_dirs_push(t: Seq<DirectoryInfoV>, d: DirectoryInfoV)
    ensures
        ser_dirs(t.push(d)) == if t.len() == 0 {
            ser_dir(d)
        } else {
            ser_dirs(t) + seq![','] + ser_dir(d)
        },
    decreases t.len(),
{
    if t.len() == 0 {
        assert(t.push(d)[0] == d);
        assert(ser_dirs(t.push(d)) == ser_dir(d));
    } else if t.len() == 1 {
        assert(t.push(d)[0] == t[0]);
        assert(t.push(d).drop_first() =~= seq![d]);
        assert(ser_dirs(seq![d]) == ser_dir(d));
        assert(ser_dirs(t.push(d)) =~= ser_dirs(t) + seq![','] + ser_dir(d));
    } else {
        assert(t.push(d)[0] == t[0]);
        assert(t.push(d).drop_first() =~= t.drop_first().push(d));
        lemma_ser_dirs_push(t.drop_first(), d);
        assert(ser_dirs(t.push(d)) =~= ser_dirs(t) + seq![','] + ser_dir(d));
    }
}

/// Appends the escaped form of `s`.
fn push_esc(out: &mut Vec<char>, s: &str)
    ensures
        final(out)@ == old(out)@ + esc(s@),
{
    let ghost base = out@;
    let n = s.unicode_len();
    proof {
        assert(s@.take(0) =~= Seq::empty());
        assert(base + esc(s@.take(0)) =~= base);
    }
    let mut k: usize = 0;
    while k < n
        invariant
            k <= n,
            n == s@.len(),
            out@ == base + esc(s@.take(k as int)),
        decreases n - k,
    {
        let c = s.get_char(k);
        if c == '"' || c == '\\' {
            out.push('\\');
            out.push(c);
        } else {
            out.push(c);
        }
        proof {
            assert(s@.take(k + 1) =~= s@.take(k as int).push(s@[k as int]));
            lemma_esc_push(s@.take(k as int), s@[k as int]);
            assert(out@ =~= base + esc(s@.take(k + 1)));
        }
        k = k + 1;
    }
    proof {
        assert(s@.take(s@.len() as int) =~= s@);
    }
}

/// Appends the opening of a record: its quoted path and hash members.
fn push_entry_header(out: &mut Vec<char>, path: &str, hash: &str)
    ensures
        final(out)@ == old(out)@ + lit_path() + esc(path@) + seq!['"'] + lit_hash() + esc(hash@)
            + seq!['"'],
{
    let ghost base = out@;
    out.push('{');
    out.push('"');
    out.push('p');
    out.push('a');
    out.push('t');
    out.push('h');
    out.push('"');
    out.push(':');
    out.push('"');
    proof {
        assert(out@ =~= base + lit_path());
    }
    push_esc(out, path);
    out.push('"');
    out.push(',');
    out.push('"');
    out.push('h');
    out.push('a');
    out.push('s');
    out.push('h');
    out.push('"');
    out.push(':');
    out.push('"');
    proof {
        assert(out@ =~= base + lit_path() + esc(path@) + seq!['"'] + lit_hash());
    }
    push_esc(out, hash);
    out.push('"');
    proof {
        assert(out@ =~= base + lit_path() + esc(path@) + seq!['"'] + lit_hash() + esc(hash@)
            + seq!['"']);
    }
}

/// Appends one file record's text.
fn ser_file_exec(f: &FileInfo, out: &mut Vec<char>)
    ensures
        final(out)@ == old(out)@ + ser_file(f@),
{
    let ghost base = out@;
    push_entry_header(out, f.path.as_str(), f.hash.as_str());
    out.push('}');
    proof {
        assert(out@ =~= base + ser_file(f@));
    }
}

/// Appends one directory record's text, recursing into its children.
#[verifier::rlimit(60)]
fn ser_dir_exec(d: &DirectoryInfo, out: &mut Vec<char>)
    ensures
        final(out)@ == old(out)@ + ser_dir(d@),
    decreases *d,
{
    let ghost base = out@;
    push_entry_header(out, d.path.as_str(), d.hash.as_str());
    out.push(',');
    out.push('"');
    out.push('c');
    out.push('h');
    out.push('i');
    out.push('l');
    out.push('d');
    out.push('r');
    out.push('e');
    out.push('n');
    out.push('"');
    out.push(':');
    out.push('[');
    let ghost head = base + lit_path() + esc(d@.path) + seq!['"'] + lit_hash() + esc(d@.hash)
        + seq!['"'] + lit_children();
    proof {
        assert(out@ =~= head);
    }
    proof {
        assert(out@ =~= head);
        crate::common::lemma_dirs_view_index(d.children@);
        assert(dirs_view(d.children@).take(0) =~= Seq::empty());
        assert(out@ =~= head + ser_dirs(dirs_view(d.children@).take(0)));
    }
    let mut k: usize = 0;
    while k < d.children.len()
        invariant
            k <= d.children.len(),
            dirs_view(d.children@).len() == d.children@.len(),
            forall|q: int|
                0 <= q < d.children@.len() ==> #[trigger] dirs_view(d.children@)[q] == dir_view(
                    d.children@[q],
                ),
            out@ == head + ser_dirs(dirs_view(d.children@).take(k as int)),
        decreases d.children.len() - k,
    {
        if k > 0 {
            out.push(',');
        }
        let ghost before_child = out@;
        ser_dir_exec(&d.children[k], out);
        proof {
            let cs = dirs_view(d.children@);
            assert(cs.take(k + 1) =~= cs.take(k as int).push(cs[k as int]));
            lemma_ser_dirs_push(cs.take(k as int), cs[k as int]);
            assert(out@ =~= head + ser_dirs(cs.take(k + 1)));
        }
        k = k + 1;
    }
    proof {
        let cs = dirs_view(d.children@);
        assert(cs.take(cs.len() as int) =~= cs);
    }
    out.push(']');
    out.push(',');
    out.push('"');
    out.push('f');
    out.push('i');
    out.push('l');
    out.push('e');
    out.push('s');
    out.push('"');
    out.push(':');
    out.push('[');
    let ghost head2 = head + ser_dirs(dirs_view(d.children@)) + lit_files();
    proof {
        assert(out@ =~= head2);
        assert(files_view(d.files@).take(0) =~= Seq::empty());
        assert(out@ =~= head2 + ser_files(files_view(d.files@).take(0)));
    }
    let mut k2: usize = 0;
    while k2 < d.files.len()
        invariant
            k2 <= d.files.len(),
            out@ == head2 + ser_files(files_view(d.files@).take(k2 as int)),
        decreases d.files.len() - k2,
    {
        if k2 > 0 {
            out.push(',');
        }
        ser_file_exec(&d.files[k2], out);
        proof {
            let fs = files_view(d.files@);
            assert(fs.take(k2 + 1) =~= fs.take(k2 as int).push(fs[k2 as int]));
            lemma_ser_files_push(fs.take(k2 as int), fs[k2 as int]);
            assert(out@ =~= head2 + ser_files(fs.take(k2 + 1)));
        }
        k2 = k2 + 1;
    }
    proof {
        let fs = files_view(d.files@);
        assert(fs.take(fs.len() as int) =~= fs);
    }
    out.push(']');
    out.push('}');
    proof {
        assert(out@ =~= base + ser_dir(d@));
    }
}

/// Relies on `String`'s `FromIterator` over `char`: the collected
/// string's characters are exactly those of the vector, in order.
#[verifier::external_body]
fn chars_to_string(v: &Vec<char>) -> (s: String)
    ensures
        s@ == v@,
{
    v.iter().collect()
}

/// Writes a snapshot's root directory record in its persisted text form.
pub fn serialize_dir(d: &DirectoryInfo) -> (r: String)
    ensures
        r@ == ser_dir(d@),
{
    let mut out: Vec<char> = Vec::new();
    ser_dir_exec(d, &mut out);
    chars_to_string(&out)
}

fn lit_path_vec() -> (v: Vec<char>)
    ensures
        v@ == lit_path(),
{
    let mut v: Vec<char> = Vec::new();
    v.push('{');
    v.push('"');
    v.push('p');
    v.push('a');
    v.push('t');
    v.push('h');
    v.push('"');
    v.push(':');
    v.push('"');
    proof {
        assert(v@ =~= lit_path());
    }
    v
}

fn lit_hash_vec() -> (v: Vec<char>)
    ensures
        v@ == lit_hash(),
{
    let mut v: Vec<char> = Vec::new();
    v.push(',');
    v.push('"');
    v.push('h');
    v.push('a');
    v.push('s');
    v.push('h');
    v.push('"');
    v.push(':');
    v.push('"');
    proof {
        assert(v@ =~= lit_hash());
    }
    v
}

fn lit_children_vec() -> (v: Vec<char>)
    ensures
        v@ == lit_children(),
{
    let mut v: Vec<char> = Vec::new();
    v.push(',');
    v.push('"');
    v.push('c');
    v.push('h');
    v.push('i');
    v.push('l');
    v.push('d');
    v.push('r');
    v.push('e');
    v.push('n');
    v.push('"');
    v.push(':');
    v.push('[');
    proof {
        assert(v@ =~= lit_children());
    }
    v
}

fn lit_files_vec() -> (v: Vec<char>)
    ensures
        v@ == lit_files(),
{
    let mut v: Vec<char> = Vec::new();
    v.push(']');
    v.push(',');
    v.push('"');
    v.push('f');
    v.push('i');
    v.push('l');
    v.push('e');
    v.push('s');
    v.push('"');
    v.push(':');
    v.push('[');
    proof {
        assert(v@ =~= lit_files());
    }
    v
}

fn lit_dir_end_vec() -> (v: Vec<char>)
    ensures
        v@ == lit_dir_end(),
{
    let mut v: Vec<char> = Vec::new();
    v.push(']');
    v.push('}');
    proof {
        assert(v@ =~= lit_dir_end());
    }
    v
}

fn lit_file_end_vec() -> (v: Vec<char>)
    ensures
        v@ == lit_file_end(),
{
    let mut v: Vec<char> = Vec::new();
    v.push('}');
    proof {
        assert(v@ =~= lit_file_end());
    }
    v
}

/// Checks one fixed literal at position `i`.
fn match_at(v: &Vec<char>, i: usize, lit: &Vec<char>) -> (r: Option<usize>)
    ensures
        match r {
            Some(j) => p_lit(v@, i as int, lit@) == Some(j as int),
            None => p_lit(v@, i as int, lit@) is None,
        },
{
    if i > v.len() || v.len() - i < lit.len() {
        return None;
    }
    let n = v.len();
    let mut k: usize = 0;
    while k < lit.len()
        invariant
            k <= lit@.len(),
            n == v@.len(),
            i + lit@.len() <= n,
            v@.subrange(i as int, i + k) == lit@.subrange(0, k as int),
        decreases lit@.len() - k,
    {
        if v[i + k] as u32 != lit[k] as u32 {
            proof {
                assert(v@.subrange(i as int, i + lit@.len())[k as int] == v@[i + k]);
                assert(v@.subrange(i as int, i + lit@.len()) != lit@);
            }
            return None;
        }
        proof {
            crate::order::lemma_char_code_injective(v@[i + k], lit@[k as int]);
            assert(v@.subrange(i as int, i + k + 1) =~= lit@.subrange(0, k + 1));
        }
        k = k + 1;
    }
    proof {
        assert(v@.subrange(i as int, i + lit@.len()) =~= lit@);
    }
    Some(i + lit.len())
}

/// Reads an escaped string value up to and including its closing quote.
fn p_str_exec(v: &Vec<char>, i: usize) -> (r: Option<(Vec<char>, usize)>)
    ensures
        match r {
            Some(p) => p_str(v@, i as int) == Some((p.0@, p.1 as int)),
            None => p_str(v@, i as int) is None,
        },
{
    if i >= v.len() {
        return None;
    }
    let mut acc: Vec<char> = Vec::new();
    let mut k: usize = i;
    proof {
        assert(acc@ =~= Seq::<char>::empty());
    }
    while k < v.len()
        invariant
            i <= k,
            k <= v@.len(),
            p_str(v@, i as int) == (match p_str(v@, k as int) {
                Some(p) => Some((acc@ + p.0, p.1)),
                None => None::<(Seq<char>, int)>,
            }),
        decreases v@.len() - k,
    {
        let c = v[k];
        if c == '"' {
            proof {
                assert(p_str(v@, k as int) == Some((Seq::<char>::empty(), k + 1 as int)));
                assert(acc@ + Seq::<char>::empty() =~= acc@);
            }
            return Some((acc, k + 1));
        } else if c == '\\' {
            if k + 1 < v.len() && (v[k + 1] == '"' || v[k + 1] == '\\') {
                let ghost acc0 = acc@;
                acc.push(v[k + 1]);
                proof {
                    if p_str(v@, k + 2 as int) is Some {
                        let w = p_str(v@, k + 2 as int)->Some_0.0;
                        assert(acc0 + (seq![v@[k + 1]] + w) =~= acc@ + w);
                    }
                }
                k = k + 2;
            } else {
                return None;
            }
        } else {
            let ghost acc0 = acc@;
            acc.push(c);
            proof {
                if p_str(v@, k + 1 as int) is Some {
                    let w = p_str(v@, k + 1 as int)->Some_0.0;
                    assert(acc0 + (seq![v@[k as int]] + w) =~= acc@ + w);
                }
            }
            k = k + 1;
        }
    }
    None
}

/// Reads one file record.
fn p_file_exec(v: &Vec<char>, i: usize) -> (r: Option<(FileInfo, usize)>)
    ensures
        match r {
            Some(p) => p_file(v@, i as int) == Some((p.0@, p.1 as int)),
            None => p_file(v@, i as int) is None,
        },
{
    let j1 = match match_at(v, i, &lit_path_vec()) {
        Some(j) => j,
        None => {
            return None;
        },
    };
    let (path, j2) = match p_str_exec(v, j1) {
        Some(p) => p,
        None => {
            return None;
        },
    };
    if j2 > v.len() || j2 <= i {
        return None;
    }
    let j3 = match match_at(v, j2, &lit_hash_vec()) {
        Some(j) => j,
        None => {
            return None;
        },
    };
    let (hash, j4) = match p_str_exec(v, j3) {
        Some(p) => p,
        None => {
            return None;
        },
    };
    if j4 > v.len() || j4 <= i {
        return None;
    }
    let j5 = match match_at(v, j4, &lit_file_end_vec()) {
        Some(j) => j,
        None => {
            return None;
        },
    };
    let f = FileInfo { path: chars_to_string(&path), hash: chars_to_string(&hash) };
    Some((f, j5))
}

/// Reads a possibly empty comma-separated list of file records.
fn p_files_exec(v: &Vec<char>, i: usize) -> (r: Option<(Vec<FileInfo>, usize)>)
    ensures
        match r {
            Some(p) => p_files(v@, i as int) == Some((files_view(p.0@), p.1 as int)),
            None => p_files(v@, i as int) is None,
        },
    decreases v@.len() - i, 1int,
{
    if i >= v.len() {
        return None;
    }
    if v[i] == ']' {
        let empty: Vec<FileInfo> = Vec::new();
        proof {
            assert(files_view(empty@) =~= Seq::<FileInfoV>::empty());
        }
        return Some((empty, i));
    }
    let (f, j) = match p_file_exec(v, i) {
        Some(p) => p,
        None => {
            return None;
        },
    };
    if j <= i || j > v.len() {
        return None;
    }
    let (mut fs, k) = match p_more_files_exec(v, j) {
        Some(p) => p,
        None => {
            return None;
        },
    };
    let ghost fs0 = fs@;
    fs.insert(0, f);
    proof {
        assert forall|q: int| 0 <= q < fs@.len() implies files_view(fs@)[q] == (seq![f@]
            + files_view(fs0))[q] by {
            if q > 0 {
                assert(fs@[q] == fs0[q - 1]);
            }
        }
        assert(files_view(fs@) =~= seq![f@] + files_view(fs0));
    }
    Some((fs, k))
}

/// Reads the remaining `,`-led file records of a list.
fn p_more_files_exec(v: &Vec<char>, i: usize) -> (r: Option<(Vec<FileInfo>, usize)>)
    ensures
        match r {
            Some(p) => p_more_files(v@, i as int) == Some((files_view(p.0@), p.1 as int)),
            None => p_more_files(v@, i as int) is None,
        },
    decreases v@.len() - i, 0int,
{
    if i < v.len() && v[i] == ',' {
        let (f, j) = match p_file_exec(v, i + 1) {
            Some(p) => p,
            None => {
                return None;
            },
        };
        if j <= i + 1 || j > v.len() {
            return None;
        }
        let (mut fs, k) = match p_more_files_exec(v, j) {
            Some(p) => p,
            None => {
                return None;
            },
        };
        let ghost fs0 = fs@;
        fs.insert(0, f);
        proof {
            assert forall|q: int| 0 <= q < fs@.len() implies files_view(fs@)[q] == (seq![f@]
                + files_view(fs0))[q] by {
                if q > 0 {
                    assert(fs@[q] == fs0[q - 1]);
                }
            }
            assert(files_view(fs@) =~= seq![f@] + files_view(fs0));
        }
        Some((fs, k))
    } else {
        let empty: Vec<FileInfo> = Vec::new();
        proof {
            assert(files_view(empty@) =~= Seq::<FileInfoV>::empty());
        }
        Some((empty, i))
    }
}

/// Reads one directory record, recursing into its children.
fn p_dir_exec(v: &Vec<char>, i: usize) -> (r: Option<(DirectoryInfo, usize)>)
    ensures
        match r {
            Some(p) => p_dir(v@, i as int) == Some((p.0@, p.1 as int)),
            None => p_dir(v@, i as int) is None,
        },
    decreases v@.len() - i, 0int,
{
    let j1 = match match_at(v, i, &lit_path_vec()) {
        Some(j) => j,
        None => {
            return None;
        },
    };
    let (path, j2) = match p_str_exec(v, j1) {
        Some(p) => p,
        None => {
            return None;
        },
    };
    if j2 > v.len() || j2 <= i {
        return None;
    }
    let j3 = match match_at(v, j2, &lit_hash_vec()) {
        Some(j) => j,
        None => {
            return None;
        },
    };
    let (hash, j4) = match p_str_exec(v, j3) {
        Some(p) => p,
        None => {
            return None;
        },
    };
    if j4 > v.len() || j4 <= i {
        return None;
    }
    let j5 = match match_at(v, j4, &lit_children_vec()) {
        Some(j) => j,
        None => {
            return None;
        },
    };
    let (children, j6) = match p_dirs_exec(v, j5) {
        Some(p) => p,
        None => {
            return None;
        },
    };
    if j6 > v.len() || j6 <= i {
        return None;
    }
    let j7 = match match_at(v, j6, &lit_files_vec()) {
        Some(j) => j,
        None => {
            return None;
        },
    };
    let (files, j8) = match p_files_exec(v, j7) {
        Some(p) => p,
        None => {
            return None;
        },
    };
    let j9 = match match_at(v, j8, &lit_dir_end_vec()) {
        Some(j) => j,
        None => {
            return None;
        },
    };
    let d = DirectoryInfo {
        path: chars_to_string(&path),
        hash: chars_to_string(&hash),
        children: children,
        files: files,
    };
    Some((d, j9))
}

/// Reads a possibly empty comma-separated list of directory records.
fn p_dirs_exec(v: &Vec<char>, i: usize) -> (r: Option<(Vec<DirectoryInfo>, usize)>)
    ensures
        match r {
            Some(p) => p_dirs(v@, i as int) == Some((dirs_view(p.0@), p.1 as int)),
            None => p_dirs(v@, i as int) is None,
        },
    decreases v@.len() - i, 2int,
{
    if i >= v.len() {
        return None;
    }
    if v[i] == ']' {
        let empty: Vec<DirectoryInfo> = Vec::new();
        proof {
            assert(dirs_view(empty@) =~= Seq::<DirectoryInfoV>::empty());
        }
        return Some((empty, i));
    }
    let (d, j) = match p_dir_exec(v, i) {
        Some(p) => p,
        None => {
            return None;
        },
    };
    if j <= i || j > v.len() {
        return None;
    }
    let (mut ds, k) = match p_more_dirs_exec(v, j) {
        Some(p) => p,
        None => {
            return None;
        },
    };
    let ghost ds0 = ds@;
    ds.insert(0, d);
    proof {
        crate::common::lemma_dirs_view_index(ds@);
        crate::common::lemma_dirs_view_index(ds0);
        assert forall|q: int| 0 <= q < ds@.len() implies dirs_view(ds@)[q] == (seq![dir_view(d)]
            + dirs_view(ds0))[q] by {
            if q > 0 {
                assert(ds@[q] == ds0[q - 1]);
            }
        }
        assert(dirs_view(ds@) =~= seq![dir_view(d)] + dirs_view(ds0));
    }
    Some((ds, k))
}

/// Reads the remaining `,`-led directory records of a list.
fn p_more_dirs_exec(v: &Vec<char>, i: usize) -> (r: Option<(Vec<DirectoryInfo>, usize)>)
    ensures
        match r {
            Some(p) => p_more_dirs(v@, i as int) == Some((dirs_view(p.0@), p.1 as int)),
            None => p_more_dirs(v@, i as int) is None,
        },
    decreases v@.len() - i, 1int,
{
    if i < v.len() && v[i] == ',' {
        let (d, j) = match p_dir_exec(v, i + 1) {
            Some(p) => p,
            None => {
                return None;
            },
        };
        if j <= i + 1 || j > v.len() {
            return None;
        }
        let (mut ds, k) = match p_more_dirs_exec(v, j) {
            Some(p) => p,
            None => {
                return None;
            },
        };
        let ghost ds0 = ds@;
        ds.insert(0, d);
        proof {
            crate::common::lemma_dirs_view_index(ds@);
            crate::common::lemma_dirs_view_index(ds0);
            assert forall|q: int| 0 <= q < ds@.len() implies dirs_view(ds@)[q] == (seq![dir_view(
                d,
            )] + dirs_view(ds0))[q] by {
                if q > 0 {
                    assert(ds@[q] == ds0[q - 1]);
                }
            }
            assert(dirs_view(ds@) =~= seq![dir_view(d)] + dirs_view(ds0));
        }
        Some((ds, k))
    } else {
        let empty: Vec<DirectoryInfo> = Vec::new();
        proof {
            assert(dirs_view(empty@) =~= Seq::<DirectoryInfoV>::empty());
        }
        Some((empty, i))
    }
}

/// Reads a snapshot's root directory record from its persisted text.
/// Exactly the texts that serialization produces are accepted.
pub fn deserialize_dir(s: &str) -> (r: Option<DirectoryInfo>)
    ensures
        match r {
            Some(d) => parse_root(s@) == Some(d@),
            None => parse_root(s@) is None,
        },
{
    let n = s.unicode_len();
    let mut v: Vec<char> = Vec::new();
    let mut k: usize = 0;
    while k < n
        invariant
            k <= n,
            n == s@.len(),
            v@ == s@.take(k as int),
        decreases n - k,
    {
        v.push(s.get_char(k));
        proof {
            assert(s@.take(k + 1) =~= s@.take(k as int).push(s@[k as int]));
        }
        k = k + 1;
    }
    proof {
        assert(s@.take(s@.len() as int) =~= s@);
    }
    match p_dir_exec(&v, 0) {
        Some((d, j)) => {
            if j == v.len() {
                Some(d)
            } else {
                None
            }
        },
        None => None,
    }
}

/// The `,`-led tail of a serialized list of directory records.
pub open spec fn ser_more_dirs(ds: Seq<DirectoryInfoV>) -> Seq<char>
    decreases ds,
{
    if ds.len() == 0 {
        Seq::empty()
    } else {
        seq![','] + ser_dir(ds[0]) + ser_more_dirs(ds.drop_first())
    }
}

/// The `,`-led tail of a serialized list of file records.
pub open spec fn ser_more_files(fs: Seq<FileInfoV>) -> Seq<char>
    decreases fs.len(),
{
    if fs.len() == 0 {
        Seq::empty()
    } else {
        seq![','] + ser_file(fs[0]) + ser_more_files(fs.drop_first())
    }
}

proof fn lemma_ser_dirs_decomp(ds: Seq<DirectoryInfoV>)
    requires
        ds.len() > 0,
    ensures
        ser_dirs(ds) == ser_dir(ds[0]) + ser_more_dirs(ds.drop_first()),
    decreases ds.len(),
{
    if ds.len() == 1 {
        assert(ser_more_dirs(ds.drop_first()) =~= Seq::<char>::empty());
        assert(ser_dirs(ds) =~= ser_dir(ds[0]) + ser_more_dirs(ds.drop_first()));
    } else {
        lemma_ser_dirs_decomp(ds.drop_first());
        assert(ds.drop_first()[0] == ds[1]);
        assert(ser_dirs(ds) =~= ser_dir(ds[0]) + ser_more_dirs(ds.drop_first()));
    }
}

proof fn lemma_ser_files_decomp(fs: Seq<FileInfoV>)
    requires
        fs.len() > 0,
    ensures
        ser_files(fs) == ser_file(fs[0]) + ser_more_files(fs.drop_first()),
    decreases fs.len(),
{
    if fs.len() == 1 {
        assert(ser_more_files(fs.drop_first()) =~= Seq::<char>::empty());
        assert(ser_files(fs) =~= ser_file(fs[0]) + ser_more_files(fs.drop_first()));
    } else {
        lemma_ser_files_decomp(fs.drop_first());
        assert(fs.drop_first()[0] == fs[1]);
        assert(ser_files(fs) =~= ser_file(fs[0]) + ser_more_files(fs.drop_first()));
    }
}

/// Splits one known text segment into its first piece and the rest.
proof fn lemma_peel(s: Seq<char>, i: int, t1: Seq<char>, t2: Seq<char>)
    requires
        0 <= i,
        i + t1.len() + t2.len() <= s.len(),
        s.subrange(i, i + t1.len() + t2.len()) == t1 + t2,
    ensures
        s.subrange(i, i + t1.len()) == t1,
        s.subrange(i + t1.len(), i + t1.len() + t2.len()) == t2,
{
    assert forall|k: int| 0 <= k < t1.len() implies s.subrange(i, i + t1.len())[k] == t1[k] by {
        assert(s.subrange(i, i + t1.len() + t2.len())[k] == (t1 + t2)[k]);
    }
    assert(s.subrange(i, i + t1.len()) =~= t1);
    assert forall|k: int|
        0 <= k < t2.len() implies s.subrange(i + t1.len(), i + t1.len() + t2.len())[k] == t2[k] by {
        assert(s.subrange(i, i + t1.len() + t2.len())[t1.len() + k] == (t1 + t2)[t1.len() + k]);
        assert(s.subrange(i, i + t1.len() + t2.len())[t1.len() + k] == s[i + t1.len() + k]);
        assert(s.subrange(i + t1.len(), i + t1.len() + t2.len())[k] == s[i + t1.len() + k]);
        assert((t1 + t2)[t1.len() + k] == t2[k]);
    }
    assert(s.subrange(i + t1.len(), i + t1.len() + t2.len()) =~= t2);
}

/// Reading an escaped value back yields the original string.
proof fn lemma_p_str_of_esc(s: Seq<char>, i: int, x: Seq<char>)
    requires
        0 <= i,
        i + esc(x).len() + 1 <= s.len(),
        s.subrange(i, i + esc(x).len() + 1) == esc(x) + seq!['"'],
    ensures
        p_str(s, i) == Some((x, i + esc(x).len() + 1)),
    decreases x.len(),
{
    if x.len() == 0 {
        assert(s.subrange(i, i + 1)[0] == s[i]);
        assert(s[i] == '"');
    } else {
        let head = if x[0] == '"' || x[0] == '\\' {
            seq!['\\', x[0]]
        } else {
            seq![x[0]]
        };
        let rest = esc(x.drop_first());
        assert(esc(x) == head + rest);
        assert(esc(x) + seq!['"'] =~= head + (rest + seq!['"']));
        lemma_peel(s, i, head, rest + seq!['"']);
        let j = i + head.len();
        lemma_p_str_of_esc(s, j, x.drop_first());
        if x[0] == '"' || x[0] == '\\' {
            assert(s.subrange(i, i + 2)[0] == s[i]);
            assert(s.subrange(i, i + 2)[1] == s[i + 1]);
            assert(s[i] == '\\' && s[i + 1] == x[0]);
            assert(seq![s[i + 1]] + x.drop_first() =~= x);
        } else {
            assert(s.subrange(i, i + 1)[0] == s[i]);
            assert(s[i] == x[0]);
            assert(s[i] != '"' && s[i] != '\\');
            assert(seq![s[i]] + x.drop_first() =~= x);
        }
    }
}

proof fn lemma_ser_dir_head(d: DirectoryInfoV)
    ensures
        ser_dir(d).len() >= 9,
        ser_dir(d)[0] == '{',
{
    assert(ser_dir(d)[0] == lit_path()[0]);
}

/// Reading one serialized directory record back yields the original.
#[verifier::rlimit(100)]
proof fn lemma_p_dir_of_ser(s: Seq<char>, i: int, d: DirectoryInfoV)
    requires
        0 <= i,
        i + ser_dir(d).len() <= s.len(),
        s.subrange(i, i + ser_dir(d).len()) == ser_dir(d),
    ensures
        p_dir(s, i) == Some((d, i + ser_dir(d).len())),
    decreases d, 1int,
{
    let p2 = esc(d.path) + seq!['"'];
    let p4 = esc(d.hash) + seq!['"'];
    let p6 = ser_dirs(d.children);
    let p8 = ser_files(d.files);
    let r1 = p2 + (lit_hash() + (p4 + (lit_children() + (p6 + (lit_files() + (p8
        + lit_dir_end()))))));
    assert(ser_dir(d) =~= lit_path() + r1);
    lemma_peel(s, i, lit_path(), r1);
    let j1 = i + 9;
    assert(p_lit(s, i, lit_path()) == Some(j1));
    let r2 = lit_hash() + (p4 + (lit_children() + (p6 + (lit_files() + (p8 + lit_dir_end())))));
    lemma_peel(s, j1, p2, r2);
    let j2 = j1 + p2.len();
    lemma_p_str_of_esc(s, j1, d.path);
    let r3 = p4 + (lit_children() + (p6 + (lit_files() + (p8 + lit_dir_end()))));
    lemma_peel(s, j2, lit_hash(), r3);
    let j3 = j2 + 9;
    assert(p_lit(s, j2, lit_hash()) == Some(j3));
    let r4 = lit_children() + (p6 + (lit_files() + (p8 + lit_dir_end())));
    lemma_peel(s, j3, p4, r4);
    let j4 = j3 + p4.len();
    lemma_p_str_of_esc(s, j3, d.hash);
    let r5 = p6 + (lit_files() + (p8 + lit_dir_end()));
    lemma_peel(s, j4, lit_children(), r5);
    let j5 = j4 + 13;
    assert(p_lit(s, j4, lit_children()) == Some(j5));
    let r6 = lit_files() + (p8 + lit_dir_end());
    lemma_peel(s, j5, p6, r6);
    let j6 = j5 + p6.len();
    lemma_peel(s, j6, lit_files(), p8 + lit_dir_end());
    assert(s.subrange(j6, j6 + 11)[0] == s[j6]);
    assert(s[j6] == ']');
    lemma_p_dirs_of_ser(s, j5, d.children);
    let j7 = j6 + 11;
    assert(p_lit(s, j6, lit_files()) == Some(j7));
    lemma_peel(s, j7, p8, lit_dir_end());
    let j8 = j7 + p8.len();
    assert(s.subrange(j8, j8 + 2)[0] == s[j8]);
    assert(s[j8] == ']');
    lemma_p_files_of_ser(s, j7, d.files);
    let j9 = j8 + 2;
    assert(p_lit(s, j8, lit_dir_end()) == Some(j9));
    assert(j9 == i + ser_dir(d).len());
    let parsed = DirectoryInfoV { path: d.path, hash: d.hash, children: d.children, files: d.files };
    assert(parsed == d);
}

/// Reading a serialized directory list back yields the original list.
proof fn lemma_p_dirs_of_ser(s: Seq<char>, i: int, ds: Seq<DirectoryInfoV>)
    requires
        0 <= i,
        i + ser_dirs(ds).len() < s.len(),
        s.subrange(i, i + ser_dirs(ds).len()) == ser_dirs(ds),
        s[i + ser_dirs(ds).len()] == ']',
    ensures
        p_dirs(s, i) == Some((ds, i + ser_dirs(ds).len())),
    decreases ds, 2int,
{
    if ds.len() == 0 {
        assert(s[i] == ']');
    } else {
        lemma_ser_dirs_decomp(ds);
        lemma_peel(s, i, ser_dir(ds[0]), ser_more_dirs(ds.drop_first()));
        lemma_ser_dir_head(ds[0]);
        assert(s.subrange(i, i + ser_dir(ds[0]).len())[0] == s[i]);
        assert(s[i] == '{');
        lemma_p_dir_of_ser(s, i, ds[0]);
        let j = i + ser_dir(ds[0]).len();
        lemma_p_more_dirs_of_ser(s, j, ds.drop_first());
        assert(seq![ds[0]] + ds.drop_first() =~= ds);
    }
}

/// Reading the `,`-led tail of a directory list back yields its records.
proof fn lemma_p_more_dirs_of_ser(s: Seq<char>, i: int, ds: Seq<DirectoryInfoV>)
    requires
        0 <= i,
        i + ser_more_dirs(ds).len() < s.len(),
        s.subrange(i, i + ser_more_dirs(ds).len()) == ser_more_dirs(ds),
        s[i + ser_more_dirs(ds).len()] == ']',
    ensures
        p_more_dirs(s, i) == Some((ds, i + ser_more_dirs(ds).len())),
    decreases ds, 0int,
{
    if ds.len() == 0 {
        assert(s[i] == ']');
    } else {
        assert(ser_more_dirs(ds) =~= seq![','] + (ser_dir(ds[0]) + ser_more_dirs(
            ds.drop_first(),
        )));
        lemma_peel(s, i, seq![','], ser_dir(ds[0]) + ser_more_dirs(ds.drop_first()));
        assert(s.subrange(i, i + 1)[0] == s[i]);
        assert(s[i] == ',');
        lemma_peel(s, i + 1, ser_dir(ds[0]), ser_more_dirs(ds.drop_first()));
        lemma_p_dir_of_ser(s, i + 1, ds[0]);
        lemma_ser_dir_head(ds[0]);
        let j = i + 1 + ser_dir(ds[0]).len();
        lemma_p_more_dirs_of_ser(s, j, ds.drop_first());
        assert(seq![ds[0]] + ds.drop_first() =~= ds);
    }
}

proof fn lemma_ser_file_head(f: FileInfoV)
    ensures
        ser_file(f).len() >= 9,
        ser_file(f)[0] == '{',
{
    assert(ser_file(f)[0] == lit_path()[0]);
}

/// Reading one serialized file record back yields the original.
proof fn lemma_p_file_of_ser(s: Seq<char>, i: int, f: FileInfoV)
    requires
        0 <= i,
        i + ser_file(f).len() <= s.len(),
        s.subrange(i, i + ser_file(f).len()) == ser_file(f),
    ensures
        p_file(s, i) == Some((f, i + ser_file(f).len())),
{
    let p2 = esc(f.path) + seq!['"'];
    let p4 = esc(f.hash) + seq!['"'];
    let r1 = p2 + (lit_hash() + (p4 + lit_file_end()));
    assert(ser_file(f) =~= lit_path() + r1);
    lemma_peel(s, i, lit_path(), r1);
    let j1 = i + 9;
    assert(p_lit(s, i, lit_path()) == Some(j1));
    let r2 = lit_hash() + (p4 + lit_file_end());
    lemma_peel(s, j1, p2, r2);
    let j2 = j1 + p2.len();
    lemma_p_str_of_esc(s, j1, f.path);
    let r3 = p4 + lit_file_end();
    lemma_peel(s, j2, lit_hash(), r3);
    let j3 = j2 + 9;
    assert(p_lit(s, j2, lit_hash()) == Some(j3));
    lemma_peel(s, j3, p4, lit_file_end());
    let j4 = j3 + p4.len();
    lemma_p_str_of_esc(s, j3, f.hash);
    let j5 = j4 + 1;
    assert(p_lit(s, j4, lit_file_end()) == Some(j5));
    assert(j5 == i + ser_file(f).len());
    let parsed = FileInfoV { path: f.path, hash: f.hash };
    assert(parsed == f);
}

/// Reading a serialized file list back yields the original list.
proof fn lemma_p_files_of_ser(s: Seq<char>, i: int, fs: Seq<FileInfoV>)
    requires
        0 <= i,
        i + ser_files(fs).len() < s.len(),
        s.subrange(i, i + ser_files(fs).len()) == ser_files(fs),
        s[i + ser_files(fs).len()] == ']',
    ensures
        p_files(s, i) == Some((fs, i + ser_files(fs).len())),
    decreases fs.len(), 1int,
{
    if fs.len() == 0 {
        assert(s[i] == ']');
    } else {
        lemma_ser_files_decomp(fs);
        lemma_peel(s, i, ser_file(fs[0]), ser_more_files(fs.drop_first()));
        lemma_ser_file_head(fs[0]);
        assert(s.subrange(i, i + ser_file(fs[0]).len())[0] == s[i]);
        assert(s[i] == '{');
        lemma_p_file_of_ser(s, i, fs[0]);
        let j = i + ser_file(fs[0]).len();
        lemma_p_more_files_of_ser(s, j, fs.drop_first());
        assert(seq![fs[0]] + fs.drop_first() =~= fs);
    }
}

/// Reading the `,`-led tail of a file list back yields its records.
proof fn lemma_p_more_files_of_ser(s: Seq<char>, i: int, fs: Seq<FileInfoV>)
    requires
        0 <= i,
        i + ser_more_files(fs).len() < s.len(),
        s.subrange(i, i + ser_more_files(fs).len()) == ser_more_files(fs),
        s[i + ser_more_files(fs).len()] == ']',
    ensures
        p_more_files(s, i) == Some((fs, i + ser_more_files(fs).len())),
    decreases fs.len(), 0int,
{
    if fs.len() == 0 {
        assert(s[i] == ']');
    } else {
        assert(ser_more_files(fs) =~= seq![','] + (ser_file(fs[0]) + ser_more_files(
            fs.drop_first(),
        )));
        lemma_peel(s, i, seq![','], ser_file(fs[0]) + ser_more_files(fs.drop_first()));
        assert(s.subrange(i, i + 1)[0] == s[i]);
        assert(s[i] == ',');
        lemma_peel(s, i + 1, ser_file(fs[0]), ser_more_files(fs.drop_first()));
        lemma_p_file_of_ser(s, i + 1, fs[0]);
        lemma_ser_file_head(fs[0]);
        let j = i + 1 + ser_file(fs[0]).len();
        lemma_p_more_files_of_ser(s, j, fs.drop_first());
        assert(seq![fs[0]] + fs.drop_first() =~= fs);
    }
}

/// Round trip: the persisted text of any directory record reads back as
/// exactly that record. With the contracts of `serialize_dir` and
/// `deserialize_dir`, deserializing a serialized snapshot returns the
/// snapshot itself.
pub proof fn lemma_round_trip(d: DirectoryInfoV)
    ensures
        parse_root(ser_dir(d)) == Some(d),
{
    let s = ser_dir(d);
    assert(s.subrange(0, s.len() as int) =~= s);
    lemma_p_dir_of_ser(s, 0, d);
}

proof fn lemma_p_str_exact(s: Seq<char>, i: int)
    requires
        p_str(s, i) is Some,
    ensures
        ({
            let (v, j) = p_str(s, i)->Some_0;
            &&& i < j <= s.len()
            &&& j == i + esc(v).len() + 1
            &&& s.subrange(i, j) == esc(v) + seq!['"']
        }),
    decreases s.len() - i,
{
    let (v, j) = p_str(s, i)->Some_0;
    if s[i] == '"' {
        assert(esc(v) =~= Seq::<char>::empty());
        assert(s.subrange(i, i + 1) =~= esc(v) + seq!['"']);
    } else if s[i] == '\\' {
        let (w, j2) = p_str(s, i + 2)->Some_0;
        lemma_p_str_exact(s, i + 2);
        let c = s[i + 1];
        assert(v == seq![c] + w);
        assert(esc(v) =~= seq!['\\', c] + esc(w)) by {
            assert((seq![c] + w)[0] == c);
            assert((seq![c] + w).drop_first() =~= w);
        }
        assert(s.subrange(i, j) =~= seq![s[i], s[i + 1]] + s.subrange(i + 2, j));
        assert(s.subrange(i, j) =~= esc(v) + seq!['"']);
    } else {
        let (w, j2) = p_str(s, i + 1)->Some_0;
        lemma_p_str_exact(s, i + 1);
        let c = s[i];
        assert(v == seq![c] + w);
        assert(esc(v) =~= seq![c] + esc(w)) by {
            assert((seq![c] + w)[0] == c);
            assert((seq![c] + w).drop_first() =~= w);
        }
        assert(s.subrange(i, j) =~= seq![s[i]] + s.subrange(i + 1, j));
        assert(s.subrange(i, j) =~= esc(v) + seq!['"']);
    }
}

#[verifier::spinoff_prover]
#[verifier::rlimit(100)]
proof fn lemma_p_file_exact(s: Seq<char>, i: int)
    requires
        p_file(s, i) is Some,
    ensures
        ({
            let (f, j) = p_file(s, i)->Some_0;
            &&& i < j <= s.len()
            &&& j == i + ser_file(f).len()
            &&& s.subrange(i, j) == ser_file(f)
        }),
{
    let (f, j) = p_file(s, i)->Some_0;
    let j1 = p_lit(s, i, lit_path())->Some_0;
    let (path, j2) = p_str(s, j1)->Some_0;
    lemma_p_str_exact(s, j1);
    let j3 = p_lit(s, j2, lit_hash())->Some_0;
    let (hash, j4) = p_str(s, j3)->Some_0;
    lemma_p_str_exact(s, j3);
    let j5 = p_lit(s, j4, lit_file_end())->Some_0;
    assert(s.subrange(i, j2) =~= s.subrange(i, j1) + s.subrange(j1, j2));
    assert(s.subrange(i, j3) =~= s.subrange(i, j2) + s.subrange(j2, j3));
    assert(s.subrange(i, j4) =~= s.subrange(i, j3) + s.subrange(j3, j4));
    assert(s.subrange(i, j5) =~= s.subrange(i, j4) + s.subrange(j4, j5));
    assert(s.subrange(i, j5) =~= ser_file(f));
}

#[verifier::spinoff_prover]
#[verifier::rlimit(100)]
proof fn lemma_p_dir_exact(s: Seq<char>, i: int)
    requires
        p_dir(s, i) is Some,
    ensures
        ({
            let (d, j) = p_dir(s, i)->Some_0;
            &&& i < j <= s.len()
            &&& j == i + ser_dir(d).len()
            &&& s.subrange(i, j) == ser_dir(d)
        }),
    decreases s.len() - i, 0int,
{
    let (d, j) = p_dir(s, i)->Some_0;
    let j1 = p_lit(s, i, lit_path())->Some_0;
    let (path, j2) = p_str(s, j1)->Some_0;
    lemma_p_str_exact(s, j1);
    let j3 = p_lit(s, j2, lit_hash())->Some_0;
    let (hash, j4) = p_str(s, j3)->Some_0;
    lemma_p_str_exact(s, j3);
    let j5 = p_lit(s, j4, lit_children())->Some_0;
    let (children, j6) = p_dirs(s, j5)->Some_0;
    lemma_p_dirs_exact(s, j5);
    let j7 = p_lit(s, j6, lit_files())->Some_0;
    let (files, j8) = p_files(s, j7)->Some_0;
    lemma_p_files_exact(s, j7);
    let j9 = p_lit(s, j8, lit_dir_end())->Some_0;
    assert(s.subrange(i, j2) =~= s.subrange(i, j1) + s.subrange(j1, j2));
    assert(s.subrange(i, j3) =~= s.subrange(i, j2) + s.subrange(j2, j3));
    assert(s.subrange(i, j4) =~= s.subrange(i, j3) + s.subrange(j3, j4));
    assert(s.subrange(i, j5) =~= s.subrange(i, j4) + s.subrange(j4, j5));
    assert(s.subrange(i, j6) =~= s.subrange(i, j5) + s.subrange(j5, j6));
    assert(s.subrange(i, j7) =~= s.subrange(i, j6) + s.subrange(j6, j7));
    assert(s.subrange(i, j8) =~= s.subrange(i, j7) + s.subrange(j7, j8));
    assert(s.subrange(i, j9) =~= s.subrange(i, j8) + s.subrange(j8, j9));
    assert(s.subrange(i, j9) =~= ser_dir(d));
}

proof fn lemma_p_dirs_exact(s: Seq<char>, i: int)
    requires
        p_dirs(s, i) is Some,
    ensures
        ({
            let (ds, j) = p_dirs(s, i)->Some_0;
            &&& i <= j <= s.len()
            &&& j == i + ser_dirs(ds).len()
            &&& s.subrange(i, j) == ser_dirs(ds)
        }),
    decreases s.len() - i, 2int,
{
    let (ds, j) = p_dirs(s, i)->Some_0;
    if s[i] == ']' {
        assert(s.subrange(i, i) =~= ser_dirs(ds));
    } else {
        let (d, j1) = p_dir(s, i)->Some_0;
        lemma_p_dir_exact(s, i);
        let (ds2, k) = p_more_dirs(s, j1)->Some_0;
        lemma_p_more_dirs_exact(s, j1);
        assert(ds == seq![d] + ds2);
        assert((seq![d] + ds2)[0] == d);
        assert((seq![d] + ds2).drop_first() =~= ds2);
        lemma_ser_dirs_decomp(ds);
        assert(s.subrange(i, k) =~= s.subrange(i, j1) + s.subrange(j1, k));
        assert(s.subrange(i, k) =~= ser_dirs(ds));
    }
}

proof fn lemma_p_more_dirs_exact(s: Seq<char>, i: int)
    requires
        0 <= i <= s.len(),
        p_more_dirs(s, i) is Some,
    ensures
        ({
            let (ds, j) = p_more_dirs(s, i)->Some_0;
            &&& i <= j <= s.len()
            &&& j == i + ser_more_dirs(ds).len()
            &&& s.subrange(i, j) == ser_more_dirs(ds)
        }),
    decreases s.len() - i, 1int,
{
    let (ds, j) = p_more_dirs(s, i)->Some_0;
    if 0 <= i && i < s.len() && s[i] == ',' {
        let (d, j1) = p_dir(s, i + 1)->Some_0;
        lemma_p_dir_exact(s, i + 1);
        let (ds2, k) = p_more_dirs(s, j1)->Some_0;
        lemma_p_more_dirs_exact(s, j1);
        assert(ds == seq![d] + ds2);
        assert((seq![d] + ds2)[0] == d);
        assert((seq![d] + ds2).drop_first() =~= ds2);
        assert(ser_more_dirs(ds) =~= seq![','] + ser_dir(d) + ser_more_dirs(ds2));
        assert(s.subrange(i, i + 1) =~= seq![s[i]]);
        assert(s.subrange(i, j1) =~= s.subrange(i, i + 1) + s.subrange(i + 1, j1));
        assert(s.subrange(i, k) =~= s.subrange(i, j1) + s.subrange(j1, k));
        assert(s.subrange(i, k) =~= ser_more_dirs(ds));
    } else {
        assert(s.subrange(i, i) =~= ser_more_dirs(ds));
    }
}

proof fn lemma_p_files_exact(s: Seq<char>, i: int)
    requires
        p_files(s, i) is Some,
    ensures
        ({
            let (fs, j) = p_files(s, i)->Some_0;
            &&& i <= j <= s.len()
            &&& j == i + ser_files(fs).len()
            &&& s.subrange(i, j) == ser_files(fs)
        }),
    decreases s.len() - i, 4int,
{
    let (fs, j) = p_files(s, i)->Some_0;
    if s[i] == ']' {
        assert(s.subrange(i, i) =~= ser_files(fs));
    } else {
        let (f, j1) = p_file(s, i)->Some_0;
        lemma_p_file_exact(s, i);
        let (fs2, k) = p_more_files(s, j1)->Some_0;
        lemma_p_more_files_exact(s, j1);
        assert(fs == seq![f] + fs2);
        assert((seq![f] + fs2)[0] == f);
        assert((seq![f] + fs2).drop_first() =~= fs2);
        lemma_ser_files_decomp(fs);
        assert(s.subrange(i, k) =~= s.subrange(i, j1) + s.subrange(j1, k));
        assert(s.subrange(i, k) =~= ser_files(fs));
    }
}

proof fn lemma_p_more_files_exact(s: Seq<char>, i: int)
    requires
        0 <= i <= s.len(),
        p_more_files(s, i) is Some,
    ensures
        ({
            let (fs, j) = p_more_files(s, i)->Some_0;
            &&& i <= j <= s.len()
            &&& j == i + ser_more_files(fs).len()
            &&& s.subrange(i, j) == ser_more_files(fs)
        }),
    decreases s.len() - i, 3int,
{
    let (fs, j) = p_more_files(s, i)->Some_0;
    if 0 <= i && i < s.len() && s[i] == ',' {
        let (f, j1) = p_file(s, i + 1)->Some_0;
        lemma_p_file_exact(s, i + 1);
        let (fs2, k) = p_more_files(s, j1)->Some_0;
        lemma_p_more_files_exact(s, j1);
        assert(fs == seq![f] + fs2);
        assert((seq![f] + fs2)[0] == f);
        assert((seq![f] + fs2).drop_first() =~= fs2);
        assert(ser_more_files(fs) =~= seq![','] + ser_file(f) + ser_more_files(fs2));
        assert(s.subrange(i, i + 1) =~= seq![s[i]]);
        assert(s.subrange(i, j1) =~= s.subrange(i, i + 1) + s.subrange(i + 1, j1));
        assert(s.subrange(i, k) =~= s.subrange(i, j1) + s.subrange(j1, k));
        assert(s.subrange(i, k) =~= ser_more_files(fs));
    } else {
        assert(s.subrange(i, i) =~= ser_more_files(fs));
    }
}

/// Reading is canonical: whatever tree an accepted text yields, the text
/// is exactly that tree's serialized form. With the round trip above, a
/// text is accepted precisely when it is the serialized form of some
/// tree, and then denotes that tree alone.
pub proof fn lemma_parse_exact(s: Seq<char>, d: DirectoryInfoV)
    requires
        parse_root(s) == Some(d),
    ensures
        s == ser_dir(d),
{
    lemma_p_dir_exact(s, 0);
    assert(s.subrange(0, s.len() as int) =~= s);
}

/// What a whole persisted text denotes: one directory record spanning the
/// text exactly, or nothing.
pub open spec fn parse_root(s: Seq<char>) -> Option<DirectoryInfoV> {
    match p_dir(s, 0) {
        None => None,
        Some((d, j)) => if j == s.len() {
            Some(d)
        } else {
            None
        },
    }
}

} // verus!
