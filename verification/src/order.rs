//! Lexicographic order on character sequences, and a sorting function used
//! for directory entries and diff output.
use vstd::prelude::*;
use vstd::multiset::Multiset;
use vstd::relations::sorted_by;
use vstd::seq_lib::*;

verus! {

/// `a` is lexicographically at or before `b`, comparing character scalar
/// values position by position; a proper prefix comes first.
pub open spec fn lex_le(a: Seq<char>, b: Seq<char>) -> bool
    decreases a.len(),
{
    if a.len() == 0 {
        true
    } else if b.len() == 0 {
        false
    } else if a[0] == b[0] {
        lex_le(a.drop_first(), b.drop_first())
    } else {
        (a[0] as u32) < (b[0] as u32)
    }
}

/// Strict version of `lex_le`.
pub open spec fn lex_lt(a: Seq<char>, b: Seq<char>) -> bool {
    lex_le(a, b) && a != b
}

/// Two characters with the same scalar value are the same character.
pub(crate) proof fn lemma_char_code_injective(c1: char, c2: char)
    ensures
        c1 as u32 == c2 as u32 ==> c1 == c2,
{
    broadcast use vstd::utf8::char_u32_cast;

}

pub proof fn lemma_lex_le_total(a: Seq<char>, b: Seq<char>)
    ensures
        lex_le(a, b) || lex_le(b, a),
    decreases a.len(),
{
    if a.len() > 0 && b.len() > 0 {
        if a[0] == b[0] {
            lemma_lex_le_total(a.drop_first(), b.drop_first());
        } else {
            lemma_char_code_injective(a[0], b[0]);
        }
    }
}

pub proof fn lemma_lex_le_antisymmetric(a: Seq<char>, b: Seq<char>)
    requires
        lex_le(a, b),
        lex_le(b, a),
    ensures
        a == b,
    decreases a.len(),
{
    if a.len() > 0 && b.len() > 0 && a[0] == b[0] {
        lemma_lex_le_antisymmetric(a.drop_first(), b.drop_first());
        assert(a =~= seq![a[0]] + a.drop_first());
        assert(b =~= seq![b[0]] + b.drop_first());
    }
}

pub proof fn lemma_lex_le_reflexive(a: Seq<char>)
    ensures
        lex_le(a, a),
    decreases a.len(),
{
    if a.len() > 0 {
        lemma_lex_le_reflexive(a.drop_first());
    }
}

pub proof fn lemma_lex_le_transitive(a: Seq<char>, b: Seq<char>, c: Seq<char>)
    requires
        lex_le(a, b),
        lex_le(b, c),
    ensures
        lex_le(a, c),
    decreases a.len(),
{
    if a.len() > 0 && b.len() > 0 && c.len() > 0 {
        if a[0] == b[0] && b[0] == c[0] {
            lemma_lex_le_transitive(a.drop_first(), b.drop_first(), c.drop_first());
        }
    }
}

pub proof fn lemma_lex_lt_transitive(a: Seq<char>, b: Seq<char>, c: Seq<char>)
    requires
        lex_lt(a, b),
        lex_lt(b, c),
    ensures
        lex_lt(a, c),
{
    lemma_lex_le_transitive(a, b, c);
    if a == c {
        lemma_lex_le_antisymmetric(a, b);
    }
}

/// Broadcast form of strict transitivity, for proofs that chain many
/// comparisons.
pub broadcast proof fn lemma_lex_lt_transitive_auto(a: Seq<char>, b: Seq<char>, c: Seq<char>)
    ensures
        #![trigger lex_lt(a, b), lex_lt(b, c)]
        lex_lt(a, b) && lex_lt(b, c) ==> lex_lt(a, c),
{
    if lex_lt(a, b) && lex_lt(b, c) {
        lemma_lex_lt_transitive(a, b, c);
    }
}

/// Prepending a common prefix does not change the relative order.
pub proof fn lemma_lex_le_common_prefix(p: Seq<char>, a: Seq<char>, b: Seq<char>)
    ensures
        lex_le(p + a, p + b) == lex_le(a, b),
    decreases p.len(),
{
    if p.len() == 0 {
        assert(p + a =~= a);
        assert(p + b =~= b);
    } else {
        assert((p + a).drop_first() =~= p.drop_first() + a);
        assert((p + b).drop_first() =~= p.drop_first() + b);
        lemma_lex_le_common_prefix(p.drop_first(), a, b);
    }
}

/// Inserts `x` into `s` directly before the first element that does not
/// precede it under `leq`.
pub open spec fn insert_by<A>(leq: spec_fn(A, A) -> bool, x: A, s: Seq<A>) -> Seq<A>
    decreases s.len(),
{
    if s.len() == 0 {
        seq![x]
    } else if leq(x, s[0]) {
        seq![x] + s
    } else {
        seq![s[0]] + insert_by(leq, x, s.drop_first())
    }
}

/// Insertion sort of `s` under `leq`.
pub open spec fn isort_by<A>(leq: spec_fn(A, A) -> bool, s: Seq<A>) -> Seq<A>
    decreases s.len(),
{
    if s.len() == 0 {
        Seq::empty()
    } else {
        insert_by(leq, s[0], isort_by(leq, s.drop_first()))
    }
}

pub proof fn lemma_insert_by_multiset<A>(leq: spec_fn(A, A) -> bool, x: A, s: Seq<A>)
    ensures
        insert_by(leq, x, s).to_multiset() == s.to_multiset().insert(x),
        insert_by(leq, x, s).len() == s.len() + 1,
    decreases s.len(),
{
    broadcast use vstd::seq_lib::group_to_multiset_ensures;

    if s.len() == 0 {
        assert(insert_by(leq, x, s) =~= Seq::empty().push(x));
        assert(Seq::<A>::empty().push(x).to_multiset() =~= s.to_multiset().insert(x));
    } else if leq(x, s[0]) {
        assert(insert_by(leq, x, s) =~= seq![x] + s);
        vstd::seq_lib::lemma_multiset_commutative(seq![x], s);
        assert(seq![x].to_multiset() =~= Multiset::empty().insert(x));
        assert((seq![x] + s).to_multiset() =~= s.to_multiset().insert(x));
    } else {
        lemma_insert_by_multiset(leq, x, s.drop_first());
        let rest = insert_by(leq, x, s.drop_first());
        assert(insert_by(leq, x, s) =~= seq![s[0]] + rest);
        vstd::seq_lib::lemma_multiset_commutative(seq![s[0]], rest);
        assert(seq![s[0]].to_multiset() =~= Multiset::empty().insert(s[0]));
        assert(s =~= seq![s[0]] + s.drop_first());
        vstd::seq_lib::lemma_multiset_commutative(seq![s[0]], s.drop_first());
        assert((seq![s[0]] + rest).to_multiset() =~= s.to_multiset().insert(x));
    }
}

pub proof fn lemma_isort_by_multiset<A>(leq: spec_fn(A, A) -> bool, s: Seq<A>)
    ensures
        isort_by(leq, s).to_multiset() == s.to_multiset(),
        isort_by(leq, s).len() == s.len(),
    decreases s.len(),
{
    broadcast use vstd::seq_lib::group_to_multiset_ensures;

    if s.len() > 0 {
        lemma_isort_by_multiset(leq, s.drop_first());
        lemma_insert_by_multiset(leq, s[0], isort_by(leq, s.drop_first()));
        assert(s =~= seq![s[0]] + s.drop_first());
        vstd::seq_lib::lemma_multiset_commutative(seq![s[0]], s.drop_first());
        assert(seq![s[0]].to_multiset() =~= Multiset::empty().insert(s[0]));
        assert(s.to_multiset() =~= s.drop_first().to_multiset().insert(s[0]));
    }
}

pub proof fn lemma_insert_by_sorted<A>(leq: spec_fn(A, A) -> bool, x: A, s: Seq<A>)
    requires
        sorted_by(s, leq),
        forall|a: A, b: A| #[trigger] leq(a, b) || #[trigger] leq(b, a),
        forall|a: A, b: A, c: A| #[trigger] leq(a, b) && #[trigger] leq(b, c) ==> leq(a, c),
    ensures
        sorted_by(insert_by(leq, x, s), leq),
    decreases s.len(),
{
    if s.len() == 0 {
    } else if leq(x, s[0]) {
        let r = seq![x] + s;
        assert forall|i: int, j: int| 0 <= i < j < r.len() implies #[trigger] leq(r[i], r[j]) by {
            if i == 0 {
                if j > 1 {
                    assert(leq(s[0], s[j - 1]));
                }
            } else {
                assert(leq(s[i - 1], s[j - 1]));
            }
        }
    } else {
        assert(sorted_by(s.drop_first(), leq)) by {
            assert forall|i: int, j: int|
                0 <= i < j < s.drop_first().len() implies #[trigger] leq(
                s.drop_first()[i],
                s.drop_first()[j],
            ) by {
                assert(leq(s[i + 1], s[j + 1]));
            }
        }
        lemma_insert_by_sorted(leq, x, s.drop_first());
        let rest = insert_by(leq, x, s.drop_first());
        let r = seq![s[0]] + rest;
        lemma_insert_by_multiset(leq, x, s.drop_first());
        broadcast use vstd::seq_lib::group_to_multiset_ensures;

        assert forall|i: int, j: int| 0 <= i < j < r.len() implies #[trigger] leq(r[i], r[j]) by {
            if i == 0 {
                // s[0] precedes x (since leq(x, s[0]) failed and leq is total)
                // and s[0] precedes every later element of s.
                assert(rest.to_multiset().contains(rest[j - 1]));
                if rest[j - 1] == x {
                    assert(leq(s[0], x));
                } else {
                    assert(s.drop_first().to_multiset().contains(rest[j - 1]));
                    let k = choose|k: int|
                        0 <= k < s.drop_first().len() && s.drop_first()[k] == rest[j - 1];
                    assert(leq(s[0], s[k + 1]));
                }
            } else {
                assert(leq(rest[i - 1], rest[j - 1]));
            }
        }
    }
}

pub proof fn lemma_isort_by_sorted<A>(leq: spec_fn(A, A) -> bool, s: Seq<A>)
    requires
        forall|a: A, b: A| #[trigger] leq(a, b) || #[trigger] leq(b, a),
        forall|a: A, b: A, c: A| #[trigger] leq(a, b) && #[trigger] leq(b, c) ==> leq(a, c),
    ensures
        sorted_by(isort_by(leq, s), leq),
    decreases s.len(),
{
    if s.len() > 0 {
        lemma_isort_by_sorted(leq, s.drop_first());
        lemma_insert_by_sorted(leq, s[0], isort_by(leq, s.drop_first()));
    }
}

/// Sorting a sequence that is already sorted returns it unchanged.
pub proof fn lemma_isort_by_of_sorted<A>(leq: spec_fn(A, A) -> bool, s: Seq<A>)
    requires
        sorted_by(s, leq),
    ensures
        isort_by(leq, s) == s,
    decreases s.len(),
{
    if s.len() > 0 {
        assert(sorted_by(s.drop_first(), leq)) by {
            assert forall|i: int, j: int|
                0 <= i < j < s.drop_first().len() implies #[trigger] leq(
                s.drop_first()[i],
                s.drop_first()[j],
            ) by {
                assert(leq(s[i + 1], s[j + 1]));
            }
        }
        lemma_isort_by_of_sorted(leq, s.drop_first());
        if s.len() == 1 {
            assert(isort_by(leq, s) =~= s);
        } else {
            assert(leq(s[0], s[1]));
            assert(s.drop_first()[0] == s[1]);
            assert(isort_by(leq, s) =~= seq![s[0]] + s.drop_first());
            assert(seq![s[0]] + s.drop_first() =~= s);
        }
    } else {
        assert(isort_by(leq, s) =~= s);
    }
}

/// Where the scan for the insertion point ends, `insert_by` places the
/// element.
pub proof fn lemma_insert_by_at<A>(leq: spec_fn(A, A) -> bool, x: A, s: Seq<A>, i: int)
    requires
        0 <= i <= s.len(),
        forall|k: int| 0 <= k < i ==> !leq(x, #[trigger] s[k]),
        i < s.len() ==> leq(x, s[i]),
    ensures
        insert_by(leq, x, s) == s.take(i) + seq![x] + s.skip(i),
    decreases s.len(),
{
    if s.len() == 0 {
        assert(insert_by(leq, x, s) =~= s.take(i) + seq![x] + s.skip(i));
    } else if leq(x, s[0]) {
        assert(i == 0);
        assert(insert_by(leq, x, s) =~= s.take(0) + seq![x] + s.skip(0));
    } else {
        assert(i >= 1);
        assert(forall|k: int| 0 <= k < i - 1 ==> s.drop_first()[k] == s[k + 1]);
        if i < s.len() {
            assert(s.drop_first()[i - 1] == s[i]);
        }
        lemma_insert_by_at(leq, x, s.drop_first(), i - 1);
        assert(s.drop_first().take(i - 1) =~= s.take(i).drop_first());
        assert(s.drop_first().skip(i - 1) =~= s.skip(i));
        assert(insert_by(leq, x, s) =~= s.take(i) + seq![x] + s.skip(i));
    }
}

/// A map that translates `leq1` into `leq2` commutes with insertion.
pub proof fn lemma_insert_by_map_commutes<A, B>(
    leq1: spec_fn(A, A) -> bool,
    leq2: spec_fn(B, B) -> bool,
    f: spec_fn(A) -> B,
    x: A,
    s: Seq<A>,
)
    requires
        forall|a: A, b: A| #[trigger] leq2(f(a), f(b)) == leq1(a, b),
    ensures
        insert_by(leq1, x, s).map_values(f) == insert_by(leq2, f(x), s.map_values(f)),
    decreases s.len(),
{
    if s.len() == 0 {
        assert(insert_by(leq1, x, s).map_values(f) =~= insert_by(leq2, f(x), s.map_values(f)));
    } else if leq1(x, s[0]) {
        assert(insert_by(leq1, x, s).map_values(f) =~= insert_by(leq2, f(x), s.map_values(f)));
    } else {
        lemma_insert_by_map_commutes(leq1, leq2, f, x, s.drop_first());
        assert(s.map_values(f).drop_first() =~= s.drop_first().map_values(f));
        assert(insert_by(leq1, x, s).map_values(f) =~= seq![f(s[0])] + insert_by(
            leq1,
            x,
            s.drop_first(),
        ).map_values(f));
        assert(insert_by(leq2, f(x), s.map_values(f)) =~= seq![f(s[0])] + insert_by(
            leq2,
            f(x),
            s.drop_first().map_values(f),
        ));
    }
}

/// A map that translates `leq1` into `leq2` commutes with sorting.
pub proof fn lemma_isort_by_map_commutes<A, B>(
    leq1: spec_fn(A, A) -> bool,
    leq2: spec_fn(B, B) -> bool,
    f: spec_fn(A) -> B,
    s: Seq<A>,
)
    requires
        forall|a: A, b: A| #[trigger] leq2(f(a), f(b)) == leq1(a, b),
    ensures
        isort_by(leq1, s).map_values(f) == isort_by(leq2, s.map_values(f)),
    decreases s.len(),
{
    if s.len() > 0 {
        lemma_isort_by_map_commutes(leq1, leq2, f, s.drop_first());
        lemma_insert_by_map_commutes(leq1, leq2, f, s[0], isort_by(leq1, s.drop_first()));
        assert(s.map_values(f).drop_first() =~= s.drop_first().map_values(f));
        assert(s.map_values(f)[0] == f(s[0]));
    }
}

/// Compares two strings in the lexicographic order of `lex_le`.
pub fn str_le(a: &str, b: &str) -> (r: bool)
    ensures
        r == lex_le(a@, b@),
{
    let la = a.unicode_len();
    let lb = b.unicode_len();
    let mut i: usize = 0;
    while i < la && i < lb
        invariant
            i <= la <= a@.len(),
            i <= lb <= b@.len(),
            la == a@.len(),
            lb == b@.len(),
            a@.take(i as int) == b@.take(i as int),
        decreases la - i,
    {
        let ca = a.get_char(i);
        let cb = b.get_char(i);
        if ca as u32 != cb as u32 {
            proof {
                lemma_lex_le_common_prefix(
                    a@.take(i as int),
                    a@.skip(i as int),
                    b@.skip(i as int),
                );
                assert(a@.take(i as int) + a@.skip(i as int) =~= a@);
                assert(b@.take(i as int) + b@.skip(i as int) =~= b@);
                assert(a@.skip(i as int)[0] == a@[i as int]);
                assert(b@.skip(i as int)[0] == b@[i as int]);
            }
            return (ca as u32) < (cb as u32);
        }
        proof {
            lemma_char_code_injective(ca, cb);
            assert(a@.take(i + 1 as int) =~= b@.take(i + 1 as int));
        }
        i = i + 1;
    }
    proof {
        lemma_lex_le_common_prefix(a@.take(i as int), a@.skip(i as int), b@.skip(i as int));
        assert(a@.take(i as int) + a@.skip(i as int) =~= a@);
        assert(b@.take(i as int) + b@.skip(i as int) =~= b@);
    }
    la <= lb
}

/// Tests two strings for equality of their character sequences.
pub fn str_eq(a: &str, b: &str) -> (r: bool)
    ensures
        r == (a@ == b@),
{
    let le1 = str_le(a, b);
    let le2 = str_le(b, a);
    proof {
        if le1 && le2 {
            lemma_lex_le_antisymmetric(a@, b@);
        }
        if a@ == b@ {
            lemma_lex_le_reflexive(a@);
        }
    }
    le1 && le2
}

} // verus!
