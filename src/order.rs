//! The order of strings (by code points, as `Ord` on `String` orders them)
//! and strictly sorted sequences of strings.
use vstd::prelude::*;

verus! {

/// `a` comes strictly before `b` in lexicographic order of code points.
pub open spec fn lex_lt(a: Seq<char>, b: Seq<char>) -> bool
    decreases a.len(),
{
    if a.len() == 0 {
        b.len() > 0
    } else if b.len() == 0 {
        false
    } else if a[0] != b[0] {
        (a[0] as int) < (b[0] as int)
    } else {
        lex_lt(a.drop_first(), b.drop_first())
    }
}

/// Each element comes strictly before every later one.
pub open spec fn sorted_strict(s: Seq<Seq<char>>) -> bool {
    forall|i: int, j: int| 0 <= i < j < s.len() ==> lex_lt(#[trigger] s[i], #[trigger] s[j])
}

/// No string comes before itself.
pub proof fn lemma_lex_irreflexive(a: Seq<char>)
    ensures
        !lex_lt(a, a),
    decreases a.len(),
{
    if a.len() > 0 {
        lemma_lex_irreflexive(a.drop_first());
    }
}

/// Of two strings, at most one comes before the other.
pub proof fn lemma_lex_asymmetric(a: Seq<char>, b: Seq<char>)
    ensures
        lex_lt(a, b) ==> !lex_lt(b, a),
    decreases a.len(),
{
    if a.len() > 0 && b.len() > 0 && a[0] == b[0] {
        lemma_lex_asymmetric(a.drop_first(), b.drop_first());
    }
}

/// The order is transitive.
pub proof fn lemma_lex_transitive(a: Seq<char>, b: Seq<char>, c: Seq<char>)
    ensures
        lex_lt(a, b) && lex_lt(b, c) ==> lex_lt(a, c),
    decreases a.len(),
{
    if a.len() > 0 && b.len() > 0 && c.len() > 0 {
        lemma_lex_transitive(a.drop_first(), b.drop_first(), c.drop_first());
    }
}

/// Of two different strings, one comes before the other.
pub proof fn lemma_lex_total(a: Seq<char>, b: Seq<char>)
    ensures
        a != b ==> lex_lt(a, b) || lex_lt(b, a),
    decreases a.len(),
{
    if a.len() > 0 && b.len() > 0 && a[0] == b[0] {
        lemma_lex_total(a.drop_first(), b.drop_first());
        if a.drop_first() == b.drop_first() {
            assert(a =~= seq![a[0]] + a.drop_first());
            assert(b =~= seq![b[0]] + b.drop_first());
        }
    } else if a.len() == 0 && b.len() == 0 {
        assert(a =~= b);
    } else if a.len() > 0 && b.len() > 0 {
        assert((a[0] as int) != (b[0] as int));
    }
}

/// Two strictly sorted sequences with the same elements are equal.
pub proof fn lemma_sorted_unique(s: Seq<Seq<char>>, t: Seq<Seq<char>>)
    requires
        sorted_strict(s),
        sorted_strict(t),
        s.to_set() == t.to_set(),
    ensures
        s == t,
    decreases s.len(),
{
    if s.len() == 0 {
        if t.len() > 0 {
            assert(t.to_set().contains(t[0]));
        }
        assert(s =~= t);
    } else {
        assert(s.to_set().contains(s[0]));
        assert(t.len() > 0);
        assert(t.to_set().contains(t[0]));
        let k = choose|k: int| 0 <= k < t.len() && t[k] == s[0];
        let l = choose|l: int| 0 <= l < s.len() && s[l] == t[0];
        if k > 0 {
            assert(lex_lt(t[0], t[k]));
            if l > 0 {
                assert(lex_lt(s[0], s[l]));
                lemma_lex_asymmetric(t[0], s[0]);
            } else {
                lemma_lex_irreflexive(t[0]);
            }
        }
        assert(s[0] == t[0]);
        let s1 = s.drop_first();
        let t1 = t.drop_first();
        assert forall|x: Seq<char>| s1.to_set().contains(x) implies t1.to_set().contains(x) by {
            let i = choose|i: int| 0 <= i < s1.len() && s1[i] == x;
            assert(s.to_set().contains(x));
            let j = choose|j: int| 0 <= j < t.len() && t[j] == x;
            assert(lex_lt(s[0], s[i + 1]));
            if j == 0 {
                lemma_lex_irreflexive(x);
            }
            assert(t1[j - 1] == x);
        }
        assert forall|x: Seq<char>| t1.to_set().contains(x) implies s1.to_set().contains(x) by {
            let i = choose|i: int| 0 <= i < t1.len() && t1[i] == x;
            assert(t.to_set().contains(x));
            let j = choose|j: int| 0 <= j < s.len() && s[j] == x;
            assert(lex_lt(t[0], t[i + 1]));
            if j == 0 {
                lemma_lex_irreflexive(x);
            }
            assert(s1[j - 1] == x);
        }
        assert(s1.to_set() =~= t1.to_set());
        lemma_sorted_unique(s1, t1);
        assert(s =~= seq![s[0]] + s1);
        assert(t =~= seq![t[0]] + t1);
    }
}

/// Whether `a` comes strictly before `b`, comparing code points from the
/// left.
pub fn str_less(a: &str, b: &str) -> (r: bool)
    ensures
        r == lex_lt(a@, b@),
{
    let na = a.unicode_len();
    let nb = b.unicode_len();
    let mut i: usize = 0;
    assert(a@.skip(0) =~= a@);
    assert(b@.skip(0) =~= b@);
    while i < na && i < nb
        invariant
            na == a@.len(),
            nb == b@.len(),
            i <= na,
            i <= nb,
            lex_lt(a@, b@) == lex_lt(a@.skip(i as int), b@.skip(i as int)),
        decreases na - i,
    {
        let ca = a.get_char(i);
        let cb = b.get_char(i);
        let ghost sa = a@.skip(i as int);
        let ghost sb = b@.skip(i as int);
        assert(sa[0] == ca && sb[0] == cb);
        if ca != cb {
            return (ca as u32) < (cb as u32);
        }
        assert(sa.drop_first() =~= a@.skip(i + 1));
        assert(sb.drop_first() =~= b@.skip(i + 1));
        i += 1;
    }
    i < nb
}

/// Whether `a` and `b` hold the same characters.
pub fn str_equal(a: &str, b: &str) -> (r: bool)
    ensures
        r == (a@ == b@),
{
    let lt = str_less(a, b);
    let gt = str_less(b, a);
    proof {
        lemma_lex_total(a@, b@);
        lemma_lex_irreflexive(a@);
    }
    !lt && !gt
}

} // verus!
