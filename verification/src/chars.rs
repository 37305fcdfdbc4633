//! Character predicates and the lexicographic order on character
//! sequences that fixes the dictionary's traversal order.

use vstd::prelude::*;

verus! {

/// The ASCII whitespace characters: space, tab, line feed, form feed
/// and carriage return.
pub open spec fn is_ascii_ws(c: char) -> bool {
    c == ' ' || c == '\t' || c == '\n' || c == '\u{c}' || c == '\r'
}

/// Executable test for [`is_ascii_ws`].
pub fn char_is_ws(c: char) -> (r: bool)
    ensures
        r == is_ascii_ws(c),
{
    c == ' ' || c == '\t' || c == '\n' || c == '\u{c}' || c == '\r'
}

/// Two characters that are the same ASCII letter in different cases.
pub open spec fn ascii_case_variants(a: char, b: char) -> bool {
    ||| (65 <= a as u32 && a as u32 <= 90 && b as u32 == a as u32 + 32)
    ||| (65 <= b as u32 && b as u32 <= 90 && a as u32 == b as u32 + 32)
}

/// Character equality, folding ASCII case when `ci` is set.  Only the
/// 26 ASCII letters fold; all other characters must match exactly.
pub open spec fn chars_agree(a: char, b: char, ci: bool) -> bool {
    a == b || (ci && ascii_case_variants(a, b))
}

/// Executable test for [`chars_agree`].
pub fn chars_match(a: char, b: char, ci: bool) -> (r: bool)
    ensures
        r == chars_agree(a, b, ci),
{
    if a == b {
        true
    } else if ci {
        let au: u32 = a as u32;
        let bu: u32 = b as u32;
        (65 <= au && au <= 90 && bu == au + 32) || (65 <= bu && bu <= 90 && au == bu + 32)
    } else {
        false
    }
}

/// Strict lexicographic order on character sequences, by Unicode scalar
/// value.  This is the order in which the dictionary stores its keys.
pub open spec fn lex_lt(a: Seq<char>, b: Seq<char>) -> bool
    decreases a.len(),
{
    if b.len() == 0 {
        false
    } else if a.len() == 0 {
        true
    } else if a[0] != b[0] {
        (a[0] as u32) < (b[0] as u32)
    } else {
        lex_lt(a.skip(1), b.skip(1))
    }
}

/// Executable test for [`lex_lt`] on string slices.
pub fn str_lex_lt(a: &str, b: &str) -> (r: bool)
    ensures
        r == lex_lt(a@, b@),
    decreases a@.len(),
{
    let alen = a.unicode_len();
    let blen = b.unicode_len();
    if blen == 0 {
        false
    } else if alen == 0 {
        true
    } else {
        let ca = a.get_char(0);
        let cb = b.get_char(0);
        if ca != cb {
            (ca as u32) < (cb as u32)
        } else {
            let r = str_lex_lt(a.substring_char(1, alen), b.substring_char(1, blen));
            proof {
                assert(a@.subrange(1, a@.len() as int) =~= a@.skip(1));
                assert(b@.subrange(1, b@.len() as int) =~= b@.skip(1));
            }
            r
        }
    }
}

/// Executable character-wise equality of two string slices.
pub fn str_eq(a: &str, b: &str) -> (r: bool)
    ensures
        r == (a@ == b@),
{
    let alen = a.unicode_len();
    let blen = b.unicode_len();
    if alen != blen {
        return false;
    }
    let mut i: usize = 0;
    while i < alen
        invariant
            i <= alen,
            alen == a@.len(),
            alen == b@.len(),
            forall|m: int| 0 <= m < i ==> a@[m] == b@[m],
        decreases alen - i,
    {
        if a.get_char(i) != b.get_char(i) {
            return false;
        }
        i += 1;
    }
    proof {
        assert(a@ =~= b@);
    }
    true
}

/// The lexicographic order is irreflexive.
pub proof fn lemma_lex_irrefl(a: Seq<char>)
    ensures
        !lex_lt(a, a),
    decreases a.len(),
{
    if a.len() > 0 {
        lemma_lex_irrefl(a.skip(1));
    }
}

/// The lexicographic order is asymmetric.
pub proof fn lemma_lex_asym(a: Seq<char>, b: Seq<char>)
    requires
        lex_lt(a, b),
    ensures
        !lex_lt(b, a),
    decreases a.len(),
{
    if a.len() > 0 && b.len() > 0 && a[0] == b[0] {
        lemma_lex_asym(a.skip(1), b.skip(1));
    }
}

/// Any two distinct sequences are ordered one way or the other.
pub proof fn lemma_lex_connex(a: Seq<char>, b: Seq<char>)
    requires
        a != b,
    ensures
        lex_lt(a, b) || lex_lt(b, a),
    decreases a.len(),
{
    if a.len() == 0 {
        assert(b.len() > 0) by {
            if b.len() == 0 {
                assert(a =~= b);
            }
        }
    } else if b.len() == 0 {
    } else if a[0] == b[0] {
        assert(a.skip(1) != b.skip(1)) by {
            if a.skip(1) == b.skip(1) {
                assert(a.skip(1).len() == a.len() - 1);
                assert(b.skip(1).len() == b.len() - 1);
                assert(a.len() == b.len());
                assert forall|m: int| 0 <= m < a.len() implies a[m] == b[m] by {
                    if m > 0 {
                        assert(a[m] == a.skip(1)[m - 1]);
                        assert(b[m] == b.skip(1)[m - 1]);
                    }
                }
                assert(a =~= b);
            }
        }
        lemma_lex_connex(a.skip(1), b.skip(1));
    } else {
        vstd::utf8::char_u32_cast(a[0], a[0] as u32);
        vstd::utf8::char_u32_cast(b[0], b[0] as u32);
        assert(a[0] as u32 != b[0] as u32);
    }
}

/// The lexicographic order is transitive.
pub proof fn lemma_lex_trans(a: Seq<char>, b: Seq<char>, c: Seq<char>)
    requires
        lex_lt(a, b),
        lex_lt(b, c),
    ensures
        lex_lt(a, c),
    decreases a.len(),
{
    if a.len() > 0 && b.len() > 0 && c.len() > 0 && a[0] == b[0] && b[0] == c[0] {
        lemma_lex_trans(a.skip(1), b.skip(1), c.skip(1));
    }
}

/// A dictionary view in canonical form: each key strictly below its
/// successor, which also makes the keys pairwise distinct.
pub open spec fn sorted_strict(d: Seq<Seq<char>>) -> bool {
    forall|i: int| 0 <= i && i + 1 < d.len() ==> lex_lt(#[trigger] d[i], d[i + 1])
}

/// In a strictly sorted sequence every earlier key is below every
/// later one, not only its direct successor.
pub proof fn lemma_sorted_pairwise(d: Seq<Seq<char>>, i: int, j: int)
    requires
        sorted_strict(d),
        0 <= i < j < d.len(),
    ensures
        lex_lt(d[i], d[j]),
    decreases j - i,
{
    if j == i + 1 {
    } else {
        lemma_sorted_pairwise(d, i, j - 1);
        assert(lex_lt(d[j - 1], d[j]));
        lemma_lex_trans(d[i], d[j - 1], d[j]);
    }
}

/// Two strictly sorted sequences that hold the same set of keys are
/// the same sequence: the canonical form of a key set is unique.
pub proof fn lemma_sorted_unique_same_elems(a: Seq<Seq<char>>, b: Seq<Seq<char>>)
    requires
        sorted_strict(a),
        sorted_strict(b),
        forall|w: Seq<char>| a.contains(w) <==> b.contains(w),
    ensures
        a == b,
    decreases a.len(),
{
    if a.len() == 0 {
        if b.len() > 0 {
            assert(b.contains(b[0]));
            assert(a.contains(b[0]));
        }
        assert(a =~= b);
    } else if b.len() == 0 {
        assert(a.contains(a[0]));
        assert(b.contains(a[0]));
        assert(a =~= b);
    } else {
        assert(a.contains(a[0]));
        assert(b.contains(b[0]));
        if a[0] != b[0] {
            let i = choose|i: int| 0 <= i < b.len() && b[i] == a[0];
            assert(i > 0);
            lemma_sorted_pairwise(b, 0, i);
            let j = choose|j: int| 0 <= j < a.len() && a[j] == b[0];
            assert(j > 0);
            lemma_sorted_pairwise(a, 0, j);
            lemma_lex_asym(a[0], b[0]);
            assert(false);
        }
        let at = a.skip(1);
        let bt = b.skip(1);
        assert(sorted_strict(at)) by {
            assert forall|i: int| 0 <= i && i + 1 < at.len() implies #[trigger] lex_lt(
                at[i],
                at[i + 1],
            ) by {
                assert(at[i] == a[i + 1] && at[i + 1] == a[i + 2]);
                assert(lex_lt(a[i + 1], a[i + 2]));
            }
        }
        assert(sorted_strict(bt)) by {
            assert forall|i: int| 0 <= i && i + 1 < bt.len() implies #[trigger] lex_lt(
                bt[i],
                bt[i + 1],
            ) by {
                assert(bt[i] == b[i + 1] && bt[i + 1] == b[i + 2]);
                assert(lex_lt(b[i + 1], b[i + 2]));
            }
        }
        assert(forall|w: Seq<char>| at.contains(w) ==> bt.contains(w)) by {
            assert forall|w: Seq<char>| at.contains(w) implies bt.contains(w) by {
                lemma_tail_contains(a, b, w);
            }
        }
        assert(forall|w: Seq<char>| bt.contains(w) ==> at.contains(w)) by {
            assert forall|w: Seq<char>| bt.contains(w) implies at.contains(w) by {
                lemma_tail_contains(b, a, w);
            }
        }
        lemma_sorted_unique_same_elems(at, bt);
        assert(a =~= b) by {
            assert(forall|m: int| 1 <= m < a.len() ==> a[m] == at[m - 1] && b[m] == bt[m - 1]);
        }
    }
}

/// Helper for [`lemma_sorted_unique_same_elems`]: a key found past the
/// head of `x` also lies past the head of `y`.
proof fn lemma_tail_contains(x: Seq<Seq<char>>, y: Seq<Seq<char>>, w: Seq<char>)
    requires
        sorted_strict(x),
        sorted_strict(y),
        x.len() > 0,
        y.len() > 0,
        x[0] == y[0],
        forall|v: Seq<char>| x.contains(v) <==> y.contains(v),
        x.skip(1).contains(w),
    ensures
        y.skip(1).contains(w),
{
    let m = choose|m: int| 0 <= m < x.skip(1).len() && x.skip(1)[m] == w;
    assert(x[m + 1] == w);
    assert(x.contains(w));
    lemma_sorted_pairwise(x, 0, m + 1);
    assert(lex_lt(x[0], w));
    assert(y.contains(w));
    let q = choose|q: int| 0 <= q < y.len() && y[q] == w;
    if q == 0 {
        lemma_lex_irrefl(w);
        assert(false);
    }
    assert(y.skip(1)[q - 1] == w);
    assert(y.skip(1).contains(w));
}

} // verus!
