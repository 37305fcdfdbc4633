//! Laws of the filtering pass, stated over the model in [`crate::matching`]
//! and proved once for all dictionaries and texts.

use vstd::prelude::*;

use crate::chars::lemma_sorted_unique_same_elems;
use crate::filter::Filter;
use crate::matching::{
    best_match, lemma_best_match_maximal, lemma_best_upto_bounds, match_from, match_spans,
    redact_from, redaction,
};

verus! {

/// Without the whitespace skip, a keyword consumes exactly one text
/// character per keyword character.
proof fn lemma_match_exact_len(
    t: Seq<char>,
    ti: int,
    key: Seq<char>,
    ki: int,
    case_insensitive: bool,
)
    requires
        0 <= ki <= key.len(),
        match_from(t, ti, key, ki, false, case_insensitive) is Some,
    ensures
        match_from(t, ti, key, ki, false, case_insensitive)->0 == ti + key.len() - ki,
    decreases key.len() - ki,
{
    if ki < key.len() {
        lemma_match_exact_len(t, ti + 1, key, ki + 1, case_insensitive);
    }
}

/// Helper for the length law: from any scan state onwards, the scan
/// emits one output character for each text position it still has to
/// account for.
proof fn lemma_redact_len(
    dict: Seq<Seq<char>>,
    t: Seq<char>,
    case_insensitive: bool,
    i: int,
    last: int,
)
    requires
        0 <= i <= t.len(),
        0 <= last <= t.len(),
    ensures
        redact_from(dict, t, false, case_insensitive, i, last).0.len() == t.len() - (if last > i {
            last
        } else {
            i
        }),
    decreases t.len() - i,
{
    if i >= t.len() {
    } else if i < last {
        lemma_redact_len(dict, t, case_insensitive, i + 1, last);
    } else {
        let sub = t.subrange(i, t.len() as int);
        let bm = best_match(dict, sub, false, case_insensitive);
        if bm is Some && (bm->0).0 > 0 {
            let e0 = (bm->0).0;
            let k = (bm->0).1;
            lemma_best_upto_bounds(dict, sub, false, case_insensitive, dict.len() as int);
            lemma_match_exact_len(sub, 0, dict[k], 0, case_insensitive);
            assert(e0 == dict[k].len());
            lemma_redact_len(dict, t, case_insensitive, i + 1, i + e0);
        } else {
            lemma_redact_len(dict, t, case_insensitive, i + 1, last);
        }
    }
}

/// Length invariant: when the whitespace skip is off, the redacted
/// output has exactly as many characters as the input text, whether or
/// not case is folded.  (With the whitespace skip on, a span may
/// consume more text characters than its keyword has, so the law is
/// stated for the passes that do not skip whitespace.)
pub proof fn lemma_length_invariant(dict: Seq<Seq<char>>, t: Seq<char>, case_insensitive: bool)
    ensures
        redaction(dict, t, false, case_insensitive).0.len() == t.len(),
{
    lemma_redact_len(dict, t, case_insensitive, 0, 0);
}

/// With both options off, a keyword suffix matches at a text cursor
/// exactly when it stands there as a literal substring.
proof fn lemma_match_iff_substring(t: Seq<char>, ti: int, key: Seq<char>, ki: int)
    requires
        0 <= ti <= t.len(),
        0 <= ki <= key.len(),
    ensures
        match_from(t, ti, key, ki, false, false) is Some <==> (ti + key.len() - ki <= t.len()
            && t.subrange(ti, ti + key.len() - ki) == key.subrange(ki, key.len() as int)),
    decreases key.len() - ki,
{
    let rem = key.len() - ki;
    if ki >= key.len() {
        assert(t.subrange(ti, ti) =~= key.subrange(ki, key.len() as int));
    } else if ti >= t.len() {
        assert(ti + rem > t.len());
    } else if key[ki] == t[ti] {
        lemma_match_iff_substring(t, ti + 1, key, ki + 1);
        if ti + rem <= t.len() {
            if t.subrange(ti + 1, ti + rem) == key.subrange(ki + 1, key.len() as int) {
                assert(t.subrange(ti, ti + rem) =~= key.subrange(ki, key.len() as int)) by {
                    assert(forall|m: int|
                        1 <= m < rem ==> #[trigger] t.subrange(ti, ti + rem)[m] == t.subrange(
                            ti + 1,
                            ti + rem,
                        )[m - 1]);
                    assert(forall|m: int|
                        1 <= m < rem ==> #[trigger] key.subrange(ki, key.len() as int)[m]
                            == key.subrange(ki + 1, key.len() as int)[m - 1]);
                }
            }
            if t.subrange(ti, ti + rem) == key.subrange(ki, key.len() as int) {
                assert(t.subrange(ti + 1, ti + rem) =~= key.subrange(ki + 1, key.len() as int))
                    by {
                    assert(forall|m: int|
                        0 <= m < rem - 1 ==> #[trigger] t.subrange(ti + 1, ti + rem)[m]
                            == t.subrange(ti, ti + rem)[m + 1]);
                    assert(forall|m: int|
                        0 <= m < rem - 1 ==> #[trigger] key.subrange(ki + 1, key.len() as int)[m]
                            == key.subrange(ki, key.len() as int)[m + 1]);
                }
            }
        }
    } else {
        if ti + rem <= t.len() && t.subrange(ti, ti + rem) == key.subrange(ki, key.len() as int) {
            assert(t.subrange(ti, ti + rem)[0] == t[ti]);
            assert(key.subrange(ki, key.len() as int)[0] == key[ki]);
            assert(false);
        }
    }
}

/// Keyword-free texts pass through unchanged, from any scan state.
proof fn lemma_no_match_identity_from(dict: Seq<Seq<char>>, t: Seq<char>, i: int, last: int)
    requires
        0 <= last <= i <= t.len(),
        forall|k: int, j: int|
            0 <= k < dict.len() && dict[k].len() > 0 && 0 <= j && j + dict[k].len() <= t.len()
                ==> #[trigger] t.subrange(j, j + dict[k].len()) != dict[k],
    ensures
        redact_from(dict, t, false, false, i, last).0 == t.subrange(i, t.len() as int),
        redact_from(dict, t, false, false, i, last).1 == Seq::<Seq<char>>::empty(),
    decreases t.len() - i,
{
    let n = t.len() as int;
    if i >= n {
        assert(t.subrange(i, n) =~= Seq::<char>::empty());
    } else {
        let sub = t.subrange(i, n);
        let bm = best_match(dict, sub, false, false);
        if bm is Some && (bm->0).0 > 0 {
            let e0 = (bm->0).0;
            let k = (bm->0).1;
            lemma_best_upto_bounds(dict, sub, false, false, dict.len() as int);
            lemma_match_exact_len(sub, 0, dict[k], 0, false);
            assert(e0 == dict[k].len());
            lemma_match_iff_substring(sub, 0, dict[k], 0);
            assert(sub.subrange(0, e0) == key_whole(dict[k])) by {
                assert(key_whole(dict[k]) =~= dict[k].subrange(0, dict[k].len() as int));
            }
            assert(t.subrange(i, i + e0) =~= sub.subrange(0, e0));
            assert(t.subrange(i, i + e0) != dict[k]);
            assert(sub.subrange(0, e0) == dict[k]) by {
                assert(dict[k].subrange(0, dict[k].len() as int) =~= dict[k]);
            }
            assert(false);
        } else {
            lemma_no_match_identity_from(dict, t, i + 1, last);
            assert(seq![t[i]] + t.subrange(i + 1, n) =~= t.subrange(i, n));
        }
    }
}

/// A whole key, as the trivial subrange of itself.
spec fn key_whole(key: Seq<char>) -> Seq<char> {
    key.subrange(0, key.len() as int)
}

/// Idempotence on keyword-free texts: if no non-empty dictionary key
/// occurs anywhere in the text as a literal substring, the pass with
/// both options off returns the text unchanged and reports no
/// keywords.  (Empty keys never redact anything, so they are exempt.)
pub proof fn lemma_no_match_identity(dict: Seq<Seq<char>>, t: Seq<char>)
    requires
        forall|k: int, j: int|
            0 <= k < dict.len() && dict[k].len() > 0 && 0 <= j && j + dict[k].len() <= t.len()
                ==> #[trigger] t.subrange(j, j + dict[k].len()) != dict[k],
    ensures
        redaction(dict, t, false, false).0 == t,
        redaction(dict, t, false, false).1 == Seq::<Seq<char>>::empty(),
{
    lemma_no_match_identity_from(dict, t, 0, 0);
    assert(t.subrange(0, t.len() as int) =~= t);
}

/// Dictionary order independence: two well-formed dictionaries that
/// hold the same set of keys are the same dictionary, so every
/// filtering pass behaves identically on them.  Since
/// [`Filter::new`] establishes well-formedness and its contents
/// depend only on the distinct keywords supplied, building from a
/// reordered list yields identical filtering behavior.
pub proof fn lemma_dictionary_canonical(a: Filter, b: Filter)
    requires
        a.wf(),
        b.wf(),
        forall|w: Seq<char>| a@.contains(w) <==> b@.contains(w),
    ensures
        a@ == b@,
        forall|t: Seq<char>, iw: bool, ci: bool|
            #[trigger] redaction(a@, t, iw, ci) == redaction(b@, t, iw, ci),
{
    lemma_sorted_unique_same_elems(a@, b@);
}

/// The redacted spans, from any scan state onwards: they run in step
/// with the reported keywords, each span is a non-empty range of text
/// positions at or past the scan state, each keyword is the text of
/// its span, and the spans are ordered and pairwise disjoint.
proof fn lemma_spans_from(
    dict: Seq<Seq<char>>,
    t: Seq<char>,
    ignore_whitespace: bool,
    case_insensitive: bool,
    i: int,
    last: int,
)
    requires
        0 <= i <= t.len(),
        0 <= last <= t.len(),
    ensures
        ({
            let sp = match_spans(dict, t, ignore_whitespace, case_insensitive, i, last);
            let kw = redact_from(dict, t, ignore_whitespace, case_insensitive, i, last).1;
            &&& sp.len() == kw.len()
            &&& forall|q: int|
                0 <= q < sp.len() ==> (if last > i {
                    last
                } else {
                    i
                }) <= (#[trigger] sp[q]).0 < sp[q].1 <= t.len()
            &&& forall|q: int| 0 <= q < sp.len() ==> kw[q] == t.subrange((#[trigger] sp[q]).0, sp[q].1)
            &&& forall|q1: int, q2: int|
                0 <= q1 < q2 < sp.len() ==> (#[trigger] sp[q1]).1 <= (#[trigger] sp[q2]).0
        }),
    decreases t.len() - i,
{
    let sp = match_spans(dict, t, ignore_whitespace, case_insensitive, i, last);
    let kw = redact_from(dict, t, ignore_whitespace, case_insensitive, i, last).1;
    if i >= t.len() {
    } else if i < last {
        lemma_spans_from(dict, t, ignore_whitespace, case_insensitive, i + 1, last);
    } else {
        let sub = t.subrange(i, t.len() as int);
        let bm = best_match(dict, sub, ignore_whitespace, case_insensitive);
        if bm is Some && (bm->0).0 > 0 {
            let e = i + (bm->0).0;
            lemma_best_upto_bounds(dict, sub, ignore_whitespace, case_insensitive, dict.len() as int);
            assert(e <= t.len());
            lemma_spans_from(dict, t, ignore_whitespace, case_insensitive, i + 1, e);
            let spt = match_spans(dict, t, ignore_whitespace, case_insensitive, i + 1, e);
            let kwt = redact_from(dict, t, ignore_whitespace, case_insensitive, i + 1, e).1;
            assert(sp == seq![(i, e)] + spt);
            assert(sp[0] == (i, e));
            assert(kw[0] == t.subrange(i, e));
            assert(forall|q: int| 1 <= q < sp.len() ==> (#[trigger] sp[q]) == spt[q - 1]);
            assert(forall|q: int| 1 <= q < kw.len() ==> (#[trigger] kw[q]) == kwt[q - 1]);
        } else {
            lemma_spans_from(dict, t, ignore_whitespace, case_insensitive, i + 1, last);
        }
    }
}

/// Helper for the completeness law: from any scan state onwards, a
/// keyword occurrence in the still-unprocessed region overlaps one of
/// the spans the rest of the scan redacts.
proof fn lemma_occurrence_from(
    dict: Seq<Seq<char>>,
    t: Seq<char>,
    ignore_whitespace: bool,
    case_insensitive: bool,
    i: int,
    last: int,
    p: int,
    k: int,
)
    requires
        0 <= i <= t.len(),
        i <= p <= t.len(),
        last <= p,
        0 <= k < dict.len(),
        match_from(
            t.subrange(p, t.len() as int),
            0,
            dict[k],
            0,
            ignore_whitespace,
            case_insensitive,
        ) is Some,
        match_from(
            t.subrange(p, t.len() as int),
            0,
            dict[k],
            0,
            ignore_whitespace,
            case_insensitive,
        )->0 > 0,
    ensures
        ({
            let sp = match_spans(dict, t, ignore_whitespace, case_insensitive, i, last);
            let pe = p + match_from(
                t.subrange(p, t.len() as int),
                0,
                dict[k],
                0,
                ignore_whitespace,
                case_insensitive,
            )->0;
            exists|q: int|
                0 <= q < sp.len() && (#[trigger] sp[q]).0 < pe && p < sp[q].1
        }),
    decreases t.len() - i,
{
    let n = t.len() as int;
    let suffix = t.subrange(p, n);
    let e0 = match_from(suffix, 0, dict[k], 0, ignore_whitespace, case_insensitive)->0;
    let pe = p + e0;
    let sp = match_spans(dict, t, ignore_whitespace, case_insensitive, i, last);
    if i >= n {
        assert(p == n);
        assert(suffix.len() == 0);
        assert(dict[k].len() > 0);
        assert(false);
    } else if i < last {
        lemma_occurrence_from(dict, t, ignore_whitespace, case_insensitive, i + 1, last, p, k);
        assert(sp == match_spans(dict, t, ignore_whitespace, case_insensitive, i + 1, last));
    } else {
        let sub = t.subrange(i, n);
        let bm = best_match(dict, sub, ignore_whitespace, case_insensitive);
        if bm is Some && (bm->0).0 > 0 {
            let e = i + (bm->0).0;
            let spt = match_spans(dict, t, ignore_whitespace, case_insensitive, i + 1, e);
            assert(sp == seq![(i, e)] + spt);
            assert(sp[0] == (i, e));
            if p < e {
                assert(sp[0].0 == i < pe && p < e);
            } else {
                lemma_occurrence_from(dict, t, ignore_whitespace, case_insensitive, i + 1, e, p, k);
                let q = choose|q: int|
                    0 <= q < spt.len() && (#[trigger] spt[q]).0 < pe && p < spt[q].1;
                assert(sp[q + 1] == spt[q]);
            }
        } else {
            if p == i {
                lemma_best_match_maximal(dict, sub, ignore_whitespace, case_insensitive, k);
                assert(false);
            }
            lemma_occurrence_from(dict, t, ignore_whitespace, case_insensitive, i + 1, last, p, k);
            assert(sp == match_spans(dict, t, ignore_whitespace, case_insensitive, i + 1, last));
        }
    }
}

/// Completeness: every keyword occurrence in the text is redacted at
/// least in part — whenever a dictionary key fully matches at some
/// position and consumes at least one character, the range it
/// consumes overlaps one of the spans the pass redacts.  (Together
/// with [`lemma_no_overlap`] this pins the scan down: it redacts
/// disjoint spans and leaves no occurrence wholly untouched.)
pub proof fn lemma_occurrence_overlaps_span(
    dict: Seq<Seq<char>>,
    t: Seq<char>,
    ignore_whitespace: bool,
    case_insensitive: bool,
    p: int,
    k: int,
)
    requires
        0 <= p <= t.len(),
        0 <= k < dict.len(),
        match_from(
            t.subrange(p, t.len() as int),
            0,
            dict[k],
            0,
            ignore_whitespace,
            case_insensitive,
        ) is Some,
        match_from(
            t.subrange(p, t.len() as int),
            0,
            dict[k],
            0,
            ignore_whitespace,
            case_insensitive,
        )->0 > 0,
    ensures
        ({
            let sp = match_spans(dict, t, ignore_whitespace, case_insensitive, 0, 0);
            let pe = p + match_from(
                t.subrange(p, t.len() as int),
                0,
                dict[k],
                0,
                ignore_whitespace,
                case_insensitive,
            )->0;
            exists|q: int|
                0 <= q < sp.len() && (#[trigger] sp[q]).0 < pe && p < sp[q].1
        }),
{
    lemma_occurrence_from(dict, t, ignore_whitespace, case_insensitive, 0, 0, p, k);
}

/// No overlap: the spans of the text that one filtering pass redacts
/// are non-empty, ordered left to right, and pairwise disjoint, and
/// the reported keywords are exactly the text of those spans, in
/// order of occurrence.
pub proof fn lemma_no_overlap(
    dict: Seq<Seq<char>>,
    t: Seq<char>,
    ignore_whitespace: bool,
    case_insensitive: bool,
)
    ensures
        ({
            let sp = match_spans(dict, t, ignore_whitespace, case_insensitive, 0, 0);
            let kw = redaction(dict, t, ignore_whitespace, case_insensitive).1;
            &&& sp.len() == kw.len()
            &&& forall|q: int| 0 <= q < sp.len() ==> 0 <= (#[trigger] sp[q]).0 < sp[q].1 <= t.len()
            &&& forall|q: int| 0 <= q < sp.len() ==> kw[q] == t.subrange((#[trigger] sp[q]).0, sp[q].1)
            &&& forall|q1: int, q2: int|
                0 <= q1 < q2 < sp.len() ==> (#[trigger] sp[q1]).1 <= (#[trigger] sp[q2]).0
        }),
{
    lemma_spans_from(dict, t, ignore_whitespace, case_insensitive, 0, 0);
}

} // verus!
