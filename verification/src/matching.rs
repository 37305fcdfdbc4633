//! The mathematical model of the matching engine: what it means for a
//! keyword to match a text suffix, which candidate the span matcher
//! picks, and what the scan over the whole text produces.

use vstd::prelude::*;

use crate::chars::{chars_agree, is_ascii_ws};

verus! {

/// First position at or after `i` whose character is not ASCII
/// whitespace (or the end of `t`).
pub open spec fn ws_skip(t: Seq<char>, i: int) -> int
    decreases t.len() - i,
{
    if i < t.len() && is_ascii_ws(t[i]) {
        ws_skip(t, i + 1)
    } else {
        i
    }
}

/// The text cursor after the optional whitespace skip: when
/// `ignore_whitespace` is set, interior whitespace of the text is
/// consumed without consuming a keyword character.
pub open spec fn pat_skip(t: Seq<char>, i: int, ignore_whitespace: bool) -> int {
    if ignore_whitespace {
        ws_skip(t, i)
    } else {
        i
    }
}

/// Matching `key[ki..]` against the text suffix `t` from text cursor
/// `ti`.  `Some(e)` means every remaining keyword character was
/// matched, consuming the text up to (exclusive) position `e`; `None`
/// means a mismatch, or the text ran out before the keyword did.  The
/// whitespace skip is interior-only: it runs between matched
/// characters, never before the first one, so where a keyword begins
/// is always a character it spells.
pub open spec fn match_from(
    t: Seq<char>,
    ti: int,
    key: Seq<char>,
    ki: int,
    ignore_whitespace: bool,
    case_insensitive: bool,
) -> Option<int>
    decreases key.len() - ki,
{
    if ki >= key.len() {
        Some(ti)
    } else {
        let tj = if ki > 0 {
            pat_skip(t, ti, ignore_whitespace)
        } else {
            ti
        };
        if tj >= t.len() {
            None
        } else if chars_agree(key[ki], t[tj], case_insensitive) {
            match_from(t, tj + 1, key, ki + 1, ignore_whitespace, case_insensitive)
        } else {
            None
        }
    }
}

/// The best accepted candidate among the first `n` dictionary keys
/// matched against the text suffix `t`: the pair of the greatest end
/// cursor and the index of its key, earlier keys winning ties.
pub open spec fn best_upto(
    dict: Seq<Seq<char>>,
    t: Seq<char>,
    ignore_whitespace: bool,
    case_insensitive: bool,
    n: int,
) -> Option<(int, int)>
    decreases n,
{
    if n <= 0 {
        None
    } else {
        let prev = best_upto(dict, t, ignore_whitespace, case_insensitive, n - 1);
        let cur = match_from(t, 0, dict[n - 1], 0, ignore_whitespace, case_insensitive);
        if cur is Some {
            match prev {
                None => Some((cur->0, n - 1)),
                Some(p) => if cur->0 > p.0 {
                    Some((cur->0, n - 1))
                } else {
                    prev
                },
            }
        } else {
            prev
        }
    }
}

/// The span matcher's choice over the whole dictionary.
pub open spec fn best_match(
    dict: Seq<Seq<char>>,
    t: Seq<char>,
    ignore_whitespace: bool,
    case_insensitive: bool,
) -> Option<(int, int)> {
    best_upto(dict, t, ignore_whitespace, case_insensitive, dict.len() as int)
}

/// `n` mask characters.
pub open spec fn mask_seq(n: int) -> Seq<char> {
    Seq::new(n as nat, |i: int| '*')
}

/// The scan over the text from character position `i`, where `last` is
/// one past the last position already covered by an accepted match.
/// Returns the redacted output and the ordered list of redacted spans.
/// Positions below `last` are already accounted for; at every other
/// position the span matcher runs on the suffix, and a match that
/// consumes at least one character masks its key's character count
/// and records the consumed text span; otherwise the position's
/// character is copied verbatim.
pub open spec fn redact_from(
    dict: Seq<Seq<char>>,
    t: Seq<char>,
    ignore_whitespace: bool,
    case_insensitive: bool,
    i: int,
    last: int,
) -> (Seq<char>, Seq<Seq<char>>)
    decreases t.len() - i,
{
    if i >= t.len() {
        (Seq::empty(), Seq::empty())
    } else if i < last {
        redact_from(dict, t, ignore_whitespace, case_insensitive, i + 1, last)
    } else {
        let bm = best_match(
            dict,
            t.subrange(i, t.len() as int),
            ignore_whitespace,
            case_insensitive,
        );
        if bm is Some && (bm->0).0 > 0 {
            let e = i + (bm->0).0;
            let k = (bm->0).1;
            let rest = redact_from(dict, t, ignore_whitespace, case_insensitive, i + 1, e);
            (mask_seq(dict[k].len() as int) + rest.0, seq![t.subrange(i, e)] + rest.1)
        } else {
            let rest = redact_from(dict, t, ignore_whitespace, case_insensitive, i + 1, last);
            (seq![t[i]] + rest.0, rest.1)
        }
    }
}

/// The spans of text positions that the scan redacts, as half-open
/// character ranges `[start, end)`, in order of occurrence.  They run
/// in step with the spans reported by [`redact_from`].
pub open spec fn match_spans(
    dict: Seq<Seq<char>>,
    t: Seq<char>,
    ignore_whitespace: bool,
    case_insensitive: bool,
    i: int,
    last: int,
) -> Seq<(int, int)>
    decreases t.len() - i,
{
    if i >= t.len() {
        Seq::empty()
    } else if i < last {
        match_spans(dict, t, ignore_whitespace, case_insensitive, i + 1, last)
    } else {
        let bm = best_match(
            dict,
            t.subrange(i, t.len() as int),
            ignore_whitespace,
            case_insensitive,
        );
        if bm is Some && (bm->0).0 > 0 {
            let e = i + (bm->0).0;
            seq![(i, e)] + match_spans(dict, t, ignore_whitespace, case_insensitive, i + 1, e)
        } else {
            match_spans(dict, t, ignore_whitespace, case_insensitive, i + 1, last)
        }
    }
}

/// The whole filtering pass: redacted output and redacted spans.
pub open spec fn redaction(
    dict: Seq<Seq<char>>,
    t: Seq<char>,
    ignore_whitespace: bool,
    case_insensitive: bool,
) -> (Seq<char>, Seq<Seq<char>>) {
    redact_from(dict, t, ignore_whitespace, case_insensitive, 0, 0)
}

/// Bounds of the whitespace skip.
pub proof fn lemma_ws_skip_bounds(t: Seq<char>, i: int)
    requires
        0 <= i <= t.len(),
    ensures
        i <= ws_skip(t, i) <= t.len(),
    decreases t.len() - i,
{
    if i < t.len() && is_ascii_ws(t[i]) {
        lemma_ws_skip_bounds(t, i + 1);
    }
}

/// A successful match never moves the text cursor backwards and never
/// past the end of the text.
pub proof fn lemma_match_from_bounds(
    t: Seq<char>,
    ti: int,
    key: Seq<char>,
    ki: int,
    ignore_whitespace: bool,
    case_insensitive: bool,
)
    requires
        0 <= ti <= t.len(),
        match_from(t, ti, key, ki, ignore_whitespace, case_insensitive) is Some,
    ensures
        ti <= match_from(t, ti, key, ki, ignore_whitespace, case_insensitive)->0 <= t.len(),
    decreases key.len() - ki,
{
    if ki >= key.len() {
    } else {
        let tj = if ki > 0 {
            pat_skip(t, ti, ignore_whitespace)
        } else {
            ti
        };
        if ki > 0 && ignore_whitespace {
            lemma_ws_skip_bounds(t, ti);
        }
        assert(ti <= tj);
        if tj < t.len() && chars_agree(key[ki], t[tj], case_insensitive) {
            lemma_match_from_bounds(t, tj + 1, key, ki + 1, ignore_whitespace, case_insensitive);
        }
    }
}

/// The span matcher picks a true maximum among the first `n` keys:
/// whenever some key matches, a best candidate exists, no accepted
/// key consumes more text than it, and an equally long one has no
/// smaller key index (earlier keys win ties).
pub proof fn lemma_best_upto_maximal(
    dict: Seq<Seq<char>>,
    t: Seq<char>,
    ignore_whitespace: bool,
    case_insensitive: bool,
    n: int,
    k: int,
)
    requires
        0 <= k < n <= dict.len(),
        match_from(t, 0, dict[k], 0, ignore_whitespace, case_insensitive) is Some,
    ensures
        best_upto(dict, t, ignore_whitespace, case_insensitive, n) is Some,
        match_from(t, 0, dict[k], 0, ignore_whitespace, case_insensitive)->0 <= (best_upto(
            dict,
            t,
            ignore_whitespace,
            case_insensitive,
            n,
        )->0).0,
        match_from(t, 0, dict[k], 0, ignore_whitespace, case_insensitive)->0 == (best_upto(
            dict,
            t,
            ignore_whitespace,
            case_insensitive,
            n,
        )->0).0 ==> (best_upto(dict, t, ignore_whitespace, case_insensitive, n)->0).1 <= k,
    decreases n,
{
    let prev = best_upto(dict, t, ignore_whitespace, case_insensitive, n - 1);
    if prev is Some {
        lemma_best_upto_bounds(dict, t, ignore_whitespace, case_insensitive, n - 1);
    }
    if k < n - 1 {
        lemma_best_upto_maximal(dict, t, ignore_whitespace, case_insensitive, n - 1, k);
    }
}

/// [`lemma_best_upto_maximal`] over the whole dictionary: the span
/// matcher's choice is the longest accepted keyword, and among the
/// equally long ones the first in sorted order.
pub proof fn lemma_best_match_maximal(
    dict: Seq<Seq<char>>,
    t: Seq<char>,
    ignore_whitespace: bool,
    case_insensitive: bool,
    k: int,
)
    requires
        0 <= k < dict.len(),
        match_from(t, 0, dict[k], 0, ignore_whitespace, case_insensitive) is Some,
    ensures
        best_match(dict, t, ignore_whitespace, case_insensitive) is Some,
        match_from(t, 0, dict[k], 0, ignore_whitespace, case_insensitive)->0 <= (best_match(
            dict,
            t,
            ignore_whitespace,
            case_insensitive,
        )->0).0,
        match_from(t, 0, dict[k], 0, ignore_whitespace, case_insensitive)->0 == (best_match(
            dict,
            t,
            ignore_whitespace,
            case_insensitive,
        )->0).0 ==> (best_match(dict, t, ignore_whitespace, case_insensitive)->0).1 <= k,
{
    lemma_best_upto_maximal(dict, t, ignore_whitespace, case_insensitive, dict.len() as int, k);
}

/// The span matcher's result names a real key and an end cursor inside
/// the text.
pub proof fn lemma_best_upto_bounds(
    dict: Seq<Seq<char>>,
    t: Seq<char>,
    ignore_whitespace: bool,
    case_insensitive: bool,
    n: int,
)
    requires
        n <= dict.len(),
        best_upto(dict, t, ignore_whitespace, case_insensitive, n) is Some,
    ensures
        ({
            let b = best_upto(dict, t, ignore_whitespace, case_insensitive, n)->0;
            &&& 0 <= b.1 < n
            &&& 0 <= b.0 <= t.len()
            &&& match_from(t, 0, dict[b.1], 0, ignore_whitespace, case_insensitive) == Some(b.0)
        }),
    decreases n,
{
    if n > 0 {
        let prev = best_upto(dict, t, ignore_whitespace, case_insensitive, n - 1);
        let cur = match_from(t, 0, dict[n - 1], 0, ignore_whitespace, case_insensitive);
        if prev is Some {
            lemma_best_upto_bounds(dict, t, ignore_whitespace, case_insensitive, n - 1);
        }
        if cur is Some {
            lemma_match_from_bounds(t, 0, dict[n - 1], 0, ignore_whitespace, case_insensitive);
        }
    }
}

} // verus!
