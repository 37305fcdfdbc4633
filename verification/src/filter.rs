//! The executable engine: the per-position matching automaton, the
//! keyword dictionary, and the scanning pass that produces the
//! redacted text together with the list of redacted spans.

use vstd::prelude::*;

use crate::chars::{
    char_is_ws, chars_agree, chars_match, lex_lt, sorted_strict, str_eq, str_lex_lt,
};
use crate::matching::{
    best_match, best_upto, lemma_match_from_bounds, mask_seq, match_from, pat_skip, redact_from,
    redaction, ws_skip,
};

verus! {

/// A matcher for one starting position: it holds the text suffix that
/// begins there and consumes the characters of one candidate keyword,
/// tracking how much of the suffix the keyword has covered.
#[derive(Clone, Debug)]
pub struct Substring<'a> {
    pub subseq: &'a str,
    pub ignore_whitespace: bool,
    pub case_insensitive: bool,
}

/// The state of one candidate keyword being matched against the text
/// suffix.
#[derive(Clone, Debug)]
pub enum SubstringState {
    /// The keyword has so far covered this many characters of the
    /// text suffix.
    Index(usize),
    /// A character mismatch occurred, or the text ran out: the
    /// candidate can never match.
    NotMatched,
    /// Every keyword character matched; the keyword covered this many
    /// characters of the text suffix.
    Matched(usize),
}

impl<'a> Substring<'a> {
    /// The text suffix this matcher walks.
    pub open spec fn text(self) -> Seq<char> {
        self.subseq@
    }

    /// A state whose cursor lies inside the text suffix.
    pub open spec fn state_ok(self, state: SubstringState) -> bool {
        match state {
            SubstringState::Index(ti) => ti <= self.text().len(),
            _ => true,
        }
    }

    /// What one step of the automaton yields: from a live cursor that
    /// has already consumed text, the optional whitespace skip runs
    /// first (it is interior-only, so a cursor still at the start
    /// never skips); then the keyword character must match the text
    /// character under the configured folding, or the candidate dies.
    /// Dead and accepted states are final.
    pub open spec fn accept_post(self, state: SubstringState, c: char, r: SubstringState) -> bool {
        match state {
            SubstringState::Index(ti) => {
                let tj = if ti > 0 {
                    pat_skip(self.text(), ti as int, self.ignore_whitespace)
                } else {
                    ti as int
                };
                if tj < self.text().len() && chars_agree(c, self.text()[tj], self.case_insensitive) {
                    r matches SubstringState::Index(t2) && t2 as int == tj + 1
                } else {
                    r matches SubstringState::NotMatched
                }
            },
            SubstringState::NotMatched => r matches SubstringState::NotMatched,
            SubstringState::Matched(m) => r matches SubstringState::Matched(m2) && m2 == m,
        }
    }

    /// Constructs a matcher for the given text suffix, with both
    /// options off.
    #[inline]
    pub fn new(subsequence: &'a str) -> (r: Self)
        ensures
            r.text() == subsequence@,
            !r.ignore_whitespace,
            !r.case_insensitive,
    {
        Self { subseq: subsequence, ignore_whitespace: false, case_insensitive: false }
    }

    /// The initial state: nothing of the suffix covered yet.
    #[inline]
    pub fn start(&self) -> (r: SubstringState)
        ensures
            r == SubstringState::Index(0usize),
    {
        SubstringState::Index(0)
    }

    /// Whether the state is accepting.
    #[inline]
    pub fn is_match(&self, state: &SubstringState) -> (r: bool)
        ensures
            r == (state matches SubstringState::Matched(_)),
    {
        if let SubstringState::Matched(_) = state {
            true
        } else {
            false
        }
    }

    /// Whether the candidate can still reach an accepting state.
    #[inline]
    pub fn can_match(&self, state: &SubstringState) -> (r: bool)
        ensures
            r == !(state matches SubstringState::NotMatched),
    {
        match state {
            SubstringState::Index(_) => true,
            SubstringState::Matched(_) => true,
            SubstringState::NotMatched => false,
        }
    }

    /// Whether every continuation of the candidate is accepted.
    #[inline]
    pub fn will_always_match(&self, state: &SubstringState) -> (r: bool)
        ensures
            r == (state matches SubstringState::Matched(_)),
    {
        match state {
            SubstringState::Index(_) => false,
            SubstringState::Matched(_) => true,
            SubstringState::NotMatched => false,
        }
    }

    /// Feeds the next keyword character to the automaton.
    #[inline]
    pub fn accept(&self, state: &SubstringState, c: char) -> (r: SubstringState)
        requires
            self.state_ok(*state),
        ensures
            self.accept_post(*state, c, r),
            self.state_ok(r),
    {
        match state {
            SubstringState::Index(idx) => {
                let n = self.subseq.unicode_len();
                let mut ti = *idx;
                if self.ignore_whitespace && ti > 0 {
                    while ti < n && char_is_ws(self.subseq.get_char(ti))
                        invariant
                            ti <= n,
                            n == self.text().len(),
                            ws_skip(self.text(), *idx as int) == ws_skip(self.text(), ti as int),
                        decreases n - ti,
                    {
                        ti += 1;
                    }
                    proof {
                        assert(ws_skip(self.text(), ti as int) == ti as int);
                    }
                }
                if ti == n {
                    SubstringState::NotMatched
                } else {
                    if chars_match(c, self.subseq.get_char(ti), self.case_insensitive) {
                        SubstringState::Index(ti + 1)
                    } else {
                        SubstringState::NotMatched
                    }
                }
            },
            SubstringState::NotMatched => SubstringState::NotMatched,
            SubstringState::Matched(m) => SubstringState::Matched(*m),
        }
    }

    /// Ends the keyword: a still-live cursor becomes an accepted
    /// match for the text it covered; a dead candidate stays dead.
    #[inline]
    pub fn accept_eof(&self, state: &SubstringState) -> (r: Option<SubstringState>)
        ensures
            match *state {
                SubstringState::Index(ti) => r == Some(SubstringState::Matched(ti)),
                SubstringState::Matched(ti) => r == Some(SubstringState::Matched(ti)),
                SubstringState::NotMatched => r is None,
            },
    {
        match state {
            SubstringState::Index(idx) => Some(SubstringState::Matched(*idx)),
            SubstringState::Matched(idx) => Some(SubstringState::Matched(*idx)),
            SubstringState::NotMatched => None,
        }
    }
}

/// The outcome of one filtering pass.
pub struct FilterResult {
    /// The input text with every matched span replaced by mask
    /// characters, one per character of the matched keyword.
    pub result: String,
    /// The redacted spans of the input text, in order of occurrence.
    pub keywords: Vec<String>,
}

/// An immutable dictionary of keywords: deduplicated and sorted at
/// construction, read-only afterwards.
pub struct Filter {
    inner: Vec<String>,
}

impl View for Filter {
    type V = Seq<Seq<char>>;

    /// The dictionary as the sequence of its keys' character
    /// sequences, in storage order.
    closed spec fn view(&self) -> Seq<Seq<char>> {
        self.inner.deep_view()
    }
}

/// Inserting into a sequence adds exactly the one element to its
/// contents.
proof fn lemma_insert_contains(s: Seq<Seq<char>>, j: int, x: Seq<char>)
    requires
        0 <= j <= s.len(),
    ensures
        forall|w: Seq<char>| #[trigger] s.insert(j, x).contains(w) <==> s.contains(w) || w == x,
{
    let s2 = s.insert(j, x);
    assert forall|w: Seq<char>| #[trigger] s2.contains(w) implies s.contains(w) || w == x by {
        let m = choose|m: int| 0 <= m < s2.len() && s2[m] == w;
        if m < j {
            assert(s[m] == w);
        } else if m > j {
            assert(s[m - 1] == w);
        }
    }
    assert forall|w: Seq<char>| s.contains(w) || w == x implies #[trigger] s2.contains(w) by {
        if w == x {
            assert(s2[j] == w);
        } else {
            let m = choose|m: int| 0 <= m < s.len() && s[m] == w;
            if m < j {
                assert(s2[m] == w);
            } else {
                assert(s2[m + 1] == w);
            }
        }
    }
}

impl Filter {
    /// The dictionary is in canonical form: keys strictly sorted, so
    /// also pairwise distinct.
    pub open spec fn wf(self) -> bool {
        sorted_strict(self@)
    }

    /// Builds the dictionary from a list of keywords, deduplicating
    /// and sorting.  The result is canonical: it depends only on the
    /// set of distinct keywords, not on their order of arrival.
    pub fn new(strings: &[&str]) -> (r: Filter)
        ensures
            r.wf(),
            forall|w: Seq<char>|
                #[trigger] r@.contains(w) <==> (exists|j: int|
                    0 <= j < strings@.len() && strings@[j]@ == w),
    {
        let mut inner: Vec<String> = Vec::new();
        let slen = strings.len();
        let mut m: usize = 0;
        while m < slen
            invariant
                m <= slen,
                slen == strings@.len(),
                sorted_strict(inner.deep_view()),
                forall|w: Seq<char>|
                    #[trigger] inner.deep_view().contains(w) <==> (exists|j: int|
                        0 <= j < m && strings@[j]@ == w),
            decreases slen - m,
        {
            let w: &str = *vstd::slice::slice_index_get(strings, m);
            let ghost pre = inner.deep_view();
            let ilen = inner.len();
            let mut j: usize = 0;
            while j < ilen && str_lex_lt(inner[j].as_str(), w)
                invariant
                    j <= ilen,
                    ilen == inner.len(),
                    inner.deep_view().len() == ilen,
                    forall|t: int| 0 <= t < j ==> lex_lt(#[trigger] inner.deep_view()[t], w@),
                decreases ilen - j,
            {
                proof {
                    assert(inner.deep_view()[j as int] == inner@[j as int]@);
                }
                j += 1;
            }
            let duplicate = j < ilen && str_eq(inner[j].as_str(), w);
            proof {
                if j < ilen {
                    assert(inner.deep_view()[j as int] == inner@[j as int]@);
                }
            }
            if duplicate {
                proof {
                    assert(inner.deep_view().contains(w@)) by {
                        assert(inner.deep_view()[j as int] == w@);
                    }
                }
            } else {
                proof {
                    if j < ilen && inner.deep_view()[j as int] != w@ {
                        crate::chars::lemma_lex_connex(inner.deep_view()[j as int], w@);
                    }
                    lemma_insert_contains(pre, j as int, w@);
                }
                inner.insert(j, w.to_owned());
                proof {
                    let post = inner.deep_view();
                    assert(post =~= pre.insert(j as int, w@)) by {
                        assert(forall|t: int|
                            0 <= t < post.len() ==> post[t] == #[trigger] inner@[t]@);
                    }
                    assert(sorted_strict(post)) by {
                        assert forall|t: int| 0 <= t && t + 1 < post.len() implies lex_lt(
                            #[trigger] post[t],
                            post[t + 1],
                        ) by {
                            if t + 1 < j {
                                assert(post[t] == pre[t] && post[t + 1] == pre[t + 1]);
                            } else if t + 1 == j {
                                assert(post[t] == pre[t] && post[t + 1] == w@);
                            } else if t == j {
                                assert(post[t] == w@ && post[t + 1] == pre[t]);
                            } else {
                                assert(post[t] == pre[t - 1] && post[t + 1] == pre[t]);
                            }
                        }
                    }
                }
            }
            m += 1;
        }
        Filter { inner }
    }

    /// Runs the automaton for one candidate keyword against the text
    /// suffix held by `sub`, returning how many characters of the
    /// suffix the keyword consumed, if it matched entirely.
    fn match_key(sub: &Substring<'_>, key: &str) -> (r: Option<usize>)
        ensures
            match r {
                Some(e) => match_from(
                    sub.text(),
                    0,
                    key@,
                    0,
                    sub.ignore_whitespace,
                    sub.case_insensitive,
                ) == Some(e as int),
                None => match_from(
                    sub.text(),
                    0,
                    key@,
                    0,
                    sub.ignore_whitespace,
                    sub.case_insensitive,
                ) is None,
            },
    {
        let ghost t = sub.text();
        let ghost iw = sub.ignore_whitespace;
        let ghost ci = sub.case_insensitive;
        let klen = key.unicode_len();
        let mut st = sub.start();
        let mut ki: usize = 0;
        while ki < klen
            invariant
                ki <= klen,
                klen == key@.len(),
                sub.state_ok(st),
                st matches SubstringState::Index(ti) ==> match_from(t, 0, key@, 0, iw, ci)
                    == match_from(t, ti as int, key@, ki as int, iw, ci),
                st matches SubstringState::Index(ti) ==> ((ti == 0) <==> (ki == 0)),
                st matches SubstringState::NotMatched ==> match_from(t, 0, key@, 0, iw, ci)
                    is None,
                !(st matches SubstringState::Matched(_)),
                t == sub.text(),
                iw == sub.ignore_whitespace,
                ci == sub.case_insensitive,
            decreases klen - ki,
        {
            let c = key.get_char(ki);
            let ghost st_in = st;
            st = sub.accept(&st, c);
            proof {
                if let SubstringState::Index(ti) = st_in {
                    let tj = if ki > 0 {
                        pat_skip(t, ti as int, iw)
                    } else {
                        ti as int
                    };
                    if ki > 0 && iw {
                        crate::matching::lemma_ws_skip_bounds(t, ti as int);
                    }
                    assert(match_from(t, ti as int, key@, ki as int, iw, ci) == (if tj
                        < t.len() && chars_agree(key@[ki as int], t[tj], ci) {
                        match_from(t, tj + 1, key@, ki as int + 1, iw, ci)
                    } else {
                        Option::<int>::None
                    }));
                }
            }
            if !sub.can_match(&st) {
                return None;
            }
            ki += 1;
        }
        match sub.accept_eof(&st) {
            Some(SubstringState::Matched(ti)) => Some(ti),
            _ => None,
        }
    }

    /// The span matcher: runs every dictionary key against the text
    /// suffix and picks the candidate that consumed the most
    /// characters, earlier keys (in sorted order) winning ties.
    fn match_longest(&self, suffix: &Substring<'_>) -> (r: Option<(usize, usize)>)
        ensures
            match r {
                Some(p) => {
                    &&& best_match(
                        self@,
                        suffix.text(),
                        suffix.ignore_whitespace,
                        suffix.case_insensitive,
                    ) == Some((p.0 as int, p.1 as int))
                    &&& p.1 < self@.len()
                    &&& p.0 <= suffix.text().len()
                },
                None => best_match(
                    self@,
                    suffix.text(),
                    suffix.ignore_whitespace,
                    suffix.case_insensitive,
                ) is None,
            },
    {
        let ghost t = suffix.text();
        let ghost iw = suffix.ignore_whitespace;
        let ghost ci = suffix.case_insensitive;
        let dlen = self.inner.len();
        let mut best: Option<(usize, usize)> = None;
        let mut k: usize = 0;
        while k < dlen
            invariant
                k <= dlen,
                dlen == self@.len(),
                t == suffix.text(),
                iw == suffix.ignore_whitespace,
                ci == suffix.case_insensitive,
                match best {
                    Some(p) => best_upto(self@, t, iw, ci, k as int) == Some(
                        (p.0 as int, p.1 as int),
                    ) && p.1 < k && p.0 <= t.len(),
                    None => best_upto(self@, t, iw, ci, k as int) is None,
                },
            decreases dlen - k,
        {
            proof {
                assert(self@[k as int] == self.inner@[k as int]@);
            }
            let cur = Self::match_key(suffix, self.inner[k].as_str());
            proof {
                if cur is Some {
                    lemma_match_from_bounds(t, 0, self@[k as int], 0, iw, ci);
                }
            }
            match cur {
                Some(e) => {
                    match best {
                        Some(p) => {
                            if e > p.0 {
                                best = Some((e, k));
                            }
                        },
                        None => {
                            best = Some((e, k));
                        },
                    }
                },
                None => {},
            }
            k += 1;
        }
        best
    }

    /// One filtering pass with both options off.
    pub fn filter(&self, s: &str) -> (res: FilterResult)
        ensures
            res.result@ == redaction(self@, s@, false, false).0,
            res.keywords.deep_view() == redaction(self@, s@, false, false).1,
    {
        self.filter_opts(s, false, false)
    }

    /// One filtering pass.  Scans the text left to right by character
    /// position; at every position not yet covered by a match, the
    /// span matcher picks the longest keyword that begins there.  A
    /// match is replaced by mask characters, one per character of the
    /// matched keyword, and the text span it consumed is recorded;
    /// every other character is copied verbatim.
    pub fn filter_opts(&self, s: &str, ignore_whitespace: bool, case_insensitive: bool) -> (res:
        FilterResult)
        ensures
            res.result@ == redaction(self@, s@, ignore_whitespace, case_insensitive).0,
            res.keywords.deep_view() == redaction(
                self@,
                s@,
                ignore_whitespace,
                case_insensitive,
            ).1,
    {
        let ghost dict = self@;
        let ghost t = s@;
        let n = s.unicode_len();
        let mut out = String::new();
        let mut keywords: Vec<String> = Vec::new();
        let mut last: usize = 0;
        let mut i: usize = 0;
        proof {
            reveal_strlit("*");
            assert(Seq::<char>::empty() + redaction(dict, t, ignore_whitespace, case_insensitive).0
                =~= redaction(dict, t, ignore_whitespace, case_insensitive).0);
            assert(Seq::<Seq<char>>::empty() + redaction(
                dict,
                t,
                ignore_whitespace,
                case_insensitive,
            ).1 =~= redaction(dict, t, ignore_whitespace, case_insensitive).1);
            assert(keywords.deep_view() =~= Seq::<Seq<char>>::empty());
        }
        while i < n
            invariant
                i <= n,
                n == t.len(),
                last <= n,
                t == s@,
                dict == self@,
                "*"@ == seq!['*'],
                redaction(dict, t, ignore_whitespace, case_insensitive).0 == out@ + redact_from(
                    dict,
                    t,
                    ignore_whitespace,
                    case_insensitive,
                    i as int,
                    last as int,
                ).0,
                redaction(dict, t, ignore_whitespace, case_insensitive).1
                    == keywords.deep_view() + redact_from(
                    dict,
                    t,
                    ignore_whitespace,
                    case_insensitive,
                    i as int,
                    last as int,
                ).1,
            decreases n - i,
        {
            if last > i {
                proof {
                    assert(redact_from(
                        dict,
                        t,
                        ignore_whitespace,
                        case_insensitive,
                        i as int,
                        last as int,
                    ) == redact_from(
                        dict,
                        t,
                        ignore_whitespace,
                        case_insensitive,
                        i as int + 1,
                        last as int,
                    ));
                }
                i += 1;
            } else {
                let ghost rest = redact_from(
                    dict,
                    t,
                    ignore_whitespace,
                    case_insensitive,
                    i as int + 1,
                    last as int,
                );
                let sub_str = s.substring_char(i, n);
                let mut sub = Substring::new(sub_str);
                sub.ignore_whitespace = ignore_whitespace;
                sub.case_insensitive = case_insensitive;
                proof {
                    assert(sub.text() == t.subrange(i as int, t.len() as int));
                }
                let m = self.match_longest(&sub);
                let mut took: bool = false;
                match m {
                    Some(p) => {
                        if p.0 > 0 {
                            took = true;
                            let e0 = p.0;
                            let k = p.1;
                            let end = i + e0;
                            let ghost hi = i as int + e0 as int;
                            let ghost mrest = redact_from(
                                dict,
                                t,
                                ignore_whitespace,
                                case_insensitive,
                                i as int + 1,
                                hi,
                            );
                            proof {
                                assert(redact_from(
                                    dict,
                                    t,
                                    ignore_whitespace,
                                    case_insensitive,
                                    i as int,
                                    last as int,
                                ) == (mask_seq(dict[k as int].len() as int) + mrest.0, seq![
                                    t.subrange(i as int, hi),
                                ] + mrest.1));
                            }
                            proof {
                                assert(dict[k as int] == self.inner@[k as int]@);
                            }
                            let klen = self.inner[k].as_str().unicode_len();
                            let ghost out_prev = out@;
                            let mut q: usize = 0;
                            while q < klen
                                invariant
                                    q <= klen,
                                    "*"@ == seq!['*'],
                                    out@ == out_prev + mask_seq(q as int),
                                decreases klen - q,
                            {
                                let ghost out_mid = out@;
                                out.append("*");
                                proof {
                                    assert((out_prev + mask_seq(q as int)) + seq!['*']
                                        =~= out_prev + (mask_seq(q as int) + seq!['*']));
                                    assert(mask_seq(q as int) + seq!['*'] =~= mask_seq(
                                        q as int + 1,
                                    ));
                                }
                                q += 1;
                            }
                            let span = s.substring_char(i, end);
                            let ghost kw_prev = keywords.deep_view();
                            keywords.push(span.to_owned());
                            proof {
                                assert(keywords.deep_view() =~= kw_prev.push(
                                    t.subrange(i as int, hi),
                                )) by {
                                    assert(forall|q2: int|
                                        0 <= q2 < keywords.deep_view().len()
                                            ==> keywords.deep_view()[q2] == #[trigger] keywords@[q2]@);
                                }
                                assert(out@ == out_prev + mask_seq(
                                    dict[k as int].len() as int,
                                ));
                                assert((out_prev + (mask_seq(dict[k as int].len() as int)
                                    + mrest.0)) =~= ((out_prev + mask_seq(
                                    dict[k as int].len() as int,
                                )) + mrest.0));
                                assert((kw_prev + (seq![t.subrange(i as int, hi)] + mrest.1))
                                    =~= ((kw_prev.push(t.subrange(i as int, hi))) + mrest.1));
                            }
                            last = end;
                            i += 1;
                        }
                    },
                    None => {},
                }
                if !took {
                    let ghost out_prev = out@;
                    let piece = s.substring_char(i, i + 1);
                    out.append(piece);
                    proof {
                        assert(piece@ =~= seq![t[i as int]]);
                        assert((out_prev + (seq![t[i as int]] + rest.0)) =~= ((out_prev + seq![
                            t[i as int],
                        ]) + rest.0));
                    }
                    i += 1;
                }
            }
        }
        proof {
            assert(redact_from(dict, t, ignore_whitespace, case_insensitive, i as int, last as int).0
                =~= Seq::<char>::empty());
            assert(redact_from(dict, t, ignore_whitespace, case_insensitive, i as int, last as int).1
                =~= Seq::<Seq<char>>::empty());
            assert(out@ + Seq::<char>::empty() =~= out@);
            assert(keywords.deep_view() + Seq::<Seq<char>>::empty() =~= keywords.deep_view());
        }
        FilterResult { result: out, keywords }
    }
}

} // verus!
