use word_filter::filter::Filter;

#[test]
fn basic() {
    let keys = &["foo", "bar", "foofo", "한글"];

    let filter = Filter::new(keys);

    // longest match
    assert_eq!(filter.filter("foofo bazbaz").result, "***** bazbaz");
    // exact string
    assert_eq!(filter.filter("foo").result, "***");
    // exact string/unicode
    assert_eq!(filter.filter("한글").result, "**");

    // multiple matches
    assert_eq!(
        filter.filter("foo bazbaz bar foof bar").result,
        "*** bazbaz *** ***f ***"
    );
}

#[test]
fn whitespace() {
    let keys = &["foo", "bar", "foofo", "한글"];

    let filter = Filter::new(keys);

    // longest match
    assert_eq!(
        filter.filter_opts("foo  B a\tr", true, true).result,
        "***  ***"
    );
}

#[test]
fn longest_match_wins() {
    let filter = Filter::new(&["foo", "foofo"]);
    let res = filter.filter("foofo bazbaz");
    assert_eq!(res.result, "***** bazbaz");
    assert_eq!(res.keywords, vec!["foofo".to_string()]);
}

#[test]
fn exact_unicode_match() {
    let filter = Filter::new(&["한글"]);
    let res = filter.filter("한글");
    assert_eq!(res.result, "**");
    assert_eq!(res.keywords, vec!["한글".to_string()]);
}

#[test]
fn multiple_matches_in_order() {
    let filter = Filter::new(&["foo", "bar", "foofo", "한글"]);
    let res = filter.filter("foo bazbaz bar foof bar");
    assert_eq!(res.result, "*** bazbaz *** ***f ***");
    assert_eq!(
        res.keywords,
        vec![
            "foo".to_string(),
            "bar".to_string(),
            "foo".to_string(),
            "bar".to_string()
        ]
    );
}

#[test]
fn whitespace_and_case_fold_spans() {
    let filter = Filter::new(&["foo", "bar", "foofo", "한글"]);
    let res = filter.filter_opts("foo  B a\tr", true, true);
    assert_eq!(res.result, "***  ***");
    // the reported keywords are the matched text spans, whitespace
    // and case included, not the dictionary spellings
    assert_eq!(res.keywords, vec!["foo".to_string(), "B a\tr".to_string()]);
}

#[test]
fn length_preserved_without_whitespace_skip() {
    let filter = Filter::new(&["foo", "bar", "foofo", "한글"]);
    for text in ["", "foo", "xfoofoy", "한글 bar 한", "FOO bar", "a foof"] {
        let res = filter.filter(text);
        assert_eq!(res.result.chars().count(), text.chars().count());
        let res_ci = filter.filter_opts(text, false, true);
        assert_eq!(res_ci.result.chars().count(), text.chars().count());
    }
}

#[test]
fn no_match_passes_through() {
    let filter = Filter::new(&["foo", "bar"]);
    let res = filter.filter("a quiet text with nothing to hide");
    assert_eq!(res.result, "a quiet text with nothing to hide");
    assert!(res.keywords.is_empty());
}

#[test]
fn empty_dictionary_and_empty_text() {
    let empty = Filter::new(&[]);
    let res = empty.filter("anything at all");
    assert_eq!(res.result, "anything at all");
    assert!(res.keywords.is_empty());

    let filter = Filter::new(&["foo"]);
    let res = filter.filter("");
    assert_eq!(res.result, "");
    assert!(res.keywords.is_empty());
}

#[test]
fn dictionary_order_independent() {
    let a = Filter::new(&["bar", "foo"]);
    let b = Filter::new(&["foo", "bar"]);
    for text in ["foo bar", "barfoo", "no match", "FOO", "f bar oo"] {
        let ra = a.filter(text);
        let rb = b.filter(text);
        assert_eq!(ra.result, rb.result);
        assert_eq!(ra.keywords, rb.keywords);
        let ra = a.filter_opts(text, true, true);
        let rb = b.filter_opts(text, true, true);
        assert_eq!(ra.result, rb.result);
        assert_eq!(ra.keywords, rb.keywords);
    }
}

#[test]
fn duplicate_keywords_collapse() {
    let a = Filter::new(&["foo", "foo", "bar", "foo"]);
    let b = Filter::new(&["bar", "foo"]);
    let ra = a.filter("foo bar foo");
    let rb = b.filter("foo bar foo");
    assert_eq!(ra.result, "*** *** ***");
    assert_eq!(ra.result, rb.result);
    assert_eq!(ra.keywords, rb.keywords);
}

#[test]
fn empty_keyword_never_masks() {
    let filter = Filter::new(&["", "foo"]);
    let res = filter.filter("a foo b");
    assert_eq!(res.result, "a *** b");
    assert_eq!(res.keywords, vec!["foo".to_string()]);
}

#[test]
fn keyword_cut_off_by_text_end_does_not_match() {
    let filter = Filter::new(&["foofo"]);
    let res = filter.filter("foof");
    assert_eq!(res.result, "foof");
    assert!(res.keywords.is_empty());
}

#[test]
fn case_insensitive_only() {
    let filter = Filter::new(&["bar"]);
    let res = filter.filter_opts("BaR bar BAR", false, true);
    assert_eq!(res.result, "*** *** ***");
    assert_eq!(
        res.keywords,
        vec!["BaR".to_string(), "bar".to_string(), "BAR".to_string()]
    );
    // without folding, only the exact spelling matches
    let res = filter.filter("BaR bar BAR");
    assert_eq!(res.result, "BaR *** BAR");
    assert_eq!(res.keywords, vec!["bar".to_string()]);
}

#[test]
fn whitespace_initial_keyword_matches() {
    let filter = Filter::new(&[" x"]);
    let res = filter.filter(" x");
    assert_eq!(res.result, "**");
    assert_eq!(res.keywords, vec![" x".to_string()]);

    let res = filter.filter("a x b");
    assert_eq!(res.result, "a** b");
    assert_eq!(res.keywords, vec![" x".to_string()]);
}

#[test]
fn whitespace_initial_keyword_with_skip() {
    // the whitespace skip is interior-only: the keyword's first
    // character must stand in the text itself, and only whitespace
    // between matched characters is consumed for free
    let filter = Filter::new(&[" x"]);
    let res = filter.filter_opts("  x", true, false);
    assert_eq!(res.result, "**");
    assert_eq!(res.keywords, vec!["  x".to_string()]);
}

#[test]
fn no_overlap_between_reported_spans() {
    let filter = Filter::new(&["aba", "ab"]);
    // at position 0 the longest match "aba" wins and covers "ab" at
    // position 2; the scan resumes at position 3, so the next match
    // is the "ab" at position 4 and no reported spans overlap
    let res = filter.filter("ababab");
    assert_eq!(res.result, "***b**");
    assert_eq!(res.keywords, vec!["aba".to_string(), "ab".to_string()]);
}
