use word_filter::filter::{Substring, SubstringState};

#[test]
fn automaton_accepts_matching_keyword() {
    let sub = Substring::new("foofo rest");
    let mut st = sub.start();
    assert!(sub.can_match(&st));
    assert!(!sub.is_match(&st));
    for c in "foofo".chars() {
        st = sub.accept(&st, c);
    }
    assert!(sub.can_match(&st));
    let fin = sub
        .accept_eof(&st)
        .expect("a live candidate is accepted when its keyword ends");
    assert!(sub.is_match(&fin));
    assert!(sub.will_always_match(&fin));
    match fin {
        SubstringState::Matched(consumed) => assert_eq!(consumed, 5),
        _ => panic!("expected an accepted state"),
    }
}

#[test]
fn automaton_skips_text_whitespace_and_folds_case() {
    let mut sub = Substring::new("B a\tr!");
    sub.ignore_whitespace = true;
    sub.case_insensitive = true;
    let mut st = sub.start();
    for c in "bar".chars() {
        st = sub.accept(&st, c);
    }
    match sub.accept_eof(&st) {
        Some(SubstringState::Matched(consumed)) => assert_eq!(consumed, 5),
        _ => panic!("expected \"bar\" to cover \"B a\\tr\""),
    }
}

#[test]
fn automaton_rejects_mismatch() {
    let sub = Substring::new("foo");
    let mut st = sub.start();
    st = sub.accept(&st, 'f');
    st = sub.accept(&st, 'x');
    assert!(!sub.can_match(&st));
    assert!(sub.accept_eof(&st).is_none());
    // a dead candidate stays dead
    st = sub.accept(&st, 'o');
    assert!(!sub.can_match(&st));
}

#[test]
fn automaton_dies_when_text_runs_out() {
    let sub = Substring::new("fo");
    let mut st = sub.start();
    st = sub.accept(&st, 'f');
    st = sub.accept(&st, 'o');
    // the keyword goes on past the end of the text suffix
    st = sub.accept(&st, 'o');
    assert!(!sub.can_match(&st));
}
