use dfa_lexer::{keyword_automata, keyword_automaton, AutomatonBuilder, START};

#[test]
fn dfa_test_keyword() {
    let hello: Vec<char> = "hello".chars().collect();
    let mut automaton = keyword_automaton(&hello);

    assert!(automaton.is_alive());
    assert!(!automaton.is_previous_accepting());

    automaton.transition(Some('h'));

    assert!(automaton.is_alive());
    assert!(!automaton.is_previous_accepting());

    automaton.transition(Some('e'));

    assert!(automaton.is_alive());
    assert!(!automaton.is_previous_accepting());

    automaton.transition(Some('l'));

    assert!(automaton.is_alive());
    assert!(!automaton.is_previous_accepting());

    automaton.transition(Some('l'));

    assert!(automaton.is_alive());
    assert!(!automaton.is_previous_accepting());

    automaton.transition(Some('o'));

    assert!(automaton.is_alive());
    assert!(!automaton.is_previous_accepting());

    automaton.transition(None);

    assert!(!automaton.is_alive());
    assert!(automaton.is_previous_accepting());

    automaton.reset();

    assert!(automaton.is_alive());
    assert!(!automaton.is_previous_accepting());

    automaton.transition(Some('h'));

    assert!(automaton.is_alive());
    assert!(!automaton.is_previous_accepting());

    automaton.transition(Some('h'));

    assert!(!automaton.is_alive());
    assert!(!automaton.is_previous_accepting());
}

#[test]
fn test_keyword() {
    let hello: Vec<char> = "hello".chars().collect();
    let mut automata = keyword_automata(&hello);

    assert!(automata.is_alive());
    assert!(!automata.is_previous_accepting());

    automata.transition(Some('h'));

    assert!(automata.is_alive());
    assert!(!automata.is_previous_accepting());

    automata.transition(Some('e'));

    assert!(automata.is_alive());
    assert!(!automata.is_previous_accepting());

    automata.transition(Some('l'));

    assert!(automata.is_alive());
    assert!(!automata.is_previous_accepting());

    automata.transition(Some('l'));

    assert!(automata.is_alive());
    assert!(!automata.is_previous_accepting());

    automata.transition(Some('o'));

    assert!(automata.is_alive());
    assert!(!automata.is_previous_accepting());

    automata.transition(None);

    assert!(!automata.is_alive());
    assert!(automata.is_previous_accepting());

    automata.reset();

    assert!(automata.is_alive());
    assert!(!automata.is_previous_accepting());

    automata.transition(Some('h'));

    assert!(automata.is_alive());
    assert!(!automata.is_previous_accepting());

    automata.transition(Some('h'));

    assert!(!automata.is_alive());
    assert!(!automata.is_previous_accepting());
}

#[test]
fn keyword_rejects_other_words() {
    let mut automaton = keyword_automaton(&b"if"[..]);
    automaton.transition(Some(b'i'));
    automaton.transition(Some(b'x'));
    assert!(!automaton.is_alive());
    assert!(!automaton.is_previous_accepting());
    automaton.transition(Some(b'f'));
    assert!(!automaton.is_alive());
}

#[test]
fn keyword_longer_input_dies_after_keyword() {
    let mut automaton = keyword_automaton(&b"if"[..]);
    automaton.transition(Some(b'i'));
    automaton.transition(Some(b'f'));
    automaton.transition(Some(b'f'));
    assert!(!automaton.is_alive());
    assert!(automaton.is_previous_accepting());
}

#[test]
fn empty_keyword_never_accepts() {
    let mut automaton = keyword_automaton::<u8>(&[]);
    assert!(automaton.is_alive());
    automaton.transition(None);
    assert!(!automaton.is_alive());
    assert!(!automaton.is_previous_accepting());
}

#[test]
fn reset_after_death_behaves_as_fresh() {
    let mut used = keyword_automaton(&b"ab"[..]);
    used.transition(Some(b'z'));
    used.transition(Some(b'a'));
    assert!(!used.is_alive());
    used.reset();
    let mut fresh = keyword_automaton(&b"ab"[..]);
    for sym in [Some(b'a'), Some(b'b'), None] {
        used.transition(sym);
        fresh.transition(sym);
        assert_eq!(used.is_alive(), fresh.is_alive());
        assert_eq!(used.is_previous_accepting(), fresh.is_previous_accepting());
    }
    assert!(used.is_previous_accepting());
}

#[test]
fn first_matching_range_wins() {
    let mut builder = AutomatonBuilder::<u8>::new();
    let wide = builder.add_state(false);
    let narrow = builder.add_state(true);
    assert_eq!(wide, 1);
    assert_eq!(narrow, 2);
    builder.add_transition(START, wide, b'a', b'z');
    builder.add_transition(START, narrow, b'm', b'm');
    let mut automaton = builder.build();
    automaton.transition(Some(b'm'));
    assert!(automaton.is_alive());
    automaton.transition(None);
    assert!(!automaton.is_previous_accepting());
}

#[test]
fn range_bounds_are_inclusive() {
    let mut builder = AutomatonBuilder::<u8>::new();
    let digit = builder.add_state(true);
    builder.add_transition(START, digit, b'0', b'9');
    let mut low = builder.build();
    low.transition(Some(b'0'));
    assert!(low.is_alive());
    low.reset();
    low.transition(Some(b'9'));
    assert!(low.is_alive());
    low.reset();
    low.transition(Some(b'/'));
    assert!(!low.is_alive());
    low.reset();
    low.transition(Some(b':'));
    assert!(!low.is_alive());
}
