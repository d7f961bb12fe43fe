use language::{
    Dfa, DuplicateState, Nfa, NoStartState, StateRegistry, StateSet, Transition, TransitionError,
    UnknownState,
};

fn chars(text: &str) -> Vec<char> {
    text.chars().collect()
}

/// The automaton over '0' and '1' that accepts the words ending in '1'.
fn ends_in_one() -> Dfa<char, char> {
    let mut dfa = Dfa::new();
    dfa.add_state('S').unwrap();
    dfa.add_state('A').unwrap();
    dfa.set_start_state(&'S').unwrap();
    dfa.add_accepting_state(&'A').unwrap();
    dfa.add_transition('0', &'S', &'S').unwrap();
    dfa.add_transition('1', &'S', &'A').unwrap();
    dfa.add_transition('0', &'A', &'S').unwrap();
    dfa.add_transition('1', &'A', &'A').unwrap();
    dfa
}

/// Accepts "a", through the edge from 0 to 2, and "aa", through 1.
fn fan_out() -> Nfa<u32, char> {
    let mut nfa = Nfa::new();
    for label in 0..4 {
        nfa.add_state(label).unwrap();
    }
    nfa.add_transition(Transition::Value('a'), &0, &1).unwrap();
    nfa.add_transition(Transition::Value('a'), &0, &2).unwrap();
    nfa.add_transition(Transition::Value('a'), &1, &2).unwrap();
    nfa.set_start_state(&0).unwrap();
    nfa.add_accepting_state(&2).unwrap();
    nfa
}

/// Any number of '0', then any number of '1', joined by an epsilon edge.
fn zeros_then_ones() -> Nfa<u32, char> {
    let mut nfa = Nfa::new();
    nfa.add_state(0).unwrap();
    nfa.add_state(1).unwrap();
    nfa.set_start_state(&0).unwrap();
    nfa.add_accepting_state(&1).unwrap();
    nfa.add_transition(Transition::Value('0'), &0, &0).unwrap();
    nfa.add_transition(Transition::Epsilon, &0, &1).unwrap();
    nfa.add_transition(Transition::Value('1'), &1, &1).unwrap();
    nfa
}

/// Words over 'a' and 'b' whose third symbol from the end is 'a', with a
/// chain of epsilon edges at the front.
fn third_from_end() -> Nfa<&'static str, char> {
    let mut nfa = Nfa::new();
    for label in ["in", "loop", "one", "two", "three"] {
        nfa.add_state(label).unwrap();
    }
    nfa.set_start_state(&"in").unwrap();
    nfa.add_accepting_state(&"three").unwrap();
    nfa.add_transition(Transition::Epsilon, &"in", &"loop").unwrap();
    nfa.add_transition(Transition::Value('a'), &"loop", &"loop").unwrap();
    nfa.add_transition(Transition::Value('b'), &"loop", &"loop").unwrap();
    nfa.add_transition(Transition::Value('a'), &"loop", &"one").unwrap();
    nfa.add_transition(Transition::Value('a'), &"one", &"two").unwrap();
    nfa.add_transition(Transition::Value('b'), &"one", &"two").unwrap();
    nfa.add_transition(Transition::Value('a'), &"two", &"three").unwrap();
    nfa.add_transition(Transition::Value('b'), &"two", &"three").unwrap();
    nfa
}

fn words_up_to(alphabet: &[char], length: usize) -> Vec<Vec<char>> {
    let mut all: Vec<Vec<char>> = vec![Vec::new()];
    let mut last: Vec<Vec<char>> = vec![Vec::new()];
    for _ in 0..length {
        let mut longer = Vec::new();
        for word in &last {
            for symbol in alphabet {
                let mut next = word.clone();
                next.push(*symbol);
                longer.push(next);
            }
        }
        all.extend(longer.iter().cloned());
        last = longer;
    }
    all
}

fn members(set: &StateSet) -> Vec<usize> {
    (0..set.capacity()).filter(|h| set.contains(*h)).collect()
}

fn set_of(capacity: usize, handles: &[usize]) -> StateSet {
    let mut set = StateSet::new(capacity);
    for h in handles {
        set.insert(*h);
    }
    set
}

#[test]
fn it_works() {
    assert_eq!(2 + 2, 4);
}

#[test]
fn dfa_accepts_word_ending_in_one() {
    let dfa = ends_in_one();
    assert_eq!(dfa.try_match(&chars("000000000001")), Ok(true));
}

#[test]
fn dfa_rejects_word_ending_in_zero() {
    let dfa = ends_in_one();
    assert_eq!(dfa.try_match(&chars("0000000000010")), Ok(false));
}

#[test]
fn dfa_empty_word_is_accepted_when_start_accepts() {
    let mut dfa = ends_in_one();
    assert_eq!(dfa.try_match(&[]), Ok(false));
    dfa.add_accepting_state(&'S').unwrap();
    assert_eq!(dfa.try_match(&[]), Ok(true));
}

#[test]
fn dfa_rejects_at_once_where_an_edge_is_missing() {
    let mut dfa: Dfa<u8, char> = Dfa::new();
    dfa.add_state(0).unwrap();
    dfa.add_state(1).unwrap();
    dfa.set_start_state(&0).unwrap();
    dfa.add_accepting_state(&1).unwrap();
    dfa.add_transition('x', &0, &1).unwrap();
    assert_eq!(dfa.try_match(&chars("x")), Ok(true));
    assert_eq!(dfa.try_match(&chars("xx")), Ok(false));
    assert_eq!(dfa.try_match(&chars("y")), Ok(false));
    assert_eq!(dfa.try_match(&chars("yx")), Ok(false));
}

#[test]
fn dfa_try_accept_answers_as_try_match() {
    let dfa = ends_in_one();
    for word in words_up_to(&['0', '1'], 5) {
        assert_eq!(dfa.try_accept(&word), dfa.try_match(&word));
    }
}

#[test]
fn dfa_without_start_state_does_not_match() {
    let mut dfa: Dfa<char, char> = Dfa::new();
    dfa.add_state('S').unwrap();
    assert_eq!(dfa.try_match(&chars("0")), Err(NoStartState));
    assert_eq!(dfa.try_accept(&[]), Err(NoStartState));
}

#[test]
fn dfa_refuses_unknown_labels() {
    let mut dfa: Dfa<char, char> = Dfa::new();
    dfa.add_state('S').unwrap();
    assert_eq!(dfa.resolve(&'S'), Ok(0));
    assert_eq!(dfa.resolve(&'Z'), Err(UnknownState(&'Z')));
    assert_eq!(dfa.set_start_state(&'Z'), Err(UnknownState(&'Z')));
    assert_eq!(dfa.add_accepting_state(&'Y'), Err(UnknownState(&'Y')));
    assert_eq!(dfa.add_transition('0', &'S', &'Z'), Err(TransitionError::UnknownState(&'Z')));
    assert_eq!(dfa.add_transition('0', &'Z', &'S'), Err(TransitionError::UnknownState(&'Z')));
    assert_eq!(dfa.add_transition('0', &'X', &'Y'), Err(TransitionError::UnknownState(&'X')));
    assert_eq!(dfa.try_match(&[]), Err(NoStartState));
}

#[test]
fn dfa_refuses_a_label_twice() {
    let mut dfa: Dfa<char, char> = Dfa::new();
    assert_eq!(dfa.add_state('S'), Ok(()));
    assert_eq!(dfa.add_state('S'), Err(DuplicateState('S')));
    assert_eq!(dfa.add_state('A'), Ok(()));
    dfa.set_start_state(&'S').unwrap();
    dfa.add_accepting_state(&'A').unwrap();
    dfa.add_transition('1', &'S', &'A').unwrap();
    assert_eq!(dfa.try_match(&chars("1")), Ok(true));
}

#[test]
fn dfa_refuses_a_second_edge_for_symbol_and_source() {
    let mut dfa = ends_in_one();
    assert_eq!(
        dfa.add_transition('1', &'S', &'S'),
        Err(TransitionError::DuplicateTransition { symbol: '1', from: &'S' })
    );
    assert_eq!(
        dfa.add_transition('1', &'S', &'A'),
        Err(TransitionError::DuplicateTransition { symbol: '1', from: &'S' })
    );
    assert_eq!(dfa.try_match(&chars("1")), Ok(true));
    assert_eq!(dfa.add_transition('2', &'S', &'S'), Ok(()));
    assert_eq!(dfa.try_match(&chars("21")), Ok(true));
}

#[test]
fn dfa_symbol_added_late_has_no_edge_elsewhere() {
    let mut dfa = ends_in_one();
    dfa.add_transition('2', &'A', &'A').unwrap();
    assert_eq!(dfa.try_match(&chars("12")), Ok(true));
    assert_eq!(dfa.try_match(&chars("2")), Ok(false));
    assert_eq!(dfa.try_match(&chars("021")), Ok(false));
}

#[test]
fn registry_hands_out_handles_in_order() {
    let mut registry: StateRegistry<&str> = StateRegistry::new();
    assert_eq!(registry.len(), 0);
    assert_eq!(registry.add_state("a"), Ok(()));
    assert_eq!(registry.add_state("b"), Ok(()));
    assert_eq!(registry.add_state("a"), Err(DuplicateState("a")));
    assert_eq!(registry.add_state("c"), Ok(()));
    assert_eq!(registry.len(), 3);
    assert_eq!(registry.resolve(&"a"), Ok(0));
    assert_eq!(registry.resolve(&"b"), Ok(1));
    assert_eq!(registry.resolve(&"c"), Ok(2));
    assert_eq!(registry.resolve(&"d"), Err(UnknownState(&"d")));
}

#[test]
fn nfa_accepts_through_direct_edge() {
    let nfa = fan_out();
    assert_eq!(nfa.try_match(&chars("a")), Ok(true));
}

#[test]
fn nfa_follows_every_branch() {
    let nfa = fan_out();
    assert_eq!(nfa.try_match(&chars("")), Ok(false));
    assert_eq!(nfa.try_match(&chars("aa")), Ok(true));
    assert_eq!(nfa.try_match(&chars("aaa")), Ok(false));
    assert_eq!(nfa.try_match(&chars("b")), Ok(false));
}

#[test]
fn nfa_closes_under_epsilon_before_and_after_each_symbol() {
    let nfa = zeros_then_ones();
    assert_eq!(nfa.try_match(&chars("011")), Ok(true));
    assert_eq!(nfa.try_match(&chars("")), Ok(true));
    assert_eq!(nfa.try_match(&chars("1")), Ok(true));
    assert_eq!(nfa.try_match(&chars("000")), Ok(true));
    assert_eq!(nfa.try_match(&chars("10")), Ok(false));
    assert_eq!(nfa.try_match(&chars("0110")), Ok(false));
}

#[test]
fn nfa_without_start_state_does_not_match() {
    let mut nfa: Nfa<u32, char> = Nfa::new();
    nfa.add_state(0).unwrap();
    assert_eq!(nfa.try_match(&chars("a")), Err(NoStartState));
    assert!(matches!(nfa.into_dfa(), Err(NoStartState)));
}

#[test]
fn nfa_refuses_unknown_and_repeated_labels() {
    let mut nfa: Nfa<u32, char> = Nfa::new();
    assert_eq!(nfa.add_state(0), Ok(()));
    assert_eq!(nfa.add_state(0), Err(DuplicateState(0)));
    assert_eq!(nfa.resolve(&0), Ok(0));
    assert_eq!(nfa.resolve(&7), Err(UnknownState(&7)));
    assert_eq!(nfa.set_start_state(&7), Err(UnknownState(&7)));
    assert_eq!(nfa.add_accepting_state(&8), Err(UnknownState(&8)));
    assert_eq!(nfa.add_transition(Transition::Value('a'), &0, &7), Err(UnknownState(&7)));
    assert_eq!(nfa.add_transition(Transition::Epsilon, &7, &0), Err(UnknownState(&7)));
    assert_eq!(nfa.add_transition(Transition::Epsilon, &8, &9), Err(UnknownState(&8)));
    assert_eq!(nfa.add_transition(Transition::Value('a'), &0, &0), Ok(()));
    assert_eq!(nfa.add_transition(Transition::Value('a'), &0, &0), Ok(()));
    nfa.set_start_state(&0).unwrap();
    nfa.add_accepting_state(&0).unwrap();
    assert_eq!(nfa.try_match(&chars("aaa")), Ok(true));
}

#[test]
fn nfa_states_after_transition_follows_one_edge() {
    let nfa = fan_out();
    let from = set_of(4, &[0]);
    let after = nfa.states_after_transition(&from, &Transition::Value('a'));
    assert_eq!(members(&after), vec![1, 2]);
    let after = nfa.states_after_transition(&from, &Transition::Value('b'));
    assert_eq!(members(&after), Vec::<usize>::new());
    let after = nfa.states_after_transition(&from, &Transition::Epsilon);
    assert_eq!(members(&after), Vec::<usize>::new());
    let from = set_of(4, &[0, 1]);
    let after = nfa.states_after_transition(&from, &Transition::Value('a'));
    assert_eq!(members(&after), vec![1, 2]);
}

#[test]
fn nfa_epsilon_closure_follows_chains() {
    let mut nfa: Nfa<u32, char> = Nfa::new();
    for label in 0..5 {
        nfa.add_state(label).unwrap();
    }
    nfa.add_transition(Transition::Epsilon, &0, &1).unwrap();
    nfa.add_transition(Transition::Epsilon, &1, &2).unwrap();
    nfa.add_transition(Transition::Epsilon, &2, &0).unwrap();
    nfa.add_transition(Transition::Value('a'), &2, &3).unwrap();
    nfa.add_transition(Transition::Epsilon, &4, &3).unwrap();
    assert_eq!(members(&nfa.epsilon_closure(&set_of(5, &[0]))), vec![0, 1, 2]);
    assert_eq!(members(&nfa.epsilon_closure(&set_of(5, &[3]))), vec![3]);
    assert_eq!(members(&nfa.epsilon_closure(&set_of(5, &[4]))), vec![3, 4]);
    assert_eq!(members(&nfa.epsilon_closure(&set_of(5, &[]))), Vec::<usize>::new());
    assert_eq!(members(&nfa.epsilon_closure(&set_of(5, &[1, 4]))), vec![0, 1, 2, 3, 4]);
}

#[test]
fn nfa_epsilon_closure_is_idempotent() {
    let mut nfa: Nfa<u32, char> = Nfa::new();
    for label in 0..6 {
        nfa.add_state(label).unwrap();
    }
    nfa.add_transition(Transition::Epsilon, &0, &1).unwrap();
    nfa.add_transition(Transition::Epsilon, &1, &2).unwrap();
    nfa.add_transition(Transition::Epsilon, &3, &4).unwrap();
    nfa.add_transition(Transition::Epsilon, &4, &3).unwrap();
    nfa.add_transition(Transition::Value('a'), &2, &5).unwrap();
    for first in 0..6 {
        for second in 0..6 {
            let seed = set_of(6, &[first, second]);
            let once = nfa.epsilon_closure(&seed);
            let twice = nfa.epsilon_closure(&once);
            assert!(once.is_superset(&seed));
            assert!(twice.same_members(&once));
        }
    }
}

#[test]
fn subset_construction_keeps_the_language_without_epsilon() {
    let nfa = fan_out();
    let words = words_up_to(&['a', 'b'], 6);
    let expected: Vec<_> = words.iter().map(|w| nfa.try_match(w)).collect();
    let dfa = nfa.into_dfa().unwrap();
    for (word, answer) in words.iter().zip(expected) {
        assert_eq!(dfa.try_match(word), answer);
    }
}

#[test]
fn subset_construction_keeps_the_language_with_epsilon() {
    for nfa in [zeros_then_ones(), {
        let mut other = zeros_then_ones();
        other.add_state(2).unwrap();
        other.add_transition(Transition::Epsilon, &1, &2).unwrap();
        other.add_transition(Transition::Value('0'), &2, &0).unwrap();
        other
    }] {
        let words = words_up_to(&['0', '1', '2'], 6);
        let expected: Vec<_> = words.iter().map(|w| nfa.try_match(w)).collect();
        let dfa = nfa.into_dfa().unwrap();
        for (word, answer) in words.iter().zip(expected) {
            assert_eq!(dfa.try_match(word), answer);
        }
    }
}

#[test]
fn subset_construction_of_third_from_end() {
    let nfa = third_from_end();
    let words = words_up_to(&['a', 'b'], 8);
    let expected: Vec<_> = words.iter().map(|w| nfa.try_match(w)).collect();
    let dfa = nfa.into_dfa().unwrap();
    for (word, answer) in words.iter().zip(expected) {
        let third = word.len() >= 3 && word[word.len() - 3] == 'a';
        assert_eq!(answer, Ok(third));
        assert_eq!(dfa.try_match(word), Ok(third));
    }
}

#[test]
fn subset_construction_marks_accepting_start() {
    let nfa = zeros_then_ones();
    let dfa = nfa.into_dfa().unwrap();
    assert_eq!(dfa.try_match(&[]), Ok(true));
}

#[test]
fn subset_construction_twice_gives_the_same_language() {
    let one = third_from_end().into_dfa().unwrap();
    let other = third_from_end().build_dfa().unwrap();
    for word in words_up_to(&['a', 'b'], 8) {
        assert_eq!(one.try_match(&word), other.try_match(&word));
    }
}

#[test]
fn subset_construction_labels_states_with_their_handles() {
    let mut dfa = fan_out().into_dfa().unwrap();
    assert_eq!(dfa.add_state(0), Err(DuplicateState(0)));
    assert_eq!(dfa.add_state(2), Err(DuplicateState(2)));
    assert_eq!(dfa.add_state(3), Ok(()));
    assert_eq!(
        dfa.add_transition('a', &0, &3),
        Err(TransitionError::DuplicateTransition { symbol: 'a', from: &0 })
    );
    assert_eq!(dfa.add_transition('b', &0, &3), Ok(()));
    assert_eq!(dfa.add_accepting_state(&3), Ok(()));
    assert_eq!(dfa.try_match(&chars("b")), Ok(true));
    assert_eq!(dfa.try_match(&chars("a")), Ok(true));
}

#[test]
fn state_set_operations() {
    let mut set = StateSet::new(5);
    assert_eq!(set.capacity(), 5);
    assert!(set.is_empty());
    set.insert(3);
    set.insert(1);
    set.insert(3);
    assert!(!set.is_empty());
    assert!(set.contains(1) && set.contains(3));
    assert!(!set.contains(0) && !set.contains(4) && !set.contains(9));
    assert_eq!(members(&set), vec![1, 3]);
    let other = set_of(5, &[3, 4]);
    assert!(!set.is_superset(&other));
    assert!(!set.is_disjoint(&other));
    assert!(set.is_disjoint(&set_of(5, &[0, 2])));
    assert!(set.is_superset(&set_of(5, &[1])));
    assert!(set.is_superset(&set_of(2, &[1])));
    assert!(!set.same_members(&other));
    let copy = set.clone();
    assert!(copy.same_members(&set));
    set.extend(&other);
    assert_eq!(members(&set), vec![1, 3, 4]);
    assert_eq!(members(&copy), vec![1, 3]);
    set.grow();
    assert_eq!(set.capacity(), 6);
    assert_eq!(members(&set), vec![1, 3, 4]);
}
