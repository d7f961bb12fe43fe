use crate::dfa::DfaView;
use crate::nfa::{lemma_nothing_from_nothing, NfaView, Transition};
use vstd::prelude::*;
use vstd::set_lib::lemma_len_subset;

verus! {

/// The function that adds `member` to a set.
pub open spec fn with_member(member: int) -> spec_fn(Set<int>) -> Set<int> {
    |s: Set<int>| s.insert(member)
}

/// Every set of handles below `n`.
pub open spec fn subsets_below(n: nat) -> Set<Set<int>>
    decreases n,
{
    if n == 0 {
        set![Set::<int>::empty()]
    } else {
        let smaller = subsets_below((n - 1) as nat);
        smaller.union(smaller.map(with_member(n - 1)))
    }
}

/// There are finitely many sets of handles below `n`.
pub proof fn lemma_subsets_finite(n: nat)
    ensures
        subsets_below(n).finite(),
    decreases n,
{
    if n > 0 {
        let smaller = subsets_below((n - 1) as nat);
        lemma_subsets_finite((n - 1) as nat);
        smaller.lemma_map_finite(with_member(n - 1));
    }
}

/// A set whose members are handles below `n` is one of `subsets_below(n)`.
pub proof fn lemma_subsets_complete(n: nat, s: Set<int>)
    requires
        forall|x: int| s.contains(x) ==> 0 <= x < n,
    ensures
        subsets_below(n).contains(s),
    decreases n,
{
    if n == 0 {
        assert(s =~= Set::<int>::empty());
    } else {
        let top = n - 1;
        if s.contains(top) {
            let rest = s.remove(top);
            lemma_subsets_complete(top as nat, rest);
        } else {
            lemma_subsets_complete(top as nat, s);
        }
    }
}

/// A list of different sets of handles below `n` is no longer than the
/// number of such sets.
pub proof fn lemma_distinct_sets_bounded(sets: Seq<Set<int>>, n: nat)
    requires
        sets.no_duplicates(),
        forall|i: int, x: int| 0 <= i < sets.len() && sets[i].contains(x) ==> 0 <= x < n,
    ensures
        sets.len() <= subsets_below(n).len(),
{
    sets.unique_seq_to_set();
    lemma_subsets_finite(n);
    assert forall|s: Set<int>| sets.to_set().contains(s) implies subsets_below(n).contains(s) by {
        let i = choose|i: int| 0 <= i < sets.len() && sets[i] == s;
        lemma_subsets_complete(n, sets[i]);
    }
    lemma_len_subset(sets.to_set(), subsets_below(n));
}

/// Whether the edge of `dfa` for `symbol` at `q`, or its absence, is what the
/// automaton `nfa` does under `symbol` from the states `sets[q]`.
pub open spec fn edge_agrees<S, L, T>(
    nfa: NfaView<S, T>,
    dfa: DfaView<L, T>,
    sets: Seq<Set<int>>,
    q: int,
    symbol: T,
) -> bool {
    match dfa.step(q, symbol) {
        Some(t) => 0 <= t < sets.len() && sets[t] == nfa.advance(sets[q], symbol),
        None => nfa.advance(sets[q], symbol) == Set::<int>::empty(),
    }
}

/// Whether some word leads `dfa` from its first state to the state `q`.
pub open spec fn reachable<L, T>(dfa: DfaView<L, T>, q: int) -> bool {
    exists|word: Seq<T>| #[trigger] dfa.run(0, word) == Some(q)
}

/// Whether `dfa` is a subset construction of `nfa` in which the state with
/// handle `q` stands for the set `sets[q]` of states of `nfa`.
///
/// The sets are all different and none is empty. The first is the closure of
/// the start state of `nfa`. A state accepts when its set holds an accepting
/// state. Under each symbol a state has the edge to the state whose set `nfa`
/// reaches from its own, and no edge where `nfa` reaches nothing. Every
/// state is reached from the first over some word, so the automaton holds
/// the sets that `nfa` can stand in and no others.
pub open spec fn determinizes<S, L, T>(
    nfa: NfaView<S, T>,
    dfa: DfaView<L, T>,
    sets: Seq<Set<int>>,
) -> bool {
    &&& nfa.start is Some
    &&& dfa.start == Some(0int)
    &&& sets.len() == dfa.labels.len()
    &&& sets.len() >= 1
    &&& sets.no_duplicates()
    &&& sets[0] == nfa.initial()
    &&& forall|q: int| 0 <= q < sets.len() ==> #[trigger] sets[q] != Set::<int>::empty()
    &&& forall|q: int| #[trigger]
        dfa.accepting.contains(q) <==> 0 <= q < sets.len() && !sets[q].disjoint(nfa.accepting)
    &&& forall|q: int, symbol: T|
        0 <= q < sets.len() ==> #[trigger] edge_agrees(nfa, dfa, sets, q, symbol)
    &&& forall|q: int| 0 <= q < sets.len() ==> #[trigger] reachable(dfa, q)
}

/// Where every state but the first is entered by an edge from a state that
/// comes before it, every state is reached from the first.
pub proof fn lemma_found_is_reachable<L, T>(dfa: DfaView<L, T>, origin: Seq<(int, T)>, q: int)
    requires
        0 <= q < origin.len(),
        forall|t: int|
            1 <= t < origin.len() ==> 0 <= (#[trigger] origin[t]).0 < t && dfa.step(
                origin[t].0,
                origin[t].1,
            ) == Some(t),
    ensures
        reachable(dfa, q),
    decreases q,
{
    if q == 0 {
        assert(dfa.run(0, Seq::<T>::empty()) == Some(0int));
    } else {
        let (p, symbol) = origin[q];
        lemma_found_is_reachable(dfa, origin, p);
        let word = choose|word: Seq<T>| #[trigger] dfa.run(0, word) == Some(p);
        let longer = word.push(symbol);
        assert(longer.drop_last() =~= word);
        assert(dfa.run(0, longer) == Some(q));
    }
}

/// In a subset construction the one state reached over a word stands for
/// the states that the other automaton stands in after that word, and the
/// run fails where the other automaton stands in no state.
pub proof fn lemma_determinized_run<S, L, T>(
    nfa: NfaView<S, T>,
    dfa: DfaView<L, T>,
    sets: Seq<Set<int>>,
    word: Seq<T>,
)
    requires
        determinizes(nfa, dfa, sets),
    ensures
        match dfa.run(0, word) {
            Some(t) => 0 <= t < sets.len() && sets[t] == nfa.active(word),
            None => nfa.active(word) == Set::<int>::empty(),
        },
    decreases word.len(),
{
    if word.len() > 0 {
        let shorter = word.drop_last();
        lemma_determinized_run(nfa, dfa, sets, shorter);
        match dfa.run(0, shorter) {
            Some(q) => {
                assert(edge_agrees(nfa, dfa, sets, q, word.last()));
            },
            None => {
                lemma_nothing_from_nothing(nfa.edges, Transition::Value(word.last()));
            },
        }
    }
}

/// A subset construction accepts the words that the other automaton accepts.
pub proof fn lemma_determinized_language<S, L, T>(
    nfa: NfaView<S, T>,
    dfa: DfaView<L, T>,
    sets: Seq<Set<int>>,
)
    requires
        determinizes(nfa, dfa, sets),
    ensures
        forall|word: Seq<T>| #[trigger] dfa.accepts(word) == nfa.accepts(word),
{
    assert forall|word: Seq<T>| #[trigger] dfa.accepts(word) == nfa.accepts(word) by {
        lemma_determinized_run(nfa, dfa, sets, word);
    }
}

/// Two subset constructions of one automaton accept the same words, however
/// each has numbered its states.
pub proof fn lemma_constructions_agree<S, L, M, T>(
    nfa: NfaView<S, T>,
    one: DfaView<L, T>,
    sets_of_one: Seq<Set<int>>,
    other: DfaView<M, T>,
    sets_of_other: Seq<Set<int>>,
)
    requires
        determinizes(nfa, one, sets_of_one),
        determinizes(nfa, other, sets_of_other),
    ensures
        forall|word: Seq<T>| #[trigger] one.accepts(word) == other.accepts(word),
{
    lemma_determinized_language(nfa, one, sets_of_one);
    lemma_determinized_language(nfa, other, sets_of_other);
}

} // verus!
