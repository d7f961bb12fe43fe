use crate::determinize::{
    determinizes, edge_agrees, lemma_determinized_language, lemma_distinct_sets_bounded,
    lemma_found_is_reachable, reachable, subsets_below,
};
use crate::dfa::{column_of, table_shaped, table_step, Dfa};
use crate::error::{DuplicateState, NoStartState, UnknownState};
use crate::registry::{
    handle_of, lemma_handle_unique, lemma_push_fresh, position, StateRegistry,
};
use crate::state_set::StateSet;
use crate::equality::eq_decides;
use vstd::prelude::*;
use vstd::set_lib::lemma_len_subset;

verus! {

/// What an edge of a non-deterministic automaton is taken on: one symbol of
/// the input, or nothing at all.
#[derive(Debug, Eq, Hash, PartialEq)]
pub enum Transition<T> {
    Value(T),
    Epsilon,
}

/// The edges of an automaton as triples of label, source and target.
pub type Edges<T> = Set<(Transition<T>, int, int)>;

/// The states that one edge labelled `label` reaches from a state in `from`.
pub open spec fn successors<T>(edges: Edges<T>, from: Set<int>, label: Transition<T>) -> Set<int> {
    Set::new(|q: int| exists|p: int| from.contains(p) && #[trigger] edges.contains((label, p, q)))
}

/// `c` holds `seed`, and no epsilon edge leads out of `c`.
pub open spec fn closed_above<T>(edges: Edges<T>, seed: Set<int>, c: Set<int>) -> bool {
    &&& seed.subset_of(c)
    &&& forall|p: int, q: int|
        c.contains(p) && #[trigger] edges.contains((Transition::Epsilon, p, q)) ==> c.contains(q)
}

/// The epsilon closure of `seed`: the least set that holds `seed` and that no
/// epsilon edge leads out of. A state belongs to it when it belongs to every
/// such set.
pub open spec fn epsilon_closure<T>(edges: Edges<T>, seed: Set<int>) -> Set<int> {
    Set::new(|q: int| forall|c: Set<int>| #[trigger] closed_above(edges, seed, c) ==> c.contains(q))
}

/// The closure holds its seed and no epsilon edge leads out of it.
pub proof fn lemma_closure_is_closed<T>(edges: Edges<T>, seed: Set<int>)
    ensures
        closed_above(edges, seed, epsilon_closure(edges, seed)),
{
}

/// The closure lies within every set that holds the seed and is closed.
pub proof fn lemma_closure_is_least<T>(edges: Edges<T>, seed: Set<int>, c: Set<int>)
    requires
        closed_above(edges, seed, c),
    ensures
        epsilon_closure(edges, seed).subset_of(c),
{
}

/// To close a set that is closed already changes nothing.
pub proof fn lemma_closure_idempotent<T>(edges: Edges<T>, seed: Set<int>)
    ensures
        epsilon_closure(edges, epsilon_closure(edges, seed)) == epsilon_closure(edges, seed),
{
    let once = epsilon_closure(edges, seed);
    lemma_closure_is_least(edges, once, once);
}

/// Whether an epsilon edge joins the state at place `i` of `path` to the next.
pub open spec fn epsilon_link<T>(edges: Edges<T>, path: Seq<int>, i: int) -> bool {
    edges.contains((Transition::Epsilon, path[i], path[i + 1]))
}

/// Whether `path` leads along epsilon edges from its first state to its last.
pub open spec fn epsilon_path<T>(edges: Edges<T>, path: Seq<int>) -> bool {
    &&& path.len() >= 1
    &&& forall|i: int| 0 <= i < path.len() - 1 ==> #[trigger] epsilon_link(edges, path, i)
}

/// Whether epsilon edges alone lead from some state of `seed` to `q`.
pub open spec fn epsilon_reachable<T>(edges: Edges<T>, seed: Set<int>, q: int) -> bool {
    exists|path: Seq<int>|
        #[trigger] epsilon_path(edges, path) && seed.contains(path.first()) && path.last() == q
}

/// Where a path of epsilon edges sets out from the seed, it ends in the
/// closure.
proof fn lemma_path_ends_in_closure<T>(edges: Edges<T>, seed: Set<int>, path: Seq<int>)
    requires
        epsilon_path(edges, path),
        seed.contains(path.first()),
    ensures
        epsilon_closure(edges, seed).contains(path.last()),
    decreases path.len(),
{
    if path.len() > 1 {
        let shorter = path.drop_last();
        assert forall|i: int| 0 <= i < shorter.len() - 1 implies #[trigger] epsilon_link(
            edges,
            shorter,
            i,
        ) by {
            assert(epsilon_link(edges, path, i));
        }
        lemma_path_ends_in_closure(edges, seed, shorter);
        let before = path.len() - 2;
        assert(epsilon_link(edges, path, before));
    }
}

/// One more epsilon edge at the end of a path makes a path.
proof fn lemma_path_extends<T>(edges: Edges<T>, path: Seq<int>, q: int)
    requires
        epsilon_path(edges, path),
        edges.contains((Transition::Epsilon, path.last(), q)),
    ensures
        epsilon_path(edges, path.push(q)),
        path.push(q).first() == path.first(),
        path.push(q).last() == q,
{
    let longer = path.push(q);
    assert forall|i: int| 0 <= i < longer.len() - 1 implies #[trigger] epsilon_link(
        edges,
        longer,
        i,
    ) by {
        if i < path.len() - 1 {
            assert(epsilon_link(edges, path, i));
        }
    }
}

/// The closure of `seed` holds the states that epsilon edges alone lead to
/// from `seed`, and no others.
pub proof fn lemma_closure_is_reachability<T>(edges: Edges<T>, seed: Set<int>)
    ensures
        forall|q: int|
            epsilon_closure(edges, seed).contains(q) <==> #[trigger] epsilon_reachable(
                edges,
                seed,
                q,
            ),
{
    let reached = Set::new(|q: int| epsilon_reachable(edges, seed, q));
    assert(closed_above(edges, seed, reached)) by {
        assert forall|p: int| seed.contains(p) implies reached.contains(p) by {
            let path = seq![p];
            assert(epsilon_path(edges, path) && seed.contains(path.first()) && path.last() == p);
        }
        assert forall|p: int, q: int|
            reached.contains(p) && #[trigger] edges.contains(
                (Transition::Epsilon, p, q),
            ) implies reached.contains(q) by {
            let path = choose|path: Seq<int>|
                #[trigger] epsilon_path(edges, path) && seed.contains(path.first()) && path.last()
                    == p;
            lemma_path_extends(edges, path, q);
        }
    }
    assert forall|q: int|
        epsilon_closure(edges, seed).contains(q) <==> #[trigger] epsilon_reachable(
            edges,
            seed,
            q,
        ) by {
        if epsilon_reachable(edges, seed, q) {
            let path = choose|path: Seq<int>|
                #[trigger] epsilon_path(edges, path) && seed.contains(path.first()) && path.last()
                    == q;
            lemma_path_ends_in_closure(edges, seed, path);
        }
    }
}

/// Nothing is reached from no state, and the closure of nothing is nothing.
pub proof fn lemma_nothing_from_nothing<T>(edges: Edges<T>, label: Transition<T>)
    ensures
        successors(edges, Set::<int>::empty(), label) == Set::<int>::empty(),
        epsilon_closure(edges, Set::<int>::empty()) == Set::<int>::empty(),
{
    lemma_closure_is_least(edges, Set::<int>::empty(), Set::<int>::empty());
}

/// What a non-deterministic automaton is, apart from how it is stored.
#[verifier::ext_equal]
#[verifier::reject_recursive_types(T)]
pub struct NfaView<S, T> {
    /// The registered labels; the place of a label is its handle.
    pub labels: Seq<S>,
    /// The handle at which every run starts, once one is chosen.
    pub start: Option<int>,
    /// The handles at which a run may end with success.
    pub accepting: Set<int>,
    /// The edges; any number may leave a handle under one label.
    pub edges: Edges<T>,
}

impl<S, T> NfaView<S, T> {
    /// Every handle that the automaton mentions is a registered one.
    pub open spec fn valid(self) -> bool {
        &&& self.labels.no_duplicates()
        &&& self.start matches Some(s) ==> 0 <= s < self.labels.len()
        &&& forall|q: int| self.accepting.contains(q) ==> 0 <= q < self.labels.len()
        &&& forall|e: (Transition<T>, int, int)| #[trigger]
            self.edges.contains(e) ==> 0 <= e.1 < self.labels.len() && 0 <= e.2 < self.labels.len()
    }

    /// The states in which the automaton stands before any symbol is read:
    /// the closure of the start state.
    pub open spec fn initial(self) -> Set<int> {
        match self.start {
            Some(s) => epsilon_closure(self.edges, set![s]),
            None => Set::empty(),
        }
    }

    /// The states in which the automaton stands after `symbol`, having stood
    /// in `from`: what the edges for the symbol reach, closed under epsilon.
    pub open spec fn advance(self, from: Set<int>, symbol: T) -> Set<int> {
        epsilon_closure(self.edges, successors(self.edges, from, Transition::Value(symbol)))
    }

    /// The states in which the automaton stands after reading `word`.
    pub open spec fn active(self, word: Seq<T>) -> Set<int>
        decreases word.len(),
    {
        if word.len() == 0 {
            self.initial()
        } else {
            self.advance(self.active(word.drop_last()), word.last())
        }
    }

    /// Whether some state in which the automaton stands after `word` is an
    /// accepting one.
    pub open spec fn accepts(self, word: Seq<T>) -> bool {
        !self.active(word).disjoint(self.accepting)
    }

    /// One more symbol advances the active states by one step.
    pub proof fn lemma_active_extends(self, word: Seq<T>, k: int)
        requires
            0 <= k < word.len(),
        ensures
            self.active(word.take(k + 1)) == self.advance(self.active(word.take(k)), word[k]),
    {
        assert(word.take(k + 1).drop_last() =~= word.take(k));
    }

    /// Once no state is active, none becomes active again.
    pub proof fn lemma_active_stays_empty(self, word: Seq<T>, k: int)
        requires
            0 <= k <= word.len(),
            self.active(word.take(k)) == Set::<int>::empty(),
        ensures
            self.active(word) == Set::<int>::empty(),
        decreases word.len() - k,
    {
        if k == word.len() {
            assert(word.take(k) =~= word);
        } else {
            self.lemma_active_extends(word, k);
            lemma_nothing_from_nothing(self.edges, Transition::Value(word[k]));
            self.lemma_active_stays_empty(word, k + 1);
        }
    }
}

/// One stored edge: the column of its symbol, or none for an epsilon edge,
/// and the handles it joins.
#[derive(Debug)]
struct Edge {
    symbol: Option<usize>,
    from: usize,
    to: usize,
}

/// A non-deterministic automaton over state labels `S` and symbols `T`.
///
/// States and symbols are numbered as they come in. The edges stand in one
/// list; any number of them may leave a state under the same label, and an
/// edge may be taken on no input at all.
#[derive(Debug)]
pub struct Nfa<S: Eq, T: Eq> {
    states: StateRegistry<S>,
    start_state: Option<usize>,
    accepting: StateSet,
    alphabet: Vec<T>,
    edges: Vec<Edge>,
}

/// The label that a stored column stands for.
pub open spec fn label_at<T>(alphabet: Seq<T>, symbol: Option<usize>) -> Transition<T> {
    match symbol {
        Some(c) => Transition::Value(alphabet[c as int]),
        None => Transition::Epsilon,
    }
}

impl<S: Eq, T: Eq> Nfa<S, T> {
    /// The stored edge at place `i` as a triple of label, source and target.
    closed spec fn triple(&self, i: int) -> (Transition<T>, int, int) {
        (
            label_at(self.alphabet@, self.edges@[i].symbol),
            self.edges@[i].from as int,
            self.edges@[i].to as int,
        )
    }

    /// Every handle and every column held is a registered one, and no symbol
    /// owns two columns.
    pub closed spec fn wf(&self) -> bool {
        &&& self.states.wf()
        &&& eq_decides::<T>()
        &&& self.alphabet@.no_duplicates()
        &&& self.accepting.capacity() == self.states@.len()
        &&& self.start_state matches Some(s) ==> s < self.states@.len()
        &&& forall|i: int|
            0 <= i < self.edges@.len() ==> {
                &&& (#[trigger] self.edges@[i]).from < self.states@.len()
                &&& self.edges@[i].to < self.states@.len()
                &&& self.edges@[i].symbol matches Some(c) ==> c < self.alphabet@.len()
            }
    }
}

impl<S: Eq, T: Eq> View for Nfa<S, T> {
    type V = NfaView<S, T>;

    /// The automaton that the tables stand for.
    closed spec fn view(&self) -> NfaView<S, T> {
        NfaView {
            labels: self.states@,
            start: match self.start_state {
                Some(s) => Some(s as int),
                None => None,
            },
            accepting: self.accepting@,
            edges: Set::new(
                |e: (Transition<T>, int, int)|
                    exists|i: int| 0 <= i < self.edges@.len() && #[trigger] self.triple(i) == e,
            ),
        }
    }
}

impl<S: Eq, T: Eq> Nfa<S, T> {
    /// A well-formed automaton has a valid view.
    pub proof fn lemma_view_valid(&self)
        requires
            self.wf(),
        ensures
            self@.valid(),
    {
        self.states.lemma_wf();
        self.accepting.lemma_members_bounded();
    }

    /// The edges of the view depend on the stored edges and columns alone.
    proof fn lemma_same_edges(&self, other: &Self)
        requires
            self.alphabet@ == other.alphabet@,
            self.edges@ == other.edges@,
        ensures
            self@.edges == other@.edges,
    {
        assert forall|e: (Transition<T>, int, int)|
            self@.edges.contains(e) == other@.edges.contains(e) by {
            if self@.edges.contains(e) {
                let i = choose|i: int| 0 <= i < self.edges@.len() && #[trigger] self.triple(i) == e;
                assert(other.triple(i) == e);
            }
            if other@.edges.contains(e) {
                let i = choose|i: int|
                    0 <= i < other.edges@.len() && #[trigger] other.triple(i) == e;
                assert(self.triple(i) == e);
            }
        }
    }

    /// An automaton without states, edges or start state.
    pub fn new() -> (r: Self)
        requires
            eq_decides::<S>(),
            eq_decides::<T>(),
        ensures
            r.wf(),
            r@ == (NfaView::<S, T> {
                labels: Seq::empty(),
                start: None,
                accepting: Set::empty(),
                edges: Set::empty(),
            }),
    {
        Nfa {
            states: StateRegistry::new(),
            start_state: None,
            accepting: StateSet::new(0),
            alphabet: Vec::new(),
            edges: Vec::new(),
        }
    }

    /// Registers a state under `state`. A label that is registered already is
    /// refused with `DuplicateState`.
    pub fn add_state(&mut self, state: S) -> (r: Result<(), DuplicateState<S>>)
        requires
            old(self).wf(),
        ensures
            final(self).wf(),
            match r {
                Ok(_) => !old(self)@.labels.contains(state) && final(self)@ == (NfaView {
                    labels: old(self)@.labels.push(state),
                    ..old(self)@
                }),
                Err(e) => {
                    &&& e == DuplicateState(state)
                    &&& old(self)@.labels.contains(state)
                    &&& final(self)@ == old(self)@
                },
            },
    {
        let r = self.states.add_state(state);
        if r.is_ok() {
            self.accepting.grow();
        }
        proof {
            self.lemma_same_edges(old(self));
        }
        r
    }

    /// The handle of the state registered under `state`, or the label back
    /// in `UnknownState` where there is none.
    pub fn resolve<'a>(&self, state: &'a S) -> (r: Result<usize, UnknownState<'a, S>>)
        requires
            self.wf(),
        ensures
            match r {
                Ok(h) => self@.labels.contains(*state) && h == handle_of(self@.labels, *state),
                Err(e) => e == UnknownState(state) && !self@.labels.contains(*state),
            },
    {
        self.states.resolve(state)
    }

    /// Makes the state registered under `state` the start state.
    pub fn set_start_state<'a>(&mut self, state: &'a S) -> (r: Result<(), UnknownState<'a, S>>)
        requires
            old(self).wf(),
        ensures
            final(self).wf(),
            match r {
                Ok(_) => old(self)@.labels.contains(*state) && final(self)@ == (NfaView {
                    start: Some(handle_of(old(self)@.labels, *state)),
                    ..old(self)@
                }),
                Err(e) => {
                    &&& e == UnknownState(state)
                    &&& !old(self)@.labels.contains(*state)
                    &&& final(self)@ == old(self)@
                },
            },
    {
        match self.states.resolve(state) {
            Err(e) => Err(e),
            Ok(h) => {
                self.start_state = Some(h);
                proof {
                    self.lemma_same_edges(old(self));
                }
                Ok(())
            },
        }
    }

    /// Marks the state registered under `state` as accepting.
    pub fn add_accepting_state<'a>(&mut self, state: &'a S) -> (r: Result<(), UnknownState<'a, S>>)
        requires
            old(self).wf(),
        ensures
            final(self).wf(),
            match r {
                Ok(_) => old(self)@.labels.contains(*state) && final(self)@ == (NfaView {
                    accepting: old(self)@.accepting.insert(handle_of(old(self)@.labels, *state)),
                    ..old(self)@
                }),
                Err(e) => {
                    &&& e == UnknownState(state)
                    &&& !old(self)@.labels.contains(*state)
                    &&& final(self)@ == old(self)@
                },
            },
    {
        match self.states.resolve(state) {
            Err(e) => Err(e),
            Ok(h) => {
                self.accepting.insert(h);
                proof {
                    self.lemma_same_edges(old(self));
                }
                Ok(())
            },
        }
    }

    /// Adds an edge from `from` to `to`, taken on the symbol that
    /// `transition` holds or, for `Epsilon`, on no input. An unregistered
    /// label is refused with `UnknownState`, the label of the source before
    /// that of the target, and nothing changes. An edge that is there already
    /// stays as it is.
    pub fn add_transition<'a>(&mut self, transition: Transition<T>, from: &'a S, to: &'a S) -> (r:
        Result<(), UnknownState<'a, S>>)
        requires
            old(self).wf(),
        ensures
            final(self).wf(),
            match r {
                Ok(_) => {
                    &&& old(self)@.labels.contains(*from)
                    &&& old(self)@.labels.contains(*to)
                    &&& final(self)@ == (NfaView {
                        edges: old(self)@.edges.insert(
                            (
                                transition,
                                handle_of(old(self)@.labels, *from),
                                handle_of(old(self)@.labels, *to),
                            ),
                        ),
                        ..old(self)@
                    })
                },
                Err(e) => {
                    &&& final(self)@ == old(self)@
                    &&& if !old(self)@.labels.contains(*from) {
                        e == UnknownState(from)
                    } else {
                        e == UnknownState(to) && !old(self)@.labels.contains(*to)
                    }
                },
            },
    {
        let source = match self.states.resolve(from) {
            Ok(h) => h,
            Err(e) => {
                return Err(e);
            },
        };
        let target = match self.states.resolve(to) {
            Ok(h) => h,
            Err(e) => {
                return Err(e);
            },
        };
        let ghost label = transition;
        let symbol = match transition {
            Transition::Epsilon => None,
            Transition::Value(value) => match position(&self.alphabet, &value) {
                Some(c) => Some(c),
                None => {
                    self.alphabet.push(value);
                    Some(self.alphabet.len() - 1)
                },
            },
        };
        self.edges.push(Edge { symbol, from: source, to: target });
        proof {
            let last = old(self).edges@.len() as int;
            assert(self.triple(last) == (label, source as int, target as int));
            assert forall|i: int| 0 <= i < last implies self.triple(i) == old(self).triple(i) by {}
        }
        Ok(())
    }

    /// Whether the stored edge at place `i` leads from a state in `from` to
    /// `q` under the column `symbol`.
    closed spec fn hits(&self, i: int, from: Set<int>, symbol: Option<usize>, q: int) -> bool {
        &&& self.edges@[i].symbol == symbol
        &&& from.contains(self.edges@[i].from as int)
        &&& self.edges@[i].to == q
    }

    /// What the first `upto` stored edges reach from `from` under `symbol`.
    closed spec fn reached(&self, from: Set<int>, symbol: Option<usize>, upto: int) -> Set<int> {
        Set::new(|q: int| exists|i: int| 0 <= i < upto && #[trigger] self.hits(i, from, symbol, q))
    }

    /// All stored edges together reach what the edges of the view reach.
    proof fn lemma_reached_all(&self, from: Set<int>, symbol: Option<usize>)
        requires
            self.wf(),
            symbol matches Some(c) ==> c < self.alphabet@.len(),
        ensures
            self.reached(from, symbol, self.edges@.len() as int) == successors(
                self@.edges,
                from,
                label_at(self.alphabet@, symbol),
            ),
    {
        let label = label_at(self.alphabet@, symbol);
        let all = self.reached(from, symbol, self.edges@.len() as int);
        let goal = successors(self@.edges, from, label);
        assert forall|q: int| all.contains(q) == goal.contains(q) by {
            if all.contains(q) {
                let i = choose|i: int|
                    0 <= i < self.edges@.len() && #[trigger] self.hits(i, from, symbol, q);
                let p = self.edges@[i].from as int;
                assert(self.triple(i) == (label, p, q));
                assert(self@.edges.contains((label, p, q)));
            }
            if goal.contains(q) {
                let p = choose|p: int|
                    from.contains(p) && #[trigger] self@.edges.contains((label, p, q));
                let i = choose|i: int|
                    0 <= i < self.edges@.len() && #[trigger] self.triple(i) == (label, p, q);
                assert(self.hits(i, from, symbol, q));
            }
        }
    }

    /// The states that one edge under the column `symbol`, or one epsilon
    /// edge where `symbol` is `None`, reaches from a state in `from`.
    fn step_by_column(&self, from: &StateSet, symbol: Option<usize>) -> (r: StateSet)
        requires
            self.wf(),
            symbol matches Some(c) ==> c < self.alphabet@.len(),
        ensures
            r@ == successors(self@.edges, from@, label_at(self.alphabet@, symbol)),
            r.capacity() == self@.labels.len(),
    {
        let mut result = StateSet::new(self.states.len());
        let mut i: usize = 0;
        while i < self.edges.len()
            invariant
                i <= self.edges.len(),
                self.wf(),
                result.capacity() == self.states@.len(),
                result@ == self.reached(from@, symbol, i as int),
            decreases self.edges.len() - i,
        {
            let same_symbol = match (self.edges[i].symbol, symbol) {
                (Some(c), Some(d)) => c == d,
                (None, None) => true,
                _ => false,
            };
            let ghost before = result@;
            if same_symbol && from.contains(self.edges[i].from) {
                result.insert(self.edges[i].to);
            }
            proof {
                let grown = self.reached(from@, symbol, i + 1);
                assert forall|q: int| result@.contains(q) == grown.contains(q) by {
                    if result@.contains(q) && !before.contains(q) {
                        assert(self.hits(i as int, from@, symbol, q));
                    }
                }
            }
            i += 1;
        }
        proof {
            self.lemma_reached_all(from@, symbol);
        }
        result
    }

    /// The states that one edge labelled `transition` reaches from a state in
    /// `start_states`. Epsilon edges are followed only where `transition` is
    /// `Epsilon`, and then one edge deep.
    pub fn states_after_transition(
        &self,
        start_states: &StateSet,
        transition: &Transition<T>,
    ) -> (r: StateSet)
        requires
            self.wf(),
        ensures
            r@ == successors(self@.edges, start_states@, *transition),
            r.capacity() == self@.labels.len(),
    {
        match transition {
            Transition::Epsilon => self.step_by_column(start_states, None),
            Transition::Value(value) => self.states_after_symbol(start_states, value),
        }
    }

    /// The states that one edge for `symbol` reaches from a state in `from`.
    fn states_after_symbol(&self, from: &StateSet, symbol: &T) -> (r: StateSet)
        requires
            self.wf(),
        ensures
            r@ == successors(self@.edges, from@, Transition::Value(*symbol)),
            r.capacity() == self@.labels.len(),
    {
        match position(&self.alphabet, symbol) {
            Some(c) => self.step_by_column(from, Some(c)),
            None => StateSet::new(self.states.len()),
        }
    }

    /// A symbol without a column labels no edge.
    proof fn lemma_unknown_symbol(&self, from: Set<int>, symbol: T)
        requires
            self.wf(),
            !self.alphabet@.contains(symbol),
        ensures
            successors(self@.edges, from, Transition::Value(symbol)) == Set::<int>::empty(),
    {
    }

    /// The epsilon closure of `seed`: epsilon edges are followed from the
    /// states found so far until a round finds no state that is new.
    pub fn epsilon_closure(&self, seed: &StateSet) -> (r: StateSet)
        requires
            self.wf(),
        ensures
            r@ == epsilon_closure(self@.edges, seed@),
            r.capacity() == if seed.capacity() > self@.labels.len() {
                seed.capacity() as int
            } else {
                self@.labels.len() as int
            },
    {
        let capacity = if seed.capacity() > self.states.len() {
            seed.capacity()
        } else {
            self.states.len()
        };
        let mut current = StateSet::new(capacity);
        current.extend(seed);
        let mut found = self.step_by_column(&current, None);
        while !current.is_superset(&found)
            invariant
                self.wf(),
                current.capacity() == capacity,
                self@.labels.len() <= capacity,
                found.capacity() <= capacity,
                seed@.subset_of(current@),
                current@.subset_of(epsilon_closure(self@.edges, seed@)),
                found@ == successors(self@.edges, current@, Transition::Epsilon),
                closed_above(self@.edges, seed@, epsilon_closure(self@.edges, seed@)),
            decreases capacity - current@.len(),
        {
            let ghost before = current@;
            let ghost fresh = choose|q: int| found@.contains(q) && !before.contains(q);
            current.extend(&found);
            proof {
                current.lemma_members_bounded();
                lemma_len_subset(before, current@.remove(fresh));
            }
            found = self.step_by_column(&current, None);
        }
        proof {
            lemma_closure_is_least(self@.edges, seed@, current@);
        }
        current
    }

    /// Whether the automaton accepts `items`. It stands at first in the
    /// closure of the start state. For each symbol it moves along the edges
    /// for that symbol from every state it stands in and closes the result
    /// under epsilon; where no state is left it rejects at once. After the
    /// last symbol it accepts if it stands in an accepting state. Without a
    /// start state the answer is `NoStartState`.
    pub fn try_match(&self, items: &[T]) -> (r: Result<bool, NoStartState>)
        requires
            self.wf(),
        ensures
            match r {
                Ok(b) => self@.start is Some && b == self@.accepts(items@),
                Err(_) => self@.start is None,
            },
    {
        let start = match self.start_state {
            Some(s) => s,
            None => {
                return Err(NoStartState);
            },
        };
        let mut seed = StateSet::new(self.states.len());
        seed.insert(start);
        let mut current = self.epsilon_closure(&seed);
        let mut i: usize = 0;
        while i < items.len()
            invariant
                i <= items.len(),
                self.wf(),
                self.start_state == Some(start),
                current@ == self@.active(items@.take(i as int)),
            decreases items.len() - i,
        {
            let moved = self.states_after_symbol(&current, &items[i]);
            let next = self.epsilon_closure(&moved);
            proof {
                self@.lemma_active_extends(items@, i as int);
            }
            if next.is_empty() {
                proof {
                    self@.lemma_active_stays_empty(items@, i + 1);
                }
                return Ok(false);
            }
            current = next;
            i += 1;
        }
        assert(items@.take(i as int) =~= items@);
        Ok(!self.accepting.is_disjoint(&current))
    }

    /// The same conversion as `into_dfa`, under its other name.
    pub fn build_dfa(self) -> (r: Result<Dfa<usize, T>, NoStartState>)
        requires
            self.wf(),
        ensures
            match r {
                Ok(dfa) => {
                    &&& self@.start is Some
                    &&& dfa.wf()
                    &&& dfa@.labels == Seq::new(dfa@.labels.len(), |h: int| h as usize)
                    &&& exists|sets: Seq<Set<int>>| determinizes(self@, dfa@, sets)
                    &&& forall|word: Seq<T>| #[trigger] dfa@.accepts(word) == self@.accepts(word)
                },
                Err(_) => self@.start is None,
            },
    {
        self.into_dfa()
    }

    /// The deterministic automaton that accepts what this one accepts.
    ///
    /// Its states stand for sets of states of this automaton and are labelled
    /// with their own handles, in the order in which the sets are found. The
    /// first stands for the closure of the start state. The sets are taken up
    /// in the order in which they were found; for each symbol that labels an
    /// edge, the states reached under it are closed under epsilon, and where
    /// any are left the set gets a state, if it has none yet, and the edge to
    /// it. A state accepts when its set holds an accepting state. Without a
    /// start state the answer is `NoStartState`.
    pub fn into_dfa(self) -> (r: Result<Dfa<usize, T>, NoStartState>)
        requires
            self.wf(),
        ensures
            match r {
                Ok(dfa) => {
                    &&& self@.start is Some
                    &&& dfa.wf()
                    &&& dfa@.labels == Seq::new(dfa@.labels.len(), |h: int| h as usize)
                    &&& exists|sets: Seq<Set<int>>| determinizes(self@, dfa@, sets)
                    &&& forall|word: Seq<T>| #[trigger] dfa@.accepts(word) == self@.accepts(word)
                },
                Err(_) => self@.start is None,
            },
    {
        let start = match self.start_state {
            Some(s) => s,
            None => {
                return Err(NoStartState);
            },
        };
        let ghost nfa = self@;
        let ghost alphabet = self.alphabet@;
        let states = self.states.len();
        let columns = self.alphabet.len();
        let mut seed = StateSet::new(states);
        seed.insert(start);
        let first = self.epsilon_closure(&seed);
        let mut accepting: Vec<bool> = Vec::new();
        accepting.push(!self.accepting.is_disjoint(&first));
        let mut sets: Vec<StateSet> = Vec::new();
        proof {
            first.lemma_members_bounded();
            assert(first@.contains(start as int));
        }
        sets.push(first);
        let mut table: Vec<Vec<Option<usize>>> = Vec::new();
        let ghost mut origin: Seq<(int, int)> = seq![(0int, 0int)];
        let mut next: usize = 0;
        while next < sets.len()
            invariant
                self.wf(),
                origin.len() == sets.len(),
                forall|t: int|
                    1 <= t < origin.len() ==> {
                        &&& 0 <= (#[trigger] origin[t]).0 < t
                        &&& origin[t].0 < next
                        &&& 0 <= origin[t].1 < columns
                        &&& table@[origin[t].0]@[origin[t].1] == Some(t as usize)
                    },
                nfa == self@,
                alphabet == self.alphabet@,
                states == nfa.labels.len(),
                columns == alphabet.len(),
                discovered(nfa, states as int, sets@, accepting@),
                next == table.len(),
                next <= sets.len(),
                forall|q: int|
                    0 <= q < next ==> (#[trigger] table@[q]).len() == columns && row_agrees(
                        nfa,
                        alphabet,
                        sets@,
                        q,
                        table@[q]@,
                        columns as int,
                    ),
            decreases 2 * subsets_below(states as nat).len() - sets.len() - next,
        {
            let ghost found_before = sets.len();
            let mut row: Vec<Option<usize>> = Vec::new();
            let mut c: usize = 0;
            while c < columns
                invariant
                    self.wf(),
                    origin.len() == sets.len(),
                    forall|t: int|
                        1 <= t < origin.len() ==> {
                            &&& 0 <= (#[trigger] origin[t]).0 < t
                            &&& origin[t].0 <= next
                            &&& 0 <= origin[t].1 < columns
                            &&& origin[t].0 < next ==> table@[origin[t].0]@[origin[t].1] == Some(
                                t as usize,
                            )
                            &&& origin[t].0 == next ==> origin[t].1 < c && row@[origin[t].1]
                                == Some(t as usize)
                        },
                    nfa == self@,
                    alphabet == self.alphabet@,
                    states == nfa.labels.len(),
                    columns == alphabet.len(),
                    discovered(nfa, states as int, sets@, accepting@),
                    next == table.len(),
                    next < sets.len(),
                    found_before <= sets.len(),
                    c <= columns,
                    row.len() == c,
                    row_agrees(nfa, alphabet, sets@, next as int, row@, c as int),
                    forall|q: int|
                        0 <= q < next ==> (#[trigger] table@[q]).len() == columns && row_agrees(
                            nfa,
                            alphabet,
                            sets@,
                            q,
                            table@[q]@,
                            columns as int,
                        ),
                decreases columns - c,
            {
                let moved = self.step_by_column(&sets[next], Some(c));
                let target = self.epsilon_closure(&moved);
                if target.is_empty() {
                    row.push(None);
                } else {
                    let t = match find_set(&sets, &target) {
                        Some(t) => t,
                        None => {
                            let ghost sets_before = sets@;
                            let ghost flags_before = accepting@;
                            let ghost found = target;
                            proof {
                                target.lemma_members_bounded();
                            }
                            accepting.push(!self.accepting.is_disjoint(&target));
                            sets.push(target);
                            proof {
                                origin = origin.push((next as int, c as int));
                                assert forall|q: int| 0 <= q < next implies row_agrees(
                                    nfa,
                                    alphabet,
                                    sets@,
                                    q,
                                    (#[trigger] table@[q])@,
                                    columns as int,
                                ) by {
                                    lemma_row_survives(
                                        nfa,
                                        alphabet,
                                        sets_before,
                                        sets@,
                                        q,
                                        table@[q]@,
                                        columns as int,
                                    );
                                }
                                lemma_row_survives(
                                    nfa,
                                    alphabet,
                                    sets_before,
                                    sets@,
                                    next as int,
                                    row@,
                                    c as int,
                                );
                                lemma_discovered_grows(
                                    nfa,
                                    states as int,
                                    sets_before,
                                    flags_before,
                                    found,
                                );
                            }
                            sets.len() - 1
                        },
                    };
                    row.push(Some(t));
                }
                c += 1;
            }
            table.push(row);
            proof {
                lemma_discovered_bounded(nfa, states as int, sets@, accepting@);
            }
            next += 1;
        }
        let ghost views = set_views(sets@);
        proof {
            assert forall|from: Set<int>, symbol: T| !alphabet.contains(symbol) implies (
            #[trigger] nfa.advance(from, symbol)) == Set::<int>::empty() by {
                self.lemma_unknown_symbol(from, symbol);
                lemma_nothing_from_nothing(nfa.edges, Transition::Value(symbol));
            }
            assert(table_shaped(table@, table.len() as int, columns as int)) by {
                assert forall|q: int, c: int|
                    0 <= q < table.len() && 0 <= c < columns implies (
                #[trigger] table@[q][c] matches Some(t) ==> t < table.len()) by {
                    assert(entry_agrees(nfa, alphabet, sets@, q, c, table@[q]@[c]));
                }
            }
        }
        let dfa = Dfa::from_table(self.alphabet, table, accepting);
        proof {
            assert forall|q: int, symbol: T| 0 <= q < views.len() implies #[trigger] edge_agrees(
                nfa,
                dfa@,
                views,
                q,
                symbol,
            ) by {
                if alphabet.contains(symbol) {
                    let c = column_of(alphabet, symbol);
                    assert(entry_agrees(nfa, alphabet, sets@, q, c, table@[q]@[c]));
                }
            }
            let parents = Seq::new(origin.len(), |t: int| (origin[t].0, alphabet[origin[t].1]));
            assert forall|q: int| 0 <= q < views.len() implies #[trigger] reachable(dfa@, q) by {
                lemma_found_is_reachable(dfa@, parents, q);
            }
            assert(determinizes(nfa, dfa@, views));
            lemma_determinized_language(nfa, dfa@, views);
        }
        Ok(dfa)
    }
}

/// The sets that a list of stored sets stands for.
spec fn set_views(sets: Seq<StateSet>) -> Seq<Set<int>> {
    Seq::new(sets.len(), |i: int| sets[i]@)
}

/// Whether `entry` is what a subset construction holds in the row of the set
/// `sets[q]` under the column `c`: the place of the set reached, or nothing
/// where nothing is reached.
spec fn entry_agrees<S, T>(
    nfa: NfaView<S, T>,
    alphabet: Seq<T>,
    sets: Seq<StateSet>,
    q: int,
    c: int,
    entry: Option<usize>,
) -> bool {
    let goal = nfa.advance(sets[q]@, alphabet[c]);
    match entry {
        Some(t) => t < sets.len() && sets[t as int]@ == goal,
        None => goal == Set::<int>::empty(),
    }
}

/// Whether the first `upto` entries of `row` are right for the set `sets[q]`.
spec fn row_agrees<S, T>(
    nfa: NfaView<S, T>,
    alphabet: Seq<T>,
    sets: Seq<StateSet>,
    q: int,
    row: Seq<Option<usize>>,
    upto: int,
) -> bool {
    forall|c: int| 0 <= c < upto ==> #[trigger] entry_agrees(nfa, alphabet, sets, q, c, row[c])
}

/// What holds of the sets found so far: they are different sets of handles
/// below `capacity`, none is empty, the first is where the automaton starts,
/// and each is flagged as accepting when it holds an accepting state.
spec fn discovered<S, T>(
    nfa: NfaView<S, T>,
    capacity: int,
    sets: Seq<StateSet>,
    accepting: Seq<bool>,
) -> bool {
    &&& sets.len() >= 1
    &&& accepting.len() == sets.len()
    &&& sets[0]@ == nfa.initial()
    &&& forall|i: int, x: int| 0 <= i < sets.len() && sets[i]@.contains(x) ==> 0 <= x < capacity
    &&& forall|i: int, j: int| 0 <= i < j < sets.len() ==> sets[i]@ != sets[j]@
    &&& forall|i: int| 0 <= i < sets.len() ==> (#[trigger] sets[i])@ != Set::<int>::empty()
    &&& forall|i: int|
        0 <= i < sets.len() ==> #[trigger] accepting[i] == !sets[i]@.disjoint(nfa.accepting)
}

/// What holds of the sets found so far holds with one more set that is new,
/// not empty and flagged as the others are.
proof fn lemma_discovered_grows<S, T>(
    nfa: NfaView<S, T>,
    capacity: int,
    sets: Seq<StateSet>,
    accepting: Seq<bool>,
    found: StateSet,
)
    requires
        discovered(nfa, capacity, sets, accepting),
        found@ != Set::<int>::empty(),
        forall|x: int| found@.contains(x) ==> 0 <= x < capacity,
        forall|i: int| 0 <= i < sets.len() ==> (#[trigger] sets[i])@ != found@,
    ensures
        discovered(
            nfa,
            capacity,
            sets.push(found),
            accepting.push(!found@.disjoint(nfa.accepting)),
        ),
{
}

/// A row that is right stays right when more sets are found.
proof fn lemma_row_survives<S, T>(
    nfa: NfaView<S, T>,
    alphabet: Seq<T>,
    before: Seq<StateSet>,
    after: Seq<StateSet>,
    q: int,
    row: Seq<Option<usize>>,
    upto: int,
)
    requires
        0 <= q < before.len() <= after.len(),
        forall|i: int| 0 <= i < before.len() ==> after[i] == before[i],
        row_agrees(nfa, alphabet, before, q, row, upto),
    ensures
        row_agrees(nfa, alphabet, after, q, row, upto),
{
    assert forall|c: int| 0 <= c < upto implies #[trigger] entry_agrees(
        nfa,
        alphabet,
        after,
        q,
        c,
        row[c],
    ) by {
        assert(entry_agrees(nfa, alphabet, before, q, c, row[c]));
    }
}

/// There are no more sets found than there are sets of handles.
proof fn lemma_discovered_bounded<S, T>(
    nfa: NfaView<S, T>,
    capacity: int,
    sets: Seq<StateSet>,
    accepting: Seq<bool>,
)
    requires
        discovered(nfa, capacity, sets, accepting),
        0 <= capacity,
    ensures
        sets.len() <= subsets_below(capacity as nat).len(),
        set_views(sets).no_duplicates(),
{
    let views = set_views(sets);
    lemma_distinct_sets_bounded(views, capacity as nat);
}

/// The place of the stored set with the members of `wanted`, if there is one.
fn find_set(sets: &Vec<StateSet>, wanted: &StateSet) -> (r: Option<usize>)
    ensures
        match r {
            Some(t) => t < sets.len() && sets@[t as int]@ == wanted@,
            None => forall|i: int| 0 <= i < sets.len() ==> (#[trigger] sets@[i])@ != wanted@,
        },
{
    let mut i: usize = 0;
    while i < sets.len()
        invariant
            i <= sets.len(),
            forall|j: int| 0 <= j < i ==> (#[trigger] sets@[j])@ != wanted@,
        decreases sets.len() - i,
    {
        if sets[i].same_members(wanted) {
            return Some(i);
        }
        i += 1;
    }
    None
}

} // verus!
