use crate::error::{DuplicateState, NoStartState, TransitionError, UnknownState};
use crate::registry::{
    handle_of, lemma_handle_unique, lemma_push_fresh, position, StateRegistry,
};
use crate::equality::eq_decides;
use vstd::prelude::*;

verus! {

/// What a deterministic automaton is, apart from how it is stored.
#[verifier::ext_equal]
#[verifier::reject_recursive_types(T)]
pub struct DfaView<S, T> {
    /// The registered labels; the place of a label is its handle.
    pub labels: Seq<S>,
    /// The handle at which every run starts, once one is chosen.
    pub start: Option<int>,
    /// The handles at which a run may end with success.
    pub accepting: Set<int>,
    /// The edge, if any, that leaves a handle under a symbol.
    pub delta: Map<(T, int), int>,
}

impl<S, T> DfaView<S, T> {
    /// Every handle that the automaton mentions is a registered one.
    pub open spec fn valid(self) -> bool {
        &&& self.labels.no_duplicates()
        &&& self.start matches Some(s) ==> 0 <= s < self.labels.len()
        &&& forall|q: int| self.accepting.contains(q) ==> 0 <= q < self.labels.len()
        &&& forall|k: (T, int)| #[trigger]
            self.delta.contains_key(k) ==> 0 <= k.1 < self.labels.len() && 0 <= self.delta[k]
                < self.labels.len()
    }

    /// Where the edge for `symbol` leads from `q`; `None` where there is none.
    pub open spec fn step(self, q: int, symbol: T) -> Option<int> {
        if self.delta.contains_key((symbol, q)) {
            Some(self.delta[(symbol, q)])
        } else {
            None
        }
    }

    /// The handle reached from `q` after reading `word`; `None` as soon as an
    /// edge is missing.
    pub open spec fn run(self, q: int, word: Seq<T>) -> Option<int>
        decreases word.len(),
    {
        if word.len() == 0 {
            Some(q)
        } else {
            match self.run(q, word.drop_last()) {
                Some(p) => self.step(p, word.last()),
                None => None,
            }
        }
    }

    /// Whether the run over `word` from the start handle ends at an accepting
    /// handle. Without a start handle nothing is accepted.
    pub open spec fn accepts(self, word: Seq<T>) -> bool {
        match self.start {
            Some(s) => match self.run(s, word) {
                Some(q) => self.accepting.contains(q),
                None => false,
            },
            None => false,
        }
    }

    /// The empty word is accepted when the start handle is an accepting one,
    /// and only then.
    pub proof fn lemma_accepts_empty(self)
        ensures
            self.accepts(Seq::<T>::empty()) == (self.start matches Some(s)
                && self.accepting.contains(s)),
    {
    }

    /// A run that has failed on a prefix has failed on the whole word.
    pub proof fn lemma_run_stays_failed(self, q: int, word: Seq<T>, k: int)
        requires
            0 <= k <= word.len(),
            self.run(q, word.take(k)) is None,
        ensures
            self.run(q, word) is None,
        decreases word.len() - k,
    {
        if k == word.len() {
            assert(word.take(k) =~= word);
        } else {
            assert(word.take(k + 1).drop_last() =~= word.take(k));
            self.lemma_run_stays_failed(q, word, k + 1);
        }
    }

    /// One more symbol extends a run by one step.
    pub proof fn lemma_run_extends(self, q: int, word: Seq<T>, k: int)
        requires
            0 <= k < word.len(),
        ensures
            self.run(q, word.take(k + 1)) == match self.run(q, word.take(k)) {
                Some(p) => self.step(p, word[k]),
                None => None,
            },
    {
        assert(word.take(k + 1).drop_last() =~= word.take(k));
    }
}

/// A deterministic automaton over state labels `S` and symbols `T`.
///
/// States and symbols are numbered as they come in, and the edges stand in a
/// table with one row for each state and one column for each symbol. An edge
/// is entered once: a second edge for the same symbol and source is refused.
#[derive(Debug)]
pub struct Dfa<S: Eq, T: Eq> {
    states: StateRegistry<S>,
    start_state: Option<usize>,
    accepting: Vec<bool>,
    alphabet: Vec<T>,
    table: Vec<Vec<Option<usize>>>,
}

/// The column that `symbol` owns among `alphabet`.
pub open spec fn column_of<T>(alphabet: Seq<T>, symbol: T) -> int {
    alphabet.index_of(symbol)
}

/// The edge that a table of rows and columns holds for `symbol` at row `q`.
pub open spec fn table_step<T>(
    alphabet: Seq<T>,
    table: Seq<Vec<Option<usize>>>,
    q: int,
    symbol: T,
) -> Option<int> {
    if 0 <= q < table.len() && alphabet.contains(symbol) {
        match table[q][column_of(alphabet, symbol)] {
            Some(t) => Some(t as int),
            None => None,
        }
    } else {
        None
    }
}

/// A table of `states` rows and `columns` columns whose entries are rows.
pub open spec fn table_shaped(table: Seq<Vec<Option<usize>>>, states: int, columns: int) -> bool {
    &&& table.len() == states
    &&& forall|q: int| 0 <= q < states ==> (#[trigger] table[q]).len() == columns
    &&& forall|q: int, c: int|
        0 <= q < states && 0 <= c < columns ==> (#[trigger] table[q][c] matches Some(t) ==> t
            < states)
}

impl<S: Eq, T: Eq> View for Dfa<S, T> {
    type V = DfaView<S, T>;

    /// The automaton that the tables stand for.
    closed spec fn view(&self) -> DfaView<S, T> {
        DfaView {
            labels: self.states@,
            start: match self.start_state {
                Some(s) => Some(s as int),
                None => None,
            },
            accepting: Set::new(|q: int| 0 <= q < self.accepting.len() && self.accepting[q]),
            delta: Map::new(
                |k: (T, int)| table_step(self.alphabet@, self.table@, k.1, k.0) is Some,
                |k: (T, int)| table_step(self.alphabet@, self.table@, k.1, k.0).unwrap(),
            ),
        }
    }
}

impl<S: Eq, T: Eq> Dfa<S, T> {
    /// The table has a row for each state and a column for each symbol, no
    /// symbol owns two columns, and every handle held is a registered one.
    pub closed spec fn wf(&self) -> bool {
        &&& self.states.wf()
        &&& eq_decides::<T>()
        &&& self.alphabet@.no_duplicates()
        &&& self.accepting.len() == self.states@.len()
        &&& table_shaped(self.table@, self.states@.len() as int, self.alphabet.len() as int)
        &&& self.start_state matches Some(s) ==> s < self.states@.len()
    }

    /// A well-formed automaton has a valid view.
    pub proof fn lemma_view_valid(&self)
        requires
            self.wf(),
        ensures
            self@.valid(),
    {
        self.states.lemma_wf();
    }

    /// An automaton without states, edges or start state.
    pub fn new() -> (r: Self)
        requires
            eq_decides::<S>(),
            eq_decides::<T>(),
        ensures
            r.wf(),
            r@ == (DfaView::<S, T> {
                labels: Seq::empty(),
                start: None,
                accepting: Set::empty(),
                delta: Map::empty(),
            }),
    {
        Dfa {
            states: StateRegistry::new(),
            start_state: None,
            accepting: Vec::new(),
            alphabet: Vec::new(),
            table: Vec::new(),
        }
    }

    /// Registers a state under `state`. A label that is registered already is
    /// refused with `DuplicateState`.
    pub fn add_state(&mut self, state: S) -> (r: Result<(), DuplicateState<S>>)
        requires
            old(self).wf(),
        ensures
            final(self).wf(),
            match r {
                Ok(_) => !old(self)@.labels.contains(state) && final(self)@ == (DfaView {
                    labels: old(self)@.labels.push(state),
                    ..old(self)@
                }),
                Err(e) => {
                    &&& e == DuplicateState(state)
                    &&& old(self)@.labels.contains(state)
                    &&& final(self)@ == old(self)@
                },
            },
    {
        match self.states.add_state(state) {
            Err(e) => Err(e),
            Ok(_) => {
                let mut row: Vec<Option<usize>> = Vec::new();
                let mut c: usize = 0;
                while c < self.alphabet.len()
                    invariant
                        c <= self.alphabet.len(),
                        row.len() == c,
                        forall|j: int| 0 <= j < c ==> row[j] is None,
                    decreases self.alphabet.len() - c,
                {
                    row.push(None);
                    c += 1;
                }
                self.table.push(row);
                self.accepting.push(false);
                Ok(())
            },
        }
    }

    /// The handle of the state registered under `state`, or the label back
    /// in `UnknownState` where there is none.
    pub fn resolve<'a>(&self, state: &'a S) -> (r: Result<usize, UnknownState<'a, S>>)
        requires
            self.wf(),
        ensures
            match r {
                Ok(h) => self@.labels.contains(*state) && h == handle_of(self@.labels, *state),
                Err(e) => e == UnknownState(state) && !self@.labels.contains(*state),
            },
    {
        self.states.resolve(state)
    }

    /// Makes the state registered under `state` the start state.
    pub fn set_start_state<'a>(&mut self, state: &'a S) -> (r: Result<(), UnknownState<'a, S>>)
        requires
            old(self).wf(),
        ensures
            final(self).wf(),
            match r {
                Ok(_) => old(self)@.labels.contains(*state) && final(self)@ == (DfaView {
                    start: Some(handle_of(old(self)@.labels, *state)),
                    ..old(self)@
                }),
                Err(e) => {
                    &&& e == UnknownState(state)
                    &&& !old(self)@.labels.contains(*state)
                    &&& final(self)@ == old(self)@
                },
            },
    {
        match self.states.resolve(state) {
            Err(e) => Err(e),
            Ok(h) => {
                self.start_state = Some(h);
                Ok(())
            },
        }
    }

    /// Marks the state registered under `state` as accepting.
    pub fn add_accepting_state<'a>(&mut self, state: &'a S) -> (r: Result<(), UnknownState<'a, S>>)
        requires
            old(self).wf(),
        ensures
            final(self).wf(),
            match r {
                Ok(_) => old(self)@.labels.contains(*state) && final(self)@ == (DfaView {
                    accepting: old(self)@.accepting.insert(handle_of(old(self)@.labels, *state)),
                    ..old(self)@
                }),
                Err(e) => {
                    &&& e == UnknownState(state)
                    &&& !old(self)@.labels.contains(*state)
                    &&& final(self)@ == old(self)@
                },
            },
    {
        match self.states.resolve(state) {
            Err(e) => Err(e),
            Ok(h) => {
                self.accepting[h] = true;
                Ok(())
            },
        }
    }

    /// Gives `symbol` a column of its own, empty in every row.
    fn add_column(&mut self, symbol: T) -> (c: usize)
        requires
            old(self).wf(),
            !old(self).alphabet@.contains(symbol),
        ensures
            final(self).wf(),
            final(self)@ == old(self)@,
            final(self).alphabet@ == old(self).alphabet@.push(symbol),
            c == old(self).alphabet@.len(),
            c == column_of(final(self).alphabet@, symbol),
            forall|q: int|
                0 <= q < final(self).table@.len() ==> final(self).table@[q][c as int] is None,
    {
        let c = self.alphabet.len();
        self.alphabet.push(symbol);
        let ghost rows = old(self).table@;
        let ghost widened = *self;
        let mut q: usize = 0;
        while q < self.table.len()
            invariant
                q <= self.table.len(),
                self.table.len() == rows.len(),
                self.alphabet == widened.alphabet,
                self.states == widened.states,
                self.accepting == widened.accepting,
                self.start_state == widened.start_state,
                forall|p: int| 0 <= p < q ==> (#[trigger] self.table@[p])@ == rows[p]@.push(None),
                forall|p: int| q <= p < rows.len() ==> #[trigger] self.table@[p] == rows[p],
            decreases self.table.len() - q,
        {
            self.table[q].push(None);
            q += 1;
        }
        proof {
            lemma_push_fresh(old(self).alphabet@, symbol);
            assert forall|k: (T, int)|
                table_step(self.alphabet@, self.table@, k.1, k.0) == table_step(
                    old(self).alphabet@,
                    rows,
                    k.1,
                    k.0,
                ) by {
                if 0 <= k.1 < rows.len() && old(self).alphabet@.contains(k.0) {
                    let d = column_of(old(self).alphabet@, k.0);
                    lemma_handle_unique(self.alphabet@, d);
                }
            }
        }
        c
    }

    /// Adds the edge that leads from `from` to `to` under `symbol`.
    ///
    /// An unregistered label is refused with `UnknownState`, the label of the
    /// source before that of the target. A deterministic automaton has one
    /// edge at most for a symbol and a source, so a second one is refused
    /// with `DuplicateTransition`, also where it leads to the same state as
    /// the first. A refused call changes nothing.
    pub fn add_transition<'a>(&mut self, symbol: T, from: &'a S, to: &'a S) -> (r: Result<
        (),
        TransitionError<'a, S, T>,
    >)
        requires
            old(self).wf(),
        ensures
            final(self).wf(),
            match r {
                Ok(_) => {
                    &&& old(self)@.labels.contains(*from)
                    &&& old(self)@.labels.contains(*to)
                    &&& !old(self)@.delta.contains_key(
                        (symbol, handle_of(old(self)@.labels, *from)),
                    )
                    &&& final(self)@ == (DfaView {
                        delta: old(self)@.delta.insert(
                            (symbol, handle_of(old(self)@.labels, *from)),
                            handle_of(old(self)@.labels, *to),
                        ),
                        ..old(self)@
                    })
                },
                Err(e) => {
                    &&& final(self)@ == old(self)@
                    &&& if !old(self)@.labels.contains(*from) {
                        e == TransitionError::<S, T>::UnknownState(from)
                    } else if !old(self)@.labels.contains(*to) {
                        e == TransitionError::<S, T>::UnknownState(to)
                    } else {
                        &&& e == (TransitionError::DuplicateTransition { symbol, from })
                        &&& old(self)@.delta.contains_key(
                            (symbol, handle_of(old(self)@.labels, *from)),
                        )
                    }
                },
            },
    {
        let source = match self.states.resolve(from) {
            Ok(h) => h,
            Err(_) => {
                return Err(TransitionError::UnknownState(from));
            },
        };
        let target = match self.states.resolve(to) {
            Ok(h) => h,
            Err(_) => {
                return Err(TransitionError::UnknownState(to));
            },
        };
        let column = match position(&self.alphabet, &symbol) {
            Some(c) => {
                if self.table[source][c].is_some() {
                    return Err(TransitionError::DuplicateTransition { symbol, from });
                }
                c
            },
            None => self.add_column(symbol),
        };
        assert(self.alphabet@[column as int] == symbol);
        self.table[source][column] = Some(target);
        Ok(())
    }

    /// Whether the automaton accepts `items`: the run starts at the start
    /// state, follows the one edge for each symbol, and fails at once where
    /// there is none; after the last symbol it must stand at an accepting
    /// state. Without a start state the answer is `NoStartState`.
    pub fn try_match(&self, items: &[T]) -> (r: Result<bool, NoStartState>)
        requires
            self.wf(),
        ensures
            match r {
                Ok(b) => self@.start is Some && b == self@.accepts(items@),
                Err(_) => self@.start is None,
            },
    {
        let start = match self.start_state {
            Some(s) => s,
            None => {
                return Err(NoStartState);
            },
        };
        let mut current = start;
        let mut i: usize = 0;
        while i < items.len()
            invariant
                i <= items.len(),
                self.wf(),
                self.start_state == Some(start),
                current < self.table.len(),
                self@.run(start as int, items@.take(i as int)) == Some(current as int),
            decreases items.len() - i,
        {
            proof {
                self@.lemma_run_extends(start as int, items@, i as int);
            }
            let next = match position(&self.alphabet, &items[i]) {
                Some(c) => self.table[current][c],
                None => None,
            };
            match next {
                Some(q) => {
                    current = q;
                },
                None => {
                    proof {
                        self@.lemma_run_stays_failed(start as int, items@, i + 1);
                    }
                    return Ok(false);
                },
            }
            i += 1;
        }
        assert(items@.take(i as int) =~= items@);
        Ok(self.accepting[current])
    }

    /// The same question as `try_match`, under its other name.
    pub fn try_accept(&self, items: &[T]) -> (r: Result<bool, NoStartState>)
        requires
            self.wf(),
        ensures
            match r {
                Ok(b) => self@.start is Some && b == self@.accepts(items@),
                Err(_) => self@.start is None,
            },
    {
        self.try_match(items)
    }
}

impl<T: Eq> Dfa<usize, T> {
    /// The automaton whose states are the rows of `table`: each is labelled
    /// with its own handle, the first is the start state, and the edges are
    /// the entries of the table under the symbols of `alphabet`.
    pub(crate) fn from_table(
        alphabet: Vec<T>,
        table: Vec<Vec<Option<usize>>>,
        accepting: Vec<bool>,
    ) -> (r: Self)
        requires
            eq_decides::<T>(),
            alphabet@.no_duplicates(),
            table.len() >= 1,
            accepting.len() == table.len(),
            table_shaped(table@, table.len() as int, alphabet.len() as int),
        ensures
            r.wf(),
            r@.labels == Seq::new(table.len() as nat, |h: int| h as usize),
            r@.start == Some(0int),
            forall|q: int| #[trigger]
                r@.accepting.contains(q) <==> 0 <= q < accepting.len() && accepting[q],
            forall|q: int, symbol: T|
                #[trigger] r@.step(q, symbol) == table_step(alphabet@, table@, q, symbol),
    {
        let mut states: StateRegistry<usize> = StateRegistry::new();
        let mut h: usize = 0;
        while h < table.len()
            invariant
                h <= table.len(),
                states.wf(),
                states@ == Seq::new(h as nat, |i: int| i as usize),
            decreases table.len() - h,
        {
            states.push_fresh(h);
            h += 1;
        }
        Dfa { states, start_state: Some(0), accepting, alphabet, table }
    }
}

} // verus!
