use crate::error::{DuplicateState, UnknownState};
use crate::equality::eq_decides;
use vstd::prelude::*;

verus! {

/// The states of one automaton: each registered label owns the handle that
/// was free when it came in. Handles count up from zero and are never given
/// out twice; a label that is registered already is turned away.
#[derive(Debug)]
pub struct StateRegistry<S: Eq> {
    labels: Vec<S>,
}

impl<S: Eq> View for StateRegistry<S> {
    type V = Seq<S>;

    /// The labels in the order of their handles.
    closed spec fn view(&self) -> Seq<S> {
        self.labels@
    }
}

/// The handle that `label` owns among `labels`.
pub open spec fn handle_of<S>(labels: Seq<S>, label: S) -> int {
    labels.index_of(label)
}

/// With no label twice, a label found at a place owns that place.
pub proof fn lemma_handle_unique<S>(labels: Seq<S>, h: int)
    requires
        labels.no_duplicates(),
        0 <= h < labels.len(),
    ensures
        handle_of(labels, labels[h]) == h,
        labels.contains(labels[h]),
{
}

/// A new item at the end of a list without repeats leaves it without repeats.
pub proof fn lemma_push_fresh<A>(items: Seq<A>, item: A)
    requires
        items.no_duplicates(),
        !items.contains(item),
    ensures
        items.push(item).no_duplicates(),
        handle_of(items.push(item), item) == items.len(),
{
    let longer = items.push(item);
    lemma_handle_unique(longer, items.len() as int);
}

/// A label that comes in takes the next handle, and every label that was
/// there keeps its own.
pub proof fn lemma_handles_stable<S>(labels: Seq<S>, label: S)
    requires
        labels.no_duplicates(),
        !labels.contains(label),
    ensures
        handle_of(labels.push(label), label) == labels.len(),
        forall|known: S|
            labels.contains(known) ==> handle_of(labels.push(label), known) == #[trigger] handle_of(
                labels,
                known,
            ),
{
    lemma_push_fresh(labels, label);
    let longer = labels.push(label);
    assert forall|known: S| labels.contains(known) implies handle_of(longer, known)
        == #[trigger] handle_of(labels, known) by {
        let h = handle_of(labels, known);
        lemma_handle_unique(longer, h);
    }
}

/// The place of `needle` in a list without repeats, if it has one.
pub(crate) fn position<A: Eq>(items: &Vec<A>, needle: &A) -> (r: Option<usize>)
    requires
        eq_decides::<A>(),
        items@.no_duplicates(),
    ensures
        match r {
            Some(i) => items@.contains(*needle) && i == handle_of(items@, *needle) && i
                < items.len() && items@[i as int] == *needle,
            None => !items@.contains(*needle),
        },
{
    let mut i: usize = 0;
    while i < items.len()
        invariant
            i <= items.len(),
            eq_decides::<A>(),
            items@.no_duplicates(),
            forall|j: int| 0 <= j < i ==> items@[j] != *needle,
        decreases items.len() - i,
    {
        if items[i] == *needle {
            return Some(i);
        }
        i += 1;
    }
    None
}

impl<S: Eq> StateRegistry<S> {
    /// No label is held twice, and `==` on labels tells whether two are the
    /// same.
    pub closed spec fn wf(&self) -> bool {
        &&& eq_decides::<S>()
        &&& self.labels@.no_duplicates()
    }

    /// What a well-formed registry holds.
    pub proof fn lemma_wf(&self)
        requires
            self.wf(),
        ensures
            self@.no_duplicates(),
            eq_decides::<S>(),
    {
    }

    /// A registry that holds no label.
    pub fn new() -> (r: Self)
        requires
            eq_decides::<S>(),
        ensures
            r.wf(),
            r@ == Seq::<S>::empty(),
    {
        StateRegistry { labels: Vec::new() }
    }

    /// The number of handles given out.
    pub fn len(&self) -> (n: usize)
        ensures
            n == self@.len(),
    {
        self.labels.len()
    }

    /// The handle of `label`, or the label back in `UnknownState` where it was
    /// never registered.
    pub fn resolve<'a>(&self, label: &'a S) -> (r: Result<usize, UnknownState<'a, S>>)
        requires
            self.wf(),
        ensures
            match r {
                Ok(h) => self@.contains(*label) && h == handle_of(self@, *label),
                Err(e) => e == UnknownState(label) && !self@.contains(*label),
            },
    {
        match position(&self.labels, label) {
            Some(h) => Ok(h),
            None => Err(UnknownState(label)),
        }
    }

    /// Registers `label` under the next free handle; a label that is held
    /// already is refused with `DuplicateState` and nothing changes.
    pub fn add_state(&mut self, label: S) -> (r: Result<(), DuplicateState<S>>)
        requires
            old(self).wf(),
        ensures
            final(self).wf(),
            match r {
                Ok(_) => !old(self)@.contains(label) && final(self)@ == old(self)@.push(label),
                Err(e) => e == DuplicateState(label) && old(self)@.contains(label) && final(self)@
                    == old(self)@,
            },
    {
        match position(&self.labels, &label) {
            Some(_) => Err(DuplicateState(label)),
            None => {
                self.push_fresh(label);
                Ok(())
            },
        }
    }

    /// Registers a label that the caller knows to be new.
    pub(crate) fn push_fresh(&mut self, label: S)
        requires
            old(self).wf(),
            !old(self)@.contains(label),
        ensures
            final(self).wf(),
            final(self)@ == old(self)@.push(label),
    {
        self.labels.push(label);
    }
}

} // verus!
