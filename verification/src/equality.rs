use vstd::prelude::*;

verus! {

/// Whether `==` on values of `A` tells whether the two are the same value.
///
/// The automata find labels and symbols again by comparing them, so they ask
/// this of both types. It holds of the integer types, of `bool` and of
/// tuples of such; `lemma_char_eq_decides` shows it of `char`.
pub open spec fn eq_decides<A: PartialEq>() -> bool {
    forall|x: A, y: A, same: bool| #[trigger]
        call_ensures(A::eq, (&x, &y), same) ==> same == (x == y)
}

/// `==` on `char` compares the two characters, as std documents.
pub assume_specification[ <char as PartialEq>::eq ](a: &char, b: &char) -> (same: bool)
    ensures
        same == (*a == *b),
;

/// `==` on `char` tells whether two characters are the same.
pub proof fn lemma_char_eq_decides()
    ensures
        eq_decides::<char>(),
{
}

} // verus!
