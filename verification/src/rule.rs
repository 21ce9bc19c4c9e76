//! The interface shared by the item kinds of the LR variants: a dotted
//! production, possibly decorated with a lookahead.

use vstd::prelude::*;

use crate::grammar::Grammar;
use crate::lr0rule::LR0Rule;

verus! {

/// An LR item: a dotted production, with whatever decoration the variant
/// carries. The spec members fix what the executable methods return, what the
/// closure step derives from an item, and a finite universe that item-set
/// construction cannot leave — the ground for its termination.
pub trait LRRule: Sized + Copy {
    /// The item's dotted production, without any decoration.
    spec fn erased(self) -> LR0Rule;

    /// What the grammar must provide before items can be closed.
    spec fn closure_ready(g: Grammar) -> bool;

    /// The symbol right of the dot, if any.
    spec fn spec_sym(self, g: Grammar) -> Option<char>;

    /// The item with the dot advanced one place.
    spec fn spec_next(self) -> Self;

    /// The items one closure step derives from this item.
    spec fn spec_closure_of(self, g: Grammar) -> Set<Self>;

    /// The item-set construction starts from this item.
    spec fn spec_default() -> Self;

    /// A finite pool that holds every item the construction can produce.
    spec fn universe(g: Grammar) -> Set<Self>;

    proof fn lemma_universe_finite(g: Grammar)
        requires
            Self::closure_ready(g),
        ensures
            Self::universe(g).finite(),
    ;

    /// Whatever the closure step derives lies in the universe.
    proof fn lemma_closure_of_in_universe(self, g: Grammar)
        requires
            Self::closure_ready(g),
        ensures
            self.spec_closure_of(g).subset_of(Self::universe(g)),
    ;

    /// An item with a symbol right of its dot can have its dot advanced.
    proof fn lemma_sym_next_ok(self, g: Grammar)
        requires
            Self::closure_ready(g),
            self.spec_sym(g) is Some,
        ensures
            self.erased().place < usize::MAX,
    ;

    /// Advancing the dot does not leave the universe.
    proof fn lemma_next_in_universe(self, g: Grammar)
        requires
            Self::closure_ready(g),
            Self::universe(g).contains(self),
            self.spec_sym(g) is Some,
        ensures
            Self::universe(g).contains(self.spec_next()),
    ;

    /// The start item lies in the universe.
    proof fn lemma_default_in_universe(g: Grammar)
        requires
            Self::closure_ready(g),
            g.rules@.len() > 0,
        ensures
            Self::universe(g).contains(Self::spec_default()),
    ;

    /// The item the construction of the start state seeds.
    fn default(g: &Grammar) -> (r: Self)
        ensures
            r == Self::spec_default(),
    ;

    fn eq_item(&self, o: &Self) -> (r: bool)
        ensures
            r == (*self == *o),
    ;

    fn get_sym(&self, g: &Grammar) -> (r: Option<char>)
        requires
            Self::closure_ready(*g),
        ensures
            r == self.spec_sym(*g),
    ;

    fn next_rule(&self) -> (r: Self)
        requires
            self.erased().place < usize::MAX,
        ensures
            r == self.spec_next(),
    ;

    fn create_closure(&self, g: &Grammar) -> (r: Vec<Self>)
        requires
            Self::closure_ready(*g),
        ensures
            r@.no_duplicates(),
            r@.to_set() == self.spec_closure_of(*g),
    ;
}

} // verus!
