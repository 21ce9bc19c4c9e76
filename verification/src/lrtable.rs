//! Parse-table cells, the conflict-detecting merge on them, and the query
//! surface shared by the three table variants.

use vstd::prelude::*;

use crate::grammar::Sym;

verus! {

/// A parse-table cell: shift, accept, reduce by a production, a detected
/// conflict, or a cell never written.
#[derive(Debug, PartialEq, Eq, Structural, Clone, Copy)]
pub enum Action {
    Shift,
    Accept,
    Reduction(usize),
    Error,
    Empty,
}

impl Action {
    /// The merge of a new action into a cell. A reduction by production 0
    /// signals acceptance; disagreeing actions collapse to `Error`, which is
    /// final.
    pub open spec fn spec_update(self, new: Action) -> Action {
        match (self, new) {
            (Action::Shift, Action::Shift) => Action::Shift,
            (Action::Empty, Action::Shift) => Action::Shift,
            (Action::Empty, Action::Reduction(r)) => if r == 0 {
                Action::Accept
            } else {
                Action::Reduction(r)
            },
            (Action::Accept, Action::Reduction(r)) => if r == 0 {
                Action::Accept
            } else {
                Action::Error
            },
            (Action::Reduction(r1), Action::Reduction(r2)) => if r1 == r2 {
                Action::Reduction(r1)
            } else {
                Action::Error
            },
            _ => Action::Error,
        }
    }

    pub fn update(&self, new: Action) -> (r: Action)
        ensures
            r == self.spec_update(new),
    {
        match (*self, new) {
            (Action::Shift, Action::Shift) => Action::Shift,
            (Action::Empty, Action::Shift) => Action::Shift,
            (Action::Empty, Action::Reduction(r)) => if r == 0 {
                Action::Accept
            } else {
                Action::Reduction(r)
            },
            (Action::Accept, Action::Reduction(r)) => if r == 0 {
                Action::Accept
            } else {
                Action::Error
            },
            (Action::Reduction(r1), Action::Reduction(r2)) => if r1 == r2 {
                Action::Reduction(r1)
            } else {
                Action::Error
            },
            _ => Action::Error,
        }
    }
}

/// What the shift/reduce driver needs of a parse table: an action per state
/// and lookahead, a goto target per state and symbol, and the symbol that
/// entered a state. Every implementation answers exactly as its spec
/// functions say, so a run of the driver is a function of the table value and
/// the input.
pub trait Table: Sized {
    spec fn spec_action(self, state: int, sym: Sym) -> Option<Action>;

    spec fn spec_goto(self, state: int, chr: char) -> Option<usize>;

    spec fn spec_char(self, state: int) -> Option<char>;

    fn get_action(&self, state: usize, sym: Sym) -> (r: Option<Action>)
        ensures
            r == self.spec_action(state as int, sym),
    ;

    fn get_goto(&self, state: usize, chr: char) -> (r: Option<usize>)
        ensures
            r == self.spec_goto(state as int, chr),
    ;

    fn get_char(&self, state: usize) -> (r: Option<char>)
        ensures
            r == self.spec_char(state as int),
    ;
}

/// The first value recorded for a key in an association row.
pub open spec fn cell_lookup(row: Seq<(Sym, Action)>, k: Sym) -> Option<Action>
    decreases row.len(),
{
    if row.len() == 0 {
        None
    } else if row[0].0 == k {
        Some(row[0].1)
    } else {
        cell_lookup(row.drop_first(), k)
    }
}

/// Looks a key up in an association row.
pub fn cell_get(row: &Vec<(Sym, Action)>, k: Sym) -> (r: Option<Action>)
    ensures
        r == cell_lookup(row@, k),
{
    proof {
        assert(row@.skip(0) =~= row@);
    }
    let mut i: usize = 0;
    while i < row.len()
        invariant
            0 <= i <= row@.len(),
            forall|j: int| 0 <= j < i ==> (#[trigger] row@[j]).0 != k,
            cell_lookup(row@, k) == cell_lookup(row@.skip(i as int), k),
        decreases row@.len() - i,
    {
        let p = crate::sets::vec_at(row, i);
        if p.0 == k {
            proof {
                assert(row@.skip(i as int)[0] == row@[i as int]);
            }
            return Some(p.1);
        }
        proof {
            assert(row@.skip(i as int)[0] == row@[i as int]);
            assert(row@.skip(i as int).drop_first() =~= row@.skip(i + 1));
        }
        i += 1;
    }
    proof {
        assert(row@.skip(i as int).len() == 0);
    }
    None
}

/// Merges an action into the cell of one key of an association row; rows
/// built by the table builders hold each key once.
pub fn row_update(row: &mut Vec<(Sym, Action)>, k: Sym, a: Action)
    ensures
        final(row)@.len() == old(row)@.len(),
        forall|j: int| 0 <= j < old(row)@.len() ==> (#[trigger] final(row)@[j]).0 == old(row)@[j].0,
        forall|j: int|
            0 <= j < old(row)@.len() && old(row)@[j].0 != k ==> (#[trigger] final(row)@[j]).1 == old(
                row,
            )@[j].1,
        forall|j: int|
            0 <= j < old(row)@.len() && old(row)@[j].0 == k ==> (#[trigger] final(row)@[j]).1 == old(
                row,
            )@[j].1.spec_update(a),
{
    let n = row.len();
    let mut i: usize = 0;
    while i < n
        invariant
            0 <= i <= n,
            n == row@.len(),
            row@.len() == old(row)@.len(),
            forall|j: int| 0 <= j < row@.len() ==> (#[trigger] row@[j]).0 == old(row)@[j].0,
            forall|j: int|
                i <= j < row@.len() ==> (#[trigger] row@[j]).1 == old(row)@[j].1,
            forall|j: int|
                0 <= j < i && old(row)@[j].0 != k ==> (#[trigger] row@[j]).1 == old(row)@[j].1,
            forall|j: int|
                0 <= j < i && old(row)@[j].0 == k ==> (#[trigger] row@[j]).1 == old(
                    row,
                )@[j].1.spec_update(a),
        decreases n - i,
    {
        let p = crate::sets::vec_at(row, i);
        if p.0 == k {
            let merged = p.1.update(a);
            row.set(i, (p.0, merged));
        }
        i += 1;
    }
}

} // verus!
