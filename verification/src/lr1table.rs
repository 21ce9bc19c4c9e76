//! The canonical LR(1) parse table: one action per state and lookahead, with
//! each completed item's reduction keyed by the item's own lookahead.

use vstd::prelude::*;

use crate::grammar::term_sym;
use crate::grammar::Grammar;
use crate::grammar::Sym;
use crate::lr1rule::LR1Rule;
use crate::lrgraph::edge_get;
use crate::lrgraph::edge_lookup;
use crate::lrgraph::LR1Graph;
use crate::lrgraph::LRGraphStruct;
use crate::lrnode::LRNodeStruct;
use crate::lrtable::cell_get;
use crate::lrtable::cell_lookup;
use crate::lrtable::row_update;
use crate::lrtable::Action;
use crate::lrtable::Table;
use crate::rule::LRRule;
use crate::sets::vec_at;
use crate::slr1table::row_keys_ok;

verus! {

/// The merged action of the first `upto` items of a state at lookahead `k`:
/// shift where a terminal `t == k` stands right of the dot; reduce by a
/// completed item's production exactly at the item's own lookahead.
pub open spec fn lr1_cell(g: Grammar, items: Seq<LR1Rule>, upto: int, k: Sym) -> Action
    decreases upto,
{
    if upto <= 0 {
        Action::Empty
    } else {
        let prev = lr1_cell(g, items, upto - 1, k);
        let it = items[upto - 1];
        match it.lr0.sym_spec(g) {
            Some(s) => if !g.non_terms@.contains(s) && k == term_sym(s) {
                prev.spec_update(Action::Shift)
            } else {
                prev
            },
            None => if k == it.follow {
                prev.spec_update(Action::Reduction(it.lr0.rule))
            } else {
                prev
            },
        }
    }
}


/// An `Accept` cell only arises from the completed start production:
/// wherever the merged LR(1) cell at lookahead `k` is `Accept`, some item
/// among the first `upto` is production 0 with the dot at the end and `k` as
/// its own lookahead.
pub proof fn lemma_lr1_accept_from_start(g: Grammar, items: Seq<LR1Rule>, upto: int, k: Sym)
    requires
        0 <= upto <= items.len(),
        lr1_cell(g, items, upto, k) == Action::Accept,
    ensures
        exists|m: int|
            0 <= m < upto && (#[trigger] items[m]).lr0.rule == 0 && items[m].lr0.sym_spec(
                g,
            ) is None && items[m].follow == k,
    decreases upto,
{
    let prev = lr1_cell(g, items, upto - 1, k);
    let it = items[upto - 1];
    match it.lr0.sym_spec(g) {
        Some(_) => {
            lemma_lr1_accept_from_start(g, items, upto - 1, k);
        },
        None => {
            if k == it.follow && it.lr0.rule == 0 && (prev == Action::Empty || prev
                == Action::Accept) {
                assert(items[upto - 1].lr0.rule == 0);
            } else {
                lemma_lr1_accept_from_start(g, items, upto - 1, k);
            }
        },
    }
}

/// The action rows of a state of the table.
pub open spec fn lr1_state_row_ok(
    g: Grammar,
    node: LRNodeStruct<LR1Rule>,
    row: Seq<(Sym, Action)>,
    syms: Seq<char>,
) -> bool {
    &&& row_keys_ok(row, syms)
    &&& (forall|j: int|
        0 <= j < row.len() ==> (#[trigger] row[j]).1 == lr1_cell(
            g,
            node.base@ + node.closure@,
            (node.base@.len() + node.closure@.len()) as int,
            row[j].0,
        ))
}

/// Builds a fresh row of `Empty` cells over the given columns.
fn lr1_empty_row(syms: &Vec<char>) -> (row: Vec<(Sym, Action)>)
    requires
        syms@.no_duplicates(),
    ensures
        row_keys_ok(row@, syms@),
        forall|j: int| 0 <= j < row@.len() ==> (#[trigger] row@[j]).1 == Action::Empty,
        forall|a: int, b: int|
            #![trigger row@[a], row@[b]]
            0 <= a < b < row@.len() ==> row@[a].0 != row@[b].0,
{
    let mut row: Vec<(Sym, Action)> = Vec::new();
    let mut j: usize = 0;
    while j < syms.len()
        invariant
            0 <= j <= syms@.len(),
            row@.len() == j,
            forall|k: int| 0 <= k < j ==> (#[trigger] row@[k]).0 == term_sym(syms@[k]),
            forall|k: int| 0 <= k < j ==> (#[trigger] row@[k]).1 == Action::Empty,
        decreases syms@.len() - j,
    {
        let c = crate::sets::char_at(syms, j);
        row.push((Sym::Normal(c), Action::Empty));
        j += 1;
    }
    row.push((Sym::Eps, Action::Empty));
    proof {
        assert forall|a: int, b: int|
            #![trigger row@[a], row@[b]]
            0 <= a < b < row@.len() implies row@[a].0 != row@[b].0 by {
            if b < syms@.len() && row@[a].0 == row@[b].0 {
                assert(syms@[a] == syms@[b]);
            }
        }
    }
    row
}

/// The canonical LR(1) parse table: per state the symbol that entered it and
/// a row of actions keyed by lookahead, plus the goto rows of the graph.
#[derive(Debug)]
pub struct LR1Table {
    pub action: Vec<(char, Vec<(Sym, Action)>)>,
    pub goto: Vec<Vec<(char, usize)>>,
    pub syms: Vec<char>,
}

impl LR1Table {
    /// Builds the table over a canonical LR(1) graph.
    pub fn new(graph: LR1Graph, gramm: &Grammar) -> (r: Self)
        requires
            gramm.wf(),
            gramm.first_ok(),
        ensures
            r.action@.len() == graph.nodes@.len(),
            forall|i: int|
                0 <= i < graph.nodes@.len() ==> (#[trigger] r.action@[i]).0
                    == graph.nodes@[i].from,
            forall|i: int|
                0 <= i < graph.nodes@.len() ==> lr1_state_row_ok(
                    *gramm,
                    graph.nodes@[i],
                    (#[trigger] r.action@[i]).1@,
                    r.syms@,
                ),
            r.goto == graph.edges,
            r.syms@ == gramm.terms@ + gramm.non_terms@,
    {
        let syms = crate::lr0table::alphabet(gramm);
        proof {
            assert forall|a: int, b: int| 0 <= a < b < syms@.len() implies syms@[a] != syms@[b] by {
                if b < gramm.terms@.len() {
                } else if a >= gramm.terms@.len() {
                    assert(syms@[a] == gramm.non_terms@[a - gramm.terms@.len()]);
                    assert(syms@[b] == gramm.non_terms@[b - gramm.terms@.len()]);
                } else {
                    assert(syms@[a] == gramm.terms@[a]);
                    assert(syms@[b] == gramm.non_terms@[b - gramm.terms@.len()]);
                    assert(!gramm.non_terms@.contains(gramm.terms@[a]));
                }
            }
        }
        let mut action: Vec<(char, Vec<(Sym, Action)>)> = Vec::new();
        let mut i: usize = 0;
        while i < graph.nodes.len()
            invariant
                0 <= i <= graph.nodes@.len(),
                gramm.wf(),
                gramm.first_ok(),
                syms@ == gramm.terms@ + gramm.non_terms@,
                syms@.no_duplicates(),
                action@.len() == i,
                forall|k: int|
                    0 <= k < i ==> (#[trigger] action@[k]).0 == graph.nodes@[k].from,
                forall|k: int|
                    0 <= k < i ==> lr1_state_row_ok(
                        *gramm,
                        graph.nodes@[k],
                        (#[trigger] action@[k]).1@,
                        syms@,
                    ),
            decreases graph.nodes@.len() - i,
        {
            let all = graph.nodes[i].all_rules();
            let mut row = lr1_empty_row(&syms);
            let ghost items = all@;
            let mut kx: usize = 0;
            while kx < all.len()
                invariant
                    0 <= kx <= all@.len(),
                    items == all@,
                    gramm.wf(),
                    gramm.first_ok(),
                    syms@.no_duplicates(),
                    row_keys_ok(row@, syms@),
                    forall|a: int, b: int|
                        #![trigger row@[a], row@[b]]
                        0 <= a < b < row@.len() ==> row@[a].0 != row@[b].0,
                    forall|j: int|
                        0 <= j < row@.len() ==> (#[trigger] row@[j]).1 == lr1_cell(
                            *gramm,
                            items,
                            kx as int,
                            row@[j].0,
                        ),
                decreases all@.len() - kx,
            {
                let it = vec_at(&all, kx);
                let s = it.get_sym(gramm);
                if let Some(sc) = s {
                    if !gramm.is_non_term(&sc) {
                        row_update(&mut row, Sym::Normal(sc), Action::Shift);
                    }
                } else {
                    row_update(&mut row, it.follow, Action::Reduction(it.rule()));
                }
                proof {
                    assert forall|j: int| 0 <= j < row@.len() implies (#[trigger] row@[j]).1
                        == lr1_cell(*gramm, items, kx + 1, row@[j].0) by {
                        assert(items[kx as int] == all@[kx as int]);
                    }
                }
                kx += 1;
            }
            let from = node_from_lr1(&graph.nodes, i);
            action.push((from, row));
            i += 1;
        }
        let LRGraphStruct { nodes, edges } = graph;
        LR1Table { action, goto: edges, syms }
    }
}

/// Reads a state's incoming symbol.
fn node_from_lr1(v: &Vec<LRNodeStruct<LR1Rule>>, i: usize) -> (c: char)
    requires
        i < v@.len(),
    ensures
        c == v@[i as int].from,
{
    v[i].from
}

/// Reads a state's incoming symbol out of an action column.
fn lr1_action_char(v: &Vec<(char, Vec<(Sym, Action)>)>, i: usize) -> (c: char)
    requires
        i < v@.len(),
    ensures
        c == v@[i as int].0,
{
    v[i].0
}

impl Table for LR1Table {
    open spec fn spec_action(self, state: int, sym: Sym) -> Option<Action> {
        if 0 <= state < self.action@.len() {
            cell_lookup(self.action@[state].1@, sym)
        } else {
            None
        }
    }

    open spec fn spec_goto(self, state: int, chr: char) -> Option<usize> {
        if 0 <= state < self.goto@.len() {
            edge_lookup(self.goto@[state]@, chr)
        } else {
            None
        }
    }

    open spec fn spec_char(self, state: int) -> Option<char> {
        if 0 <= state < self.action@.len() {
            Some(self.action@[state].0)
        } else {
            None
        }
    }

    fn get_action(&self, state: usize, sym: Sym) -> (r: Option<Action>) {
        if state < self.action.len() {
            cell_get(&self.action[state].1, sym)
        } else {
            None
        }
    }

    fn get_goto(&self, state: usize, chr: char) -> (r: Option<usize>) {
        if state < self.goto.len() {
            edge_get(&self.goto[state], chr)
        } else {
            None
        }
    }

    fn get_char(&self, state: usize) -> (r: Option<char>) {
        if state < self.action.len() {
            Some(lr1_action_char(&self.action, state))
        } else {
            None
        }
    }
}

} // verus!
