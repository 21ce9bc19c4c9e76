//! The LR(0) parse table: one action per state, merged over all its items,
//! regardless of lookahead.

use vstd::prelude::*;

use crate::grammar::Grammar;
use crate::grammar::Sym;
use crate::lr0rule::LR0Rule;
use crate::lrgraph::edge_lookup;
use crate::lrgraph::edge_get;
use crate::lrgraph::LR0Graph;
use crate::lrgraph::LRGraphStruct;
use crate::lrnode::LRNodeStruct;
use crate::lrtable::Action;
use crate::lrtable::Table;
use crate::rule::LRRule;
use crate::sets::vec_at;

verus! {

/// The merged action of the first `upto` items of a state: shift for an item
/// with a symbol right of the dot, reduce by the item's production for a
/// completed item.
pub open spec fn lr0_fold(g: Grammar, items: Seq<LR0Rule>, upto: int) -> Action
    decreases upto,
{
    if upto <= 0 {
        Action::Empty
    } else {
        let prev = lr0_fold(g, items, upto - 1);
        match items[upto - 1].sym_spec(g) {
            Some(_) => prev.spec_update(Action::Shift),
            None => prev.spec_update(Action::Reduction(items[upto - 1].rule)),
        }
    }
}


/// An `Accept` action only arises from the completed start production:
/// wherever the merged LR(0) action is `Accept`, some item among the first
/// `upto` is production 0 with the dot at the end.
pub proof fn lemma_lr0_accept_from_start(g: Grammar, items: Seq<LR0Rule>, upto: int)
    requires
        0 <= upto <= items.len(),
        lr0_fold(g, items, upto) == Action::Accept,
    ensures
        exists|m: int|
            0 <= m < upto && (#[trigger] items[m]).rule == 0 && items[m].sym_spec(g) is None,
    decreases upto,
{
    let prev = lr0_fold(g, items, upto - 1);
    match items[upto - 1].sym_spec(g) {
        Some(_) => {
            lemma_lr0_accept_from_start(g, items, upto - 1);
        },
        None => {
            if items[upto - 1].rule == 0 && (prev == Action::Empty || prev == Action::Accept) {
                assert(items[upto - 1].rule == 0 && items[upto - 1].sym_spec(g) is None);
            } else {
                lemma_lr0_accept_from_start(g, items, upto - 1);
            }
        },
    }
}

/// Reads a state's incoming symbol out of an action column.
fn action_char(v: &Vec<(char, Action)>, i: usize) -> (c: char)
    requires
        i < v@.len(),
    ensures
        c == v@[i as int].0,
{
    v[i].0
}

/// The LR(0) parse table: per state the symbol that entered it and its one
/// merged action, plus the goto rows of the graph.
#[derive(Debug)]
pub struct LR0Table {
    pub action: Vec<(char, Action)>,
    pub goto: Vec<Vec<(char, usize)>>,
    pub syms: Vec<char>,
}

impl LR0Table {
    /// Builds the table: state `i`'s action is the merge, in item order, over
    /// all items of graph state `i`; the goto rows are the graph's edge rows;
    /// the symbol columns list the terminals and then the nonterminals.
    pub fn new(graph: LR0Graph, g: &Grammar) -> (r: Self)
        requires
            forall|i: int|
                0 <= i < graph.nodes@.len() ==> (#[trigger] graph.nodes@[i]).wf(),
        ensures
            r.action@.len() == graph.nodes@.len(),
            forall|i: int|
                0 <= i < graph.nodes@.len() ==> (#[trigger] r.action@[i]).0
                    == graph.nodes@[i].from,
            forall|i: int|
                0 <= i < graph.nodes@.len() ==> (#[trigger] r.action@[i]).1 == lr0_fold(
                    *g,
                    graph.nodes@[i].base@ + graph.nodes@[i].closure@,
                    (graph.nodes@[i].base@.len() + graph.nodes@[i].closure@.len()) as int,
                ),
            r.goto == graph.edges,
            r.syms@ == g.terms@ + g.non_terms@,
    {
        let mut action: Vec<(char, Action)> = Vec::new();
        let mut i: usize = 0;
        while i < graph.nodes.len()
            invariant
                0 <= i <= graph.nodes@.len(),
                forall|k: int| 0 <= k < graph.nodes@.len() ==> (#[trigger] graph.nodes@[k]).wf(),
                action@.len() == i,
                forall|k: int|
                    0 <= k < i ==> (#[trigger] action@[k]).0 == graph.nodes@[k].from,
                forall|k: int|
                    0 <= k < i ==> (#[trigger] action@[k]).1 == lr0_fold(
                        *g,
                        graph.nodes@[k].base@ + graph.nodes@[k].closure@,
                        (graph.nodes@[k].base@.len() + graph.nodes@[k].closure@.len()) as int,
                    ),
            decreases graph.nodes@.len() - i,
        {
            let all = graph.nodes[i].all_rules();
            let mut acc = Action::Empty;
            let mut kx: usize = 0;
            while kx < all.len()
                invariant
                    0 <= kx <= all@.len(),
                    acc == lr0_fold(*g, all@, kx as int),
                decreases all@.len() - kx,
            {
                let it = vec_at(&all, kx);
                let s = it.get_sym(g);
                if s.is_some() {
                    acc = acc.update(Action::Shift);
                } else {
                    acc = acc.update(Action::Reduction(it.rule));
                }
                kx += 1;
            }
            let from = node_from_lr0(&graph.nodes, i);
            action.push((from, acc));
            i += 1;
        }
        let syms = alphabet(g);
        let LRGraphStruct { nodes, edges } = graph;
        LR0Table { action, goto: edges, syms }
    }
}

/// Reads a state's incoming symbol.
fn node_from_lr0(v: &Vec<LRNodeStruct<LR0Rule>>, i: usize) -> (c: char)
    requires
        i < v@.len(),
    ensures
        c == v@[i as int].from,
{
    v[i].from
}

/// The symbol columns of a table: the terminals followed by the
/// nonterminals.
pub fn alphabet(g: &Grammar) -> (syms: Vec<char>)
    ensures
        syms@ == g.terms@ + g.non_terms@,
{
    let mut syms: Vec<char> = Vec::new();
    let mut i: usize = 0;
    while i < g.terms.len()
        invariant
            0 <= i <= g.terms@.len(),
            syms@ =~= g.terms@.subrange(0, i as int),
        decreases g.terms@.len() - i,
    {
        syms.push(crate::sets::char_at(&g.terms, i));
        i += 1;
    }
    let mut j: usize = 0;
    while j < g.non_terms.len()
        invariant
            0 <= j <= g.non_terms@.len(),
            syms@ =~= g.terms@ + g.non_terms@.subrange(0, j as int),
        decreases g.non_terms@.len() - j,
    {
        syms.push(crate::sets::char_at(&g.non_terms, j));
        j += 1;
    }
    proof {
        assert(syms@ =~= g.terms@ + g.non_terms@);
    }
    syms
}

impl Table for LR0Table {
    /// An LR(0) table ignores the lookahead: one action per state.
    open spec fn spec_action(self, state: int, sym: Sym) -> Option<Action> {
        if 0 <= state < self.action@.len() {
            Some(self.action@[state].1)
        } else {
            None
        }
    }

    open spec fn spec_goto(self, state: int, chr: char) -> Option<usize> {
        if 0 <= state < self.goto@.len() {
            edge_lookup(self.goto@[state]@, chr)
        } else {
            None
        }
    }

    open spec fn spec_char(self, state: int) -> Option<char> {
        if 0 <= state < self.action@.len() {
            Some(self.action@[state].0)
        } else {
            None
        }
    }

    fn get_action(&self, state: usize, sym: Sym) -> (r: Option<Action>) {
        if state < self.action.len() {
            let p = vec_at(&self.action, state);
            Some(p.1)
        } else {
            None
        }
    }

    fn get_goto(&self, state: usize, chr: char) -> (r: Option<usize>) {
        if state < self.goto.len() {
            edge_get(&self.goto[state], chr)
        } else {
            None
        }
    }

    fn get_char(&self, state: usize) -> (r: Option<char>) {
        if state < self.action.len() {
            Some(action_char(&self.action, state))
        } else {
            None
        }
    }
}

} // verus!
