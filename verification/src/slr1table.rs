//! The SLR(1) parse table: one action per state and lookahead, with
//! reductions keyed by the FOLLOW set of the reduced nonterminal.

use vstd::prelude::*;

use crate::grammar::follow_tbl;
use crate::grammar::nt_index;
use crate::grammar::term_sym;
use crate::grammar::Grammar;
use crate::grammar::Sym;
use crate::lr0rule::LR0Rule;
use crate::lrgraph::edge_get;
use crate::lrgraph::edge_lookup;
use crate::lrgraph::LR0Graph;
use crate::lrgraph::LRGraphStruct;
use crate::lrnode::LRNodeStruct;
use crate::lrtable::cell_get;
use crate::lrtable::cell_lookup;
use crate::lrtable::row_update;
use crate::lrtable::Action;
use crate::lrtable::Table;
use crate::rule::LRRule;
use crate::sets::vec_at;

verus! {

/// The merged action of the first `upto` items of a state at lookahead `k`:
/// shift where a terminal `t == k` stands right of the dot; reduce by a
/// completed item's production at every lookahead in FOLLOW of its left side.
pub open spec fn slr_cell(g: Grammar, items: Seq<LR0Rule>, upto: int, k: Sym) -> Action
    decreases upto,
{
    if upto <= 0 {
        Action::Empty
    } else {
        let prev = slr_cell(g, items, upto - 1, k);
        let it = items[upto - 1];
        match it.sym_spec(g) {
            Some(s) => if !g.non_terms@.contains(s) && k == term_sym(s) {
                prev.spec_update(Action::Shift)
            } else {
                prev
            },
            None => {
                match it.left_spec(g) {
                    Some(l) => if g.non_terms@.contains(l) && follow_tbl(g)[nt_index(
                        g.gcore(),
                        l,
                    )].contains(k) {
                        prev.spec_update(Action::Reduction(it.rule))
                    } else {
                        prev
                    },
                    None => prev,
                }
            },
        }
    }
}


/// An `Accept` cell only arises from the completed start production:
/// wherever the merged SLR(1) cell at lookahead `k` is `Accept`, some item
/// among the first `upto` is production 0 with the dot at the end, and `k`
/// lies in FOLLOW of its left side.
pub proof fn lemma_slr_accept_from_start(g: Grammar, items: Seq<LR0Rule>, upto: int, k: Sym)
    requires
        0 <= upto <= items.len(),
        slr_cell(g, items, upto, k) == Action::Accept,
    ensures
        exists|m: int|
            0 <= m < upto && (#[trigger] items[m]).rule == 0 && items[m].sym_spec(g) is None
                && (items[m].left_spec(g) matches Some(l) && g.non_terms@.contains(l)
                && follow_tbl(g)[nt_index(g.gcore(), l)].contains(k)),
    decreases upto,
{
    let prev = slr_cell(g, items, upto - 1, k);
    let it = items[upto - 1];
    match it.sym_spec(g) {
        Some(_) => {
            lemma_slr_accept_from_start(g, items, upto - 1, k);
        },
        None => {
            match it.left_spec(g) {
                Some(l) => {
                    if g.non_terms@.contains(l) && follow_tbl(g)[nt_index(g.gcore(), l)].contains(
                        k,
                    ) && it.rule == 0 && (prev == Action::Empty || prev == Action::Accept) {
                        assert(items[upto - 1].rule == 0);
                    } else {
                        lemma_slr_accept_from_start(g, items, upto - 1, k);
                    }
                },
                None => {
                    lemma_slr_accept_from_start(g, items, upto - 1, k);
                },
            }
        },
    }
}

/// A fresh action row: one `Empty` cell per terminal and nonterminal column,
/// plus one for the end-marker.
pub open spec fn row_keys_ok(row: Seq<(Sym, Action)>, syms: Seq<char>) -> bool {
    &&& row.len() == syms.len() + 1
    &&& (forall|j: int| 0 <= j < syms.len() ==> (#[trigger] row[j]).0 == term_sym(syms[j]))
    &&& row[syms.len() as int].0 == Sym::Eps
}

/// The action rows of a state of the table.
pub open spec fn state_row_ok(
    g: Grammar,
    node: LRNodeStruct<LR0Rule>,
    row: Seq<(Sym, Action)>,
    syms: Seq<char>,
) -> bool {
    &&& row_keys_ok(row, syms)
    &&& (forall|j: int|
        0 <= j < row.len() ==> (#[trigger] row[j]).1 == slr_cell(
            g,
            node.base@ + node.closure@,
            (node.base@.len() + node.closure@.len()) as int,
            row[j].0,
        ))
}

/// Builds a fresh row of `Empty` cells over the given columns.
fn empty_row(syms: &Vec<char>) -> (row: Vec<(Sym, Action)>)
    requires
        syms@.no_duplicates(),
    ensures
        row_keys_ok(row@, syms@),
        forall|j: int| 0 <= j < row@.len() ==> (#[trigger] row@[j]).1 == Action::Empty,
        forall|a: int, b: int|
            #![trigger row@[a], row@[b]]
            0 <= a < b < row@.len() ==> row@[a].0 != row@[b].0,
{
    let mut row: Vec<(Sym, Action)> = Vec::new();
    let mut j: usize = 0;
    while j < syms.len()
        invariant
            0 <= j <= syms@.len(),
            row@.len() == j,
            forall|k: int| 0 <= k < j ==> (#[trigger] row@[k]).0 == term_sym(syms@[k]),
            forall|k: int| 0 <= k < j ==> (#[trigger] row@[k]).1 == Action::Empty,
        decreases syms@.len() - j,
    {
        let c = crate::sets::char_at(syms, j);
        row.push((Sym::Normal(c), Action::Empty));
        j += 1;
    }
    row.push((Sym::Eps, Action::Empty));
    proof {
        assert forall|a: int, b: int|
            #![trigger row@[a], row@[b]]
            0 <= a < b < row@.len() implies row@[a].0 != row@[b].0 by {
            if b < syms@.len() && row@[a].0 == row@[b].0 {
                assert(syms@[a] == syms@[b]);
            }
        }
    }
    row
}

/// The SLR(1) parse table: per state the symbol that entered it and a row of
/// actions keyed by lookahead, plus the goto rows of the graph.
#[derive(Debug)]
pub struct SLR1Table {
    pub action: Vec<(char, Vec<(Sym, Action)>)>,
    pub goto: Vec<Vec<(char, usize)>>,
    pub syms: Vec<char>,
}

impl SLR1Table {
    /// Builds the table over an LR(0) graph, keying each completed item's
    /// reduction by the FOLLOW set of its left side.
    pub fn new(graph: LR0Graph, gramm: &Grammar) -> (r: Self)
        requires
            gramm.wf(),
            gramm.follow_ok(),
            graph.wf(*gramm),
            forall|i: int|
                0 <= i < graph.nodes@.len() ==> (#[trigger] graph.nodes@[i]).items().subset_of(
                    crate::lr0rule::lr0_universe(gramm.gcore()),
                ),
        ensures
            r.action@.len() == graph.nodes@.len(),
            forall|i: int|
                0 <= i < graph.nodes@.len() ==> (#[trigger] r.action@[i]).0
                    == graph.nodes@[i].from,
            forall|i: int|
                0 <= i < graph.nodes@.len() ==> state_row_ok(
                    *gramm,
                    graph.nodes@[i],
                    (#[trigger] r.action@[i]).1@,
                    r.syms@,
                ),
            r.goto == graph.edges,
            r.syms@ == gramm.terms@ + gramm.non_terms@,
    {
        let syms = crate::lr0table::alphabet(gramm);
        proof {
            assert forall|a: int, b: int| 0 <= a < b < syms@.len() implies syms@[a] != syms@[b] by {
                if b < gramm.terms@.len() {
                } else if a >= gramm.terms@.len() {
                    assert(syms@[a] == gramm.non_terms@[a - gramm.terms@.len()]);
                    assert(syms@[b] == gramm.non_terms@[b - gramm.terms@.len()]);
                } else {
                    assert(syms@[a] == gramm.terms@[a]);
                    assert(syms@[b] == gramm.non_terms@[b - gramm.terms@.len()]);
                    assert(!gramm.non_terms@.contains(gramm.terms@[a]));
                }
            }
        }
        let mut action: Vec<(char, Vec<(Sym, Action)>)> = Vec::new();
        let mut i: usize = 0;
        while i < graph.nodes.len()
            invariant
                0 <= i <= graph.nodes@.len(),
                gramm.wf(),
                gramm.follow_ok(),
                graph.wf(*gramm),
                syms@ == gramm.terms@ + gramm.non_terms@,
                syms@.no_duplicates(),
                forall|k: int|
                    0 <= k < graph.nodes@.len() ==> (#[trigger] graph.nodes@[k]).items().subset_of(
                        crate::lr0rule::lr0_universe(gramm.gcore()),
                    ),
                action@.len() == i,
                forall|k: int|
                    0 <= k < i ==> (#[trigger] action@[k]).0 == graph.nodes@[k].from,
                forall|k: int|
                    0 <= k < i ==> state_row_ok(
                        *gramm,
                        graph.nodes@[k],
                        (#[trigger] action@[k]).1@,
                        syms@,
                    ),
            decreases graph.nodes@.len() - i,
        {
            let all = graph.nodes[i].all_rules();
            proof {
                assert forall|m: int| 0 <= m < all@.len() implies crate::lr0rule::lr0_universe(
                    gramm.gcore(),
                ).contains(#[trigger] all@[m]) by {
                    assert(all@.to_set().contains(all@[m]));
                }
            }
            let mut row = empty_row(&syms);
            let ghost items = all@;
            let mut kx: usize = 0;
            while kx < all.len()
                invariant
                    0 <= kx <= all@.len(),
                    items == all@,
                    gramm.wf(),
                    gramm.follow_ok(),
                    syms@.no_duplicates(),
                    forall|m: int|
                        0 <= m < all@.len() ==> crate::lr0rule::lr0_universe(
                            gramm.gcore(),
                        ).contains(#[trigger] all@[m]),
                    row_keys_ok(row@, syms@),
                    forall|a: int, b: int|
                        #![trigger row@[a], row@[b]]
                        0 <= a < b < row@.len() ==> row@[a].0 != row@[b].0,
                    forall|j: int|
                        0 <= j < row@.len() ==> (#[trigger] row@[j]).1 == slr_cell(
                            *gramm,
                            items,
                            kx as int,
                            row@[j].0,
                        ),
                decreases all@.len() - kx,
            {
                let it = vec_at(&all, kx);
                let s = it.get_sym(gramm);
                if let Some(sc) = s {
                    if !gramm.is_non_term(&sc) {
                        row_update(&mut row, Sym::Normal(sc), Action::Shift);
                    }
                } else {
                    let lopt = it.get_left(gramm);
                    if let Some(l) = lopt {
                        if gramm.is_non_term(&l) {
                            let fol = copy_syms(gramm.follow(l));
                            let ghost row0 = row@;
                            let mut fx: usize = 0;
                            while fx < fol.len()
                                invariant
                                    0 <= fx <= fol@.len(),
                                    fol@.no_duplicates(),
                                    row@.len() == row0.len(),
                                    forall|j: int|
                                        0 <= j < row@.len() ==> (#[trigger] row@[j]).0
                                            == row0[j].0,
                                    forall|j: int|
                                        0 <= j < row@.len() && fol@.subrange(0, fx as int).contains(
                                            row0[j].0,
                                        ) ==> (#[trigger] row@[j]).1 == row0[j].1.spec_update(
                                            Action::Reduction(it.rule),
                                        ),
                                    forall|j: int|
                                        0 <= j < row@.len() && !fol@.subrange(
                                            0,
                                            fx as int,
                                        ).contains(row0[j].0) ==> (#[trigger] row@[j]).1
                                            == row0[j].1,
                                decreases fol@.len() - fx,
                            {
                                let f = crate::lr1rule::sym_at(&fol, fx);
                                let ghost rpre = row@;
                                row_update(&mut row, f, Action::Reduction(it.rule));
                                proof {
                                    crate::sets::lemma_take_one_more(fol@, fx as int);
                                    assert forall|j: int|
                                        0 <= j < row@.len() && !fol@.subrange(0, fx + 1).contains(
                                            row0[j].0,
                                        ) implies (#[trigger] row@[j]).1 == row0[j].1 by {
                                        assert(fol@.subrange(0, fx + 1)[fx as int] == f);
                                        assert(row0[j].0 != f);
                                        assert(!fol@.subrange(0, fx as int).contains(row0[j].0))
                                            by {
                                            if fol@.subrange(0, fx as int).contains(row0[j].0) {
                                                let w = choose|w: int|
                                                    0 <= w < fx && fol@.subrange(0, fx as int)[w]
                                                        == row0[j].0;
                                                assert(fol@.subrange(0, fx + 1)[w] == row0[j].0);
                                            }
                                        }
                                    }
                                    assert forall|j: int|
                                        0 <= j < row@.len() && fol@.subrange(
                                            0,
                                            fx + 1,
                                        ).contains(row0[j].0) implies (#[trigger] row@[j]).1
                                        == row0[j].1.spec_update(
                                        Action::Reduction(it.rule),
                                    ) by {
                                        if row0[j].0 != f {
                                            assert(fol@.subrange(0, fx as int).contains(
                                                row0[j].0,
                                            ));
                                        } else {
                                            if fol@.subrange(0, fx as int).contains(f) {
                                                let w = choose|w: int|
                                                    0 <= w < fx && fol@.subrange(0, fx as int)[w]
                                                        == f;
                                                assert(fol@[w] == fol@[fx as int]);
                                            }
                                        }
                                    }
                                }
                                fx += 1;
                            }
                            proof {
                                assert(fol@.subrange(0, fol@.len() as int) =~= fol@);
                                assert forall|j: int| 0 <= j < row@.len() implies (
                                #[trigger] row@[j]).1 == slr_cell(
                                    *gramm,
                                    items,
                                    kx + 1,
                                    row@[j].0,
                                ) by {
                                    if fol@.contains(row0[j].0) {
                                        assert(fol@.to_set().contains(row0[j].0));
                                    } else {
                                        if fol@.to_set().contains(row0[j].0) {
                                            let w = choose|w: int|
                                                0 <= w < fol@.len() && fol@[w] == row0[j].0;
                                        }
                                    }
                                }
                            }
                        }
                    }
                }
                proof {
                    assert forall|j: int| 0 <= j < row@.len() implies (#[trigger] row@[j]).1
                        == slr_cell(*gramm, items, kx + 1, row@[j].0) by {
                        assert(items[kx as int] == all@[kx as int]);
                    }
                }
                kx += 1;
            }
            let from = node_from_slr(&graph.nodes, i);
            action.push((from, row));
            i += 1;
        }
        let LRGraphStruct { nodes, edges } = graph;
        SLR1Table { action, goto: edges, syms }
    }
}

/// Reads a state's incoming symbol.
fn node_from_slr(v: &Vec<LRNodeStruct<LR0Rule>>, i: usize) -> (c: char)
    requires
        i < v@.len(),
    ensures
        c == v@[i as int].from,
{
    v[i].from
}

/// Copies a symbol vector.
pub fn copy_syms(v: &Vec<Sym>) -> (r: Vec<Sym>)
    ensures
        r@ == v@,
{
    let mut r: Vec<Sym> = Vec::new();
    let mut i: usize = 0;
    while i < v.len()
        invariant
            0 <= i <= v@.len(),
            r@ =~= v@.subrange(0, i as int),
        decreases v@.len() - i,
    {
        r.push(crate::lr1rule::sym_at(v, i));
        i += 1;
    }
    proof {
        assert(r@ =~= v@);
    }
    r
}

/// Reads a state's incoming symbol out of an action column.
fn slr_action_char(v: &Vec<(char, Vec<(Sym, Action)>)>, i: usize) -> (c: char)
    requires
        i < v@.len(),
    ensures
        c == v@[i as int].0,
{
    v[i].0
}

impl Table for SLR1Table {
    open spec fn spec_action(self, state: int, sym: Sym) -> Option<Action> {
        if 0 <= state < self.action@.len() {
            cell_lookup(self.action@[state].1@, sym)
        } else {
            None
        }
    }

    open spec fn spec_goto(self, state: int, chr: char) -> Option<usize> {
        if 0 <= state < self.goto@.len() {
            edge_lookup(self.goto@[state]@, chr)
        } else {
            None
        }
    }

    open spec fn spec_char(self, state: int) -> Option<char> {
        if 0 <= state < self.action@.len() {
            Some(self.action@[state].0)
        } else {
            None
        }
    }

    fn get_action(&self, state: usize, sym: Sym) -> (r: Option<Action>) {
        if state < self.action.len() {
            cell_get(&self.action[state].1, sym)
        } else {
            None
        }
    }

    fn get_goto(&self, state: usize, chr: char) -> (r: Option<usize>) {
        if state < self.goto.len() {
            edge_get(&self.goto[state], chr)
        } else {
            None
        }
    }

    fn get_char(&self, state: usize) -> (r: Option<char>) {
        if state < self.action.len() {
            Some(slr_action_char(&self.action, state))
        } else {
            None
        }
    }
}

} // verus!
