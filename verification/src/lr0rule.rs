//! LR(0) items: a production index and a dot position.

use vstd::prelude::*;

use crate::grammar::Grammar;
use crate::grammar::GrammarCore;
use crate::rule::LRRule;
use crate::sets::char_at;

verus! {

/// A dotted production: production number `rule`, dot before position
/// `place` of its right-hand side.
#[derive(Debug, PartialEq, Eq, Structural, Hash, Clone, Copy)]
pub struct LR0Rule {
    pub rule: usize,
    pub place: usize,
}

/// The character at one position of a production's right-hand side.
pub open spec fn rhs_char(c: GrammarCore, r: int, d: int) -> char {
    c.rules[r].right@[d]
}

/// The left side of a production.
pub open spec fn left_char(c: GrammarCore, r: int) -> char {
    c.rules[r].left
}

/// Reads the left side of a production value.
pub fn left_at_rule(r: &crate::grammar::Rule) -> (c: char)
    ensures
        c == r.left,
{
    r.left
}

/// Reads the left side of a production.
pub fn left_at(g: &Grammar, r: usize) -> (c: char)
    requires
        r < g.rules@.len(),
    ensures
        c == left_char(g.gcore(), r as int),
{
    g.rules[r].left
}

impl LR0Rule {
    pub fn new(rule: usize, place: usize) -> (r: Self)
        ensures
            r.rule == rule,
            r.place == place,
    {
        Self { rule, place }
    }

    /// The symbol right of the dot: position `place` of the production's
    /// right-hand side, if both indices are in range.
    pub open spec fn sym_spec(self, g: Grammar) -> Option<char> {
        if self.rule < g.rules@.len() && self.place < g.rules@[self.rule as int].right@.len() {
            Some(rhs_char(g.gcore(), self.rule as int, self.place as int))
        } else {
            None
        }
    }

    /// The producing nonterminal, if the production index is in range.
    pub open spec fn left_spec(self, g: Grammar) -> Option<char> {
        if self.rule < g.rules@.len() {
            Some(left_char(g.gcore(), self.rule as int))
        } else {
            None
        }
    }

    /// The items closure derives from this one: every production of the
    /// nonterminal right of the dot, with the dot at the start.
    pub open spec fn closure_spec(self, g: Grammar) -> Set<LR0Rule> {
        match self.sym_spec(g) {
            Some(x) => if g.non_terms@.contains(x) {
                Set::new(
                    |it: LR0Rule|
                        it.place == 0 && it.rule < g.rules@.len() && g.rules@[it.rule as int].left
                            == x,
                )
            } else {
                Set::empty()
            },
            None => Set::empty(),
        }
    }

    pub fn get_left(&self, gramm: &Grammar) -> (r: Option<char>)
        ensures
            r == self.left_spec(*gramm),
    {
        if self.rule < gramm.rules.len() {
            Some(left_at(gramm, self.rule))
        } else {
            None
        }
    }
}

/// Every dotted position of every production of the grammar: the pool that
/// LR(0) item-set construction draws from.
pub open spec fn lr0_universe(c: GrammarCore) -> Set<LR0Rule> {
    Set::new(
        |it: LR0Rule| it.rule < c.rules.len() && it.place <= c.rules[it.rule as int].right@.len(),
    )
}

/// The dotted positions of production `q` up to place `dmax`.
spec fn lr0_row(q: int, dmax: int) -> Set<LR0Rule>
    decreases dmax + 1,
{
    if dmax < 0 {
        Set::empty()
    } else {
        lr0_row(q, dmax - 1).insert(LR0Rule { rule: q as usize, place: dmax as usize })
    }
}

proof fn lemma_lr0_row(q: int, dmax: int)
    requires
        0 <= q <= usize::MAX,
        dmax <= usize::MAX,
    ensures
        lr0_row(q, dmax).finite(),
        forall|it: LR0Rule| #[trigger]
            lr0_row(q, dmax).contains(it) <==> (it.rule == q && it.place <= dmax),
    decreases dmax + 1,
{
    broadcast use vstd::set::group_set_axioms;

    if dmax < 0 {
    } else {
        lemma_lr0_row(q, dmax - 1);
    }
}

/// The items of the first `q` productions.
spec fn lr0_upto(c: GrammarCore, q: int) -> Set<LR0Rule>
    decreases q,
{
    if q <= 0 {
        Set::empty()
    } else {
        lr0_upto(c, q - 1).union(lr0_row(q - 1, c.rules[q - 1].right@.len() as int))
    }
}

proof fn lemma_lr0_upto(c: GrammarCore, q: int)
    requires
        0 <= q <= c.rules.len(),
        c.rules.len() <= usize::MAX,
        forall|r: int| 0 <= r < c.rules.len() ==> (#[trigger] c.rules[r]).right@.len() <= usize::MAX,
    ensures
        lr0_upto(c, q).finite(),
        forall|it: LR0Rule| #[trigger]
            lr0_upto(c, q).contains(it) <==> (it.rule < q && it.place
                <= c.rules[it.rule as int].right@.len()),
    decreases q,
{
    broadcast use vstd::set::group_set_axioms;

    if q <= 0 {
    } else {
        lemma_lr0_upto(c, q - 1);
        lemma_lr0_row(q - 1, c.rules[q - 1].right@.len() as int);
    }
}

/// The LR(0) item pool is finite.
pub proof fn lemma_lr0_universe_finite(c: GrammarCore)
    requires
        c.rules.len() <= usize::MAX,
        forall|r: int| 0 <= r < c.rules.len() ==> (#[trigger] c.rules[r]).right@.len() <= usize::MAX,
    ensures
        lr0_universe(c).finite(),
{
    lemma_lr0_upto(c, c.rules.len() as int);
    assert(lr0_universe(c) =~= lr0_upto(c, c.rules.len() as int));
}

impl LRRule for LR0Rule {
    open spec fn erased(self) -> LR0Rule {
        self
    }

    open spec fn closure_ready(g: Grammar) -> bool {
        true
    }

    open spec fn spec_sym(self, g: Grammar) -> Option<char> {
        self.sym_spec(g)
    }

    open spec fn spec_next(self) -> LR0Rule {
        LR0Rule { rule: self.rule, place: (self.place + 1) as usize }
    }

    open spec fn spec_closure_of(self, g: Grammar) -> Set<LR0Rule> {
        self.closure_spec(g)
    }

    open spec fn spec_default() -> LR0Rule {
        LR0Rule { rule: 0, place: 0 }
    }

    open spec fn universe(g: Grammar) -> Set<LR0Rule> {
        lr0_universe(g.gcore())
    }

    proof fn lemma_universe_finite(g: Grammar) {
        broadcast use vstd::std_specs::vec::axiom_spec_len;

        assert forall|r: int| 0 <= r < g.gcore().rules.len() implies (
        #[trigger] g.gcore().rules[r]).right@.len() <= usize::MAX by {
            vstd::std_specs::vec::axiom_spec_len(&g.rules@[r].right);
        }
        vstd::std_specs::vec::axiom_spec_len(&g.rules);
        lemma_lr0_universe_finite(g.gcore());
    }

    proof fn lemma_closure_of_in_universe(self, g: Grammar) {
        broadcast use vstd::std_specs::vec::axiom_spec_len;

        assert forall|it: LR0Rule| self.spec_closure_of(g).contains(it)
            implies lr0_universe(g.gcore()).contains(it) by {
            assert(it.place == 0);
        }
    }

    proof fn lemma_sym_next_ok(self, g: Grammar) {
        vstd::std_specs::vec::axiom_spec_len(&g.rules@[self.rule as int].right);
    }

    proof fn lemma_next_in_universe(self, g: Grammar) {
    }

    proof fn lemma_default_in_universe(g: Grammar) {
    }

    fn default(g: &Grammar) -> (r: LR0Rule) {
        LR0Rule { rule: 0, place: 0 }
    }

    fn eq_item(&self, o: &Self) -> (r: bool) {
        self.rule == o.rule && self.place == o.place
    }

    fn get_sym(&self, gramm: &Grammar) -> (r: Option<char>) {
        if self.rule < gramm.rules.len() {
            let rr = &gramm.rules[self.rule];
            if self.place < rr.right.len() {
                Some(char_at(&rr.right, self.place))
            } else {
                None
            }
        } else {
            None
        }
    }

    fn next_rule(&self) -> (r: LR0Rule) {
        LR0Rule { rule: self.rule, place: self.place + 1 }
    }

    fn create_closure(&self, gramm: &Grammar) -> (res: Vec<LR0Rule>) {
        let mut res: Vec<LR0Rule> = Vec::new();
        let sym = self.get_sym(gramm);
        if let Some(x) = sym {
            if gramm.is_non_term(&x) {
                let rs = gramm.rule_for_sym(x);
                let mut i: usize = 0;
                while i < rs.len()
                    invariant
                        0 <= i <= rs@.len(),
                        res@.len() == i,
                        forall|k: int|
                            0 <= k < i ==> #[trigger] res@[k] == (LR0Rule {
                                rule: rs@[k],
                                place: 0,
                            }),
                        forall|k1: int, k2: int| 0 <= k1 < k2 < rs@.len() ==> rs@[k1] < rs@[k2],
                        forall|k: int|
                            0 <= k < rs@.len() ==> 0 <= #[trigger] rs@[k] < gramm.rules@.len()
                                && gramm.rules@[rs@[k] as int].left == x,
                        forall|r: int|
                            0 <= r < gramm.rules@.len() && gramm.rules@[r].left == x
                                ==> rs@.contains(r as usize),
                    decreases rs@.len() - i,
                {
                    let q = crate::sets::vec_at(&rs, i);
                    res.push(LR0Rule { rule: q, place: 0 });
                    i += 1;
                }
                proof {
                    assert forall|k1: int, k2: int|
                        0 <= k1 < res@.len() && 0 <= k2 < res@.len() && k1 != k2 implies res@[k1]
                        != res@[k2] by {
                        if k1 < k2 {
                            assert(rs@[k1] < rs@[k2]);
                        } else {
                            assert(rs@[k2] < rs@[k1]);
                        }
                    }
                    assert forall|it: LR0Rule| #[trigger] res@.to_set().contains(it) implies
                        self.closure_spec(*gramm).contains(it) by {
                        let k = choose|k: int| 0 <= k < res@.len() && res@[k] == it;
                        assert(it == (LR0Rule { rule: rs@[k], place: 0 }));
                    }
                    assert forall|it: LR0Rule| self.closure_spec(*gramm).contains(it) implies
                        #[trigger] res@.to_set().contains(it) by {
                        assert(rs@.contains(it.rule));
                        let k = choose|k: int| 0 <= k < rs@.len() && rs@[k] == it.rule;
                        assert(res@[k] == it);
                        assert(res@.contains(it));
                    }
                    assert(res@.to_set() =~= self.closure_spec(*gramm));
                }
                return res;
            }
        }
        proof {
            crate::sets::lemma_empty_to_set(res@);
        }
        res
    }
}

} // verus!
