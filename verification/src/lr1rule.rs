//! LR(1) items: a dotted production together with a lookahead symbol.

use vstd::prelude::*;

use crate::grammar::first_from_tbl;
use crate::grammar::first_tbl;
use crate::grammar::Grammar;
use crate::grammar::Sym;
use crate::lr0rule::lr0_universe;
use crate::lr0rule::lemma_lr0_universe_finite;
use crate::lr0rule::LR0Rule;
use crate::rule::LRRule;
use crate::sets::char_at;
use crate::sets::lemma_pairs_of;
use crate::sets::pairs_of;

verus! {

/// A dotted production plus the lookahead under which its reduction will be
/// keyed: a terminal, or `Eps` for the end-marker.
#[derive(Debug, PartialEq, Eq, Structural, Hash, Clone, Copy)]
pub struct LR1Rule {
    pub lr0: LR0Rule,
    pub follow: Sym,
}

/// Reads one symbol out of a vector; hands back a well-typed value.
pub fn sym_at(v: &Vec<Sym>, i: usize) -> (s: Sym)
    requires
        i < v@.len(),
    ensures
        s == v@[i as int],
{
    v[i]
}

/// Membership test on an item vector.
fn contains_lr1(v: &Vec<LR1Rule>, it: LR1Rule) -> (r: bool)
    ensures
        r == v@.contains(it),
{
    let mut i: usize = 0;
    while i < v.len()
        invariant
            0 <= i <= v@.len(),
            forall|k: int| 0 <= k < i ==> v@[k] != it,
        decreases v@.len() - i,
    {
        if v[i] == it {
            return true;
        }
        i += 1;
    }
    false
}

impl LR1Rule {
    pub fn new(rule: usize, place: usize, follow: Sym) -> (r: Self)
        ensures
            r.lr0.rule == rule,
            r.lr0.place == place,
            r.follow == follow,
    {
        Self { lr0: LR0Rule { rule, place }, follow }
    }

    /// The production this item belongs to.
    pub fn rule(&self) -> (r: usize)
        ensures
            r == self.lr0.rule,
    {
        self.lr0.rule
    }

    /// What may follow the dot: the right-hand side past the dot symbol.
    pub fn get_rest(&self, gramm: &Grammar) -> (r: Option<Vec<char>>)
        ensures
            (r is Some) <==> (self.lr0.rule < gramm.rules@.len() && self.lr0.place
                < gramm.rules@[self.lr0.rule as int].right@.len()),
            (r is Some) ==> r->0@ == gramm.rules@[self.lr0.rule as int].right@.skip(
                self.lr0.place + 1,
            ),
    {
        if self.lr0.rule < gramm.rules.len() {
            let rr = &gramm.rules[self.lr0.rule];
            if self.lr0.place < rr.right.len() {
                let mut v: Vec<char> = Vec::new();
                let n = rr.right.len();
                let mut i: usize = self.lr0.place + 1;
                while i < n
                    invariant
                        self.lr0.rule < gramm.rules@.len(),
                        rr == gramm.rules@[self.lr0.rule as int],
                        n == rr.right@.len(),
                        self.lr0.place + 1 <= i <= n,
                        v@ =~= rr.right@.subrange(self.lr0.place + 1, i as int),
                    decreases n - i,
                {
                    v.push(char_at(&rr.right, i));
                    i += 1;
                }
                proof {
                    assert(v@ =~= gramm.rules@[self.lr0.rule as int].right@.skip(
                        self.lr0.place + 1,
                    ));
                }
                Some(v)
            } else {
                None
            }
        } else {
            None
        }
    }

    /// The lookaheads a closure-derived item will carry: FIRST of what
    /// follows the dot symbol, continued by this item's own lookahead.
    pub open spec fn new_follow_spec(self, g: Grammar) -> Set<Sym> {
        if self.lr0.rule < g.rules@.len() && self.lr0.place < g.rules@[
            self.lr0.rule as int
        ].right@.len() {
            let rest = g.rules@[self.lr0.rule as int].right@.skip(self.lr0.place + 1);
            match self.follow {
                Sym::Normal(x) => first_from_tbl(g.gcore(), first_tbl(g), rest.push(x)),
                Sym::Eps => first_from_tbl(g.gcore(), first_tbl(g), rest),
            }
        } else {
            Set::empty().insert(self.follow)
        }
    }

    pub fn get_new_follow(&self, gramm: &Grammar) -> (res: Vec<Sym>)
        requires
            gramm.first@.len() == gramm.rules@.len(),
        ensures
            res@.no_duplicates(),
            res@.to_set() == self.new_follow_spec(*gramm),
    {
        match self.get_rest(gramm) {
            Some(rest) => {
                match self.follow {
                    Sym::Normal(x) => {
                        let mut v = rest;
                        v.push(x);
                        let r = gramm.first_from(&v, 0);
                        proof {
                            assert(v@.skip(0) =~= v@);
                        }
                        r
                    },
                    Sym::Eps => {
                        let r = gramm.first_from(&rest, 0);
                        proof {
                            assert(rest@.skip(0) =~= rest@);
                        }
                        r
                    },
                }
            },
            None => {
                let mut v: Vec<Sym> = Vec::new();
                v.push(self.follow);
                proof {
                    crate::sets::lemma_singleton_to_set(v@, self.follow);
                }
                v
            },
        }
    }

    /// The items closure derives from this one: every production of the
    /// nonterminal right of the dot, with the dot at the start, under each of
    /// the computed lookaheads.
    pub open spec fn closure_spec(self, g: Grammar) -> Set<LR1Rule> {
        match self.lr0.sym_spec(g) {
            Some(x) => if g.non_terms@.contains(x) {
                Set::new(
                    |it: LR1Rule|
                        it.lr0.place == 0 && it.lr0.rule < g.rules@.len() && g.rules@[
                            it.lr0.rule as int
                        ].left == x && self.new_follow_spec(g).contains(it.follow),
                )
            } else {
                Set::empty()
            },
            None => Set::empty(),
        }
    }
}

/// Every dotted position of every production, under every terminal or
/// end-marker lookahead: the pool that LR(1) item-set construction draws
/// from.
pub open spec fn lr1_universe(g: Grammar) -> Set<LR1Rule> {
    Set::new(
        |it: LR1Rule|
            lr0_universe(g.gcore()).contains(it.lr0) && g.gcore().sym_universe().contains(
                it.follow,
            ),
    )
}

impl LRRule for LR1Rule {
    open spec fn erased(self) -> LR0Rule {
        self.lr0
    }

    open spec fn closure_ready(g: Grammar) -> bool {
        g.wf() && g.first_ok()
    }

    open spec fn spec_sym(self, g: Grammar) -> Option<char> {
        self.lr0.sym_spec(g)
    }

    open spec fn spec_next(self) -> LR1Rule {
        LR1Rule {
            lr0: LR0Rule { rule: self.lr0.rule, place: (self.lr0.place + 1) as usize },
            follow: self.follow,
        }
    }

    open spec fn spec_closure_of(self, g: Grammar) -> Set<LR1Rule> {
        self.closure_spec(g)
    }

    open spec fn spec_default() -> LR1Rule {
        LR1Rule { lr0: LR0Rule { rule: 0, place: 0 }, follow: Sym::Eps }
    }

    open spec fn universe(g: Grammar) -> Set<LR1Rule> {
        lr1_universe(g)
    }

    proof fn lemma_universe_finite(g: Grammar) {
        broadcast use vstd::std_specs::vec::axiom_spec_len;

        assert forall|r: int| 0 <= r < g.gcore().rules.len() implies (
        #[trigger] g.gcore().rules[r]).right@.len() <= usize::MAX by {
            vstd::std_specs::vec::axiom_spec_len(&g.rules@[r].right);
        }
        vstd::std_specs::vec::axiom_spec_len(&g.rules);
        lemma_lr0_universe_finite(g.gcore());
        crate::grammar::lemma_sym_universe_finite(g.gcore());
        lemma_pairs_of(lr0_universe(g.gcore()), g.gcore().sym_universe());
        let pr = pairs_of(lr0_universe(g.gcore()), g.gcore().sym_universe());
        let f = |p: (LR0Rule, Sym)| LR1Rule { lr0: p.0, follow: p.1 };
        pr.lemma_map_finite(f);
        assert forall|it: LR1Rule| #[trigger] lr1_universe(g).contains(it) implies pr.map(
            f,
        ).contains(it) by {
            let p = (it.lr0, it.follow);
            assert(pr.contains(p));
            assert(f(p) == it);
        }
        assert forall|it: LR1Rule| #[trigger] pr.map(f).contains(it) implies lr1_universe(
            g,
        ).contains(it) by {
            let p = choose|p: (LR0Rule, Sym)| pr.contains(p) && it == f(p);
        }
        assert(lr1_universe(g) =~= pr.map(f));
    }

    proof fn lemma_closure_of_in_universe(self, g: Grammar) {
        broadcast use vstd::std_specs::vec::axiom_spec_len;

        assert forall|it: LR1Rule| self.spec_closure_of(g).contains(it) implies lr1_universe(
            g,
        ).contains(it) by {
            assert(it.lr0.place == 0);
            vstd::std_specs::vec::axiom_spec_len(&g.rules@[it.lr0.rule as int].right);
            if self.lr0.rule < g.rules@.len() && self.lr0.place < g.rules@[
                self.lr0.rule as int
            ].right@.len() {
                let rest = g.rules@[self.lr0.rule as int].right@.skip(self.lr0.place + 1);
                crate::grammar::lemma_first_from_bounded(
                    g.gcore(),
                    first_tbl(g),
                    match self.follow {
                        Sym::Normal(x) => rest.push(x),
                        Sym::Eps => rest,
                    },
                );
            }
        }
    }

    proof fn lemma_sym_next_ok(self, g: Grammar) {
        vstd::std_specs::vec::axiom_spec_len(&g.rules@[self.lr0.rule as int].right);
    }

    proof fn lemma_next_in_universe(self, g: Grammar) {
    }

    proof fn lemma_default_in_universe(g: Grammar) {
    }

    fn default(g: &Grammar) -> (r: LR1Rule) {
        LR1Rule { lr0: LR0Rule { rule: 0, place: 0 }, follow: Sym::Eps }
    }

    fn eq_item(&self, o: &Self) -> (r: bool) {
        self.lr0.rule == o.lr0.rule && self.lr0.place == o.lr0.place && self.follow == o.follow
    }

    fn get_sym(&self, gramm: &Grammar) -> (r: Option<char>) {
        if self.lr0.rule < gramm.rules.len() {
            let rr = &gramm.rules[self.lr0.rule];
            if self.lr0.place < rr.right.len() {
                Some(char_at(&rr.right, self.lr0.place))
            } else {
                None
            }
        } else {
            None
        }
    }

    fn next_rule(&self) -> (r: LR1Rule) {
        LR1Rule {
            lr0: LR0Rule { rule: self.lr0.rule, place: self.lr0.place + 1 },
            follow: self.follow,
        }
    }

    fn create_closure(&self, gramm: &Grammar) -> (res: Vec<LR1Rule>) {
        let mut res: Vec<LR1Rule> = Vec::new();
        let sym = self.get_sym(gramm);
        if let Some(x) = sym {
            if gramm.is_non_term(&x) {
                let nf = self.get_new_follow(gramm);
                let rs = gramm.rule_for_sym(x);
                let mut i: usize = 0;
                while i < rs.len()
                    invariant
                        0 <= i <= rs@.len(),
                        res@.no_duplicates(),
                        forall|k1: int, k2: int| 0 <= k1 < k2 < rs@.len() ==> rs@[k1] < rs@[k2],
                        forall|k: int|
                            0 <= k < rs@.len() ==> 0 <= #[trigger] rs@[k] < gramm.rules@.len()
                                && gramm.rules@[rs@[k] as int].left == x,
                        forall|r: int|
                            0 <= r < gramm.rules@.len() && gramm.rules@[r].left == x
                                ==> rs@.contains(r as usize),
                        nf@.to_set() == self.new_follow_spec(*gramm),
                        forall|m: int|
                            0 <= m < res@.len() ==> (#[trigger] res@[m]).lr0.place == 0
                                && rs@.contains(res@[m].lr0.rule) && nf@.contains(res@[m].follow),
                        forall|a: int, b: int|
                            #![trigger rs@[a], nf@[b]]
                            0 <= a < i && 0 <= b < nf@.len() ==> (exists|m: int|
                                0 <= m < res@.len() && (#[trigger] res@[m]).lr0.rule == rs@[a] && (
                                res@[m]).lr0.place == 0 && (res@[m]).follow == nf@[b]),
                    decreases rs@.len() - i,
                {
                    let q = crate::sets::vec_at(&rs, i);
                    let ghost pre = res@;
                    push_row(&mut res, q, &nf);
                    proof {
                        assert forall|a: int, b: int| #![trigger rs@[a], nf@[b]]
                            0 <= a < i + 1 && 0 <= b < nf@.len() implies (exists|m: int|
                            0 <= m < res@.len() && (#[trigger] res@[m]).lr0.rule == rs@[a] && (
                            res@[m]).lr0.place == 0 && (res@[m]).follow == nf@[b]) by {
                            if a < i {
                                let m = choose|m: int|
                                    0 <= m < pre.len() && (#[trigger] pre[m]).lr0.rule == rs@[a]
                                        && (pre[m]).lr0.place == 0 && (pre[m]).follow == nf@[b];
                                assert(res@[m] == pre[m]);
                            } else {
                                let m = choose|m: int|
                                    0 <= m < res@.len() && (#[trigger] res@[m]).lr0.rule == q && (
                                    res@[m]).lr0.place == 0 && (res@[m]).follow == nf@[b];
                            }
                        }
                        assert forall|m: int| 0 <= m < res@.len() implies (
                        #[trigger] res@[m]).lr0.place == 0 && rs@.contains(res@[m].lr0.rule)
                            && nf@.contains(res@[m].follow) by {
                            if !pre.contains(res@[m]) {
                                assert(rs@.contains(q));
                            } else {
                                let m0 = choose|m0: int|
                                    0 <= m0 < pre.len() && pre[m0] == res@[m];
                            }
                        }
                    }
                    i += 1;
                }
                proof {
                    assert forall|it: LR1Rule| #[trigger] res@.to_set().contains(it) implies
                        self.closure_spec(*gramm).contains(it) by {
                        let m = choose|m: int| 0 <= m < res@.len() && res@[m] == it;
                        let k = choose|k: int| 0 <= k < rs@.len() && rs@[k] == it.lr0.rule;
                        let bb = choose|bb: int| 0 <= bb < nf@.len() && nf@[bb] == it.follow;
                        assert(nf@.to_set().contains(it.follow));
                    }
                    assert forall|it: LR1Rule| self.closure_spec(*gramm).contains(it) implies
                        #[trigger] res@.to_set().contains(it) by {
                        assert(rs@.contains(it.lr0.rule));
                        let a = choose|a: int| 0 <= a < rs@.len() && rs@[a] == it.lr0.rule;
                        assert(nf@.to_set().contains(it.follow));
                        let bb = choose|bb: int| 0 <= bb < nf@.len() && nf@[bb] == it.follow;
                        let m = choose|m: int|
                            0 <= m < res@.len() && (#[trigger] res@[m]).lr0.rule == rs@[a] && (
                            res@[m]).lr0.place == 0 && (res@[m]).follow == nf@[bb];
                        assert(res@[m] == it);
                        assert(res@.contains(it));
                    }
                    assert(res@.to_set() =~= self.closure_spec(*gramm));
                }
                return res;
            }
        }
        proof {
            crate::sets::lemma_empty_to_set(res@);
        }
        res
    }
}

/// Appends to `res` the items of production `q` with the dot at the start,
/// one for each lookahead of `nf`, skipping those already present.
fn push_row(res: &mut Vec<LR1Rule>, q: usize, nf: &Vec<Sym>)
    requires
        old(res)@.no_duplicates(),
    ensures
        final(res)@.no_duplicates(),
        final(res)@.len() >= old(res)@.len(),
        forall|m: int| 0 <= m < old(res)@.len() ==> final(res)@[m] == old(res)@[m],
        forall|m: int|
            0 <= m < final(res)@.len() ==> (old(res)@.contains(#[trigger] final(res)@[m]) || (
            final(res)@[m].lr0.rule == q && final(res)@[m].lr0.place == 0 && nf@.contains(
                final(res)@[m].follow,
            ))),
        forall|b: int|
            #![trigger nf@[b]]
            0 <= b < nf@.len() ==> (exists|m: int|
                0 <= m < final(res)@.len() && (#[trigger] final(res)@[m]).lr0.rule == q && (
                final(res)@[m]).lr0.place == 0 && (final(res)@[m]).follow == nf@[b]),
{
    let mut b: usize = 0;
    while b < nf.len()
        invariant
            0 <= b <= nf@.len(),
            res@.no_duplicates(),
            res@.len() >= old(res)@.len(),
            forall|m: int| 0 <= m < old(res)@.len() ==> res@[m] == old(res)@[m],
            forall|m: int|
                0 <= m < res@.len() ==> (old(res)@.contains(#[trigger] res@[m]) || (
                res@[m].lr0.rule == q && res@[m].lr0.place == 0 && nf@.contains(res@[m].follow))),
            forall|b2: int|
                #![trigger nf@[b2]]
                0 <= b2 < b ==> (exists|m: int|
                    0 <= m < res@.len() && (#[trigger] res@[m]).lr0.rule == q && (
                    res@[m]).lr0.place == 0 && (res@[m]).follow == nf@[b2]),
        decreases nf@.len() - b,
    {
        let la = sym_at(nf, b);
        let it = LR1Rule { lr0: LR0Rule { rule: q, place: 0 }, follow: la };
        let ghost pre = res@;
        if !contains_lr1(res, it) {
            res.push(it);
            proof {
                crate::sets::lemma_push_distinct(pre, it);
            }
        }
        proof {
            assert(forall|m: int| 0 <= m < pre.len() ==> res@[m] == pre[m]);
            assert(res@.contains(it)) by {
                if pre.contains(it) {
                    let m0 = choose|m0: int| 0 <= m0 < pre.len() && pre[m0] == it;
                    assert(res@[m0] == it);
                } else {
                    assert(res@[res@.len() - 1] == it);
                }
            }
            assert(nf@.contains(la));
            let mit = choose|m: int| 0 <= m < res@.len() && res@[m] == it;
            assert forall|b2: int| #![trigger nf@[b2]]
                0 <= b2 < b + 1 implies (exists|m: int|
                0 <= m < res@.len() && (#[trigger] res@[m]).lr0.rule == q && (
                res@[m]).lr0.place == 0 && (res@[m]).follow == nf@[b2]) by {
                if b2 < b {
                    let m = choose|m: int|
                        0 <= m < pre.len() && (#[trigger] pre[m]).lr0.rule == q && (
                        pre[m]).lr0.place == 0 && (pre[m]).follow == nf@[b2];
                    assert(res@[m] == pre[m]);
                } else {
                    assert(res@[mit].follow == nf@[b2]);
                }
            }
        }
        b += 1;
    }
}

} // verus!
