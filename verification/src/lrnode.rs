//! States of the LR item-set graph: a kernel of items plus its closure,
//! with the closure computed as a least fixpoint of the item-closure step.

use vstd::prelude::*;

use crate::grammar::Grammar;
use crate::lr0rule::left_char;
use crate::rule::LRRule;
use crate::sets::lemma_distinct_seq_bounded;
use crate::sets::lemma_push_distinct;
use crate::sets::vec_at;

verus! {

/// Derivability of an item from a kernel in at most `n` closure steps.
pub open spec fn closure_n<R: LRRule>(g: Grammar, base: Set<R>, x: R, n: nat) -> bool
    decreases n,
{
    base.contains(x) || (n > 0 && (exists|y: R| #[trigger]
        y.spec_closure_of(g).contains(x) && closure_n(g, base, y, (n - 1) as nat)))
}

pub open spec fn in_closure<R: LRRule>(g: Grammar, base: Set<R>, x: R) -> bool {
    exists|n: nat| closure_n(g, base, x, n)
}

/// The closure of a kernel: everything derivable from it by repeatedly
/// expanding the nonterminals right of the dots.
pub open spec fn closure_set<R: LRRule>(g: Grammar, base: Set<R>) -> Set<R> {
    Set::new(|x: R| in_closure(g, base, x))
}

/// A kernel lies within its closure.
pub proof fn lemma_closure_base<R: LRRule>(g: Grammar, base: Set<R>)
    ensures
        base.subset_of(closure_set(g, base)),
{
    assert forall|x: R| base.contains(x) implies closure_set(g, base).contains(x) by {
        assert(closure_n(g, base, x, 0));
    }
}

/// The closure is closed under one more closure step.
pub proof fn lemma_closure_step<R: LRRule>(g: Grammar, base: Set<R>, y: R, x: R)
    requires
        closure_set(g, base).contains(y),
        y.spec_closure_of(g).contains(x),
    ensures
        closure_set(g, base).contains(x),
{
    let n = choose|n: nat| closure_n(g, base, y, n);
    assert(closure_n(g, base, x, n + 1));
}

/// The closure is the least set that holds the kernel and is closed under
/// the closure step.
pub proof fn lemma_closure_minimal<R: LRRule>(g: Grammar, base: Set<R>, s: Set<R>)
    requires
        base.subset_of(s),
        forall|y: R| s.contains(y) ==> (#[trigger] y.spec_closure_of(g)).subset_of(s),
    ensures
        closure_set(g, base).subset_of(s),
{
    assert forall|x: R| closure_set(g, base).contains(x) implies s.contains(x) by {
        let n = choose|n: nat| closure_n(g, base, x, n);
        lemma_closure_n_minimal(g, base, s, x, n);
    }
}

proof fn lemma_closure_n_minimal<R: LRRule>(g: Grammar, base: Set<R>, s: Set<R>, x: R, n: nat)
    requires
        base.subset_of(s),
        forall|y: R| s.contains(y) ==> (#[trigger] y.spec_closure_of(g)).subset_of(s),
        closure_n(g, base, x, n),
    ensures
        s.contains(x),
    decreases n,
{
    if base.contains(x) {
    } else {
        let y = choose|y: R| #[trigger]
            y.spec_closure_of(g).contains(x) && closure_n(g, base, y, (n - 1) as nat);
        lemma_closure_n_minimal(g, base, s, y, (n - 1) as nat);
    }
}

/// Closure is idempotent: closing an already-closed item set changes
/// nothing.
pub proof fn lemma_closure_idempotent<R: LRRule>(g: Grammar, base: Set<R>)
    ensures
        closure_set(g, closure_set(g, base)) == closure_set(g, base),
{
    lemma_closure_base(g, closure_set(g, base));
    assert forall|y: R| closure_set(g, base).contains(y) implies (#[trigger] y.spec_closure_of(
        g,
    )).subset_of(closure_set(g, base)) by {
        assert forall|x: R| y.spec_closure_of(g).contains(x) implies closure_set(
            g,
            base,
        ).contains(x) by {
            lemma_closure_step(g, base, y, x);
        }
    }
    lemma_closure_minimal(g, closure_set(g, base), closure_set(g, base));
    assert(closure_set(g, closure_set(g, base)) =~= closure_set(g, base));
}

/// The items of `items` with `x` right of the dot, advanced one place: the
/// kernel of the state the graph steps to on `x`.
pub open spec fn adv_set<R: LRRule>(g: Grammar, items: Set<R>, x: char) -> Set<R> {
    Set::new(
        |it: R|
            exists|y: R|
                items.contains(y) && #[trigger] y.spec_sym(g) == Some(x) && it == y.spec_next(),
    )
}

/// The goto kernel of an item set: its closure advanced past `x`.
pub open spec fn goto_kernel<R: LRRule>(g: Grammar, items: Set<R>, x: char) -> Set<R> {
    adv_set(g, closure_set(g, items), x)
}

/// Goto commutes with closure at the state level: taking the goto of a
/// kernel's closure leads to the same state as taking the goto of the kernel
/// itself, because closing a closure adds nothing.
pub proof fn lemma_goto_closure_commutes<R: LRRule>(g: Grammar, kernel: Set<R>, x: char)
    ensures
        closure_set(g, goto_kernel(g, closure_set(g, kernel), x)) == closure_set(
            g,
            goto_kernel(g, kernel, x),
        ),
{
    lemma_closure_idempotent(g, kernel);
}

/// Membership test on an item vector.
pub fn contains_item<R: LRRule>(v: &Vec<R>, x: &R) -> (r: bool)
    ensures
        r == v@.contains(*x),
{
    let mut i: usize = 0;
    while i < v.len()
        invariant
            0 <= i <= v@.len(),
            forall|k: int| 0 <= k < i ==> v@[k] != *x,
        decreases v@.len() - i,
    {
        if v[i].eq_item(x) {
            return true;
        }
        i += 1;
    }
    false
}

/// A state of the item-set graph: the symbol on its incoming edge (kept for
/// display and for the driver's stack check), the kernel items that seeded
/// it, and the items derived from them by closure.
#[derive(Debug)]
pub struct LRNodeStruct<R: LRRule> {
    pub from: char,
    pub base: Vec<R>,
    pub closure: Vec<R>,
}

impl<R: LRRule> LRNodeStruct<R> {
    /// The kernel of the state.
    pub open spec fn kernel(self) -> Set<R> {
        self.base@.to_set()
    }

    /// All items of the state.
    pub open spec fn items(self) -> Set<R> {
        self.base@.to_set().union(self.closure@.to_set())
    }

    /// The vectors hold sets: duplicate-free and mutually disjoint.
    pub open spec fn wf(self) -> bool {
        &&& self.base@.no_duplicates()
        &&& self.closure@.no_duplicates()
        &&& (forall|k: int|
            0 <= k < self.closure@.len() ==> !self.base@.contains(#[trigger] self.closure@[k]))
    }

    /// The state holds exactly the closure of its kernel.
    pub open spec fn closed(self, g: Grammar) -> bool {
        self.items() == closure_set(g, self.kernel())
    }

    pub fn new(base: Vec<R>, from: char) -> (r: Self)
        ensures
            r.from == from,
            r.base == base,
            r.closure@.len() == 0,
    {
        Self { from, base, closure: Vec::new() }
    }

    /// The start state's seed: the augmented start item, reached from the
    /// start nonterminal.
    pub fn default(g: &Grammar) -> (r: Self)
        requires
            g.rules@.len() > 0,
        ensures
            r.kernel() == Set::empty().insert(R::spec_default()),
            r.base@.len() == 1,
            r.base@[0] == R::spec_default(),
            r.closure@.len() == 0,
            r.base@.no_duplicates(),
            r.from == left_char(g.gcore(), 0),
    {
        let mut base: Vec<R> = Vec::new();
        base.push(R::default(g));
        proof {
            crate::sets::lemma_singleton_to_set(base@, R::spec_default());
        }
        Self { from: crate::lr0rule::left_at(g, 0), base, closure: Vec::new() }
    }

    /// All items of the state, kernel first.
    pub fn all_rules(&self) -> (r: Vec<R>)
        ensures
            r@ == self.base@ + self.closure@,
            r@.to_set() == self.items(),
            self.wf() ==> r@.no_duplicates(),
    {
        let mut r: Vec<R> = Vec::new();
        let mut i: usize = 0;
        while i < self.base.len()
            invariant
                0 <= i <= self.base@.len(),
                r@ =~= self.base@.subrange(0, i as int),
            decreases self.base@.len() - i,
        {
            r.push(vec_at(&self.base, i));
            i += 1;
        }
        let mut j: usize = 0;
        while j < self.closure.len()
            invariant
                0 <= j <= self.closure@.len(),
                r@ =~= self.base@ + self.closure@.subrange(0, j as int),
            decreases self.closure@.len() - j,
        {
            r.push(vec_at(&self.closure, j));
            j += 1;
        }
        proof {
            assert(r@ =~= self.base@ + self.closure@);
            assert forall|x: R| #[trigger] r@.to_set().contains(x) implies self.items().contains(
                x,
            ) by {
                let k = choose|k: int| 0 <= k < r@.len() && r@[k] == x;
                if k < self.base@.len() {
                    assert(self.base@[k] == x);
                } else {
                    assert(self.closure@[k - self.base@.len()] == x);
                }
            }
            assert forall|x: R| self.items().contains(x) implies #[trigger] r@.to_set().contains(
                x,
            ) by {
                if self.base@.to_set().contains(x) {
                    let k = choose|k: int| 0 <= k < self.base@.len() && self.base@[k] == x;
                    assert(r@[k] == x);
                } else {
                    let k = choose|k: int| 0 <= k < self.closure@.len() && self.closure@[k] == x;
                    assert(r@[self.base@.len() + k] == x);
                }
            }
            assert(r@.to_set() =~= self.items());
            if self.wf() {
                assert forall|k1: int, k2: int|
                    0 <= k1 < r@.len() && 0 <= k2 < r@.len() && k1 != k2 implies r@[k1]
                    != r@[k2] by {
                    if k1 < self.base@.len() && k2 >= self.base@.len() {
                        if r@[k1] == r@[k2] {
                            assert(self.base@.contains(self.closure@[k2 - self.base@.len()]));
                        }
                    } else if k2 < self.base@.len() && k1 >= self.base@.len() {
                        if r@[k1] == r@[k2] {
                            assert(self.base@.contains(self.closure@[k1 - self.base@.len()]));
                        }
                    }
                }
            }
        }
        r
    }

    /// Fills in the closure: after the call the state holds exactly the
    /// closure of its kernel.
    pub fn create_closure(&mut self, g: &Grammar)
        requires
            R::closure_ready(*g),
            old(self).base@.no_duplicates(),
        ensures
            final(self).base == old(self).base,
            final(self).from == old(self).from,
            final(self).wf(),
            final(self).closed(*g),
    {
        let ghost k = self.base@.to_set();
        let mut work: Vec<R> = Vec::new();
        let mut i: usize = 0;
        while i < self.base.len()
            invariant
                0 <= i <= self.base@.len(),
                work@ =~= self.base@.subrange(0, i as int),
            decreases self.base@.len() - i,
        {
            work.push(vec_at(&self.base, i));
            i += 1;
        }
        proof {
            assert(work@ =~= self.base@);
            R::lemma_universe_finite(*g);
            lemma_closure_base(*g, k);
            assert forall|m: int| 0 <= m < work@.len() implies in_closure(
                *g,
                k,
                #[trigger] work@[m],
            ) by {
                assert(k.contains(work@[m]));
                assert(closure_n(*g, k, work@[m], 0));
            }
        }
        let ghost uni = R::universe(*g);
        let mut p: usize = 0;
        while p < work.len()
            invariant
                R::closure_ready(*g),
                0 <= p <= work@.len(),
                self.base@.no_duplicates(),
                work@.no_duplicates(),
                work@.len() >= self.base@.len(),
                work@.subrange(0, self.base@.len() as int) == self.base@,
                k == self.base@.to_set(),
                uni == R::universe(*g),
                uni.finite(),
                forall|m: int| 0 <= m < work@.len() ==> in_closure(*g, k, #[trigger] work@[m]),
                forall|m: int|
                    self.base@.len() <= m < work@.len() ==> uni.contains(#[trigger] work@[m]),
                forall|m: int|
                    0 <= m < p ==> (#[trigger] work@[m]).spec_closure_of(*g).subset_of(
                        work@.to_set(),
                    ),
                work@.len() <= self.base@.len() + uni.len(),
            decreases self.base@.len() + uni.len() - work@.len(), work@.len() - p,
        {
            let it = vec_at(&work, p);
            let ds = it.create_closure(g);
            proof {
                it.lemma_closure_of_in_universe(*g);
            }
            let ghost w0 = work@.len();
            let mut d: usize = 0;
            while d < ds.len()
                invariant
                    R::closure_ready(*g),
                    0 <= d <= ds@.len(),
                    work@.len() >= w0,
                    0 <= p < work@.len(),
                    it == work@[p as int],
                    ds@.to_set() == it.spec_closure_of(*g),
                    self.base@.no_duplicates(),
                    work@.no_duplicates(),
                    work@.len() >= self.base@.len(),
                    work@.subrange(0, self.base@.len() as int) == self.base@,
                    k == self.base@.to_set(),
                    uni == R::universe(*g),
                    uni.finite(),
                    it.spec_closure_of(*g).subset_of(uni),
                    forall|m: int| 0 <= m < work@.len() ==> in_closure(*g, k, #[trigger] work@[m]),
                    forall|m: int|
                        self.base@.len() <= m < work@.len() ==> uni.contains(#[trigger] work@[m]),
                    forall|m: int|
                        0 <= m < p ==> (#[trigger] work@[m]).spec_closure_of(*g).subset_of(
                            work@.to_set(),
                        ),
                    forall|e: int| 0 <= e < d ==> work@.to_set().contains(#[trigger] ds@[e]),
                    work@.len() <= self.base@.len() + uni.len(),
                decreases ds@.len() - d,
            {
                let x = vec_at(&ds, d);
                let ghost pre = work@;
                if !contains_item(&work, &x) {
                    work.push(x);
                    proof {
                        lemma_push_distinct(pre, x);
                        assert(work@.subrange(0, self.base@.len() as int) =~= pre.subrange(
                            0,
                            self.base@.len() as int,
                        ));
                        assert(ds@.to_set().contains(x));
                        assert(uni.contains(x));
                        assert(in_closure(*g, k, it));
                        lemma_closure_step(*g, k, it, x);
                        assert(in_closure(*g, k, x));
                        // the fresh tail of the worklist stays within the
                        // finite universe, bounding its length
                        assert forall|m: int|
                            self.base@.len() <= m < work@.len() implies uni.contains(
                            #[trigger] work@[m],
                        ) by {
                            if m < pre.len() {
                                assert(pre[m] == work@[m]);
                            }
                        }
                        let tail = work@.subrange(self.base@.len() as int, work@.len() as int);
                        assert(tail.no_duplicates()) by {
                            assert forall|a: int, b: int|
                                0 <= a < tail.len() && 0 <= b < tail.len() && a != b implies
                                tail[a] != tail[b] by {
                                assert(tail[a] == work@[self.base@.len() + a]);
                                assert(tail[b] == work@[self.base@.len() + b]);
                            }
                        }
                        assert forall|m: int| 0 <= m < tail.len() implies uni.contains(
                            #[trigger] tail[m],
                        ) by {
                            assert(tail[m] == work@[self.base@.len() + m]);
                        }
                        lemma_distinct_seq_bounded(tail, uni);
                    }
                } else {
                    proof {
                        assert(work@.to_set().contains(x));
                    }
                }
                d += 1;
            }
            proof {
                assert forall|m: int| 0 <= m < p + 1 implies (
                #[trigger] work@[m]).spec_closure_of(*g).subset_of(work@.to_set()) by {
                    if m == p {
                        assert forall|x: R| work@[p as int].spec_closure_of(*g).contains(x) implies
                            work@.to_set().contains(x) by {
                            assert(ds@.to_set().contains(x));
                            let e = choose|e: int| 0 <= e < ds@.len() && ds@[e] == x;
                        }
                    }
                }
            }
            p += 1;
        }
        // the worklist is now closed: split off the non-kernel part
        let mut cl: Vec<R> = Vec::new();
        let mut j: usize = self.base.len();
        while j < work.len()
            invariant
                self.base@.len() <= j <= work@.len(),
                cl@ =~= work@.subrange(self.base@.len() as int, j as int),
            decreases work@.len() - j,
        {
            cl.push(vec_at(&work, j));
            j += 1;
        }
        proof {
            assert(cl@ =~= work@.subrange(self.base@.len() as int, work@.len() as int));
        }
        self.closure = cl;
        proof {
            // duplicate-freedom and disjointness of the two parts
            assert forall|a: int, b: int|
                0 <= a < self.closure@.len() && 0 <= b < self.closure@.len() && a != b implies
                self.closure@[a] != self.closure@[b] by {
                assert(self.closure@[a] == work@[self.base@.len() + a]);
                assert(self.closure@[b] == work@[self.base@.len() + b]);
            }
            assert forall|c: int| 0 <= c < self.closure@.len() implies !self.base@.contains(
                #[trigger] self.closure@[c],
            ) by {
                if self.base@.contains(self.closure@[c]) {
                    let bm = choose|bm: int|
                        0 <= bm < self.base@.len() && self.base@[bm] == self.closure@[c];
                    assert(work@[bm] == self.base@[bm]);
                    assert(work@[self.base@.len() + c] == self.closure@[c]);
                }
            }
            // the state holds exactly the closure of its kernel
            assert forall|x: R| self.items().contains(x) implies closure_set(*g, k).contains(
                x,
            ) by {
                if self.base@.to_set().contains(x) {
                    assert(closure_set(*g, k).contains(x));
                } else {
                    let c = choose|c: int| 0 <= c < self.closure@.len() && self.closure@[c] == x;
                    assert(work@[self.base@.len() + c] == x);
                    assert(in_closure(*g, k, x));
                }
            }
            assert(work@.to_set().subset_of(self.items())) by {
                assert forall|x: R| #[trigger] work@.to_set().contains(x) implies
                    self.items().contains(x) by {
                    let m = choose|m: int| 0 <= m < work@.len() && work@[m] == x;
                    if m < self.base@.len() {
                        assert(self.base@[m] == x);
                    } else {
                        assert(self.closure@[m - self.base@.len()] == x);
                    }
                }
            }
            assert(k.subset_of(work@.to_set())) by {
                assert forall|x: R| k.contains(x) implies work@.to_set().contains(x) by {
                    let m = choose|m: int| 0 <= m < self.base@.len() && self.base@[m] == x;
                    assert(work@[m] == x);
                }
            }
            assert forall|y: R| work@.to_set().contains(y) implies (#[trigger] y.spec_closure_of(
                *g,
            )).subset_of(work@.to_set()) by {
                let m = choose|m: int| 0 <= m < work@.len() && work@[m] == y;
            }
            lemma_closure_minimal(*g, k, work@.to_set());
            assert(self.items() =~= closure_set(*g, k));
        }
    }

    /// For every symbol that appears right of a dot in this state, the items
    /// advanced past it: the kernels of the successor states, keyed by the
    /// symbol, in first-appearance order.
    pub fn get_steps(&self, g: &Grammar) -> (r: Vec<(char, Vec<R>)>)
        requires
            R::closure_ready(*g),
            self.wf(),
        ensures
            forall|k1: int, k2: int| 0 <= k1 < k2 < r@.len() ==> (r@[k1]).0 != (r@[k2]).0,
            forall|k: int|
                0 <= k < r@.len() ==> (#[trigger] r@[k]).1@.to_set() == adv_set(
                    *g,
                    self.items(),
                    r@[k].0,
                ) && r@[k].1@.no_duplicates() && r@[k].1@.len() > 0,
            forall|y: R|
                self.items().contains(y) && (#[trigger] y.spec_sym(*g)) is Some ==> (exists|k: int|
                    0 <= k < r@.len() && Some((#[trigger] r@[k]).0) == y.spec_sym(*g)),
    {
        let all = self.all_rules();
        // collect the distinct step symbols, in first-appearance order
        let mut keys: Vec<char> = Vec::new();
        let mut i: usize = 0;
        while i < all.len()
            invariant
                0 <= i <= all@.len(),
                R::closure_ready(*g),
                all@.to_set() == self.items(),
                keys@.no_duplicates(),
                keys@.to_set() == syms_upto(*g, all@, i as int),
            decreases all@.len() - i,
        {
            let it = vec_at(&all, i);
            let s = it.get_sym(g);
            if let Some(c) = s {
                let ghost pre = keys@;
                if !crate::sets::contains_char(&keys, c) {
                    keys.push(c);
                    proof {
                        lemma_push_distinct(pre, c);
                    }
                } else {
                    proof {
                        assert(keys@.to_set().contains(c));
                        assert(keys@.to_set() =~= syms_upto(*g, all@, i + 1));
                    }
                }
            }
            proof {
                assert(keys@.to_set() =~= syms_upto(*g, all@, i + 1));
            }
            i += 1;
        }
        proof {
            lemma_syms_upto(*g, all@, all@.len() as int);
        }
        // for each key, collect the advanced items
        let mut r: Vec<(char, Vec<R>)> = Vec::new();
        let mut kx: usize = 0;
        while kx < keys.len()
            invariant
                0 <= kx <= keys@.len(),
                R::closure_ready(*g),
                all@.to_set() == self.items(),
                all@.no_duplicates(),
                keys@.no_duplicates(),
                keys@.to_set() == syms_upto(*g, all@, all@.len() as int),
                r@.len() == kx,
                forall|k: int| 0 <= k < kx ==> (#[trigger] r@[k]).0 == keys@[k],
                forall|k: int|
                    0 <= k < kx ==> (#[trigger] r@[k]).1@.to_set() == adv_set(
                        *g,
                        self.items(),
                        keys@[k],
                    ) && r@[k].1@.no_duplicates() && r@[k].1@.len() > 0,
            decreases keys@.len() - kx,
        {
            let c = crate::sets::char_at(&keys, kx);
            let row = advance_all(&all, c, g);
            proof {
                lemma_syms_upto(*g, all@, all@.len() as int);
                assert(keys@.to_set().contains(c));
                assert(syms_upto(*g, all@, all@.len() as int).contains(c));
                let m = choose|m: int|
                    0 <= m < all@.len() && (#[trigger] all@[m]).spec_sym(*g) == Some(c);
                assert(all@.to_set().contains(all@[m]));
                assert(adv_set(*g, all@.to_set(), c).contains(all@[m].spec_next()));
                assert(row@.to_set().contains(all@[m].spec_next()));
                assert(row@.len() > 0) by {
                    if row@.len() == 0 {
                        crate::sets::lemma_empty_to_set(row@);
                    }
                }
            }
            r.push((c, row));
            kx += 1;
        }
        proof {
            lemma_syms_upto(*g, all@, all@.len() as int);
            assert forall|y: R|
                self.items().contains(y) && (#[trigger] y.spec_sym(*g)) is Some implies (exists|
                k: int,
            |
                0 <= k < r@.len() && Some((#[trigger] r@[k]).0) == y.spec_sym(*g)) by {
                assert(all@.to_set().contains(y));
                let m = choose|m: int| 0 <= m < all@.len() && all@[m] == y;
                let c = choose|c: char| y.spec_sym(*g) == Some(c);
                assert(all@[m].spec_sym(*g) == Some(c));
                assert(syms_upto(*g, all@, all@.len() as int).contains(c));
                assert(keys@.to_set().contains(c));
                let k = choose|k: int| 0 <= k < keys@.len() && keys@[k] == c;
                assert(Some((r@[k]).0) == y.spec_sym(*g));
            }
        }
        r
    }
}

/// The step symbols of the first `upto` items of a sequence.
pub open spec fn syms_upto<R: LRRule>(g: Grammar, s: Seq<R>, upto: int) -> Set<char>
    decreases upto,
{
    if upto <= 0 {
        Set::empty()
    } else {
        match s[upto - 1].spec_sym(g) {
            Some(c) => syms_upto(g, s, upto - 1).insert(c),
            None => syms_upto(g, s, upto - 1),
        }
    }
}

/// A character is a step symbol of a prefix exactly when some item of the
/// prefix has it right of the dot.
pub proof fn lemma_syms_upto<R: LRRule>(g: Grammar, s: Seq<R>, upto: int)
    requires
        upto <= s.len(),
    ensures
        forall|c: char|
            syms_upto(g, s, upto).contains(c) <==> (exists|m: int|
                0 <= m < upto && (#[trigger] s[m]).spec_sym(g) == Some(c)),
    decreases upto,
{
    if upto <= 0 {
    } else {
        lemma_syms_upto(g, s, upto - 1);
        assert forall|c: char| syms_upto(g, s, upto).contains(c) implies (exists|m: int|
            0 <= m < upto && (#[trigger] s[m]).spec_sym(g) == Some(c)) by {
            if syms_upto(g, s, upto - 1).contains(c) {
                let m = choose|m: int| 0 <= m < upto - 1 && (#[trigger] s[m]).spec_sym(g) == Some(c);
            } else {
                assert(s[upto - 1].spec_sym(g) == Some(c));
            }
        }
        assert forall|c: char| (exists|m: int|
            0 <= m < upto && (#[trigger] s[m]).spec_sym(g) == Some(c)) implies syms_upto(
            g,
            s,
            upto,
        ).contains(c) by {
            let m = choose|m: int| 0 <= m < upto && (#[trigger] s[m]).spec_sym(g) == Some(c);
            if m < upto - 1 {
                assert(syms_upto(g, s, upto - 1).contains(c));
            }
        }
    }
}

/// The items of the first `upto` entries of `s` with `c` right of the dot,
/// advanced one place.
pub open spec fn adv_upto<R: LRRule>(g: Grammar, s: Seq<R>, upto: int, c: char) -> Set<R>
    decreases upto,
{
    if upto <= 0 {
        Set::empty()
    } else {
        let rest = adv_upto(g, s, upto - 1, c);
        if s[upto - 1].spec_sym(g) == Some(c) {
            rest.insert(s[upto - 1].spec_next())
        } else {
            rest
        }
    }
}

/// Advancing a whole sequence advances exactly its element set.
pub proof fn lemma_adv_upto<R: LRRule>(g: Grammar, s: Seq<R>, upto: int, c: char)
    requires
        upto <= s.len(),
    ensures
        forall|x: R|
            adv_upto(g, s, upto, c).contains(x) <==> (exists|m: int|
                0 <= m < upto && (#[trigger] s[m]).spec_sym(g) == Some(c) && x
                    == s[m].spec_next()),
    decreases upto,
{
    if upto <= 0 {
    } else {
        lemma_adv_upto(g, s, upto - 1, c);
        assert forall|x: R| adv_upto(g, s, upto, c).contains(x) implies (exists|m: int|
            0 <= m < upto && (#[trigger] s[m]).spec_sym(g) == Some(c) && x
                == s[m].spec_next()) by {
            if adv_upto(g, s, upto - 1, c).contains(x) {
                let m = choose|m: int|
                    0 <= m < upto - 1 && (#[trigger] s[m]).spec_sym(g) == Some(c) && x
                        == s[m].spec_next();
            } else {
                assert(s[upto - 1].spec_sym(g) == Some(c) && x == s[upto - 1].spec_next());
            }
        }
        assert forall|x: R| (exists|m: int|
            0 <= m < upto && (#[trigger] s[m]).spec_sym(g) == Some(c) && x
                == s[m].spec_next()) implies adv_upto(g, s, upto, c).contains(x) by {
            let m = choose|m: int|
                0 <= m < upto && (#[trigger] s[m]).spec_sym(g) == Some(c) && x == s[m].spec_next();
            if m < upto - 1 {
                assert(adv_upto(g, s, upto - 1, c).contains(x));
            }
        }
    }
}

/// The items of `all` with `c` right of the dot, advanced one place.
fn advance_all<R: LRRule>(all: &Vec<R>, c: char, g: &Grammar) -> (row: Vec<R>)
    requires
        R::closure_ready(*g),
        all@.no_duplicates(),
    ensures
        row@.no_duplicates(),
        row@.to_set() == adv_set(*g, all@.to_set(), c),
{
    let mut row: Vec<R> = Vec::new();
    let mut i: usize = 0;
    while i < all.len()
        invariant
            0 <= i <= all@.len(),
            R::closure_ready(*g),
            all@.no_duplicates(),
            row@.no_duplicates(),
            row@.to_set() == adv_upto(*g, all@, i as int, c),
        decreases all@.len() - i,
    {
        let it = vec_at(all, i);
        let s = it.get_sym(g);
        if let Some(cc) = s {
            if cc == c {
                proof {
                    it.lemma_sym_next_ok(*g);
                }
                let nx = it.next_rule();
                let ghost pre = row@;
                if !contains_item(&row, &nx) {
                    row.push(nx);
                    proof {
                        lemma_push_distinct(pre, nx);
                    }
                } else {
                    proof {
                        assert(row@.to_set().contains(nx));
                        assert(row@.to_set() =~= adv_upto(*g, all@, i + 1, c));
                    }
                }
            }
        }
        proof {
            assert(row@.to_set() =~= adv_upto(*g, all@, i + 1, c));
        }
        i += 1;
    }
    proof {
        lemma_adv_upto(*g, all@, all@.len() as int, c);
        assert forall|x: R| #[trigger] row@.to_set().contains(x) implies adv_set(
            *g,
            all@.to_set(),
            c,
        ).contains(x) by {
            let m = choose|m: int|
                0 <= m < all@.len() && (#[trigger] all@[m]).spec_sym(*g) == Some(c) && x
                    == all@[m].spec_next();
            assert(all@.to_set().contains(all@[m]));
        }
        assert forall|x: R| adv_set(*g, all@.to_set(), c).contains(x) implies
            #[trigger] row@.to_set().contains(x) by {
            let y = choose|y: R|
                all@.to_set().contains(y) && #[trigger] y.spec_sym(*g) == Some(c) && x
                    == y.spec_next();
            let j = choose|j: int| 0 <= j < all@.len() && all@[j] == y;
            assert(all@[j].spec_sym(*g) == Some(c) && x == all@[j].spec_next());
            assert(adv_upto(*g, all@, all@.len() as int, c).contains(x));
        }
        assert(row@.to_set() =~= adv_set(*g, all@.to_set(), c));
    }
    row
}

} // verus!
