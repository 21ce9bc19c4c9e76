//! LALR states: LR(1) item sets whose identity is the LR(0) erasure of their
//! kernel, merged by unioning kernels.

use vstd::prelude::*;

use crate::grammar::Grammar;
use crate::lr0rule::LR0Rule;
use crate::lr1rule::LR1Rule;
use crate::lrnode::adv_set;
use crate::lrnode::LRNodeStruct;
use crate::rule::LRRule;
use crate::sets::lemma_push_distinct;
use crate::sets::vec_at;

verus! {

/// The LR(0) erasure of a sequence of LR(1) items.
pub open spec fn erased_of(s: Seq<LR1Rule>) -> Set<LR0Rule> {
    Set::new(|e: LR0Rule| exists|k: int| 0 <= k < s.len() && (#[trigger] s[k]).lr0 == e)
}

/// Does the sequence hold an item with this erasure?
fn contains_erased(v: &Vec<LR1Rule>, e: LR0Rule) -> (r: bool)
    ensures
        r == erased_of(v@).contains(e),
{
    let mut i: usize = 0;
    while i < v.len()
        invariant
            0 <= i <= v@.len(),
            forall|k: int| 0 <= k < i ==> (#[trigger] v@[k]).lr0 != e,
        decreases v@.len() - i,
    {
        let it = vec_at(v, i);
        if it.lr0.rule == e.rule && it.lr0.place == e.place {
            proof {
                assert(v@[i as int].lr0 == e);
            }
            return true;
        }
        i += 1;
    }
    proof {
        if erased_of(v@).contains(e) {
            let k = choose|k: int| 0 <= k < v@.len() && (#[trigger] v@[k]).lr0 == e;
        }
    }
    false
}

/// LR(0)-erasure equality of two kernels: the LALR notion of state identity.
pub fn erasure_eq(a: &Vec<LR1Rule>, b: &Vec<LR1Rule>) -> (r: bool)
    ensures
        r == (erased_of(a@) == erased_of(b@)),
{
    let mut i: usize = 0;
    while i < a.len()
        invariant
            0 <= i <= a@.len(),
            forall|k: int| 0 <= k < i ==> erased_of(b@).contains((#[trigger] a@[k]).lr0),
        decreases a@.len() - i,
    {
        let it = vec_at(a, i);
        if !contains_erased(b, it.lr0) {
            proof {
                assert(erased_of(a@).contains(a@[i as int].lr0));
            }
            return false;
        }
        i += 1;
    }
    let mut j: usize = 0;
    while j < b.len()
        invariant
            0 <= j <= b@.len(),
            forall|k: int| 0 <= k < a@.len() ==> erased_of(b@).contains((#[trigger] a@[k]).lr0),
            forall|k: int| 0 <= k < j ==> erased_of(a@).contains((#[trigger] b@[k]).lr0),
        decreases b@.len() - j,
    {
        let it = vec_at(b, j);
        if !contains_erased(a, it.lr0) {
            proof {
                assert(erased_of(b@).contains(b@[j as int].lr0));
            }
            return false;
        }
        j += 1;
    }
    proof {
        assert forall|e: LR0Rule| #[trigger] erased_of(a@).contains(e) implies erased_of(
            b@,
        ).contains(e) by {
            let k = choose|k: int| 0 <= k < a@.len() && (#[trigger] a@[k]).lr0 == e;
        }
        assert forall|e: LR0Rule| #[trigger] erased_of(b@).contains(e) implies erased_of(
            a@,
        ).contains(e) by {
            let k = choose|k: int| 0 <= k < b@.len() && (#[trigger] b@[k]).lr0 == e;
        }
        assert(erased_of(a@) =~= erased_of(b@));
    }
    true
}

/// An LALR state: an LR(1) state whose identity is the LR(0) erasure of its
/// kernel.
#[derive(Debug)]
pub struct LALRNode {
    pub lr1node: LRNodeStruct<LR1Rule>,
}

impl PartialEq for LALRNode {
    /// Two LALR states are the same when the LR(0) erasures of their kernels
    /// are equal, whatever their lookaheads.
    fn eq(&self, other: &Self) -> (r: bool) {
        erasure_eq(&self.lr1node.base, &other.lr1node.base)
    }
}

impl vstd::std_specs::cmp::PartialEqSpecImpl for LALRNode {
    open spec fn obeys_eq_spec() -> bool {
        true
    }

    open spec fn eq_spec(&self, other: &Self) -> bool {
        erased_of(self.lr1node.base@) == erased_of(other.lr1node.base@)
    }
}

impl LALRNode {
    /// The LR(0) erasure of the kernel: the state's identity.
    pub open spec fn erased_kernel(self) -> Set<LR0Rule> {
        erased_of(self.lr1node.base@)
    }

    pub fn new(base: Vec<LR1Rule>, from: char) -> (r: Self)
        ensures
            r.lr1node.from == from,
            r.lr1node.base == base,
            r.lr1node.closure@.len() == 0,
    {
        LALRNode { lr1node: LRNodeStruct::new(base, from) }
    }

    pub fn default(g: &Grammar) -> (r: Self)
        requires
            g.rules@.len() > 0,
        ensures
            r.lr1node.kernel() == Set::empty().insert(LR1Rule::spec_default()),
            r.lr1node.base@.len() == 1,
            r.lr1node.base@.no_duplicates(),
            r.lr1node.closure@.len() == 0,
    {
        LALRNode { lr1node: LRNodeStruct::default(g) }
    }

    pub fn create_closure(&mut self, g: &Grammar)
        requires
            <LR1Rule as LRRule>::closure_ready(*g),
            old(self).lr1node.base@.no_duplicates(),
        ensures
            final(self).lr1node.base == old(self).lr1node.base,
            final(self).lr1node.from == old(self).lr1node.from,
            final(self).lr1node.wf(),
            final(self).lr1node.closed(*g),
    {
        self.lr1node.create_closure(g);
    }

    pub fn get_steps(&self, g: &Grammar) -> (r: Vec<(char, Vec<LR1Rule>)>)
        requires
            <LR1Rule as LRRule>::closure_ready(*g),
            self.lr1node.wf(),
        ensures
            forall|k1: int, k2: int| 0 <= k1 < k2 < r@.len() ==> (r@[k1]).0 != (r@[k2]).0,
            forall|k: int|
                0 <= k < r@.len() ==> (#[trigger] r@[k]).1@.to_set() == adv_set(
                    *g,
                    self.lr1node.items(),
                    r@[k].0,
                ) && r@[k].1@.no_duplicates() && r@[k].1@.len() > 0,
    {
        self.lr1node.get_steps(g)
    }

    pub fn all_rules(&self) -> (r: Vec<LR1Rule>)
        ensures
            r@ == self.lr1node.base@ + self.lr1node.closure@,
            r@.to_set() == self.lr1node.items(),
    {
        self.lr1node.all_rules()
    }

    pub fn from(&self) -> (r: char)
        ensures
            r == self.lr1node.from,
    {
        self.lr1node.from
    }

    pub fn base(&self) -> (r: &Vec<LR1Rule>)
        ensures
            r == self.lr1node.base,
    {
        &self.lr1node.base
    }

    pub fn closure(&self) -> (r: &Vec<LR1Rule>)
        ensures
            r == self.lr1node.closure,
    {
        &self.lr1node.closure
    }

    /// Merges another state's kernel into this one's: the union of the two
    /// kernels (which share their LR(0) erasure when LALR merging calls
    /// this), and whether anything new arrived.
    pub fn union_nodes(&self, other: &LALRNode) -> (r: (LALRNode, bool))
        requires
            self.lr1node.base@.no_duplicates(),
        ensures
            r.0.lr1node.base@.no_duplicates(),
            r.0.lr1node.base@.to_set() == self.lr1node.base@.to_set().union(
                other.lr1node.base@.to_set(),
            ),
            r.0.lr1node.from == self.lr1node.from,
            r.0.lr1node.closure@.len() == 0,
            r.0.lr1node.base@.len() >= self.lr1node.base@.len(),
            r.1 == !other.lr1node.base@.to_set().subset_of(self.lr1node.base@.to_set()),
    {
        let mut u: Vec<LR1Rule> = Vec::new();
        let mut i: usize = 0;
        while i < self.lr1node.base.len()
            invariant
                0 <= i <= self.lr1node.base@.len(),
                u@ =~= self.lr1node.base@.subrange(0, i as int),
            decreases self.lr1node.base@.len() - i,
        {
            u.push(vec_at(&self.lr1node.base, i));
            i += 1;
        }
        proof {
            assert(u@ =~= self.lr1node.base@);
        }
        let mut grew = false;
        let mut j: usize = 0;
        while j < other.lr1node.base.len()
            invariant
                0 <= j <= other.lr1node.base@.len(),
                u@.len() >= self.lr1node.base@.len(),
                u@.no_duplicates(),
                u@.to_set() =~= self.lr1node.base@.to_set().union(
                    other.lr1node.base@.subrange(0, j as int).to_set(),
                ),
                grew == !other.lr1node.base@.subrange(0, j as int).to_set().subset_of(
                    self.lr1node.base@.to_set(),
                ),
            decreases other.lr1node.base@.len() - j,
        {
            let it = vec_at(&other.lr1node.base, j);
            let ghost pre = u@;
            let ghost grew_pre = grew;
            if !crate::lrnode::contains_item(&u, &it) {
                u.push(it);
                grew = true;
                proof {
                    lemma_push_distinct(pre, it);
                    assert(!pre.to_set().contains(it));
                    assert(!self.lr1node.base@.to_set().contains(it));
                }
            } else {
                proof {
                    assert(u@.to_set().contains(it));
                }
            }
            proof {
                crate::sets::lemma_take_one_more(other.lr1node.base@, j as int);
                assert(u@.to_set() =~= self.lr1node.base@.to_set().union(
                    other.lr1node.base@.subrange(0, j + 1).to_set(),
                ));
                if grew_pre {
                    let x = choose|x: LR1Rule|
                        other.lr1node.base@.subrange(0, j as int).to_set().contains(x)
                            && !self.lr1node.base@.to_set().contains(x);
                    assert(other.lr1node.base@.subrange(0, j + 1).to_set().contains(x));
                }
                if !grew && grew_pre == grew {
                    assert forall|x: LR1Rule|
                        other.lr1node.base@.subrange(0, j + 1).to_set().contains(x) implies
                        self.lr1node.base@.to_set().contains(x) by {
                        if other.lr1node.base@.subrange(0, j as int).to_set().contains(x) {
                        } else {
                            assert(x == other.lr1node.base@[j as int]);
                        }
                    }
                }
            }
            j += 1;
        }
        proof {
            assert(other.lr1node.base@.subrange(0, other.lr1node.base@.len() as int)
                =~= other.lr1node.base@);
        }
        let from = self.from();
        (LALRNode { lr1node: LRNodeStruct::new(u, from) }, grew)
    }
}

} // verus!
