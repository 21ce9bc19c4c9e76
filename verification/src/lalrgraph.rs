//! The LALR item-set graph: canonical LR(1) states merged whenever the LR(0)
//! erasures of their kernels coincide, with kernels combined by union and
//! closures recomputed.

use vstd::prelude::*;

use crate::grammar::Grammar;
use crate::lalrnode::erased_of;
use crate::lalrnode::LALRNode;
use crate::lr0rule::LR0Rule;
use crate::lr1rule::LR1Rule;
use crate::lrgraph::edge_get;
use crate::lrgraph::LRGraphStruct;
use crate::lrnode::LRNodeStruct;
use crate::rule::LRRule;
use crate::sets::vec_at;

verus! {

/// Two item sequences with the same item set have the same erasure.
proof fn lemma_erased_congruent(s1: Seq<LR1Rule>, s2: Seq<LR1Rule>)
    requires
        s1.to_set() == s2.to_set(),
    ensures
        erased_of(s1) == erased_of(s2),
{
    assert forall|e: LR0Rule| #[trigger] erased_of(s1).contains(e) implies erased_of(s2).contains(
        e,
    ) by {
        let k = choose|k: int| 0 <= k < s1.len() && (#[trigger] s1[k]).lr0 == e;
        assert(s1.to_set().contains(s1[k]));
        assert(s2.contains(s1[k]));
        let m = choose|m: int| 0 <= m < s2.len() && s2[m] == s1[k];
    }
    assert forall|e: LR0Rule| #[trigger] erased_of(s2).contains(e) implies erased_of(s1).contains(
        e,
    ) by {
        let k = choose|k: int| 0 <= k < s2.len() && (#[trigger] s2[k]).lr0 == e;
        assert(s2.to_set().contains(s2[k]));
        assert(s1.contains(s2[k]));
        let m = choose|m: int| 0 <= m < s1.len() && s1[m] == s2[k];
    }
    assert(erased_of(s1) =~= erased_of(s2));
}

/// The erasure of a union of kernels is the union of the erasures.
proof fn lemma_erased_union(u: Seq<LR1Rule>, a: Seq<LR1Rule>, b: Seq<LR1Rule>)
    requires
        u.to_set() == a.to_set().union(b.to_set()),
    ensures
        erased_of(u) == erased_of(a).union(erased_of(b)),
{
    assert forall|e: LR0Rule| #[trigger] erased_of(u).contains(e) implies erased_of(a).union(
        erased_of(b),
    ).contains(e) by {
        let k = choose|k: int| 0 <= k < u.len() && (#[trigger] u[k]).lr0 == e;
        assert(u.to_set().contains(u[k]));
        if a.to_set().contains(u[k]) {
            let m = choose|m: int| 0 <= m < a.len() && a[m] == u[k];
        } else {
            let m = choose|m: int| 0 <= m < b.len() && b[m] == u[k];
        }
    }
    assert forall|e: LR0Rule| erased_of(a).union(erased_of(b)).contains(e) implies
        #[trigger] erased_of(u).contains(e) by {
        if erased_of(a).contains(e) {
            let k = choose|k: int| 0 <= k < a.len() && (#[trigger] a[k]).lr0 == e;
            assert(u.to_set().contains(a[k]));
            let m = choose|m: int| 0 <= m < u.len() && u[m] == a[k];
        } else {
            let k = choose|k: int| 0 <= k < b.len() && (#[trigger] b[k]).lr0 == e;
            assert(u.to_set().contains(b[k]));
            let m = choose|m: int| 0 <= m < u.len() && u[m] == b[k];
        }
    }
    assert(erased_of(u) =~= erased_of(a).union(erased_of(b)));
}

/// The LALR graph: one state per distinct LR(0)-erased kernel.
pub struct LALRGraph {
    pub nodes: Vec<LALRNode>,
    pub edges: Vec<Vec<(char, usize)>>,
}

impl LALRGraph {
    /// Every state is well formed and closed with a non-empty kernel, no two
    /// states share an erased kernel, and edge rows are keyed uniquely and
    /// point into the graph.
    pub open spec fn wf(self, g: Grammar) -> bool {
        &&& self.nodes@.len() == self.edges@.len()
        &&& (forall|i: int|
            0 <= i < self.nodes@.len() ==> (#[trigger] self.nodes@[i]).lr1node.wf()
                && self.nodes@[i].lr1node.closed(g) && self.nodes@[i].lr1node.base@.len() > 0)
        &&& (forall|i: int, j: int|
            0 <= i < j < self.nodes@.len() ==> (#[trigger] self.nodes@[i]).erased_kernel() != (
            #[trigger] self.nodes@[j]).erased_kernel())
        &&& (forall|i: int, e1: int, e2: int|
            #![trigger (self.edges@[i])@[e1], (self.edges@[i])@[e2]]
            0 <= i < self.edges@.len() && 0 <= e1 < e2 < (self.edges@[i])@.len() ==> (
            self.edges@[i])@[e1].0 != (self.edges@[i])@[e2].0)
        &&& (forall|i: int, e: int|
            #![trigger (self.edges@[i])@[e]]
            0 <= i < self.edges@.len() && 0 <= e < (self.edges@[i])@.len() ==> (
            self.edges@[i])@[e].1 < self.nodes@.len())
    }

    pub fn new() -> (r: Self)
        ensures
            r.nodes@.len() == 0,
            r.edges@.len() == 0,
    {
        LALRGraph { nodes: Vec::new(), edges: Vec::new() }
    }

    pub fn nodes(&self) -> (r: &Vec<LALRNode>)
        ensures
            r == self.nodes,
    {
        &self.nodes
    }

    pub fn edges(&self) -> (r: &Vec<Vec<(char, usize)>>)
        ensures
            r == self.edges,
    {
        &self.edges
    }

    /// Looks for a state whose erased kernel matches; on success its index.
    pub fn exist(&self, node: &LALRNode) -> (r: (bool, usize))
        ensures
            r.0 ==> r.1 < self.nodes@.len() && self.nodes@[r.1 as int].erased_kernel()
                == node.erased_kernel(),
            !r.0 ==> (forall|i: int|
                0 <= i < self.nodes@.len() ==> (#[trigger] self.nodes@[i]).erased_kernel()
                    != node.erased_kernel()),
    {
        let mut i: usize = 0;
        while i < self.nodes.len()
            invariant
                0 <= i <= self.nodes@.len(),
                forall|k: int|
                    0 <= k < i ==> (#[trigger] self.nodes@[k]).erased_kernel()
                        != node.erased_kernel(),
            decreases self.nodes@.len() - i,
        {
            if crate::lalrnode::erasure_eq(&self.nodes[i].lr1node.base, &node.lr1node.base) {
                return (true, i);
            }
            i += 1;
        }
        (false, 0)
    }

    /// Merges a state's kernel into the state at `index` (both share their
    /// erased kernel when LALR construction calls this) and recomputes the
    /// closure there.
    pub fn update(&mut self, index: usize, new_node: &LALRNode, g: &Grammar)
        requires
            <LR1Rule as LRRule>::closure_ready(*g),
            index < old(self).nodes@.len(),
            old(self).nodes@[index as int].lr1node.base@.no_duplicates(),
        ensures
            final(self).nodes@.len() == old(self).nodes@.len(),
            final(self).edges == old(self).edges,
            forall|k: int|
                0 <= k < old(self).nodes@.len() && k != index
                    ==> (#[trigger] final(self).nodes@[k]) == old(self).nodes@[k],
            final(self).nodes@[index as int].lr1node.base@.to_set() == old(self).nodes@[
                index as int
            ].lr1node.base@.to_set().union(new_node.lr1node.base@.to_set()),
            final(self).nodes@[index as int].lr1node.wf(),
            final(self).nodes@[index as int].lr1node.closed(*g),
            final(self).nodes@[index as int].lr1node.from == old(self).nodes@[
                index as int
            ].lr1node.from,
            final(self).nodes@[index as int].lr1node.base@.len() >= old(self).nodes@[
                index as int
            ].lr1node.base@.len(),
            final(self).nodes@[index as int].erased_kernel() == old(self).nodes@[
                index as int
            ].erased_kernel().union(new_node.erased_kernel()),
    {
        let (mut merged, _conti) = self.nodes[index].union_nodes(new_node);
        merged.create_closure(g);
        proof {
            lemma_erased_union(
                merged.lr1node.base@,
                self.nodes@[index as int].lr1node.base@,
                new_node.lr1node.base@,
            );
        }
        self.nodes.set(index, merged);
    }

    /// Adds a fresh state (its closure computed) with an empty edge row.
    pub fn add_node(&mut self, node: LALRNode, g: &Grammar) -> (ix: usize)
        requires
            <LR1Rule as LRRule>::closure_ready(*g),
            node.lr1node.base@.no_duplicates(),
        ensures
            ix == old(self).nodes@.len(),
            final(self).nodes@.len() == old(self).nodes@.len() + 1,
            final(self).edges@.len() == old(self).edges@.len() + 1,
            forall|k: int|
                0 <= k < old(self).nodes@.len()
                    ==> (#[trigger] final(self).nodes@[k]) == old(self).nodes@[k],
            forall|k: int|
                0 <= k < old(self).edges@.len()
                    ==> (#[trigger] final(self).edges@[k]) == old(self).edges@[k],
            final(self).edges@[old(self).edges@.len() as int]@.len() == 0,
            final(self).nodes@[ix as int].lr1node.wf(),
            final(self).nodes@[ix as int].lr1node.closed(*g),
            final(self).nodes@[ix as int].lr1node.base == node.lr1node.base,
            final(self).nodes@[ix as int].lr1node.from == node.lr1node.from,
            final(self).nodes@[ix as int].erased_kernel() == node.erased_kernel(),
    {
        let ix = self.nodes.len();
        let mut node = node;
        node.create_closure(g);
        self.nodes.push(node);
        let row: Vec<(char, usize)> = Vec::new();
        self.edges.push(row);
        ix
    }

    /// Builds the LALR graph: first the canonical LR(1) graph, then one
    /// merged state per distinct LR(0)-erased kernel (kernels unioned,
    /// closures recomputed), then the goto edges translated onto the merged
    /// states.
    pub fn construct(&mut self, start_node: LALRNode, g: &Grammar)
        requires
            <LR1Rule as LRRule>::closure_ready(*g),
            old(self).nodes@.len() == 0,
            old(self).edges@.len() == 0,
            start_node.lr1node.base@.no_duplicates(),
            start_node.lr1node.base@.len() > 0,
            start_node.lr1node.kernel().subset_of(<LR1Rule as LRRule>::universe(*g)),
        ensures
            final(self).wf(*g),
            final(self).nodes@.len() > 0,
            final(self).nodes@[0].erased_kernel() == erased_of(start_node.lr1node.base@),
    {
        let LALRNode { lr1node } = start_node;
        let mut base_graph: LRGraphStruct<LR1Rule> = LRGraphStruct::new();
        base_graph.construct(lr1node, g);
        // one merged state per distinct erased kernel
        let n = base_graph.nodes.len();
        let mut map: Vec<usize> = Vec::new();
        let mut i: usize = 0;
        while i < n
            invariant
                0 <= i <= n,
                n == base_graph.nodes@.len(),
                n > 0,
                base_graph.nodes@[0].kernel() == start_node.lr1node.base@.to_set(),
                <LR1Rule as LRRule>::closure_ready(*g),
                base_graph.wf(*g),
                map@.len() == i,
                self.nodes@.len() == self.edges@.len(),
                self.nodes@.len() <= i,
                i > 0 ==> self.nodes@.len() > 0,
                i > 0 ==> self.nodes@[0].erased_kernel() == erased_of(start_node.lr1node.base@),
                forall|k: int| 0 <= k < i ==> (#[trigger] map@[k]) < self.nodes@.len(),
                forall|k: int|
                    0 <= k < self.nodes@.len() ==> (#[trigger] self.nodes@[k]).lr1node.wf()
                        && self.nodes@[k].lr1node.closed(*g) && self.nodes@[k].lr1node.base@.len()
                        > 0,
                forall|k1: int, k2: int|
                    0 <= k1 < k2 < self.nodes@.len() ==> (
                    #[trigger] self.nodes@[k1]).erased_kernel() != (
                    #[trigger] self.nodes@[k2]).erased_kernel(),
                forall|k: int| 0 <= k < self.edges@.len() ==> (#[trigger] self.edges@[k])@.len()
                    == 0,
            decreases n - i,
        {
            let kern = copy_lr1_items(&base_graph.nodes[i].base);
            let from = lr1_node_from(&base_graph.nodes, i);
            let cand = LALRNode::new(kern, from);
            proof {
                assert(cand.lr1node.base@.no_duplicates());
            }
            let (found, j) = self.exist(&cand);
            if found {
                proof {
                    assert(self.nodes@[j as int].erased_kernel() == cand.erased_kernel());
                }
                let ghost pre_nodes = self.nodes@;
                self.update(j, &cand, g);
                proof {
                    assert(self.nodes@[j as int].erased_kernel() =~= pre_nodes[
                        j as int
                    ].erased_kernel());
                    assert forall|k1: int, k2: int|
                        0 <= k1 < k2 < self.nodes@.len() implies (
                    #[trigger] self.nodes@[k1]).erased_kernel() != (
                    #[trigger] self.nodes@[k2]).erased_kernel() by {
                        if k1 != j && k2 != j {
                            assert(self.nodes@[k1] == pre_nodes[k1]);
                            assert(self.nodes@[k2] == pre_nodes[k2]);
                        }
                    }
                }
                map.push(j);
            } else {
                let ix = self.add_node(cand, g);
                map.push(ix);
                proof {
                    if i == 0 {
                        lemma_erased_congruent(
                            base_graph.nodes@[0].base@,
                            start_node.lr1node.base@,
                        );
                    }
                }
            }
            i += 1;
        }
        // translate the goto edges onto the merged states
        let mut i2: usize = 0;
        while i2 < n
            invariant
                0 <= i2 <= n,
                n == base_graph.nodes@.len(),
                base_graph.wf(*g),
                map@.len() == n,
                self.nodes@.len() == self.edges@.len(),
                n > 0 ==> self.nodes@.len() > 0,
                n > 0 ==> self.nodes@[0].erased_kernel() == erased_of(start_node.lr1node.base@),
                forall|k: int| 0 <= k < n ==> (#[trigger] map@[k]) < self.nodes@.len(),
                forall|k: int|
                    0 <= k < self.nodes@.len() ==> (#[trigger] self.nodes@[k]).lr1node.wf()
                        && self.nodes@[k].lr1node.closed(*g) && self.nodes@[k].lr1node.base@.len()
                        > 0,
                forall|k1: int, k2: int|
                    0 <= k1 < k2 < self.nodes@.len() ==> (
                    #[trigger] self.nodes@[k1]).erased_kernel() != (
                    #[trigger] self.nodes@[k2]).erased_kernel(),
                forall|k: int, e1: int, e2: int|
                    #![trigger (self.edges@[k])@[e1], (self.edges@[k])@[e2]]
                    0 <= k < self.edges@.len() && 0 <= e1 < e2 < (self.edges@[k])@.len() ==> (
                    self.edges@[k])@[e1].0 != (self.edges@[k])@[e2].0,
                forall|k: int, e: int|
                    #![trigger (self.edges@[k])@[e]]
                    0 <= k < self.edges@.len() && 0 <= e < (self.edges@[k])@.len() ==> (
                    self.edges@[k])@[e].1 < self.nodes@.len(),
            decreases n - i2,
        {
            let row_src = crate::lrgraph::copy_edge_row(&base_graph.edges[i2]);
            proof {
                assert forall|k: int| 0 <= k < row_src@.len() implies (#[trigger] row_src@[k]).1
                    < base_graph.nodes@.len() by {
                    assert((base_graph.edges@[i2 as int])@[k] == row_src@[k]);
                }
            }
            let mi = vec_at(&map, i2);
            let mut e: usize = 0;
            while e < row_src.len()
                invariant
                    0 <= e <= row_src@.len(),
                    0 <= i2 < n,
                    n == base_graph.nodes@.len(),
                    base_graph.wf(*g),
                    map@.len() == n,
                    mi == map@[i2 as int],
                    mi < self.nodes@.len(),
                    self.nodes@.len() == self.edges@.len(),
                    n > 0 ==> self.nodes@.len() > 0,
                    n > 0 ==> self.nodes@[0].erased_kernel() == erased_of(
                        start_node.lr1node.base@,
                    ),
                    forall|k: int| 0 <= k < n ==> (#[trigger] map@[k]) < self.nodes@.len(),
                    forall|k: int|
                        0 <= k < row_src@.len() ==> (#[trigger] row_src@[k]).1
                            < base_graph.nodes@.len(),
                    forall|k: int|
                        0 <= k < self.nodes@.len() ==> (#[trigger] self.nodes@[k]).lr1node.wf()
                            && self.nodes@[k].lr1node.closed(*g)
                            && self.nodes@[k].lr1node.base@.len() > 0,
                    forall|k1: int, k2: int|
                        0 <= k1 < k2 < self.nodes@.len() ==> (
                        #[trigger] self.nodes@[k1]).erased_kernel() != (
                        #[trigger] self.nodes@[k2]).erased_kernel(),
                    forall|k: int, e1: int, e2: int|
                        #![trigger (self.edges@[k])@[e1], (self.edges@[k])@[e2]]
                        0 <= k < self.edges@.len() && 0 <= e1 < e2 < (self.edges@[k])@.len() ==> (
                        self.edges@[k])@[e1].0 != (self.edges@[k])@[e2].0,
                    forall|k: int, e2: int|
                        #![trigger (self.edges@[k])@[e2]]
                        0 <= k < self.edges@.len() && 0 <= e2 < (self.edges@[k])@.len() ==> (
                        self.edges@[k])@[e2].1 < self.nodes@.len(),
                decreases row_src@.len() - e,
            {
                let pair = vec_at(&row_src, e);
                let mt = vec_at(&map, pair.1);
                if edge_get(&self.edges[mi], pair.0).is_none() {
                    let mut row2 = crate::lrgraph::copy_edge_row(&self.edges[mi]);
                    proof {
                        crate::lrgraph::lemma_edge_lookup_distinct(row2@, pair.0);
                    }
                    row2.push((pair.0, mt));
                    let ghost eprev = self.edges@;
                    self.edges.set(mi, row2);
                    proof {
                        assert(forall|k: int|
                            0 <= k < eprev.len() && k != mi ==> (#[trigger] self.edges@[k])
                                == eprev[k]);
                        assert forall|k: int, e1: int, e2: int|
                            #![trigger (self.edges@[k])@[e1], (self.edges@[k])@[e2]]
                            0 <= k < self.edges@.len() && 0 <= e1 < e2 < (
                            self.edges@[k])@.len() implies (self.edges@[k])@[e1].0 != (
                        self.edges@[k])@[e2].0 by {
                            if k == mi && e2 == (self.edges@[k])@.len() - 1 {
                                assert((self.edges@[k])@[e1] == eprev[mi as int]@[e1]);
                            }
                        }
                    }
                }
                e += 1;
            }
            i2 += 1;
        }
        proof {
            assert(self.nodes@.len() > 0);
        }
    }
}

/// Copies an LR(1) item vector.
fn copy_lr1_items(v: &Vec<LR1Rule>) -> (r: Vec<LR1Rule>)
    ensures
        r@ == v@,
{
    let mut r: Vec<LR1Rule> = Vec::new();
    let mut i: usize = 0;
    while i < v.len()
        invariant
            0 <= i <= v@.len(),
            r@ =~= v@.subrange(0, i as int),
        decreases v@.len() - i,
    {
        r.push(vec_at(v, i));
        i += 1;
    }
    proof {
        assert(r@ =~= v@);
    }
    r
}

/// Reads a state's incoming symbol.
fn lr1_node_from(v: &Vec<LRNodeStruct<LR1Rule>>, i: usize) -> (c: char)
    requires
        i < v@.len(),
    ensures
        c == v@[i as int].from,
{
    v[i].from
}

} // verus!
