//! The LR item-set graph: states with kernel-set identity, connected by
//! symbol-labeled goto edges, built breadth-first from the start state.

use vstd::prelude::*;

use crate::grammar::Grammar;
use crate::lr0rule::LR0Rule;
use crate::lr1rule::LR1Rule;
use crate::lrnode::adv_set;
use crate::lrnode::closure_set;
use crate::lrnode::contains_item;
use crate::lrnode::LRNodeStruct;
use crate::rule::LRRule;
use crate::sets::lemma_distinct_seq_bounded;
use crate::sets::lemma_subsets_of_complete;
use crate::sets::lemma_subsets_of_finite;
use crate::sets::subsets_of;
use crate::sets::vec_at;

verus! {

/// A state index is reachable from state 0 in at most `n` edge steps.
pub open spec fn reach_n(edges: Seq<Seq<(char, usize)>>, i: int, n: nat) -> bool
    decreases n,
{
    i == 0 || (n > 0 && (exists|p: int, e: int|
        0 <= p < edges.len() && 0 <= e < edges[p].len() && (#[trigger] edges[p][e]).1 == i
            && reach_n(edges, p, (n - 1) as nat)))
}

/// A state index is reachable from state 0 along the goto edges.
pub open spec fn reachable(edges: Seq<Seq<(char, usize)>>, i: int) -> bool {
    exists|n: nat| reach_n(edges, i, n)
}

/// One edge table extends another: rows are only appended, within rows edges
/// are only appended.
pub open spec fn edges_extend(e1: Seq<Seq<(char, usize)>>, e2: Seq<Seq<(char, usize)>>) -> bool {
    &&& e1.len() <= e2.len()
    &&& (forall|i: int| 0 <= i < e1.len() ==> (#[trigger] e1[i]).is_prefix_of(e2[i]))
}

/// Reachability survives extending the edge table.
pub proof fn lemma_reach_extend(
    e1: Seq<Seq<(char, usize)>>,
    e2: Seq<Seq<(char, usize)>>,
    i: int,
    n: nat,
)
    requires
        edges_extend(e1, e2),
        reach_n(e1, i, n),
    ensures
        reach_n(e2, i, n),
    decreases n,
{
    if i == 0 {
    } else {
        let (p, e) = choose|p: int, e: int|
            0 <= p < e1.len() && 0 <= e < e1[p].len() && (#[trigger] e1[p][e]).1 == i && reach_n(
                e1,
                p,
                (n - 1) as nat,
            );
        lemma_reach_extend(e1, e2, p, (n - 1) as nat);
        assert(e2[p][e] == e1[p][e]);
        assert(reach_n(e2, i, n));
    }
}

/// The first target recorded for a symbol in an edge row.
pub open spec fn edge_lookup(row: Seq<(char, usize)>, c: char) -> Option<usize>
    decreases row.len(),
{
    if row.len() == 0 {
        None
    } else if row[0].0 == c {
        Some(row[0].1)
    } else {
        edge_lookup(row.drop_first(), c)
    }
}

/// On a row whose keys are distinct, the lookup returns the one target of
/// the key, or nothing when the key is absent.
pub proof fn lemma_edge_lookup_distinct(row: Seq<(char, usize)>, c: char)
    requires
        forall|a: int, b: int|
            #![trigger row[a], row[b]]
            0 <= a < b < row.len() ==> row[a].0 != row[b].0,
    ensures
        forall|j: int|
            0 <= j < row.len() && (#[trigger] row[j]).0 == c ==> edge_lookup(row, c) == Some(
                row[j].1,
            ),
        (forall|j: int| 0 <= j < row.len() ==> (#[trigger] row[j]).0 != c) ==> edge_lookup(
            row,
            c,
        ) is None,
    decreases row.len(),
{
    if row.len() == 0 {
    } else if row[0].0 == c {
        assert forall|j: int| 0 <= j < row.len() && (#[trigger] row[j]).0 == c implies edge_lookup(
            row,
            c,
        ) == Some(row[j].1) by {
            if j != 0 {
                assert(row[0].0 != row[j].0);
            }
        }
    } else {
        let rest = row.drop_first();
        assert forall|a: int, b: int|
            #![trigger rest[a], rest[b]]
            0 <= a < b < rest.len() implies rest[a].0 != rest[b].0 by {
            assert(rest[a] == row[a + 1]);
            assert(rest[b] == row[b + 1]);
        }
        lemma_edge_lookup_distinct(rest, c);
        assert forall|j: int| 0 <= j < row.len() && (#[trigger] row[j]).0 == c implies edge_lookup(
            row,
            c,
        ) == Some(row[j].1) by {
            assert(rest[j - 1] == row[j]);
        }
        if forall|j: int| 0 <= j < row.len() ==> (#[trigger] row[j]).0 != c {
            assert forall|j: int| 0 <= j < rest.len() implies (#[trigger] rest[j]).0 != c by {
                assert(rest[j] == row[j + 1]);
            }
        }
    }
}

/// Looks a symbol up in an edge row.
pub fn edge_get(row: &Vec<(char, usize)>, c: char) -> (r: Option<usize>)
    ensures
        r == edge_lookup(row@, c),
{
    proof {
        assert(row@.skip(0) =~= row@);
    }
    let mut i: usize = 0;
    while i < row.len()
        invariant
            0 <= i <= row@.len(),
            edge_lookup(row@, c) == edge_lookup(row@.skip(i as int), c),
        decreases row@.len() - i,
    {
        let p = vec_at(row, i);
        if p.0 == c {
            proof {
                assert(row@.skip(i as int)[0] == row@[i as int]);
            }
            return Some(p.1);
        }
        proof {
            assert(row@.skip(i as int)[0] == row@[i as int]);
            assert(row@.skip(i as int).drop_first() =~= row@.skip(i + 1));
        }
        i += 1;
    }
    proof {
        assert(row@.skip(i as int).len() == 0);
    }
    None
}

/// Set equality of two item vectors.
pub fn kernel_eq<R: LRRule>(a: &Vec<R>, b: &Vec<R>) -> (r: bool)
    ensures
        r == (a@.to_set() == b@.to_set()),
{
    let mut i: usize = 0;
    while i < a.len()
        invariant
            0 <= i <= a@.len(),
            forall|k: int| 0 <= k < i ==> b@.contains(#[trigger] a@[k]),
        decreases a@.len() - i,
    {
        if !contains_item(b, &a[i]) {
            proof {
                assert(a@.to_set().contains(a@[i as int]));
                if b@.to_set().contains(a@[i as int]) {
                    let k = choose|k: int| 0 <= k < b@.len() && b@[k] == a@[i as int];
                }
            }
            return false;
        }
        i += 1;
    }
    let mut j: usize = 0;
    while j < b.len()
        invariant
            0 <= j <= b@.len(),
            forall|k: int| 0 <= k < a@.len() ==> b@.contains(#[trigger] a@[k]),
            forall|k: int| 0 <= k < j ==> a@.contains(#[trigger] b@[k]),
        decreases b@.len() - j,
    {
        if !contains_item(a, &b[j]) {
            proof {
                assert(b@.to_set().contains(b@[j as int]));
                if a@.to_set().contains(b@[j as int]) {
                    let k = choose|k: int| 0 <= k < a@.len() && a@[k] == b@[j as int];
                }
            }
            return false;
        }
        j += 1;
    }
    proof {
        assert forall|x: R| #[trigger] a@.to_set().contains(x) implies b@.to_set().contains(x) by {
            let k = choose|k: int| 0 <= k < a@.len() && a@[k] == x;
        }
        assert forall|x: R| #[trigger] b@.to_set().contains(x) implies a@.to_set().contains(x) by {
            let k = choose|k: int| 0 <= k < b@.len() && b@[k] == x;
        }
        assert(a@.to_set() =~= b@.to_set());
    }
    true
}

/// Copies an item vector.
fn copy_items<R: LRRule>(v: &Vec<R>) -> (r: Vec<R>)
    ensures
        r@ == v@,
{
    let mut r: Vec<R> = Vec::new();
    let mut i: usize = 0;
    while i < v.len()
        invariant
            0 <= i <= v@.len(),
            r@ =~= v@.subrange(0, i as int),
        decreases v@.len() - i,
    {
        r.push(vec_at(v, i));
        i += 1;
    }
    proof {
        assert(r@ =~= v@);
    }
    r
}

/// The item-set graph: one state per distinct kernel, and per state an edge
/// row mapping each step symbol to the index of the goto state.
#[derive(Debug)]
pub struct LRGraphStruct<R: LRRule> {
    pub nodes: Vec<LRNodeStruct<R>>,
    pub edges: Vec<Vec<(char, usize)>>,
}

pub type LR0Graph = LRGraphStruct<LR0Rule>;

pub type LR1Graph = LRGraphStruct<LR1Rule>;

impl<R: LRRule> LRGraphStruct<R> {
    pub open spec fn edges_view(self) -> Seq<Seq<(char, usize)>> {
        self.edges@.map_values(|v: Vec<(char, usize)>| v@)
    }

    /// Every state is well formed, closed, has a non-empty kernel of universe
    /// items, and no two states share a kernel; edge rows are keyed uniquely
    /// and point into the graph.
    pub open spec fn wf(self, g: Grammar) -> bool {
        &&& self.nodes@.len() == self.edges@.len()
        &&& (forall|i: int|
            0 <= i < self.nodes@.len() ==> (#[trigger] self.nodes@[i]).wf() && self.nodes@[i].closed(
                g,
            ) && self.nodes@[i].base@.len() > 0 && self.nodes@[i].kernel().subset_of(
                R::universe(g),
            ))
        &&& (forall|i: int, j: int|
            0 <= i < j < self.nodes@.len() ==> (#[trigger] self.nodes@[i]).kernel() != (
            #[trigger] self.nodes@[j]).kernel())
        &&& (forall|i: int, e1: int, e2: int|
            #![trigger (self.edges@[i])@[e1], (self.edges@[i])@[e2]]
            0 <= i < self.edges@.len() && 0 <= e1 < e2 < (self.edges@[i])@.len() ==> (
            self.edges@[i])@[e1].0 != (self.edges@[i])@[e2].0)
        &&& (forall|i: int, e: int|
            #![trigger (self.edges@[i])@[e]]
            0 <= i < self.edges@.len() && 0 <= e < (self.edges@[i])@.len() ==> (
            self.edges@[i])@[e].1 < self.nodes@.len())
    }

    /// The edges record exactly the goto relation: each edge's target state
    /// has the advanced items as its kernel, and every symbol that appears
    /// right of a dot in a state has an outgoing edge there.
    pub open spec fn complete(self, g: Grammar) -> bool {
        &&& (forall|i: int, e: int|
            #![trigger (self.edges@[i])@[e]]
            0 <= i < self.edges@.len() && 0 <= e < (self.edges@[i])@.len()
                ==> self.nodes@[(self.edges@[i])@[e].1 as int].kernel() == adv_set(
                g,
                self.nodes@[i].items(),
                (self.edges@[i])@[e].0,
            ))
        &&& (forall|i: int, y: R|
            0 <= i < self.nodes@.len() && (#[trigger] self.nodes@[i]).items().contains(y) && (
            #[trigger] y.spec_sym(g)) is Some ==> (exists|e: int|
                0 <= e < (self.edges@[i])@.len() && Some((#[trigger] (self.edges@[i])@[e]).0)
                    == y.spec_sym(g)))
    }

    pub fn new() -> (r: Self)
        ensures
            r.nodes@.len() == 0,
            r.edges@.len() == 0,
    {
        Self { nodes: Vec::new(), edges: Vec::new() }
    }

    pub fn nodes(&self) -> (r: &Vec<LRNodeStruct<R>>)
        ensures
            r == self.nodes,
    {
        &self.nodes
    }

    pub fn edges(&self) -> (r: &Vec<Vec<(char, usize)>>)
        ensures
            r == self.edges,
    {
        &self.edges
    }

    pub fn push_node(&mut self, node: LRNodeStruct<R>)
        ensures
            final(self).nodes@ == old(self).nodes@.push(node),
            final(self).edges == old(self).edges,
    {
        self.nodes.push(node);
    }

    pub fn push_edge(&mut self, item: Vec<(char, usize)>)
        ensures
            final(self).edges@ == old(self).edges@.push(item),
            final(self).nodes == old(self).nodes,
    {
        self.edges.push(item);
    }

    pub fn insert_node(&mut self, index: usize, node: LRNodeStruct<R>)
        requires
            index < old(self).nodes@.len(),
        ensures
            final(self).nodes@ == old(self).nodes@.update(index as int, node),
            final(self).edges == old(self).edges,
    {
        self.nodes.set(index, node);
    }

    /// Records `c -> i` in a state's edge row: replaces the symbol's entry
    /// when one exists, else appends one.
    pub fn insert_edge(&mut self, index: usize, c: char, i: usize)
        requires
            index < old(self).edges@.len(),
        ensures
            final(self).nodes == old(self).nodes,
            final(self).edges@.len() == old(self).edges@.len(),
            forall|k: int|
                0 <= k < old(self).edges@.len() && k != index
                    ==> (#[trigger] final(self).edges@[k]) == old(self).edges@[k],
            ({
                let row = old(self).edges@[index as int]@;
                let row2 = final(self).edges@[index as int]@;
                (exists|j: int|
                    0 <= j < row.len() && (#[trigger] row[j]).0 == c && row2 == row.update(
                        j,
                        (c, i),
                    )) || ((forall|j: int| 0 <= j < row.len() ==> (#[trigger] row[j]).0 != c)
                    && row2 == row.push((c, i)))
            }),
    {
        let ghost row = self.edges@[index as int]@;
        let mut row2 = copy_edge_row(&self.edges[index]);
        let n = row2.len();
        let mut j: usize = 0;
        while j < n
            invariant
                0 <= j <= n,
                n == row.len(),
                row2@ == row,
                self.nodes == old(self).nodes,
                self.edges == old(self).edges,
                index < self.edges@.len(),
                row == self.edges@[index as int]@,
                forall|k: int| 0 <= k < j ==> (#[trigger] row[k]).0 != c,
            decreases n - j,
        {
            let p = vec_at(&row2, j);
            if p.0 == c {
                row2.set(j, (c, i));
                proof {
                    assert(row2@ =~= row.update(j as int, (c, i)));
                }
                self.edges.set(index, row2);
                return ;
            }
            j += 1;
        }
        row2.push((c, i));
        self.edges.set(index, row2);
    }

    /// Looks for a state with the given kernel; on success its index.
    pub fn exist(&self, kern: &Vec<R>) -> (r: (bool, usize))
        ensures
            r.0 ==> r.1 < self.nodes@.len() && self.nodes@[r.1 as int].kernel() == kern@.to_set(),
            !r.0 ==> (forall|i: int|
                0 <= i < self.nodes@.len() ==> (#[trigger] self.nodes@[i]).kernel()
                    != kern@.to_set()),
    {
        let mut i: usize = 0;
        while i < self.nodes.len()
            invariant
                0 <= i <= self.nodes@.len(),
                forall|k: int|
                    0 <= k < i ==> (#[trigger] self.nodes@[k]).kernel() != kern@.to_set(),
            decreases self.nodes@.len() - i,
        {
            if kernel_eq(&self.nodes[i].base, kern) {
                return (true, i);
            }
            i += 1;
        }
        (false, 0)
    }
}

/// Copies an edge row.
pub fn copy_edge_row(v: &Vec<(char, usize)>) -> (r: Vec<(char, usize)>)
    ensures
        r@ == v@,
{
    let mut r: Vec<(char, usize)> = Vec::new();
    let mut i: usize = 0;
    while i < v.len()
        invariant
            0 <= i <= v@.len(),
            r@ =~= v@.subrange(0, i as int),
        decreases v@.len() - i,
    {
        r.push(vec_at(v, i));
        i += 1;
    }
    proof {
        assert(r@ =~= v@);
    }
    r
}

impl<R: LRRule> LRGraphStruct<R> {
    /// Builds the whole graph breadth-first from the start state: every
    /// state's closure is computed, every step symbol gets an edge to the
    /// state with the advanced kernel (created the first time that kernel
    /// appears), and every state stays reachable from state 0.
    pub fn construct(&mut self, start_node: LRNodeStruct<R>, g: &Grammar)
        requires
            R::closure_ready(*g),
            old(self).nodes@.len() == 0,
            old(self).edges@.len() == 0,
            start_node.base@.no_duplicates(),
            start_node.base@.len() > 0,
            start_node.kernel().subset_of(R::universe(*g)),
        ensures
            final(self).wf(*g),
            final(self).complete(*g),
            final(self).nodes@.len() > 0,
            final(self).nodes@[0].kernel() == start_node.kernel(),
            final(self).nodes@[0].from == start_node.from,
            forall|i: int|
                0 <= i < final(self).nodes@.len() ==> reachable(final(self).edges_view(), i),
    {
        proof {
            R::lemma_universe_finite(*g);
            lemma_subsets_of_finite(R::universe(*g));
        }
        let ghost uni = R::universe(*g);
        let mut node = start_node;
        node.create_closure(g);
        self.nodes.push(node);
        let empty_row: Vec<(char, usize)> = Vec::new();
        self.edges.push(empty_row);
        proof {
            assert(reach_n(self.edges_view(), 0, 0));
            assert(self.nodes@[0].kernel() == start_node.kernel());
            lemma_node_count(self.nodes@, uni);
        }
        let mut cur: usize = 0;
        while cur < self.nodes.len()
            invariant
                R::closure_ready(*g),
                uni == R::universe(*g),
                uni.finite(),
                subsets_of(uni).finite(),
                0 <= cur <= self.nodes@.len(),
                self.nodes@.len() == self.edges@.len(),
                self.nodes@.len() > 0,
                self.nodes@[0].kernel() == start_node.kernel(),
                self.nodes@[0].from == start_node.from,
                forall|i: int|
                    0 <= i < self.nodes@.len() ==> (#[trigger] self.nodes@[i]).wf()
                        && self.nodes@[i].closed(*g) && self.nodes@[i].base@.len() > 0
                        && self.nodes@[i].kernel().subset_of(uni),
                forall|i: int, j: int|
                    0 <= i < j < self.nodes@.len() ==> (#[trigger] self.nodes@[i]).kernel() != (
                    #[trigger] self.nodes@[j]).kernel(),
                self.nodes@.len() <= subsets_of(uni).len(),
                forall|i: int, e1: int, e2: int|
                    #![trigger (self.edges@[i])@[e1], (self.edges@[i])@[e2]]
                    0 <= i < self.edges@.len() && 0 <= e1 < e2 < (self.edges@[i])@.len() ==> (
                    self.edges@[i])@[e1].0 != (self.edges@[i])@[e2].0,
                forall|i: int, e: int|
                    #![trigger (self.edges@[i])@[e]]
                    0 <= i < self.edges@.len() && 0 <= e < (self.edges@[i])@.len() ==> (
                    self.edges@[i])@[e].1 < self.nodes@.len(),
                forall|i: int, e: int|
                    #![trigger (self.edges@[i])@[e]]
                    0 <= i < self.edges@.len() && 0 <= e < (self.edges@[i])@.len()
                        ==> self.nodes@[(self.edges@[i])@[e].1 as int].kernel() == adv_set(
                        *g,
                        self.nodes@[i].items(),
                        (self.edges@[i])@[e].0,
                    ),
                forall|i: int, y: R|
                    0 <= i < cur && (#[trigger] self.nodes@[i]).items().contains(y) && (
                    #[trigger] y.spec_sym(*g)) is Some ==> (exists|e: int|
                        0 <= e < (self.edges@[i])@.len() && Some(
                            (#[trigger] (self.edges@[i])@[e]).0,
                        ) == y.spec_sym(*g)),
                forall|i: int| cur <= i < self.edges@.len() ==> (#[trigger] self.edges@[i])@.len()
                    == 0,
                forall|i: int| 0 <= i < self.nodes@.len() ==> reachable(self.edges_view(), i),
            decreases subsets_of(uni).len() - self.nodes@.len(), self.nodes@.len() - cur,
        {
            let ghost n0 = self.nodes@.len();
            let steps = self.nodes[cur].get_steps(g);
            let mut row: Vec<(char, usize)> = Vec::new();
            proof {
                assert((self.edges@[cur as int])@ =~= row@);
                assert(self.edges_view().update(cur as int, row@) =~= self.edges_view());
            }
            let mut e: usize = 0;
            while e < steps.len()
                invariant
                    R::closure_ready(*g),
                    uni == R::universe(*g),
                    uni.finite(),
                    subsets_of(uni).finite(),
                    0 <= e <= steps@.len(),
                    0 <= cur < self.nodes@.len(),
                    self.nodes@.len() >= n0,
                    self.nodes@.len() == self.edges@.len(),
                    self.nodes@.len() > 0,
                    self.nodes@[0].kernel() == start_node.kernel(),
                    self.nodes@[0].from == start_node.from,
                    forall|k1: int, k2: int|
                        0 <= k1 < k2 < steps@.len() ==> (steps@[k1]).0 != (steps@[k2]).0,
                    forall|k: int|
                        0 <= k < steps@.len() ==> (#[trigger] steps@[k]).1@.to_set() == adv_set(
                            *g,
                            self.nodes@[cur as int].items(),
                            steps@[k].0,
                        ) && steps@[k].1@.no_duplicates() && steps@[k].1@.len() > 0,
                    forall|y: R|
                        self.nodes@[cur as int].items().contains(y) && (#[trigger] y.spec_sym(
                            *g,
                        )) is Some ==> (exists|k: int|
                            0 <= k < steps@.len() && Some((#[trigger] steps@[k]).0) == y.spec_sym(
                                *g,
                            )),
                    forall|i: int|
                        0 <= i < self.nodes@.len() ==> (#[trigger] self.nodes@[i]).wf()
                            && self.nodes@[i].closed(*g) && self.nodes@[i].base@.len() > 0
                            && self.nodes@[i].kernel().subset_of(uni),
                    forall|i: int, j: int|
                        0 <= i < j < self.nodes@.len() ==> (#[trigger] self.nodes@[i]).kernel()
                            != (#[trigger] self.nodes@[j]).kernel(),
                    self.nodes@.len() <= subsets_of(uni).len(),
                    forall|i: int, e1: int, e2: int|
                        #![trigger (self.edges@[i])@[e1], (self.edges@[i])@[e2]]
                        0 <= i < self.edges@.len() && 0 <= e1 < e2 < (self.edges@[i])@.len() ==> (
                        self.edges@[i])@[e1].0 != (self.edges@[i])@[e2].0,
                    forall|i: int, e2: int|
                        #![trigger (self.edges@[i])@[e2]]
                        0 <= i < self.edges@.len() && 0 <= e2 < (self.edges@[i])@.len() ==> (
                        self.edges@[i])@[e2].1 < self.nodes@.len(),
                    forall|i: int, e2: int|
                        #![trigger (self.edges@[i])@[e2]]
                        0 <= i < self.edges@.len() && 0 <= e2 < (self.edges@[i])@.len()
                            ==> self.nodes@[(self.edges@[i])@[e2].1 as int].kernel() == adv_set(
                            *g,
                            self.nodes@[i].items(),
                            (self.edges@[i])@[e2].0,
                        ),
                    forall|i: int, y: R|
                        0 <= i < cur && (#[trigger] self.nodes@[i]).items().contains(y) && (
                        #[trigger] y.spec_sym(*g)) is Some ==> (exists|e2: int|
                            0 <= e2 < (self.edges@[i])@.len() && Some(
                                (#[trigger] (self.edges@[i])@[e2]).0,
                            ) == y.spec_sym(*g)),
                    forall|i: int| cur <= i < self.edges@.len() ==> (
                    #[trigger] self.edges@[i])@.len() == 0,
                    // the row under construction for the state being processed
                    row@.len() == e,
                    forall|k: int| 0 <= k < e ==> (#[trigger] row@[k]).0 == (steps@[k]).0,
                    forall|k: int|
                        0 <= k < e ==> (#[trigger] row@[k]).1 < self.nodes@.len()
                            && self.nodes@[row@[k].1 as int].kernel() == (steps@[k]).1@.to_set(),
                    forall|i: int|
                        0 <= i < self.nodes@.len() ==> reachable(
                            self.edges_view().update(cur as int, row@),
                            i,
                        ),
                decreases steps@.len() - e,
            {
                let ghost eold = self.edges@;
                let ghost nold = self.nodes@;
                let c = steps[e].0;
                let kern = copy_items(&steps[e].1);
                let ghost pview = self.edges_view().update(cur as int, row@);
                let (found, j) = self.exist(&kern);
                if found {
                    row.push((c, j));
                    proof {
                        assert(self.edges_view().update(cur as int, row@) =~= pview.update(
                            cur as int,
                            row@,
                        ));
                        assert(edges_extend(pview, self.edges_view().update(cur as int, row@)))
                            by {
                            assert forall|i: int| 0 <= i < pview.len() implies (
                            #[trigger] pview[i]).is_prefix_of(
                                self.edges_view().update(cur as int, row@)[i],
                            ) by {
                                if i != cur {
                                    assert(pview[i] == self.edges_view()[i]);
                                }
                            }
                        }
                        assert forall|i: int| 0 <= i < self.nodes@.len() implies reachable(
                            self.edges_view().update(cur as int, row@),
                            i,
                        ) by {
                            assert(reachable(pview, i));
                            let n = choose|n: nat| reach_n(pview, i, n);
                            lemma_reach_extend(
                                pview,
                                self.edges_view().update(cur as int, row@),
                                i,
                                n,
                            );
                        }
                    }
                } else {
                    let mut nnode = LRNodeStruct::new(kern, c);
                    proof {
                        assert(nnode.base@.no_duplicates());
                        assert forall|x: R| nnode.kernel().contains(x) implies uni.contains(x) by {
                            let y = choose|y: R|
                                self.nodes@[cur as int].items().contains(y) && #[trigger] y.spec_sym(
                                    *g,
                                ) == Some(c) && x == y.spec_next();
                            assert(self.nodes@[cur as int].items().contains(y));
                            assert(closure_set(*g, self.nodes@[cur as int].kernel()).contains(y));
                            lemma_items_in_universe(
                                *g,
                                self.nodes@[cur as int].kernel(),
                                uni,
                                y,
                            );
                            y.lemma_next_in_universe(*g);
                        }
                    }
                    nnode.create_closure(g);
                    let j2 = self.nodes.len();
                    self.nodes.push(nnode);
                    let empty_row: Vec<(char, usize)> = Vec::new();
                    self.edges.push(empty_row);
                    row.push((c, j2));
                    proof {
                        assert(forall|i: int|
                            0 <= i < eold.len() ==> (#[trigger] self.edges@[i]) == eold[i]);
                        assert(forall|i: int|
                            0 <= i < nold.len() ==> (#[trigger] self.nodes@[i]) == nold[i]);
                        // the new kernel is distinct from all the old ones
                        assert forall|i: int, j3: int|
                            0 <= i < j3 < self.nodes@.len() implies (
                        #[trigger] self.nodes@[i]).kernel() != (
                        #[trigger] self.nodes@[j3]).kernel() by {
                            if j3 == self.nodes@.len() - 1 {
                                assert(self.nodes@[i].kernel() != kern@.to_set());
                            }
                        }
                        // the state count stays below the number of kernels
                        lemma_node_count(self.nodes@, uni);
                        // reachability: the new state hangs off the current one
                        let e2 = self.edges_view().update(cur as int, row@);
                        assert(edges_extend(pview, e2)) by {
                            assert forall|i: int| 0 <= i < pview.len() implies (
                            #[trigger] pview[i]).is_prefix_of(e2[i]) by {
                                if i != cur {
                                    assert(pview[i] == self.edges_view()[i]);
                                }
                            }
                        }
                        assert forall|i: int| 0 <= i < self.nodes@.len() implies reachable(
                            e2,
                            i,
                        ) by {
                            if i < self.nodes@.len() - 1 {
                                assert(reachable(pview, i));
                                let n = choose|n: nat| reach_n(pview, i, n);
                                lemma_reach_extend(pview, e2, i, n);
                            } else {
                                assert(reachable(pview, cur as int));
                                let n = choose|n: nat| reach_n(pview, cur as int, n);
                                lemma_reach_extend(pview, e2, cur as int, n);
                                assert(e2[cur as int][row@.len() - 1] == (c, j2));
                                assert(reach_n(e2, i, n + 1));
                            }
                        }
                    }
                }
                proof {
                    assert forall|i2: int, y: R|
                        0 <= i2 < cur && (#[trigger] self.nodes@[i2]).items().contains(y) && (
                        #[trigger] y.spec_sym(*g)) is Some implies (exists|e2: int|
                        0 <= e2 < (self.edges@[i2])@.len() && Some(
                            (#[trigger] (self.edges@[i2])@[e2]).0,
                        ) == y.spec_sym(*g)) by {
                        assert(self.edges@[i2] == eold[i2]);
                        assert(self.nodes@[i2] == nold[i2]);
                        assert(nold[i2].items().contains(y));
                        let e2w = choose|e2: int|
                            0 <= e2 < (eold[i2])@.len() && Some((#[trigger] (eold[i2])@[e2]).0)
                                == y.spec_sym(*g);
                        assert((self.edges@[i2])@[e2w] == (eold[i2])@[e2w]);
                    }
                }
                e += 1;
            }
            let ghost eprev = self.edges@;
            let ghost vprev = self.edges_view();
            self.edges.set(cur, row);
            proof {
                assert(forall|i: int|
                    0 <= i < eprev.len() && i != cur ==> (#[trigger] self.edges@[i]) == eprev[i]);
                assert((self.edges@[cur as int])@ == row@);
            }
            proof {
                // the finished row serves every step symbol of the state
                assert forall|i: int, y: R|
                    0 <= i < cur + 1 && (#[trigger] self.nodes@[i]).items().contains(y) && (
                    #[trigger] y.spec_sym(*g)) is Some implies (exists|e2: int|
                    0 <= e2 < (self.edges@[i])@.len() && Some((#[trigger] (self.edges@[i])@[e2]).0)
                        == y.spec_sym(*g)) by {
                    if i == cur {
                        let k = choose|k: int|
                            0 <= k < steps@.len() && Some((#[trigger] steps@[k]).0) == y.spec_sym(
                                *g,
                            );
                        assert((self.edges@[cur as int])@ == row@);
                        assert(row@[k].0 == (steps@[k]).0);
                        assert(Some((self.edges@[i])@[k].0) == y.spec_sym(*g));
                    } else {
                        let e2 = choose|e2: int|
                            0 <= e2 < (self.edges@[i])@.len() && Some(
                                (#[trigger] (self.edges@[i])@[e2]).0,
                            ) == y.spec_sym(*g);
                    }
                }
                assert forall|i: int| 0 <= i < self.nodes@.len() implies reachable(
                    self.edges_view(),
                    i,
                ) by {
                    assert(reachable(vprev.update(cur as int, row@), i));
                    assert(self.edges_view() =~= vprev.update(cur as int, row@));
                }
            }
            cur += 1;
        }
    }
}

/// Pairwise-distinct kernels drawn from subsets of a finite universe bound
/// the number of states.
proof fn lemma_node_count<R: LRRule>(nodes: Seq<LRNodeStruct<R>>, uni: Set<R>)
    requires
        uni.finite(),
        forall|i: int, j: int|
            0 <= i < j < nodes.len() ==> (#[trigger] nodes[i]).kernel() != (
            #[trigger] nodes[j]).kernel(),
        forall|i: int| 0 <= i < nodes.len() ==> (#[trigger] nodes[i]).kernel().subset_of(uni),
    ensures
        nodes.len() <= subsets_of(uni).len(),
{
    broadcast use vstd::seq_lib::seq_to_set_is_finite;

    lemma_subsets_of_finite(uni);
    let kseq = nodes.map_values(|nd: LRNodeStruct<R>| nd.kernel());
    assert(kseq.no_duplicates()) by {
        assert forall|a: int, b: int|
            0 <= a < kseq.len() && 0 <= b < kseq.len() && a != b implies kseq[a] != kseq[b] by {
            assert(kseq[a] == nodes[a].kernel());
            assert(kseq[b] == nodes[b].kernel());
        }
    }
    assert forall|i: int| 0 <= i < kseq.len() implies subsets_of(uni).contains(
        #[trigger] kseq[i],
    ) by {
        assert(kseq[i] == nodes[i].kernel());
        lemma_subsets_of_complete(uni, nodes[i].kernel());
    }
    lemma_distinct_seq_bounded(kseq, subsets_of(uni));
}

/// The items of a closed state built on a universe kernel lie in the
/// universe.
proof fn lemma_items_in_universe<R: LRRule>(g: Grammar, kernel: Set<R>, uni: Set<R>, y: R)
    requires
        R::closure_ready(g),
        uni == R::universe(g),
        kernel.subset_of(uni),
        closure_set(g, kernel).contains(y),
    ensures
        uni.contains(y),
{
    assert forall|z: R| uni.contains(z) implies (#[trigger] z.spec_closure_of(g)).subset_of(
        uni,
    ) by {
        z.lemma_closure_of_in_universe(g);
    }
    crate::lrnode::lemma_closure_minimal(g, kernel, uni);
}

} // verus!
