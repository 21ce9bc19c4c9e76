//! Grammars over single-character symbols, with FIRST and FOLLOW sets
//! computed by bottom-up fixpoint iteration.

use vstd::prelude::*;

use crate::sets::lemma_distinct_seq_bounded;
use crate::sets::lemma_sum_lens_bounded;
use crate::sets::lemma_sum_lens_pointwise;
use crate::sets::sum_lens;

verus! {

/// A grammar symbol as it appears in lookahead and FIRST/FOLLOW sets: either
/// an ordinary terminal character, or `Eps`, which stands both for the empty
/// word (in FIRST sets) and for the end-marker (in FOLLOW sets and as the
/// lookahead past the end of the input).
#[derive(Debug, PartialEq, Eq, Structural, Clone, Copy, Hash)]
pub enum Sym {
    Normal(char),
    Eps,
}

/// The symbol of a terminal character. Specifications build `Sym` values
/// through this function so that the solver keeps the character's typing.
pub open spec fn term_sym(c: char) -> Sym {
    Sym::Normal(c)
}

/// A production: `left -> right`. An empty `right` denotes an ε-production.
#[derive(Debug, Clone)]
pub struct Rule {
    pub left: char,
    pub right: Vec<char>,
}

impl Rule {
    pub fn new(left: char, right: Vec<char>) -> (r: Self)
        ensures
            r.left == left,
            r.right == right,
    {
        Self { left, right }
    }
}

/// A grammar: disjoint sets of nonterminal and terminal characters, a list of
/// productions numbered in insertion order (production 0 is the augmented
/// start production), and, once computed, the FIRST set of every production
/// and the FOLLOW set of every nonterminal.
///
/// `first[p]` is kept parallel to `rules`; `follow[j]` is kept parallel to
/// `non_terms`. Both hold duplicate-free vectors standing for sets.
#[derive(Debug, Clone)]
pub struct Grammar {
    pub non_terms: Vec<char>,
    pub terms: Vec<char>,
    pub rules: Vec<Rule>,
    pub first: Vec<Vec<Sym>>,
    pub follow: Vec<Vec<Sym>>,
}

impl Grammar {
    /// Symbols admissible on a right-hand side.
    pub open spec fn is_sym(self, c: char) -> bool {
        self.terms@.contains(c) || self.non_terms@.contains(c)
    }

    pub open spec fn wf_rule(self, r: Rule) -> bool {
        &&& self.non_terms@.contains(r.left)
        &&& forall|i: int| 0 <= i < r.right@.len() ==> self.is_sym(#[trigger] r.right@[i])
    }

    /// Basic well-formedness: terminal and nonterminal alphabets are
    /// duplicate-free and disjoint, and every production is over them.
    pub open spec fn wf(self) -> bool {
        &&& self.non_terms@.no_duplicates()
        &&& self.terms@.no_duplicates()
        &&& forall|i: int|
            0 <= i < self.terms@.len() ==> !self.non_terms@.contains(#[trigger] self.terms@[i])
        &&& forall|i: int| 0 <= i < self.rules@.len() ==> self.wf_rule(#[trigger] self.rules@[i])
    }

    pub fn new(non_terms: Vec<char>, terms: Vec<char>) -> (g: Grammar)
        requires
            non_terms@.no_duplicates(),
            terms@.no_duplicates(),
            forall|i: int| 0 <= i < terms@.len() ==> !non_terms@.contains(#[trigger] terms@[i]),
        ensures
            g.wf(),
            g.non_terms == non_terms,
            g.terms == terms,
            g.rules@.len() == 0,
            g.first@.len() == 0,
            g.follow@.len() == 0,
    {
        Grammar { non_terms, terms, rules: Vec::new(), first: Vec::new(), follow: Vec::new() }
    }

    pub fn is_term(&self, sym: &char) -> (r: bool)
        ensures
            r == self.terms@.contains(*sym),
    {
        let mut i: usize = 0;
        while i < self.terms.len()
            invariant
                0 <= i <= self.terms@.len(),
                forall|k: int| 0 <= k < i ==> self.terms@[k] != *sym,
            decreases self.terms@.len() - i,
        {
            if self.terms[i] == *sym {
                return true;
            }
            i += 1;
        }
        false
    }

    pub fn is_non_term(&self, sym: &char) -> (r: bool)
        ensures
            r == self.non_terms@.contains(*sym),
    {
        let mut i: usize = 0;
        while i < self.non_terms.len()
            invariant
                0 <= i <= self.non_terms@.len(),
                forall|k: int| 0 <= k < i ==> self.non_terms@[k] != *sym,
            decreases self.non_terms@.len() - i,
        {
            if self.non_terms[i] == *sym {
                return true;
            }
            i += 1;
        }
        false
    }

    /// Appends a production given its right-hand side as a string.
    /// Succeeds exactly when the left symbol is a nonterminal and every
    /// right-hand-side character is a known terminal or nonterminal.
    pub fn add_rule(&mut self, left: char, right: &str) -> (r: Result<(), &'static str>)
        ensures
            (r is Ok) <==> (old(self).non_terms@.contains(left) && (forall|i: int|
                0 <= i < right@.len() ==> old(self).is_sym(#[trigger] right@[i]))),
            final(self).non_terms == old(self).non_terms,
            final(self).terms == old(self).terms,
            final(self).first == old(self).first,
            final(self).follow == old(self).follow,
            (r is Ok) ==> (final(self).rules@.len() == old(self).rules@.len() + 1
                && final(self).rules@.drop_last() == old(self).rules@
                && final(self).rules@.last().left == left && final(self).rules@.last().right@ == right@),
            (r is Err) ==> final(self).rules == old(self).rules,
    {
        let mut chars: Vec<char> = Vec::new();
        let n = right.unicode_len();
        for i in 0..n
            invariant
                n == right@.len(),
                chars@ =~= right@.subrange(0, i as int),
        {
            chars.push(right.get_char(i));
        }
        proof {
            assert(chars@ =~= right@);
        }
        self.add_rule_vec(left, chars)
    }

    /// Appends a production given its right-hand side as a vector.
    pub fn add_rule_vec(&mut self, left: char, right: Vec<char>) -> (r: Result<
        (),
        &'static str,
    >)
        ensures
            (r is Ok) <==> (old(self).non_terms@.contains(left) && (forall|i: int|
                0 <= i < right@.len() ==> old(self).is_sym(#[trigger] right@[i]))),
            final(self).non_terms == old(self).non_terms,
            final(self).terms == old(self).terms,
            final(self).first == old(self).first,
            final(self).follow == old(self).follow,
            (r is Ok) ==> (final(self).rules@.len() == old(self).rules@.len() + 1
                && final(self).rules@.drop_last() == old(self).rules@
                && final(self).rules@.last().left == left && final(self).rules@.last().right == right),
            (r is Err) ==> final(self).rules == old(self).rules,
    {
        if !self.is_non_term(&left) {
            return Err("left must be non terminal");
        }
        let mut i: usize = 0;
        while i < right.len()
            invariant
                0 <= i <= right@.len(),
                forall|k: int| 0 <= k < i ==> self.is_sym(#[trigger] right@[k]),
            decreases right@.len() - i,
        {
            if !self.is_term(&right[i]) && !self.is_non_term(&right[i]) {
                return Err("right must contain only terminals and non terminals");
            }
            i += 1;
        }
        self.rules.push(Rule { left, right });
        proof {
            assert(self.rules@.drop_last() =~= old(self).rules@);
        }
        Ok(())
    }

    /// The grammar apart from its computed tables; specifications about
    /// FIRST and FOLLOW are stated over this part, which never changes once
    /// the productions are in place.
    pub open spec fn gcore(self) -> GrammarCore {
        GrammarCore { terms: self.terms@, non_terms: self.non_terms@, rules: self.rules@ }
    }

    /// The indices of the productions whose left side is `sym`, ascending.
    pub fn rule_for_sym(&self, sym: char) -> (res: Vec<usize>)
        ensures
            forall|k: int|
                0 <= k < res@.len() ==> 0 <= #[trigger] res@[k] < self.rules@.len()
                    && self.rules@[res@[k] as int].left == sym,
            forall|r: int|
                0 <= r < self.rules@.len() && self.rules@[r].left == sym ==> res@.contains(
                    r as usize,
                ),
            forall|k1: int, k2: int| 0 <= k1 < k2 < res@.len() ==> res@[k1] < res@[k2],
    {
        let mut res: Vec<usize> = Vec::new();
        let mut i: usize = 0;
        while i < self.rules.len()
            invariant
                0 <= i <= self.rules@.len(),
                forall|k: int|
                    0 <= k < res@.len() ==> 0 <= #[trigger] res@[k] < i
                        && self.rules@[res@[k] as int].left == sym,
                forall|r: int|
                    0 <= r < i && self.rules@[r].left == sym ==> res@.contains(r as usize),
                forall|k1: int, k2: int| 0 <= k1 < k2 < res@.len() ==> res@[k1] < res@[k2],
            decreases self.rules@.len() - i,
        {
            if self.rules[i].left == sym {
                let ghost old_res = res@;
                res.push(i);
                proof {
                    assert forall|r: int|
                        0 <= r < i + 1 && self.rules@[r].left == sym implies res@.contains(
                        r as usize,
                    ) by {
                        if r < i {
                            let k = choose|k: int|
                                0 <= k < old_res.len() && old_res[k] == r as usize;
                            assert(res@[k] == r as usize);
                        } else {
                            assert(res@[res@.len() - 1] == i as usize);
                        }
                    }
                }
            }
            i += 1;
        }
        res
    }
}

/// The productions and alphabets of a grammar, without the computed tables.
pub struct GrammarCore {
    pub terms: Seq<char>,
    pub non_terms: Seq<char>,
    pub rules: Seq<Rule>,
}

impl GrammarCore {
    pub open spec fn is_sym(self, c: char) -> bool {
        self.terms.contains(c) || self.non_terms.contains(c)
    }

    /// The set of symbols a FIRST or FOLLOW entry may contain: the terminals
    /// (as `Sym::Normal`) together with `Sym::Eps`.
    pub open spec fn sym_universe(self) -> Set<Sym> {
        Set::new(
            |s: Sym|
                s == Sym::Eps || (exists|i: int|
                    0 <= i < self.terms.len() && s == term_sym(#[trigger] self.terms[i])),
        )
    }
}

/// The FIRST table read as a sequence of sets.
pub open spec fn first_tbl(g: Grammar) -> Seq<Set<Sym>> {
    g.first@.map_values(|v: Vec<Sym>| v@.to_set())
}

/// Union of `tbl[r]` over the productions `r < upto` whose left side is `n`.
pub open spec fn first_union_upto(c: GrammarCore, tbl: Seq<Set<Sym>>, n: char, upto: int) -> Set<
    Sym,
>
    decreases upto,
{
    if upto <= 0 {
        Set::empty()
    } else if c.rules[upto - 1].left == n {
        first_union_upto(c, tbl, n, upto - 1).union(tbl[upto - 1])
    } else {
        first_union_upto(c, tbl, n, upto - 1)
    }
}

/// Union of `tbl[r]` over all productions of the nonterminal `n`.
pub open spec fn first_of_nonterm(c: GrammarCore, tbl: Seq<Set<Sym>>, n: char) -> Set<Sym> {
    first_union_upto(c, tbl, n, c.rules.len() as int)
}

/// FIRST of a symbol string, read off a FIRST-by-production table: `{ε}` for
/// the empty string; `{t}` when the string starts with a terminal `t`; for a
/// leading nonterminal, the union of the table entries of its productions,
/// with ε replaced by FIRST of the remaining string whenever it occurs.
pub open spec fn first_from_tbl(c: GrammarCore, tbl: Seq<Set<Sym>>, syms: Seq<char>) -> Set<Sym>
    decreases syms.len(),
{
    if syms.len() == 0 {
        Set::empty().insert(Sym::Eps)
    } else if c.terms.contains(syms[0]) {
        Set::empty().insert(term_sym(syms[0]))
    } else if c.non_terms.contains(syms[0]) {
        let u = first_of_nonterm(c, tbl, syms[0]);
        if u.contains(Sym::Eps) {
            u.remove(Sym::Eps).union(first_from_tbl(c, tbl, syms.drop_first()))
        } else {
            u
        }
    } else {
        Set::empty()
    }
}

/// A FIRST-by-production table closed under the defining equations.
/// The computed table is the least such table.
pub open spec fn first_closed(c: GrammarCore, tbl: Seq<Set<Sym>>) -> bool {
    &&& tbl.len() == c.rules.len()
    &&& forall|p: int|
        0 <= p < c.rules.len() ==> first_from_tbl(c, tbl, c.rules[p].right@).subset_of(
            #[trigger] tbl[p],
        )
}

/// A terminal's symbol lies in the symbol universe.
pub proof fn lemma_normal_in_universe(c: GrammarCore, x: char)
    requires
        c.terms.contains(x),
    ensures
        c.sym_universe().contains(term_sym(x)),
{
    let k = choose|k: int| 0 <= k < c.terms.len() && c.terms[k] == x;
    assert(term_sym(x) == term_sym(c.terms[k]));
}

/// The symbols of the first `k` terminals, together with ε.
spec fn normals_upto(terms: Seq<char>, k: int) -> Set<Sym>
    decreases k,
{
    if k <= 0 {
        Set::empty().insert(Sym::Eps)
    } else {
        normals_upto(terms, k - 1).insert(term_sym(terms[k - 1]))
    }
}

#[verifier::rlimit(60)]
proof fn lemma_normals_upto(terms: Seq<char>, k: int)
    requires
        0 <= k <= terms.len(),
    ensures
        normals_upto(terms, k).finite(),
        normals_upto(terms, k).len() <= k + 1,
        forall|x: Sym|
            normals_upto(terms, k).contains(x) <==> (x == Sym::Eps || (exists|i: int|
                0 <= i < k && x == term_sym(#[trigger] terms[i]))),
    decreases k,
{
    broadcast use vstd::set::group_set_axioms;

    if k <= 0 {
    } else {
        lemma_normals_upto(terms, k - 1);
        assert forall|x: Sym| normals_upto(terms, k).contains(x) implies (x == Sym::Eps || (
        exists|i: int| 0 <= i < k && x == term_sym(#[trigger] terms[i]))) by {
            if x != Sym::Eps {
                if normals_upto(terms, k - 1).contains(x) {
                    let i = choose|i: int|
                        0 <= i < k - 1 && x == term_sym(#[trigger] terms[i]);
                    assert(0 <= i < k && x == term_sym(terms[i]));
                } else {
                    assert(x == term_sym(terms[k - 1]));
                }
            }
        }
        assert forall|x: Sym| (x == Sym::Eps || (exists|i: int|
            0 <= i < k && x == term_sym(#[trigger] terms[i]))) implies normals_upto(
            terms,
            k,
        ).contains(x) by {
            if x != Sym::Eps {
                let i = choose|i: int| 0 <= i < k && x == term_sym(#[trigger] terms[i]);
                if i < k - 1 {
                    assert(normals_upto(terms, k - 1).contains(x));
                } else {
                    assert(x == term_sym(terms[k - 1]));
                    assert(normals_upto(terms, k).contains(x));
                }
            }
        }
        assert(normals_upto(terms, k).len() <= normals_upto(terms, k - 1).len() + 1);
    }
}

/// The symbol universe is finite, with at most one symbol per terminal plus ε.
pub proof fn lemma_sym_universe_finite(c: GrammarCore)
    ensures
        c.sym_universe().finite(),
        c.sym_universe().len() <= c.terms.len() + 1,
{
    lemma_normals_upto(c.terms, c.terms.len() as int);
    assert(c.sym_universe() =~= normals_upto(c.terms, c.terms.len() as int));
}

pub proof fn lemma_first_union_mono(
    c: GrammarCore,
    t1: Seq<Set<Sym>>,
    t2: Seq<Set<Sym>>,
    n: char,
    upto: int,
)
    requires
        t1.len() == t2.len(),
        upto <= t1.len(),
        forall|r: int| 0 <= r < t1.len() ==> (#[trigger] t1[r]).subset_of(t2[r]),
    ensures
        first_union_upto(c, t1, n, upto).subset_of(first_union_upto(c, t2, n, upto)),
    decreases upto,
{
    if upto <= 0 {
    } else {
        lemma_first_union_mono(c, t1, t2, n, upto - 1);
        assert forall|x: Sym| first_union_upto(c, t1, n, upto).contains(x) implies first_union_upto(
            c,
            t2,
            n,
            upto,
        ).contains(x) by {
            if c.rules[upto - 1].left == n && !first_union_upto(c, t1, n, upto - 1).contains(x) {
                assert(t1[upto - 1].contains(x));
            }
        }
    }
}

/// FIRST-of-a-string is monotone in the table it reads.
pub proof fn lemma_first_from_mono(
    c: GrammarCore,
    t1: Seq<Set<Sym>>,
    t2: Seq<Set<Sym>>,
    syms: Seq<char>,
)
    requires
        t1.len() == t2.len(),
        t1.len() == c.rules.len(),
        forall|r: int| 0 <= r < t1.len() ==> (#[trigger] t1[r]).subset_of(t2[r]),
    ensures
        first_from_tbl(c, t1, syms).subset_of(first_from_tbl(c, t2, syms)),
    decreases syms.len(),
{
    if syms.len() == 0 {
    } else if c.terms.contains(syms[0]) {
    } else if c.non_terms.contains(syms[0]) {
        lemma_first_union_mono(c, t1, t2, syms[0], c.rules.len() as int);
        lemma_first_from_mono(c, t1, t2, syms.drop_first());
        let u1 = first_of_nonterm(c, t1, syms[0]);
        let u2 = first_of_nonterm(c, t2, syms[0]);
        assert forall|x: Sym| first_from_tbl(c, t1, syms).contains(x) implies first_from_tbl(
            c,
            t2,
            syms,
        ).contains(x) by {
            if u1.contains(Sym::Eps) {
                assert(u2.contains(Sym::Eps));
            }
        }
    } else {
    }
}

pub proof fn lemma_first_union_bounded(
    c: GrammarCore,
    tbl: Seq<Set<Sym>>,
    n: char,
    upto: int,
    bound: Set<Sym>,
)
    requires
        upto <= tbl.len(),
        forall|r: int| 0 <= r < tbl.len() ==> (#[trigger] tbl[r]).subset_of(bound),
    ensures
        first_union_upto(c, tbl, n, upto).subset_of(bound),
    decreases upto,
{
    if upto <= 0 {
    } else {
        lemma_first_union_bounded(c, tbl, n, upto - 1, bound);
        assert forall|x: Sym| first_union_upto(c, tbl, n, upto).contains(x) implies bound.contains(
            x,
        ) by {
            if c.rules[upto - 1].left == n && !first_union_upto(c, tbl, n, upto - 1).contains(x) {
                assert(tbl[upto - 1].contains(x));
            }
        }
    }
}

/// Whatever FIRST-of-a-string returns lies in the symbol universe, as long as
/// the table it reads does.
#[verifier::rlimit(60)]
pub proof fn lemma_first_from_bounded(c: GrammarCore, tbl: Seq<Set<Sym>>, syms: Seq<char>)
    requires
        tbl.len() == c.rules.len(),
        forall|r: int| 0 <= r < tbl.len() ==> (#[trigger] tbl[r]).subset_of(c.sym_universe()),
    ensures
        first_from_tbl(c, tbl, syms).subset_of(c.sym_universe()),
    decreases syms.len(),
{
    if syms.len() == 0 {
        assert forall|x: Sym| first_from_tbl(c, tbl, syms).contains(x)
            implies c.sym_universe().contains(x) by {
            assert(x == Sym::Eps);
        }
    } else if c.terms.contains(syms[0]) {
        lemma_normal_in_universe(c, syms[0]);
        assert forall|x: Sym| first_from_tbl(c, tbl, syms).contains(x)
            implies c.sym_universe().contains(x) by {
            assert(x == term_sym(syms[0]));
        }
    } else if c.non_terms.contains(syms[0]) {
        lemma_first_union_bounded(c, tbl, syms[0], c.rules.len() as int, c.sym_universe());
        lemma_first_from_bounded(c, tbl, syms.drop_first());
        let u = first_of_nonterm(c, tbl, syms[0]);
        assert forall|x: Sym| first_from_tbl(c, tbl, syms).contains(x) implies
            c.sym_universe().contains(x) by {
            if u.contains(Sym::Eps) && !first_from_tbl(c, tbl, syms.drop_first()).contains(x) {
                assert(u.contains(x));
            }
        }
    } else {
    }
}

/// Membership test on a symbol vector standing for a set.
pub fn contains_sym(v: &Vec<Sym>, s: Sym) -> (r: bool)
    ensures
        r == v@.contains(s),
{
    let mut i: usize = 0;
    while i < v.len()
        invariant
            0 <= i <= v@.len(),
            forall|k: int| 0 <= k < i ==> v@[k] != s,
        decreases v@.len() - i,
    {
        if v[i] == s {
            return true;
        }
        i += 1;
    }
    false
}

/// Set union of two duplicate-free symbol vectors: `dst`'s entries keep their
/// positions, the new entries of `src` are appended in `src`'s order.
pub fn union_syms(dst: &Vec<Sym>, src: &Vec<Sym>) -> (r: Vec<Sym>)
    requires
        dst@.no_duplicates(),
    ensures
        r@.no_duplicates(),
        r@.to_set() == dst@.to_set().union(src@.to_set()),
        r@.len() >= dst@.len(),
        (r@.len() == dst@.len()) <==> src@.to_set().subset_of(dst@.to_set()),
{
    let mut r: Vec<Sym> = Vec::new();
    let mut i: usize = 0;
    while i < dst.len()
        invariant
            0 <= i <= dst@.len(),
            r@ =~= dst@.subrange(0, i as int),
        decreases dst@.len() - i,
    {
        r.push(dst[i]);
        i += 1;
    }
    proof {
        assert(r@ =~= dst@);
        crate::sets::lemma_empty_to_set(src@.subrange(0, 0));
        assert(r@.to_set() =~= dst@.to_set().union(src@.subrange(0, 0).to_set()));
    }
    let mut j: usize = 0;
    while j < src.len()
        invariant
            0 <= j <= src@.len(),
            dst@.no_duplicates(),
            r@.no_duplicates(),
            dst@.is_prefix_of(r@),
            r@.to_set() =~= dst@.to_set().union(src@.subrange(0, j as int).to_set()),
        decreases src@.len() - j,
    {
        let ghost pre = r@;
        if !contains_sym(&r, src[j]) {
            r.push(src[j]);
            proof {
                crate::sets::lemma_push_distinct(pre, src@[j as int]);
            }
        } else {
            proof {
                assert(r@.to_set().contains(src@[j as int]));
            }
        }
        proof {
            crate::sets::lemma_take_one_more(src@, j as int);
            assert(r@.to_set() =~= dst@.to_set().union(src@.subrange(0, j + 1).to_set()));
        }
        j += 1;
    }
    proof {
        assert(src@.subrange(0, src@.len() as int) =~= src@);
        if r@.len() == dst@.len() {
            assert(r@ =~= dst@);
            assert forall|x: Sym| src@.to_set().contains(x) implies dst@.to_set().contains(x) by {
                assert(r@.to_set().contains(x));
            }
        }
        if src@.to_set().subset_of(dst@.to_set()) {
            assert(r@.to_set() =~= dst@.to_set());
            r@.unique_seq_to_set();
            dst@.unique_seq_to_set();
        }
    }
    r
}

/// The symbols of `v` without ε, in their order.
fn remove_eps(v: &Vec<Sym>) -> (r: Vec<Sym>)
    requires
        v@.no_duplicates(),
    ensures
        r@.no_duplicates(),
        r@.to_set() == v@.to_set().remove(Sym::Eps),
{
    let mut kept: Vec<Sym> = Vec::new();
    let mut i: usize = 0;
    while i < v.len()
        invariant
            0 <= i <= v@.len(),
            v@.no_duplicates(),
            kept@.no_duplicates(),
            kept@.to_set() =~= v@.subrange(0, i as int).to_set().remove(Sym::Eps),
        decreases v@.len() - i,
    {
        let ghost pre = kept@;
        if !matches!(v[i], Sym::Eps) {
            proof {
                if pre.contains(v@[i as int]) {
                    assert(kept@.to_set().contains(v@[i as int]));
                    assert(v@.subrange(0, i as int).contains(v@[i as int]));
                    let k2 = choose|k2: int|
                        0 <= k2 < i && v@.subrange(0, i as int)[k2] == v@[i as int];
                    assert(v@[k2] == v@[i as int]);
                    assert(false);
                }
            }
            kept.push(v[i]);
            proof {
                crate::sets::lemma_push_distinct(pre, v@[i as int]);
            }
        }
        proof {
            crate::sets::lemma_take_one_more(v@, i as int);
            assert(kept@.to_set() =~= v@.subrange(0, i + 1).to_set().remove(Sym::Eps));
        }
        i += 1;
    }
    proof {
        assert(v@.subrange(0, v@.len() as int) =~= v@);
    }
    kept
}

impl Grammar {
    /// Invariants of the FIRST table once computed: one duplicate-free entry
    /// per production, each within the symbol universe, and together a table
    /// closed under (indeed equal to) the defining FIRST equations.
    pub open spec fn first_ok(self) -> bool {
        &&& self.first@.len() == self.rules@.len()
        &&& (forall|p: int|
            0 <= p < self.first@.len() ==> (#[trigger] self.first@[p])@.no_duplicates())
        &&& (forall|p: int|
            0 <= p < self.first@.len() ==> (#[trigger] self.first@[p])@.to_set().subset_of(
                self.gcore().sym_universe(),
            ))
        &&& (forall|p: int|
            0 <= p < self.rules@.len() ==> (#[trigger] self.first@[p])@.to_set() == first_from_tbl(
                self.gcore(),
                first_tbl(self),
                self.rules@[p].right@,
            ))
    }

    /// The computed FIRST table is below every closed table: together with
    /// `first_ok` it is exactly the least fixpoint of the FIRST equations.
    pub open spec fn first_minimal(self) -> bool {
        forall|tbl2: Seq<Set<Sym>>| #[trigger]
            first_closed(self.gcore(), tbl2) ==> forall|p: int|
                0 <= p < self.rules@.len() ==> (#[trigger] self.first@[p])@.to_set().subset_of(
                    tbl2[p],
                )
    }

    /// The FIRST set already computed for a production, if the index is in
    /// range.
    pub fn first(&self, rule: usize) -> (r: Option<&Vec<Sym>>)
        ensures
            (r is Some) <==> rule < self.first@.len(),
            (r is Some) ==> r->0@ == self.first@[rule as int]@,
    {
        if rule < self.first.len() {
            Some(&self.first[rule])
        } else {
            None
        }
    }

    /// FIRST of the suffix `syms[from..]`, read off the current FIRST table.
    #[verifier::rlimit(100)]
    pub fn first_from(&self, syms: &Vec<char>, from: usize) -> (res: Vec<Sym>)
        requires
            self.first@.len() == self.rules@.len(),
            from <= syms@.len(),
        ensures
            res@.no_duplicates(),
            res@.to_set() == first_from_tbl(self.gcore(), first_tbl(*self), syms@.skip(from as int)),
        decreases syms@.len() - from,
    {
        let ghost target = first_from_tbl(self.gcore(), first_tbl(*self), syms@.skip(from as int));
        if from >= syms.len() {
            let mut res: Vec<Sym> = Vec::new();
            res.push(Sym::Eps);
            proof {
                assert(syms@.skip(from as int).len() == 0);
                crate::sets::lemma_singleton_to_set(res@, Sym::Eps);
            }
            return res;
        }
        let c0 = crate::sets::char_at(syms, from);
        proof {
            assert(syms@.skip(from as int)[0] == syms@[from as int]);
            assert(syms@.skip(from as int).len() == syms@.len() - from);
        }
        if self.is_term(&c0) {
            let mut res: Vec<Sym> = Vec::new();
            res.push(Sym::Normal(c0));
            proof {
                crate::sets::lemma_singleton_to_set(res@, Sym::Normal(c0));
            }
            return res;
        }
        if !self.is_non_term(&c0) {
            let res: Vec<Sym> = Vec::new();
            proof {
                crate::sets::lemma_empty_to_set(res@);
            }
            return res;
        }
        // Union the FIRST entries of every production of `c0`, in index order.
        let mut acc: Vec<Sym> = Vec::new();
        let mut rix: usize = 0;
        while rix < self.rules.len()
            invariant
                0 <= rix <= self.rules@.len(),
                self.first@.len() == self.rules@.len(),
                acc@.no_duplicates(),
                acc@.to_set() == first_union_upto(self.gcore(), first_tbl(*self), c0, rix as int),
            decreases self.rules@.len() - rix,
        {
            if self.rules[rix].left == c0 {
                proof {
                    assert(first_tbl(*self)[rix as int] == self.first@[rix as int]@.to_set());
                }
                acc = union_syms(&acc, &self.first[rix]);
            }
            rix += 1;
        }
        if contains_sym(&acc, Sym::Eps) {
            let tail = self.first_from(syms, from + 1);
            let kept = remove_eps(&acc);
            let out = union_syms(&kept, &tail);
            proof {
                assert(syms@.skip(from as int).drop_first() =~= syms@.skip(from as int + 1));
                assert(out@.to_set() =~= target);
            }
            out
        } else {
            proof {
                assert(acc@.to_set() =~= target);
            }
            acc
        }
    }
}

/// Duplicate-free rows within the symbol universe total at most
/// `rows * (terminals + 1)` entries.
proof fn lemma_entries_capped(c: GrammarCore, tbl: Seq<Vec<Sym>>)
    requires
        forall|p: int| 0 <= p < tbl.len() ==> (#[trigger] tbl[p])@.no_duplicates(),
        forall|p: int|
            0 <= p < tbl.len() ==> (#[trigger] tbl[p])@.to_set().subset_of(c.sym_universe()),
    ensures
        sum_lens(tbl) <= tbl.len() * (c.terms.len() + 1),
{
    lemma_sym_universe_finite(c);
    assert forall|p: int| 0 <= p < tbl.len() implies (#[trigger] tbl[p])@.len() <= c.terms.len()
        + 1 by {
        assert forall|ii: int| 0 <= ii < tbl[p]@.len() implies c.sym_universe().contains(
            #[trigger] tbl[p]@[ii],
        ) by {
            assert(tbl[p]@.to_set().contains(tbl[p]@[ii]));
        }
        lemma_distinct_seq_bounded(tbl[p]@, c.sym_universe());
    }
    lemma_sum_lens_bounded(tbl, (c.terms.len() + 1) as nat);
}

impl Grammar {
    /// Invariants that hold of the FIRST table at every step of its
    /// computation: the right length, duplicate-free entries within the
    /// symbol universe, each entry below FIRST of its right-hand side, and
    /// the whole table below every closed table.
    pub open spec fn first_partial(self) -> bool {
        &&& self.wf()
        &&& self.first@.len() == self.rules@.len()
        &&& (forall|p: int|
            0 <= p < self.first@.len() ==> (#[trigger] self.first@[p])@.no_duplicates())
        &&& (forall|p: int|
            0 <= p < self.first@.len() ==> (#[trigger] self.first@[p])@.to_set().subset_of(
                self.gcore().sym_universe(),
            ))
        &&& (forall|p: int|
            0 <= p < self.rules@.len() ==> (#[trigger] self.first@[p])@.to_set().subset_of(
                first_from_tbl(self.gcore(), first_tbl(self), self.rules@[p].right@),
            ))
        &&& self.first_minimal()
    }

    /// One pass of the FIRST fixpoint: merges FIRST of each production's
    /// right-hand side into that production's entry. Returns whether any
    /// entry grew.
    fn create_first_pass(&mut self) -> (changed: bool)
        requires
            old(self).first_partial(),
        ensures
            final(self).first_partial(),
            final(self).gcore() == old(self).gcore(),
            final(self).non_terms == old(self).non_terms,
            final(self).terms == old(self).terms,
            final(self).rules == old(self).rules,
            final(self).follow == old(self).follow,
            final(self).first@.len() == old(self).first@.len(),
            forall|p: int|
                0 <= p < old(self).first@.len() ==> (#[trigger] old(self).first@[p])@.len() <= (
                final(self).first@[p])@.len(),
            changed ==> (exists|p: int|
                0 <= p < old(self).first@.len() && (#[trigger] old(self).first@[p])@.len() < (
                final(self).first@[p])@.len()),
            !changed ==> final(self).first == old(self).first,
            !changed ==> (forall|p: int|
                0 <= p < final(self).rules@.len() ==> first_from_tbl(
                    final(self).gcore(),
                    first_tbl(*final(self)),
                    final(self).rules@[p].right@,
                ).subset_of((#[trigger] final(self).first@[p])@.to_set())),
    {
        let mut changed = false;
        let mut p: usize = 0;
        while p < self.rules.len()
            invariant
                0 <= p <= self.rules@.len(),
                self.first_partial(),
                self.gcore() == old(self).gcore(),
                self.non_terms == old(self).non_terms,
                self.terms == old(self).terms,
                self.rules == old(self).rules,
                self.follow == old(self).follow,
                self.first@.len() == old(self).first@.len(),
                forall|q: int|
                    0 <= q < old(self).first@.len() ==> (#[trigger] old(self).first@[q])@.len()
                        <= (self.first@[q])@.len(),
                changed ==> (exists|q: int|
                    0 <= q < old(self).first@.len() && (#[trigger] old(self).first@[q])@.len() < (
                    self.first@[q])@.len()),
                !changed ==> self.first == old(self).first,
                !changed ==> (forall|q: int|
                    0 <= q < p ==> first_from_tbl(
                        self.gcore(),
                        first_tbl(*self),
                        self.rules@[q].right@,
                    ).subset_of((#[trigger] self.first@[q])@.to_set())),
            decreases self.rules@.len() - p,
        {
            let ghost pre = *self;
            let ghost t_pre = first_tbl(*self);
            let add = self.first_from(&self.rules[p].right, 0);
            proof {
                assert(self.rules@[p as int].right@.skip(0) =~= self.rules@[p as int].right@);
            }
            let merged = union_syms(&self.first[p], &add);
            proof {
                assert(t_pre[p as int] == self.first@[p as int]@.to_set());
            }
            if merged.len() > self.first[p].len() {
                changed = true;
                self.first.set(p, merged);
                proof {
                    let t_new = first_tbl(*self);
                    assert(self.gcore() == pre.gcore());
                    assert forall|q: int| 0 <= q < t_pre.len() implies (#[trigger] t_pre[q]).subset_of(
                        t_new[q],
                    ) by {
                        assert(t_new[q] == self.first@[q]@.to_set());
                        if q != p {
                            assert(self.first@[q] == pre.first@[q]);
                        }
                    }
                    // The new entry stays under FIRST of its right-hand side.
                    assert forall|q: int| 0 <= q < self.rules@.len() implies (
                    #[trigger] self.first@[q])@.to_set().subset_of(
                        first_from_tbl(self.gcore(), t_new, self.rules@[q].right@),
                    ) by {
                        lemma_first_from_mono(self.gcore(), t_pre, t_new, self.rules@[q].right@);
                        if q != p {
                            assert(self.first@[q] == pre.first@[q]);
                        }
                    }
                    // The new entry stays inside the symbol universe.
                    lemma_first_from_bounded(pre.gcore(), t_pre, self.rules@[p as int].right@);
                    // The new entry stays below every closed table.
                    assert forall|tbl2: Seq<Set<Sym>>| #[trigger]
                        first_closed(self.gcore(), tbl2) implies (forall|q: int|
                        0 <= q < self.rules@.len() ==> (#[trigger] self.first@[q])@.to_set().subset_of(
                            tbl2[q],
                        )) by {
                        assert(first_closed(pre.gcore(), tbl2));
                        assert forall|q: int| 0 <= q < self.rules@.len() implies (
                        #[trigger] self.first@[q])@.to_set().subset_of(tbl2[q]) by {
                            assert(pre.first@[q]@.to_set().subset_of(tbl2[q]));
                            if q == p {
                                assert forall|r: int| 0 <= r < t_pre.len() implies (
                                #[trigger] t_pre[r]).subset_of(tbl2[r]) by {
                                    assert(t_pre[r] == pre.first@[r]@.to_set());
                                }
                                lemma_first_from_mono(
                                    pre.gcore(),
                                    t_pre,
                                    tbl2,
                                    self.rules@[p as int].right@,
                                );
                            } else {
                                assert(self.first@[q] == pre.first@[q]);
                            }
                        }
                    }
                }
            } else {
                proof {
                    assert(add@.to_set().subset_of(self.first@[p as int]@.to_set()));
                }
            }
            p += 1;
        }
        changed
    }

    /// Fills in the FIRST set of every production: the least table closed
    /// under the FIRST equations, computed by iterating passes until none
    /// changes anything.
    pub fn create_first(&mut self)
        requires
            old(self).wf(),
        ensures
            final(self).wf(),
            final(self).non_terms == old(self).non_terms,
            final(self).terms == old(self).terms,
            final(self).rules == old(self).rules,
            final(self).follow == old(self).follow,
            final(self).first_ok(),
            final(self).first_minimal(),
    {
        self.first = Vec::new();
        let n = self.rules.len();
        let mut i: usize = 0;
        while i < n
            invariant
                0 <= i <= n,
                self.first@.len() == i,
                self.non_terms == old(self).non_terms,
                self.terms == old(self).terms,
                self.rules == old(self).rules,
                self.follow == old(self).follow,
                n == self.rules@.len(),
                forall|q: int| 0 <= q < i ==> (#[trigger] self.first@[q])@.len() == 0,
            decreases n - i,
        {
            self.first.push(Vec::new());
            i += 1;
        }
        proof {
            assert forall|q: int| 0 <= q < self.first@.len() implies (
            #[trigger] self.first@[q])@.to_set() == Set::<Sym>::empty() by {
                crate::sets::lemma_empty_to_set(self.first@[q]@);
            }
            assert(self.first_partial());
        }
        let ghost bound = self.rules@.len() * (self.terms@.len() + 1) as nat;
        proof {
            lemma_entries_capped(self.gcore(), self.first@);
        }
        let mut changed = true;
        while changed
            invariant
                self.first_partial(),
                self.gcore() == old(self).gcore(),
                self.non_terms == old(self).non_terms,
                self.terms == old(self).terms,
                self.rules == old(self).rules,
                self.follow == old(self).follow,
                bound == self.rules@.len() * (self.terms@.len() + 1) as nat,
                sum_lens(self.first@) <= bound,
                !changed ==> (forall|q: int|
                    0 <= q < self.rules@.len() ==> first_from_tbl(
                        self.gcore(),
                        first_tbl(*self),
                        self.rules@[q].right@,
                    ).subset_of((#[trigger] self.first@[q])@.to_set())),
            decreases 2 * (bound - sum_lens(self.first@)) + (if changed {
                1int
            } else {
                0int
            }),
        {
            let ghost pre_first = self.first@;
            changed = self.create_first_pass();
            proof {
                lemma_entries_capped(self.gcore(), self.first@);
                lemma_sum_lens_pointwise(pre_first, self.first@);
            }
        }
        proof {
            assert forall|q: int| 0 <= q < self.rules@.len() implies (
            #[trigger] self.first@[q])@.to_set() == first_from_tbl(
                self.gcore(),
                first_tbl(*self),
                self.rules@[q].right@,
            ) by {
                assert(self.first@[q]@.to_set() =~= first_from_tbl(
                    self.gcore(),
                    first_tbl(*self),
                    self.rules@[q].right@,
                ));
            }
        }
    }
}

/// The FOLLOW table read as a sequence of sets, parallel to the nonterminals.
pub open spec fn follow_tbl(g: Grammar) -> Seq<Set<Sym>> {
    g.follow@.map_values(|v: Vec<Sym>| v@.to_set())
}

/// The position of a nonterminal in the nonterminal list.
pub open spec fn nt_index(c: GrammarCore, n: char) -> int {
    c.non_terms.index_of(n)
}

/// For duplicate-free nonterminals, `nt_index` is the one position holding `n`.
pub proof fn lemma_nt_index(c: GrammarCore, n: char)
    requires
        c.non_terms.no_duplicates(),
        c.non_terms.contains(n),
    ensures
        0 <= nt_index(c, n) < c.non_terms.len(),
        c.non_terms[nt_index(c, n)] == n,
        forall|j: int| 0 <= j < c.non_terms.len() && c.non_terms[j] == n ==> j == nt_index(c, n),
{
    let w = choose|i: int| 0 <= i < c.non_terms.len() && c.non_terms[i] == n;
    assert(c.non_terms[nt_index(c, n)] == n);
}

/// The constraint that one nonterminal occurrence (position `i` on the
/// right-hand side of production `r`) places on a FOLLOW table: everything
/// FIRST of the rest of that right-hand side can start with, ε excepted, and,
/// when that rest can vanish, everything that may follow the producing
/// nonterminal.
pub open spec fn follow_constraint(
    c: GrammarCore,
    first: Seq<Set<Sym>>,
    fol: Seq<Set<Sym>>,
    r: int,
    i: int,
) -> bool {
    let f = first_from_tbl(c, first, c.rules[r].right@.skip(i + 1));
    let j = nt_index(c, c.rules[r].right@[i]);
    &&& f.remove(Sym::Eps).subset_of(fol[j])
    &&& (f.contains(Sym::Eps) ==> fol[nt_index(c, c.rules[r].left)].subset_of(fol[j]))
}

/// A FOLLOW table closed under all the constraints the productions place on
/// it, with the end-marker following the start nonterminal. The computed
/// table is the least such table.
pub open spec fn follow_closed(c: GrammarCore, first: Seq<Set<Sym>>, fol: Seq<Set<Sym>>) -> bool {
    &&& fol.len() == c.non_terms.len()
    &&& (c.rules.len() > 0 ==> fol[nt_index(c, c.rules[0].left)].contains(Sym::Eps))
    &&& (forall|r: int, i: int|
        0 <= r < c.rules.len() && 0 <= i < c.rules[r].right@.len() && c.non_terms.contains(
            #[trigger] c.rules[r].right@[i],
        ) ==> follow_constraint(c, first, fol, r, i))
}

impl Grammar {
    /// Invariants of the FOLLOW table once computed: one duplicate-free entry
    /// per nonterminal, each within the symbol universe, and together a table
    /// closed under the FOLLOW constraints, with the end-marker in
    /// FOLLOW(start).
    pub open spec fn follow_ok(self) -> bool {
        &&& self.follow@.len() == self.non_terms@.len()
        &&& (forall|j: int|
            0 <= j < self.follow@.len() ==> (#[trigger] self.follow@[j])@.no_duplicates())
        &&& (forall|j: int|
            0 <= j < self.follow@.len() ==> (#[trigger] self.follow@[j])@.to_set().subset_of(
                self.gcore().sym_universe(),
            ))
        &&& follow_closed(self.gcore(), first_tbl(self), follow_tbl(self))
    }

    /// The computed FOLLOW table is below every closed table: together with
    /// `follow_ok` it is exactly the least solution of the FOLLOW constraints.
    pub open spec fn follow_minimal(self) -> bool {
        forall|fol2: Seq<Set<Sym>>| #[trigger]
            follow_closed(self.gcore(), first_tbl(self), fol2) ==> forall|j: int|
                0 <= j < self.non_terms@.len() ==> (#[trigger] self.follow@[j])@.to_set().subset_of(
                    fol2[j],
                )
    }

    /// Invariants that hold of the FOLLOW table at every step of its
    /// computation.
    pub open spec fn follow_partial(self) -> bool {
        &&& self.wf()
        &&& self.rules@.len() > 0
        &&& self.first_ok()
        &&& self.follow@.len() == self.non_terms@.len()
        &&& (forall|j: int|
            0 <= j < self.follow@.len() ==> (#[trigger] self.follow@[j])@.no_duplicates())
        &&& (forall|j: int|
            0 <= j < self.follow@.len() ==> (#[trigger] self.follow@[j])@.to_set().subset_of(
                self.gcore().sym_universe(),
            ))
        &&& follow_tbl(self)[nt_index(self.gcore(), self.rules@[0].left)].contains(Sym::Eps)
        &&& self.follow_minimal()
    }

    /// The position of a nonterminal in the nonterminal list.
    fn nt_pos(&self, n: char) -> (j: usize)
        requires
            self.non_terms@.no_duplicates(),
            self.non_terms@.contains(n),
        ensures
            j < self.non_terms@.len(),
            j == nt_index(self.gcore(), n),
    {
        let mut j: usize = 0;
        while j < self.non_terms.len()
            invariant
                0 <= j <= self.non_terms@.len(),
                forall|k: int| 0 <= k < j ==> self.non_terms@[k] != n,
                self.non_terms@.contains(n),
                self.non_terms@.no_duplicates(),
            decreases self.non_terms@.len() - j,
        {
            if self.non_terms[j] == n {
                proof {
                    lemma_nt_index(self.gcore(), n);
                }
                return j;
            }
            j += 1;
        }
        proof {
            let w = choose|i: int| 0 <= i < self.non_terms@.len() && self.non_terms@[i] == n;
            assert(false);
        }
        0
    }

    /// The FOLLOW set already computed for a nonterminal.
    pub fn follow(&self, non_term: char) -> (r: &Vec<Sym>)
        requires
            self.non_terms@.no_duplicates(),
            self.non_terms@.contains(non_term),
            self.follow@.len() == self.non_terms@.len(),
        ensures
            r@ == self.follow@[nt_index(self.gcore(), non_term)]@,
            r@.to_set() == follow_tbl(*self)[nt_index(self.gcore(), non_term)],
    {
        let j = self.nt_pos(non_term);
        proof {
            assert(follow_tbl(*self)[j as int] == self.follow@[j as int]@.to_set());
        }
        &self.follow[j]
    }

    /// One pass of the FOLLOW fixpoint: for every nonterminal occurrence on a
    /// right-hand side, merges in what may follow it there. Returns whether
    /// any entry grew.
    fn create_follow_pass(&mut self) -> (changed: bool)
        requires
            old(self).follow_partial(),
        ensures
            final(self).follow_partial(),
            final(self).gcore() == old(self).gcore(),
            final(self).non_terms == old(self).non_terms,
            final(self).terms == old(self).terms,
            final(self).rules == old(self).rules,
            final(self).first == old(self).first,
            final(self).follow@.len() == old(self).follow@.len(),
            forall|j: int|
                0 <= j < old(self).follow@.len() ==> (#[trigger] old(self).follow@[j])@.len() <= (
                final(self).follow@[j])@.len(),
            changed ==> (exists|j: int|
                0 <= j < old(self).follow@.len() && (#[trigger] old(self).follow@[j])@.len() < (
                final(self).follow@[j])@.len()),
            !changed ==> final(self).follow == old(self).follow,
            !changed ==> follow_closed(
                final(self).gcore(),
                first_tbl(*final(self)),
                follow_tbl(*final(self)),
            ),
    {
        let mut changed = false;
        let mut r: usize = 0;
        while r < self.rules.len()
            invariant
                0 <= r <= self.rules@.len(),
                self.follow_partial(),
                self.gcore() == old(self).gcore(),
                self.non_terms == old(self).non_terms,
                self.terms == old(self).terms,
                self.rules == old(self).rules,
                self.first == old(self).first,
                self.follow@.len() == old(self).follow@.len(),
                forall|j: int|
                    0 <= j < old(self).follow@.len() ==> (#[trigger] old(self).follow@[j])@.len()
                        <= (self.follow@[j])@.len(),
                changed ==> (exists|j: int|
                    0 <= j < old(self).follow@.len() && (#[trigger] old(self).follow@[j])@.len()
                        < (self.follow@[j])@.len()),
                !changed ==> self.follow == old(self).follow,
                !changed ==> (forall|r2: int, i2: int|
                    0 <= r2 < r && 0 <= i2 < self.rules@[r2].right@.len()
                        && self.non_terms@.contains(#[trigger] self.rules@[r2].right@[i2])
                        ==> follow_constraint(
                        self.gcore(),
                        first_tbl(*self),
                        follow_tbl(*self),
                        r2,
                        i2,
                    )),
            decreases self.rules@.len() - r,
        {
            let rlen = self.rules[r].right.len();
            let mut i: usize = 0;
            while i < rlen
                invariant
                    0 <= i <= rlen,
                    0 <= r < self.rules@.len(),
                    rlen == self.rules@[r as int].right@.len(),
                    self.follow_partial(),
                    self.gcore() == old(self).gcore(),
                    self.non_terms == old(self).non_terms,
                    self.terms == old(self).terms,
                    self.rules == old(self).rules,
                    self.first == old(self).first,
                    self.follow@.len() == old(self).follow@.len(),
                    forall|j: int|
                        0 <= j < old(self).follow@.len() ==> (#[trigger] old(
                            self,
                        ).follow@[j])@.len() <= (self.follow@[j])@.len(),
                    changed ==> (exists|j: int|
                        0 <= j < old(self).follow@.len() && (#[trigger] old(
                            self,
                        ).follow@[j])@.len() < (self.follow@[j])@.len()),
                    !changed ==> self.follow == old(self).follow,
                    !changed ==> (forall|r2: int, i2: int|
                        0 <= r2 < r && 0 <= i2 < self.rules@[r2].right@.len()
                            && self.non_terms@.contains(#[trigger] self.rules@[r2].right@[i2])
                            ==> follow_constraint(
                            self.gcore(),
                            first_tbl(*self),
                            follow_tbl(*self),
                            r2,
                            i2,
                        )),
                    !changed ==> (forall|i2: int|
                        0 <= i2 < i && self.non_terms@.contains(
                            #[trigger] self.rules@[r as int].right@[i2],
                        ) ==> follow_constraint(
                            self.gcore(),
                            first_tbl(*self),
                            follow_tbl(*self),
                            r as int,
                            i2,
                        )),
                decreases rlen - i,
            {
                let ch = crate::sets::char_at(&self.rules[r].right, i);
                if self.is_non_term(&ch) {
                    let ghost pre = *self;
                    let ghost f_pre = follow_tbl(*self);
                    let j = self.nt_pos(ch);
                    let fadd = self.first_from(&self.rules[r].right, i + 1);
                    let kept = remove_eps(&fadd);
                    let lj = self.nt_pos(self.rules[r].left);
                    let eps_in = contains_sym(&fadd, Sym::Eps);
                    let to_add = if eps_in {
                        union_syms(&kept, &self.follow[lj])
                    } else {
                        kept
                    };
                    proof {
                        assert(f_pre[j as int] == self.follow@[j as int]@.to_set());
                        assert(f_pre[lj as int] == self.follow@[lj as int]@.to_set());
                        lemma_nt_index(self.gcore(), self.rules@[r as int].right@[i as int]);
                        lemma_nt_index(self.gcore(), self.rules@[r as int].left);
                    }
                    let merged = union_syms(&self.follow[j], &to_add);
                    if merged.len() > self.follow[j].len() {
                        changed = true;
                        self.follow.set(j, merged);
                        proof {
                            let f_new = follow_tbl(*self);
                            assert(self.gcore() == pre.gcore());
                            assert forall|q: int| 0 <= q < f_pre.len() implies (
                            #[trigger] f_pre[q]).subset_of(f_new[q]) by {
                                assert(f_new[q] == self.follow@[q]@.to_set());
                                if q != j {
                                    assert(self.follow@[q] == pre.follow@[q]);
                                }
                            }
                            lemma_first_from_bounded(
                                pre.gcore(),
                                first_tbl(pre),
                                pre.rules@[r as int].right@.skip(i + 1),
                            );
                            assert forall|q: int| 0 <= q < self.follow@.len() implies (
                            #[trigger] self.follow@[q])@.to_set().subset_of(
                                self.gcore().sym_universe(),
                            ) by {
                                if q != j {
                                    assert(self.follow@[q] == pre.follow@[q]);
                                }
                            }
                            assert forall|fol2: Seq<Set<Sym>>| #[trigger] follow_closed(
                                self.gcore(),
                                first_tbl(*self),
                                fol2,
                            ) implies (forall|q: int|
                                0 <= q < self.non_terms@.len()
                                    ==> (#[trigger] self.follow@[q])@.to_set().subset_of(
                                    fol2[q],
                                )) by {
                                assert(follow_closed(pre.gcore(), first_tbl(pre), fol2));
                                assert(follow_constraint(
                                    pre.gcore(),
                                    first_tbl(pre),
                                    fol2,
                                    r as int,
                                    i as int,
                                ));
                                assert forall|q: int| 0 <= q < self.non_terms@.len() implies (
                                #[trigger] self.follow@[q])@.to_set().subset_of(fol2[q]) by {
                                    assert(pre.follow@[q]@.to_set().subset_of(fol2[q]));
                                    if q == j {
                                        assert(pre.follow@[lj as int]@.to_set().subset_of(
                                            fol2[lj as int],
                                        ));
                                    } else {
                                        assert(self.follow@[q] == pre.follow@[q]);
                                    }
                                }
                            }
                            let js = nt_index(self.gcore(), self.rules@[0].left);
                            assert(f_pre[js].subset_of(f_new[js]));
                        }
                    } else {
                        proof {
                            assert(to_add@.to_set().subset_of(self.follow@[j as int]@.to_set()));
                            assert(follow_constraint(
                                self.gcore(),
                                first_tbl(*self),
                                follow_tbl(*self),
                                r as int,
                                i as int,
                            ));
                        }
                    }
                } else {
                    proof {
                        assert(!self.non_terms@.contains(self.rules@[r as int].right@[i as int]));
                    }
                }
                i += 1;
            }
            r += 1;
        }
        changed
    }

    /// Fills in the FOLLOW set of every nonterminal: the least table closed
    /// under the FOLLOW constraints, computed from the finished FIRST table
    /// by iterating passes until none changes anything.
    pub fn create_follow(&mut self)
        requires
            old(self).wf(),
            old(self).first_ok(),
            old(self).rules@.len() > 0,
        ensures
            final(self).wf(),
            final(self).non_terms == old(self).non_terms,
            final(self).terms == old(self).terms,
            final(self).rules == old(self).rules,
            final(self).first == old(self).first,
            final(self).first_ok(),
            final(self).follow_ok(),
            final(self).follow_minimal(),
    {
        self.follow = Vec::new();
        let n = self.non_terms.len();
        let mut i: usize = 0;
        while i < n
            invariant
                0 <= i <= n,
                self.follow@.len() == i,
                self.non_terms == old(self).non_terms,
                self.terms == old(self).terms,
                self.rules == old(self).rules,
                self.first == old(self).first,
                n == self.non_terms@.len(),
                forall|q: int| 0 <= q < i ==> (#[trigger] self.follow@[q])@.len() == 0,
            decreases n - i,
        {
            self.follow.push(Vec::new());
            i += 1;
        }
        let start_left = self.rules[0].left;
        let js = self.nt_pos(start_left);
        let mut seed: Vec<Sym> = Vec::new();
        seed.push(Sym::Eps);
        self.follow.set(js, seed);
        proof {
            assert forall|q: int| 0 <= q < self.follow@.len() && q != js implies (
            #[trigger] self.follow@[q])@.to_set() == Set::<Sym>::empty() by {
                crate::sets::lemma_empty_to_set(self.follow@[q]@);
            }
            crate::sets::lemma_singleton_to_set(self.follow@[js as int]@, Sym::Eps);
            assert(follow_tbl(*self)[js as int] == self.follow@[js as int]@.to_set());
            assert forall|fol2: Seq<Set<Sym>>| #[trigger] follow_closed(
                self.gcore(),
                first_tbl(*self),
                fol2,
            ) implies (forall|q: int|
                0 <= q < self.non_terms@.len() ==> (#[trigger] self.follow@[q])@.to_set().subset_of(
                    fol2[q],
                )) by {
                assert forall|q: int| 0 <= q < self.non_terms@.len() implies (
                #[trigger] self.follow@[q])@.to_set().subset_of(fol2[q]) by {
                    if q == js {
                        assert(fol2[js as int].contains(Sym::Eps));
                    }
                }
            }
            assert(self.follow_partial());
        }
        let ghost bound = self.non_terms@.len() * (self.terms@.len() + 1) as nat;
        proof {
            lemma_entries_capped(self.gcore(), self.follow@);
        }
        let mut changed = true;
        while changed
            invariant
                self.follow_partial(),
                self.gcore() == old(self).gcore(),
                self.non_terms == old(self).non_terms,
                self.terms == old(self).terms,
                self.rules == old(self).rules,
                self.first == old(self).first,
                bound == self.non_terms@.len() * (self.terms@.len() + 1) as nat,
                sum_lens(self.follow@) <= bound,
                !changed ==> follow_closed(self.gcore(), first_tbl(*self), follow_tbl(*self)),
            decreases 2 * (bound - sum_lens(self.follow@)) + (if changed {
                1int
            } else {
                0int
            }),
        {
            let ghost pre_follow = self.follow@;
            changed = self.create_follow_pass();
            proof {
                lemma_entries_capped(self.gcore(), self.follow@);
                lemma_sum_lens_pointwise(pre_follow, self.follow@);
            }
        }
    }

    /// Computes FIRST and then FOLLOW; after this call both tables are the
    /// least solutions of their defining equations and the grammar is ready
    /// for item-set construction. Calling it again recomputes the same
    /// tables.
    pub fn finalize(&mut self)
        requires
            old(self).wf(),
            old(self).rules@.len() > 0,
        ensures
            final(self).wf(),
            final(self).non_terms == old(self).non_terms,
            final(self).terms == old(self).terms,
            final(self).rules == old(self).rules,
            final(self).first_ok(),
            final(self).first_minimal(),
            final(self).follow_ok(),
            final(self).follow_minimal(),
    {
        self.create_first();
        self.create_follow();
    }
}

} // verus!

