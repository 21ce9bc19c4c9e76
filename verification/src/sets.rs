//! Small counting facts shared by the fixpoint computations: a duplicate-free
//! sequence drawn from a finite set is no longer than that set, and sums of
//! row lengths used as termination measures.

use vstd::prelude::*;

verus! {

/// Reads one element out of a vector. Routing the copy through this function
/// gives callers the plain fact `x == v@[i]` about the value they received.
pub fn vec_at<T: Copy>(v: &Vec<T>, i: usize) -> (x: T)
    requires
        i < v@.len(),
    ensures
        x == v@[i as int],
{
    v[i]
}

/// Reads one character out of a vector, as [`vec_at`] does. The concrete
/// signature matters: it hands the caller a well-typed character value.
pub fn char_at(v: &Vec<char>, i: usize) -> (c: char)
    requires
        i < v@.len(),
    ensures
        c == v@[i as int],
{
    v[i]
}

/// Membership test on a character vector.
pub fn contains_char(v: &Vec<char>, c: char) -> (r: bool)
    ensures
        r == v@.contains(c),
{
    let mut i: usize = 0;
    while i < v.len()
        invariant
            0 <= i <= v@.len(),
            forall|k: int| 0 <= k < i ==> v@[k] != c,
        decreases v@.len() - i,
    {
        if v[i] == c {
            return true;
        }
        i += 1;
    }
    false
}

/// A duplicate-free sequence whose elements all lie in a finite set `u` has
/// at most `u.len()` elements.
pub proof fn lemma_distinct_seq_bounded<A>(s: Seq<A>, u: Set<A>)
    requires
        s.no_duplicates(),
        u.finite(),
        forall|i: int| 0 <= i < s.len() ==> u.contains(#[trigger] s[i]),
    ensures
        s.len() <= u.len(),
{
    s.unique_seq_to_set();
    assert(s.to_set().subset_of(u));
    vstd::set_lib::lemma_len_subset(s.to_set(), u);
}

/// Pushing a fresh element keeps a sequence duplicate-free and inserts into
/// its set of elements.
pub proof fn lemma_push_distinct<A>(s: Seq<A>, x: A)
    requires
        s.no_duplicates(),
        !s.contains(x),
    ensures
        s.push(x).no_duplicates(),
        s.push(x).to_set() == s.to_set().insert(x),
{
    assert forall|i: int, j: int|
        0 <= i < s.push(x).len() && 0 <= j < s.push(x).len() && i != j implies s.push(x)[i]
        != s.push(x)[j] by {
        if i < s.len() && j < s.len() {
        } else if j == s.len() {
            assert(s.push(x)[j] == x);
            if s.push(x)[i] == x {
                assert(s[i] == x);
            }
        } else {
            assert(s.push(x)[i] == x);
            if s.push(x)[j] == x {
                assert(s[j] == x);
            }
        }
    }
    assert forall|y: A| #[trigger] s.push(x).to_set().contains(y) implies s.to_set().insert(
        x,
    ).contains(y) by {
        let k = choose|k: int| 0 <= k < s.push(x).len() && s.push(x)[k] == y;
        if k < s.len() {
            assert(s[k] == y);
        }
    }
    assert forall|y: A| #[trigger] s.to_set().insert(x).contains(y) implies s.push(
        x,
    ).to_set().contains(y) by {
        if y == x {
            assert(s.push(x)[s.len() as int] == y);
        } else {
            let k = choose|k: int| 0 <= k < s.len() && s[k] == y;
            assert(s.push(x)[k] == y);
        }
    }
    assert(s.push(x).to_set() =~= s.to_set().insert(x));
}

/// The element set of an empty sequence.
pub proof fn lemma_empty_to_set<A>(s: Seq<A>)
    requires
        s.len() == 0,
    ensures
        s.to_set() == Set::<A>::empty(),
{
    assert forall|y: A| !(#[trigger] s.to_set().contains(y)) by {
        if s.contains(y) {
            let k = choose|k: int| 0 <= k < s.len() && s[k] == y;
        }
    }
    assert(s.to_set() =~= Set::<A>::empty());
}

/// The element set of a one-element sequence.
pub proof fn lemma_singleton_to_set<A>(s: Seq<A>, x: A)
    requires
        s.len() == 1,
        s[0] == x,
    ensures
        s.to_set() == Set::empty().insert(x),
{
    assert forall|y: A| #[trigger] s.to_set().contains(y) implies Set::empty().insert(x).contains(
        y,
    ) by {
        let k = choose|k: int| 0 <= k < s.len() && s[k] == y;
        assert(k == 0);
    }
    assert forall|y: A| #[trigger] Set::empty().insert(x).contains(y) implies s.to_set().contains(
        y,
    ) by {
        assert(s[0] == y);
        assert(s.contains(y));
    }
    assert(s.to_set() =~= Set::empty().insert(x));
}

/// Extending an initial segment by one element.
pub proof fn lemma_take_one_more<A>(s: Seq<A>, j: int)
    requires
        0 <= j < s.len(),
    ensures
        s.subrange(0, j + 1) == s.subrange(0, j).push(s[j]),
        s.subrange(0, j + 1).to_set() == s.subrange(0, j).to_set().insert(s[j]),
{
    assert(s.subrange(0, j + 1) =~= s.subrange(0, j).push(s[j]));
    s.subrange(0, j).lemma_push_to_set_commute(s[j]);
}

/// All subsets of a finite set, built by choosing one element at a time.
pub open spec fn subsets_of<A>(u: Set<A>) -> Set<Set<A>>
    decreases u.len(),
        when u.finite()
    via subsets_of_decreases::<A>
{
    if !u.finite() || u.len() == 0 {
        Set::empty().insert(Set::empty())
    } else {
        let x = u.choose();
        let rest = subsets_of(u.remove(x));
        rest.union(rest.map(|t: Set<A>| t.insert(x)))
    }
}

#[via_fn]
proof fn subsets_of_decreases<A>(u: Set<A>) {
    broadcast use vstd::set::group_set_axioms;

    if u.finite() && u.len() > 0 {
        if u.is_empty() {
            assert(u =~= Set::empty());
        }
        assert(u.contains(u.choose()));
    }
}

/// There are finitely many subsets of a finite set.
pub proof fn lemma_subsets_of_finite<A>(u: Set<A>)
    requires
        u.finite(),
    ensures
        subsets_of(u).finite(),
    decreases u.len(),
{
    broadcast use vstd::set::group_set_axioms;

    if u.len() == 0 {
    } else {
        let x = u.choose();
        if u.is_empty() {
            assert(u =~= Set::empty());
        }
        assert(u.contains(x));
        lemma_subsets_of_finite(u.remove(x));
        subsets_of(u.remove(x)).lemma_map_finite(|t: Set<A>| t.insert(x));
    }
}

/// Every finite subset of a finite set is one of its subsets as enumerated by
/// [`subsets_of`].
pub proof fn lemma_subsets_of_complete<A>(u: Set<A>, s: Set<A>)
    requires
        u.finite(),
        s.finite(),
        s.subset_of(u),
    ensures
        subsets_of(u).contains(s),
    decreases u.len(),
{
    broadcast use vstd::set::group_set_axioms;

    if u.len() == 0 {
        u.lemma_len0_is_empty();
        assert(s =~= Set::empty());
    } else {
        if u.is_empty() {
            assert(u =~= Set::empty());
        }
        let x = u.choose();
        assert(u.contains(x));
        let rest = subsets_of(u.remove(x));
        let f = |t: Set<A>| t.insert(x);
        if s.contains(x) {
            lemma_subsets_of_complete(u.remove(x), s.remove(x));
            assert(rest.map(f).contains(f(s.remove(x)))) by {
                assert(rest.contains(s.remove(x)));
            }
            assert(f(s.remove(x)) =~= s);
            assert(subsets_of(u).contains(s));
        } else {
            lemma_subsets_of_complete(u.remove(x), s);
        }
    }
}

/// All pairs drawn from two finite sets.
pub open spec fn pairs_of<A, B>(a: Set<A>, b: Set<B>) -> Set<(A, B)>
    decreases a.len(),
        when a.finite()
    via pairs_of_decreases::<A, B>
{
    if !a.finite() || a.len() == 0 {
        Set::empty()
    } else {
        let x = a.choose();
        pairs_of(a.remove(x), b).union(b.map(|y: B| (x, y)))
    }
}

#[via_fn]
proof fn pairs_of_decreases<A, B>(a: Set<A>, b: Set<B>) {
    broadcast use vstd::set::group_set_axioms;

    if a.finite() && a.len() > 0 {
        if a.is_empty() {
            assert(a =~= Set::empty());
        }
        assert(a.contains(a.choose()));
    }
}

/// The pairs of two finite sets form a finite set holding exactly the
/// componentwise members.
pub proof fn lemma_pairs_of<A, B>(a: Set<A>, b: Set<B>)
    requires
        a.finite(),
        b.finite(),
    ensures
        pairs_of(a, b).finite(),
        forall|p: (A, B)| #[trigger]
            pairs_of(a, b).contains(p) <==> (a.contains(p.0) && b.contains(p.1)),
    decreases a.len(),
{
    broadcast use vstd::set::group_set_axioms;

    if a.len() == 0 {
        a.lemma_len0_is_empty();
    } else {
        if a.is_empty() {
            assert(a =~= Set::empty());
        }
        let x = a.choose();
        assert(a.contains(x));
        lemma_pairs_of(a.remove(x), b);
        let f = |y: B| (x, y);
        b.lemma_map_finite(f);
        assert forall|p: (A, B)| #[trigger] pairs_of(a, b).contains(p) implies (a.contains(p.0)
            && b.contains(p.1)) by {
            if b.map(f).contains(p) {
                let y = choose|y: B| b.contains(y) && p == f(y);
            }
        }
        assert forall|p: (A, B)| a.contains(p.0) && b.contains(p.1) implies #[trigger] pairs_of(
            a,
            b,
        ).contains(p) by {
            if p.0 == x {
                assert(b.map(f).contains(f(p.1)));
                assert(f(p.1) == p);
            } else {
                assert(a.remove(x).contains(p.0));
            }
        }
    }
}

/// The sum of the lengths of a sequence of vectors.
pub open spec fn sum_lens<A>(s: Seq<Vec<A>>) -> nat
    decreases s.len(),
{
    if s.len() == 0 {
        0
    } else {
        sum_lens(s.drop_last()) + s.last()@.len()
    }
}

/// If every row has at most `cap` elements, the total is at most `len * cap`.
pub proof fn lemma_sum_lens_bounded<A>(s: Seq<Vec<A>>, cap: nat)
    requires
        forall|i: int| 0 <= i < s.len() ==> (#[trigger] s[i])@.len() <= cap,
    ensures
        sum_lens(s) <= s.len() * cap,
    decreases s.len(),
{
    if s.len() == 0 {
    } else {
        lemma_sum_lens_bounded(s.drop_last(), cap);
        assert(s.last() == s[s.len() - 1]);
        assert((s.len() - 1) * cap + cap == s.len() * cap) by (nonlinear_arith);
    }
}

/// Growing rows pointwise grows the total; growing one row strictly grows it
/// strictly.
pub proof fn lemma_sum_lens_pointwise<A>(s1: Seq<Vec<A>>, s2: Seq<Vec<A>>)
    requires
        s1.len() == s2.len(),
        forall|i: int| 0 <= i < s1.len() ==> (#[trigger] s1[i])@.len() <= (#[trigger] s2[i])@.len(),
    ensures
        sum_lens(s1) <= sum_lens(s2),
        (exists|i: int|
            0 <= i < s1.len() && (#[trigger] s1[i])@.len() < (#[trigger] s2[i])@.len())
            ==> sum_lens(s1) < sum_lens(s2),
    decreases s1.len(),
{
    if s1.len() == 0 {
    } else {
        lemma_sum_lens_pointwise(s1.drop_last(), s2.drop_last());
        assert(s1.last() == s1[s1.len() - 1]);
        assert(s2.last() == s2[s2.len() - 1]);
        if exists|i: int|
            0 <= i < s1.len() && (#[trigger] s1[i])@.len() < (#[trigger] s2[i])@.len() {
            let i = choose|i: int|
                0 <= i < s1.len() && (#[trigger] s1[i])@.len() < (#[trigger] s2[i])@.len();
            if i < s1.len() - 1 {
                assert(s1.drop_last()[i] == s1[i]);
                assert(s2.drop_last()[i] == s2[i]);
            }
        }
    }
}

} // verus!
