//! Measures of a population: counts, distinct members, the most frequent
//! members, and multiset similarity between two soups.

use vstd::prelude::*;
use vstd::multiset::Multiset;
use lambda_calculus::Term;
use crate::soup::Soup;
use crate::term::copy_term;

verus! {

broadcast use vstd::multiset::group_multiset_axioms, vstd::multiset::group_multiset_properties, vstd::seq_lib::group_to_multiset_ensures;

/// How often `t` occurs in `s`.
pub open spec fn occurrences(s: Seq<Term>, t: Term) -> nat {
    s.to_multiset().count(t)
}

/// The size of the multiset intersection of `a` and `b`: each term counted the
/// lesser number of times it occurs in either.
pub open spec fn shared(a: Seq<Term>, b: Seq<Term>) -> nat {
    a.to_multiset().intersection_with(b.to_multiset()).len()
}

/// The Jaccard index of two populations as a fraction (numerator, denominator):
/// the shared size over the size of the union, and 1 where both are empty.
pub open spec fn jaccard(a: Seq<Term>, b: Seq<Term>) -> (nat, nat) {
    let i = shared(a, b);
    let u = a.len() + b.len() - i;
    if u <= 0 {
        (1, 1)
    } else {
        (i, u as nat)
    }
}

/// The facts that make `r` a table of the counts of `s`: one row per distinct
/// term, each with its number of occurrences.
pub open spec fn is_count_table(r: Seq<(Term, usize)>, s: Seq<Term>) -> bool {
    &&& forall|k: int| 0 <= k < r.len() ==> #[trigger] r[k].1 == occurrences(s, r[k].0)
    &&& forall|k1: int, k2: int| 0 <= k1 < r.len() && 0 <= k2 < r.len() && k1 != k2 ==> r[k1].0 != r[k2].0
    &&& forall|t: Term| s.contains(t) <==> exists|k: int| 0 <= k < r.len() && #[trigger] r[k].0 == t
}

fn find_row(v: &Vec<(Term, usize)>, t: &Term) -> (r: Option<usize>)
    ensures
        r is Some ==> r->Some_0 < v@.len() && v@[r->Some_0 as int].0 == *t,
        r is None ==> forall|k: int| 0 <= k < v@.len() ==> v@[k].0 != *t,
{
    let mut k: usize = 0;
    while k < v.len()
        invariant
            k <= v@.len(),
            forall|q: int| 0 <= q < k ==> v@[q].0 != *t,
        decreases v@.len() - k,
    {
        if v[k].0.is_isomorphic_to(t) {
            return Some(k);
        }
        k = k + 1;
    }
    None
}

fn find_term(v: &Vec<Term>, t: &Term) -> (r: Option<usize>)
    ensures
        r is Some ==> r->Some_0 < v@.len() && v@[r->Some_0 as int] == *t,
        r is None ==> !v@.contains(*t),
{
    let mut k: usize = 0;
    while k < v.len()
        invariant
            k <= v@.len(),
            forall|q: int| 0 <= q < k ==> v@[q] != *t,
        decreases v@.len() - k,
    {
        if v[k].is_isomorphic_to(t) {
            return Some(k);
        }
        k = k + 1;
    }
    None
}

/// Adding `x` to `a` adds one to its intersection with `b` when `b` still has an
/// `x` to match it with, which is then used up.
proof fn lemma_shared_step(a: Multiset<Term>, b: Multiset<Term>, x: Term)
    ensures
        b.count(x) > 0 ==> a.insert(x).intersection_with(b).len() == a.intersection_with(b.remove(x)).len() + 1,
        b.count(x) == 0 ==> a.insert(x).intersection_with(b).len() == a.intersection_with(b).len(),
{
    if b.count(x) > 0 {
        assert(a.insert(x).intersection_with(b) =~= a.intersection_with(b.remove(x)).insert(x));
    } else {
        assert(a.insert(x).intersection_with(b) =~= a.intersection_with(b));
    }
}

/// The size of the multiset intersection of `a` and `b`.
pub fn shared_size(a: &Vec<Term>, b: &Vec<Term>) -> (r: usize)
    ensures
        r == shared(a@, b@),
        r <= a@.len(),
{
    let mut rest: Vec<Term> = Vec::new();
    let mut q: usize = 0;
    while q < b.len()
        invariant
            q <= b@.len(),
            rest@ == b@.take(q as int),
        decreases b@.len() - q,
    {
        rest.push(copy_term(&b[q]));
        q = q + 1;
        assert(rest@ =~= b@.take(q as int));
    }
    assert(b@.take(q as int) =~= b@);
    let mut count: usize = 0;
    let n = a.len();
    let mut i: usize = n;
    assert(a@.take(i as int) =~= a@);
    while i > 0
        invariant
            n == a@.len(),
            i <= a@.len(),
            count <= a@.len() - i,
            count + shared(a@.take(i as int), rest@) == shared(a@, b@),
        decreases i,
    {
        let x = &a[i - 1];
        let ghost pre = a@.take(i - 1);
        assert(a@.take(i as int) =~= pre.push(a@[i - 1]));
        proof {
            lemma_shared_step(pre.to_multiset(), rest@.to_multiset(), a@[i - 1]);
        }
        match find_term(&rest, x) {
            Some(p) => {
                let ghost before = rest@;
                rest.remove(p);
                assert(rest@ == before.remove(p as int));
                count = count + 1;
            },
            None => {},
        }
        i = i - 1;
    }
    assert(a@.take(0).to_multiset() =~= Multiset::empty());
    assert(Multiset::<Term>::empty().intersection_with(rest@.to_multiset()) =~= Multiset::empty());
    count
}

impl Soup {
    /// The distinct members, each once, in order of first occurrence.
    pub fn unique_expressions(&self) -> (r: Vec<Term>)
        ensures
            r@.no_duplicates(),
            forall|t: Term| #[trigger] r@.contains(t) <==> self.members().contains(t),
    {
        let counts = self.expression_counts();
        let mut r: Vec<Term> = Vec::new();
        let mut i: usize = 0;
        while i < counts.len()
            invariant
                is_count_table(counts@, self.members()),
                i <= counts@.len(),
                r@.len() == i,
                forall|k: int| 0 <= k < i ==> #[trigger] r@[k] == counts@[k].0,
            decreases counts@.len() - i,
        {
            r.push(copy_term(&counts[i].0));
            i = i + 1;
        }
        assert forall|t: Term| #[trigger] r@.contains(t) <==> self.members().contains(t) by {
            if self.members().contains(t) {
                let k = choose|k: int| 0 <= k < counts@.len() && #[trigger] counts@[k].0 == t;
                assert(r@[k] == t);
            }
            if r@.contains(t) {
                let k = choose|k: int| 0 <= k < r@.len() && r@[k] == t;
                assert(counts@[k].0 == t);
            }
        }
        r
    }

    /// The up to `k` distinct members that occur most often, in ascending order
    /// of their counts. Among members of equal count, the one that occurs first
    /// in the soup is taken first.
    pub fn k_most_frequent_exprs(&self, k: usize) -> (r: Vec<Term>)
        ensures
            r@.len() <= k,
            r@.no_duplicates(),
            forall|i: int| 0 <= i < r@.len() ==> self.members().contains(#[trigger] r@[i]),
            r@.len() < k ==> forall|t: Term| self.members().contains(t) ==> #[trigger] r@.contains(t),
            forall|i: int, j: int| 0 <= i < j < r@.len() ==> occurrences(self.members(), #[trigger] r@[i])
                <= occurrences(self.members(), #[trigger] r@[j]),
            forall|t: Term, i: int| 0 <= i < r@.len() && self.members().contains(t) && !r@.contains(t)
                ==> #[trigger] occurrences(self.members(), t) <= occurrences(self.members(), #[trigger] r@[i]),
    {
        let ghost s = self.members();
        let mut rest = self.expression_counts();
        let mut r: Vec<Term> = Vec::new();
        while r.len() < k && rest.len() > 0
            invariant
                r@.len() <= k,
                forall|q: int| 0 <= q < rest@.len() ==> #[trigger] rest@[q].1 == occurrences(s, rest@[q].0),
                forall|q1: int, q2: int| 0 <= q1 < rest@.len() && 0 <= q2 < rest@.len() && q1 != q2
                    ==> rest@[q1].0 != rest@[q2].0,
                forall|q: int| 0 <= q < rest@.len() ==> s.contains(#[trigger] rest@[q].0) && !r@.contains(rest@[q].0),
                r@.no_duplicates(),
                forall|i: int| 0 <= i < r@.len() ==> s.contains(#[trigger] r@[i]),
                forall|t: Term| #[trigger] s.contains(t) ==> r@.contains(t)
                    || exists|q: int| 0 <= q < rest@.len() && #[trigger] rest@[q].0 == t,
                forall|i: int, j: int| 0 <= i < j < r@.len() ==> occurrences(s, #[trigger] r@[i])
                    <= occurrences(s, #[trigger] r@[j]),
                forall|i: int, q: int| 0 <= i < r@.len() && 0 <= q < rest@.len()
                    ==> #[trigger] rest@[q].1 <= occurrences(s, #[trigger] r@[i]),
            decreases rest@.len(),
        {
            let mut best: usize = 0;
            let mut q: usize = 1;
            while q < rest.len()
                invariant
                    best < rest@.len(),
                    1 <= q <= rest@.len(),
                    forall|p: int| 0 <= p < q ==> #[trigger] rest@[p].1 <= rest@[best as int].1,
                decreases rest@.len() - q,
            {
                if rest[q].1 > rest[best].1 {
                    best = q;
                }
                q = q + 1;
            }
            let ghost old_rest = rest@;
            let ghost old_r = r@;
            let row = rest.remove(best);
            assert(rest@ == old_rest.remove(best as int));
            r.insert(0, row.0);
            assert(r@ == old_r.insert(0, row.0));
            assert forall|t: Term| #[trigger] s.contains(t) implies r@.contains(t)
                || exists|q: int| 0 <= q < rest@.len() && #[trigger] rest@[q].0 == t by {
                if old_r.contains(t) {
                    let i = choose|i: int| 0 <= i < old_r.len() && old_r[i] == t;
                    assert(r@[i + 1] == t);
                } else {
                    let q = choose|q: int| 0 <= q < old_rest.len() && #[trigger] old_rest[q].0 == t;
                    if q == best {
                        assert(r@[0] == t);
                    } else if q < best {
                        assert(rest@[q].0 == t);
                    } else {
                        assert(rest@[q - 1].0 == t);
                    }
                }
            }
            assert forall|q: int| 0 <= q < rest@.len() implies s.contains(#[trigger] rest@[q].0) && !r@.contains(rest@[q].0) by {
                let p = if q < best { q } else { q + 1 };
                assert(rest@[q] == old_rest[p]);
                assert(p != best);
                if r@.contains(rest@[q].0) {
                    let i = choose|i: int| 0 <= i < r@.len() && r@[i] == rest@[q].0;
                    if i > 0 {
                        assert(old_r[i - 1] == rest@[q].0);
                    }
                }
            }
            assert forall|i: int, q: int| 0 <= i < r@.len() && 0 <= q < rest@.len()
                implies #[trigger] rest@[q].1 <= occurrences(s, #[trigger] r@[i]) by {
                let p = if q < best { q } else { q + 1 };
                assert(rest@[q] == old_rest[p]);
                if i > 0 {
                    assert(r@[i] == old_r[i - 1]);
                }
            }
            assert forall|i: int, j: int| 0 <= i < j < r@.len() implies occurrences(s, #[trigger] r@[i])
                <= occurrences(s, #[trigger] r@[j]) by {
                if i > 0 {
                    assert(r@[i] == old_r[i - 1]);
                    assert(r@[j] == old_r[j - 1]);
                } else {
                    assert(r@[j] == old_r[j - 1]);
                    assert(r@[0] == old_rest[best as int].0);
                    assert(old_rest[best as int].1 <= occurrences(s, old_r[j - 1]));
                }
            }
            assert(r@.no_duplicates()) by {
                assert forall|i: int, j: int| 0 <= i < r@.len() && 0 <= j < r@.len() && i != j implies r@[i] != r@[j] by {
                    if i > 0 && j > 0 {
                        assert(r@[i] == old_r[i - 1]);
                        assert(r@[j] == old_r[j - 1]);
                    } else if i == 0 {
                        assert(r@[j] == old_r[j - 1]);
                    } else {
                        assert(r@[i] == old_r[i - 1]);
                    }
                }
            }
        }
        assert forall|t: Term, i: int| 0 <= i < r@.len() && s.contains(t) && !r@.contains(t)
            implies #[trigger] occurrences(s, t) <= occurrences(s, #[trigger] r@[i]) by {
            let q = choose|q: int| 0 <= q < rest@.len() && #[trigger] rest@[q].0 == t;
            assert(rest@[q].1 <= occurrences(s, r@[i]));
        }
        assert(r@.len() < k ==> forall|t: Term| s.contains(t) ==> #[trigger] r@.contains(t));
        r
    }

    /// The Jaccard index of the two populations as a fraction (numerator,
    /// denominator); two empty soups give 1/1.
    pub fn jaccard_index(&self, other: &Soup) -> (r: (usize, usize))
        requires
            self.members().len() + other.members().len() <= usize::MAX,
        ensures
            (r.0 as nat, r.1 as nat) == jaccard(self.members(), other.members()),
    {
        let a = self.expressions();
        let b = other.expressions();
        let i = shared_size(&a, &b);
        let u = a.len() - i + b.len();
        if u == 0 {
            (1, 1)
        } else {
            (i, u)
        }
    }

    /// Each distinct member with the number of times it occurs, in order of first occurrence.
    pub fn expression_counts(&self) -> (r: Vec<(Term, usize)>)
        ensures
            is_count_table(r@, self.members()),
    {
        let ghost s = self.members();
        let mut r: Vec<(Term, usize)> = Vec::new();
        let mut i: usize = 0;
        while i < self.len()
            invariant
                s == self.members(),
                i <= s.len(),
                is_count_table(r@, s.take(i as int)),
                forall|k: int| 0 <= k < r@.len() ==> r@[k].1 <= i,
            decreases s.len() - i,
        {
            let t = self.get(i);
            let ghost pre = s.take(i as int);
            assert(s.take(i + 1) =~= pre.push(s[i as int]));
            let ghost old_r = r@;
            match find_row(&r, t) {
                Some(k) => {
                    let c = r[k].1;
                    r.set(k, (copy_term(t), c + 1));
                    assert forall|u: Term| #[trigger] s.take(i + 1).contains(u) <==> exists|q: int| 0 <= q < r@.len() && #[trigger] r@[q].0 == u by {
                        if s.take(i + 1).contains(u) {
                            if u != s[i as int] {
                                assert(pre.to_multiset().count(u) > 0);
                                assert(pre.contains(u));
                                let q = choose|q: int| 0 <= q < old_r.len() && #[trigger] old_r[q].0 == u;
                                assert(r@[q].0 == u);
                            } else {
                                assert(r@[k as int].0 == u);
                            }
                        }
                        if exists|q: int| 0 <= q < r@.len() && #[trigger] r@[q].0 == u {
                            let q = choose|q: int| 0 <= q < r@.len() && #[trigger] r@[q].0 == u;
                            if q != k {
                                assert(old_r[q].0 == u);
                                assert(pre.contains(u));
                                assert(pre.to_multiset().count(u) > 0);
                            }
                            assert(s.take(i + 1).to_multiset().count(u) > 0);
                        }
                    }
                },
                None => {
                    r.push((copy_term(t), 1));
                    assert(!pre.contains(s[i as int])) by {
                        if pre.contains(s[i as int]) {
                            let q = choose|q: int| 0 <= q < old_r.len() && #[trigger] old_r[q].0 == s[i as int];
                        }
                    }
                    assert(pre.to_multiset().count(s[i as int]) == 0);
                    assert forall|u: Term| #[trigger] s.take(i + 1).contains(u) <==> exists|q: int| 0 <= q < r@.len() && #[trigger] r@[q].0 == u by {
                        if s.take(i + 1).contains(u) {
                            if u != s[i as int] {
                                assert(pre.to_multiset().count(u) > 0);
                                assert(pre.contains(u));
                                let q = choose|q: int| 0 <= q < old_r.len() && #[trigger] old_r[q].0 == u;
                                assert(r@[q].0 == u);
                            } else {
                                assert(r@[old_r.len() as int].0 == u);
                            }
                        }
                        if exists|q: int| 0 <= q < r@.len() && #[trigger] r@[q].0 == u {
                            let q = choose|q: int| 0 <= q < r@.len() && #[trigger] r@[q].0 == u;
                            if q != old_r.len() {
                                assert(old_r[q].0 == u);
                                assert(pre.contains(u));
                                assert(pre.to_multiset().count(u) > 0);
                            }
                            assert(s.take(i + 1).to_multiset().count(u) > 0);
                        }
                    }
                },
            }
            i = i + 1;
        }
        assert(s.take(i as int) =~= s);
        r
    }
}

} // verus!

verus! {

/// A soup is as similar as can be to itself: its Jaccard index is one.
pub proof fn lemma_jaccard_self(s: &Soup)
    ensures
        jaccard(s.members(), s.members()).0 == jaccard(s.members(), s.members()).1,
        jaccard(s.members(), s.members()).1 > 0,
{
    let m = s.members().to_multiset();
    assert(m.intersection_with(m) =~= m);
}

/// The Jaccard index does not depend on the order of its two soups.
pub proof fn lemma_jaccard_symmetric(a: &Soup, b: &Soup)
    ensures
        jaccard(a.members(), b.members()) == jaccard(b.members(), a.members()),
{
    let ma = a.members().to_multiset();
    let mb = b.members().to_multiset();
    assert(ma.intersection_with(mb) =~= mb.intersection_with(ma));
}

} // verus!
