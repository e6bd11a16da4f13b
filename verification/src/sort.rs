//! A stable sort by a two-part rank, and what is known of its result.

use vstd::prelude::*;

verus! {

/// A value with a rank: a pair of integers, compared by the first and, where
/// the firsts are equal, by the second.
pub trait Ranked: Copy {
    /// The rank of the value.
    spec fn rank(&self) -> (int, int);

    /// Whether `self` ranks strictly before `other`.
    fn ranks_before(&self, other: &Self) -> (b: bool)
        ensures
            b == rank_lt(self.rank(), other.rank()),
    ;
}

/// Strict order of ranks.
pub open spec fn rank_lt(a: (int, int), b: (int, int)) -> bool {
    a.0 < b.0 || (a.0 == b.0 && a.1 < b.1)
}

/// `s` with `x` put behind the last value that does not rank after it.
pub open spec fn insert_ranked<T: Ranked>(s: Seq<T>, x: T) -> Seq<T>
    decreases s.len(),
{
    if s.len() == 0 || !rank_lt(x.rank(), s.last().rank()) {
        s.push(x)
    } else {
        insert_ranked(s.drop_last(), x).push(s.last())
    }
}

/// The values of `s` in ascending rank; values of equal rank keep the order
/// they have in `s`.
pub open spec fn stable_sort<T: Ranked>(s: Seq<T>) -> Seq<T>
    decreases s.len(),
{
    if s.len() == 0 {
        s
    } else {
        insert_ranked(stable_sort(s.drop_last()), s.last())
    }
}

/// No value of `s` ranks before one that stands earlier.
pub open spec fn ascending<T: Ranked>(s: Seq<T>) -> bool {
    forall|i: int, j: int| 0 <= i < j < s.len() ==> !rank_lt(#[trigger] s[j].rank(), #[trigger] s[i].rank())
}

proof fn lemma_insert_at<T: Ranked>(s: Seq<T>, x: T, p: int)
    requires
        0 <= p <= s.len(),
        forall|j: int| p <= j < s.len() ==> rank_lt(x.rank(), #[trigger] s[j].rank()),
        p > 0 ==> !rank_lt(x.rank(), s[p - 1].rank()),
    ensures
        insert_ranked(s, x) == s.insert(p, x),
    decreases s.len() - p,
{
    if p == s.len() {
        assert(s.push(x) =~= s.insert(p, x));
    } else {
        assert(rank_lt(x.rank(), s.last().rank()));
        lemma_insert_at(s.drop_last(), x, p);
        assert(s.drop_last().insert(p, x).push(s.last()) =~= s.insert(p, x));
    }
}

/// Where `insert_ranked` puts `x`: at some place `p`, behind values that do
/// not rank after it and before values that do.
pub proof fn lemma_insert_place<T: Ranked>(s: Seq<T>, x: T) -> (p: int)
    ensures
        0 <= p <= s.len(),
        insert_ranked(s, x) == s.insert(p, x),
        forall|j: int| p <= j < s.len() ==> rank_lt(x.rank(), #[trigger] s[j].rank()),
        p > 0 ==> !rank_lt(x.rank(), s[p - 1].rank()),
    decreases s.len(),
{
    if s.len() == 0 || !rank_lt(x.rank(), s.last().rank()) {
        assert(s.push(x) =~= s.insert(s.len() as int, x));
        s.len() as int
    } else {
        let p = lemma_insert_place(s.drop_last(), x);
        assert(s.drop_last().insert(p, x).push(s.last()) =~= s.insert(p, x));
        assert forall|j: int| p <= j < s.len() implies rank_lt(x.rank(), #[trigger] s[j].rank()) by {
            if j < s.len() - 1 {
                assert(s.drop_last()[j] == s[j]);
            }
        }
        assert(p > 0 ==> s.drop_last()[p - 1] == s[p - 1]);
        p
    }
}

/// Inserting into an ascending sequence leaves it ascending.
pub proof fn lemma_insert_ascending<T: Ranked>(s: Seq<T>, x: T)
    requires
        ascending(s),
    ensures
        ascending(insert_ranked(s, x)),
        insert_ranked(s, x).len() == s.len() + 1,
        insert_ranked(s, x).to_multiset() == s.to_multiset().insert(x),
{
    let p = lemma_insert_place(s, x);
    let r = s.insert(p, x);
    assert forall|i: int, j: int| 0 <= i < j < r.len() implies !rank_lt(
        #[trigger] r[j].rank(),
        #[trigger] r[i].rank(),
    ) by {
        if j < p {
            assert(r[i] == s[i] && r[j] == s[j]);
        } else if j == p {
            assert(r[i] == s[i]);
            if i < p - 1 {
                assert(!rank_lt(s[p - 1].rank(), s[i].rank()));
            }
        } else if i < p {
            assert(r[i] == s[i] && r[j] == s[j - 1]);
        } else if i == p {
            assert(r[j] == s[j - 1]);
        } else {
            assert(r[i] == s[i - 1] && r[j] == s[j - 1]);
        }
    }
    vstd::seq_lib::to_multiset_insert(s, p, x);
}

/// The result of the sort is ascending and holds the values of its input,
/// each as often as the input does.
pub proof fn lemma_stable_sort<T: Ranked>(s: Seq<T>)
    ensures
        ascending(stable_sort(s)),
        stable_sort(s).len() == s.len(),
        stable_sort(s).to_multiset() == s.to_multiset(),
    decreases s.len(),
{
    if s.len() == 0 {
    } else {
        lemma_stable_sort(s.drop_last());
        lemma_insert_ascending(stable_sort(s.drop_last()), s.last());
        assert(s.drop_last().push(s.last()) =~= s);
        s.drop_last().to_multiset_ensures();
    }
}

/// Sorts `v` by rank, keeping values of equal rank in their order.
pub fn sort_ranked<T: Ranked>(v: &Vec<T>) -> (sorted: Vec<T>)
    ensures
        sorted@ == stable_sort(v@),
        sorted@.len() == v@.len(),
        ascending(sorted@),
{
    let mut sorted: Vec<T> = Vec::new();
    let mut i: usize = 0;
    assert(v@.take(0) =~= Seq::<T>::empty());
    while i < v.len()
        invariant
            i <= v@.len(),
            sorted@ == stable_sort(v@.take(i as int)),
            sorted@.len() == i,
        decreases v@.len() - i,
    {
        let x = v[i];
        let mut p: usize = sorted.len();
        while p > 0 && x.ranks_before(&sorted[p - 1])
            invariant
                p <= sorted@.len(),
                forall|j: int| p <= j < sorted@.len() ==> rank_lt(x.rank(), #[trigger] sorted@[j].rank()),
            decreases p,
        {
            p = p - 1;
        }
        proof {
            lemma_insert_at(sorted@, x, p as int);
            assert(v@.take(i + 1).drop_last() =~= v@.take(i as int));
        }
        sorted.insert(p, x);
        i = i + 1;
    }
    proof {
        assert(v@.take(v@.len() as int) =~= v@);
        lemma_stable_sort(v@);
    }
    sorted
}

} // verus!
