//! Stable sorting by index.
//!
//! A [`Ranking`] says of the items `0..size` which goes before which. Sorting
//! never moves the items themselves: it gives the order in which to take them.

use vstd::prelude::*;

verus! {

/// Whether a relation on the items `0..n` is a strict weak order.
pub open spec fn strict_weak(n: nat, before: spec_fn(int, int) -> bool) -> bool {
    &&& forall|i: int, j: int|
        0 <= i < n && 0 <= j < n && #[trigger] before(i, j) ==> !before(j, i)
    &&& forall|i: int, j: int, k: int|
        #![trigger before(i, k), before(j, k)]
        #![trigger before(i, k), before(i, j)]
        0 <= i < n && 0 <= j < n && 0 <= k < n && before(i, k) ==> before(i, j) || before(j, k)
}

/// Whether item `i` stands before item `j` in a stable sort: it goes before
/// it, or neither goes before the other and it came first.
pub open spec fn stands(before: spec_fn(int, int) -> bool, i: int, j: int) -> bool {
    before(i, j) || (!before(j, i) && i < j)
}

/// Whether `p` takes each of the items `0..n` once, in stable sorted order.
pub open spec fn arranged(n: nat, before: spec_fn(int, int) -> bool, p: Seq<int>) -> bool {
    &&& p.len() == n
    &&& forall|a: int| 0 <= a < n ==> 0 <= #[trigger] p[a] < n
    &&& forall|x: int| 0 <= x < n ==> #[trigger] p.contains(x)
    &&& forall|a: int, b: int|
        0 <= a < b < n ==> stands(before, #[trigger] p[a], #[trigger] p[b])
}

/// The stable sorted order of the items `0..n`.
pub open spec fn arrangement(n: nat, before: spec_fn(int, int) -> bool) -> Seq<int> {
    choose|p: Seq<int>| arranged(n, before, p)
}

/// A sequence in the order that an arrangement gives.
pub open spec fn taken<T>(items: Seq<T>, order: Seq<int>) -> Seq<T> {
    Seq::new(order.len(), |k: int| items[order[k]])
}

proof fn lemma_stands_asymmetric(n: nat, before: spec_fn(int, int) -> bool, i: int, j: int)
    requires
        strict_weak(n, before),
        0 <= i < n,
        0 <= j < n,
        stands(before, i, j),
    ensures
        !stands(before, j, i),
{
}

proof fn lemma_stands_total(n: nat, before: spec_fn(int, int) -> bool, i: int, j: int)
    requires
        strict_weak(n, before),
        0 <= i < n,
        0 <= j < n,
        i != j,
    ensures
        stands(before, i, j) || stands(before, j, i),
{
}

proof fn lemma_stands_transitive(n: nat, before: spec_fn(int, int) -> bool, i: int, j: int, k: int)
    requires
        strict_weak(n, before),
        0 <= i < n,
        0 <= j < n,
        0 <= k < n,
        stands(before, i, j),
        stands(before, j, k),
    ensures
        stands(before, i, k),
{
    assert(before(i, j) ==> before(i, k) || before(k, j));
    assert(before(j, k) ==> before(j, i) || before(i, k));
    assert(before(k, i) ==> before(k, j) || before(j, i));
}

/// A strict weak order has one stable sorted order only.
pub proof fn lemma_arrangement_unique(
    n: nat,
    before: spec_fn(int, int) -> bool,
    p: Seq<int>,
    q: Seq<int>,
)
    requires
        strict_weak(n, before),
        arranged(n, before, p),
        arranged(n, before, q),
    ensures
        p == q,
{
    lemma_arrangement_prefix(n, before, p, q, n as int);
    assert(p =~= q);
}

proof fn lemma_arrangement_prefix(
    n: nat,
    before: spec_fn(int, int) -> bool,
    p: Seq<int>,
    q: Seq<int>,
    k: int,
)
    requires
        strict_weak(n, before),
        arranged(n, before, p),
        arranged(n, before, q),
        0 <= k <= n,
    ensures
        forall|a: int| 0 <= a < k ==> p[a] == q[a],
    decreases k,
{
    if k > 0 {
        let m = k - 1;
        lemma_arrangement_prefix(n, before, p, q, m);
        if p[m] != q[m] {
            assert(q.contains(p[m]));
            assert(p.contains(q[m]));
            let a = choose|a: int| 0 <= a < q.len() && q[a] == p[m];
            let b = choose|b: int| 0 <= b < p.len() && p[b] == q[m];
            if a < m {
                assert(p[a] == p[m]);
                assert(stands(before, p[a], p[m]));
                lemma_stands_asymmetric(n, before, p[a], p[m]);
            }
            if b < m {
                assert(q[b] == q[m]);
                assert(stands(before, q[b], q[m]));
                lemma_stands_asymmetric(n, before, q[b], q[m]);
            }
            assert(stands(before, q[m], q[a]));
            assert(stands(before, p[m], p[b]));
            lemma_stands_asymmetric(n, before, p[m], q[m]);
        }
    }
}

/// What the arrangement of a strict weak order is, given one.
pub proof fn lemma_arrangement_is(n: nat, before: spec_fn(int, int) -> bool, p: Seq<int>)
    requires
        strict_weak(n, before),
        arranged(n, before, p),
    ensures
        arrangement(n, before) == p,
{
    lemma_arrangement_unique(n, before, arrangement(n, before), p);
}

/// A strict weak order on the items `0..size`.
pub trait Ranking: Sized {
    /// Number of items.
    spec fn size(&self) -> nat;

    /// Whether one item goes before another.
    spec fn relation(&self) -> spec_fn(int, int) -> bool;

    /// The relation is a strict weak order.
    proof fn lawful(&self)
        ensures
            strict_weak(self.size(), self.relation()),
    ;

    /// Return whether item `i` goes before item `j`.
    fn before(&self, i: usize, j: usize) -> (r: bool)
        requires
            i < self.size(),
            j < self.size(),
        ensures
            r == (self.relation())(i as int, j as int),
    ;
}

/// The positions that a sequence of indexes names.
pub open spec fn indexes(p: Seq<usize>) -> Seq<int> {
    Seq::new(p.len(), |k: int| p[k] as int)
}

spec fn run<R: Ranking>(ranking: &R, lo: int, hi: int, p: Seq<usize>) -> bool {
    &&& p.len() == hi - lo
    &&& forall|a: int| 0 <= a < p.len() ==> lo <= #[trigger] p[a] < hi
    &&& forall|x: usize| lo <= x < hi ==> #[trigger] p.contains(x)
    &&& forall|a: int, b: int|
        0 <= a < b < p.len() ==> stands(
            ranking.relation(),
            #[trigger] p[a] as int,
            #[trigger] p[b] as int,
        )
}

fn merged<R: Ranking>(
    ranking: &R,
    left: &Vec<usize>,
    right: &Vec<usize>,
    lo: usize,
    mid: usize,
    hi: usize,
) -> (out: Vec<usize>)
    requires
        lo <= mid <= hi,
        hi <= ranking.size(),
        run(ranking, lo as int, mid as int, left@),
        run(ranking, mid as int, hi as int, right@),
    ensures
        run(ranking, lo as int, hi as int, out@),
{
    proof {
        ranking.lawful();
    }
    let ghost n = ranking.size();
    let ghost f = ranking.relation();
    let mut out: Vec<usize> = Vec::new();
    let mut i: usize = 0;
    let mut j: usize = 0;
    while i < left.len() || j < right.len()
        invariant
            lo <= mid <= hi,
            hi <= n,
            n == ranking.size(),
            f == ranking.relation(),
            strict_weak(n, f),
            run(ranking, lo as int, mid as int, left@),
            run(ranking, mid as int, hi as int, right@),
            0 <= i <= left@.len(),
            0 <= j <= right@.len(),
            out@.len() == i + j,
            forall|a: int| 0 <= a < out@.len() ==> lo <= #[trigger] out@[a] < hi,
            forall|a: int| 0 <= a < i ==> out@.contains(#[trigger] left@[a]),
            forall|a: int| 0 <= a < j ==> out@.contains(#[trigger] right@[a]),
            forall|a: int, b: int|
                0 <= a < b < out@.len() ==> stands(
                    f,
                    #[trigger] out@[a] as int,
                    #[trigger] out@[b] as int,
                ),
            forall|a: int, b: int|
                0 <= a < out@.len() && i <= b < left@.len() ==> stands(
                    f,
                    #[trigger] out@[a] as int,
                    #[trigger] left@[b] as int,
                ),
            forall|a: int, b: int|
                0 <= a < out@.len() && j <= b < right@.len() ==> stands(
                    f,
                    #[trigger] out@[a] as int,
                    #[trigger] right@[b] as int,
                ),
        decreases left@.len() - i + right@.len() - j,
    {
        let from_left: bool = if i >= left.len() {
            false
        } else if j >= right.len() {
            true
        } else {
            !ranking.before(right[j], left[i])
        };
        let ghost before = out@;
        if from_left {
            let x: usize = left[i];
            out.push(x);
            proof {
                assert(out@[before.len() as int] == x);
                assert forall|a: int| 0 <= a < i implies out@.contains(#[trigger] left@[a]) by {
                    let w = choose|w: int| 0 <= w < before.len() && before[w] == left@[a];
                    assert(out@[w] == left@[a]);
                }
                assert forall|a: int| 0 <= a < j implies out@.contains(#[trigger] right@[a]) by {
                    let w = choose|w: int| 0 <= w < before.len() && before[w] == right@[a];
                    assert(out@[w] == right@[a]);
                }
                assert forall|b: int| j <= b < right@.len() implies stands(
                    f,
                    x as int,
                    #[trigger] right@[b] as int,
                ) by {
                    assert(stands(f, x as int, right@[j as int] as int));
                    if b > j {
                        lemma_stands_transitive(
                            n,
                            f,
                            x as int,
                            right@[j as int] as int,
                            right@[b] as int,
                        );
                    }
                }
            }
            i = i + 1;
        } else {
            let x: usize = right[j];
            out.push(x);
            proof {
                assert(out@[before.len() as int] == x);
                assert forall|a: int| 0 <= a < i implies out@.contains(#[trigger] left@[a]) by {
                    let w = choose|w: int| 0 <= w < before.len() && before[w] == left@[a];
                    assert(out@[w] == left@[a]);
                }
                assert forall|a: int| 0 <= a < j implies out@.contains(#[trigger] right@[a]) by {
                    let w = choose|w: int| 0 <= w < before.len() && before[w] == right@[a];
                    assert(out@[w] == right@[a]);
                }
                assert forall|b: int| i <= b < left@.len() implies stands(
                    f,
                    x as int,
                    #[trigger] left@[b] as int,
                ) by {
                    assert(f(x as int, left@[i as int] as int));
                    assert(stands(f, x as int, left@[i as int] as int));
                    if b > i {
                        lemma_stands_transitive(
                            n,
                            f,
                            x as int,
                            left@[i as int] as int,
                            left@[b] as int,
                        );
                    }
                }
            }
            j = j + 1;
        }
    }
    proof {
        assert forall|x: usize| lo <= x < hi implies #[trigger] out@.contains(x) by {
            if x < mid {
                assert(left@.contains(x));
            } else {
                assert(right@.contains(x));
            }
        }
    }
    out
}

fn sorted_run<R: Ranking>(ranking: &R, lo: usize, hi: usize) -> (out: Vec<usize>)
    requires
        lo <= hi,
        hi <= ranking.size(),
    ensures
        run(ranking, lo as int, hi as int, out@),
    decreases hi - lo,
{
    if hi - lo <= 1 {
        let mut out: Vec<usize> = Vec::new();
        if lo < hi {
            out.push(lo);
            assert(out@[0] == lo);
        }
        out
    } else {
        let mid: usize = lo + (hi - lo) / 2;
        let left = sorted_run(ranking, lo, mid);
        let right = sorted_run(ranking, mid, hi);
        merged(ranking, &left, &right, lo, mid, hi)
    }
}

/// Return the stable sorted order of the items of a ranking.
pub fn sorted_order<R: Ranking>(ranking: &R, n: usize) -> (out: Vec<usize>)
    requires
        n == ranking.size(),
    ensures
        indexes(out@) == arrangement(n as nat, ranking.relation()),
        arranged(n as nat, ranking.relation(), indexes(out@)),
{
    let out = sorted_run(ranking, 0, n);
    proof {
        ranking.lawful();
        let p = indexes(out@);
        assert forall|x: int| 0 <= x < n implies #[trigger] p.contains(x) by {
            assert(out@.contains(x as usize));
            let k = choose|k: int| 0 <= k < out@.len() && out@[k] == x as usize;
            assert(p[k] == x);
        }
        assert(arranged(n as nat, ranking.relation(), p));
        lemma_arrangement_is(n as nat, ranking.relation(), p);
    }
    out
}

/// Where the items that meet a condition are the first `m` of an arrangement,
/// there are `m` of them.
pub proof fn lemma_leading_count(
    n: nat,
    before: spec_fn(int, int) -> bool,
    p: Seq<int>,
    meets: spec_fn(int) -> bool,
    m: int,
)
    requires
        strict_weak(n, before),
        arranged(n, before, p),
        0 <= m <= n,
        forall|a: int| 0 <= a < n ==> meets(#[trigger] p[a]) == (a < m),
    ensures
        Set::new(|i: int| 0 <= i < n && meets(i)).finite(),
        Set::new(|i: int| 0 <= i < n && meets(i)).len() == m,
{
    let leading = vstd::set_lib::set_int_range(0, m);
    let all = Set::new(|i: int| 0 <= i < n && meets(i));
    let f = |a: int| p[a];
    vstd::set_lib::lemma_int_range(0, m);
    assert forall|x: int| #[trigger] all.contains(x) implies exists|a: int|
        leading.contains(a) && f(a) == x by {
        assert(p.contains(x));
        let a = choose|a: int| 0 <= a < p.len() && p[a] == x;
        assert(meets(p[a]));
        assert(leading.contains(a) && f(a) == x);
    }
    assert forall|a: int, b: int|
        leading.contains(a) && leading.contains(b) && #[trigger] f(a) == #[trigger] f(b) implies a
        == b by {
        if a < b {
            assert(stands(before, p[a], p[b]));
            lemma_stands_asymmetric(n, before, p[a], p[b]);
        }
        if b < a {
            assert(stands(before, p[b], p[a]));
            lemma_stands_asymmetric(n, before, p[b], p[a]);
        }
    }
    assert(all =~= leading.map(f)) by {
        assert forall|x: int| all.contains(x) == leading.map(f).contains(x) by {
            if leading.map(f).contains(x) {
                let a = choose|a: int| leading.contains(a) && f(a) == x;
                assert(meets(p[a]));
            }
        }
    }
    vstd::set_lib::lemma_map_size(leading, all, f);
}

spec fn splits(before: spec_fn(int, int) -> bool, p: Seq<int>, x: int, m: int) -> bool {
    &&& 0 <= m <= p.len()
    &&& forall|a: int| 0 <= a < m ==> stands(before, #[trigger] p[a], x)
    &&& forall|a: int| m <= a < p.len() ==> stands(before, x, #[trigger] p[a])
}

proof fn lemma_splits(n: nat, before: spec_fn(int, int) -> bool, p: Seq<int>, x: int) -> (m: int)
    requires
        strict_weak(n, before),
        0 <= x < n,
        forall|a: int| 0 <= a < p.len() ==> 0 <= #[trigger] p[a] < n && p[a] != x,
        forall|a: int, b: int|
            0 <= a < b < p.len() ==> stands(before, #[trigger] p[a], #[trigger] p[b]),
    ensures
        splits(before, p, x, m),
    decreases p.len(),
{
    if p.len() == 0 {
        0
    } else {
        let last = p.len() - 1;
        lemma_stands_total(n, before, p[last], x);
        if stands(before, p[last], x) {
            assert forall|a: int| 0 <= a < p.len() implies stands(before, #[trigger] p[a], x) by {
                if a < last {
                    lemma_stands_transitive(n, before, p[a], p[last], x);
                }
            }
            p.len() as int
        } else {
            let head = p.drop_last();
            let m = lemma_splits(n, before, head, x);
            assert forall|a: int| 0 <= a < m implies stands(before, #[trigger] p[a], x) by {
                assert(head[a] == p[a]);
            }
            assert forall|a: int| m <= a < p.len() implies stands(before, x, #[trigger] p[a]) by {
                if a < last {
                    assert(head[a] == p[a]);
                }
            }
            m
        }
    }
}

/// Every strict weak order has a stable sorted order.
pub proof fn lemma_arrangement_exists(n: nat, before: spec_fn(int, int) -> bool)
    requires
        strict_weak(n, before),
    ensures
        arranged(n, before, arrangement(n, before)),
    decreases n,
{
    if n == 0 {
        assert(arranged(n, before, Seq::empty()));
    } else {
        let x = n - 1;
        lemma_arrangement_exists((n - 1) as nat, before);
        let p = arrangement((n - 1) as nat, before);
        let m = lemma_splits(n, before, p, x);
        let q = p.take(m) + seq![x] + p.skip(m);
        assert forall|a: int| 0 <= a < q.len() implies #[trigger] q[a] == if a < m {
            p[a]
        } else if a == m {
            x
        } else {
            p[a - 1]
        } by {}
        assert forall|y: int| 0 <= y < n implies #[trigger] q.contains(y) by {
            if y == x {
                assert(q[m] == x);
            } else {
                assert(p.contains(y));
                let a = choose|a: int| 0 <= a < p.len() && p[a] == y;
                if a < m {
                    assert(q[a] == y);
                } else {
                    assert(q[a + 1] == y);
                }
            }
        }
        assert(arranged(n, before, q));
    }
}

} // verus!
