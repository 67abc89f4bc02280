//! The mathematical model shared by both solver families: square distance
//! matrices with a saturating "no edge" sentinel, closed tours anchored at the
//! depot (node 0), and the saturating cost of a tour.

use vstd::prelude::*;

verus! {

use vstd::multiset::Multiset;

/// The reserved weight that stands for "no edge": the maximum `u32`.
pub open spec fn sentinel() -> int {
    u32::MAX as int
}

/// Saturating addition on costs, capped at the sentinel.
pub open spec fn sat(a: int, b: int) -> int {
    if a + b >= sentinel() {
        sentinel()
    } else {
        a + b
    }
}

/// Executable saturating addition, matching `sat` exactly.
pub fn sat_add(a: u32, b: u32) -> (r: u32)
    ensures
        r as int == sat(a as int, b as int),
{
    if a as u64 + b as u64 >= u32::MAX as u64 {
        u32::MAX
    } else {
        a + b
    }
}

/// A well-formed distance matrix: square.
pub open spec fn matrix_wf(m: Seq<Seq<u32>>) -> bool {
    forall|i: int| 0 <= i < m.len() ==> (#[trigger] m[i]).len() == m.len()
}

/// The weight of the directed edge from `a` to `b`.
pub open spec fn edge(m: Seq<Seq<u32>>, a: int, b: int) -> int {
    m[a][b] as int
}

/// Saturating sum of the weights of consecutive edges along `p`.
pub open spec fn path_cost(m: Seq<Seq<u32>>, p: Seq<usize>) -> int
    decreases p.len(),
{
    if p.len() <= 1 {
        0
    } else {
        sat(
            path_cost(m, p.drop_last()),
            edge(m, p[p.len() - 2] as int, p[p.len() - 1] as int),
        )
    }
}

/// The mathematical view of an owned matrix: each row as a sequence.
pub open spec fn mat(rows: Seq<Vec<u32>>) -> Seq<Seq<u32>> {
    rows.map_values(|r: Vec<u32>| r@)
}

/// Read one weight of the matrix.
pub fn w_at(matrix: &Vec<Vec<u32>>, u: usize, v: usize) -> (r: u32)
    requires
        matrix_wf(mat(matrix@)),
        u < matrix@.len(),
        v < matrix@.len(),
    ensures
        r as int == edge(mat(matrix@), u as int, v as int),
{
    proof {
        assert(mat(matrix@)[u as int] == matrix@[u as int]@);
    }
    matrix[u][v]
}

/// `c` occurs among the first `n` entries of `s`.
pub open spec fn occurs(s: Seq<usize>, n: int, c: usize) -> bool {
    exists|i: int| 0 <= i < n && s[i] == c
}

/// A closed tour over `n` nodes: length `n + 1`, the depot at both ends, the
/// first `n` entries pairwise distinct, every entry below `n`, and every
/// non-depot node visited.
pub open spec fn valid_tour(n: int, t: Seq<usize>) -> bool {
    &&& t.len() == n + 1
    &&& t[0] == 0usize
    &&& t[n] == 0usize
    &&& forall|i: int| 0 <= i < n ==> (#[trigger] t[i]) < n
    &&& forall|i: int, j: int| 0 <= i < j < n ==> t[i] != t[j]
    &&& forall|c: usize| 1 <= c < n ==> #[trigger] occurs(t, n, c)
}

/// The interior nodes `1, 2, ..., n - 1` in ascending order.
pub open spec fn interior_seq(n: int) -> Seq<usize> {
    Seq::new((n - 1) as nat, |i: int| (i + 1) as usize)
}

/// The interior of a tour: everything strictly between the two depot ends.
pub open spec fn interior(n: int, t: Seq<usize>) -> Seq<usize> {
    t.subrange(1, n)
}

/// Each non-depot node occurs exactly once in `interior_seq(n)`.
pub proof fn lemma_interior_seq_count(n: int, c: usize)
    requires
        1 <= n <= usize::MAX,
    ensures
        interior_seq(n).to_multiset().count(c) == if 1 <= c < n {
            1int
        } else {
            0int
        },
    decreases n,
{
    broadcast use vstd::seq_lib::group_to_multiset_ensures;
    broadcast use vstd::multiset::group_multiset_axioms;

    if n == 1 {
        assert(interior_seq(1) =~= Seq::<usize>::empty());
        assert(interior_seq(1).to_multiset() =~= Multiset::<usize>::empty());
    } else {
        lemma_interior_seq_count(n - 1, c);
        let prev = interior_seq(n - 1);
        let last = (n - 1) as usize;
        assert(interior_seq(n) =~= prev.push(last));
        assert(interior_seq(n).to_multiset() == prev.push(last).to_multiset());
        assert(prev.push(last).to_multiset() =~= prev.to_multiset().insert(last));
        assert(prev.to_multiset().insert(last).count(c) == prev.to_multiset().count(c) + if c
            == last {
            1int
        } else {
            0int
        });
    }
}

/// A sequence whose multiset equals `interior_seq(n)`'s is a permutation of
/// the non-depot nodes: distinct, in range, and covering.
pub proof fn lemma_mset_gives_permutation(n: int, s: Seq<usize>)
    requires
        1 <= n <= usize::MAX,
        s.to_multiset() == interior_seq(n).to_multiset(),
    ensures
        s.len() == n - 1,
        forall|i: int| 0 <= i < s.len() ==> 1 <= (#[trigger] s[i]) < n,
        forall|i: int, j: int| 0 <= i < j < s.len() ==> s[i] != s[j],
        forall|c: usize| 1 <= c < n ==> #[trigger] occurs(s, s.len() as int, c),
{
    broadcast use vstd::seq_lib::group_to_multiset_ensures;

    assert forall|c: usize| s.to_multiset().count(c) == if 1 <= c < n {
        1int
    } else {
        0int
    } by {
        lemma_interior_seq_count(n, c);
    }
    assert(interior_seq(n).len() == n - 1);
    assert(s.len() == s.to_multiset().len());
    assert(s.to_multiset().len() == interior_seq(n).to_multiset().len());
    assert forall|i: int| 0 <= i < s.len() implies 1 <= (#[trigger] s[i]) < n by {
        assert(s.contains(s[i]));
        assert(s.to_multiset().count(s[i]) > 0);
    }
    assert forall|i: int, j: int| 0 <= i < j < s.len() implies s[i] != s[j] by {
        if s[i] == s[j] {
            s.lemma_multiset_has_no_duplicates_conv();
            assert(!s.no_duplicates());
        }
    }
    assert forall|c: usize| 1 <= c < n implies #[trigger] occurs(s, s.len() as int, c) by {
        assert(s.to_multiset().count(c) > 0);
        assert(s.contains(c));
        let i = choose|i: int| 0 <= i < s.len() && s[i] == c;
        assert(0 <= i < s.len() as int && s[i] == c);
    }
}

/// Conversely, the interior of a valid tour has exactly the multiset of
/// `interior_seq(n)`.
pub proof fn lemma_permutation_gives_mset(n: int, s: Seq<usize>)
    requires
        1 <= n <= usize::MAX,
        s.len() == n - 1,
        forall|i: int| 0 <= i < s.len() ==> 1 <= (#[trigger] s[i]) < n,
        forall|i: int, j: int| 0 <= i < j < s.len() ==> s[i] != s[j],
        forall|c: usize| 1 <= c < n ==> #[trigger] occurs(s, s.len() as int, c),
    ensures
        s.to_multiset() == interior_seq(n).to_multiset(),
{
    broadcast use vstd::seq_lib::group_to_multiset_ensures;

    assert(s.no_duplicates());
    s.lemma_multiset_has_no_duplicates();
    assert forall|c: usize|
        s.to_multiset().count(c) == interior_seq(n).to_multiset().count(c) by {
        lemma_interior_seq_count(n, c);
        if 1 <= c < n {
            assert(occurs(s, s.len() as int, c));
            let i = choose|i: int| 0 <= i < s.len() as int && s[i] == c;
            assert(s[i] == c);
            assert(s.contains(c));
            assert(s.to_multiset().count(c) == 1);
        } else {
            if s.to_multiset().count(c) > 0 {
                assert(s.contains(c));
                let i = choose|i: int| 0 <= i < s.len() && s[i] == c;
                assert(1 <= s[i] < n);
            }
        }
    }
    assert(s.to_multiset() =~= interior_seq(n).to_multiset());
}

/// A tour is valid exactly when it closes at the depot and its interior is a
/// rearrangement of the non-depot nodes.
pub proof fn lemma_valid_tour_from_mset(n: int, t: Seq<usize>)
    requires
        1 <= n <= usize::MAX,
        t.len() == n + 1,
        t[0] == 0usize,
        t[n] == 0usize,
        interior(n, t).to_multiset() == interior_seq(n).to_multiset(),
    ensures
        valid_tour(n, t),
{
    let s = interior(n, t);
    lemma_mset_gives_permutation(n, s);
    assert forall|i: int| 0 <= i < n implies (#[trigger] t[i]) < n by {
        if i >= 1 {
            assert(t[i] == s[i - 1]);
        }
    }
    assert forall|i: int, j: int| 0 <= i < j < n implies t[i] != t[j] by {
        if i == 0 {
            assert(t[j] == s[j - 1]);
            assert(1 <= s[j - 1]);
        } else {
            assert(t[i] == s[i - 1] && t[j] == s[j - 1]);
        }
    }
    assert forall|c: usize| 1 <= c < n implies #[trigger] occurs(t, n, c) by {
        assert(occurs(s, s.len() as int, c));
        let i = choose|i: int| 0 <= i < s.len() as int && s[i] == c;
        assert(t[i + 1] == c);
        assert(0 <= i + 1 < n && t[i + 1] == c);
    }
}

/// The interior of a valid tour is a rearrangement of the non-depot nodes.
pub proof fn lemma_mset_from_valid_tour(n: int, t: Seq<usize>)
    requires
        1 <= n <= usize::MAX,
        valid_tour(n, t),
    ensures
        interior(n, t).to_multiset() == interior_seq(n).to_multiset(),
{
    let s = interior(n, t);
    assert forall|i: int| 0 <= i < s.len() implies 1 <= (#[trigger] s[i]) < n by {
        assert(s[i] == t[i + 1]);
        assert(t[0] != t[i + 1]);
    }
    assert forall|i: int, j: int| 0 <= i < j < s.len() implies s[i] != s[j] by {
        assert(s[i] == t[i + 1] && s[j] == t[j + 1]);
    }
    assert forall|c: usize| 1 <= c < n implies #[trigger] occurs(s, s.len() as int, c) by {
        assert(occurs(t, n, c));
        let i = choose|i: int| 0 <= i < n && t[i] == c;
        assert(i >= 1);
        assert(s[i - 1] == c);
        assert(0 <= i - 1 < s.len() as int && s[i - 1] == c);
    }
    lemma_permutation_gives_mset(n, s);
}

/// `after` is `before` with the values at two distinct interior positions
/// exchanged and everything else, the depot ends included, unchanged.
pub open spec fn is_interior_swap(n: int, before: Seq<usize>, after: Seq<usize>) -> bool {
    exists|r: int, r2: int|
        1 <= r < n && 1 <= r2 < n && r != r2 && after == #[trigger] before.update(
            r,
            before[r2],
        ).update(r2, before[r])
}

/// Filtering commutes with appending one element.
pub proof fn lemma_filter_step(s: Seq<usize>, e: usize, pred: spec_fn(usize) -> bool)
    ensures
        s.push(e).filter(pred) == if pred(e) {
            s.filter(pred).push(e)
        } else {
            s.filter(pred)
        },
{
    reveal(Seq::filter);
    assert(s.push(e).drop_last() =~= s);
    assert(s.push(e).last() == e);
}

/// How often an element survives a filter: exactly its count if the
/// predicate keeps it, never otherwise.
pub proof fn lemma_filter_count(s: Seq<usize>, pred: spec_fn(usize) -> bool, x: usize)
    ensures
        s.filter(pred).to_multiset().count(x) == if pred(x) {
            s.to_multiset().count(x) as int
        } else {
            0int
        },
    decreases s.len(),
{
    broadcast use vstd::seq_lib::group_to_multiset_ensures;
    broadcast use vstd::multiset::group_multiset_axioms;

    reveal(Seq::filter);
    if s.len() == 0 {
        assert(s.to_multiset() =~= Multiset::<usize>::empty());
        assert(s.filter(pred) == s);
    } else {
        let e = s.last();
        lemma_filter_count(s.drop_last(), pred, x);
        lemma_filter_step(s.drop_last(), e, pred);
        assert(s.drop_last().push(e) =~= s);
        assert(s.to_multiset() == s.drop_last().push(e).to_multiset());
        assert(s.drop_last().push(e).to_multiset() =~= s.drop_last().to_multiset().insert(e));
        if pred(e) {
            assert(s.filter(pred) == s.drop_last().filter(pred).push(e));
            assert(s.filter(pred).to_multiset() =~= s.drop_last().filter(pred).to_multiset().insert(
                e,
            ));
        }
    }
}

/// The node counts of a valid tour: the depot twice, each interior node once.
pub proof fn lemma_tour_counts(n: int, t: Seq<usize>)
    requires
        1 <= n <= usize::MAX,
        valid_tour(n, t),
    ensures
        forall|c: usize|
            t.to_multiset().count(c) == if c == 0usize {
                2int
            } else if 1 <= c < n {
                1int
            } else {
                0int
            },
{
    broadcast use vstd::seq_lib::group_to_multiset_ensures;
    broadcast use vstd::multiset::group_multiset_axioms;

    let s = interior(n, t);
    lemma_mset_from_valid_tour(n, t);
    assert(t =~= seq![0usize] + (s + seq![0usize]));
    vstd::seq_lib::lemma_multiset_commutative(seq![0usize], s + seq![0usize]);
    vstd::seq_lib::lemma_multiset_commutative(s, seq![0usize]);
    assert(seq![0usize].to_multiset() =~= Multiset::<usize>::empty().insert(0usize)) by {
        assert(seq![0usize] =~= Seq::<usize>::empty().push(0usize));
        assert(Seq::<usize>::empty().to_multiset() =~= Multiset::<usize>::empty());
    }
    assert forall|c: usize|
        t.to_multiset().count(c) == if c == 0usize {
            2int
        } else if 1 <= c < n {
            1int
        } else {
            0int
        } by {
        lemma_interior_seq_count(n, c);
        assert(t.to_multiset().count(c) == seq![0usize].to_multiset().count(c)
            + s.to_multiset().count(c) + seq![0usize].to_multiset().count(c));
    }
}

/// A sequence with the endpoints of a tour and the node counts of a tour is a
/// valid tour.
pub proof fn lemma_valid_tour_from_counts(n: int, t: Seq<usize>)
    requires
        1 <= n <= usize::MAX,
        t.len() == n + 1,
        t[0] == 0usize,
        t[n] == 0usize,
        forall|c: usize|
            t.to_multiset().count(c) == if c == 0usize {
                2int
            } else if 1 <= c < n {
                1int
            } else {
                0int
            },
    ensures
        valid_tour(n, t),
{
    broadcast use vstd::seq_lib::group_to_multiset_ensures;
    broadcast use vstd::multiset::group_multiset_axioms;

    let s = interior(n, t);
    assert(t =~= seq![0usize] + (s + seq![0usize]));
    vstd::seq_lib::lemma_multiset_commutative(seq![0usize], s + seq![0usize]);
    vstd::seq_lib::lemma_multiset_commutative(s, seq![0usize]);
    assert(seq![0usize].to_multiset() =~= Multiset::<usize>::empty().insert(0usize)) by {
        assert(seq![0usize] =~= Seq::<usize>::empty().push(0usize));
        assert(Seq::<usize>::empty().to_multiset() =~= Multiset::<usize>::empty());
    }
    assert forall|c: usize|
        s.to_multiset().count(c) == interior_seq(n).to_multiset().count(c) by {
        lemma_interior_seq_count(n, c);
        assert(t.to_multiset().count(c) == seq![0usize].to_multiset().count(c)
            + s.to_multiset().count(c) + seq![0usize].to_multiset().count(c));
    }
    assert(s.to_multiset() =~= interior_seq(n).to_multiset());
    lemma_valid_tour_from_mset(n, t);
}

/// Saturating addition of non-negative costs is associative.
pub proof fn lemma_sat_assoc(a: int, b: int, c: int)
    requires
        0 <= a,
        0 <= b,
        0 <= c,
    ensures
        sat(sat(a, b), c) == sat(a, sat(b, c)),
{
}

/// Extending a path at the front adds the new first edge, saturating.
pub proof fn lemma_path_cost_prepend(m: Seq<Seq<u32>>, x: usize, q: Seq<usize>)
    requires
        q.len() >= 1,
    ensures
        path_cost(m, seq![x] + q) == sat(edge(m, x as int, q[0] as int), path_cost(m, q)),
    decreases q.len(),
{
    let p = seq![x] + q;
    if q.len() == 1 {
        assert(p.drop_last() =~= seq![x]);
        assert(p.len() == 2);
        assert(path_cost(m, p) == sat(path_cost(m, p.drop_last()), edge(m, p[0] as int, p[1] as int)));
        assert(path_cost(m, seq![x]) == 0);
        assert(p[0] == x && p[1] == q[0]);
        assert(path_cost(m, q) == 0);
    } else {
        assert(p.drop_last() =~= seq![x] + q.drop_last());
        lemma_path_cost_prepend(m, x, q.drop_last());
        lemma_path_cost_bounds(m, q.drop_last());
        lemma_sat_assoc(
            edge(m, x as int, q[0] as int),
            path_cost(m, q.drop_last()),
            edge(m, q[q.len() - 2] as int, q[q.len() - 1] as int),
        );
        assert(p[p.len() - 2] == q[q.len() - 2] && p[p.len() - 1] == q[q.len() - 1]);
    }
}

/// Reversing after a push is prepending to the reversal.
pub proof fn lemma_reverse_push(r: Seq<usize>, x: usize)
    ensures
        r.push(x).reverse() =~= seq![x] + r.reverse(),
{
}

/// Costs are never negative and never exceed the sentinel.
pub proof fn lemma_path_cost_bounds(m: Seq<Seq<u32>>, p: Seq<usize>)
    ensures
        0 <= path_cost(m, p) <= sentinel(),
    decreases p.len(),
{
    if p.len() > 1 {
        lemma_path_cost_bounds(m, p.drop_last());
    }
}

} // verus!
