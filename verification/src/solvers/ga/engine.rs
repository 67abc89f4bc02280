//! The shared machinery of the genetic searches: both solver types run the
//! same verified operators with their own population size, elite prefix and
//! generation budget.

use vstd::prelude::*;

use crate::rng::{rand_below, shuffle, weighted_pick};
use crate::solvers::ga::chromosome::Chromosome;
use crate::tour::{
    interior, interior_seq, is_interior_swap, lemma_valid_tour_from_mset, mat, matrix_wf,
    valid_tour,
};

verus! {

use vstd::multiset::Multiset;

/// The interior nodes `1 .. n` in order, as a vector.
fn interior_cities(n: usize) -> (v: Vec<usize>)
    requires
        n >= 1,
    ensures
        v@ == interior_seq(n as int),
{
    let mut v: Vec<usize> = Vec::new();
    let mut i: usize = 1;
    while i < n
        invariant
            1 <= i <= n,
            v@.len() == i - 1,
            forall|k: int| 0 <= k < v@.len() ==> v@[k] == k + 1,
        decreases n - i,
    {
        v.push(i);
        i += 1;
    }
    proof {
        assert(v@ =~= interior_seq(n as int));
    }
    v
}

/// `[0] + shuffle(1 .. n) + [0]`: a uniformly random closed tour.
pub(crate) fn random_tour(matrix: &Vec<Vec<u32>>, rng: &mut rand::rngs::StdRng) -> (t: Vec<usize>)
    requires
        matrix_wf(mat(matrix@)),
        matrix@.len() >= 1,
    ensures
        valid_tour(matrix@.len() as int, t@),
{
    let n = matrix.len();
    let mut cities = interior_cities(n);
    shuffle(rng, &mut cities);
    let mut t: Vec<usize> = Vec::new();
    t.push(0);
    let mut i: usize = 0;
    while i < cities.len()
        invariant
            i <= cities@.len(),
            t@.len() == i + 1,
            t@[0] == 0usize,
            forall|k: int| 0 <= k < i ==> t@[k + 1] == cities@[k],
        decreases cities@.len() - i,
    {
        t.push(cities[i]);
        i += 1;
    }
    t.push(0);
    proof {
        assert(t@.len() == n + 1);
        assert(interior(n as int, t@) =~= cities@);
        lemma_valid_tour_from_mset(n as int, t@);
    }
    t
}

/// An element-for-element copy of a vector of nodes.
pub(crate) fn copy_vec(v: &Vec<usize>) -> (r: Vec<usize>)
    ensures
        r@ == v@,
{
    let mut r: Vec<usize> = Vec::new();
    let mut i: usize = 0;
    while i < v.len()
        invariant
            i <= v@.len(),
            r@ =~= v@.subrange(0, i as int),
        decreases v@.len() - i,
    {
        r.push(v[i]);
        i += 1;
    }
    proof {
        assert(r@ =~= v@);
    }
    r
}

/// Linear membership scan.
fn vec_has(v: &Vec<usize>, x: usize) -> (r: bool)
    ensures
        r == v@.contains(x),
{
    let mut i: usize = 0;
    while i < v.len()
        invariant
            i <= v@.len(),
            forall|k: int| 0 <= k < i ==> v@[k] != x,
        decreases v@.len() - i,
    {
        if v[i] == x {
            proof {
                assert(v@[i as int] == x);
            }
            return true;
        }
        i += 1;
    }
    false
}

/// The first position holding `x`, which the count guarantees exists.
fn find_first(v: &Vec<usize>, x: usize) -> (r: usize)
    requires
        v@.to_multiset().count(x) >= 1,
    ensures
        r < v@.len(),
        v@[r as int] == x,
        forall|k: int| 0 <= k < r ==> v@[k] != x,
{
    proof {
        broadcast use vstd::seq_lib::group_to_multiset_ensures;

        assert(v@.contains(x));
    }
    let mut i: usize = 0;
    while i < v.len()
        invariant
            i <= v@.len(),
            v@.contains(x),
            forall|k: int| 0 <= k < i ==> v@[k] != x,
        decreases v@.len() - i,
    {
        if v[i] == x {
            return i;
        }
        i += 1;
    }
    proof {
        let k = choose|k: int| 0 <= k < v@.len() && v@[k] == x;
        assert(false);
    }
    0
}

/// The membership predicate used to pick the exchanged node identities.
pub open spec fn chosen_pred(chosen: Seq<usize>) -> spec_fn(usize) -> bool {
    |c: usize| chosen.contains(c)
}

/// The nodes of `gnome` that are among `chosen`, in visiting order.
fn collect_chosen(gnome: &Vec<usize>, chosen: &Vec<usize>) -> (r: Vec<usize>)
    ensures
        r@ == gnome@.filter(chosen_pred(chosen@)),
{
    let mut r: Vec<usize> = Vec::new();
    proof {
        reveal(Seq::filter);
        assert(gnome@.subrange(0, 0).filter(chosen_pred(chosen@)) =~= Seq::<usize>::empty());
    }
    let mut i: usize = 0;
    while i < gnome.len()
        invariant
            i <= gnome@.len(),
            r@ == gnome@.subrange(0, i as int).filter(chosen_pred(chosen@)),
        decreases gnome@.len() - i,
    {
        let g = gnome[i];
        proof {
            crate::tour::lemma_filter_step(
                gnome@.subrange(0, i as int),
                g,
                chosen_pred(chosen@),
            );
            assert(gnome@.subrange(0, i + 1) =~= gnome@.subrange(0, i as int).push(g));
        }
        if vec_has(chosen, g) {
            r.push(g);
        }
        i += 1;
    }
    proof {
        assert(gnome@.subrange(0, gnome@.len() as int) =~= gnome@);
    }
    r
}

/// Replace the first occurrence of `a` in `s` with `b`, if there is one.
pub open spec fn exchange_one(s: Seq<usize>, a: usize, b: usize) -> Seq<usize> {
    match s.index_of_first(a) {
        Some(i) => s.update(i, b),
        None => s,
    }
}

/// The occurrence-order exchange: step through `o1` and `o2` together,
/// replacing the first occurrence of each `o1` identity with the matching
/// `o2` identity.
pub open spec fn exchange(s: Seq<usize>, o1: Seq<usize>, o2: Seq<usize>) -> Seq<usize>
    decreases o1.len(),
{
    if o1.len() == 0 || o2.len() == 0 {
        s
    } else {
        exchange(exchange_one(s, o1[0], o2[0]), o1.drop_first(), o2.drop_first())
    }
}

/// What crossover returns: for some three distinct interior identities, each
/// child is its parent with those identities exchanged for the other
/// parent's, in occurrence order.
pub open spec fn is_crossover(
    m: Seq<Seq<u32>>,
    p1: Seq<usize>,
    p2: Seq<usize>,
    c1: Seq<usize>,
    c2: Seq<usize>,
) -> bool {
    exists|ch: Seq<usize>|
        #![auto]
        {
            &&& ch.len() == 3
            &&& (forall|i: int| 0 <= i < 3 ==> 1 <= #[trigger] ch[i] < m.len())
            &&& ch[0] != ch[1] && ch[0] != ch[2] && ch[1] != ch[2]
            &&& c1 == exchange(p1, p1.filter(chosen_pred(ch)), p2.filter(chosen_pred(ch)))
            &&& c2 == exchange(p2, p2.filter(chosen_pred(ch)), p1.filter(chosen_pred(ch)))
        }
}

/// Peeling the last exchanged pair off the fold.
proof fn lemma_exchange_snoc(s: Seq<usize>, o1: Seq<usize>, o2: Seq<usize>, a: usize, b: usize)
    requires
        o1.len() == o2.len(),
    ensures
        exchange(s, o1.push(a), o2.push(b)) == exchange_one(exchange(s, o1, o2), a, b),
    decreases o1.len(),
{
    if o1.len() == 0 {
        assert(o1.push(a).drop_first() =~= Seq::<usize>::empty());
        assert(o2.push(b).drop_first() =~= Seq::<usize>::empty());
        assert(o1.push(a)[0] == a && o2.push(b)[0] == b);
        assert(exchange(s, o1.push(a), o2.push(b)) == exchange(
            exchange_one(s, a, b),
            o1.push(a).drop_first(),
            o2.push(b).drop_first(),
        ));
        assert(exchange(exchange_one(s, a, b), Seq::<usize>::empty(), Seq::<usize>::empty())
            == exchange_one(s, a, b));
        assert(exchange(s, o1, o2) == s);
    } else {
        assert(o1.push(a).drop_first() =~= o1.drop_first().push(a));
        assert(o2.push(b).drop_first() =~= o2.drop_first().push(b));
        assert(o1.push(a)[0] == o1[0] && o2.push(b)[0] == o2[0]);
        let s2 = exchange_one(s, o1[0], o2[0]);
        assert(exchange(s, o1.push(a), o2.push(b)) == exchange(
            s2,
            o1.drop_first().push(a),
            o2.drop_first().push(b),
        ));
        assert(exchange(s, o1, o2) == exchange(s2, o1.drop_first(), o2.drop_first()));
        lemma_exchange_snoc(s2, o1.drop_first(), o2.drop_first(), a, b);
    }
}

/// The exchange never touches a position whose value is outside the
/// exchanged identity set: such positions keep their values exactly.
pub proof fn lemma_exchange_fixes_unchosen(
    s: Seq<usize>,
    o1: Seq<usize>,
    o2: Seq<usize>,
    ch: Seq<usize>,
)
    requires
        forall|k: int| 0 <= k < o1.len() ==> ch.contains(#[trigger] o1[k]),
        forall|k: int| 0 <= k < o2.len() ==> ch.contains(#[trigger] o2[k]),
    ensures
        exchange(s, o1, o2).len() == s.len(),
        forall|i: int|
            0 <= i < s.len() && !ch.contains(s[i]) ==> #[trigger] exchange(s, o1, o2)[i] == s[i],
    decreases o1.len(),
{
    if o1.len() == 0 || o2.len() == 0 {
    } else {
        let s2 = exchange_one(s, o1[0], o2[0]);
        match s.index_of_first(o1[0]) {
            Some(j) => {
                s.index_of_first_ensures(o1[0]);
            },
            None => {},
        }
        assert(s2.len() == s.len());
        assert forall|i: int|
            0 <= i < s.len() && !ch.contains(s[i]) implies s2[i] == s[i] && !ch.contains(
            s2[i],
        ) by {
            match s.index_of_first(o1[0]) {
                Some(j) => {
                    s.index_of_first_ensures(o1[0]);
                    assert(s[j] == o1[0]);
                    assert(ch.contains(o1[0]));
                    assert(i != j);
                },
                None => {},
            }
        }
        lemma_exchange_fixes_unchosen(s2, o1.drop_first(), o2.drop_first(), ch);
        assert forall|i: int|
            0 <= i < s.len() && !ch.contains(s[i]) implies #[trigger] exchange(s, o1, o2)[i]
            == s[i] by {
            assert(exchange(s, o1, o2) == exchange(s2, o1.drop_first(), o2.drop_first()));
            assert(s2[i] == s[i] && !ch.contains(s2[i]));
        }
    }
}

/// Well-formedness survives any rearrangement of the members.
proof fn lemma_mset_all_wf(m: Seq<Seq<u32>>, s1: Seq<Chromosome>, s2: Seq<Chromosome>)
    requires
        s1.to_multiset() == s2.to_multiset(),
        forall|i: int| 0 <= i < s1.len() ==> (#[trigger] s1[i]).wf(m),
    ensures
        forall|i: int| 0 <= i < s2.len() ==> (#[trigger] s2[i]).wf(m),
{
    broadcast use vstd::seq_lib::group_to_multiset_ensures;

    assert forall|i: int| 0 <= i < s2.len() implies (#[trigger] s2[i]).wf(m) by {
        assert(s2.contains(s2[i]));
        assert(s2.to_multiset().count(s2[i]) > 0);
        assert(s1.contains(s2[i]));
        let j = choose|j: int| 0 <= j < s1.len() && s1[j] == s2[i];
        assert(s1[j].wf(m));
    }
}

/// Exchange a random set of three shared interior node identities between the
/// parents; each child keeps the permutation structure of its tour.
pub(crate) fn crossover_pair(
    matrix: &Vec<Vec<u32>>,
    parent_1: &Chromosome,
    parent_2: &Chromosome,
    rng: &mut rand::rngs::StdRng,
) -> (c: (Chromosome, Chromosome))
    requires
        matrix_wf(mat(matrix@)),
        matrix@.len() >= 4,
        parent_1.wf(mat(matrix@)),
        parent_2.wf(mat(matrix@)),
    ensures
        c.0.wf(mat(matrix@)),
        c.1.wf(mat(matrix@)),
        is_crossover(mat(matrix@), parent_1.gnome@, parent_2.gnome@, c.0.gnome@, c.1.gnome@),
{
    let ghost m = mat(matrix@);
    let n = matrix.len();
    let mut cities = interior_cities(n);
    shuffle(rng, &mut cities);
    proof {
        crate::tour::lemma_mset_gives_permutation(n as int, cities@);
    }
    let mut chosen: Vec<usize> = Vec::new();
    chosen.push(cities[0]);
    chosen.push(cities[1]);
    chosen.push(cities[2]);
    proof {
        assert(chosen@.len() == 3);
        assert(chosen@[0] == cities@[0] && chosen@[1] == cities@[1] && chosen@[2] == cities@[2]);
        assert forall|i: int| 0 <= i < 3 implies 1 <= (#[trigger] chosen@[i]) < n by {
            assert(chosen@[i] == cities@[i]);
        }
        assert(chosen@[0] != chosen@[1] && chosen@[0] != chosen@[2] && chosen@[1] != chosen@[2]);
    }
    let order_1 = collect_chosen(&parent_1.gnome, &chosen);
    let order_2 = collect_chosen(&parent_2.gnome, &chosen);
    proof {
        broadcast use vstd::seq_lib::group_to_multiset_ensures;

        crate::tour::lemma_tour_counts(n as int, parent_1.gnome@);
        crate::tour::lemma_tour_counts(n as int, parent_2.gnome@);
        assert forall|x: usize|
            order_1@.to_multiset().count(x) as int == (if chosen@.contains(x) {
                1int
            } else {
                0int
            }) by {
            crate::tour::lemma_filter_count(parent_1.gnome@, chosen_pred(chosen@), x);
            if chosen@.contains(x) {
                let i = choose|i: int| 0 <= i < chosen@.len() && chosen@[i] == x;
                assert(1 <= x < n);
            }
        }
        assert forall|x: usize|
            order_2@.to_multiset().count(x) as int == (if chosen@.contains(x) {
                1int
            } else {
                0int
            }) by {
            crate::tour::lemma_filter_count(parent_2.gnome@, chosen_pred(chosen@), x);
            if chosen@.contains(x) {
                let i = choose|i: int| 0 <= i < chosen@.len() && chosen@[i] == x;
                assert(1 <= x < n);
            }
        }
        assert(order_1@.to_multiset() =~= order_2@.to_multiset());
        assert(order_1@.len() == order_1@.to_multiset().len());
        assert(order_2@.len() == order_2@.to_multiset().len());
        order_1@.lemma_multiset_has_no_duplicates_conv();
        order_2@.lemma_multiset_has_no_duplicates_conv();
    }
    let mut child_1 = copy_vec(&parent_1.gnome);
    let mut child_2 = copy_vec(&parent_2.gnome);
    proof {
        assert(order_1@.subrange(0, 0) =~= Seq::<usize>::empty());
        assert(order_2@.subrange(0, 0) =~= Seq::<usize>::empty());
        assert(child_1@ == exchange(
            parent_1.gnome@,
            order_1@.subrange(0, 0),
            order_2@.subrange(0, 0),
        ));
        assert(child_2@ == exchange(
            parent_2.gnome@,
            order_2@.subrange(0, 0),
            order_1@.subrange(0, 0),
        ));
    }
    let mut k: usize = 0;
    while k < order_1.len()
        invariant
            matrix_wf(m),
            m == mat(matrix@),
            n == matrix@.len(),
            n >= 4,
            k <= order_1@.len(),
            order_1@.len() == order_2@.len(),
            order_1@.no_duplicates(),
            order_2@.no_duplicates(),
            forall|x: usize|
                order_1@.to_multiset().count(x) as int == (if chosen@.contains(x) {
                    1int
                } else {
                    0int
                }),
            forall|x: usize|
                order_2@.to_multiset().count(x) as int == (if chosen@.contains(x) {
                    1int
                } else {
                    0int
                }),
            forall|i: int| 0 <= i < chosen@.len() ==> 1 <= (#[trigger] chosen@[i]) < n,
            forall|x: usize|
                parent_1.gnome@.to_multiset().count(x) as int == (if x == 0usize {
                    2int
                } else if 1 <= x < n {
                    1int
                } else {
                    0int
                }),
            forall|x: usize|
                parent_2.gnome@.to_multiset().count(x) as int == (if x == 0usize {
                    2int
                } else if 1 <= x < n {
                    1int
                } else {
                    0int
                }),
            child_1@.len() == n + 1,
            child_1@[0] == 0usize,
            child_1@[n as int] == 0usize,
            child_2@.len() == n + 1,
            child_2@[0] == 0usize,
            child_2@[n as int] == 0usize,
            forall|x: usize|
                #[trigger] child_1@.to_multiset().count(x) as int
                    == parent_1.gnome@.to_multiset().count(x) as int - order_1@.subrange(
                    0,
                    k as int,
                ).to_multiset().count(x) as int + order_2@.subrange(0, k as int).to_multiset().count(
                    x,
                ) as int,
            forall|x: usize|
                #[trigger] child_2@.to_multiset().count(x) as int
                    == parent_2.gnome@.to_multiset().count(x) as int - order_2@.subrange(
                    0,
                    k as int,
                ).to_multiset().count(x) as int + order_1@.subrange(0, k as int).to_multiset().count(
                    x,
                ) as int,
            child_1@ == exchange(
                parent_1.gnome@,
                order_1@.subrange(0, k as int),
                order_2@.subrange(0, k as int),
            ),
            child_2@ == exchange(
                parent_2.gnome@,
                order_2@.subrange(0, k as int),
                order_1@.subrange(0, k as int),
            ),
        decreases order_1@.len() - k,
    {
        let a = order_1[k];
        let b = order_2[k];
        proof {
            broadcast use vstd::seq_lib::group_to_multiset_ensures;

            assert(order_1@.contains(a));
            assert(order_1@.to_multiset().count(a) > 0);
            assert(chosen@.contains(a));
            let ca = choose|i: int| 0 <= i < chosen@.len() && chosen@[i] == a;
            assert(1 <= a < n);
            assert(order_2@.contains(b));
            assert(order_2@.to_multiset().count(b) > 0);
            assert(chosen@.contains(b));
            let cb = choose|i: int| 0 <= i < chosen@.len() && chosen@[i] == b;
            assert(1 <= b < n);
            // the next identity to replace is still present in each child
            assert(!order_1@.subrange(0, k as int).contains(a)) by {
                if order_1@.subrange(0, k as int).contains(a) {
                    let j = choose|j: int|
                        0 <= j < k && order_1@.subrange(0, k as int)[j] == a;
                    assert(order_1@[j] == a && order_1@[k as int] == a);
                }
            }
            assert(order_1@.subrange(0, k as int).to_multiset().count(a) == 0);
            assert(child_1@.to_multiset().count(a) >= 1);
            assert(!order_2@.subrange(0, k as int).contains(b)) by {
                if order_2@.subrange(0, k as int).contains(b) {
                    let j = choose|j: int|
                        0 <= j < k && order_2@.subrange(0, k as int)[j] == b;
                    assert(order_2@[j] == b && order_2@[k as int] == b);
                }
            }
            assert(order_2@.subrange(0, k as int).to_multiset().count(b) == 0);
            assert(child_2@.to_multiset().count(b) >= 1);
        }
        let idx_1 = find_first(&child_1, a);
        let idx_2 = find_first(&child_2, b);
        let ghost old_c1 = child_1@;
        let ghost old_c2 = child_2@;
        proof {
            assert(idx_1 != 0 && idx_1 != n);
            assert(idx_2 != 0 && idx_2 != n);
        }
        child_1[idx_1] = b;
        child_2[idx_2] = a;
        proof {
            broadcast use vstd::seq_lib::group_to_multiset_ensures;
            broadcast use vstd::seq_lib::to_multiset_update;
            broadcast use vstd::multiset::group_multiset_axioms;

            assert(child_1@ == old_c1.update(idx_1 as int, b));
            assert(child_2@ == old_c2.update(idx_2 as int, a));
            assert(child_1@.to_multiset() == old_c1.to_multiset().insert(b).remove(a));
            assert(child_2@.to_multiset() == old_c2.to_multiset().insert(a).remove(b));
            assert(order_1@.subrange(0, k + 1) =~= order_1@.subrange(0, k as int).push(a));
            assert(order_2@.subrange(0, k + 1) =~= order_2@.subrange(0, k as int).push(b));
            assert(order_1@.subrange(0, k + 1).to_multiset() =~= order_1@.subrange(
                0,
                k as int,
            ).to_multiset().insert(a));
            assert(order_2@.subrange(0, k + 1).to_multiset() =~= order_2@.subrange(
                0,
                k as int,
            ).to_multiset().insert(b));
            // the update is exactly the next step of the exchange fold
            lemma_exchange_snoc(
                parent_1.gnome@,
                order_1@.subrange(0, k as int),
                order_2@.subrange(0, k as int),
                a,
                b,
            );
            lemma_exchange_snoc(
                parent_2.gnome@,
                order_2@.subrange(0, k as int),
                order_1@.subrange(0, k as int),
                b,
                a,
            );
            old_c1.index_of_first_ensures(a);
            assert(old_c1.contains(a));
            match old_c1.index_of_first(a) {
                Some(j) => {
                    assert(j == idx_1) by {
                        if j < idx_1 {
                            assert(old_c1[j] == a);
                        }
                        if idx_1 < j {
                            assert(old_c1[idx_1 as int] == a);
                        }
                    }
                    assert(exchange_one(old_c1, a, b) == old_c1.update(idx_1 as int, b));
                },
                None => {
                    assert(false);
                },
            }
            old_c2.index_of_first_ensures(b);
            assert(old_c2.contains(b));
            match old_c2.index_of_first(b) {
                Some(j) => {
                    assert(j == idx_2) by {
                        if j < idx_2 {
                            assert(old_c2[j] == b);
                        }
                        if idx_2 < j {
                            assert(old_c2[idx_2 as int] == b);
                        }
                    }
                    assert(exchange_one(old_c2, b, a) == old_c2.update(idx_2 as int, a));
                },
                None => {
                    assert(false);
                },
            }
            assert(child_1@ == exchange(
                parent_1.gnome@,
                order_1@.subrange(0, k + 1),
                order_2@.subrange(0, k + 1),
            ));
            assert(child_2@ == exchange(
                parent_2.gnome@,
                order_2@.subrange(0, k + 1),
                order_1@.subrange(0, k + 1),
            ));
        }
        k += 1;
    }
    proof {
        assert(order_1@.subrange(0, order_1@.len() as int) =~= order_1@);
        assert(order_2@.subrange(0, order_2@.len() as int) =~= order_2@);
        assert forall|x: usize|
            child_1@.to_multiset().count(x) as int == (if x == 0usize {
                2int
            } else if 1 <= x < n {
                1int
            } else {
                0int
            }) by {
            assert(child_1@.to_multiset().count(x) as int
                == parent_1.gnome@.to_multiset().count(x) as int - order_1@.to_multiset().count(
                x,
            ) as int + order_2@.to_multiset().count(x) as int);
        }
        assert forall|x: usize|
            child_2@.to_multiset().count(x) as int == (if x == 0usize {
                2int
            } else if 1 <= x < n {
                1int
            } else {
                0int
            }) by {
            assert(child_2@.to_multiset().count(x) as int
                == parent_2.gnome@.to_multiset().count(x) as int - order_2@.to_multiset().count(
                x,
            ) as int + order_1@.to_multiset().count(x) as int);
        }
        crate::tour::lemma_valid_tour_from_counts(n as int, child_1@);
        crate::tour::lemma_valid_tour_from_counts(n as int, child_2@);
        assert forall|i: int| 0 <= i < child_1@.len() implies (#[trigger] child_1@[i]) < n by {
            if i < n {
            } else {
                assert(child_1@[i] == 0usize);
            }
        }
        assert forall|i: int| 0 <= i < child_2@.len() implies (#[trigger] child_2@[i]) < n by {
            if i < n {
            } else {
                assert(child_2@[i] == 0usize);
            }
        }
    }
    let c1 = Chromosome::new(matrix, child_1);
    let c2 = Chromosome::new(matrix, child_2);
    proof {
        assert(order_1@.subrange(0, order_1@.len() as int) =~= order_1@);
        assert(order_2@.subrange(0, order_2@.len() as int) =~= order_2@);
        assert(c1.gnome@ == exchange(
            parent_1.gnome@,
            parent_1.gnome@.filter(chosen_pred(chosen@)),
            parent_2.gnome@.filter(chosen_pred(chosen@)),
        ));
        assert(c2.gnome@ == exchange(
            parent_2.gnome@,
            parent_2.gnome@.filter(chosen_pred(chosen@)),
            parent_1.gnome@.filter(chosen_pred(chosen@)),
        ));
        assert(is_crossover(m, parent_1.gnome@, parent_2.gnome@, c1.gnome@, c2.gnome@));
    }
    (c1, c2)
}

/// Swap two distinct random interior positions and refresh the cache.
pub(crate) fn mutate_in_place(
    matrix: &Vec<Vec<u32>>,
    individual: &mut Chromosome,
    rng: &mut rand::rngs::StdRng,
)
    requires
        matrix_wf(mat(matrix@)),
        matrix@.len() >= 3,
        old(individual).wf(mat(matrix@)),
    ensures
        final (individual).wf(mat(matrix@)),
        is_interior_swap(
            matrix@.len() as int,
            old(individual).gnome@,
            final (individual).gnome@,
        ),
{
    let ghost m = mat(matrix@);
    let n = matrix.len();
    let r = 1 + rand_below(rng, n - 1);
    let off = 1 + rand_below(rng, n - 2);
    let rem = (n - 1) - (r - 1);
    let r2 = if off >= rem {
        off - rem + 1
    } else {
        r + off
    };
    proof {
        assert(1 <= r < n);
        assert(1 <= r2 < n);
        assert(r2 != r);
    }
    let mut g = copy_vec(&individual.gnome);
    let ghost g0 = g@;
    let x = g[r];
    let y = g[r2];
    g[r] = y;
    let ghost g1 = g@;
    g[r2] = x;
    proof {
        broadcast use vstd::seq_lib::group_to_multiset_ensures;
        broadcast use vstd::seq_lib::to_multiset_update;
        broadcast use vstd::multiset::group_multiset_axioms;

        crate::tour::lemma_tour_counts(n as int, g0);
        assert(g1 == g0.update(r as int, y));
        assert(g@ == g1.update(r2 as int, x));
        assert(g1[r2 as int] == y);
        assert(g1.to_multiset() == g0.to_multiset().insert(y).remove(x));
        assert(g@.to_multiset() == g1.to_multiset().insert(x).remove(y));
        assert forall|c: usize|
            g@.to_multiset().count(c) as int == g0.to_multiset().count(c) as int by {
            assert(g0.to_multiset().count(x) >= 1);
            assert(g1.to_multiset().count(y) >= 1);
        }
        crate::tour::lemma_valid_tour_from_counts(n as int, g@);
        assert forall|i: int| 0 <= i < g@.len() implies (#[trigger] g@[i]) < n by {
            if i < n {
            } else {
                assert(g@[i] == 0usize);
            }
        }
    }
    let fitness = Chromosome::fitness(&g, matrix);
    proof {
        assert(g@ == individual.gnome@.update(r as int, individual.gnome@[r2 as int]).update(
            r2 as int,
            individual.gnome@[r as int],
        ));
        assert(is_interior_swap(n as int, individual.gnome@, g@));
    }
    individual.gnome = g;
    individual.fitness = fitness;
}

/// `g` arose as a crossover child with `a` as its own parent and `b` as the
/// other: for some three distinct interior identities, `g` is `a` with those
/// identities exchanged for `b`'s in occurrence order.
pub open spec fn exchange_child(
    m: Seq<Seq<u32>>,
    a: Seq<usize>,
    b: Seq<usize>,
    g: Seq<usize>,
) -> bool {
    exists|ch: Seq<usize>|
        #![auto]
        {
            &&& ch.len() == 3
            &&& (forall|i: int| 0 <= i < 3 ==> 1 <= #[trigger] ch[i] < m.len())
            &&& ch[0] != ch[1] && ch[0] != ch[2] && ch[1] != ch[2]
            &&& g == exchange(a, a.filter(chosen_pred(ch)), b.filter(chosen_pred(ch)))
        }
}

/// Each child of a crossover pair is an exchange child of its own parent.
proof fn lemma_crossover_children(
    m: Seq<Seq<u32>>,
    p1: Seq<usize>,
    p2: Seq<usize>,
    c1: Seq<usize>,
    c2: Seq<usize>,
)
    requires
        is_crossover(m, p1, p2, c1, c2),
    ensures
        exchange_child(m, p1, p2, c1),
        exchange_child(m, p2, p1, c2),
{
    let ch = choose|ch: Seq<usize>|
        #![auto]
        {
            &&& ch.len() == 3
            &&& (forall|i: int| 0 <= i < 3 ==> 1 <= #[trigger] ch[i] < m.len())
            &&& ch[0] != ch[1] && ch[0] != ch[2] && ch[1] != ch[2]
            &&& c1 == exchange(p1, p1.filter(chosen_pred(ch)), p2.filter(chosen_pred(ch)))
            &&& c2 == exchange(p2, p2.filter(chosen_pred(ch)), p1.filter(chosen_pred(ch)))
        };
    assert(c1 == exchange(p1, p1.filter(chosen_pred(ch)), p2.filter(chosen_pred(ch))));
    assert(c2 == exchange(p2, p2.filter(chosen_pred(ch)), p1.filter(chosen_pred(ch))));
}

/// `g` was selected from the pool: some member's tour verbatim, or a
/// crossover child of two members' tours.
pub open spec fn from_pool(m: Seq<Seq<u32>>, pool: Seq<Chromosome>, g: Seq<usize>) -> bool {
    ||| exists|i: int| 0 <= i < pool.len() && g == (#[trigger] pool[i]).gnome@
    ||| exists|i: int, j: int|
        0 <= i < pool.len() && 0 <= j < pool.len() && exchange_child(
            m,
            (#[trigger] pool[i]).gnome@,
            (#[trigger] pool[j]).gnome@,
            g,
        )
}

/// The operator sequence relates `g` to the pool: selection produced a copy
/// or a crossover child, and mutation may then have swapped one pair of
/// interior positions.
pub open spec fn offspring_of(m: Seq<Seq<u32>>, pool: Seq<Chromosome>, g: Seq<usize>) -> bool {
    ||| from_pool(m, pool, g)
    ||| exists|h: Seq<usize>|
        #[trigger] from_pool(m, pool, h) && is_interior_swap(m.len() as int, h, g)
}

/// Being an offspring survives any rearrangement of the carriers.
proof fn lemma_mset_offspring(
    m: Seq<Seq<u32>>,
    pool: Seq<Chromosome>,
    s1: Seq<Chromosome>,
    s2: Seq<Chromosome>,
)
    requires
        s1.to_multiset() == s2.to_multiset(),
        forall|i: int|
            0 <= i < s1.len() ==> #[trigger] offspring_of(m, pool, s1[i].gnome@),
    ensures
        forall|i: int|
            0 <= i < s2.len() ==> #[trigger] offspring_of(m, pool, s2[i].gnome@),
{
    broadcast use vstd::seq_lib::group_to_multiset_ensures;

    assert forall|i: int|
        0 <= i < s2.len() implies #[trigger] offspring_of(m, pool, s2[i].gnome@) by {
        assert(s2.contains(s2[i]));
        assert(s2.to_multiset().count(s2[i]) > 0);
        assert(s1.contains(s2[i]));
        let j = choose|j: int| 0 <= j < s1.len() && s1[j] == s2[i];
        assert(offspring_of(m, pool, s1[j].gnome@));
    }
}

/// Member `i` of `before` survives, by content, somewhere in `after`.
pub open spec fn member_kept(before: Seq<Chromosome>, after: Seq<Chromosome>, i: int) -> bool {
    exists|j: int|
        0 <= j < after.len() && (#[trigger] after[j]).fitness == before[i].fitness && after[j].gnome@
            == before[i].gnome@
}

/// Ascending by cached cost.
pub open spec fn sorted_by_fitness(s: Seq<Chromosome>) -> bool {
    forall|i: int, j: int| 0 <= i <= j < s.len() ==> s[i].fitness <= s[j].fitness
}

/// Every member is well formed.
pub open spec fn all_wf(s: Seq<Chromosome>, m: Seq<Seq<u32>>) -> bool {
    forall|i: int| 0 <= i < s.len() ==> (#[trigger] s[i]).wf(m)
}

/// Stable insertion sort of the population, ascending by fitness.
pub fn sort_population(pop: &mut Vec<Chromosome>)
    ensures
        final (pop)@.len() == old(pop)@.len(),
        sorted_by_fitness(final (pop)@),
        final (pop)@.to_multiset() == old(pop)@.to_multiset(),
{
    let mut result: Vec<Chromosome> = Vec::new();
    proof {
        broadcast use vstd::seq_lib::group_to_multiset_ensures;
        broadcast use vstd::multiset::group_multiset_axioms;

        assert(result@.to_multiset() =~= Multiset::<Chromosome>::empty());
        assert(result@.to_multiset().add(pop@.to_multiset()) =~= old(pop)@.to_multiset());
    }
    while pop.len() > 0
        invariant
            sorted_by_fitness(result@),
            result@.to_multiset().add(pop@.to_multiset()) == old(pop)@.to_multiset(),
            result@.len() + pop@.len() == old(pop)@.len(),
        decreases pop@.len(),
    {
        let c = pop.remove(0);
        let ghost popped = pop@;
        let ghost placed = result@;
        let mut idx: usize = 0;
        while idx < result.len() && result[idx].fitness <= c.fitness
            invariant
                idx <= result@.len(),
                result@ == placed,
                forall|k: int| 0 <= k < idx ==> (#[trigger] result@[k]).fitness <= c.fitness,
            decreases result@.len() - idx,
        {
            idx += 1;
        }
        result.insert(idx, c);
        proof {
            broadcast use vstd::seq_lib::group_to_multiset_ensures;
            broadcast use vstd::multiset::group_multiset_axioms;

            assert(result@ == placed.insert(idx as int, c));
            assert forall|i: int, j: int|
                0 <= i <= j < result@.len() implies result@[i].fitness <= result@[j].fitness by {
                if i < idx {
                    assert(result@[i] == placed[i]);
                } else if i == idx {
                    assert(result@[i] == c);
                } else {
                    assert(result@[i] == placed[i - 1]);
                }
                if j < idx {
                    assert(result@[j] == placed[j]);
                } else if j == idx {
                    assert(result@[j] == c);
                } else {
                    assert(result@[j] == placed[j - 1]);
                    if idx < placed.len() {
                        assert(placed[idx as int].fitness > c.fitness);
                    }
                }
            }
            placed.insert_ensures(idx as int, c);
            assert(result@.to_multiset() == placed.to_multiset().insert(c));
            assert((placed + popped.push(c)).to_multiset() =~= placed.to_multiset().add(
                popped.push(c).to_multiset(),
            )) by {
                vstd::seq_lib::lemma_multiset_commutative(placed, popped.push(c));
            }
            assert(result@.to_multiset().add(pop@.to_multiset()) =~= old(pop)@.to_multiset());
        }
    }
    proof {
        broadcast use vstd::seq_lib::group_to_multiset_ensures;
        broadcast use vstd::multiset::group_multiset_axioms;

        assert(pop@.to_multiset() =~= Multiset::<Chromosome>::empty());
        assert(result@.to_multiset() =~= result@.to_multiset().add(pop@.to_multiset()));
    }
    *pop = result;
}

/// One generation: keep the elite prefix, refill the rest from selection,
/// crossover and mutation, then re-sort. The best cost never worsens.
pub fn evolve(
    matrix: &Vec<Vec<u32>>,
    population: &mut Vec<Chromosome>,
    elite: usize,
    rng: &mut rand::rngs::StdRng,
)
    requires
        matrix_wf(mat(matrix@)),
        matrix@.len() >= 2,
        1 <= elite,
        1 <= old(population)@.len() <= 0x1000_0000,
        all_wf(old(population)@, mat(matrix@)),
    ensures
        final (population)@.len() == old(population)@.len(),
        all_wf(final (population)@, mat(matrix@)),
        sorted_by_fitness(final (population)@),
        final (population)@[0].fitness <= old(population)@[0].fitness,
        forall|i: int|
            0 <= i < elite && i < old(population)@.len() ==> #[trigger] member_kept(
                old(population)@,
                final (population)@,
                i,
            ),
        forall|k: int|
            0 <= k < final (population)@.len() ==> #[trigger] offspring_of(
                mat(matrix@),
                old(population)@,
                final (population)@[k].gnome@,
            ),
{
    let ghost m = mat(matrix@);
    let n = matrix.len();
    let pop_len = population.len();
    let mut newp: Vec<Chromosome> = Vec::new();
    let mut i: usize = 0;
    while i < pop_len
        invariant
            matrix_wf(m),
            m == mat(matrix@),
            pop_len == population@.len(),
            population@ == old(population)@,
            all_wf(population@, m),
            i <= pop_len,
            newp@.len() == i,
            all_wf(newp@, m),
            forall|k: int|
                0 <= k < i ==> (#[trigger] newp@[k]).fitness == population@[k].fitness
                    && newp@[k].gnome@ == population@[k].gnome@,
            forall|k: int|
                0 <= k < i ==> #[trigger] offspring_of(m, population@, newp@[k].gnome@),
        decreases pop_len - i,
    {
        let d = population[i].duplicate();
        proof {
            assert(population@[i as int].wf(m));
            assert(d.wf(m));
            assert(d.gnome@ == population@[i as int].gnome@);
            assert(from_pool(m, population@, d.gnome@));
        }
        newp.push(d);
        i += 1;
    }
    let mut replaced = elite;
    while replaced < pop_len
        invariant
            matrix_wf(m),
            m == mat(matrix@),
            n == matrix@.len(),
            n >= 2,
            1 <= pop_len <= 0x1000_0000,
            pop_len == population@.len(),
            population@ == old(population)@,
            all_wf(population@, m),
            replaced >= elite >= 1,
            newp@.len() == pop_len,
            all_wf(newp@, m),
            forall|k: int|
                0 <= k < elite && k < pop_len ==> (#[trigger] newp@[k]).fitness
                    == population@[k].fitness && newp@[k].gnome@ == population@[k].gnome@,
            forall|k: int|
                0 <= k < pop_len ==> #[trigger] offspring_of(m, population@, newp@[k].gnome@),
        decreases pop_len - replaced,
    {
        let pair = select_pair(population.as_slice(), rng);
        let i1 = pair.0;
        let i2 = pair.1;
        let do_cross = n >= 4 && rand_below(rng, 10) < 7;
        let (mut child_1, mut child_2) = if do_cross {
            let pair2 = crossover_pair(matrix, &population[i1], &population[i2], rng);
            proof {
                lemma_crossover_children(
                    m,
                    population@[i1 as int].gnome@,
                    population@[i2 as int].gnome@,
                    pair2.0.gnome@,
                    pair2.1.gnome@,
                );
                assert(from_pool(m, population@, pair2.0.gnome@));
                assert(from_pool(m, population@, pair2.1.gnome@));
            }
            pair2
        } else {
            let d1 = population[i1].duplicate();
            let d2 = population[i2].duplicate();
            proof {
                assert(population@[i1 as int].wf(m) && population@[i2 as int].wf(m));
                assert(d1.wf(m) && d2.wf(m));
                assert(d1.gnome@ == population@[i1 as int].gnome@);
                assert(d2.gnome@ == population@[i2 as int].gnome@);
                assert(from_pool(m, population@, d1.gnome@));
                assert(from_pool(m, population@, d2.gnome@));
            }
            (d1, d2)
        };
        let ghost picked_1 = child_1.gnome@;
        let ghost picked_2 = child_2.gnome@;
        if n >= 3 && rand_below(rng, 10) < 3 {
            mutate_in_place(matrix, &mut child_1, rng);
            proof {
                assert(is_interior_swap(m.len() as int, picked_1, child_1.gnome@));
            }
        }
        if n >= 3 && rand_below(rng, 10) < 3 {
            mutate_in_place(matrix, &mut child_2, rng);
            proof {
                assert(is_interior_swap(m.len() as int, picked_2, child_2.gnome@));
            }
        }
        proof {
            assert(offspring_of(m, population@, child_1.gnome@));
            assert(offspring_of(m, population@, child_2.gnome@));
        }
        newp[replaced] = child_1;
        replaced += 1;
        if replaced < pop_len {
            newp[replaced] = child_2;
            replaced += 1;
        }
    }
    let ghost pre_sort = newp@;
    *population = newp;
    sort_population(population);
    proof {
        lemma_mset_all_wf(m, pre_sort, population@);
        lemma_mset_offspring(m, old(population)@, pre_sort, population@);
        broadcast use vstd::seq_lib::group_to_multiset_ensures;

        // every elite member survives the refill verbatim and the sort by
        // rearrangement
        assert forall|i: int|
            0 <= i < elite && i < old(population)@.len() implies #[trigger] member_kept(
            old(population)@,
            population@,
            i,
        ) by {
            assert(pre_sort[i].fitness == old(population)@[i].fitness && pre_sort[i].gnome@
                == old(population)@[i].gnome@);
            assert(pre_sort.contains(pre_sort[i]));
            assert(pre_sort.to_multiset().count(pre_sort[i]) > 0);
            assert(population@.contains(pre_sort[i]));
            let j = choose|j: int| 0 <= j < population@.len() && population@[j] == pre_sort[i];
            assert(population@[j].fitness == old(population)@[i].fitness && population@[j].gnome@
                == old(population)@[i].gnome@);
        }
        // in particular the previous minimum is still reachable
        assert(pre_sort.contains(pre_sort[0]));
        assert(pre_sort.to_multiset().count(pre_sort[0]) > 0);
        assert(population@.contains(pre_sort[0]));
        let j = choose|j: int| 0 <= j < population@.len() && population@[j] == pre_sort[0];
        assert(population@[0].fitness <= population@[j].fitness);
    }
}

/// A worker's share of one generation: produce `count` offspring from an
/// immutable snapshot of the current population, using the worker's own
/// random source. Disjoint output ranges of the next generation can each be
/// filled by one such call.
pub fn produce_offspring(
    matrix: &Vec<Vec<u32>>,
    snapshot: &Vec<Chromosome>,
    count: usize,
    rng: &mut rand::rngs::StdRng,
) -> (out: Vec<Chromosome>)
    requires
        matrix_wf(mat(matrix@)),
        matrix@.len() >= 2,
        1 <= snapshot@.len() <= 0x1000_0000,
        all_wf(snapshot@, mat(matrix@)),
    ensures
        out@.len() == count,
        all_wf(out@, mat(matrix@)),
        forall|k: int|
            0 <= k < out@.len() ==> #[trigger] offspring_of(
                mat(matrix@),
                snapshot@,
                out@[k].gnome@,
            ),
{
    let ghost m = mat(matrix@);
    let n = matrix.len();
    let mut out: Vec<Chromosome> = Vec::new();
    while out.len() < count
        invariant
            matrix_wf(m),
            m == mat(matrix@),
            n == matrix@.len(),
            n >= 2,
            1 <= snapshot@.len() <= 0x1000_0000,
            all_wf(snapshot@, m),
            out@.len() <= count,
            all_wf(out@, m),
            forall|k: int|
                0 <= k < out@.len() ==> #[trigger] offspring_of(m, snapshot@, out@[k].gnome@),
        decreases count - out@.len(),
    {
        let pair = select_pair(snapshot.as_slice(), rng);
        let (mut child_1, mut child_2) = if n >= 4 && rand_below(rng, 10) < 7 {
            let pair2 = crossover_pair(matrix, &snapshot[pair.0], &snapshot[pair.1], rng);
            proof {
                lemma_crossover_children(
                    m,
                    snapshot@[pair.0 as int].gnome@,
                    snapshot@[pair.1 as int].gnome@,
                    pair2.0.gnome@,
                    pair2.1.gnome@,
                );
                assert(from_pool(m, snapshot@, pair2.0.gnome@));
                assert(from_pool(m, snapshot@, pair2.1.gnome@));
            }
            pair2
        } else {
            let d1 = snapshot[pair.0].duplicate();
            let d2 = snapshot[pair.1].duplicate();
            proof {
                assert(snapshot@[pair.0 as int].wf(m) && snapshot@[pair.1 as int].wf(m));
                assert(d1.wf(m) && d2.wf(m));
                assert(d1.gnome@ == snapshot@[pair.0 as int].gnome@);
                assert(d2.gnome@ == snapshot@[pair.1 as int].gnome@);
                assert(from_pool(m, snapshot@, d1.gnome@));
                assert(from_pool(m, snapshot@, d2.gnome@));
            }
            (d1, d2)
        };
        let ghost picked_1 = child_1.gnome@;
        let ghost picked_2 = child_2.gnome@;
        if n >= 3 && rand_below(rng, 10) < 3 {
            mutate_in_place(matrix, &mut child_1, rng);
            proof {
                assert(is_interior_swap(m.len() as int, picked_1, child_1.gnome@));
            }
        }
        if n >= 3 && rand_below(rng, 10) < 3 {
            mutate_in_place(matrix, &mut child_2, rng);
            proof {
                assert(is_interior_swap(m.len() as int, picked_2, child_2.gnome@));
            }
        }
        proof {
            assert(offspring_of(m, snapshot@, child_1.gnome@));
            assert(offspring_of(m, snapshot@, child_2.gnome@));
        }
        out.push(child_1);
        if out.len() < count {
            out.push(child_2);
        }
    }
    out
}

/// The full search: initialize, evolve for the budget, report the minimum.
pub(crate) fn run_search(
    matrix: &Vec<Vec<u32>>,
    pop_size: usize,
    elite: usize,
    generations: usize,
    rng: &mut rand::rngs::StdRng,
) -> (r: (u32, Vec<usize>))
    requires
        matrix_wf(mat(matrix@)),
        matrix@.len() >= 2,
        1 <= pop_size <= 0x1000_0000,
        1 <= elite,
    ensures
        valid_tour(matrix@.len() as int, r.1@),
        r.0 as int == crate::tour::path_cost(mat(matrix@), r.1@),
{
    let ghost m = mat(matrix@);
    let n = matrix.len();
    let mut population: Vec<Chromosome> = Vec::new();
    let mut i: usize = 0;
    while i < pop_size
        invariant
            matrix_wf(m),
            m == mat(matrix@),
            n == matrix@.len(),
            n >= 2,
            i <= pop_size,
            population@.len() == i,
            all_wf(population@, m),
        decreases pop_size - i,
    {
        let t = random_tour(matrix, rng);
        proof {
            assert forall|k: int| 0 <= k < t@.len() implies (#[trigger] t@[k]) < n by {
                if k < n {
                } else {
                    assert(t@[k] == 0usize);
                }
            }
        }
        let c = Chromosome::new(matrix, t);
        population.push(c);
        i += 1;
    }
    let ghost pre_sort = population@;
    sort_population(&mut population);
    proof {
        lemma_mset_all_wf(m, pre_sort, population@);
    }
    let mut g: usize = 0;
    while g < generations
        invariant
            matrix_wf(m),
            m == mat(matrix@),
            n == matrix@.len(),
            n >= 2,
            g <= generations,
            1 <= elite,
            1 <= population@.len() <= 0x1000_0000,
            all_wf(population@, m),
        decreases generations - g,
    {
        evolve(matrix, &mut population, elite, rng);
        g += 1;
    }
    let mut best: usize = 0;
    let mut bi: usize = 1;
    while bi < population.len()
        invariant
            1 <= population@.len(),
            best < population@.len(),
            bi <= population@.len(),
        decreases population@.len() - bi,
    {
        if population[bi].fitness < population[best].fitness {
            best = bi;
        }
        bi += 1;
    }
    let fitness = population[best].fitness;
    let tour = copy_vec(&population[best].gnome);
    proof {
        assert(population@[best as int].wf(m));
    }
    (fitness, tour)
}

/// Weights proportional to `1 / (fitness + 1)`, scaled so every member keeps
/// a positive weight.
fn selection_weights(population: &[Chromosome]) -> (w: Vec<u64>)
    requires
        population@.len() >= 1,
    ensures
        w@.len() == population@.len(),
        forall|i: int| 0 <= i < w@.len() ==> 1 <= #[trigger] w@[i] <= 0x1_0000_0000,
        forall|i: int|
            0 <= i < w@.len() ==> #[trigger] w@[i] as int == 0x1_0000_0000int / (
            population@[i].fitness as int + 1),
{
    let mut w: Vec<u64> = Vec::new();
    let mut i: usize = 0;
    while i < population.len()
        invariant
            i <= population@.len(),
            w@.len() == i,
            forall|k: int| 0 <= k < w@.len() ==> 1 <= #[trigger] w@[k] <= 0x1_0000_0000,
            forall|k: int|
                0 <= k < w@.len() ==> #[trigger] w@[k] as int == 0x1_0000_0000int / (
                population@[k].fitness as int + 1),
        decreases population@.len() - i,
    {
        let f = population[i].fitness;
        let denom = f as u64 + 1;
        let weight = 0x1_0000_0000u64 / denom;
        proof {
            assert(1 <= denom <= 0x1_0000_0000u64);
            assert(1 <= weight <= 0x1_0000_0000u64) by (nonlinear_arith)
                requires
                    weight == 0x1_0000_0000int / (denom as int),
                    1 <= denom as int <= 0x1_0000_0000,
            ;
        }
        w.push(weight);
        i += 1;
    }
    w
}

/// Fitness-proportionate sampling: two independent draws, with replacement,
/// from the normalized inverse-cost distribution.
pub(crate) fn select_pair(population: &[Chromosome], rng: &mut rand::rngs::StdRng) -> (r: (
    usize,
    usize,
))
    requires
        1 <= population@.len() <= 0x1000_0000,
    ensures
        r.0 < population@.len(),
        r.1 < population@.len(),
{
    let weights = selection_weights(population);
    let a = weighted_pick(rng, &weights);
    let b = weighted_pick(rng, &weights);
    (a, b)
}

} // verus!
