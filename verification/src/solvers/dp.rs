//! The exact solver: Held-Karp dynamic programming over visited-set bitmasks,
//! with tour reconstruction. The table entry for `(mask, u)` holds the least
//! saturating cost of a simple path that starts at the depot, visits exactly
//! the nodes of `mask`, and ends at `u`; the proof carries that meaning
//! through the relaxation loops, so the returned cost is shown minimal over
//! every valid tour.

use vstd::prelude::*;

use crate::tour::{edge, lemma_path_cost_bounds, matrix_wf, occurs, path_cost, sat, sat_add, sentinel, valid_tour};

verus! {

use vstd::set_lib::set_int_range;

/// Largest instance the exact solver accepts; the table holds `2^n * n`
/// entries, so anything larger is rejected before allocation.
pub const MAX_NODES: usize = 20;

/// Why a solve failed.
#[derive(Debug, Clone, Copy, PartialEq, Eq, Structural)]
pub enum SolverError {
    /// The matrix is empty or not square.
    InvalidInput,
    /// No closed tour through every node avoids a sentinel edge.
    Infeasible,
    /// The instance is larger than `MAX_NODES`.
    ResourceExceeded,
}

/// Node `i` is in the visited set `mask`.
pub open spec fn bit(mask: usize, i: usize) -> bool {
    mask & (1usize << i) != 0
}

/// A simple path from the depot to `u` visiting exactly the nodes of `mask`.
pub open spec fn is_path(n: int, mask: usize, u: usize, p: Seq<usize>) -> bool {
    &&& p.len() >= 1
    &&& p[0] == 0usize
    &&& p[p.len() - 1] == u
    &&& forall|k: int| 0 <= k < p.len() ==> (#[trigger] p[k]) < n
    &&& forall|k: int, l: int| 0 <= k < l < p.len() ==> p[k] != p[l]
    &&& forall|k: int| 0 <= k < p.len() ==> bit(mask, #[trigger] p[k])
    &&& forall|c: usize| c < n && #[trigger] bit(mask, c) ==> p.contains(c)
}

/// `d` is the minimum over `path_cost` of the paths of `(mask, u)`: a lower
/// bound on all of them, and attained unless `d` is the sentinel.
pub open spec fn entry_ok(m: Seq<Seq<u32>>, n: int, mask: usize, u: usize, d: int) -> bool {
    &&& forall|p: Seq<usize>| #[trigger] is_path(n, mask, u, p) ==> path_cost(m, p) >= d
    &&& (d == sentinel() || exists|p: Seq<usize>|
        #[trigger] is_path(n, mask, u, p) && path_cost(m, p) == d)
}

/// The flat table value for `(mask, u)`.
pub open spec fn dp_at(dp: Seq<u32>, n: int, mask: int, u: int) -> int {
    dp[mask * n + u] as int
}

proof fn lemma_bit_or(m: usize, v: usize, x: usize)
    requires
        v < 32,
        x < 32,
    ensures
        bit(m | (1usize << v), x) == (bit(m, x) || x == v),
{
    assert(((m | (1usize << v)) & (1usize << x) != 0) == ((m & (1usize << x) != 0) || x == v))
        by (bit_vector)
        requires
            v < 32,
            x < 32,
    ;
}

proof fn lemma_bit_xor(m: usize, c: usize, x: usize)
    requires
        c < 32,
        x < 32,
        bit(m, c),
    ensures
        bit(m ^ (1usize << c), x) == (bit(m, x) && x != c),
{
    assert(((m ^ (1usize << c)) & (1usize << x) != 0) == ((m & (1usize << x) != 0) && x != c))
        by (bit_vector)
        requires
            c < 32,
            x < 32,
            m & (1usize << c) != 0,
    ;
}

proof fn lemma_bit_full(full: usize, n: usize, x: usize)
    requires
        1 <= n < 32,
        x < 32,
        full == (1usize << n) - 1,
    ensures
        bit(full, x) == (x < n),
{
    assert((full & (1usize << x) != 0) == (x < n)) by (bit_vector)
        requires
            1 <= n < 32,
            x < 32,
            full + 1 == (1usize << n),
    ;
}

proof fn lemma_xor_shrinks(m: usize, c: usize)
    requires
        c < 32,
        bit(m, c),
    ensures
        m ^ (1usize << c) < m,
{
    assert(m & (1usize << c) != 0 ==> m ^ (1usize << c) < m) by (bit_vector)
        requires
            c < 32,
    ;
}

proof fn lemma_or_grows(m: usize, v: usize, n: usize)
    requires
        v < n,
        n < 32,
        !bit(m, v),
        m < (1usize << n),
    ensures
        m | (1usize << v) > m,
        m | (1usize << v) < (1usize << n),
        (m | (1usize << v)) ^ (1usize << v) == m,
        bit(m | (1usize << v), v),
        m >= 1 ==> m | (1usize << v) != 1,
{
    assert((m & (1usize << v) == 0 && v < n && m < (1usize << n)) ==> (m | (1usize << v) > m && m
        | (1usize << v) < (1usize << n) && (m | (1usize << v)) ^ (1usize << v) == m && (m | (1usize
        << v)) & (1usize << v) != 0 && (m >= 1 ==> m | (1usize << v) != 1))) by (bit_vector)
        requires
            v < n,
            n < 32,
    ;
}

proof fn lemma_only_bit_zero(m: usize, n: usize)
    requires
        1 <= n < 32,
        m < (1usize << n),
        forall|c: usize| c < n && #[trigger] bit(m, c) ==> c == 0,
    ensures
        m <= 1,
    decreases n,
{
    if n == 1 {
        assert(m < 2) by (bit_vector)
            requires
                m < (1usize << 1),
        ;
    } else {
        assert(!bit(m, (n - 1) as usize));
        assert((m < (1usize << n) && m & (1usize << ((n - 1) as usize)) == 0 && 2 <= n < 64) ==> m
            < (1usize << ((n - 1) as usize))) by (bit_vector);
        lemma_only_bit_zero(m, (n - 1) as usize);
    }
}

proof fn lemma_idx_inj(n: int, m1: int, u1: int, m2: int, u2: int)
    requires
        0 <= u1 < n,
        0 <= u2 < n,
        0 <= m1,
        0 <= m2,
        m1 * n + u1 == m2 * n + u2,
    ensures
        m1 == m2,
        u1 == u2,
{
    assert(m1 == m2 && u1 == u2) by (nonlinear_arith)
        requires
            0 <= u1 < n,
            0 <= u2 < n,
            0 <= m1,
            0 <= m2,
            m1 * n + u1 == m2 * n + u2,
    ;
}

proof fn lemma_idx_bound(n: int, size: int, m: int, u: int)
    requires
        0 <= u < n,
        0 <= m < size,
    ensures
        0 <= m * n + u < size * n,
{
    assert(0 <= m * n + u < size * n) by (nonlinear_arith)
        requires
            0 <= u < n,
            0 <= m < size,
    ;
}

/// Monotonicity of saturating addition in its first argument.
proof fn lemma_sat_mono(a: int, b: int, w: int)
    requires
        a <= b,
    ensures
        sat(a, w) <= sat(b, w),
{
}

/// The table entry `(mask, v)` is still waiting for its relaxations: it was
/// seeded to the sentinel and its predecessor mask has not been processed.
spec fn entry_state(
    m: Seq<Seq<u32>>,
    n: usize,
    dp: Seq<u32>,
    processed: usize,
    big: usize,
    v: usize,
) -> bool {
    if bit(big, v) && (big ^ (1usize << v)) >= processed {
        dp_at(dp, n as int, big as int, v as int) == sentinel()
    } else {
        entry_ok(m, n as int, big, v, dp_at(dp, n as int, big as int, v as int))
    }
}

/// Invariant at the top of each outer iteration: masks below `processed` are
/// final, the rest untouched.
spec fn table_state(
    m: Seq<Seq<u32>>,
    n: usize,
    size: usize,
    dp: Seq<u32>,
    processed: usize,
) -> bool {
    forall|big: usize, v: usize|
        big < size && v < n ==> #[trigger] entry_state(m, n, dp, processed, big, v)
}

/// `(big, v)` is relaxed while `mask` is being processed.
spec fn is_target(mask: usize, big: usize, v: usize) -> bool {
    !bit(mask, v) && big == mask | (1usize << v)
}

/// A target entry mid-relaxation: it lower-bounds every path whose
/// second-to-last node was already scanned, and is attained unless sentinel.
spec fn target_state(
    m: Seq<Seq<u32>>,
    n: usize,
    dp: Seq<u32>,
    big: usize,
    v: usize,
    u: usize,
    vdone: usize,
) -> bool {
    let d = dp_at(dp, n as int, big as int, v as int);
    &&& forall|p: Seq<usize>|
        (#[trigger] is_path(n as int, big, v, p)) && p.len() >= 2 && (p[p.len() - 2] < u || (p[p.len()
            - 2] == u && v < vdone)) ==> path_cost(m, p) >= d
    &&& (d == sentinel() || exists|p: Seq<usize>|
        (#[trigger] is_path(n as int, big, v, p)) && path_cost(m, p) == d)
}

/// One entry's claim while `mask` is being processed.
spec fn mid_entry(
    m: Seq<Seq<u32>>,
    n: usize,
    dp: Seq<u32>,
    mask: usize,
    big: usize,
    v: usize,
    u: usize,
    vdone: usize,
) -> bool {
    if is_target(mask, big, v) {
        target_state(m, n, dp, big, v, u, vdone)
    } else {
        entry_state(m, n, dp, mask, big, v)
    }
}

/// Invariant inside the two relaxation loops for `mask`.
spec fn mid_state(
    m: Seq<Seq<u32>>,
    n: usize,
    size: usize,
    dp: Seq<u32>,
    mask: usize,
    u: usize,
    vdone: usize,
) -> bool {
    forall|big: usize, v: usize|
        big < size && v < n ==> #[trigger] mid_entry(m, n, dp, mask, big, v, u, vdone)
}

/// The finished table: every entry is the exact minimum over its paths.
spec fn table_done(m: Seq<Seq<u32>>, n: usize, size: usize, dp: Seq<u32>) -> bool {
    forall|big: usize, v: usize|
        big < size && v < n ==> #[trigger] entry_ok(
            m,
            n as int,
            big,
            v,
            dp_at(dp, n as int, big as int, v as int),
        )
}

/// No path reaches `v` over `big` if `v` or the depot is outside `big`.
proof fn lemma_no_path(n: int, big: usize, v: usize)
    requires
        !bit(big, v) || !bit(big, 0),
    ensures
        forall|p: Seq<usize>| !is_path(n, big, v, p),
{
    assert forall|p: Seq<usize>| !is_path(n, big, v, p) by {
        if is_path(n, big, v, p) {
            assert(bit(big, p[p.len() - 1]));
            assert(bit(big, p[0]));
        }
    }
}

/// `[0]` is the one path over the singleton depot mask.
proof fn lemma_singleton_path(n: int)
    requires
        1 <= n <= 32,
    ensures
        is_path(n, 1, 0, seq![0usize]),
{
    let p = seq![0usize];
    assert(p[0] == 0usize);
    assert(p[p.len() - 1] == 0usize);
    assert((1usize << 1) - 1 == 1) by (bit_vector);
    assert(1usize & (1usize << 0) != 0) by (bit_vector);
    assert(bit(1usize, 0));
    assert forall|k: int| 0 <= k < p.len() implies bit(1usize, #[trigger] p[k]) by {
        assert(p[k] == 0usize);
    }
    assert forall|c: usize| c < n && #[trigger] bit(1usize, c) implies p.contains(c) by {
        lemma_bit_full(1, 1, c);
        assert(c == 0);
        assert(p[0] == c);
        assert(p.contains(c));
    }
}

/// And any path over the singleton depot mask is `[0]`.
proof fn lemma_only_singleton_path(n: int, p: Seq<usize>)
    requires
        1 <= n <= 32,
        is_path(n, 1, 0, p),
    ensures
        p =~= seq![0usize],
{
    assert((1usize << 1) - 1 == 1) by (bit_vector);
    assert forall|k: int| 0 <= k < p.len() implies p[k] == 0usize by {
        lemma_bit_full(1, 1, p[k]);
    }
    if p.len() >= 2 {
        assert(p[0] == p[1]);
        assert(false);
    }
}

/// `path_cost` ignores the matrix on one-element paths, so restate the two
/// singleton facts for any matrix.
proof fn lemma_singleton_cost(m: Seq<Seq<u32>>, p: Seq<usize>)
    requires
        p.len() == 1,
    ensures
        path_cost(m, p) == 0,
{
}

/// After the seed write, the table is in the outer invariant for mask 1.
proof fn lemma_table_init(m: Seq<Seq<u32>>, n: usize, size: usize, dp: Seq<u32>)
    requires
        2 <= n <= MAX_NODES,
        size == 1usize << n,
        dp_at(dp, n as int, 1, 0) == 0,
        forall|big: usize, v: usize|
            big < size && v < n && !(big == 1 && v == 0) ==> dp_at(
                dp,
                n as int,
                big as int,
                v as int,
            ) == sentinel(),
    ensures
        table_state(m, n, size, dp, 1),
{
    assert(1usize ^ (1usize << 0) == 0) by (bit_vector);
    assert(bit(1usize, 0)) by (bit_vector);
    assert forall|big: usize, v: usize|
        big < size && v < n implies #[trigger] entry_state(m, n, dp, 1, big, v) by {
        if big == 1 && v == 0 {
            lemma_singleton_path(n as int);
            lemma_singleton_cost(m, seq![0usize]);
            assert forall|p: Seq<usize>| #[trigger] is_path(n as int, 1, 0, p) implies path_cost(
                m,
                p,
            ) >= 0 by {
                lemma_only_singleton_path(n as int, p);
                lemma_singleton_cost(m, p);
            }
            assert(is_path(n as int, 1, 0, seq![0usize]) && path_cost(m, seq![0usize]) == 0);
            assert(entry_ok(m, n as int, 1, 0, 0));
        } else {
            if bit(big, v) && (big ^ (1usize << v)) >= 1 {
                // pending: value is the sentinel by assumption
            } else if !bit(big, v) {
                lemma_no_path(n as int, big, v);
            } else {
                // bit set and predecessor mask empty: big is the singleton of v
                assert(big ^ (1usize << v) == 0);
                assert(big == 1usize << v) by (bit_vector)
                    requires
                        big ^ (1usize << v) == 0,
                ;
                assert(1usize << 0 == 1) by (bit_vector);
                assert(v != 0);
                assert(!bit(big, 0)) by {
                    assert((1usize << v) & (1usize << 0) == 0) by (bit_vector)
                        requires
                            0 < v < 32,
                    ;
                }
                lemma_no_path(n as int, big, v);
            }
        }
    }
}

/// Decomposing a path: dropping the last node leaves a path over the mask
/// without it, ending at the second-to-last node.
proof fn lemma_path_decompose(n: int, big: usize, v: usize, p: Seq<usize>)
    requires
        1 <= n <= 32,
        is_path(n, big, v, p),
        p.len() >= 2,
    ensures
        is_path(n, big ^ (1usize << v), p[p.len() - 2], p.drop_last()),
{
    let p2 = p.drop_last();
    let m2 = big ^ (1usize << v);
    assert(bit(big, v)) by {
        assert(bit(big, p[p.len() - 1]));
    }
    assert forall|k: int| 0 <= k < p2.len() implies bit(m2, #[trigger] p2[k]) by {
        assert(p2[k] == p[k]);
        assert(p[k] != v);
        lemma_bit_xor(big, v, p[k]);
    }
    assert forall|c: usize| c < n && #[trigger] bit(m2, c) implies p2.contains(c) by {
        lemma_bit_xor(big, v, c);
        assert(bit(big, c) && c != v);
        assert(p.contains(c));
        let k = choose|k: int| 0 <= k < p.len() && p[k] == c;
        assert(k != p.len() - 1);
        assert(p2[k] == c);
    }
}

/// Composing a path: appending a node outside the mask gives a path over the
/// widened mask ending at it.
proof fn lemma_path_compose(n: int, mask: usize, u: usize, v: usize, p: Seq<usize>)
    requires
        1 <= n <= 32,
        is_path(n, mask, u, p),
        !bit(mask, v),
        v < n,
    ensures
        is_path(n, mask | (1usize << v), v, p.push(v)),
{
    let p2 = p.push(v);
    let m2 = mask | (1usize << v);
    assert forall|k: int| 0 <= k < p2.len() implies bit(m2, #[trigger] p2[k]) by {
        if k < p.len() {
            assert(p2[k] == p[k]);
            lemma_bit_or(mask, v, p[k]);
        } else {
            lemma_bit_or(mask, v, v);
        }
    }
    assert forall|k: int, l: int| 0 <= k < l < p2.len() implies p2[k] != p2[l] by {
        if l == p.len() {
            assert(p2[l] == v);
            assert(bit(mask, p[k]));
        }
    }
    assert forall|c: usize| c < n && #[trigger] bit(m2, c) implies p2.contains(c) by {
        lemma_bit_or(mask, v, c);
        if c == v {
            assert(p2[p2.len() - 1] == c);
        } else {
            assert(p.contains(c));
            let k = choose|k: int| 0 <= k < p.len() && p[k] == c;
            assert(p2[k] == c);
        }
    }
}

/// Entering the scan of node `u` when `u` is not in the mask changes nothing:
/// no path's second-to-last node is `u`.
proof fn lemma_skip_u(
    m: Seq<Seq<u32>>,
    n: usize,
    size: usize,
    dp: Seq<u32>,
    mask: usize,
    u: usize,
)
    requires
        2 <= n <= MAX_NODES,
        size == 1usize << n,
        mask < size,
        u < n,
        !bit(mask, u),
        mid_state(m, n, size, dp, mask, u, 0),
    ensures
        mid_state(m, n, size, dp, mask, (u + 1) as usize, 0),
{
    assert forall|big: usize, v: usize|
        big < size && v < n implies #[trigger] mid_entry(m, n, dp, mask, big, v, (u + 1) as usize, 0) by {
        assert(mid_entry(m, n, dp, mask, big, v, u, 0));
        if is_target(mask, big, v) {
            let d = dp_at(dp, n as int, big as int, v as int);
            assert forall|p: Seq<usize>|
                (#[trigger] is_path(n as int, big, v, p)) && p.len() >= 2 && (p[p.len() - 2] < u + 1
                    || (p[p.len() - 2] == u + 1 && v < 0)) implies path_cost(m, p) >= d by {
                if p[p.len() - 2] == u {
                    assert(bit(big, p[p.len() - 2]));
                    lemma_bit_or(mask, v, u);
                    assert(u == v);
                    assert(p[p.len() - 2] != p[p.len() - 1]);
                    assert(false);
                }
            }
        }
    }
}

/// Passing a node `v` that is already in the mask changes nothing: `v` names
/// no relaxation target.
proof fn lemma_skip_v(
    m: Seq<Seq<u32>>,
    n: usize,
    size: usize,
    dp: Seq<u32>,
    mask: usize,
    u: usize,
    v: usize,
)
    requires
        2 <= n <= MAX_NODES,
        size == 1usize << n,
        mask < size,
        u < n,
        v < n,
        bit(mask, v),
        mid_state(m, n, size, dp, mask, u, v),
    ensures
        mid_state(m, n, size, dp, mask, u, (v + 1) as usize),
{
    assert forall|big: usize, v2: usize|
        big < size && v2 < n implies #[trigger] mid_entry(m, n, dp, mask, big, v2, u, (v + 1) as usize) by {
        assert(mid_entry(m, n, dp, mask, big, v2, u, v));
        if is_target(mask, big, v2) {
            assert(v2 != v);
            let d = dp_at(dp, n as int, big as int, v2 as int);
            assert forall|p: Seq<usize>|
                (#[trigger] is_path(n as int, big, v2, p)) && p.len() >= 2 && (p[p.len() - 2] < u
                    || (p[p.len() - 2] == u && v2 < v + 1)) implies path_cost(m, p) >= d by {
                assert(p[p.len() - 2] < u || (p[p.len() - 2] == u && v2 < v));
            }
        }
    }
}

/// The heart of the relaxation: after folding the candidate through `u` into
/// the target of `v`, the target also bounds the paths arriving from `u`.
proof fn lemma_relax(
    m: Seq<Seq<u32>>,
    n: usize,
    size: usize,
    dp0: Seq<u32>,
    dp1: Seq<u32>,
    mask: usize,
    u: usize,
    v: usize,
    du: int,
)
    requires
        2 <= n <= MAX_NODES,
        size == 1usize << n,
        1 <= mask < size,
        u < n,
        v < n,
        bit(mask, u),
        !bit(mask, v),
        mid_state(m, n, size, dp0, mask, u, v),
        entry_ok(m, n as int, mask, u, du),
        0 <= du <= sentinel(),
        dp_at(dp1, n as int, (mask | (1usize << v)) as int, v as int) == ({
            let cand = sat(du, edge(m, u as int, v as int));
            let d0 = dp_at(dp0, n as int, (mask | (1usize << v)) as int, v as int);
            if cand < d0 {
                cand
            } else {
                d0
            }
        }),
        forall|b2: usize, v2: usize|
            b2 < size && v2 < n && !(b2 == mask | (1usize << v) && v2 == v) ==> dp_at(
                dp1,
                n as int,
                b2 as int,
                v2 as int,
            ) == dp_at(dp0, n as int, b2 as int, v2 as int),
    ensures
        mid_state(m, n, size, dp1, mask, u, (v + 1) as usize),
{
    let nm = mask | (1usize << v);
    let e = edge(m, u as int, v as int);
    let cand = sat(du, e);
    let d0 = dp_at(dp0, n as int, nm as int, v as int);
    let d1 = dp_at(dp1, n as int, nm as int, v as int);
    lemma_or_grows(mask, v, n);
    assert forall|big: usize, v2: usize|
        big < size && v2 < n implies #[trigger] mid_entry(m, n, dp1, mask, big, v2, u, (v + 1) as usize) by {
        assert(mid_entry(m, n, dp0, mask, big, v2, u, v));
        if big == nm && v2 == v {
            assert(is_target(mask, big, v2));
            // lower bound over newly covered paths
            assert forall|p: Seq<usize>|
                (#[trigger] is_path(n as int, nm, v, p)) && p.len() >= 2 && (p[p.len() - 2] < u || (
                p[p.len() - 2] == u && v < v + 1)) implies path_cost(m, p) >= d1 by {
                if p[p.len() - 2] == u {
                    lemma_path_decompose(n as int, nm, v, p);
                    let p2 = p.drop_last();
                    assert(nm ^ (1usize << v) == mask);
                    assert(is_path(n as int, mask, u, p2));
                    assert(path_cost(m, p2) >= du);
                    assert(path_cost(m, p) == sat(path_cost(m, p2), e));
                    lemma_path_cost_bounds(m, p2);
                    lemma_sat_mono(du, path_cost(m, p2), e);
                    assert(path_cost(m, p) >= cand);
                    assert(d1 <= cand);
                } else {
                    assert(path_cost(m, p) >= d0);
                    assert(d1 <= d0);
                }
            }
            // attainment
            if d1 == d0 {
                assert(target_state(m, n, dp0, nm, v, u, v));
                if d0 != sentinel() {
                    let p = choose|p: Seq<usize>|
                        (#[trigger] is_path(n as int, nm, v, p)) && path_cost(m, p) == d0;
                    assert(is_path(n as int, nm, v, p) && path_cost(m, p) == d1);
                }
            } else {
                assert(d1 == cand && cand < d0);
                assert(du < sentinel());
                let p2 = choose|p2: Seq<usize>|
                    (#[trigger] is_path(n as int, mask, u, p2)) && path_cost(m, p2) == du;
                lemma_path_compose(n as int, mask, u, v, p2);
                let p = p2.push(v);
                assert(p.len() >= 2);
                assert(p[p.len() - 1] == v && p[p.len() - 2] == u);
                assert(p.drop_last() =~= p2);
                assert(path_cost(m, p) == sat(path_cost(m, p.drop_last()), e));
                assert(path_cost(m, p) == cand);
                assert(is_path(n as int, nm, v, p) && path_cost(m, p) == d1);
            }
            assert(target_state(m, n, dp1, nm, v, u, (v + 1) as usize));
        } else if is_target(mask, big, v2) {
            assert(v2 != v || big != nm);
            if v2 == v {
                assert(big == mask | (1usize << v2));
                assert(false);
            }
            let d = dp_at(dp1, n as int, big as int, v2 as int);
            assert(d == dp_at(dp0, n as int, big as int, v2 as int));
            assert forall|p: Seq<usize>|
                (#[trigger] is_path(n as int, big, v2, p)) && p.len() >= 2 && (p[p.len() - 2] < u
                    || (p[p.len() - 2] == u && v2 < v + 1)) implies path_cost(m, p) >= d by {
                assert(p[p.len() - 2] < u || (p[p.len() - 2] == u && v2 < v));
            }
        } else {
            assert(dp_at(dp1, n as int, big as int, v2 as int) == dp_at(
                dp0,
                n as int,
                big as int,
                v2 as int,
            ));
        }
    }
}

/// Closing the scan for `mask`: every target is now a finished entry, and the
/// outer invariant advances to `mask + 1`.
proof fn lemma_finish_mask(
    m: Seq<Seq<u32>>,
    n: usize,
    size: usize,
    dp: Seq<u32>,
    mask: usize,
)
    requires
        2 <= n <= MAX_NODES,
        size == 1usize << n,
        1 <= mask < size,
        mid_state(m, n, size, dp, mask, n, 0),
    ensures
        table_state(m, n, size, dp, (mask + 1) as usize),
{
    assert forall|big: usize, v: usize|
        big < size && v < n implies #[trigger] entry_state(m, n, dp, (mask + 1) as usize, big, v) by {
        assert(mid_entry(m, n, dp, mask, big, v, n, 0));
        let d = dp_at(dp, n as int, big as int, v as int);
        if is_target(mask, big, v) {
            lemma_or_grows(mask, v, n);
            assert(big ^ (1usize << v) == mask);
            assert forall|p: Seq<usize>| #[trigger] is_path(n as int, big, v, p) implies path_cost(
                m,
                p,
            ) >= d by {
                if p.len() >= 2 {
                    assert(p[p.len() - 2] < n) by {
                        assert(p[p.len() - 2] < n);
                    }
                } else {
                    // a one-node path forces the mask to be the bare depot
                    assert(p.len() == 1);
                    assert(p[0] == 0usize && p[0] == v);
                    assert forall|c: usize| c < n && #[trigger] bit(big, c) implies c == 0 by {
                        assert(p.contains(c));
                        assert(p[0] == c);
                    }
                    lemma_only_bit_zero(big, n);
                    assert(big != 1 && big >= 1);
                    assert(false);
                }
            }
            assert(entry_ok(m, n as int, big, v, d));
        } else {
            if bit(big, v) && (big ^ (1usize << v)) >= mask + 1 {
                // still pending for a later mask
                assert(bit(big, v) && (big ^ (1usize << v)) >= mask);
                assert(entry_state(m, n, dp, mask, big, v));
            } else if bit(big, v) && (big ^ (1usize << v)) == mask {
                // that would make it a target
                assert(((big ^ (1usize << v)) | (1usize << v)) == big) by (bit_vector)
                    requires
                        big & (1usize << v) != 0,
                        v < 32,
                ;
                lemma_bit_xor(big, v, v);
                assert(!bit(mask, v));
                assert(is_target(mask, big, v));
                assert(false);
            }
        }
    }
}

/// After every mask is processed, the whole table is exact.
proof fn lemma_table_complete(m: Seq<Seq<u32>>, n: usize, size: usize, dp: Seq<u32>)
    requires
        2 <= n <= MAX_NODES,
        size == 1usize << n,
        table_state(m, n, size, dp, size),
    ensures
        table_done(m, n, size, dp),
{
    assert forall|big: usize, v: usize|
        big < size && v < n implies #[trigger] entry_ok(
        m,
        n as int,
        big,
        v,
        dp_at(dp, n as int, big as int, v as int),
    ) by {
        assert(entry_state(m, n, dp, size, big, v));
        if bit(big, v) {
            lemma_xor_shrinks(big, v);
        }
    }
}

/// Fill the Held-Karp table for a square matrix of `n >= 2` nodes.
fn build_table(matrix: &Vec<Vec<u32>>, n: usize) -> (dp: Vec<u32>)
    requires
        matrix@.len() == n,
        matrix_wf(crate::tour::mat(matrix@)),
        2 <= n <= MAX_NODES,
    ensures
        dp@.len() == (1usize << n) * n,
        table_done(crate::tour::mat(matrix@), n, 1usize << n, dp@),
{
    let ghost m = crate::tour::mat(matrix@);
    let size = 1usize << n;
    proof {
        assert(1usize << n >= 2 && 1usize << n <= 0x100000) by (bit_vector)
            requires
                2 <= n <= 20,
        ;
        assert(size * n <= 0x100000 * 20) by (nonlinear_arith)
            requires
                size <= 0x100000,
                n <= 20,
        ;
    }
    let total = size * n;
    let mut dp: Vec<u32> = vec![u32::MAX; total];
    proof {
        assert forall|big: usize, v: usize| big < size && v < n implies dp_at(
            dp@,
            n as int,
            big as int,
            v as int,
        ) == sentinel() by {
            lemma_idx_bound(n as int, size as int, big as int, v as int);
        }
    }
    dp_write(&mut dp, n, size, 1, 0, 0);
    proof {
        lemma_table_init(m, n, size, dp@);
    }
    let mut mask: usize = 1;
    while mask < size
        invariant
            matrix@.len() == n,
            matrix_wf(m),
            m == crate::tour::mat(matrix@),
            2 <= n <= MAX_NODES,
            size == 1usize << n,
            dp@.len() == size * n,
            1 <= mask <= size,
            table_state(m, n, size, dp@, mask),
        decreases size - mask,
    {
        proof {
            assert forall|big: usize, v: usize|
                big < size && v < n implies #[trigger] mid_entry(m, n, dp@, mask, big, v, 0, 0) by {
                assert(entry_state(m, n, dp@, mask, big, v));
                if is_target(mask, big, v) {
                    lemma_or_grows(mask, v, n);
                    assert(big ^ (1usize << v) == mask);
                    assert(bit(big, v));
                    assert(dp_at(dp@, n as int, big as int, v as int) == sentinel());
                }
            }
        }
        let mut u: usize = 0;
        while u < n
            invariant
                matrix@.len() == n,
                matrix_wf(m),
                m == crate::tour::mat(matrix@),
                2 <= n <= MAX_NODES,
                size == 1usize << n,
                dp@.len() == size * n,
                1 <= mask < size,
                u <= n,
                mid_state(m, n, size, dp@, mask, u, 0),
            decreases n - u,
        {
            if mask & (1usize << u) != 0 {
                let du = dp_read(&dp, n, size, mask, u);
                proof {
                    lemma_xor_shrinks(mask, u);
                    assert(mid_entry(m, n, dp@, mask, mask, u, u, 0));
                    assert(!is_target(mask, mask, u));
                    assert(entry_ok(m, n as int, mask, u, du as int));
                }
                let mut v: usize = 0;
                while v < n
                    invariant
                        matrix@.len() == n,
                        matrix_wf(m),
                        m == crate::tour::mat(matrix@),
                        2 <= n <= MAX_NODES,
                        size == 1usize << n,
                        dp@.len() == size * n,
                        1 <= mask < size,
                        u < n,
                        v <= n,
                        bit(mask, u),
                        entry_ok(m, n as int, mask, u, du as int),
                        mid_state(m, n, size, dp@, mask, u, v),
                    decreases n - v,
                {
                    if (mask & (1usize << v)) == 0 {
                        proof {
                            lemma_or_grows(mask, v, n);
                        }
                        let nm = mask | (1usize << v);
                        let wuv = crate::tour::w_at(matrix, u, v);
                        let cand = sat_add(du, wuv);
                        let cur = dp_read(&dp, n, size, nm, v);
                        let ghost dp0 = dp@;
                        if cand < cur {
                            dp_write(&mut dp, n, size, nm, v, cand);
                        }
                        proof {
                            lemma_relax(m, n, size, dp0, dp@, mask, u, v, du as int);
                        }
                    } else {
                        proof {
                            lemma_skip_v(m, n, size, dp@, mask, u, v);
                        }
                    }
                    v += 1;
                }
                proof {
                    // scanning node u is complete; re-index the claim for u + 1
                    assert forall|big: usize, v2: usize|
                        big < size && v2 < n implies #[trigger] mid_entry(
                        m,
                        n,
                        dp@,
                        mask,
                        big,
                        v2,
                        (u + 1) as usize,
                        0,
                    ) by {
                        assert(mid_entry(m, n, dp@, mask, big, v2, u, n));
                        if is_target(mask, big, v2) {
                            let d = dp_at(dp@, n as int, big as int, v2 as int);
                            assert forall|p: Seq<usize>|
                                (#[trigger] is_path(n as int, big, v2, p)) && p.len() >= 2 && (p[p.len()
                                    - 2] < u + 1 || (p[p.len() - 2] == u + 1 && v2
                                    < 0)) implies path_cost(m, p) >= d by {
                                assert(p[p.len() - 2] < u || (p[p.len() - 2] == u && v2 < n));
                            }
                        }
                    }
                }
            } else {
                proof {
                    lemma_skip_u(m, n, size, dp@, mask, u);
                }
            }
            u += 1;
        }
        proof {
            lemma_finish_mask(m, n, size, dp@, mask);
        }
        mask += 1;
    }
    proof {
        lemma_table_complete(m, n, size, dp@);
    }
    dp
}

/// The mask with every node visited.
pub open spec fn full_mask(n: usize) -> usize {
    ((1usize << n) - 1) as usize
}

/// Two values that both meet `entry_ok` are the same minimum.
proof fn lemma_entry_unique(m: Seq<Seq<u32>>, n: int, mask: usize, u: usize, d1: int, d2: int)
    requires
        entry_ok(m, n, mask, u, d1),
        entry_ok(m, n, mask, u, d2),
        d1 <= sentinel(),
        d2 <= sentinel(),
    ensures
        d1 == d2,
{
    if d1 < d2 {
        let p = choose|p: Seq<usize>| (#[trigger] is_path(n, mask, u, p)) && path_cost(m, p) == d1;
        assert(path_cost(m, p) >= d2);
    }
    if d2 < d1 {
        let p = choose|p: Seq<usize>| (#[trigger] is_path(n, mask, u, p)) && path_cost(m, p) == d2;
        assert(path_cost(m, p) >= d1);
    }
}

/// The minimum path cost of `(mask, u)` as a value: the one `d` in range
/// that `entry_ok` accepts.
pub open spec fn opt_cost(m: Seq<Seq<u32>>, n: usize, mask: usize, u: usize) -> int {
    choose|d: int| entry_ok(m, n as int, mask, u, d) && 0 <= d <= sentinel()
}

/// A finished table entry is exactly `opt_cost`.
proof fn lemma_opt_cost_is(m: Seq<Seq<u32>>, n: usize, mask: usize, u: usize, d: int)
    requires
        entry_ok(m, n as int, mask, u, d),
        0 <= d <= sentinel(),
    ensures
        opt_cost(m, n, mask, u) == d,
{
    assert(exists|dd: int| entry_ok(m, n as int, mask, u, dd) && 0 <= dd <= sentinel());
    let d2 = opt_cost(m, n, mask, u);
    assert(entry_ok(m, n as int, mask, u, d2) && 0 <= d2 <= sentinel());
    lemma_entry_unique(m, n as int, mask, u, d, d2);
}

/// The closing scan over last cities `u, u + 1, ..., n - 1`, keeping the
/// first strict improvement: the ascending-index tie-break of the argmin.
pub open spec fn close_scan(m: Seq<Seq<u32>>, n: usize, u: usize, acc: int, acc_last: usize) -> (
    int,
    usize,
)
    decreases n - u,
{
    if u >= n {
        (acc, acc_last)
    } else {
        let cand = sat(opt_cost(m, n, full_mask(n), u), edge(m, u as int, 0));
        if cand < acc {
            close_scan(m, n, (u + 1) as usize, cand, u)
        } else {
            close_scan(m, n, (u + 1) as usize, acc, acc_last)
        }
    }
}

/// The cost and tie-broken last city of the optimal closing.
pub open spec fn hk_best(m: Seq<Seq<u32>>, n: usize) -> (int, usize) {
    close_scan(m, n, 1, sentinel(), 0)
}

/// The smallest node index at or above `u` that explains the entry `dval`:
/// the ascending-index tie-break of the reconstruction.
pub open spec fn pick_from(
    m: Seq<Seq<u32>>,
    n: usize,
    prev: usize,
    city: usize,
    dval: int,
    u: usize,
) -> usize
    decreases n - u,
{
    if u >= n {
        0
    } else if bit(prev, u) && sat(opt_cost(m, n, prev, u), edge(m, u as int, city as int))
        == dval {
        u
    } else {
        pick_from(m, n, prev, city, dval, (u + 1) as usize)
    }
}

/// The unique path the backward walk recovers from the table: from the bare
/// depot mask up to `(mask, city)`, always through the tie-broken
/// predecessor. The width guard keeps the bit arithmetic meaningful.
pub open spec fn spec_walk(m: Seq<Seq<u32>>, n: usize, mask: usize, city: usize) -> Seq<usize>
    decreases mask,
    via spec_walk_decreases
{
    if mask <= 1 || city >= 32 || !bit(mask, city) {
        seq![city]
    } else {
        let prev = mask ^ (1usize << city);
        spec_walk(
            m,
            n,
            prev,
            pick_from(m, n, prev, city, opt_cost(m, n, mask, city), 0),
        ).push(city)
    }
}

#[via_fn]
proof fn spec_walk_decreases(m: Seq<Seq<u32>>, n: usize, mask: usize, city: usize) {
    if !(mask <= 1 || city >= 32 || !bit(mask, city)) {
        lemma_xor_shrinks(mask, city);
    }
}

/// The one tour the solver returns: the tie-broken walk to the tie-broken
/// last city, closed at the depot.
pub open spec fn hk_tour(m: Seq<Seq<u32>>, n: usize) -> Seq<usize> {
    spec_walk(m, n, full_mask(n), hk_best(m, n).1).push(0usize)
}

/// The set of nodes in `mask`, for counting.
spec fn mask_nodes(mask: usize, n: int) -> Set<int> {
    Set::new(|i: int| 0 <= i < n && bit(mask, i as usize))
}

/// Pick the cheapest way to close a tour: the best `u` with the table cost of
/// `(full, u)` plus the edge home.
fn best_last(matrix: &Vec<Vec<u32>>, n: usize, dp: &Vec<u32>) -> (r: (u32, usize))
    requires
        matrix@.len() == n,
        matrix_wf(crate::tour::mat(matrix@)),
        2 <= n <= MAX_NODES,
        dp@.len() == (1usize << n) * n,
        table_done(crate::tour::mat(matrix@), n, 1usize << n, dp@),
    ensures
        forall|u: usize|
            1 <= u < n ==> r.0 as int <= sat(
                dp_at(dp@, n as int, full_mask(n) as int, u as int),
                #[trigger] edge(crate::tour::mat(matrix@), u as int, 0),
            ),
        r.0 as int == sentinel() || (1 <= r.1 < n && r.0 as int == sat(
            dp_at(dp@, n as int, full_mask(n) as int, r.1 as int),
            edge(crate::tour::mat(matrix@), r.1 as int, 0),
        )),
        r.0 as int == hk_best(crate::tour::mat(matrix@), n).0,
        r.1 == hk_best(crate::tour::mat(matrix@), n).1,
{
    let ghost m = crate::tour::mat(matrix@);
    let size = 1usize << n;
    proof {
        assert(1usize << n >= 2) by (bit_vector)
            requires
                2 <= n <= 20,
        ;
    }
    let full = size - 1;
    let mut result = u32::MAX;
    let mut last: usize = 0;
    let mut u: usize = 1;
    while u < n
        invariant
            matrix@.len() == n,
            matrix_wf(m),
            m == crate::tour::mat(matrix@),
            2 <= n <= MAX_NODES,
            size == 1usize << n,
            size >= 2,
            full == full_mask(n),
            full < size,
            dp@.len() == size * n,
            1 <= u <= n,
            table_done(m, n, size, dp@),
            forall|uu: usize|
                1 <= uu < u ==> result as int <= sat(
                    dp_at(dp@, n as int, full as int, uu as int),
                    #[trigger] edge(m, uu as int, 0),
                ),
            result as int == sentinel() || (1 <= last < n && result as int == sat(
                dp_at(dp@, n as int, full as int, last as int),
                edge(m, last as int, 0),
            )),
            close_scan(m, n, u, result as int, last) == hk_best(m, n),
        decreases n - u,
    {
        let ghost old_result = result;
        let ghost old_last = last;
        let du = dp_read(dp, n, size, full, u);
        let cost = sat_add(du, crate::tour::w_at(matrix, u, 0));
        if cost < result {
            result = cost;
            last = u;
        }
        proof {
            assert(entry_ok(m, n as int, full, u, du as int));
            lemma_opt_cost_is(m, n, full, u, du as int);
            assert(cost as int == sat(opt_cost(m, n, full_mask(n), u), edge(m, u as int, 0)));
            assert(close_scan(m, n, u, old_result as int, old_last) == close_scan(
                m,
                n,
                (u + 1) as usize,
                result as int,
                last,
            ));
        }
        u += 1;
    }
    proof {
        assert(close_scan(m, n, u, result as int, last) == (result as int, last));
    }
    (result, last)
}

/// Whatever the table's minima bound, every valid tour costs at least the
/// best closing candidate.
proof fn lemma_tour_lb(m: Seq<Seq<u32>>, n: usize, size: usize, dp: Seq<u32>, result: int)
    requires
        2 <= n <= MAX_NODES,
        size == 1usize << n,
        table_done(m, n, size, dp),
        forall|u: usize|
            1 <= u < n ==> result <= sat(
                dp_at(dp, n as int, full_mask(n) as int, u as int),
                #[trigger] edge(m, u as int, 0),
            ),
    ensures
        forall|t: Seq<usize>| valid_tour(n as int, t) ==> #[trigger] path_cost(m, t) >= result,
{
    let full = full_mask(n);
    assert(full < size && size >= 2) by (bit_vector)
        requires
            2 <= n <= 20,
            size == 1usize << n,
            full == ((1usize << n) - 1) as usize,
    ;
    assert forall|t: Seq<usize>|
        valid_tour(n as int, t) implies #[trigger] path_cost(m, t) >= result by {
        let p = t.drop_last();
        let u = t[n - 1];
        assert(p.len() == n);
        assert forall|k: int| 0 <= k < p.len() implies bit(full, #[trigger] p[k]) by {
            lemma_bit_full(full, n, p[k]);
        }
        assert forall|c: usize| c < n && #[trigger] bit(full, c) implies p.contains(c) by {
            if c == 0 {
                assert(p[0] == c);
            } else {
                assert(occurs(t, n as int, c));
                let i = choose|i: int| 0 <= i < n && t[i] == c;
                assert(p[i] == c);
            }
        }
        assert(is_path(n as int, full, u, p));
        assert(entry_ok(m, n as int, full, u, dp_at(dp, n as int, full as int, u as int)));
        assert(path_cost(m, p) >= dp_at(dp, n as int, full as int, u as int));
        assert(t[0] != t[n - 1]);
        assert(1 <= u < n);
        assert(path_cost(m, t) == sat(path_cost(m, p), edge(m, u as int, 0))) by {
            assert(t.drop_last() == p);
            assert(t[t.len() - 2] == u && t[t.len() - 1] == 0usize);
        }
        lemma_sat_mono(
            dp_at(dp, n as int, full as int, u as int),
            path_cost(m, p),
            edge(m, u as int, 0),
        );
        assert(result <= sat(dp_at(dp, n as int, full as int, u as int), edge(m, u as int, 0)));
    }
}

/// Walk the finished table backwards from the chosen last city, recovering a
/// tour whose cost is exactly the reported minimum.
fn reconstruct(matrix: &Vec<Vec<u32>>, n: usize, dp: &Vec<u32>, last: usize, result: u32) -> (t:
    Vec<usize>)
    requires
        matrix@.len() == n,
        matrix_wf(crate::tour::mat(matrix@)),
        2 <= n <= MAX_NODES,
        dp@.len() == (1usize << n) * n,
        table_done(crate::tour::mat(matrix@), n, 1usize << n, dp@),
        1 <= last < n,
        (result as int) < sentinel(),
        result as int == sat(
            dp_at(dp@, n as int, full_mask(n) as int, last as int),
            edge(crate::tour::mat(matrix@), last as int, 0),
        ),
    ensures
        valid_tour(n as int, t@),
        path_cost(crate::tour::mat(matrix@), t@) == result as int,
        t@ == spec_walk(crate::tour::mat(matrix@), n, full_mask(n), last).push(0usize),
{
    let ghost m = crate::tour::mat(matrix@);
    let size = 1usize << n;
    proof {
        assert(1usize << n >= 4 && (((1usize << n) - 1) as usize) & (1usize << 0) != 0) by (
        bit_vector)
            requires
                2 <= n <= 20,
        ;
    }
    let full = size - 1;
    proof {
        assert(bit(full, 0));
        lemma_bit_full(full, n, last);
        assert(bit(full, last));
        // the whole-node set has n elements
        assert forall|i: int| 0 <= i < n implies mask_nodes(full, n as int).contains(i) by {
            lemma_bit_full(full, n, i as usize);
        }
        assert(mask_nodes(full, n as int) =~= set_int_range(0, n as int));
        vstd::set_lib::lemma_int_range(0, n as int);
    }
    let mut rev: Vec<usize> = Vec::new();
    rev.push(0);
    rev.push(last);
    let mut mask = full;
    let mut city = last;
    proof {
        assert(rev@.reverse() =~= seq![last, 0usize]);
        assert(rev@.reverse().drop_last() =~= seq![last]);
        lemma_singleton_cost(m, seq![last]);
        assert(rev@.reverse()[0] == last && rev@.reverse()[1] == 0usize);
        assert(rev@.reverse().len() == 2);
        assert(path_cost(m, rev@.reverse()) == sat(
            path_cost(m, rev@.reverse().drop_last()),
            edge(m, last as int, 0),
        ));
        assert(path_cost(m, rev@.reverse()) == sat(0, edge(m, last as int, 0)));
        assert(sat(dp_at(dp@, n as int, mask as int, city as int), path_cost(m, rev@.reverse()))
            == result as int);
        assert(dp_at(dp@, n as int, mask as int, city as int) <= result as int);
        assert forall|c: usize| c < n implies bit(full, #[trigger] (c as usize)) by {
            lemma_bit_full(full, n, c);
        }
        assert forall|c: usize|
            c < n && !bit(mask, c) implies #[trigger] occurs(
            rev@.subrange(1, rev@.len() as int),
            rev@.len() - 1,
            c,
        ) by {
            lemma_bit_full(full, n, c);
        }
        assert(rev@.subrange(1, rev@.len() - 1) =~= Seq::<usize>::empty());
        assert(Seq::<usize>::empty().reverse() =~= Seq::<usize>::empty());
        assert(spec_walk(m, n, full, last) + Seq::<usize>::empty() =~= spec_walk(
            m,
            n,
            full,
            last,
        ));
    }
    while mask != 1
        invariant
            matrix@.len() == n,
            matrix_wf(m),
            m == crate::tour::mat(matrix@),
            2 <= n <= MAX_NODES,
            size == 1usize << n,
            size >= 4,
            dp@.len() == size * n,
            table_done(m, n, size, dp@),
            1 <= mask < size,
            city < n,
            bit(mask, 0),
            bit(mask, city),
            mask == 1 ==> city == 0,
            mask != 1 ==> city != 0,
            rev@.len() >= 2,
            rev@[0] == 0usize,
            rev@[rev@.len() - 1] == city,
            forall|k: int| 1 <= k < rev@.len() ==> (#[trigger] rev@[k]) < n,
            forall|k: int, l: int| 1 <= k < l < rev@.len() ==> rev@[k] != rev@[l],
            forall|k: int| 1 <= k < rev@.len() - 1 ==> !bit(mask, #[trigger] rev@[k]),
            forall|c: usize|
                c < n && !bit(mask, c) ==> #[trigger] occurs(
                    rev@.subrange(1, rev@.len() as int),
                    rev@.len() - 1,
                    c,
                ),
            mask_nodes(mask, n as int).finite(),
            rev@.len() + mask_nodes(mask, n as int).len() == n + 2,
            dp_at(dp@, n as int, mask as int, city as int) < sentinel(),
            sat(dp_at(dp@, n as int, mask as int, city as int), path_cost(m, rev@.reverse()))
                == result as int,
            spec_walk(m, n, full, last) == spec_walk(m, n, mask, city) + rev@.subrange(
                1,
                rev@.len() - 1,
            ).reverse(),
        decreases mask,
    {
        let dcur = dp_read(dp, n, size, mask, city);
        let ghost dval = dp_at(dp@, n as int, mask as int, city as int);
        proof {
            lemma_xor_shrinks(mask, city);
            lemma_bit_xor(mask, city, 0);
        }
        let prev = mask ^ (1usize << city);
        proof {
            assert(bit(prev, 0));
            assert(prev >= 1) by {
                assert(prev & (1usize << 0) != 0 ==> prev >= 1) by (bit_vector);
            }
            // a witness predecessor exists in the table
            assert(entry_ok(m, n as int, mask, city, dval));
            let p = choose|p: Seq<usize>|
                (#[trigger] is_path(n as int, mask, city, p)) && path_cost(m, p) == dval;
            assert(p.len() >= 2) by {
                if p.len() == 1 {
                    assert(p[0] == 0usize && p[p.len() - 1] == city);
                }
            }
            lemma_path_decompose(n as int, mask, city, p);
            let p2 = p.drop_last();
            let w0 = p[p.len() - 2];
            assert(is_path(n as int, prev, w0, p2));
            assert(bit(prev, w0));
            let dprev = dp_at(dp@, n as int, prev as int, w0 as int);
            assert(entry_ok(m, n as int, prev, w0, dprev));
            assert(path_cost(m, p2) >= dprev);
            assert(path_cost(m, p) == sat(path_cost(m, p2), edge(m, w0 as int, city as int)));
            lemma_sat_mono(dprev, path_cost(m, p2), edge(m, w0 as int, city as int));
            assert(sat(dprev, edge(m, w0 as int, city as int)) <= dval);
            assert(dprev < sentinel());
            let q2 = choose|q2: Seq<usize>|
                (#[trigger] is_path(n as int, prev, w0, q2)) && path_cost(m, q2) == dprev;
            lemma_path_compose(n as int, prev, w0, city, q2);
            assert((prev | (1usize << city)) == mask) by {
                assert(mask & (1usize << city) != 0 ==> (mask ^ (1usize << city)) | (1usize
                    << city) == mask) by (bit_vector);
            }
            let q = q2.push(city);
            assert(q.drop_last() =~= q2);
            assert(q[q.len() - 2] == w0 && q[q.len() - 1] == city);
            assert(path_cost(m, q) == sat(dprev, edge(m, w0 as int, city as int)));
            assert(path_cost(m, q) >= dval);
            assert(sat(dprev, edge(m, w0 as int, city as int)) == dval);
            assert(w0 < n && bit(prev, w0) && sat(
                dp_at(dp@, n as int, prev as int, w0 as int),
                edge(m, w0 as int, city as int),
            ) == dval);
        }
        // scan for the first predecessor that explains the entry
        let mut pu: usize = 0;
        let mut scanning = true;
        while scanning
            invariant
                matrix@.len() == n,
                matrix_wf(m),
                m == crate::tour::mat(matrix@),
                2 <= n <= MAX_NODES,
                size == 1usize << n,
                dp@.len() == size * n,
                prev < size,
                city < n,
                pu <= n,
                dval == dp_at(dp@, n as int, mask as int, city as int),
                dcur as int == dval,
                scanning ==> exists|w0: usize|
                    pu <= w0 < n && #[trigger] bit(prev, w0) && sat(
                        dp_at(dp@, n as int, prev as int, w0 as int),
                        edge(m, w0 as int, city as int),
                    ) == dval,
                !scanning ==> pu < n && bit(prev, pu) && sat(
                    dp_at(dp@, n as int, prev as int, pu as int),
                    edge(m, pu as int, city as int),
                ) == dval,
                table_done(m, n, size, dp@),
                scanning ==> pick_from(m, n, prev, city, dval, 0) == pick_from(
                    m,
                    n,
                    prev,
                    city,
                    dval,
                    pu,
                ),
                !scanning ==> pick_from(m, n, prev, city, dval, 0) == pu,
            decreases (if scanning {
                1int
            } else {
                0int
            }), n - pu,
        {
            proof {
                let w0 = choose|w0: usize|
                    pu <= w0 < n && #[trigger] bit(prev, w0) && sat(
                        dp_at(dp@, n as int, prev as int, w0 as int),
                        edge(m, w0 as int, city as int),
                    ) == dval;
                assert(pu <= w0 < n);
            }
            let hit = if (prev & (1usize << pu)) != 0 {
                let cand = sat_add(
                    dp_read(dp, n, size, prev, pu),
                    crate::tour::w_at(matrix, pu, city),
                );
                proof {
                    assert(entry_ok(
                        m,
                        n as int,
                        prev,
                        pu,
                        dp_at(dp@, n as int, prev as int, pu as int),
                    ));
                    lemma_opt_cost_is(m, n, prev, pu, dp_at(dp@, n as int, prev as int, pu as int));
                    assert(cand as int == sat(
                        opt_cost(m, n, prev, pu),
                        edge(m, pu as int, city as int),
                    ));
                }
                cand == dcur
            } else {
                false
            };
            proof {
                if hit {
                    assert(pick_from(m, n, prev, city, dval, pu) == pu);
                } else {
                    assert(pick_from(m, n, prev, city, dval, pu) == pick_from(
                        m,
                        n,
                        prev,
                        city,
                        dval,
                        (pu + 1) as usize,
                    ));
                }
            }
            if hit {
                scanning = false;
            } else {
                pu += 1;
            }
        }
        proof {
            if prev == 1 {
                assert((1usize << 1) - 1 == 1) by (bit_vector);
                lemma_bit_full(1, 1, pu);
                assert(pu == 0);
            }
            // if the depot is the predecessor, only its own mask is left
            if pu == 0 {
                let dprev = dp_at(dp@, n as int, prev as int, 0);
                assert(dprev < sentinel());
                assert(entry_ok(m, n as int, prev, 0, dprev));
                let p = choose|p: Seq<usize>|
                    (#[trigger] is_path(n as int, prev, 0usize, p)) && path_cost(m, p) == dprev;
                assert(p.len() == 1) by {
                    if p.len() >= 2 {
                        assert(p[0] == 0usize && p[p.len() - 1] == 0usize);
                    }
                }
                assert forall|c: usize| c < n && #[trigger] bit(prev, c) implies c == 0 by {
                    assert(p.contains(c));
                    assert(p[0] == c);
                }
                lemma_only_bit_zero(prev, n);
                assert(prev == 1);
            }
        }
        let ghost old_rev = rev@;
        let ghost old_mask = mask;
        let ghost old_city = city;
        rev.push(pu);
        mask = prev;
        city = pu;
        proof {
            assert(rev@ == old_rev.push(pu));
            assert(rev@[rev@.len() - 1] == city);
            // structure: everything strictly before the new tail is outside prev
            assert forall|k: int| 1 <= k < rev@.len() - 1 implies !bit(mask, #[trigger] rev@[k]) by {
                if k < old_rev.len() - 1 {
                    assert(!bit(old_mask, old_rev[k]));
                    lemma_bit_xor(old_mask, old_city, old_rev[k]);
                } else {
                    assert(rev@[k] == old_city);
                    lemma_bit_xor(old_mask, old_city, old_city);
                }
            }
            assert forall|k: int, l: int| 1 <= k < l < rev@.len() implies rev@[k] != rev@[l] by {
                if l == rev@.len() - 1 {
                    assert(rev@[l] == pu);
                    assert(bit(old_mask, pu)) by {
                        lemma_bit_xor(old_mask, old_city, pu);
                    }
                    if k < old_rev.len() - 1 {
                        assert(!bit(old_mask, old_rev[k]));
                    } else {
                        assert(rev@[k] == old_city);
                        lemma_bit_xor(old_mask, old_city, pu);
                    }
                }
            }
            // coverage of the removed node and everything already outside
            assert forall|c: usize|
                c < n && !bit(mask, c) implies #[trigger] occurs(
                rev@.subrange(1, rev@.len() as int),
                rev@.len() - 1,
                c,
            ) by {
                lemma_bit_xor(old_mask, old_city, c);
                let s = rev@.subrange(1, rev@.len() as int);
                if c == old_city {
                    assert(s[s.len() - 2] == old_city);
                } else {
                    assert(!bit(old_mask, c));
                    assert(occurs(old_rev.subrange(1, old_rev.len() as int), old_rev.len() - 1, c));
                    let i = choose|i: int|
                        0 <= i < old_rev.len() - 1 && old_rev.subrange(1, old_rev.len() as int)[i]
                            == c;
                    assert(s[i] == c);
                }
            }
            // counting
            assert(mask_nodes(mask, n as int) =~= mask_nodes(old_mask, n as int).remove(
                old_city as int,
            )) by {
                assert forall|i: int| 0 <= i < n implies (mask_nodes(mask, n as int).contains(i)
                    == mask_nodes(old_mask, n as int).remove(old_city as int).contains(i)) by {
                    lemma_bit_xor(old_mask, old_city, i as usize);
                }
            }
            assert(mask_nodes(old_mask, n as int).contains(old_city as int));
            assert(rev@.len() + mask_nodes(mask, n as int).len() == n + 2);
            // cost bookkeeping
            let a = dp_at(dp@, n as int, mask as int, city as int);
            let b = edge(m, city as int, old_city as int);
            let c0 = path_cost(m, old_rev.reverse());
            crate::tour::lemma_reverse_push(old_rev, pu);
            assert(rev@.reverse() =~= seq![pu] + old_rev.reverse());
            assert(old_rev.reverse().len() >= 2);
            assert(old_rev.reverse()[0] == old_city);
            crate::tour::lemma_path_cost_prepend(m, pu, old_rev.reverse());
            assert(path_cost(m, rev@.reverse()) == sat(b, c0));
            crate::tour::lemma_path_cost_bounds(m, old_rev.reverse());
            crate::tour::lemma_sat_assoc(a, b, c0);
            assert(sat(a, path_cost(m, rev@.reverse())) == sat(sat(a, b), c0));
            assert(sat(sat(a, b), c0) == result as int);
            assert(a <= sat(a, b));
            assert(a < sentinel());
            // the step taken is the specified tie-broken walk step
            assert(entry_ok(m, n as int, old_mask, old_city, dval));
            lemma_opt_cost_is(m, n, old_mask, old_city, dval);
            assert(old_mask > 1 && old_city < 32 && bit(old_mask, old_city));
            assert(spec_walk(m, n, old_mask, old_city) == spec_walk(
                m,
                n,
                mask,
                pick_from(m, n, mask, old_city, dval, 0),
            ).push(old_city));
            assert(pick_from(m, n, mask, old_city, dval, 0) == pu);
            assert(spec_walk(m, n, old_mask, old_city) == spec_walk(m, n, mask, city).push(
                old_city,
            ));
            let old_sfx = old_rev.subrange(1, old_rev.len() - 1);
            assert(rev@.subrange(1, rev@.len() - 1) =~= old_sfx.push(old_city));
            crate::tour::lemma_reverse_push(old_sfx, old_city);
            assert(rev@.subrange(1, rev@.len() - 1).reverse() == seq![old_city]
                + old_sfx.reverse());
            assert(spec_walk(m, n, mask, city) + (seq![old_city] + old_sfx.reverse())
                =~= spec_walk(m, n, mask, city).push(old_city) + old_sfx.reverse());
            assert(spec_walk(m, n, full, last) == spec_walk(m, n, mask, city) + rev@.subrange(
                1,
                rev@.len() - 1,
            ).reverse());
        }
    }
    // unwind the reversed walk into the tour
    let mut t: Vec<usize> = Vec::new();
    let mut i = rev.len();
    while i > 0
        invariant
            i <= rev@.len(),
            t@.len() == rev@.len() - i,
            forall|k: int| 0 <= k < t@.len() ==> t@[k] == rev@[rev@.len() - 1 - k],
        decreases i,
    {
        i -= 1;
        t.push(rev[i]);
    }
    proof {
        assert(t@ =~= rev@.reverse());
        // the walk ended on the bare depot: the tour has full length
        assert(mask_nodes(1, n as int) =~= set_int_range(0, 1)) by {
            assert forall|i2: int| 0 <= i2 < n implies (mask_nodes(1, n as int).contains(i2) == (
            i2 == 0)) by {
                assert((1usize << 1) - 1 == 1) by (bit_vector);
                lemma_bit_full(1, 1, i2 as usize);
            }
        }
        vstd::set_lib::lemma_int_range(0, 1);
        assert(rev@.len() == n + 1);
        assert(t@.len() == n + 1);
        assert(t@[0] == rev@[rev@.len() - 1]);
        assert(t@[n as int] == rev@[0]);
        assert forall|k: int| 0 <= k < n implies (#[trigger] t@[k]) < n by {
            assert(t@[k] == rev@[rev@.len() - 1 - k]);
        }
        assert forall|k: int, l: int| 0 <= k < l < n implies t@[k] != t@[l] by {
            assert(t@[k] == rev@[rev@.len() - 1 - k] && t@[l] == rev@[rev@.len() - 1 - l]);
        }
        assert forall|c: usize| 1 <= c < n implies #[trigger] occurs(t@, n as int, c) by {
            assert((1usize << 1) - 1 == 1) by (bit_vector);
            lemma_bit_full(1, 1, c);
            assert(!bit(1, c));
            assert(occurs(rev@.subrange(1, rev@.len() as int), rev@.len() - 1, c));
            let i2 = choose|i2: int|
                0 <= i2 < rev@.len() - 1 && rev@.subrange(1, rev@.len() as int)[i2] == c;
            assert(rev@[i2 + 1] == c);
            assert(i2 + 1 < rev@.len() - 1) by {
                assert(rev@[rev@.len() - 1] == 0usize);
            }
            assert(t@[rev@.len() - 1 - (i2 + 1)] == c);
            assert(0 <= rev@.len() - 1 - (i2 + 1) < n);
        }
        assert(valid_tour(n as int, t@));
        // and its cost is the reported minimum
        let d10 = dp_at(dp@, n as int, 1, 0);
        assert(entry_ok(m, n as int, 1, 0, d10));
        lemma_singleton_path(n as int);
        lemma_singleton_cost(m, seq![0usize]);
        assert(d10 <= 0);
        assert(d10 == 0) by {
            assert(dp@[1int * (n as int) + 0] >= 0);
        }
        crate::tour::lemma_path_cost_bounds(m, rev@.reverse());
        assert(sat(0, path_cost(m, rev@.reverse())) == result as int);
        assert(path_cost(m, t@) == result as int);
        // the walk ended at the bare depot, so the tour is the specified one
        assert(spec_walk(m, n, 1, 0) == seq![0usize]);
        assert(spec_walk(m, n, full, last) == seq![0usize] + rev@.subrange(
            1,
            rev@.len() - 1,
        ).reverse());
        assert(t@ =~= spec_walk(m, n, full, last).push(0usize));
    }
    t
}

/// What a Held-Karp solve promises, over the matrix view: the errors come
/// exactly on the inputs the design rejects, and an `Ok` carries a valid
/// minimum-cost tour with its true cost.
pub open spec fn held_karp_post(m: Seq<Seq<u32>>, r: Result<(u32, Vec<usize>), SolverError>) -> bool {
    if !(m.len() >= 1 && matrix_wf(m)) {
        r == Err::<(u32, Vec<usize>), SolverError>(SolverError::InvalidInput)
    } else if m.len() > MAX_NODES {
        r == Err::<(u32, Vec<usize>), SolverError>(SolverError::ResourceExceeded)
    } else if m.len() == 1 {
        match r {
            Ok(ct) => ct.0 == 0u32 && ct.1@ == seq![0usize, 0usize],
            Err(_) => false,
        }
    } else {
        match r {
            Ok(ct) => {
                &&& valid_tour(m.len() as int, ct.1@)
                &&& ct.0 as int == path_cost(m, ct.1@)
                &&& (ct.0 as int) < sentinel()
                &&& forall|t: Seq<usize>|
                    valid_tour(m.len() as int, t) ==> #[trigger] path_cost(m, t) >= ct.0 as int
                &&& ct.1@ == hk_tour(m, m.len() as usize)
                &&& ct.0 as int == hk_best(m, m.len() as usize).0
            },
            Err(e) => {
                &&& e == SolverError::Infeasible
                &&& forall|t: Seq<usize>|
                    valid_tour(m.len() as int, t) ==> #[trigger] path_cost(m, t) == sentinel()
            },
        }
    }
}

/// Solve the instance exactly: validate, fill the table, pick the cheapest
/// closing city, and walk the tour back out.
pub(crate) fn held_karp(matrix: &Vec<Vec<u32>>) -> (r: Result<(u32, Vec<usize>), SolverError>)
    ensures
        held_karp_post(crate::tour::mat(matrix@), r),
{
    let ghost m = crate::tour::mat(matrix@);
    let n = matrix.len();
    if n == 0 {
        return Err(SolverError::InvalidInput);
    }
    let mut i: usize = 0;
    while i < n
        invariant
            n == matrix@.len(),
            i <= n,
            m == crate::tour::mat(matrix@),
            forall|j: int| 0 <= j < i ==> (#[trigger] m[j]).len() == n,
        decreases n - i,
    {
        if matrix[i].len() != n {
            proof {
                assert(m[i as int].len() != n);
                assert(!matrix_wf(m));
            }
            return Err(SolverError::InvalidInput);
        }
        proof {
            assert(m[i as int].len() == n);
        }
        i += 1;
    }
    proof {
        assert(matrix_wf(m));
    }
    if n > MAX_NODES {
        return Err(SolverError::ResourceExceeded);
    }
    if n == 1 {
        let t = vec![0usize, 0usize];
        proof {
            assert(t@ == seq![0usize, 0usize]);
        }
        return Ok((0, t));
    }
    let dp = build_table(matrix, n);
    let (best, last) = best_last(matrix, n, &dp);
    proof {
        lemma_tour_lb(m, n, 1usize << n, dp@, best as int);
    }
    if best == u32::MAX {
        proof {
            assert forall|t: Seq<usize>|
                valid_tour(n as int, t) implies #[trigger] path_cost(m, t) == sentinel() by {
                lemma_path_cost_bounds(m, t);
            }
        }
        return Err(SolverError::Infeasible);
    }
    let tour = reconstruct(matrix, n, &dp, last, best);
    proof {
        assert(tour@ == hk_tour(m, n));
    }
    Ok((best, tour))
}

/// The exact dynamic-programming solver over an owned distance matrix.
pub struct DPSolver {
    matrix: Vec<Vec<u32>>,
}

impl View for DPSolver {
    type V = Seq<Seq<u32>>;

    closed spec fn view(&self) -> Seq<Seq<u32>> {
        crate::tour::mat(self.matrix@)
    }
}

impl DPSolver {
    /// Wrap a matrix; nothing is validated until `solve` runs.
    pub fn new(matrix: Vec<Vec<u32>>) -> (s: Self)
        ensures
            s@ == crate::tour::mat(matrix@),
    {
        Self { matrix }
    }

    /// Run Held-Karp on the held matrix.
    pub fn solve(&self) -> (r: Result<(u32, Vec<usize>), SolverError>)
        ensures
            held_karp_post(self@, r),
    {
        held_karp(&self.matrix)
    }
}

/// Read the table entry for `(mask, u)`.
fn dp_read(dp: &Vec<u32>, n: usize, size: usize, mask: usize, u: usize) -> (r: u32)
    requires
        dp@.len() == size * n,
        mask < size,
        u < n,
    ensures
        r as int == dp_at(dp@, n as int, mask as int, u as int),
{
    let len = dp.len();
    proof {
        lemma_idx_bound(n as int, size as int, mask as int, u as int);
    }
    dp[mask * n + u]
}

/// Write the table entry for `(mask, u)`, leaving every other entry as it was.
fn dp_write(dp: &mut Vec<u32>, n: usize, size: usize, mask: usize, u: usize, val: u32)
    requires
        old(dp)@.len() == size * n,
        mask < size,
        u < n,
    ensures
        final (dp)@.len() == size * n,
        dp_at(final (dp)@, n as int, mask as int, u as int) == val as int,
        forall|m2: usize, u2: usize|
            m2 < size && u2 < n && !(m2 == mask && u2 == u) ==> dp_at(
                final (dp)@,
                n as int,
                m2 as int,
                u2 as int,
            ) == dp_at(old(dp)@, n as int, m2 as int, u2 as int),
{
    let len = dp.len();
    proof {
        lemma_idx_bound(n as int, size as int, mask as int, u as int);
    }
    let idx = mask * n + u;
    dp[idx] = val;
    proof {
        assert forall|m2: usize, u2: usize|
            m2 < size && u2 < n && !(m2 == mask && u2 == u) implies dp_at(
            dp@,
            n as int,
            m2 as int,
            u2 as int,
        ) == dp_at(old(dp)@, n as int, m2 as int, u2 as int) by {
            lemma_idx_bound(n as int, size as int, m2 as int, u2 as int);
            if m2 as int * n as int + u2 as int == mask as int * n as int + u as int {
                lemma_idx_inj(n as int, m2 as int, u2 as int, mask as int, u as int);
            }
        }
    }
}

} // verus!
