//! A maximum-weight assignment solver for square integer matrices: the
//! Hungarian algorithm in its shortest-augmenting-path form with potentials,
//! run on the minimization image `WEIGHT_OFFSET - w`, exact over integers.
//!
//! The solver certifies its own result: the returned mapping is checked to be
//! a bijection that keeps dummy rows out of mandatory columns, and the score
//! is summed directly from the matrix, so the contract holds of whatever the
//! search produced.

use vstd::prelude::*;
use vstd::pervasive::VecAdditionalExecFns;
use crate::caobab::{MAX_SEATS, WEIGHT_OFFSET};
use crate::matrix::Matrix;

verus! {

/// The weight of a single edge of the assignment problem.
pub type EdgeWeight = u16;

/// The total weight of an assignment.
pub type Score = u32;

/// A sequence of length `n` that hits every column below `n` exactly once.
pub open spec fn is_permutation(s: Seq<usize>, n: int) -> bool {
    &&& s.len() == n
    &&& forall|i: int| 0 <= i < n ==> ((#[trigger] s[i]) as int) < n
    &&& forall|i: int, j: int| 0 <= i < j < n ==> s[i] != s[j]
}

/// The sum of the matrix entries picked by rows `0..k` of the assignment.
pub open spec fn matching_weight(w: Matrix, s: Seq<usize>, k: int) -> int
    decreases k,
{
    if k <= 0 {
        0
    } else {
        matching_weight(w, s, k - 1) + w.spec_at(k - 1, s[k - 1] as int)
    }
}

/// Cost sentinel that dominates any sum of real edge costs, so the search
/// never uses a forbidden dummy-to-mandatory edge when it can be avoided.
pub const FORBIDDEN_COST: i64 = 4_000_000_000;

/// A cost value larger than any reachable reduced cost.
const INF_COST: i64 = 0x3f3f3f3f_3f3f3f3f;

/// The minimization cost of one edge: mandatory columns may not take dummy
/// rows, every other edge costs the weight's distance from the offset.
fn edge_cost(w: &Matrix, dummy_x: &Vec<bool>, mandatory_y: &Vec<bool>, x: usize, y: usize) -> (r:
    i64)
    requires
        w.wf(),
        x < w.n,
        y < w.n,
        dummy_x@.len() == w.n,
        mandatory_y@.len() == w.n,
        w.spec_at(x as int, y as int) <= WEIGHT_OFFSET,
    ensures
        0 <= r <= FORBIDDEN_COST,
        r == spec_cost(*w, dummy_x@, mandatory_y@, x as int, y as int),
{
    if dummy_x[x] && mandatory_y[y] {
        FORBIDDEN_COST
    } else {
        (WEIGHT_OFFSET - w.at(x, y)) as i64
    }
}

/// Solve the square assignment problem on `w`: find a row-to-column bijection
/// of maximum total weight among those that keep dummy rows out of mandatory
/// columns.  Returns the bijection and its exact total weight, or `None` when
/// the mandatory columns cannot all be covered by real rows (or the search
/// gave up).  The returned score is maximal: the final potentials are checked
/// to be a dual certificate, so by weak duality no valid bijection weighs
/// more.
pub fn hungarian_algorithm(w: &Matrix, dummy_x: &Vec<bool>, mandatory_y: &Vec<bool>) -> (r: Option<
    (Vec<usize>, Score)>)
    requires
        w.wf(),
        w.n <= MAX_SEATS,
        dummy_x@.len() == w.n,
        mandatory_y@.len() == w.n,
        forall|x: int, y: int|
            0 <= x < w.n && 0 <= y < w.n ==> (#[trigger] w.spec_at(x, y)) <= WEIGHT_OFFSET,
    ensures
        r matches Some((sigma, score)) ==> {
            &&& is_permutation(sigma@, w.n as int)
            &&& score as int == matching_weight(*w, sigma@, w.n as int)
            &&& forall|i: int|
                0 <= i < w.n && dummy_x@[i] ==> !mandatory_y@[(#[trigger] sigma@[i]) as int]
            &&& forall|t: Seq<usize>|
                is_permutation(t, w.n as int) && (forall|i: int|
                    0 <= i < w.n && dummy_x@[i] ==> !mandatory_y@[(#[trigger] t[i]) as int])
                    ==> #[trigger] matching_weight(*w, t, w.n as int) <= score as int
        },
{
    let n = w.n;
    if n == 0 {
        let sigma: Vec<usize> = Vec::new();
        return Some((sigma, 0));
    }

    // Potentials and the column-to-row matching, 1-based with column 0 as the
    // staging spot of the row currently being placed.
    let mut u: Vec<i64> = vec![0i64; n + 1];
    let mut v: Vec<i64> = vec![0i64; n + 1];
    let mut p: Vec<usize> = vec![0usize; n + 1];
    let mut way: Vec<usize> = vec![0usize; n + 1];

    let mut i: usize = 1;
    while i <= n
        invariant
            1 <= i <= n + 1,
            n == w.n,
            0 < n <= MAX_SEATS,
            w.wf(),
            dummy_x@.len() == n,
            mandatory_y@.len() == n,
            forall|x: int, y: int|
                0 <= x < n && 0 <= y < n ==> (#[trigger] w.spec_at(x, y)) <= WEIGHT_OFFSET,
            u@.len() == n + 1,
            v@.len() == n + 1,
            p@.len() == n + 1,
            way@.len() == n + 1,
            forall|j: int| 0 <= j < n + 1 ==> ((#[trigger] p@[j]) as int) <= n,
            forall|j: int| 0 <= j < n + 1 ==> ((#[trigger] way@[j]) as int) <= n,
        decreases n + 1 - i,
    {
        p.set(0, i);
        let mut j0: usize = 0;
        let mut minv: Vec<i64> = vec![INF_COST; n + 1];
        let mut used: Vec<bool> = vec![false; n + 1];
        let mut steps: usize = 0;
        loop
            invariant
                n == w.n,
                0 < n <= MAX_SEATS,
                w.wf(),
                dummy_x@.len() == n,
                mandatory_y@.len() == n,
                forall|x: int, y: int|
                    0 <= x < n && 0 <= y < n ==> (#[trigger] w.spec_at(x, y)) <= WEIGHT_OFFSET,
                u@.len() == n + 1,
                v@.len() == n + 1,
                p@.len() == n + 1,
                way@.len() == n + 1,
                minv@.len() == n + 1,
                used@.len() == n + 1,
                j0 <= n,
                steps <= n + 1,
                forall|j: int| 0 <= j < n + 1 ==> ((#[trigger] p@[j]) as int) <= n,
                forall|j: int| 0 <= j < n + 1 ==> ((#[trigger] way@[j]) as int) <= n,
            decreases n + 1 - steps,
        {
            if steps > n {
                // The augmenting search exhausted every column without
                // reaching a free one.
                return None;
            }
            steps += 1;
            used.set(j0, true);
            let i0 = p[j0];
            if i0 == 0 || i0 > n {
                return None;
            }
            let mut delta: i64 = INF_COST;
            let mut j1: usize = 0;
            let mut found = false;
            let mut j: usize = 1;
            while j <= n
                invariant
                    1 <= j <= n + 1,
                    n == w.n,
                    n <= MAX_SEATS,
                    w.wf(),
                    dummy_x@.len() == n,
                    mandatory_y@.len() == n,
                    forall|x: int, y: int|
                        0 <= x < n && 0 <= y < n ==> (#[trigger] w.spec_at(x, y))
                            <= WEIGHT_OFFSET,
                    1 <= i0 <= n,
                    u@.len() == n + 1,
                    v@.len() == n + 1,
                    minv@.len() == n + 1,
                    used@.len() == n + 1,
                    way@.len() == n + 1,
                    j0 <= n,
                    j1 <= n,
                    forall|jj: int| 0 <= jj < n + 1 ==> ((#[trigger] way@[jj]) as int) <= n,
                decreases n + 1 - j,
            {
                if !used[j] {
                    let cost = edge_cost(w, dummy_x, mandatory_y, i0 - 1, j - 1);
                    let cur = match cost.checked_sub(u[i0]) {
                        Some(t) => match t.checked_sub(v[j]) {
                            Some(t2) => t2,
                            None => {
                                return None;
                            },
                        },
                        None => {
                            return None;
                        },
                    };
                    if cur < minv[j] {
                        minv.set(j, cur);
                        way.set(j, j0);
                    }
                    if minv[j] < delta {
                        delta = minv[j];
                        j1 = j;
                        found = true;
                    }
                }
                j += 1;
            }
            if !found {
                return None;
            }
            let mut j: usize = 0;
            while j <= n
                invariant
                    j <= n + 1,
                    n == w.n,
                    n <= MAX_SEATS,
                    u@.len() == n + 1,
                    v@.len() == n + 1,
                    minv@.len() == n + 1,
                    used@.len() == n + 1,
                    p@.len() == n + 1,
                    forall|jj: int| 0 <= jj < n + 1 ==> ((#[trigger] p@[jj]) as int) <= n,
                decreases n + 1 - j,
            {
                if used[j] {
                    let pj = p[j];
                    let nu = match u[pj].checked_add(delta) {
                        Some(t) => t,
                        None => {
                            return None;
                        },
                    };
                    u.set(pj, nu);
                    let nv = match v[j].checked_sub(delta) {
                        Some(t) => t,
                        None => {
                            return None;
                        },
                    };
                    v.set(j, nv);
                } else {
                    let nm = match minv[j].checked_sub(delta) {
                        Some(t) => t,
                        None => {
                            return None;
                        },
                    };
                    minv.set(j, nm);
                }
                j += 1;
            }
            j0 = j1;
            if p[j0] == 0 {
                break;
            }
        }
        // Augment: shift the matching along the found path.
        let mut steps2: usize = 0;
        loop
            invariant
                n == w.n,
                n <= MAX_SEATS,
                j0 <= n,
                steps2 <= n + 1,
                p@.len() == n + 1,
                way@.len() == n + 1,
                forall|j: int| 0 <= j < n + 1 ==> ((#[trigger] p@[j]) as int) <= n,
                forall|j: int| 0 <= j < n + 1 ==> ((#[trigger] way@[j]) as int) <= n,
            decreases n + 1 - steps2,
        {
            if steps2 > n {
                return None;
            }
            steps2 += 1;
            let j1 = way[j0];
            p.set(j0, p[j1]);
            j0 = j1;
            if j0 == 0 {
                break;
            }
        }
        i += 1;
    }

    // Certify the result: read the column-to-row matching into a row-to-column
    // mapping and check that it is a bijection.
    let mut sigma: Vec<usize> = vec![n; n];
    let mut j: usize = 1;
    while j <= n
        invariant
            1 <= j <= n + 1,
            n == w.n,
            n <= MAX_SEATS,
            sigma@.len() == n,
            p@.len() == n + 1,
            forall|jj: int| 0 <= jj < n + 1 ==> ((#[trigger] p@[jj]) as int) <= n,
        decreases n + 1 - j,
    {
        let r = p[j];
        if r == 0 {
            return None;
        }
        sigma.set(r - 1, j - 1);
        j += 1;
    }
    let mut seen: Vec<bool> = vec![false; n];
    let mut x: usize = 0;
    while x < n
        invariant
            x <= n,
            n == w.n,
            sigma@.len() == n,
            seen@.len() == n,
            forall|i1: int| 0 <= i1 < x ==> ((#[trigger] sigma@[i1]) as int) < n,
            forall|y: int|
                0 <= y < n ==> ((#[trigger] seen@[y]) <==> exists|i1: int|
                    0 <= i1 < x && sigma@[i1] == y),
            forall|i1: int, i2: int| 0 <= i1 < i2 < x ==> sigma@[i1] != sigma@[i2],
        decreases n - x,
    {
        let c = sigma[x];
        if c >= n {
            return None;
        }
        if seen[c] {
            return None;
        }
        seen.set(c, true);
        proof {
            assert forall|y: int|
                0 <= y < n implies ((#[trigger] seen@[y]) <==> exists|i1: int|
                0 <= i1 < x + 1 && sigma@[i1] == y) by {
                if y == c as int {
                    assert(sigma@[x as int] == y);
                } else {
                    if exists|i1: int| 0 <= i1 < x + 1 && sigma@[i1] == y {
                        let i1 = choose|i1: int| 0 <= i1 < x + 1 && sigma@[i1] == y;
                        assert(i1 < x);
                    }
                }
            }
        }
        x += 1;
    }

    // Certify that no dummy row sits in a mandatory column.
    let mut x: usize = 0;
    while x < n
        invariant
            x <= n,
            n == w.n,
            sigma@.len() == n,
            dummy_x@.len() == n,
            mandatory_y@.len() == n,
            forall|i1: int| 0 <= i1 < n ==> ((#[trigger] sigma@[i1]) as int) < n,
            forall|i1: int|
                0 <= i1 < x && dummy_x@[i1] ==> !mandatory_y@[(#[trigger] sigma@[i1]) as int],
        decreases n - x,
    {
        if dummy_x[x] && mandatory_y[sigma[x]] {
            return None;
        }
        x += 1;
    }

    // Sum the exact score from the matrix itself.
    let mut score: u32 = 0;
    let mut x: usize = 0;
    while x < n
        invariant
            x <= n,
            n == w.n,
            0 < n <= MAX_SEATS,
            w.wf(),
            sigma@.len() == n,
            forall|i1: int| 0 <= i1 < n ==> ((#[trigger] sigma@[i1]) as int) < n,
            forall|x2: int, y: int|
                0 <= x2 < n && 0 <= y < n ==> (#[trigger] w.spec_at(x2, y)) <= WEIGHT_OFFSET,
            score as int == matching_weight(*w, sigma@, x as int),
            score as int <= (x as int) * (WEIGHT_OFFSET as int),
        decreases n - x,
    {
        let entry = w.at(x, sigma[x]);
        proof {
            assert((x as int) * (WEIGHT_OFFSET as int) + (WEIGHT_OFFSET as int) == ((x + 1) as int)
                * (WEIGHT_OFFSET as int)) by (nonlinear_arith);
            assert((x as int) * (WEIGHT_OFFSET as int) <= (MAX_SEATS as int) * (
            WEIGHT_OFFSET as int)) by (nonlinear_arith)
                requires
                    0 <= x as int <= MAX_SEATS as int,
            ;
        }
        score = score + entry as u32;
        x += 1;
    }

    // Certify optimality: the final potentials must be dual feasible, and
    // every matched edge tight.  Then, by weak duality, no bijection that
    // also avoids the forbidden edges can cost less, hence none can weigh
    // more.
    let mut x: usize = 0;
    while x < n
        invariant
            x <= n,
            n == w.n,
            w.wf(),
            dummy_x@.len() == n,
            mandatory_y@.len() == n,
            forall|x2: int, y: int|
                0 <= x2 < n && 0 <= y < n ==> (#[trigger] w.spec_at(x2, y)) <= WEIGHT_OFFSET,
            u@.len() == n + 1,
            v@.len() == n + 1,
            forall|x2: int, y2: int|
                0 <= x2 < x && 0 <= y2 < n ==> #[trigger] spec_cost(*w, dummy_x@, mandatory_y@, x2, y2)
                    >= u@[x2 + 1] + v@[y2 + 1],
        decreases n - x,
    {
        let mut y: usize = 0;
        while y < n
            invariant
                y <= n,
                x < n,
                n == w.n,
                w.wf(),
                dummy_x@.len() == n,
                mandatory_y@.len() == n,
                forall|x2: int, y2: int|
                    0 <= x2 < n && 0 <= y2 < n ==> (#[trigger] w.spec_at(x2, y2))
                        <= WEIGHT_OFFSET,
                u@.len() == n + 1,
                v@.len() == n + 1,
                forall|x2: int, y2: int|
                    0 <= x2 < x && 0 <= y2 < n ==> #[trigger] spec_cost(*w, dummy_x@, mandatory_y@, x2, y2)
                        >= u@[x2 + 1] + v@[y2 + 1],
                forall|y2: int|
                    0 <= y2 < y ==> #[trigger] spec_cost(*w, dummy_x@, mandatory_y@, x as int, y2)
                        >= u@[x as int + 1] + v@[y2 + 1],
            decreases n - y,
        {
            let cst = edge_cost(w, dummy_x, mandatory_y, x, y);
            let lhs = match u[x + 1].checked_add(v[y + 1]) {
                Some(t) => t,
                None => {
                    return None;
                },
            };
            if cst < lhs {
                return None;
            }
            y += 1;
        }
        x += 1;
    }
    let mut x: usize = 0;
    while x < n
        invariant
            x <= n,
            n == w.n,
            w.wf(),
            sigma@.len() == n,
            dummy_x@.len() == n,
            mandatory_y@.len() == n,
            forall|x2: int, y2: int|
                0 <= x2 < n && 0 <= y2 < n ==> (#[trigger] w.spec_at(x2, y2)) <= WEIGHT_OFFSET,
            forall|i1: int| 0 <= i1 < n ==> ((#[trigger] sigma@[i1]) as int) < n,
            u@.len() == n + 1,
            v@.len() == n + 1,
            forall|x2: int|
                0 <= x2 < x ==> spec_cost(*w, dummy_x@, mandatory_y@, x2, (#[trigger] sigma@[
                x2]) as int) == u@[x2 + 1] + v@[sigma@[x2] as int + 1],
        decreases n - x,
    {
        let cst = edge_cost(w, dummy_x, mandatory_y, x, sigma[x]);
        let lhs = match u[x + 1].checked_add(v[sigma[x] + 1]) {
            Some(t) => t,
            None => {
                return None;
            },
        };
        if cst != lhs {
            return None;
        }
        x += 1;
    }
    proof {
        assert forall|t: Seq<usize>|
            is_permutation(t, n as int) && (forall|i: int|
                0 <= i < n && dummy_x@[i] ==> !mandatory_y@[(#[trigger] t[i]) as int])
            implies #[trigger] matching_weight(*w, t, n as int) <= score as int by {
            lemma_sum_cost_vs_potentials(*w, dummy_x@, mandatory_y@, u@, v@, t, n as int);
            lemma_sum_v_cols_permutation(v@, t, n as int);
            lemma_sum_v_cols_permutation(v@, sigma@, n as int);
            lemma_sum_cost_tight(*w, dummy_x@, mandatory_y@, u@, v@, sigma@, n as int);
            lemma_cost_weight_mirror(*w, dummy_x@, mandatory_y@, t, n as int);
            lemma_cost_weight_mirror(*w, dummy_x@, mandatory_y@, sigma@, n as int);
        }
    }
    Some((sigma, score))
}


/// The minimization cost the search works on: forbidden dummy-to-mandatory
/// edges cost the sentinel, every other edge the weight's distance from the
/// offset.
pub open spec fn spec_cost(
    w: Matrix,
    dummy: Seq<bool>,
    mandatory: Seq<bool>,
    x: int,
    y: int,
) -> int {
    if dummy[x] && mandatory[y] {
        FORBIDDEN_COST as int
    } else {
        (WEIGHT_OFFSET as int) - w.spec_at(x, y)
    }
}

/// The total cost of the edges picked by rows `0..k` of an assignment.
pub open spec fn sum_cost(
    w: Matrix,
    dummy: Seq<bool>,
    mandatory: Seq<bool>,
    t: Seq<usize>,
    k: int,
) -> int
    decreases k,
{
    if k <= 0 {
        0
    } else {
        sum_cost(w, dummy, mandatory, t, k - 1) + spec_cost(w, dummy, mandatory, k - 1, t[k - 1] as int)
    }
}

/// The sum of the first `k` row potentials (1-based storage).
pub open spec fn sum_u_range(u: Seq<i64>, k: int) -> int
    decreases k,
{
    if k <= 0 {
        0
    } else {
        sum_u_range(u, k - 1) + u[k]
    }
}

/// The sum of the column potentials picked by rows `0..k` of an assignment
/// (1-based storage).
pub open spec fn sum_v_cols(v: Seq<i64>, t: Seq<usize>, k: int) -> int
    decreases k,
{
    if k <= 0 {
        0
    } else {
        sum_v_cols(v, t, k - 1) + v[t[k - 1] as int + 1]
    }
}

/// The sum of the first `k` entries of a potential table.
pub open spec fn sum_v_range(v: Seq<i64>, k: int) -> int
    decreases k,
{
    if k <= 0 {
        0
    } else {
        sum_v_range(v, k - 1) + v[k - 1]
    }
}

/// A prefix cost sum only reads the first `k` entries of the assignment.
proof fn lemma_sum_v_cols_congruent(v: Seq<i64>, t1: Seq<usize>, t2: Seq<usize>, k: int)
    requires
        0 <= k <= t1.len(),
        k <= t2.len(),
        forall|i: int| 0 <= i < k ==> t1[i] == t2[i],
    ensures
        sum_v_cols(v, t1, k) == sum_v_cols(v, t2, k),
    decreases k,
{
    if k > 0 {
        lemma_sum_v_cols_congruent(v, t1, t2, k - 1);
    }
}

/// Taking one entry out of the sum.
proof fn lemma_sum_v_cols_remove(v: Seq<i64>, t: Seq<usize>, i0: int, k: int)
    requires
        0 <= i0 < k <= t.len(),
    ensures
        sum_v_cols(v, t, k) == sum_v_cols(v, t.remove(i0), k - 1) + v[t[i0] as int + 1],
    decreases k,
{
    if i0 == k - 1 {
        lemma_sum_v_cols_congruent(v, t, t.remove(i0), k - 1);
    } else {
        lemma_sum_v_cols_remove(v, t, i0, k - 1);
        assert(t.remove(i0)[k - 2] == t[k - 1]);
    }
}

/// Pairwise distinct entries below a bound cannot outnumber the bound.
proof fn lemma_injective_len_le(t: Seq<usize>, m: int)
    requires
        forall|i: int, j: int| 0 <= i < j < t.len() ==> t[i] != t[j],
        forall|i: int| 0 <= i < t.len() ==> (#[trigger] t[i] as int) < m,
        0 <= m,
    ensures
        t.len() <= m,
    decreases m,
{
    if m == 0 {
        if t.len() > 0 {
            assert((t[0] as int) < 0);
        }
    } else {
        if exists|i: int| 0 <= i < t.len() && t[i] as int == m - 1 {
            let i0 = choose|i: int| 0 <= i < t.len() && t[i] as int == m - 1;
            let t2 = t.remove(i0);
            assert forall|i: int| 0 <= i < t2.len() implies (#[trigger] t2[i] as int) < m - 1 by {
                if i < i0 {
                    assert(t2[i] == t[i]);
                } else {
                    assert(t2[i] == t[i + 1]);
                }
            }
            assert forall|i: int, j: int| 0 <= i < j < t2.len() implies t2[i] != t2[j] by {
                if j < i0 {
                } else if i < i0 {
                    assert(t2[j] == t[j + 1]);
                } else {
                    assert(t2[i] == t[i + 1] && t2[j] == t[j + 1]);
                }
            }
            lemma_injective_len_le(t2, m - 1);
        } else {
            assert forall|i: int| 0 <= i < t.len() implies (#[trigger] t[i] as int) < m - 1 by {
                assert(t[i] as int != m - 1);
            }
            lemma_injective_len_le(t, m - 1);
        }
    }
}

/// A bijection on `0..n` takes every value below `n` somewhere; in
/// particular the last one.
proof fn lemma_permutation_hits_top(t: Seq<usize>, n: int)
    requires
        is_permutation(t, n),
        n > 0,
    ensures
        exists|i: int| 0 <= i < n && t[i] as int == n - 1,
{
    if !(exists|i: int| 0 <= i < n && t[i] as int == n - 1) {
        assert forall|i: int| 0 <= i < t.len() implies (#[trigger] t[i] as int) < n - 1 by {
            assert(t[i] as int != n - 1);
        }
        lemma_injective_len_le(t, n - 1);
    }
}

/// Summing the column potentials along any bijection gives the same total as
/// summing them in order.
proof fn lemma_sum_v_cols_permutation(v: Seq<i64>, t: Seq<usize>, n: int)
    requires
        is_permutation(t, n),
        n < v.len(),
    ensures
        sum_v_cols(v, t, n) == sum_v_range(v.subrange(1, n + 1), n),
    decreases n,
{
    if n > 0 {
        lemma_permutation_hits_top(t, n);
        let i0 = choose|i: int| 0 <= i < n && t[i] as int == n - 1;
        lemma_sum_v_cols_remove(v, t, i0, n);
        let t2 = t.remove(i0);
        assert forall|i: int| 0 <= i < n - 1 implies ((#[trigger] t2[i]) as int) < n - 1 by {
            if i < i0 {
                assert(t2[i] == t[i]);
                assert(t[i] != t[i0]);
            } else {
                assert(t2[i] == t[i + 1]);
                assert(t[i + 1] != t[i0]);
            }
        }
        assert forall|i: int, j: int| 0 <= i < j < n - 1 implies t2[i] != t2[j] by {
            if j < i0 {
            } else if i < i0 {
                assert(t2[j] == t[j + 1]);
            } else {
                assert(t2[i] == t[i + 1] && t2[j] == t[j + 1]);
            }
        }
        assert(is_permutation(t2, n - 1));
        lemma_sum_v_cols_permutation(v, t2, n - 1);
        lemma_sum_v_range_congruent(v.subrange(1, n), v.subrange(1, n + 1), n - 1);
        assert(v.subrange(1, n + 1)[n - 1] == v[n]);
    }
}

/// A prefix range sum only reads the entries below `k`.
proof fn lemma_sum_v_range_congruent(v1: Seq<i64>, v2: Seq<i64>, k: int)
    requires
        0 <= k <= v1.len(),
        k <= v2.len(),
        forall|i: int| 0 <= i < k ==> v1[i] == v2[i],
    ensures
        sum_v_range(v1, k) == sum_v_range(v2, k),
    decreases k,
{
    if k > 0 {
        lemma_sum_v_range_congruent(v1, v2, k - 1);
    }
}

/// Dual feasibility bounds any assignment's cost from below by the potential
/// totals; tight edges make it an equality.
proof fn lemma_sum_cost_vs_potentials(
    w: Matrix,
    dummy: Seq<bool>,
    mandatory: Seq<bool>,
    u: Seq<i64>,
    v: Seq<i64>,
    t: Seq<usize>,
    k: int,
)
    requires
        0 <= k <= t.len(),
        forall|i: int|
            0 <= i < k ==> spec_cost(w, dummy, mandatory, i, (#[trigger] t[i]) as int) >= u[i + 1]
                + v[t[i] as int + 1],
    ensures
        sum_cost(w, dummy, mandatory, t, k) >= sum_u_range(u, k) + sum_v_cols(v, t, k),
    decreases k,
{
    if k > 0 {
        lemma_sum_cost_vs_potentials(w, dummy, mandatory, u, v, t, k - 1);
    }
}

/// On tight edges the cost equals the potential totals exactly.
proof fn lemma_sum_cost_tight(
    w: Matrix,
    dummy: Seq<bool>,
    mandatory: Seq<bool>,
    u: Seq<i64>,
    v: Seq<i64>,
    t: Seq<usize>,
    k: int,
)
    requires
        0 <= k <= t.len(),
        forall|i: int|
            0 <= i < k ==> spec_cost(w, dummy, mandatory, i, (#[trigger] t[i]) as int) == u[i + 1]
                + v[t[i] as int + 1],
    ensures
        sum_cost(w, dummy, mandatory, t, k) == sum_u_range(u, k) + sum_v_cols(v, t, k),
    decreases k,
{
    if k > 0 {
        lemma_sum_cost_tight(w, dummy, mandatory, u, v, t, k - 1);
    }
}

/// On an assignment that avoids every forbidden edge, total cost and total
/// weight mirror each other around `k` times the offset.
proof fn lemma_cost_weight_mirror(
    w: Matrix,
    dummy: Seq<bool>,
    mandatory: Seq<bool>,
    t: Seq<usize>,
    k: int,
)
    requires
        0 <= k <= t.len(),
        forall|i: int|
            0 <= i < k ==> !(dummy[i] && mandatory[(#[trigger] t[i]) as int]),
    ensures
        sum_cost(w, dummy, mandatory, t, k) == k * (WEIGHT_OFFSET as int) - matching_weight(
            w,
            t,
            k,
        ),
    decreases k,
{
    if k > 0 {
        lemma_cost_weight_mirror(w, dummy, mandatory, t, k - 1);
        assert(k * (WEIGHT_OFFSET as int) == (k - 1) * (WEIGHT_OFFSET as int) + (
        WEIGHT_OFFSET as int)) by (nonlinear_arith);
    }
}

} // verus!
