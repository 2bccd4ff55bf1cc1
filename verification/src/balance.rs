use vstd::prelude::*;

use crate::color_resolver::{COLORS, FACES, PER_COLOR};

verus! {

/// A table of costs: `cost[f][c]` is the price of giving face `f` color `c`.
pub type CostTable = [[u64; 6]; 54];

/// The price of giving face `f` color `c`.
pub open spec fn table_entry(cost: CostTable, f: int, c: int) -> int {
    cost[f][c] as int
}

/// Every entry of the table lies in `0 ..= bound`.
pub open spec fn table_bounded(cost: CostTable, bound: int) -> bool {
    forall|f: int, c: int| 0 <= f < FACES && 0 <= c < COLORS ==> #[trigger] table_entry(cost, f, c) <= bound
}

/// Every element of `a` names one of the six colors.
pub open spec fn colors_in_range(a: Seq<usize>) -> bool {
    forall|i: int| 0 <= i < a.len() ==> #[trigger] a[i] < COLORS
}

/// Number of indices `i < n` with `a[i] == c`.
pub open spec fn count_prefix(a: Seq<usize>, c: int, n: int) -> nat
    decreases n,
{
    if n <= 0 {
        0
    } else {
        count_prefix(a, c, n - 1) + if a[n - 1] == c { 1nat } else { 0nat }
    }
}

/// How many faces of `a` carry color `c`.
pub open spec fn color_count(a: Seq<usize>, c: int) -> nat {
    count_prefix(a, c, a.len() as int)
}

/// `a` gives each of the 54 faces one of the six colors, each color exactly nine times.
pub open spec fn is_balanced(a: Seq<usize>) -> bool {
    &&& a.len() == FACES
    &&& colors_in_range(a)
    &&& forall|c: int| 0 <= c < COLORS ==> #[trigger] color_count(a, c) == PER_COLOR
}

/// `count` holds the number of faces of `a` that carry each color.
pub open spec fn counts_match(a: Seq<usize>, count: Seq<usize>) -> bool {
    &&& count.len() == COLORS
    &&& forall|c: int| 0 <= c < COLORS ==> #[trigger] count[c] == color_count(a, c)
}

/// Total price of the first `n` faces of `a` under the table.
pub open spec fn table_cost_prefix(cost: CostTable, a: Seq<usize>, n: int) -> int
    decreases n,
{
    if n <= 0 {
        0
    } else {
        table_cost_prefix(cost, a, n - 1) + table_entry(cost, n - 1, a[n - 1] as int)
    }
}

/// Total price of assignment `a` under the table.
pub open spec fn table_cost(cost: CostTable, a: Seq<usize>) -> int {
    table_cost_prefix(cost, a, FACES as int)
}

/// How far a count exceeds the quota.
pub open spec fn excess_of(n: usize) -> int {
    if n > PER_COLOR { n - PER_COLOR } else { 0 }
}

/// Total number of faces that must still leave over-quota colors.
pub open spec fn total_excess(count: Seq<usize>) -> int {
    excess_of(count[0]) + excess_of(count[1]) + excess_of(count[2]) + excess_of(count[3])
        + excess_of(count[4]) + excess_of(count[5])
}

/// Each face of `a` carries a color whose reduced price `cost - p` is least among all colors.
pub open spec fn reduced_optimal(cost: CostTable, a: Seq<usize>, p: Seq<i128>) -> bool {
    forall|f: int, c: int|
        0 <= f < FACES && 0 <= c < COLORS ==> table_entry(cost, f, a[f] as int) - p[a[f] as int]
            <= #[trigger] table_entry(cost, f, c) - p[c]
}

/// The reduced price of moving face `f` from its current color to color `c`.
pub open spec fn reduced_step(cost: CostTable, a: Seq<usize>, p: Seq<i128>, f: int, c: int) -> int {
    (table_entry(cost, f, c) - p[c]) - (table_entry(cost, f, a[f] as int) - p[a[f] as int])
}

/// Potentials are non-negative, and zero on every color that holds more faces than its quota.
pub open spec fn potentials_ok(count: Seq<usize>, p: Seq<i128>) -> bool {
    &&& p.len() == COLORS
    &&& forall|c: int| 0 <= c < COLORS ==> 0 <= #[trigger] p[c]
    &&& forall|c: int| 0 <= c < COLORS && count[c] > PER_COLOR ==> #[trigger] p[c] == 0
    &&& forall|c: int, d: int|
        0 <= c < COLORS && 0 <= d < COLORS && count[c] < PER_COLOR && count[d] < PER_COLOR ==> #[trigger] p[c]
            == #[trigger] p[d]
}

/// `after` differs from `before` in at least one face, and the faces that changed form one
/// chain: no two of them left the same color, and no two of them arrived at the same color.
pub open spec fn moves_along_chain(before: Seq<usize>, after: Seq<usize>) -> bool {
    &&& exists|f: int| 0 <= f < FACES && #[trigger] after[f] != before[f]
    &&& forall|f: int, g: int|
        0 <= f < FACES && 0 <= g < FACES && f != g && #[trigger] after[f] != before[f] && #[trigger] after[g]
            != before[g] ==> before[f] != before[g] && after[f] != after[g]
}

/// The counts of `a`, as integers.
pub open spec fn counts_of(a: Seq<usize>) -> Seq<int> {
    Seq::new(COLORS as nat, |c: int| color_count(a, c) as int)
}

/// `after` is `before` with one face taken from the over-quota color `s` and given to the
/// under-quota color `t`.
pub open spec fn is_unit_move(before: Seq<usize>, after: Seq<int>, s: int, t: int) -> bool {
    &&& 0 <= s < COLORS
    &&& 0 <= t < COLORS
    &&& before[s] > PER_COLOR
    &&& before[t] < PER_COLOR
    &&& forall|c: int|
        0 <= c < COLORS ==> #[trigger] after[c] == before[c] + (if c == t { 1int } else { 0int }) - (if c
            == s { 1int } else { 0int })
}

/// The counts `after` arise from `before` by one move from an over-quota to an under-quota color.
pub open spec fn one_face_moved(before: Seq<usize>, after: Seq<int>) -> bool {
    exists|s: int, t: int| is_unit_move(before, after, s, t)
}

/// The sum over the first `n` faces of the potential of their color.
pub open spec fn potential_prefix(a: Seq<usize>, p: Seq<i128>, n: int) -> int
    decreases n,
{
    if n <= 0 {
        0
    } else {
        potential_prefix(a, p, n - 1) + p[a[n - 1] as int]
    }
}

pub proof fn lemma_count_prefix_bounds(a: Seq<usize>, c: int, n: int)
    requires
        0 <= n <= a.len(),
    ensures
        count_prefix(a, c, n) <= n,
    decreases n,
{
    if n > 0 {
        lemma_count_prefix_bounds(a, c, n - 1);
    }
}

/// Counting is unchanged by entries beyond the prefix.
pub proof fn lemma_count_prefix_agree(a: Seq<usize>, b: Seq<usize>, c: int, n: int)
    requires
        0 <= n <= a.len(),
        n <= b.len(),
        forall|i: int| 0 <= i < n ==> a[i] == b[i],
    ensures
        count_prefix(a, c, n) == count_prefix(b, c, n),
    decreases n,
{
    if n > 0 {
        lemma_count_prefix_agree(a, b, c, n - 1);
    }
}

/// Changing one entry moves one unit of count from the old color to the new one.
pub proof fn lemma_count_update(a: Seq<usize>, i: int, v: usize, c: int, n: int)
    requires
        0 <= i < a.len(),
        0 <= n <= a.len(),
    ensures
        count_prefix(a.update(i, v), c, n) + (if i < n && a[i] == c { 1int } else { 0int })
            == count_prefix(a, c, n) + (if i < n && v == c { 1int } else { 0int }),
    decreases n,
{
    if n > 0 {
        lemma_count_update(a, i, v, c, n - 1);
    }
}

/// A color that occurs in the prefix has positive count there.
pub proof fn lemma_count_positive(a: Seq<usize>, i: int, n: int)
    requires
        0 <= i < n <= a.len(),
    ensures
        count_prefix(a, a[i] as int, n) >= 1,
    decreases n,
{
    if i < n - 1 {
        lemma_count_positive(a, i, n - 1);
    }
}

/// A color with positive count occurs somewhere in the prefix.
pub proof fn lemma_count_witness(a: Seq<usize>, c: int, n: int) -> (i: int)
    requires
        0 <= n <= a.len(),
        count_prefix(a, c, n) > 0,
    ensures
        0 <= i < n,
        a[i] == c,
    decreases n,
{
    if a[n - 1] == c {
        n - 1
    } else {
        lemma_count_witness(a, c, n - 1)
    }
}

/// The six counts of a prefix add up to its length.
pub proof fn lemma_counts_sum(a: Seq<usize>, n: int)
    requires
        0 <= n <= a.len(),
        colors_in_range(a),
    ensures
        count_prefix(a, 0, n) + count_prefix(a, 1, n) + count_prefix(a, 2, n) + count_prefix(a, 3, n)
            + count_prefix(a, 4, n) + count_prefix(a, 5, n) == n,
    decreases n,
{
    if n > 0 {
        lemma_counts_sum(a, n - 1);
        assert(a[n - 1] < COLORS);
    }
}

/// The potential sum of a prefix equals the sum over colors of count times potential.
pub proof fn lemma_potential_by_counts(a: Seq<usize>, p: Seq<i128>, n: int)
    requires
        0 <= n <= a.len(),
        colors_in_range(a),
        p.len() == COLORS,
    ensures
        potential_prefix(a, p, n) == count_prefix(a, 0, n) * p[0] + count_prefix(a, 1, n) * p[1]
            + count_prefix(a, 2, n) * p[2] + count_prefix(a, 3, n) * p[3] + count_prefix(a, 4, n)
            * p[4] + count_prefix(a, 5, n) * p[5],
    decreases n,
{
    if n > 0 {
        lemma_potential_by_counts(a, p, n - 1);
        let x = a[n - 1];
        assert(x < COLORS);
        let k0 = count_prefix(a, 0, n - 1) as int;
        let k1 = count_prefix(a, 1, n - 1) as int;
        let k2 = count_prefix(a, 2, n - 1) as int;
        let k3 = count_prefix(a, 3, n - 1) as int;
        let k4 = count_prefix(a, 4, n - 1) as int;
        let k5 = count_prefix(a, 5, n - 1) as int;
        let (p0, p1, p2, p3, p4, p5) = (
            p[0] as int,
            p[1] as int,
            p[2] as int,
            p[3] as int,
            p[4] as int,
            p[5] as int,
        );
        lemma_count_step_times(a, p, n, 0);
        lemma_count_step_times(a, p, n, 1);
        lemma_count_step_times(a, p, n, 2);
        lemma_count_step_times(a, p, n, 3);
        lemma_count_step_times(a, p, n, 4);
        lemma_count_step_times(a, p, n, 5);
        assert(potential_prefix(a, p, n) == potential_prefix(a, p, n - 1) + p[x as int]);
        assert(potential_prefix(a, p, n - 1) == k0 * p0 + k1 * p1 + k2 * p2 + k3 * p3 + k4 * p4 + k5 * p5);
        let s0 = count_prefix(a, 0, n) * p[0];
        let s1 = count_prefix(a, 1, n) * p[1];
        let s2 = count_prefix(a, 2, n) * p[2];
        let s3 = count_prefix(a, 3, n) * p[3];
        let s4 = count_prefix(a, 4, n) * p[4];
        let s5 = count_prefix(a, 5, n) * p[5];
        assert(s0 + s1 + s2 + s3 + s4 + s5 == k0 * p0 + k1 * p1 + k2 * p2 + k3 * p3 + k4 * p4 + k5 * p5 + p[x as int]);
    } else {
        assert(count_prefix(a, 0, n) == 0 && count_prefix(a, 1, n) == 0 && count_prefix(a, 2, n) == 0);
        assert(count_prefix(a, 3, n) == 0 && count_prefix(a, 4, n) == 0 && count_prefix(a, 5, n) == 0);
    }
}

proof fn lemma_count_step_times(a: Seq<usize>, p: Seq<i128>, n: int, c: int)
    requires
        0 < n <= a.len(),
    ensures
        count_prefix(a, c, n) * p[c] == count_prefix(a, c, n - 1) * p[c] + if a[n - 1] == c {
            p[c] as int
        } else {
            0int
        },
{
    let k = count_prefix(a, c, n - 1) as int;
    let q = p[c] as int;
    assert((k + 1) * q == k * q + q) by (nonlinear_arith);
}

proof fn lemma_shifted_product(ky: int, q: int, up: bool, down: bool)
    ensures
        (ky + (if up { 1int } else { 0int }) - (if down { 1int } else { 0int })) * q == ky * q + (if up {
            q
        } else {
            0int
        }) - (if down {
            q
        } else {
            0int
        }),
{
    if up && !down {
        assert((ky + 1) * q == ky * q + q) by (nonlinear_arith);
    } else if down && !up {
        assert((ky - 1) * q == ky * q - q) by (nonlinear_arith);
    }
}

/// When one unit of count moves from color `v` to color `u`, the potential sum moves by
/// `p[u] - p[v]`.
pub proof fn lemma_potential_shift(x: Seq<usize>, y: Seq<usize>, p: Seq<i128>, u: int, v: int)
    requires
        x.len() == FACES,
        y.len() == FACES,
        colors_in_range(x),
        colors_in_range(y),
        p.len() == COLORS,
        0 <= u < COLORS,
        0 <= v < COLORS,
        forall|c: int|
            0 <= c < COLORS ==> #[trigger] color_count(x, c) == color_count(y, c) + (if c == u { 1int } else {
                0int
            }) - (if c == v { 1int } else { 0int }),
    ensures
        potential_prefix(x, p, FACES as int) == potential_prefix(y, p, FACES as int) + p[u] - p[v],
{
    lemma_potential_by_counts(x, p, FACES as int);
    lemma_potential_by_counts(y, p, FACES as int);
    assert(color_count(x, 0) == color_count(y, 0) + (if 0 == u { 1int } else { 0int }) - (if 0 == v { 1int } else { 0int }));
    assert(color_count(x, 1) == color_count(y, 1) + (if 1 == u { 1int } else { 0int }) - (if 1 == v { 1int } else { 0int }));
    assert(color_count(x, 2) == color_count(y, 2) + (if 2 == u { 1int } else { 0int }) - (if 2 == v { 1int } else { 0int }));
    assert(color_count(x, 3) == color_count(y, 3) + (if 3 == u { 1int } else { 0int }) - (if 3 == v { 1int } else { 0int }));
    assert(color_count(x, 4) == color_count(y, 4) + (if 4 == u { 1int } else { 0int }) - (if 4 == v { 1int } else { 0int }));
    assert(color_count(x, 5) == color_count(y, 5) + (if 5 == u { 1int } else { 0int }) - (if 5 == v { 1int } else { 0int }));
    lemma_shifted_product(color_count(y, 0) as int, p[0] as int, 0 == u, 0 == v);
    lemma_shifted_product(color_count(y, 1) as int, p[1] as int, 1 == u, 1 == v);
    lemma_shifted_product(color_count(y, 2) as int, p[2] as int, 2 == u, 2 == v);
    lemma_shifted_product(color_count(y, 3) as int, p[3] as int, 3 == u, 3 == v);
    lemma_shifted_product(color_count(y, 4) as int, p[4] as int, 4 == u, 4 == v);
    lemma_shifted_product(color_count(y, 5) as int, p[5] as int, 5 == u, 5 == v);
    if u == 0 {} else if u == 1 {} else if u == 2 {} else if u == 3 {} else if u == 4 {} else {}
    if v == 0 {} else if v == 1 {} else if v == 2 {} else if v == 3 {} else if v == 4 {} else {}
}

/// A cheapest step: if `a` keeps every face on a color of least reduced price, and arises from
/// counts `count0` by a unit move from `s` to `t`, then it costs no more than any assignment
/// that arises from `count0` by a unit move from `s2` to `t2`, provided the potentials agree on
/// the two sources and the two sinks.
pub proof fn lemma_step_cheapest(
    cost: CostTable,
    a0: Seq<usize>,
    a: Seq<usize>,
    b: Seq<usize>,
    p: Seq<i128>,
    count0: Seq<usize>,
    s: int,
    t: int,
    s2: int,
    t2: int,
)
    requires
        a0.len() == FACES,
        a.len() == FACES,
        b.len() == FACES,
        colors_in_range(a0),
        colors_in_range(a),
        colors_in_range(b),
        p.len() == COLORS,
        reduced_optimal(cost, a, p),
        counts_match(a0, count0),
        is_unit_move(count0, counts_of(a), s, t),
        is_unit_move(count0, counts_of(b), s2, t2),
        p[s] == p[s2],
        p[t] == p[t2],
    ensures
        table_cost(cost, a) <= table_cost(cost, b),
{
    assert forall|c: int| 0 <= c < COLORS implies #[trigger] color_count(a, c) == color_count(a0, c) + (if c
        == t { 1int } else { 0int }) - (if c == s { 1int } else { 0int }) by {
        assert(counts_of(a)[c] == color_count(a, c));
    }
    assert forall|c: int| 0 <= c < COLORS implies #[trigger] color_count(b, c) == color_count(a0, c) + (if c
        == t2 { 1int } else { 0int }) - (if c == s2 { 1int } else { 0int }) by {
        assert(counts_of(b)[c] == color_count(b, c));
    }
    lemma_potential_shift(a, a0, p, t, s);
    lemma_potential_shift(b, a0, p, t2, s2);
    lemma_reduced_prefix_le(cost, a, b, p, FACES as int);
}

/// Termwise comparison of reduced prices adds up over a prefix.
proof fn lemma_reduced_prefix_le(cost: CostTable, a: Seq<usize>, b: Seq<usize>, p: Seq<i128>, n: int)
    requires
        0 <= n <= FACES,
        a.len() == FACES,
        b.len() == FACES,
        colors_in_range(b),
        reduced_optimal(cost, a, p),
    ensures
        table_cost_prefix(cost, a, n) - potential_prefix(a, p, n) <= table_cost_prefix(cost, b, n)
            - potential_prefix(b, p, n),
    decreases n,
{
    if n > 0 {
        lemma_reduced_prefix_le(cost, a, b, p, n - 1);
        let c = b[n - 1] as int;
        assert(c < COLORS);
        assert(table_entry(cost, n - 1, a[n - 1] as int) - p[a[n - 1] as int] <= table_entry(
            cost,
            n - 1,
            c,
        ) - p[c]);
    }
}

/// Optimality certificate: a balanced assignment in which every face carries a color of least
/// reduced price, for some potentials, costs no more than any other balanced assignment.
pub proof fn lemma_potentials_certify_optimal(
    cost: CostTable,
    a: Seq<usize>,
    b: Seq<usize>,
    p: Seq<i128>,
)
    requires
        is_balanced(a),
        is_balanced(b),
        p.len() == COLORS,
        reduced_optimal(cost, a, p),
    ensures
        table_cost(cost, a) <= table_cost(cost, b),
{
    lemma_reduced_prefix_le(cost, a, b, p, FACES as int);
    lemma_potential_by_counts(a, p, FACES as int);
    lemma_potential_by_counts(b, p, FACES as int);
    assert(color_count(a, 0) == PER_COLOR && color_count(b, 0) == PER_COLOR);
    assert(color_count(a, 1) == PER_COLOR && color_count(b, 1) == PER_COLOR);
    assert(color_count(a, 2) == PER_COLOR && color_count(b, 2) == PER_COLOR);
    assert(color_count(a, 3) == PER_COLOR && color_count(b, 3) == PER_COLOR);
    assert(color_count(a, 4) == PER_COLOR && color_count(b, 4) == PER_COLOR);
    assert(color_count(a, 5) == PER_COLOR && color_count(b, 5) == PER_COLOR);
}

} // verus!
