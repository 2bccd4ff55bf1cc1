use vstd::prelude::*;

use crate::balance::{self, CostTable};

verus! {

/// One RGB sample as returned by the color sensor.
#[derive(Clone, Copy, Debug)]
pub struct Rgb {
    pub r: u16,
    pub g: u16,
    pub b: u16,
}

/// Reference average for one cube color.
/// The order in which the references are passed becomes the color index 0..6 in the output.
#[derive(Clone, Copy, Debug)]
pub struct ColorRef {
    pub r: u16,
    pub g: u16,
    pub b: u16,
}

/// Number of faces on a Rubik's cube.
pub const FACES: usize = 54;

/// Number of distinct colors.
pub const COLORS: usize = 6;

/// Required faces per color.
pub const PER_COLOR: usize = 9;

/// Squared Euclidean distance between a sample and a reference.
pub open spec fn spec_sq_dist(sample: Rgb, reference: ColorRef) -> int {
    let dr = sample.r - reference.r;
    let dg = sample.g - reference.g;
    let db = sample.b - reference.b;
    dr * dr + dg * dg + db * db
}

/// The largest value that `spec_sq_dist` can take: three times 65535 squared.
pub open spec fn max_sq_dist() -> int {
    3int * 65535 * 65535
}

pub proof fn lemma_sq_dist_bounds(sample: Rgb, reference: ColorRef)
    ensures
        0 <= (sample.r - reference.r) * (sample.r - reference.r) <= 65535 * 65535,
        0 <= (sample.g - reference.g) * (sample.g - reference.g) <= 65535 * 65535,
        0 <= (sample.b - reference.b) * (sample.b - reference.b) <= 65535 * 65535,
        0 <= spec_sq_dist(sample, reference) <= max_sq_dist(),
{
    let dr = sample.r - reference.r;
    let dg = sample.g - reference.g;
    let db = sample.b - reference.b;
    assert(0 <= dr * dr <= 65535 * 65535) by (nonlinear_arith)
        requires -65535 <= dr <= 65535;
    assert(0 <= dg * dg <= 65535 * 65535) by (nonlinear_arith)
        requires -65535 <= dg <= 65535;
    assert(0 <= db * db <= 65535 * 65535) by (nonlinear_arith)
        requires -65535 <= db <= 65535;
}

/// The square of the difference of two channel values.
pub open spec fn channel_sq(a: u16, b: u16) -> int {
    (a - b) * (a - b)
}

/// The squared distance is the sum, over the three channels, of the squared difference.
pub proof fn lemma_sq_dist_sums_channels(sample: Rgb, reference: ColorRef)
    ensures
        spec_sq_dist(sample, reference) == channel_sq(sample.r, reference.r) + channel_sq(sample.g, reference.g)
            + channel_sq(sample.b, reference.b),
{
}

/// The squared distance treats the three channels alike: rotating or exchanging the channels
/// of both the sample and the reference leaves it unchanged.
pub proof fn lemma_sq_dist_channel_symmetry(sample: Rgb, reference: ColorRef)
    ensures
        spec_sq_dist(Rgb { r: sample.g, g: sample.b, b: sample.r }, ColorRef { r: reference.g, g: reference.b, b: reference.r })
            == spec_sq_dist(sample, reference),
        spec_sq_dist(Rgb { r: sample.g, g: sample.r, b: sample.b }, ColorRef { r: reference.g, g: reference.r, b: reference.b })
            == spec_sq_dist(sample, reference),
{
}

/// The squared distance is zero exactly when the sample equals the reference in every channel,
/// and it is never less than the squared difference in any one channel.
pub proof fn lemma_sq_dist_zero_and_channels(sample: Rgb, reference: ColorRef)
    ensures
        spec_sq_dist(sample, reference) == 0 <==> (sample.r == reference.r && sample.g == reference.g && sample.b
            == reference.b),
        spec_sq_dist(sample, reference) >= channel_sq(sample.r, reference.r),
        spec_sq_dist(sample, reference) >= channel_sq(sample.g, reference.g),
        spec_sq_dist(sample, reference) >= channel_sq(sample.b, reference.b),
{
    let dr = sample.r - reference.r;
    let dg = sample.g - reference.g;
    let db = sample.b - reference.b;
    assert(dr * dr >= 0 && dg * dg >= 0 && db * db >= 0) by (nonlinear_arith);
    assert(dr * dr == 0 <==> dr == 0) by (nonlinear_arith);
    assert(dg * dg == 0 <==> dg == 0) by (nonlinear_arith);
    assert(db * db == 0 <==> db == 0) by (nonlinear_arith);
}

/// Squared Euclidean distance between a sensor reading and a reference,
/// computed entirely in integers.
pub fn sq_dist(sample: Rgb, reference: ColorRef) -> (d: u64)
    ensures
        d == spec_sq_dist(sample, reference),
        d == (sample.r - reference.r) * (sample.r - reference.r) + (sample.g - reference.g) * (sample.g
            - reference.g) + (sample.b - reference.b) * (sample.b - reference.b),
{
    let dr = (sample.r as i64) - (reference.r as i64);
    let dg = (sample.g as i64) - (reference.g as i64);
    let db = (sample.b as i64) - (reference.b as i64);
    proof {
        lemma_sq_dist_bounds(sample, reference);
    }
    (dr * dr + dg * dg + db * db) as u64
}


/// Marker for "no color" and "no face" in the search tables.
const NONE: usize = usize::MAX;

/// Bound on one reduced step when all potentials lie in `0 ..= max_sq_dist()`.
#[verifier::inline]
spec fn step_bound() -> int {
    25769017350
}

/// Number of `true` entries among the six flags.
spec fn num_true(s: Seq<bool>) -> int {
    (if s[0] { 1int } else { 0int }) + (if s[1] { 1int } else { 0int }) + (if s[2] { 1int } else { 0int })
        + (if s[3] { 1int } else { 0int }) + (if s[4] { 1int } else { 0int }) + (if s[5] { 1int } else { 0int })
}

/// The weight of moving face `f` from its color to color `c` in the search: its reduced step,
/// or zero where that is negative. When every face already sits on a color of least reduced
/// price, no reduced step is negative and the weight is the reduced step itself.
spec fn step_weight(cost: CostTable, a: Seq<usize>, p: Seq<i128>, f: int, c: int) -> int {
    let w = balance::reduced_step(cost, a, p, f, c);
    if w < 0 {
        0
    } else {
        w
    }
}

/// The state of a shortest-path search over the colors, started from every over-quota color
/// at once. The weight of moving face `f` from its color to color `c` is its step weight.
struct ColorSearch {
    dist: [i128; 6],
    reached: [bool; 6],
    settled: [bool; 6],
    pred: [usize; 6],
    pface: [usize; 6],
    nsettled: usize,
    rank: Ghost<Seq<int>>,
}

/// Color `c` was reached through face `pface[c]`, taken from the settled color `pred[c]`,
/// along a tight step.
spec fn tree_edge_ok(cost: CostTable, a: Seq<usize>, p: Seq<i128>, s: ColorSearch, c: int) -> bool {
    &&& s.pred[c] < COLORS
    &&& s.pface[c] < FACES
    &&& s.settled[s.pred[c] as int]
    &&& a[s.pface[c] as int] == s.pred[c]
    &&& s.dist[c] == s.dist[s.pred[c] as int] + step_weight(cost, a, p, s.pface[c] as int, c)
}

/// Everything that holds of the search between two settlements, except the steps out of the
/// color `skip` (use `COLORS` to skip none).
spec fn search_core(
    cost: CostTable,
    a: Seq<usize>,
    count: Seq<usize>,
    p: Seq<i128>,
    s: ColorSearch,
    skip: int,
) -> bool {
    &&& s.rank@.len() == COLORS
    &&& 0 <= s.nsettled <= COLORS
    &&& s.nsettled == num_true(s.settled@)
    &&& forall|c: int| 0 <= c < COLORS ==> 0 <= #[trigger] p[c] <= max_sq_dist()
    &&& forall|c: int|
        0 <= c < COLORS && #[trigger] s.settled[c] ==> s.reached[c] && 0 <= s.rank@[c] < s.nsettled
            && count[c] >= PER_COLOR
    &&& forall|c: int|
        0 <= c < COLORS && #[trigger] s.reached[c] ==> 0 <= s.dist[c] <= s.nsettled * step_bound()
    &&& forall|c: int|
        0 <= c < COLORS && #[trigger] count[c] > PER_COLOR ==> s.reached[c] && s.dist[c] == 0 && s.pred[c]
            == NONE
    &&& forall|c: int|
        0 <= c < COLORS && #[trigger] s.reached[c] && count[c] <= PER_COLOR ==> tree_edge_ok(cost, a, p, s, c)
            && (s.settled[c] ==> s.rank@[s.pred[c] as int] < s.rank@[c])
    &&& forall|x: int, y: int|
        0 <= x < COLORS && 0 <= y < COLORS && #[trigger] s.settled[x] && #[trigger] s.reached[y]
            && !s.settled[y] ==> s.dist[x] <= s.dist[y]
    &&& forall|f: int, c: int|
        0 <= f < FACES && 0 <= c < COLORS && s.settled[a[f] as int] && a[f] != skip && c != a[f]
            ==> s.reached[c] && s.dist[c] <= s.dist[a[f] as int] + #[trigger] step_weight(
            cost,
            a,
            p,
            f,
            c,
        )
}

/// The full invariant of the search between two settlements.
spec fn search_inv(cost: CostTable, a: Seq<usize>, count: Seq<usize>, p: Seq<i128>, s: ColorSearch) -> bool {
    &&& search_core(cost, a, count, p, s, COLORS as int)
    &&& s.nsettled == 0 ==> forall|c: int| 0 <= c < COLORS && #[trigger] s.reached[c] ==> count[c] > PER_COLOR
    &&& s.nsettled > 0 ==> forall|c: int| 0 <= c < COLORS ==> #[trigger] s.reached[c]
}

/// What the search may assume of its inputs: a consistent state with some color over its
/// quota, and potentials within `0 ..= max_sq_dist()`.
spec fn step_ready(cost: CostTable, a: Seq<usize>, count: Seq<usize>, p: Seq<i128>) -> bool {
    &&& a.len() == FACES
    &&& balance::table_bounded(cost, max_sq_dist())
    &&& balance::colors_in_range(a)
    &&& balance::counts_match(a, count)
    &&& balance::total_excess(count) > 0
    &&& p.len() == COLORS
    &&& forall|c: int| 0 <= c < COLORS ==> 0 <= #[trigger] p[c] <= max_sq_dist()
}

/// How far the potential of color `c` moves after a search that stopped at distance `d`.
spec fn shift(dist: Seq<i128>, settled: Seq<bool>, d: int, c: int) -> int {
    if settled[c] {
        dist[c] as int
    } else {
        d
    }
}

/// Some color holds more faces than its quota, and one of its faces is a witness.
proof fn lemma_over_quota_witness(a: Seq<usize>, count: Seq<usize>) -> (s: int)
    requires
        a.len() == FACES,
        balance::counts_match(a, count),
        balance::total_excess(count) > 0,
    ensures
        0 <= s < COLORS,
        count[s] > PER_COLOR,
{
    if count[0] > PER_COLOR {
        0
    } else if count[1] > PER_COLOR {
        1
    } else if count[2] > PER_COLOR {
        2
    } else if count[3] > PER_COLOR {
        3
    } else if count[4] > PER_COLOR {
        4
    } else {
        5
    }
}

/// When some color is over its quota, some other color is under it.
proof fn lemma_under_quota_exists(a: Seq<usize>, count: Seq<usize>) -> (t: int)
    requires
        a.len() == FACES,
        balance::colors_in_range(a),
        balance::counts_match(a, count),
        balance::total_excess(count) > 0,
    ensures
        0 <= t < COLORS,
        count[t] < PER_COLOR,
{
    balance::lemma_counts_sum(a, FACES as int);
    assert(count[0] == balance::color_count(a, 0));
    assert(count[1] == balance::color_count(a, 1));
    assert(count[2] == balance::color_count(a, 2));
    assert(count[3] == balance::color_count(a, 3));
    assert(count[4] == balance::color_count(a, 4));
    assert(count[5] == balance::color_count(a, 5));
    if count[0] < PER_COLOR {
        0
    } else if count[1] < PER_COLOR {
        1
    } else if count[2] < PER_COLOR {
        2
    } else if count[3] < PER_COLOR {
        3
    } else if count[4] < PER_COLOR {
        4
    } else {
        5
    }
}

/// While some color is over its quota, every potential is at most the largest price.
proof fn lemma_potentials_small(cost: CostTable, a: Seq<usize>, count: Seq<usize>, p: Seq<i128>)
    requires
        a.len() == FACES,
        balance::table_bounded(cost, max_sq_dist()),
        balance::colors_in_range(a),
        balance::counts_match(a, count),
        balance::reduced_optimal(cost, a, p),
        balance::potentials_ok(count, p),
        balance::total_excess(count) > 0,
    ensures
        forall|c: int| 0 <= c < COLORS ==> 0 <= #[trigger] p[c] <= max_sq_dist(),
{
    let s = lemma_over_quota_witness(a, count);
    let f = balance::lemma_count_witness(a, s, FACES as int);
    assert forall|c: int| 0 <= c < COLORS implies 0 <= #[trigger] p[c] <= max_sq_dist() by {
        assert(balance::table_entry(cost, f, a[f] as int) - p[a[f] as int] <= balance::table_entry(
            cost,
            f,
            c,
        ) - p[c]);
        assert(balance::table_entry(cost, f, c) <= max_sq_dist());
    }
}

/// The cheapest reduced step that moves one of the faces of color `b` to color `c`, with the
/// first face that attains it; `None` when color `b` has no face.
fn cheapest_step(
    cost: &CostTable,
    assignment: &[usize; FACES],
    potential: &[i128; COLORS],
    b: usize,
    c: usize,
) -> (res: Option<(i128, usize)>)
    requires
        b < COLORS,
        c < COLORS,
        balance::table_bounded(*cost, max_sq_dist()),
        balance::colors_in_range(assignment@),
        forall|x: int| 0 <= x < COLORS ==> 0 <= #[trigger] potential[x] <= max_sq_dist(),
    ensures
        match res {
            None => forall|f: int| 0 <= f < FACES ==> #[trigger] assignment[f] != b,
            Some((w, f)) => {
                &&& f < FACES
                &&& assignment[f as int] == b
                &&& w == balance::reduced_step(*cost, assignment@, potential@, f as int, c as int)
                &&& forall|g: int|
                    0 <= g < FACES && assignment[g] == b ==> w <= #[trigger] balance::reduced_step(
                        *cost,
                        assignment@,
                        potential@,
                        g,
                        c as int,
                    )
            },
        },
{
    let mut best: Option<(i128, usize)> = None;
    for f in 0..FACES
        invariant
            b < COLORS,
            c < COLORS,
            balance::table_bounded(*cost, max_sq_dist()),
            forall|x: int| 0 <= x < COLORS ==> 0 <= #[trigger] potential[x] <= max_sq_dist(),
            match best {
                None => forall|g: int| 0 <= g < f ==> #[trigger] assignment[g] != b,
                Some((w, bf)) => {
                    &&& bf < f
                    &&& assignment[bf as int] == b
                    &&& w == balance::reduced_step(*cost, assignment@, potential@, bf as int, c as int)
                    &&& forall|g: int|
                        0 <= g < f && assignment[g] == b ==> w <= #[trigger] balance::reduced_step(
                            *cost,
                            assignment@,
                            potential@,
                            g,
                            c as int,
                        )
                },
            },
    {
        if assignment[f] == b {
            proof {
                assert(balance::table_entry(*cost, f as int, c as int) <= max_sq_dist());
                assert(balance::table_entry(*cost, f as int, b as int) <= max_sq_dist());
            }
            let w = (cost[f][c] as i128 - potential[c]) - (cost[f][b] as i128 - potential[b]);
            match best {
                None => {
                    best = Some((w, f));
                },
                Some((bw, _)) => {
                    if w < bw {
                        best = Some((w, f));
                    }
                },
            }
        }
    }
    best
}

impl ColorSearch {
    /// A search seeded with every over-quota color at distance zero.
    fn start(
        cost: &CostTable,
        assignment: &[usize; FACES],
        count: &[usize; COLORS],
        potential: &[i128; COLORS],
    ) -> (s: ColorSearch)
        requires
            step_ready(*cost, assignment@, count@, potential@),
            forall|c: int| 0 <= c < COLORS ==> 0 <= #[trigger] potential[c] <= max_sq_dist(),
        ensures
            search_inv(*cost, assignment@, count@, potential@, s),
            s.nsettled == 0,
    {
        let mut reached: [bool; 6] = [false; 6];
        for c in 0..COLORS
            invariant
                forall|c2: int| 0 <= c2 < c ==> #[trigger] reached[c2] == (count[c2] > PER_COLOR),
                forall|c2: int| c <= c2 < COLORS ==> !#[trigger] reached[c2],
        {
            if count[c] > PER_COLOR {
                reached[c] = true;
            }
        }
        let ghost zeros: Seq<int> = seq![0int, 0int, 0int, 0int, 0int, 0int];
        ColorSearch {
            dist: [0i128; 6],
            reached,
            settled: [false; 6],
            pred: [NONE; 6],
            pface: [NONE; 6],
            nsettled: 0,
            rank: Ghost(zeros),
        }
    }

    /// The reached, unsettled color at least distance (the first such), or `NONE`.
    fn nearest_unsettled(&self) -> (b: usize)
        ensures
            b == NONE ==> forall|c: int| 0 <= c < COLORS ==> !(#[trigger] self.reached[c] && !self.settled[c]),
            b != NONE ==> b < COLORS && self.reached[b as int] && !self.settled[b as int] && (forall|c: int|
                0 <= c < COLORS && #[trigger] self.reached[c] && !self.settled[c] ==> self.dist[b as int]
                    <= self.dist[c]),
    {
        let mut best: usize = NONE;
        for c in 0..COLORS
            invariant
                best == NONE ==> forall|c2: int| 0 <= c2 < c ==> !(#[trigger] self.reached[c2] && !self.settled[c2]),
                best != NONE ==> best < c && self.reached[best as int] && !self.settled[best as int] && (
                forall|c2: int|
                    0 <= c2 < c && #[trigger] self.reached[c2] && !self.settled[c2] ==> self.dist[best as int]
                        <= self.dist[c2]),
        {
            if self.reached[c] && !self.settled[c] && (best == NONE || self.dist[c] < self.dist[best]) {
                best = c;
            }
        }
        best
    }

    /// Relax the steps that move a face of the settled color `b` to the unsettled color `c`.
    #[verifier::spinoff_prover]
    fn relax_to(
        &mut self,
        cost: &CostTable,
        assignment: &[usize; FACES],
        count: &[usize; COLORS],
        potential: &[i128; COLORS],
        b: usize,
        c: usize,
    )
        requires
            step_ready(*cost, assignment@, count@, potential@),
            search_core(*cost, assignment@, count@, potential@, *old(self), b as int),
            b < COLORS,
            c < COLORS,
            c != b,
            old(self).settled[b as int],
            !old(self).settled[c as int],
            old(self).nsettled >= 1,
            0 <= old(self).dist[b as int] <= (old(self).nsettled - 1) * step_bound(),
            forall|x: int|
                0 <= x < COLORS && #[trigger] old(self).settled[x] ==> old(self).dist[x] <= old(self).dist[b as int],
        ensures
            search_core(*cost, assignment@, count@, potential@, *final(self), b as int),
            final(self).settled == old(self).settled,
            final(self).nsettled == old(self).nsettled,
            final(self).rank == old(self).rank,
            forall|x: int| 0 <= x < COLORS && x != c ==> #[trigger] final(self).dist[x] == old(self).dist[x],
            forall|x: int| 0 <= x < COLORS && #[trigger] old(self).reached[x] ==> final(self).reached[x],
            forall|f: int|
                0 <= f < FACES && assignment[f] == b ==> final(self).reached[c as int] && final(self).dist[c as int]
                    <= final(self).dist[b as int] + #[trigger] step_weight(
                    *cost,
                    assignment@,
                    potential@,
                    f,
                    c as int,
                ),
    {
        let ghost a = assignment@;
        let ghost p = potential@;
        match cheapest_step(cost, assignment, potential, b, c) {
            None => {},
            Some((w, f)) => {
                let w = if w < 0 {
                    0i128
                } else {
                    w
                };
                proof {
                    assert forall|g: int| 0 <= g < FACES && assignment[g] == b implies w <= #[trigger] step_weight(
                        *cost,
                        a,
                        p,
                        g,
                        c as int,
                    ) by {
                        let _ = balance::reduced_step(*cost, a, p, g, c as int);
                    }
                }
                let ghost before = *self;
                let cand = self.dist[b] + w;
                if !self.reached[c] || cand < self.dist[c] {
                    self.dist[c] = cand;
                    self.reached[c] = true;
                    self.pred[c] = b;
                    self.pface[c] = f;
                }
                proof {
                    assert forall|g: int, c2: int|
                        0 <= g < FACES && 0 <= c2 < COLORS && self.settled[a[g] as int] && a[g] != b && c2 != a[g]
                            implies self.reached[c2] && self.dist[c2] <= self.dist[a[g] as int]
                            + #[trigger] step_weight(*cost, a, p, g, c2) by {
                        assert(before.dist[c2] <= before.dist[a[g] as int] + step_weight(*cost, a, p, g, c2));
                        assert(before.reached[c2]);
                    }
                    assert(search_core(*cost, a, count@, p, *self, b as int));
                }
            },
        }
    }

    /// Settle color `b` and relax every step out of it.
    #[verifier::rlimit(40)]
    fn settle(
        &mut self,
        cost: &CostTable,
        assignment: &[usize; FACES],
        count: &[usize; COLORS],
        potential: &[i128; COLORS],
        b: usize,
    )
        requires
            step_ready(*cost, assignment@, count@, potential@),
            search_inv(*cost, assignment@, count@, potential@, *old(self)),
            b < COLORS,
            old(self).reached[b as int],
            !old(self).settled[b as int],
            count[b as int] >= PER_COLOR,
            forall|c: int|
                0 <= c < COLORS && #[trigger] old(self).reached[c] && !old(self).settled[c] ==> old(self).dist[b as int]
                    <= old(self).dist[c],
        ensures
            search_inv(*cost, assignment@, count@, potential@, *final(self)),
            final(self).nsettled == old(self).nsettled + 1,
    {
        let ghost a = assignment@;
        let ghost p = potential@;
        let ghost n_old = self.nsettled as int;
        self.settled[b] = true;
        self.rank = Ghost(self.rank@.update(b as int, n_old));
        self.nsettled = self.nsettled + 1;
        for c in 0..COLORS
            invariant
                step_ready(*cost, a, count@, p),
                a == assignment@,
                p == potential@,
                b < COLORS,
                self.settled[b as int],
                count[b as int] >= PER_COLOR,
                self.nsettled as int == n_old + 1,
                0 <= self.dist[b as int] <= n_old * step_bound(),
                forall|x: int| 0 <= x < COLORS && #[trigger] self.settled[x] ==> self.dist[x] <= self.dist[b as int],
                n_old == 0 ==> count[b as int] > PER_COLOR,
                n_old > 0 ==> forall|x: int| 0 <= x < COLORS ==> #[trigger] self.reached[x],
                search_core(*cost, a, count@, p, *self, b as int),
                forall|f: int, c2: int|
                    0 <= f < FACES && 0 <= c2 < c && a[f] == b && c2 != b ==> self.reached[c2] && self.dist[c2]
                        <= self.dist[b as int] + #[trigger] step_weight(*cost, a, p, f, c2),
        {
            if c != b {
                if self.settled[c] {
                    assert forall|f: int|
                        0 <= f < FACES && a[f] == b implies self.reached[c as int] && self.dist[c as int]
                        <= self.dist[b as int] + #[trigger] step_weight(*cost, a, p, f, c as int) by {
                        assert(self.dist[c as int] <= self.dist[b as int]);
                        assert(step_weight(*cost, a, p, f, c as int) >= 0);
                    }
                } else {
                    let ghost reached_before = self.reached@;
                    self.relax_to(cost, assignment, count, potential, b, c);
                    assert forall|x: int| 0 <= x < COLORS && reached_before[x] implies #[trigger] self.reached[x] by {}
                }
            }
        }
        proof {
            if n_old == 0 {
                let f0 = balance::lemma_count_witness(a, b as int, FACES as int);
                assert forall|x: int| 0 <= x < COLORS implies #[trigger] self.reached[x] by {
                    if x == b {
                        assert(self.settled[x]);
                    } else {
                        assert(0 <= f0 < FACES);
                        assert(a[f0] == b);
                        let _ = step_weight(*cost, a, p, f0, x);
                    }
                }
            }
            assert(search_core(*cost, a, count@, p, *self, COLORS as int));
        }
    }
}


/// Moving one face from an over-quota color `s` to an under-quota color `t` lowers the total
/// excess by one and makes no color newly over-quota.
proof fn lemma_excess_after_move(count0: Seq<usize>, count: Seq<usize>, s: int, t: int)
    requires
        count0.len() == COLORS,
        count.len() == COLORS,
        0 <= s < COLORS,
        0 <= t < COLORS,
        count0[s] > PER_COLOR,
        count0[t] < PER_COLOR,
        forall|i: int|
            0 <= i < COLORS ==> #[trigger] count[i] == count0[i] + (if i == t { 1int } else { 0int }) - (if i
                == s { 1int } else { 0int }),
    ensures
        balance::total_excess(count) == balance::total_excess(count0) - 1,
        forall|i: int| 0 <= i < COLORS && #[trigger] count[i] > PER_COLOR ==> count0[i] > PER_COLOR,
{
    assert(count[0] == count0[0] + (if 0 == t { 1int } else { 0int }) - (if 0 == s { 1int } else { 0int }));
    assert(count[1] == count0[1] + (if 1 == t { 1int } else { 0int }) - (if 1 == s { 1int } else { 0int }));
    assert(count[2] == count0[2] + (if 2 == t { 1int } else { 0int }) - (if 2 == s { 1int } else { 0int }));
    assert(count[3] == count0[3] + (if 3 == t { 1int } else { 0int }) - (if 3 == s { 1int } else { 0int }));
    assert(count[4] == count0[4] + (if 4 == t { 1int } else { 0int }) - (if 4 == s { 1int } else { 0int }));
    assert(count[5] == count0[5] + (if 5 == t { 1int } else { 0int }) - (if 5 == s { 1int } else { 0int }));
}

/// The search stopped at `target`: a reached, unsettled, under-quota color at least distance.
spec fn target_found(count: Seq<usize>, s: ColorSearch, target: usize) -> bool {
    &&& target < COLORS
    &&& s.reached[target as int]
    &&& !s.settled[target as int]
    &&& count[target as int] < PER_COLOR
    &&& s.nsettled > 0
    &&& forall|y: int|
        0 <= y < COLORS && #[trigger] s.reached[y] && !s.settled[y] ==> s.dist[target as int] <= s.dist[y]
}

/// The search order, with the target placed after every settled color.
spec fn tree_rank(s: ColorSearch, target: usize, y: int) -> int {
    if y == target {
        s.nsettled as int
    } else {
        s.rank@[y]
    }
}

/// Raising the potentials by the search distances (capped at the target's) keeps every face on a
/// color of least reduced price.
proof fn lemma_shifted_potentials(
    cost: CostTable,
    a: Seq<usize>,
    count: Seq<usize>,
    p0: Seq<i128>,
    s: ColorSearch,
    target: usize,
    p1: Seq<i128>,
)
    requires
        step_ready(cost, a, count, p0),
        balance::reduced_optimal(cost, a, p0),
        search_inv(cost, a, count, p0, s),
        target_found(count, s, target),
        p1.len() == COLORS,
        forall|c: int|
            0 <= c < COLORS ==> #[trigger] p1[c] == p0[c] + shift(
                s.dist@,
                s.settled@,
                s.dist[target as int] as int,
                c,
            ),
    ensures
        balance::reduced_optimal(cost, a, p1),
        forall|c: int| 0 <= c < COLORS ==> 0 <= #[trigger] p1[c],
        forall|c: int| 0 <= c < COLORS && count[c] > PER_COLOR ==> #[trigger] p1[c] == p0[c],
{
    let d = s.dist[target as int] as int;
    assert forall|f: int, c: int| 0 <= f < FACES && 0 <= c < COLORS implies balance::table_entry(
        cost,
        f,
        a[f] as int,
    ) - p1[a[f] as int] <= #[trigger] balance::table_entry(cost, f, c) - p1[c] by {
        let x = a[f] as int;
        assert(balance::table_entry(cost, f, x) - p0[x] <= balance::table_entry(cost, f, c) - p0[c]);
        assert(x < COLORS);
        if c != x {
            let _ = step_weight(cost, a, p0, f, c);
            if s.settled[x] {
                assert(s.reached[c]);
                assert(p1[x] == p0[x] + s.dist[x]);
            } else {
                assert(s.reached[x]);
                if s.settled[c] {
                    assert(s.dist[c] <= d);
                }
            }
        }
    }
    assert forall|c: int| 0 <= c < COLORS implies 0 <= #[trigger] p1[c] by {
        assert(s.reached[c]);
    }
    assert forall|c: int| 0 <= c < COLORS && count[c] > PER_COLOR implies #[trigger] p1[c] == p0[c] by {
        assert(s.reached[c]);
    }
}

/// The largest squared distance, `max_sq_dist()`, as a value.
const MAX_SQ_DIST: i128 = 12884508675;

/// Every potential lies in `0 ..= max_sq_dist()`.
fn potentials_in_range(potential: &[i128; COLORS]) -> (ok: bool)
    ensures
        ok == forall|c: int| 0 <= c < COLORS ==> 0 <= #[trigger] potential[c] <= max_sq_dist(),
{
    for c in 0..COLORS
        invariant
            forall|c2: int| 0 <= c2 < c ==> 0 <= #[trigger] potential[c2] <= max_sq_dist(),
    {
        if potential[c] < 0 || potential[c] > MAX_SQ_DIST {
            return false;
        }
    }
    true
}

/// One augmenting step: move one face's worth of excess from an over-quota color to the
/// nearest under-quota color along a chain of reassignments, found by a shortest-path search
/// over the colors. The faces that move form one chain over distinct colors.
///
/// The potentials carry what earlier steps learned. When every face sits on a color of least
/// reduced price under potentials that suit the counts, the chain is a cheapest one: the
/// potentials are raised so that this stays true, and the result costs no more than any
/// assignment whose counts arise from the old ones by one move from any over-quota color to
/// any under-quota color. Potentials outside `0 ..= max_sq_dist()` are first reset to zero.
#[verifier::spinoff_prover]
fn augment(
    cost: &CostTable,
    assignment: &mut [usize; FACES],
    count: &mut [usize; COLORS],
    potential: &mut [i128; COLORS],
)
    requires
        balance::table_bounded(*cost, max_sq_dist()),
        balance::colors_in_range(old(assignment)@),
        balance::counts_match(old(assignment)@, old(count)@),
        balance::total_excess(old(count)@) > 0,
    ensures
        balance::colors_in_range(final(assignment)@),
        balance::counts_match(final(assignment)@, final(count)@),
        balance::total_excess(final(count)@) == balance::total_excess(old(count)@) - 1,
        balance::one_face_moved(old(count)@, balance::counts_of(final(assignment)@)),
        balance::moves_along_chain(old(assignment)@, final(assignment)@),
        balance::reduced_optimal(*cost, old(assignment)@, old(potential)@) && balance::potentials_ok(
            old(count)@,
            old(potential)@,
        ) ==> {
            &&& balance::reduced_optimal(*cost, final(assignment)@, final(potential)@)
            &&& balance::potentials_ok(final(count)@, final(potential)@)
            &&& forall|b: Seq<usize>|
                b.len() == FACES && balance::colors_in_range(b) && balance::one_face_moved(
                    old(count)@,
                    balance::counts_of(b),
                ) ==> balance::table_cost(*cost, final(assignment)@) <= #[trigger] balance::table_cost(*cost, b)
        },
{
    let ghost a0 = assignment@;
    let ghost count0 = count@;
    let ghost p_in = potential@;
    let ghost opt = balance::reduced_optimal(*cost, a0, p_in) && balance::potentials_ok(count0, p_in);
    proof {
        if opt {
            lemma_potentials_small(*cost, a0, count0, p_in);
        }
    }
    if !potentials_in_range(potential) {
        *potential = [0i128; 6];
    }
    let ghost p0 = potential@;
    proof {
        assert(opt ==> p0 == p_in);
    }
    let ghost s0 = lemma_over_quota_witness(a0, count0);
    let ghost t0 = lemma_under_quota_exists(a0, count0);

    let mut search = ColorSearch::start(cost, assignment, count, potential);
    let mut target: usize = NONE;
    while target == NONE
        invariant
            step_ready(*cost, a0, count0, p0),
            assignment@ == a0,
            count@ == count0,
            potential@ == p0,
            0 <= s0 < COLORS && count0[s0] > PER_COLOR,
            0 <= t0 < COLORS && count0[t0] < PER_COLOR,
            search_inv(*cost, a0, count0, p0, search),
            target == NONE || target_found(count0, search, target),
        decreases COLORS - search.nsettled + (if target == NONE { 1int } else { 0int }),
    {
        let b = search.nearest_unsettled();
        proof {
            if b == NONE {
                if search.nsettled == 0 {
                    assert(search.reached[s0]);
                    assert(!search.settled[s0]);
                } else {
                    assert(search.reached[t0]);
                    assert(!search.settled[t0]);
                }
            }
        }
        if count[b] < PER_COLOR {
            target = b;
        } else {
            search.settle(cost, assignment, count, potential, b);
        }
    }

    // Raise the potentials by the distances found, capped at the target's.
    let big_d = search.dist[target];
    proof {
        assert(search.reached[target as int]);
    }
    for c in 0..COLORS
        invariant
            step_ready(*cost, a0, count0, p0),
            search_inv(*cost, a0, count0, p0, search),
            target_found(count0, search, target),
            big_d == search.dist[target as int],
            forall|c2: int|
                0 <= c2 < c ==> #[trigger] potential[c2] == p0[c2] + shift(
                    search.dist@,
                    search.settled@,
                    big_d as int,
                    c2,
                ),
            forall|c2: int| c <= c2 < COLORS ==> #[trigger] potential[c2] == p0[c2],
    {
        let dc = if search.settled[c] {
            search.dist[c]
        } else {
            big_d
        };
        proof {
            assert(search.reached[c as int]);
        }
        potential[c] = potential[c] + dc;
    }
    let ghost p1 = potential@;
    proof {
        if balance::reduced_optimal(*cost, a0, p0) {
            lemma_shifted_potentials(*cost, a0, count0, p0, search, target, p1);
        }
    }

    // Walk back from the target to a source, moving each face along the way.
    let source = apply_chain(cost, assignment, count, potential, &search, target, Ghost(p0));
    proof {
        lemma_excess_after_move(count0, count@, source as int, target as int);
        let a1 = assignment@;
        assert(balance::is_unit_move(count0, balance::counts_of(a1), source as int, target as int)) by {
            assert forall|c: int| 0 <= c < COLORS implies #[trigger] balance::counts_of(a1)[c] == count0[c] + (if c
                == target { 1int } else { 0int }) - (if c == source { 1int } else { 0int }) by {
                assert(count[c] == balance::color_count(a1, c));
            }
        }
        if opt {
            assert(balance::potentials_ok(count@, p1));
            assert forall|b: Seq<usize>|
                b.len() == FACES && balance::colors_in_range(b) && balance::one_face_moved(
                    count0,
                    balance::counts_of(b),
                ) implies balance::table_cost(*cost, a1) <= #[trigger] balance::table_cost(*cost, b) by {
                let (s2, t2) = choose|s2: int, t2: int| balance::is_unit_move(count0, balance::counts_of(b), s2, t2);
                assert(p1[target as int] == p1[t2]);
                balance::lemma_step_cheapest(*cost, a0, a1, b, p1, count0, source as int, target as int, s2, t2);
            }
        }
    }
}


/// Total squared distance of the first `n` faces to the references of their colors.
pub open spec fn assignment_cost_prefix(samples: Seq<Rgb>, refs: Seq<ColorRef>, a: Seq<usize>, n: int) -> int
    decreases n,
{
    if n <= 0 {
        0
    } else {
        assignment_cost_prefix(samples, refs, a, n - 1) + spec_sq_dist(samples[n - 1], refs[a[n - 1] as int])
    }
}

/// Total squared distance of every face to the reference of its color.
pub open spec fn assignment_cost(samples: Seq<Rgb>, refs: Seq<ColorRef>, a: Seq<usize>) -> int {
    assignment_cost_prefix(samples, refs, a, FACES as int)
}

/// `cost` holds the squared distance of every sample to every reference.
pub open spec fn is_cost_table(cost: CostTable, samples: Seq<Rgb>, refs: Seq<ColorRef>) -> bool {
    forall|f: int, c: int|
        0 <= f < FACES && 0 <= c < COLORS ==> #[trigger] balance::table_entry(cost, f, c) == spec_sq_dist(
            samples[f],
            refs[c],
        )
}

proof fn lemma_table_cost_is_assignment_cost(
    cost: CostTable,
    samples: Seq<Rgb>,
    refs: Seq<ColorRef>,
    a: Seq<usize>,
    n: int,
)
    requires
        is_cost_table(cost, samples, refs),
        0 <= n <= FACES,
        a.len() == FACES,
        balance::colors_in_range(a),
    ensures
        balance::table_cost_prefix(cost, a, n) == assignment_cost_prefix(samples, refs, a, n),
    decreases n,
{
    if n > 0 {
        lemma_table_cost_is_assignment_cost(cost, samples, refs, a, n - 1);
        assert(a[n - 1] < COLORS);
        assert(balance::table_entry(cost, n - 1, a[n - 1] as int) == spec_sq_dist(samples[n - 1], refs[a[n - 1] as int]));
    }
}

/// Every face of `a` carries a color of least price for it.
spec fn each_face_cheapest(cost: CostTable, a: Seq<usize>) -> bool {
    forall|f: int, c: int|
        0 <= f < FACES && 0 <= c < COLORS ==> balance::table_entry(cost, f, a[f] as int)
            <= #[trigger] balance::table_entry(cost, f, c)
}

/// Repeatedly moves faces from over-quota colors to under-quota colors along chains of
/// reassignments until every color holds exactly its quota; a balanced assignment is left as
/// it is. Starting from an assignment in which every face has a color of least price, each
/// chain is a cheapest one and the result costs no more than any balanced assignment.
fn rebalance(cost: &CostTable, assignment: &mut [usize; FACES], count: &mut [usize; COLORS])
    requires
        balance::table_bounded(*cost, max_sq_dist()),
        balance::colors_in_range(old(assignment)@),
        balance::counts_match(old(assignment)@, old(count)@),
    ensures
        balance::is_balanced(final(assignment)@),
        balance::counts_match(final(assignment)@, final(count)@),
        balance::is_balanced(old(assignment)@) ==> final(assignment)@ == old(assignment)@ && final(count)@
            == old(count)@,
        each_face_cheapest(*cost, old(assignment)@) ==> forall|other: Seq<usize>|
            balance::is_balanced(other) ==> balance::table_cost(*cost, final(assignment)@)
                <= #[trigger] balance::table_cost(*cost, other),
{
    let ghost a_init = assignment@;
    let ghost count_init = count@;
    let mut potential: [i128; 6] = [0i128; 6];
    proof {
        if each_face_cheapest(*cost, a_init) {
            assert(balance::reduced_optimal(*cost, assignment@, potential@));
        }
    }
    loop
        invariant
            balance::table_bounded(*cost, max_sq_dist()),
            balance::colors_in_range(assignment@),
            balance::counts_match(assignment@, count@),
            each_face_cheapest(*cost, a_init) ==> balance::reduced_optimal(*cost, assignment@, potential@)
                && balance::potentials_ok(count@, potential@),
            balance::is_balanced(a_init) ==> assignment@ == a_init && count@ == count_init,
        ensures
            forall|c: int| 0 <= c < COLORS ==> #[trigger] count[c] <= PER_COLOR,
            balance::is_balanced(a_init) ==> assignment@ == a_init && count@ == count_init,
        decreases balance::total_excess(count@),
    {
        let mut any_over = false;
        for c in 0..COLORS
            invariant
                any_over <==> exists|c2: int| 0 <= c2 < c && #[trigger] count[c2] > PER_COLOR,
        {
            if count[c] > PER_COLOR {
                any_over = true;
            }
        }
        if !any_over {
            break;
        }
        proof {
            if balance::is_balanced(a_init) {
                let c2 = choose|c2: int| 0 <= c2 < COLORS && #[trigger] count[c2] > PER_COLOR;
                assert(balance::color_count(a_init, c2) == PER_COLOR);
            }
        }
        augment(cost, assignment, count, &mut potential);
    }
    proof {
        let a = assignment@;
        balance::lemma_counts_sum(a, FACES as int);
        assert(count[0] == balance::color_count(a, 0));
        assert(count[1] == balance::color_count(a, 1));
        assert(count[2] == balance::color_count(a, 2));
        assert(count[3] == balance::color_count(a, 3));
        assert(count[4] == balance::color_count(a, 4));
        assert(count[5] == balance::color_count(a, 5));
        assert(count[0] <= PER_COLOR && count[1] <= PER_COLOR && count[2] <= PER_COLOR);
        assert(count[3] <= PER_COLOR && count[4] <= PER_COLOR && count[5] <= PER_COLOR);
        assert(balance::is_balanced(a));
        if each_face_cheapest(*cost, a_init) {
            assert forall|other: Seq<usize>| balance::is_balanced(other) implies balance::table_cost(*cost, a)
                <= #[trigger] balance::table_cost(*cost, other) by {
                balance::lemma_potentials_certify_optimal(*cost, a, other, potential@);
            }
        }
    }
}

/// Assign each of the 54 `samples` to exactly one of the 6 `refs` such that every color is
/// used exactly `PER_COLOR` (9) times and the total squared distance is minimised.
///
/// Returns an array `assignment[face] = color_index` (0..6).
pub fn assign_colors(samples: &[Rgb; FACES], refs: &[ColorRef; COLORS]) -> (result: [usize; FACES])
    ensures
        balance::is_balanced(result@),
        forall|other: Seq<usize>|
            balance::is_balanced(other) ==> assignment_cost(samples@, refs@, result@) <= #[trigger] assignment_cost(
                samples@,
                refs@,
                other,
            ),
{
    // Step 1: the cost table, cost[face][color] = squared distance.
    let mut cost: CostTable = [[0u64; 6]; 54];
    for f in 0..FACES
        invariant
            forall|f2: int, c: int|
                0 <= f2 < f && 0 <= c < COLORS ==> #[trigger] balance::table_entry(cost, f2, c) == spec_sq_dist(
                    samples[f2],
                    refs[c],
                ),
    {
        let mut row: [u64; 6] = [0u64; 6];
        for c in 0..COLORS
            invariant
                f < FACES,
                forall|c2: int| 0 <= c2 < c ==> #[trigger] row[c2] == spec_sq_dist(samples[f as int], refs[c2]),
        {
            row[c] = sq_dist(samples[f], refs[c]);
        }
        let ghost before = cost;
        cost[f] = row;
        proof {
            assert forall|f2: int, c: int|
                0 <= f2 < f + 1 && 0 <= c < COLORS implies #[trigger] balance::table_entry(cost, f2, c) == spec_sq_dist(
                    samples[f2],
                    refs[c],
                ) by {
                if f2 < f {
                    assert(balance::table_entry(before, f2, c) == spec_sq_dist(samples[f2], refs[c]));
                    assert(cost[f2] == before[f2]);
                } else {
                    assert(cost[f2] == row);
                    assert(row[c] == spec_sq_dist(samples[f as int], refs[c]));
                }
            }
        }
    }
    proof {
        assert forall|f: int, c: int| 0 <= f < FACES && 0 <= c < COLORS implies #[trigger] balance::table_entry(
            cost,
            f,
            c,
        ) <= max_sq_dist() by {
            lemma_sq_dist_bounds(samples[f], refs[c]);
        }
    }

    // Step 2: greedy initial assignment, each face to its first nearest reference.
    let mut assignment: [usize; 54] = [0usize; 54];
    let mut count: [usize; 6] = [0usize; 6];
    for f in 0..FACES
        invariant
            is_cost_table(cost, samples@, refs@),
            balance::table_bounded(cost, max_sq_dist()),
            forall|f2: int| 0 <= f2 < f ==> #[trigger] assignment[f2] < COLORS,
            forall|f2: int, c: int|
                0 <= f2 < f && 0 <= c < COLORS ==> balance::table_entry(cost, f2, assignment[f2] as int)
                    <= #[trigger] balance::table_entry(cost, f2, c),
            forall|c: int| 0 <= c < COLORS ==> #[trigger] count[c] == balance::count_prefix(assignment@, c, f as int),
            f <= FACES,
    {
        let mut best: usize = 0;
        for c in 1..COLORS
            invariant
                f < FACES,
                best < c,
                forall|c2: int| 0 <= c2 < c ==> balance::table_entry(cost, f as int, best as int)
                    <= #[trigger] balance::table_entry(cost, f as int, c2),
        {
            if cost[f][c] < cost[f][best] {
                best = c;
            }
        }
        let ghost before = assignment@;
        proof {
            balance::lemma_count_prefix_bounds(before, best as int, f as int);
        }
        assignment[f] = best;
        count[best] = count[best] + 1;
        proof {
            assert forall|c: int| 0 <= c < COLORS implies #[trigger] count[c] == balance::count_prefix(
                assignment@,
                c,
                f + 1,
            ) by {
                balance::lemma_count_prefix_agree(before, assignment@, c, f as int);
            }
        }
    }

    // Step 3: rebalance along cheapest chains until every color has exactly PER_COLOR faces.
    proof {
        assert(each_face_cheapest(cost, assignment@));
    }
    rebalance(&cost, &mut assignment, &mut count);
    proof {
        assert forall|other: Seq<usize>| balance::is_balanced(other) implies assignment_cost(
            samples@,
            refs@,
            assignment@,
        ) <= #[trigger] assignment_cost(samples@, refs@, other) by {
            lemma_table_cost_is_assignment_cost(cost, samples@, refs@, assignment@, FACES as int);
            lemma_table_cost_is_assignment_cost(cost, samples@, refs@, other, FACES as int);
            assert(balance::table_cost(cost, assignment@) <= balance::table_cost(cost, other));
        }
    }
    assignment
}


/// `list` contains `x`.
fn contains_color(list: &[usize], x: usize) -> (res: bool)
    ensures
        res == list@.contains(x),
{
    let mut i: usize = 0;
    while i < list.len()
        invariant
            i <= list.len(),
            forall|k: int| 0 <= k < i ==> #[trigger] list@[k] != x,
        decreases list.len() - i,
    {
        if list[i] == x {
            assert(list@[i as int] == x);
            return true;
        }
        i = i + 1;
    }
    false
}

/// Moving face `f` to the color `under[j]` is a candidate of the fallback move: `f` currently
/// carries a color listed in `over`.
pub open spec fn fallback_candidate(a: Seq<usize>, over: Seq<usize>, under: Seq<usize>, f: int, j: int) -> bool {
    &&& 0 <= f < FACES
    &&& over.contains(a[f])
    &&& 0 <= j < under.len()
}

/// The change in price of moving face `f` from its current color to color `c`.
pub open spec fn move_delta(cost: CostTable, a: Seq<usize>, f: int, c: int) -> int {
    balance::table_entry(cost, f, c) - balance::table_entry(cost, f, a[f] as int)
}

proof fn lemma_table_cost_prefix_update(cost: CostTable, a: Seq<usize>, f: int, c: usize, n: int)
    requires
        0 <= f < a.len(),
        0 <= n <= a.len(),
    ensures
        balance::table_cost_prefix(cost, a.update(f, c), n) == balance::table_cost_prefix(cost, a, n) + (if f
            < n {
            balance::table_entry(cost, f, c as int) - balance::table_entry(cost, f, a[f] as int)
        } else {
            0
        }),
    decreases n,
{
    if n > 0 {
        lemma_table_cost_prefix_update(cost, a, f, c, n - 1);
    }
}

/// Moving one face changes the total price of an assignment by exactly the move's delta: the
/// price of the face's new color less the price of its current one.
pub proof fn lemma_move_delta_is_cost_change(cost: CostTable, a: Seq<usize>, f: int, c: usize)
    requires
        a.len() == FACES,
        0 <= f < FACES,
    ensures
        move_delta(cost, a, f, c as int) == balance::table_cost(cost, a.update(f, c)) - balance::table_cost(cost, a),
{
    lemma_table_cost_prefix_update(cost, a, f, c, FACES as int);
}

/// Candidate `(f2, j2)` comes before `(f, j)`: by face, then by position in `under`.
pub open spec fn earlier(f2: int, j2: int, f: int, j: int) -> bool {
    f2 < f || (f2 == f && j2 < j)
}

/// Brute-force the single cheapest face move from any color in `over` to any color in `under`
/// (the first cheapest by face, then by position in `under`), and apply it. Some face must
/// carry a color listed in `over`, and `under` must not be empty, so that a move exists.
pub fn fallback_move(
    cost: &[[u64; COLORS]; FACES],
    assignment: &mut [usize; FACES],
    count: &mut [usize; COLORS],
    over: &[usize],
    under: &[usize],
)
    requires
        balance::colors_in_range(old(assignment)@),
        balance::counts_match(old(assignment)@, old(count)@),
        forall|j: int| 0 <= j < under@.len() ==> #[trigger] under@[j] < COLORS,
        exists|f: int, j: int| #[trigger] fallback_candidate(old(assignment)@, over@, under@, f, j),
    ensures
        balance::colors_in_range(final(assignment)@),
        balance::counts_match(final(assignment)@, final(count)@),
        exists|
            f: int,
            j: int,
        | {
            &&& #[trigger] fallback_candidate(old(assignment)@, over@, under@, f, j)
            &&& final(assignment)@ == old(assignment)@.update(f, under@[j])
            &&& forall|f2: int, j2: int|
                #[trigger] fallback_candidate(old(assignment)@, over@, under@, f2, j2) ==> move_delta(
                    *cost,
                    old(assignment)@,
                    f,
                    under@[j] as int,
                ) <= move_delta(*cost, old(assignment)@, f2, under@[j2] as int) && (earlier(f2, j2, f, j)
                    ==> move_delta(*cost, old(assignment)@, f, under@[j] as int) < move_delta(
                    *cost,
                    old(assignment)@,
                    f2,
                    under@[j2] as int,
                ))
        },
        forall|f2: int, j2: int|
            #[trigger] fallback_candidate(old(assignment)@, over@, under@, f2, j2) ==> balance::table_cost(
                *cost,
                final(assignment)@,
            ) <= balance::table_cost(*cost, old(assignment)@.update(f2, under@[j2])),
{
    let ghost a = assignment@;
    let mut best_delta: i128 = i128::MAX;
    let mut best_face: usize = 0;
    let mut best_new_color: usize = 0;
    let ghost mut best_j: int = 0;
    for f in 0..FACES
        invariant
            a == assignment@,
            balance::colors_in_range(a),
            forall|j: int| 0 <= j < under@.len() ==> #[trigger] under@[j] < COLORS,
            best_delta == i128::MAX ==> best_face == 0 && best_new_color == 0 && forall|f2: int, j2: int|
                0 <= f2 < f ==> !#[trigger] fallback_candidate(a, over@, under@, f2, j2),
            best_delta < i128::MAX ==> {
                &&& best_face < f
                &&& fallback_candidate(a, over@, under@, best_face as int, best_j)
                &&& best_new_color == under@[best_j]
                &&& best_delta == move_delta(*cost, a, best_face as int, best_new_color as int)
                &&& forall|f2: int, j2: int|
                    0 <= f2 < f && #[trigger] fallback_candidate(a, over@, under@, f2, j2) ==> best_delta
                        <= move_delta(*cost, a, f2, under@[j2] as int) && (earlier(
                        f2,
                        j2,
                        best_face as int,
                        best_j,
                    ) ==> best_delta < move_delta(*cost, a, f2, under@[j2] as int))
            },
    {
        if contains_color(over, assignment[f]) {
            let old_c = assignment[f];
            assert(old_c < COLORS);
            for k in 0..under.len()
                invariant
                    a == assignment@,
                    f < FACES,
                    old_c == a[f as int],
                    old_c < COLORS,
                    over@.contains(a[f as int]),
                    forall|j: int| 0 <= j < under@.len() ==> #[trigger] under@[j] < COLORS,
                    best_delta == i128::MAX ==> best_face == 0 && best_new_color == 0 && (forall|f2: int, j2: int|
                        0 <= f2 < f ==> !#[trigger] fallback_candidate(a, over@, under@, f2, j2)) && k == 0,
                    best_delta < i128::MAX ==> {
                        &&& best_face <= f
                        &&& (best_face == f ==> best_j < k)
                        &&& fallback_candidate(a, over@, under@, best_face as int, best_j)
                        &&& best_new_color == under@[best_j]
                        &&& best_delta == move_delta(*cost, a, best_face as int, best_new_color as int)
                        &&& forall|f2: int, j2: int|
                            (0 <= f2 < f || (f2 == f && 0 <= j2 < k)) && #[trigger] fallback_candidate(
                                a,
                                over@,
                                under@,
                                f2,
                                j2,
                            ) ==> best_delta <= move_delta(*cost, a, f2, under@[j2] as int) && (earlier(
                                f2,
                                j2,
                                best_face as int,
                                best_j,
                            ) ==> best_delta < move_delta(*cost, a, f2, under@[j2] as int))
                    },
            {
                let new_c = under[k];
                let delta = (cost[f][new_c] as i128) - (cost[f][old_c] as i128);
                if delta < best_delta {
                    best_delta = delta;
                    best_face = f;
                    best_new_color = new_c;
                    proof {
                        best_j = k as int;
                    }
                }
            }
        }
    }
    let old_c = assignment[best_face];
    proof {
        balance::lemma_count_positive(a, best_face as int, FACES as int);
        balance::lemma_count_prefix_bounds(a, best_new_color as int, FACES as int);
        assert(count[old_c as int] == balance::color_count(a, old_c as int));
        assert(count[best_new_color as int] == balance::color_count(a, best_new_color as int));
    }
    count[old_c] = count[old_c] - 1;
    count[best_new_color] = count[best_new_color] + 1;
    assignment[best_face] = best_new_color;
    proof {
        assert(assignment@ == a.update(best_face as int, best_new_color));
        assert forall|i: int| 0 <= i < COLORS implies #[trigger] count[i] == balance::color_count(
            assignment@,
            i,
        ) by {
            balance::lemma_count_update(a, best_face as int, best_new_color, i, FACES as int);
        }
        if best_delta == i128::MAX {
            let (f0, j0) = choose|f0: int, j0: int| #[trigger] fallback_candidate(a, over@, under@, f0, j0);
            assert(!fallback_candidate(a, over@, under@, f0, j0));
        }
        assert(fallback_candidate(a, over@, under@, best_face as int, best_j));
        lemma_move_delta_is_cost_change(*cost, a, best_face as int, best_new_color);
        assert forall|f2: int, j2: int| #[trigger] fallback_candidate(a, over@, under@, f2, j2) implies balance::table_cost(
            *cost,
            assignment@,
        ) <= balance::table_cost(*cost, a.update(f2, under@[j2])) by {
            lemma_move_delta_is_cost_change(*cost, a, f2, under@[j2]);
        }
    }
}


/// Move every face along the search tree from `target` back to a source: each face taken
/// from a color's predecessor goes to that color. Returns the source reached.
fn apply_chain(
    cost: &CostTable,
    assignment: &mut [usize; FACES],
    count: &mut [usize; COLORS],
    potential: &[i128; COLORS],
    search: &ColorSearch,
    target: usize,
    Ghost(p0): Ghost<Seq<i128>>,
) -> (source: usize)
    requires
        step_ready(*cost, old(assignment)@, old(count)@, p0),
        search_inv(*cost, old(assignment)@, old(count)@, p0, *search),
        target_found(old(count)@, *search, target),
        forall|c: int|
            0 <= c < COLORS ==> #[trigger] potential[c] == p0[c] + shift(
                search.dist@,
                search.settled@,
                search.dist[target as int] as int,
                c,
            ),
        balance::reduced_optimal(*cost, old(assignment)@, p0) ==> balance::reduced_optimal(
            *cost,
            old(assignment)@,
            potential@,
        ),
    ensures
        source < COLORS,
        old(count)[source as int] > PER_COLOR,
        balance::colors_in_range(final(assignment)@),
        balance::counts_match(final(assignment)@, final(count)@),
        forall|i: int|
            0 <= i < COLORS ==> #[trigger] final(count)[i] == old(count)[i] + (if i == target { 1int } else {
                0int
            }) - (if i == source { 1int } else { 0int }),
        balance::reduced_optimal(*cost, old(assignment)@, p0) ==> balance::reduced_optimal(
            *cost,
            final(assignment)@,
            potential@,
        ),
        balance::moves_along_chain(old(assignment)@, final(assignment)@),
{
    let ghost a0 = assignment@;
    let ghost count0 = count@;
    let ghost p1 = potential@;
    let mut cur = target;
    let ghost mut r: int = search.nsettled as int;
    let ghost mut path: Seq<int> = Seq::empty();
    proof {
        balance::lemma_count_prefix_bounds(a0, 0, FACES as int);
    }
    while search.pred[cur] != NONE
        invariant
            step_ready(*cost, a0, count0, p0),
            search_inv(*cost, a0, count0, p0, *search),
            target_found(count0, *search, target),
            potential@ == p1,
            forall|c: int|
                0 <= c < COLORS ==> #[trigger] p1[c] == p0[c] + shift(
                    search.dist@,
                    search.settled@,
                    search.dist[target as int] as int,
                    c,
                ),
            cur < COLORS,
            search.reached[cur as int],
            (cur == target && r == search.nsettled) || (search.settled[cur as int] && r == search.rank@[cur as int]),
            balance::colors_in_range(assignment@),
            balance::counts_match(assignment@, count@),
            forall|i: int|
                0 <= i < COLORS ==> #[trigger] count[i] == count0[i] + (if i == target && cur != target {
                    1int
                } else {
                    0int
                }) - (if i == cur && cur != target {
                    1int
                } else {
                    0int
                }),
            balance::reduced_optimal(*cost, a0, p0) ==> balance::reduced_optimal(*cost, assignment@, p1),
            forall|y: int|
                0 <= y < COLORS && (search.settled[y] || y == target) && count0[y] <= PER_COLOR
                    && tree_rank(*search, target, y) <= r ==> #[trigger] assignment[search.pface[y] as int]
                    == search.pred[y],
            // The colors walked so far, from the target on.
            (path.len() == 0) == (cur == target),
            path.len() > 0 ==> path[0] == target,
            forall|i: int|
                0 <= i < path.len() ==> {
                    &&& 0 <= #[trigger] path[i] < COLORS
                    &&& search.settled[path[i]] || path[i] == target
                    &&& count0[path[i]] <= PER_COLOR
                    &&& search.reached[path[i]]
                    &&& tree_rank(*search, target, path[i]) > r
                    &&& search.pred[path[i]] as int == (if i + 1 < path.len() {
                        path[i + 1]
                    } else {
                        cur as int
                    })
                    &&& assignment[search.pface[path[i]] as int] == path[i]
                },
            forall|i: int, j: int|
                0 <= i < j < path.len() ==> tree_rank(*search, target, #[trigger] path[i]) > tree_rank(
                    *search,
                    target,
                    #[trigger] path[j],
                ),
            forall|g: int|
                0 <= g < FACES && #[trigger] assignment[g] != a0[g] ==> exists|i: int|
                    0 <= i < path.len() && g == search.pface[#[trigger] path[i]],
        decreases r,
    {
        let x = search.pred[cur];
        let f = search.pface[cur];
        let ghost a_old = assignment@;
        proof {
            assert(count0[cur as int] <= PER_COLOR);
            assert(tree_edge_ok(*cost, a0, p0, *search, cur as int));
            assert(tree_rank(*search, target, cur as int) == r);
            assert(a_old[f as int] == x);
            balance::lemma_count_positive(a_old, f as int, FACES as int);
            balance::lemma_count_prefix_bounds(a_old, cur as int, FACES as int);
            assert(count[x as int] == balance::color_count(a_old, x as int));
            assert(count[cur as int] == balance::color_count(a_old, cur as int));
        }
        assignment[f] = cur;
        count[x] = count[x] - 1;
        count[cur] = count[cur] + 1;
        proof {
            let a_new = assignment@;
            assert(a_new == a_old.update(f as int, cur));
            assert forall|i: int| 0 <= i < COLORS implies #[trigger] count[i] == balance::color_count(
                a_new,
                i,
            ) by {
                balance::lemma_count_update(a_old, f as int, cur, i, FACES as int);
            }
            // The moved face sits on a color whose reduced price ties with its old one.
            assert(search.settled[x as int]);
            assert(p1[x as int] == p0[x as int] + search.dist[x as int]);
            assert(p1[cur as int] == p0[cur as int] + search.dist[cur as int]);
            if balance::reduced_optimal(*cost, a0, p0) {
                assert(balance::table_entry(*cost, f as int, x as int) - p0[x as int] <= balance::table_entry(
                    *cost,
                    f as int,
                    cur as int,
                ) - p0[cur as int]);
                assert forall|g: int, c: int| 0 <= g < FACES && 0 <= c < COLORS implies balance::table_entry(
                    *cost,
                    g,
                    a_new[g] as int,
                ) - p1[a_new[g] as int] <= #[trigger] balance::table_entry(*cost, g, c) - p1[c] by {
                    assert(balance::table_entry(*cost, g, a_old[g] as int) - p1[a_old[g] as int]
                        <= balance::table_entry(*cost, g, c) - p1[c]);
                }
            }
            // The faces still to move are untouched.
            assert forall|y: int|
                0 <= y < COLORS && (search.settled[y] || y == target) && count0[y] <= PER_COLOR
                    && tree_rank(*search, target, y) <= tree_rank(*search, target, x as int) implies #[trigger] a_new[search.pface[y] as int]
                    == search.pred[y] by {
                assert(search.reached[y]);
                assert(tree_edge_ok(*cost, a0, p0, *search, y));
                if search.pface[y] == f {
                    assert(search.pred[y] == x);
                }
            }
            // The walked colors keep their faces; the new one joins them.
            let path_new = path.push(cur as int);
            assert forall|i: int| 0 <= i < path.len() implies a_new[search.pface[#[trigger] path[i]] as int] == path[i] by {
                assert(tree_edge_ok(*cost, a0, p0, *search, path[i]));
                if search.pface[path[i]] == f {
                    assert(search.pred[path[i]] == x);
                    assert(tree_rank(*search, target, x as int) < r);
                    if i + 1 < path.len() {
                        assert(tree_rank(*search, target, path[i + 1]) > r);
                    }
                    assert(false);
                }
            }
            assert(a_new[f as int] != a0[f as int]) by {
                assert(tree_rank(*search, target, x as int) < r);
            }
            assert forall|g: int| 0 <= g < FACES && #[trigger] a_new[g] != a0[g] implies exists|i: int|
                0 <= i < path_new.len() && g == search.pface[#[trigger] path_new[i]] by {
                if g == f {
                    assert(path_new[path.len() as int] == cur);
                } else {
                    assert(a_old[g] != a0[g]);
                    let i = choose|i: int| 0 <= i < path.len() && g == search.pface[#[trigger] path[i]];
                    assert(path_new[i] == path[i]);
                }
            }
            r = tree_rank(*search, target, x as int);
            path = path_new;
        }
        cur = x;
    }
    proof {
        assert(search.reached[cur as int]);
        if count0[cur as int] <= PER_COLOR {
            assert(tree_edge_ok(*cost, a0, p0, *search, cur as int));
        }
        let a1 = assignment@;
        assert(cur != target);
        assert(path.len() > 0);
        // The first move changed a face.
        assert(a1[search.pface[path[0]] as int] == target);
        assert(tree_edge_ok(*cost, a0, p0, *search, target as int));
        assert(a1[search.pface[path[0]] as int] != a0[search.pface[path[0]] as int]);
        assert forall|f: int, g: int|
            0 <= f < FACES && 0 <= g < FACES && f != g && #[trigger] a1[f] != a0[f] && #[trigger] a1[g] != a0[g]
                implies a0[f] != a0[g] && a1[f] != a1[g] by {
            let i = choose|i: int| 0 <= i < path.len() && f == search.pface[#[trigger] path[i]];
            let j = choose|j: int| 0 <= j < path.len() && g == search.pface[#[trigger] path[j]];
            assert(i != j);
            assert(tree_edge_ok(*cost, a0, p0, *search, path[i]));
            assert(tree_edge_ok(*cost, a0, p0, *search, path[j]));
            if i < j {
                assert(tree_rank(*search, target, path[i]) > tree_rank(*search, target, path[j]));
                if j + 1 < path.len() {
                    assert(tree_rank(*search, target, path[j]) > tree_rank(*search, target, path[j + 1]));
                }
            } else {
                assert(tree_rank(*search, target, path[j]) > tree_rank(*search, target, path[i]));
                if i + 1 < path.len() {
                    assert(tree_rank(*search, target, path[i]) > tree_rank(*search, target, path[i + 1]));
                }
            }
        }
    }
    cur
}

} // verus!
