use vstd::prelude::*;

use crate::color_resolver::{ColorRef, Rgb, FACES};

verus! {

/// Speed of the flipper arm.
pub const FLIP_SPEED: i32 = 400;

/// Color-motor targets for the nine readings of a side: the center first, then the ring.
pub const COLOR_POSITIONS: [i32; 9] = [690, 525, 590, 535, 590, 530, 590, 535, 585];

/// Number of readings taken of one side.
pub const SIDE_READINGS: usize = 9;

/// Gear ratio between the platform motor and the platform.
pub const PLATFORM_GEAR_RATIO: i32 = 3;

/// The zero reading.
pub open spec fn blank() -> Rgb {
    Rgb { r: 0, g: 0, b: 0 }
}

#[verifier::external_type_specification]
#[verifier::external_body]
#[verifier::reject_recursive_types(K)]
#[verifier::reject_recursive_types(V)]
pub struct ExPhfMap<K: 'static, V: 'static>(phf::Map<K, V>);

/// The key-value pairs that a `phf::Map` holds, in the order of its entry table.
pub uninterp spec fn phf_map_entries(map: phf::Map<usize, usize>) -> Seq<(usize, usize)>;

/// The number of rows in the displacement table that a `phf::Map` was built with.
pub uninterp spec fn phf_map_disps_len(map: phf::Map<usize, usize>) -> nat;

/// What `phf::Map::get` gives back for `key`.
pub uninterp spec fn phf_lookup(map: phf::Map<usize, usize>, key: usize) -> Option<usize>;

/// `phf::Map::len`: the number of entries of the map.
#[verifier::external_body]
fn phf_len(map: &phf::Map<usize, usize>) -> (n: usize)
    ensures
        n == phf_map_entries(*map).len(),
{
    map.len()
}

/// The length of the map's displacement table, which `phf::Map::get` divides by.
#[verifier::external_body]
fn phf_disps_len(map: &phf::Map<usize, usize>) -> (n: usize)
    ensures
        n == phf_map_disps_len(*map),
{
    map.disps.len()
}

/// A lookup in `map` cannot fail: either the displacement table is empty, and `get` answers
/// `None` at once, or neither of the two lengths it divides by truncates to zero as a `u32`.
pub open spec fn phf_lookup_safe(map: phf::Map<usize, usize>) -> bool {
    ||| phf_map_disps_len(map) == 0
    ||| (0 < phf_map_entries(map).len() <= u32::MAX && 0 < phf_map_disps_len(map) <= u32::MAX)
}

/// `phf::Map::get`: the lookup hashes `key` to one entry of the map and answers its value
/// when that entry's key is `key`, else `None`; with an empty displacement table it answers
/// `None`. So a value comes back only for a key-value pair the map holds. Which entry a key
/// hashes to is left unsaid: on a map that phf's macro built, every held key finds its entry,
/// but on a map whose fields were filled by hand a held key may be missed.
#[verifier::external_body]
fn phf_get(map: &phf::Map<usize, usize>, key: usize) -> (value: Option<usize>)
    requires
        phf_lookup_safe(*map),
    ensures
        value == phf_lookup(*map, key),
        value matches Some(v) ==> phf_map_entries(*map).contains((key, v)),
        phf_map_disps_len(*map) == 0 ==> value is None,
{
    map.get(&key).copied()
}

/// For each of the nine readings of a side, the facelet that `map` assigns to it, if any.
/// A facelet is only ever one that the map holds for that reading. A map whose lookup could
/// fail (see `phf_lookup_safe`) yields no facelets at all.
pub fn side_slots(map: &phf::Map<usize, usize>) -> (slots: [Option<usize>; 9])
    ensures
        phf_lookup_safe(*map) ==> forall|i: int| 0 <= i < 9 ==> #[trigger] slots[i] == phf_lookup(*map, i as usize),
        !phf_lookup_safe(*map) ==> forall|i: int| 0 <= i < 9 ==> #[trigger] slots[i] is None,
        forall|i: int|
            0 <= i < 9 ==> (#[trigger] slots[i] matches Some(v) ==> phf_map_entries(*map).contains((i as usize, v))),
{
    let mut slots: [Option<usize>; 9] = [None; 9];
    let n = phf_len(map);
    let d = phf_disps_len(map);
    if d == 0 || (n > 0 && n <= u32::MAX as usize && d <= u32::MAX as usize) {
        for i in 0..SIDE_READINGS
            invariant
                phf_lookup_safe(*map),
                forall|k: int| 0 <= k < i ==> #[trigger] slots[k] == phf_lookup(*map, k as usize),
                forall|k: int|
                    0 <= k < i ==> (#[trigger] slots[k] matches Some(v) ==> phf_map_entries(*map).contains(
                        (k as usize, v),
                    )),
                forall|k: int| i <= k < 9 ==> #[trigger] slots[k] is None,
        {
            slots[i] = phf_get(map, i);
        }
    }
    slots
}

/// Put the nine readings of a side, in the order they were taken, onto the facelets that
/// `slots` names: reading `i` goes to facelet `slots[i]`, a later reading overwriting an
/// earlier one on the same facelet; a facelet that no reading names stays zero.
pub fn place_side(slots: &[Option<usize>; 9], readings: &[Rgb; 9]) -> (side: [Rgb; 9])
    requires
        forall|i: int| 0 <= i < 9 ==> (#[trigger] slots[i] matches Some(j) && j < 9),
    ensures
        forall|i: int|
            0 <= i < 9 && (forall|k: int| i < k < 9 ==> slots[k] != slots[i]) ==> side[slots[i]->0 as int]
                == #[trigger] readings[i],
        forall|j: int|
            0 <= j < 9 && (forall|i: int| 0 <= i < 9 ==> slots[i] != Some(j as usize)) ==> #[trigger] side[j]
                == blank(),
{
    let mut side: [Rgb; 9] = [Rgb { r: 0, g: 0, b: 0 }; 9];
    for i in 0..SIDE_READINGS
        invariant
            forall|k: int| 0 <= k < 9 ==> (#[trigger] slots[k] matches Some(j) && j < 9),
            forall|k: int|
                0 <= k < i && (forall|m: int| k < m < i ==> slots[m] != slots[k]) ==> side[slots[k]->0 as int]
                    == #[trigger] readings[k],
            forall|j: int|
                0 <= j < 9 && (forall|k: int| 0 <= k < i ==> slots[k] != Some(j as usize)) ==> #[trigger] side[j]
                    == blank(),
    {
        let j = match slots[i] {
            Some(j) => j,
            None => 0,
        };
        assert(slots[i as int] == Some(j));
        side[j] = readings[i];
    }
    side
}

/// The 54 facelet readings of a cube, filled one side at a time.
pub struct CubeScan {
    pub colors: [Rgb; 54],
}

impl CubeScan {
    /// A scan with every facelet reading zero.
    pub fn new() -> (scan: CubeScan)
        ensures
            forall|f: int| 0 <= f < FACES ==> #[trigger] scan.colors[f] == (Rgb { r: 0, g: 0, b: 0 }),
    {
        CubeScan { colors: [Rgb { r: 0, g: 0, b: 0 }; 54] }
    }

    /// Store the nine facelets of side `k` at positions `9 * k .. 9 * k + 9`.
    pub fn record_side(&mut self, k: usize, side: &[Rgb; 9])
        requires
            k < 6,
        ensures
            forall|f: int| 9 * k <= f < 9 * k + 9 ==> #[trigger] final(self).colors[f] == side[f - 9 * k],
            forall|f: int|
                0 <= f < FACES && !(9 * k <= f < 9 * k + 9) ==> #[trigger] final(self).colors[f]
                    == old(self).colors[f],
    {
        for j in 0..SIDE_READINGS
            invariant
                k < 6,
                forall|f: int| 9 * k <= f < 9 * k + j ==> #[trigger] self.colors[f] == side[f - 9 * k],
                forall|f: int|
                    0 <= f < FACES && !(9 * k <= f < 9 * k + j) ==> #[trigger] self.colors[f] == old(self).colors[f],
        {
            self.colors[9 * k + j] = side[j];
        }
    }
}

/// The sum of one channel (0 red, 1 green, 2 blue) over the first `n` readings.
pub open spec fn channel_sum(readings: Seq<Rgb>, channel: int, n: int) -> int
    decreases n,
{
    if n <= 0 {
        0
    } else {
        channel_sum(readings, channel, n - 1) + if channel == 0 {
            readings[n - 1].r as int
        } else if channel == 1 {
            readings[n - 1].g as int
        } else {
            readings[n - 1].b as int
        }
    }
}

proof fn lemma_channel_sum_bound(readings: Seq<Rgb>, channel: int, n: int)
    requires
        0 <= n <= readings.len(),
    ensures
        0 <= channel_sum(readings, channel, n) <= n * 65535,
    decreases n,
{
    if n > 0 {
        lemma_channel_sum_bound(readings, channel, n - 1);
    }
}

/// Over nine readings, each channel's sum is the sum of that channel of every reading.
pub proof fn lemma_channel_sums_of_nine(readings: Seq<Rgb>)
    requires
        readings.len() == 9,
    ensures
        channel_sum(readings, 0, 9) == readings[0].r + readings[1].r + readings[2].r + readings[3].r
            + readings[4].r + readings[5].r + readings[6].r + readings[7].r + readings[8].r,
        channel_sum(readings, 1, 9) == readings[0].g + readings[1].g + readings[2].g + readings[3].g
            + readings[4].g + readings[5].g + readings[6].g + readings[7].g + readings[8].g,
        channel_sum(readings, 2, 9) == readings[0].b + readings[1].b + readings[2].b + readings[3].b
            + readings[4].b + readings[5].b + readings[6].b + readings[7].b + readings[8].b,
{
    reveal_with_fuel(channel_sum, 10);
}

/// The average of a side does not depend on the order of its readings: exchanging any two
/// readings leaves every channel's sum, and so the average, unchanged.
pub proof fn lemma_channel_sum_exchange(readings: Seq<Rgb>, i: int, j: int, channel: int)
    requires
        readings.len() == 9,
        0 <= i < 9,
        0 <= j < 9,
        0 <= channel < 3,
    ensures
        channel_sum(readings.update(i, readings[j]).update(j, readings[i]), channel, 9) == channel_sum(
            readings,
            channel,
            9,
        ),
{
    let t = readings.update(i, readings[j]).update(j, readings[i]);
    lemma_channel_sums_of_nine(readings);
    lemma_channel_sums_of_nine(t);
    assert(t[0] == (if j == 0 { readings[i] } else if i == 0 { readings[j] } else { readings[0] }));
    if i == 0 {} else if i == 1 {} else if i == 2 {} else if i == 3 {} else if i == 4 {}
    else if i == 5 {} else if i == 6 {} else if i == 7 {} else {}
}

/// The average of the nine readings of a side, channel by channel, rounded down.
pub fn side_average(readings: &[Rgb; 9]) -> (avg: ColorRef)
    ensures
        avg.r == channel_sum(readings@, 0, 9) / 9,
        avg.g == channel_sum(readings@, 1, 9) / 9,
        avg.b == channel_sum(readings@, 2, 9) / 9,
        avg.r == (readings[0].r + readings[1].r + readings[2].r + readings[3].r + readings[4].r
            + readings[5].r + readings[6].r + readings[7].r + readings[8].r) / 9,
        avg.g == (readings[0].g + readings[1].g + readings[2].g + readings[3].g + readings[4].g
            + readings[5].g + readings[6].g + readings[7].g + readings[8].g) / 9,
        avg.b == (readings[0].b + readings[1].b + readings[2].b + readings[3].b + readings[4].b
            + readings[5].b + readings[6].b + readings[7].b + readings[8].b) / 9,
{
    let mut r_sum: u32 = 0;
    let mut g_sum: u32 = 0;
    let mut b_sum: u32 = 0;
    for i in 0..SIDE_READINGS
        invariant
            r_sum == channel_sum(readings@, 0, i as int),
            g_sum == channel_sum(readings@, 1, i as int),
            b_sum == channel_sum(readings@, 2, i as int),
    {
        proof {
            lemma_channel_sum_bound(readings@, 0, i as int);
            lemma_channel_sum_bound(readings@, 1, i as int);
            lemma_channel_sum_bound(readings@, 2, i as int);
        }
        r_sum = r_sum + readings[i].r as u32;
        g_sum = g_sum + readings[i].g as u32;
        b_sum = b_sum + readings[i].b as u32;
    }
    proof {
        lemma_channel_sum_bound(readings@, 0, 9);
        lemma_channel_sum_bound(readings@, 1, 9);
        lemma_channel_sum_bound(readings@, 2, 9);
        lemma_channel_sums_of_nine(readings@);
    }
    ColorRef { r: (r_sum / 9) as u16, g: (g_sum / 9) as u16, b: (b_sum / 9) as u16 }
}

/// The platform's motor position after a twist by `angle` degrees from `position`.
pub open spec fn platform_after(position: int, angle: int) -> int {
    position + PLATFORM_GEAR_RATIO * angle
}

/// Two twists in a row leave the platform where one twist by their sum would.
pub proof fn lemma_twists_compose(position: int, a: int, b: int)
    ensures
        platform_after(platform_after(position, a), b) == platform_after(position, a + b),
{
}

/// The platform motor's target after twisting the platform by `angle` degrees from motor
/// position `position`: the motor turns three times as far as the platform.
pub fn platform_target(position: i32, angle: i32) -> (target: i32)
    requires
        i32::MIN <= PLATFORM_GEAR_RATIO * angle <= i32::MAX,
        i32::MIN <= position + PLATFORM_GEAR_RATIO * angle <= i32::MAX,
    ensures
        target == platform_after(position as int, angle as int),
{
    position + angle * PLATFORM_GEAR_RATIO
}

/// One move of the robot while it measures the six sides of a cube.
#[derive(Clone, Copy, Debug)]
pub enum RobotAction {
    /// Bring the flipper arm to its resting position.
    PositionFlipper,
    /// Move the color sensor out of the way.
    ResetColorMotor,
    /// Flip the cube once and return the arm.
    FlipAndReset,
    /// Turn the platform by this many degrees.
    TwistCube(i32),
    /// Flip the cube and keep holding it.
    FlipAndHold,
    /// Take the nine readings of the side that now faces up; sides are numbered 0..6.
    MeasureSide(usize),
    /// All six sides are measured.
    Done,
}

/// Number of moves in the measuring sequence.
pub const SCAN_STEPS: usize = 19;

/// The sequence of moves that brings each of the six sides under the sensor in turn: the first
/// four sides by flipping, the fifth after a quarter turn, the sixth after flipping twice.
pub open spec fn scan_plan(step: int) -> RobotAction {
    if 0 <= step < SCAN_STEPS {
        seq![
            RobotAction::PositionFlipper,
            RobotAction::MeasureSide(0),
            RobotAction::ResetColorMotor,
            RobotAction::FlipAndReset,
            RobotAction::MeasureSide(1),
            RobotAction::ResetColorMotor,
            RobotAction::FlipAndReset,
            RobotAction::MeasureSide(2),
            RobotAction::ResetColorMotor,
            RobotAction::FlipAndReset,
            RobotAction::MeasureSide(3),
            RobotAction::ResetColorMotor,
            RobotAction::TwistCube(90),
            RobotAction::FlipAndReset,
            RobotAction::MeasureSide(4),
            RobotAction::ResetColorMotor,
            RobotAction::FlipAndHold,
            RobotAction::FlipAndReset,
            RobotAction::MeasureSide(5),
        ][step]
    } else {
        RobotAction::Done
    }
}

/// The step at which side `k` is measured.
pub open spec fn side_step(k: int) -> int {
    seq![1int, 4, 7, 10, 14, 18][k]
}

/// The next move of the measuring sequence after `step` moves.
pub fn scan_action(step: usize) -> (action: RobotAction)
    ensures
        action == scan_plan(step as int),
{
    let plan: [RobotAction; 19] = [
        RobotAction::PositionFlipper,
        RobotAction::MeasureSide(0),
        RobotAction::ResetColorMotor,
        RobotAction::FlipAndReset,
        RobotAction::MeasureSide(1),
        RobotAction::ResetColorMotor,
        RobotAction::FlipAndReset,
        RobotAction::MeasureSide(2),
        RobotAction::ResetColorMotor,
        RobotAction::FlipAndReset,
        RobotAction::MeasureSide(3),
        RobotAction::ResetColorMotor,
        RobotAction::TwistCube(90),
        RobotAction::FlipAndReset,
        RobotAction::MeasureSide(4),
        RobotAction::ResetColorMotor,
        RobotAction::FlipAndHold,
        RobotAction::FlipAndReset,
        RobotAction::MeasureSide(5),
    ];
    if step < SCAN_STEPS {
        plan[step]
    } else {
        RobotAction::Done
    }
}

/// The measuring sequence measures every side exactly once, in order, and then ends.
pub proof fn lemma_scan_plan_measures_each_side_once()
    ensures
        forall|k: int| 0 <= k < 6 ==> #[trigger] scan_plan(side_step(k)) == RobotAction::MeasureSide(k as usize),
        forall|s: int|
            #[trigger] scan_plan(s) matches RobotAction::MeasureSide(k) ==> k < 6 && s == side_step(k as int),
        forall|k: int, l: int| 0 <= k < l < 6 ==> #[trigger] side_step(k) < #[trigger] side_step(l),
        forall|s: int| s >= SCAN_STEPS ==> #[trigger] scan_plan(s) == RobotAction::Done,
{
    assert forall|s: int|
        #![trigger scan_plan(s)]
        (scan_plan(s) matches RobotAction::MeasureSide(k) ==> k < 6 && s == side_step(k as int)) by {
        if 0 <= s < SCAN_STEPS {
            if s == 0 {} else if s == 1 {} else if s == 2 {} else if s == 3 {} else if s == 4 {}
            else if s == 5 {} else if s == 6 {} else if s == 7 {} else if s == 8 {} else if s == 9 {}
            else if s == 10 {} else if s == 11 {} else if s == 12 {} else if s == 13 {} else if s == 14 {}
            else if s == 15 {} else if s == 16 {} else if s == 17 {} else {}
        }
    }
    assert forall|k: int| 0 <= k < 6 implies #[trigger] scan_plan(side_step(k)) == RobotAction::MeasureSide(k as usize) by {
        if k == 0 {} else if k == 1 {} else if k == 2 {} else if k == 3 {} else if k == 4 {} else {}
    }
}

/// What the robot does between measuring one side and the next. After each measurement the
/// color sensor is moved away, and the last move before the next measurement flips a new side
/// up. Between the first four sides that flip is all; before the fifth the platform first turns
/// a quarter, and before the sixth the cube is first flipped once more and held.
pub proof fn lemma_moves_between_sides(k: int, s1: int, s2: int)
    requires
        0 <= k < 5,
        scan_plan(s1) == RobotAction::MeasureSide(k as usize),
        scan_plan(s2) == RobotAction::MeasureSide((k + 1) as usize),
    ensures
        s1 < s2,
        scan_plan(s1 + 1) == RobotAction::ResetColorMotor,
        scan_plan(s2 - 1) == RobotAction::FlipAndReset,
        k < 3 ==> s2 == s1 + 3,
        k == 3 ==> s2 == s1 + 4 && scan_plan(s1 + 2) == RobotAction::TwistCube(90),
        k == 4 ==> s2 == s1 + 4 && scan_plan(s1 + 2) == RobotAction::FlipAndHold,
{
    lemma_scan_plan_measures_each_side_once();
    assert(s1 == side_step(k));
    assert(s2 == side_step(k + 1));
    if k == 0 {} else if k == 1 {} else if k == 2 {} else if k == 3 {} else {}
}

/// The sequence starts by positioning the flipper and then measures the first side; after the
/// sixth side it ends.
pub proof fn lemma_plan_ends(s0: int, s5: int)
    requires
        scan_plan(s0) == RobotAction::MeasureSide(0),
        scan_plan(s5) == RobotAction::MeasureSide(5),
    ensures
        s0 == 1,
        scan_plan(0) == RobotAction::PositionFlipper,
        forall|s: int| s > s5 ==> #[trigger] scan_plan(s) == RobotAction::Done,
{
    lemma_scan_plan_measures_each_side_once();
    assert(s0 == side_step(0));
    assert(s5 == side_step(5));
}

/// How far the platform turns, in degrees, as reading `i` of a side is taken: not at all for
/// the first reading, an eighth of a turn for each of the others.
pub open spec fn reading_twist(i: int) -> int {
    if i == 0 {
        0
    } else {
        45
    }
}

/// What the robot does for reading `i` of a side: the color-motor target, and how far the
/// platform turns at the same time.
pub fn side_reading(i: usize) -> (step: (i32, i32))
    requires
        i < SIDE_READINGS,
    ensures
        step.0 == COLOR_POSITIONS@[i as int],
        step.1 == reading_twist(i as int),
{
    let twist: i32 = if i == 0 {
        0
    } else {
        45
    };
    (COLOR_POSITIONS[i], twist)
}

/// The sum of a sequence of platform turns, in degrees.
pub open spec fn twist_sum(twists: Seq<int>) -> int
    decreases twists.len(),
{
    if twists.len() == 0 {
        0
    } else {
        twist_sum(twists.drop_last()) + twists.last()
    }
}

/// The platform motor's position after the turns `twists`, one after the other, from `position`.
pub open spec fn platform_after_all(position: int, twists: Seq<int>) -> int
    decreases twists.len(),
{
    if twists.len() == 0 {
        position
    } else {
        platform_after(platform_after_all(position, twists.drop_last()), twists.last())
    }
}

/// The turns of the platform while the nine readings of a side are taken, in order.
pub open spec fn side_twists() -> Seq<int> {
    Seq::new(SIDE_READINGS as nat, |i: int| reading_twist(i))
}

/// The turns of the platform during one move of the measuring sequence.
pub open spec fn action_twists(action: RobotAction) -> Seq<int> {
    match action {
        RobotAction::MeasureSide(_) => side_twists(),
        RobotAction::TwistCube(angle) => seq![angle as int],
        _ => Seq::empty(),
    }
}

/// The platform motor's position after the first `n` moves of the measuring sequence.
pub open spec fn platform_after_steps(position: int, n: int) -> int
    decreases n,
{
    if n <= 0 {
        position
    } else {
        platform_after_all(platform_after_steps(position, n - 1), action_twists(scan_plan(n - 1)))
    }
}

/// A run of turns moves the platform motor by three times their sum.
pub proof fn lemma_platform_after_all(position: int, twists: Seq<int>)
    ensures
        platform_after_all(position, twists) == position + PLATFORM_GEAR_RATIO * twist_sum(twists),
    decreases twists.len(),
{
    if twists.len() > 0 {
        lemma_platform_after_all(position, twists.drop_last());
    }
}

/// The readings of one side turn the platform by 360 degrees in all.
proof fn lemma_side_twist_sum()
    ensures
        twist_sum(side_twists()) == 360,
{
    let t = side_twists();
    assert(t =~= seq![0int, 45, 45, 45, 45, 45, 45, 45, 45]);
    reveal_with_fuel(twist_sum, 10);
}

/// Taking the nine readings of a side leaves the platform motor 1080 degrees further on: eight
/// eighth-turns of the platform, three motor degrees per platform degree.
pub proof fn lemma_side_platform(position: int)
    ensures
        platform_after_all(position, side_twists()) == position + 1080,
{
    lemma_platform_after_all(position, side_twists());
    lemma_side_twist_sum();
}

/// The first `n` moves of the measuring sequence turn the platform motor by `3 * turned` degrees,
/// where `turned` counts 360 for each side measured and the quarter turn once it is made.
proof fn lemma_platform_after_steps(position: int, n: int)
    requires
        0 <= n <= SCAN_STEPS,
    ensures
        platform_after_steps(position, n) == position + PLATFORM_GEAR_RATIO * seq![
            0int, 0, 360, 360, 360, 720, 720, 720, 1080, 1080, 1080, 1440, 1440, 1530, 1530, 1890, 1890,
            1890, 1890, 2250,
        ][n],
    decreases n,
{
    if n > 0 {
        lemma_platform_after_steps(position, n - 1);
        let before = platform_after_steps(position, n - 1);
        let action = scan_plan(n - 1);
        lemma_platform_after_all(before, action_twists(action));
        lemma_side_twist_sum();
        assert(seq![90int].drop_last() =~= Seq::<int>::empty());
        if n == 1 {} else if n == 2 {} else if n == 3 {} else if n == 4 {} else if n == 5 {}
        else if n == 6 {} else if n == 7 {} else if n == 8 {} else if n == 9 {} else if n == 10 {}
        else if n == 11 {} else if n == 12 {} else if n == 13 {} else if n == 14 {} else if n == 15 {}
        else if n == 16 {} else if n == 17 {} else if n == 18 {} else {}
    }
}

/// The whole measuring sequence, used both to scan a cube and to calibrate the sensor, leaves
/// the platform motor 6750 degrees further on: six sides of 1080 each and one quarter turn of
/// the platform, 270 motor degrees.
pub proof fn lemma_scan_platform(position: int)
    ensures
        platform_after_steps(position, SCAN_STEPS as int) == position + 6750,
{
    lemma_platform_after_steps(position, SCAN_STEPS as int);
}

} // verus!
