use mindcub3r::color_resolver::Rgb;
use mindcub3r::scan::{
    place_side, platform_target, scan_action, side_average, side_reading, side_slots, CubeScan,
    RobotAction, COLOR_POSITIONS, SCAN_STEPS,
};

fn rgb(v: u16) -> Rgb {
    Rgb { r: v, g: v + 1, b: v + 2 }
}

const LFRB: [usize; 9] = [4, 6, 7, 8, 5, 2, 1, 0, 3];

#[test]
fn place_side_follows_the_lfrb_map() {
    let mut readings = [rgb(0); 9];
    for i in 0..9 {
        readings[i] = rgb(i as u16 * 10);
    }
    let slots = LFRB.map(Some);
    let side = place_side(&slots, &readings);
    for i in 0..9 {
        assert_eq!(side[LFRB[i]].r, readings[i].r);
        assert_eq!(side[LFRB[i]].b, readings[i].b);
    }
    // the center reading (taken first) lands in the middle facelet
    assert_eq!(side[4].r, 0);
}

#[test]
fn place_side_later_reading_wins_and_unnamed_facelets_stay_zero() {
    let mut readings = [rgb(0); 9];
    for i in 0..9 {
        readings[i] = rgb(100 + i as u16);
    }
    // every reading goes to facelet 2 or 5
    let slots = [Some(2), Some(5), Some(2), Some(5), Some(2), Some(5), Some(2), Some(5), Some(2)];
    let side = place_side(&slots, &readings);
    assert_eq!(side[2].r, 108);
    assert_eq!(side[5].r, 107);
    for j in [0, 1, 3, 4, 6, 7, 8] {
        assert_eq!((side[j].r, side[j].g, side[j].b), (0, 0, 0));
    }
}

#[test]
fn side_slots_reads_the_map() {
    let empty: phf::Map<usize, usize> = phf::Map::new();
    assert_eq!(side_slots(&empty), [None; 9]);
    // a one-entry map: every key hashes to the single entry, which only key 3 matches
    let one: phf::Map<usize, usize> = phf::Map { key: 0, disps: &[(0, 0)], entries: &[(3, 7)] };
    let slots = side_slots(&one);
    for i in 0..9 {
        assert_eq!(slots[i], if i == 3 { Some(7) } else { None });
    }
}

#[test]
fn side_slots_of_a_map_whose_lookup_would_fail() {
    // a displacement table but no entries: a lookup would divide by zero
    let broken: phf::Map<usize, usize> = phf::Map { key: 0, disps: &[(0, 0)], entries: &[] };
    assert_eq!(side_slots(&broken), [None; 9]);
}

#[test]
fn side_platform_turns_1080_motor_degrees() {
    let start = 250;
    let mut position = start;
    for i in 0..9 {
        position = platform_target(position, side_reading(i).1);
    }
    assert_eq!(position, start + 1080);
}

#[test]
fn measuring_sequence_turns_6750_motor_degrees() {
    let start = -40;
    let mut position = start;
    for step in 0..SCAN_STEPS + 2 {
        match scan_action(step) {
            RobotAction::MeasureSide(_) => {
                for i in 0..9 {
                    position = platform_target(position, side_reading(i).1);
                }
            }
            RobotAction::TwistCube(angle) => position = platform_target(position, angle),
            _ => {}
        }
    }
    assert_eq!(position, start + 6750);
}

#[test]
fn record_side_fills_its_block_only() {
    let mut scan = CubeScan::new();
    let side = [rgb(7); 9];
    scan.record_side(2, &side);
    for f in 0..54 {
        let expected = if (18..27).contains(&f) { 7 } else { 0 };
        assert_eq!(scan.colors[f].r, expected, "face {f}");
    }
}

#[test]
fn side_average_rounds_down() {
    let mut readings = [rgb(0); 9];
    for i in 0..9 {
        readings[i] = Rgb { r: i as u16, g: 1020, b: if i == 0 { 8 } else { 0 } };
    }
    let avg = side_average(&readings);
    assert_eq!(avg.r, 4); // 36 / 9
    assert_eq!(avg.g, 1020);
    assert_eq!(avg.b, 0); // 8 / 9
    let full = side_average(&[Rgb { r: 65535, g: 65535, b: 65535 }; 9]);
    assert_eq!((full.r, full.g, full.b), (65535, 65535, 65535));
}

#[test]
fn platform_turns_three_times_the_angle() {
    assert_eq!(platform_target(0, 45), 135);
    assert_eq!(platform_target(135, 90), 405);
    assert_eq!(platform_target(10, -45), -125);
}

#[test]
fn scan_plan_sequence() {
    let mut measured = Vec::new();
    let mut twists = Vec::new();
    for step in 0..SCAN_STEPS + 3 {
        match scan_action(step) {
            RobotAction::MeasureSide(k) => measured.push((step, k)),
            RobotAction::TwistCube(a) => twists.push((step, a)),
            RobotAction::Done => assert!(step >= SCAN_STEPS),
            _ => {}
        }
    }
    assert_eq!(measured, vec![(1, 0), (4, 1), (7, 2), (10, 3), (14, 4), (18, 5)]);
    assert_eq!(twists, vec![(12, 90)]);
    assert!(matches!(scan_action(0), RobotAction::PositionFlipper));
    assert!(matches!(scan_action(16), RobotAction::FlipAndHold));
}

#[test]
fn side_readings_move_sensor_and_twist() {
    assert_eq!(side_reading(0), (COLOR_POSITIONS[0], 0));
    for i in 1..9 {
        assert_eq!(side_reading(i), (COLOR_POSITIONS[i], 45));
    }
    assert_eq!(side_reading(0).0, 690);
}
