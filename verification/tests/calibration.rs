use mindcub3r::calibration::{
    calibration_line, classify_line, parse_u16_chars, split_chars, trim_chars, CalibrationData,
    LineOutcome,
};
use mindcub3r::color_resolver::ColorRef;

fn chars(s: &str) -> Vec<char> {
    s.chars().collect()
}

fn text_of(v: &[char]) -> String {
    v.iter().collect()
}

fn same(a: ColorRef, b: ColorRef) -> bool {
    a.r == b.r && a.g == b.g && a.b == b.b
}

fn parse(s: &str) -> Option<CalibrationData> {
    CalibrationData::parse(&chars(s))
}

#[test]
fn parses_written_format() {
    let data = parse(
        "white: 1, 2, 3\nblue: 4, 5, 6\nyellow: 7, 8, 9\ngreen: 10, 11, 12\norange: 13, 14, 15\nred: 16, 17, 18\n",
    )
    .unwrap();
    let expected = [(1, 2, 3), (4, 5, 6), (7, 8, 9), (10, 11, 12), (13, 14, 15), (16, 17, 18)];
    for (i, &(r, g, b)) in expected.iter().enumerate() {
        assert!(same(data.colors[i], ColorRef { r, g, b }), "slot {i}");
    }
}

#[test]
fn missing_colors_stay_zero_and_order_of_lines_is_free() {
    let data = parse("red: 500, 20, 30\n\nwhite:900,901,902").unwrap();
    assert!(same(data.colors[5], ColorRef { r: 500, g: 20, b: 30 }));
    assert!(same(data.colors[0], ColorRef { r: 900, g: 901, b: 902 }));
    for i in 1..5 {
        assert!(same(data.colors[i], ColorRef { r: 0, g: 0, b: 0 }));
    }
}

#[test]
fn later_lines_override_earlier_ones() {
    let data = parse("green: 1, 1, 1\ngreen: 2, 3, 4\n").unwrap();
    assert!(same(data.colors[3], ColorRef { r: 2, g: 3, b: 4 }));
}

#[test]
fn odd_lines_are_skipped() {
    // wrong number of ':' or ',' and unknown names are ignored
    let data = parse("white 1, 2, 3\nblue: 1, 2\nyellow: 1:2, 3, 4\npurple: 5, 6, 7\n  \nblue :  7 ,8,  9  \r\n").unwrap();
    assert!(same(data.colors[0], ColorRef { r: 0, g: 0, b: 0 }));
    assert!(same(data.colors[1], ColorRef { r: 7, g: 8, b: 9 }));
    assert!(same(data.colors[2], ColorRef { r: 0, g: 0, b: 0 }));
}

#[test]
fn bad_number_is_rejected() {
    assert!(parse("white: 1, x, 3\n").is_none());
    assert!(parse("white: 1, 2, 70000\n").is_none());
    assert!(parse("white: -1, 2, 3\n").is_none());
    assert!(parse("white: 1, 2, \n").is_none());
    // the numbers are read before the name is looked at
    assert!(parse("purple: 1, 2, z\n").is_none());
}

#[test]
fn empty_text_gives_zero_references() {
    let data = parse("").unwrap();
    for i in 0..6 {
        assert!(same(data.colors[i], ColorRef { r: 0, g: 0, b: 0 }));
    }
}

#[test]
fn to_text_writes_one_line_per_color() {
    let data = CalibrationData {
        colors: [
            ColorRef { r: 0, g: 1, b: 2 },
            ColorRef { r: 10, g: 200, b: 3000 },
            ColorRef { r: 65535, g: 9, b: 99 },
            ColorRef { r: 100, g: 101, b: 102 },
            ColorRef { r: 7, g: 70, b: 700 },
            ColorRef { r: 1020, g: 512, b: 1 },
        ],
    };
    assert_eq!(
        text_of(&data.to_text()),
        "white: 0, 1, 2\nblue: 10, 200, 3000\nyellow: 65535, 9, 99\ngreen: 100, 101, 102\norange: 7, 70, 700\nred: 1020, 512, 1\n"
    );
}

#[test]
fn written_text_reads_back() {
    let data = CalibrationData {
        colors: [
            ColorRef { r: 612, g: 640, b: 598 },
            ColorRef { r: 80, g: 190, b: 420 },
            ColorRef { r: 560, g: 610, b: 90 },
            ColorRef { r: 100, g: 400, b: 140 },
            ColorRef { r: 700, g: 260, b: 60 },
            ColorRef { r: 520, g: 70, b: 65 },
        ],
    };
    let back = CalibrationData::parse(&data.to_text()).unwrap();
    for i in 0..6 {
        assert!(same(back.colors[i], data.colors[i]));
    }
}

#[test]
fn u16_parsing_follows_str_parse() {
    for s in ["0", "7", "65535", "+12", "0000123", "00000000000000065535"] {
        assert_eq!(parse_u16_chars(&chars(s)), s.parse::<u16>().ok(), "{s}");
    }
    for s in ["", "+", "-1", "65536", "1 2", " 1", "x", "++1", "٣"] {
        assert_eq!(parse_u16_chars(&chars(s)), s.parse::<u16>().ok(), "{s}");
        assert_eq!(parse_u16_chars(&chars(s)), None, "{s}");
    }
}

#[test]
fn trimming_follows_str_trim() {
    for s in ["", "   ", " a ", "\t\r\n x y \u{3000}", "\u{a0}z\u{2009}", "abc"] {
        assert_eq!(text_of(&trim_chars(&chars(s))), s.trim(), "{s:?}");
    }
}

#[test]
fn splitting_follows_str_split() {
    for s in ["", ":", "a:b", "a::b:", "no separator", "::"] {
        let ours: Vec<String> = split_chars(&chars(s), ':').iter().map(|f| text_of(f)).collect();
        let std_fields: Vec<String> = s.split(':').map(|f| f.to_string()).collect();
        assert_eq!(ours, std_fields, "{s:?}");
    }
}

#[test]
fn line_classification() {
    assert!(matches!(classify_line(&chars("   ")), LineOutcome::Skip));
    assert!(matches!(classify_line(&chars("orange: 1, 2")), LineOutcome::Skip));
    assert!(matches!(classify_line(&chars("orange: a, 2, 3")), LineOutcome::Malformed));
    match classify_line(&chars(" orange :  4,5 , 6")) {
        LineOutcome::Assign(slot, c) => {
            assert_eq!(slot, 4);
            assert!(same(c, ColorRef { r: 4, g: 5, b: 6 }));
        }
        _ => panic!("expected an assignment"),
    }
}

#[test]
fn one_line_per_slot() {
    assert_eq!(text_of(&calibration_line(0, ColorRef { r: 1, g: 22, b: 333 })), "white: 1, 22, 333\n");
    assert_eq!(text_of(&calibration_line(4, ColorRef { r: 0, g: 0, b: 65535 })), "orange: 0, 0, 65535\n");
    assert_eq!(text_of(&calibration_line(5, ColorRef { r: 9, g: 10, b: 11 })), "red: 9, 10, 11\n");
}
