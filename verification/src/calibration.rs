use vstd::prelude::*;

use crate::color_resolver::{ColorRef, Rgb, COLORS};

verus! {

// ---------------------------------------------------------------------------
// Text primitives
// ---------------------------------------------------------------------------

/// The characters with the Unicode `White_Space` property.
pub open spec fn is_white_space(c: char) -> bool {
    ||| '\t' <= c <= '\r'
    ||| c == ' '
    ||| c == '\u{85}'
    ||| c == '\u{a0}'
    ||| c == '\u{1680}'
    ||| '\u{2000}' <= c <= '\u{200a}'
    ||| c == '\u{2028}'
    ||| c == '\u{2029}'
    ||| c == '\u{202f}'
    ||| c == '\u{205f}'
    ||| c == '\u{3000}'
}

/// `s` without its leading white space.
pub open spec fn trim_start(s: Seq<char>) -> Seq<char>
    decreases s.len(),
{
    if s.len() > 0 && is_white_space(s[0]) {
        trim_start(s.drop_first())
    } else {
        s
    }
}

/// `s` without its trailing white space.
pub open spec fn trim_end(s: Seq<char>) -> Seq<char>
    decreases s.len(),
{
    if s.len() > 0 && is_white_space(s.last()) {
        trim_end(s.drop_last())
    } else {
        s
    }
}

/// `s` without leading and trailing white space.
pub open spec fn trim(s: Seq<char>) -> Seq<char> {
    trim_end(trim_start(s))
}

/// The fields of `s` between occurrences of `sep`: one more field than there are separators.
pub open spec fn split(s: Seq<char>, sep: char) -> Seq<Seq<char>>
    decreases s.len(),
{
    if s.len() == 0 {
        seq![Seq::<char>::empty()]
    } else {
        let init = split(s.drop_last(), sep);
        if s.last() == sep {
            init.push(Seq::<char>::empty())
        } else {
            init.update(init.len() - 1, init.last().push(s.last()))
        }
    }
}

/// An ASCII decimal digit.
pub open spec fn is_digit(c: char) -> bool {
    '0' <= c <= '9'
}

/// The value of an ASCII decimal digit.
pub open spec fn digit_value(c: char) -> int {
    (c as int) - ('0' as int)
}

/// The value of a string of decimal digits.
pub open spec fn digits_value(s: Seq<char>) -> int
    decreases s.len(),
{
    if s.len() == 0 {
        0
    } else {
        digits_value(s.drop_last()) * 10 + digit_value(s.last())
    }
}

/// Every character of `s` is a decimal digit.
pub open spec fn all_digits(s: Seq<char>) -> bool {
    forall|i: int| 0 <= i < s.len() ==> #[trigger] is_digit(s[i])
}

/// The text of a `u16` as read by `str::parse`: an optional `+`, then at least one decimal
/// digit, for a value of at most 65535.
pub open spec fn parse_u16(s: Seq<char>) -> Option<u16> {
    let body = if s.len() > 0 && s[0] == '+' {
        s.drop_first()
    } else {
        s
    };
    if body.len() > 0 && all_digits(body) && digits_value(body) <= 65535 {
        Some(digits_value(body) as u16)
    } else {
        None
    }
}


/// The fields of a list of character vectors, as sequences.
pub open spec fn fields_view(v: Seq<Vec<char>>) -> Seq<Seq<char>> {
    Seq::new(v.len(), |k: int| v[k]@)
}

/// Whether `c` has the Unicode `White_Space` property (as `char::is_whitespace`).
pub fn white_space(c: char) -> (res: bool)
    ensures
        res == is_white_space(c),
{
    ('\t' <= c && c <= '\r') || c == ' ' || c == '\u{85}' || c == '\u{a0}' || c == '\u{1680}' || ('\u{2000}'
        <= c && c <= '\u{200a}') || c == '\u{2028}' || c == '\u{2029}' || c == '\u{202f}' || c == '\u{205f}'
        || c == '\u{3000}'
}

/// `s` without leading and trailing white space (as `str::trim`).
pub fn trim_chars(s: &[char]) -> (res: Vec<char>)
    ensures
        res@ == trim(s@),
{
    let len = s.len();
    let mut lo: usize = 0;
    assert(s@.subrange(0, len as int) =~= s@);
    while lo < len && white_space(s[lo])
        invariant
            lo <= len,
            len == s@.len(),
            trim_start(s@) == trim_start(s@.subrange(lo as int, len as int)),
        decreases len - lo,
    {
        assert(s@.subrange(lo as int, len as int).drop_first() =~= s@.subrange(lo + 1, len as int));
        lo = lo + 1;
    }
    assert(trim_start(s@) == s@.subrange(lo as int, len as int));
    let mut hi: usize = len;
    while hi > lo && white_space(s[hi - 1])
        invariant
            lo <= hi <= len,
            len == s@.len(),
            trim(s@) == trim_end(s@.subrange(lo as int, hi as int)),
        decreases hi - lo,
    {
        assert(s@.subrange(lo as int, hi as int).drop_last() =~= s@.subrange(lo as int, hi - 1));
        hi = hi - 1;
    }
    let mut res: Vec<char> = Vec::new();
    let mut k: usize = lo;
    while k < hi
        invariant
            lo <= k <= hi,
            hi <= len,
            len == s@.len(),
            res@ == s@.subrange(lo as int, k as int),
        decreases hi - k,
    {
        res.push(s[k]);
        assert(res@ =~= s@.subrange(lo as int, k + 1));
        k = k + 1;
    }
    res
}

/// The fields of `s` between occurrences of `sep` (as `str::split` with a character).
pub fn split_chars(s: &[char], sep: char) -> (res: Vec<Vec<char>>)
    ensures
        fields_view(res@) == split(s@, sep),
{
    let mut done: Vec<Vec<char>> = Vec::new();
    let mut cur: Vec<char> = Vec::new();
    let len = s.len();
    assert(fields_view(done@).push(cur@) =~= split(s@.take(0), sep));
    for i in 0..len
        invariant
            len == s@.len(),
            fields_view(done@).push(cur@) == split(s@.take(i as int), sep),
    {
        let ch = s[i];
        let ghost before = fields_view(done@).push(cur@);
        assert(s@.take(i + 1).drop_last() =~= s@.take(i as int));
        assert(s@.take(i + 1).last() == ch);
        if ch == sep {
            let finished = cur;
            done.push(finished);
            cur = Vec::new();
            assert(fields_view(done@).push(cur@) =~= before.push(Seq::<char>::empty()));
        } else {
            cur.push(ch);
            assert(fields_view(done@).push(cur@) =~= before.update(
                before.len() - 1,
                before.last().push(ch),
            ));
        }
    }
    assert(s@.take(len as int) =~= s@);
    done.push(cur);
    assert(fields_view(done@) =~= split(s@, sep));
    done
}

/// Whether two character slices are equal.
pub fn chars_equal(a: &[char], b: &[char]) -> (res: bool)
    ensures
        res == (a@ == b@),
{
    if a.len() != b.len() {
        return false;
    }
    let mut i: usize = 0;
    while i < a.len()
        invariant
            a@.len() == b@.len(),
            i <= a@.len(),
            forall|k: int| 0 <= k < i ==> a@[k] == b@[k],
        decreases a.len() - i,
    {
        if a[i] != b[i] {
            return false;
        }
        i = i + 1;
    }
    assert(a@ =~= b@);
    true
}

proof fn lemma_digits_value_monotone(s: Seq<char>, n: int)
    requires
        0 <= n <= s.len(),
        all_digits(s),
    ensures
        digits_value(s.take(n)) <= digits_value(s),
        0 <= digits_value(s.take(n)),
    decreases s.len() - n,
{
    if n < s.len() {
        lemma_digits_value_monotone(s, n + 1);
        assert(s.take(n + 1).drop_last() =~= s.take(n));
        assert(is_digit(s[n]));
    } else {
        assert(s.take(n) =~= s);
        lemma_digits_value_nonneg(s);
    }
}

proof fn lemma_digits_value_nonneg(s: Seq<char>)
    requires
        all_digits(s),
    ensures
        0 <= digits_value(s),
    decreases s.len(),
{
    if s.len() > 0 {
        assert(all_digits(s.drop_last()));
        lemma_digits_value_nonneg(s.drop_last());
        assert(is_digit(s[s.len() - 1]));
    }
}

/// Read a `u16` as `str::parse` does; `None` for anything else.
pub fn parse_u16_chars(s: &[char]) -> (res: Option<u16>)
    ensures
        res == parse_u16(s@),
{
    let len = s.len();
    let start: usize = if len > 0 && s[0] == '+' {
        1
    } else {
        0
    };
    let ghost body = s@.subrange(start as int, len as int);
    assert(body =~= (if s@.len() > 0 && s@[0] == '+' {
        s@.drop_first()
    } else {
        s@
    }));
    if start == len {
        return None;
    }
    let mut value: u32 = 0;
    let mut i: usize = start;
    while i < len
        invariant
            start <= i <= len,
            len == s@.len(),
            body == s@.subrange(start as int, len as int),
            body == (if s@.len() > 0 && s@[0] == '+' {
                s@.drop_first()
            } else {
                s@
            }),
            all_digits(body.take(i - start)),
            value as int == digits_value(body.take(i - start)),
            value <= 65535,
        decreases len - i,
    {
        let c = s[i];
        assert(body[i - start] == c);
        if !('0' <= c && c <= '9') {
            assert(!is_digit(body[i - start]));
            assert(!all_digits(body));
            return None;
        }
        let d = (c as u32) - ('0' as u32);
        assert(body.take(i - start + 1).drop_last() =~= body.take(i - start));
        value = value * 10 + d;
        assert(all_digits(body.take(i - start + 1)));
        if value > 65535 {
            proof {
                if all_digits(body) {
                    lemma_digits_value_monotone(body, i - start + 1);
                }
            }
            return None;
        }
        i = i + 1;
    }
    assert(body.take(len - start) =~= body);
    Some(value as u16)
}


// ---------------------------------------------------------------------------
// Calibration file
// ---------------------------------------------------------------------------

/// The reference colors of the six cube colors, in the order
/// white, blue, yellow, green, orange, red.
#[derive(Clone, Copy, Debug)]
pub struct CalibrationData {
    pub colors: [ColorRef; 6],
}

/// The name under which the calibration file stores color slot `i`.
pub open spec fn color_name(i: int) -> Seq<char> {
    if i == 0 {
        seq!['w', 'h', 'i', 't', 'e']
    } else if i == 1 {
        seq!['b', 'l', 'u', 'e']
    } else if i == 2 {
        seq!['y', 'e', 'l', 'l', 'o', 'w']
    } else if i == 3 {
        seq!['g', 'r', 'e', 'e', 'n']
    } else if i == 4 {
        seq!['o', 'r', 'a', 'n', 'g', 'e']
    } else {
        seq!['r', 'e', 'd']
    }
}

/// The slot of a color name, or -1 for a name that is not one of the six.
pub open spec fn color_slot(name: Seq<char>) -> int {
    if name == color_name(0) {
        0
    } else if name == color_name(1) {
        1
    } else if name == color_name(2) {
        2
    } else if name == color_name(3) {
        3
    } else if name == color_name(4) {
        4
    } else if name == color_name(5) {
        5
    } else {
        -1
    }
}

/// What one line of the calibration file does.
pub enum LineOutcome {
    /// The line is blank, has the wrong shape, or names no known color.
    Skip,
    /// The line has the shape `name: r, g, b` but a component is not a `u16`.
    Malformed,
    /// The line sets color slot `.0` to `.1`.
    Assign(usize, ColorRef),
}

/// The outcome of one line `name: r, g, b`: blank lines, lines without exactly one `:`, and
/// lines without exactly two `,` after it are skipped; then the three components must be
/// `u16`s; then a line with an unknown name is skipped.
pub open spec fn line_outcome(line: Seq<char>) -> LineOutcome {
    let parts = split(line, ':');
    if trim(line).len() == 0 || parts.len() != 2 {
        LineOutcome::Skip
    } else {
        let rgb = split(parts[1], ',');
        if rgb.len() != 3 {
            LineOutcome::Skip
        } else {
            match (parse_u16(trim(rgb[0])), parse_u16(trim(rgb[1])), parse_u16(trim(rgb[2]))) {
                (Some(r), Some(g), Some(b)) => {
                    let slot = color_slot(trim(parts[0]));
                    if slot < 0 {
                        LineOutcome::Skip
                    } else {
                        LineOutcome::Assign(slot as usize, ColorRef { r, g, b })
                    }
                },
                _ => LineOutcome::Malformed,
            }
        }
    }
}

/// Six references of value zero.
pub open spec fn zero_refs() -> Seq<ColorRef> {
    Seq::new(6, |i: int| ColorRef { r: 0, g: 0, b: 0 })
}

/// The references after the first `n` lines, or `None` once a line is malformed.
pub open spec fn apply_lines(lines: Seq<Seq<char>>, n: int) -> Option<Seq<ColorRef>>
    decreases n,
{
    if n <= 0 {
        Some(zero_refs())
    } else {
        match apply_lines(lines, n - 1) {
            None => None,
            Some(refs) => match line_outcome(lines[n - 1]) {
                LineOutcome::Skip => Some(refs),
                LineOutcome::Malformed => None,
                LineOutcome::Assign(slot, c) => Some(refs.update(slot as int, c)),
            },
        }
    }
}

/// The references a calibration file holds: every line of the text in turn, starting from
/// six zero references; `None` when a line is malformed.
pub open spec fn parse_calibration(text: Seq<char>) -> Option<Seq<ColorRef>> {
    let lines = split(text, '\n');
    apply_lines(lines, lines.len() as int)
}

proof fn lemma_apply_lines_stays_none(lines: Seq<Seq<char>>, n: int, m: int)
    requires
        0 <= n <= m,
        apply_lines(lines, n) is None,
    ensures
        apply_lines(lines, m) is None,
    decreases m - n,
{
    if n < m {
        lemma_apply_lines_stays_none(lines, n + 1, m);
    }
}

/// The slot of a color name, or `None`.
fn color_slot_of(name: &[char]) -> (res: Option<usize>)
    ensures
        match res {
            Some(i) => i < COLORS && color_slot(name@) == i,
            None => color_slot(name@) == -1,
        },
{
    let white: [char; 5] = ['w', 'h', 'i', 't', 'e'];
    let blue: [char; 4] = ['b', 'l', 'u', 'e'];
    let yellow: [char; 6] = ['y', 'e', 'l', 'l', 'o', 'w'];
    let green: [char; 5] = ['g', 'r', 'e', 'e', 'n'];
    let orange: [char; 6] = ['o', 'r', 'a', 'n', 'g', 'e'];
    let red: [char; 3] = ['r', 'e', 'd'];
    assert(white@ =~= color_name(0));
    assert(blue@ =~= color_name(1));
    assert(yellow@ =~= color_name(2));
    assert(green@ =~= color_name(3));
    assert(orange@ =~= color_name(4));
    assert(red@ =~= color_name(5));
    if chars_equal(name, &white) {
        Some(0)
    } else if chars_equal(name, &blue) {
        Some(1)
    } else if chars_equal(name, &yellow) {
        Some(2)
    } else if chars_equal(name, &green) {
        Some(3)
    } else if chars_equal(name, &orange) {
        Some(4)
    } else if chars_equal(name, &red) {
        Some(5)
    } else {
        None
    }
}

/// What one line of the calibration file does.
pub fn classify_line(line: &[char]) -> (res: LineOutcome)
    ensures
        res == line_outcome(line@),
{
    let trimmed = trim_chars(line);
    let parts = split_chars(line, ':');
    proof {
        assert(fields_view(parts@).len() == parts@.len());
    }
    if trimmed.len() == 0 || parts.len() != 2 {
        return LineOutcome::Skip;
    }
    assert(fields_view(parts@)[1] == parts@[1]@);
    assert(fields_view(parts@)[0] == parts@[0]@);
    let rgb = split_chars(parts[1].as_slice(), ',');
    proof {
        assert(fields_view(rgb@).len() == rgb@.len());
    }
    if rgb.len() != 3 {
        return LineOutcome::Skip;
    }
    assert(fields_view(rgb@)[0] == rgb@[0]@);
    assert(fields_view(rgb@)[1] == rgb@[1]@);
    assert(fields_view(rgb@)[2] == rgb@[2]@);
    let r_text = trim_chars(rgb[0].as_slice());
    let g_text = trim_chars(rgb[1].as_slice());
    let b_text = trim_chars(rgb[2].as_slice());
    let r = parse_u16_chars(r_text.as_slice());
    let g = parse_u16_chars(g_text.as_slice());
    let b = parse_u16_chars(b_text.as_slice());
    match (r, g, b) {
        (Some(r), Some(g), Some(b)) => {
            let name = trim_chars(parts[0].as_slice());
            match color_slot_of(name.as_slice()) {
                Some(slot) => LineOutcome::Assign(slot, ColorRef { r, g, b }),
                None => LineOutcome::Skip,
            }
        },
        _ => LineOutcome::Malformed,
    }
}

impl CalibrationData {
    /// The references stored in the text of a calibration file: each line `name: r, g, b`
    /// with `name` one of white, blue, yellow, green, orange, red sets that color; other
    /// lines are skipped; colors without a line stay zero. `None` when a line of that shape
    /// has a component that is not a `u16`.
    pub fn parse(text: &[char]) -> (res: Option<CalibrationData>)
        ensures
            match res {
                Some(data) => parse_calibration(text@) == Some(data.colors@),
                None => parse_calibration(text@) is None,
            },
    {
        let lines = split_chars(text, '\n');
        let ghost lv = fields_view(lines@);
        let mut colors: [ColorRef; 6] = [ColorRef { r: 0, g: 0, b: 0 }; 6];
        assert(colors@ =~= zero_refs());
        for k in 0..lines.len()
            invariant
                lv == fields_view(lines@),
                lv == split(text@, '\n'),
                apply_lines(lv, k as int) == Some(colors@),
        {
            assert(lv[k as int] == lines@[k as int]@);
            match classify_line(lines[k].as_slice()) {
                LineOutcome::Skip => {},
                LineOutcome::Malformed => {
                    proof {
                        lemma_apply_lines_stays_none(lv, k + 1, lv.len() as int);
                    }
                    return None;
                },
                LineOutcome::Assign(slot, c) => {
                    proof {
                        assert(slot < COLORS) by {
                            if slot >= COLORS {
                                assert(color_slot(trim(split(lv[k as int], ':')[0])) < COLORS);
                            }
                        }
                    }
                    colors[slot] = c;
                },
            }
        }
        Some(CalibrationData { colors })
    }
}


// ---------------------------------------------------------------------------
// Writing a calibration file
// ---------------------------------------------------------------------------

/// The character of a decimal digit.
pub open spec fn digit_char(d: int) -> char {
    (('0' as int) + d) as char
}

/// The decimal text of `n`, as `Display` writes it.
pub open spec fn decimal(n: nat) -> Seq<char>
    decreases n,
{
    if n < 10 {
        seq![digit_char(n as int)]
    } else {
        decimal(n / 10).push(digit_char((n % 10) as int))
    }
}

/// A component as written after its separator: a space, then the decimal text.
pub open spec fn component_text(n: u16) -> Seq<char> {
    seq![' '] + decimal(n as nat)
}

/// The record of color slot `i`: `name: r, g, b`.
pub open spec fn calibration_record(i: int, c: ColorRef) -> Seq<char> {
    color_name(i) + seq![':'] + (component_text(c.r) + seq![','] + component_text(c.g) + seq![',']
        + component_text(c.b))
}

/// The first `k` lines of a calibration file for `colors`.
pub open spec fn calibration_text_prefix(colors: Seq<ColorRef>, k: int) -> Seq<char>
    decreases k,
{
    if k <= 0 {
        Seq::<char>::empty()
    } else {
        calibration_text_prefix(colors, k - 1) + calibration_record(k - 1, colors[k - 1]).push('\n')
    }
}

/// The calibration file for `colors`: one line per color, in slot order.
pub open spec fn calibration_text(colors: Seq<ColorRef>) -> Seq<char> {
    calibration_text_prefix(colors, COLORS as int)
}

fn digit_to_char(d: u16) -> (c: char)
    requires
        d < 10,
    ensures
        c == digit_char(d as int),
{
    if d == 0 {
        '0'
    } else if d == 1 {
        '1'
    } else if d == 2 {
        '2'
    } else if d == 3 {
        '3'
    } else if d == 4 {
        '4'
    } else if d == 5 {
        '5'
    } else if d == 6 {
        '6'
    } else if d == 7 {
        '7'
    } else if d == 8 {
        '8'
    } else {
        '9'
    }
}

/// Append the decimal text of `n`.
fn push_decimal(out: &mut Vec<char>, n: u16)
    ensures
        final(out)@ == old(out)@ + decimal(n as nat),
    decreases n,
{
    if n >= 10 {
        push_decimal(out, n / 10);
    }
    out.push(digit_to_char(n % 10));
    assert(final(out)@ =~= old(out)@ + decimal(n as nat));
}

/// Append the name of color slot `i`.
fn push_color_name(out: &mut Vec<char>, i: usize)
    requires
        i < COLORS,
    ensures
        final(out)@ == old(out)@ + color_name(i as int),
{
    let ghost start = out@;
    if i == 0 {
        out.push('w');
        out.push('h');
        out.push('i');
        out.push('t');
        out.push('e');
    } else if i == 1 {
        out.push('b');
        out.push('l');
        out.push('u');
        out.push('e');
    } else if i == 2 {
        out.push('y');
        out.push('e');
        out.push('l');
        out.push('l');
        out.push('o');
        out.push('w');
    } else if i == 3 {
        out.push('g');
        out.push('r');
        out.push('e');
        out.push('e');
        out.push('n');
    } else if i == 4 {
        out.push('o');
        out.push('r');
        out.push('a');
        out.push('n');
        out.push('g');
        out.push('e');
    } else {
        out.push('r');
        out.push('e');
        out.push('d');
    }
    assert(out@ =~= start + color_name(i as int));
}

/// Append the line of color slot `i`.
fn push_calibration_line(out: &mut Vec<char>, i: usize, c: ColorRef)
    requires
        i < COLORS,
    ensures
        final(out)@ == old(out)@ + calibration_record(i as int, c).push('\n'),
{
    let ghost start = out@;
    push_color_name(out, i);
    out.push(':');
    out.push(' ');
    push_decimal(out, c.r);
    out.push(',');
    out.push(' ');
    push_decimal(out, c.g);
    out.push(',');
    out.push(' ');
    push_decimal(out, c.b);
    out.push('\n');
    assert(out@ =~= start + calibration_record(i as int, c).push('\n'));
}

/// The line of the calibration file for color slot `slot`: `name: r, g, b` and a newline.
pub fn calibration_line(slot: usize, c: ColorRef) -> (line: Vec<char>)
    requires
        slot < COLORS,
    ensures
        line@ == calibration_record(slot as int, c).push('\n'),
{
    let mut line: Vec<char> = Vec::new();
    push_calibration_line(&mut line, slot, c);
    assert(line@ =~= calibration_record(slot as int, c).push('\n'));
    line
}

impl CalibrationData {
    /// The text of the calibration file for these references: for each color, in the order
    /// white, blue, yellow, green, orange, red, a line `name: r, g, b`.
    pub fn to_text(&self) -> (text: Vec<char>)
        ensures
            text@ == calibration_text(self.colors@),
    {
        let mut text: Vec<char> = Vec::new();
        for i in 0..COLORS
            invariant
                text@ == calibration_text_prefix(self.colors@, i as int),
        {
            push_calibration_line(&mut text, i, self.colors[i]);
        }
        text
    }
}


// ---------------------------------------------------------------------------
// Reading back what was written
// ---------------------------------------------------------------------------

/// `s` does not contain `c`.
pub open spec fn lacks(s: Seq<char>, c: char) -> bool {
    forall|i: int| 0 <= i < s.len() ==> s[i] != c
}

proof fn lemma_split_len(s: Seq<char>, sep: char)
    ensures
        split(s, sep).len() >= 1,
    decreases s.len(),
{
    if s.len() > 0 {
        lemma_split_len(s.drop_last(), sep);
    }
}

/// Appending text without separators extends the last field.
proof fn lemma_split_append(s: Seq<char>, t: Seq<char>, sep: char)
    requires
        lacks(t, sep),
    ensures
        split(s + t, sep) == split(s, sep).update(split(s, sep).len() - 1, split(s, sep).last() + t),
    decreases t.len(),
{
    lemma_split_len(s, sep);
    let fs = split(s, sep);
    if t.len() == 0 {
        assert(s + t =~= s);
        assert(fs.last() + t =~= fs.last());
        assert(fs.update(fs.len() - 1, fs.last() + t) =~= fs);
    } else {
        let t0 = t.drop_last();
        assert(lacks(t0, sep));
        lemma_split_append(s, t0, sep);
        assert((s + t).drop_last() =~= s + t0);
        assert((s + t).last() == t.last());
        assert(t.last() != sep);
        assert((fs.last() + t0).push(t.last()) =~= fs.last() + t);
        assert(split(s + t, sep) =~= fs.update(fs.len() - 1, fs.last() + t));
    }
}

/// Appending a separator starts a new, empty field.
proof fn lemma_split_push_sep(s: Seq<char>, sep: char)
    ensures
        split(s.push(sep), sep) == split(s, sep).push(Seq::<char>::empty()),
{
    assert(s.push(sep).drop_last() =~= s);
}

proof fn lemma_split_one(a: Seq<char>, sep: char)
    requires
        lacks(a, sep),
    ensures
        split(a, sep) == seq![a],
{
    let e = Seq::<char>::empty();
    lemma_split_append(e, a, sep);
    assert(e + a =~= a);
    assert(split(e, sep) =~= seq![e]);
    assert(seq![e].update(0, e + a) =~= seq![a]);
}

proof fn lemma_split_two(a: Seq<char>, b: Seq<char>, sep: char)
    requires
        lacks(a, sep),
        lacks(b, sep),
    ensures
        split(a + seq![sep] + b, sep) == seq![a, b],
{
    lemma_split_one(a, sep);
    lemma_split_push_sep(a, sep);
    assert(a + seq![sep] =~= a.push(sep));
    lemma_split_append(a.push(sep), b, sep);
    assert(Seq::<char>::empty() + b =~= b);
    assert(seq![a].push(Seq::<char>::empty()).update(1, Seq::<char>::empty() + b) =~= seq![a, b]);
}

proof fn lemma_split_three(a: Seq<char>, b: Seq<char>, c: Seq<char>, sep: char)
    requires
        lacks(a, sep),
        lacks(b, sep),
        lacks(c, sep),
    ensures
        split(a + seq![sep] + b + seq![sep] + c, sep) == seq![a, b, c],
{
    lemma_split_two(a, b, sep);
    let ab = a + seq![sep] + b;
    lemma_split_push_sep(ab, sep);
    assert(ab + seq![sep] =~= ab.push(sep));
    lemma_split_append(ab.push(sep), c, sep);
    assert(Seq::<char>::empty() + c =~= c);
    assert(seq![a, b].push(Seq::<char>::empty()).update(2, Seq::<char>::empty() + c) =~= seq![a, b, c]);
}

proof fn lemma_trim_plain(s: Seq<char>)
    requires
        s.len() > 0,
        !is_white_space(s[0]),
        !is_white_space(s.last()),
    ensures
        trim(s) == s,
{
}

proof fn lemma_decimal(n: nat)
    ensures
        decimal(n).len() > 0,
        all_digits(decimal(n)),
        digits_value(decimal(n)) == n,
    decreases n,
{
    if n < 10 {
        assert(decimal(n).drop_last() =~= Seq::<char>::empty());
        assert(is_digit(decimal(n)[0]));
        assert(digit_value(digit_char(n as int)) == n);
        assert(decimal(n).last() == digit_char(n as int));
        assert(digits_value(decimal(n)) == digits_value(decimal(n).drop_last()) * 10 + digit_value(decimal(n).last()));
        assert(digits_value(Seq::<char>::empty()) == 0);
    } else {
        lemma_decimal(n / 10);
        let d = decimal(n);
        assert(d.drop_last() =~= decimal(n / 10));
        assert(digit_value(digit_char((n % 10) as int)) == n % 10);
        assert((n / 10) * 10 + n % 10 == n);
        assert(d.last() == digit_char((n % 10) as int));
        assert(digits_value(d) == digits_value(d.drop_last()) * 10 + digit_value(d.last()));
        assert forall|i: int| 0 <= i < d.len() implies #[trigger] is_digit(d[i]) by {
            if i < d.len() - 1 {
                assert(d[i] == decimal(n / 10)[i]);
            }
        }
    }
}

proof fn lemma_digits_lack(s: Seq<char>, c: char)
    requires
        all_digits(s),
        !is_digit(c),
    ensures
        lacks(s, c),
{
    assert forall|i: int| 0 <= i < s.len() implies s[i] != c by {
        assert(is_digit(s[i]));
    }
}

proof fn lemma_component(n: u16)
    ensures
        lacks(component_text(n), ','),
        lacks(component_text(n), ':'),
        lacks(component_text(n), '\n'),
        trim(component_text(n)) == decimal(n as nat),
        parse_u16(decimal(n as nat)) == Some(n),
        !is_white_space(component_text(n).last()),
{
    let d = decimal(n as nat);
    lemma_decimal(n as nat);
    lemma_digits_lack(d, ',');
    lemma_digits_lack(d, ':');
    lemma_digits_lack(d, '\n');
    let t = component_text(n);
    assert(is_digit(d[0]));
    assert(is_digit(d[d.len() - 1]));
    assert(t.drop_first() =~= d);
    assert(t.last() == d.last());
    lemma_trim_plain(d);
    assert(trim_start(t) == trim_start(d));
    assert forall|i: int| 0 <= i < t.len() implies t[i] != ',' && t[i] != ':' && t[i] != '\n' by {
        if i > 0 {
            assert(t[i] == d[i - 1]);
        }
    }
}

proof fn lemma_color_name(i: int)
    requires
        0 <= i < COLORS,
    ensures
        color_slot(color_name(i)) == i,
        lacks(color_name(i), ':'),
        lacks(color_name(i), '\n'),
        color_name(i).len() > 0,
        !is_white_space(color_name(i)[0]),
        trim(color_name(i)) == color_name(i),
{
    let n = color_name(i);
    assert(n.len() > 0);
    assert(!is_white_space(n[0]));
    assert(!is_white_space(n.last()));
    lemma_trim_plain(n);
    if i == 1 {
        assert(n.len() != color_name(0).len());
    } else if i == 2 {
        assert(n.len() != color_name(0).len());
        assert(n.len() != color_name(1).len());
    } else if i == 3 {
        assert(n[0] != color_name(0)[0]);
        assert(n.len() != color_name(1).len());
        assert(n.len() != color_name(2).len());
    } else if i == 4 {
        assert(n.len() != color_name(0).len());
        assert(n.len() != color_name(1).len());
        assert(n[0] != color_name(2)[0]);
        assert(n.len() != color_name(3).len());
    } else if i == 5 {
        assert(n.len() != color_name(0).len());
        assert(n.len() != color_name(1).len());
        assert(n.len() != color_name(2).len());
        assert(n.len() != color_name(3).len());
        assert(n.len() != color_name(4).len());
    }
}

/// A written line reads back as the color it was written for.
proof fn lemma_record_outcome(i: int, c: ColorRef)
    requires
        0 <= i < COLORS,
    ensures
        line_outcome(calibration_record(i, c)) == LineOutcome::Assign(i as usize, c),
        lacks(calibration_record(i, c), '\n'),
{
    let name = color_name(i);
    let (cr, cg, cb) = (component_text(c.r), component_text(c.g), component_text(c.b));
    let rest = cr + seq![','] + cg + seq![','] + cb;
    let rec = calibration_record(i, c);
    lemma_color_name(i);
    lemma_component(c.r);
    lemma_component(c.g);
    lemma_component(c.b);
    assert(rec =~= name + seq![':'] + rest);
    assert(lacks(rest, ':')) by {
        assert forall|k: int| 0 <= k < rest.len() implies rest[k] != ':' by {
            if k < cr.len() {
                assert(rest[k] == cr[k]);
            } else if k == cr.len() {
            } else if k < cr.len() + 1 + cg.len() {
                assert(rest[k] == cg[k - cr.len() - 1]);
            } else if k == cr.len() + 1 + cg.len() {
            } else {
                assert(rest[k] == cb[k - cr.len() - cg.len() - 2]);
            }
        }
    }
    assert(lacks(rec, '\n')) by {
        assert forall|k: int| 0 <= k < rec.len() implies rec[k] != '\n' by {
            if k < name.len() {
                assert(rec[k] == name[k]);
            } else if k == name.len() {
            } else {
                let j = k - name.len() - 1;
                assert(rec[k] == rest[j]);
                if j < cr.len() {
                    assert(rest[j] == cr[j]);
                } else if j == cr.len() {
                } else if j < cr.len() + 1 + cg.len() {
                    assert(rest[j] == cg[j - cr.len() - 1]);
                } else if j == cr.len() + 1 + cg.len() {
                } else {
                    assert(rest[j] == cb[j - cr.len() - cg.len() - 2]);
                }
            }
        }
    }
    lemma_split_two(name, rest, ':');
    lemma_split_three(cr, cg, cb, ',');
    assert(rec[0] == name[0]);
    assert(rec.last() == cb.last());
    lemma_trim_plain(rec);
    let parts = split(rec, ':');
    assert(parts =~= seq![name, rest]);
    assert(split(parts[1], ',') =~= seq![cr, cg, cb]);
}

/// The lines of a written file: one record per color so far, then an empty remainder.
proof fn lemma_text_lines(colors: Seq<ColorRef>, k: int)
    requires
        0 <= k <= COLORS,
        colors.len() == COLORS,
    ensures
        split(calibration_text_prefix(colors, k), '\n') == Seq::new(
            k as nat,
            |j: int| calibration_record(j, colors[j]),
        ).push(Seq::<char>::empty()),
    decreases k,
{
    if k == 0 {
        assert(split(Seq::<char>::empty(), '\n') =~= seq![Seq::<char>::empty()]);
        assert(Seq::new(0, |j: int| calibration_record(j, colors[j])).push(Seq::<char>::empty())
            =~= seq![Seq::<char>::empty()]);
    } else {
        lemma_text_lines(colors, k - 1);
        let prev = calibration_text_prefix(colors, k - 1);
        let rec = calibration_record(k - 1, colors[k - 1]);
        lemma_record_outcome(k - 1, colors[k - 1]);
        lemma_split_append(prev, rec, '\n');
        lemma_split_push_sep(prev + rec, '\n');
        assert(calibration_text_prefix(colors, k) =~= (prev + rec).push('\n'));
        assert(Seq::<char>::empty() + rec =~= rec);
        assert(Seq::new((k - 1) as nat, |j: int| calibration_record(j, colors[j])).push(
            Seq::<char>::empty(),
        ).update(k - 1, Seq::<char>::empty() + rec).push(Seq::<char>::empty()) =~= Seq::new(
            k as nat,
            |j: int| calibration_record(j, colors[j]),
        ).push(Seq::<char>::empty()));
    }
}

/// The references after the first `k` lines of a written file.
pub open spec fn refs_after(colors: Seq<ColorRef>, k: int) -> Seq<ColorRef> {
    Seq::new(COLORS as nat, |j: int| if j < k { colors[j] } else { ColorRef { r: 0, g: 0, b: 0 } })
}

proof fn lemma_apply_written_lines(colors: Seq<ColorRef>, lines: Seq<Seq<char>>, k: int)
    requires
        0 <= k <= COLORS,
        colors.len() == COLORS,
        lines.len() == COLORS + 1,
        forall|j: int| 0 <= j < COLORS ==> #[trigger] lines[j] == calibration_record(j, colors[j]),
    ensures
        apply_lines(lines, k) == Some(refs_after(colors, k)),
    decreases k,
{
    if k == 0 {
        assert(refs_after(colors, 0) =~= zero_refs());
    } else {
        lemma_apply_written_lines(colors, lines, k - 1);
        lemma_record_outcome(k - 1, colors[k - 1]);
        assert(lines[k - 1] == calibration_record(k - 1, colors[k - 1]));
        assert(refs_after(colors, k - 1).update(k - 1, colors[k - 1]) =~= refs_after(colors, k));
    }
}

/// What `to_text` writes, `parse` reads back: the text of the calibration file for six
/// references holds exactly those references.
pub proof fn lemma_calibration_round_trip(colors: Seq<ColorRef>)
    requires
        colors.len() == COLORS,
    ensures
        parse_calibration(calibration_text(colors)) == Some(colors),
{
    lemma_text_lines(colors, COLORS as int);
    let lines = split(calibration_text(colors), '\n');
    assert(lines.len() == COLORS + 1);
    assert forall|j: int| 0 <= j < COLORS implies #[trigger] lines[j] == calibration_record(j, colors[j]) by {}
    lemma_apply_written_lines(colors, lines, COLORS as int);
    assert(lines[COLORS as int] == Seq::<char>::empty());
    assert(trim(Seq::<char>::empty()) == Seq::<char>::empty());
    assert(refs_after(colors, COLORS as int) =~= colors);
}

/// The references after applying one line's outcome to `before`.
pub open spec fn after_line(before: Option<Seq<ColorRef>>, outcome: LineOutcome) -> Option<Seq<ColorRef>> {
    match before {
        None => None,
        Some(refs) => match outcome {
            LineOutcome::Skip => Some(refs),
            LineOutcome::Malformed => None,
            LineOutcome::Assign(slot, c) => Some(refs.update(slot as int, c)),
        },
    }
}

/// Applying lines depends only on the lines applied.
proof fn lemma_apply_lines_agree(a: Seq<Seq<char>>, b: Seq<Seq<char>>, n: int)
    requires
        0 <= n,
        forall|i: int| 0 <= i < n ==> a[i] == b[i],
    ensures
        apply_lines(a, n) == apply_lines(b, n),
    decreases n,
{
    if n > 0 {
        lemma_apply_lines_agree(a, b, n - 1);
        assert(a[n - 1] == b[n - 1]);
    }
}

/// A text that is empty or ends with a line break: whole lines only.
pub open spec fn whole_lines(text: Seq<char>) -> bool {
    text.len() == 0 || text.last() == '\n'
}

/// Every line of the calibration file counts, wherever it stands: reading a text of whole
/// lines followed by one more line gives what the text alone gives, changed by that line as
/// `line_outcome` says (kept for a skipped line, `None` for a malformed one, one color set for
/// an assignment).
pub proof fn lemma_parse_one_more_line(text: Seq<char>, line: Seq<char>)
    requires
        whole_lines(text),
        lacks(line, '\n'),
    ensures
        parse_calibration(text + line.push('\n')) == after_line(parse_calibration(text), line_outcome(line)),
{
    let ls = split(text, '\n');
    lemma_split_len(text, '\n');
    let n = ls.len() as int;
    // The last field of a text of whole lines is empty.
    assert(ls.last() == Seq::<char>::empty()) by {
        if text.len() > 0 {
            lemma_split_push_sep(text.drop_last(), '\n');
            assert(text.drop_last().push('\n') =~= text);
        }
    }
    lemma_split_append(text, line, '\n');
    lemma_split_push_sep(text + line, '\n');
    assert((text + line).push('\n') =~= text + line.push('\n'));
    let ls2 = ls.update(n - 1, line).push(Seq::<char>::empty());
    assert(ls.last() + line =~= line);
    assert(split(text + line.push('\n'), '\n') =~= ls2);
    assert(trim(Seq::<char>::empty()) == Seq::<char>::empty());
    assert(line_outcome(Seq::<char>::empty()) == LineOutcome::Skip);
    lemma_apply_lines_agree(ls, ls2, n - 1);
    assert(ls2[n - 1] == line);
    assert(ls2[n] == Seq::<char>::empty());
    assert(ls[n - 1] == Seq::<char>::empty());
    assert(apply_lines(ls, n) == apply_lines(ls, n - 1));
    assert(apply_lines(ls2, n) == after_line(apply_lines(ls2, n - 1), line_outcome(line)));
    assert(apply_lines(ls2, n + 1) == apply_lines(ls2, n));
    assert(ls2.len() == n + 1);
}

/// A blank line anywhere between whole lines changes nothing: reading `before`, a blank line,
/// then `after` gives what reading `before` and `after` gives.
pub proof fn lemma_parse_blank_line(before: Seq<char>, after: Seq<char>)
    requires
        whole_lines(before),
        whole_lines(after),
    ensures
        parse_calibration(before + seq!['\n'] + after) == parse_calibration(before + after),
    decreases after.len(),
{
    let nl = seq!['\n'];
    if after.len() == 0 {
        assert(before + nl + after =~= before + Seq::<char>::empty().push('\n'));
        assert(before + after =~= before);
        assert(lacks(Seq::<char>::empty(), '\n'));
        lemma_parse_one_more_line(before, Seq::<char>::empty());
        assert(trim(Seq::<char>::empty()) == Seq::<char>::empty());
    } else {
        // Split off the last line of `after`.
        let body = after.drop_last();
        let k = last_break(body);
        let head = body.subrange(0, k);
        let line = body.subrange(k, body.len() as int);
        assert(head + line.push('\n') =~= after);
        assert(whole_lines(head));
        lemma_parse_blank_line(before, head);
        assert(whole_lines(before + nl + head));
        assert(whole_lines(before + head));
        lemma_parse_one_more_line(before + nl + head, line);
        lemma_parse_one_more_line(before + head, line);
        assert(before + nl + head + line.push('\n') =~= before + nl + after);
        assert(before + head + line.push('\n') =~= before + after);
    }
}

/// The position just after the last line break of `s`, or zero: what follows it has none.
proof fn last_break(s: Seq<char>) -> (k: int)
    ensures
        0 <= k <= s.len(),
        k == 0 || s[k - 1] == '\n',
        forall|i: int| k <= i < s.len() ==> s[i] != '\n',
    decreases s.len(),
{
    if s.len() == 0 {
        0
    } else if s.last() == '\n' {
        s.len() as int
    } else {
        let k = last_break(s.drop_last());
        assert forall|i: int| k <= i < s.len() implies s[i] != '\n' by {
            if i < s.len() - 1 {
                assert(s.drop_last()[i] == s[i]);
            }
        }
        k
    }
}

} // verus!
