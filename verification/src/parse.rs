//! Reading the log: one paint event per line.
//!
//! A line holds six fields, separated by single spaces: the artist, `x`,
//! `y`, red, green and blue. Commas at the end of a field are dropped before
//! the field is read, so `1, 2, 3, 4, 5, 6` and `1 2 3 4 5 6` are the same
//! event. A field is a decimal number: an optional `+`, or for a coordinate
//! an optional sign, then one digit or more, and nothing else.

use vstd::prelude::*;
use vstd::slice::slice_subrange;
use crate::geometry::{CanvasPixel, Color, Point};
use crate::model::Canvas;
use crate::views::views;

verus! {

/// The byte that separates two fields.
pub const SPACE: u8 = 32;

/// The byte that may trail a field.
pub const COMMA: u8 = 44;

/// The sign `+`.
pub const PLUS: u8 = 43;

/// The sign `-`.
pub const MINUS: u8 = 45;

/// What a field of a line stands for.
#[derive(Clone, Copy, Debug, PartialEq, Eq, Structural)]
pub enum FieldRole {
    /// The first field: the artist's id, from 0 to 4294967295.
    Artist,
    /// The second field: the column, from -32768 to 32767.
    X,
    /// The third field: the row, from -32768 to 32767.
    Y,
    /// The fourth field: the red channel, from 0 to 255.
    Red,
    /// The fifth field: the green channel, from 0 to 255.
    Green,
    /// The sixth field: the blue channel, from 0 to 255.
    Blue,
}

impl FieldRole {
    /// Whether the field may carry the sign `-`.
    pub open spec fn signed(self) -> bool {
        self == FieldRole::X || self == FieldRole::Y
    }

    /// The least number that the field may hold.
    pub open spec fn lowest(self) -> int {
        if self.signed() {
            -32768
        } else {
            0
        }
    }

    /// The greatest number that the field may hold.
    pub open spec fn highest(self) -> int {
        match self {
            FieldRole::Artist => 4294967295,
            FieldRole::X => 32767,
            FieldRole::Y => 32767,
            FieldRole::Red => 255,
            FieldRole::Green => 255,
            FieldRole::Blue => 255,
        }
    }

    /// The field's position in the line, counted from 0.
    pub open spec fn position(self) -> int {
        match self {
            FieldRole::Artist => 0,
            FieldRole::X => 1,
            FieldRole::Y => 2,
            FieldRole::Red => 3,
            FieldRole::Green => 4,
            FieldRole::Blue => 5,
        }
    }

    /// Computes [`FieldRole::position`].
    pub fn index(&self) -> (i: usize)
        ensures
            i == self.position(),
    {
        match self {
            FieldRole::Artist => 0,
            FieldRole::X => 1,
            FieldRole::Y => 2,
            FieldRole::Red => 3,
            FieldRole::Green => 4,
            FieldRole::Blue => 5,
        }
    }

    /// Computes [`FieldRole::signed`].
    fn is_signed(&self) -> (b: bool)
        ensures
            b == self.signed(),
    {
        match self {
            FieldRole::X => true,
            FieldRole::Y => true,
            _ => false,
        }
    }

    /// Computes [`FieldRole::highest`].
    fn upper(&self) -> (v: u64)
        ensures
            v == self.highest(),
    {
        match self {
            FieldRole::Artist => 4294967295,
            FieldRole::X => 32767,
            FieldRole::Y => 32767,
            _ => 255,
        }
    }
}

/// Why a log cannot be read.
#[derive(Clone, Copy, Debug, PartialEq, Eq, Structural)]
pub enum ParseError {
    /// The line does not hold six fields.
    WrongFieldCount {
        /// The line's number, counted from 0.
        line: usize,
        /// The number of fields it holds.
        found: usize,
    },
    /// A field of the line is no number, or a number out of the field's
    /// range.
    InvalidField {
        /// The line's number, counted from 0.
        line: usize,
        /// The field.
        role: FieldRole,
    },
}

/// Whether `b` is one of the digits `0` to `9`.
pub open spec fn is_digit(b: u8) -> bool {
    48 <= b <= 57
}

/// Whether `s` holds digits only.
pub open spec fn all_digits(s: Seq<u8>) -> bool {
    forall|i: int| 0 <= i < s.len() ==> is_digit(#[trigger] s[i])
}

/// The number that the digits `s` denote in base ten. A byte that is no
/// digit counts as `0`.
pub open spec fn digits_value(s: Seq<u8>) -> nat
    decreases s.len(),
{
    if s.len() == 0 {
        0
    } else {
        digits_value(s.drop_last()) * 10 + if is_digit(s.last()) {
            (s.last() - 48) as nat
        } else {
            0
        }
    }
}

/// The number that `s` denotes without a sign: `s` is one digit or more.
pub open spec fn magnitude(s: Seq<u8>) -> Option<nat> {
    if s.len() > 0 && all_digits(s) {
        Some(digits_value(s))
    } else {
        None
    }
}

/// The number that `s` denotes: digits, behind an optional `+` or, where
/// `signed`, an optional `-`.
pub open spec fn number(s: Seq<u8>, signed: bool) -> Option<int> {
    if s.len() > 0 && s[0] == 43 {
        match magnitude(s.skip(1)) {
            Some(v) => Some(v as int),
            None => None,
        }
    } else if signed && s.len() > 0 && s[0] == 45 {
        match magnitude(s.skip(1)) {
            Some(v) => Some(-(v as int)),
            None => None,
        }
    } else {
        match magnitude(s) {
            Some(v) => Some(v as int),
            None => None,
        }
    }
}

/// The value of the field `s` in the role `role`: the number that `s`
/// denotes, if it lies in the role's range.
pub open spec fn field_value(s: Seq<u8>, role: FieldRole) -> Option<int> {
    match number(s, role.signed()) {
        Some(v) => if role.lowest() <= v <= role.highest() {
            Some(v)
        } else {
            None
        },
        None => None,
    }
}

/// The index of the first space of `s` at or behind `i`, or the length of
/// `s` if there is none.
pub open spec fn next_space(s: Seq<u8>, i: int) -> int
    decreases s.len() - i,
{
    if i >= s.len() {
        s.len() as int
    } else if s[i] == 32 {
        i
    } else {
        next_space(s, i + 1)
    }
}

/// The pieces into which the spaces cut the part of `s` that begins at `i`.
/// There is one piece more than there are spaces; a piece may be empty.
pub open spec fn fields_from(s: Seq<u8>, i: int) -> Seq<Seq<u8>>
    decreases s.len() - i,
{
    if i < 0 || i > s.len() {
        Seq::empty()
    } else {
        let j = next_space(s, i);
        if i <= j < s.len() {
            seq![s.subrange(i, j)] + fields_from(s, j + 1)
        } else {
            seq![s.subrange(i, s.len() as int)]
        }
    }
}

/// The pieces into which the spaces cut the line `s`.
pub open spec fn split_fields(s: Seq<u8>) -> Seq<Seq<u8>> {
    fields_from(s, 0)
}

/// The field `f` without the commas at its end.
pub open spec fn trim_commas(f: Seq<u8>) -> Seq<u8>
    decreases f.len(),
{
    if f.len() > 0 && f.last() == 44 {
        trim_commas(f.drop_last())
    } else {
        f
    }
}

/// What the line `s` with the number `line` holds: the event, or the first
/// thing that is wrong with the line. The number of fields is looked at
/// first, then the fields from left to right.
pub open spec fn parsed_line(s: Seq<u8>, line: usize) -> Result<CanvasPixel, ParseError> {
    let fields = split_fields(s);
    if fields.len() != 6 {
        Err(ParseError::WrongFieldCount { line, found: fields.len() as usize })
    } else {
        match field_value(trim_commas(fields[0]), FieldRole::Artist) {
            None => Err(ParseError::InvalidField { line, role: FieldRole::Artist }),
            Some(artist) => match field_value(trim_commas(fields[1]), FieldRole::X) {
                None => Err(ParseError::InvalidField { line, role: FieldRole::X }),
                Some(x) => match field_value(trim_commas(fields[2]), FieldRole::Y) {
                    None => Err(ParseError::InvalidField { line, role: FieldRole::Y }),
                    Some(y) => match field_value(trim_commas(fields[3]), FieldRole::Red) {
                        None => Err(ParseError::InvalidField { line, role: FieldRole::Red }),
                        Some(r) => match field_value(trim_commas(fields[4]), FieldRole::Green) {
                            None => Err(ParseError::InvalidField { line, role: FieldRole::Green }),
                            Some(g) => match field_value(trim_commas(fields[5]), FieldRole::Blue) {
                                None => Err(
                                    ParseError::InvalidField { line, role: FieldRole::Blue },
                                ),
                                Some(b) => Ok(
                                    CanvasPixel {
                                        artist: artist as u32,
                                        coord: Point { x: x as i16, y: y as i16 },
                                        color: Color { r: r as u8, g: g as u8, b: b as u8 },
                                    },
                                ),
                            },
                        },
                    },
                },
            },
        }
    }
}

/// What the first `n` lines hold: their events in order, or the error of
/// the first line that has one.
pub open spec fn parsed_log(lines: Seq<Seq<u8>>, n: int) -> Result<Seq<CanvasPixel>, ParseError>
    decreases n,
{
    if n <= 0 {
        Ok(Seq::empty())
    } else {
        match parsed_log(lines, n - 1) {
            Err(e) => Err(e),
            Ok(events) => match parsed_line(lines[n - 1], (n - 1) as usize) {
                Err(e) => Err(e),
                Ok(event) => Ok(events.push(event)),
            },
        }
    }
}

/// The bytes of each line of text.
pub open spec fn bytes_of(lines: Seq<String>) -> Seq<Seq<u8>> {
    Seq::new(lines.len(), |i: int| vstd::utf8::encode_utf8(lines[i]@))
}

/// A longer run of digits denotes no smaller number.
proof fn lemma_digits_grow(s: Seq<u8>, i: int)
    requires
        0 <= i <= s.len(),
    ensures
        digits_value(s.take(i)) <= digits_value(s),
    decreases s.len() - i,
{
    if i < s.len() {
        lemma_digits_grow(s, i + 1);
        assert(s.take(i + 1).drop_last() =~= s.take(i));
        assert(digits_value(s.take(i)) * 10 >= digits_value(s.take(i))) by (nonlinear_arith);
    } else {
        assert(s.take(i) =~= s);
    }
}

/// Reads a run of digits. Returns the number if `text` is one digit or
/// more and the number is at most `limit`.
fn parse_digits(text: &[u8], limit: u64) -> (r: Option<u64>)
    requires
        limit <= 0xFFFF_FFFF,
    ensures
        r == (match magnitude(text@) {
            Some(v) => if v <= limit {
                Some(v as u64)
            } else {
                None
            },
            None => None,
        }),
{
    let n = text.len();
    if n == 0 {
        return None;
    }
    let mut acc: u64 = 0;
    let mut i: usize = 0;
    while i < n
        invariant
            i <= n == text@.len(),
            all_digits(text@.take(i as int)),
            acc == digits_value(text@.take(i as int)),
            acc <= limit <= 0xFFFF_FFFF,
        decreases n - i,
    {
        let b = text[i];
        if b < 48 || b > 57 {
            assert(!is_digit(text@[i as int]));
            return None;
        }
        let next: u64 = acc * 10 + (b - 48) as u64;
        proof {
            assert(text@.take(i + 1).drop_last() =~= text@.take(i as int));
            assert(text@.take(i + 1).last() == b);
            assert forall|k: int| 0 <= k < i + 1 implies is_digit(#[trigger] text@.take(i + 1)[k]) by {
                if k < i {
                    assert(is_digit(text@.take(i as int)[k]));
                }
            }
        }
        if next > limit {
            proof {
                lemma_digits_grow(text@, i + 1);
            }
            return None;
        }
        acc = next;
        i = i + 1;
    }
    assert(text@.take(n as int) =~= text@);
    Some(acc)
}

/// Reads one field in the role `role`. `line_num` is the number of the
/// line that holds the field.
///
/// Returns the field's value, or the error that names the field and the
/// line if the field is no number in the role's range.
pub fn try_parse(text: &[u8], role: FieldRole, line_num: usize) -> (r: Result<i64, ParseError>)
    ensures
        r == (match field_value(text@, role) {
            Some(v) => Ok::<i64, ParseError>(v as i64),
            None => Err::<i64, ParseError>(ParseError::InvalidField { line: line_num, role }),
        }),
{
    let n = text.len();
    let failed: Result<i64, ParseError> = Err(ParseError::InvalidField { line: line_num, role });
    if n > 0 && text[0] == PLUS {
        let digits = slice_subrange(text, 1, n);
        assert(digits@ =~= text@.skip(1));
        match parse_digits(digits, role.upper()) {
            Some(v) => Ok(v as i64),
            None => failed,
        }
    } else if role.is_signed() && n > 0 && text[0] == MINUS {
        let digits = slice_subrange(text, 1, n);
        assert(digits@ =~= text@.skip(1));
        match parse_digits(digits, 32768) {
            Some(v) => Ok(-(v as i64)),
            None => failed,
        }
    } else {
        match parse_digits(text, role.upper()) {
            Some(v) => Ok(v as i64),
            None => failed,
        }
    }
}

/// Where no space stands between `i` and `j`, and `j` is a space or the
/// end, `j` is the next space from `i`.
pub proof fn lemma_next_space(s: Seq<u8>, i: int, j: int)
    requires
        0 <= i <= j <= s.len(),
        forall|k: int| i <= k < j ==> #[trigger] s[k] != 32,
        j < s.len() ==> s[j] == 32,
    ensures
        next_space(s, i) == j,
    decreases j - i,
{
    if i < j {
        lemma_next_space(s, i + 1, j);
    }
}

/// The end of the field from `start` to `end` once its trailing commas are
/// dropped.
fn trimmed_end(line: &[u8], start: usize, end: usize) -> (e: usize)
    requires
        start <= end <= line@.len(),
    ensures
        start <= e <= end,
        line@.subrange(start as int, e as int) == trim_commas(line@.subrange(start as int, end as int)),
{
    let mut e: usize = end;
    while e > start && line[e - 1] == COMMA
        invariant
            start <= e <= end <= line@.len(),
            trim_commas(line@.subrange(start as int, e as int)) == trim_commas(
                line@.subrange(start as int, end as int),
            ),
        decreases e,
    {
        assert(line@.subrange(start as int, e as int).drop_last() =~= line@.subrange(
            start as int,
            e - 1,
        ));
        e = e - 1;
    }
    e
}

/// The bounds of each field of the line, without the field's trailing
/// commas.
fn split_line(line: &[u8]) -> (bounds: Vec<(usize, usize)>)
    ensures
        bounds@.len() == split_fields(line@).len(),
        forall|k: int|
            0 <= k < bounds@.len() ==> {
                &&& (#[trigger] bounds@[k]).0 <= bounds@[k].1 <= line@.len()
                &&& line@.subrange(bounds@[k].0 as int, bounds@[k].1 as int) == trim_commas(
                    split_fields(line@)[k],
                )
            },
{
    let n = line.len();
    let mut bounds: Vec<(usize, usize)> = Vec::new();
    let ghost mut done: Seq<Seq<u8>> = Seq::empty();
    let mut start: usize = 0;
    let mut i: usize = 0;
    while i < n
        invariant
            start <= i <= n == line@.len(),
            forall|k: int| start <= k < i ==> #[trigger] line@[k] != 32,
            split_fields(line@) == done + fields_from(line@, start as int),
            bounds@.len() == done.len(),
            forall|k: int|
                0 <= k < bounds@.len() ==> {
                    &&& (#[trigger] bounds@[k]).0 <= bounds@[k].1 <= line@.len()
                    &&& line@.subrange(bounds@[k].0 as int, bounds@[k].1 as int) == trim_commas(
                        done[k],
                    )
                },
        decreases n - i,
    {
        if line[i] == SPACE {
            let e = trimmed_end(line, start, i);
            proof {
                lemma_next_space(line@, start as int, i as int);
                let field = line@.subrange(start as int, i as int);
                assert(fields_from(line@, start as int) == seq![field] + fields_from(line@, i + 1));
                assert(done + (seq![field] + fields_from(line@, i + 1)) =~= done.push(field)
                    + fields_from(line@, i + 1));
                done = done.push(field);
            }
            bounds.push((start, e));
            start = i + 1;
        }
        i = i + 1;
    }
    let e = trimmed_end(line, start, n);
    proof {
        lemma_next_space(line@, start as int, n as int);
        let field = line@.subrange(start as int, n as int);
        assert(fields_from(line@, start as int) == seq![field]);
        assert(done + seq![field] =~= done.push(field));
        done = done.push(field);
    }
    bounds.push((start, e));
    bounds
}

/// Reads the field with the bounds `bounds[role.index()]`.
fn field_of(line: &[u8], bounds: &Vec<(usize, usize)>, role: FieldRole, line_num: usize) -> (r:
    Result<i64, ParseError>)
    requires
        bounds@.len() == 6,
        forall|k: int|
            0 <= k < 6 ==> {
                &&& (#[trigger] bounds@[k]).0 <= bounds@[k].1 <= line@.len()
                &&& line@.subrange(bounds@[k].0 as int, bounds@[k].1 as int) == trim_commas(
                    split_fields(line@)[k],
                )
            },
    ensures
        r == (match field_value(trim_commas(split_fields(line@)[role.position()]), role) {
            Some(v) => Ok::<i64, ParseError>(v as i64),
            None => Err::<i64, ParseError>(ParseError::InvalidField { line: line_num, role }),
        }),
{
    let k = role.index();
    let (a, b) = bounds[k];
    assert(bounds@[k as int].0 == a && bounds@[k as int].1 == b);
    let text = slice_subrange(line, a, b);
    try_parse(text, role, line_num)
}

/// Reads one line of the log. `line_num` is the line's number, counted
/// from 0; an error carries it.
pub fn parse_line(line: &[u8], line_num: usize) -> (r: Result<CanvasPixel, ParseError>)
    ensures
        r == parsed_line(line@, line_num),
{
    let bounds = split_line(line);
    if bounds.len() != 6 {
        return Err(ParseError::WrongFieldCount { line: line_num, found: bounds.len() });
    }
    let artist = match field_of(line, &bounds, FieldRole::Artist, line_num) {
        Ok(v) => v,
        Err(e) => {
            return Err(e);
        },
    };
    let x = match field_of(line, &bounds, FieldRole::X, line_num) {
        Ok(v) => v,
        Err(e) => {
            return Err(e);
        },
    };
    let y = match field_of(line, &bounds, FieldRole::Y, line_num) {
        Ok(v) => v,
        Err(e) => {
            return Err(e);
        },
    };
    let red = match field_of(line, &bounds, FieldRole::Red, line_num) {
        Ok(v) => v,
        Err(e) => {
            return Err(e);
        },
    };
    let green = match field_of(line, &bounds, FieldRole::Green, line_num) {
        Ok(v) => v,
        Err(e) => {
            return Err(e);
        },
    };
    let blue = match field_of(line, &bounds, FieldRole::Blue, line_num) {
        Ok(v) => v,
        Err(e) => {
            return Err(e);
        },
    };
    Ok(
        CanvasPixel::new(
            artist as u32,
            x as i16,
            y as i16,
            red as u8,
            green as u8,
            blue as u8,
        ),
    )
}

/// Reads the lines one after the other, up to the first that cannot be
/// read.
fn parse_lines(lines: &Vec<&[u8]>) -> (r: Result<Canvas, ParseError>)
    ensures
        match parsed_log(views(lines@), lines@.len() as int) {
            Ok(events) => r matches Ok(canvas) && canvas@ == events,
            Err(e) => r == Err::<Canvas, ParseError>(e),
        },
{
    let mut pixels: Vec<CanvasPixel> = Vec::new();
    let mut lnum: usize = 0;
    while lnum < lines.len()
        invariant
            lnum <= lines@.len(),
            parsed_log(views(lines@), lnum as int) == Ok::<Seq<CanvasPixel>, ParseError>(pixels@),
        decreases lines@.len() - lnum,
    {
        let bytes = lines[lnum];
        assert(bytes@ == views(lines@)[lnum as int]);
        match parse_line(bytes, lnum) {
            Ok(event) => {
                pixels.push(event);
            },
            Err(e) => {
                proof {
                    lemma_error_stands(views(lines@), lnum + 1, lines@.len() as int);
                }
                return Err(e);
            },
        }
        lnum = lnum + 1;
    }
    Ok(pixels)
}

/// Reads the log from lines of bytes, one event from each line.
///
/// Returns the events in the order of the lines, or the error of the first
/// line that cannot be read.
pub fn parse_log(lines: &Vec<Vec<u8>>) -> (r: Result<Canvas, ParseError>)
    ensures
        match parsed_log(views(lines@), lines@.len() as int) {
            Ok(events) => r matches Ok(canvas) && canvas@ == events,
            Err(e) => r == Err::<Canvas, ParseError>(e),
        },
{
    let mut slices: Vec<&[u8]> = Vec::new();
    let mut k: usize = 0;
    while k < lines.len()
        invariant
            k <= lines@.len(),
            slices@.len() == k,
            forall|i: int| 0 <= i < k ==> (#[trigger] slices@[i])@ == lines@[i]@,
        decreases lines@.len() - k,
    {
        slices.push(lines[k].as_slice());
        k = k + 1;
    }
    assert(views(slices@) =~= views(lines@));
    parse_lines(&slices)
}

/// Reads the log from lines of text, one event from each line.
///
/// Returns the events in the order of the lines, or the error of the first
/// line that cannot be read.
pub fn read_log_to_canvas(lines: Vec<String>) -> (r: Result<Canvas, ParseError>)
    ensures
        match parsed_log(bytes_of(lines@), lines@.len() as int) {
            Ok(events) => r matches Ok(canvas) && canvas@ == events,
            Err(e) => r == Err::<Canvas, ParseError>(e),
        },
{
    let mut slices: Vec<&[u8]> = Vec::new();
    let mut k: usize = 0;
    while k < lines.len()
        invariant
            k <= lines@.len(),
            slices@.len() == k,
            forall|i: int| 0 <= i < k ==> (#[trigger] slices@[i])@ == bytes_of(lines@)[i],
        decreases lines@.len() - k,
    {
        slices.push(lines[k].as_str().as_bytes());
        k = k + 1;
    }
    assert(views(slices@) =~= bytes_of(lines@));
    parse_lines(&slices)
}

/// An error among the first `n` lines is the error of every longer log.
proof fn lemma_error_stands(lines: Seq<Seq<u8>>, n: int, m: int)
    requires
        0 <= n <= m,
        parsed_log(lines, n) is Err,
    ensures
        parsed_log(lines, m) == parsed_log(lines, n),
    decreases m - n,
{
    if n < m {
        lemma_error_stands(lines, n, m - 1);
    }
}

} // verus!
