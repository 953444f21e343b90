//! Writing the log: one line for each paint event, in the form that
//! [`crate::parse`] reads.
//!
//! A line is `artist, x, y, red, green, blue`: each number in decimal
//! without leading zeros, a `-` before a negative coordinate, and a comma
//! and a space between two numbers.

use vstd::prelude::*;
use crate::geometry::CanvasPixel;
use crate::parse::{
    FieldRole,
    ParseError,
    all_digits,
    digits_value,
    field_value,
    fields_from,
    is_digit,
    lemma_next_space,
    magnitude,
    next_space,
    number,
    parsed_line,
    parsed_log,
    split_fields,
    trim_commas,
};
use crate::views::views;

verus! {

/// The digits of `v` in base ten, without leading zeros.
pub open spec fn decimal(v: nat) -> Seq<u8>
    decreases v,
{
    if v < 10 {
        seq![(48 + v) as u8]
    } else {
        decimal(v / 10).push((48 + v % 10) as u8)
    }
}

/// The digits of `v`, behind a `-` where `v` is negative.
pub open spec fn signed_decimal(v: int) -> Seq<u8> {
    if v < 0 {
        seq![45u8] + decimal((-v) as nat)
    } else {
        decimal(v as nat)
    }
}

/// The field `f` with the comma and the space that part it from the next
/// field.
pub open spec fn item(f: Seq<u8>) -> Seq<u8> {
    f + seq![44u8, 32u8]
}

/// The line that stands for the event `e`.
pub open spec fn event_line(e: CanvasPixel) -> Seq<u8> {
    item(decimal(e.artist as nat)) + (item(signed_decimal(e.coord.x as int)) + (item(
        signed_decimal(e.coord.y as int),
    ) + (item(decimal(e.color.r as nat)) + (item(decimal(e.color.g as nat)) + decimal(
        e.color.b as nat,
    )))))
}

/// The lines that stand for the events, in order.
pub open spec fn log_lines(events: Seq<CanvasPixel>) -> Seq<Seq<u8>> {
    Seq::new(events.len(), |i: int| event_line(events[i]))
}

/// The digits of a number are digits, and denote the number.
pub proof fn lemma_decimal(v: nat)
    ensures
        decimal(v).len() > 0,
        all_digits(decimal(v)),
        digits_value(decimal(v)) == v,
    decreases v,
{
    if v < 10 {
        let d = decimal(v);
        assert(d.drop_last() =~= Seq::<u8>::empty());
        assert(digits_value(d.drop_last()) == 0);
    } else {
        lemma_decimal(v / 10);
        let d = decimal(v);
        let front = decimal(v / 10);
        let last = (48 + v % 10) as u8;
        assert(d.drop_last() =~= front);
        assert(d.last() == last);
        assert forall|i: int| 0 <= i < d.len() implies is_digit(#[trigger] d[i]) by {
            if i < front.len() {
                assert(is_digit(front[i]));
            }
        }
    }
}

/// What is written for a number holds no space, is not empty and does not
/// end in a comma.
pub proof fn lemma_written_shape(v: int)
    ensures
        signed_decimal(v).len() > 0,
        forall|k: int| 0 <= k < signed_decimal(v).len() ==> #[trigger] signed_decimal(v)[k] != 32,
        signed_decimal(v).last() != 44,
{
    let text = signed_decimal(v);
    if v < 0 {
        let digits = decimal((-v) as nat);
        lemma_decimal((-v) as nat);
        assert(text.last() == digits.last());
        assert(is_digit(digits[digits.len() - 1]));
        assert forall|k: int| 0 <= k < text.len() implies #[trigger] text[k] != 32 by {
            if k > 0 {
                assert(is_digit(digits[k - 1]));
            }
        }
    } else {
        let digits = decimal(v as nat);
        lemma_decimal(v as nat);
        assert(is_digit(digits[digits.len() - 1]));
        assert forall|k: int| 0 <= k < text.len() implies #[trigger] text[k] != 32 by {
            assert(is_digit(digits[k]));
        }
    }
}

/// A number in the range of a role, written out, is read as that number.
pub proof fn lemma_written_field(v: int, role: FieldRole)
    requires
        role.lowest() <= v <= role.highest(),
    ensures
        field_value(signed_decimal(v), role) == Some(v),
{
    let text = signed_decimal(v);
    if v < 0 {
        let digits = decimal((-v) as nat);
        lemma_decimal((-v) as nat);
        assert(text.skip(1) =~= digits);
        assert(text[0] == 45);
        assert(magnitude(digits) == Some((-v) as nat));
        assert(number(text, role.signed()) == Some(v));
    } else {
        let digits = decimal(v as nat);
        lemma_decimal(v as nat);
        assert(is_digit(digits[0]));
        assert(magnitude(digits) == Some(v as nat));
        assert(number(text, role.signed()) == Some(v));
    }
}

/// A number in the range of a role is read as that number from what is
/// written for it, with or without a comma behind it.
proof fn lemma_read_written(v: int, role: FieldRole)
    requires
        role.lowest() <= v <= role.highest(),
    ensures
        field_value(trim_commas(signed_decimal(v)), role) == Some(v),
        field_value(trim_commas(signed_decimal(v).push(44u8)), role) == Some(v),
{
    lemma_written_field(v, role);
    lemma_written_shape(v);
    lemma_trim_written(signed_decimal(v));
}

/// Dropping the commas from a field that holds none at its end, and from
/// the same field with one comma behind it, gives the field.
proof fn lemma_trim_written(f: Seq<u8>)
    requires
        f.len() > 0,
        f.last() != 44,
    ensures
        trim_commas(f) == f,
        trim_commas(f.push(44u8)) == f,
{
    assert(f.push(44u8).drop_last() =~= f);
}

/// The next space of a line, counted within the part of the line that
/// begins at `k`.
proof fn lemma_next_space_shift(s: Seq<u8>, k: int, i: int)
    requires
        0 <= k <= s.len(),
        0 <= i <= s.len() - k,
    ensures
        next_space(s, k + i) == k + next_space(s.skip(k), i),
    decreases s.len() - k - i,
{
    if i < s.len() - k {
        assert(s.skip(k)[i] == s[k + i]);
        if s[k + i] != 32 {
            lemma_next_space_shift(s, k, i + 1);
        }
    }
}

/// The fields of a line from `k + i` on are the fields, from `i` on, of
/// the part of the line that begins at `k`.
proof fn lemma_fields_shift(s: Seq<u8>, k: int, i: int)
    requires
        0 <= k <= s.len(),
        0 <= i <= s.len() - k,
    ensures
        fields_from(s, k + i) == fields_from(s.skip(k), i),
    decreases s.len() - k - i,
{
    let t = s.skip(k);
    lemma_next_space_shift(s, k, i);
    let j = next_space(t, i);
    lemma_next_space_bounds(t, i);
    if j < t.len() {
        lemma_fields_shift(s, k, j + 1);
        assert(s.subrange(k + i, k + j) =~= t.subrange(i, j));
    } else {
        assert(s.subrange(k + i, s.len() as int) =~= t.subrange(i, t.len() as int));
    }
}

/// The next space from `i` stands at `i` or behind it, and not behind the
/// end.
proof fn lemma_next_space_bounds(s: Seq<u8>, i: int)
    requires
        0 <= i <= s.len(),
    ensures
        i <= next_space(s, i) <= s.len(),
    decreases s.len() - i,
{
    if i < s.len() && s[i] != 32 {
        lemma_next_space_bounds(s, i + 1);
    }
}

/// A field without a space, a space, and the rest of a line: the fields
/// are that field and the fields of the rest.
proof fn lemma_fields_of_item(field: Seq<u8>, rest: Seq<u8>)
    requires
        forall|k: int| 0 <= k < field.len() ==> #[trigger] field[k] != 32,
    ensures
        split_fields(field + seq![32u8] + rest) == seq![field] + split_fields(rest),
{
    let s = field + seq![32u8] + rest;
    let n = field.len() as int;
    assert(s[n] == 32);
    assert forall|k: int| 0 <= k < n implies #[trigger] s[k] != 32 by {
        assert(s[k] == field[k]);
    }
    lemma_next_space(s, 0, n);
    assert(s.subrange(0, n) =~= field);
    lemma_fields_shift(s, n + 1, 0);
    assert(s.skip(n + 1) =~= rest);
}

/// A line without a space is one field.
proof fn lemma_fields_of_last(field: Seq<u8>)
    requires
        forall|k: int| 0 <= k < field.len() ==> #[trigger] field[k] != 32,
    ensures
        split_fields(field) == seq![field],
{
    lemma_next_space(field, 0, field.len() as int);
    assert(field.subrange(0, field.len() as int) =~= field);
}

/// The fields of a written line of which one item stands in front.
proof fn lemma_fields_of_written(f: Seq<u8>, rest: Seq<u8>)
    requires
        forall|k: int| 0 <= k < f.len() ==> #[trigger] f[k] != 32,
    ensures
        split_fields(item(f) + rest) == seq![f.push(44u8)] + split_fields(rest),
{
    let field = f.push(44u8);
    assert(item(f) + rest =~= field + seq![32u8] + rest);
    assert forall|k: int| 0 <= k < field.len() implies #[trigger] field[k] != 32 by {
        if k < f.len() {
            assert(field[k] == f[k]);
        }
    }
    lemma_fields_of_item(field, rest);
}

/// The fields of the line of an event: what is written for each of the six
/// numbers, with a comma behind all but the last.
proof fn lemma_event_line_fields(e: CanvasPixel)
    ensures
        split_fields(event_line(e)) == seq![
            signed_decimal(e.artist as int).push(44u8),
            signed_decimal(e.coord.x as int).push(44u8),
            signed_decimal(e.coord.y as int).push(44u8),
            signed_decimal(e.color.r as int).push(44u8),
            signed_decimal(e.color.g as int).push(44u8),
            signed_decimal(e.color.b as int),
        ],
{
    let a = signed_decimal(e.artist as int);
    let x = signed_decimal(e.coord.x as int);
    let y = signed_decimal(e.coord.y as int);
    let r = signed_decimal(e.color.r as int);
    let g = signed_decimal(e.color.g as int);
    let b = signed_decimal(e.color.b as int);
    lemma_written_shape(e.artist as int);
    lemma_written_shape(e.coord.x as int);
    lemma_written_shape(e.coord.y as int);
    lemma_written_shape(e.color.r as int);
    lemma_written_shape(e.color.g as int);
    lemma_written_shape(e.color.b as int);
    let t5 = b;
    let t4 = item(g) + t5;
    let t3 = item(r) + t4;
    let t2 = item(y) + t3;
    let t1 = item(x) + t2;
    let t0 = item(a) + t1;
    assert(t0 == event_line(e));
    lemma_fields_of_last(b);
    lemma_fields_of_written(g, t5);
    lemma_fields_of_written(r, t4);
    lemma_fields_of_written(y, t3);
    lemma_fields_of_written(x, t2);
    lemma_fields_of_written(a, t1);
    let f4 = seq![g.push(44u8)] + seq![b];
    assert(split_fields(t4) == f4);
    let f3 = seq![r.push(44u8)] + f4;
    assert(split_fields(t3) == f3);
    let f2 = seq![y.push(44u8)] + f3;
    assert(split_fields(t2) == f2);
    let f1 = seq![x.push(44u8)] + f2;
    assert(split_fields(t1) == f1);
    let f0 = seq![a.push(44u8)] + f1;
    assert(split_fields(t0) == f0);
    assert(f0 =~= seq![
        a.push(44u8),
        x.push(44u8),
        y.push(44u8),
        r.push(44u8),
        g.push(44u8),
        b,
    ]);
}

/// Reading the line of an event gives the event.
pub proof fn lemma_line_round_trip(e: CanvasPixel, line: usize)
    ensures
        parsed_line(event_line(e), line) == Ok::<CanvasPixel, ParseError>(e),
{
    lemma_event_line_fields(e);
    lemma_read_written(e.artist as int, FieldRole::Artist);
    lemma_read_written(e.coord.x as int, FieldRole::X);
    lemma_read_written(e.coord.y as int, FieldRole::Y);
    lemma_read_written(e.color.r as int, FieldRole::Red);
    lemma_read_written(e.color.g as int, FieldRole::Green);
    lemma_read_written(e.color.b as int, FieldRole::Blue);
    let fields = split_fields(event_line(e));
    assert(fields.len() == 6);
    assert(fields[0] == signed_decimal(e.artist as int).push(44u8));
    assert(fields[1] == signed_decimal(e.coord.x as int).push(44u8));
    assert(fields[2] == signed_decimal(e.coord.y as int).push(44u8));
    assert(fields[3] == signed_decimal(e.color.r as int).push(44u8));
    assert(fields[4] == signed_decimal(e.color.g as int).push(44u8));
    assert(fields[5] == signed_decimal(e.color.b as int));
}

/// Reading the first `n` lines of a written log gives the first `n`
/// events.
pub proof fn lemma_log_prefix_round_trip(events: Seq<CanvasPixel>, n: int)
    requires
        0 <= n <= events.len(),
        events.len() <= usize::MAX,
    ensures
        parsed_log(log_lines(events), n) == Ok::<Seq<CanvasPixel>, ParseError>(events.take(n)),
    decreases n,
{
    if n > 0 {
        lemma_log_prefix_round_trip(events, n - 1);
        lemma_line_round_trip(events[n - 1], (n - 1) as usize);
        assert(events.take(n - 1).push(events[n - 1]) =~= events.take(n));
    } else {
        assert(events.take(0) =~= Seq::<CanvasPixel>::empty());
    }
}

/// Writing a log and reading it again gives the events that were written:
/// reading inverts writing. So a log that was read, written and read again
/// gives the same events both times.
pub proof fn lemma_parse_inverts_serialize(events: Seq<CanvasPixel>)
    requires
        events.len() <= usize::MAX,
    ensures
        parsed_log(log_lines(events), events.len() as int) == Ok::<Seq<CanvasPixel>, ParseError>(
            events,
        ),
{
    lemma_log_prefix_round_trip(events, events.len() as int);
    assert(events.take(events.len() as int) =~= events);
}

/// Appends the digits of `v` to `out`.
fn push_decimal(out: &mut Vec<u8>, v: u64)
    ensures
        final(out)@ == old(out)@ + decimal(v as nat),
    decreases v,
{
    if v >= 10 {
        push_decimal(out, v / 10);
    }
    out.push(48 + (v % 10) as u8);
    assert(out@ =~= old(out)@ + decimal(v as nat));
}

/// Appends the digits of `v` to `out`, behind a `-` where `v` is negative.
fn push_signed(out: &mut Vec<u8>, v: i16)
    ensures
        final(out)@ == old(out)@ + signed_decimal(v as int),
{
    if v < 0 {
        out.push(45);
        let m: u64 = (-(v as i64)) as u64;
        push_decimal(out, m);
        assert(out@ =~= old(out)@ + signed_decimal(v as int));
    } else {
        push_decimal(out, v as u64);
    }
}

/// Appends the comma and the space that part two fields.
fn push_separator(out: &mut Vec<u8>)
    ensures
        final(out)@ == old(out)@ + seq![44u8, 32u8],
{
    out.push(44);
    out.push(32);
    assert(out@ =~= old(out)@ + seq![44u8, 32u8]);
}

/// Writes the line of one event.
pub fn format_event(e: &CanvasPixel) -> (line: Vec<u8>)
    ensures
        line@ == event_line(*e),
{
    let mut line: Vec<u8> = Vec::new();
    push_decimal(&mut line, e.artist as u64);
    push_separator(&mut line);
    push_signed(&mut line, e.coord.x);
    push_separator(&mut line);
    push_signed(&mut line, e.coord.y);
    push_separator(&mut line);
    push_decimal(&mut line, e.color.r as u64);
    push_separator(&mut line);
    push_decimal(&mut line, e.color.g as u64);
    push_separator(&mut line);
    push_decimal(&mut line, e.color.b as u64);
    assert(line@ =~= event_line(*e));
    line
}

/// Writes the log: the line of each event, in order.
pub fn write_log(canvas: &Vec<CanvasPixel>) -> (lines: Vec<Vec<u8>>)
    ensures
        views(lines@) == log_lines(canvas@),
{
    let mut lines: Vec<Vec<u8>> = Vec::new();
    let mut k: usize = 0;
    while k < canvas.len()
        invariant
            k <= canvas@.len(),
            lines@.len() == k,
            forall|i: int| 0 <= i < k ==> (#[trigger] lines@[i])@ == event_line(canvas@[i]),
        decreases canvas@.len() - k,
    {
        lines.push(format_event(&canvas[k]));
        k = k + 1;
    }
    assert(views(lines@) =~= log_lines(canvas@));
    lines
}

} // verus!
