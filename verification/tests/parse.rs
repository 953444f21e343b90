use canvas_audit::geometry::{CanvasPixel, Color, Point};
use canvas_audit::parse::{
    parse_line, parse_log, read_log_to_canvas, try_parse, FieldRole, ParseError,
};
use canvas_audit::serialize::{format_event, write_log};

fn bad(line: usize, role: FieldRole) -> ParseError {
    ParseError::InvalidField { line, role }
}

fn text(bytes: Vec<u8>) -> String {
    String::from_utf8(bytes).unwrap()
}

#[test]
fn a_line_with_commas_is_an_event() {
    assert_eq!(
        parse_line(b"12, -3, 4, 255, 0, 17", 0),
        Ok(CanvasPixel::new(12, -3, 4, 255, 0, 17))
    );
}

#[test]
fn commas_are_optional_and_may_repeat() {
    let e = CanvasPixel::new(1, 2, 3, 4, 5, 6);
    assert_eq!(parse_line(b"1 2 3 4 5 6", 0), Ok(e));
    assert_eq!(parse_line(b"1,, 2,,, 3 4, 5 6,", 0), Ok(e));
}

#[test]
fn a_plus_sign_is_accepted_everywhere_and_a_minus_for_coordinates_only() {
    assert_eq!(parse_line(b"+1 +2 -3 +4 +5 +6", 0), Ok(CanvasPixel::new(1, 2, -3, 4, 5, 6)));
    assert_eq!(parse_line(b"1 -0 -0 4 5 6", 0), Ok(CanvasPixel::new(1, 0, 0, 4, 5, 6)));
    assert_eq!(parse_line(b"-1 2 3 4 5 6", 3), Err(bad(3, FieldRole::Artist)));
    assert_eq!(parse_line(b"-0 2 3 4 5 6", 3), Err(bad(3, FieldRole::Artist)));
    assert_eq!(parse_line(b"1 2 3 -4 5 6", 3), Err(bad(3, FieldRole::Red)));
}

#[test]
fn leading_zeros_do_not_change_a_number() {
    assert_eq!(
        parse_line(b"0000000000000000000000001 007 -007 000 0255 00000000000000000000000", 0),
        Ok(CanvasPixel::new(1, 7, -7, 0, 255, 0))
    );
}

#[test]
fn the_bounds_of_each_field_are_accepted_and_the_next_number_is_not() {
    assert_eq!(
        parse_line(b"4294967295 32767 -32768 255 255 255", 0),
        Ok(CanvasPixel::new(4294967295, 32767, -32768, 255, 255, 255))
    );
    assert_eq!(parse_line(b"4294967296 0 0 0 0 0", 1), Err(bad(1, FieldRole::Artist)));
    assert_eq!(parse_line(b"0 32768 0 0 0 0", 1), Err(bad(1, FieldRole::X)));
    assert_eq!(parse_line(b"0 0 -32769 0 0 0", 1), Err(bad(1, FieldRole::Y)));
    assert_eq!(parse_line(b"0 0 0 256 0 0", 1), Err(bad(1, FieldRole::Red)));
    assert_eq!(parse_line(b"0 0 0 0 256 0", 1), Err(bad(1, FieldRole::Green)));
    assert_eq!(parse_line(b"0 0 0 0 0 256", 1), Err(bad(1, FieldRole::Blue)));
    assert_eq!(
        parse_line(b"99999999999999999999999999999999999999 0 0 0 0 0", 1),
        Err(bad(1, FieldRole::Artist))
    );
}

#[test]
fn the_first_bad_field_is_the_one_reported() {
    assert_eq!(parse_line(b"1 x y 4 5 6", 8), Err(bad(8, FieldRole::X)));
    assert_eq!(parse_line(b"a x y r g b", 8), Err(bad(8, FieldRole::Artist)));
    assert_eq!(parse_line(b"1 2 3 4 5 b", 8), Err(bad(8, FieldRole::Blue)));
}

#[test]
fn what_is_no_plain_decimal_number_is_refused() {
    for field in [
        &b""[..], b"+", b"-", b"+-1", b"--1", b"1-", b"1.0", b"0x10", b"1_000", b"1e3", b",",
        b"\t1", b"1\r", b"\xc3\xa9",
    ] {
        assert_eq!(try_parse(field, FieldRole::X, 5), Err(bad(5, FieldRole::X)));
    }
}

#[test]
fn try_parse_gives_the_value_in_the_role_s_range() {
    assert_eq!(try_parse(b"42", FieldRole::Artist, 0), Ok(42));
    assert_eq!(try_parse(b"-42", FieldRole::Y, 0), Ok(-42));
    assert_eq!(try_parse(b"+42", FieldRole::Green, 0), Ok(42));
    assert_eq!(try_parse(b"300", FieldRole::X, 0), Ok(300));
    assert_eq!(try_parse(b"300", FieldRole::Green, 2), Err(bad(2, FieldRole::Green)));
    assert_eq!(try_parse(b"-42", FieldRole::Green, 2), Err(bad(2, FieldRole::Green)));
    assert_eq!(try_parse(b"-32768", FieldRole::X, 0), Ok(-32768));
    assert_eq!(try_parse(b"+32768", FieldRole::X, 1), Err(bad(1, FieldRole::X)));
}

#[test]
fn field_roles_stand_in_line_order() {
    let roles = [
        FieldRole::Artist,
        FieldRole::X,
        FieldRole::Y,
        FieldRole::Red,
        FieldRole::Green,
        FieldRole::Blue,
    ];
    for (i, role) in roles.iter().enumerate() {
        assert_eq!(role.index(), i);
    }
}

#[test]
fn a_line_with_another_number_of_fields_is_refused_with_the_count() {
    let wrong = |line: usize, found: usize| ParseError::WrongFieldCount { line, found };
    assert_eq!(parse_line(b"", 4), Err(wrong(4, 1)));
    assert_eq!(parse_line(b"1 2 3 4 5", 4), Err(wrong(4, 5)));
    assert_eq!(parse_line(b"1 2 3 4 5 6 7", 4), Err(wrong(4, 7)));
    assert_eq!(parse_line(b"1  2 3 4 5 6", 4), Err(wrong(4, 7)));
    assert_eq!(parse_line(b"1 2 3 4 5 6 ", 4), Err(wrong(4, 7)));
    assert_eq!(parse_line(b" 1 2 3 4 5 6", 4), Err(wrong(4, 7)));
    assert_eq!(parse_line(b"1,2,3,4,5,6", 4), Err(wrong(4, 1)));
    assert_eq!(parse_line(b"     ", 4), Err(bad(4, FieldRole::Artist)));
}

#[test]
fn the_field_count_is_looked_at_before_the_fields() {
    assert_eq!(
        parse_line(b"x y z", 2),
        Err(ParseError::WrongFieldCount { line: 2, found: 3 })
    );
}

#[test]
fn a_log_is_read_line_by_line() {
    let lines = vec!["1, 0, 0, 255, 0, 0".to_string(), "2, 1, 0, 0, 255, 0".to_string()];
    assert_eq!(
        read_log_to_canvas(lines),
        Ok(vec![CanvasPixel::new(1, 0, 0, 255, 0, 0), CanvasPixel::new(2, 1, 0, 0, 255, 0)])
    );
    assert_eq!(read_log_to_canvas(Vec::new()), Ok(Vec::new()));
}

#[test]
fn the_first_bad_line_stops_the_reading_and_is_named() {
    let lines = vec![
        "1, 0, 0, 255, 0, 0".to_string(),
        "2, 1, 0, 0, 256, 0".to_string(),
        "garbage".to_string(),
    ];
    assert_eq!(read_log_to_canvas(lines), Err(bad(1, FieldRole::Green)));
    let lines = vec![
        "1, 0, 0, 255, 0, 0".to_string(),
        "2, 1, 0, 0, 25, 0".to_string(),
        "garbage".to_string(),
        "also, garbage".to_string(),
    ];
    assert_eq!(
        read_log_to_canvas(lines),
        Err(ParseError::WrongFieldCount { line: 2, found: 1 })
    );
}

#[test]
fn text_that_is_not_ascii_is_refused_like_any_other_bad_field() {
    let lines = vec!["1, 2, 3, 4, 5, \u{663}".to_string()];
    assert_eq!(read_log_to_canvas(lines), Err(bad(0, FieldRole::Blue)));
}

#[test]
fn bytes_and_text_are_read_alike() {
    let lines = vec!["7, -8, 9, 1, 2, 3", "x", "1 2 3 4 5 6"];
    for n in 0..=lines.len() {
        let as_text: Vec<String> = lines[..n].iter().map(|l| l.to_string()).collect();
        let as_bytes: Vec<Vec<u8>> = lines[..n].iter().map(|l| l.as_bytes().to_vec()).collect();
        assert_eq!(read_log_to_canvas(as_text), parse_log(&as_bytes));
    }
}

#[test]
fn an_event_is_written_with_commas_and_spaces() {
    assert_eq!(text(format_event(&CanvasPixel::new(12, -3, 4, 255, 0, 17))), "12, -3, 4, 255, 0, 17");
    assert_eq!(text(format_event(&CanvasPixel::new(0, 0, 0, 0, 0, 0))), "0, 0, 0, 0, 0, 0");
    assert_eq!(
        text(format_event(&CanvasPixel::new(4294967295, -32768, 32767, 255, 255, 255))),
        "4294967295, -32768, 32767, 255, 255, 255"
    );
    assert_eq!(text(format_event(&CanvasPixel::new(10, 100, -1000, 9, 10, 99))), "10, 100, -1000, 9, 10, 99");
}

#[test]
fn reading_what_was_written_gives_the_events_back() {
    let mut events = Vec::new();
    let xs = [-32768i16, -1000, -1, 0, 1, 9, 10, 32767];
    let artists = [0u32, 1, 9, 10, 99, 100, 65535, 4294967295];
    for (i, &x) in xs.iter().enumerate() {
        for (j, &a) in artists.iter().enumerate() {
            let c = ((i * 37 + j * 11) % 256) as u8;
            events.push(CanvasPixel {
                artist: a,
                coord: Point { x, y: xs[(i + j) % xs.len()] },
                color: Color { r: c, g: 255 - c, b: (c / 2) },
            });
        }
    }
    let lines = write_log(&events);
    assert_eq!(lines.len(), events.len());
    assert_eq!(parse_log(&lines), Ok(events.clone()));
    let as_text: Vec<String> = lines.into_iter().map(text).collect();
    assert_eq!(read_log_to_canvas(as_text), Ok(events));
}

#[test]
fn a_parsed_log_written_and_parsed_again_is_the_same() {
    let lines: Vec<String> =
        vec!["+1 002 -0 4,, 5 6", "2, 3, 4, 5, 6, 7", "0003 -0004 5 6 7 8,"].into_iter().map(String::from).collect();
    let first = read_log_to_canvas(lines).unwrap();
    let second = parse_log(&write_log(&first)).unwrap();
    assert_eq!(first, second);
    assert_eq!(write_log(&first), write_log(&second));
}

#[test]
fn an_empty_canvas_is_written_as_no_line() {
    assert_eq!(write_log(&Vec::new()), Vec::<Vec<u8>>::new());
}
