use cast_edit::errors::{CastError, EventError};
use cast_edit::event::{parse_event_line, serialize_event, Event, EventCode, EventData};
use cast_edit::time::Time;

fn ev(time: &str, data: EventData) -> Event {
    Event { time: Time::parse(time.as_bytes()).unwrap(), data }
}

#[test]
fn parse_simple_output_line() {
    let e = parse_event_line(b"[1.0, \"o\", \"hello\"]").unwrap();
    assert_eq!(e.time.as_bytes(), b"1.0");
    assert_eq!(e.data.get_type(), "Output");
    assert_eq!(e.data.get_data(), b"hello".to_vec());
}

#[test]
fn parse_tolerates_commas_and_escaped_quotes_in_payload() {
    let e = parse_event_line(b"[2.5, \"o\", \"say \\\"hi\\\", world\"]").unwrap();
    assert_eq!(e.data.get_data(), b"say \"hi\", world".to_vec());
}

#[test]
fn parse_tolerates_ansi_escape_bytes() {
    let e = parse_event_line(b"[0.25, \"o\", \"\x1b[1mbold\x1b[0m\"]").unwrap();
    assert_eq!(e.data.get_data(), b"\x1b[1mbold\x1b[0m".to_vec());
}

#[test]
fn non_quote_escapes_pass_through_unrendered() {
    // a two-character backslash-n stays two characters: no newline is
    // produced and the backslash is kept
    let e = parse_event_line(b"[1.0, \"o\", \"\\n\"]").unwrap();
    assert_eq!(e.data.get_data(), b"\\n".to_vec());
    // a doubled backslash keeps both bytes
    let e2 = parse_event_line(b"[1.0, \"o\", \"a\\\\b\"]").unwrap();
    assert_eq!(e2.data.get_data(), b"a\\\\b".to_vec());
}

#[test]
fn parse_empty_payload() {
    let e = parse_event_line(b"[0.5, \"o\", \"\"]").unwrap();
    assert_eq!(e.data.get_data(), b"".to_vec());
}

#[test]
fn parse_input_marker_and_other_codes() {
    let i = parse_event_line(b"[1.0, \"i\", \"ls\"]").unwrap();
    assert_eq!(i.data.get_type(), "Input");
    let m = parse_event_line(b"[2.0, \"m\", \"chapter\"]").unwrap();
    assert_eq!(m.data.get_type(), "Marker");
    let z = parse_event_line(b"[3.0, \"z\", \"custom\"]").unwrap();
    assert_eq!(z.data.get_type(), "Other");
    match z.data {
        EventData::Other(code, data) => {
            assert_eq!(code, b'z');
            assert_eq!(data, b"custom".to_vec());
        },
        _ => panic!("expected an Other event"),
    }
}

#[test]
fn parse_resize_payload() {
    let e = parse_event_line(b"[4.0, \"r\", \"80x24\"]").unwrap();
    match e.data {
        EventData::Resize(cols, rows) => {
            assert_eq!(cols, 80);
            assert_eq!(rows, 24);
        },
        _ => panic!("expected a Resize event"),
    }
    assert_eq!(e.data.get_data(), b"80x24".to_vec());
}

#[test]
fn parse_missing_brackets_is_format_error() {
    assert_eq!(parse_event_line(b"1.0, \"o\", \"x\"").unwrap_err(), EventError::Format);
    assert_eq!(parse_event_line(b"[1.0, \"o\", \"x\"").unwrap_err(), EventError::Format);
    assert_eq!(parse_event_line(b"").unwrap_err(), EventError::Format);
}

#[test]
fn parse_wrong_part_count() {
    assert_eq!(parse_event_line(b"[1.0, \"o\"]").unwrap_err(), EventError::PartCount(2));
    assert_eq!(
        parse_event_line(b"[1.0, \"o\", \"a\", \"b\"]").unwrap_err(),
        EventError::PartCount(4)
    );
}

#[test]
fn parse_bad_time() {
    assert_eq!(parse_event_line(b"[abc, \"o\", \"x\"]").unwrap_err(), EventError::Time);
}

#[test]
fn parse_missing_code() {
    // an escaped quote keeps the part non-empty, but stripping quotes
    // leaves no code character
    assert_eq!(parse_event_line(b"[1.0, \\\", \"x\"]").unwrap_err(), EventError::MissingCode);
}

#[test]
fn parse_bad_resize_payload() {
    assert_eq!(parse_event_line(b"[1.0, \"r\", \"80\"]").unwrap_err(), EventError::Resize);
    assert_eq!(parse_event_line(b"[1.0, \"r\", \"ax24\"]").unwrap_err(), EventError::Resize);
    assert_eq!(parse_event_line(b"[1.0, \"r\", \"99999x1\"]").unwrap_err(), EventError::Resize);
}

#[test]
fn serialize_output_event() {
    let e = ev("1.5", EventData::Output(b"x".to_vec()));
    assert_eq!(serialize_event(&e), b"[1.5, \"o\", \"x\"]".to_vec());
}

#[test]
fn serialize_escapes_quotes() {
    let e = ev("1.0", EventData::Output(b"a\"b".to_vec()));
    assert_eq!(serialize_event(&e), b"[1.0, \"o\", \"a\\\"b\"]".to_vec());
}

#[test]
fn serialize_resize_event() {
    let e = ev("2.0", EventData::Resize(120, 40));
    assert_eq!(serialize_event(&e), b"[2.0, \"r\", \"120x40\"]".to_vec());
}

#[test]
fn round_trip_keeps_time_code_and_payload() {
    let cases: Vec<Event> = vec![
        ev("1.0", EventData::Output(b"plain".to_vec())),
        ev("0.125", EventData::Output(b"with, commas, inside".to_vec())),
        ev("2.5", EventData::Output(b"quote \" inside".to_vec())),
        ev("3.0", EventData::Input(b"ls -la".to_vec())),
        ev("4.75", EventData::Marker(b"scene".to_vec())),
        ev("5.0", EventData::Resize(132, 43)),
        ev("6.5", EventData::Other(b'x', b"custom payload".to_vec())),
        ev("7.0", EventData::Output(b"\x1b[31mred\x1b[0m".to_vec())),
        ev("8.0", EventData::Output(b"".to_vec())),
        ev("9.0", EventData::Output(b"line\\nbreak".to_vec())),
        ev("10.0", EventData::Output(b"a\\\\b".to_vec())),
    ];
    for e in cases {
        let line = serialize_event(&e);
        let back = parse_event_line(&line).unwrap();
        assert_eq!(back.time.as_bytes(), e.time.as_bytes());
        assert_eq!(back.data.get_type(), e.data.get_type());
        assert_eq!(back.data.get_data(), e.data.get_data());
    }
}

#[test]
fn event_code_from_str_accepts_known_codes_only() {
    assert!(matches!(EventCode::from_str("o"), Ok(EventCode::Output)));
    assert!(matches!(EventCode::from_str("i"), Ok(EventCode::Input)));
    assert!(matches!(EventCode::from_str("m"), Ok(EventCode::Marker)));
    assert!(matches!(EventCode::from_str("r"), Ok(EventCode::Resize)));
    assert!(matches!(EventCode::from_str("q"), Err(CastError::InvalidEventFormat)));
    assert!(matches!(EventCode::from_str("oo"), Err(CastError::InvalidEventFormat)));
}

#[test]
fn time_compares_by_decimal_value() {
    let a = Time::parse(b"1.5").unwrap();
    let b = Time::parse(b"1.50").unwrap();
    let c = Time::parse(b"2").unwrap();
    assert!(a.eq_value(&b));
    assert!(a.lt(&c));
    assert!(!c.lt(&a));
    assert!(!a.lt(&b));
    let neg = Time::parse(b"-0.5").unwrap();
    assert!(neg.lt(&a));
    assert!(Time::parse(b"").is_none());
    assert!(Time::parse(b"1.").is_none());
    assert!(Time::parse(b"1.2.3").is_none());
    assert!(Time::parse(b"1e3").is_none());
}
