use cast_edit::errors::CastError;
use cast_edit::header::{parse_header, serialize_header};

#[test]
fn parse_minimal_header() {
    let h = parse_header(b"{\"version\":2,\"width\":80,\"height\":24}").unwrap();
    assert_eq!(h.version, 2);
    assert_eq!(h.width, 80);
    assert_eq!(h.height, 24);
    assert!(h.timestamp.is_none());
    assert!(h.theme.is_none());
}

#[test]
fn parse_header_with_all_fields() {
    let text = "{\"version\": 2, \"width\": 100, \"height\": 50, \"timestamp\": 1600000000, \"duration\": 12.5, \"idle_time_limit\": 2.0, \"command\": \"/bin/bash\", \"title\": \"Demo\", \"env\": {\"SHELL\": \"/bin/zsh\", \"TERM\": \"xterm\"}, \"theme\": {\"fg\": \"#d0d0d0\", \"bg\": \"#212121\", \"palette\": \"#151515:#ac4142:#7e8e50:#e5b567:#6c99bb:#9f4e85:#7dd6cf:#d0d0d0\"}}";
    let h = parse_header(text.as_bytes()).unwrap();
    assert_eq!(h.version, 2);
    assert_eq!(h.width, 100);
    assert_eq!(h.height, 50);
    assert_eq!(h.timestamp, Some(1600000000));
    assert_eq!(h.duration.as_deref(), Some(b"12.5".as_slice()));
    assert_eq!(h.idle_time_limit.as_deref(), Some(b"2.0".as_slice()));
    assert_eq!(h.command.as_deref(), Some(b"/bin/bash".as_slice()));
    assert_eq!(h.title.as_deref(), Some(b"Demo".as_slice()));
    let env = h.env.as_ref().unwrap();
    assert_eq!(env.len(), 2);
    assert_eq!(env[0].0, b"SHELL".to_vec());
    assert_eq!(env[0].1, b"/bin/zsh".to_vec());
    let theme = h.theme.as_ref().unwrap();
    assert_eq!(theme.fg.r, 0xd0);
    assert_eq!(theme.bg.g, 0x21);
    assert_eq!(theme.palette.len(), 8);
}

#[test]
fn parse_header_skips_unknown_members() {
    let text = "{\"version\":2,\"width\":80,\"height\":24,\"extra\":{\"a\":[1,2,{\"b\":\"]\"}]},\"more\":true}";
    let h = parse_header(text.as_bytes()).unwrap();
    assert_eq!(h.width, 80);
}

#[test]
fn parse_header_rejects_bad_shapes() {
    // not an object
    assert!(matches!(parse_header(b"42"), Err(CastError::DeserializationError)));
    // missing required field
    assert!(matches!(
        parse_header(b"{\"version\":2,\"width\":80}"),
        Err(CastError::DeserializationError)
    ));
    // a fractional version is not an integer
    assert!(matches!(
        parse_header(b"{\"version\":2.0,\"width\":80,\"height\":24}"),
        Err(CastError::DeserializationError)
    ));
    // a string where a number belongs
    assert!(matches!(
        parse_header(b"{\"version\":\"2\",\"width\":80,\"height\":24}"),
        Err(CastError::DeserializationError)
    ));
    // duplicate known field
    assert!(matches!(
        parse_header(b"{\"version\":2,\"version\":2,\"width\":80,\"height\":24}"),
        Err(CastError::DeserializationError)
    ));
    // trailing garbage
    assert!(matches!(
        parse_header(b"{\"version\":2,\"width\":80,\"height\":24} x"),
        Err(CastError::DeserializationError)
    ));
    // unclosed string
    assert!(matches!(
        parse_header(b"{\"version\":2,\"width\":80,\"height\":24,\"title\":\"oops}"),
        Err(CastError::DeserializationError)
    ));
}

#[test]
fn parse_header_env_repeated_key_takes_last_value() {
    let text = "{\"version\":2,\"width\":80,\"height\":24,\"env\":{\"TERM\":\"a\",\"SHELL\":\"s\",\"TERM\":\"b\"}}";
    let h = parse_header(text.as_bytes()).unwrap();
    let env = h.env.as_ref().unwrap();
    assert_eq!(env.len(), 2);
    assert_eq!(env[0].0, b"TERM".to_vec());
    assert_eq!(env[0].1, b"b".to_vec());
    assert_eq!(env[1].0, b"SHELL".to_vec());
}

#[test]
fn parse_header_rejects_json_grammar_violations() {
    // a leading zero before more digits is not a JSON integer
    assert!(matches!(
        parse_header(b"{\"version\":2,\"width\":080,\"height\":24}"),
        Err(CastError::DeserializationError)
    ));
    assert!(matches!(
        parse_header(b"{\"version\":2,\"width\":80,\"height\":24,\"duration\":01.5}"),
        Err(CastError::DeserializationError)
    ));
    // but zero itself is
    let h = parse_header(b"{\"version\":2,\"width\":80,\"height\":24,\"duration\":0.5}").unwrap();
    assert_eq!(h.duration.as_deref(), Some(b"0.5".as_slice()));
    // a raw control byte inside a string must be escaped
    assert!(matches!(
        parse_header(b"{\"version\":2,\"width\":80,\"height\":24,\"title\":\"a\tb\"}"),
        Err(CastError::DeserializationError)
    ));
}

#[test]
fn parse_header_rejects_bad_theme() {
    // palette of 7 colors fails decoding
    let text = "{\"version\":2,\"width\":80,\"height\":24,\"theme\":{\"fg\":\"#000000\",\"bg\":\"#ffffff\",\"palette\":\"#000000:#000000:#000000:#000000:#000000:#000000:#000000\"}}";
    assert!(matches!(parse_header(text.as_bytes()), Err(CastError::DeserializationError)));
    // missing bg
    let text2 = "{\"version\":2,\"width\":80,\"height\":24,\"theme\":{\"fg\":\"#000000\"}}";
    assert!(matches!(parse_header(text2.as_bytes()), Err(CastError::DeserializationError)));
}

#[test]
fn serialize_minimal_header() {
    let h = parse_header(b"{\"version\":2,\"width\":80,\"height\":24}").unwrap();
    assert_eq!(
        serialize_header(&h).unwrap(),
        b"{\"version\":2,\"width\":80,\"height\":24}".to_vec()
    );
}

#[test]
fn header_serialize_then_parse_round_trip() {
    let text = "{\"version\": 2, \"width\": 100, \"height\": 50, \"timestamp\": 1600000000, \"duration\": 12.5, \"command\": \"/bin/bash\", \"title\": \"Demo \\\"quoted\\\"\", \"env\": {\"SHELL\": \"/bin/zsh\"}, \"theme\": {\"fg\": \"#d0d0d0\", \"bg\": \"#212121\", \"palette\": \"#151515:#ac4142:#7e8e50:#e5b567:#6c99bb:#9f4e85:#7dd6cf:#d0d0d0\"}}";
    let h = parse_header(text.as_bytes()).unwrap();
    let out = serialize_header(&h).unwrap();
    let h2 = parse_header(&out).unwrap();
    assert_eq!(h2.version, h.version);
    assert_eq!(h2.width, h.width);
    assert_eq!(h2.height, h.height);
    assert_eq!(h2.timestamp, h.timestamp);
    assert_eq!(h2.duration, h.duration);
    assert_eq!(h2.command, h.command);
    assert_eq!(h2.title, h.title);
    assert_eq!(h2.env, h.env);
    assert_eq!(h2.theme.as_ref().unwrap().palette, h.theme.as_ref().unwrap().palette);
    // serialization is canonical, so a second trip is exact
    assert_eq!(serialize_header(&h2).unwrap(), out);
}

#[test]
fn serialize_header_rejects_bad_palette() {
    let text = "{\"version\":2,\"width\":80,\"height\":24,\"theme\":{\"fg\":\"#000000\",\"bg\":\"#ffffff\",\"palette\":\"#000000:#000000:#000000:#000000:#000000:#000000:#000000:#000000\"}}";
    let mut h = parse_header(text.as_bytes()).unwrap();
    h.theme.as_mut().unwrap().palette.pop();
    assert!(matches!(serialize_header(&h), Err(CastError::SerializationError)));
}
