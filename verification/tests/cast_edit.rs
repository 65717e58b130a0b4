use cast_edit::cast::{
    AdvancedModificationAction, CastFile, EventPositioned, ModificationAction,
};
use cast_edit::errors::CastError;
use cast_edit::event::{Event, EventData};
use cast_edit::time::Time;

fn sample_file() -> Vec<u8> {
    let mut v = Vec::new();
    v.extend_from_slice(b"{\"version\":2,\"width\":80,\"height\":24}\n");
    v.extend_from_slice(b"[1.0, \"o\", \"a\"]\n");
    v.extend_from_slice(b"[2.0, \"o\", \"b\"]\n");
    v.extend_from_slice(b"[3.0, \"o\", \"c\"]\n");
    v
}

fn output_event(time: &str, data: &[u8]) -> Event {
    Event { time: Time::parse(time.as_bytes()).unwrap(), data: EventData::Output(data.to_vec()) }
}

#[test]
fn open_reads_header_and_requires_version_2() {
    let cast = CastFile::new(sample_file()).unwrap();
    assert_eq!(cast.header.version, 2);
    assert_eq!(cast.header.width, 80);
    assert_eq!(cast.header.height, 24);

    let no_newline = b"{\"version\":2,\"width\":80,\"height\":24}".to_vec();
    assert!(matches!(CastFile::new(no_newline), Err(CastError::DeserializationError)));

    let bad_json = b"not json\n[1.0, \"o\", \"a\"]\n".to_vec();
    assert!(matches!(CastFile::new(bad_json), Err(CastError::DeserializationError)));

    let v3 = b"{\"version\":3,\"width\":80,\"height\":24}\n".to_vec();
    assert!(matches!(CastFile::new(v3), Err(CastError::InvalidVersion)));
}

#[test]
fn get_lines_from_zero_returns_all_events_in_order() {
    let cast = CastFile::new(sample_file()).unwrap();
    let lines = cast.get_lines(0, 3).unwrap();
    assert_eq!(lines.len(), 3);
    assert_eq!(lines[0].event.time.as_bytes(), b"1.0");
    assert_eq!(lines[1].event.time.as_bytes(), b"2.0");
    assert_eq!(lines[2].event.time.as_bytes(), b"3.0");
    assert_eq!(lines[0].event.data.get_data(), b"a".to_vec());
    assert_eq!(lines[1].event.data.get_data(), b"b".to_vec());
    assert_eq!(lines[2].event.data.get_data(), b"c".to_vec());
}

#[test]
fn get_lines_windows_never_error_at_either_end() {
    let cast = CastFile::new(sample_file()).unwrap();
    // fewer lines available than requested
    let all = cast.get_lines(0, 50).unwrap();
    assert_eq!(all.len(), 3);
    // a zero-line request is an empty window
    assert_eq!(cast.get_lines(0, 0).unwrap().len(), 0);
    // a request at the very end returns at most the trailing lines
    let size = cast.file_size();
    let tail = cast.get_lines(size, 5).unwrap();
    assert!(tail.len() <= 3);
    // positions beyond the file are clamped
    let clamped = cast.get_lines(size + 1000, 5).unwrap();
    assert_eq!(clamped.len(), tail.len());
}

#[test]
fn get_lines_mid_file_starts_after_next_line_break() {
    let cast = CastFile::new(sample_file()).unwrap();
    let lines = cast.get_lines(0, 3).unwrap();
    // a position inside the first event line lands on the second
    let from_mid = cast.get_lines(lines[0].byte_location + 1, 2).unwrap();
    assert_eq!(from_mid.len(), 2);
    assert_eq!(from_mid[0].event.time.as_bytes(), b"2.0");
}

#[test]
fn addition_timing_boundaries() {
    // previous at 1.0 and current at 2.0: 1.5 is accepted, the boundaries
    // and a missing neighbor are not
    let mut cast = CastFile::new(sample_file()).unwrap();
    let lines = cast.get_lines(0, 3).unwrap();
    let prev = lines[0].duplicate();
    let cur = lines[1].duplicate();

    let r = cast.action(
        ModificationAction::Addition(output_event("1.5", b"x")),
        0,
        &cur,
        Some(&prev),
    );
    assert!(r.is_ok());

    let at_prev = cast.action(
        ModificationAction::Addition(output_event("1.0", b"x")),
        0,
        &cur,
        Some(&prev),
    );
    assert!(matches!(at_prev, Err(CastError::TimingError)));

    let at_cur = cast.action(
        ModificationAction::Addition(output_event("2.0", b"x")),
        0,
        &cur,
        Some(&prev),
    );
    assert!(matches!(at_cur, Err(CastError::TimingError)));

    let no_prev = cast.action(
        ModificationAction::Addition(output_event("1.5", b"x")),
        0,
        &cur,
        None,
    );
    assert!(matches!(no_prev, Err(CastError::UnverifiableTime)));
}

#[test]
fn insert_and_save_scenario() {
    // the header and three events at 1.0/2.0/3.0; inserting at 1.5 and
    // saving yields four lines in time order
    let mut cast = CastFile::new(sample_file()).unwrap();
    let lines = cast.get_lines(0, 3).unwrap();
    assert_eq!(lines.len(), 3);
    let prev = lines[0].duplicate();
    let cur = lines[1].duplicate();
    let order = cast.get_order(cur.byte_location, &cur.event);
    cast.action(
        ModificationAction::Addition(output_event("1.5", b"x")),
        order,
        &cur,
        Some(&prev),
    )
    .unwrap();

    let merged = cast.get_lines(0, 3).unwrap();
    assert_eq!(merged.len(), 4);
    assert_eq!(merged[0].event.time.as_bytes(), b"1.0");
    assert_eq!(merged[1].event.time.as_bytes(), b"1.5");
    assert_eq!(merged[2].event.time.as_bytes(), b"2.0");
    assert_eq!(merged[3].event.time.as_bytes(), b"3.0");

    let saved = cast.save_to_bytes().unwrap();
    let mut expected = Vec::new();
    expected.extend_from_slice(b"{\"version\":2,\"width\":80,\"height\":24}\n");
    expected.extend_from_slice(b"[1.0, \"o\", \"a\"]\n");
    expected.extend_from_slice(b"[1.5, \"o\", \"x\"]\n");
    expected.extend_from_slice(b"[2.0, \"o\", \"b\"]\n");
    expected.extend_from_slice(b"[3.0, \"o\", \"c\"]\n");
    assert_eq!(saved, expected);
}

#[test]
fn save_without_edits_reproduces_the_file() {
    // the body is copied byte for byte; the header line is re-serialized
    let cast = CastFile::new(sample_file()).unwrap();
    let saved = cast.save_to_bytes().unwrap();
    assert_eq!(saved, sample_file());
}

#[test]
fn save_without_edits_keeps_odd_body_bytes() {
    // unparsable and blank lines in the body survive a save untouched
    let mut v = Vec::new();
    v.extend_from_slice(b"{\"version\":2,\"width\":80,\"height\":24}\n");
    v.extend_from_slice(b"this line is not an event\n\n[1.0, \"o\", \"a\"]\ntrailing");
    let cast = CastFile::new(v.clone()).unwrap();
    assert_eq!(cast.save_to_bytes().unwrap(), v);
    // and a read simply skips what does not parse
    let lines = cast.get_lines(0, 10).unwrap();
    assert_eq!(lines.len(), 1);
    assert_eq!(lines[0].event.data.get_data(), b"a".to_vec());
}

#[test]
fn deletion_toggle_is_idempotent_on_the_original() {
    let mut cast = CastFile::new(sample_file()).unwrap();
    let lines = cast.get_lines(0, 3).unwrap();
    let cur = lines[1].duplicate();
    let order = cast.get_order(cur.byte_location, &cur.event);
    assert_eq!(order, 0);

    // first deletion suppresses the original line
    cast.action(ModificationAction::Deletion, order, &cur, None).unwrap();
    let after_one = cast.get_lines(0, 3).unwrap();
    assert_eq!(after_one.len(), 2);
    assert_eq!(after_one[0].event.data.get_data(), b"a".to_vec());
    assert_eq!(after_one[1].event.data.get_data(), b"c".to_vec());

    // the second deletion restores it
    cast.action(ModificationAction::Deletion, order, &cur, None).unwrap();
    let after_two = cast.get_lines(0, 3).unwrap();
    assert_eq!(after_two.len(), 3);
    assert_eq!(after_two[1].event.data.get_data(), b"b".to_vec());
}

#[test]
fn deletion_inside_chain_removes_the_insertion() {
    let mut cast = CastFile::new(sample_file()).unwrap();
    let lines = cast.get_lines(0, 3).unwrap();
    let prev = lines[0].duplicate();
    let cur = lines[1].duplicate();
    cast.action(
        ModificationAction::Addition(output_event("1.5", b"x")),
        0,
        &cur,
        Some(&prev),
    )
    .unwrap();
    assert_eq!(cast.get_lines(0, 3).unwrap().len(), 4);
    // order 0 addresses the insertion, not the original
    cast.action(ModificationAction::Deletion, 0, &cur, None).unwrap();
    let back = cast.get_lines(0, 3).unwrap();
    assert_eq!(back.len(), 3);
    assert_eq!(back[1].event.data.get_data(), b"b".to_vec());
}

#[test]
fn modify_data_needs_an_insertion() {
    let mut cast = CastFile::new(sample_file()).unwrap();
    let lines = cast.get_lines(0, 3).unwrap();
    let cur = lines[1].duplicate();
    let r = cast.action(
        ModificationAction::ModifyData(EventData::Output(b"B".to_vec())),
        0,
        &cur,
        None,
    );
    assert!(matches!(r, Err(CastError::ModificationError)));
}

#[test]
fn get_order_finds_insertions_by_time() {
    let mut cast = CastFile::new(sample_file()).unwrap();
    let lines = cast.get_lines(0, 3).unwrap();
    let prev = lines[0].duplicate();
    let cur = lines[1].duplicate();
    cast.action(
        ModificationAction::Addition(output_event("1.5", b"x")),
        0,
        &cur,
        Some(&prev),
    )
    .unwrap();
    // the inserted event is found at its chain position
    let inserted = output_event("1.5", b"x");
    assert_eq!(cast.get_order(cur.byte_location, &inserted), 0);
    // the base event's time has no chain match: the sentinel addresses the
    // original line
    assert_eq!(cast.get_order(cur.byte_location, &cur.event), 1);
    // an offset without a chain gives zero
    assert_eq!(cast.get_order(lines[2].byte_location, &lines[2].event), 0);
}

#[test]
fn advanced_modify_moves_an_event() {
    // editing the middle event re-anchors it before the next one
    let mut cast = CastFile::new(sample_file()).unwrap();
    let lines = cast.get_lines(0, 3).unwrap();
    let prev = lines[0].duplicate();
    let cur = lines[1].duplicate();
    let next = lines[2].duplicate();
    let order = cast.get_order(cur.byte_location, &cur.event);
    cast.advanced_action(
        AdvancedModificationAction::Modify(output_event("2.5", b"B")),
        order,
        &cur,
        Some(&prev),
        Some(&next),
    )
    .unwrap();
    let merged = cast.get_lines(0, 3).unwrap();
    assert_eq!(merged.len(), 3);
    assert_eq!(merged[0].event.time.as_bytes(), b"1.0");
    assert_eq!(merged[1].event.time.as_bytes(), b"2.5");
    assert_eq!(merged[1].event.data.get_data(), b"B".to_vec());
    assert_eq!(merged[2].event.time.as_bytes(), b"3.0");
}

#[test]
fn advanced_modify_without_context_is_refused() {
    let mut cast = CastFile::new(sample_file()).unwrap();
    let lines = cast.get_lines(0, 3).unwrap();
    let cur = lines[1].duplicate();
    let r = cast.advanced_action(
        AdvancedModificationAction::Modify(output_event("2.5", b"B")),
        0,
        &cur,
        None,
        None,
    );
    assert!(matches!(r, Err(CastError::UnverifiableTime)));
}

#[test]
fn advanced_swap_exchanges_data_not_times() {
    let mut cast = CastFile::new(sample_file()).unwrap();
    let lines = cast.get_lines(0, 3).unwrap();
    let prev = lines[0].duplicate();
    let cur = lines[1].duplicate();
    // two insertions to swap
    cast.action(
        ModificationAction::Addition(output_event("1.5", b"first")),
        0,
        &cur,
        Some(&prev),
    )
    .unwrap();
    cast.action(
        ModificationAction::Addition(output_event("1.6", b"second")),
        1,
        &cur,
        Some(&prev),
    )
    .unwrap();
    let with_two = cast.get_lines(0, 3).unwrap();
    assert_eq!(with_two[1].event.data.get_data(), b"first".to_vec());
    assert_eq!(with_two[2].event.data.get_data(), b"second".to_vec());

    let target = EventPositioned {
        event: output_event("1.6", b"second"),
        byte_location: cur.byte_location,
    };
    let current = EventPositioned {
        event: output_event("1.5", b"first"),
        byte_location: cur.byte_location,
    };
    cast.advanced_action(
        AdvancedModificationAction::Swap(target, 1),
        0,
        &current,
        None,
        None,
    )
    .unwrap();
    let swapped = cast.get_lines(0, 3).unwrap();
    assert_eq!(swapped[1].event.time.as_bytes(), b"1.5");
    assert_eq!(swapped[1].event.data.get_data(), b"second".to_vec());
    assert_eq!(swapped[2].event.time.as_bytes(), b"1.6");
    assert_eq!(swapped[2].event.data.get_data(), b"first".to_vec());
}

#[test]
fn crlf_line_endings_are_tolerated_and_preserved() {
    let mut v = Vec::new();
    v.extend_from_slice(b"{\"version\":2,\"width\":80,\"height\":24}\r\n");
    v.extend_from_slice(b"[1.0, \"o\", \"a\"]\r\n");
    v.extend_from_slice(b"[2.0, \"o\", \"b\"]\r\n");
    let cast = CastFile::new(v.clone()).unwrap();
    let lines = cast.get_lines(0, 2).unwrap();
    assert_eq!(lines.len(), 2);
    assert_eq!(lines[0].event.data.get_data(), b"a".to_vec());
    assert_eq!(lines[1].event.data.get_data(), b"b".to_vec());
    // the body's carriage returns survive a save untouched
    let saved = cast.save_to_bytes().unwrap();
    let body_start = v.iter().position(|&b| b == b'\n').unwrap() + 1;
    assert!(saved.ends_with(&v[body_start..]));
}

#[test]
fn insertions_appear_only_in_windows_holding_their_anchor() {
    let mut cast = CastFile::new(sample_file()).unwrap();
    let lines = cast.get_lines(0, 3).unwrap();
    let prev = lines[0].duplicate();
    let cur = lines[1].duplicate();
    cast.action(
        ModificationAction::Addition(output_event("1.5", b"x")),
        0,
        &cur,
        Some(&prev),
    )
    .unwrap();
    // a window starting at the second line still shows the insertion
    // anchored there
    let from_second = cast.get_lines(lines[0].byte_location, 2).unwrap();
    assert_eq!(from_second.len(), 3);
    assert_eq!(from_second[0].event.time.as_bytes(), b"1.5");
    assert_eq!(from_second[1].event.time.as_bytes(), b"2.0");
    // a window past the anchor does not
    let from_third = cast.get_lines(lines[1].byte_location, 2).unwrap();
    assert_eq!(from_third.len(), 1);
    assert_eq!(from_third[0].event.time.as_bytes(), b"3.0");
}

#[test]
fn advanced_swap_reports_a_refused_half() {
    // without any insertions, the first data modification is refused and
    // the swap reports it instead of swallowing it
    let mut cast = CastFile::new(sample_file()).unwrap();
    let lines = cast.get_lines(0, 3).unwrap();
    let cur = lines[1].duplicate();
    let target = EventPositioned {
        event: output_event("3.0", b"c"),
        byte_location: lines[2].byte_location,
    };
    let r = cast.advanced_action(
        AdvancedModificationAction::Swap(target, 0),
        0,
        &cur,
        None,
        None,
    );
    assert!(matches!(r, Err(CastError::ModificationError)));
}

#[test]
fn save_after_deleting_the_original() {
    let mut cast = CastFile::new(sample_file()).unwrap();
    let lines = cast.get_lines(0, 3).unwrap();
    let cur = lines[1].duplicate();
    let order = cast.get_order(cur.byte_location, &cur.event);
    cast.action(ModificationAction::Deletion, order, &cur, None).unwrap();
    let saved = cast.save_to_bytes().unwrap();
    let mut expected = Vec::new();
    expected.extend_from_slice(b"{\"version\":2,\"width\":80,\"height\":24}\n");
    expected.extend_from_slice(b"[1.0, \"o\", \"a\"]\n");
    expected.extend_from_slice(b"[3.0, \"o\", \"c\"]\n");
    assert_eq!(saved, expected);
}
