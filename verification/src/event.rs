//! The event codec: between the on-disk line `[time, "code", "data"]` and
//! the in-memory event value.
//!
//! Parsing runs a three-state scan (`in_quotes`, `escaped`, default) over the
//! line with the outer brackets stripped: a comma separates parts only
//! outside quotes, an unescaped quote toggles the quote state without being
//! kept, an escaped quote is kept as a bare quote, and any other escaped
//! byte passes through unrendered, backslash included — escapes are
//! recognized, never interpreted. Each completed part is trimmed of
//! surrounding whitespace.

use crate::errors::{CastError, EventError};
use crate::textutil::{
    all_digits, bytes_of, dec_digits, digits_val, find_byte, find_byte_from, strip_quotes,
    strip_quotes_slice, trim_ws, trim_slice,
};
use crate::time::{valid_time, Time};
use vstd::prelude::*;
use vstd::string::StringSliceAdditionalSpecFns;

verus! {

/// The payload of an event, tagged by its code.
#[derive(Debug, Clone)]
pub enum EventData {
    /// Code `o`: terminal output bytes.
    Output(Vec<u8>),
    /// Code `i`: terminal input bytes.
    Input(Vec<u8>),
    /// Code `r`: new columns and rows.
    Resize(u16, u16),
    /// Code `m`: a marker label.
    Marker(Vec<u8>),
    /// Any other single-byte code, preserved losslessly.
    Other(u8, Vec<u8>),
}

/// The mathematical image of an [`EventData`].
#[verifier::ext_equal]
pub enum EventDataModel {
    Output(Seq<u8>),
    Input(Seq<u8>),
    Resize(u16, u16),
    Marker(Seq<u8>),
    Other(u8, Seq<u8>),
}

impl View for EventData {
    type V = EventDataModel;

    open spec fn view(&self) -> EventDataModel {
        match self {
            EventData::Output(p) => EventDataModel::Output(p@),
            EventData::Input(p) => EventDataModel::Input(p@),
            EventData::Resize(c, r) => EventDataModel::Resize(*c, *r),
            EventData::Marker(p) => EventDataModel::Marker(p@),
            EventData::Other(c, p) => EventDataModel::Other(*c, p@),
        }
    }
}

/// One event: a timestamp and its tagged payload.
#[derive(Debug)]
pub struct Event {
    pub time: Time,
    pub data: EventData,
}

/// The mathematical image of an [`Event`]: the time text and the payload.
#[verifier::ext_equal]
pub struct EventModel {
    pub time: Seq<u8>,
    pub data: EventDataModel,
}

impl View for Event {
    type V = EventModel;

    open spec fn view(&self) -> EventModel {
        EventModel { time: self.time@, data: self.data@ }
    }
}

/// The variant name shown for an event's data.
pub open spec fn spec_type_name(d: EventDataModel) -> Seq<char> {
    match d {
        EventDataModel::Output(_) => "Output"@,
        EventDataModel::Input(_) => "Input"@,
        EventDataModel::Resize(_, _) => "Resize"@,
        EventDataModel::Marker(_) => "Marker"@,
        EventDataModel::Other(_, _) => "Other"@,
    }
}

/// The data bytes shown for an event's data: the payload, or `<cols>x<rows>`
/// for a resize.
pub open spec fn spec_data_bytes(d: EventDataModel) -> Seq<u8> {
    match d {
        EventDataModel::Output(p) => p,
        EventDataModel::Input(p) => p,
        EventDataModel::Resize(c, r) => dec_digits(c as nat) + seq![0x78u8] + dec_digits(r as nat),
        EventDataModel::Marker(p) => p,
        EventDataModel::Other(_, p) => p,
    }
}

impl EventData {
    /// Get the variant name as a string.
    pub fn get_type(&self) -> (r: &'static str)
        ensures
            r@ == spec_type_name(self@),
    {
        match self {
            EventData::Output(_) => "Output",
            EventData::Input(_) => "Input",
            EventData::Resize(_, _) => "Resize",
            EventData::Marker(_) => "Marker",
            EventData::Other(_, _) => "Other",
        }
    }

    /// Get the data contents as owned bytes.
    pub fn get_data(&self) -> (r: Vec<u8>)
        ensures
            r@ == spec_data_bytes(self@),
    {
        match self {
            EventData::Output(p) => bytes_of(p.as_slice()),
            EventData::Input(p) => bytes_of(p.as_slice()),
            EventData::Resize(c, r) => {
                let mut v = crate::textutil::u64_to_dec(*c as u64);
                v.push(0x78);
                let mut rows = crate::textutil::u64_to_dec(*r as u64);
                v.append(&mut rows);
                proof {
                    assert(v@ =~= spec_data_bytes(self@));
                }
                v
            },
            EventData::Marker(p) => bytes_of(p.as_slice()),
            EventData::Other(_, p) => bytes_of(p.as_slice()),
        }
    }

    /// An owned copy with the same contents.
    pub fn duplicate(&self) -> (r: EventData)
        ensures
            r@ == self@,
    {
        match self {
            EventData::Output(p) => EventData::Output(bytes_of(p.as_slice())),
            EventData::Input(p) => EventData::Input(bytes_of(p.as_slice())),
            EventData::Resize(c, r) => EventData::Resize(*c, *r),
            EventData::Marker(p) => EventData::Marker(bytes_of(p.as_slice())),
            EventData::Other(c, p) => EventData::Other(*c, bytes_of(p.as_slice())),
        }
    }
}

impl Event {
    /// An owned copy with the same time and data.
    pub fn duplicate(&self) -> (r: Event)
        ensures
            r@ == self@,
    {
        Event { time: self.time.duplicate(), data: self.data.duplicate() }
    }
}

/// The known single-letter event codes.
#[derive(Debug, Clone, Copy, PartialEq, Eq, Structural)]
pub enum EventCode {
    Output,
    Input,
    Marker,
    Resize,
}

impl EventCode {
    /// Map `"o"`, `"i"`, `"m"`, `"r"` to a code; anything else is an event
    /// format error.
    pub fn from_str(s: &str) -> (r: Result<EventCode, CastError>)
        ensures
            r == spec_event_code(s.spec_bytes()),
    {
        let b = s.as_bytes();
        if b.len() != 1 {
            return Err(CastError::InvalidEventFormat);
        }
        match b[0] {
            0x6f => Ok(EventCode::Output),
            0x69 => Ok(EventCode::Input),
            0x6d => Ok(EventCode::Marker),
            0x72 => Ok(EventCode::Resize),
            _ => Err(CastError::InvalidEventFormat),
        }
    }
}

/// The code named by a one-byte string, if it is a known one.
pub open spec fn spec_event_code(b: Seq<u8>) -> Result<EventCode, CastError> {
    if b =~= seq![0x6fu8] {
        Ok(EventCode::Output)
    } else if b =~= seq![0x69u8] {
        Ok(EventCode::Input)
    } else if b =~= seq![0x6du8] {
        Ok(EventCode::Marker)
    } else if b =~= seq![0x72u8] {
        Ok(EventCode::Resize)
    } else {
        Err(CastError::InvalidEventFormat)
    }
}

/// One step short of the full scan: the state machine over the rest of the
/// line, given the quote and escape state, the part being built, and the
/// parts already completed.
///
/// Escapes are recognized, never interpreted: an escaped quote is kept as a
/// bare quote (and does not end the quoted span), while any other escaped
/// byte is passed through unrendered, backslash and all. A backslash pending
/// at the end of the text is kept too.
pub open spec fn lex_sm(
    s: Seq<u8>,
    in_q: bool,
    esc: bool,
    cur: Seq<u8>,
    parts: Seq<Seq<u8>>,
) -> Seq<Seq<u8>>
    decreases s.len(),
{
    if s.len() == 0 {
        let fin = if esc {
            cur.push(0x5c)
        } else {
            cur
        };
        if fin.len() > 0 {
            parts.push(trim_ws(fin))
        } else {
            parts
        }
    } else {
        let c = s[0];
        let rest = s.drop_first();
        if c == 0x22 && esc {
            lex_sm(rest, in_q, false, cur.push(c), parts)
        } else if esc {
            lex_sm(rest, in_q, false, cur.push(0x5c).push(c), parts)
        } else if c == 0x5c {
            lex_sm(rest, in_q, true, cur, parts)
        } else if c == 0x22 {
            lex_sm(rest, !in_q, false, cur, parts)
        } else if c == 0x2c && !in_q {
            if cur.len() > 0 {
                lex_sm(rest, in_q, false, Seq::empty(), parts.push(trim_ws(cur)))
            } else {
                lex_sm(rest, in_q, false, cur, parts)
            }
        } else {
            lex_sm(rest, in_q, false, cur.push(c), parts)
        }
    }
}

/// The parts the scan extracts from a line's inner text.
pub open spec fn lex_parts(s: Seq<u8>) -> Seq<Seq<u8>> {
    lex_sm(s, false, false, Seq::empty(), Seq::empty())
}

/// What parsing an event line returns, for every input line.
pub open spec fn spec_parse_event(line: Seq<u8>) -> Result<EventModel, EventError> {
    if !(line.len() >= 2 && line[0] == 0x5b && line.last() == 0x5d) {
        Err(EventError::Format)
    } else {
        let parts = lex_parts(line.subrange(1, line.len() - 1));
        if parts.len() != 3 {
            Err(EventError::PartCount(parts.len() as usize))
        } else if !valid_time(parts[0]) {
            Err(EventError::Time)
        } else {
            let codep = strip_quotes(parts[1]);
            if codep.len() == 0 {
                Err(EventError::MissingCode)
            } else {
                let code = codep[0];
                let payload = strip_quotes(parts[2]);
                if code == 0x72 {
                    spec_parse_resize(parts[0], payload)
                } else {
                    Ok(
                        EventModel {
                            time: parts[0],
                            data: if code == 0x6f {
                                EventDataModel::Output(payload)
                            } else if code == 0x69 {
                                EventDataModel::Input(payload)
                            } else if code == 0x6d {
                                EventDataModel::Marker(payload)
                            } else {
                                EventDataModel::Other(code, payload)
                            },
                        },
                    )
                }
            }
        }
    }
}

/// A resize payload splits at its first `x` into two decimal `u16` runs.
pub open spec fn spec_parse_resize(time_text: Seq<u8>, payload: Seq<u8>) -> Result<
    EventModel,
    EventError,
> {
    let xi = find_byte(payload, 0x78, 0);
    if !(0 <= xi < payload.len()) {
        Err(EventError::Resize)
    } else {
        let cols = payload.subrange(0, xi);
        let rows = payload.subrange(xi + 1, payload.len() as int);
        if all_digits(cols) && cols.len() > 0 && digits_val(cols) <= 0xffff && all_digits(rows)
            && rows.len() > 0 && digits_val(rows) <= 0xffff {
            Ok(
                EventModel {
                    time: time_text,
                    data: EventDataModel::Resize(
                        digits_val(cols) as u16,
                        digits_val(rows) as u16,
                    ),
                },
            )
        } else {
            Err(EventError::Resize)
        }
    }
}

/// The views of a vector of parts.
pub open spec fn seq_views(p: Seq<Vec<u8>>) -> Seq<Seq<u8>> {
    p.map_values(|v: Vec<u8>| v@)
}

/// Run the scan over a line's inner text.
fn lex_line(inner: &[u8]) -> (parts: Vec<Vec<u8>>)
    ensures
        seq_views(parts@) == lex_parts(inner@),
{
    let n: usize = inner.len();
    let mut i: usize = 0;
    let mut in_q = false;
    let mut esc = false;
    let mut cur: Vec<u8> = Vec::new();
    let mut parts: Vec<Vec<u8>> = Vec::new();
    proof {
        assert(inner@.subrange(0, n as int) =~= inner@);
        assert(seq_views(parts@) =~= Seq::<Seq<u8>>::empty());
        assert(cur@ =~= Seq::<u8>::empty());
    }
    while i < n
        invariant
            0 <= i <= n,
            n == inner@.len(),
            lex_sm(inner@.subrange(i as int, n as int), in_q, esc, cur@, seq_views(parts@))
                == lex_parts(inner@),
        decreases n - i,
    {
        let ghost pre = inner@.subrange(i as int, n as int);
        let ghost old_cur = cur@;
        let ghost old_views = seq_views(parts@);
        proof {
            assert(pre[0] == inner@[i as int]);
            assert(pre.drop_first() =~= inner@.subrange(i + 1, n as int));
        }
        let c = inner[i];
        if c == 0x22 && esc {
            cur.push(c);
            esc = false;
        } else if esc {
            cur.push(0x5c);
            cur.push(c);
            esc = false;
        } else if c == 0x5c {
            esc = true;
        } else if c == 0x22 {
            in_q = !in_q;
        } else if c == 0x2c && !in_q {
            if cur.len() > 0 {
                let t = trim_slice(cur.as_slice());
                let owned = bytes_of(t);
                parts.push(owned);
                cur = Vec::new();
                proof {
                    assert(seq_views(parts@) =~= old_views.push(trim_ws(old_cur)));
                    assert(cur@ =~= Seq::<u8>::empty());
                }
            }
        } else {
            cur.push(c);
        }
        i += 1;
    }
    proof {
        assert(inner@.subrange(n as int, n as int) =~= Seq::<u8>::empty());
    }
    if esc {
        cur.push(0x5c);
    }
    let ghost old_views = seq_views(parts@);
    let ghost old_cur = cur@;
    if cur.len() > 0 {
        let t = trim_slice(cur.as_slice());
        let owned = bytes_of(t);
        parts.push(owned);
        proof {
            assert(seq_views(parts@) =~= old_views.push(trim_ws(old_cur)));
        }
    }
    parts
}

/// Parse one event line (already trimmed of surrounding whitespace).
///
/// Returns exactly what [`spec_parse_event`] assigns to the line, value and
/// error alike.
pub fn parse_event_line(line: &[u8]) -> (r: Result<Event, EventError>)
    ensures
        match r {
            Ok(e) => spec_parse_event(line@) == Ok::<EventModel, EventError>(e@),
            Err(err) => spec_parse_event(line@) == Err::<EventModel, EventError>(err),
        },
{
    let n: usize = line.len();
    if n < 2 || line[0] != 0x5b || line[n - 1] != 0x5d {
        return Err(EventError::Format);
    }
    let inner = vstd::slice::slice_subrange(line, 1, n - 1);
    let parts = lex_line(inner);
    if parts.len() != 3 {
        proof {
            assert(seq_views(parts@).len() == parts@.len());
        }
        return Err(EventError::PartCount(parts.len()));
    }
    proof {
        assert(seq_views(parts@)[0] == parts@[0]@);
        assert(seq_views(parts@)[1] == parts@[1]@);
        assert(seq_views(parts@)[2] == parts@[2]@);
    }
    let time = match Time::parse(parts[0].as_slice()) {
        Some(t) => t,
        None => {
            return Err(EventError::Time);
        },
    };
    let codep = strip_quotes_slice(parts[1].as_slice());
    if codep.len() == 0 {
        return Err(EventError::MissingCode);
    }
    let code = codep[0];
    let payload_slice = strip_quotes_slice(parts[2].as_slice());
    if code == 0x72 {
        let xi = find_byte_from(payload_slice, 0x78, 0);
        if xi == payload_slice.len() {
            return Err(EventError::Resize);
        }
        let cols_s = vstd::slice::slice_subrange(payload_slice, 0, xi);
        let rows_s = vstd::slice::slice_subrange(payload_slice, xi + 1, payload_slice.len());
        let cols = match crate::textutil::parse_digits_u64(cols_s) {
            Some(v) => v,
            None => {
                return Err(EventError::Resize);
            },
        };
        let rows = match crate::textutil::parse_digits_u64(rows_s) {
            Some(v) => v,
            None => {
                return Err(EventError::Resize);
            },
        };
        if cols > 0xffff || rows > 0xffff {
            return Err(EventError::Resize);
        }
        Ok(Event { time, data: EventData::Resize(cols as u16, rows as u16) })
    } else if code == 0x6f {
        Ok(Event { time, data: EventData::Output(bytes_of(payload_slice)) })
    } else if code == 0x69 {
        Ok(Event { time, data: EventData::Input(bytes_of(payload_slice)) })
    } else if code == 0x6d {
        Ok(Event { time, data: EventData::Marker(bytes_of(payload_slice)) })
    } else {
        Ok(Event { time, data: EventData::Other(code, bytes_of(payload_slice)) })
    }
}

/// Escape a payload for serialization: each quote becomes backslash-quote;
/// nothing else changes.
pub open spec fn spec_escape(p: Seq<u8>) -> Seq<u8>
    decreases p.len(),
{
    if p.len() == 0 {
        Seq::empty()
    } else {
        (if p[0] == 0x22 {
            seq![0x5cu8, 0x22u8]
        } else {
            seq![p[0]]
        }) + spec_escape(p.drop_first())
    }
}

/// The code byte and the raw payload text of an event's data.
pub open spec fn spec_code_and_payload(d: EventDataModel) -> (u8, Seq<u8>) {
    match d {
        EventDataModel::Output(p) => (0x6fu8, p),
        EventDataModel::Input(p) => (0x69u8, p),
        EventDataModel::Resize(c, r) => (
            0x72u8,
            dec_digits(c as nat) + seq![0x78u8] + dec_digits(r as nat),
        ),
        EventDataModel::Marker(p) => (0x6du8, p),
        EventDataModel::Other(c, p) => (c, p),
    }
}

/// The serialized text of an event: `[<time>, "<code>", "<payload>"]` with
/// quotes in the payload escaped.
pub open spec fn spec_serialize_event(e: EventModel) -> Seq<u8> {
    let (code, payload) = spec_code_and_payload(e.data);
    seq![0x5bu8] + e.time + seq![0x2cu8, 0x20u8, 0x22u8, code, 0x22u8, 0x2cu8, 0x20u8, 0x22u8]
        + spec_escape(payload) + seq![0x22u8, 0x5du8]
}

/// Escaping distributes over appending one byte.
proof fn lemma_escape_snoc(s: Seq<u8>, c: u8)
    ensures
        spec_escape(s.push(c)) == spec_escape(s) + (if c == 0x22 {
            seq![0x5cu8, 0x22u8]
        } else {
            seq![c]
        }),
    decreases s.len(),
{
    let whole = s.push(c);
    if s.len() == 0 {
        assert(whole[0] == c);
        assert(whole.drop_first() =~= Seq::<u8>::empty());
        assert(spec_escape(Seq::<u8>::empty()) =~= Seq::<u8>::empty());
        assert(spec_escape(s) =~= Seq::<u8>::empty());
        assert(spec_escape(whole) =~= spec_escape(s) + (if c == 0x22 {
            seq![0x5cu8, 0x22u8]
        } else {
            seq![c]
        }));
    } else {
        let hd = if s[0] == 0x22 {
            seq![0x5cu8, 0x22u8]
        } else {
            seq![s[0]]
        };
        let tl = if c == 0x22 {
            seq![0x5cu8, 0x22u8]
        } else {
            seq![c]
        };
        assert(whole[0] == s[0]);
        assert(whole.drop_first() =~= s.drop_first().push(c));
        lemma_escape_snoc(s.drop_first(), c);
        assert(spec_escape(whole) == hd + spec_escape(whole.drop_first()));
        assert(spec_escape(whole.drop_first()) == spec_escape(s.drop_first()) + tl);
        assert(spec_escape(s) == hd + spec_escape(s.drop_first()));
        assert(hd + (spec_escape(s.drop_first()) + tl) =~= (hd + spec_escape(s.drop_first())) + tl);
    }
}

/// Append the escaped payload to an output buffer.
fn push_escaped(out: &mut Vec<u8>, p: &[u8])
    ensures
        final(out)@ == old(out)@ + spec_escape(p@),
{
    let n: usize = p.len();
    let mut i: usize = 0;
    proof {
        assert(p@.subrange(0, 0) =~= Seq::<u8>::empty());
        assert(out@ =~= old(out)@ + spec_escape(p@.subrange(0, 0)));
    }
    while i < n
        invariant
            0 <= i <= n,
            n == p@.len(),
            out@ == old(out)@ + spec_escape(p@.subrange(0, i as int)),
        decreases n - i,
    {
        let c = p[i];
        proof {
            assert(p@.subrange(0, i + 1) =~= p@.subrange(0, i as int).push(c));
            lemma_escape_snoc(p@.subrange(0, i as int), c);
        }
        if c == 0x22 {
            out.push(0x5c);
            out.push(0x22);
        } else {
            out.push(c);
        }
        proof {
            assert(out@ =~= old(out)@ + spec_escape(p@.subrange(0, i + 1)));
        }
        i += 1;
    }
    proof {
        assert(p@.subrange(0, n as int) =~= p@);
    }
}

/// Payload bytes in which every backslash escapes a following non-quote
/// byte. Serialization escapes only quotes, so a backslash directly before
/// a quote would read back as an escaped quote, and a trailing backslash
/// would swallow the serialized closing quote; every other backslash passes
/// through the scan unrendered and survives the trip.
pub open spec fn escapes_wf(p: Seq<u8>) -> bool
    decreases p.len(),
{
    if p.len() == 0 {
        true
    } else if p[0] == 0x5c {
        p.len() >= 2 && p[1] != 0x22 && escapes_wf(p.skip(2))
    } else {
        escapes_wf(p.drop_first())
    }
}

/// Payloads that survive a serialize-then-parse trip unchanged: every
/// backslash escapes a following non-quote byte, and no whitespace or quote
/// stands at either edge (parts are trimmed of whitespace and then of
/// quotes).
pub open spec fn payload_round_trippable(p: Seq<u8>) -> bool {
    &&& escapes_wf(p)
    &&& p.len() > 0 ==> {
        &&& !crate::textutil::is_ws_byte(p[0])
        &&& !crate::textutil::is_ws_byte(p.last())
        &&& p[0] != 0x22
        &&& p.last() != 0x22
    }
}

/// A run without backslashes trivially escapes well.
proof fn lemma_no_backslash_escapes_wf(p: Seq<u8>)
    requires
        forall|i: int| 0 <= i < p.len() ==> #[trigger] p[i] != 0x5c,
    ensures
        escapes_wf(p),
    decreases p.len(),
{
    if p.len() > 0 {
        lemma_no_backslash_escapes_wf(p.drop_first());
    }
}

/// Codes of `Other` events that survive the trip: not a separator, quote,
/// backslash or whitespace, and not one of the four known codes (those parse
/// back to their own variants).
pub open spec fn code_round_trippable(c: u8) -> bool {
    &&& c != 0x22
    &&& c != 0x5c
    &&& c != 0x2c
    &&& !crate::textutil::is_ws_byte(c)
    &&& c != 0x6f
    &&& c != 0x69
    &&& c != 0x6d
    &&& c != 0x72
}

/// Events whose serialized line parses back to the same event.
pub open spec fn event_round_trippable(e: EventModel) -> bool {
    &&& valid_time(e.time)
    &&& match e.data {
        EventDataModel::Output(p) => payload_round_trippable(p),
        EventDataModel::Input(p) => payload_round_trippable(p),
        EventDataModel::Resize(_, _) => true,
        EventDataModel::Marker(p) => payload_round_trippable(p),
        EventDataModel::Other(c, p) => code_round_trippable(c) && payload_round_trippable(p),
    }
}

/// A run of bytes that trigger no scan branch is copied into the current
/// part unchanged.
proof fn lemma_lex_plain_run(s: Seq<u8>, rest: Seq<u8>, in_q: bool, cur: Seq<u8>, parts: Seq<Seq<u8>>)
    requires
        forall|i: int|
            0 <= i < s.len() ==> #[trigger] s[i] != 0x22 && s[i] != 0x5c && (!in_q ==> s[i]
                != 0x2c),
    ensures
        lex_sm(s + rest, in_q, false, cur, parts) == lex_sm(rest, in_q, false, cur + s, parts),
    decreases s.len(),
{
    if s.len() == 0 {
        assert(s + rest =~= rest);
        assert(cur + s =~= cur);
    } else {
        let c = s[0];
        assert((s + rest)[0] == c);
        assert((s + rest).drop_first() =~= s.drop_first() + rest);
        lemma_lex_plain_run(s.drop_first(), rest, in_q, cur.push(c), parts);
        assert(cur.push(c) + s.drop_first() =~= cur + s);
    }
}

/// An escaped payload inside quotes is copied into the current part as the
/// original payload: escaped quotes lose their backslash, every other
/// escaped byte keeps it.
proof fn lemma_lex_escaped_payload(p: Seq<u8>, rest: Seq<u8>, cur: Seq<u8>, parts: Seq<Seq<u8>>)
    requires
        escapes_wf(p),
    ensures
        lex_sm(spec_escape(p) + rest, true, false, cur, parts) == lex_sm(
            rest,
            true,
            false,
            cur + p,
            parts,
        ),
    decreases p.len(),
{
    if p.len() == 0 {
        assert(spec_escape(p) + rest =~= rest);
        assert(cur + p =~= cur);
    } else {
        let c = p[0];
        let tail = spec_escape(p.drop_first()) + rest;
        if c == 0x22 {
            assert(spec_escape(p) =~= seq![0x5cu8, 0x22u8] + spec_escape(p.drop_first()));
            let w = spec_escape(p) + rest;
            assert(w =~= seq![0x5cu8, 0x22u8] + tail);
            assert(w[0] == 0x5c);
            assert(w.drop_first() =~= seq![0x22u8] + tail);
            assert(lex_sm(w, true, false, cur, parts) == lex_sm(
                seq![0x22u8] + tail,
                true,
                true,
                cur,
                parts,
            ));
            assert((seq![0x22u8] + tail)[0] == 0x22);
            assert((seq![0x22u8] + tail).drop_first() =~= tail);
            assert(lex_sm(seq![0x22u8] + tail, true, true, cur, parts) == lex_sm(
                tail,
                true,
                false,
                cur.push(c),
                parts,
            ));
            lemma_lex_escaped_payload(p.drop_first(), rest, cur.push(c), parts);
            assert(cur.push(c) + p.drop_first() =~= cur + p);
        } else if c == 0x5c {
            // `escapes_wf` gives a following non-quote byte; both bytes are
            // copied through
            let d = p[1];
            let two = p.skip(2);
            assert(p.drop_first()[0] == d);
            assert(p.drop_first().drop_first() =~= two);
            assert(spec_escape(p.drop_first()) =~= seq![d] + spec_escape(two));
            assert(spec_escape(p) =~= seq![0x5cu8, d] + spec_escape(two));
            let tail2 = spec_escape(two) + rest;
            let w = spec_escape(p) + rest;
            assert(w =~= seq![0x5cu8, d] + tail2);
            assert(w[0] == 0x5c);
            assert(w.drop_first() =~= seq![d] + tail2);
            assert(lex_sm(w, true, false, cur, parts) == lex_sm(
                seq![d] + tail2,
                true,
                true,
                cur,
                parts,
            ));
            assert((seq![d] + tail2)[0] == d);
            assert((seq![d] + tail2).drop_first() =~= tail2);
            assert(lex_sm(seq![d] + tail2, true, true, cur, parts) == lex_sm(
                tail2,
                true,
                false,
                cur.push(0x5c).push(d),
                parts,
            ));
            lemma_lex_escaped_payload(two, rest, cur.push(0x5c).push(d), parts);
            assert(cur.push(0x5c).push(d) + two =~= cur + p);
        } else {
            assert(spec_escape(p) =~= seq![c] + spec_escape(p.drop_first()));
            let w = spec_escape(p) + rest;
            assert(w =~= seq![c] + tail);
            assert(w[0] == c);
            assert(w.drop_first() =~= tail);
            assert(lex_sm(w, true, false, cur, parts) == lex_sm(
                tail,
                true,
                false,
                cur.push(c),
                parts,
            ));
            lemma_lex_escaped_payload(p.drop_first(), rest, cur.push(c), parts);
            assert(cur.push(c) + p.drop_first() =~= cur + p);
        }
    }
}

/// A well-formed time text contains only digits, a dot, and a sign: nothing
/// the scan or the trims react to.
proof fn lemma_time_bytes(t: Seq<u8>)
    requires
        valid_time(t),
    ensures
        t.len() >= 1,
        forall|i: int|
            0 <= i < t.len() ==> #[trigger] t[i] != 0x22 && t[i] != 0x5c && t[i] != 0x2c
                && !crate::textutil::is_ws_byte(t[i]),
{
    let mag = crate::time::time_mag_text(t);
    let signed = t.len() > 0 && (t[0] == 0x2d || t[0] == 0x2b);
    let off: int = if signed {
        1
    } else {
        0
    };
    crate::textutil::lemma_find_byte_props(mag, 0x2e, 0);
    let d = find_byte(mag, 0x2e, 0);
    assert forall|i: int|
        0 <= i < t.len() implies #[trigger] t[i] != 0x22 && t[i] != 0x5c && t[i] != 0x2c
        && !crate::textutil::is_ws_byte(t[i]) by {
        if signed && i == 0 {
        } else {
            let j = i - off;
            assert(mag[j] == t[i]);
            if d == mag.len() {
                assert(crate::textutil::is_digit_byte(mag[j]));
            } else {
                if j < d {
                    assert(mag.subrange(0, d)[j] == mag[j]);
                    assert(crate::textutil::is_digit_byte(mag[j]));
                } else if j == d {
                    assert(mag[j] == 0x2e);
                } else {
                    assert(mag.subrange(d + 1, mag.len() as int)[j - d - 1] == mag[j]);
                    assert(crate::textutil::is_digit_byte(mag[j]));
                }
            }
        }
    }
}

/// The scan over a serialized line's inner text yields the time text, the
/// code, and the payload as the three parts.
#[verifier::rlimit(80)]
proof fn lemma_lex_serialized(t: Seq<u8>, code: u8, payload: Seq<u8>)
    requires
        valid_time(t),
        payload_round_trippable(payload),
        code != 0x22 && code != 0x5c && code != 0x2c && !crate::textutil::is_ws_byte(code),
    ensures
        lex_parts(
            t + seq![0x2cu8, 0x20u8, 0x22u8, code, 0x22u8, 0x2cu8, 0x20u8, 0x22u8] + spec_escape(
                payload,
            ) + seq![0x22u8],
        ) == Seq::<Seq<u8>>::empty().push(t).push(seq![code]).push(payload),
{
    let esc_p = spec_escape(payload);
    let sect2 = seq![0x2cu8, 0x20u8, 0x22u8, code, 0x22u8, 0x2cu8, 0x20u8, 0x22u8];
    let inner = t + sect2 + esc_p + seq![0x22u8];
    lemma_time_bytes(t);
    // walk the scan over the whole inner text
    let rest1 = sect2 + esc_p + seq![0x22u8];
    assert(t + rest1 =~= inner);
    lemma_lex_plain_run(t, rest1, false, Seq::empty(), Seq::empty());
    assert(Seq::<u8>::empty() + t =~= t);
    let rest2 = seq![0x20u8, 0x22u8, code, 0x22u8, 0x2cu8, 0x20u8, 0x22u8] + esc_p + seq![0x22u8];
    assert(rest1 =~= seq![0x2cu8] + rest2);
    assert((seq![0x2cu8] + rest2)[0] == 0x2c);
    assert((seq![0x2cu8] + rest2).drop_first() =~= rest2);
    crate::textutil::lemma_trim_ws_clean(t);
    let parts1 = Seq::<Seq<u8>>::empty().push(t);
    assert(lex_sm(rest1, false, false, t, Seq::empty()) == lex_sm(
        rest2,
        false,
        false,
        Seq::empty(),
        parts1,
    ));
    let rest3 = seq![0x22u8, code, 0x22u8, 0x2cu8, 0x20u8, 0x22u8] + esc_p + seq![0x22u8];
    assert(rest2 =~= seq![0x20u8] + rest3);
    assert((seq![0x20u8] + rest3)[0] == 0x20);
    assert((seq![0x20u8] + rest3).drop_first() =~= rest3);
    assert(lex_sm(rest2, false, false, Seq::empty(), parts1) == lex_sm(
        rest3,
        false,
        false,
        Seq::<u8>::empty().push(0x20u8),
        parts1,
    ));
    let rest4 = seq![code, 0x22u8, 0x2cu8, 0x20u8, 0x22u8] + esc_p + seq![0x22u8];
    assert(rest3 =~= seq![0x22u8] + rest4);
    assert((seq![0x22u8] + rest4)[0] == 0x22);
    assert((seq![0x22u8] + rest4).drop_first() =~= rest4);
    let cur1 = Seq::<u8>::empty().push(0x20u8);
    assert(lex_sm(rest3, false, false, cur1, parts1) == lex_sm(rest4, true, false, cur1, parts1));
    let rest5 = seq![0x22u8, 0x2cu8, 0x20u8, 0x22u8] + esc_p + seq![0x22u8];
    assert(rest4 =~= seq![code] + rest5);
    assert((seq![code] + rest5)[0] == code);
    assert((seq![code] + rest5).drop_first() =~= rest5);
    assert(lex_sm(rest4, true, false, cur1, parts1) == lex_sm(
        rest5,
        true,
        false,
        cur1.push(code),
        parts1,
    ));
    let cur2 = cur1.push(code);
    let rest6 = seq![0x2cu8, 0x20u8, 0x22u8] + esc_p + seq![0x22u8];
    assert(rest5 =~= seq![0x22u8] + rest6);
    assert((seq![0x22u8] + rest6)[0] == 0x22);
    assert((seq![0x22u8] + rest6).drop_first() =~= rest6);
    assert(lex_sm(rest5, true, false, cur2, parts1) == lex_sm(rest6, false, false, cur2, parts1));
    let rest7 = seq![0x20u8, 0x22u8] + esc_p + seq![0x22u8];
    assert(rest6 =~= seq![0x2cu8] + rest7);
    assert((seq![0x2cu8] + rest7)[0] == 0x2c);
    assert((seq![0x2cu8] + rest7).drop_first() =~= rest7);
    assert(cur2 =~= seq![0x20u8] + seq![code]);
    crate::textutil::lemma_trim_ws_space_prefix(seq![code]);
    assert(trim_ws(cur2) =~= seq![code]);
    let parts2 = parts1.push(seq![code]);
    assert(lex_sm(rest6, false, false, cur2, parts1) == lex_sm(
        rest7,
        false,
        false,
        Seq::empty(),
        parts2,
    ));
    let rest8 = seq![0x22u8] + esc_p + seq![0x22u8];
    assert(rest7 =~= seq![0x20u8] + rest8);
    assert((seq![0x20u8] + rest8)[0] == 0x20);
    assert((seq![0x20u8] + rest8).drop_first() =~= rest8);
    assert(lex_sm(rest7, false, false, Seq::empty(), parts2) == lex_sm(
        rest8,
        false,
        false,
        cur1,
        parts2,
    ));
    let rest9 = esc_p + seq![0x22u8];
    assert(rest8 =~= seq![0x22u8] + rest9);
    assert((seq![0x22u8] + rest9)[0] == 0x22);
    assert((seq![0x22u8] + rest9).drop_first() =~= rest9);
    assert(lex_sm(rest8, false, false, cur1, parts2) == lex_sm(rest9, true, false, cur1, parts2));
    lemma_lex_escaped_payload(payload, seq![0x22u8], cur1, parts2);
    let cur3 = cur1 + payload;
    assert((seq![0x22u8])[0] == 0x22);
    assert((seq![0x22u8]).drop_first() =~= Seq::<u8>::empty());
    assert(lex_sm(seq![0x22u8], true, false, cur3, parts2) == lex_sm(
        Seq::empty(),
        false,
        false,
        cur3,
        parts2,
    ));
    assert(cur3.len() > 0);
    assert(cur3 =~= seq![0x20u8] + payload);
    crate::textutil::lemma_trim_ws_space_prefix(payload);
    assert(trim_ws(cur3) =~= payload);
    let parts3 = parts2.push(payload);
    assert(lex_sm(Seq::<u8>::empty(), false, false, cur3, parts2) == parts3);
    assert(lex_parts(inner) == parts3);
}

/// Round trip: parsing the serialized text of a round-trippable event gives
/// back the same time text, code and payload.
pub proof fn lemma_event_round_trip(e: EventModel)
    requires
        event_round_trippable(e),
    ensures
        spec_parse_event(spec_serialize_event(e)) == Ok::<EventModel, EventError>(e),
{
    let t = e.time;
    let (code, payload) = spec_code_and_payload(e.data);
    let esc_p = spec_escape(payload);
    let line = spec_serialize_event(e);
    let sect2 = seq![0x2cu8, 0x20u8, 0x22u8, code, 0x22u8, 0x2cu8, 0x20u8, 0x22u8];
    lemma_time_bytes(t);
    // the payload of every round-trippable variant is itself round-trippable
    assert(payload_round_trippable(payload)) by {
        match e.data {
            EventDataModel::Resize(c, r) => {
                crate::textutil::lemma_dec_digits_val(c as nat);
                crate::textutil::lemma_dec_digits_val(r as nat);
                assert(crate::textutil::is_digit_byte(payload[0]));
                assert(payload.last() == dec_digits(r as nat).last());
                assert(crate::textutil::is_digit_byte(payload.last()));
                assert(forall|i: int| 0 <= i < payload.len() ==> #[trigger] payload[i] != 0x5c);
                lemma_no_backslash_escapes_wf(payload);
            },
            _ => {},
        }
    }
    // the code byte triggers nothing in the scan and survives the trims
    assert(code != 0x22 && code != 0x5c && code != 0x2c && !crate::textutil::is_ws_byte(code));
    // shape of the serialized line
    assert(line[0] == 0x5b);
    assert(line.last() == 0x5d);
    assert(line.len() >= 2);
    let inner = line.subrange(1, line.len() - 1);
    assert(inner =~= t + sect2 + esc_p + seq![0x22u8]);
    lemma_lex_serialized(t, code, payload);
    let parts3 = Seq::<Seq<u8>>::empty().push(t).push(seq![code]).push(payload);
    assert(lex_parts(inner) == parts3);
    // feed the parts into the parse
    assert(parts3.len() == 3);
    assert(parts3[0] == t);
    assert(parts3[1] == seq![code]);
    assert(parts3[2] == payload);
    crate::textutil::lemma_strip_quotes_clean(seq![code]);
    assert(strip_quotes(parts3[1]) =~= seq![code]);
    crate::textutil::lemma_strip_quotes_clean(payload);
    assert(strip_quotes(parts3[2]) =~= payload);
    match e.data {
        EventDataModel::Output(p) => {
            assert(spec_parse_event(line) == Ok::<EventModel, EventError>(
                EventModel { time: t, data: EventDataModel::Output(p) },
            ));
            assert(EventModel { time: t, data: EventDataModel::Output(p) } =~= e);
        },
        EventDataModel::Input(p) => {
            assert(EventModel { time: t, data: EventDataModel::Input(p) } =~= e);
        },
        EventDataModel::Marker(p) => {
            assert(EventModel { time: t, data: EventDataModel::Marker(p) } =~= e);
        },
        EventDataModel::Other(c, p) => {
            assert(code == c && payload == p);
            assert(EventModel { time: t, data: EventDataModel::Other(c, p) } =~= e);
        },
        EventDataModel::Resize(c, r) => {
            let dc = dec_digits(c as nat);
            let dr = dec_digits(r as nat);
            crate::textutil::lemma_dec_digits_val(c as nat);
            crate::textutil::lemma_dec_digits_val(r as nat);
            assert(payload =~= dc + seq![0x78u8] + dr);
            assert forall|j: int| 0 <= j < dc.len() implies payload[j] != 0x78 by {
                assert(payload[j] == dc[j]);
                assert(crate::textutil::is_digit_byte(dc[j]));
            }
            assert(payload[dc.len() as int] == 0x78);
            crate::textutil::lemma_find_byte_at(payload, 0x78, 0, dc.len() as int);
            let xi = find_byte(payload, 0x78, 0);
            assert(xi == dc.len());
            assert(payload.subrange(0, xi) =~= dc);
            assert(payload.subrange(xi + 1, payload.len() as int) =~= dr);
            assert(digits_val(dc) == c as nat && digits_val(dr) == r as nat);
            assert(spec_parse_resize(t, payload) == Ok::<EventModel, EventError>(
                EventModel { time: t, data: EventDataModel::Resize(c, r) },
            ));
            assert(EventModel { time: t, data: EventDataModel::Resize(c, r) } =~= e);
        },
    }
}

/// Serialize an event to its line text (without a trailing newline).
pub fn serialize_event(e: &Event) -> (r: Vec<u8>)
    ensures
        r@ == spec_serialize_event(e@),
{
    let mut out: Vec<u8> = Vec::new();
    out.push(0x5b);
    let tb = e.time.as_bytes();
    let mut tv = bytes_of(tb);
    out.append(&mut tv);
    out.push(0x2c);
    out.push(0x20);
    out.push(0x22);
    let ghost head = seq![0x5bu8] + e.time@ + seq![0x2cu8, 0x20u8, 0x22u8];
    proof {
        assert(out@ =~= head);
    }
    match &e.data {
        EventData::Resize(c, r) => {
            let mut payload = crate::textutil::u64_to_dec(*c as u64);
            payload.push(0x78);
            let mut rows = crate::textutil::u64_to_dec(*r as u64);
            payload.append(&mut rows);
            proof {
                assert(payload@ =~= spec_code_and_payload(e.data@).1);
            }
            out.push(0x72);
            out.push(0x22);
            out.push(0x2c);
            out.push(0x20);
            out.push(0x22);
            push_escaped(&mut out, payload.as_slice());
            out.push(0x22);
            out.push(0x5d);
            proof {
                assert(out@ =~= spec_serialize_event(e@));
            }
        },
        EventData::Output(p) => {
            out.push(0x6f);
            out.push(0x22);
            out.push(0x2c);
            out.push(0x20);
            out.push(0x22);
            push_escaped(&mut out, p.as_slice());
            out.push(0x22);
            out.push(0x5d);
            proof {
                assert(out@ =~= spec_serialize_event(e@));
            }
        },
        EventData::Input(p) => {
            out.push(0x69);
            out.push(0x22);
            out.push(0x2c);
            out.push(0x20);
            out.push(0x22);
            push_escaped(&mut out, p.as_slice());
            out.push(0x22);
            out.push(0x5d);
            proof {
                assert(out@ =~= spec_serialize_event(e@));
            }
        },
        EventData::Marker(p) => {
            out.push(0x6d);
            out.push(0x22);
            out.push(0x2c);
            out.push(0x20);
            out.push(0x22);
            push_escaped(&mut out, p.as_slice());
            out.push(0x22);
            out.push(0x5d);
            proof {
                assert(out@ =~= spec_serialize_event(e@));
            }
        },
        EventData::Other(c, p) => {
            out.push(*c);
            out.push(0x22);
            out.push(0x2c);
            out.push(0x20);
            out.push(0x22);
            push_escaped(&mut out, p.as_slice());
            out.push(0x22);
            out.push(0x5d);
            proof {
                assert(out@ =~= spec_serialize_event(e@));
            }
        },
    }
    out
}

} // verus!
