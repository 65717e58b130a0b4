//! The header model and its JSON codec.
//!
//! The first line of a cast file is a JSON object. The parser accepts the
//! grammar the contracts below spell out: the known fields typed as the
//! model demands, unknown members skipped by quote- and bracket-matching.
//! String-typed fields keep their raw body bytes (escapes are carried
//! through unchanged), and fractional numbers keep their raw token text, so
//! an untouched field re-serializes exactly as it was read.

use crate::color::{
    spec_color_from_hex, spec_palette_from_string, spec_palette_to_string, Rgb, Theme, ThemeModel,
};
use crate::errors::CastError;
use crate::textutil::{all_digits, digits_val, is_digit_byte};
use vstd::prelude::*;

verus! {

/// ASCII chars as bytes; the form every JSON literal of this format takes.
pub open spec fn ascii(s: Seq<char>) -> Seq<u8> {
    s.map_values(|c: char| c as u8)
}

/// The JSON whitespace bytes: space, tab, line feed, carriage return.
pub open spec fn is_json_ws(b: u8) -> bool {
    b == 0x20 || b == 0x09 || b == 0x0a || b == 0x0d
}

/// First index at or after `i` that is not JSON whitespace.
pub open spec fn sp_ws(s: Seq<u8>, i: int) -> int
    decreases s.len() - i,
{
    if 0 <= i < s.len() && is_json_ws(s[i]) {
        sp_ws(s, i + 1)
    } else {
        i
    }
}

/// Index just past the closing quote of a string body starting at `i`
/// (after the opening quote); `None` if the string never closes or holds a
/// raw control byte, which JSON demands be escaped.
pub open spec fn sp_str_body_end(s: Seq<u8>, i: int) -> Option<int>
    decreases s.len() - i,
{
    if !(0 <= i < s.len()) {
        None
    } else if s[i] == 0x22 {
        Some(i + 1)
    } else if s[i] == 0x5c {
        if i + 1 < s.len() {
            sp_str_body_end(s, i + 2)
        } else {
            None
        }
    } else if s[i] < 0x20 {
        None
    } else {
        sp_str_body_end(s, i + 1)
    }
}

/// First index at or after `i` that is not a decimal digit.
pub open spec fn sp_digits_end(s: Seq<u8>, i: int) -> int
    decreases s.len() - i,
{
    if 0 <= i < s.len() && is_digit_byte(s[i]) {
        sp_digits_end(s, i + 1)
    } else {
        i
    }
}

/// Index just past a JSON number token starting at `i`: an optional minus,
/// digits (a leading zero only as the whole integer part), an optional
/// fraction, an optional exponent.
pub open spec fn sp_num_end(s: Seq<u8>, i: int) -> Option<int> {
    if !(0 <= i <= s.len()) {
        None
    } else {
        let j0 = if i < s.len() && s[i] == 0x2d {
            i + 1
        } else {
            i
        };
        let j1 = sp_digits_end(s, j0);
        if j1 == j0 {
            None
        } else if s[j0] == 0x30 && j1 > j0 + 1 {
            None
        } else {
            let j2 = if j1 < s.len() && s[j1] == 0x2e {
                let jf = sp_digits_end(s, j1 + 1);
                if jf == j1 + 1 {
                    -1
                } else {
                    jf
                }
            } else {
                j1
            };
            if j2 < 0 {
                None
            } else {
                if j2 < s.len() && (s[j2] == 0x65 || s[j2] == 0x45) {
                    let j3 = if j2 + 1 < s.len() && (s[j2 + 1] == 0x2b || s[j2 + 1] == 0x2d) {
                        j2 + 2
                    } else {
                        j2 + 1
                    };
                    let je = sp_digits_end(s, j3);
                    if je == j3 {
                        None
                    } else {
                        Some(je)
                    }
                } else {
                    Some(j2)
                }
            }
        }
    }
}

/// One step of the value skipper: depth counts unclosed braces and
/// brackets, and string state suppresses them; the skip ends after a
/// balanced compound or string, or just before a delimiter at depth zero.
pub open spec fn sp_skip_from(s: Seq<u8>, i: int, depth: nat, in_str: bool, esc: bool) -> Option<
    int,
>
    decreases s.len() - i,
{
    if !(0 <= i < s.len()) {
        if depth == 0 && !in_str && 0 <= i {
            Some(i)
        } else {
            None
        }
    } else if in_str {
        if esc {
            sp_skip_from(s, i + 1, depth, true, false)
        } else if s[i] == 0x5c {
            sp_skip_from(s, i + 1, depth, true, true)
        } else if s[i] == 0x22 {
            if depth == 0 {
                Some(i + 1)
            } else {
                sp_skip_from(s, i + 1, depth, false, false)
            }
        } else {
            sp_skip_from(s, i + 1, depth, true, false)
        }
    } else if s[i] == 0x22 {
        sp_skip_from(s, i + 1, depth, true, false)
    } else if s[i] == 0x7b || s[i] == 0x5b {
        sp_skip_from(s, i + 1, depth + 1, false, false)
    } else if s[i] == 0x7d || s[i] == 0x5d {
        if depth == 0 {
            Some(i)
        } else if depth == 1 {
            Some(i + 1)
        } else {
            sp_skip_from(s, i + 1, (depth - 1) as nat, false, false)
        }
    } else if depth == 0 && s[i] == 0x2c {
        Some(i)
    } else {
        sp_skip_from(s, i + 1, depth, false, false)
    }
}

/// Skip one JSON value starting at `i`.
pub open spec fn sp_skip_value(s: Seq<u8>, i: int) -> Option<int> {
    sp_skip_from(s, i, 0, false, false)
}

/// The header of a cast file. `version` must be 2 for the editor to accept
/// the file; `width` and `height` are the terminal geometry. String fields
/// keep the raw JSON string body; `duration` and `idle_time_limit` keep the
/// raw number token.
#[derive(Debug)]
pub struct Header {
    pub version: u8,
    pub width: u16,
    pub height: u16,
    pub timestamp: Option<u64>,
    pub duration: Option<Vec<u8>>,
    pub idle_time_limit: Option<Vec<u8>>,
    pub command: Option<Vec<u8>>,
    pub title: Option<Vec<u8>>,
    pub env: Option<Vec<(Vec<u8>, Vec<u8>)>>,
    pub theme: Option<Theme>,
}

/// The mathematical image of a [`Header`].
#[verifier::ext_equal]
pub struct HeaderModel {
    pub version: u8,
    pub width: u16,
    pub height: u16,
    pub timestamp: Option<u64>,
    pub duration: Option<Seq<u8>>,
    pub idle_time_limit: Option<Seq<u8>>,
    pub command: Option<Seq<u8>>,
    pub title: Option<Seq<u8>>,
    pub env: Option<Seq<(Seq<u8>, Seq<u8>)>>,
    pub theme: Option<ThemeModel>,
}

pub open spec fn view_opt_bytes(v: Option<Vec<u8>>) -> Option<Seq<u8>> {
    match v {
        Some(b) => Some(b@),
        None => None,
    }
}

pub open spec fn view_env(v: Option<Vec<(Vec<u8>, Vec<u8>)>>) -> Option<Seq<(Seq<u8>, Seq<u8>)>> {
    match v {
        Some(pairs) => Some(pairs@.map_values(|p: (Vec<u8>, Vec<u8>)| (p.0@, p.1@))),
        None => None,
    }
}

pub open spec fn view_theme(v: Option<Theme>) -> Option<ThemeModel> {
    match v {
        Some(t) => Some(t@),
        None => None,
    }
}

impl View for Header {
    type V = HeaderModel;

    open spec fn view(&self) -> HeaderModel {
        HeaderModel {
            version: self.version,
            width: self.width,
            height: self.height,
            timestamp: self.timestamp,
            duration: view_opt_bytes(self.duration),
            idle_time_limit: view_opt_bytes(self.idle_time_limit),
            command: view_opt_bytes(self.command),
            title: view_opt_bytes(self.title),
            env: view_env(self.env),
            theme: view_theme(self.theme),
        }
    }
}

/// The fields collected so far while reading the header object's members.
#[verifier::ext_equal]
pub struct HeaderAcc {
    pub version: Option<u8>,
    pub width: Option<u16>,
    pub height: Option<u16>,
    pub timestamp: Option<u64>,
    pub duration: Option<Seq<u8>>,
    pub idle_time_limit: Option<Seq<u8>>,
    pub command: Option<Seq<u8>>,
    pub title: Option<Seq<u8>>,
    pub env: Option<Seq<(Seq<u8>, Seq<u8>)>>,
    pub theme: Option<ThemeModel>,
}

pub open spec fn empty_acc() -> HeaderAcc {
    HeaderAcc {
        version: None,
        width: None,
        height: None,
        timestamp: None,
        duration: None,
        idle_time_limit: None,
        command: None,
        title: None,
        env: None,
        theme: None,
    }
}

/// A decimal integer at `i`: its value and the index after its digits;
/// `None` if there is no digit, a leading zero precedes more digits, or the
/// value does not fit a `u64`.
pub open spec fn sp_parse_u64_at(s: Seq<u8>, i: int) -> Option<(u64, int)> {
    let j = sp_digits_end(s, i);
    if j == i {
        None
    } else if s[i] == 0x30 && j > i + 1 {
        None
    } else if digits_val(s.subrange(i, j)) > u64::MAX {
        None
    } else {
        Some((digits_val(s.subrange(i, j)) as u64, j))
    }
}

/// A JSON string at `i`: its raw body and the index after the closing
/// quote.
pub open spec fn sp_parse_string_at(s: Seq<u8>, i: int) -> Option<(Seq<u8>, int)> {
    if 0 <= i < s.len() && s[i] == 0x22 {
        match sp_str_body_end(s, i + 1) {
            None => None,
            Some(j) => Some((s.subrange(i + 1, j - 1), j)),
        }
    } else {
        None
    }
}

/// The members of a theme object, starting at a key; ends after the
/// object's closing brace. All three fields must appear, as strings that
/// decode to colors and a valid palette; unknown members are skipped.
pub open spec fn sp_theme_members(
    s: Seq<u8>,
    i: int,
    fg: Option<Rgb>,
    bg: Option<Rgb>,
    pal: Option<Seq<Rgb>>,
) -> Option<(ThemeModel, int)>
    decreases s.len() - i, 1nat,
{
    if !(0 <= i <= s.len()) {
        None
    } else {
        let k = sp_ws(s, i);
        match sp_parse_string_at(s, k) {
            None => None,
            Some((key, k2)) => {
                let k3 = sp_ws(s, k2);
                if !(0 <= k3 < s.len() && s[k3] == 0x3a) {
                    None
                } else {
                    let k4 = sp_ws(s, k3 + 1);
                    if key == ascii("fg"@) || key == ascii("bg"@) || key == ascii("palette"@) {
                        match sp_parse_string_at(s, k4) {
                            None => None,
                            Some((body, k5)) => {
                                if key == ascii("fg"@) {
                                    if fg is Some {
                                        None
                                    } else {
                                        match spec_color_from_hex(body) {
                                            Err(_) => None,
                                            Ok(c) => sp_theme_after_member(
                                                s,
                                                i,
                                                k5,
                                                Some(c),
                                                bg,
                                                pal,
                                            ),
                                        }
                                    }
                                } else if key == ascii("bg"@) {
                                    if bg is Some {
                                        None
                                    } else {
                                        match spec_color_from_hex(body) {
                                            Err(_) => None,
                                            Ok(c) => sp_theme_after_member(
                                                s,
                                                i,
                                                k5,
                                                fg,
                                                Some(c),
                                                pal,
                                            ),
                                        }
                                    }
                                } else {
                                    if pal is Some {
                                        None
                                    } else {
                                        match spec_palette_from_string(body) {
                                            Err(_) => None,
                                            Ok(colors) => sp_theme_after_member(
                                                s,
                                                i,
                                                k5,
                                                fg,
                                                bg,
                                                Some(colors),
                                            ),
                                        }
                                    }
                                }
                            },
                        }
                    } else {
                        match sp_skip_value(s, k4) {
                            None => None,
                            Some(k5) => sp_theme_after_member(s, i, k5, fg, bg, pal),
                        }
                    }
                }
            },
        }
    }
}

/// After one theme member: a comma continues with the next member, a brace
/// finishes the object.
pub open spec fn sp_theme_after_member(
    s: Seq<u8>,
    i: int,
    k5: int,
    fg: Option<Rgb>,
    bg: Option<Rgb>,
    pal: Option<Seq<Rgb>>,
) -> Option<(ThemeModel, int)>
    decreases s.len() - i, 0nat,
{
    if !(i < k5 <= s.len()) {
        None
    } else {
        let k6 = sp_ws(s, k5);
        if 0 <= k6 < s.len() && s[k6] == 0x2c {
            if k6 + 1 > i {
                sp_theme_members(s, k6 + 1, fg, bg, pal)
            } else {
                None
            }
        } else if 0 <= k6 < s.len() && s[k6] == 0x7d {
            match (fg, bg, pal) {
                (Some(f), Some(b), Some(p)) => Some(
                    (ThemeModel { fg: f, bg: b, palette: p }, k6 + 1),
                ),
                _ => None,
            }
        } else {
            None
        }
    }
}

/// A theme value: an object whose members `sp_theme_members` reads.
pub open spec fn sp_parse_theme_at(s: Seq<u8>, i: int) -> Option<(ThemeModel, int)> {
    if 0 <= i < s.len() && s[i] == 0x7b {
        sp_theme_members(s, i + 1, None, None, None)
    } else {
        None
    }
}

/// Store an env member: a repeated key keeps its first position but takes
/// the later value, as a map insert does.
pub open spec fn env_put(acc: Seq<(Seq<u8>, Seq<u8>)>, key: Seq<u8>, val: Seq<u8>) -> Seq<
    (Seq<u8>, Seq<u8>),
>
    decreases acc.len(),
{
    if acc.len() == 0 {
        seq![(key, val)]
    } else if acc[0].0 == key {
        seq![(key, val)] + acc.drop_first()
    } else {
        seq![acc[0]] + env_put(acc.drop_first(), key, val)
    }
}

/// The members of an env object: string keys with string values, in order
/// of first appearance, a repeated key taking its last value.
pub open spec fn sp_env_members(s: Seq<u8>, i: int, acc: Seq<(Seq<u8>, Seq<u8>)>) -> Option<
    (Seq<(Seq<u8>, Seq<u8>)>, int),
>
    decreases s.len() - i,
{
    if !(0 <= i <= s.len()) {
        None
    } else {
        let k = sp_ws(s, i);
        match sp_parse_string_at(s, k) {
            None => None,
            Some((key, k2)) => {
                let k3 = sp_ws(s, k2);
                if !(0 <= k3 < s.len() && s[k3] == 0x3a) {
                    None
                } else {
                    let k4 = sp_ws(s, k3 + 1);
                    match sp_parse_string_at(s, k4) {
                        None => None,
                        Some((val, k5)) => {
                            if !(i < k5 <= s.len()) {
                                None
                            } else {
                                let k6 = sp_ws(s, k5);
                                let acc2 = env_put(acc, key, val);
                                if 0 <= k6 < s.len() && s[k6] == 0x2c && k6 + 1 > i {
                                    sp_env_members(s, k6 + 1, acc2)
                                } else if 0 <= k6 < s.len() && s[k6] == 0x7d {
                                    Some((acc2, k6 + 1))
                                } else {
                                    None
                                }
                            }
                        },
                    }
                }
            },
        }
    }
}

/// An env value: an object of string-to-string members, possibly empty.
pub open spec fn sp_parse_env_at(s: Seq<u8>, i: int) -> Option<(Seq<(Seq<u8>, Seq<u8>)>, int)> {
    if 0 <= i < s.len() && s[i] == 0x7b {
        let k = sp_ws(s, i + 1);
        if 0 <= k < s.len() && s[k] == 0x7d {
            Some((Seq::empty(), k + 1))
        } else {
            sp_env_members(s, i + 1, Seq::empty())
        }
    } else {
        None
    }
}

/// The members of the header object, starting at a key; ends after the
/// closing brace with the collected fields.
pub open spec fn sp_header_members(s: Seq<u8>, i: int, acc: HeaderAcc) -> Option<(HeaderAcc, int)>
    decreases s.len() - i,
{
    if !(0 <= i <= s.len()) {
        None
    } else {
        let k = sp_ws(s, i);
        match sp_parse_string_at(s, k) {
            None => None,
            Some((key, k2)) => {
                let k3 = sp_ws(s, k2);
                if !(0 <= k3 < s.len() && s[k3] == 0x3a) {
                    None
                } else {
                    let k4 = sp_ws(s, k3 + 1);
                    match sp_header_value(s, k4, key, acc) {
                        None => None,
                        Some((acc2, k5)) => {
                            if !(i < k5 <= s.len()) {
                                None
                            } else {
                                let k6 = sp_ws(s, k5);
                                if 0 <= k6 < s.len() && s[k6] == 0x2c && k6 + 1 > i {
                                    sp_header_members(s, k6 + 1, acc2)
                                } else if 0 <= k6 < s.len() && s[k6] == 0x7d {
                                    Some((acc2, k6 + 1))
                                } else {
                                    None
                                }
                            }
                        },
                    }
                }
            },
        }
    }
}

/// One header member's value, dispatched on the key. A known key must not
/// repeat and its value must have the field's type; an unknown key's value
/// is skipped.
pub open spec fn sp_header_value(s: Seq<u8>, k4: int, key: Seq<u8>, acc: HeaderAcc) -> Option<
    (HeaderAcc, int),
> {
    if key == ascii("version"@) {
        match sp_parse_u64_at(s, k4) {
            Some((v, j)) => if acc.version is None && v <= 255 {
                Some((HeaderAcc { version: Some(v as u8), ..acc }, j))
            } else {
                None
            },
            None => None,
        }
    } else if key == ascii("width"@) {
        match sp_parse_u64_at(s, k4) {
            Some((v, j)) => if acc.width is None && v <= 65535 {
                Some((HeaderAcc { width: Some(v as u16), ..acc }, j))
            } else {
                None
            },
            None => None,
        }
    } else if key == ascii("height"@) {
        match sp_parse_u64_at(s, k4) {
            Some((v, j)) => if acc.height is None && v <= 65535 {
                Some((HeaderAcc { height: Some(v as u16), ..acc }, j))
            } else {
                None
            },
            None => None,
        }
    } else if key == ascii("timestamp"@) {
        match sp_parse_u64_at(s, k4) {
            Some((v, j)) => if acc.timestamp is None {
                Some((HeaderAcc { timestamp: Some(v), ..acc }, j))
            } else {
                None
            },
            None => None,
        }
    } else if key == ascii("duration"@) {
        match sp_num_end(s, k4) {
            Some(j) => if acc.duration is None {
                Some((HeaderAcc { duration: Some(s.subrange(k4, j)), ..acc }, j))
            } else {
                None
            },
            None => None,
        }
    } else if key == ascii("idle_time_limit"@) {
        match sp_num_end(s, k4) {
            Some(j) => if acc.idle_time_limit is None {
                Some((HeaderAcc { idle_time_limit: Some(s.subrange(k4, j)), ..acc }, j))
            } else {
                None
            },
            None => None,
        }
    } else if key == ascii("command"@) {
        match sp_parse_string_at(s, k4) {
            Some((body, j)) => if acc.command is None {
                Some((HeaderAcc { command: Some(body), ..acc }, j))
            } else {
                None
            },
            None => None,
        }
    } else if key == ascii("title"@) {
        match sp_parse_string_at(s, k4) {
            Some((body, j)) => if acc.title is None {
                Some((HeaderAcc { title: Some(body), ..acc }, j))
            } else {
                None
            },
            None => None,
        }
    } else if key == ascii("env"@) {
        match sp_parse_env_at(s, k4) {
            Some((pairs, j)) => if acc.env is None {
                Some((HeaderAcc { env: Some(pairs), ..acc }, j))
            } else {
                None
            },
            None => None,
        }
    } else if key == ascii("theme"@) {
        match sp_parse_theme_at(s, k4) {
            Some((t, j)) => if acc.theme is None {
                Some((HeaderAcc { theme: Some(t), ..acc }, j))
            } else {
                None
            },
            None => None,
        }
    } else {
        match sp_skip_value(s, k4) {
            Some(j) => Some((acc, j)),
            None => None,
        }
    }
}

/// What parsing the header bytes returns: the header for the accepted
/// grammar (a JSON object with at least `version`, `width` and `height`,
/// then only whitespace), and nothing otherwise.
pub open spec fn sp_parse_header(s: Seq<u8>) -> Option<HeaderModel> {
    let i0 = sp_ws(s, 0);
    if !(0 <= i0 < s.len() && s[i0] == 0x7b) {
        None
    } else {
        let i1 = sp_ws(s, i0 + 1);
        if 0 <= i1 < s.len() && s[i1] == 0x7d {
            None
        } else {
            match sp_header_members(s, i0 + 1, empty_acc()) {
                None => None,
                Some((acc, j)) => {
                    if sp_ws(s, j) != s.len() {
                        None
                    } else {
                        match (acc.version, acc.width, acc.height) {
                            (Some(v), Some(w), Some(h)) => Some(
                                HeaderModel {
                                    version: v,
                                    width: w,
                                    height: h,
                                    timestamp: acc.timestamp,
                                    duration: acc.duration,
                                    idle_time_limit: acc.idle_time_limit,
                                    command: acc.command,
                                    title: acc.title,
                                    env: acc.env,
                                    theme: acc.theme,
                                },
                            ),
                            _ => None,
                        }
                    }
                },
            }
        }
    }
}

/// Skip JSON whitespace.
pub fn ws_to(s: &[u8], i: usize) -> (r: usize)
    requires
        i <= s@.len(),
    ensures
        r == sp_ws(s@, i as int),
        i <= r <= s@.len(),
{
    let n: usize = s.len();
    let mut j: usize = i;
    while j < n && (s[j] == 0x20 || s[j] == 0x09 || s[j] == 0x0a || s[j] == 0x0d)
        invariant
            i <= j <= n,
            n == s@.len(),
            sp_ws(s@, i as int) == sp_ws(s@, j as int),
        decreases n - j,
    {
        j += 1;
    }
    j
}

/// Find the end of a string body (exec mirror of `sp_str_body_end`).
pub fn str_body_end(s: &[u8], i: usize) -> (r: Option<usize>)
    requires
        i <= s@.len(),
    ensures
        match r {
            Some(j) => sp_str_body_end(s@, i as int) == Some(j as int) && i < j <= s@.len(),
            None => sp_str_body_end(s@, i as int) is None,
        },
{
    let n: usize = s.len();
    let mut j: usize = i;
    loop
        invariant
            i <= j <= n,
            n == s@.len(),
            sp_str_body_end(s@, i as int) == sp_str_body_end(s@, j as int),
        decreases n - j,
    {
        if j >= n {
            return None;
        }
        let c = s[j];
        if c == 0x22 {
            return Some(j + 1);
        } else if c == 0x5c {
            if j + 1 < n {
                j += 2;
            } else {
                return None;
            }
        } else if c < 0x20 {
            return None;
        } else {
            j += 1;
        }
    }
}

/// Skip a run of decimal digits.
pub fn digits_end(s: &[u8], i: usize) -> (r: usize)
    requires
        i <= s@.len(),
    ensures
        r == sp_digits_end(s@, i as int),
        i <= r <= s@.len(),
        forall|k: int| i <= k < r ==> is_digit_byte(#[trigger] s@[k]),
{
    let n: usize = s.len();
    let mut j: usize = i;
    while j < n && s[j] >= 0x30 && s[j] <= 0x39
        invariant
            i <= j <= n,
            n == s@.len(),
            sp_digits_end(s@, i as int) == sp_digits_end(s@, j as int),
            forall|k: int| i <= k < j ==> is_digit_byte(#[trigger] s@[k]),
        decreases n - j,
    {
        j += 1;
    }
    j
}

/// Find the end of a JSON number token.
pub fn num_end(s: &[u8], i: usize) -> (r: Option<usize>)
    requires
        i <= s@.len(),
    ensures
        match r {
            Some(j) => sp_num_end(s@, i as int) == Some(j as int) && i <= j <= s@.len(),
            None => sp_num_end(s@, i as int) is None,
        },
{
    let n: usize = s.len();
    let j0 = if i < n && s[i] == 0x2d {
        i + 1
    } else {
        i
    };
    let j1 = digits_end(s, j0);
    if j1 == j0 {
        return None;
    }
    if s[j0] == 0x30 && j1 > j0 + 1 {
        return None;
    }
    let j2 = if j1 < n && s[j1] == 0x2e {
        let jf = digits_end(s, j1 + 1);
        if jf == j1 + 1 {
            return None;
        }
        jf
    } else {
        j1
    };
    if j2 < n && (s[j2] == 0x65 || s[j2] == 0x45) {
        let j3 = if j2 + 1 < n && (s[j2 + 1] == 0x2b || s[j2 + 1] == 0x2d) {
            j2 + 2
        } else {
            j2 + 1
        };
        let je = digits_end(s, j3);
        if je == j3 {
            None
        } else {
            Some(je)
        }
    } else {
        Some(j2)
    }
}

/// Skip one JSON value (exec mirror of the skip machine).
pub fn skip_value(s: &[u8], i: usize) -> (r: Option<usize>)
    requires
        i <= s@.len(),
    ensures
        match r {
            Some(j) => sp_skip_value(s@, i as int) == Some(j as int) && i <= j <= s@.len(),
            None => sp_skip_value(s@, i as int) is None,
        },
{
    let n: usize = s.len();
    let mut j: usize = i;
    let mut depth: usize = 0;
    let mut in_str = false;
    let mut esc = false;
    loop
        invariant
            i <= j <= n,
            n == s@.len(),
            depth as int <= j - i,
            !in_str ==> !esc,
            sp_skip_from(s@, i as int, 0, false, false) == sp_skip_from(
                s@,
                j as int,
                depth as nat,
                in_str,
                esc,
            ),
        decreases n - j,
    {
        if j >= n {
            if depth == 0 && !in_str {
                return Some(j);
            }
            return None;
        }
        let c = s[j];
        if in_str {
            if esc {
                esc = false;
            } else if c == 0x5c {
                esc = true;
            } else if c == 0x22 {
                if depth == 0 {
                    return Some(j + 1);
                }
                in_str = false;
            }
            j += 1;
        } else if c == 0x22 {
            in_str = true;
            esc = false;
            j += 1;
        } else if c == 0x7b || c == 0x5b {
            depth += 1;
            j += 1;
        } else if c == 0x7d || c == 0x5d {
            if depth == 0 {
                return Some(j);
            } else if depth == 1 {
                return Some(j + 1);
            }
            depth -= 1;
            j += 1;
        } else if depth == 0 && c == 0x2c {
            return Some(j);
        } else {
            j += 1;
        }
    }
}

/// Whether `key` holds exactly the ASCII bytes of `lit`.
fn key_is(key: &[u8], lit: &str) -> (r: bool)
    requires
        vstd::string::is_ascii(lit),
    ensures
        r == (key@ == ascii(lit@)),
{
    broadcast use vstd::string::is_ascii_spec_bytes;

    let b = lit.as_bytes();
    proof {
        assert(b@ =~= ascii(lit@));
    }
    crate::textutil::eq_bytes(key, b)
}

/// Read a JSON string at `i` and hand back its raw body.
pub fn parse_string_at<'a>(s: &'a [u8], i: usize) -> (r: Option<(&'a [u8], usize)>)
    requires
        i <= s@.len(),
    ensures
        match r {
            Some(p) => sp_parse_string_at(s@, i as int) == Some((p.0@, p.1 as int)) && i < p.1
                <= s@.len(),
            None => sp_parse_string_at(s@, i as int) is None,
        },
{
    if i < s.len() && s[i] == 0x22 {
        match str_body_end(s, i + 1) {
            Some(j) => {
                let body = vstd::slice::slice_subrange(s, i + 1, j - 1);
                Some((body, j))
            },
            None => None,
        }
    } else {
        None
    }
}

/// Read a decimal integer at `i`.
pub fn parse_u64_at(s: &[u8], i: usize) -> (r: Option<(u64, usize)>)
    requires
        i <= s@.len(),
    ensures
        match r {
            Some(p) => sp_parse_u64_at(s@, i as int) == Some((p.0, p.1 as int)) && i < p.1
                <= s@.len(),
            None => sp_parse_u64_at(s@, i as int) is None,
        },
{
    let j = digits_end(s, i);
    if j == i {
        return None;
    }
    if s[i] == 0x30 && j > i + 1 {
        return None;
    }
    let run = vstd::slice::slice_subrange(s, i, j);
    match crate::textutil::parse_digits_u64(run) {
        Some(v) => Some((v, j)),
        None => {
            proof {
                assert(all_digits(run@));
            }
            None
        },
    }
}

/// Read a theme object at `i`.
fn parse_theme_at(s: &[u8], i: usize) -> (r: Option<(Theme, usize)>)
    requires
        i <= s@.len(),
    ensures
        match r {
            Some(p) => sp_parse_theme_at(s@, i as int) == Some((p.0@, p.1 as int)) && i < p.1
                <= s@.len(),
            None => sp_parse_theme_at(s@, i as int) is None,
        },
{
    let n: usize = s.len();
    if !(i < n && s[i] == 0x7b) {
        return None;
    }
    let mut cur: usize = i + 1;
    let mut fg: Option<Rgb> = None;
    let mut bg: Option<Rgb> = None;
    let mut pal: Option<Vec<Rgb>> = None;
    loop
        invariant
            i + 1 <= cur <= n,
            n == s@.len(),
            sp_parse_theme_at(s@, i as int) == sp_theme_members(s@, i + 1, None, None, None),
            sp_theme_members(s@, i + 1, None, None, None) == sp_theme_members(
                s@,
                cur as int,
                fg,
                bg,
                match pal {
                    Some(ref p) => Some(p@),
                    None => None,
                },
            ),
        decreases n - cur,
    {
        let ghost entry_i = cur as int;
        let ghost entry_fg = fg;
        let ghost entry_bg = bg;
        let ghost entry_pal: Option<Seq<Rgb>> = match pal {
            Some(ref p) => Some(p@),
            None => None,
        };
        let k = ws_to(s, cur);
        let (key, k2) = match parse_string_at(s, k) {
            Some(p) => p,
            None => {
                return None;
            },
        };
        let k3 = ws_to(s, k2);
        if !(k3 < n && s[k3] == 0x3a) {
            return None;
        }
        let k4 = ws_to(s, k3 + 1);
        proof {
            reveal_strlit("fg");
            reveal_strlit("bg");
            reveal_strlit("palette");
            assert(vstd::string::is_ascii("fg"));
            assert(vstd::string::is_ascii("bg"));
            assert(vstd::string::is_ascii("palette"));
        }
        let is_fg = key_is(key, "fg");
        let is_bg = key_is(key, "bg");
        let is_pal = key_is(key, "palette");
        let k5: usize;
        if is_fg || is_bg || is_pal {
            let (body, kk) = match parse_string_at(s, k4) {
                Some(p) => p,
                None => {
                    return None;
                },
            };
            k5 = kk;
            if is_fg {
                if fg.is_some() {
                    return None;
                }
                match Theme::color_from_hex(body) {
                    Ok(c) => {
                        fg = Some(c);
                    },
                    Err(_) => {
                        return None;
                    },
                }
            } else if is_bg {
                if bg.is_some() {
                    return None;
                }
                match Theme::color_from_hex(body) {
                    Ok(c) => {
                        bg = Some(c);
                    },
                    Err(_) => {
                        return None;
                    },
                }
            } else {
                if pal.is_some() {
                    return None;
                }
                match Theme::palette_from_string(body) {
                    Ok(colors) => {
                        pal = Some(colors);
                    },
                    Err(_) => {
                        return None;
                    },
                }
            }
        } else {
            k5 = match skip_value(s, k4) {
                Some(j) => j,
                None => {
                    return None;
                },
            };
        }
        let ghost mid = sp_theme_after_member(
            s@,
            entry_i,
            k5 as int,
            fg,
            bg,
            match pal {
                Some(ref p) => Some(p@),
                None => None,
            },
        );
        proof {
            assert(sp_theme_members(s@, i + 1, None, None, None) == mid);
        }
        let k6 = ws_to(s, k5);
        if k6 < n && s[k6] == 0x2c {
            cur = k6 + 1;
        } else if k6 < n && s[k6] == 0x7d {
            match (fg, bg, pal) {
                (Some(f), Some(b), Some(p)) => {
                    let t = Theme { fg: f, bg: b, palette: p };
                    return Some((t, k6 + 1));
                },
                _ => {
                    return None;
                },
            }
        } else {
            return None;
        }
    }
}

/// Read an env object at `i`.
/// Index of the first env entry holding `key`, or the length.
fn env_find(acc: &Vec<(Vec<u8>, Vec<u8>)>, key: &[u8]) -> (r: usize)
    ensures
        r <= acc@.len(),
        forall|q: int| 0 <= q < r ==> #[trigger] acc@[q].0@ != key@,
        r < acc@.len() ==> acc@[r as int].0@ == key@,
{
    let m = acc.len();
    let mut ei: usize = 0;
    while ei < m
        invariant
            0 <= ei <= m,
            m == acc@.len(),
            forall|q: int| 0 <= q < ei ==> #[trigger] acc@[q].0@ != key@,
        decreases m - ei,
    {
        if crate::textutil::eq_bytes(acc[ei].0.as_slice(), key) {
            return ei;
        }
        ei += 1;
    }
    m
}

/// Storing at the first entry holding the key is a positional update.
proof fn lemma_env_put_update(acc: Seq<(Seq<u8>, Seq<u8>)>, key: Seq<u8>, val: Seq<u8>, ei: int)
    requires
        0 <= ei < acc.len(),
        acc[ei].0 == key,
        forall|q: int| 0 <= q < ei ==> #[trigger] acc[q].0 != key,
    ensures
        env_put(acc, key, val) == acc.update(ei, (key, val)),
    decreases ei,
{
    if ei == 0 {
        assert(env_put(acc, key, val) =~= acc.update(0, (key, val)));
    } else {
        let t = acc.drop_first();
        assert(forall|q: int| 0 <= q < ei - 1 ==> #[trigger] t[q].0 != key);
        lemma_env_put_update(t, key, val, ei - 1);
        assert(seq![acc[0]] + t.update(ei - 1, (key, val)) =~= acc.update(ei, (key, val)));
    }
}

/// Storing a fresh key appends.
proof fn lemma_env_put_absent(acc: Seq<(Seq<u8>, Seq<u8>)>, key: Seq<u8>, val: Seq<u8>)
    requires
        forall|q: int| 0 <= q < acc.len() ==> #[trigger] acc[q].0 != key,
    ensures
        env_put(acc, key, val) == acc.push((key, val)),
    decreases acc.len(),
{
    if acc.len() == 0 {
        assert(env_put(acc, key, val) =~= acc.push((key, val)));
    } else {
        let t = acc.drop_first();
        assert(forall|q: int| 0 <= q < t.len() ==> #[trigger] t[q].0 != key);
        lemma_env_put_absent(t, key, val);
        assert(seq![acc[0]] + t.push((key, val)) =~= acc.push((key, val)));
    }
}

fn parse_env_at(s: &[u8], i: usize) -> (r: Option<(Vec<(Vec<u8>, Vec<u8>)>, usize)>)
    requires
        i <= s@.len(),
    ensures
        match r {
            Some(p) => sp_parse_env_at(s@, i as int) == Some(
                (p.0@.map_values(|q: (Vec<u8>, Vec<u8>)| (q.0@, q.1@)), p.1 as int),
            ) && i < p.1 <= s@.len(),
            None => sp_parse_env_at(s@, i as int) is None,
        },
{
    let n: usize = s.len();
    if !(i < n && s[i] == 0x7b) {
        return None;
    }
    let k0 = ws_to(s, i + 1);
    if k0 < n && s[k0] == 0x7d {
        let acc: Vec<(Vec<u8>, Vec<u8>)> = Vec::new();
        proof {
            assert(acc@.map_values(|q: (Vec<u8>, Vec<u8>)| (q.0@, q.1@)) =~= Seq::<(
                Seq<u8>,
                Seq<u8>,
            )>::empty());
        }
        return Some((acc, k0 + 1));
    }
    let mut cur: usize = i + 1;
    let mut acc: Vec<(Vec<u8>, Vec<u8>)> = Vec::new();
    proof {
        assert(acc@.map_values(|q: (Vec<u8>, Vec<u8>)| (q.0@, q.1@)) =~= Seq::<(
            Seq<u8>,
            Seq<u8>,
        )>::empty());
    }
    loop
        invariant
            i + 1 <= cur <= n,
            n == s@.len(),
            sp_parse_env_at(s@, i as int) == sp_env_members(s@, i + 1, Seq::empty()),
            sp_env_members(s@, i + 1, Seq::empty()) == sp_env_members(
                s@,
                cur as int,
                acc@.map_values(|q: (Vec<u8>, Vec<u8>)| (q.0@, q.1@)),
            ),
        decreases n - cur,
    {
        let k = ws_to(s, cur);
        let (key, k2) = match parse_string_at(s, k) {
            Some(p) => p,
            None => {
                return None;
            },
        };
        let k3 = ws_to(s, k2);
        if !(k3 < n && s[k3] == 0x3a) {
            return None;
        }
        let k4 = ws_to(s, k3 + 1);
        let (val, k5) = match parse_string_at(s, k4) {
            Some(p) => p,
            None => {
                return None;
            },
        };
        let ghost old_view = acc@.map_values(|q: (Vec<u8>, Vec<u8>)| (q.0@, q.1@));
        let pair = (crate::textutil::bytes_of(key), crate::textutil::bytes_of(val));
        let ei = env_find(&acc, key);
        proof {
            assert forall|q: int| 0 <= q < old_view.len() implies old_view[q] == (
                acc@[q].0@,
                acc@[q].1@,
            ) by {}
        }
        if ei < acc.len() {
            acc.remove(ei);
            acc.insert(ei, pair);
            proof {
                lemma_env_put_update(old_view, key@, val@, ei as int);
                assert(acc@.map_values(|q: (Vec<u8>, Vec<u8>)| (q.0@, q.1@)) =~= old_view.update(
                    ei as int,
                    (key@, val@),
                ));
            }
        } else {
            acc.push(pair);
            proof {
                lemma_env_put_absent(old_view, key@, val@);
                assert(acc@.map_values(|q: (Vec<u8>, Vec<u8>)| (q.0@, q.1@)) =~= old_view.push(
                    (key@, val@),
                ));
            }
        }
        let k6 = ws_to(s, k5);
        if k6 < n && s[k6] == 0x2c {
            cur = k6 + 1;
        } else if k6 < n && s[k6] == 0x7d {
            return Some((acc, k6 + 1));
        } else {
            return None;
        }
    }
}

/// Parse the header line.
///
/// Returns the header exactly when the bytes match the accepted grammar
/// ([`sp_parse_header`]); every rejection is a deserialization error.
#[verifier::rlimit(100)]
pub fn parse_header(s: &[u8]) -> (r: Result<Header, CastError>)
    ensures
        match r {
            Ok(h) => sp_parse_header(s@) == Some(h@),
            Err(e) => sp_parse_header(s@) is None && e == CastError::DeserializationError,
        },
{
    let n: usize = s.len();
    let i0 = ws_to(s, 0);
    if !(i0 < n && s[i0] == 0x7b) {
        return Err(CastError::DeserializationError);
    }
    let i1 = ws_to(s, i0 + 1);
    if i1 < n && s[i1] == 0x7d {
        return Err(CastError::DeserializationError);
    }
    let mut cur: usize = i0 + 1;
    let mut version: Option<u8> = None;
    let mut width: Option<u16> = None;
    let mut height: Option<u16> = None;
    let mut timestamp: Option<u64> = None;
    let mut duration: Option<Vec<u8>> = None;
    let mut idle_time_limit: Option<Vec<u8>> = None;
    let mut command: Option<Vec<u8>> = None;
    let mut title: Option<Vec<u8>> = None;
    let mut env: Option<Vec<(Vec<u8>, Vec<u8>)>> = None;
    let mut theme: Option<Theme> = None;
    loop
        invariant
            i0 + 1 <= cur <= n,
            n == s@.len(),
            i0 == sp_ws(s@, 0),
            i0 < n && s@[i0 as int] == 0x7b,
            !(0 <= sp_ws(s@, i0 + 1) < s@.len() && s@[sp_ws(s@, i0 + 1)] == 0x7d),
            sp_header_members(s@, i0 + 1, empty_acc()) == sp_header_members(
                s@,
                cur as int,
                HeaderAcc {
                    version,
                    width,
                    height,
                    timestamp,
                    duration: view_opt_bytes(duration),
                    idle_time_limit: view_opt_bytes(idle_time_limit),
                    command: view_opt_bytes(command),
                    title: view_opt_bytes(title),
                    env: view_env(env),
                    theme: view_theme(theme),
                },
            ),
        decreases n - cur,
    {
        let k = ws_to(s, cur);
        let (key, k2) = match parse_string_at(s, k) {
            Some(p) => p,
            None => {
                return Err(CastError::DeserializationError);
            },
        };
        let k3 = ws_to(s, k2);
        if !(k3 < n && s[k3] == 0x3a) {
            return Err(CastError::DeserializationError);
        }
        let k4 = ws_to(s, k3 + 1);
        proof {
            reveal_strlit("version");
            reveal_strlit("width");
            reveal_strlit("height");
            reveal_strlit("timestamp");
            reveal_strlit("duration");
            reveal_strlit("idle_time_limit");
            reveal_strlit("command");
            reveal_strlit("title");
            reveal_strlit("env");
            reveal_strlit("theme");
            assert(vstd::string::is_ascii("version"));
            assert(vstd::string::is_ascii("width"));
            assert(vstd::string::is_ascii("height"));
            assert(vstd::string::is_ascii("timestamp"));
            assert(vstd::string::is_ascii("duration"));
            assert(vstd::string::is_ascii("idle_time_limit"));
            assert(vstd::string::is_ascii("command"));
            assert(vstd::string::is_ascii("title"));
            assert(vstd::string::is_ascii("env"));
            assert(vstd::string::is_ascii("theme"));
        }
        let k5: usize;
        if key_is(key, "version") {
            let (v, j) = match parse_u64_at(s, k4) {
                Some(p) => p,
                None => {
                    return Err(CastError::DeserializationError);
                },
            };
            if version.is_some() || v > 255 {
                return Err(CastError::DeserializationError);
            }
            version = Some(v as u8);
            k5 = j;
        } else if key_is(key, "width") {
            let (v, j) = match parse_u64_at(s, k4) {
                Some(p) => p,
                None => {
                    return Err(CastError::DeserializationError);
                },
            };
            if width.is_some() || v > 65535 {
                return Err(CastError::DeserializationError);
            }
            width = Some(v as u16);
            k5 = j;
        } else if key_is(key, "height") {
            let (v, j) = match parse_u64_at(s, k4) {
                Some(p) => p,
                None => {
                    return Err(CastError::DeserializationError);
                },
            };
            if height.is_some() || v > 65535 {
                return Err(CastError::DeserializationError);
            }
            height = Some(v as u16);
            k5 = j;
        } else if key_is(key, "timestamp") {
            let (v, j) = match parse_u64_at(s, k4) {
                Some(p) => p,
                None => {
                    return Err(CastError::DeserializationError);
                },
            };
            if timestamp.is_some() {
                return Err(CastError::DeserializationError);
            }
            timestamp = Some(v);
            k5 = j;
        } else if key_is(key, "duration") {
            let j = match num_end(s, k4) {
                Some(j) => j,
                None => {
                    return Err(CastError::DeserializationError);
                },
            };
            if duration.is_some() {
                return Err(CastError::DeserializationError);
            }
            duration = Some(crate::textutil::bytes_of(vstd::slice::slice_subrange(s, k4, j)));
            k5 = j;
        } else if key_is(key, "idle_time_limit") {
            let j = match num_end(s, k4) {
                Some(j) => j,
                None => {
                    return Err(CastError::DeserializationError);
                },
            };
            if idle_time_limit.is_some() {
                return Err(CastError::DeserializationError);
            }
            idle_time_limit = Some(
                crate::textutil::bytes_of(vstd::slice::slice_subrange(s, k4, j)),
            );
            k5 = j;
        } else if key_is(key, "command") {
            let (body, j) = match parse_string_at(s, k4) {
                Some(p) => p,
                None => {
                    return Err(CastError::DeserializationError);
                },
            };
            if command.is_some() {
                return Err(CastError::DeserializationError);
            }
            command = Some(crate::textutil::bytes_of(body));
            k5 = j;
        } else if key_is(key, "title") {
            let (body, j) = match parse_string_at(s, k4) {
                Some(p) => p,
                None => {
                    return Err(CastError::DeserializationError);
                },
            };
            if title.is_some() {
                return Err(CastError::DeserializationError);
            }
            title = Some(crate::textutil::bytes_of(body));
            k5 = j;
        } else if key_is(key, "env") {
            let (pairs, j) = match parse_env_at(s, k4) {
                Some(p) => p,
                None => {
                    return Err(CastError::DeserializationError);
                },
            };
            if env.is_some() {
                return Err(CastError::DeserializationError);
            }
            env = Some(pairs);
            k5 = j;
        } else if key_is(key, "theme") {
            let (t, j) = match parse_theme_at(s, k4) {
                Some(p) => p,
                None => {
                    return Err(CastError::DeserializationError);
                },
            };
            if theme.is_some() {
                return Err(CastError::DeserializationError);
            }
            theme = Some(t);
            k5 = j;
        } else {
            k5 = match skip_value(s, k4) {
                Some(j) => j,
                None => {
                    return Err(CastError::DeserializationError);
                },
            };
        }
        let k6 = ws_to(s, k5);
        if k6 < n && s[k6] == 0x2c {
            cur = k6 + 1;
        } else if k6 < n && s[k6] == 0x7d {
            let ghost acc_fin = HeaderAcc {
                version,
                width,
                height,
                timestamp,
                duration: view_opt_bytes(duration),
                idle_time_limit: view_opt_bytes(idle_time_limit),
                command: view_opt_bytes(command),
                title: view_opt_bytes(title),
                env: view_env(env),
                theme: view_theme(theme),
            };
            proof {
                assert(sp_header_members(s@, i0 + 1, empty_acc()) == Some(
                    (acc_fin, k6 + 1 as int),
                ));
            }
            let tail = ws_to(s, k6 + 1);
            if tail != n {
                return Err(CastError::DeserializationError);
            }
            match (version, width, height) {
                (Some(v), Some(w), Some(h)) => {
                    let hdr = Header {
                        version: v,
                        width: w,
                        height: h,
                        timestamp,
                        duration,
                        idle_time_limit,
                        command,
                        title,
                        env,
                        theme,
                    };
                    proof {
                        assert(sp_parse_header(s@) == Some(hdr@));
                    }
                    return Ok(hdr);
                },
                _ => {
                    return Err(CastError::DeserializationError);
                },
            }
        } else {
            return Err(CastError::DeserializationError);
        }
    }
}

/// A theme's palette length is acceptable.
pub open spec fn theme_palette_ok(t: ThemeModel) -> bool {
    t.palette.len() == 8 || t.palette.len() == 16
}

/// Theme members only ever store a palette that decoding validated.
proof fn lemma_theme_members_palette_ok(
    s: Seq<u8>,
    i: int,
    fg: Option<Rgb>,
    bg: Option<Rgb>,
    pal: Option<Seq<Rgb>>,
)
    requires
        pal matches Some(p) ==> p.len() == 8 || p.len() == 16,
    ensures
        sp_theme_members(s, i, fg, bg, pal) matches Some(r) ==> theme_palette_ok(r.0),
    decreases s.len() - i, 1nat,
{
    if !(0 <= i <= s.len()) {
    } else {
        let k = sp_ws(s, i);
        match sp_parse_string_at(s, k) {
            None => {},
            Some((key, k2)) => {
                let k3 = sp_ws(s, k2);
                if !(0 <= k3 < s.len() && s[k3] == 0x3a) {
                } else {
                    let k4 = sp_ws(s, k3 + 1);
                    if key == ascii("fg"@) || key == ascii("bg"@) || key == ascii("palette"@) {
                        match sp_parse_string_at(s, k4) {
                            None => {},
                            Some((body, k5)) => {
                                if key == ascii("fg"@) {
                                    match spec_color_from_hex(body) {
                                        Err(_) => {},
                                        Ok(c) => {
                                            if !(fg is Some) {
                                                lemma_theme_after_palette_ok(
                                                    s,
                                                    i,
                                                    k5,
                                                    Some(c),
                                                    bg,
                                                    pal,
                                                );
                                            }
                                        },
                                    }
                                } else if key == ascii("bg"@) {
                                    match spec_color_from_hex(body) {
                                        Err(_) => {},
                                        Ok(c) => {
                                            if !(bg is Some) {
                                                lemma_theme_after_palette_ok(
                                                    s,
                                                    i,
                                                    k5,
                                                    fg,
                                                    Some(c),
                                                    pal,
                                                );
                                            }
                                        },
                                    }
                                } else {
                                    match spec_palette_from_string(body) {
                                        Err(_) => {},
                                        Ok(colors) => {
                                            if !(pal is Some) {
                                                lemma_theme_after_palette_ok(
                                                    s,
                                                    i,
                                                    k5,
                                                    fg,
                                                    bg,
                                                    Some(colors),
                                                );
                                            }
                                        },
                                    }
                                }
                            },
                        }
                    } else {
                        match sp_skip_value(s, k4) {
                            None => {},
                            Some(k5) => {
                                lemma_theme_after_palette_ok(s, i, k5, fg, bg, pal);
                            },
                        }
                    }
                }
            },
        }
    }
}

proof fn lemma_theme_after_palette_ok(
    s: Seq<u8>,
    i: int,
    k5: int,
    fg: Option<Rgb>,
    bg: Option<Rgb>,
    pal: Option<Seq<Rgb>>,
)
    requires
        pal matches Some(p) ==> p.len() == 8 || p.len() == 16,
    ensures
        sp_theme_after_member(s, i, k5, fg, bg, pal) matches Some(r) ==> theme_palette_ok(r.0),
    decreases s.len() - i, 0nat,
{
    if !(i < k5 <= s.len()) {
    } else {
        let k6 = sp_ws(s, k5);
        if 0 <= k6 < s.len() && s[k6] == 0x2c {
            if k6 + 1 > i {
                lemma_theme_members_palette_ok(s, k6 + 1, fg, bg, pal);
            }
        }
    }
}

/// A parsed theme always carries a validated palette.
proof fn lemma_parse_theme_at_palette_ok(s: Seq<u8>, i: int)
    ensures
        sp_parse_theme_at(s, i) matches Some(r) ==> theme_palette_ok(r.0),
{
    if 0 <= i < s.len() && s[i] == 0x7b {
        lemma_theme_members_palette_ok(s, i + 1, None, None, None);
    }
}

/// Reading one member keeps the collected theme's palette validated.
proof fn lemma_header_value_palette_ok(s: Seq<u8>, k4: int, key: Seq<u8>, acc: HeaderAcc)
    requires
        acc.theme matches Some(t) ==> theme_palette_ok(t),
    ensures
        sp_header_value(s, k4, key, acc) matches Some(r) ==> (r.0.theme matches Some(t2)
            ==> theme_palette_ok(t2)),
{
    lemma_parse_theme_at_palette_ok(s, k4);
}

/// Reading the header's members keeps the collected theme's palette
/// validated.
proof fn lemma_header_members_palette_ok(s: Seq<u8>, i: int, acc: HeaderAcc)
    requires
        acc.theme matches Some(t) ==> theme_palette_ok(t),
    ensures
        sp_header_members(s, i, acc) matches Some(r) ==> (r.0.theme matches Some(t2)
            ==> theme_palette_ok(t2)),
    decreases s.len() - i,
{
    if !(0 <= i <= s.len()) {
    } else {
        let k = sp_ws(s, i);
        match sp_parse_string_at(s, k) {
            None => {},
            Some((key, k2)) => {
                let k3 = sp_ws(s, k2);
                if !(0 <= k3 < s.len() && s[k3] == 0x3a) {
                } else {
                    let k4 = sp_ws(s, k3 + 1);
                    lemma_header_value_palette_ok(s, k4, key, acc);
                    match sp_header_value(s, k4, key, acc) {
                        None => {},
                        Some((acc2, k5)) => {
                            if !(i < k5 <= s.len()) {
                            } else {
                                let k6 = sp_ws(s, k5);
                                if 0 <= k6 < s.len() && s[k6] == 0x2c && k6 + 1 > i {
                                    lemma_header_members_palette_ok(s, k6 + 1, acc2);
                                }
                            }
                        },
                    }
                }
            },
        }
    }
}

/// A parsed header never carries a theme whose palette decoding would have
/// refused: its palette always holds 8 or 16 colors.
pub proof fn lemma_parse_header_palette_ok(s: Seq<u8>)
    ensures
        sp_parse_header(s) matches Some(h) ==> header_palette_ok(h),
{
    let i0 = sp_ws(s, 0);
    if 0 <= i0 < s.len() && s[i0] == 0x7b {
        lemma_header_members_palette_ok(s, i0 + 1, empty_acc());
    }
}

/// One env member as JSON text: `"key":"value"` with raw bodies.
pub open spec fn sp_env_pair(p: (Seq<u8>, Seq<u8>)) -> Seq<u8> {
    ascii("\""@) + p.0 + ascii("\":\""@) + p.1 + ascii("\""@)
}

/// The members of the env object, comma-joined, in order.
pub open spec fn sp_env_pairs(pairs: Seq<(Seq<u8>, Seq<u8>)>) -> Seq<u8>
    decreases pairs.len(),
{
    if pairs.len() == 0 {
        Seq::empty()
    } else if pairs.len() == 1 {
        sp_env_pair(pairs[0])
    } else {
        sp_env_pairs(pairs.drop_last()) + ascii(","@) + sp_env_pair(pairs.last())
    }
}

/// The theme as JSON text: hex colors and the colon-joined palette string.
pub open spec fn spec_theme_json(t: ThemeModel) -> Seq<u8> {
    ascii("{\"fg\":\""@) + crate::color::spec_color_to_hex(t.fg) + ascii("\",\"bg\":\""@)
        + crate::color::spec_color_to_hex(t.bg) + ascii("\",\"palette\":\""@)
        + spec_palette_to_string(t.palette) + ascii("\"}"@)
}

/// The required fields of the serialized header: `version`, `width` and
/// `height`, as a JSON object's opening.
pub open spec fn sp_hdr_front(h: HeaderModel) -> Seq<u8> {
    ascii("{\"version\":"@) + crate::textutil::dec_digits(h.version as nat) + ascii(
        ",\"width\":"@,
    ) + crate::textutil::dec_digits(h.width as nat) + ascii(",\"height\":"@)
        + crate::textutil::dec_digits(h.height as nat)
}

/// The optional numeric fields of the serialized header, each present only
/// when set: `timestamp`, then `duration`, then `idle_time_limit`.
pub open spec fn sp_hdr_mid(h: HeaderModel) -> Seq<u8> {
    (match h.timestamp {
        Some(ts) => ascii(",\"timestamp\":"@) + crate::textutil::dec_digits(ts as nat),
        None => Seq::empty(),
    }) + (match h.duration {
        Some(tok) => ascii(",\"duration\":"@) + tok,
        None => Seq::empty(),
    }) + (match h.idle_time_limit {
        Some(tok) => ascii(",\"idle_time_limit\":"@) + tok,
        None => Seq::empty(),
    })
}

/// The optional text fields of the serialized header and the closing brace:
/// `command`, `title`, `env`, `theme`.
pub open spec fn sp_hdr_back(h: HeaderModel) -> Seq<u8> {
    sp_hdr_command(h) + sp_hdr_title(h) + sp_hdr_env(h) + sp_hdr_theme(h) + ascii("}"@)
}

/// The serialized header line (without a trailing newline): the required
/// fields first, then each optional field that is present, in declaration
/// order, compactly.
pub open spec fn spec_serialize_header(h: HeaderModel) -> Seq<u8> {
    sp_hdr_front(h) + sp_hdr_mid(h) + sp_hdr_back(h)
}

/// Whether the header's theme, if any, has an acceptable palette; encoding
/// fails exactly when this is false.
pub open spec fn header_palette_ok(h: HeaderModel) -> bool {
    match h.theme {
        None => true,
        Some(t) => t.palette.len() == 8 || t.palette.len() == 16,
    }
}

/// Append a byte run.
fn push_bytes(out: &mut Vec<u8>, s: &[u8])
    ensures
        final(out)@ == old(out)@ + s@,
{
    let n: usize = s.len();
    let mut i: usize = 0;
    proof {
        assert(out@ =~= old(out)@ + s@.subrange(0, 0));
    }
    while i < n
        invariant
            0 <= i <= n,
            n == s@.len(),
            out@ == old(out)@ + s@.subrange(0, i as int),
        decreases n - i,
    {
        out.push(s[i]);
        proof {
            assert(old(out)@ + s@.subrange(0, i as int + 1) =~= (old(out)@ + s@.subrange(
                0,
                i as int,
            )).push(s@[i as int]));
        }
        i += 1;
    }
    proof {
        assert(s@.subrange(0, n as int) =~= s@);
    }
}

/// Append an ASCII literal.
fn push_lit(out: &mut Vec<u8>, lit: &str)
    requires
        vstd::string::is_ascii(lit),
    ensures
        final(out)@ == old(out)@ + ascii(lit@),
{
    broadcast use vstd::string::is_ascii_spec_bytes;

    let b = lit.as_bytes();
    proof {
        assert(b@ =~= ascii(lit@));
    }
    push_bytes(out, b)
}

/// Append the required fields.
fn push_hdr_front(out: &mut Vec<u8>, h: &Header)
    ensures
        final(out)@ == old(out)@ + sp_hdr_front(h@),
{
    proof {
        assert(vstd::string::is_ascii("{\"version\":")) by {
            reveal_strlit("{\"version\":");
        }
        assert(vstd::string::is_ascii(",\"width\":")) by {
            reveal_strlit(",\"width\":");
        }
        assert(vstd::string::is_ascii(",\"height\":")) by {
            reveal_strlit(",\"height\":");
        }
    }
    push_lit(out, "{\"version\":");
    let mut d = crate::textutil::u64_to_dec(h.version as u64);
    out.append(&mut d);
    push_lit(out, ",\"width\":");
    let mut d = crate::textutil::u64_to_dec(h.width as u64);
    out.append(&mut d);
    push_lit(out, ",\"height\":");
    let mut d = crate::textutil::u64_to_dec(h.height as u64);
    out.append(&mut d);
    proof {
        assert(out@ == old(out)@ + sp_hdr_front(h@)) by {
            assert(out@ =~= old(out)@ + sp_hdr_front(h@));
        }
    }
}

/// Append the optional numeric fields.
fn push_hdr_mid(out: &mut Vec<u8>, h: &Header)
    ensures
        final(out)@ == old(out)@ + sp_hdr_mid(h@),
{
    proof {
        assert(vstd::string::is_ascii(",\"timestamp\":")) by {
            reveal_strlit(",\"timestamp\":");
        }
        assert(vstd::string::is_ascii(",\"duration\":")) by {
            reveal_strlit(",\"duration\":");
        }
        assert(vstd::string::is_ascii(",\"idle_time_limit\":")) by {
            reveal_strlit(",\"idle_time_limit\":");
        }
    }
    match &h.timestamp {
        Some(ts) => {
            push_lit(out, ",\"timestamp\":");
            let mut d = crate::textutil::u64_to_dec(*ts);
            out.append(&mut d);
        },
        None => {},
    }
    match &h.duration {
        Some(tok) => {
            push_lit(out, ",\"duration\":");
            push_bytes(out, tok.as_slice());
        },
        None => {},
    }
    match &h.idle_time_limit {
        Some(tok) => {
            push_lit(out, ",\"idle_time_limit\":");
            push_bytes(out, tok.as_slice());
        },
        None => {},
    }
    proof {
        assert(out@ == old(out)@ + sp_hdr_mid(h@)) by {
            assert(out@ =~= old(out)@ + sp_hdr_mid(h@));
        }
    }
}

/// The serialized `command` field, when present.
pub open spec fn sp_hdr_command(h: HeaderModel) -> Seq<u8> {
    match h.command {
        Some(body) => ascii(",\"command\":\""@) + body + ascii("\""@),
        None => Seq::empty(),
    }
}

/// The serialized `title` field, when present.
pub open spec fn sp_hdr_title(h: HeaderModel) -> Seq<u8> {
    match h.title {
        Some(body) => ascii(",\"title\":\""@) + body + ascii("\""@),
        None => Seq::empty(),
    }
}

/// The serialized `env` field, when present.
pub open spec fn sp_hdr_env(h: HeaderModel) -> Seq<u8> {
    match h.env {
        Some(pairs) => ascii(",\"env\":{"@) + sp_env_pairs(pairs) + ascii("}"@),
        None => Seq::empty(),
    }
}

/// The serialized `theme` field, when present.
pub open spec fn sp_hdr_theme(h: HeaderModel) -> Seq<u8> {
    match h.theme {
        Some(t) => ascii(",\"theme\":"@) + spec_theme_json(t),
        None => Seq::empty(),
    }
}

fn push_hdr_command(out: &mut Vec<u8>, h: &Header)
    ensures
        final(out)@ == old(out)@ + sp_hdr_command(h@),
{
    proof {
        assert(vstd::string::is_ascii(",\"command\":\"")) by {
            reveal_strlit(",\"command\":\"");
        }
        assert(vstd::string::is_ascii("\"")) by {
            reveal_strlit("\"");
        }
    }
    match &h.command {
        Some(body) => {
            push_lit(out, ",\"command\":\"");
            push_bytes(out, body.as_slice());
            push_lit(out, "\"");
            proof {
                assert(out@ =~= old(out)@ + sp_hdr_command(h@));
            }
        },
        None => {
            proof {
                assert(out@ =~= old(out)@ + sp_hdr_command(h@));
            }
        },
    }
}

fn push_hdr_title(out: &mut Vec<u8>, h: &Header)
    ensures
        final(out)@ == old(out)@ + sp_hdr_title(h@),
{
    proof {
        assert(vstd::string::is_ascii(",\"title\":\"")) by {
            reveal_strlit(",\"title\":\"");
        }
        assert(vstd::string::is_ascii("\"")) by {
            reveal_strlit("\"");
        }
    }
    match &h.title {
        Some(body) => {
            push_lit(out, ",\"title\":\"");
            push_bytes(out, body.as_slice());
            push_lit(out, "\"");
            proof {
                assert(out@ =~= old(out)@ + sp_hdr_title(h@));
            }
        },
        None => {
            proof {
                assert(out@ =~= old(out)@ + sp_hdr_title(h@));
            }
        },
    }
}

fn push_hdr_env(out: &mut Vec<u8>, h: &Header)
    ensures
        final(out)@ == old(out)@ + sp_hdr_env(h@),
{
    proof {
        assert(vstd::string::is_ascii(",\"env\":{")) by {
            reveal_strlit(",\"env\":{");
        }
        assert(vstd::string::is_ascii("}")) by {
            reveal_strlit("}");
        }
    }
    match &h.env {
        Some(pairs) => {
            push_lit(out, ",\"env\":{");
            push_env_pairs(out, pairs);
            push_lit(out, "}");
            proof {
                assert(out@ =~= old(out)@ + sp_hdr_env(h@));
            }
        },
        None => {
            proof {
                assert(out@ =~= old(out)@ + sp_hdr_env(h@));
            }
        },
    }
}

fn push_hdr_theme(out: &mut Vec<u8>, h: &Header)
    ensures
        final(out)@ == old(out)@ + sp_hdr_theme(h@),
{
    proof {
        assert(vstd::string::is_ascii(",\"theme\":")) by {
            reveal_strlit(",\"theme\":");
        }
    }
    match &h.theme {
        Some(t) => {
            push_lit(out, ",\"theme\":");
            push_theme_json(out, t);
            proof {
                assert(out@ =~= old(out)@ + sp_hdr_theme(h@));
            }
        },
        None => {
            proof {
                assert(out@ =~= old(out)@ + sp_hdr_theme(h@));
            }
        },
    }
}

/// Append the optional text fields and the closing brace.
fn push_hdr_back(out: &mut Vec<u8>, h: &Header)
    ensures
        final(out)@ == old(out)@ + sp_hdr_back(h@),
{
    proof {
        assert(vstd::string::is_ascii("}")) by {
            reveal_strlit("}");
        }
    }
    push_hdr_command(out, h);
    push_hdr_title(out, h);
    push_hdr_env(out, h);
    push_hdr_theme(out, h);
    push_lit(out, "}");
    proof {
        assert(sp_hdr_back(h@) == sp_hdr_command(h@) + sp_hdr_title(h@) + sp_hdr_env(h@)
            + sp_hdr_theme(h@) + ascii("}"@));
        assert(out@ =~= old(out)@ + sp_hdr_back(h@));
    }
}

/// Serialize the header to its JSON line.
///
/// Fails exactly when a theme is present whose palette is not 8 or 16
/// colors long; on success the output is [`spec_serialize_header`].
pub fn serialize_header(h: &Header) -> (r: Result<Vec<u8>, CastError>)
    ensures
        match r {
            Ok(v) => header_palette_ok(h@) && v@ == spec_serialize_header(h@),
            Err(e) => !header_palette_ok(h@) && e == CastError::SerializationError,
        },
{
    match &h.theme {
        Some(t) => {
            match Theme::validate_palette(&t.palette) {
                Err(_) => {
                    return Err(CastError::SerializationError);
                },
                Ok(()) => {},
            }
        },
        None => {},
    }
    let mut out: Vec<u8> = Vec::new();
    push_hdr_front(&mut out, h);
    push_hdr_mid(&mut out, h);
    push_hdr_back(&mut out, h);
    proof {
        assert(out@ =~= spec_serialize_header(h@));
    }
    Ok(out)
}
/// Append the env members, comma-joined.
fn push_env_pairs(out: &mut Vec<u8>, pairs: &Vec<(Vec<u8>, Vec<u8>)>)
    ensures
        final(out)@ == old(out)@ + sp_env_pairs(
            pairs@.map_values(|q: (Vec<u8>, Vec<u8>)| (q.0@, q.1@)),
        ),
{
    proof {
        reveal_strlit("\"");
        reveal_strlit("\":\"");
        reveal_strlit(",");
        assert(vstd::string::is_ascii("\""));
        assert(vstd::string::is_ascii("\":\""));
        assert(vstd::string::is_ascii(","));
    }
    let ghost pv = pairs@.map_values(|q: (Vec<u8>, Vec<u8>)| (q.0@, q.1@));
    let n = pairs.len();
    let mut i: usize = 0;
    proof {
        assert(pv.subrange(0, 0) =~= Seq::<(Seq<u8>, Seq<u8>)>::empty());
        assert(out@ =~= old(out)@ + sp_env_pairs(pv.subrange(0, 0)));
    }
    while i < n
        invariant
            0 <= i <= n,
            n == pairs@.len(),
            pv == pairs@.map_values(|q: (Vec<u8>, Vec<u8>)| (q.0@, q.1@)),
            vstd::string::is_ascii("\"") && vstd::string::is_ascii("\":\"")
                && vstd::string::is_ascii(","),
            out@ == old(out)@ + sp_env_pairs(pv.subrange(0, i as int)),
        decreases n - i,
    {
        if i > 0 {
            push_lit(out, ",");
        }
        push_lit(out, "\"");
        push_bytes(out, pairs[i].0.as_slice());
        push_lit(out, "\":\"");
        push_bytes(out, pairs[i].1.as_slice());
        push_lit(out, "\"");
        proof {
            let pfx = pv.subrange(0, i as int + 1);
            assert(pfx.drop_last() =~= pv.subrange(0, i as int));
            assert(pfx.last() == pv[i as int]);
            assert(pv[i as int] == (pairs@[i as int].0@, pairs@[i as int].1@));
            assert(out@ =~= old(out)@ + sp_env_pairs(pfx));
        }
        i += 1;
    }
    proof {
        assert(pv.subrange(0, n as int) =~= pv);
    }
}

/// Append the theme object's JSON text.
fn push_theme_json(out: &mut Vec<u8>, t: &Theme)
    ensures
        final(out)@ == old(out)@ + spec_theme_json(t@),
{
    proof {
        reveal_strlit("{\"fg\":\"");
        reveal_strlit("\",\"bg\":\"");
        reveal_strlit("\",\"palette\":\"");
        reveal_strlit("\"}");
        assert(vstd::string::is_ascii("{\"fg\":\""));
        assert(vstd::string::is_ascii("\",\"bg\":\""));
        assert(vstd::string::is_ascii("\",\"palette\":\""));
        assert(vstd::string::is_ascii("\"}"));
    }
    push_lit(out, "{\"fg\":\"");
    let mut hx = Theme::color_to_hex(t.fg);
    out.append(&mut hx);
    push_lit(out, "\",\"bg\":\"");
    let mut hx = Theme::color_to_hex(t.bg);
    out.append(&mut hx);
    push_lit(out, "\",\"palette\":\"");
    let mut ps = Theme::palette_to_string(&t.palette);
    out.append(&mut ps);
    push_lit(out, "\"}");
    proof {
        assert(out@ =~= old(out)@ + spec_theme_json(t@));
    }
}

} // verus!
