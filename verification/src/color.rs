//! Colors and themes: the `#rrggbb` color codec and the colon-joined
//! palette string codec, with the 8-or-16 palette rule.

use crate::errors::ThemeError;
use crate::textutil::{
    byte_hex_val, byte_is_hex, find_byte, find_byte_from, hex_digit_lower, hex_lower_digit,
    hex_val, is_hex_byte, lemma_find_byte_props,
};
use vstd::prelude::*;

verus! {

/// One color, as red, green and blue bytes.
#[derive(Debug, Clone, Copy, PartialEq, Eq, Structural)]
pub struct Rgb {
    pub r: u8,
    pub g: u8,
    pub b: u8,
}

/// The theme of a recording: foreground, background, and a palette of 8 or
/// 16 colors.
#[derive(Debug, Clone)]
pub struct Theme {
    pub fg: Rgb,
    pub bg: Rgb,
    pub palette: Vec<Rgb>,
}

/// The mathematical image of a [`Theme`].
#[verifier::ext_equal]
pub struct ThemeModel {
    pub fg: Rgb,
    pub bg: Rgb,
    pub palette: Seq<Rgb>,
}

impl View for Theme {
    type V = ThemeModel;

    open spec fn view(&self) -> ThemeModel {
        ThemeModel { fg: self.fg, bg: self.bg, palette: self.palette@ }
    }
}

/// What decoding a CSS-style hex color returns: the color for `#` plus six
/// hex digits, a format or value error otherwise.
pub open spec fn spec_color_from_hex(s: Seq<u8>) -> Result<Rgb, ThemeError> {
    if !(s.len() == 7 && s[0] == 0x23) {
        Err(ThemeError::HexFormat)
    } else if !(is_hex_byte(s[1]) && is_hex_byte(s[2]) && is_hex_byte(s[3]) && is_hex_byte(s[4])
        && is_hex_byte(s[5]) && is_hex_byte(s[6])) {
        Err(ThemeError::HexValue)
    } else {
        Ok(
            Rgb {
                r: (hex_val(s[1]) * 16 + hex_val(s[2])) as u8,
                g: (hex_val(s[3]) * 16 + hex_val(s[4])) as u8,
                b: (hex_val(s[5]) * 16 + hex_val(s[6])) as u8,
            },
        )
    }
}

/// The lowercase `#rrggbb` text of a color.
pub open spec fn spec_color_to_hex(c: Rgb) -> Seq<u8> {
    seq![
        0x23u8,
        hex_digit_lower((c.r / 16) as nat),
        hex_digit_lower((c.r % 16) as nat),
        hex_digit_lower((c.g / 16) as nat),
        hex_digit_lower((c.g % 16) as nat),
        hex_digit_lower((c.b / 16) as nat),
        hex_digit_lower((c.b % 16) as nat),
    ]
}

/// A palette is acceptable exactly when it holds 8 or 16 colors.
pub open spec fn spec_validate_palette(len: nat) -> Result<(), ThemeError> {
    if len == 8 || len == 16 {
        Ok(())
    } else {
        Err(ThemeError::PaletteSize(len as usize))
    }
}

/// `str::split(':')` on a byte run: always at least one part.
pub open spec fn spec_split_colon(s: Seq<u8>) -> Seq<Seq<u8>>
    decreases s.len(),
{
    let k = find_byte(s, 0x3a, 0);
    if 0 <= k < s.len() {
        seq![s.subrange(0, k)] + spec_split_colon(s.subrange(k + 1, s.len() as int))
    } else {
        seq![s]
    }
}

/// Decode each part as a color, stopping at the first failure.
pub open spec fn spec_colors_of(parts: Seq<Seq<u8>>) -> Result<Seq<Rgb>, ThemeError>
    decreases parts.len(),
{
    if parts.len() == 0 {
        Ok(Seq::empty())
    } else {
        match spec_color_from_hex(parts[0]) {
            Err(e) => Err(e),
            Ok(c) => match spec_colors_of(parts.drop_first()) {
                Err(e) => Err(e),
                Ok(rest) => Ok(seq![c] + rest),
            },
        }
    }
}

/// What decoding a colon-joined palette string returns: the colors, the
/// first color's error, or the palette-size error.
pub open spec fn spec_palette_from_string(s: Seq<u8>) -> Result<Seq<Rgb>, ThemeError> {
    match spec_colors_of(spec_split_colon(s)) {
        Err(e) => Err(e),
        Ok(colors) => match spec_validate_palette(colors.len()) {
            Err(e) => Err(e),
            Ok(()) => Ok(colors),
        },
    }
}

/// The colon-joined text of a palette.
pub open spec fn spec_palette_to_string(pal: Seq<Rgb>) -> Seq<u8>
    decreases pal.len(),
{
    if pal.len() == 0 {
        Seq::empty()
    } else if pal.len() == 1 {
        spec_color_to_hex(pal[0])
    } else {
        spec_palette_to_string(pal.drop_last()) + seq![0x3au8] + spec_color_to_hex(pal.last())
    }
}

impl Theme {
    /// Decode `#rrggbb`; relied on for both header decoding and tests.
    pub fn color_from_hex(hex: &[u8]) -> (r: Result<Rgb, ThemeError>)
        ensures
            r == spec_color_from_hex(hex@),
    {
        if hex.len() != 7 || hex[0] != 0x23 {
            return Err(ThemeError::HexFormat);
        }
        let mut i: usize = 1;
        while i < 7
            invariant
                1 <= i <= 7,
                hex@.len() == 7,
                hex@[0] == 0x23,
                forall|k: int| 1 <= k < i ==> is_hex_byte(#[trigger] hex@[k]),
            decreases 7 - i,
        {
            if !byte_is_hex(hex[i]) {
                proof {
                    assert(!is_hex_byte(hex@[i as int]));
                    assert(!(is_hex_byte(hex@[1]) && is_hex_byte(hex@[2]) && is_hex_byte(hex@[3])
                        && is_hex_byte(hex@[4]) && is_hex_byte(hex@[5]) && is_hex_byte(hex@[6])));
                }
                return Err(ThemeError::HexValue);
            }
            i += 1;
        }
        let r = byte_hex_val(hex[1]) * 16 + byte_hex_val(hex[2]);
        let g = byte_hex_val(hex[3]) * 16 + byte_hex_val(hex[4]);
        let b = byte_hex_val(hex[5]) * 16 + byte_hex_val(hex[6]);
        Ok(Rgb { r, g, b })
    }

    /// Encode a color as lowercase `#rrggbb`.
    pub fn color_to_hex(color: Rgb) -> (r: Vec<u8>)
        ensures
            r@ == spec_color_to_hex(color),
    {
        let mut v: Vec<u8> = Vec::new();
        v.push(0x23);
        v.push(hex_lower_digit(color.r / 16));
        v.push(hex_lower_digit(color.r % 16));
        v.push(hex_lower_digit(color.g / 16));
        v.push(hex_lower_digit(color.g % 16));
        v.push(hex_lower_digit(color.b / 16));
        v.push(hex_lower_digit(color.b % 16));
        assert(v@ =~= spec_color_to_hex(color));
        v
    }

    /// Accept exactly palettes of 8 or 16 colors.
    pub fn validate_palette(palette: &Vec<Rgb>) -> (r: Result<(), ThemeError>)
        ensures
            r == spec_validate_palette(palette@.len() as nat),
    {
        let len = palette.len();
        if len == 8 || len == 16 {
            Ok(())
        } else {
            Err(ThemeError::PaletteSize(len))
        }
    }

    /// Decode a colon-joined palette string, including the size rule.
    pub fn palette_from_string(s: &[u8]) -> (r: Result<Vec<Rgb>, ThemeError>)
        ensures
            match r {
                Ok(colors) => spec_palette_from_string(s@) == Ok::<Seq<Rgb>, ThemeError>(colors@),
                Err(e) => spec_palette_from_string(s@) == Err::<Seq<Rgb>, ThemeError>(e),
            },
    {
        let mut colors: Vec<Rgb> = Vec::new();
        let n: usize = s.len();
        let mut start: usize = 0;
        proof {
            assert(s@.subrange(0, n as int) =~= s@);
        }
        loop
            invariant
                start <= n,
                n == s@.len(),
                join_colors_ok(colors@, spec_split_colon(s@.subrange(start as int, n as int)))
                    == spec_colors_of(spec_split_colon(s@)),
            decreases n - start,
        {
            proof {
                lemma_find_byte_props(s@, 0x3a, start as int);
            }
            let k = find_byte_from(s, 0x3a, start);
            let part = vstd::slice::slice_subrange(s, start, k);
            let ghost sub = s@.subrange(start as int, n as int);
            let ghost parts = spec_split_colon(sub);
            proof {
                crate::textutil::lemma_find_byte_shift_generic(s@, 0x3a, start as int);
                assert(find_byte(sub, 0x3a, 0) == k - start);
                if k == n {
                    assert(part@ =~= sub);
                    assert(parts == seq![sub]);
                } else {
                    assert(part@ =~= sub.subrange(0, (k - start) as int));
                    assert(sub.subrange((k - start) + 1, sub.len() as int) =~= s@.subrange(
                        k + 1,
                        n as int,
                    ));
                    assert(parts == seq![part@] + spec_split_colon(
                        s@.subrange(k + 1, n as int),
                    ));
                    assert(parts[0] == part@);
                    assert(parts.drop_first() =~= spec_split_colon(s@.subrange(k + 1, n as int)));
                }
            }
            let ghost colors_before = colors@;
            match Self::color_from_hex(part) {
                Ok(c) => {
                    colors.push(c);
                    proof {
                        if k == n {
                            assert(parts.drop_first() =~= Seq::<Seq<u8>>::empty());
                            assert(spec_colors_of(parts.drop_first()) == Ok::<Seq<Rgb>,
                            ThemeError>(Seq::empty()));
                            assert(spec_colors_of(parts) == Ok::<Seq<Rgb>, ThemeError>(
                                seq![c] + Seq::<Rgb>::empty(),
                            ));
                            assert(colors_before + (seq![c] + Seq::<Rgb>::empty()) =~= colors@);
                        } else {
                            let rest = parts.drop_first();
                            match spec_colors_of(rest) {
                                Err(_) => {},
                                Ok(rr) => {
                                    assert(colors_before + (seq![c] + rr) =~= colors@ + rr);
                                },
                            }
                        }
                    }
                },
                Err(e) => {
                    proof {
                        assert(spec_colors_of(parts) == Err::<Seq<Rgb>, ThemeError>(e));
                    }
                    return Err(e);
                },
            }
            if k == n {
                return match Self::validate_palette(&colors) {
                    Ok(()) => Ok(colors),
                    Err(e) => Err(e),
                };
            }
            start = k + 1;
        }
    }

    /// Encode a palette as a colon-joined string (no size rule here; the
    /// caller validates before encoding).
    pub fn palette_to_string(palette: &Vec<Rgb>) -> (r: Vec<u8>)
        ensures
            r@ == spec_palette_to_string(palette@),
    {
        let mut out: Vec<u8> = Vec::new();
        let n = palette.len();
        let mut i: usize = 0;
        while i < n
            invariant
                0 <= i <= n,
                n == palette@.len(),
                out@ == spec_palette_to_string(palette@.subrange(0, i as int)),
            decreases n - i,
        {
            if i > 0 {
                out.push(0x3a);
            }
            let mut hex = Self::color_to_hex(palette[i]);
            out.append(&mut hex);
            proof {
                let pfx = palette@.subrange(0, i + 1);
                assert(pfx.drop_last() =~= palette@.subrange(0, i as int));
                assert(pfx.last() == palette@[i as int]);
                if i == 0 {
                    assert(out@ =~= spec_palette_to_string(pfx));
                } else {
                    assert(out@ =~= spec_palette_to_string(pfx));
                }
            }
            i += 1;
        }
        proof {
            assert(palette@.subrange(0, n as int) =~= palette@);
        }
        out
    }
}

/// Continuing `spec_colors_of` over the remaining parts after some colors
/// were already decoded.
spec fn join_colors_ok(acc: Seq<Rgb>, parts: Seq<Seq<u8>>) -> Result<Seq<Rgb>, ThemeError> {
    match spec_colors_of(parts) {
        Err(e) => Err(e),
        Ok(rest) => Ok(acc + rest),
    }
}

} // verus!
