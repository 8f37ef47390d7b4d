//! Parsing of functional color literals and the palette matching rules.
//!
//! The parsing itself is done by the `csscolorparser` crate and yields a
//! normalized RGBA byte quad; everything decided from those bytes — the
//! derived HSL representation, the tolerance comparison, the choice of
//! opacity — is computed and verified here.

use vstd::prelude::*;

verus! {

use crate::palette::Color;
use crate::text::{contains_sub, match_at};

/// What `csscolorparser::parse` followed by `Color::to_rgba8` returns
/// for the given text, if the text parses as a color: the red, green,
/// blue and alpha channels, each scaled to `0..=255` and rounded.
pub uninterp spec fn css_rgba8(s: Seq<u8>) -> Option<(u8, u8, u8, u8)>;

/// Relies on `csscolorparser::parse` and `csscolorparser::Color::to_rgba8`
/// (v0.6): both depend on the text alone; `parse` accepts any CSS color
/// syntax and `to_rgba8` scales each channel to `0..=255`, rounding to
/// nearest.
#[verifier::external_body]
fn parse_rgba8(text: &Vec<u8>) -> (r: Option<(u8, u8, u8, u8)>)
    ensures
        r == css_rgba8(text@),
{
    let s = match std::str::from_utf8(text.as_slice()) {
        Ok(s) => s,
        Err(_) => return None,
    };
    match csscolorparser::parse(s) {
        Ok(c) => {
            let [r, g, b, a] = c.to_rgba8();
            Some((r, g, b, a))
        },
        Err(_) => None,
    }
}

/// Rounds the non-negative rational `p / q` to the nearest integer,
/// halves away from zero.
pub open spec fn div_round(p: int, q: int) -> int {
    (2 * p + q) / (2 * q)
}

/// The hue, saturation and lightness of an RGB byte triple, each
/// rounded to hundredths (hue in degrees, the others as fractions of
/// one). This is the standard RGB-to-HSL conversion, evaluated in exact
/// rational arithmetic.
pub open spec fn rgb_hsl100(r: u8, g: u8, b: u8) -> (int, int, int) {
    let mx = if r >= g && r >= b {
        r as int
    } else if g >= b {
        g as int
    } else {
        b as int
    };
    let mn = if r <= g && r <= b {
        r as int
    } else if g <= b {
        g as int
    } else {
        b as int
    };
    let l100 = div_round(10 * (mx + mn), 51);
    if mx == mn {
        (0, 0, l100)
    } else {
        let d = mx - mn;
        let q = if mx + mn < 255 {
            mx + mn
        } else {
            510 - (mx + mn)
        };
        let s100 = div_round(100 * d, q);
        let h100p = if r == mx {
            if g >= b {
                6000 * (g - b)
            } else {
                6000 * (g - b) + 36000 * d
            }
        } else if g == mx {
            12000 * d + 6000 * (b - r)
        } else {
            24000 * d + 6000 * (r - g)
        };
        let h100 = div_round(h100p, d);
        (h100, s100, l100)
    }
}

/// Executable RGB-to-HSL conversion in hundredths.
#[verifier::rlimit(50)]
pub fn rgb_to_hsl100(r: u8, g: u8, b: u8) -> (hsl: (i32, i32, i32))
    ensures
        (hsl.0 as int, hsl.1 as int, hsl.2 as int) == rgb_hsl100(r, g, b),
{
    let mx: i32 = if r >= g && r >= b {
        r as i32
    } else if g >= b {
        g as i32
    } else {
        b as i32
    };
    let mn: i32 = if r <= g && r <= b {
        r as i32
    } else if g <= b {
        g as i32
    } else {
        b as i32
    };
    let l100: i32 = (20 * (mx + mn) + 51) / 102;
    if mx == mn {
        (0, 0, l100)
    } else {
        let d: i32 = mx - mn;
        let q: i32 = if mx + mn < 255 {
            mx + mn
        } else {
            510 - (mx + mn)
        };
        let s100: i32 = (200 * d + q) / (2 * q);
        let h100p: i32 = if r as i32 == mx {
            if g >= b {
                6000 * (g as i32 - b as i32)
            } else {
                6000 * (g as i32 - b as i32) + 36000 * d
            }
        } else if g as i32 == mx {
            12000 * d + 6000 * (b as i32 - r as i32)
        } else {
            24000 * d + 6000 * (r as i32 - g as i32)
        };
        let h100: i32 = (2 * h100p + d) / (2 * d);
        assert(h100 == div_round(h100p as int, d as int));
        (h100, s100, l100)
    }
}

/// The bytes of `"hsl"`.
pub open spec fn hsl_bytes() -> Seq<u8> {
    seq![104u8, 115u8, 108u8]
}

/// A literal is treated as an HSL-family literal when its text contains
/// `hsl` anywhere.
pub open spec fn lit_is_hsl(s: Seq<u8>) -> bool {
    contains_sub(s, hsl_bytes())
}

/// Executable test of `lit_is_hsl`.
pub fn is_hsl_literal(text: &Vec<u8>) -> (r: bool)
    ensures
        r == lit_is_hsl(text@),
{
    if text.len() < 3 {
        proof {
            assert(forall|i: int| !match_at(text@, hsl_bytes(), i));
        }
        return false;
    }
    let mut i: usize = 0;
    while i <= text.len() - 3
        invariant
            text@.len() >= 3,
            i <= text@.len() - 3 + 1,
            forall|p: int| 0 <= p < i ==> !match_at(text@, hsl_bytes(), p),
        decreases text@.len() - i,
    {
        if text[i] == 104 && text[i + 1] == 115 && text[i + 2] == 108 {
            proof {
                assert(text@.subrange(i as int, i + 3) =~= hsl_bytes());
                assert(match_at(text@, hsl_bytes(), i as int));
            }
            return true;
        }
        proof {
            if match_at(text@, hsl_bytes(), i as int) {
                assert(text@.subrange(i as int, i + 3)[0] == hsl_bytes()[0]);
                assert(text@.subrange(i as int, i + 3)[1] == hsl_bytes()[1]);
                assert(text@.subrange(i as int, i + 3)[2] == hsl_bytes()[2]);
            }
        }
        i += 1;
    }
    proof {
        assert forall|p: int| !match_at(text@, hsl_bytes(), p) by {
            if match_at(text@, hsl_bytes(), p) {
                assert(0 <= p && p + 3 <= text@.len());
            }
        }
    }
    false
}

/// One rounded HSL component lies within tolerance of the expected one.
/// The tolerance depends on the expected value's magnitude: `0.02` when
/// it is a sub-1.0 fraction, else `1.0` (both in the component's own
/// unit; here everything is in hundredths).
pub open spec fn hsl_component_close(expected100: int, actual100: int) -> bool {
    if expected100 < 100 {
        -2 < expected100 - actual100 < 2
    } else {
        -100 < expected100 - actual100 < 100
    }
}

/// Executable test of `hsl_component_close`.
pub fn hsl_close(expected100: i32, actual100: i32) -> (r: bool)
    ensures
        r == hsl_component_close(expected100 as int, actual100 as int),
{
    let d: i64 = expected100 as i64 - actual100 as i64;
    if expected100 < 100 {
        -2 < d && d < 2
    } else {
        -100 < d && d < 100
    }
}

/// A parsed literal matches a palette color: for an HSL-family literal,
/// every component of the HSL derived from its parsed RGB lies within
/// tolerance of the color's; otherwise its red, green and blue bytes are
/// exactly the color's. Alpha never takes part in matching. A literal
/// that does not parse matches nothing.
pub open spec fn lit_matches_color(c: Color, s: Seq<u8>) -> bool {
    match css_rgba8(s) {
        Some((r, g, b, _a)) => {
            if lit_is_hsl(s) {
                let (h, sat, l) = rgb_hsl100(r, g, b);
                &&& hsl_component_close(c.h100 as int, h)
                &&& hsl_component_close(c.s100 as int, sat)
                &&& hsl_component_close(c.l100 as int, l)
            } else {
                r == c.r && g == c.g && b == c.b
            }
        },
        None => false,
    }
}

/// The opacity byte a matched literal contributes to its placeholder:
/// the alpha channel of its parsed RGBA.
pub open spec fn lit_opacity(s: Seq<u8>) -> u8 {
    match css_rgba8(s) {
        Some((_r, _g, _b, a)) => a,
        None => 0,
    }
}

/// A scanned functional literal, with its parse result.
pub struct ParsedLiteral {
    /// The exact bytes of the literal as scanned.
    pub text: Vec<u8>,
    /// The parsed red, green, blue and alpha bytes.
    pub rgba: (u8, u8, u8, u8),
}

/// A `ParsedLiteral` faithfully carries the parse of its text.
pub open spec fn parsed_lit_wf(l: ParsedLiteral) -> bool {
    css_rgba8(l.text@) == Some(l.rgba)
}

/// Parses a scanned literal; yields its parse result, or hands the text
/// back when it is not a color.
pub fn parse_literal(text: Vec<u8>) -> (r: Result<ParsedLiteral, Vec<u8>>)
    ensures
        r matches Ok(l) ==> parsed_lit_wf(l) && l.text@ == text@ && css_rgba8(text@) is Some,
        r matches Err(t) ==> t@ == text@ && css_rgba8(text@) is None,
{
    match parse_rgba8(&text) {
        Some(rgba) => Ok(ParsedLiteral { text, rgba }),
        None => Err(text),
    }
}

/// Decides whether a parsed literal matches a palette color, from the
/// parsed bytes alone.
pub fn literal_matches_color(c: &Color, l: &ParsedLiteral) -> (r: bool)
    requires
        parsed_lit_wf(*l),
    ensures
        r == lit_matches_color(*c, l.text@),
{
    let (r0, g0, b0, _a) = l.rgba;
    if is_hsl_literal(&l.text) {
        let (h, sat, lt) = rgb_to_hsl100(r0, g0, b0);
        hsl_close(c.h100, h) && hsl_close(c.s100, sat) && hsl_close(c.l100, lt)
    } else {
        r0 == c.r && g0 == c.g && b0 == c.b
    }
}

/// The opacity byte of a parsed literal.
pub fn literal_opacity(l: &ParsedLiteral) -> (r: u8)
    requires
        parsed_lit_wf(*l),
    ensures
        r == lit_opacity(l.text@),
{
    l.rgba.3
}

} // verus!
