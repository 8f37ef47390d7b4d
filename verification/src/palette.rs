//! The color palette: an immutable table of flavors, each binding the
//! same roster of color identifiers to flavor-specific values.
//!
//! Hue, saturation and lightness are carried as integer hundredths of
//! their customary units (degrees for hue, fractions of one for
//! saturation and lightness), which is exactly the two-decimal rounding
//! the matching rule works with.

use vstd::prelude::*;

verus! {

use crate::rewrite::hex_placeholder;
use crate::text::{ci_contains, is_lower_hex, hex_guards, to_lower};

/// One color of a flavor.
pub struct Color {
    /// The semantic role name, stable across flavors.
    pub identifier: Vec<u8>,
    /// Six lowercase hex digits, without a leading `#`.
    pub hex: Vec<u8>,
    /// Red channel.
    pub r: u8,
    /// Green channel.
    pub g: u8,
    /// Blue channel.
    pub b: u8,
    /// Hue in hundredths of a degree.
    pub h100: i32,
    /// Saturation in hundredths of a fraction of one.
    pub s100: i32,
    /// Lightness in hundredths of a fraction of one.
    pub l100: i32,
    /// Whether the color is an accent color.
    pub accent: bool,
}

/// One complete palette variant.
pub struct Flavor {
    /// The human-readable flavor name.
    pub name: Vec<u8>,
    /// The flavor's identifier.
    pub identifier: Vec<u8>,
    /// The flavor's colors, in palette order.
    pub colors: Vec<Color>,
}

/// An ordered collection of flavors.
pub struct Palette {
    /// The flavors, in palette order.
    pub flavors: Vec<Flavor>,
}

/// A well-formed color: its hex field holds exactly six lowercase hex
/// digits, and its own hex placeholder does not contain those digits
/// again (so rewriting an occurrence cannot create a new one).
pub open spec fn color_wf(c: Color) -> bool {
    &&& c.hex@.len() == 6
    &&& (forall|j: int| 0 <= j < c.hex@.len() ==> is_lower_hex(c.hex@[j]))
    &&& !ci_contains(hex_placeholder(c.identifier@), c.hex@)
}

/// A well-formed flavor: all of its colors are well-formed.
pub open spec fn flavor_wf(f: Flavor) -> bool {
    forall|i: int| 0 <= i < f.colors@.len() ==> color_wf(#[trigger] f.colors@[i])
}

/// A well-formed palette: all of its flavors are well-formed.
pub open spec fn palette_wf(p: Palette) -> bool {
    forall|i: int| 0 <= i < p.flavors@.len() ==> flavor_wf(#[trigger] p.flavors@[i])
}

/// A well-formed color's hex pattern and hex placeholder satisfy the
/// guards the hex rewriting pass relies on.
pub proof fn lemma_color_hex_guards(c: Color)
    requires
        color_wf(c),
    ensures
        hex_guards(c.hex@, hex_placeholder(c.identifier@)),
{
    let rep = hex_placeholder(c.identifier@);
    assert(rep[0] == 123u8);
    assert(rep[rep.len() - 1] == 125u8);
    assert(to_lower(123u8) == 123u8);
    assert(to_lower(125u8) == 125u8);
}

/// Executable check of `color_wf`.
pub fn color_wf_check(c: &Color) -> (r: bool)
    ensures
        r == color_wf(*c),
{
    if c.hex.len() != 6 {
        return false;
    }
    let mut j: usize = 0;
    while j < c.hex.len()
        invariant
            j <= c.hex@.len(),
            forall|k: int| 0 <= k < j ==> is_lower_hex(c.hex@[k]),
        decreases c.hex@.len() - j,
    {
        let b = c.hex[j];
        if !((48 <= b && b <= 57) || (97 <= b && b <= 102)) {
            return false;
        }
        j += 1;
    }
    let placeholder = crate::rewrite::build_hex_placeholder(&c.identifier);
    let mut i: usize = 0;
    // search the placeholder for the hex digits, up to case
    if placeholder.len() >= 6 {
        while i <= placeholder.len() - 6
            invariant
                placeholder@.len() >= 6,
                i <= placeholder@.len() - 6 + 1,
                placeholder@ == hex_placeholder(c.identifier@),
                c.hex@.len() == 6,
                forall|p: int| 0 <= p < i ==> !crate::text::ci_match_at(placeholder@, c.hex@, p),
            decreases placeholder@.len() - i,
        {
            if crate::text::is_ci_match_at(&placeholder, &c.hex, i) {
                return false;
            }
            i += 1;
        }
    }
    proof {
        assert forall|p: int| !crate::text::ci_match_at(placeholder@, c.hex@, p) by {
            if crate::text::ci_match_at(placeholder@, c.hex@, p) {
                assert(0 <= p && p + 6 <= placeholder@.len());
            }
        }
    }
    true
}

/// Executable check of `flavor_wf`.
pub fn flavor_wf_check(f: &Flavor) -> (r: bool)
    ensures
        r == flavor_wf(*f),
{
    let mut i: usize = 0;
    while i < f.colors.len()
        invariant
            i <= f.colors@.len(),
            forall|k: int| 0 <= k < i ==> color_wf(#[trigger] f.colors@[k]),
        decreases f.colors@.len() - i,
    {
        if !color_wf_check(&f.colors[i]) {
            return false;
        }
        i += 1;
    }
    true
}

/// Executable check of `palette_wf`.
pub fn palette_wf_check(p: &Palette) -> (r: bool)
    ensures
        r == palette_wf(*p),
{
    let mut i: usize = 0;
    while i < p.flavors.len()
        invariant
            i <= p.flavors@.len(),
            forall|k: int| 0 <= k < i ==> flavor_wf(#[trigger] p.flavors@[k]),
        decreases p.flavors@.len() - i,
    {
        if !flavor_wf_check(&p.flavors[i]) {
            return false;
        }
        i += 1;
    }
    true
}

} // verus!
