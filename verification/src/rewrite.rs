//! Construction of the placeholder expressions that replace matched
//! color literals: `{{ <name> }}` wrappers, the opacity modifier and the
//! `css_rgb`/`css_hsl` filter chain.

use vstd::prelude::*;

verus! {

use crate::text::push_all;

/// The bytes of `"{{ "`.
pub open spec fn tera_open_bytes() -> Seq<u8> {
    seq![123u8, 123u8, 32u8]
}

/// The bytes of `" }}"`.
pub open spec fn tera_close_bytes() -> Seq<u8> {
    seq![32u8, 125u8, 125u8]
}

/// `inner` wrapped as a template expression: `{{ inner }}`.
pub open spec fn tera_of(inner: Seq<u8>) -> Seq<u8> {
    tera_open_bytes() + inner + tera_close_bytes()
}

/// The bytes of `".hex"`.
pub open spec fn dot_hex_bytes() -> Seq<u8> {
    seq![46u8, 104u8, 101u8, 120u8]
}

/// The placeholder that replaces an occurrence of a color's hex digits:
/// `{{ <identifier>.hex }}`.
pub open spec fn hex_placeholder(identifier: Seq<u8>) -> Seq<u8> {
    tera_of(identifier + dot_hex_bytes())
}

/// The bytes of `"flavor.name"`.
pub open spec fn flavor_name_bytes() -> Seq<u8> {
    seq![102u8, 108u8, 97u8, 118u8, 111u8, 114u8, 46u8, 110u8, 97u8, 109u8, 101u8]
}

/// The bytes of `"flavor.identifier"`.
pub open spec fn flavor_identifier_bytes() -> Seq<u8> {
    seq![
        102u8,
        108u8,
        97u8,
        118u8,
        111u8,
        114u8,
        46u8,
        105u8,
        100u8,
        101u8,
        110u8,
        116u8,
        105u8,
        102u8,
        105u8,
        101u8,
        114u8,
    ]
}

/// The opacity byte as hundredths of full opacity, rounded to nearest:
/// the two-decimal value that `opacity / 255` prints as.
pub open spec fn opacity_hundredths(op: u8) -> int {
    (op * 200 + 255) / 510
}

/// The bytes of `op / 255` written with exactly two decimal places,
/// `0.00` through `1.00`.
pub open spec fn opacity_dec_bytes(op: u8) -> Seq<u8> {
    let h = opacity_hundredths(op);
    seq![(48 + h / 100) as u8, 46u8, (48 + (h % 100) / 10) as u8, (48 + h % 10) as u8]
}

/// The bytes of `"rgb"` or `"hsl"`.
pub open spec fn family_bytes(is_hsl: bool) -> Seq<u8> {
    if is_hsl {
        seq![104u8, 115u8, 108u8]
    } else {
        seq![114u8, 103u8, 98u8]
    }
}

/// The bytes of `" | css_"`.
pub open spec fn css_filter_bytes() -> Seq<u8> {
    seq![32u8, 124u8, 32u8, 99u8, 115u8, 115u8, 95u8]
}

/// The bytes of `" | mod(opacity="`.
pub open spec fn mod_open_bytes() -> Seq<u8> {
    seq![
        32u8,
        124u8,
        32u8,
        109u8,
        111u8,
        100u8,
        40u8,
        111u8,
        112u8,
        97u8,
        99u8,
        105u8,
        116u8,
        121u8,
        61u8,
    ]
}

/// The bytes of `")"`.
pub open spec fn mod_close_bytes() -> Seq<u8> {
    seq![41u8]
}

/// The filter chain appended after a color identifier for a functional
/// literal: for a fully opaque literal just ` | css_rgb` / ` | css_hsl`,
/// otherwise ` | mod(opacity=D.DD) | css_rgba` / `css_hsla`.
pub open spec fn filter_suffix(op: u8, is_hsl: bool) -> Seq<u8> {
    if op == 255 {
        css_filter_bytes() + family_bytes(is_hsl)
    } else {
        mod_open_bytes() + opacity_dec_bytes(op) + mod_close_bytes() + css_filter_bytes()
            + family_bytes(is_hsl) + seq![97u8]
    }
}

/// The placeholder that replaces a matched functional literal:
/// `{{ <identifier><filters> }}`.
pub open spec fn func_placeholder(identifier: Seq<u8>, op: u8, is_hsl: bool) -> Seq<u8> {
    tera_of(identifier + filter_suffix(op, is_hsl))
}

/// Wraps `value` as a template expression: `{{ value }}`.
pub fn as_tera_expr(value: &Vec<u8>) -> (r: Vec<u8>)
    ensures
        r@ == tera_of(value@),
{
    let mut out: Vec<u8> = Vec::new();
    out.push(123);
    out.push(123);
    out.push(32);
    assert(out@ =~= tera_open_bytes());
    push_all(&mut out, value);
    out.push(32);
    out.push(125);
    out.push(125);
    assert(out@ =~= tera_of(value@));
    out
}

/// Builds `{{ <identifier>.hex }}`.
pub fn build_hex_placeholder(identifier: &Vec<u8>) -> (r: Vec<u8>)
    ensures
        r@ == hex_placeholder(identifier@),
{
    let mut inner: Vec<u8> = Vec::new();
    push_all(&mut inner, identifier);
    inner.push(46);
    inner.push(104);
    inner.push(101);
    inner.push(120);
    assert(inner@ =~= identifier@ + dot_hex_bytes());
    as_tera_expr(&inner)
}

/// Builds `{{ flavor.name }}`.
pub fn build_flavor_name_placeholder() -> (r: Vec<u8>)
    ensures
        r@ == tera_of(flavor_name_bytes()),
{
    let mut inner: Vec<u8> = Vec::new();
    inner.push(102);
    inner.push(108);
    inner.push(97);
    inner.push(118);
    inner.push(111);
    inner.push(114);
    inner.push(46);
    inner.push(110);
    inner.push(97);
    inner.push(109);
    inner.push(101);
    assert(inner@ =~= flavor_name_bytes());
    as_tera_expr(&inner)
}

/// Builds `{{ flavor.identifier }}`.
pub fn build_flavor_identifier_placeholder() -> (r: Vec<u8>)
    ensures
        r@ == tera_of(flavor_identifier_bytes()),
{
    let mut inner: Vec<u8> = Vec::new();
    inner.push(102);
    inner.push(108);
    inner.push(97);
    inner.push(118);
    inner.push(111);
    inner.push(114);
    inner.push(46);
    inner.push(105);
    inner.push(100);
    inner.push(101);
    inner.push(110);
    inner.push(116);
    inner.push(105);
    inner.push(102);
    inner.push(105);
    inner.push(101);
    inner.push(114);
    assert(inner@ =~= flavor_identifier_bytes());
    as_tera_expr(&inner)
}

/// Builds the two-decimal opacity value `op / 255`.
pub fn build_opacity_dec(op: u8) -> (r: Vec<u8>)
    ensures
        r@ == opacity_dec_bytes(op),
{
    let h: u32 = ((op as u32) * 200 + 255) / 510;
    assert(h == opacity_hundredths(op));
    assert(h <= 100) by {
        assert((op as u32) * 200 + 255 <= 51255);
    }
    let mut out: Vec<u8> = Vec::new();
    out.push(48 + (h / 100) as u8);
    out.push(46);
    out.push(48 + ((h % 100) / 10) as u8);
    out.push(48 + (h % 10) as u8);
    assert(out@ =~= opacity_dec_bytes(op));
    out
}

/// Builds the filter chain for a functional literal with opacity byte
/// `op` and the given syntax family.
pub fn build_filter_suffix(op: u8, is_hsl: bool) -> (r: Vec<u8>)
    ensures
        r@ == filter_suffix(op, is_hsl),
{
    let mut out: Vec<u8> = Vec::new();
    if op != 255 {
        out.push(32);
        out.push(124);
        out.push(32);
        out.push(109);
        out.push(111);
        out.push(100);
        out.push(40);
        out.push(111);
        out.push(112);
        out.push(97);
        out.push(99);
        out.push(105);
        out.push(116);
        out.push(121);
        out.push(61);
        assert(out@ =~= mod_open_bytes());
        let dec = build_opacity_dec(op);
        push_all(&mut out, &dec);
        out.push(41);
    }
    out.push(32);
    out.push(124);
    out.push(32);
    out.push(99);
    out.push(115);
    out.push(115);
    out.push(95);
    if is_hsl {
        out.push(104);
        out.push(115);
        out.push(108);
    } else {
        out.push(114);
        out.push(103);
        out.push(98);
    }
    if op != 255 {
        out.push(97);
    }
    assert(out@ =~= filter_suffix(op, is_hsl));
    out
}

/// Builds `{{ <identifier><filters> }}` for a matched functional literal.
pub fn build_func_placeholder(identifier: &Vec<u8>, op: u8, is_hsl: bool) -> (r: Vec<u8>)
    ensures
        r@ == func_placeholder(identifier@, op, is_hsl),
{
    let mut inner: Vec<u8> = Vec::new();
    push_all(&mut inner, identifier);
    let suffix = build_filter_suffix(op, is_hsl);
    push_all(&mut inner, &suffix);
    assert(inner@ =~= identifier@ + filter_suffix(op, is_hsl));
    as_tera_expr(&inner)
}

} // verus!
