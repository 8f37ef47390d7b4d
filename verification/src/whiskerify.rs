//! The conversion pipeline: scan the text for color literals, walk the
//! palette in flavor order then color order, rewrite every resolved
//! literal into a placeholder expression, and report what could not be
//! resolved.

use vstd::prelude::*;

verus! {

use crate::csscolor::{
    css_rgba8, lit_is_hsl, lit_matches_color, lit_opacity, parse_literal, parsed_lit_wf,
    is_hsl_literal, literal_matches_color, literal_opacity, ParsedLiteral,
};
use crate::location::{col_of, first_match_from, line_of, find_first, line_col_at,
    lemma_contains_first_match};
use crate::palette::{Color, Flavor, Palette};
use crate::rewrite::{
    build_flavor_identifier_placeholder, build_flavor_name_placeholder, build_func_placeholder,
    build_hex_placeholder, flavor_identifier_bytes, flavor_name_bytes, func_placeholder,
    hex_placeholder, tera_of,
};
use crate::scan::{lemma_scanned_in_text, scan_literals, scanned};
use crate::text::{bytes_eq, contains_sub, hex_rewritten, replace_all, replaced, rewrite_hex};

/// The texts of a pool of parsed literals.
pub open spec fn pool_texts(pool: Seq<ParsedLiteral>) -> Seq<Seq<u8>> {
    pool.map_values(|pl: ParsedLiteral| pl.text@)
}

/// Every entry of a pool faithfully carries its parse.
pub open spec fn pool_ok(pool: Seq<ParsedLiteral>) -> bool {
    forall|i: int| 0 <= i < pool.len() ==> parsed_lit_wf(#[trigger] pool[i])
}

/// The scanned literals that parse, in scan order: the candidate pool.
pub open spec fn pool_of(lits: Seq<Seq<u8>>) -> Seq<Seq<u8>>
    decreases lits.len(),
{
    if lits.len() == 0 {
        Seq::empty()
    } else if css_rgba8(lits[0]) is Some {
        seq![lits[0]] + pool_of(lits.skip(1))
    } else {
        pool_of(lits.skip(1))
    }
}

/// The scanned literals that do not parse, in scan order.
pub open spec fn invalid_of(lits: Seq<Seq<u8>>) -> Seq<Seq<u8>>
    decreases lits.len(),
{
    if lits.len() == 0 {
        Seq::empty()
    } else if css_rgba8(lits[0]) is None {
        seq![lits[0]] + invalid_of(lits.skip(1))
    } else {
        invalid_of(lits.skip(1))
    }
}

/// The placeholder a matched functional literal is replaced with.
pub open spec fn func_placeholder_for(c: Color, l: Seq<u8>) -> Seq<u8> {
    func_placeholder(c.identifier@, lit_opacity(l), lit_is_hsl(l))
}

/// One color's pass over the candidate pool: each pending literal that
/// matches the color is replaced throughout the text and leaves the
/// pool; the others stay, in order.
pub open spec fn func_pass(t: Seq<u8>, pool: Seq<Seq<u8>>, c: Color) -> (Seq<u8>, Seq<Seq<u8>>)
    decreases pool.len(),
{
    if pool.len() == 0 {
        (t, Seq::empty())
    } else if lit_matches_color(c, pool[0]) {
        func_pass(replaced(t, pool[0], func_placeholder_for(c, pool[0])), pool.skip(1), c)
    } else {
        let r = func_pass(t, pool.skip(1), c);
        (r.0, seq![pool[0]] + r.1)
    }
}

/// One color's whole pass: every occurrence of its hex digits, in any
/// letter case, becomes the hex placeholder, then the functional pool
/// is tried.
pub open spec fn color_pass(t: Seq<u8>, pool: Seq<Seq<u8>>, c: Color) -> (Seq<u8>, Seq<Seq<u8>>) {
    func_pass(hex_rewritten(t, c.hex@, hex_placeholder(c.identifier@)), pool, c)
}

/// The passes of a flavor's colors, in palette order.
pub open spec fn colors_pass(t: Seq<u8>, pool: Seq<Seq<u8>>, colors: Seq<Color>) -> (
    Seq<u8>,
    Seq<Seq<u8>>,
)
    decreases colors.len(),
{
    if colors.len() == 0 {
        (t, pool)
    } else {
        let r = color_pass(t, pool, colors[0]);
        colors_pass(r.0, r.1, colors.skip(1))
    }
}

/// One flavor's pass: its name and identifier become flavor
/// placeholders, then its colors run in order.
pub open spec fn flavor_pass(t: Seq<u8>, pool: Seq<Seq<u8>>, f: Flavor) -> (Seq<u8>, Seq<Seq<u8>>) {
    let t1 = replaced(t, f.name@, tera_of(flavor_name_bytes()));
    let t2 = replaced(t1, f.identifier@, tera_of(flavor_identifier_bytes()));
    colors_pass(t2, pool, f.colors@)
}

/// The passes of all flavors, in palette order.
pub open spec fn flavors_pass(t: Seq<u8>, pool: Seq<Seq<u8>>, flavors: Seq<Flavor>) -> (
    Seq<u8>,
    Seq<Seq<u8>>,
)
    decreases flavors.len(),
{
    if flavors.len() == 0 {
        (t, pool)
    } else {
        let r = flavor_pass(t, pool, flavors[0]);
        flavors_pass(r.0, r.1, flavors.skip(1))
    }
}

/// The whole conversion: the rewritten text and the literals that
/// remained unresolved.
pub open spec fn converted(t: Seq<u8>, p: Palette) -> (Seq<u8>, Seq<Seq<u8>>) {
    flavors_pass(t, pool_of(scanned(t)), p.flavors@)
}

/// A diagnostic of the conversion, as data.
pub enum Warning {
    /// A scanned functional literal did not parse as a color.
    InvalidColor { literal: Vec<u8> },
    /// A parsed literal matched no palette color; its first occurrence
    /// in the original text is at the given 1-based line and column.
    UnmatchedColor { literal: Vec<u8>, line: usize, col: usize },
    /// The conversion changed nothing.
    NoChanges,
}

/// The mathematical shape of a warning.
pub enum WarningView {
    Invalid(Seq<u8>),
    Unmatched(Seq<u8>, int, int),
    NoChanges,
}

/// The view of a warning.
pub open spec fn warning_view(w: Warning) -> WarningView {
    match w {
        Warning::InvalidColor { literal } => WarningView::Invalid(literal@),
        Warning::UnmatchedColor { literal, line, col } => WarningView::Unmatched(
            literal@,
            line as int,
            col as int,
        ),
        Warning::NoChanges => WarningView::NoChanges,
    }
}

/// The warning an unresolved literal earns: its text and the line and
/// column of its first occurrence in the original text.
pub open spec fn unmatched_warning(t: Seq<u8>, l: Seq<u8>) -> WarningView {
    let p = first_match_from(t, l, 0)->0;
    WarningView::Unmatched(l, line_of(t, p), col_of(t, p))
}

/// All diagnostics of a conversion: each unparsable literal in scan
/// order, then each unresolved literal with its location, then a note
/// when the text came through unchanged.
pub open spec fn convert_warnings(t: Seq<u8>, p: Palette) -> Seq<WarningView> {
    let invalid = invalid_of(scanned(t)).map_values(|l: Seq<u8>| WarningView::Invalid(l));
    let out = converted(t, p);
    let unmatched = out.1.map_values(|l: Seq<u8>| unmatched_warning(t, l));
    invalid + unmatched + if out.0 == t {
        seq![WarningView::NoChanges]
    } else {
        Seq::empty()
    }
}

/// The result of a conversion: the rewritten text and its diagnostics.
pub struct Conversion {
    /// The rewritten text.
    pub text: Vec<u8>,
    /// The diagnostics, in order.
    pub warnings: Vec<Warning>,
}

/// Applies one color's functional pass to the working text and pool.
fn apply_func_pass(t: Vec<u8>, pool: Vec<ParsedLiteral>, c: &Color) -> (r: (
    Vec<u8>,
    Vec<ParsedLiteral>,
))
    requires
        pool_ok(pool@),
    ensures
        r.0@ == func_pass(t@, pool_texts(pool@), *c).0,
        pool_texts(r.1@) == func_pass(t@, pool_texts(pool@), *c).1,
        pool_ok(r.1@),
{
    let ghost goal = func_pass(t@, pool_texts(pool@), *c);
    let mut cur = t;
    let mut pending = pool;
    let mut kept: Vec<ParsedLiteral> = Vec::new();
    while pending.len() > 0
        invariant
            pool_ok(pending@),
            pool_ok(kept@),
            goal.0 == func_pass(cur@, pool_texts(pending@), *c).0,
            goal.1 == pool_texts(kept@) + func_pass(cur@, pool_texts(pending@), *c).1,
        decreases pending.len(),
    {
        let ghost pend0 = pending@;
        let entry = pending.remove(0);
        proof {
            assert(pend0.remove(0) =~= pend0.skip(1));
            assert(pool_texts(pend0.skip(1)) =~= pool_texts(pend0).skip(1));
            assert(pool_texts(pend0)[0] == entry.text@);
        }
        if literal_matches_color(c, &entry) {
            let ph = build_func_placeholder(
                &c.identifier,
                literal_opacity(&entry),
                is_hsl_literal(&entry.text),
            );
            proof {
                assert(ph@ == func_placeholder_for(*c, entry.text@));
            }
            let next = replace_all(&cur, &entry.text, &ph);
            cur = next;
        } else {
            proof {
                let rest = func_pass(cur@, pool_texts(pend0).skip(1), *c);
                assert(func_pass(cur@, pool_texts(pend0), *c).1 == seq![entry.text@] + rest.1);
                assert(pool_texts(kept@.push(entry)) =~= pool_texts(kept@) + seq![entry.text@]);
                assert(pool_texts(kept@) + (seq![entry.text@] + rest.1) =~= (pool_texts(kept@)
                    + seq![entry.text@]) + rest.1);
            }
            kept.push(entry);
        }
    }
    proof {
        assert(pool_texts(pending@) =~= Seq::<Seq<u8>>::empty());
        assert(func_pass(cur@, pool_texts(pending@), *c).0 == cur@);
        assert(func_pass(cur@, pool_texts(pending@), *c).1 =~= Seq::<Seq<u8>>::empty());
        assert(goal.1 =~= pool_texts(kept@));
    }
    (cur, kept)
}

/// Applies one color's whole pass.
fn apply_color_pass(t: Vec<u8>, pool: Vec<ParsedLiteral>, c: &Color) -> (r: (
    Vec<u8>,
    Vec<ParsedLiteral>,
))
    requires
        pool_ok(pool@),
    ensures
        r.0@ == color_pass(t@, pool_texts(pool@), *c).0,
        pool_texts(r.1@) == color_pass(t@, pool_texts(pool@), *c).1,
        pool_ok(r.1@),
{
    let rep = build_hex_placeholder(&c.identifier);
    let t2 = rewrite_hex(&t, &c.hex, &rep);
    apply_func_pass(t2, pool, c)
}

/// Applies one flavor's pass.
fn apply_flavor_pass(t: Vec<u8>, pool: Vec<ParsedLiteral>, f: &Flavor) -> (r: (
    Vec<u8>,
    Vec<ParsedLiteral>,
))
    requires
        pool_ok(pool@),
    ensures
        r.0@ == flavor_pass(t@, pool_texts(pool@), *f).0,
        pool_texts(r.1@) == flavor_pass(t@, pool_texts(pool@), *f).1,
        pool_ok(r.1@),
{
    let ghost goal = flavor_pass(t@, pool_texts(pool@), *f);
    let phn = build_flavor_name_placeholder();
    let t1 = replace_all(&t, &f.name, &phn);
    let phi = build_flavor_identifier_placeholder();
    let mut cur = replace_all(&t1, &f.identifier, &phi);
    let mut pending = pool;
    let mut ci: usize = 0;
    proof {
        assert(f.colors@.skip(0) =~= f.colors@);
    }
    while ci < f.colors.len()
        invariant
            ci <= f.colors@.len(),
            pool_ok(pending@),
            goal == colors_pass(cur@, pool_texts(pending@), f.colors@.skip(ci as int)),
        decreases f.colors@.len() - ci,
    {
        proof {
            assert(f.colors@.skip(ci as int)[0] == f.colors@[ci as int]);
            assert(f.colors@.skip(ci as int).skip(1) =~= f.colors@.skip(ci + 1));
        }
        let r = apply_color_pass(cur, pending, &f.colors[ci]);
        cur = r.0;
        pending = r.1;
        ci += 1;
    }
    proof {
        assert(f.colors@.skip(f.colors@.len() as int) =~= Seq::<Color>::empty());
    }
    (cur, pending)
}

/// Every literal the functional pass keeps comes from its input pool.
proof fn lemma_func_pass_elems(t: Seq<u8>, pool: Seq<Seq<u8>>, c: Color)
    ensures
        forall|i: int|
            0 <= i < func_pass(t, pool, c).1.len() ==> pool.contains(
                #[trigger] func_pass(t, pool, c).1[i],
            ),
    decreases pool.len(),
{
    if pool.len() == 0 {
    } else if lit_matches_color(c, pool[0]) {
        let rec = func_pass(replaced(t, pool[0], func_placeholder_for(c, pool[0])), pool.skip(1), c);
        lemma_func_pass_elems(replaced(t, pool[0], func_placeholder_for(c, pool[0])), pool.skip(1), c);
        assert forall|i: int| 0 <= i < func_pass(t, pool, c).1.len() implies pool.contains(
            #[trigger] func_pass(t, pool, c).1[i],
        ) by {
            let x = func_pass(t, pool, c).1[i];
            assert(rec.1[i] == x);
            assert(pool.skip(1).contains(x));
            let j = choose|j: int| 0 <= j < pool.skip(1).len() && pool.skip(1)[j] == x;
            assert(pool.skip(1)[j] == pool[j + 1]);
            assert(pool[j + 1] == x);
        }
    } else {
        let rec = func_pass(t, pool.skip(1), c);
        lemma_func_pass_elems(t, pool.skip(1), c);
        assert forall|i: int| 0 <= i < func_pass(t, pool, c).1.len() implies pool.contains(
            #[trigger] func_pass(t, pool, c).1[i],
        ) by {
            let x = func_pass(t, pool, c).1[i];
            if i == 0 {
                assert(pool[0] == x);
            } else {
                assert(x == (seq![pool[0]] + rec.1)[i]);
                assert(rec.1[i - 1] == x);
                assert(pool.skip(1).contains(x));
                let j = choose|j: int| 0 <= j < pool.skip(1).len() && pool.skip(1)[j] == x;
                assert(pool.skip(1)[j] == pool[j + 1]);
                assert(pool[j + 1] == x);
            }
        }
    }
}

/// Every literal the flavor and color passes keep comes from the pool
/// they started with.
proof fn lemma_colors_pass_elems(t: Seq<u8>, pool: Seq<Seq<u8>>, colors: Seq<Color>)
    ensures
        forall|i: int|
            0 <= i < colors_pass(t, pool, colors).1.len() ==> pool.contains(
                #[trigger] colors_pass(t, pool, colors).1[i],
            ),
    decreases colors.len(),
{
    if colors.len() == 0 {
        assert forall|i: int| 0 <= i < pool.len() implies pool.contains(#[trigger] pool[i]) by {
            let x = pool[i];
            assert(pool[i] == x);
            assert(pool.contains(x));
        }
    } else {
        let r = color_pass(t, pool, colors[0]);
        lemma_func_pass_elems(
            hex_rewritten(t, colors[0].hex@, hex_placeholder(colors[0].identifier@)),
            pool,
            colors[0],
        );
        lemma_colors_pass_elems(r.0, r.1, colors.skip(1));
        assert forall|i: int| 0 <= i < colors_pass(t, pool, colors).1.len() implies pool.contains(
            #[trigger] colors_pass(t, pool, colors).1[i],
        ) by {
            let x = colors_pass(t, pool, colors).1[i];
            assert(colors_pass(r.0, r.1, colors.skip(1)).1[i] == x);
            assert(r.1.contains(x));
            let j = choose|j: int| 0 <= j < r.1.len() && r.1[j] == x;
            assert(pool.contains(r.1[j]));
        }
    }
}

/// The same, across all flavors.
proof fn lemma_flavors_pass_elems(t: Seq<u8>, pool: Seq<Seq<u8>>, flavors: Seq<Flavor>)
    ensures
        forall|i: int|
            0 <= i < flavors_pass(t, pool, flavors).1.len() ==> pool.contains(
                #[trigger] flavors_pass(t, pool, flavors).1[i],
            ),
    decreases flavors.len(),
{
    if flavors.len() == 0 {
        assert forall|i: int| 0 <= i < pool.len() implies pool.contains(#[trigger] pool[i]) by {
            let x = pool[i];
            assert(pool[i] == x);
            assert(pool.contains(x));
        }
    } else {
        let f = flavors[0];
        let t1 = replaced(t, f.name@, tera_of(flavor_name_bytes()));
        let t2 = replaced(t1, f.identifier@, tera_of(flavor_identifier_bytes()));
        lemma_colors_pass_elems(t2, pool, f.colors@);
        let r = flavor_pass(t, pool, f);
        lemma_flavors_pass_elems(r.0, r.1, flavors.skip(1));
        assert forall|i: int| 0 <= i < flavors_pass(t, pool, flavors).1.len() implies pool.contains(
            #[trigger] flavors_pass(t, pool, flavors).1[i],
        ) by {
            let x = flavors_pass(t, pool, flavors).1[i];
            assert(flavors_pass(r.0, r.1, flavors.skip(1)).1[i] == x);
            assert(r.1.contains(x));
            let j = choose|j: int| 0 <= j < r.1.len() && r.1[j] == x;
            assert(pool.contains(r.1[j]));
        }
    }
}

/// Every pooled literal is a scanned literal.
proof fn lemma_pool_of_elems(lits: Seq<Seq<u8>>)
    ensures
        forall|i: int|
            0 <= i < pool_of(lits).len() ==> lits.contains(#[trigger] pool_of(lits)[i]),
    decreases lits.len(),
{
    if lits.len() == 0 {
    } else {
        lemma_pool_of_elems(lits.skip(1));
        assert forall|i: int| 0 <= i < pool_of(lits).len() implies lits.contains(
            #[trigger] pool_of(lits)[i],
        ) by {
            let x = pool_of(lits)[i];
            if css_rgba8(lits[0]) is Some && i == 0 {
                assert(lits[0] == x);
            } else {
                let k = if css_rgba8(lits[0]) is Some {
                    i - 1
                } else {
                    i
                };
                assert(pool_of(lits.skip(1))[k] == x);
                let j = choose|j: int| 0 <= j < lits.skip(1).len() && lits.skip(1)[j] == x;
                assert(lits[j + 1] == x);
            }
        }
    }
}

/// For a well-formed color, one hex pass accounts for every occurrence
/// of its hex digits: none survives in any letter case; if one
/// occurred, the text now holds the hex placeholder; a text without
/// occurrences is unchanged; and a second pass changes nothing.
pub proof fn law_hex_substitution(t: Seq<u8>, c: Color)
    requires
        crate::palette::color_wf(c),
    ensures
        !crate::text::ci_contains(
            hex_rewritten(t, c.hex@, hex_placeholder(c.identifier@)),
            c.hex@,
        ),
        crate::text::ci_contains(t, c.hex@) ==> contains_sub(
            hex_rewritten(t, c.hex@, hex_placeholder(c.identifier@)),
            hex_placeholder(c.identifier@),
        ),
        !crate::text::ci_contains(t, c.hex@) ==> hex_rewritten(
            t,
            c.hex@,
            hex_placeholder(c.identifier@),
        ) == t,
        hex_rewritten(
            hex_rewritten(t, c.hex@, hex_placeholder(c.identifier@)),
            c.hex@,
            hex_placeholder(c.identifier@),
        ) == hex_rewritten(t, c.hex@, hex_placeholder(c.identifier@)),
{
    let rep = hex_placeholder(c.identifier@);
    crate::palette::lemma_color_hex_guards(c);
    crate::text::lemma_hex_no_ci(t, c.hex@, rep);
    if crate::text::ci_contains(t, c.hex@) {
        crate::text::lemma_hex_inserts_rep(t, c.hex@, rep);
    } else {
        crate::text::lemma_hex_identity(t, c.hex@, rep);
    }
    crate::text::lemma_hex_idempotent(t, c.hex@, rep);
}

/// A functional literal whose parsed red, green and blue exactly equal
/// a color's, with full opacity, matches that color, and its
/// placeholder is the color's identifier followed by the bare
/// `css_rgb` filter.
pub proof fn law_exact_rgb_match(c: Color, l: Seq<u8>)
    requires
        css_rgba8(l) == Some((c.r, c.g, c.b, 255u8)),
        !lit_is_hsl(l),
    ensures
        lit_matches_color(c, l),
        func_placeholder_for(c, l) == tera_of(
            c.identifier@ + crate::rewrite::css_filter_bytes() + crate::rewrite::family_bytes(
                false,
            ),
        ),
{
}

/// A functional literal whose parsed red, green and blue exactly equal
/// a color's, with alpha 128, matches that color, and its placeholder
/// carries `mod(opacity=0.50)` before the `css_rgba` filter.
pub proof fn law_half_opacity_match(c: Color, l: Seq<u8>)
    requires
        css_rgba8(l) == Some((c.r, c.g, c.b, 128u8)),
        !lit_is_hsl(l),
    ensures
        lit_matches_color(c, l),
        crate::rewrite::opacity_dec_bytes(128) == seq![48u8, 46u8, 53u8, 48u8],
        func_placeholder_for(c, l) == tera_of(
            c.identifier@ + (crate::rewrite::mod_open_bytes() + seq![48u8, 46u8, 53u8, 48u8]
                + crate::rewrite::mod_close_bytes() + crate::rewrite::css_filter_bytes()
                + crate::rewrite::family_bytes(false) + seq![97u8]),
    ),
{
    assert(crate::rewrite::opacity_hundredths(128) == 50);
    assert(crate::rewrite::opacity_dec_bytes(128) =~= seq![48u8, 46u8, 53u8, 48u8]);
    assert(crate::rewrite::filter_suffix(128, false) == crate::rewrite::mod_open_bytes() + seq![
        48u8,
        46u8,
        53u8,
        48u8,
    ] + crate::rewrite::mod_close_bytes() + crate::rewrite::css_filter_bytes()
        + crate::rewrite::family_bytes(false) + seq![97u8]);
}

/// An HSL-family literal whose derived hue, saturation and lightness
/// all lie within tolerance of a color's matches that color even when
/// its bytes differ from the color's, and its placeholder carries an
/// HSL-family filter.
pub proof fn law_hsl_tolerance_match(c: Color, l: Seq<u8>, r: u8, g: u8, b: u8, a: u8)
    requires
        css_rgba8(l) == Some((r, g, b, a)),
        lit_is_hsl(l),
        crate::csscolor::hsl_component_close(c.h100 as int, crate::csscolor::rgb_hsl100(r, g, b).0),
        crate::csscolor::hsl_component_close(c.s100 as int, crate::csscolor::rgb_hsl100(r, g, b).1),
        crate::csscolor::hsl_component_close(c.l100 as int, crate::csscolor::rgb_hsl100(r, g, b).2),
    ensures
        lit_matches_color(c, l),
        func_placeholder_for(c, l) == tera_of(
            c.identifier@ + crate::rewrite::filter_suffix(a, true),
        ),
{
}

/// A matched literal is replaced throughout the text by its placeholder
/// and leaves the pending pool.
pub proof fn law_matched_literal_replaced(t: Seq<u8>, l: Seq<u8>, c: Color)
    requires
        lit_matches_color(c, l),
    ensures
        func_pass(t, seq![l], c).0 == replaced(t, l, func_placeholder_for(c, l)),
        func_pass(t, seq![l], c).1 == Seq::<Seq<u8>>::empty(),
{
    let ph = func_placeholder_for(c, l);
    assert(seq![l][0] == l);
    assert(seq![l].skip(1) =~= Seq::<Seq<u8>>::empty());
    assert(func_pass(t, seq![l], c) == func_pass(replaced(t, l, ph), Seq::<Seq<u8>>::empty(), c));
    assert(func_pass(replaced(t, l, ph), Seq::<Seq<u8>>::empty(), c) == (
        replaced(t, l, ph),
        Seq::<Seq<u8>>::empty(),
    ));
}

/// A pending literal that a color does not match stays in the pool.
proof fn lemma_func_pass_keeps(t: Seq<u8>, pool: Seq<Seq<u8>>, c: Color, l: Seq<u8>)
    requires
        pool.contains(l),
        !lit_matches_color(c, l),
    ensures
        func_pass(t, pool, c).1.contains(l),
    decreases pool.len(),
{
    if pool.len() == 0 {
    } else if pool[0] == l {
        assert(!lit_matches_color(c, pool[0]));
        let r = func_pass(t, pool.skip(1), c);
        assert(func_pass(t, pool, c).1[0] == l);
    } else {
        let j = choose|j: int| 0 <= j < pool.len() && pool[j] == l;
        assert(pool.skip(1)[j - 1] == l);
        assert(pool.skip(1).contains(l));
        if lit_matches_color(c, pool[0]) {
            lemma_func_pass_keeps(
                replaced(t, pool[0], func_placeholder_for(c, pool[0])),
                pool.skip(1),
                c,
                l,
            );
        } else {
            lemma_func_pass_keeps(t, pool.skip(1), c, l);
            let r = func_pass(t, pool.skip(1), c);
            let k = choose|k: int| 0 <= k < r.1.len() && r.1[k] == l;
            assert(func_pass(t, pool, c).1[k + 1] == l);
        }
    }
}

/// A pending literal that no color of any flavor matches is still
/// pending after every pass.
proof fn lemma_colors_pass_keeps(t: Seq<u8>, pool: Seq<Seq<u8>>, colors: Seq<Color>, l: Seq<u8>)
    requires
        pool.contains(l),
        forall|ci: int| 0 <= ci < colors.len() ==> !lit_matches_color(#[trigger] colors[ci], l),
    ensures
        colors_pass(t, pool, colors).1.contains(l),
    decreases colors.len(),
{
    if colors.len() == 0 {
    } else {
        let r = color_pass(t, pool, colors[0]);
        lemma_func_pass_keeps(
            hex_rewritten(t, colors[0].hex@, hex_placeholder(colors[0].identifier@)),
            pool,
            colors[0],
            l,
        );
        assert(forall|ci: int|
            0 <= ci < colors.skip(1).len() ==> !lit_matches_color(
                #[trigger] colors.skip(1)[ci],
                l,
            ));
        lemma_colors_pass_keeps(r.0, r.1, colors.skip(1), l);
    }
}

/// A scanned literal that parses but matches no color of any flavor is
/// reported: it stays pending through the whole iteration, and the
/// diagnostics cite it with the line and column of its first occurrence
/// in the original text.
pub proof fn law_unmatched_literal_reported(t: Seq<u8>, p: Palette, l: Seq<u8>)
    requires
        pool_of(scanned(t)).contains(l),
        forall|fi: int, ci: int|
            0 <= fi < p.flavors@.len() && 0 <= ci < p.flavors@[fi].colors@.len()
                ==> !lit_matches_color(#[trigger] p.flavors@[fi].colors@[ci], l),
    ensures
        converted(t, p).1.contains(l),
        convert_warnings(t, p).contains(unmatched_warning(t, l)),
{
    lemma_flavors_pass_keeps(t, pool_of(scanned(t)), p.flavors@, l);
    let leftover = converted(t, p).1;
    let j = choose|j: int| 0 <= j < leftover.len() && leftover[j] == l;
    let invalid = invalid_of(scanned(t)).map_values(|l2: Seq<u8>| WarningView::Invalid(l2));
    let unmatched = leftover.map_values(|l2: Seq<u8>| unmatched_warning(t, l2));
    assert(unmatched[j] == unmatched_warning(t, l));
    assert(convert_warnings(t, p)[invalid.len() + j] == unmatched_warning(t, l));
}

/// The same retention, across all flavors.
proof fn lemma_flavors_pass_keeps(t: Seq<u8>, pool: Seq<Seq<u8>>, flavors: Seq<Flavor>, l: Seq<u8>)
    requires
        pool.contains(l),
        forall|fi: int, ci: int|
            0 <= fi < flavors.len() && 0 <= ci < flavors[fi].colors@.len() ==> !lit_matches_color(
                #[trigger] flavors[fi].colors@[ci],
                l,
            ),
    ensures
        flavors_pass(t, pool, flavors).1.contains(l),
    decreases flavors.len(),
{
    if flavors.len() == 0 {
    } else {
        let f = flavors[0];
        let t1 = replaced(t, f.name@, tera_of(flavor_name_bytes()));
        let t2 = replaced(t1, f.identifier@, tera_of(flavor_identifier_bytes()));
        assert(forall|ci: int|
            0 <= ci < f.colors@.len() ==> !lit_matches_color(#[trigger] f.colors@[ci], l));
        lemma_colors_pass_keeps(t2, pool, f.colors@, l);
        let r = flavor_pass(t, pool, f);
        assert(forall|fi: int, ci: int|
            0 <= fi < flavors.skip(1).len() && 0 <= ci < flavors.skip(1)[fi].colors@.len()
                ==> !lit_matches_color(#[trigger] flavors.skip(1)[fi].colors@[ci], l));
        lemma_flavors_pass_keeps(r.0, r.1, flavors.skip(1), l);
    }
}

/// A well-formed hex pattern: at least three lowercase hex digits.
/// Palette hex fields hold six.
pub open spec fn hex_pattern(hx: Seq<u8>) -> bool {
    &&& hx.len() >= 3
    &&& forall|j: int| 0 <= j < hx.len() ==> crate::text::is_lower_hex(hx[j])
}

/// No placeholder the conversion can build for this palette contains
/// the hex digits `hx`, so no replacement can reintroduce them.
pub open spec fn palette_free_of(p: Palette, hx: Seq<u8>) -> bool {
    &&& forall|fi: int, ci: int|
        0 <= fi < p.flavors@.len() && 0 <= ci < p.flavors@[fi].colors@.len()
            ==> !crate::text::ci_contains(
            hex_placeholder(#[trigger] p.flavors@[fi].colors@[ci].identifier@),
            hx,
        )
    &&& forall|fi: int, ci: int, op: u8, hsl: bool|
        0 <= fi < p.flavors@.len() && 0 <= ci < p.flavors@[fi].colors@.len()
            ==> !crate::text::ci_contains(
            #[trigger] func_placeholder(p.flavors@[fi].colors@[ci].identifier@, op, hsl),
            hx,
        )
}

/// The fixed flavor placeholders never hold three hex digits in a row,
/// so they are free of every hex pattern.
proof fn lemma_flavor_placeholders_free(hx: Seq<u8>)
    requires
        hex_pattern(hx),
    ensures
        !crate::text::ci_contains(tera_of(flavor_name_bytes()), hx),
        !crate::text::ci_contains(tera_of(flavor_identifier_bytes()), hx),
{
    let r1 = tera_of(flavor_name_bytes());
    let r2 = tera_of(flavor_identifier_bytes());
    assert(r1.len() == 17);
    assert(r2.len() == 23);
    assert forall|q: int| !crate::text::ci_match_at(r1, hx, q) by {
        if crate::text::ci_match_at(r1, hx, q) {
            assert(0 <= q && q + 3 <= 17);
            let s: int = if q <= 2 {
                2
            } else if q <= 4 {
                4
            } else if q <= 6 {
                6
            } else if q <= 9 {
                q + 1
            } else if q <= 10 {
                10
            } else if q <= 12 {
                12
            } else {
                14
            };
            assert(q <= s < q + 3);
            assert(!crate::text::is_lower_hex(crate::text::to_lower(r1[s])));
            assert(crate::text::to_lower(r1[s]) == crate::text::to_lower(hx[s - q]));
            assert(crate::text::is_lower_hex(hx[s - q]));
            assert(crate::text::to_lower(hx[s - q]) == hx[s - q]);
        }
    }
    assert forall|q: int| !crate::text::ci_match_at(r2, hx, q) by {
        if crate::text::ci_match_at(r2, hx, q) {
            assert(0 <= q && q + 3 <= 23);
            let s: int = if q <= 2 {
                2
            } else if q <= 4 {
                4
            } else if q <= 6 {
                6
            } else if q <= 9 {
                q + 1
            } else if q <= 10 {
                10
            } else if q <= 13 {
                13
            } else if q <= 15 {
                15
            } else if q <= 17 {
                17
            } else if q <= 19 {
                19
            } else {
                20
            };
            assert(q <= s < q + 3);
            assert(!crate::text::is_lower_hex(crate::text::to_lower(r2[s])));
            assert(crate::text::to_lower(r2[s]) == crate::text::to_lower(hx[s - q]));
            assert(crate::text::is_lower_hex(hx[s - q]));
            assert(crate::text::to_lower(hx[s - q]) == hx[s - q]);
        }
    }
}

/// Placeholders are template expressions, so they begin with `{` and
/// end with `}` and satisfy the junction guard for any hex pattern
/// they do not contain.
proof fn lemma_tera_guard(inner: Seq<u8>, hx: Seq<u8>)
    requires
        !crate::text::ci_contains(tera_of(inner), hx),
    ensures
        crate::text::keeps_free_guard(tera_of(inner), hx),
{
    let r = tera_of(inner);
    assert(r[0] == 123u8);
    assert(r[r.len() - 1] == 125u8);
    assert(crate::text::to_lower(123u8) == 123u8);
    assert(crate::text::to_lower(125u8) == 125u8);
}

/// A color's functional pass keeps the text free of `hx` when the
/// color's possible placeholders are.
proof fn lemma_func_pass_keeps_free(t: Seq<u8>, pool: Seq<Seq<u8>>, c: Color, hx: Seq<u8>)
    requires
        hex_pattern(hx),
        !crate::text::ci_contains(t, hx),
        forall|op: u8, hsl: bool|
            !crate::text::ci_contains(#[trigger] func_placeholder(c.identifier@, op, hsl), hx),
    ensures
        !crate::text::ci_contains(func_pass(t, pool, c).0, hx),
    decreases pool.len(),
{
    if pool.len() == 0 {
    } else if lit_matches_color(c, pool[0]) {
        let rep = func_placeholder_for(c, pool[0]);
        assert(!crate::text::ci_contains(rep, hx));
        lemma_tera_guard(c.identifier@ + crate::rewrite::filter_suffix(
            lit_opacity(pool[0]),
            lit_is_hsl(pool[0]),
        ), hx);
        crate::text::lemma_replaced_keeps_free(t, pool[0], rep, hx);
        lemma_func_pass_keeps_free(replaced(t, pool[0], rep), pool.skip(1), c, hx);
    } else {
        lemma_func_pass_keeps_free(t, pool.skip(1), c, hx);
    }
}

/// One color's whole pass keeps the text free of `hx` when the color's
/// placeholders are.
proof fn lemma_color_pass_keeps_free(t: Seq<u8>, pool: Seq<Seq<u8>>, c: Color, hx: Seq<u8>)
    requires
        hex_pattern(hx),
        !crate::text::ci_contains(t, hx),
        !crate::text::ci_contains(hex_placeholder(c.identifier@), hx),
        forall|op: u8, hsl: bool|
            !crate::text::ci_contains(#[trigger] func_placeholder(c.identifier@, op, hsl), hx),
    ensures
        !crate::text::ci_contains(color_pass(t, pool, c).0, hx),
{
    lemma_tera_guard(c.identifier@ + crate::rewrite::dot_hex_bytes(), hx);
    crate::text::lemma_hex_rewritten_keeps_free(t, c.hex@, hex_placeholder(c.identifier@), hx);
    lemma_func_pass_keeps_free(
        hex_rewritten(t, c.hex@, hex_placeholder(c.identifier@)),
        pool,
        c,
        hx,
    );
}

/// A run of color passes keeps the text free of `hx` when all their
/// placeholders are.
proof fn lemma_colors_pass_keeps_free(t: Seq<u8>, pool: Seq<Seq<u8>>, colors: Seq<Color>, hx: Seq<u8>)
    requires
        hex_pattern(hx),
        !crate::text::ci_contains(t, hx),
        forall|ci: int|
            0 <= ci < colors.len() ==> !crate::text::ci_contains(
                hex_placeholder(#[trigger] colors[ci].identifier@),
                hx,
            ),
        forall|ci: int, op: u8, hsl: bool|
            0 <= ci < colors.len() ==> !crate::text::ci_contains(
                #[trigger] func_placeholder(colors[ci].identifier@, op, hsl),
                hx,
            ),
    ensures
        !crate::text::ci_contains(colors_pass(t, pool, colors).0, hx),
    decreases colors.len(),
{
    if colors.len() == 0 {
    } else {
        let r = color_pass(t, pool, colors[0]);
        lemma_color_pass_keeps_free(t, pool, colors[0], hx);
        assert(forall|ci: int|
            0 <= ci < colors.skip(1).len() ==> !crate::text::ci_contains(
                hex_placeholder(#[trigger] colors.skip(1)[ci].identifier@),
                hx,
            ));
        assert(forall|ci: int, op: u8, hsl: bool|
            0 <= ci < colors.skip(1).len() ==> !crate::text::ci_contains(
                #[trigger] func_placeholder(colors.skip(1)[ci].identifier@, op, hsl),
                hx,
            ));
        lemma_colors_pass_keeps_free(r.0, r.1, colors.skip(1), hx);
    }
}

/// A run of flavor passes keeps the text free of `hx` when the
/// palette's placeholders are.
proof fn lemma_flavors_pass_keeps_free(t: Seq<u8>, pool: Seq<Seq<u8>>, flavors: Seq<Flavor>, hx: Seq<
    u8,
>)
    requires
        hex_pattern(hx),
        !crate::text::ci_contains(t, hx),
        forall|fi: int, ci: int|
            0 <= fi < flavors.len() && 0 <= ci < flavors[fi].colors@.len()
                ==> !crate::text::ci_contains(
                hex_placeholder(#[trigger] flavors[fi].colors@[ci].identifier@),
                hx,
            ),
        forall|fi: int, ci: int, op: u8, hsl: bool|
            0 <= fi < flavors.len() && 0 <= ci < flavors[fi].colors@.len()
                ==> !crate::text::ci_contains(
                #[trigger] func_placeholder(flavors[fi].colors@[ci].identifier@, op, hsl),
                hx,
            ),
    ensures
        !crate::text::ci_contains(flavors_pass(t, pool, flavors).0, hx),
    decreases flavors.len(),
{
    if flavors.len() == 0 {
    } else {
        let f = flavors[0];
        let t1 = replaced(t, f.name@, tera_of(flavor_name_bytes()));
        let t2 = replaced(t1, f.identifier@, tera_of(flavor_identifier_bytes()));
        lemma_flavor_placeholders_free(hx);
        lemma_tera_guard(flavor_name_bytes(), hx);
        lemma_tera_guard(flavor_identifier_bytes(), hx);
        crate::text::lemma_replaced_keeps_free(t, f.name@, tera_of(flavor_name_bytes()), hx);
        crate::text::lemma_replaced_keeps_free(
            t1,
            f.identifier@,
            tera_of(flavor_identifier_bytes()),
            hx,
        );
        assert(forall|ci: int|
            0 <= ci < f.colors@.len() ==> !crate::text::ci_contains(
                hex_placeholder(#[trigger] f.colors@[ci].identifier@),
                hx,
            ));
        assert(forall|ci: int, op: u8, hsl: bool|
            0 <= ci < f.colors@.len() ==> !crate::text::ci_contains(
                #[trigger] func_placeholder(f.colors@[ci].identifier@, op, hsl),
                hx,
            ));
        lemma_colors_pass_keeps_free(t2, pool, f.colors@, hx);
        let r = flavor_pass(t, pool, f);
        assert(forall|fi: int, ci: int|
            0 <= fi < flavors.skip(1).len() && 0 <= ci < flavors.skip(1)[fi].colors@.len()
                ==> !crate::text::ci_contains(
                hex_placeholder(#[trigger] flavors.skip(1)[fi].colors@[ci].identifier@),
                hx,
            ));
        assert(forall|fi: int, ci: int, op: u8, hsl: bool|
            0 <= fi < flavors.skip(1).len() && 0 <= ci < flavors.skip(1)[fi].colors@.len()
                ==> !crate::text::ci_contains(
                #[trigger] func_placeholder(flavors.skip(1)[fi].colors@[ci].identifier@, op, hsl),
                hx,
            ));
        lemma_flavors_pass_keeps_free(r.0, r.1, flavors.skip(1), hx);
    }
}

/// Once the pass of the color at index `ci` has run, its hex digits
/// are gone from the text and stay gone through the passes that
/// follow.
proof fn lemma_colors_pass_establishes(t: Seq<u8>, pool: Seq<Seq<u8>>, colors: Seq<Color>, ci: int)
    requires
        0 <= ci < colors.len(),
        hex_pattern(colors[ci].hex@),
        forall|k: int|
            0 <= k < colors.len() ==> !crate::text::ci_contains(
                hex_placeholder(#[trigger] colors[k].identifier@),
                colors[ci].hex@,
            ),
        forall|k: int, op: u8, hsl: bool|
            0 <= k < colors.len() ==> !crate::text::ci_contains(
                #[trigger] func_placeholder(colors[k].identifier@, op, hsl),
                colors[ci].hex@,
            ),
    ensures
        !crate::text::ci_contains(colors_pass(t, pool, colors).0, colors[ci].hex@),
    decreases ci,
{
    let hx = colors[ci].hex@;
    let r = color_pass(t, pool, colors[0]);
    if ci == 0 {
        let rep = hex_placeholder(colors[0].identifier@);
        lemma_tera_guard(colors[0].identifier@ + crate::rewrite::dot_hex_bytes(), hx);
        crate::text::lemma_hex_no_ci(t, hx, rep);
        lemma_func_pass_keeps_free(hex_rewritten(t, hx, rep), pool, colors[0], hx);
        assert(forall|k: int|
            0 <= k < colors.skip(1).len() ==> !crate::text::ci_contains(
                hex_placeholder(#[trigger] colors.skip(1)[k].identifier@),
                hx,
            ));
        assert(forall|k: int, op: u8, hsl: bool|
            0 <= k < colors.skip(1).len() ==> !crate::text::ci_contains(
                #[trigger] func_placeholder(colors.skip(1)[k].identifier@, op, hsl),
                hx,
            ));
        lemma_colors_pass_keeps_free(r.0, r.1, colors.skip(1), hx);
    } else {
        assert(colors.skip(1)[ci - 1] == colors[ci]);
        assert(forall|k: int|
            0 <= k < colors.skip(1).len() ==> !crate::text::ci_contains(
                hex_placeholder(#[trigger] colors.skip(1)[k].identifier@),
                hx,
            ));
        assert(forall|k: int, op: u8, hsl: bool|
            0 <= k < colors.skip(1).len() ==> !crate::text::ci_contains(
                #[trigger] func_placeholder(colors.skip(1)[k].identifier@, op, hsl),
                hx,
            ));
        lemma_colors_pass_establishes(r.0, r.1, colors.skip(1), ci - 1);
    }
}

/// Once the flavor at index `fi` has run, the hex digits of its color
/// at index `ci` are gone from the text and stay gone.
proof fn lemma_flavors_pass_establishes(
    t: Seq<u8>,
    pool: Seq<Seq<u8>>,
    flavors: Seq<Flavor>,
    fi: int,
    ci: int,
)
    requires
        0 <= fi < flavors.len(),
        0 <= ci < flavors[fi].colors@.len(),
        hex_pattern(flavors[fi].colors@[ci].hex@),
        forall|fk: int, k: int|
            0 <= fk < flavors.len() && 0 <= k < flavors[fk].colors@.len()
                ==> !crate::text::ci_contains(
                hex_placeholder(#[trigger] flavors[fk].colors@[k].identifier@),
                flavors[fi].colors@[ci].hex@,
            ),
        forall|fk: int, k: int, op: u8, hsl: bool|
            0 <= fk < flavors.len() && 0 <= k < flavors[fk].colors@.len()
                ==> !crate::text::ci_contains(
                #[trigger] func_placeholder(flavors[fk].colors@[k].identifier@, op, hsl),
                flavors[fi].colors@[ci].hex@,
            ),
    ensures
        !crate::text::ci_contains(flavors_pass(t, pool, flavors).0, flavors[fi].colors@[ci].hex@),
    decreases fi,
{
    let hx = flavors[fi].colors@[ci].hex@;
    let f = flavors[0];
    let t1 = replaced(t, f.name@, tera_of(flavor_name_bytes()));
    let t2 = replaced(t1, f.identifier@, tera_of(flavor_identifier_bytes()));
    let r = flavor_pass(t, pool, f);
    if fi == 0 {
        assert(forall|k: int|
            0 <= k < f.colors@.len() ==> !crate::text::ci_contains(
                hex_placeholder(#[trigger] f.colors@[k].identifier@),
                hx,
            ));
        assert(forall|k: int, op: u8, hsl: bool|
            0 <= k < f.colors@.len() ==> !crate::text::ci_contains(
                #[trigger] func_placeholder(f.colors@[k].identifier@, op, hsl),
                hx,
            ));
        lemma_colors_pass_establishes(t2, pool, f.colors@, ci);
        assert(forall|fk: int, k: int|
            0 <= fk < flavors.skip(1).len() && 0 <= k < flavors.skip(1)[fk].colors@.len()
                ==> !crate::text::ci_contains(
                hex_placeholder(#[trigger] flavors.skip(1)[fk].colors@[k].identifier@),
                hx,
            ));
        assert(forall|fk: int, k: int, op: u8, hsl: bool|
            0 <= fk < flavors.skip(1).len() && 0 <= k < flavors.skip(1)[fk].colors@.len()
                ==> !crate::text::ci_contains(
                #[trigger] func_placeholder(flavors.skip(1)[fk].colors@[k].identifier@, op, hsl),
                hx,
            ));
        lemma_flavors_pass_keeps_free(r.0, r.1, flavors.skip(1), hx);
    } else {
        assert(flavors.skip(1)[fi - 1] == flavors[fi]);
        assert(forall|fk: int, k: int|
            0 <= fk < flavors.skip(1).len() && 0 <= k < flavors.skip(1)[fk].colors@.len()
                ==> !crate::text::ci_contains(
                hex_placeholder(#[trigger] flavors.skip(1)[fk].colors@[k].identifier@),
                hx,
            ));
        assert(forall|fk: int, k: int, op: u8, hsl: bool|
            0 <= fk < flavors.skip(1).len() && 0 <= k < flavors.skip(1)[fk].colors@.len()
                ==> !crate::text::ci_contains(
                #[trigger] func_placeholder(flavors.skip(1)[fk].colors@[k].identifier@, op, hsl),
                hx,
            ));
        lemma_flavors_pass_establishes(r.0, r.1, flavors.skip(1), fi - 1, ci);
    }
}

/// After a whole conversion, a palette color's hex digits no longer
/// occur anywhere in the output, in any letter case — provided no
/// placeholder the palette can produce carries those digits itself, so
/// that no later replacement can write them back.
pub proof fn law_hex_eliminated(t: Seq<u8>, p: Palette, fi: int, ci: int)
    requires
        0 <= fi < p.flavors@.len(),
        0 <= ci < p.flavors@[fi].colors@.len(),
        hex_pattern(p.flavors@[fi].colors@[ci].hex@),
        palette_free_of(p, p.flavors@[fi].colors@[ci].hex@),
    ensures
        !crate::text::ci_contains(converted(t, p).0, p.flavors@[fi].colors@[ci].hex@),
{
    lemma_flavors_pass_establishes(t, pool_of(scanned(t)), p.flavors@, fi, ci);
}

/// A color's functional pass changes nothing when no pending literal
/// matches the color.
proof fn lemma_func_pass_identity(t: Seq<u8>, pool: Seq<Seq<u8>>, c: Color)
    requires
        forall|i: int| 0 <= i < pool.len() ==> !lit_matches_color(c, #[trigger] pool[i]),
    ensures
        func_pass(t, pool, c).0 == t,
        func_pass(t, pool, c).1 == pool,
    decreases pool.len(),
{
    if pool.len() == 0 {
        assert(func_pass(t, pool, c).1 =~= pool);
    } else {
        assert(!lit_matches_color(c, pool[0]));
        assert(forall|i: int|
            0 <= i < pool.skip(1).len() ==> !lit_matches_color(c, #[trigger] pool.skip(1)[i]));
        lemma_func_pass_identity(t, pool.skip(1), c);
        assert(func_pass(t, pool, c).1 =~= pool);
    }
}

/// A flavor's colors change nothing when none of their hex digits
/// occur in the text and no pending literal matches any of them.
proof fn lemma_colors_pass_identity(t: Seq<u8>, pool: Seq<Seq<u8>>, colors: Seq<Color>)
    requires
        forall|ci: int|
            0 <= ci < colors.len() ==> !crate::text::ci_contains(t, #[trigger] colors[ci].hex@),
        forall|ci: int, i: int|
            0 <= ci < colors.len() && 0 <= i < pool.len() ==> !lit_matches_color(
                #[trigger] colors[ci],
                #[trigger] pool[i],
            ),
    ensures
        colors_pass(t, pool, colors).0 == t,
        colors_pass(t, pool, colors).1 == pool,
    decreases colors.len(),
{
    if colors.len() == 0 {
    } else {
        crate::text::lemma_hex_identity(t, colors[0].hex@, hex_placeholder(colors[0].identifier@));
        assert(forall|i: int|
            0 <= i < pool.len() ==> !lit_matches_color(colors[0], #[trigger] pool[i]));
        lemma_func_pass_identity(t, pool, colors[0]);
        assert(color_pass(t, pool, colors[0]) == (t, pool));
        assert(forall|ci: int|
            0 <= ci < colors.skip(1).len() ==> !crate::text::ci_contains(
                t,
                #[trigger] colors.skip(1)[ci].hex@,
            ));
        assert(forall|ci: int, i: int|
            0 <= ci < colors.skip(1).len() && 0 <= i < pool.len() ==> !lit_matches_color(
                #[trigger] colors.skip(1)[ci],
                #[trigger] pool[i],
            ));
        lemma_colors_pass_identity(t, pool, colors.skip(1));
    }
}

/// The whole iteration changes nothing when no flavor token, no color
/// hex and no matching literal occurs.
proof fn lemma_flavors_pass_identity(t: Seq<u8>, pool: Seq<Seq<u8>>, flavors: Seq<Flavor>)
    requires
        forall|fi: int|
            0 <= fi < flavors.len() ==> !contains_sub(t, #[trigger] flavors[fi].name@)
                && !contains_sub(t, flavors[fi].identifier@),
        forall|fi: int, ci: int|
            0 <= fi < flavors.len() && 0 <= ci < flavors[fi].colors@.len()
                ==> !crate::text::ci_contains(t, #[trigger] flavors[fi].colors@[ci].hex@),
        forall|fi: int, ci: int, i: int|
            0 <= fi < flavors.len() && 0 <= ci < flavors[fi].colors@.len() && 0 <= i < pool.len()
                ==> !lit_matches_color(#[trigger] flavors[fi].colors@[ci], #[trigger] pool[i]),
    ensures
        flavors_pass(t, pool, flavors).0 == t,
        flavors_pass(t, pool, flavors).1 == pool,
    decreases flavors.len(),
{
    if flavors.len() == 0 {
    } else {
        let f = flavors[0];
        crate::text::lemma_replaced_identity(t, f.name@, tera_of(flavor_name_bytes()));
        crate::text::lemma_replaced_identity(t, f.identifier@, tera_of(flavor_identifier_bytes()));
        assert(forall|ci: int|
            0 <= ci < f.colors@.len() ==> !crate::text::ci_contains(
                t,
                #[trigger] f.colors@[ci].hex@,
            ));
        assert(forall|ci: int, i: int|
            0 <= ci < f.colors@.len() && 0 <= i < pool.len() ==> !lit_matches_color(
                #[trigger] f.colors@[ci],
                #[trigger] pool[i],
            ));
        lemma_colors_pass_identity(t, pool, f.colors@);
        assert(flavor_pass(t, pool, f) == (t, pool));
        assert(forall|fi: int|
            0 <= fi < flavors.skip(1).len() ==> !contains_sub(
                t,
                #[trigger] flavors.skip(1)[fi].name@,
            ) && !contains_sub(t, flavors.skip(1)[fi].identifier@));
        assert(forall|fi: int, ci: int|
            0 <= fi < flavors.skip(1).len() && 0 <= ci < flavors.skip(1)[fi].colors@.len()
                ==> !crate::text::ci_contains(t, #[trigger] flavors.skip(1)[fi].colors@[ci].hex@));
        assert(forall|fi: int, ci: int, i: int|
            0 <= fi < flavors.skip(1).len() && 0 <= ci < flavors.skip(1)[fi].colors@.len() && 0 <= i
                < pool.len() ==> !lit_matches_color(
                #[trigger] flavors.skip(1)[fi].colors@[ci],
                #[trigger] pool[i],
            ));
        lemma_flavors_pass_identity(t, pool, flavors.skip(1));
    }
}

/// A text in which no scanned literal resolves against the palette, no
/// color's hex digits occur in any letter case, and no flavor token
/// occurs, is a fixed point: the conversion performs no substitution on
/// it. In particular the conversion's own output is left alone by a
/// second run whenever it has this shape.
pub proof fn law_unresolvable_text_fixed(t: Seq<u8>, p: Palette)
    requires
        forall|fi: int|
            0 <= fi < p.flavors@.len() ==> !contains_sub(t, #[trigger] p.flavors@[fi].name@)
                && !contains_sub(t, p.flavors@[fi].identifier@),
        forall|fi: int, ci: int|
            0 <= fi < p.flavors@.len() && 0 <= ci < p.flavors@[fi].colors@.len()
                ==> !crate::text::ci_contains(t, #[trigger] p.flavors@[fi].colors@[ci].hex@),
        forall|fi: int, ci: int, i: int|
            0 <= fi < p.flavors@.len() && 0 <= ci < p.flavors@[fi].colors@.len() && 0 <= i
                < pool_of(scanned(t)).len() ==> !lit_matches_color(
                #[trigger] p.flavors@[fi].colors@[ci],
                #[trigger] pool_of(scanned(t))[i],
            ),
    ensures
        converted(t, p).0 == t,
        converted(t, p).1 == pool_of(scanned(t)),
{
    lemma_flavors_pass_identity(t, pool_of(scanned(t)), p.flavors@);
}

/// Converts a stylesheet text against a palette: every literal the
/// palette accounts for becomes a placeholder expression, everything
/// else is preserved, and the diagnostics name what was skipped or
/// never matched.
pub fn convert(contents: Vec<u8>, palette: &Palette) -> (r: Conversion)
    ensures
        r.text@ == converted(contents@, *palette).0,
        r.warnings@.map_values(|w: Warning| warning_view(w)) == convert_warnings(
            contents@,
            *palette,
        ),
{
    let ghost torig = contents@;
    let mut lits = scan_literals(&contents);
    let ghost lits0 = lits@.map_values(|v: Vec<u8>| v@);
    proof {
        assert(lits0 == scanned(torig));
    }
    let mut pool: Vec<ParsedLiteral> = Vec::new();
    let mut warnings: Vec<Warning> = Vec::new();
    while lits.len() > 0
        invariant
            pool_ok(pool@),
            pool_texts(pool@) + pool_of(lits@.map_values(|v: Vec<u8>| v@)) == pool_of(lits0),
            warnings@.map_values(|w: Warning| warning_view(w)) + invalid_of(
                lits@.map_values(|v: Vec<u8>| v@),
            ).map_values(|l: Seq<u8>| WarningView::Invalid(l)) == invalid_of(lits0).map_values(
                |l: Seq<u8>| WarningView::Invalid(l),
            ),
        decreases lits.len(),
    {
        let ghost lv = lits@.map_values(|v: Vec<u8>| v@);
        let l = lits.remove(0);
        proof {
            assert(lv[0] == l@);
            assert(lits@.map_values(|v: Vec<u8>| v@) =~= lv.skip(1));
        }
        match parse_literal(l) {
            Ok(pl) => {
                proof {
                    assert(pool_texts(pool@.push(pl)) =~= pool_texts(pool@) + seq![pl.text@]);
                    assert(pool_of(lv) == seq![lv[0]] + pool_of(lv.skip(1)));
                    assert((pool_texts(pool@) + seq![pl.text@]) + pool_of(lv.skip(1)) =~= pool_texts(
                        pool@,
                    ) + (seq![pl.text@] + pool_of(lv.skip(1))));
                    assert(invalid_of(lv) == invalid_of(lv.skip(1)));
                }
                pool.push(pl);
            },
            Err(text) => {
                proof {
                    assert(pool_of(lv) == pool_of(lv.skip(1)));
                    assert(invalid_of(lv) == seq![lv[0]] + invalid_of(lv.skip(1)));
                    let f = |l2: Seq<u8>| WarningView::Invalid(l2);
                    let wv = |w: Warning| warning_view(w);
                    assert((seq![lv[0]] + invalid_of(lv.skip(1))).map_values(f) =~= seq![
                        WarningView::Invalid(text@),
                    ] + invalid_of(lv.skip(1)).map_values(f));
                    assert(warnings@.push(Warning::InvalidColor { literal: text }).map_values(wv)
                        =~= warnings@.map_values(wv) + seq![WarningView::Invalid(text@)]);
                    assert((warnings@.map_values(wv) + seq![WarningView::Invalid(text@)])
                        + invalid_of(lv.skip(1)).map_values(f) =~= warnings@.map_values(wv) + (seq![
                        WarningView::Invalid(text@),
                    ] + invalid_of(lv.skip(1)).map_values(f)));
                }
                warnings.push(Warning::InvalidColor { literal: text });
            },
        }
    }
    proof {
        assert(lits@.map_values(|v: Vec<u8>| v@) =~= Seq::<Seq<u8>>::empty());
        assert(pool_of(Seq::<Seq<u8>>::empty()) =~= Seq::<Seq<u8>>::empty());
        assert(invalid_of(Seq::<Seq<u8>>::empty()) =~= Seq::<Seq<u8>>::empty());
        assert(pool_texts(pool@) =~= pool_of(lits0));
        assert(warnings@.map_values(|w: Warning| warning_view(w)) =~= invalid_of(lits0).map_values(
            |l: Seq<u8>| WarningView::Invalid(l),
        ));
    }
    let ghost pool0 = pool_texts(pool@);
    let ghost invalid_views = warnings@.map_values(|w: Warning| warning_view(w));
    let n = contents.len();
    let mut t = crate::scan::copy_range(&contents, 0, n);
    let mut pending = pool;
    let mut fi: usize = 0;
    proof {
        assert(t@ =~= torig);
        assert(palette.flavors@.skip(0) =~= palette.flavors@);
    }
    while fi < palette.flavors.len()
        invariant
            fi <= palette.flavors@.len(),
            pool_ok(pending@),
            flavors_pass(torig, pool0, palette.flavors@) == flavors_pass(
                t@,
                pool_texts(pending@),
                palette.flavors@.skip(fi as int),
            ),
        decreases palette.flavors@.len() - fi,
    {
        proof {
            assert(palette.flavors@.skip(fi as int)[0] == palette.flavors@[fi as int]);
            assert(palette.flavors@.skip(fi as int).skip(1) =~= palette.flavors@.skip(fi + 1));
        }
        let r = apply_flavor_pass(t, pending, &palette.flavors[fi]);
        t = r.0;
        pending = r.1;
        fi += 1;
    }
    proof {
        assert(palette.flavors@.skip(palette.flavors@.len() as int) =~= Seq::<Flavor>::empty());
        assert(pool_texts(pending@) == converted(torig, *palette).1);
        assert(t@ == converted(torig, *palette).0);
        lemma_flavors_pass_elems(torig, pool0, palette.flavors@);
        lemma_pool_of_elems(scanned(torig));
        lemma_scanned_in_text(torig, 0);
    }
    let ghost leftover = converted(torig, *palette).1;
    let total = pending.len();
    proof {
        assert forall|i: int| 0 <= i < leftover.len() implies contains_sub(
            torig,
            #[trigger] leftover[i],
        ) by {
            let x = leftover[i];
            assert(flavors_pass(torig, pool0, palette.flavors@).1[i] == x);
            assert(pool0.contains(x));
            let j = choose|j: int| 0 <= j < pool0.len() && pool0[j] == x;
            assert(pool_of(scanned(torig))[j] == x);
            assert(scanned(torig).contains(x));
            let k = choose|k: int| 0 <= k < scanned(torig).len() && scanned(torig)[k] == x;
            assert(contains_sub(torig, crate::scan::scan_from(torig, 0)[k]));
        }
    }
    let mut wi: usize = 0;
    while pending.len() > 0
        invariant
            contents@ == torig,
            n == torig.len(),
            pool_ok(pending@),
            wi + pending@.len() == total,
            total == leftover.len(),
            pool_texts(pending@) =~= leftover.skip(wi as int),
            forall|i: int| 0 <= i < leftover.len() ==> contains_sub(torig, #[trigger] leftover[i]),
            warnings@.map_values(|w: Warning| warning_view(w)) == invalid_views + leftover.take(
                wi as int,
            ).map_values(|l: Seq<u8>| unmatched_warning(torig, l)),
        decreases pending.len(),
    {
        let ghost pend0 = pending@;
        let entry = pending.remove(0);
        proof {
            assert(pend0.remove(0) =~= pend0.skip(1));
            assert(pool_texts(pend0.skip(1)) =~= pool_texts(pend0).skip(1));
            assert(pool_texts(pend0)[0] == entry.text@);
            assert(leftover[wi as int] == entry.text@);
            assert(pool_texts(pending@) =~= leftover.skip(wi + 1));
            assert(contains_sub(torig, entry.text@));
            lemma_contains_first_match(torig, entry.text@, 0);
        }
        let p = match find_first(&contents, &entry.text) {
            Some(p) => p,
            None => {
                proof {
                    assert(false);
                }
                0
            },
        };
        proof {
            if entry.text@.len() > 0 {
                assert(p + entry.text@.len() <= n);
            } else {
                assert(first_match_from(torig, entry.text@, 0) == Some(0int));
            }
        }
        let (line, col) = line_col_at(&contents, p);
        proof {
            let wv = |w: Warning| warning_view(w);
            let uw = |l: Seq<u8>| unmatched_warning(torig, l);
            assert(warnings@.push(
                Warning::UnmatchedColor { literal: entry.text, line, col },
            ).map_values(wv) =~= warnings@.map_values(wv) + seq![
                unmatched_warning(torig, entry.text@),
            ]);
            assert(leftover.take(wi + 1).map_values(uw) =~= leftover.take(wi as int).map_values(uw)
                + seq![unmatched_warning(torig, leftover[wi as int])]);
        }
        warnings.push(Warning::UnmatchedColor { literal: entry.text, line, col });
        wi += 1;
    }
    proof {
        assert(leftover.take(leftover.len() as int) =~= leftover);
    }
    if bytes_eq(&t, &contents) {
        proof {
            let wv = |w: Warning| warning_view(w);
            assert(warnings@.push(Warning::NoChanges).map_values(wv) =~= warnings@.map_values(wv)
                + seq![WarningView::NoChanges]);
        }
        warnings.push(Warning::NoChanges);
    }
    proof {
        assert(warnings@.map_values(|w: Warning| warning_view(w)) =~= convert_warnings(
            torig,
            *palette,
        ));
    }
    Conversion { text: t, warnings }
}

} // verus!
