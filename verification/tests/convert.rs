use purr::csscolor::rgb_to_hsl100;
use purr::palette::{palette_wf_check, Color, Flavor, Palette};
use purr::whiskerify::{convert, Warning};

fn color(identifier: &str, hex: &str, rgb: (u8, u8, u8)) -> Color {
    let (h100, s100, l100) = rgb_to_hsl100(rgb.0, rgb.1, rgb.2);
    Color {
        identifier: identifier.as_bytes().to_vec(),
        hex: hex.as_bytes().to_vec(),
        r: rgb.0,
        g: rgb.1,
        b: rgb.2,
        h100,
        s100,
        l100,
        accent: false,
    }
}

fn mocha_base_palette() -> Palette {
    Palette {
        flavors: vec![Flavor {
            name: "Mocha".as_bytes().to_vec(),
            identifier: "mocha".as_bytes().to_vec(),
            colors: vec![color("base", "1e1e2e", (30, 30, 46))],
        }],
    }
}

fn run(input: &str, palette: &Palette) -> (String, Vec<Warning>) {
    let out = convert(input.as_bytes().to_vec(), palette);
    (String::from_utf8(out.text).unwrap(), out.warnings)
}

#[test]
fn hex_occurrence_becomes_placeholder() {
    let palette = mocha_base_palette();
    let (out, warnings) = run("color: #1E1E2E;", &palette);
    assert_eq!(out, "color: #{{ base.hex }};");
    assert!(!out.to_lowercase().contains("1e1e2e"));
    assert!(warnings.is_empty());
}

#[test]
fn hex_all_case_variants_replaced() {
    let palette = mocha_base_palette();
    let (out, warnings) = run("a #1e1e2e b #1E1E2E c #1e1E2e d", &palette);
    assert_eq!(out, "a #{{ base.hex }} b #{{ base.hex }} c #{{ base.hex }} d");
    assert!(warnings.is_empty());
}

#[test]
fn exact_rgb_match_gets_css_rgb_filter() {
    let palette = mocha_base_palette();
    let (out, warnings) = run("a: rgb(30, 30, 46);", &palette);
    assert_eq!(out, "a: {{ base | css_rgb }};");
    assert!(warnings.is_empty());
}

#[test]
fn half_opacity_gets_mod_filter() {
    let palette = mocha_base_palette();
    let (out, warnings) = run("background: rgba(30, 30, 46, 0.5);", &palette);
    assert_eq!(out, "background: {{ base | mod(opacity=0.50) | css_rgba }};");
    assert!(warnings.is_empty());
}

#[test]
fn quarter_opacity_prints_two_decimals() {
    let palette = mocha_base_palette();
    let (out, _) = run("x: rgba(30, 30, 46, 0.25);", &palette);
    assert_eq!(out, "x: {{ base | mod(opacity=0.25) | css_rgba }};");
    // the two-decimal value is the one standard float formatting prints
    assert_eq!(format!("{:.2}", f32::from(64u8) / 255f32), "0.25");
}

#[test]
fn out_of_range_alpha_is_clamped_to_opaque() {
    // the color parser clamps alpha to one, so an alpha written as 128
    // parses as fully opaque and earns no opacity modifier
    let palette = mocha_base_palette();
    let (out, warnings) = run("background: rgba(30, 30, 46, 128);", &palette);
    assert_eq!(out, "background: {{ base | css_rgb }};");
    assert!(warnings.is_empty());
}

#[test]
fn hsl_within_tolerance_matches_without_exact_rgb() {
    let palette = mocha_base_palette();
    // parses to rgb (30, 30, 47), not the palette's (30, 30, 46), but
    // its hue/saturation/lightness all lie within tolerance
    let (out, warnings) = run("x: hsl(240, 22%, 15%);", &palette);
    assert_eq!(out, "x: {{ base | css_hsl }};");
    assert!(warnings.is_empty());
}

#[test]
fn hsla_match_keeps_hsl_family() {
    let palette = mocha_base_palette();
    let (out, warnings) = run("x: hsla(240, 21%, 15%, 0.5);", &palette);
    assert_eq!(out, "x: {{ base | mod(opacity=0.50) | css_hsla }};");
    assert!(warnings.is_empty());
}

#[test]
fn unmatched_literal_preserved_with_one_warning() {
    let palette = mocha_base_palette();
    let (out, warnings) = run("border: rgb(1, 2, 3);", &palette);
    assert_eq!(out, "border: rgb(1, 2, 3);");
    assert_eq!(warnings.len(), 2);
    match &warnings[0] {
        Warning::UnmatchedColor { literal, line, col } => {
            assert_eq!(literal.as_slice(), "rgb(1, 2, 3)".as_bytes());
            assert_eq!(*line, 1);
            assert_eq!(*col, 9);
        }
        _ => panic!("expected an unmatched-color warning"),
    }
    assert!(matches!(warnings[1], Warning::NoChanges));
}

#[test]
fn unmatched_literal_location_counts_lines() {
    let palette = mocha_base_palette();
    let (out, warnings) = run("line one\nx: rgb(9, 9, 9);\n", &palette);
    assert_eq!(out, "line one\nx: rgb(9, 9, 9);\n");
    match &warnings[0] {
        Warning::UnmatchedColor { literal, line, col } => {
            assert_eq!(literal.as_slice(), "rgb(9, 9, 9)".as_bytes());
            assert_eq!(*line, 2);
            assert_eq!(*col, 4);
        }
        _ => panic!("expected an unmatched-color warning"),
    }
}

#[test]
fn unparsable_literal_warns_and_continues() {
    let palette = mocha_base_palette();
    let (out, warnings) = run("x: rgb(oops); y: #1e1e2e", &palette);
    assert_eq!(out, "x: rgb(oops); y: #{{ base.hex }}");
    assert_eq!(warnings.len(), 1);
    match &warnings[0] {
        Warning::InvalidColor { literal } => {
            assert_eq!(literal.as_slice(), "rgb(oops)".as_bytes());
        }
        _ => panic!("expected an invalid-color warning"),
    }
}

#[test]
fn scan_is_greedy_to_last_parenthesis_on_the_line() {
    let palette = mocha_base_palette();
    let (out, warnings) = run("a: rgb(1,2,3) b: rgb(4,5,6)", &palette);
    // one greedy span covers both, fails to parse, and is reported
    assert_eq!(out, "a: rgb(1,2,3) b: rgb(4,5,6)");
    match &warnings[0] {
        Warning::InvalidColor { literal } => {
            assert_eq!(literal.as_slice(), "rgb(1,2,3) b: rgb(4,5,6)".as_bytes());
        }
        _ => panic!("expected an invalid-color warning"),
    }
}

#[test]
fn literals_on_separate_lines_are_scanned_separately() {
    let palette = mocha_base_palette();
    let (out, warnings) = run("a: rgb(30,30,46);\nb: rgb(30, 30, 46);\n", &palette);
    assert_eq!(out, "a: {{ base | css_rgb }};\nb: {{ base | css_rgb }};\n");
    assert!(warnings.is_empty());
}

#[test]
fn flavor_name_and_identifier_become_placeholders() {
    let palette = mocha_base_palette();
    let (out, warnings) = run("theme Mocha (mocha)", &palette);
    assert_eq!(out, "theme {{ flavor.name }} ({{ flavor.identifier }})");
    assert!(warnings.is_empty());
}

#[test]
fn empty_input_reports_no_changes() {
    let palette = mocha_base_palette();
    let (out, warnings) = run("", &palette);
    assert_eq!(out, "");
    assert_eq!(warnings.len(), 1);
    assert!(matches!(warnings[0], Warning::NoChanges));
}

#[test]
fn rerunning_on_output_changes_nothing() {
    let palette = mocha_base_palette();
    let input = "a: #1E1E2E; b: rgb(30, 30, 46); c: rgb(1, 2, 3);";
    let (once, _) = run(input, &palette);
    let (twice, warnings) = run(&once, &palette);
    assert_eq!(twice, once);
    // the second run performed no substitution
    assert!(warnings.iter().any(|w| matches!(w, Warning::NoChanges)));
}

#[test]
fn warnings_list_invalid_then_unmatched() {
    let palette = mocha_base_palette();
    let (out, warnings) = run("rgb(bad)\nrgb(9, 9, 9)\n#1e1e2e\n", &palette);
    assert_eq!(out, "rgb(bad)\nrgb(9, 9, 9)\n#{{ base.hex }}\n");
    assert_eq!(warnings.len(), 2);
    match &warnings[0] {
        Warning::InvalidColor { literal } => {
            assert_eq!(literal.as_slice(), "rgb(bad)".as_bytes());
        }
        _ => panic!("expected an invalid-color warning first"),
    }
    match &warnings[1] {
        Warning::UnmatchedColor { literal, line, col } => {
            assert_eq!(literal.as_slice(), "rgb(9, 9, 9)".as_bytes());
            assert_eq!(*line, 2);
            assert_eq!(*col, 1);
        }
        _ => panic!("expected an unmatched-color warning second"),
    }
}

#[test]
fn well_formedness_accepts_the_ordinary_palette() {
    let palette = mocha_base_palette();
    assert!(palette_wf_check(&palette));
}

#[test]
fn well_formedness_rejects_bad_hex_and_self_matching_identifier() {
    let short_hex = Palette {
        flavors: vec![Flavor {
            name: "F".as_bytes().to_vec(),
            identifier: "f".as_bytes().to_vec(),
            colors: vec![color("base", "1e1e2", (30, 30, 46))],
        }],
    };
    assert!(!palette_wf_check(&short_hex));
    let self_match = Palette {
        flavors: vec![Flavor {
            name: "F".as_bytes().to_vec(),
            identifier: "f".as_bytes().to_vec(),
            colors: vec![color("facade", "facade", (1, 2, 3))],
        }],
    };
    assert!(!palette_wf_check(&self_match));
}

#[test]
fn rgb_to_hsl_hundredths_exact_values() {
    assert_eq!(rgb_to_hsl100(30, 30, 46), (24000, 21, 15));
    assert_eq!(rgb_to_hsl100(10, 10, 10), (0, 0, 4));
    assert_eq!(rgb_to_hsl100(255, 255, 255), (0, 0, 100));
    assert_eq!(rgb_to_hsl100(255, 0, 0), (0, 100, 50));
    assert_eq!(rgb_to_hsl100(0, 0, 255), (24000, 100, 50));
}

#[test]
fn real_palette_replaces_its_hex_values() {
    let mut flavors = Vec::new();
    for flavor in catppuccin::PALETTE.all_flavors() {
        let mut colors = Vec::new();
        for c in &flavor.colors {
            let hex = c.hex.to_string();
            colors.push(Color {
                identifier: c.identifier().as_bytes().to_vec(),
                hex: hex[1..].as_bytes().to_vec(),
                r: c.rgb.r,
                g: c.rgb.g,
                b: c.rgb.b,
                h100: (c.hsl.h * 100.0).round() as i32,
                s100: (c.hsl.s * 100.0).round() as i32,
                l100: (c.hsl.l * 100.0).round() as i32,
                accent: c.accent,
            });
        }
        flavors.push(Flavor {
            name: flavor.name.to_string().as_bytes().to_vec(),
            identifier: flavor.identifier().as_bytes().to_vec(),
            colors,
        });
    }
    let palette = Palette { flavors };
    assert!(palette_wf_check(&palette));
    let (out, warnings) = run("color: #1E1E2E;", &palette);
    assert_eq!(out, "color: #{{ base.hex }};");
    assert!(warnings.is_empty());
}
