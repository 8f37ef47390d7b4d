//! Line and column reporting for diagnostics.
//!
//! Positions are reported 1-based against the original text, at the
//! first occurrence of the literal in question.

use vstd::prelude::*;

verus! {

use crate::text::{contains_sub, match_at};

/// The position of the first occurrence of `pat` in `t` at or after
/// `i`.
pub open spec fn first_match_from(t: Seq<u8>, pat: Seq<u8>, i: int) -> Option<int>
    decreases t.len() - i,
    when 0 <= i <= t.len()
{
    if pat.len() == 0 {
        Some(i)
    } else if i + pat.len() > t.len() {
        None
    } else if match_at(t, pat, i) {
        Some(i)
    } else {
        first_match_from(t, pat, i + 1)
    }
}

/// The 1-based line number of byte position `p` in `t`: one more than
/// the newlines before `p`.
pub open spec fn line_of(t: Seq<u8>, p: int) -> int
    decreases p,
    when p >= 0
{
    if p <= 0 {
        1
    } else if t[p - 1] == 10 {
        line_of(t, p - 1) + 1
    } else {
        line_of(t, p - 1)
    }
}

/// The 1-based column of byte position `p` in `t`: its distance to the
/// start of its line.
pub open spec fn col_of(t: Seq<u8>, p: int) -> int
    decreases p,
    when p >= 0
{
    if p <= 0 {
        1
    } else if t[p - 1] == 10 {
        1
    } else {
        col_of(t, p - 1) + 1
    }
}

/// Finds the first occurrence of `pat` in `t`.
pub fn find_first(t: &Vec<u8>, pat: &Vec<u8>) -> (r: Option<usize>)
    ensures
        match r {
            Some(i) => first_match_from(t@, pat@, 0) == Some(i as int),
            None => first_match_from(t@, pat@, 0) is None,
        },
{
    if pat.len() == 0 {
        proof {
            assert(t@.subrange(0, 0) =~= pat@);
        }
        return Some(0);
    }
    let mut i: usize = 0;
    while pat.len() <= t.len() - i
        invariant
            pat@.len() > 0,
            i <= t@.len(),
            first_match_from(t@, pat@, 0) == first_match_from(t@, pat@, i as int),
        decreases t@.len() - i,
    {
        if crate::text::is_match_at(t, pat, i) {
            return Some(i);
        }
        i += 1;
    }
    None
}

/// Computes the 1-based line and column of byte position `p`.
pub fn line_col_at(t: &Vec<u8>, p: usize) -> (r: (usize, usize))
    requires
        p <= t.len(),
        p < usize::MAX,
    ensures
        r.0 == line_of(t@, p as int),
        r.1 == col_of(t@, p as int),
{
    let mut line: usize = 1;
    let mut col: usize = 1;
    let mut k: usize = 0;
    while k < p
        invariant
            k <= p <= t@.len(),
            p < usize::MAX,
            line == line_of(t@, k as int),
            col == col_of(t@, k as int),
            line <= k + 1,
            col <= k + 1,
        decreases p - k,
    {
        if t[k] == 10 {
            line += 1;
            col = 1;
        } else {
            col += 1;
        }
        k += 1;
    }
    (line, col)
}

/// The decimal digit `d` as a character.
pub open spec fn digit_char(d: int) -> char {
    if d == 0 {
        '0'
    } else if d == 1 {
        '1'
    } else if d == 2 {
        '2'
    } else if d == 3 {
        '3'
    } else if d == 4 {
        '4'
    } else if d == 5 {
        '5'
    } else if d == 6 {
        '6'
    } else if d == 7 {
        '7'
    } else if d == 8 {
        '8'
    } else {
        '9'
    }
}

/// The decimal digits of `n`, most significant first.
pub open spec fn dec_chars(n: int) -> Seq<char>
    decreases n,
    when n >= 0
{
    if n < 10 {
        seq![digit_char(n)]
    } else {
        dec_chars(n / 10) + seq![digit_char(n % 10)]
    }
}

/// One decimal digit as a string slice.
fn digit_str(d: usize) -> (r: &'static str)
    requires
        d < 10,
    ensures
        r@ == seq![digit_char(d as int)],
{
    proof {
        reveal_strlit("0");
        reveal_strlit("1");
        reveal_strlit("2");
        reveal_strlit("3");
        reveal_strlit("4");
        reveal_strlit("5");
        reveal_strlit("6");
        reveal_strlit("7");
        reveal_strlit("8");
        reveal_strlit("9");
    }
    let r = if d == 0 {
        "0"
    } else if d == 1 {
        "1"
    } else if d == 2 {
        "2"
    } else if d == 3 {
        "3"
    } else if d == 4 {
        "4"
    } else if d == 5 {
        "5"
    } else if d == 6 {
        "6"
    } else if d == 7 {
        "7"
    } else {
        "8"
    };
    let r = if d == 9 {
        "9"
    } else {
        r
    };
    proof {
        assert(r@ =~= seq![digit_char(d as int)]);
    }
    r
}

/// Writes `n` in decimal.
pub fn dec_string(n: usize) -> (r: String)
    ensures
        r@ == dec_chars(n as int),
    decreases n,
{
    if n < 10 {
        let mut s = String::new();
        s.append(digit_str(n));
        proof {
            assert(s@ =~= dec_chars(n as int));
        }
        s
    } else {
        let mut s = dec_string(n / 10);
        s.append(digit_str(n % 10));
        proof {
            assert(s@ =~= dec_chars(n as int));
        }
        s
    }
}

/// The characters of `"line:col"` for the first occurrence of `pat` in
/// `t`.
pub open spec fn location_chars(t: Seq<u8>, pat: Seq<u8>) -> Seq<char> {
    let p = first_match_from(t, pat, 0)->0;
    dec_chars(line_of(t, p)) + seq![':'] + dec_chars(col_of(t, p))
}

/// Reports, as `line:column`, where `search` first occurs in `text`.
pub fn get_location_in_text(search: &Vec<u8>, text: &Vec<u8>) -> (r: String)
    requires
        contains_sub(text@, search@),
    ensures
        r@ == location_chars(text@, search@),
{
    proof {
        lemma_contains_first_match(text@, search@, 0);
    }
    let found = find_first(text, search);
    let p = match found {
        Some(p) => p,
        None => {
            proof {
                assert(false);
            }
            0
        },
    };
    let n = text.len();
    proof {
        if search@.len() > 0 {
            assert(p + search@.len() <= n);
        } else {
            assert(first_match_from(text@, search@, 0) == Some(0int));
        }
    }
    let (line, col) = line_col_at(text, p);
    let mut s = dec_string(line);
    proof {
        reveal_strlit(":");
    }
    s.append(":");
    let cs = dec_string(col);
    let s2 = s.concat(cs.as_str());
    proof {
        assert(s2@ =~= location_chars(text@, search@));
    }
    s2
}

/// If `pat` occurs in `t` at or after `i`, the first-match search from
/// `i` finds an occurrence.
pub proof fn lemma_contains_first_match(t: Seq<u8>, pat: Seq<u8>, i: int)
    requires
        0 <= i <= t.len(),
        exists|p: int| i <= p && match_at(t, pat, p),
    ensures
        first_match_from(t, pat, i) is Some,
        i <= first_match_from(t, pat, i)->0,
        match_at(t, pat, first_match_from(t, pat, i)->0),
        first_match_from(t, pat, i)->0 <= t.len(),
    decreases t.len() - i,
{
    let p = choose|p: int| i <= p && match_at(t, pat, p);
    if pat.len() == 0 {
        assert(t.subrange(i, i) =~= pat);
        assert(match_at(t, pat, i));
    } else if i + pat.len() > t.len() {
        assert(p + pat.len() <= t.len());
        assert(false);
    } else if match_at(t, pat, i) {
    } else {
        assert(p > i);
        lemma_contains_first_match(t, pat, i + 1);
    }
}

} // verus!
