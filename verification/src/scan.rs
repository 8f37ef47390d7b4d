//! The color literal scanner.
//!
//! A functional color literal starts with `rgb`, `rgba`, `hsl` or
//! `hsla` immediately followed by `(` and runs to the last `)` on the
//! same line — the greedy span a pattern search for
//! `(rgb|hsl)a?\(.*\)` yields. Scanning resumes after each literal, so
//! literals never overlap.

use vstd::prelude::*;

verus! {

use crate::text::{contains_sub, match_at};

/// A functional color keyword with its opening parenthesis starts at
/// index `i`: `rgb` or `hsl`, optionally followed by `a`, then `(`.
pub open spec fn is_kw_at(t: Seq<u8>, i: int) -> bool {
    &&& 0 <= i
    &&& i + 4 <= t.len()
    &&& ((t[i] == 114 && t[i + 1] == 103 && t[i + 2] == 98) || (t[i] == 104 && t[i + 1] == 115
        && t[i + 2] == 108))
    &&& (t[i + 3] == 40 || (t[i + 3] == 97 && i + 5 <= t.len() && t[i + 4] == 40))
}

/// The index of the opening parenthesis of a keyword starting at `i`.
pub open spec fn paren_pos(t: Seq<u8>, i: int) -> int {
    if t[i + 3] == 40 {
        i + 3
    } else {
        i + 4
    }
}

/// The index of the last `)` at or after `j` on the current line, if
/// one occurs before the next newline.
pub open spec fn last_close(t: Seq<u8>, j: int) -> Option<int>
    decreases t.len() - j,
    when 0 <= j <= t.len()
{
    if j >= t.len() || t[j] == 10 {
        None
    } else {
        match last_close(t, j + 1) {
            Some(e) => Some(e),
            None => if t[j] == 41 {
                Some(j)
            } else {
                None
            },
        }
    }
}

/// Whatever `last_close` finds lies on the current line, is a `)`, and
/// no newline comes before it.
pub proof fn lemma_last_close_bounds(t: Seq<u8>, j: int)
    requires
        0 <= j <= t.len(),
        last_close(t, j) is Some,
    ensures
        j <= last_close(t, j)->0 < t.len(),
        t[last_close(t, j)->0] == 41,
    decreases t.len() - j,
{
    if j >= t.len() || t[j] == 10 {
    } else {
        if last_close(t, j + 1) is Some {
            lemma_last_close_bounds(t, j + 1);
        }
    }
}

/// The literals found from index `i` on: at the first keyword whose
/// line still holds a closing parenthesis, the span up to that last
/// parenthesis, then whatever is found after it.
pub open spec fn scan_from(t: Seq<u8>, i: int) -> Seq<Seq<u8>>
    decreases t.len() - i,
    when 0 <= i <= t.len()
    via scan_from_decreases
{
    if i + 4 > t.len() {
        Seq::empty()
    } else if is_kw_at(t, i) && last_close(t, paren_pos(t, i) + 1) is Some {
        let e = last_close(t, paren_pos(t, i) + 1)->0;
        seq![t.subrange(i, e + 1)] + scan_from(t, e + 1)
    } else {
        scan_from(t, i + 1)
    }
}

#[via_fn]
proof fn scan_from_decreases(t: Seq<u8>, i: int) {
    if i + 4 <= t.len() && is_kw_at(t, i) && last_close(t, paren_pos(t, i) + 1) is Some {
        lemma_last_close_bounds(t, paren_pos(t, i) + 1);
    }
}

/// All the literals the scan yields.
pub open spec fn scanned(t: Seq<u8>) -> Seq<Seq<u8>> {
    scan_from(t, 0)
}

/// Every scanned literal occurs in the text.
pub proof fn lemma_scanned_in_text(t: Seq<u8>, i: int)
    requires
        0 <= i <= t.len(),
    ensures
        forall|k: int|
            0 <= k < scan_from(t, i).len() ==> contains_sub(t, #[trigger] scan_from(t, i)[k]),
    decreases t.len() - i,
{
    if i + 4 > t.len() {
    } else if is_kw_at(t, i) && last_close(t, paren_pos(t, i) + 1) is Some {
        let e = last_close(t, paren_pos(t, i) + 1)->0;
        lemma_last_close_bounds(t, paren_pos(t, i) + 1);
        lemma_scanned_in_text(t, e + 1);
        assert(match_at(t, t.subrange(i, e + 1), i));
        assert forall|k: int| 0 <= k < scan_from(t, i).len() implies contains_sub(
            t,
            #[trigger] scan_from(t, i)[k],
        ) by {
            if k > 0 {
                assert(scan_from(t, i)[k] == scan_from(t, e + 1)[k - 1]);
            }
        }
    } else {
        lemma_scanned_in_text(t, i + 1);
        assert(scan_from(t, i) == scan_from(t, i + 1));
    }
}

/// Copies `t[from..to]` into a fresh vector.
pub fn copy_range(t: &Vec<u8>, from: usize, to: usize) -> (r: Vec<u8>)
    requires
        from <= to <= t.len(),
    ensures
        r@ == t@.subrange(from as int, to as int),
{
    let mut out: Vec<u8> = Vec::new();
    let mut j: usize = from;
    while j < to
        invariant
            from <= j <= to <= t@.len(),
            out@ == t@.subrange(from as int, j as int),
        decreases to - j,
    {
        out.push(t[j]);
        assert(out@ =~= t@.subrange(from as int, j + 1));
        j += 1;
    }
    out
}

/// Extracts every functional color literal from the text, in scan
/// order.
pub fn scan_literals(t: &Vec<u8>) -> (r: Vec<Vec<u8>>)
    ensures
        r@.map_values(|v: Vec<u8>| v@) == scanned(t@),
        forall|k: int| 0 <= k < r@.len() ==> contains_sub(t@, r@[k]@),
{
    let mut out: Vec<Vec<u8>> = Vec::new();
    let mut i: usize = 0;
    while t.len() - i >= 4
        invariant
            i <= t@.len(),
            scanned(t@) == out@.map_values(|v: Vec<u8>| v@) + scan_from(t@, i as int),
            forall|k: int| 0 <= k < out@.len() ==> contains_sub(t@, out@[k]@),
        decreases t@.len() - i,
    {
        let c0 = t[i];
        let c1 = t[i + 1];
        let c2 = t[i + 2];
        let c3 = t[i + 3];
        let kw = (c0 == 114 && c1 == 103 && c2 == 98) || (c0 == 104 && c1 == 115 && c2 == 108);
        let mut paren: usize = 0;
        let mut have_paren = false;
        if kw {
            if c3 == 40 {
                paren = i + 3;
                have_paren = true;
            } else if c3 == 97 && t.len() - i >= 5 && t[i + 4] == 40 {
                paren = i + 4;
                have_paren = true;
            }
        }
        assert(have_paren == is_kw_at(t@, i as int));
        assert(have_paren ==> paren == paren_pos(t@, i as int));
        if have_paren {
            // find the last `)` on this line after the parenthesis
            let mut j: usize = paren + 1;
            let mut seen: Option<usize> = None;
            while j < t.len() && t[j] != 10
                invariant
                    paren + 1 <= j <= t@.len(),
                    seen matches Some(e) ==> paren < e < j && t@[e as int] == 41,
                    last_close(t@, paren + 1) == (match last_close(t@, j as int) {
                        Some(e) => Some(e),
                        None => match seen {
                            Some(e) => Some(e as int),
                            None => None::<int>,
                        },
                    }),
                decreases t@.len() - j,
            {
                if t[j] == 41 {
                    seen = Some(j);
                }
                j += 1;
            }
            proof {
                assert(last_close(t@, j as int) is None);
            }
            match seen {
                Some(e) => {
                    let lit = copy_range(t, i, e + 1);
                    proof {
                        assert(match_at(t@, lit@, i as int));
                        assert((out@ + seq![lit]).map_values(|v: Vec<u8>| v@) =~= out@.map_values(
                            |v: Vec<u8>| v@,
                        ) + seq![lit@]);
                    }
                    out.push(lit);
                    i = e + 1;
                },
                None => {
                    i += 1;
                },
            }
        } else {
            i += 1;
        }
    }
    proof {
        assert(scan_from(t@, i as int) =~= Seq::<Seq<u8>>::empty());
        assert(out@.map_values(|v: Vec<u8>| v@) + Seq::<Seq<u8>>::empty() =~= out@.map_values(
            |v: Vec<u8>| v@,
        ));
    }
    out
}

} // verus!
