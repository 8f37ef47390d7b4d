//! Byte-level text search and rewriting.
//!
//! The whole engine works on byte sequences: every pattern it ever searches
//! for (hex digits, `rgb(`/`hsl(` literals, placeholder expressions) is
//! ASCII, so byte-wise search on UTF-8 text finds exactly the substring
//! occurrences and replacements never split a multi-byte character.

use vstd::prelude::*;

verus! {

/// `pat` occurs in `t` starting at index `i`.
pub open spec fn match_at(t: Seq<u8>, pat: Seq<u8>, i: int) -> bool {
    0 <= i && i + pat.len() <= t.len() && t.subrange(i, i + pat.len() as int) == pat
}

/// `pat` occurs somewhere in `t`.
pub open spec fn contains_sub(t: Seq<u8>, pat: Seq<u8>) -> bool {
    exists|i: int| match_at(t, pat, i)
}

/// ASCII lower-casing of a single byte.
pub open spec fn to_lower(b: u8) -> u8 {
    if 65 <= b <= 90 {
        (b + 32) as u8
    } else {
        b
    }
}

/// `pat` occurs in `t` at index `i` up to ASCII case.
pub open spec fn ci_match_at(t: Seq<u8>, pat: Seq<u8>, i: int) -> bool {
    &&& 0 <= i
    &&& i + pat.len() <= t.len()
    &&& forall|j: int| 0 <= j < pat.len() ==> to_lower(t[i + j]) == to_lower(pat[j])
}

/// `pat` occurs somewhere in `t` up to ASCII case.
pub open spec fn ci_contains(t: Seq<u8>, pat: Seq<u8>) -> bool {
    exists|i: int| ci_match_at(t, pat, i)
}

/// The result of replacing every occurrence of `pat` in `t` by `rep`,
/// scanning left to right without overlap (the semantics of
/// `str::replace`). An empty pattern replaces nothing.
pub open spec fn replaced(t: Seq<u8>, pat: Seq<u8>, rep: Seq<u8>) -> Seq<u8>
    decreases t.len(),
{
    if pat.len() == 0 || t.len() < pat.len() {
        t
    } else if t.subrange(0, pat.len() as int) == pat {
        rep + replaced(t.skip(pat.len() as int), pat, rep)
    } else {
        seq![t[0]] + replaced(t.skip(1), pat, rep)
    }
}

/// Executable ASCII lower-casing.
pub fn lower_byte(b: u8) -> (r: u8)
    ensures
        r == to_lower(b),
{
    if 65 <= b && b <= 90 {
        b + 32
    } else {
        b
    }
}

/// Exact match test at one position.
pub fn is_match_at(t: &Vec<u8>, pat: &Vec<u8>, i: usize) -> (r: bool)
    requires
        i + pat.len() <= t.len(),
    ensures
        r == match_at(t@, pat@, i as int),
{
    let mut j: usize = 0;
    while j < pat.len()
        invariant
            i + pat.len() <= t.len(),
            j <= pat.len(),
            forall|k: int| 0 <= k < j ==> t@[i + k] == pat@[k],
        decreases pat.len() - j,
    {
        if t[i + j] != pat[j] {
            assert(t@.subrange(i as int, i + pat@.len() as int)[j as int] != pat@[j as int]);
            return false;
        }
        j += 1;
    }
    assert(t@.subrange(i as int, i + pat@.len() as int) =~= pat@);
    true
}

/// Case-insensitive match test at one position.
pub fn is_ci_match_at(t: &Vec<u8>, pat: &Vec<u8>, i: usize) -> (r: bool)
    requires
        i + pat.len() <= t.len(),
    ensures
        r == ci_match_at(t@, pat@, i as int),
{
    let mut j: usize = 0;
    while j < pat.len()
        invariant
            i + pat.len() <= t.len(),
            j <= pat.len(),
            forall|k: int| 0 <= k < j ==> to_lower(t@[i + k]) == to_lower(pat@[k]),
        decreases pat.len() - j,
    {
        if lower_byte(t[i + j]) != lower_byte(pat[j]) {
            return false;
        }
        j += 1;
    }
    true
}

/// Appends all of `s` to `out`.
pub fn push_all(out: &mut Vec<u8>, s: &Vec<u8>)
    ensures
        final(out)@ == old(out)@ + s@,
{
    let mut j: usize = 0;
    while j < s.len()
        invariant
            j <= s.len(),
            out@ == old(out)@ + s@.subrange(0, j as int),
        decreases s.len() - j,
    {
        out.push(s[j]);
        assert(out@ =~= old(out)@ + s@.subrange(0, j + 1));
        j += 1;
    }
    assert(out@ =~= old(out)@ + s@);
}

/// Replaces every occurrence of `pat` in `t` by `rep`, left to right,
/// without rescanning replaced text.
pub fn replace_all(t: &Vec<u8>, pat: &Vec<u8>, rep: &Vec<u8>) -> (r: Vec<u8>)
    ensures
        r@ == replaced(t@, pat@, rep@),
{
    let mut out: Vec<u8> = Vec::new();
    if pat.len() == 0 {
        push_all(&mut out, t);
        return out;
    }
    let mut i: usize = 0;
    proof {
        assert(t@.skip(0) =~= t@);
    }
    while i < t.len()
        invariant
            pat.len() > 0,
            i <= t.len(),
            replaced(t@, pat@, rep@) == out@ + replaced(t@.skip(i as int), pat@, rep@),
        decreases t.len() - i,
    {
        let ghost rest = t@.skip(i as int);
        if pat.len() <= t.len() - i && is_match_at(t, pat, i) {
            proof {
                assert(rest.len() >= pat@.len());
                assert(rest.subrange(0, pat@.len() as int) =~= t@.subrange(
                    i as int,
                    i + pat@.len() as int,
                ));
                assert(rest.skip(pat@.len() as int) =~= t@.skip(i + pat@.len() as int));
            }
            push_all(&mut out, rep);
            i += pat.len();
        } else {
            proof {
                if rest.len() >= pat@.len() {
                    assert(rest.subrange(0, pat@.len() as int) =~= t@.subrange(
                        i as int,
                        i + pat@.len() as int,
                    ));
                    assert(rest.subrange(0, pat@.len() as int) != pat@);
                    assert(rest.skip(1) =~= t@.skip(i + 1));
                    assert(out@ + rest == (out@ + seq![t@[i as int]]) + rest.skip(1)) by {
                        assert(out@ + rest =~= (out@ + seq![t@[i as int]]) + rest.skip(1));
                    }
                } else {
                    // near the end of the text: no further replacement can start here
                    assert(rest.skip(1) =~= t@.skip(i + 1));
                    assert(replaced(rest, pat@, rep@) == rest);
                    assert(replaced(rest.skip(1), pat@, rep@) == rest.skip(1));
                    assert(out@ + rest =~= (out@ + seq![t@[i as int]]) + rest.skip(1));
                }
            }
            let b = t[i];
            out.push(b);
            i += 1;
        }
    }
    proof {
        assert(t@.skip(t@.len() as int) =~= Seq::<u8>::empty());
        assert(replaced(t@.skip(t@.len() as int), pat@, rep@) =~= Seq::<u8>::empty());
        assert(out@ + Seq::<u8>::empty() =~= out@);
    }
    out
}

/// Byte-wise equality of two vectors.
pub fn bytes_eq(a: &Vec<u8>, b: &Vec<u8>) -> (r: bool)
    ensures
        r == (a@ == b@),
{
    if a.len() != b.len() {
        return false;
    }
    let mut j: usize = 0;
    while j < a.len()
        invariant
            a@.len() == b@.len(),
            j <= a@.len(),
            forall|k: int| 0 <= k < j ==> a@[k] == b@[k],
        decreases a@.len() - j,
    {
        if a[j] != b[j] {
            return false;
        }
        j += 1;
    }
    proof {
        assert(a@ =~= b@);
    }
    true
}

/// An ASCII digit `0`-`9` or lowercase letter `a`-`f`.
pub open spec fn is_lower_hex(b: u8) -> bool {
    (48 <= b <= 57) || (97 <= b <= 102)
}

/// The conditions under which rewriting hex occurrences behaves well:
/// the pattern is made of lowercase hex digits, and the replacement
/// starts and ends with a byte that cannot take part in a hex match and
/// does not itself contain the pattern (up to case).
pub open spec fn hex_guards(pat: Seq<u8>, rep: Seq<u8>) -> bool {
    &&& pat.len() > 0
    &&& (forall|j: int| 0 <= j < pat.len() ==> is_lower_hex(pat[j]))
    &&& rep.len() > 0
    &&& !is_lower_hex(to_lower(rep[0]))
    &&& !is_lower_hex(to_lower(rep[rep.len() - 1]))
    &&& !ci_contains(rep, pat)
}

/// The result of replacing, in one left-to-right scan, every occurrence
/// of `pat` (up to ASCII case) in `t` by `rep`. An empty pattern
/// replaces nothing.
pub open spec fn hex_rewritten(t: Seq<u8>, pat: Seq<u8>, rep: Seq<u8>) -> Seq<u8>
    decreases t.len(),
{
    if pat.len() == 0 || t.len() < pat.len() {
        t
    } else if ci_match_at(t, pat, 0) {
        rep + hex_rewritten(t.skip(pat.len() as int), pat, rep)
    } else {
        seq![t[0]] + hex_rewritten(t.skip(1), pat, rep)
    }
}

/// Replaces every occurrence of `pat` in `t`, up to ASCII case, by `rep`.
pub fn rewrite_hex(t: &Vec<u8>, pat: &Vec<u8>, rep: &Vec<u8>) -> (r: Vec<u8>)
    ensures
        r@ == hex_rewritten(t@, pat@, rep@),
{
    let mut out: Vec<u8> = Vec::new();
    if pat.len() == 0 {
        push_all(&mut out, t);
        return out;
    }
    let mut i: usize = 0;
    proof {
        assert(t@.skip(0) =~= t@);
    }
    while i < t.len()
        invariant
            pat.len() > 0,
            i <= t.len(),
            hex_rewritten(t@, pat@, rep@) == out@ + hex_rewritten(t@.skip(i as int), pat@, rep@),
        decreases t.len() - i,
    {
        let ghost rest = t@.skip(i as int);
        if pat.len() <= t.len() - i && is_ci_match_at(t, pat, i) {
            proof {
                assert(ci_match_at(rest, pat@, 0));
                assert(rest.skip(pat@.len() as int) =~= t@.skip(i + pat@.len() as int));
            }
            push_all(&mut out, rep);
            i += pat.len();
        } else {
            proof {
                if rest.len() >= pat@.len() {
                    assert(!ci_match_at(rest, pat@, 0));
                    assert(rest.skip(1) =~= t@.skip(i + 1));
                    assert(out@ + rest.subrange(0, 1) =~= out@ + seq![t@[i as int]]);
                    assert((out@ + seq![t@[i as int]]) + hex_rewritten(rest.skip(1), pat@, rep@)
                        =~= out@ + (seq![t@[i as int]] + hex_rewritten(rest.skip(1), pat@, rep@)));
                } else {
                    assert(rest.skip(1) =~= t@.skip(i + 1));
                    assert(hex_rewritten(rest, pat@, rep@) == rest);
                    assert(hex_rewritten(rest.skip(1), pat@, rep@) == rest.skip(1));
                    assert(out@ + rest =~= (out@ + seq![t@[i as int]]) + rest.skip(1));
                }
            }
            let b = t[i];
            out.push(b);
            i += 1;
        }
    }
    proof {
        assert(t@.skip(t@.len() as int) =~= Seq::<u8>::empty());
        assert(hex_rewritten(t@.skip(t@.len() as int), pat@, rep@) =~= Seq::<u8>::empty());
        assert(out@ + Seq::<u8>::empty() =~= out@);
    }
    out
}

/// The guard a replacement string must satisfy so that inserting it
/// can never create a new occurrence of the hex digits `hx`: it is
/// non-empty, starts and ends with a byte that cannot take part in a
/// hex match, and does not itself contain `hx` up to case.
pub open spec fn keeps_free_guard(rep: Seq<u8>, hx: Seq<u8>) -> bool {
    &&& rep.len() > 0
    &&& !is_lower_hex(to_lower(rep[0]))
    &&& !is_lower_hex(to_lower(rep[rep.len() - 1]))
    &&& !ci_contains(rep, hx)
}

/// A suffix of a text free of `hx` is itself free of `hx`.
proof fn lemma_suffix_free(t: Seq<u8>, hx: Seq<u8>, m: int)
    requires
        0 <= m <= t.len(),
        !ci_contains(t, hx),
    ensures
        !ci_contains(t.skip(m), hx),
{
    if ci_contains(t.skip(m), hx) {
        let p = choose|p: int| ci_match_at(t.skip(m), hx, p);
        assert(ci_match_at(t, hx, p + m)) by {
            assert forall|j: int| 0 <= j < hx.len() implies to_lower(t[p + m + j]) == to_lower(
                hx[j],
            ) by {
                assert(t.skip(m)[p + j] == t[p + m + j]);
            }
        }
    }
}

/// The first bytes of the rewritten text are either exactly the first
/// bytes of the original, or the first byte of a replacement occurs
/// among them.
proof fn lemma_hex_prefix(t: Seq<u8>, pat: Seq<u8>, rep: Seq<u8>, j: int)
    requires
        pat.len() > 0,
        rep.len() > 0,
        0 <= j,
        j <= hex_rewritten(t, pat, rep).len(),
    ensures
        (j <= t.len() && hex_rewritten(t, pat, rep).subrange(0, j) == t.subrange(0, j)) || (exists|
            i: int,
        |
            0 <= i < j && hex_rewritten(t, pat, rep)[i] == rep[0]),
    decreases t.len(),
{
    let r = hex_rewritten(t, pat, rep);
    if t.len() < pat.len() {
        assert(r == t);
        assert(r.subrange(0, j) =~= t.subrange(0, j));
    } else if ci_match_at(t, pat, 0) {
        if j == 0 {
            assert(r.subrange(0, 0) =~= t.subrange(0, 0));
        } else {
            assert(r[0] == rep[0]);
        }
    } else {
        if j == 0 {
            assert(r.subrange(0, 0) =~= t.subrange(0, 0));
        } else {
            let rr = hex_rewritten(t.skip(1), pat, rep);
            assert(r == seq![t[0]] + rr);
            lemma_hex_prefix(t.skip(1), pat, rep, j - 1);
            if j - 1 <= t.skip(1).len() && rr.subrange(0, j - 1) == t.skip(1).subrange(0, j - 1) {
                assert(r.subrange(0, j) =~= t.subrange(0, j)) by {
                    assert forall|k: int| 0 <= k < j implies r.subrange(0, j)[k] == t.subrange(
                        0,
                        j,
                    )[k] by {
                        if k > 0 {
                            assert(rr[k - 1] == rr.subrange(0, j - 1)[k - 1]);
                            assert(t.skip(1).subrange(0, j - 1)[k - 1] == t[k]);
                        }
                    }
                }
            } else {
                let i = choose|i: int| 0 <= i < j - 1 && rr[i] == rep[0];
                assert(r[i + 1] == rep[0]);
            }
        }
    }
}

/// After the rewrite no occurrence of the pattern is left, in any case
/// variant.
pub proof fn lemma_hex_no_ci(t: Seq<u8>, pat: Seq<u8>, rep: Seq<u8>)
    requires
        hex_guards(pat, rep),
    ensures
        !ci_contains(hex_rewritten(t, pat, rep), pat),
    decreases t.len(),
{
    let r = hex_rewritten(t, pat, rep);
    if t.len() < pat.len() {
        assert(forall|p: int| !ci_match_at(r, pat, p));
    } else if ci_match_at(t, pat, 0) {
        let rr = hex_rewritten(t.skip(pat.len() as int), pat, rep);
        lemma_hex_no_ci(t.skip(pat.len() as int), pat, rep);
        assert forall|p: int| !ci_match_at(r, pat, p) by {
            if ci_match_at(r, pat, p) {
                if p + pat.len() <= rep.len() {
                    assert(ci_match_at(rep, pat, p));
                } else if p < rep.len() {
                    let j0 = rep.len() - 1 - p;
                    assert(to_lower(r[p + j0]) == to_lower(pat[j0]));
                    assert(r[p + j0] == rep[rep.len() - 1]);
                    assert(is_lower_hex(pat[j0]));
                    assert(to_lower(pat[j0]) == pat[j0]);
                } else {
                    assert(ci_match_at(rr, pat, p - rep.len())) by {
                        assert forall|j: int| 0 <= j < pat.len() implies to_lower(
                            rr[p - rep.len() + j],
                        ) == to_lower(pat[j]) by {
                            assert(r[p + j] == rr[p - rep.len() + j]);
                        }
                    }
                }
            }
        }
    } else {
        let rr = hex_rewritten(t.skip(1), pat, rep);
        lemma_hex_no_ci(t.skip(1), pat, rep);
        assert forall|p: int| !ci_match_at(r, pat, p) by {
            if ci_match_at(r, pat, p) {
                if p >= 1 {
                    assert(ci_match_at(rr, pat, p - 1)) by {
                        assert forall|j: int| 0 <= j < pat.len() implies to_lower(rr[p - 1 + j])
                            == to_lower(pat[j]) by {
                            assert(r[p + j] == rr[p - 1 + j]);
                        }
                    }
                } else {
                    // p == 0: the rewritten prefix is either the original
                    // prefix (contradicting no match at 0) or reaches a
                    // replacement's first byte (which is not a hex byte)
                    lemma_hex_prefix(t.skip(1), pat, rep, pat.len() - 1);
                    if pat.len() - 1 <= t.skip(1).len() && rr.subrange(0, pat.len() - 1) == t.skip(
                        1,
                    ).subrange(0, pat.len() - 1) {
                        assert(ci_match_at(t, pat, 0)) by {
                            assert forall|j: int| 0 <= j < pat.len() implies to_lower(t[j])
                                == to_lower(pat[j]) by {
                                if j > 0 {
                                    assert(r[j] == rr[j - 1]);
                                    assert(rr[j - 1] == rr.subrange(0, pat.len() - 1)[j - 1]);
                                    assert(t.skip(1).subrange(0, pat.len() - 1)[j - 1] == t[j]);
                                } else {
                                    assert(r[0] == t[0]);
                                }
                            }
                        }
                    } else {
                        let i = choose|i: int|
                            0 <= i < pat.len() - 1 && rr[i] == rep[0];
                        assert(r[i + 1] == rep[0]);
                        assert(to_lower(r[i + 1]) == to_lower(pat[i + 1]));
                        assert(is_lower_hex(pat[i + 1]));
                        assert(to_lower(pat[i + 1]) == pat[i + 1]);
                    }
                }
            }
        }
    }
}

/// If the pattern occurred, the replacement occurs in the result.
pub proof fn lemma_hex_inserts_rep(t: Seq<u8>, pat: Seq<u8>, rep: Seq<u8>)
    requires
        pat.len() > 0,
        ci_contains(t, pat),
    ensures
        contains_sub(hex_rewritten(t, pat, rep), rep),
    decreases t.len(),
{
    let r = hex_rewritten(t, pat, rep);
    let p = choose|p: int| ci_match_at(t, pat, p);
    assert(t.len() >= pat.len());
    if ci_match_at(t, pat, 0) {
        assert(r.subrange(0, rep.len() as int) =~= rep);
        assert(match_at(r, rep, 0));
    } else {
        let rr = hex_rewritten(t.skip(1), pat, rep);
        assert(p >= 1);
        assert(ci_match_at(t.skip(1), pat, p - 1)) by {
            assert forall|j: int| 0 <= j < pat.len() implies to_lower(t.skip(1)[p - 1 + j])
                == to_lower(pat[j]) by {
                assert(t.skip(1)[p - 1 + j] == t[p + j]);
            }
        }
        lemma_hex_inserts_rep(t.skip(1), pat, rep);
        let q = choose|q: int| match_at(rr, rep, q);
        assert(match_at(r, rep, q + 1)) by {
            assert(r.subrange(q + 1, q + 1 + rep.len() as int) =~= rr.subrange(
                q,
                q + rep.len() as int,
            )) by {
                assert forall|k: int| 0 <= k < rep.len() implies #[trigger] r[q + 1 + k] == rr[q
                    + k] by {
                    assert(r[q + 1 + k] == (seq![t[0]] + rr)[q + 1 + k]);
                }
            }
        }
    }
}

/// If the pattern did not occur, the rewrite leaves the text unchanged.
pub proof fn lemma_hex_identity(t: Seq<u8>, pat: Seq<u8>, rep: Seq<u8>)
    requires
        !ci_contains(t, pat),
    ensures
        hex_rewritten(t, pat, rep) == t,
    decreases t.len(),
{
    if pat.len() == 0 || t.len() < pat.len() {
    } else {
        assert(!ci_match_at(t, pat, 0));
        assert(!ci_contains(t.skip(1), pat)) by {
            if ci_match_at(t.skip(1), pat, choose|p: int| ci_match_at(t.skip(1), pat, p)) {
                let p = choose|p: int| ci_match_at(t.skip(1), pat, p);
                assert(ci_match_at(t, pat, p + 1)) by {
                    assert forall|j: int| 0 <= j < pat.len() implies to_lower(t[p + 1 + j])
                        == to_lower(pat[j]) by {
                        assert(t[p + 1 + j] == t.skip(1)[p + j]);
                    }
                }
            }
        }
        lemma_hex_identity(t.skip(1), pat, rep);
        assert(hex_rewritten(t, pat, rep) =~= t);
    }
}

/// If the pattern does not occur, replacement leaves the text
/// unchanged.
pub proof fn lemma_replaced_identity(t: Seq<u8>, pat: Seq<u8>, rep: Seq<u8>)
    requires
        !contains_sub(t, pat),
    ensures
        replaced(t, pat, rep) == t,
    decreases t.len(),
{
    if pat.len() == 0 || t.len() < pat.len() {
    } else if t.subrange(0, pat.len() as int) == pat {
        assert(match_at(t, pat, 0));
        assert(false);
    } else {
        assert(!contains_sub(t.skip(1), pat)) by {
            if contains_sub(t.skip(1), pat) {
                let p = choose|p: int| match_at(t.skip(1), pat, p);
                assert(match_at(t, pat, p + 1)) by {
                    assert(t.subrange(p + 1, p + 1 + pat.len() as int) =~= t.skip(1).subrange(
                        p,
                        p + pat.len() as int,
                    ));
                }
            }
        }
        lemma_replaced_identity(t.skip(1), pat, rep);
        assert(replaced(t, pat, rep) =~= t);
    }
}

/// The first bytes of a replaced text are either exactly the first
/// bytes of the original, or the first byte of the replacement occurs
/// among them.
proof fn lemma_replaced_prefix(t: Seq<u8>, pat: Seq<u8>, rep: Seq<u8>, j: int)
    requires
        pat.len() > 0,
        rep.len() > 0,
        0 <= j,
        j <= replaced(t, pat, rep).len(),
    ensures
        (j <= t.len() && replaced(t, pat, rep).subrange(0, j) == t.subrange(0, j)) || (exists|
            i: int,
        |
            0 <= i < j && replaced(t, pat, rep)[i] == rep[0]),
    decreases t.len(),
{
    let r = replaced(t, pat, rep);
    if t.len() < pat.len() {
        assert(r == t);
        assert(r.subrange(0, j) =~= t.subrange(0, j));
    } else if t.subrange(0, pat.len() as int) == pat {
        if j == 0 {
            assert(r.subrange(0, 0) =~= t.subrange(0, 0));
        } else {
            assert(r[0] == rep[0]);
        }
    } else {
        if j == 0 {
            assert(r.subrange(0, 0) =~= t.subrange(0, 0));
        } else {
            let rr = replaced(t.skip(1), pat, rep);
            assert(r == seq![t[0]] + rr);
            lemma_replaced_prefix(t.skip(1), pat, rep, j - 1);
            if j - 1 <= t.skip(1).len() && rr.subrange(0, j - 1) == t.skip(1).subrange(0, j - 1) {
                assert(r.subrange(0, j) =~= t.subrange(0, j)) by {
                    assert forall|k: int| 0 <= k < j implies r.subrange(0, j)[k] == t.subrange(
                        0,
                        j,
                    )[k] by {
                        if k > 0 {
                            assert(rr[k - 1] == rr.subrange(0, j - 1)[k - 1]);
                            assert(t.skip(1).subrange(0, j - 1)[k - 1] == t[k]);
                        }
                    }
                }
            } else {
                let i = choose|i: int| 0 <= i < j - 1 && rr[i] == rep[0];
                assert(r[i + 1] == rep[0]);
            }
        }
    }
}

/// Replacing a pattern in a text free of the hex digits `hx` keeps it
/// free of them: neither the inserted replacement nor any junction can
/// form a new occurrence.
pub proof fn lemma_replaced_keeps_free(t: Seq<u8>, pat: Seq<u8>, rep: Seq<u8>, hx: Seq<u8>)
    requires
        hx.len() > 0,
        forall|j: int| 0 <= j < hx.len() ==> is_lower_hex(hx[j]),
        !ci_contains(t, hx),
        keeps_free_guard(rep, hx),
    ensures
        !ci_contains(replaced(t, pat, rep), hx),
    decreases t.len(),
{
    let r = replaced(t, pat, rep);
    if pat.len() == 0 || t.len() < pat.len() {
        assert(r == t);
    } else if t.subrange(0, pat.len() as int) == pat {
        let rr = replaced(t.skip(pat.len() as int), pat, rep);
        lemma_suffix_free(t, hx, pat.len() as int);
        lemma_replaced_keeps_free(t.skip(pat.len() as int), pat, rep, hx);
        assert forall|p: int| !ci_match_at(r, hx, p) by {
            if ci_match_at(r, hx, p) {
                if p + hx.len() <= rep.len() {
                    assert(ci_match_at(rep, hx, p));
                } else if p < rep.len() {
                    let j0 = rep.len() - 1 - p;
                    assert(to_lower(r[p + j0]) == to_lower(hx[j0]));
                    assert(r[p + j0] == rep[rep.len() - 1]);
                    assert(is_lower_hex(hx[j0]));
                    assert(to_lower(hx[j0]) == hx[j0]);
                } else {
                    assert(ci_match_at(rr, hx, p - rep.len())) by {
                        assert forall|j: int| 0 <= j < hx.len() implies to_lower(
                            rr[p - rep.len() + j],
                        ) == to_lower(hx[j]) by {
                            assert(r[p + j] == rr[p - rep.len() + j]);
                        }
                    }
                }
            }
        }
    } else {
        let rr = replaced(t.skip(1), pat, rep);
        lemma_suffix_free(t, hx, 1);
        lemma_replaced_keeps_free(t.skip(1), pat, rep, hx);
        assert forall|p: int| !ci_match_at(r, hx, p) by {
            if ci_match_at(r, hx, p) {
                if p >= 1 {
                    assert(ci_match_at(rr, hx, p - 1)) by {
                        assert forall|j: int| 0 <= j < hx.len() implies to_lower(rr[p - 1 + j])
                            == to_lower(hx[j]) by {
                            assert(r[p + j] == rr[p - 1 + j]);
                        }
                    }
                } else {
                    lemma_replaced_prefix(t.skip(1), pat, rep, hx.len() - 1);
                    if hx.len() - 1 <= t.skip(1).len() && rr.subrange(0, hx.len() - 1) == t.skip(
                        1,
                    ).subrange(0, hx.len() - 1) {
                        assert(ci_match_at(t, hx, 0)) by {
                            assert forall|j: int| 0 <= j < hx.len() implies to_lower(t[j])
                                == to_lower(hx[j]) by {
                                if j > 0 {
                                    assert(r[j] == rr[j - 1]);
                                    assert(rr[j - 1] == rr.subrange(0, hx.len() - 1)[j - 1]);
                                    assert(t.skip(1).subrange(0, hx.len() - 1)[j - 1] == t[j]);
                                } else {
                                    assert(r[0] == t[0]);
                                }
                            }
                        }
                    } else {
                        let i = choose|i: int| 0 <= i < hx.len() - 1 && rr[i] == rep[0];
                        assert(r[i + 1] == rep[0]);
                        assert(to_lower(r[i + 1]) == to_lower(hx[i + 1]));
                        assert(is_lower_hex(hx[i + 1]));
                        assert(to_lower(hx[i + 1]) == hx[i + 1]);
                    }
                }
            }
        }
    }
}

/// Rewriting occurrences of one pattern in a text free of the hex
/// digits `hx` keeps it free of them.
pub proof fn lemma_hex_rewritten_keeps_free(t: Seq<u8>, pat: Seq<u8>, rep: Seq<u8>, hx: Seq<u8>)
    requires
        hx.len() > 0,
        forall|j: int| 0 <= j < hx.len() ==> is_lower_hex(hx[j]),
        !ci_contains(t, hx),
        keeps_free_guard(rep, hx),
    ensures
        !ci_contains(hex_rewritten(t, pat, rep), hx),
    decreases t.len(),
{
    let r = hex_rewritten(t, pat, rep);
    if pat.len() == 0 || t.len() < pat.len() {
        assert(r == t);
    } else if ci_match_at(t, pat, 0) {
        let rr = hex_rewritten(t.skip(pat.len() as int), pat, rep);
        lemma_suffix_free(t, hx, pat.len() as int);
        lemma_hex_rewritten_keeps_free(t.skip(pat.len() as int), pat, rep, hx);
        assert forall|p: int| !ci_match_at(r, hx, p) by {
            if ci_match_at(r, hx, p) {
                if p + hx.len() <= rep.len() {
                    assert(ci_match_at(rep, hx, p));
                } else if p < rep.len() {
                    let j0 = rep.len() - 1 - p;
                    assert(to_lower(r[p + j0]) == to_lower(hx[j0]));
                    assert(r[p + j0] == rep[rep.len() - 1]);
                    assert(is_lower_hex(hx[j0]));
                    assert(to_lower(hx[j0]) == hx[j0]);
                } else {
                    assert(ci_match_at(rr, hx, p - rep.len())) by {
                        assert forall|j: int| 0 <= j < hx.len() implies to_lower(
                            rr[p - rep.len() + j],
                        ) == to_lower(hx[j]) by {
                            assert(r[p + j] == rr[p - rep.len() + j]);
                        }
                    }
                }
            }
        }
    } else {
        let rr = hex_rewritten(t.skip(1), pat, rep);
        lemma_suffix_free(t, hx, 1);
        lemma_hex_rewritten_keeps_free(t.skip(1), pat, rep, hx);
        assert forall|p: int| !ci_match_at(r, hx, p) by {
            if ci_match_at(r, hx, p) {
                if p >= 1 {
                    assert(ci_match_at(rr, hx, p - 1)) by {
                        assert forall|j: int| 0 <= j < hx.len() implies to_lower(rr[p - 1 + j])
                            == to_lower(hx[j]) by {
                            assert(r[p + j] == rr[p - 1 + j]);
                        }
                    }
                } else {
                    lemma_hex_prefix(t, pat, rep, 0);
                    lemma_hex_prefix(t.skip(1), pat, rep, hx.len() - 1);
                    if hx.len() - 1 <= t.skip(1).len() && rr.subrange(0, hx.len() - 1) == t.skip(
                        1,
                    ).subrange(0, hx.len() - 1) {
                        assert(ci_match_at(t, hx, 0)) by {
                            assert forall|j: int| 0 <= j < hx.len() implies to_lower(t[j])
                                == to_lower(hx[j]) by {
                                if j > 0 {
                                    assert(r[j] == rr[j - 1]);
                                    assert(rr[j - 1] == rr.subrange(0, hx.len() - 1)[j - 1]);
                                    assert(t.skip(1).subrange(0, hx.len() - 1)[j - 1] == t[j]);
                                } else {
                                    assert(r[0] == t[0]);
                                }
                            }
                        }
                    } else {
                        let i = choose|i: int| 0 <= i < hx.len() - 1 && rr[i] == rep[0];
                        assert(r[i + 1] == rep[0]);
                        assert(to_lower(r[i + 1]) == to_lower(hx[i + 1]));
                        assert(is_lower_hex(hx[i + 1]));
                        assert(to_lower(hx[i + 1]) == hx[i + 1]);
                    }
                }
            }
        }
    }
}

/// Rewriting hex occurrences is idempotent: a second pass over the
/// result changes nothing.
pub proof fn lemma_hex_idempotent(t: Seq<u8>, pat: Seq<u8>, rep: Seq<u8>)
    requires
        hex_guards(pat, rep),
    ensures
        hex_rewritten(hex_rewritten(t, pat, rep), pat, rep) == hex_rewritten(t, pat, rep),
{
    lemma_hex_no_ci(t, pat, rep);
    lemma_hex_identity(hex_rewritten(t, pat, rep), pat, rep);
}

} // verus!
