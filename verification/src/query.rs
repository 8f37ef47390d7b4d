//! Predicates used to filter registry entries.

use vstd::prelude::*;

verus! {

use vstd::string::StringExecFns;
use vstd::string::StrSliceExecFns;
use vstd::utf8::encode_utf8;

use crate::location::find_first;
use crate::location::lemma_contains_first_match;
use crate::text::{contains_sub, match_at};

/// What `str::to_lowercase` returns for the given characters.
pub uninterp spec fn lower_of(s: Seq<char>) -> Seq<char>;

/// Relies on `str::to_lowercase`, whose result is a function of the
/// characters alone.
#[verifier::external_body]
fn lowercase(s: &str) -> (r: String)
    ensures
        r@ == lower_of(s@),
{
    s.to_lowercase()
}

/// One maintainer entry answers for the queried name: lower-cased, the
/// query occurs inside it (the containment `str::contains` decides, on
/// the UTF-8 bytes of both).
pub open spec fn maintainer_answers(maintainer: Seq<char>, by: Seq<char>) -> bool {
    contains_sub(encode_utf8(lower_of(maintainer)), encode_utf8(lower_of(by)))
}

/// Whether a maintainer list matches a maintainer query: with a query,
/// some entry answers for it, case-insensitively; without one, the
/// list is simply non-empty.
pub fn matches_current_maintainer(current_maintainers: &Vec<String>, by: &Option<String>) -> (r:
    bool)
    ensures
        by is Some ==> r == exists|i: int|
            0 <= i < current_maintainers@.len() && maintainer_answers(
                #[trigger] current_maintainers@[i]@,
                by->0@,
            ),
        by is None ==> r == (current_maintainers@.len() > 0),
{
    match by {
        Some(b) => {
            proof {
                assert(*b == by->0);
            }
            let lb = lowercase(b.as_str());
            let lb_bytes = lb.as_str().as_bytes_vec();
            let mut i: usize = 0;
            while i < current_maintainers.len()
                invariant
                    i <= current_maintainers@.len(),
                    by is Some && b@ == by->0@,
                    lb_bytes@ == encode_utf8(lower_of(b@)),
                    forall|k: int|
                        0 <= k < i ==> !maintainer_answers(
                            #[trigger] current_maintainers@[k]@,
                            b@,
                        ),
                decreases current_maintainers@.len() - i,
            {
                let lm = lowercase(current_maintainers[i].as_str());
                let lm_bytes = lm.as_str().as_bytes_vec();
                match find_first(&lm_bytes, &lb_bytes) {
                    Some(p) => {
                        proof {
                            lemma_first_match_found(lm_bytes@, lb_bytes@, p as int);
                            assert(maintainer_answers(current_maintainers@[i as int]@, b@));
                            assert(b@ == by->0@);
                            assert(maintainer_answers(current_maintainers@[i as int]@, by->0@));
                        }
                        return true;
                    },
                    None => {
                        proof {
                            if contains_sub(lm_bytes@, lb_bytes@) {
                                lemma_contains_first_match(lm_bytes@, lb_bytes@, 0);
                            }
                        }
                    },
                }
                i += 1;
            }
            false
        },
        None => current_maintainers.len() > 0,
    }
}

/// A found first match is in particular a match.
proof fn lemma_first_match_found(t: Seq<u8>, pat: Seq<u8>, p: int)
    requires
        crate::location::first_match_from(t, pat, 0) == Some(p),
    ensures
        contains_sub(t, pat),
{
    lemma_first_match_is_match(t, pat, 0);
}

/// Whatever the first-match search returns is a match position.
proof fn lemma_first_match_is_match(t: Seq<u8>, pat: Seq<u8>, i: int)
    requires
        0 <= i <= t.len(),
        crate::location::first_match_from(t, pat, i) is Some,
    ensures
        match_at(t, pat, crate::location::first_match_from(t, pat, i)->0),
    decreases t.len() - i,
{
    if pat.len() == 0 {
        assert(t.subrange(i, i) =~= pat);
    } else if i + pat.len() > t.len() {
    } else if match_at(t, pat, i) {
    } else {
        lemma_first_match_is_match(t, pat, i + 1);
    }
}

/// Whether an optional value stands for the queried boolean-ish word:
/// `true` asks for presence, `false` for absence, and anything else
/// for literal equality.
pub fn is_booleanish_match(value: Option<String>, expected: &str) -> (r: bool)
    ensures
        r == ((expected@ == "true"@ && value is Some) || (expected@ == "false"@ && value is None)
            || (value matches Some(v) && v@ == expected@)),
{
    let e = String::from_str(expected);
    let t = String::from_str("true");
    let f = String::from_str("false");
    (e == t && value.is_some()) || (e == f && value.is_none()) || (match &value {
        Some(v) => *v == e,
        None => false,
    })
}

} // verus!
