use vstd::prelude::*;

verus! {

/// `pat` occurs at position `i` of `text`.
pub open spec fn matches_at(text: Seq<char>, pat: Seq<char>, i: int) -> bool {
    &&& 0 <= i
    &&& i + pat.len() <= text.len()
    &&& forall|j: int| 0 <= j < pat.len() ==> text[i + j] == pat[j]
}

/// `pat` occurs somewhere in `text` as a contiguous run of characters.
/// The empty pattern occurs in every text.
pub open spec fn is_substring(text: Seq<char>, pat: Seq<char>) -> bool {
    exists|i: int| matches_at(text, pat, i)
}

/// Whether an entry name (or a line) is selected: it is selected exactly
/// when containment of the query differs from the invert flag.
pub open spec fn selected(text: Seq<char>, query: Seq<char>, invert: bool) -> bool {
    is_substring(text, query) != invert
}

/// Check whether `pat` occurs at position `i` of `text`.
fn match_at(text: &str, pat: &str, i: usize) -> (r: bool)
    requires
        i + pat@.len() <= text@.len(),
    ensures
        r == matches_at(text@, pat@, i as int),
{
    let n = text.unicode_len();
    let m = pat.unicode_len();
    let mut j: usize = 0;
    while j < m
        invariant
            j <= m,
            m == pat@.len(),
            n == text@.len(),
            i + m <= n,
            forall|t: int| 0 <= t < j ==> text@[i + t] == pat@[t],
        decreases m - j,
    {
        if text.get_char(i + j) != pat.get_char(j) {
            assert(!matches_at(text@, pat@, i as int));
            return false;
        }
        j += 1;
    }
    true
}

/// Substring containment: `contains_str(text, pat)` returns whether `pat`
/// occurs contiguously in `text`.
pub fn contains_str(text: &str, pat: &str) -> (r: bool)
    ensures
        r == is_substring(text@, pat@),
{
    let n = text.unicode_len();
    let m = pat.unicode_len();
    if m > n {
        assert forall|i: int| !matches_at(text@, pat@, i) by {}
        return false;
    }
    let mut i: usize = 0;
    loop
        invariant
            m <= n,
            n == text@.len(),
            m == pat@.len(),
            i <= n - m + 1,
            forall|k: int| 0 <= k < i ==> !matches_at(text@, pat@, k),
        decreases n - m + 1 - i,
    {
        if i > n - m {
            assert forall|k: int| !matches_at(text@, pat@, k) by {}
            return false;
        }
        if match_at(text, pat, i) {
            return true;
        }
        i += 1;
    }
}

/// The match decision for one entry name or content line: containment
/// tested against the invert flag.
pub fn is_selected(text: &str, query: &str, invert: bool) -> (r: bool)
    ensures
        r == selected(text@, query@, invert),
{
    let c = contains_str(text, query);
    c != invert
}

/// Character-by-character string equality.
pub fn str_eq(a: &str, b: &str) -> (r: bool)
    ensures
        r == (a@ == b@),
{
    let n = a.unicode_len();
    if n != b.unicode_len() {
        return false;
    }
    let mut i: usize = 0;
    while i < n
        invariant
            n == a@.len(),
            n == b@.len(),
            i <= n,
            forall|k: int| 0 <= k < i ==> a@[k] == b@[k],
        decreases n - i,
    {
        if a.get_char(i) != b.get_char(i) {
            assert(a@ != b@) by {
                assert(!(a@ =~= b@));
            }
            return false;
        }
        i += 1;
    }
    assert(a@ =~= b@);
    true
}

} // verus!
