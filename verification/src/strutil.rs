use vstd::prelude::*;

verus! {

/// Whether the character `c` reads as the character `l` when the comparison
/// folds ASCII uppercase letters onto lowercase ones: either the characters
/// are equal, or `c` is an ASCII uppercase letter whose lowercase form is `l`.
pub open spec fn char_matches_ci(c: char, l: char) -> bool {
    c == l || (65 <= c as int && c as int <= 90 && c as int + 32 == l as int)
}

/// Whether `needle` occurs in `hay` starting at position `i`, folding ASCII
/// case as `char_matches_ci` does.
pub open spec fn matches_ci_at(hay: Seq<char>, needle: Seq<char>, i: int) -> bool {
    forall|j: int| 0 <= j < needle.len() ==> char_matches_ci(hay[i + j], needle[j])
}

/// Whether `needle` occurs anywhere in `hay`, folding ASCII case.
pub open spec fn contains_ci(hay: Seq<char>, needle: Seq<char>) -> bool {
    exists|i: int| 0 <= i && i + needle.len() <= hay.len() && matches_ci_at(hay, needle, i)
}

fn char_eq_ci(c: char, l: char) -> (r: bool)
    ensures
        r == char_matches_ci(c, l),
{
    let cu = c as u32;
    let lu = l as u32;
    c == l || (65 <= cu && cu <= 90 && cu + 32 == lu)
}

pub(crate) fn str_matches_ci_at(hay: &str, needle: &str, i: usize) -> (r: bool)
    requires
        i + needle@.len() <= hay@.len(),
    ensures
        r == matches_ci_at(hay@, needle@, i as int),
{
    let n = hay.unicode_len();
    let m = needle.unicode_len();
    let mut j: usize = 0;
    while j < m
        invariant
            j <= m,
            i + m <= n,
            n == hay@.len(),
            m == needle@.len(),
            forall|q: int| 0 <= q < j ==> char_matches_ci(hay@[i + q], needle@[q]),
        decreases m - j,
    {
        let hc = hay.get_char(i + j);
        let nc = needle.get_char(j);
        if !char_eq_ci(hc, nc) {
            assert(!char_matches_ci(hay@[i as int + j as int], needle@[j as int]));
            return false;
        }
        j += 1;
    }
    true
}

/// Substring search that folds ASCII uppercase onto lowercase, so that a
/// lowercase `needle` is found case-insensitively.
pub fn str_contains_ci(hay: &str, needle: &str) -> (r: bool)
    ensures
        r == contains_ci(hay@, needle@),
{
    let n = hay.unicode_len();
    let m = needle.unicode_len();
    if m > n {
        return false;
    }
    let mut i: usize = 0;
    while i <= n - m
        invariant
            m <= n,
            i <= n - m + 1,
            n == hay@.len(),
            m == needle@.len(),
            forall|k: int| 0 <= k < i ==> !matches_ci_at(hay@, needle@, k),
        decreases n - m + 1 - i,
    {
        if str_matches_ci_at(hay, needle, i) {
            return true;
        }
        i += 1;
    }
    false
}

/// Character-for-character string equality.
pub fn str_eq(a: &str, b: &str) -> (r: bool)
    ensures
        r == (a@ == b@),
{
    let n = a.unicode_len();
    let m = b.unicode_len();
    if n != m {
        return false;
    }
    let mut i: usize = 0;
    while i < n
        invariant
            i <= n,
            n == a@.len(),
            n == b@.len(),
            forall|k: int| 0 <= k < i ==> a@[k] == b@[k],
        decreases n - i,
    {
        if a.get_char(i) != b.get_char(i) {
            return false;
        }
        i += 1;
    }
    assert(a@ =~= b@);
    true
}

/// Whether the string `s` starts with `prefix`, character for character.
pub fn str_starts_with(s: &str, prefix: &str) -> (r: bool)
    ensures
        r == prefix@.is_prefix_of(s@),
{
    let n = s.unicode_len();
    let m = prefix.unicode_len();
    if m > n {
        return false;
    }
    let mut i: usize = 0;
    while i < m
        invariant
            i <= m,
            m <= n,
            n == s@.len(),
            m == prefix@.len(),
            forall|k: int| 0 <= k < i ==> s@[k] == prefix@[k],
        decreases m - i,
    {
        if s.get_char(i) != prefix.get_char(i) {
            assert(!prefix@.is_prefix_of(s@)) by {
                assert(s@.subrange(0, prefix@.len() as int)[i as int] != prefix@[i as int]);
            }
            return false;
        }
        i += 1;
    }
    assert(prefix@ =~= s@.subrange(0, prefix@.len() as int));
    true
}

} // verus!
