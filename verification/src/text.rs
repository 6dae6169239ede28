use vstd::prelude::*;
use vstd::string::*;

verus! {

/// What `str::to_lowercase` returns for a string with characters `s`.
pub uninterp spec fn lowercase_of(s: Seq<char>) -> Seq<char>;

/// `needle` occurs as a contiguous run of characters inside `hay`.
pub open spec fn has_infix(hay: Seq<char>, needle: Seq<char>) -> bool {
    exists|i: int|
        0 <= i && i + needle.len() <= hay.len() && #[trigger] hay.subrange(i, i + needle.len())
            == needle
}

/// Calls `str::to_lowercase`, which maps every character to its Unicode
/// lowercase form. The contract only ties the result to the argument by
/// name: Unicode case mapping is not spelled out here.
#[verifier::external_body]
pub(crate) fn to_lowercase(s: &str) -> (r: String)
    ensures
        r@ == lowercase_of(s@),
{
    s.to_lowercase()
}

/// Substring search by characters, as `str::contains` with a `&str` pattern.
pub fn str_contains(hay: &str, needle: &str) -> (r: bool)
    ensures
        r == has_infix(hay@, needle@),
{
    let n = hay.unicode_len();
    let m = needle.unicode_len();
    if m > n {
        return false;
    }
    let mut i: usize = 0;
    loop
        invariant
            n == hay@.len(),
            m == needle@.len(),
            m <= n,
            i <= n - m,
            forall|k: int| 0 <= k < i ==> #[trigger] hay@.subrange(k, k + m) != needle@,
        decreases n - m - i,
    {
        let mut j: usize = 0;
        let mut same = true;
        while j < m && same
            invariant
                n == hay@.len(),
                m == needle@.len(),
                i + m <= n,
                j <= m,
                same ==> forall|t: int| 0 <= t < j ==> hay@[i + t] == needle@[t],
                !same ==> hay@.subrange(i as int, i + m) != needle@,
            decreases m - j + (if same { 1int } else { 0int }),
        {
            if hay.get_char(i + j) != needle.get_char(j) {
                assert(hay@.subrange(i as int, i + m)[j as int] != needle@[j as int]);
                same = false;
            } else {
                j += 1;
            }
        }
        if same {
            assert(hay@.subrange(i as int, i + m) =~= needle@);
            return true;
        }
        if i == n - m {
            assert forall|k: int| 0 <= k && k + m <= n implies #[trigger] hay@.subrange(k, k + m)
                != needle@ by {}
            return false;
        }
        i += 1;
    }
}

} // verus!
