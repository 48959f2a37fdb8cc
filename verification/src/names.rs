//! Rules that are decided by a file name alone.

use vstd::prelude::*;
use vstd::string::*;

verus! {

/// The suffix that marks a file as a page template.
pub open spec fn page_suffix() -> Seq<char> {
    ".html.jinja"@
}

/// A name is a page name when it ends with the page suffix.
pub open spec fn is_page_name(name: Seq<char>) -> bool {
    page_suffix().is_suffix_of(name)
}

/// A name is skipped when it starts with `.git`, is `dist`, ends with `~`
/// or starts with `_`.
pub open spec fn is_skipped_name(name: Seq<char>) -> bool {
    ||| ".git"@.is_prefix_of(name)
    ||| name == "dist"@
    ||| "~"@.is_suffix_of(name)
    ||| "_"@.is_prefix_of(name)
}

/// Whether `text` begins with `prefix`.
pub fn starts_with(text: &str, prefix: &str) -> (found: bool)
    ensures
        found == prefix@.is_prefix_of(text@),
{
    let n = prefix.unicode_len();
    let m = text.unicode_len();
    if n > m {
        return false;
    }
    let mut i: usize = 0;
    while i < n
        invariant
            i <= n <= m,
            n == prefix@.len(),
            m == text@.len(),
            forall|j: int| 0 <= j < i ==> text@[j] == prefix@[j],
        decreases n - i,
    {
        if text.get_char(i) != prefix.get_char(i) {
            return false;
        }
        i += 1;
    }
    true
}

/// Whether `text` ends with `suffix`.
pub fn ends_with(text: &str, suffix: &str) -> (found: bool)
    ensures
        found == suffix@.is_suffix_of(text@),
{
    let n = suffix.unicode_len();
    let m = text.unicode_len();
    if n > m {
        return false;
    }
    let skip = m - n;
    let mut i: usize = 0;
    while i < n
        invariant
            i <= n <= m,
            skip == m - n,
            n == suffix@.len(),
            m == text@.len(),
            forall|j: int| 0 <= j < i ==> text@[skip + j] == suffix@[j],
        decreases n - i,
    {
        if text.get_char(skip + i) != suffix.get_char(i) {
            assert(text@.subrange(skip as int, m as int)[i as int] != suffix@[i as int]);
            return false;
        }
        i += 1;
    }
    true
}

/// Whether a file of this name is a page template.
pub fn is_page(filename: &str) -> (page: bool)
    ensures
        page == is_page_name(filename@),
{
    ends_with(filename, ".html.jinja")
}

/// Whether an entry of this name is left out of the site.
pub fn must_skip(filename: &str) -> (skip: bool)
    ensures
        skip == is_skipped_name(filename@),
{
    starts_with(filename, ".git") || same_text(filename, "dist") || ends_with(filename, "~")
        || starts_with(filename, "_")
}

/// Whether two texts hold the same characters.
pub fn same_text(a: &str, b: &str) -> (same: bool)
    ensures
        same == (a@ == b@),
{
    let same = a.unicode_len() == b.unicode_len() && starts_with(a, b);
    assert(same ==> a@ =~= b@);
    same
}

} // verus!
