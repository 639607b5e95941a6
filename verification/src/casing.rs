//! Upper and lower case after Unicode.
use vstd::prelude::*;

verus! {

/// What `str::to_uppercase` makes of a text.
pub uninterp spec fn uppercased(s: Seq<char>) -> Seq<char>;

/// What `str::to_lowercase` makes of a text.
pub uninterp spec fn lowercased(s: Seq<char>) -> Seq<char>;

/// Every character is an ASCII character.
pub open spec fn is_ascii_text(s: Seq<char>) -> bool {
    forall|i: int| 0 <= i < s.len() ==> (#[trigger] s[i] as u32) < 0x80
}

/// The capital of a small ASCII letter; any other character as it is.
pub open spec fn ascii_upper(c: char) -> char {
    if 'a' <= c <= 'z' {
        (c as u32 - 0x20) as char
    } else {
        c
    }
}

/// The small letter of an ASCII capital; any other character as it is.
pub open spec fn ascii_lower(c: char) -> char {
    if 'A' <= c <= 'Z' {
        (c as u32 + 0x20) as char
    } else {
        c
    }
}

/// The text with its small ASCII letters made capitals.
pub open spec fn ascii_uppercased(s: Seq<char>) -> Seq<char> {
    s.map_values(|c: char| ascii_upper(c))
}

/// The text with its ASCII capitals made small letters.
pub open spec fn ascii_lowercased(s: Seq<char>) -> Seq<char> {
    s.map_values(|c: char| ascii_lower(c))
}

/// Changing the case of ASCII letters changes no other character and no length; capitals and small
/// letters are 32 apart.
pub proof fn ascii_case_changes_letters(s: Seq<char>, i: int)
    requires
        0 <= i < s.len(),
    ensures
        ascii_uppercased(s).len() == s.len(),
        ascii_lowercased(s).len() == s.len(),
        'a' <= s[i] <= 'z' ==> ascii_uppercased(s)[i] as int == s[i] as int - 32,
        !('a' <= s[i] <= 'z') ==> ascii_uppercased(s)[i] == s[i],
        'A' <= s[i] <= 'Z' ==> ascii_lowercased(s)[i] as int == s[i] as int + 32,
        !('A' <= s[i] <= 'Z') ==> ascii_lowercased(s)[i] == s[i],
        (s[i] as u32) >= 0x80 ==> !is_ascii_text(s),
        (forall|k: int| 0 <= k < s.len() ==> (#[trigger] s[k] as u32) < 0x80) ==> is_ascii_text(s),
{
}

/// Calls `str::to_uppercase`: the result depends on the text alone, by the case mappings of
/// Unicode, which make ASCII letters the capitals that ASCII has for them.
#[verifier::external_body]
pub(crate) fn uppercase(s: &str) -> (r: String)
    ensures
        r@ == uppercased(s@),
        is_ascii_text(s@) ==> r@ == ascii_uppercased(s@),
{
    s.to_uppercase()
}

/// Calls `str::to_lowercase`: the result depends on the text alone, by the case mappings of
/// Unicode, which make ASCII letters the small letters that ASCII has for them.
#[verifier::external_body]
pub(crate) fn lowercase(s: &str) -> (r: String)
    ensures
        r@ == lowercased(s@),
        is_ascii_text(s@) ==> r@ == ascii_lowercased(s@),
{
    s.to_lowercase()
}

} // verus!
