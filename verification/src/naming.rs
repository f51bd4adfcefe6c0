//! Names for spill units that do not collide.

use vstd::prelude::*;

verus! {

/// A lower-case hexadecimal digit.
pub open spec fn is_lower_hex(c: char) -> bool {
    ('0' as u32 <= c as u32 && c as u32 <= '9' as u32) || ('a' as u32 <= c as u32 && c as u32
        <= 'f' as u32)
}

/// The hyphenated form of a 128-bit tag: 32 lower-case hexadecimal digits in
/// groups of 8, 4, 4, 4 and 12, with a hyphen between the groups.
pub open spec fn is_hyphenated_tag(s: Seq<char>) -> bool {
    &&& s.len() == 36
    &&& forall|i: int|
        #![trigger s[i]]
        0 <= i < 36 ==> if i == 8 || i == 13 || i == 18 || i == 23 {
            s[i] == '-'
        } else {
            is_lower_hex(s[i])
        }
}

/// The name of the spill unit with the given tag.
pub open spec fn chunk_name(tag: Seq<char>) -> Seq<char> {
    "chunk_"@ + tag + ".tmp"@
}

/// `String::push_str` of std appends the given string slice to the string.
pub assume_specification[ String::push_str ](s: &mut String, string: &str)
    ensures
        final(s)@ == old(s)@ + string@,
;

/// Draws a random tag with `uuid::Uuid::new_v4` and formats it with the
/// `Display` impl of `uuid::Uuid`.
///
/// Trusted: uuid formats every value in its hyphenated lower-case form, which
/// is all that is claimed here. Which tag comes back is left open: two calls
/// need not agree. The call fails only where the system cannot supply random
/// bytes.
#[verifier::external_body]
fn fresh_tag() -> (tag: String)
    ensures
        is_hyphenated_tag(tag@),
{
    uuid::Uuid::new_v4().to_string()
}

/// The file name of the spill unit with the given tag.
pub fn chunk_file_name(tag: &str) -> (name: String)
    ensures
        name@ == chunk_name(tag@),
{
    let mut name = "chunk_".to_owned();
    name.push_str(tag);
    name.push_str(".tmp");
    name
}

/// A file name for a new spill unit, made from a fresh random tag.
pub fn fresh_chunk_file_name() -> (name: String)
    ensures
        exists|tag: Seq<char>| is_hyphenated_tag(tag) && name@ == chunk_name(tag),
{
    let tag = fresh_tag();
    chunk_file_name(tag.as_str())
}

} // verus!
