//! Turning sentences into the character sequences that the parser reads, and back.
pub mod hangul;

use vstd::prelude::*;
use crate::text::{chars_of, string_from};

verus! {

/// What `str::to_lowercase` gives for a text: Unicode's lowercase mapping,
/// applied character by character with the final-sigma rule.
pub uninterp spec fn lowercase(s: Seq<char>) -> Seq<char>;

/// Calls `str::to_lowercase`; its result is the fixed function [`lowercase`] of the
/// input (Unicode case tables are compiled into std, so equal inputs give equal
/// results). Nothing more is claimed of the mapping.
#[verifier::external_body]
fn to_lowercase(s: &str) -> (r: String)
    ensures
        r@ == lowercase(s@),
{
    s.to_lowercase()
}

/// The text with every `_` read as a space.
pub open spec fn underscores_as_spaces(s: Seq<char>) -> Seq<char> {
    s.map_values(|c: char| if c == '_' { ' ' } else { c })
}

/// Replaces every `_` by a space.
pub fn spaces_for_underscores(v: &[char]) -> (r: Vec<char>)
    ensures
        r@ == underscores_as_spaces(v@),
{
    let mut r: Vec<char> = Vec::new();
    let mut i: usize = 0;
    while i < v.len()
        invariant
            i <= v.len(),
            r@ == underscores_as_spaces(v@.take(i as int)),
        decreases v.len() - i,
    {
        let c = v[i];
        r.push(if c == '_' { ' ' } else { c });
        assert(underscores_as_spaces(v@.take(i + 1)) == underscores_as_spaces(
            v@.take(i as int),
        ).push(if c == '_' { ' ' } else { c }));
        i = i + 1;
    }
    assert(v@.take(i as int) == v@);
    r
}

/// The characters that the parser reads for a text: the text in lowercase, with
/// `_` read as a space.
pub fn disassemble(s: &str) -> (r: Vec<char>)
    ensures
        r@ == underscores_as_spaces(lowercase(s@)),
{
    let lower = to_lowercase(s);
    let cs = chars_of(lower.as_str());
    spaces_for_underscores(cs.as_slice())
}

/// The same for a text held as characters.
pub fn disassemble_chars(s: &[char]) -> (r: Vec<char>)
    ensures
        r@ == underscores_as_spaces(lowercase(s@)),
{
    let st = string_from(s);
    disassemble(st.as_str())
}

/// Turns parsed characters back into text; for this script it is the text itself.
pub fn assemble(s: &str) -> (r: String)
    ensures
        r@ == s@,
{
    s.to_owned()
}

} // verus!
