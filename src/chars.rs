//! Character classes and text conversions that come from the standard library.
use vstd::prelude::*;
use vstd::std_specs::iter::IteratorSpec;

verus! {

/// Whether `char::is_alphanumeric` holds of a character (Unicode Alphabetic or Numeric).
pub uninterp spec fn alphanumeric(c: char) -> bool;

/// Whether `char::is_whitespace` holds of a character (Unicode White_Space).
pub uninterp spec fn whitespace(c: char) -> bool;

/// What `str::to_lowercase` makes of a text.
pub uninterp spec fn lowercase_of(s: Seq<char>) -> Seq<char>;

/// A character that may stand inside an identifier.
pub open spec fn ident_char(c: char) -> bool {
    alphanumeric(c) || c == '_'
}

/// Relies on `char::is_alphanumeric`: among ASCII characters it holds of the letters
/// and the digits alone.
#[verifier::external_body]
pub(crate) fn is_alphanumeric(c: char) -> (r: bool)
    ensures
        r == alphanumeric(c),
        (c as u32) < 128 ==> (r <==> (48 <= (c as u32) <= 57 || 65 <= (c as u32) <= 90 || 97 <= (
        c as u32) <= 122)),
{
    c.is_alphanumeric()
}

/// Relies on `char::is_whitespace`: among ASCII characters it holds of the space and
/// of U+0009 to U+000D alone.
#[verifier::external_body]
pub(crate) fn is_whitespace(c: char) -> (r: bool)
    ensures
        r == whitespace(c),
        (c as u32) < 128 ==> (r <==> ((c as u32) == 32 || 9 <= (c as u32) <= 13)),
{
    c.is_whitespace()
}

/// Relies on `str::to_lowercase`: the result depends on the characters alone, and an
/// ASCII text keeps its length, with A to Z turned into a to z and the rest unchanged.
#[verifier::external_body]
pub(crate) fn to_lowercase(s: &str) -> (r: String)
    ensures
        r@ == lowercase_of(s@),
        (forall|i: int| 0 <= i < s@.len() ==> (#[trigger] s@[i] as u32) < 128) ==> {
            &&& r@.len() == s@.len()
            &&& forall|i: int|
                0 <= i < s@.len() ==> (#[trigger] r@[i] as u32) == if 65 <= (s@[i] as u32) <= 90 {
                    (s@[i] as u32) + 32
                } else {
                    (s@[i] as u32) as int
                }
        },
{
    s.to_lowercase()
}

/// The characters of a text, in order.
pub(crate) fn chars_of(s: &str) -> (r: Vec<char>)
    ensures
        r@ == s@,
{
    broadcast use vstd::string::axiom_spec_iter, vstd::string::next_postcondition;

    let mut it = s.chars();
    let mut out: Vec<char> = Vec::new();
    let mut done = false;
    while !done
        invariant
            it.obeys_prophetic_iter_laws(),
            out@ + it.remaining() == s@,
            done ==> out@ == s@,
        decreases s@.len() - out@.len(), if done {
            0int
        } else {
            1int
        },
    {
        match it.next() {
            Some(c) => {
                out.push(c);
                assert(out@ + it.remaining() =~= s@);
            },
            None => {
                assert(out@ =~= s@);
                done = true;
            },
        }
    }
    out
}

/// Relies on `String: FromIterator<&char>`: the characters are written in order.
#[verifier::external_body]
pub(crate) fn string_of(cs: &[char]) -> (r: String)
    ensures
        r@ == cs@,
{
    cs.iter().collect()
}

/// Whether a character may stand inside an identifier.
pub fn is_ident_char(c: char) -> (r: bool)
    ensures
        r == ident_char(c),
{
    c == '_' || is_alphanumeric(c)
}

} // verus!
