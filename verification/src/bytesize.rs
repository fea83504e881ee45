//! The minimum size as the user writes it: a number of bytes, with a unit or
//! without.

use vstd::prelude::*;
use vstd::string::*;

verus! {

/// Why a text is no byte size.
#[derive(Clone, Copy, Debug, PartialEq, Eq, Structural)]
pub enum ByteSizeError {
    /// The text is no number with an optional unit.
    Invalid,
    /// The number of bytes is beyond 64 bits.
    Overflow,
}

/// What `unbytify::unbytify` makes of a text.
pub uninterp spec fn unbytify_value(value: Seq<char>) -> Result<u64, ByteSizeError>;

/// What `char::is_whitespace` says of a character: whether it has the
/// property White_Space of Unicode.
pub uninterp spec fn is_white_space(c: char) -> bool;

/// Calls `char::is_whitespace`. The contract only names its result.
#[verifier::external_body]
fn white_space(c: char) -> (yes: bool)
    ensures
        yes == is_white_space(c),
{
    c.is_whitespace()
}

/// The text is parsed: it has a character that is not white space, and
/// the first such character is below 128.
pub open spec fn well_shaped(value: Seq<char>) -> bool {
    exists|i: int|
        0 <= i < value.len() && !is_white_space(#[trigger] value[i]) && value[i] as u32 <= 127
            && forall|j: int| 0 <= j < i ==> is_white_space(#[trigger] value[j])
}

/// Calls `unbytify::unbytify`, which trims the text of white space as
/// `char::is_whitespace` knows it, lowers its case and reads a number with an
/// optional unit, and hands on its result, the error variant for variant.
/// The function slices off the first byte of the trimmed and lowered text, so
/// a text without a character that is not white space is kept out, and a
/// text whose first such character is of 128 or above, which may take
/// several bytes when lowered. The contract claims only that the result is a
/// function of the text.
#[verifier::external_body]
fn unbytify_text(value: &str) -> (parsed: Result<u64, ByteSizeError>)
    requires
        well_shaped(value@),
    ensures
        parsed == unbytify_value(value@),
{
    match unbytify::unbytify(value) {
        Ok(bytes) => Ok(bytes),
        Err(unbytify::ParseError::Invalid) => Err(ByteSizeError::Invalid),
        Err(unbytify::ParseError::Overflow) => Err(ByteSizeError::Overflow),
    }
}

/// Whether a text has the shape that is parsed.
pub fn is_well_shaped(value: &str) -> (yes: bool)
    ensures
        yes == well_shaped(value@),
{
    let n = value.unicode_len();
    let mut i: usize = 0;
    while i < n
        invariant
            i <= n,
            n == value@.len(),
            forall|j: int| 0 <= j < i ==> is_white_space(#[trigger] value@[j]),
        decreases n - i,
    {
        let c = value.get_char(i);
        if !white_space(c) {
            let code: u32 = c as u32;
            assert(!is_white_space(value@[i as int]));
            return code <= 127;
        }
        i += 1;
    }
    false
}

/// What a text is as a byte size: what the parser makes of a well-shaped
/// text, and invalid otherwise.
pub open spec fn byte_size_of(value: Seq<char>) -> Result<u64, ByteSizeError> {
    if well_shaped(value) {
        unbytify_value(value)
    } else {
        Err(ByteSizeError::Invalid)
    }
}

/// Reads a byte size. A text that is all white space, or whose first
/// character that is not white space is of 128 or above, is invalid.
pub fn parse_byte_size(value: &str) -> (parsed: Result<u64, ByteSizeError>)
    ensures
        parsed == byte_size_of(value@),
{
    if is_well_shaped(value) {
        unbytify_text(value)
    } else {
        Err(ByteSizeError::Invalid)
    }
}

/// Accepts a text where it is a byte size.
pub fn validate_byte_size(value: &str) -> (verdict: Result<(), ByteSizeError>)
    ensures
        verdict == match byte_size_of(value@) {
            Ok(_) => Ok::<(), ByteSizeError>(()),
            Err(e) => Err(e),
        },
{
    match parse_byte_size(value) {
        Ok(_) => Ok(()),
        Err(e) => Err(e),
    }
}

} // verus!
