//! Delimiter validation: field mode works with exactly one byte.

use vstd::prelude::*;
use vstd::utf8::encode_utf8;

verus! {

/// The delimiter argument was not exactly one byte; carries the offending
/// value.
#[derive(Debug, PartialEq, Eq)]
pub struct DelimiterError {
    pub raw: String,
}

impl DelimiterError {
    /// The diagnostic text of the error.
    pub open spec fn spec_message(self) -> Seq<char> {
        "--delim \""@ + self.raw@ + "\" must be a single byte"@
    }

    /// Render the diagnostic text.
    pub fn message(&self) -> (r: String)
        ensures
            r@ == self.spec_message(),
    {
        let mut out = String::from_str("--delim \"");
        out.append(self.raw.as_str());
        out.append("\" must be a single byte");
        proof {
            assert(out@ =~= self.spec_message());
        }
        out
    }
}

/// Accept a delimiter argument exactly when its UTF-8 form is one byte, and
/// hand that byte back; anything else fails with the offending value.
pub fn parse_delimiter(s: &str) -> (r: Result<u8, DelimiterError>)
    ensures
        r is Ok <==> encode_utf8(s@).len() == 1,
        r is Ok ==> r->Ok_0 == encode_utf8(s@)[0],
        r is Err ==> r->Err_0.raw@ == s@,
{
    let bytes = s.as_bytes();
    if bytes.len() != 1 {
        return Err(DelimiterError { raw: String::from_str(s) });
    }
    Ok(bytes[0])
}

} // verus!
