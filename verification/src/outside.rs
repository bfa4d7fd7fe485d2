use vstd::prelude::*;

use crate::text::no_nl;

verus! {

// ---------------------------------------------------------------------------
// The two outside computations the library leans on: date reformatting and
// filename sanitization. Each result is a function of the argument bytes
// alone, so each gets a name that the callers' contracts speak of.
// ---------------------------------------------------------------------------

/// The mbox form of a date header value: `Some` exactly when the value
/// parses as an RFC 2822 or RFC 3339 date-time, and then the fixed
/// `asctime`-style rendering (`Wed Jul 01 10:52:37 2003`).
pub uninterp spec fn mbox_date_of(s: Seq<u8>) -> Option<Seq<u8>>;

/// The filesystem-safe form of a subject string.
pub uninterp spec fn sanitized_of(s: Seq<u8>) -> Seq<u8>;

/// Relies on chrono's `DateTime::parse_from_rfc2822`, falling back to
/// `DateTime::parse_from_rfc3339`, and on formatting with
/// `%a %b %d %H:%M:%S %Y`: parsing and formatting depend on the input bytes
/// alone, and the format string yields only ASCII words, digits, colons and
/// spaces, never a newline.
#[verifier::external_body]
pub fn format_mbox_date(value: &[u8]) -> (r: Option<Vec<u8>>)
    ensures
        (r is Some) == (mbox_date_of(value@) is Some),
        r matches Some(d) ==> mbox_date_of(value@) == Some(d@) && no_nl(d@),
{
    core::str::from_utf8(value).ok().and_then(
        |v|
            chrono::DateTime::parse_from_rfc2822(v).or_else(
                |_| chrono::DateTime::parse_from_rfc3339(v),
            ).ok().map(|dt| dt.format("%a %b %d %H:%M:%S %Y").to_string().into_bytes()),
    )
}

/// Relies on `sanitize_filename::sanitize`: with the default options the
/// result is a deterministic function of the input string alone.
#[verifier::external_body]
pub fn sanitize_component(value: &[u8]) -> (r: Vec<u8>)
    ensures
        r@ == sanitized_of(value@),
{
    sanitize_filename::sanitize(String::from_utf8_lossy(value).as_ref()).into_bytes()
}

} // verus!
