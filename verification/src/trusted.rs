//! Declarations over the outside crates the library calls.  Each wrapper's
//! contract is what the outside crate's source and documentation plainly
//! promise; nothing here is proved.
use vstd::prelude::*;

verus! {

/// What urlencoding's percent-encoding returns for a byte string: a pure
/// function of the bytes alone.
pub uninterp spec fn encoded_of(s: Seq<u8>) -> Seq<u8>;

/// Relies on urlencoding::encode_binary: percent-encodes every byte except
/// ASCII alphanumerics and `-`, `_`, `.`, `~`; the result is a function of
/// the input bytes alone, and an empty input stays empty.
#[verifier::external_body]
pub(crate) fn url_encode(s: &[u8]) -> (r: Vec<u8>)
    ensures
        r@ == encoded_of(s@),
        s@.len() == 0 ==> r@.len() == 0,
{
    urlencoding::encode_binary(s).into_owned().into_bytes()
}

/// Relies on chrono::Local::now and NaiveDate: the civil date of this
/// machine's clock, as (year, month, day).  Only the documented ranges of
/// month and day hold of every outcome; two calls may differ.
#[verifier::external_body]
pub(crate) fn current_date() -> (r: (i32, u32, u32))
    ensures
        1 <= r.1 <= 12,
        1 <= r.2 <= 31,
{
    let d = chrono::Local::now().date_naive();
    (chrono::Datelike::year(&d), chrono::Datelike::month(&d), chrono::Datelike::day(&d))
}

} // verus!
