//! Whitespace trimming over UTF-8 bytes.
//!
//! Submitted link text and edited descriptions are trimmed before use. The
//! trimmed value is specified byte for byte: ASCII whitespace bytes are
//! stripped from both ends, which on UTF-8 text is exactly what stripping
//! leading and trailing ASCII whitespace characters does.

use vstd::prelude::*;
use vstd::utf8::encode_utf8;

verus! {

/// Whether `b` is an ASCII whitespace byte: space, tab, line feed, form
/// feed or carriage return.
pub open spec fn is_ws_byte(b: u8) -> bool {
    b == 0x20 || b == 0x09 || b == 0x0A || b == 0x0C || b == 0x0D
}

/// `b` without its leading ASCII whitespace bytes.
pub open spec fn trim_front(b: Seq<u8>) -> Seq<u8>
    decreases b.len(),
{
    if b.len() > 0 && is_ws_byte(b[0]) {
        trim_front(b.drop_first())
    } else {
        b
    }
}

/// `b` without its trailing ASCII whitespace bytes.
pub open spec fn trim_back(b: Seq<u8>) -> Seq<u8>
    decreases b.len(),
{
    if b.len() > 0 && is_ws_byte(b.last()) {
        trim_back(b.drop_last())
    } else {
        b
    }
}

/// `b` without leading and trailing ASCII whitespace bytes.
pub open spec fn trimmed(b: Seq<u8>) -> Seq<u8> {
    trim_back(trim_front(b))
}

/// Relies on str::trim_ascii: it returns the slice with leading and
/// trailing ASCII whitespace characters removed, which at the byte level is
/// the slice with leading and trailing ASCII whitespace bytes removed.
#[verifier::external_body]
pub(crate) fn trim_ascii_str(s: &str) -> (r: &str)
    ensures
        encode_utf8(r@) == trimmed(encode_utf8(s@)),
{
    s.trim_ascii()
}

/// Trims `s` and returns the result as an owned string.
pub fn trimmed_string(s: &str) -> (r: String)
    ensures
        encode_utf8(r@) == trimmed(encode_utf8(s@)),
{
    trim_ascii_str(s).to_owned()
}

} // verus!
