//! JSON string literals, written and read by `serde_json`.
//!
//! Keys and values are stored in the log as JSON string literals. Writing and
//! reading such a literal is left to `serde_json`; this module names the two
//! results and states, without proof, how they relate.

use vstd::prelude::*;

verus! {

/// The bytes that `serde_json` writes for the string `s`: a JSON string
/// literal, quotes and escapes included.
pub uninterp spec fn json_string(s: Seq<char>) -> Seq<u8>;

/// What `serde_json` reads when asked for one string at the head of `input`:
/// the string and the number of bytes it took, or `None` where `input` does
/// not begin with a string literal.
pub uninterp spec fn json_string_read(input: Seq<u8>) -> Option<(Seq<char>, nat)>;

/// `serde_json::Error`, carried through as it is.
#[verifier::external_type_specification]
#[verifier::external_body]
pub struct ExJsonError(serde_json::Error);

/// Calls `serde_json::to_vec` on a string slice.
///
/// Believed without proof: the call succeeds (a string always serialises, and
/// writing into a vector cannot fail); its output is the literal named
/// `json_string`, which begins with a double quote; and `serde_json` reads
/// that literal back as the same string, taking exactly its bytes, whatever
/// follows it in the input.
#[verifier::external_body]
pub(crate) fn write_json_string(s: &str) -> (r: Result<Vec<u8>, serde_json::Error>)
    ensures
        r is Ok,
        r->Ok_0@ == json_string(s@),
        r->Ok_0@.len() > 0 && r->Ok_0@[0] == 0x22u8,
        forall|rest: Seq<u8>| #[trigger]
            json_string_read(r->Ok_0@ + rest) == Some((s@, r->Ok_0@.len())),
{
    serde_json::to_vec(s)
}

/// Reads one string from the head of `input` with `serde_json`'s stream
/// deserializer (`Deserializer::from_slice`, `into_iter::<String>`, `next`,
/// `byte_offset`).
///
/// Believed without proof: the outcome is the one named `json_string_read`;
/// the bytes taken lie within `input`; and the reader looks no further than the
/// bytes it takes, so any input that begins with the same bytes reads alike.
/// An input that holds nothing but white space gives `Ok(None)`.
#[verifier::external_body]
pub(crate) fn read_json_string(input: &[u8]) -> (r: Result<Option<(String, usize)>, serde_json::Error>)
    ensures
        match r {
            Ok(Some((s, n))) => json_string_read(input@) == Some((s@, n as nat)),
            _ => json_string_read(input@) is None,
        },
        r matches Ok(Some((s, n))) ==> n <= input@.len(),
        r matches Ok(Some((s, n))) ==> forall|other: Seq<u8>|
            n <= other.len() && other.subrange(0, n as int) == input@.subrange(0, n as int)
                ==> #[trigger] json_string_read(other) == Some((s@, n as nat)),
{
    let mut stream = serde_json::Deserializer::from_slice(input).into_iter::<String>();
    match stream.next() {
        Some(Ok(s)) => Ok(Some((s, stream.byte_offset()))),
        Some(Err(e)) => Err(e),
        None => Ok(None),
    }
}

} // verus!
