//! Framing of the messages that go to the frontend.

use crate::text::{decimal, to_decimal};
use vstd::prelude::*;
use vstd::string::*;

verus! {

/// A message as it goes over the wire: the header `Content-length`, the
/// length of the body in bytes, an empty line, and the body.
pub open spec fn framed(body: Seq<char>) -> Seq<char> {
    "Content-length: "@ + decimal(vstd::utf8::encode_utf8(body).len()) + "\n\n"@ + body
}

/// Puts the `Content-length` header in front of a message body.
pub fn frame(body: &str) -> (message: String)
    ensures
        message@ == framed(body@),
{
    let length = body.as_bytes().len();
    let mut message = "Content-length: ".to_owned();
    let digits = to_decimal(length as u64);
    message.append(digits.as_str());
    message.append("\n\n");
    message.append(body);
    message
}

} // verus!
