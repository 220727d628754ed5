//! The framing that `Content-Length` and `Transfer-Encoding` headers set.
use vstd::prelude::*;

use crate::errors::HttpHeaderParseError;
use crate::integer_decoder::{dec_buf_to_int, dec_decode_spec};
use crate::parser::BodyType;

verus! {

/// The byte with ASCII upper case letters made lower case.
pub open spec fn ascii_lower(b: u8) -> u8 {
    if 65 <= b <= 90 { (b + 32) as u8 } else { b }
}

/// `a` and `b` are equal but for the case of ASCII letters.
pub open spec fn eq_ignore_case(a: Seq<u8>, b: Seq<u8>) -> bool {
    a.len() == b.len() && forall|i: int| 0 <= i < a.len() ==> #[trigger] ascii_lower(a[i]) == ascii_lower(b[i])
}

/// `transfer-encoding`
pub open spec fn transfer_encoding_name() -> Seq<u8> {
    seq![116u8, 114, 97, 110, 115, 102, 101, 114, 45, 101, 110, 99, 111, 100, 105, 110, 103]
}

/// `content-length`
pub open spec fn content_length_name() -> Seq<u8> {
    seq![99u8, 111, 110, 116, 101, 110, 116, 45, 108, 101, 110, 103, 116, 104]
}

/// `chunked`
pub open spec fn chunked_name() -> Seq<u8> {
    seq![99u8, 104, 117, 110, 107, 101, 100]
}

/// The framing that a header field sets, if it sets one: `Transfer-Encoding: chunked` sets
/// chunked framing and any other transfer coding is refused; `Content-Length` sets the length
/// that its value spells in decimal; names are compared without regard to ASCII case, and so
/// is `chunked`.
#[verifier::opaque]
pub open spec fn body_type_spec(name: Seq<u8>, value: Seq<u8>) -> Result<Option<BodyType>, HttpHeaderParseError> {
    if eq_ignore_case(name, transfer_encoding_name()) {
        if eq_ignore_case(value, chunked_name()) {
            Ok(Some(BodyType::Chunked))
        } else {
            Err(HttpHeaderParseError::UnrecognizedTransferEncoding)
        }
    } else if eq_ignore_case(name, content_length_name()) {
        match dec_decode_spec(value) {
            Ok(n) => Ok(Some(BodyType::Length(n as usize))),
            Err(e) => Err(HttpHeaderParseError::ContentLength(e)),
        }
    } else {
        Ok(None)
    }
}

/// Compares `a` with `b` without regard to the case of ASCII letters.
pub fn bytes_eq_ignore_case(a: &[u8], b: &[u8]) -> (r: bool)
    ensures
        r == eq_ignore_case(a@, b@),
{
    if a.len() != b.len() {
        return false;
    }
    let mut i: usize = 0;
    while i < a.len()
        invariant
            a@.len() == b@.len(),
            i <= a@.len(),
            forall|k: int| 0 <= k < i ==> #[trigger] ascii_lower(a@[k]) == ascii_lower(b@[k]),
        decreases a@.len() - i,
    {
        let x = if 65 <= a[i] && a[i] <= 90 { a[i] + 32 } else { a[i] };
        let y = if 65 <= b[i] && b[i] <= 90 { b[i] + 32 } else { b[i] };
        if x != y {
            assert(ascii_lower(a@[i as int]) != ascii_lower(b@[i as int]));
            return false;
        }
        i = i + 1;
    }
    true
}

/// The framing that the header field `name: value` sets, if any (see `body_type_spec`).
pub fn body_type_from_header(name: &[u8], value: &[u8]) -> (r: Result<Option<BodyType>, HttpHeaderParseError>)
    ensures
        r == body_type_spec(name@, value@),
{
    reveal(body_type_spec);
    let te: [u8; 17] = [116, 114, 97, 110, 115, 102, 101, 114, 45, 101, 110, 99, 111, 100, 105, 110, 103];
    let cl: [u8; 14] = [99, 111, 110, 116, 101, 110, 116, 45, 108, 101, 110, 103, 116, 104];
    let ch: [u8; 7] = [99, 104, 117, 110, 107, 101, 100];
    assert(te@ == transfer_encoding_name());
    assert(cl@ == content_length_name());
    assert(ch@ == chunked_name());
    if bytes_eq_ignore_case(name, te.as_slice()) {
        if bytes_eq_ignore_case(value, ch.as_slice()) {
            Ok(Some(BodyType::Chunked))
        } else {
            Err(HttpHeaderParseError::UnrecognizedTransferEncoding)
        }
    } else if bytes_eq_ignore_case(name, cl.as_slice()) {
        match dec_buf_to_int(value) {
            Ok(n) => Ok(Some(BodyType::Length(n))),
            Err(e) => Err(HttpHeaderParseError::ContentLength(e)),
        }
    } else {
        Ok(None)
    }
}

proof fn lemma_eq_ignore_case_swap(a: Seq<u8>, b: Seq<u8>, c: Seq<u8>)
    requires
        eq_ignore_case(a, b),
    ensures
        eq_ignore_case(a, c) == eq_ignore_case(b, c),
{
    if eq_ignore_case(a, c) {
        assert forall|i: int| 0 <= i < b.len() implies #[trigger] ascii_lower(b[i]) == ascii_lower(c[i]) by {
            assert(ascii_lower(a[i]) == ascii_lower(b[i]));
            assert(ascii_lower(a[i]) == ascii_lower(c[i]));
        }
    }
    if eq_ignore_case(b, c) {
        assert forall|i: int| 0 <= i < a.len() implies #[trigger] ascii_lower(a[i]) == ascii_lower(c[i]) by {
            assert(ascii_lower(a[i]) == ascii_lower(b[i]));
            assert(ascii_lower(b[i]) == ascii_lower(c[i]));
        }
    }
}

/// The framing that a header sets does not change when the ASCII letters of its name change
/// case, nor, for `Transfer-Encoding`, when those of its value do.
pub proof fn lemma_framing_ignores_case(name: Seq<u8>, value: Seq<u8>, name2: Seq<u8>, value2: Seq<u8>)
    requires
        eq_ignore_case(name, name2),
        eq_ignore_case(name, transfer_encoding_name()) ==> eq_ignore_case(value, value2),
        !eq_ignore_case(name, transfer_encoding_name()) ==> value == value2,
    ensures
        body_type_spec(name, value) == body_type_spec(name2, value2),
{
    reveal(body_type_spec);
    lemma_eq_ignore_case_swap(name, name2, transfer_encoding_name());
    lemma_eq_ignore_case_swap(name, name2, content_length_name());
    if eq_ignore_case(name, transfer_encoding_name()) {
        lemma_eq_ignore_case_swap(value, value2, chunked_name());
    }
}

} // verus!
