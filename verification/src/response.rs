//! The head of the server's responses.
use vstd::prelude::*;
use crate::bytes::{digits, digits_of, lemma_digits_of_value, push_all};
use crate::http::{lemma_xor_value_digits, xor_value};

verus! {

/// The head of a successful response carrying `len` bytes of type
/// `contype`. The length is written with the digits of `len`, which for
/// an empty body are none at all.
pub open spec fn response_head_text(contype: Seq<u8>, len: nat) -> Seq<u8> {
    seq![72u8, 84, 84, 80, 47, 49, 46, 49, 32, 50, 48, 48, 32, 79, 75, 13, 10, 67, 111, 110, 116, 101, 110, 116, 45, 84, 121, 112, 101, 58, 32] + contype + seq![13u8, 10, 67, 111, 110, 116, 101, 110, 116, 45, 76, 101, 110, 103, 116, 104, 58, 32] + digits_of(len)
        + seq![13u8, 10, 13, 10]
}

/// The head of a successful response with a body of `len` bytes of type
/// `contype`; the body follows it.
pub fn response_head(contype: &[u8], len: usize) -> (r: Vec<u8>)
    ensures
        r@ == response_head_text(contype@, len as nat),
{
    let mut out: Vec<u8> = Vec::new();
    push_all(&mut out, &[72u8, 84, 84, 80, 47, 49, 46, 49, 32, 50, 48, 48, 32, 79, 75, 13, 10, 67, 111, 110, 116, 101, 110, 116, 45, 84, 121, 112, 101, 58, 32]);
    push_all(&mut out, contype);
    push_all(&mut out, &[13u8, 10, 67, 111, 110, 116, 101, 110, 116, 45, 76, 101, 110, 103, 116, 104, 58, 32]);
    let d = digits(len as u64);
    push_all(&mut out, d.as_slice());
    push_all(&mut out, &[13u8, 10, 13, 10]);
    assert(out@ =~= response_head_text(contype@, len as nat));
    out
}

/// The length that a response announces is the length of its body, as
/// this server reads a `Content-Length` value: the digits of `len` read
/// back as `len` (no digits read as zero).
pub proof fn lemma_length_field(len: nat)
    ensures
        xor_value(digits_of(len)) == len,
{
    lemma_digits_of_value(len);
    lemma_xor_value_digits(digits_of(len));
}

} // verus!
