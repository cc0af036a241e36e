use vstd::prelude::*;
use vstd::utf8::{decode_utf8, valid_utf8};

verus! {

/// The four bytes of `kind`, least significant first.
pub open spec fn kind_bytes(kind: u32) -> Seq<u8> {
    seq![
        (kind % 256) as u8,
        ((kind / 256) % 256) as u8,
        ((kind / 65536) % 256) as u8,
        (kind / 16777216) as u8,
    ]
}

/// Relies on std's `String::from_utf8`: it succeeds exactly when the bytes
/// are valid UTF-8, and the string then holds the characters they encode.
#[verifier::external_body]
fn utf8_string(bytes: Vec<u8>) -> (r: Option<String>)
    ensures
        r is Some <==> valid_utf8(bytes@),
        r is Some ==> r->Some_0@ == decode_utf8(bytes@),
{
    String::from_utf8(bytes).ok()
}

/// The tag that the group kind `kind` spells when its little-endian bytes
/// are read as UTF-8 text, or `None` where they are not valid UTF-8.
pub fn kind_to_string(kind: u32) -> (r: Option<String>)
    ensures
        r is Some <==> valid_utf8(kind_bytes(kind)),
        r is Some ==> r->Some_0@ == decode_utf8(kind_bytes(kind)),
{
    let mut bytes: Vec<u8> = Vec::with_capacity(4);
    bytes.push((kind % 256) as u8);
    bytes.push(((kind / 256) % 256) as u8);
    bytes.push(((kind / 65536) % 256) as u8);
    bytes.push((kind / 16777216) as u8);
    assert(bytes@ =~= kind_bytes(kind));
    utf8_string(bytes)
}

} // verus!
