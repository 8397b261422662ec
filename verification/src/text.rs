//! Reading a zero-padded field as text.

use crate::bytes::{trim, trimmed_length};
use crate::encoding::{text_at, text_bytes_at};
use crate::page::Page;
use crate::page_layout::{KEY_SIZE, PAGE_SIZE};
use vstd::prelude::*;
use vstd::slice::{slice_subrange, slice_to_vec};
use vstd::utf8::*;

verus! {

/// `String::from_utf8` of the standard library: a string whose bytes are
/// `bytes`, and nothing where `bytes` are not UTF-8.
#[verifier::external_body]
fn string_from_utf8(bytes: Vec<u8>) -> (res: Option<String>)
    ensures
        res is Some <==> valid_utf8(bytes@),
        res is Some ==> encode_utf8(res->Some_0@) == bytes@,
{
    match String::from_utf8(bytes) {
        Ok(text) => Some(text),
        Err(_) => None,
    }
}

/// The text that `bytes` spell once their trailing zero bytes are gone, and
/// nothing where what is left is not UTF-8.
pub fn text_of_field(bytes: &[u8]) -> (res: Option<String>)
    ensures
        res is Some <==> valid_utf8(trim(bytes@)),
        res is Some ==> res->Some_0@ == decode_utf8(trim(bytes@)),
{
    let len: usize = trimmed_length(bytes);
    proof {
        crate::bytes::lemma_trimmed_len_bound(bytes@);
    }
    let kept = slice_to_vec(slice_subrange(bytes, 0, len));
    let text = string_from_utf8(kept);
    proof {
        if text is Some {
            encode_utf8_decode_utf8(text->Some_0@);
        }
    }
    text
}

/// The text in the ten bytes of `page` from `at` on, and nothing where the
/// field is not UTF-8.
pub fn read_text(page: &Page, at: usize) -> (res: Option<String>)
    requires
        at + KEY_SIZE <= PAGE_SIZE,
    ensures
        res is Some <==> valid_utf8(text_bytes_at(page@, at as int)),
        res is Some ==> res->Some_0@ == text_at(page@, at as int),
{
    text_of_field(page.get_ptr_from_offset(at, KEY_SIZE))
}

} // verus!
