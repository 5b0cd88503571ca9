//! Facts about the UTF-8 encoding of a text and of its prefixes.
//!
//! The byte positions at which a text may be cut without splitting a
//! character are exactly the encoded lengths of its prefixes. The lemmas
//! here connect the two descriptions.

use vstd::prelude::*;
use vstd::utf8::*;

verus! {

/// Number of bytes that `text` takes in UTF-8.
pub open spec fn encoded_len(text: Seq<char>) -> nat {
    encode_utf8(text).len()
}

/// The encoding of a single character takes between one and four bytes.
pub proof fn lemma_encode_scalar_len(character: char)
    ensures
        1 <= encode_scalar(character as u32).len() <= 4,
{
}

/// Encoding distributes over concatenation.
pub proof fn lemma_encode_utf8_concat(left: Seq<char>, right: Seq<char>)
    ensures
        encode_utf8(left + right) == encode_utf8(left) + encode_utf8(right),
    decreases left.len(),
{
    if left.len() == 0 {
        assert(left + right =~= right);
        assert(encode_utf8(left) + encode_utf8(right) =~= encode_utf8(right));
    } else {
        assert((left + right).drop_first() =~= left.drop_first() + right);
        lemma_encode_utf8_concat(left.drop_first(), right);
        assert(encode_utf8(left + right) =~= encode_utf8(left) + encode_utf8(right));
    }
}

/// A text takes at least one byte per character.
pub proof fn lemma_encoded_len_lower_bound(text: Seq<char>)
    ensures
        text.len() <= encoded_len(text),
    decreases text.len(),
{
    if text.len() > 0 {
        lemma_encode_scalar_len(text[0]);
        lemma_encoded_len_lower_bound(text.drop_first());
    }
}

/// The encoding of a prefix is a prefix of the encoding.
pub proof fn lemma_encode_utf8_take(text: Seq<char>, count: int)
    requires
        0 <= count <= text.len(),
    ensures
        encoded_len(text.take(count)) <= encoded_len(text),
        encode_utf8(text.take(count)) == encode_utf8(text).take(
            encoded_len(text.take(count)) as int,
        ),
        encode_utf8(text.skip(count)) == encode_utf8(text).skip(
            encoded_len(text.take(count)) as int,
        ),
{
    let head = text.take(count);
    let tail = text.skip(count);
    assert(head + tail =~= text);
    lemma_encode_utf8_concat(head, tail);
    assert((encode_utf8(head) + encode_utf8(tail)).take(encode_utf8(head).len() as int)
        =~= encode_utf8(head));
    assert((encode_utf8(head) + encode_utf8(tail)).skip(encode_utf8(head).len() as int)
        =~= encode_utf8(tail));
}

/// Longer prefixes take more bytes: at least one more for each further
/// character.
pub proof fn lemma_encoded_len_of_prefixes(text: Seq<char>, shorter: int, longer: int)
    requires
        0 <= shorter <= longer <= text.len(),
    ensures
        encoded_len(text.take(shorter)) + (longer - shorter) <= encoded_len(text.take(longer)),
{
    let middle = text.subrange(shorter, longer);
    assert(text.take(shorter) + middle =~= text.take(longer));
    lemma_encode_utf8_concat(text.take(shorter), middle);
    lemma_encoded_len_lower_bound(middle);
}

/// The encoded length of every prefix of a text is a character boundary of
/// the text's encoding.
pub proof fn lemma_prefix_ends_on_boundary(text: Seq<char>, count: int)
    requires
        0 <= count <= text.len(),
    ensures
        is_char_boundary(encode_utf8(text), encoded_len(text.take(count)) as int),
{
    broadcast use encode_utf8_valid_utf8;

    let bytes = encode_utf8(text);
    let index = encoded_len(text.take(count)) as int;
    lemma_encode_utf8_take(text, count);
    if count == text.len() {
        assert(text.take(count) =~= text);
        is_char_boundary_start_end_of_seq(bytes);
    } else {
        let tail = text.skip(count);
        lemma_encoded_len_lower_bound(tail);
        encode_utf8_first_scalar(tail);
        assert(encode_utf8(tail)[0] == bytes[index]);
        is_char_boundary_iff_not_is_continuation_byte(bytes, index);
    }
}

/// Every character boundary of a text's encoding is the encoded length of one
/// of the text's prefixes: the bytes before it decode to that prefix.
pub proof fn lemma_boundary_ends_prefix(text: Seq<char>, index: int)
    requires
        is_char_boundary(encode_utf8(text), index),
    ensures
        0 <= index <= encoded_len(text),
        ({
            let prefix = decode_utf8(encode_utf8(text).subrange(0, index));
            &&& prefix.len() <= text.len()
            &&& prefix == text.take(prefix.len() as int)
            &&& encode_utf8(prefix) == encode_utf8(text).subrange(0, index)
        }),
{
    broadcast use encode_utf8_valid_utf8;

    let bytes = encode_utf8(text);
    encode_utf8_decode_utf8(text);
    valid_utf8_split(bytes, index);
    decode_utf8_split(bytes, index);
    let prefix = decode_utf8(bytes.subrange(0, index));
    let rest = decode_utf8(bytes.subrange(index, bytes.len() as int));
    assert(text =~= prefix + rest);
    assert(prefix =~= text.take(prefix.len() as int));
    decode_utf8_encode_utf8(bytes.subrange(0, index));
}

} // verus!
