//! Lossy re-encoding of text into an 8-bit character set, one byte for each
//! character, through a mapping that the caller supplies.

use vstd::prelude::*;
use vstd::std_specs::iter::IteratorSpec;
use vstd::string::StrSliceExecFns;

verus! {

broadcast use vstd::string::group_string_axioms;

/// True when `output` holds, for each of the first `count` characters of
/// `text` and in their order, a byte that `mapping` returns for it.
pub open spec fn is_8bit_encoding<F: Fn(char) -> u8>(
    mapping: F,
    text: Seq<char>,
    count: int,
    output: Seq<u8>,
) -> bool {
    &&& 0 <= count <= text.len()
    &&& output.len() == count
    &&& forall|i: int| 0 <= i < count ==> call_ensures(mapping, (text[i],), #[trigger] output[i])
}

/// Number of characters that the encoder keeps of `text` under the cap
/// `maximum_length`.
pub open spec fn retained_characters(text: Seq<char>, maximum_length: usize) -> int {
    if text.len() <= maximum_length {
        text.len() as int
    } else {
        maximum_length as int
    }
}

/// Appends to `result` the image under `replacement_function` of each of the
/// first `maximum_number_of_characters` characters of `string`.
///
/// The count is not checked at run time: that it does not exceed the number
/// of characters present is a precondition.
pub fn to_8bit_encoding_unsafe<F>(
    string: &str,
    maximum_number_of_characters: usize,
    replacement_function: F,
    result: &mut Vec<u8>,
) where F: Fn(char) -> u8
    requires
        maximum_number_of_characters <= string@.len(),
        forall|i: int|
            0 <= i < maximum_number_of_characters ==> call_requires(
                replacement_function,
                (#[trigger] string@[i],),
            ),
    ensures
        final(result)@.len() == old(result)@.len() + maximum_number_of_characters,
        final(result)@.take(old(result)@.len() as int) == old(result)@,
        is_8bit_encoding(
            replacement_function,
            string@,
            maximum_number_of_characters as int,
            final(result)@.skip(old(result)@.len() as int),
        ),
{
    let ghost before = result@;
    let mut characters = string.chars();
    let mut index: usize = 0;
    while index < maximum_number_of_characters
        invariant
            index <= maximum_number_of_characters <= string@.len(),
            characters.remaining() == string@.skip(index as int),
            result@.len() == before.len() + index,
            result@.take(before.len() as int) == before,
            forall|i: int|
                0 <= i < maximum_number_of_characters ==> call_requires(
                    replacement_function,
                    (#[trigger] string@[i],),
                ),
            forall|i: int|
                0 <= i < index ==> call_ensures(
                    replacement_function,
                    (string@[i],),
                    #[trigger] result@[before.len() + i],
                ),
        decreases maximum_number_of_characters - index,
    {
        let character = characters.next().unwrap();
        let byte = replacement_function(character);
        result.push(byte);
        index += 1;
    }
    proof {
        let appended = result@.skip(before.len() as int);
        assert forall|i: int| 0 <= i < maximum_number_of_characters implies call_ensures(
            replacement_function,
            (string@[i],),
            #[trigger] appended[i],
        ) by {
            assert(appended[i] == result@[before.len() + i]);
        }
    }
}

/// Encodes at most `maximum_length` characters of `string`, one byte each,
/// and returns the bytes by value.
///
/// The bytes are raw 8-bit data and need not be valid UTF-8.
pub fn to_8bit_encoding_string<F>(
    string: &str,
    maximum_length: usize,
    replacement_function: F,
) -> (result: Vec<u8>) where F: Fn(char) -> u8
    requires
        forall|i: int|
            0 <= i < retained_characters(string@, maximum_length) ==> call_requires(
                replacement_function,
                (#[trigger] string@[i],),
            ),
    ensures
        result@.len() == retained_characters(string@, maximum_length),
        is_8bit_encoding(
            replacement_function,
            string@,
            retained_characters(string@, maximum_length),
            result@,
        ),
        maximum_length == 0 ==> result@ == Seq::<u8>::empty(),
{
    let available = string.unicode_len();
    let maximum_number_of_characters = if available < maximum_length {
        available
    } else {
        maximum_length
    };
    let mut result: Vec<u8> = Vec::with_capacity(maximum_number_of_characters);
    to_8bit_encoding_unsafe(string, maximum_number_of_characters, replacement_function, &mut result);
    assert(result@.skip(0) =~= result@);
    assert(maximum_length == 0 ==> result@ =~= Seq::<u8>::empty());
    result
}

/// Encodes at most `maximum_length` characters of `string`, one byte each,
/// and returns the bytes behind a single-owner heap allocation.
pub fn to_8bit_encoding_useful<F>(
    string: &str,
    maximum_length: usize,
    replacement_function: F,
) -> (result: Box<Vec<u8>>) where F: Fn(char) -> u8
    requires
        forall|i: int|
            0 <= i < retained_characters(string@, maximum_length) ==> call_requires(
                replacement_function,
                (#[trigger] string@[i],),
            ),
    ensures
        result@.len() == retained_characters(string@, maximum_length),
        is_8bit_encoding(
            replacement_function,
            string@,
            retained_characters(string@, maximum_length),
            result@,
        ),
        maximum_length == 0 ==> result@ == Seq::<u8>::empty(),
{
    Box::new(to_8bit_encoding_string(string, maximum_length, replacement_function))
}

/// Where the mapping returns, for each character, the one byte that `image`
/// gives, the encoding is the image of the retained characters: two
/// encodings of one text under one cap are then the same bytes.
pub proof fn lemma_encoding_of_pure_mapping<F: Fn(char) -> u8>(
    mapping: F,
    image: spec_fn(char) -> u8,
    text: Seq<char>,
    count: int,
    output: Seq<u8>,
)
    requires
        forall|character: char, byte: u8|
            call_ensures(mapping, (character,), byte) ==> byte == image(character),
        is_8bit_encoding(mapping, text, count, output),
    ensures
        output == text.take(count).map_values(image),
{
    assert(output =~= text.take(count).map_values(image));
}

} // verus!
