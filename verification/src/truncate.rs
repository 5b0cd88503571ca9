//! Truncation of text to a byte budget without splitting a character.

use vstd::prelude::*;
use vstd::string::StringSliceAdditionalSpecFns;
use vstd::utf8::*;

use crate::utf8_text::encoded_len;
use crate::utf8_text::lemma_boundary_ends_prefix;
use crate::utf8_text::lemma_encode_utf8_take;
use crate::utf8_text::lemma_encoded_len_of_prefixes;
use crate::utf8_text::lemma_prefix_ends_on_boundary;

verus! {

/// The longest prefix of `text` whose UTF-8 encoding takes at most `limit`
/// bytes: characters are dropped from the end until the rest fits.
pub open spec fn truncated(text: Seq<char>, limit: nat) -> Seq<char>
    decreases text.len(),
{
    if text.len() == 0 || encoded_len(text) <= limit {
        text
    } else {
        truncated(text.drop_last(), limit)
    }
}

/// True when the first `count` characters of `text` take at most `limit`
/// bytes and, where the text goes on, one character more would not.
pub open spec fn is_longest_fitting_prefix(text: Seq<char>, limit: nat, count: int) -> bool {
    &&& 0 <= count <= text.len()
    &&& encoded_len(text.take(count)) <= limit
    &&& count < text.len() ==> encoded_len(text.take(count + 1)) > limit
}

/// The truncated text is a prefix of the text that fits the limit, and no
/// longer prefix does.
pub proof fn lemma_truncated_is_longest_fitting_prefix(text: Seq<char>, limit: nat)
    ensures
        truncated(text, limit) == text.take(truncated(text, limit).len() as int),
        encoded_len(truncated(text, limit)) <= limit,
        encoded_len(truncated(text, limit)) <= encoded_len(text),
        is_longest_fitting_prefix(text, limit, truncated(text, limit).len() as int),
        forall|count: int|
            0 <= count <= text.len() && #[trigger] encoded_len(text.take(count)) <= limit
                ==> count <= truncated(text, limit).len(),
    decreases text.len(),
{
    let kept = truncated(text, limit).len() as int;
    if text.len() == 0 || encoded_len(text) <= limit {
        assert(text.take(text.len() as int) =~= text);
    } else {
        let shorter = text.drop_last();
        lemma_truncated_is_longest_fitting_prefix(shorter, limit);
        assert(kept <= shorter.len());
        assert(shorter.take(kept) =~= text.take(kept));
        lemma_encode_utf8_take(text, kept);
        if kept < shorter.len() {
            assert(shorter.take(kept + 1) =~= text.take(kept + 1));
        } else {
            assert(text.take(kept + 1) =~= text);
        }
        assert forall|count: int|
            0 <= count <= text.len() && #[trigger] encoded_len(text.take(count))
                <= limit implies count <= kept by {
            if count == text.len() {
                assert(text.take(count) =~= text);
            } else {
                assert(shorter.take(count) =~= text.take(count));
            }
        }
    }
}

/// Only one prefix of a text is the longest that fits: the truncated text.
pub proof fn lemma_longest_fitting_prefix_is_truncated(text: Seq<char>, limit: nat, count: int)
    requires
        is_longest_fitting_prefix(text, limit, count),
    ensures
        text.take(count) == truncated(text, limit),
{
    lemma_truncated_is_longest_fitting_prefix(text, limit);
    let kept = truncated(text, limit).len() as int;
    if count < kept {
        lemma_encoded_len_of_prefixes(text, count + 1, kept);
    }
}

/// Text that already fits the limit is left as it is.
pub proof fn lemma_truncated_fitting_text(text: Seq<char>, limit: nat)
    requires
        encoded_len(text) <= limit,
    ensures
        truncated(text, limit) == text,
{
}

/// Truncating a second time to the same limit changes nothing.
pub proof fn lemma_truncated_idempotent(text: Seq<char>, limit: nat)
    ensures
        truncated(truncated(text, limit), limit) == truncated(text, limit),
{
    lemma_truncated_is_longest_fitting_prefix(text, limit);
    lemma_truncated_fitting_text(truncated(text, limit), limit);
}

/// Truncates at the specified length, or at slightly less than it so that no
/// partial UTF-8 sequence is left behind.
pub fn truncate_utf8_safely<'a>(
    string: &'a str,
    maximum_length_to_truncate_to: usize,
) -> (prefix: &'a str)
    ensures
        prefix@ == truncated(string@, maximum_length_to_truncate_to as nat),
        valid_utf8(prefix.spec_bytes()),
        prefix.spec_bytes() == string.spec_bytes().take(prefix.spec_bytes().len() as int),
        prefix.spec_bytes().len() <= maximum_length_to_truncate_to,
        prefix.spec_bytes().len() <= string.spec_bytes().len(),
        is_char_boundary(string.spec_bytes(), prefix.spec_bytes().len() as int),
        forall|index: int|
            prefix.spec_bytes().len() < index <= maximum_length_to_truncate_to
                ==> !#[trigger] is_char_boundary(string.spec_bytes(), index),
        maximum_length_to_truncate_to >= string.spec_bytes().len() ==> prefix@ == string@,
{
    broadcast use encode_utf8_valid_utf8;

    let ghost bytes = string.spec_bytes();
    let length = string.as_bytes().len();
    let mut lowest_length = if maximum_length_to_truncate_to < length {
        maximum_length_to_truncate_to
    } else {
        length
    };
    while !string.is_char_boundary(lowest_length)
        invariant
            bytes == string.spec_bytes(),
            valid_utf8(bytes),
            lowest_length <= maximum_length_to_truncate_to,
            lowest_length <= bytes.len(),
            forall|index: int|
                lowest_length < index <= maximum_length_to_truncate_to ==> !#[trigger] is_char_boundary(
                    bytes,
                    index,
                ),
        decreases lowest_length,
    {
        lowest_length -= 1;
    }
    let prefix = string.split_at(lowest_length).0;
    proof {
        let limit = maximum_length_to_truncate_to as nat;
        lemma_boundary_ends_prefix(string@, lowest_length as int);
        encode_utf8_decode_utf8(prefix@);
        let count = prefix@.len() as int;
        assert(prefix@ == string@.take(count));
        assert(encoded_len(prefix@) == lowest_length);
        if count < string@.len() {
            lemma_prefix_ends_on_boundary(string@, count + 1);
            lemma_encoded_len_of_prefixes(string@, count, count + 1);
        }
        lemma_longest_fitting_prefix_is_truncated(string@, limit, count);
        if maximum_length_to_truncate_to >= bytes.len() {
            lemma_truncated_fitting_text(string@, limit);
        }
    }
    prefix
}

} // verus!
