//! Conversion of text into nul-terminated byte buffers, for hand-over to
//! interfaces that find the end of a string by its terminator.
//!
//! A nul byte inside the text cannot be represented. The conversion keeps
//! what comes before the first one and says so alongside the buffer.

use vstd::prelude::*;
use vstd::slice::slice_subrange;
use vstd::slice::slice_to_vec;
use vstd::string::StringSliceAdditionalSpecFns;
use vstd::utf8::*;

use crate::utf8_text::lemma_boundary_ends_prefix;
use crate::utf8_text::lemma_encode_utf8_take;

verus! {

/// True when no byte of `bytes` is the nul byte.
pub open spec fn nul_free(bytes: Seq<u8>) -> bool {
    forall|i: int| 0 <= i < bytes.len() ==> bytes[i] != 0
}

/// True when `position` is the index of the first nul byte of `bytes`.
pub open spec fn is_first_nul(bytes: Seq<u8>, position: int) -> bool {
    &&& 0 <= position < bytes.len()
    &&& bytes[position] == 0
    &&& nul_free(bytes.take(position))
}

/// True when no character of `text` is the nul character.
pub open spec fn nul_free_text(text: Seq<char>) -> bool {
    forall|i: int| 0 <= i < text.len() ==> text[i] != '\0'
}

/// The characters of `text` that come before its first nul character: all of
/// them where it has none.
pub open spec fn before_first_nul(text: Seq<char>) -> Seq<char>
    decreases text.len(),
{
    if text.len() == 0 || text[0] == '\0' {
        Seq::empty()
    } else {
        seq![text[0]] + before_first_nul(text.drop_first())
    }
}

/// What comes before the first nul character is the prefix that ends at the
/// first index holding one, or the whole text where no index does.
pub proof fn lemma_before_first_nul(text: Seq<char>, index: int)
    requires
        0 <= index <= text.len(),
        nul_free_text(text.take(index)),
        index < text.len() ==> text[index] == '\0',
    ensures
        before_first_nul(text) == text.take(index),
    decreases text.len(),
{
    if index == 0 {
        assert(text.take(0) =~= Seq::<char>::empty());
    } else {
        assert(text.take(index)[0] == text[0]);
        let rest = text.drop_first();
        assert(rest.take(index - 1) =~= text.take(index).drop_first());
        lemma_before_first_nul(rest, index - 1);
        assert(seq![text[0]] + rest.take(index - 1) =~= text.take(index));
    }
}

/// The encoding of a character holds a nul byte only where the character is
/// the nul character, whose encoding is that one byte.
pub proof fn lemma_encode_scalar_nul(character: char)
    ensures
        character == '\0' ==> encode_scalar(character as u32) == seq![0u8],
        character != '\0' ==> nul_free(encode_scalar(character as u32)),
{
    let scalar = character as u32;
    assert(scalar <= 0x7F ==> ((scalar & 0x7F) as u8 == 0 <==> scalar == 0)) by (bit_vector);
    assert(0xC0u8 | ((scalar >> 6) & 0x1F) as u8 != 0) by (bit_vector);
    assert(0xE0u8 | ((scalar >> 12) & 0x0F) as u8 != 0) by (bit_vector);
    assert(0xF0u8 | ((scalar >> 18) & 0x7) as u8 != 0) by (bit_vector);
    assert(0x80u8 | (scalar & 0x3F) as u8 != 0) by (bit_vector);
    assert(0x80u8 | ((scalar >> 6) & 0x3F) as u8 != 0) by (bit_vector);
    assert(0x80u8 | ((scalar >> 12) & 0x3F) as u8 != 0) by (bit_vector);
    if character == '\0' {
        assert(encode_scalar(scalar) =~= seq![0u8]);
    }
}

/// A text's encoding holds a nul byte exactly where the text holds a nul
/// character.
pub proof fn lemma_nul_free_encoding(text: Seq<char>)
    ensures
        nul_free(encode_utf8(text)) <==> nul_free_text(text),
    decreases text.len(),
{
    if text.len() > 0 {
        let first = encode_scalar(text[0] as u32);
        let rest = encode_utf8(text.drop_first());
        lemma_encode_scalar_nul(text[0]);
        lemma_nul_free_encoding(text.drop_first());
        if nul_free_text(text) {
            assert forall|i: int| 0 <= i < text.drop_first().len() implies text.drop_first()[i]
                != '\0' by {
                assert(text.drop_first()[i] == text[i + 1]);
            }
            assert forall|i: int| 0 <= i < (first + rest).len() implies (first + rest)[i] != 0 by {
                if i >= first.len() {
                    assert((first + rest)[i] == rest[i - first.len()]);
                }
            }
        }
        if nul_free(encode_utf8(text)) {
            assert(first[0] == (first + rest)[0]);
            assert forall|i: int| 0 <= i < rest.len() implies rest[i] != 0 by {
                assert(rest[i] == (first + rest)[first.len() + i]);
            }
            assert forall|i: int| 0 <= i < text.len() implies text[i] != '\0' by {
                if i > 0 {
                    assert(text[i] == text.drop_first()[i - 1]);
                }
            }
        }
    }
}

/// The first nul byte of a text's encoding is the encoding of the text's
/// first nul character: the bytes before it are the encoding of the
/// characters before that one. The proof returns the character's index.
pub proof fn lemma_first_nul_of_encoding(text: Seq<char>, position: int) -> (index: int)
    requires
        is_first_nul(encode_utf8(text), position),
    ensures
        0 <= index < text.len(),
        text[index] == '\0',
        nul_free_text(text.take(index)),
        encode_utf8(text.take(index)) == encode_utf8(text).take(position),
{
    broadcast use encode_utf8_valid_utf8;

    let bytes = encode_utf8(text);
    is_char_boundary_iff_not_is_continuation_byte(bytes, position);
    lemma_boundary_ends_prefix(text, position);
    let prefix = decode_utf8(bytes.subrange(0, position));
    let index = prefix.len() as int;
    lemma_nul_free_encoding(prefix);
    lemma_encode_utf8_take(text, index);
    if index == text.len() {
        assert(text.take(index) =~= text);
    }
    let tail = text.skip(index);
    assert(encode_utf8(tail)[0] == bytes[position]);
    lemma_encode_scalar_nul(tail[0]);
    index
}

/// The diagnostic for input that holds a nul byte before its end.
#[derive(Clone, Copy, Debug, PartialEq, Eq)]
pub struct EmbeddedNul {
    /// Index of the first nul byte in the input.
    pub position: usize,
}

impl EmbeddedNul {
    /// Human-readable description of the condition.
    pub fn message(&self) -> (text: &'static str)
        ensures
            text@ == "Embedded nul in message"@,
    {
        "Embedded nul in message"
    }
}

/// An owned byte buffer that ends in a single nul byte and holds no other.
///
/// Its view is the content, without the terminator.
#[derive(Debug)]
pub struct NulTerminatedBuffer {
    bytes: Vec<u8>,
}

impl View for NulTerminatedBuffer {
    type V = Seq<u8>;

    closed spec fn view(&self) -> Seq<u8> {
        self.bytes@.drop_last()
    }
}

impl NulTerminatedBuffer {
    #[verifier::type_invariant]
    spec fn terminated(&self) -> bool {
        &&& self.bytes@.len() > 0
        &&& self.bytes@.last() == 0
        &&& nul_free(self.bytes@.drop_last())
    }

    /// Builds a buffer from `bytes` and a terminator, or reports the first
    /// nul byte found among them.
    pub fn new(bytes: &[u8]) -> (result: Result<NulTerminatedBuffer, EmbeddedNul>)
        ensures
            match result {
                Ok(buffer) => nul_free(bytes@) && buffer@ == bytes@,
                Err(embedded_nul) => is_first_nul(bytes@, embedded_nul.position as int),
            },
    {
        let mut index: usize = 0;
        while index < bytes.len()
            invariant
                index <= bytes@.len(),
                nul_free(bytes@.take(index as int)),
            decreases bytes@.len() - index,
        {
            if bytes[index] == 0 {
                return Err(EmbeddedNul { position: index });
            }
            assert(bytes@.take(index + 1) =~= bytes@.take(index as int).push(bytes@[index as int]));
            index += 1;
        }
        assert(bytes@.take(index as int) =~= bytes@);
        let mut owned = slice_to_vec(bytes);
        owned.push(0u8);
        assert(owned@.drop_last() =~= bytes@);
        Ok(NulTerminatedBuffer { bytes: owned })
    }

    /// The content, without the terminator.
    pub fn as_bytes(&self) -> (content: &[u8])
        ensures
            content@ == self@,
            nul_free(content@),
    {
        proof {
            use_type_invariant(self);
        }
        slice_subrange(self.bytes.as_slice(), 0, self.bytes.len() - 1)
    }

    /// The content followed by the terminator.
    pub fn as_bytes_with_nul(&self) -> (terminated: &[u8])
        ensures
            terminated@ == self@.push(0u8),
            nul_free(self@),
    {
        proof {
            use_type_invariant(self);
            assert(self.bytes@ =~= self.bytes@.drop_last().push(0u8));
        }
        self.bytes.as_slice()
    }

    /// Gives up the buffer as a vector that ends in the terminator.
    pub fn into_bytes_with_nul(self) -> (terminated: Vec<u8>)
        ensures
            terminated@ == self@.push(0u8),
            nul_free(self@),
    {
        proof {
            use_type_invariant(&self);
            assert(self.bytes@ =~= self.bytes@.drop_last().push(0u8));
        }
        self.bytes
    }
}

/// Converts `value` into a nul-terminated buffer.
///
/// Text without a nul byte is kept whole. Otherwise the buffer holds what
/// comes before the first nul byte, and the second component reports where
/// the text was cut.
pub fn to_cstr_best_effort(value: &str) -> (result: (NulTerminatedBuffer, Option<EmbeddedNul>))
    ensures
        nul_free(result.0@),
        result.0@ == encode_utf8(before_first_nul(value@)),
        result.1 is None <==> nul_free_text(value@),
        match result.1 {
            None => nul_free(value.spec_bytes()) && result.0@ == value.spec_bytes(),
            Some(embedded_nul) => is_first_nul(value.spec_bytes(), embedded_nul.position as int)
                && result.0@ == value.spec_bytes().take(embedded_nul.position as int),
        },
{
    let bytes = value.as_bytes();
    proof {
        lemma_nul_free_encoding(value@);
    }
    match NulTerminatedBuffer::new(bytes) {
        Ok(buffer) => {
            proof {
                assert(value@.take(value@.len() as int) =~= value@);
                lemma_before_first_nul(value@, value@.len() as int);
            }
            (buffer, None)
        },
        Err(embedded_nul) => {
            proof {
                let index = lemma_first_nul_of_encoding(value@, embedded_nul.position as int);
                lemma_before_first_nul(value@, index);
            }
            let prefix = slice_subrange(bytes, 0, embedded_nul.position);
            (NulTerminatedBuffer::new(prefix).unwrap(), Some(embedded_nul))
        },
    }
}

} // verus!
