//! Safe truncation of UTF-8 text and lossy re-encoding of text into 8-bit
//! character sets.

pub mod eight_bit;
pub mod nul_terminated;
pub mod replacement;
pub mod truncate;
pub mod utf8_text;

pub use eight_bit::to_8bit_encoding_string;
pub use eight_bit::to_8bit_encoding_unsafe;
pub use eight_bit::to_8bit_encoding_useful;
pub use nul_terminated::to_cstr_best_effort;
pub use nul_terminated::EmbeddedNul;
pub use nul_terminated::NulTerminatedBuffer;
pub use replacement::to_8bit_encoding_replacement_function_us_ascii;
pub use replacement::to_8bit_encoding_replacement_function_us_ascii_printable;
pub use replacement::DefaultUsAsciiReplacementCharacter;
pub use truncate::truncate_utf8_safely;
