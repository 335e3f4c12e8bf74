//! Numbers that the SPIR-V binary form fixes.

use vstd::prelude::*;

verus! {

/// The unit of a SPIR-V binary.
pub type Word = u32;

/// How many bytes a word takes.
pub const WORD_NUM_BYTES: usize = 4;

/// The first word of every module.
pub const MAGIC_NUMBER: Word = 0x07230203;

/// The opcode of `OpTypeInt`, which declares an integer type.
pub const OP_TYPE_INT: u16 = 21;

/// The opcode of `OpTypeFloat`, which declares a floating-point type.
pub const OP_TYPE_FLOAT: u16 = 22;

/// The opcode of `OpConstant`, which declares a scalar constant.
pub const OP_CONSTANT: u16 = 43;

/// The opcode of `OpSpecConstant`, which declares a scalar specialization constant.
pub const OP_SPEC_CONSTANT: u16 = 50;

/// The little-endian word that starts at byte `offset`.
pub open spec fn word_at(bytes: Seq<u8>, offset: int) -> Word {
    (bytes[offset] + 0x100 * bytes[offset + 1] + 0x1_0000 * bytes[offset + 2] + 0x100_0000
        * bytes[offset + 3]) as Word
}

/// The four bytes of a word, least significant first.
pub open spec fn word_bytes(word: Word) -> Seq<u8> {
    seq![
        (word % 0x100) as u8,
        (word / 0x100 % 0x100) as u8,
        (word / 0x1_0000 % 0x100) as u8,
        (word / 0x100_0000) as u8,
    ]
}

/// The bytes of a sequence of words, each least significant byte first.
pub open spec fn words_bytes(words: Seq<Word>) -> Seq<u8>
    decreases words.len(),
{
    if words.len() == 0 {
        Seq::empty()
    } else {
        words_bytes(words.drop_last()) + word_bytes(words.last())
    }
}

/// The word with its bytes in the opposite order.
pub open spec fn reversed_word(word: Word) -> Word {
    word_at(word_bytes(word).reverse(), 0)
}

/// Returns the word with its bytes in the opposite order.
pub fn swap_bytes(word: Word) -> (swapped: Word)
    ensures
        swapped == reversed_word(word),
{
    (word / 0x100_0000) + 0x100 * (word / 0x1_0000 % 0x100) + 0x1_0000 * (word / 0x100 % 0x100)
        + 0x100_0000 * (word % 0x100)
}

} // verus!
