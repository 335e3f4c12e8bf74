//! The version word of a module header.

use crate::spirv::Word;
use vstd::prelude::*;

verus! {

/// The major and minor version that a version word holds: its two middle bytes.
pub open spec fn version_of_word(word: Word) -> (u8, u8) {
    ((word / 0x1_0000 % 0x100) as u8, (word / 0x100 % 0x100) as u8)
}

/// The version word of a major and a minor version.
pub open spec fn word_of_version(major: u8, minor: u8) -> Word {
    (0x1_0000 * major + 0x100 * minor) as Word
}

/// Splits a version word into the major and the minor version.
pub fn create_version_from_word(word: Word) -> (version: (u8, u8))
    ensures
        version == version_of_word(word),
{
    ((word / 0x1_0000 % 0x100) as u8, (word / 0x100 % 0x100) as u8)
}

/// Makes the version word of a major and a minor version.
pub fn create_word_from_version(major: u8, minor: u8) -> (word: Word)
    ensures
        word == word_of_version(major, minor),
        version_of_word(word) == (major, minor),
{
    0x1_0000 * (major as Word) + 0x100 * (minor as Word)
}

} // verus!
