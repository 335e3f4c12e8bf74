//! The words of a binary and its header.

use crate::consumer::Event;
use crate::decoder::{read_words, Cursor, DecodeError};
use crate::grammar::Grammar;
use crate::parser::plan_of_binary;
use crate::spirv::{reversed_word, word_at, word_bytes, words_bytes, MAGIC_NUMBER, Word};
use crate::state::State;
use crate::syntax::{opcode, read_header, word_count};
use crate::version::{version_of_word, word_of_version};
use vstd::prelude::*;

verus! {

/// A word is what its bytes say, wherever they stand.
#[verifier::rlimit(50)]
pub proof fn law_word_bytes(bytes: Seq<u8>, offset: int, word: Word)
    requires
        0 <= offset,
        offset + 4 <= bytes.len(),
    ensures
        word_at(bytes, offset) == word <==> bytes.subrange(offset, offset + 4) == word_bytes(word),
{
    let part = bytes.subrange(offset, offset + 4);
    if word_at(bytes, offset) == word {
        assert(part =~= word_bytes(word));
    }
    if part == word_bytes(word) {
        assert(part[0] == bytes[offset] && part[1] == bytes[offset + 1] && part[2] == bytes[offset
            + 2] && part[3] == bytes[offset + 3]);
    }
}

/// The word at an offset is made of the four bytes there, the least significant first.
pub proof fn law_words_are_little_endian(bytes: Seq<u8>, offset: int)
    ensures
        ({
            let word = word_at(bytes, offset);
            &&& bytes[offset] == word % 0x100
            &&& bytes[offset + 1] == word / 0x100 % 0x100
            &&& bytes[offset + 2] == word / 0x1_0000 % 0x100
            &&& bytes[offset + 3] == word / 0x100_0000
        }),
{
    lemma_places(bytes[offset], bytes[offset + 1], bytes[offset + 2], bytes[offset + 3]);
}

#[verifier::rlimit(50)]
proof fn lemma_places(first: u8, second: u8, third: u8, fourth: u8)
    ensures
        ({
            let word = (first + 0x100 * second + 0x1_0000 * third + 0x100_0000 * fourth) as Word;
            &&& first == word % 0x100
            &&& second == word / 0x100 % 0x100
            &&& third == word / 0x1_0000 % 0x100
            &&& fourth == word / 0x100_0000
        }),
{
}

/// The bytes of a word are four, and they add up to it, each weighing as much as 256
/// of the one before it.
pub proof fn law_bytes_add_up_to_the_word(word: Word)
    ensures
        word_bytes(word).len() == 4,
        word == word_bytes(word)[0] + 0x100 * word_bytes(word)[1] + 0x1_0000 * word_bytes(word)[2]
            + 0x100_0000 * word_bytes(word)[3],
{
}

/// A word in the opposite order has the same four bytes, the last of them first.
#[verifier::rlimit(50)]
pub proof fn law_reversed_words_have_reversed_bytes(word: Word)
    ensures
        forall|i: int|
            0 <= i < 4 ==> #[trigger] word_bytes(reversed_word(word))[i] == word_bytes(word)[3 - i],
{
    let bytes = word_bytes(word).reverse();
    law_words_are_little_endian(bytes, 0);
}

/// The bytes of some words hold those words, one after another.
#[verifier::rlimit(50)]
pub proof fn law_words_bytes(words: Seq<Word>)
    ensures
        words_bytes(words).len() == 4 * words.len(),
        forall|i: int|
            0 <= i < words.len() ==> #[trigger] word_at(words_bytes(words), 4 * i) == words[i],
    decreases words.len(),
{
    if words.len() > 0 {
        let shorter = words.drop_last();
        law_words_bytes(shorter);
        let bytes = words_bytes(words);
        let head = words_bytes(shorter);
        let tail = word_bytes(words.last());
        assert(bytes == head + tail);
        assert forall|i: int| 0 <= i < words.len() implies #[trigger] word_at(bytes, 4 * i)
            == words[i] by {
            if i < shorter.len() {
                assert(word_at(head, 4 * i) == shorter[i]);
                assert(bytes[4 * i] == head[4 * i]);
                assert(bytes[4 * i + 1] == head[4 * i + 1]);
                assert(bytes[4 * i + 2] == head[4 * i + 2]);
                assert(bytes[4 * i + 3] == head[4 * i + 3]);
            } else {
                assert(bytes.subrange(4 * i, 4 * i + 4) =~= tail);
                law_word_bytes(bytes, 4 * i, words.last());
            }
        }
    }
}

/// The word count and the opcode of an instruction can be read off the word that
/// was put together from them.
pub proof fn law_first_word_splits(count: u16, code: u16)
    ensures
        ({
            let word = ((count as Word) << 16) | code as Word;
            word_count(word) == count && opcode(word) == code
        }),
{
    let high = count as Word;
    let low = code as Word;
    let word = (high << 16) | low;
    assert(word / 0x1_0000 == high && word % 0x1_0000 == low) by (bit_vector)
        requires
            high < 0x1_0000,
            low < 0x1_0000,
            word == (high << 16) | low,
    ;
}

/// The major version in a word is its third byte, and the minor version its second
/// one.
pub proof fn law_versions_are_the_middle_bytes(word: Word)
    ensures
        version_of_word(word).0 == word_bytes(word)[2],
        version_of_word(word).1 == word_bytes(word)[1],
{
}

/// The word of a version has the minor version as its second byte, the major version
/// as its third one, and nothing else.
#[verifier::rlimit(50)]
pub proof fn law_version_words_hold_the_version(major: u8, minor: u8)
    ensures
        word_bytes(word_of_version(major, minor)) == seq![0u8, minor, major, 0u8],
{
    assert(word_bytes(word_of_version(major, minor)) =~= seq![0u8, minor, major, 0u8]);
}

/// The version that was put into a version word can be read off it.
pub proof fn law_version_round_trip(major: u8, minor: u8)
    ensures
        version_of_word(word_of_version(major, minor)) == (major, minor),
{
}

#[verifier::rlimit(50)]
pub proof fn lemma_header_words(bytes: Seq<u8>)
    ensures
        ({
            let start = Cursor { offset: 0, limit: None };
            let header = read_words(bytes, 5, Seq::empty(), start);
            if bytes.len() >= 20 {
                &&& header.result == Ok::<Seq<Word>, DecodeError>(
                    seq![
                        word_at(bytes, 0),
                        word_at(bytes, 4),
                        word_at(bytes, 8),
                        word_at(bytes, 12),
                        word_at(bytes, 16),
                    ],
                )
                &&& header.rest == Cursor { offset: 20, limit: None }
            } else {
                header.result == Err::<Seq<Word>, DecodeError>(
                    DecodeError::StreamExpected((bytes.len() / 4 * 4) as usize),
                )
            }
        }),
{
    reveal_with_fuel(read_words, 6);
    let start = Cursor { offset: 0, limit: None };
    let header = read_words(bytes, 5, Seq::empty(), start);
    if bytes.len() >= 20 {
        assert(header.result->Ok_0 =~= seq![
            word_at(bytes, 0),
            word_at(bytes, 4),
            word_at(bytes, 8),
            word_at(bytes, 12),
            word_at(bytes, 16),
        ]);
    }
}

/// A binary of fewer than five words has an incomplete header: the error is where
/// the first missing word would start, and the consumer is told nothing but to
/// initialize.
pub proof fn law_short_header_is_incomplete<E>(bytes: Seq<u8>, grammar: Grammar)
    requires
        bytes.len() < 20,
    ensures
        ({
            let whole = plan_of_binary::<E>(bytes, grammar);
            &&& whole.events == seq![Event::Initialize]
            &&& whole.result == Err::<(), State<E>>(
                State::HeaderIncomplete(
                    DecodeError::StreamExpected((bytes.len() / 4 * 4) as usize),
                ),
            )
        }),
{
    lemma_header_words(bytes);
}

#[verifier::rlimit(30)]
proof fn lemma_reversed_magic()
    ensures
        word_bytes(MAGIC_NUMBER) == seq![0x03u8, 0x02, 0x23, 0x07],
        word_bytes(reversed_word(MAGIC_NUMBER)) == seq![0x07u8, 0x23, 0x02, 0x03],
        reversed_word(MAGIC_NUMBER) != MAGIC_NUMBER,
{
    assert(word_bytes(MAGIC_NUMBER) =~= seq![0x03u8, 0x02, 0x23, 0x07]);
    let swapped = word_bytes(MAGIC_NUMBER).reverse();
    assert(swapped =~= seq![0x07u8, 0x23, 0x02, 0x03]);
    assert(reversed_word(MAGIC_NUMBER) == 0x03022307);
    assert(word_bytes(0x03022307) =~= seq![0x07u8, 0x23, 0x02, 0x03]);
}

#[verifier::rlimit(30)]
proof fn lemma_magic_bytes(bytes: Seq<u8>)
    requires
        bytes.len() >= 4,
    ensures
        word_at(bytes, 0) == MAGIC_NUMBER <==> bytes.take(4) == seq![0x03u8, 0x02, 0x23, 0x07],
        word_at(bytes, 0) == reversed_word(MAGIC_NUMBER) <==> bytes.take(4) == seq![
            0x07u8,
            0x23,
            0x02,
            0x03,
        ],
        reversed_word(MAGIC_NUMBER) != MAGIC_NUMBER,
{
    assert(bytes.take(4) =~= bytes.subrange(0, 4));
    lemma_reversed_magic();
    law_word_bytes(bytes, 0, MAGIC_NUMBER);
    law_word_bytes(bytes, 0, reversed_word(MAGIC_NUMBER));
}

/// A binary of five words or more has a header if it starts with the bytes of the
/// magic number, the least significant first. It is of the other endianness if it
/// starts with them in the opposite order. Otherwise its header is incorrect.
#[verifier::rlimit(30)]
pub proof fn law_magic_number_decides<E>(bytes: Seq<u8>)
    requires
        bytes.len() >= 20,
    ensures
        ({
            let header = read_header::<E>(bytes, Cursor { offset: 0, limit: None });
            let magic = bytes.take(4);
            &&& header.rest == Cursor { offset: 20, limit: None }
            &&& header.result is Ok <==> magic == seq![0x03u8, 0x02, 0x23, 0x07]
            &&& (header.result matches Err(State::EndiannessUnsupported)) <==> magic == seq![
                0x07u8,
                0x23,
                0x02,
                0x03,
            ]
            &&& header.result matches Err(state) ==> state is EndiannessUnsupported
                || state is HeaderIncorrect
        }),
{
    lemma_header_words(bytes);
    lemma_magic_bytes(bytes);
}

/// The header that is found has the version that the second word holds, and the
/// bound that the fourth word is.
pub proof fn law_header_has_version_and_bound<E>(bytes: Seq<u8>)
    requires
        bytes.len() >= 20,
    ensures
        read_header::<E>(bytes, Cursor { offset: 0, limit: None }).result matches Ok(header) ==> {
            &&& version_of_word(header.version) == version_of_word(word_at(bytes, 4))
            &&& header.bound == word_at(bytes, 12)
        },
{
    lemma_header_words(bytes);
    let (major, minor) = version_of_word(word_at(bytes, 4));
    law_version_round_trip(major, minor);
}

} // verus!
