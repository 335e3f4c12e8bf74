//! What the decoder reads.

use crate::decoder::{
    read_enumerant, read_int64, read_string, read_word, read_words, trim_nul, Cursor, DecodeError,
};
use crate::grammar::{EnumKind, Grammar};
use crate::laws::completeness::{lemma_string_found, lemma_string_skipped};
use crate::laws::conformance::is_delimited;
use crate::laws::encoding::{lemma_string_kept, lemma_trim, string_bytes};
use crate::laws::errors::string_spans;
use crate::spirv::{word_at, Word};
use crate::syntax::lemma_string_onward;
use vstd::prelude::*;
use vstd::utf8::{decode_utf8, valid_utf8};

verus! {

/// How many words can be read from a cursor on: as many as the limit allows and the
/// binary has.
pub open spec fn available(bytes: Seq<u8>, at: Cursor) -> nat {
    let there = ((bytes.len() - at.offset) / 4) as nat;
    match at.limit {
        Some(left) => if left < there {
            left
        } else {
            there
        },
        None => there,
    }
}

/// The error of the word behind `n` words that could be read: the limit, if it allows
/// no more, or else the end of the binary.
pub open spec fn error_behind(at: Cursor, n: nat) -> DecodeError {
    if at.limit == Some(n) {
        DecodeError::LimitReached((at.offset + 4 * n) as usize)
    } else {
        DecodeError::StreamExpected((at.offset + 4 * n) as usize)
    }
}

/// Where a cursor is when so many words have been read: four bytes further on for each,
/// and with so many fewer allowed.
pub open spec fn moved(at: Cursor, n: nat) -> Cursor {
    Cursor {
        offset: at.offset + 4 * n,
        limit: if at.limit is Some {
            Some((at.limit->0 - n) as nat)
        } else {
            None
        },
    }
}

/// A word can be read if one is available; it is the one that stands there, and the
/// next one is four bytes further on, with one less allowed. One that the binary lacks
/// counts as one of those that were allowed.
pub proof fn law_words_are_read_one_by_one(bytes: Seq<u8>, at: Cursor)
    requires
        at.offset <= bytes.len(),
    ensures
        ({
            let word = read_word(bytes, at);
            if available(bytes, at) >= 1 {
                &&& word.result == Ok::<Word, DecodeError>(word_at(bytes, at.offset as int))
                &&& word.rest == moved(at, 1)
            } else {
                &&& word.result == Err::<Word, DecodeError>(error_behind(at, 0))
                &&& word.rest.offset == at.offset
                &&& at.limit is None ==> word.rest.limit is None
                &&& at.limit matches Some(left) ==> word.rest.limit == Some(
                    if left == 0 {
                        0
                    } else {
                        (left - 1) as nat
                    },
                )
            }
        }),
{
}

proof fn lemma_words_read(bytes: Seq<u8>, n: nat, words: Seq<Word>, at: Cursor)
    requires
        at.offset <= bytes.len(),
    ensures
        ({
            let reading = read_words(bytes, n, words, at);
            let there = available(bytes, at);
            if n <= there {
                &&& reading.result matches Ok(all)
                &&& all.len() == words.len() + n
                &&& forall|i: int| 0 <= i < words.len() ==> #[trigger] all[i] == words[i]
                &&& forall|i: int|
                    words.len() <= i < all.len() ==> #[trigger] all[i] == word_at(
                        bytes,
                        at.offset + 4 * (i - words.len()),
                    )
                &&& reading.rest == moved(at, n)
            } else {
                &&& reading.result == Err::<Seq<Word>, DecodeError>(error_behind(at, there))
                &&& reading.rest.offset == at.offset + 4 * there
            }
        }),
    decreases n,
{
    if n > 0 {
        let first = read_word(bytes, at);
        if let Ok(word) = first.result {
            let longer = words.push(word);
            lemma_words_read(bytes, (n - 1) as nat, longer, first.rest);
            let reading = read_words(bytes, n, words, at);
            assert(available(bytes, first.rest) == available(bytes, at) - 1);
            if n <= available(bytes, at) {
                let all = reading.result->Ok_0;
                assert forall|i: int| 0 <= i < words.len() implies #[trigger] all[i]
                    == words[i] by {
                    assert(all[i] == longer[i]);
                }
                assert(all[words.len() as int] == longer[words.len() as int]);
            }
        }
    }
}

/// Several words can be read if so many are available; they are those that stand
/// there, one after another. Otherwise the error is at the first that is not.
pub proof fn law_several_words_are_read(bytes: Seq<u8>, n: nat, at: Cursor)
    requires
        at.offset <= bytes.len(),
    ensures
        ({
            let reading = read_words(bytes, n, Seq::empty(), at);
            let there = available(bytes, at);
            if n <= there {
                &&& reading.result matches Ok(words)
                &&& words.len() == n
                &&& forall|i: int|
                    0 <= i < n ==> #[trigger] words[i] == word_at(bytes, at.offset + 4 * i)
                &&& reading.rest == moved(at, n)
            } else {
                &&& reading.result == Err::<Seq<Word>, DecodeError>(error_behind(at, there))
                &&& reading.rest.offset == at.offset + 4 * there
            }
        }),
{
    lemma_words_read(bytes, n, Seq::empty(), at);
    let reading = read_words(bytes, n, Seq::empty(), at);
    if n <= available(bytes, at) {
        let words = reading.result->Ok_0;
        assert forall|i: int| 0 <= i < n implies #[trigger] words[i] == word_at(
            bytes,
            at.offset + 4 * i,
        ) by {}
    }
}

/// A number of two words can be read if two are available; its low half is the first
/// of them, and its high half the second. Otherwise the error is at the first that is
/// not available.
pub proof fn law_wide_numbers_are_read(bytes: Seq<u8>, at: Cursor)
    requires
        at.offset <= bytes.len(),
    ensures
        ({
            let number = read_int64(bytes, at);
            let there = available(bytes, at);
            if there >= 2 {
                &&& number.result matches Ok(value)
                &&& value % 0x1_0000_0000 == word_at(bytes, at.offset as int)
                &&& value / 0x1_0000_0000 == word_at(bytes, at.offset as int + 4)
                &&& number.rest == moved(at, 2)
            } else {
                &&& number.result == Err::<u64, DecodeError>(error_behind(at, there))
                &&& number.rest.offset == at.offset + 4 * there
            }
        }),
{
    law_words_are_read_one_by_one(bytes, at);
    let low = read_word(bytes, at);
    if low.result is Ok {
        law_words_are_read_one_by_one(bytes, low.rest);
        assert(available(bytes, low.rest) == available(bytes, at) - 1);
    }
}

/// Trimming takes away the nul bytes at the end, and nothing else.
pub proof fn law_only_nul_bytes_are_trimmed(raw: Seq<u8>)
    ensures
        trim_nul(raw).len() <= raw.len(),
        forall|i: int| 0 <= i < trim_nul(raw).len() ==> #[trigger] trim_nul(raw)[i] == raw[i],
        forall|i: int| trim_nul(raw).len() <= i < raw.len() ==> #[trigger] raw[i] == 0,
        trim_nul(raw).len() > 0 ==> trim_nul(raw).last() != 0,
{
    lemma_trim(raw);
    let trimmed = trim_nul(raw);
    let filled = trimmed + Seq::new((raw.len() - trimmed.len()) as nat, |i: int| 0u8);
    assert forall|i: int| 0 <= i < trimmed.len() implies #[trigger] trimmed[i] == raw[i] by {
        assert(filled[i] == raw[i]);
    }
    assert forall|i: int| trimmed.len() <= i < raw.len() implies #[trigger] raw[i] == 0 by {
        assert(filled[i] == raw[i]);
    }
}

/// Where the words of a string are available, they are read: as the characters that
/// their bytes, without the nul bytes at the end, are the UTF-8 of; or, if they are
/// not UTF-8, as an error at the start of the string.
pub proof fn law_strings_are_decoded(bytes: Seq<u8>, at: Cursor, end: nat)
    requires
        string_spans(bytes, at.offset as int, end as int),
        at.limit matches Some(left) ==> at.offset + 4 * left >= end,
    ensures
        ({
            let reading = read_string(bytes, at);
            let encoded = trim_nul(bytes.subrange(at.offset as int, end as int));
            &&& reading.rest == moved(at, ((end - at.offset) / 4) as nat)
            &&& reading.result == if valid_utf8(encoded) {
                Ok::<Seq<char>, DecodeError>(decode_utf8(encoded))
            } else {
                Err::<Seq<char>, DecodeError>(
                    DecodeError::DecodeStringFailed(at.offset as usize),
                )
            }
        }),
{
    let n = ((end - at.offset) / 4) as nat;
    assert(at.offset + 4 * n == end);
    lemma_string_skipped(bytes, at, n);
}

/// What is read of a string and what stands there are the same: the characters are
/// read if and only if their bytes stand there and are allowed.
pub proof fn law_strings_are_read_as_written(bytes: Seq<u8>, at: Cursor, text: Seq<char>)
    ensures
        read_string(bytes, at).result == Ok::<Seq<char>, DecodeError>(text)
            ==> read_string(bytes, at).rest.offset <= bytes.len() && bytes.subrange(
            at.offset as int,
            read_string(bytes, at).rest.offset as int,
        ) == string_bytes(text),
        is_delimited(text) && at.offset + string_bytes(text).len() <= bytes.len()
            && bytes.subrange(at.offset as int, (at.offset + string_bytes(text).len()) as int)
            == string_bytes(text) && (at.limit matches Some(left) ==> 4 * left >= string_bytes(
            text,
        ).len()) ==> read_string(bytes, at).result == Ok::<Seq<char>, DecodeError>(text),
{
    lemma_string_kept(bytes, at);
    lemma_string_onward(bytes, at);
    if is_delimited(text) && at.offset + string_bytes(text).len() <= bytes.len() && bytes.subrange(
        at.offset as int,
        (at.offset + string_bytes(text).len()) as int,
    ) == string_bytes(text) && (at.limit matches Some(left) ==> 4 * left >= string_bytes(
        text,
    ).len()) {
        lemma_string_found(bytes, at, text);
    }
}

/// An enumerant is the word that stands there, if one is available and the enumeration
/// of the grammar knows it. One that is not available counts as missing from the
/// binary, and one that is not known is reported with its kind and its value.
pub proof fn law_enumerants_are_read(grammar: Grammar, bytes: Seq<u8>, kind: EnumKind, at: Cursor)
    requires
        at.offset <= bytes.len(),
    ensures
        ({
            let reading = read_enumerant(grammar, bytes, kind, at);
            let value = word_at(bytes, at.offset as int);
            reading.result == if available(bytes, at) == 0 {
                Err::<Word, DecodeError>(DecodeError::StreamExpected(at.offset as usize))
            } else if grammar.enumeration(kind) matches Some(enumeration) && enumeration.knows(
                value,
            ) {
                Ok::<Word, DecodeError>(value)
            } else {
                Err::<Word, DecodeError>(
                    DecodeError::EnumerantUnknown(at.offset as usize, kind, value),
                )
            }
        }),
        read_enumerant(grammar, bytes, kind, at).rest == read_word(bytes, at).rest,
{
}

} // verus!
