//! Reading words and literals from a SPIR-V binary.
//!
//! The decoder knows nothing of instructions. It reads little-endian words from
//! a binary, one after another, and what is made of words alone: wide literals,
//! strings and enumerants. A limit can be put on how many words it may still
//! read.

use crate::grammar::{EnumKind, Grammar};
use crate::spirv::{word_at, Word, WORD_NUM_BYTES};
use vstd::prelude::*;
use vstd::utf8::{decode_utf8, valid_utf8};

verus! {

/// Why something could not be decoded. Every error has the byte offset of where
/// decoding failed.
#[derive(Clone, Copy, Debug, PartialEq, Eq, Structural)]
pub enum DecodeError {
    /// The binary ends before the next word does.
    StreamExpected(usize),
    /// No more words may be read.
    LimitReached(usize),
    /// The bytes of a string, which starts at this offset, are not UTF-8.
    DecodeStringFailed(usize),
    /// The word at this offset is no value of the enumeration.
    EnumerantUnknown(usize, EnumKind, Word),
}

/// Where a decoder stands: the byte offset of the next word, and how many words
/// it may still read if there is a limit.
#[verifier::ext_equal]
pub struct Cursor {
    pub offset: nat,
    pub limit: Option<nat>,
}

impl Cursor {
    /// The cursor when one of the allowed words has been spent.
    pub open spec fn spend(self) -> Cursor {
        Cursor {
            offset: self.offset,
            limit: match self.limit {
                Some(left) => Some((left - 1) as nat),
                None => None,
            },
        }
    }

    /// The cursor behind the next word.
    pub open spec fn advance(self) -> Cursor {
        Cursor { offset: self.offset + WORD_NUM_BYTES as nat, limit: self.spend().limit }
    }
}

/// What comes of reading something: the value or the error, and where the
/// decoder stands afterwards.
pub struct Reading<T> {
    pub result: Result<T, DecodeError>,
    pub rest: Cursor,
}

/// Reading the next word. The limit is looked at first, and a word that the
/// binary lacks is spent all the same.
pub open spec fn read_word(bytes: Seq<u8>, at: Cursor) -> Reading<Word> {
    if at.limit == Some(0nat) {
        Reading { result: Err(DecodeError::LimitReached(at.offset as usize)), rest: at }
    } else if at.offset + WORD_NUM_BYTES > bytes.len() {
        Reading { result: Err(DecodeError::StreamExpected(at.offset as usize)), rest: at.spend() }
    } else {
        Reading { result: Ok(word_at(bytes, at.offset as int)), rest: at.advance() }
    }
}

/// Reading the next `n` words, behind those in `words`.
pub open spec fn read_words(bytes: Seq<u8>, n: nat, words: Seq<Word>, at: Cursor) -> Reading<
    Seq<Word>,
>
    decreases n,
{
    if n == 0 {
        Reading { result: Ok(words), rest: at }
    } else {
        let first = read_word(bytes, at);
        match first.result {
            Ok(word) => read_words(bytes, (n - 1) as nat, words.push(word), first.rest),
            Err(error) => Reading { result: Err(error), rest: first.rest },
        }
    }
}

/// Reading a literal of two words, the low-order word first.
pub open spec fn read_int64(bytes: Seq<u8>, at: Cursor) -> Reading<u64> {
    let low = read_word(bytes, at);
    match low.result {
        Ok(low_word) => {
            let high = read_word(bytes, low.rest);
            match high.result {
                Ok(high_word) => Reading {
                    result: Ok((low_word + 0x1_0000_0000 * high_word) as u64),
                    rest: high.rest,
                },
                Err(error) => Reading { result: Err(error), rest: high.rest },
            }
        },
        Err(error) => Reading { result: Err(error), rest: low.rest },
    }
}

/// Going over the words of a string: up to the first one whose last byte is nul.
pub open spec fn skip_string(bytes: Seq<u8>, at: Cursor) -> Reading<()>
    decreases bytes.len() - at.offset,
{
    let word = read_word(bytes, at);
    match word.result {
        Ok(_) => if bytes[at.offset as int + 3] == 0 {
            Reading { result: Ok(()), rest: word.rest }
        } else {
            skip_string(bytes, word.rest)
        },
        Err(error) => Reading { result: Err(error), rest: word.rest },
    }
}

/// The bytes without the nul bytes at their end.
pub open spec fn trim_nul(bytes: Seq<u8>) -> Seq<u8>
    decreases bytes.len(),
{
    if bytes.len() > 0 && bytes.last() == 0 {
        trim_nul(bytes.drop_last())
    } else {
        bytes
    }
}

/// Reading a string: the characters that its bytes encode, without the nul bytes
/// that end it and fill its last word.
pub open spec fn read_string(bytes: Seq<u8>, at: Cursor) -> Reading<Seq<char>> {
    let words = skip_string(bytes, at);
    match words.result {
        Ok(_) => {
            let text = trim_nul(bytes.subrange(at.offset as int, words.rest.offset as int));
            Reading {
                result: if valid_utf8(text) {
                    Ok(decode_utf8(text))
                } else {
                    Err(DecodeError::DecodeStringFailed(at.offset as usize))
                },
                rest: words.rest,
            }
        },
        Err(error) => Reading { result: Err(error), rest: words.rest },
    }
}

/// Whether the grammar has an enumeration of this kind, with this value.
pub open spec fn is_enumerant(grammar: Grammar, kind: EnumKind, value: Word) -> bool {
    grammar.enumeration(kind) matches Some(enumeration) && enumeration.knows(value)
}

/// Reading an enumerant. A missing word counts as missing from the binary, even
/// where it was the limit that ruled it out.
pub open spec fn read_enumerant(
    grammar: Grammar,
    bytes: Seq<u8>,
    kind: EnumKind,
    at: Cursor,
) -> Reading<Word> {
    let word = read_word(bytes, at);
    Reading {
        result: match word.result {
            Ok(value) => if is_enumerant(grammar, kind, value) {
                Ok(value)
            } else {
                Err(DecodeError::EnumerantUnknown(at.offset as usize, kind, value))
            },
            Err(_) => Err(DecodeError::StreamExpected(at.offset as usize)),
        },
        rest: word.rest,
    }
}

/// Decodes UTF-8.
///
/// Calls `String::from_utf8`, of which it is claimed that it accepts exactly the
/// byte sequences that are well-formed UTF-8, and gives the characters that they
/// encode.
#[verifier::external_body]
fn string_from_utf8(bytes: Vec<u8>) -> (text: Option<String>)
    ensures
        match text {
            Some(text) => valid_utf8(bytes@) && text@ == decode_utf8(bytes@),
            None => !valid_utf8(bytes@),
        },
{
    String::from_utf8(bytes).ok()
}

/// A decoder of a binary.
pub struct Decoder<'d> {
    bytes: &'d [u8],
    offset: usize,
    limit: Option<usize>,
}

impl<'d> Decoder<'d> {
    /// The whole binary.
    pub closed spec fn binary(&self) -> Seq<u8> {
        self.bytes@
    }

    /// Where the decoder stands.
    pub closed spec fn cursor(&self) -> Cursor {
        Cursor {
            offset: self.offset as nat,
            limit: match self.limit {
                Some(left) => Some(left as nat),
                None => None,
            },
        }
    }

    /// The decoder stands inside the binary or at its end.
    pub closed spec fn wf(&self) -> bool {
        self.offset <= self.bytes@.len()
    }

    /// A decoder does not go beyond the end of its binary.
    pub proof fn lemma_wf(&self)
        requires
            self.wf(),
        ensures
            self.cursor().offset <= self.binary().len(),
            self.cursor().offset <= usize::MAX,
    {
    }

    /// Makes a decoder that stands at the start of the binary, without a limit.
    pub fn new(bytes: &'d [u8]) -> (decoder: Self)
        ensures
            decoder.wf(),
            decoder.binary() == bytes@,
            decoder.cursor() == (Cursor { offset: 0, limit: None }),
    {
        Decoder { bytes, offset: 0, limit: None }
    }

    /// The byte offset of the next word.
    pub fn offset(&self) -> (offset: usize)
        requires
            self.wf(),
        ensures
            offset == self.cursor().offset,
            offset <= self.binary().len(),
    {
        self.offset
    }

    /// Allows `num_words` more words.
    pub fn set_limit(&mut self, num_words: usize)
        requires
            old(self).wf(),
        ensures
            final(self).wf(),
            final(self).binary() == old(self).binary(),
            final(self).cursor() == (Cursor {
                offset: old(self).cursor().offset,
                limit: Some(num_words as nat),
            }),
    {
        self.limit = Some(num_words);
    }

    /// Takes the limit away.
    pub fn clear_limit(&mut self)
        requires
            old(self).wf(),
        ensures
            final(self).wf(),
            final(self).binary() == old(self).binary(),
            final(self).cursor() == (Cursor { offset: old(self).cursor().offset, limit: None }),
    {
        self.limit = None;
    }

    /// Whether there is a limit and no more words are allowed.
    pub fn limit_reached(&self) -> (reached: bool)
        ensures
            reached == (self.cursor().limit == Some(0nat)),
    {
        match self.limit {
            Some(left) => left == 0,
            None => false,
        }
    }

    /// Reads the next word.
    pub fn word(&mut self) -> (word: Result<Word, DecodeError>)
        requires
            old(self).wf(),
        ensures
            final(self).wf(),
            final(self).binary() == old(self).binary(),
            ({
                let reading = read_word(old(self).binary(), old(self).cursor());
                word == reading.result && final(self).cursor() == reading.rest
            }),
    {
        match self.limit {
            Some(left) => {
                if left == 0 {
                    return Err(DecodeError::LimitReached(self.offset));
                }
                self.limit = Some(left - 1);
            },
            None => {},
        }
        if self.bytes.len() - self.offset < WORD_NUM_BYTES {
            return Err(DecodeError::StreamExpected(self.offset));
        }
        let start: usize = self.offset;
        self.offset = start + WORD_NUM_BYTES;
        Ok(
            self.bytes[start] as Word + 0x100 * (self.bytes[start + 1] as Word) + 0x1_0000 * (
            self.bytes[start + 2] as Word) + 0x100_0000 * (self.bytes[start + 3] as Word),
        )
    }

    /// Reads the next `n` words.
    pub fn words(&mut self, n: usize) -> (words: Result<Vec<Word>, DecodeError>)
        requires
            old(self).wf(),
        ensures
            final(self).wf(),
            final(self).binary() == old(self).binary(),
            ({
                let reading = read_words(
                    old(self).binary(),
                    n as nat,
                    Seq::empty(),
                    old(self).cursor(),
                );
                &&& final(self).cursor() == reading.rest
                &&& match words {
                    Ok(words) => reading.result == Ok::<Seq<Word>, DecodeError>(words@),
                    Err(error) => reading.result == Err::<Seq<Word>, DecodeError>(error),
                }
            }),
            words matches Ok(words) ==> words@.len() == n,
            old(self).cursor().offset <= final(self).cursor().offset,
    {
        let ghost whole = read_words(self.binary(), n as nat, Seq::empty(), self.cursor());
        let mut words: Vec<Word> = Vec::new();
        let mut left: usize = n;
        while left > 0
            invariant
                self.wf(),
                self.binary() == old(self).binary(),
                old(self).offset <= self.offset,
                words@.len() == n - left,
                left <= n,
                whole == read_words(
                    old(self).binary(),
                    n as nat,
                    Seq::empty(),
                    old(self).cursor(),
                ),
                whole == read_words(self.binary(), left as nat, words@, self.cursor()),
            decreases left,
        {
            match self.word() {
                Ok(word) => words.push(word),
                Err(error) => return Err(error),
            }
            left = left - 1;
        }
        Ok(words)
    }

    /// Reads an id.
    pub fn id(&mut self) -> (id: Result<Word, DecodeError>)
        requires
            old(self).wf(),
        ensures
            final(self).wf(),
            final(self).binary() == old(self).binary(),
            ({
                let reading = read_word(old(self).binary(), old(self).cursor());
                id == reading.result && final(self).cursor() == reading.rest
            }),
    {
        self.word()
    }

    /// Reads a one-word integer.
    pub fn int32(&mut self) -> (value: Result<Word, DecodeError>)
        requires
            old(self).wf(),
        ensures
            final(self).wf(),
            final(self).binary() == old(self).binary(),
            ({
                let reading = read_word(old(self).binary(), old(self).cursor());
                value == reading.result && final(self).cursor() == reading.rest
            }),
    {
        self.word()
    }

    /// Reads a two-word integer.
    pub fn int64(&mut self) -> (value: Result<u64, DecodeError>)
        requires
            old(self).wf(),
        ensures
            final(self).wf(),
            final(self).binary() == old(self).binary(),
            ({
                let reading = read_int64(old(self).binary(), old(self).cursor());
                value == reading.result && final(self).cursor() == reading.rest
            }),
    {
        match self.word() {
            Ok(low) => match self.word() {
                Ok(high) => Ok(low as u64 + 0x1_0000_0000 * (high as u64)),
                Err(error) => Err(error),
            },
            Err(error) => Err(error),
        }
    }

    /// Reads a one-word floating-point number, as its bits.
    pub fn float32(&mut self) -> (bits: Result<Word, DecodeError>)
        requires
            old(self).wf(),
        ensures
            final(self).wf(),
            final(self).binary() == old(self).binary(),
            ({
                let reading = read_word(old(self).binary(), old(self).cursor());
                bits == reading.result && final(self).cursor() == reading.rest
            }),
    {
        self.word()
    }

    /// Reads a two-word floating-point number, as its bits.
    pub fn float64(&mut self) -> (bits: Result<u64, DecodeError>)
        requires
            old(self).wf(),
        ensures
            final(self).wf(),
            final(self).binary() == old(self).binary(),
            ({
                let reading = read_int64(old(self).binary(), old(self).cursor());
                bits == reading.result && final(self).cursor() == reading.rest
            }),
    {
        self.int64()
    }

    /// Reads a string.
    pub fn string(&mut self) -> (text: Result<String, DecodeError>)
        requires
            old(self).wf(),
        ensures
            final(self).wf(),
            final(self).binary() == old(self).binary(),
            ({
                let reading = read_string(old(self).binary(), old(self).cursor());
                &&& final(self).cursor() == reading.rest
                &&& match text {
                    Ok(text) => reading.result == Ok::<Seq<char>, DecodeError>(text@),
                    Err(error) => reading.result == Err::<Seq<char>, DecodeError>(error),
                }
            }),
            old(self).cursor().offset <= final(self).cursor().offset,
    {
        let start: usize = self.offset;
        let ghost whole = skip_string(self.binary(), self.cursor());
        let mut text: Vec<u8> = Vec::new();
        loop
            invariant_except_break
                self.wf(),
                start == old(self).offset,
                start <= self.offset,
                self.binary() == old(self).binary(),
                text@ == self.binary().subrange(start as int, self.offset as int),
                whole == skip_string(old(self).binary(), old(self).cursor()),
                whole == skip_string(self.binary(), self.cursor()),
            ensures
                self.wf(),
                start <= self.offset,
                self.binary() == old(self).binary(),
                text@ == self.binary().subrange(start as int, self.offset as int),
                whole == (Reading { result: Ok(()), rest: self.cursor() }),
            decreases self.bytes@.len() - self.offset,
        {
            let at: usize = self.offset;
            match self.word() {
                Ok(_) => {},
                Err(error) => return Err(error),
            }
            text.push(self.bytes[at]);
            text.push(self.bytes[at + 1]);
            text.push(self.bytes[at + 2]);
            text.push(self.bytes[at + 3]);
            if self.bytes[at + 3] == 0 {
                break;
            }
        }
        let ghost raw = text@;
        while text.len() > 0 && text[text.len() - 1] == 0
            invariant
                trim_nul(raw) == trim_nul(text@),
            decreases text@.len(),
        {
            let ghost before = text@;
            text.pop();
            assert(text@ =~= before.drop_last());
        }
        match string_from_utf8(text) {
            Some(text) => Ok(text),
            None => Err(DecodeError::DecodeStringFailed(start)),
        }
    }

    /// Reads a value of an enumeration of the grammar.
    pub fn enumerant(&mut self, grammar: &Grammar, kind: EnumKind) -> (value: Result<
        Word,
        DecodeError,
    >)
        requires
            old(self).wf(),
        ensures
            final(self).wf(),
            final(self).binary() == old(self).binary(),
            ({
                let reading = read_enumerant(
                    *grammar,
                    old(self).binary(),
                    kind,
                    old(self).cursor(),
                );
                value == reading.result && final(self).cursor() == reading.rest
            }),
    {
        let start: usize = self.offset;
        match self.word() {
            Ok(value) => {
                let known: bool = match grammar.lookup_enumeration(kind) {
                    Some(enumeration) => enumeration.has_value(value),
                    None => false,
                };
                if known {
                    Ok(value)
                } else {
                    Err(DecodeError::EnumerantUnknown(start, kind, value))
                }
            },
            Err(_) => Err(DecodeError::StreamExpected(start)),
        }
    }
}

} // verus!
