//! Reading the header and the instructions of a module, one after another.

use crate::decoder::{Cursor, DecodeError, Decoder, Reading};
use crate::grammar::{BasicKind, Grammar, InstructionGrammar, OperandKind, OperandQuantifier};
use crate::laws::locations::law_errors_carry_the_instruction_number;
use crate::mr::{operand_views, Instruction, InstructionView, ModuleHeader, Operand, OperandView};
use crate::spirv::{swap_bytes, MAGIC_NUMBER, OP_CONSTANT, OP_SPEC_CONSTANT, WORD_NUM_BYTES, Word};
use crate::state::{state_index, State};
use crate::syntax::{
    components, empty_draft, enumerant_parameters, is_self_contained, lemma_slot_onward, opcode,
    operand_parse, read_basic, read_each, read_header, read_ids, read_inst, read_literal,
    read_operand, read_slot, read_slots, read_spec_constant_op, word_count, Context, Draft,
    HEADER_NUM_WORDS, Parse,
};
use crate::tracker::{types_after, Type, TypeTracker};
use crate::version::create_version_from_word;
use vstd::prelude::*;

verus! {

/// Whether operands were read as a reading says.
pub open spec fn reads_as(operands: Result<Vec<Operand>, DecodeError>, reading: Reading<
    Seq<OperandView>,
>) -> bool {
    match operands {
        Ok(operands) => reading.result == Ok::<Seq<OperandView>, DecodeError>(
            operand_views(operands@),
        ),
        Err(error) => reading.result == Err::<Seq<OperandView>, DecodeError>(error),
    }
}

/// Whether operands were parsed as a parse says.
pub open spec fn parses_as<E>(operands: Result<Vec<Operand>, State<E>>, parse: Parse<
    Seq<OperandView>,
    E,
>) -> bool {
    match operands {
        Ok(operands) => parse.result == Ok::<Seq<OperandView>, State<E>>(operand_views(operands@)),
        Err(state) => parse.result == Err::<Seq<OperandView>, State<E>>(state),
    }
}

/// Splits the first word of an instruction into the word count and the opcode.
pub fn split_into_word_count_and_opcode(word: Word) -> (halves: (u16, u16))
    ensures
        halves == (word_count(word), opcode(word)),
{
    assert((word >> 16) == word / 0x1_0000) by (bit_vector);
    assert((word & 0xffff) == word % 0x1_0000) by (bit_vector);
    ((word >> 16) as u16, (word & 0xffff) as u16)
}

/// A reader of a binary.
pub struct ModuleReader<'d, 'g> {
    grammar: &'g Grammar,
    decoder: Decoder<'d>,
    type_tracker: TypeTracker,
    /// How many instructions have been begun.
    inst_index: usize,
}

impl<'d, 'g> ModuleReader<'d, 'g> {
    /// The grammar.
    pub closed spec fn grammar(&self) -> Grammar {
        *self.grammar
    }

    /// The whole binary.
    pub closed spec fn binary(&self) -> Seq<u8> {
        self.decoder.binary()
    }

    /// Where the reader stands in the binary.
    pub closed spec fn cursor(&self) -> Cursor {
        self.decoder.cursor()
    }

    /// The numeric types known so far.
    pub closed spec fn types(&self) -> Map<Word, Type> {
        self.type_tracker@
    }

    /// How many instructions have been begun.
    pub closed spec fn index(&self) -> nat {
        self.inst_index as nat
    }

    /// What the current instruction is read against.
    pub open spec fn context(&self) -> Context {
        Context {
            grammar: self.grammar(),
            bytes: self.binary(),
            types: self.types(),
            index: self.index(),
        }
    }

    /// What the next instruction is read against.
    pub open spec fn next_context(&self) -> Context {
        Context { index: self.index() + 1, ..self.context() }
    }

    /// The reader stands inside the binary or at its end.
    pub closed spec fn wf(&self) -> bool {
        self.decoder.wf()
    }

    /// Every instruction that has been begun has taken at least a word.
    pub open spec fn has_read_all_begun(&self) -> bool {
        WORD_NUM_BYTES * self.index() <= self.cursor().offset
    }

    /// Where every instruction that has been begun has taken a word, one more can be
    /// counted.
    pub proof fn lemma_can_begin(&self)
        requires
            self.wf(),
            self.has_read_all_begun(),
        ensures
            self.index() < usize::MAX,
    {
        self.decoder.lemma_wf();
    }

    /// Nothing but the place in the binary differs from another reader.
    pub open spec fn only_moved_from(&self, other: &Self) -> bool {
        self.context() == other.context()
    }

    /// Makes a reader that stands at the start of the binary.
    pub fn new(binary: &'d [u8], grammar: &'g Grammar) -> (reader: Self)
        ensures
            reader.wf(),
            reader.context() == (Context {
                grammar: *grammar,
                bytes: binary@,
                types: Map::empty(),
                index: 0,
            }),
            reader.cursor() == (Cursor { offset: 0, limit: None }),
            reader.has_read_all_begun(),
    {
        ModuleReader {
            grammar,
            decoder: Decoder::new(binary),
            type_tracker: TypeTracker::new(),
            inst_index: 0,
        }
    }

    /// Reads the module header.
    pub fn parse_header<E>(&mut self) -> (header: Result<ModuleHeader, State<E>>)
        requires
            old(self).wf(),
        ensures
            final(self).wf(),
            final(self).only_moved_from(old(self)),
            ({
                let parse = read_header::<E>(old(self).binary(), old(self).cursor());
                header == parse.result && final(self).cursor() == parse.rest
            }),
            old(self).cursor().offset <= final(self).cursor().offset,
    {
        match self.decoder.words(HEADER_NUM_WORDS) {
            Ok(words) => {
                assert(words@.len() == HEADER_NUM_WORDS);
                if words[0] != MAGIC_NUMBER {
                    if words[0] == swap_bytes(MAGIC_NUMBER) {
                        return Err(State::EndiannessUnsupported);
                    } else {
                        return Err(State::HeaderIncorrect);
                    }
                }
                let mut header = ModuleHeader::new(words[3]);
                let (major, minor) = create_version_from_word(words[1]);
                header.set_version(major, minor);
                Ok(header)
            },
            Err(error) => Err(State::HeaderIncomplete(error)),
        }
    }

    /// Reads one operand of a basic kind.
    fn parse_basic(&mut self, kind: BasicKind) -> (operand: Result<Operand, DecodeError>)
        requires
            old(self).wf(),
        ensures
            final(self).wf(),
            final(self).only_moved_from(old(self)),
            ({
                let reading = read_basic(
                    old(self).grammar(),
                    old(self).binary(),
                    kind,
                    old(self).cursor(),
                );
                &&& final(self).cursor() == reading.rest
                &&& match operand {
                    Ok(operand) => reading.result == Ok::<OperandView, DecodeError>(operand@),
                    Err(error) => reading.result == Err::<OperandView, DecodeError>(error),
                }
            }),
    {
        match kind {
            BasicKind::IdRef => match self.decoder.id() {
                Ok(id) => Ok(Operand::IdRef(id)),
                Err(error) => Err(error),
            },
            BasicKind::IdScope => match self.decoder.id() {
                Ok(id) => Ok(Operand::IdScope(id)),
                Err(error) => Err(error),
            },
            BasicKind::IdMemorySemantics => match self.decoder.id() {
                Ok(id) => Ok(Operand::IdMemorySemantics(id)),
                Err(error) => Err(error),
            },
            BasicKind::LiteralInteger => match self.decoder.int32() {
                Ok(value) => Ok(Operand::LiteralInt32(value)),
                Err(error) => Err(error),
            },
            BasicKind::LiteralExtInstInteger => match self.decoder.int32() {
                Ok(number) => Ok(Operand::LiteralExtInstInteger(number)),
                Err(error) => Err(error),
            },
            BasicKind::LiteralString => match self.decoder.string() {
                Ok(text) => Ok(Operand::LiteralString(text)),
                Err(error) => Err(error),
            },
            BasicKind::Enumerant(kind) => match self.decoder.enumerant(self.grammar, kind) {
                Ok(value) => Ok(Operand::Enumerant(kind, value)),
                Err(error) => Err(error),
            },
        }
    }

    /// Reads an operand of each of the kinds, behind those in `operands`.
    fn parse_each(&mut self, kinds: &Vec<BasicKind>, operands: Vec<Operand>) -> (all: Result<
        Vec<Operand>,
        DecodeError,
    >)
        requires
            old(self).wf(),
        ensures
            final(self).wf(),
            final(self).only_moved_from(old(self)),
            ({
                let reading = read_each(
                    old(self).grammar(),
                    old(self).binary(),
                    kinds@,
                    0,
                    operand_views(operands@),
                    old(self).cursor(),
                );
                final(self).cursor() == reading.rest && reads_as(all, reading)
            }),
    {
        let ghost whole = read_each(
            self.grammar(),
            self.binary(),
            kinds@,
            0,
            operand_views(operands@),
            self.cursor(),
        );
        let mut all: Vec<Operand> = operands;
        let mut k: usize = 0;
        while k < kinds.len()
            invariant
                self.wf(),
                self.only_moved_from(old(self)),
                k <= kinds@.len(),
                whole == read_each(
                    old(self).grammar(),
                    old(self).binary(),
                    kinds@,
                    0,
                    operand_views(operands@),
                    old(self).cursor(),
                ),
                whole == read_each(
                    self.grammar(),
                    self.binary(),
                    kinds@,
                    k as int,
                    operand_views(all@),
                    self.cursor(),
                ),
            decreases kinds@.len() - k,
        {
            let ghost before = all@;
            match self.parse_basic(kinds[k]) {
                Ok(operand) => {
                    all.push(operand);
                    assert(operand_views(all@) =~= operand_views(before).push(operand@));
                },
                Err(error) => return Err(error),
            }
            k = k + 1;
        }
        Ok(all)
    }

    /// Reads an operand of a self-contained kind, with all that belongs to it.
    fn parse_operand(&mut self, kind: OperandKind) -> (operands: Result<Vec<Operand>, DecodeError>)
        requires
            old(self).wf(),
            is_self_contained(kind),
        ensures
            final(self).wf(),
            final(self).only_moved_from(old(self)),
            ({
                let reading = read_operand(
                    old(self).grammar(),
                    old(self).binary(),
                    kind,
                    old(self).cursor(),
                );
                final(self).cursor() == reading.rest && reads_as(operands, reading)
            }),
    {
        match kind {
            OperandKind::Basic(BasicKind::Enumerant(kind)) => {
                let value: Word = match self.decoder.enumerant(self.grammar, kind) {
                    Ok(value) => value,
                    Err(error) => return Err(error),
                };
                let parameters: Vec<BasicKind> = match self.grammar.lookup_enumeration(kind) {
                    Some(enumeration) => enumeration.parameters_for(value),
                    None => Vec::new(),
                };
                assert(parameters@ =~= enumerant_parameters(self.grammar(), kind, value));
                let mut operands: Vec<Operand> = Vec::new();
                operands.push(Operand::Enumerant(kind, value));
                assert(operand_views(operands@) =~= seq![OperandView::Enumerant(kind, value)]);
                self.parse_each(&parameters, operands)
            },
            _ => {
                let mut kinds: Vec<BasicKind> = Vec::new();
                match kind {
                    OperandKind::PairLiteralIntegerIdRef => {
                        kinds.push(BasicKind::LiteralInteger);
                        kinds.push(BasicKind::IdRef);
                    },
                    OperandKind::PairIdRefLiteralInteger => {
                        kinds.push(BasicKind::IdRef);
                        kinds.push(BasicKind::LiteralInteger);
                    },
                    OperandKind::PairIdRefIdRef => {
                        kinds.push(BasicKind::IdRef);
                        kinds.push(BasicKind::IdRef);
                    },
                    OperandKind::Basic(kind) => {
                        kinds.push(kind);
                    },
                    _ => {},
                }
                assert(kinds@ =~= components(kind));
                let operands: Vec<Operand> = Vec::new();
                assert(operand_views(operands@) =~= Seq::empty());
                self.parse_each(&kinds, operands)
            },
        }
    }

    /// Reads the number of a constant whose type has this id.
    fn parse_literal<E>(&mut self, type_id: Word) -> (operand: Result<Operand, State<E>>)
        requires
            old(self).wf(),
        ensures
            final(self).wf(),
            final(self).only_moved_from(old(self)),
            ({
                let parse = read_literal::<E>(old(self).context(), type_id, old(self).cursor());
                &&& final(self).cursor() == parse.rest
                &&& match operand {
                    Ok(operand) => parse.result == Ok::<OperandView, State<E>>(operand@),
                    Err(state) => parse.result == Err::<OperandView, State<E>>(state),
                }
            }),
    {
        match self.type_tracker.resolve(type_id) {
            Some(Type::Integer(size, _)) => match size {
                32 => match self.decoder.int32() {
                    Ok(value) => Ok(Operand::LiteralInt32(value)),
                    Err(error) => Err(State::from(error)),
                },
                64 => match self.decoder.int64() {
                    Ok(value) => Ok(Operand::LiteralInt64(value)),
                    Err(error) => Err(State::from(error)),
                },
                _ => Err(State::TypeUnsupported(self.decoder.offset(), self.inst_index)),
            },
            Some(Type::Float(size)) => match size {
                32 => match self.decoder.float32() {
                    Ok(bits) => Ok(Operand::LiteralFloat32(bits)),
                    Err(error) => Err(State::from(error)),
                },
                64 => match self.decoder.float64() {
                    Ok(bits) => Ok(Operand::LiteralFloat64(bits)),
                    Err(error) => Err(State::from(error)),
                },
                _ => Err(State::TypeUnsupported(self.decoder.offset(), self.inst_index)),
            },
            None => match self.decoder.int32() {
                Ok(value) => Ok(Operand::LiteralInt32(value)),
                Err(error) => Err(State::from(error)),
            },
        }
    }

    /// Reads the operation of an `OpSpecConstantOp`.
    fn parse_spec_constant_op<E>(&mut self) -> (operands: Result<Vec<Operand>, State<E>>)
        requires
            old(self).wf(),
        ensures
            final(self).wf(),
            final(self).only_moved_from(old(self)),
            ({
                let parse = read_spec_constant_op::<E>(old(self).context(), old(self).cursor());
                final(self).cursor() == parse.rest && parses_as(operands, parse)
            }),
    {
        let number: Word = match self.decoder.int32() {
            Ok(number) => number,
            Err(error) => return Err(State::from(error)),
        };
        let grammar: &'g Grammar = self.grammar;
        let operation: &InstructionGrammar = match grammar.lookup_opcode(
            (number % 0x1_0000) as u16,
        ) {
            Some(operation) => operation,
            None => {
                return Err(
                    State::SpecConstantOpIntegerIncorrect(self.decoder.offset(), self.inst_index),
                );
            },
        };
        let mut operands: Vec<Operand> = Vec::new();
        operands.push(Operand::LiteralSpecConstantOpInteger(operation.class.opcode));
        assert(operand_views(operands@) =~= seq![
            OperandView::LiteralSpecConstantOpInteger(operation.class.opcode),
        ]);
        let ghost whole = read_ids(
            self.binary(),
            operation.operands@,
            0,
            operand_views(operands@),
            self.cursor(),
        );
        assert(read_spec_constant_op::<E>(old(self).context(), old(self).cursor())
            == operand_parse::<Seq<OperandView>, E>(whole));
        let mut k: usize = 0;
        while k < operation.operands.len()
            invariant
                self.wf(),
                self.only_moved_from(old(self)),
                k <= operation.operands@.len(),
                read_spec_constant_op::<E>(old(self).context(), old(self).cursor())
                    == operand_parse::<Seq<OperandView>, E>(whole),
                whole == read_ids(
                    self.binary(),
                    operation.operands@,
                    k as int,
                    operand_views(operands@),
                    self.cursor(),
                ),
            decreases operation.operands@.len() - k,
        {
            if operation.operands[k].kind == OperandKind::Basic(BasicKind::IdRef) {
                let ghost before = operands@;
                match self.decoder.id() {
                    Ok(id) => {
                        operands.push(Operand::IdRef(id));
                        assert(operand_views(operands@) =~= operand_views(before).push(
                            OperandView::IdRef(id),
                        ));
                    },
                    Err(error) => return Err(State::from(error)),
                }
            }
            k = k + 1;
        }
        Ok(operands)
    }

    /// Reads the operands of an instruction. The limit says how many words they
    /// may take.
    #[verifier::rlimit(30)]
    fn parse_operands<E>(&mut self, instruction: &InstructionGrammar) -> (parsed: Result<
        Instruction,
        State<E>,
    >)
        requires
            old(self).wf(),
            instruction.numbers_have_types(),
        ensures
            final(self).wf(),
            final(self).only_moved_from(old(self)),
            ({
                let parse = read_slots::<E>(
                    old(self).context(),
                    instruction.operands@,
                    0,
                    empty_draft(),
                    old(self).cursor(),
                );
                &&& final(self).cursor() == parse.rest
                &&& match parsed {
                    Ok(parsed) => parse.result == Ok::<Draft, State<E>>(
                        Draft {
                            result_type: parsed.result_type,
                            result_id: parsed.result_id,
                            operands: operand_views(parsed.operands@),
                        },
                    ) && parsed.class == instruction.class,
                    Err(state) => parse.result == Err::<Draft, State<E>>(state),
                }
            }),
    {
        let mut rtype: Option<Word> = None;
        let mut rid: Option<Word> = None;
        let mut coperands: Vec<Operand> = Vec::new();  // concrete operands
        let ghost whole = read_slots::<E>(
            self.context(),
            instruction.operands@,
            0,
            empty_draft(),
            self.cursor(),
        );
        assert(operand_views(coperands@) =~= Seq::empty());

        let mut loperand_index: usize = 0;  // logical operand index
        while loperand_index < instruction.operands.len()
            invariant
                self.wf(),
                self.only_moved_from(old(self)),
                instruction.numbers_have_types(),
                loperand_index <= instruction.operands@.len(),
                rtype is None ==> !instruction.has_result_type_before(loperand_index as int),
                whole == read_slots::<E>(
                    old(self).context(),
                    instruction.operands@,
                    0,
                    empty_draft(),
                    old(self).cursor(),
                ),
                whole == read_slots::<E>(
                    self.context(),
                    instruction.operands@,
                    loperand_index as int,
                    Draft {
                        result_type: rtype,
                        result_id: rid,
                        operands: operand_views(coperands@),
                    },
                    self.cursor(),
                ),
            ensures
                whole == (Parse {
                    result: Ok::<Draft, State<E>>(
                        Draft {
                            result_type: rtype,
                            result_id: rid,
                            operands: operand_views(coperands@),
                        },
                    ),
                    rest: self.cursor(),
                }),
            decreases
                instruction.operands@.len() - loperand_index,
                self.binary().len() - self.cursor().offset,
        {
            let kind: OperandKind = instruction.operands[loperand_index].kind;
            let quantifier: OperandQuantifier = instruction.operands[loperand_index].quantifier;
            if self.decoder.limit_reached() {
                // There are logical operands left, but no more words.
                match quantifier {
                    OperandQuantifier::One => {
                        return Err(State::OperandExpected(self.decoder.offset(), self.inst_index));
                    },
                    OperandQuantifier::ZeroOrOne | OperandQuantifier::ZeroOrMore => {
                        break;
                    },
                }
            }
            let ghost before = Draft {
                result_type: rtype,
                result_id: rid,
                operands: operand_views(coperands@),
            };
            let ghost at = self.cursor();
            proof {
                reveal(read_slot);
                lemma_slot_onward::<E>(self.context(), kind, before, at);
            }
            match kind {
                OperandKind::IdResultType => match self.decoder.id() {
                    Ok(id) => {
                        rtype = Some(id);
                    },
                    Err(error) => return Err(State::from(error)),
                },
                OperandKind::IdResult => match self.decoder.id() {
                    Ok(id) => {
                        rid = Some(id);
                    },
                    Err(error) => return Err(State::from(error)),
                },
                OperandKind::LiteralContextDependentNumber => {
                    assert(instruction.operands@[loperand_index as int].kind == kind);
                    assert(instruction.class.opcode == OP_CONSTANT || instruction.class.opcode
                        == OP_SPEC_CONSTANT);
                    let id: Word = rtype.unwrap();
                    match self.parse_literal(id) {
                        Ok(operand) => {
                            coperands.push(operand);
                            assert(operand_views(coperands@) =~= before.operands.push(operand@));
                        },
                        Err(state) => return Err(state),
                    }
                },
                OperandKind::LiteralSpecConstantOpInteger => match self.parse_spec_constant_op() {
                    Ok(operands) => {
                        let mut operands = operands;
                        let ghost more = operand_views(operands@);
                        coperands.append(&mut operands);
                        assert(operand_views(coperands@) =~= before.operands + more);
                    },
                    Err(state) => return Err(state),
                },
                _ => match self.parse_operand(kind) {
                    Ok(operands) => {
                        let mut operands = operands;
                        let ghost more = operand_views(operands@);
                        coperands.append(&mut operands);
                        assert(operand_views(coperands@) =~= before.operands + more);
                    },
                    Err(error) => return Err(State::from(error)),
                },
            }
            assert(read_slot::<E>(self.context(), kind, before, at) == (Parse {
                result: Ok::<Draft, State<E>>(
                    Draft {
                        result_type: rtype,
                        result_id: rid,
                        operands: operand_views(coperands@),
                    },
                ),
                rest: self.cursor(),
            }));
            match quantifier {
                OperandQuantifier::One | OperandQuantifier::ZeroOrOne => {
                    loperand_index = loperand_index + 1;
                },
                OperandQuantifier::ZeroOrMore => {},
            }
        }
        Ok(Instruction::new(instruction.class, rtype, rid, coperands))
    }

    /// Reads the next instruction. Whatever comes of it, it has been begun and is
    /// counted.
    pub fn parse_inst<E>(&mut self) -> (parsed: Result<Instruction, State<E>>)
        requires
            old(self).wf(),
            old(self).index() < usize::MAX,
        ensures
            final(self).wf(),
            final(self).context() == old(self).next_context(),
            ({
                let parse = read_inst::<E>(old(self).next_context(), old(self).cursor());
                &&& final(self).cursor() == parse.rest
                &&& match parsed {
                    Ok(parsed) => parse.result == Ok::<InstructionView, State<E>>(parsed@),
                    Err(state) => parse.result == Err::<InstructionView, State<E>>(state),
                }
            }),
            parsed matches Err(state) ==> (state_index(state) matches Some(number) ==> number
                == final(self).index()),
    {
        proof {
            reveal(read_inst);
            law_errors_carry_the_instruction_number::<E>(self.next_context(), self.cursor());
        }
        self.inst_index = self.inst_index + 1;
        let start: usize = self.decoder.offset();
        let word: Word = match self.decoder.word() {
            Ok(word) => word,
            Err(_) => return Err(State::Complete),
        };
        let (wc, opcode) = split_into_word_count_and_opcode(word);
        if wc == 0 {
            return Err(State::WordCountZero(start, self.inst_index));
        }
        let grammar: &'g Grammar = self.grammar;
        match grammar.lookup_opcode(opcode) {
            Some(instruction) => {
                self.decoder.set_limit((wc - 1) as usize);
                let result = self.parse_operands(instruction);
                if self.decoder.limit_reached() {
                    self.decoder.clear_limit();
                    result
                } else {
                    match result {
                        Ok(_) => Err(
                            State::OperandExceeded(self.decoder.offset(), self.inst_index),
                        ),
                        Err(state) => Err(state),
                    }
                }
            },
            None => Err(State::OpcodeUnknown(start, self.inst_index, opcode)),
        }
    }

    /// Takes note of the numeric type that an instruction declares.
    pub fn track(&mut self, inst: &Instruction)
        requires
            old(self).wf(),
        ensures
            final(self).wf(),
            final(self).cursor() == old(self).cursor(),
            final(self).context() == (Context {
                types: types_after(old(self).types(), inst@),
                ..old(self).context()
            }),
    {
        self.type_tracker.track(inst);
    }
}

} // verus!
