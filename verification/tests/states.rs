//! Every state in which parsing can end, and what is said of it.

use rspirv::grammar::{
    BasicKind, Category, Class, EnumKind, Enumerant, Enumeration, Grammar, InstructionGrammar,
    LogicalOperand, OperandKind, OperandQuantifier,
};
use rspirv::mr::{Instruction, ModuleHeader, Operand};
use rspirv::reader::ModuleReader;
use rspirv::{parse_bytes, Action, Consumer, DecodeError, State};

fn slot(kind: OperandKind, quantifier: OperandQuantifier) -> LogicalOperand {
    LogicalOperand { kind, quantifier }
}

fn grammar() -> Grammar {
    let one = OperandQuantifier::One;
    let id = OperandKind::Basic(BasicKind::IdRef);
    let int = OperandKind::Basic(BasicKind::LiteralInteger);
    let string = OperandKind::Basic(BasicKind::LiteralString);
    let dim = OperandKind::Basic(BasicKind::Enumerant(EnumKind::Dim));
    let access = OperandKind::Basic(BasicKind::Enumerant(EnumKind::MemoryAccess));
    let instructions = vec![
        ("Nop", 0, vec![]),
        ("Name", 5, vec![slot(id, one), slot(string, one)]),
        ("TypeInt", 21, vec![
            slot(OperandKind::IdResult, one),
            slot(int, one),
            slot(int, one),
        ]),
        ("TypeFloat", 22, vec![slot(OperandKind::IdResult, one), slot(int, one)]),
        ("TypeImage", 25, vec![slot(OperandKind::IdResult, one), slot(dim, one)]),
        ("Constant", 43, vec![
            slot(OperandKind::IdResultType, one),
            slot(OperandKind::IdResult, one),
            slot(OperandKind::LiteralContextDependentNumber, one),
        ]),
        ("SpecConstantOp", 52, vec![
            slot(OperandKind::IdResultType, one),
            slot(OperandKind::IdResult, one),
            slot(OperandKind::LiteralSpecConstantOpInteger, one),
        ]),
        ("Store", 62, vec![
            slot(id, one),
            slot(id, one),
            slot(access, OperandQuantifier::ZeroOrOne),
        ]),
        ("IAdd", 128, vec![
            slot(OperandKind::IdResultType, one),
            slot(OperandKind::IdResult, one),
            slot(id, one),
            slot(id, one),
        ]),
        ("Phi", 245, vec![
            slot(OperandKind::IdResultType, one),
            slot(OperandKind::IdResult, one),
            slot(OperandKind::PairIdRefIdRef, OperandQuantifier::ZeroOrMore),
        ]),
        ("Switch", 251, vec![
            slot(id, one),
            slot(id, one),
            slot(OperandKind::PairLiteralIntegerIdRef, OperandQuantifier::ZeroOrMore),
        ]),
        ("GroupMemberDecorate", 75, vec![
            slot(id, one),
            slot(OperandKind::PairIdRefLiteralInteger, OperandQuantifier::ZeroOrMore),
        ]),
        ("ExtInst", 12, vec![
            slot(id, one),
            slot(OperandKind::Basic(BasicKind::LiteralExtInstInteger), one),
        ]),
        ("ControlBarrier", 224, vec![
            slot(OperandKind::Basic(BasicKind::IdScope), one),
            slot(OperandKind::Basic(BasicKind::IdMemorySemantics), one),
        ]),
    ];
    let instructions = instructions
        .into_iter()
        .map(|(opname, opcode, operands)| InstructionGrammar {
            class: Class { opname, opcode },
            operands,
        })
        .collect();
    let enumerations = vec![
        Enumeration {
            kind: EnumKind::Dim,
            category: Category::Value,
            enumerants: vec![Enumerant { value: 1, parameters: vec![] }],
        },
        Enumeration {
            kind: EnumKind::MemoryAccess,
            category: Category::Bit,
            enumerants: vec![
                Enumerant { value: 1, parameters: vec![] },
                Enumerant { value: 2, parameters: vec![BasicKind::LiteralInteger] },
            ],
        },
    ];
    Grammar::new(instructions, enumerations).unwrap()
}

struct Keeper {
    insts: Vec<Instruction>,
}

impl Consumer for Keeper {
    type Error = String;

    fn initialize(&mut self) -> Action<String> {
        Action::Continue
    }
    fn finalize(&mut self) -> Action<String> {
        Action::Continue
    }
    fn consume_header(&mut self, _: ModuleHeader) -> Action<String> {
        Action::Continue
    }
    fn consume_instruction(&mut self, inst: Instruction) -> Action<String> {
        self.insts.push(inst);
        Action::Continue
    }
}

/// The bytes of a module whose words behind the header are these.
fn module(words: &[u32]) -> Vec<u8> {
    let header = [0x07230203, 0x0001_0000, 0, 100, 0];
    header.iter().chain(words).flat_map(|word| word.to_le_bytes()).collect()
}

fn parse(bytes: &[u8]) -> (Result<(), State<String>>, Vec<Instruction>) {
    let g = grammar();
    let mut keeper = Keeper { insts: vec![] };
    let result = parse_bytes(bytes, &mut keeper, &g);
    (result, keeper.insts)
}

fn end(words: &[u32]) -> State<String> {
    match parse(&module(words)).0 {
        Ok(()) => State::Complete,
        Err(state) => state,
    }
}

fn operands(words: &[u32]) -> Vec<Operand> {
    let (result, mut insts) = parse(&module(words));
    assert!(result.is_ok());
    insts.pop().unwrap().operands
}

#[test]
fn word_count_of_zero() {
    assert!(matches!(end(&[0x0001_0000, 0x0000_0005]), State::WordCountZero(24, 2)));
}

#[test]
fn opcode_unknown() {
    assert!(matches!(end(&[0x0001_0000, 0x0001_03e7]), State::OpcodeUnknown(24, 2, 999)));
    // A word count of zero comes first.
    assert!(matches!(end(&[0x0000_03e7]), State::WordCountZero(20, 1)));
}

#[test]
fn operand_expected() {
    assert!(matches!(end(&[0x0002_003e, 1]), State::OperandExpected(28, 1)));
    assert!(matches!(end(&[0x0001_003e]), State::OperandExpected(24, 1)));
}

#[test]
fn operand_exceeded() {
    assert!(matches!(end(&[0x0003_0000, 1, 2]), State::OperandExceeded(24, 1)));
    assert!(matches!(end(&[0x0005_003e, 1, 2, 1, 9]), State::OperandExceeded(36, 1)));
}

#[test]
fn an_error_is_reported_though_words_are_left() {
    // In each case another word would be allowed.
    assert!(matches!(
        end(&[0x0004_0019, 7, 5, 0]),
        State::OperandError(DecodeError::EnumerantUnknown(28, EnumKind::Dim, 5))
    ));
    assert!(matches!(
        end(&[0x0004_003e, 1]),
        State::OperandError(DecodeError::StreamExpected(28))
    ));
    assert!(matches!(
        end(&[0x0004_0005, 1, 0x0000_00ff, 0]),
        State::OperandError(DecodeError::DecodeStringFailed(28))
    ));
    assert!(matches!(
        end(&[0x0006_0034, 1, 2, 999, 3, 4]),
        State::SpecConstantOpIntegerIncorrect(36, 1)
    ));
}

#[test]
fn operand_missing_from_the_stream() {
    assert!(matches!(
        end(&[0x0003_003e, 1]),
        State::OperandError(DecodeError::StreamExpected(28))
    ));
}

#[test]
fn operand_missing_from_the_instruction() {
    // A parameter of the memory access.
    assert!(matches!(
        end(&[0x0004_003e, 1, 2, 2]),
        State::OperandError(DecodeError::LimitReached(36))
    ));
}

#[test]
fn operand_is_no_string() {
    assert!(matches!(
        end(&[0x0003_0005, 1, 0x0000_00ff]),
        State::OperandError(DecodeError::DecodeStringFailed(28))
    ));
}

#[test]
fn operand_is_no_enumerant() {
    assert!(matches!(
        end(&[0x0003_0019, 1, 2]),
        State::OperandError(DecodeError::EnumerantUnknown(28, EnumKind::Dim, 2))
    ));
    assert!(matches!(
        end(&[0x0004_003e, 1, 2, 4]),
        State::OperandError(DecodeError::EnumerantUnknown(32, EnumKind::MemoryAccess, 4))
    ));
}

#[test]
fn type_unsupported() {
    let int16 = [0x0004_0015, 1, 16, 1, 0x0004_002b, 1, 2, 5];
    assert!(matches!(end(&int16), State::TypeUnsupported(48, 2)));
    let float16 = [0x0003_0016, 1, 16, 0x0004_002b, 1, 2, 3];
    assert!(matches!(end(&float16), State::TypeUnsupported(44, 2)));
    // Two words for the number make no difference.
    let int8 = [0x0004_0015, 1, 8, 0, 0x0005_002b, 1, 2, 3, 4];
    assert!(matches!(end(&int8), State::TypeUnsupported(48, 2)));
    // Where there is no number, that is what is wrong.
    let missing = [0x0004_0015, 1, 16, 0, 0x0003_002b, 1, 2];
    assert!(matches!(end(&missing), State::OperandExpected(48, 2)));
}

#[test]
fn every_attempt_at_an_instruction_is_counted() {
    let g = grammar();
    // OpNop with two words too many, which are then taken for instructions.
    let bytes = module(&[0x0003_0000, 1, 2]);
    let mut reader = ModuleReader::new(&bytes, &g);
    assert!(reader.parse_header::<()>().is_ok());
    assert!(matches!(reader.parse_inst::<()>(), Err(State::OperandExceeded(24, 1))));
    assert!(matches!(reader.parse_inst::<()>(), Err(State::WordCountZero(24, 2))));
    assert!(matches!(reader.parse_inst::<()>(), Err(State::WordCountZero(28, 3))));
    assert!(matches!(reader.parse_inst::<()>(), Err(State::Complete)));
}

#[test]
fn spec_constant_op_unknown() {
    assert!(matches!(
        end(&[0x0004_0034, 1, 2, 999]),
        State::SpecConstantOpIntegerIncorrect(36, 1)
    ));
}

#[test]
fn spec_constant_op_with_a_missing_id() {
    assert!(matches!(
        end(&[0x0005_0034, 1, 2, 128, 3]),
        State::OperandError(DecodeError::LimitReached(40))
    ));
}

#[test]
fn spec_constant_op_is_half_a_word() {
    // The high half of the number is passed over.
    let found = operands(&[0x0006_0034, 1, 2, 0xabcd_0080, 3, 4]);
    assert_eq!(
        vec![
            Operand::LiteralSpecConstantOpInteger(128),
            Operand::IdRef(3),
            Operand::IdRef(4),
        ],
        found
    );
}

#[test]
fn unknown_types_have_one_word() {
    assert_eq!(vec![Operand::LiteralInt32(7)], operands(&[0x0004_002b, 99, 2, 7]));
}

#[test]
fn constants_of_each_width() {
    assert_eq!(
        vec![Operand::LiteralInt32(7)],
        operands(&[0x0004_0015, 1, 32, 1, 0x0004_002b, 1, 2, 7])
    );
    assert_eq!(
        vec![Operand::LiteralInt64(0x8_0000_0007)],
        operands(&[0x0004_0015, 1, 64, 0, 0x0005_002b, 1, 2, 7, 8])
    );
    assert_eq!(
        vec![Operand::LiteralFloat32(7)],
        operands(&[0x0003_0016, 1, 32, 0x0004_002b, 1, 2, 7])
    );
    assert_eq!(
        vec![Operand::LiteralFloat64(0x8_0000_0007)],
        operands(&[0x0003_0016, 1, 64, 0x0005_002b, 1, 2, 7, 8])
    );
}

#[test]
fn a_type_is_known_from_its_declaration_on() {
    // The constant comes first, so its type counts as unknown.
    let (result, insts) = parse(&module(&[0x0004_002b, 1, 2, 7, 0x0004_0015, 1, 64, 0]));
    assert!(result.is_ok());
    assert_eq!(vec![Operand::LiteralInt32(7)], insts[0].operands);
}

#[test]
fn pairs_repeat_up_to_the_limit() {
    assert_eq!(Vec::<Operand>::new(), operands(&[0x0003_00f5, 1, 2]));
    assert_eq!(
        vec![Operand::IdRef(3), Operand::IdRef(4), Operand::IdRef(5), Operand::IdRef(6)],
        operands(&[0x0007_00f5, 1, 2, 3, 4, 5, 6])
    );
    assert_eq!(
        vec![
            Operand::IdRef(1),
            Operand::IdRef(2),
            Operand::LiteralInt32(3),
            Operand::IdRef(4),
        ],
        operands(&[0x0005_00fb, 1, 2, 3, 4])
    );
    assert_eq!(
        vec![Operand::IdRef(1), Operand::IdRef(2), Operand::LiteralInt32(3)],
        operands(&[0x0004_004b, 1, 2, 3])
    );
}

#[test]
fn half_a_pair() {
    assert!(matches!(
        end(&[0x0004_00f5, 1, 2, 3]),
        State::OperandError(DecodeError::LimitReached(36))
    ));
}

#[test]
fn remaining_kinds_of_operand() {
    assert_eq!(
        vec![Operand::IdRef(1), Operand::LiteralExtInstInteger(2)],
        operands(&[0x0003_000c, 1, 2])
    );
    assert_eq!(
        vec![Operand::IdScope(1), Operand::IdMemorySemantics(2)],
        operands(&[0x0003_00e0, 1, 2])
    );
    assert_eq!(
        vec![Operand::IdRef(1), Operand::LiteralString("wow".to_string())],
        operands(&[0x0003_0005, 1, 0x0077_6f77])
    );
    assert_eq!(vec![Operand::Enumerant(EnumKind::Dim, 1)], operands(&[0x0003_0019, 9, 1]));
}

#[test]
fn up_to_three_bytes_are_left_over() {
    for n in 0..4 {
        let mut bytes = module(&[0x0001_0000]);
        bytes.extend_from_slice(&vec![0xff; n]);
        let (result, insts) = parse(&bytes);
        assert!(result.is_ok());
        assert_eq!(1, insts.len());
    }
}

#[test]
fn short_headers_are_incomplete() {
    let bytes = module(&[]);
    for n in 0..20 {
        let (result, _) = parse(&bytes[..n]);
        match result {
            Err(State::HeaderIncomplete(DecodeError::StreamExpected(offset))) => {
                assert_eq!(n / 4 * 4, offset);
            }
            _ => panic!("a header of {} bytes", n),
        }
    }
    assert!(parse(&bytes).0.is_ok());
}

#[test]
fn the_magic_number_decides() {
    let mut bytes = module(&[]);
    bytes[..4].copy_from_slice(&[0x07, 0x23, 0x02, 0x03]);
    assert!(matches!(parse(&bytes).0, Err(State::EndiannessUnsupported)));
    for k in 0..4 {
        let mut bytes = module(&[]);
        bytes[k] ^= 0x10;
        assert!(matches!(parse(&bytes).0, Err(State::HeaderIncorrect)));
    }
}

#[test]
fn from_decode_error() {
    let state: State<String> = State::from(DecodeError::LimitReached(8));
    assert!(matches!(state, State::OperandError(DecodeError::LimitReached(8))));
}

#[test]
fn decode_error_messages() {
    assert_eq!(
        "expected more bytes in the stream at offset 20",
        DecodeError::StreamExpected(20).message()
    );
    assert_eq!("reached word limit at offset 0", DecodeError::LimitReached(0).message());
    assert_eq!(
        "cannot decode string at offset 1234",
        DecodeError::DecodeStringFailed(1234).message()
    );
    assert_eq!(
        "unknown enumerant 4294967295 at offset 8",
        DecodeError::EnumerantUnknown(8, EnumKind::Dim, 0xffff_ffff).message()
    );
}

fn check(state: State<()>, description: &str, message: &str) {
    assert_eq!(description, state.description());
    assert_eq!(message, state.message("out of paper"));
}

#[test]
fn state_messages() {
    check(State::Complete, "completed parsing", "completed parsing");
    check(
        State::ConsumerStopRequested,
        "stop parsing requested by consumer",
        "stop parsing requested by consumer",
    );
    check(State::ConsumerError(()), "consumer error", "consumer error: out of paper");
    check(
        State::HeaderIncomplete(DecodeError::StreamExpected(12)),
        "incomplete module header",
        "incomplete module header: expected more bytes in the stream at offset 12",
    );
    check(State::HeaderIncorrect, "incorrect module header", "incorrect module header");
    check(State::EndiannessUnsupported, "unsupported endianness", "unsupported endianness");
    check(
        State::WordCountZero(20, 1),
        "zero word count found",
        "zero word count found for instruction #1 at offset 20",
    );
    check(
        State::OpcodeUnknown(24, 2, 999),
        "unknown opcode",
        "unknown opcode (999) for instruction #2 at offset 24",
    );
    check(
        State::OperandExpected(28, 3),
        "expected more operands",
        "expected more operands for instruction #3 at offset 28",
    );
    check(
        State::OperandExceeded(32, 10),
        "found extra operands",
        "found extra operands for instruction #10 at offset 32",
    );
    check(
        State::OperandError(DecodeError::LimitReached(36)),
        "operand decoding error",
        "operand decoding error: reached word limit at offset 36",
    );
    check(
        State::TypeUnsupported(40, 5),
        "unsupported type",
        "unsupported type for instruction #5 at offset 40",
    );
    check(
        State::SpecConstantOpIntegerIncorrect(44, 6),
        "incorrect SpecConstantOp Integer",
        "incorrect SpecConstantOp number for instruction #6 at offset 44",
    );
}
