//! Parsing whole modules.

use rspirv::grammar::{
    BasicKind, Category, Class, EnumKind, Enumerant, Enumeration, Grammar, InstructionGrammar,
    LogicalOperand, OperandKind, OperandQuantifier,
};
use rspirv::mr::{Instruction, ModuleHeader, Operand};
use rspirv::{parse_words, Action, Consumer, DecodeError, Parser, State};
use std::{error, fmt};

const WORD_NUM_BYTES: usize = 4;

fn zero_bound_header() -> Vec<u8> {
    vec![
        // Magic number.           Version number: 1.0.
        0x03, 0x02, 0x23, 0x07,    0x00, 0x00, 0x01, 0x00,
        // Generator number: 0.    Bound: 0.
        0x00, 0x00, 0x00, 0x00,    0x00, 0x00, 0x00, 0x00,
        // Reserved word: 0.
        0x00, 0x00, 0x00, 0x00,
    ]
}

fn one(kind: OperandKind) -> LogicalOperand {
    LogicalOperand { kind, quantifier: OperandQuantifier::One }
}

fn optional(kind: OperandKind) -> LogicalOperand {
    LogicalOperand { kind, quantifier: OperandQuantifier::ZeroOrOne }
}

fn enumerant(kind: EnumKind) -> OperandKind {
    OperandKind::Basic(BasicKind::Enumerant(kind))
}

fn inst(opname: &'static str, opcode: u16, operands: Vec<LogicalOperand>) -> InstructionGrammar {
    InstructionGrammar { class: Class { opname, opcode }, operands }
}

fn plain(values: Vec<u32>) -> Vec<Enumerant> {
    values.into_iter().map(|value| Enumerant { value, parameters: vec![] }).collect()
}

/// The part of the core grammar that the modules below use.
fn grammar() -> Grammar {
    let id = OperandKind::Basic(BasicKind::IdRef);
    let int = OperandKind::Basic(BasicKind::LiteralInteger);
    let string = OperandKind::Basic(BasicKind::LiteralString);
    let rtype = OperandKind::IdResultType;
    let rid = OperandKind::IdResult;
    let number = OperandKind::LiteralContextDependentNumber;
    let spec_op = OperandKind::LiteralSpecConstantOpInteger;
    let instructions = vec![
        inst("Nop", 0, vec![]),
        inst("Source", 3, vec![
            one(enumerant(EnumKind::SourceLanguage)),
            one(int),
            optional(id),
            optional(string),
        ]),
        inst("MemoryModel", 14, vec![
            one(enumerant(EnumKind::AddressingModel)),
            one(enumerant(EnumKind::MemoryModel)),
        ]),
        inst("Capability", 17, vec![one(enumerant(EnumKind::Capability))]),
        inst("TypeInt", 21, vec![one(rid), one(int), one(int)]),
        inst("TypeFloat", 22, vec![one(rid), one(int)]),
        inst("Constant", 43, vec![one(rtype), one(rid), one(number)]),
        inst("SpecConstantOp", 52, vec![one(rtype), one(rid), one(spec_op)]),
        inst("Store", 62, vec![one(id), one(id), optional(enumerant(EnumKind::MemoryAccess))]),
        inst("Decorate", 71, vec![one(id), one(enumerant(EnumKind::Decoration))]),
        inst("ImageWrite", 99, vec![
            one(id),
            one(id),
            one(id),
            optional(enumerant(EnumKind::ImageOperands)),
        ]),
        inst("SNegate", 126, vec![one(rtype), one(rid), one(id)]),
        inst("IAdd", 128, vec![one(rtype), one(rid), one(id), one(id)]),
    ];
    let enumerations = vec![
        Enumeration {
            kind: EnumKind::SourceLanguage,
            category: Category::Value,
            enumerants: plain(vec![0, 1, 2]),
        },
        Enumeration {
            kind: EnumKind::AddressingModel,
            category: Category::Value,
            enumerants: plain(vec![0, 1, 2]),
        },
        Enumeration {
            kind: EnumKind::MemoryModel,
            category: Category::Value,
            enumerants: plain(vec![0, 1, 2]),
        },
        Enumeration {
            kind: EnumKind::Capability,
            category: Category::Value,
            enumerants: plain(vec![0, 1, 22]),
        },
        Enumeration {
            kind: EnumKind::BuiltIn,
            category: Category::Value,
            enumerants: plain(vec![0, 6]),
        },
        Enumeration {
            kind: EnumKind::Decoration,
            category: Category::Value,
            enumerants: vec![
                Enumerant { value: 0, parameters: vec![] },
                Enumerant {
                    value: 11,
                    parameters: vec![BasicKind::Enumerant(EnumKind::BuiltIn)],
                },
            ],
        },
        Enumeration {
            kind: EnumKind::MemoryAccess,
            category: Category::Bit,
            enumerants: vec![
                Enumerant { value: 0, parameters: vec![] },
                Enumerant { value: 1, parameters: vec![] },
                Enumerant { value: 2, parameters: vec![BasicKind::LiteralInteger] },
                Enumerant { value: 4, parameters: vec![] },
            ],
        },
        Enumeration {
            kind: EnumKind::ImageOperands,
            category: Category::Bit,
            enumerants: vec![
                Enumerant { value: 0, parameters: vec![] },
                Enumerant { value: 1, parameters: vec![BasicKind::IdRef] },
                Enumerant { value: 2, parameters: vec![BasicKind::IdRef] },
                Enumerant { value: 4, parameters: vec![BasicKind::IdRef, BasicKind::IdRef] },
            ],
        },
    ];
    Grammar::new(instructions, enumerations).unwrap()
}

fn f32_to_bytes(value: f32) -> Vec<u8> {
    value.to_bits().to_le_bytes().to_vec()
}

fn f64_to_bytes(value: f64) -> Vec<u8> {
    value.to_bits().to_le_bytes().to_vec()
}

struct RetainingConsumer {
    pub header: Option<ModuleHeader>,
    pub insts: Vec<Instruction>,
}

impl RetainingConsumer {
    fn new() -> RetainingConsumer {
        RetainingConsumer { header: None, insts: vec![] }
    }
}

impl Consumer for RetainingConsumer {
    type Error = Box<dyn error::Error>;

    fn initialize(&mut self) -> Action<Self::Error> {
        Action::Continue
    }
    fn finalize(&mut self) -> Action<Self::Error> {
        Action::Continue
    }
    fn consume_header(&mut self, header: ModuleHeader) -> Action<Self::Error> {
        self.header = Some(header);
        Action::Continue
    }
    fn consume_instruction(&mut self, inst: Instruction) -> Action<Self::Error> {
        self.insts.push(inst);
        Action::Continue
    }
}

fn w2b(word: u32) -> Vec<u8> {
    (0..WORD_NUM_BYTES).map(|i| ((word >> (8 * i)) & 0xff) as u8).collect()
}

/// A simple module builder.
struct ModuleBuilder {
    insts: Vec<u8>,
}

impl ModuleBuilder {
    fn new() -> ModuleBuilder {
        ModuleBuilder { insts: zero_bound_header() }
    }

    /// Appends an instruction with the given `opcode` and `operands` to the
    /// module.
    fn inst(&mut self, opcode: u16, operands: Vec<u32>) {
        let count: u32 = operands.len() as u32 + 1;
        self.insts.append(&mut w2b((count << 16) | (opcode as u32)));
        for o in operands {
            self.insts.append(&mut w2b(o));
        }
    }

    /// Returns the module being constructed.
    fn get(&self) -> &[u8] {
        &self.insts
    }
}

#[test]
fn test_module_builder() {
    let mut b = ModuleBuilder::new();
    // OpNop
    b.inst(0, vec![]);
    // OpCapability Int16
    b.inst(17, vec![22]);
    // OpMemoryModel Logical GLSL450
    b.inst(14, vec![0, 1]);
    let mut module = zero_bound_header();
    module.append(&mut vec![0x00, 0x00, 0x01, 0x00]); // OpNop
    module.append(&mut vec![0x11, 0x00, 0x02, 0x00]); // OpCapability
    module.append(&mut vec![0x16, 0x00, 0x00, 0x00]); // Int16
    module.append(&mut vec![0x0e, 0x00, 0x03, 0x00]); // OpMemoryModel
    module.append(&mut vec![0x00, 0x00, 0x00, 0x00]); // Logical
    module.append(&mut vec![0x01, 0x00, 0x00, 0x00]); // GLSL450
    assert_eq!(module, b.get());
}

#[test]
fn test_parsing_empty_binary() {
    let g = grammar();
    let v: Vec<u8> = vec![];
    let mut c = RetainingConsumer::new();
    let p = Parser::new(&v, &mut c, &g);
    assert!(matches!(
        p.parse(),
        Err(State::HeaderIncomplete(DecodeError::StreamExpected(0)))
    ));
}

#[test]
fn test_parsing_incomplete_header() {
    let g = grammar();
    let v = vec![0x03, 0x02, 0x23, 0x07];
    let mut c = RetainingConsumer::new();
    let p = Parser::new(&v, &mut c, &g);
    assert!(matches!(p.parse(),
                    Err(State::HeaderIncomplete(DecodeError::StreamExpected(4)))));
}

#[test]
fn test_parsing_unsupported_endianness() {
    let g = grammar();
    let mut module = zero_bound_header();
    module.as_mut_slice().swap(0, 3);
    module.as_mut_slice().swap(1, 2);
    let mut c = RetainingConsumer::new();
    let p = Parser::new(&module, &mut c, &g);
    assert!(matches!(p.parse(), Err(State::EndiannessUnsupported)));
}

#[test]
fn test_parsing_wrong_magic_number() {
    let g = grammar();
    let mut module = zero_bound_header();
    module[0] = 0x00;
    let mut c = RetainingConsumer::new();
    let p = Parser::new(&module, &mut c, &g);
    assert!(matches!(p.parse(), Err(State::HeaderIncorrect)));
}

#[test]
fn test_parsing_complete_header() {
    let g = grammar();
    let zero = zero_bound_header();
    let mut c = RetainingConsumer::new();
    {
        let p = Parser::new(&zero, &mut c, &g);
        assert!(matches!(p.parse(), Ok(())));
    }
    let mut header = ModuleHeader::new(0);
    header.set_version(1, 0);
    assert_eq!(Some(header), c.header);
}

#[test]
fn test_parsing_one_inst() {
    let g = grammar();
    let mut c = RetainingConsumer::new();
    {
        let mut b = ModuleBuilder::new();
        // OpMemoryModel Logical GLSL450
        b.inst(14, vec![0, 1]);
        let p = Parser::new(b.get(), &mut c, &g);
        assert!(matches!(p.parse(), Ok(())));
    }
    assert_eq!(1, c.insts.len());
    let inst = &c.insts[0];
    assert_eq!("MemoryModel", inst.class.opname);
    assert_eq!(None, inst.result_type);
    assert_eq!(None, inst.result_id);
    assert_eq!(vec![Operand::Enumerant(EnumKind::AddressingModel, 0),
                    Operand::Enumerant(EnumKind::MemoryModel, 1)],
               inst.operands);
}

#[test]
fn test_parsing_zero_word_count() {
    let g = grammar();
    let mut v = zero_bound_header();
    v.append(&mut vec![0x00, 0x00, 0x00, 0x00]); // OpNop with word count 0
    let mut c = RetainingConsumer::new();
    let p = Parser::new(&v, &mut c, &g);
    // The first instruction starts at byte offset 20.
    assert!(matches!(p.parse(), Err(State::WordCountZero(20, 1))));
}

#[test]
fn test_parsing_extra_operand() {
    let g = grammar();
    let mut v = zero_bound_header();
    v.append(&mut vec![0x00, 0x00, 0x01, 0x00]); // OpNop with word count 1
    v.append(&mut vec![0x00, 0x00, 0x02, 0x00]); // OpNop with word count 2
    v.append(&mut vec![0x00, 0x00, 0x00, 0x00]); // A bogus operand
    let mut c = RetainingConsumer::new();
    let p = Parser::new(&v, &mut c, &g);
    // The bogus operand to the second OpNop instruction starts at
    // byte offset (20 + 4 + 4).
    assert!(matches!(p.parse(), Err(State::OperandExceeded(28, 2))));
}

#[test]
fn test_parsing_missing_operand() {
    let g = grammar();
    let mut v = zero_bound_header();
    v.append(&mut vec![0x00, 0x00, 0x01, 0x00]); // OpNop with word count 1
    v.append(&mut vec![0x0e, 0x00, 0x03, 0x00]); // OpMemoryModel
    v.append(&mut vec![0x00, 0x00, 0x00, 0x00]); // Logical
    let mut c = RetainingConsumer::new();
    let p = Parser::new(&v, &mut c, &g);
    // The missing operand to the OpMemoryModel instruction starts at
    // byte offset (20 + 4 + 4 + 4).
    assert!(matches!(p.parse(),
                    Err(State::OperandError(DecodeError::StreamExpected(32)))));
}

#[test]
fn test_parsing_operand_parameters() {
    let g = grammar();
    let mut v = zero_bound_header();
    v.append(&mut vec![0x47, 0x00, 0x04, 0x00]); // OpDecorate
    v.append(&mut vec![0x05, 0x00, 0x00, 0x00]); // id 5
    v.append(&mut vec![0x0b, 0x00, 0x00, 0x00]); // BuiltIn
    v.append(&mut vec![0x06, 0x00, 0x00, 0x00]); // InstanceId
    let mut c = RetainingConsumer::new();
    {
        let p = Parser::new(&v, &mut c, &g);
        assert!(matches!(p.parse(), Ok(())));
    }
    assert_eq!(1, c.insts.len());
    let inst = &c.insts[0];
    assert_eq!("Decorate", inst.class.opname);
    assert_eq!(None, inst.result_type);
    assert_eq!(None, inst.result_id);
    assert_eq!(vec![Operand::IdRef(5),
                    Operand::Enumerant(EnumKind::Decoration, 11),
                    Operand::Enumerant(EnumKind::BuiltIn, 6)],
               inst.operands);
}

#[test]
fn test_parsing_missing_operand_parameters() {
    let g = grammar();
    let mut v = zero_bound_header();
    v.append(&mut vec![0x47, 0x00, 0x03, 0x00]); // OpDecorate
    v.append(&mut vec![0x05, 0x00, 0x00, 0x00]); // id 5
    v.append(&mut vec![0x0b, 0x00, 0x00, 0x00]); // BuiltIn
    let mut c = RetainingConsumer::new();
    let p = Parser::new(&v, &mut c, &g);
    assert!(matches!(p.parse(),
                    Err(State::OperandError(DecodeError::StreamExpected(32)))));
}

#[test]
fn test_parsing_with_all_optional_operands() {
    let g = grammar();
    let mut v = zero_bound_header();
    v.append(&mut vec![0x03, 0x00, 0x05, 0x00]); // OpSource
    v.append(&mut vec![0x02, 0x00, 0x00, 0x00]); // GLSL
    v.append(&mut vec![0xc2, 0x01, 0x00, 0x00]); // 450 (0x1c2)
    v.append(&mut vec![0x06, 0x00, 0x00, 0x00]); // File id
    v.append(&mut b"wow".to_vec());              // Source
    v.push(0x00);                                // EOS
    let mut c = RetainingConsumer::new();
    {
        let p = Parser::new(&v, &mut c, &g);
        assert!(matches!(p.parse(), Ok(())));
    }
    assert_eq!(1, c.insts.len());
    let inst = &c.insts[0];
    assert_eq!("Source", inst.class.opname);
    assert_eq!(None, inst.result_type);
    assert_eq!(None, inst.result_id);
    assert_eq!(vec![Operand::Enumerant(EnumKind::SourceLanguage, 2),
                    Operand::LiteralInt32(450),
                    Operand::IdRef(6),
                    Operand::LiteralString("wow".to_string())],
               inst.operands);
}

#[test]
fn test_parsing_missing_one_optional_operand() {
    let g = grammar();
    let mut v = zero_bound_header();
    v.append(&mut vec![0x03, 0x00, 0x04, 0x00]); // OpSource
    v.append(&mut vec![0x02, 0x00, 0x00, 0x00]); // GLSL
    v.append(&mut vec![0xc2, 0x01, 0x00, 0x00]); // 450 (0x1c2)
    v.append(&mut vec![0x06, 0x00, 0x00, 0x00]); // File id
    let mut c = RetainingConsumer::new();
    {
        let p = Parser::new(&v, &mut c, &g);
        assert!(matches!(p.parse(), Ok(())));
    }
    assert_eq!(1, c.insts.len());
    let inst = &c.insts[0];
    assert_eq!("Source", inst.class.opname);
    assert_eq!(None, inst.result_type);
    assert_eq!(None, inst.result_id);
    assert_eq!(vec![Operand::Enumerant(EnumKind::SourceLanguage, 2),
                    Operand::LiteralInt32(450),
                    Operand::IdRef(6)],
               inst.operands);
}

#[test]
fn test_parsing_missing_two_optional_operands() {
    let g = grammar();
    let mut v = zero_bound_header();
    v.append(&mut vec![0x03, 0x00, 0x03, 0x00]); // OpSource
    v.append(&mut vec![0x02, 0x00, 0x00, 0x00]); // GLSL
    v.append(&mut vec![0xc2, 0x01, 0x00, 0x00]); // 450 (0x1c2)
    let mut c = RetainingConsumer::new();
    {
        let p = Parser::new(&v, &mut c, &g);
        assert!(matches!(p.parse(), Ok(())));
    }
    assert_eq!(1, c.insts.len());
    let inst = &c.insts[0];
    assert_eq!("Source", inst.class.opname);
    assert_eq!(None, inst.result_type);
    assert_eq!(None, inst.result_id);
    assert_eq!(vec![Operand::Enumerant(EnumKind::SourceLanguage, 2),
                    Operand::LiteralInt32(450)],
               inst.operands);
}

#[derive(Debug)]
struct ErrorString(&'static str);
impl error::Error for ErrorString {
    fn description(&self) -> &str {
        "consumer error"
    }
}
impl fmt::Display for ErrorString {
    fn fmt(&self, f: &mut fmt::Formatter) -> fmt::Result {
        let &ErrorString(ref s) = self;
        f.write_str(s)
    }
}

struct InitializeErrorConsumer;
impl Consumer for InitializeErrorConsumer {
    type Error = Box<dyn error::Error>;

    fn initialize(&mut self) -> Action<Self::Error> {
        Action::Error(Box::new(ErrorString("init error")))
    }
    fn finalize(&mut self) -> Action<Self::Error> {
        Action::Continue
    }
    fn consume_header(&mut self, _: ModuleHeader) -> Action<Self::Error> {
        Action::Continue
    }
    fn consume_instruction(&mut self, _: Instruction) -> Action<Self::Error> {
        Action::Continue
    }
}

#[test]
#[allow(deprecated)]
fn test_consumer_initialize_error() {
    let g = grammar();
    let v: Vec<u8> = vec![];
    let mut c = InitializeErrorConsumer {};
    let p = Parser::new(&v, &mut c, &g);
    let ret = p.parse();
    assert!(matches!(ret, Err(State::ConsumerError(_))));
    if let Err(State::ConsumerError(err)) = ret {
        assert_eq!("consumer error", err.description());
        assert_eq!("init error", format!("{}", err));
    } else {
        assert!(false);
    }
}

struct FinalizeErrorConsumer;
impl Consumer for FinalizeErrorConsumer {
    type Error = Box<dyn error::Error>;

    fn initialize(&mut self) -> Action<Self::Error> {
        Action::Continue
    }
    fn finalize(&mut self) -> Action<Self::Error> {
        Action::Error(Box::new(ErrorString("fin error")))
    }
    fn consume_header(&mut self, _: ModuleHeader) -> Action<Self::Error> {
        Action::Continue
    }
    fn consume_instruction(&mut self, _: Instruction) -> Action<Self::Error> {
        Action::Continue
    }
}

#[test]
#[allow(deprecated)]
fn test_consumer_finalize_error() {
    let g = grammar();
    let zero = zero_bound_header();
    let mut c = FinalizeErrorConsumer {};
    let p = Parser::new(&zero, &mut c, &g);
    let ret = p.parse();
    assert!(matches!(ret, Err(State::ConsumerError(_))));
    if let Err(State::ConsumerError(err)) = ret {
        assert_eq!("consumer error", err.description());
        assert_eq!("fin error", format!("{}", err));
    } else {
        assert!(false);
    }
}

struct ParseHeaderErrorConsumer;
impl Consumer for ParseHeaderErrorConsumer {
    type Error = Box<dyn error::Error>;

    fn initialize(&mut self) -> Action<Self::Error> {
        Action::Continue
    }
    fn finalize(&mut self) -> Action<Self::Error> {
        Action::Continue
    }
    fn consume_header(&mut self, _: ModuleHeader) -> Action<Self::Error> {
        Action::Error(Box::new(ErrorString("parse header error")))
    }
    fn consume_instruction(&mut self, _: Instruction) -> Action<Self::Error> {
        Action::Continue
    }
}

#[test]
#[allow(deprecated)]
fn test_consumer_parse_header_error() {
    let g = grammar();
    let zero = zero_bound_header();
    let mut c = ParseHeaderErrorConsumer {};
    let p = Parser::new(&zero, &mut c, &g);
    let ret = p.parse();
    assert!(matches!(ret, Err(State::ConsumerError(_))));
    if let Err(State::ConsumerError(err)) = ret {
        assert_eq!("consumer error", err.description());
        assert_eq!("parse header error", format!("{}", err));
    } else {
        assert!(false);
    }
}

struct ParseInstErrorConsumer;
impl Consumer for ParseInstErrorConsumer {
    type Error = Box<dyn error::Error>;

    fn initialize(&mut self) -> Action<Self::Error> {
        Action::Continue
    }
    fn finalize(&mut self) -> Action<Self::Error> {
        Action::Continue
    }
    fn consume_header(&mut self, _: ModuleHeader) -> Action<Self::Error> {
        Action::Continue
    }
    fn consume_instruction(&mut self, _: Instruction) -> Action<Self::Error> {
        Action::Error(Box::new(ErrorString("parse inst error")))
    }
}

#[test]
#[allow(deprecated)]
fn test_consumer_parse_inst_error() {
    let g = grammar();
    let mut b = ModuleBuilder::new();
    b.inst(0, vec![]);
    let mut c = ParseInstErrorConsumer {};
    let p = Parser::new(b.get(), &mut c, &g);
    let ret = p.parse();
    assert!(matches!(ret, Err(State::ConsumerError(_))));
    if let Err(State::ConsumerError(err)) = ret {
        assert_eq!("consumer error", err.description());
        assert_eq!("parse inst error", format!("{}", err));
    } else {
        assert!(false);
    }
}

#[test]
fn test_parsing_int32() {
    let g = grammar();
    let mut v = zero_bound_header();
    v.append(&mut vec![0x15, 0x00, 0x04, 0x00]); // OpTypeInt
    v.append(&mut vec![0x01, 0x00, 0x00, 0x00]); // result id: 1
    v.append(&mut vec![0x20, 0x00, 0x00, 0x00]); // 32
    v.append(&mut vec![0x01, 0x00, 0x00, 0x00]); // 1 (signed)

    v.append(&mut vec![0x2b, 0x00, 0x04, 0x00]); // OpConstant
    v.append(&mut vec![0x01, 0x00, 0x00, 0x00]); // result type: 1
    v.append(&mut vec![0x02, 0x00, 0x00, 0x00]); // result id: 2
    v.append(&mut vec![0x12, 0x34, 0x56, 0x78]);
    let mut c = RetainingConsumer::new();
    {
        let p = Parser::new(&v, &mut c, &g);
        assert!(matches!(p.parse(), Ok(())));
    }
    assert_eq!(2, c.insts.len());
    let inst = &c.insts[1];
    assert_eq!("Constant", inst.class.opname);
    assert_eq!(Some(1), inst.result_type);
    assert_eq!(Some(2), inst.result_id);
    assert_eq!(vec![Operand::LiteralInt32(0x78563412)], inst.operands);
}

#[test]
fn test_parsing_int64() {
    let g = grammar();
    let mut v = zero_bound_header();
    v.append(&mut vec![0x15, 0x00, 0x04, 0x00]); // OpTypeInt
    v.append(&mut vec![0x01, 0x00, 0x00, 0x00]); // result id: 1
    v.append(&mut vec![0x40, 0x00, 0x00, 0x00]); // 64
    v.append(&mut vec![0x01, 0x00, 0x00, 0x00]); // 1 (signed)

    v.append(&mut vec![0x2b, 0x00, 0x05, 0x00]); // OpConstant
    v.append(&mut vec![0x01, 0x00, 0x00, 0x00]); // result type: 1
    v.append(&mut vec![0x02, 0x00, 0x00, 0x00]); // result id: 2
    v.append(&mut vec![0x12, 0x34, 0x56, 0x78]);
    v.append(&mut vec![0x90, 0xab, 0xcd, 0xef]);
    let mut c = RetainingConsumer::new();
    {
        let p = Parser::new(&v, &mut c, &g);
        assert!(matches!(p.parse(), Ok(())));
    }
    assert_eq!(2, c.insts.len());
    let inst = &c.insts[1];
    assert_eq!("Constant", inst.class.opname);
    assert_eq!(Some(1), inst.result_type);
    assert_eq!(Some(2), inst.result_id);
    assert_eq!(vec![Operand::LiteralInt64(0xefcdab9078563412)],
               inst.operands);
}

#[test]
fn test_parsing_float32() {
    let g = grammar();
    let mut v = zero_bound_header();
    v.append(&mut vec![0x16, 0x00, 0x03, 0x00]); // OpTypeFloat
    v.append(&mut vec![0x01, 0x00, 0x00, 0x00]); // result id: 1
    v.append(&mut vec![0x20, 0x00, 0x00, 0x00]); // 32

    v.append(&mut vec![0x2b, 0x00, 0x04, 0x00]); // OpConstant
    v.append(&mut vec![0x01, 0x00, 0x00, 0x00]); // result type: 1
    v.append(&mut vec![0x02, 0x00, 0x00, 0x00]); // result id: 2
    v.append(&mut f32_to_bytes(42.42));
    let mut c = RetainingConsumer::new();
    {
        let p = Parser::new(&v, &mut c, &g);
        assert!(matches!(p.parse(), Ok(())));
    }
    assert_eq!(2, c.insts.len());
    let inst = &c.insts[1];
    assert_eq!("Constant", inst.class.opname);
    assert_eq!(Some(1), inst.result_type);
    assert_eq!(Some(2), inst.result_id);
    assert_eq!(vec![Operand::LiteralFloat32(42.42f32.to_bits())], inst.operands);
}

#[test]
fn test_parsing_float64() {
    let g = grammar();
    let mut v = zero_bound_header();
    v.append(&mut vec![0x16, 0x00, 0x03, 0x00]); // OpTypeFloat
    v.append(&mut vec![0x01, 0x00, 0x00, 0x00]); // result id: 1
    v.append(&mut vec![0x40, 0x00, 0x00, 0x00]); // 64

    v.append(&mut vec![0x2b, 0x00, 0x05, 0x00]); // OpConstant
    v.append(&mut vec![0x01, 0x00, 0x00, 0x00]); // result type: 1
    v.append(&mut vec![0x02, 0x00, 0x00, 0x00]); // result id: 2
    v.append(&mut f64_to_bytes(-12.34));
    let mut c = RetainingConsumer::new();
    {
        let p = Parser::new(&v, &mut c, &g);
        assert!(matches!(p.parse(), Ok(())));
    }
    assert_eq!(2, c.insts.len());
    let inst = &c.insts[1];
    assert_eq!("Constant", inst.class.opname);
    assert_eq!(Some(1), inst.result_type);
    assert_eq!(Some(2), inst.result_id);
    assert_eq!(vec![Operand::LiteralFloat64((-12.34f64).to_bits())], inst.operands);
}

#[test]
fn test_parsing_spec_constant_op() {
    let g = grammar();
    let mut v = zero_bound_header();
    v.append(&mut vec![0x34, 0x00, 0x05, 0x00]); // OpTypeFloat
    v.append(&mut vec![0x01, 0x00, 0x00, 0x00]); // result type: 1
    v.append(&mut vec![0x02, 0x00, 0x00, 0x00]); // result id: 2
    v.append(&mut vec![0x7e, 0x00, 0x00, 0x00]); // OpSNegate
    v.append(&mut vec![0x03, 0x00, 0x00, 0x00]); // id ref: 3
    let mut c = RetainingConsumer::new();
    {
        let p = Parser::new(&v, &mut c, &g);
        assert!(matches!(p.parse(), Ok(())));
    }
    assert_eq!(1, c.insts.len());
    let inst = &c.insts[0];
    assert_eq!("SpecConstantOp", inst.class.opname);
    assert_eq!(Some(1), inst.result_type);
    assert_eq!(Some(2), inst.result_id);
    assert_eq!(vec![Operand::LiteralSpecConstantOpInteger(126),
                    Operand::IdRef(3)],
               inst.operands);
}

#[test]
fn test_parsing_spec_constant_op_missing_parameter() {
    let g = grammar();
    let mut v = zero_bound_header();
    v.append(&mut vec![0x34, 0x00, 0x05, 0x00]); // OpTypeFloat
    v.append(&mut vec![0x01, 0x00, 0x00, 0x00]); // result type: 1
    v.append(&mut vec![0x02, 0x00, 0x00, 0x00]); // result id: 2
    v.append(&mut vec![0x80, 0x00, 0x00, 0x00]); // OpIAdd
    v.append(&mut vec![0x03, 0x00, 0x00, 0x00]); // id ref: 3
    let mut c = RetainingConsumer::new();
    let p = Parser::new(&v, &mut c, &g);
    assert!(matches!(p.parse(),
                    // The header has 5 words, the above instruction has 5 words,
                    // so in total 40 bytes.
                    Err(State::OperandError(DecodeError::LimitReached(40)))));
}

#[test]
fn test_parsing_bitmasks_requiring_params_no_mem_access() {
    let g = grammar();
    let mut v = zero_bound_header();
    v.append(&mut vec![0x3e, 0x00, 0x03, 0x00]); // OpStore
    v.append(&mut vec![0x01, 0x00, 0x00, 0x00]); // pointer: 1
    v.append(&mut vec![0x02, 0x00, 0x00, 0x00]); // object: 2
    let mut c = RetainingConsumer::new();
    {
        let p = Parser::new(&v, &mut c, &g);
        assert!(matches!(p.parse(), Ok(())));
    }
    assert_eq!(1, c.insts.len());
    let inst = &c.insts[0];
    assert_eq!("Store", inst.class.opname);
    assert_eq!(None, inst.result_type);
    assert_eq!(None, inst.result_id);
    assert_eq!(vec![Operand::IdRef(1), Operand::IdRef(2)],
               inst.operands);
}
#[test]
fn test_parsing_bitmasks_requiring_params_mem_access_no_param() {
    let g = grammar();
    let mut v = zero_bound_header();
    v.append(&mut vec![0x3e, 0x00, 0x04, 0x00]); // OpStore
    v.append(&mut vec![0x01, 0x00, 0x00, 0x00]); // pointer: 1
    v.append(&mut vec![0x02, 0x00, 0x00, 0x00]); // object: 2
    v.append(&mut vec![0x01, 0x00, 0x00, 0x00]); // Volatile
    let mut c = RetainingConsumer::new();
    {
        let p = Parser::new(&v, &mut c, &g);
        assert!(matches!(p.parse(), Ok(())));
    }
    assert_eq!(1, c.insts.len());
    let inst = &c.insts[0];
    assert_eq!("Store", inst.class.opname);
    assert_eq!(None, inst.result_type);
    assert_eq!(None, inst.result_id);
    assert_eq!(vec![Operand::IdRef(1),
                    Operand::IdRef(2),
                    Operand::Enumerant(EnumKind::MemoryAccess, 1)],
               inst.operands);
}
#[test]
fn test_parsing_bitmasks_requiring_params_mem_access_with_param() {
    let g = grammar();
    let mut v = zero_bound_header();
    v.append(&mut vec![0x3e, 0x00, 0x05, 0x00]); // OpStore
    v.append(&mut vec![0x01, 0x00, 0x00, 0x00]); // pointer: 1
    v.append(&mut vec![0x02, 0x00, 0x00, 0x00]); // object: 2
    v.append(&mut vec![0x03, 0x00, 0x00, 0x00]); // Volatile & Aligned
    v.append(&mut vec![0x04, 0x00, 0x00, 0x00]); // alignment
    let mut c = RetainingConsumer::new();
    {
        let p = Parser::new(&v, &mut c, &g);
        assert!(matches!(p.parse(), Ok(())));
    }
    assert_eq!(1, c.insts.len());
    let inst = &c.insts[0];
    assert_eq!("Store", inst.class.opname);
    assert_eq!(None, inst.result_type);
    assert_eq!(None, inst.result_id);
    assert_eq!(vec![Operand::IdRef(1),
                    Operand::IdRef(2),
                    Operand::Enumerant(EnumKind::MemoryAccess, 3),
                    Operand::LiteralInt32(4)],
               inst.operands);
}
#[test]
fn test_parsing_bitmasks_requiring_params_mem_access_missing_param() {
    let g = grammar();
    let mut v = zero_bound_header();
    v.append(&mut vec![0x3e, 0x00, 0x04, 0x00]); // OpStore
    v.append(&mut vec![0x01, 0x00, 0x00, 0x00]); // pointer: 1
    v.append(&mut vec![0x02, 0x00, 0x00, 0x00]); // object: 2
    v.append(&mut vec![0x03, 0x00, 0x00, 0x00]); // Volatile & Aligned
    let mut c = RetainingConsumer::new();
    let p = Parser::new(&v, &mut c, &g);
    assert!(matches!(p.parse(),
                    // The header has 5 words, the above instruction has 4 words,
                    // so in total 36 bytes.
                    Err(State::OperandError(DecodeError::LimitReached(36)))));
}
#[test]
fn test_parsing_bitmasks_requiring_params_img_operands_param_order() {
    let g = grammar();
    let mut v = zero_bound_header();
    v.append(&mut vec![0x63, 0x00, 0x08, 0x00]); // OpStore
    v.append(&mut vec![0x01, 0x00, 0x00, 0x00]); // image: 1
    v.append(&mut vec![0x02, 0x00, 0x00, 0x00]); // coordinate: 2
    v.append(&mut vec![0x03, 0x00, 0x00, 0x00]); // texel: 3
    v.append(&mut vec![0x05, 0x00, 0x00, 0x00]); // Bias & GRAD
    v.append(&mut vec![0xaa, 0x00, 0x00, 0x00]); // bias
    v.append(&mut vec![0xbb, 0x00, 0x00, 0x00]); // dx
    v.append(&mut vec![0xcc, 0x00, 0x00, 0x00]); // dy
    let mut c = RetainingConsumer::new();
    {
        let p = Parser::new(&v, &mut c, &g);
        assert!(matches!(p.parse(), Ok(())));
    }
    assert_eq!(1, c.insts.len());
    let inst = &c.insts[0];
    assert_eq!("ImageWrite", inst.class.opname);
    assert_eq!(None, inst.result_type);
    assert_eq!(None, inst.result_id);
    assert_eq!(vec![Operand::IdRef(1),
                    Operand::IdRef(2),
                    Operand::IdRef(3),
                    Operand::Enumerant(EnumKind::ImageOperands, 5),
                    Operand::IdRef(0xaa),
                    Operand::IdRef(0xbb),
                    Operand::IdRef(0xcc)],
               inst.operands);
}

#[test]
fn test_parse_words() {
    let g = grammar();
    let words = vec![0x07230203, 0x01000000, 0, 0, 0, 0x00020011, 0x00000016];
    let mut c = RetainingConsumer::new();
    assert!(matches!(parse_words(&words, &mut c, &g), Ok(())));
    assert_eq!(1, c.insts.len());
    let inst = &c.insts[0];
    assert_eq!("Capability", inst.class.opname);
    assert_eq!(None, inst.result_type);
    assert_eq!(None, inst.result_id);
    assert_eq!(vec![Operand::Enumerant(EnumKind::Capability, 22)],
               inst.operands);
}
