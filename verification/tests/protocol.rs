//! What a consumer is told, and what it can order.

use rspirv::grammar::{
    BasicKind, Class, Grammar, InstructionGrammar, LogicalOperand, OperandKind, OperandQuantifier,
};
use rspirv::mr::{Instruction, ModuleHeader, Operand};
use rspirv::{parse_bytes, parse_words, Action, Consumer, Parser, State};

fn grammar() -> Grammar {
    let one = |kind| LogicalOperand { kind, quantifier: OperandQuantifier::One };
    let any = |kind| LogicalOperand { kind, quantifier: OperandQuantifier::ZeroOrMore };
    let id = OperandKind::Basic(BasicKind::IdRef);
    let string = OperandKind::Basic(BasicKind::LiteralString);
    Grammar::new(
        vec![
            InstructionGrammar { class: Class { opname: "Nop", opcode: 0 }, operands: vec![] },
            InstructionGrammar {
                class: Class { opname: "String", opcode: 7 },
                operands: vec![one(OperandKind::IdResult), one(string)],
            },
            InstructionGrammar {
                class: Class { opname: "Composite", opcode: 80 },
                operands: vec![
                    one(OperandKind::IdResultType),
                    one(OperandKind::IdResult),
                    any(id),
                ],
            },
        ],
        vec![],
    )
    .unwrap()
}

/// Writes down what it is told, and gives its order at one of the calls.
struct Scribe {
    told: Vec<String>,
    insts: Vec<Instruction>,
    at: usize,
    order: fn() -> Action<&'static str>,
}

impl Scribe {
    fn new(at: usize, order: fn() -> Action<&'static str>) -> Scribe {
        Scribe { told: vec![], insts: vec![], at, order }
    }

    fn note(&mut self, event: String) -> Action<&'static str> {
        self.told.push(event);
        if self.told.len() == self.at {
            (self.order)()
        } else {
            Action::Continue
        }
    }
}

impl Consumer for Scribe {
    type Error = &'static str;

    fn initialize(&mut self) -> Action<&'static str> {
        self.note("initialize".to_string())
    }
    fn finalize(&mut self) -> Action<&'static str> {
        self.note("finalize".to_string())
    }
    fn consume_header(&mut self, header: ModuleHeader) -> Action<&'static str> {
        let (major, minor) = header.version();
        self.note(format!("header {}.{} {}", major, minor, header.bound))
    }
    fn consume_instruction(&mut self, inst: Instruction) -> Action<&'static str> {
        let event = format!("instruction {}", inst.class.opname);
        self.insts.push(inst);
        self.note(event)
    }
}

fn bytes_of(words: &[u32]) -> Vec<u8> {
    words.iter().flat_map(|word| word.to_le_bytes()).collect()
}

fn words() -> Vec<u32> {
    vec![
        0x07230203,
        0xff01_02ff,
        8,
        42,
        9,
        0x0001_0000,
        0x0005_0050,
        1,
        2,
        3,
        4,
        0x0001_0000,
    ]
}

fn everything() -> Vec<&'static str> {
    vec![
        "initialize",
        "header 1.2 42",
        "instruction Nop",
        "instruction Composite",
        "instruction Nop",
        "finalize",
    ]
}

#[test]
fn a_willing_consumer_is_told_everything() {
    let g = grammar();
    let mut scribe = Scribe::new(0, || Action::Stop);
    assert!(parse_bytes(&bytes_of(&words()), &mut scribe, &g).is_ok());
    assert_eq!(everything(), scribe.told);
}

#[test]
fn words_are_parsed_like_their_bytes() {
    let g = grammar();
    let mut by_words = Scribe::new(0, || Action::Stop);
    let mut by_bytes = Scribe::new(0, || Action::Stop);
    assert!(parse_words(&words(), &mut by_words, &g).is_ok());
    let bytes = bytes_of(&words());
    assert!(Parser::new(&bytes, &mut by_bytes, &g).parse().is_ok());
    assert_eq!(by_bytes.told, by_words.told);
    assert_eq!(by_bytes.insts, by_words.insts);
}

#[test]
fn a_consumer_stops_the_parsing_at_any_call() {
    let g = grammar();
    for at in 1..=everything().len() {
        let mut scribe = Scribe::new(at, || Action::Stop);
        let result = parse_words(&words(), &mut scribe, &g);
        assert!(matches!(result, Err(State::ConsumerStopRequested)));
        assert_eq!(&everything()[..at], scribe.told);
    }
}

#[test]
fn a_consumer_fails_at_any_call() {
    let g = grammar();
    for at in 1..=everything().len() {
        let mut scribe = Scribe::new(at, || Action::Error("no more paper"));
        let result = parse_words(&words(), &mut scribe, &g);
        assert!(matches!(result, Err(State::ConsumerError("no more paper"))));
        assert_eq!(&everything()[..at], scribe.told);
    }
}

#[test]
fn a_faulty_module_is_not_finalized() {
    let g = grammar();
    let mut faulty = words();
    // The last instruction is unknown.
    faulty[11] = 0x0001_0001;
    let mut scribe = Scribe::new(0, || Action::Stop);
    let result = parse_words(&faulty, &mut scribe, &g);
    assert!(matches!(result, Err(State::OpcodeUnknown(44, 3, 1))));
    assert_eq!(&everything()[..4], scribe.told);
}

#[test]
fn a_faulty_header_is_not_sent() {
    let g = grammar();
    let mut scribe = Scribe::new(0, || Action::Stop);
    let result = parse_words(&words()[..4], &mut scribe, &g);
    assert!(matches!(result, Err(State::HeaderIncomplete(_))));
    assert_eq!(vec!["initialize"], scribe.told);
    let mut scribe = Scribe::new(1, || Action::Stop);
    // The order comes before the fault.
    let result = parse_words(&words()[..4], &mut scribe, &g);
    assert!(matches!(result, Err(State::ConsumerStopRequested)));
}

#[test]
fn orders_are_carried_out() {
    assert!(matches!(Action::<u8>::Continue.consume(), Ok(())));
    assert!(matches!(Action::<u8>::Stop.consume(), Err(State::ConsumerStopRequested)));
    assert!(matches!(Action::Error(7u8).consume(), Err(State::ConsumerError(7))));
}

#[test]
fn an_instruction_does_not_depend_on_where_it_stands() {
    let g = grammar();
    let header = &words()[..5];
    let inst = [0x0004_0007, 5, 0x6f6f_6721, 0];
    let mut near = header.to_vec();
    near.extend_from_slice(&inst);
    let mut far = words();
    far.extend_from_slice(&inst);
    far.push(0x0001_0000);
    let mut first = Scribe::new(0, || Action::Stop);
    let mut second = Scribe::new(0, || Action::Stop);
    assert!(parse_words(&near, &mut first, &g).is_ok());
    assert!(parse_words(&far, &mut second, &g).is_ok());
    assert_eq!(first.insts[0], second.insts[3]);
    assert_eq!(Some(5), first.insts[0].result_id);
    assert_eq!(vec![Operand::LiteralString("!goo".to_string())], first.insts[0].operands);
}

/// The words of an instruction.
fn written(inst: &Instruction) -> Vec<u32> {
    let mut words = vec![0];
    words.extend(inst.result_type);
    words.extend(inst.result_id);
    for operand in &inst.operands {
        match operand {
            Operand::IdRef(id) => words.push(*id),
            Operand::LiteralString(text) => {
                let mut bytes = text.as_bytes().to_vec();
                bytes.push(0);
                while bytes.len() % 4 != 0 {
                    bytes.push(0);
                }
                for word in bytes.chunks(4) {
                    words.push(u32::from_le_bytes([word[0], word[1], word[2], word[3]]));
                }
            }
            _ => panic!("no such operand here"),
        }
    }
    words[0] = ((words.len() as u32) << 16) | inst.class.opcode as u32;
    words
}

#[test]
fn what_was_written_is_read_and_what_was_read_can_be_written() {
    let g = grammar();
    let string = Class { opname: "String", opcode: 7 };
    let composite = Class { opname: "Composite", opcode: 80 };
    let text = |text: &str| vec![Operand::LiteralString(text.to_string())];
    let insts = vec![
        Instruction::new(string, None, Some(1), text("")),
        Instruction::new(string, None, Some(2), text("abc")),
        Instruction::new(string, None, Some(3), text("abcd")),
        Instruction::new(string, None, Some(4), text("na\u{ef}ve \u{1f600}")),
        Instruction::new(composite, Some(5), Some(6), vec![]),
        Instruction::new(composite, Some(5), Some(7), vec![Operand::IdRef(1), Operand::IdRef(2)]),
    ];
    let mut module = words()[..5].to_vec();
    for inst in &insts {
        module.extend(written(inst));
    }
    let mut scribe = Scribe::new(0, || Action::Stop);
    assert!(parse_words(&module, &mut scribe, &g).is_ok());
    assert_eq!(insts, scribe.insts);
    let mut again = words()[..5].to_vec();
    for inst in &scribe.insts {
        again.extend(written(inst));
    }
    assert_eq!(module, again);
}

#[test]
fn an_instruction_takes_as_many_words_as_it_says() {
    let g = grammar();
    for n in 0..5u32 {
        let mut module = words()[..5].to_vec();
        module.push(((3 + n) << 16) | 80);
        module.extend(0..2 + n);
        module.push(0x0001_0000);
        let mut scribe = Scribe::new(0, || Action::Stop);
        assert!(parse_words(&module, &mut scribe, &g).is_ok());
        assert_eq!(n as usize, scribe.insts[0].operands.len());
        assert_eq!("Nop", scribe.insts[1].class.opname);
    }
}
