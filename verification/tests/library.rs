use minivm::assembler::{assemble, assemble_bytes, assemble_line};
use minivm::bytecode::{read_bytecode, write_bytecode};
use minivm::cli::usage;
use minivm::disassembler::disassemble;
use minivm::isa::{DecodeError, Op};
use minivm::numeral::{parse_i64, parse_u8};
use minivm::text::{chars_of, split_words};
use minivm::vm::{run, run_file, run_trace, Outcome};

fn code_of(source: &str) -> Vec<u8> {
    assemble_bytes(source).unwrap()
}

fn trap_of(code: &[u8]) -> String {
    match run(code).outcome {
        Outcome::Trapped(m) => m,
        _ => panic!("expected a trap"),
    }
}

fn overflow_of(source: &str) -> String {
    match run(&code_of(source)).outcome {
        Outcome::Overflowed(m) => m,
        _ => panic!("expected an overflow"),
    }
}

fn printed(source: &str) -> Vec<String> {
    let e = run(&code_of(source));
    assert!(matches!(e.outcome, Outcome::Halted));
    e.output
}

fn all_ops() -> Vec<Op> {
    vec![
        Op::Push(0),
        Op::Push(-1),
        Op::Push(i64::MIN),
        Op::Push(i64::MAX),
        Op::Push(0x0102030405060708),
        Op::Pop,
        Op::Dup,
        Op::Swap,
        Op::Add,
        Op::Sub,
        Op::Mul,
        Op::Div,
        Op::Mod,
        Op::Neg,
        Op::Load(0),
        Op::Load(255),
        Op::Store(7),
        Op::Print,
        Op::Halt,
    ]
}

// ─── Encoding ────────────────────────────────────────────────────────────────

#[test]
fn encode_exact_bytes() {
    let mut out = vec![0xAA];
    Op::Push(0x0102030405060708).encode(&mut out);
    assert_eq!(out, vec![0xAA, 0x01, 8, 7, 6, 5, 4, 3, 2, 1]);
    let mut out = Vec::new();
    Op::Push(-1).encode(&mut out);
    assert_eq!(out, vec![0x01, 0xFF, 0xFF, 0xFF, 0xFF, 0xFF, 0xFF, 0xFF, 0xFF]);
    let mut out = Vec::new();
    Op::Store(9).encode(&mut out);
    Op::Load(3).encode(&mut out);
    Op::Mod.encode(&mut out);
    Op::Halt.encode(&mut out);
    assert_eq!(out, vec![0x41, 9, 0x40, 3, 0x14, 0xFF]);
}

#[test]
fn decode_encode_round_trip() {
    for op in all_ops() {
        let mut bytes = vec![0x60, 0x60];
        op.encode(&mut bytes);
        let end = bytes.len();
        bytes.push(0xFF);
        assert_eq!(Op::decode(&bytes, 2), Ok((op, end)));
        assert_eq!(Op::decode_op(&bytes, 2), Ok((op, end)));
    }
}

#[test]
fn decode_errors() {
    assert_eq!(Op::decode(&[0x00], 0), Err("unknown opcode".to_string()));
    assert_eq!(Op::decode(&[0xFF], 1), Err("unknown opcode".to_string()));
    assert_eq!(Op::decode(&[0x01, 1, 2, 3], 0), Err("truncated PUSH operand".to_string()));
    assert_eq!(Op::decode(&[0x40], 0), Err("truncated LOAD operand".to_string()));
    assert_eq!(Op::decode(&[0x41], 0), Err("truncated STORE operand".to_string()));
    assert_eq!(Op::decode_op(&[0x42], 0), Err(DecodeError::UnknownOpcode));
}

// ─── Text and numerals ───────────────────────────────────────────────────────

#[test]
fn numerals_parse_like_std() {
    for s in ["0", "-0", "+0", "007", "-9223372036854775808", "9223372036854775807", "+12", "-",
        "+", "", "12a", "9223372036854775808", "-9223372036854775809", "1 2", "٣"] {
        let cs: Vec<char> = s.chars().collect();
        assert_eq!(parse_i64(&cs), s.parse::<i64>().ok(), "{:?}", s);
    }
    for s in ["0", "255", "256", "+7", "-1", "-0", "+", "", "0255", "x"] {
        let cs: Vec<char> = s.chars().collect();
        assert_eq!(parse_u8(&cs), s.parse::<u8>().ok(), "{:?}", s);
    }
}

#[test]
fn words_split_like_std() {
    for s in ["  PUSH\t 7 \u{3000}x\u{a0}", "", "   ", "a\u{2028}b", "one"] {
        let words: Vec<String> = split_words(&chars_of(s))
            .iter()
            .map(|w| w.iter().collect())
            .collect();
        let expected: Vec<String> = s.split_whitespace().map(|w| w.to_string()).collect();
        assert_eq!(words, expected);
    }
}

#[test]
fn format_op_texts() {
    assert_eq!(Op::Push(i64::MIN).format_op(), "PUSH -9223372036854775808");
    assert_eq!(Op::Load(255).format_op(), "LOAD 255");
    assert_eq!(Op::Store(0).format_op(), "STORE 0");
    assert_eq!(Op::Swap.format_op(), "SWAP");
}

// ─── Assembler ───────────────────────────────────────────────────────────────

#[test]
fn asm_comments_case_and_whitespace() {
    let code = code_of("; a program\n  push\t7 ; seven\r\n\n Print\nhAlT");
    assert_eq!(code, vec![0x01, 7, 0, 0, 0, 0, 0, 0, 0, 0x60, 0xFF]);
    assert_eq!(code_of(""), Vec::<u8>::new());
    assert_eq!(code_of("PUSH +5\nLOAD +3\n"), code_of("PUSH 5\nLOAD 3\n"));
}

#[test]
fn asm_error_texts() {
    assert_eq!(assemble_bytes("foo 1\n"), Err("unknown instruction: FOO".to_string()));
    assert_eq!(assemble_bytes("HALT\nPUSH 1 2\n"), Err("unexpected token after PUSH operand".to_string()));
    assert_eq!(assemble_bytes("LOAD 1 2\n"), Err("unexpected token after LOAD operand".to_string()));
    assert_eq!(assemble_bytes("STORE 1 x\n"), Err("unexpected token after STORE operand".to_string()));
    assert_eq!(assemble_bytes("POP 1\n"), Err("unexpected token after POP".to_string()));
    assert_eq!(assemble_bytes("halt now\n"), Err("unexpected token after HALT".to_string()));
    assert_eq!(assemble_bytes("PUSH 9223372036854775808\n"), Err("invalid integer for PUSH".to_string()));
    assert_eq!(assemble_bytes("STORE -1\n"), Err("invalid slot for STORE".to_string()));
    assert_eq!(assemble_bytes("LOAD 256\n"), Err("invalid slot for LOAD".to_string()));
    assert_eq!(assemble_bytes("PUSH ;5\n"), Err("missing operand for PUSH".to_string()));
}

#[test]
fn asm_first_error_wins() {
    assert_eq!(assemble_bytes("BAD\nPUSH\n"), Err("unknown instruction: BAD".to_string()));
}

#[test]
fn asm_line_results() {
    let line: Vec<char> = "  ; nothing".chars().collect();
    assert_eq!(assemble_line(&line), Ok(None));
    let line: Vec<char> = "neg".chars().collect();
    assert_eq!(assemble_line(&line), Ok(Some(Op::Neg)));
}

// ─── Disassembler ────────────────────────────────────────────────────────────

#[test]
fn dis_every_op_and_back() {
    let mut code = Vec::new();
    for op in all_ops() {
        op.encode(&mut code);
    }
    let text = disassemble(&code).unwrap();
    assert!(text.starts_with("PUSH 0\nPUSH -1\nPUSH -9223372036854775808\n"));
    assert!(text.ends_with("LOAD 255\nSTORE 7\nPRINT\nHALT\n"));
    assert_eq!(assemble_bytes(&text).unwrap(), code);
}

#[test]
fn dis_errors() {
    assert_eq!(disassemble(&[0xFF, 0x99]), Err("unknown opcode".to_string()));
    assert_eq!(disassemble(&[0x60, 0x01, 0]), Err("truncated PUSH operand".to_string()));
    assert_eq!(disassemble(&[]), Ok(String::new()));
}

// ─── Bytecode files ──────────────────────────────────────────────────────────

#[test]
fn bytecode_read_back_what_was_written() {
    for code in [vec![], vec![0xFF], code_of("PUSH 300\nPRINT\nHALT\n")] {
        let file = write_bytecode(&code);
        assert_eq!(file.len(), 9 + code.len());
        assert_eq!(read_bytecode(&file), Ok(code));
    }
}

#[test]
fn bytecode_error_texts() {
    assert_eq!(
        read_bytecode(&[0x4D, 0x56, 0x4D, 0x00, 0x01, 0, 0, 0]),
        Err("failed to read header: failed to fill whole buffer".to_string())
    );
    let mut file = write_bytecode(&[0xFF]);
    file[3] = 1;
    assert_eq!(read_bytecode(&file), Err("invalid magic".to_string()));
    let mut file = write_bytecode(&[0xFF, 0xFF]);
    file.pop();
    assert_eq!(
        read_bytecode(&file),
        Err("failed to read code: failed to fill whole buffer".to_string())
    );
}

// ─── Machine ─────────────────────────────────────────────────────────────────

#[test]
fn readme_translation_table_program() {
    let source = "PUSH 7\nPUSH 3\nADD\nPUSH 9\nPUSH 4\nSUB\nMUL\nPUSH 5\nDIV\nPRINT\nHALT\n";
    assert_eq!(printed(source), vec!["10".to_string()]);
}

#[test]
fn readme_trace_example() {
    let e = run_trace(&code_of("PUSH 7\nPUSH 3\nADD\nPRINT\nHALT\n"));
    assert!(matches!(e.outcome, Outcome::Halted));
    assert_eq!(
        e.output,
        vec![
            "ip=0 PUSH 7 stack=[]",
            "ip=9 PUSH 3 stack=[7]",
            "ip=18 ADD stack=[7, 3]",
            "ip=19 PRINT stack=[10]",
            "10",
            "ip=20 HALT stack=[]",
        ]
    );
}

#[test]
fn trace_keeps_outcome() {
    let code = code_of("PUSH 1\nPRINT\nPUSH 0\nPUSH 0\nDIV\nHALT\n");
    let plain = run(&code);
    let traced = run_trace(&code);
    assert_eq!(plain.output, vec!["1".to_string()]);
    match (plain.outcome, traced.outcome) {
        (Outcome::Trapped(a), Outcome::Trapped(b)) => {
            assert_eq!(a, "trap at ip=0x001c: divide by zero");
            assert_eq!(a, b);
        }
        _ => panic!("both runs should trap"),
    }
    assert_eq!(traced.output.len(), 6);
}

#[test]
fn truncating_division_and_remainder() {
    assert_eq!(printed("PUSH -7\nPUSH 2\nDIV\nPRINT\nPUSH -7\nPUSH 2\nMOD\nPRINT\nHALT"),
        vec!["-3".to_string(), "-1".to_string()]);
    assert_eq!(printed("PUSH 7\nPUSH -2\nDIV\nPRINT\nPUSH 7\nPUSH -2\nMOD\nPRINT\nHALT"),
        vec!["-3".to_string(), "1".to_string()]);
}

#[test]
fn laws_on_concrete_programs() {
    // POP undoes PUSH, SWAP and NEG undo themselves, LOAD gives back STORE
    assert_eq!(printed("PUSH 4\nPUSH 9\nPOP\nPRINT\nHALT"), vec!["4".to_string()]);
    assert_eq!(printed("PUSH 1\nPUSH 2\nSWAP\nSWAP\nPRINT\nPRINT\nHALT"),
        vec!["2".to_string(), "1".to_string()]);
    assert_eq!(printed("PUSH -5\nNEG\nNEG\nPRINT\nHALT"), vec!["-5".to_string()]);
    assert_eq!(printed("PUSH -8\nSTORE 255\nLOAD 255\nPRINT\nLOAD 254\nPRINT\nHALT"),
        vec!["-8".to_string(), "0".to_string()]);
    // HALT first: nothing printed
    let e = run(&[0xFF, 0x00, 0x00]);
    assert!(matches!(e.outcome, Outcome::Halted));
    assert!(e.output.is_empty());
}

#[test]
fn overflow_stops_like_rust() {
    assert_eq!(overflow_of("PUSH 9223372036854775807\nPUSH 1\nADD\nHALT"), "attempt to add with overflow");
    assert_eq!(overflow_of("PUSH -9223372036854775808\nPUSH 1\nSUB\nHALT"), "attempt to subtract with overflow");
    assert_eq!(overflow_of("PUSH 4611686018427387904\nPUSH 2\nMUL\nHALT"), "attempt to multiply with overflow");
    assert_eq!(overflow_of("PUSH -9223372036854775808\nPUSH -1\nDIV\nHALT"), "attempt to divide with overflow");
    assert_eq!(overflow_of("PUSH -9223372036854775808\nPUSH -1\nMOD\nHALT"),
        "attempt to calculate the remainder with overflow");
    assert_eq!(overflow_of("PUSH -9223372036854775808\nNEG\nHALT"), "attempt to negate with overflow");
}

#[test]
fn trap_reports() {
    assert_eq!(trap_of(&[]), "trap at ip=0x0000: missing HALT");
    assert_eq!(trap_of(&code_of("PUSH 5\nPRINT\n")), "trap at ip=0x000a: missing HALT");
    assert_eq!(trap_of(&[0x02]), "trap at ip=0x0000: stack underflow");
    assert_eq!(trap_of(&[0x99]), "trap at ip=0x0000: unknown opcode");
    assert_eq!(trap_of(&[0x01, 1, 0, 0]), "trap at ip=0x0000: truncated PUSH operand");
    assert_eq!(trap_of(&[0x40, 0, 0x41]), "trap at ip=0x0002: truncated STORE operand");
    let mut code = Vec::new();
    for _ in 0..7000 {
        Op::Push(1).encode(&mut code);
        Op::Pop.encode(&mut code);
    }
    assert_eq!(trap_of(&code), "trap at ip=0x11170: missing HALT");
}

#[test]
fn stack_limit_is_1024() {
    let mut source = "PUSH 1\n".repeat(1024);
    source.push_str("HALT\n");
    assert!(matches!(run(&code_of(&source)).outcome, Outcome::Halted));
    let mut code = code_of(&"PUSH 1\n".repeat(1024));
    Op::Dup.encode(&mut code);
    assert_eq!(trap_of(&code), "trap at ip=0x2400: stack overflow");
}

#[test]
fn run_file_reads_then_runs() {
    let file = write_bytecode(&code_of("PUSH 2\nPRINT\nHALT"));
    let e = run_file(&file, true).unwrap();
    assert_eq!(e.output, vec!["ip=0 PUSH 2 stack=[]", "ip=9 PRINT stack=[2]", "2", "ip=10 HALT stack=[]"]);
    assert_eq!(run_file(&[1, 2, 3], false).err(), Some("failed to read header: failed to fill whole buffer".to_string()));
}

#[test]
fn usage_text() {
    assert_eq!(
        usage(),
        "Usage:\n    minivm asm <input.tasm> -o <output.tbc>\n    minivm run <input.tbc>\n    minivm run --trace <input.tbc>\n    minivm dis <input.tbc>\n"
    );
}

#[test]
fn law_assembly_joins_on_examples() {
    let a = "PUSH 1 ; one\n\n";
    let b = "store 3\nHALT";
    let mut joined = code_of(a);
    joined.extend(code_of(b));
    assert_eq!(code_of(&format!("{}{}", a, b)), joined);
    assert_eq!(code_of(&format!("{}{}", "", b)), code_of(b));
}

#[test]
fn law_trace_only_adds_lines_on_example() {
    let code = code_of("PUSH 4\nDUP\nPRINT\nPRINT\nHALT");
    let plain = run(&code).output;
    let traced: Vec<String> = run_trace(&code)
        .output
        .into_iter()
        .filter(|l| !l.starts_with("ip="))
        .collect();
    assert_eq!(traced, plain);
    assert_eq!(plain, vec!["4".to_string(), "4".to_string()]);
}

#[test]
fn law_stack_holds_limit_on_example() {
    let mut source = "PUSH 1\n".repeat(1025);
    source.push_str("HALT\n");
    assert_eq!(trap_of(&code_of(&source)), "trap at ip=0x2400: stack overflow");
}

#[test]
fn law_one_line_per_instruction_on_example() {
    let source = "; header\n\n  push 3 ; a\n   \nNEG\n;only comment\nPRINT\nhalt\n";
    let text = disassemble(&code_of(source)).unwrap();
    assert_eq!(text, "PUSH 3\nNEG\nPRINT\nHALT\n");
    assert_eq!(text.matches('\n').count(), 4);
}

#[test]
fn assemble_checks_only() {
    assert_eq!(assemble("PUSH 1\nHALT\n", "out.tbc"), Ok(()));
    assert_eq!(assemble("PUSH\n", "out.tbc"), Err("missing operand for PUSH".to_string()));
}
