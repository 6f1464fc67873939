use minivm::assembler::assemble_bytes;
use minivm::bytecode::{read_bytecode, write_bytecode};
use minivm::disassembler::disassemble;
use minivm::vm::{run, run_file, Execution, Outcome};

fn make_tbc(code: &[u8]) -> Vec<u8> {
    let mut data = vec![0x4D, 0x56, 0x4D, 0x00, 0x01];
    data.extend_from_slice(&(code.len() as u32).to_le_bytes());
    data.extend_from_slice(code);
    data
}

fn run_source(source: &str) -> Execution {
    let code = match assemble_bytes(source) {
        Ok(code) => code,
        Err(e) => panic!("Assembly failed: {}", e),
    };
    let file = write_bytecode(&code);
    match run_file(&file, false) {
        Ok(e) => e,
        Err(e) => panic!("reading the bytecode failed: {}", e),
    }
}

fn succeeded(e: &Execution) -> bool {
    matches!(e.outcome, Outcome::Halted)
}

fn stdout(e: &Execution) -> String {
    let mut s = String::new();
    for line in &e.output {
        s.push_str(line);
        s.push('\n');
    }
    s
}

fn expect_trap(source: &str, expected: &str) {
    let out = run_source(source);
    match &out.outcome {
        Outcome::Trapped(msg) => assert!(
            msg.contains(expected),
            "Expected '{}' in the trap, got: {}",
            expected,
            msg
        ),
        _ => panic!("Expected trap but the run did not trap"),
    }
}

fn asm_error(source: &str) -> String {
    match assemble_bytes(source) {
        Ok(_) => panic!("assembly should have failed"),
        Err(e) => e,
    }
}

// ─── Assembler ───────────────────────────────────────────────────────────────

#[test]
fn asm_valid_program() {
    let result = assemble_bytes("PUSH 7\nPUSH 3\nADD\nPRINT\nHALT\n");
    assert!(result.is_ok());
    let file = write_bytecode(&result.unwrap());
    assert!(!file.is_empty());
}

#[test]
fn asm_unknown_instruction() {
    let result = assemble_bytes("FOOBAR\nHALT\n");
    assert!(result.is_err());
    assert!(asm_error("FOOBAR\nHALT\n").contains("unknown instruction"));
}

#[test]
fn asm_push_missing_operand() {
    assert!(assemble_bytes("PUSH\nHALT\n").is_err());
    assert!(asm_error("PUSH\nHALT\n").contains("missing operand for PUSH"));
}

#[test]
fn asm_push_invalid_value() {
    assert!(assemble_bytes("PUSH abc\nHALT\n").is_err());
    assert!(asm_error("PUSH abc\nHALT\n").contains("invalid integer for PUSH"));
}

#[test]
fn asm_load_missing_operand() {
    assert!(assemble_bytes("LOAD\nHALT\n").is_err());
    assert!(asm_error("LOAD\nHALT\n").contains("missing operand for LOAD"));
}

#[test]
fn asm_load_invalid_slot() {
    assert!(assemble_bytes("LOAD 999\nHALT\n").is_err());
    assert!(asm_error("LOAD 999\nHALT\n").contains("invalid slot for LOAD"));
}

#[test]
fn asm_store_missing_operand() {
    assert!(assemble_bytes("STORE\nHALT\n").is_err());
    assert!(asm_error("STORE\nHALT\n").contains("missing operand for STORE"));
}

#[test]
fn asm_store_invalid_slot() {
    assert!(assemble_bytes("STORE 256\nHALT\n").is_err());
    assert!(asm_error("STORE 256\nHALT\n").contains("invalid slot for STORE"));
}

// ─── Bytecode ────────────────────────────────────────────────────────────────

#[test]
fn bc_write_and_read() {
    let code = assemble_bytes("PUSH 1\nHALT\n").unwrap();
    let bytes = write_bytecode(&code);
    assert_eq!(&bytes[0..4], &[0x4D, 0x56, 0x4D, 0x00], "magic mismatch");
    assert_eq!(bytes[4], 1, "version mismatch");
    let len = u32::from_le_bytes([bytes[5], bytes[6], bytes[7], bytes[8]]) as usize;
    assert_eq!(bytes.len(), 9 + len, "length field mismatch");
}

#[test]
fn bc_read_valid_manual() {
    let halt_code = vec![0xFF];
    let data = make_tbc(&halt_code);
    let result = run_file(&data, false).unwrap();
    assert!(succeeded(&result));
}

#[test]
fn bc_invalid_magic() {
    let mut data = make_tbc(&[0xFF]);
    data[0] = 0xAA;
    let result = run_file(&data, false);
    assert!(result.is_err());
    assert!(read_bytecode(&data).unwrap_err().contains("invalid magic"));
}

#[test]
fn bc_invalid_version() {
    let mut data = make_tbc(&[0xFF]);
    data[4] = 0x99;
    let result = run_file(&data, false);
    assert!(result.is_err());
    assert!(read_bytecode(&data).unwrap_err().contains("unsupported version"));
}

#[test]
fn bc_truncated_header() {
    let data = vec![0x4D, 0x56, 0x4D, 0x00];
    let result = run_file(&data, false);
    assert!(result.is_err());
    assert!(read_bytecode(&data).unwrap_err().contains("failed to read header"));
}

#[test]
fn bc_truncated_code() {
    let mut data = vec![0x4D, 0x56, 0x4D, 0x00, 0x01];
    data.extend_from_slice(&10u32.to_le_bytes());
    data.extend_from_slice(&[0xFF, 0x01]);
    let result = run_file(&data, false);
    assert!(result.is_err());
    assert!(read_bytecode(&data).unwrap_err().contains("failed to read code"));
}

#[test]
fn bc_extra_bytes() {
    let mut data = make_tbc(&[0xFF]);
    data.push(0x00);
    let result = run_file(&data, false);
    assert!(result.is_err());
    assert!(read_bytecode(&data).unwrap_err().contains("extra bytes after code"));
}

// ─── VM instruction tests ─────────────────────────────────────────────────────

#[test]
fn vm_push() {
    let out = run_source("PUSH 42\nPRINT\nHALT\n");
    assert!(succeeded(&out));
    assert_eq!(stdout(&out), "42\n");
}

#[test]
fn vm_pop() {
    let out = run_source("PUSH 1\nPUSH 2\nPOP\nPRINT\nHALT\n");
    assert!(succeeded(&out));
    assert_eq!(stdout(&out), "1\n");
}

#[test]
fn vm_dup() {
    let out = run_source("PUSH 5\nDUP\nADD\nPRINT\nHALT\n");
    assert!(succeeded(&out));
    assert_eq!(stdout(&out), "10\n");
}

#[test]
fn vm_swap() {
    let out = run_source("PUSH 10\nPUSH 3\nSWAP\nPRINT\nHALT\n");
    assert!(succeeded(&out));
    assert_eq!(stdout(&out), "10\n");
}

#[test]
fn vm_add() {
    let out = run_source("PUSH 3\nPUSH 4\nADD\nPRINT\nHALT\n");
    assert!(succeeded(&out));
    assert_eq!(stdout(&out), "7\n");
}

#[test]
fn vm_sub() {
    let out = run_source("PUSH 10\nPUSH 3\nSUB\nPRINT\nHALT\n");
    assert!(succeeded(&out));
    assert_eq!(stdout(&out), "7\n");
}

#[test]
fn vm_mul() {
    let out = run_source("PUSH 6\nPUSH 7\nMUL\nPRINT\nHALT\n");
    assert!(succeeded(&out));
    assert_eq!(stdout(&out), "42\n");
}

#[test]
fn vm_div() {
    let out = run_source("PUSH 10\nPUSH 2\nDIV\nPRINT\nHALT\n");
    assert!(succeeded(&out));
    assert_eq!(stdout(&out), "5\n");
}

#[test]
fn vm_mod() {
    let out = run_source("PUSH 10\nPUSH 3\nMOD\nPRINT\nHALT\n");
    assert!(succeeded(&out));
    assert_eq!(stdout(&out), "1\n");
}

#[test]
fn vm_neg() {
    let out = run_source("PUSH 5\nNEG\nPRINT\nHALT\n");
    assert!(succeeded(&out));
    assert_eq!(stdout(&out), "-5\n");
}

#[test]
fn vm_load_default_zero() {
    let out = run_source("LOAD 0\nPRINT\nHALT\n");
    assert!(succeeded(&out));
    assert_eq!(stdout(&out), "0\n");
}

#[test]
fn vm_store_and_load() {
    let out = run_source("PUSH 99\nSTORE 0\nLOAD 0\nPRINT\nHALT\n");
    assert!(succeeded(&out));
    assert_eq!(stdout(&out), "99\n");
}

#[test]
fn vm_print() {
    let out = run_source("PUSH 123\nPRINT\nHALT\n");
    assert!(succeeded(&out));
    assert_eq!(stdout(&out), "123\n");
}

#[test]
fn vm_halt_stops_execution() {
    let out = run_source("HALT\nPUSH 999\nPRINT\nHALT\n");
    assert!(succeeded(&out));
    assert_eq!(stdout(&out), "");
}

// ─── Trap tests ───────────────────────────────────────────────────────────────

#[test]
fn trap_stack_underflow_pop() {
    expect_trap("POP\nHALT\n", "trap at ip=0x0000: stack underflow");
}

#[test]
fn trap_stack_underflow_dup() {
    expect_trap("DUP\nHALT\n", "trap at ip=0x0000: stack underflow");
}

#[test]
fn trap_stack_underflow_swap() {
    expect_trap("PUSH 1\nSWAP\nHALT\n", "stack underflow");
}

#[test]
fn trap_stack_underflow_add() {
    expect_trap("PUSH 1\nADD\nHALT\n", "stack underflow");
}

#[test]
fn trap_stack_underflow_sub() {
    expect_trap("PUSH 1\nSUB\nHALT\n", "stack underflow");
}

#[test]
fn trap_stack_underflow_mul() {
    expect_trap("PUSH 1\nMUL\nHALT\n", "stack underflow");
}

#[test]
fn trap_stack_underflow_div() {
    expect_trap("PUSH 1\nDIV\nHALT\n", "stack underflow");
}

#[test]
fn trap_stack_underflow_mod() {
    expect_trap("PUSH 1\nMOD\nHALT\n", "stack underflow");
}

#[test]
fn trap_stack_underflow_neg() {
    expect_trap("NEG\nHALT\n", "trap at ip=0x0000: stack underflow");
}

#[test]
fn trap_stack_underflow_store() {
    expect_trap("STORE 0\nHALT\n", "trap at ip=0x0000: stack underflow");
}

#[test]
fn trap_stack_underflow_print() {
    expect_trap("PRINT\nHALT\n", "trap at ip=0x0000: stack underflow");
}

#[test]
fn trap_stack_overflow_push() {
    let mut source = String::new();
    for _ in 0..1025 {
        source.push_str("PUSH 1\n");
    }
    source.push_str("HALT\n");
    expect_trap(&source, "stack overflow");
}

#[test]
fn trap_stack_overflow_dup() {
    let mut source = String::new();
    for _ in 0..1024 {
        source.push_str("PUSH 1\n");
    }
    source.push_str("DUP\nHALT\n");
    expect_trap(&source, "stack overflow");
}

#[test]
fn trap_stack_overflow_load() {
    let mut source = String::new();
    for _ in 0..1024 {
        source.push_str("PUSH 1\n");
    }
    source.push_str("LOAD 0\nHALT\n");
    expect_trap(&source, "stack overflow");
}

#[test]
fn trap_divide_by_zero() {
    expect_trap(
        "PUSH 5\nPUSH 0\nDIV\nHALT\n",
        "trap at ip=0x0012: divide by zero",
    );
}

#[test]
fn trap_modulo_by_zero() {
    expect_trap(
        "PUSH 5\nPUSH 0\nMOD\nHALT\n",
        "trap at ip=0x0012: modulo by zero",
    );
}

#[test]
fn trap_missing_halt() {
    expect_trap("PUSH 5\nPRINT\n", "missing HALT");
}

// ─── Disassembler ─────────────────────────────────────────────────────────────

#[test]
fn dis_output_format() {
    let source = "PUSH 7\nPUSH 3\nADD\nPRINT\nHALT\n";
    let code = assemble_bytes(source);
    assert!(code.is_ok());
    let out = disassemble(&code.unwrap());
    assert!(out.is_ok());
    assert_eq!(out.unwrap(), "PUSH 7\nPUSH 3\nADD\nPRINT\nHALT\n");
}

#[test]
fn dis_load_store_format() {
    let source = "PUSH 42\nSTORE 12\nLOAD 5\nPRINT\nHALT\n";
    let code = assemble_bytes(source);
    assert!(code.is_ok());
    let out = disassemble(&code.unwrap());
    assert!(out.is_ok());
    let text = out.unwrap();
    assert!(text.contains("LOAD 5\n"));
    assert!(text.contains("STORE 12\n"));
}

#[test]
fn dis_round_trip_simple() {
    let source = "PUSH 7\nPUSH 3\nADD\nPRINT\nHALT\n";
    let r = assemble_bytes(source);
    assert!(r.is_ok());
    let bytes1 = write_bytecode(&r.unwrap());

    let dis_out = disassemble(&read_bytecode(&bytes1).unwrap());
    assert!(dis_out.is_ok());

    let r2 = assemble_bytes(&dis_out.unwrap());
    assert!(r2.is_ok());
    let bytes2 = write_bytecode(&r2.unwrap());

    assert_eq!(bytes1, bytes2, "Bytecodes differ after round-trip");
}

#[test]
fn dis_round_trip_all_ops() {
    let source = [
        "PUSH 10\n",
        "PUSH 3\n",
        "DUP\n",
        "ADD\n",
        "SUB\n",
        "PUSH 2\n",
        "MUL\n",
        "PUSH 2\n",
        "DIV\n",
        "PUSH 3\n",
        "MOD\n",
        "NEG\n",
        "STORE 5\n",
        "LOAD 5\n",
        "POP\n",
        "PUSH 42\n",
        "PUSH 1\n",
        "SWAP\n",
        "PRINT\n",
        "HALT\n",
    ]
    .concat();
    let r = assemble_bytes(&source);
    assert!(r.is_ok(), "{}", r.clone().unwrap_err());
    let bytes1 = write_bytecode(&r.unwrap());

    let dis_out = disassemble(&read_bytecode(&bytes1).unwrap());
    assert!(dis_out.is_ok());

    let r2 = assemble_bytes(&dis_out.unwrap());
    assert!(r2.is_ok(), "{}", r2.clone().unwrap_err());
    let bytes2 = write_bytecode(&r2.unwrap());

    assert_eq!(bytes1, bytes2, "Bytecodes differ after round-trip");
}
