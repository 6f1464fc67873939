//! The instruction set: instructions, their byte encoding, and decoding.

use vstd::prelude::*;
use crate::numeral::{dec_digits, dec_int, push_signed, push_unsigned};
use vstd::bytes::{spec_u64_from_le_bytes, spec_u64_to_le_bytes, u64_from_le_bytes, u64_to_le_bytes};

verus! {

/// One instruction of the machine.
#[derive(Debug, Clone, Copy, PartialEq, Eq, Structural)]
pub enum Op {
    Push(i64),
    Pop,
    Dup,
    Swap,
    Add,
    Sub,
    Mul,
    Div,
    Mod,
    Neg,
    Load(u8),
    Store(u8),
    Print,
    Halt,
}

/// Why bytes at some position do not hold an instruction.
#[derive(Debug, Clone, Copy, PartialEq, Eq, Structural)]
pub enum DecodeError {
    UnknownOpcode,
    TruncatedPush,
    TruncatedLoad,
    TruncatedStore,
}

/// The opcode byte of each instruction.
pub open spec fn opcode(op: Op) -> u8 {
    match op {
        Op::Push(_) => 0x01,
        Op::Pop => 0x02,
        Op::Dup => 0x03,
        Op::Swap => 0x04,
        Op::Add => 0x10,
        Op::Sub => 0x11,
        Op::Mul => 0x12,
        Op::Div => 0x13,
        Op::Mod => 0x14,
        Op::Neg => 0x15,
        Op::Load(_) => 0x40,
        Op::Store(_) => 0x41,
        Op::Print => 0x60,
        Op::Halt => 0xff,
    }
}

/// The bytes of an instruction: its opcode, then the operand, if any, with
/// a `PUSH` value as eight little-endian bytes and a slot as one byte.
pub open spec fn encoding(op: Op) -> Seq<u8> {
    match op {
        Op::Push(v) => seq![0x01u8] + spec_u64_to_le_bytes(v as u64),
        Op::Load(i) => seq![0x40u8, i],
        Op::Store(i) => seq![0x41u8, i],
        _ => seq![opcode(op)],
    }
}

/// The instruction at `ip` and the position just after it.
pub open spec fn spec_decode(bytes: Seq<u8>, ip: int) -> Result<(Op, int), DecodeError> {
    if ip < 0 || ip >= bytes.len() {
        Err(DecodeError::UnknownOpcode)
    } else {
        let next = ip + 1;
        let b = bytes[ip];
        if b == 0x01 {
            if bytes.len() < next + 8 {
                Err(DecodeError::TruncatedPush)
            } else {
                Ok(
                    (
                        Op::Push(spec_u64_from_le_bytes(bytes.subrange(next, next + 8)) as i64),
                        next + 8,
                    ),
                )
            }
        } else if b == 0x40 || b == 0x41 {
            if next >= bytes.len() {
                Err(
                    if b == 0x40 {
                        DecodeError::TruncatedLoad
                    } else {
                        DecodeError::TruncatedStore
                    },
                )
            } else if b == 0x40 {
                Ok((Op::Load(bytes[next]), next + 1))
            } else {
                Ok((Op::Store(bytes[next]), next + 1))
            }
        } else if b == 0x02 {
            Ok((Op::Pop, next))
        } else if b == 0x03 {
            Ok((Op::Dup, next))
        } else if b == 0x04 {
            Ok((Op::Swap, next))
        } else if b == 0x10 {
            Ok((Op::Add, next))
        } else if b == 0x11 {
            Ok((Op::Sub, next))
        } else if b == 0x12 {
            Ok((Op::Mul, next))
        } else if b == 0x13 {
            Ok((Op::Div, next))
        } else if b == 0x14 {
            Ok((Op::Mod, next))
        } else if b == 0x15 {
            Ok((Op::Neg, next))
        } else if b == 0x60 {
            Ok((Op::Print, next))
        } else if b == 0xff {
            Ok((Op::Halt, next))
        } else {
            Err(DecodeError::UnknownOpcode)
        }
    }
}

/// The text of a decoding error.
pub open spec fn decode_error_text(e: DecodeError) -> Seq<char> {
    match e {
        DecodeError::UnknownOpcode => "unknown opcode"@,
        DecodeError::TruncatedPush => "truncated PUSH operand"@,
        DecodeError::TruncatedLoad => "truncated LOAD operand"@,
        DecodeError::TruncatedStore => "truncated STORE operand"@,
    }
}

/// The mnemonic of each instruction, as the assembly language spells it.
pub open spec fn op_name(op: Op) -> Seq<char> {
    match op {
        Op::Push(_) => seq!['P', 'U', 'S', 'H'],
        Op::Pop => seq!['P', 'O', 'P'],
        Op::Dup => seq!['D', 'U', 'P'],
        Op::Swap => seq!['S', 'W', 'A', 'P'],
        Op::Add => seq!['A', 'D', 'D'],
        Op::Sub => seq!['S', 'U', 'B'],
        Op::Mul => seq!['M', 'U', 'L'],
        Op::Div => seq!['D', 'I', 'V'],
        Op::Mod => seq!['M', 'O', 'D'],
        Op::Neg => seq!['N', 'E', 'G'],
        Op::Load(_) => seq!['L', 'O', 'A', 'D'],
        Op::Store(_) => seq!['S', 'T', 'O', 'R', 'E'],
        Op::Print => seq!['P', 'R', 'I', 'N', 'T'],
        Op::Halt => seq!['H', 'A', 'L', 'T'],
    }
}

/// An instruction in assembly language: its mnemonic, then a space and its
/// operand in decimal, if it has one.
pub open spec fn op_text(op: Op) -> Seq<char> {
    match op {
        Op::Push(v) => op_name(op) + seq![' '] + dec_int(v as int),
        Op::Load(i) => op_name(op) + seq![' '] + dec_digits(i as nat),
        Op::Store(i) => op_name(op) + seq![' '] + dec_digits(i as nat),
        _ => op_name(op),
    }
}

/// The bytes of a sequence of instructions, one after the other.
pub open spec fn encode_all(ops: Seq<Op>) -> Seq<u8>
    decreases ops.len(),
{
    if ops.len() == 0 {
        seq![]
    } else {
        encoding(ops[0]) + encode_all(ops.drop_first())
    }
}

/// `r` with `done` put in front of the instructions it holds.
pub open spec fn after<E>(done: Seq<Op>, r: Result<Seq<Op>, E>) -> Result<Seq<Op>, E> {
    match r {
        Ok(rest) => Ok(done + rest),
        Err(e) => Err(e),
    }
}

pub proof fn lemma_encode_all_push(ops: Seq<Op>, op: Op)
    ensures
        encode_all(ops.push(op)) == encode_all(ops) + encoding(op),
    decreases ops.len(),
{
    if ops.len() == 0 {
        assert(ops.push(op).drop_first() =~= Seq::<Op>::empty());
        assert(ops.push(op)[0] == op);
        assert(encode_all(Seq::<Op>::empty()) == Seq::<u8>::empty());
        assert(encode_all(ops.push(op)) =~= encoding(op) + Seq::<u8>::empty());
        assert(encode_all(ops) =~= Seq::<u8>::empty());
    } else {
        lemma_encode_all_push(ops.drop_first(), op);
        assert(ops.push(op).drop_first() =~= ops.drop_first().push(op));
        assert(encode_all(ops.push(op)) =~= encode_all(ops) + encoding(op));
    }
}

pub proof fn lemma_encode_all_append(a: Seq<Op>, b: Seq<Op>)
    ensures
        encode_all(a + b) == encode_all(a) + encode_all(b),
    decreases a.len(),
{
    if a.len() == 0 {
        assert(a + b =~= b);
        assert(encode_all(a) == Seq::<u8>::empty());
        assert(encode_all(a) + encode_all(b) =~= encode_all(b));
    } else {
        lemma_encode_all_append(a.drop_first(), b);
        assert((a + b).drop_first() =~= a.drop_first() + b);
        assert((a + b)[0] == a[0]);
        assert(encode_all(a + b) =~= encode_all(a) + encode_all(b));
    }
}

/// Decoding the bytes from `ip` to the end, one instruction after another.
pub open spec fn decode_from(bytes: Seq<u8>, ip: int) -> Result<Seq<Op>, DecodeError>
    decreases bytes.len() - ip,
{
    if ip < 0 || ip >= bytes.len() {
        Ok(seq![])
    } else {
        match spec_decode(bytes, ip) {
            Err(e) => Err(e),
            Ok((op, next)) => match decode_from(bytes, next) {
                Ok(rest) => Ok(seq![op] + rest),
                Err(e) => Err(e),
            },
        }
    }
}

pub proof fn lemma_decode_advances(bytes: Seq<u8>, ip: int)
    ensures
        spec_decode(bytes, ip) matches Ok((op, next)) ==> ip < next <= bytes.len() && next - ip
            == encoding(op).len(),
{
    vstd::bytes::lemma_auto_spec_u64_to_from_le_bytes();
}

proof fn lemma_i64_u64_casts(v: i64, x: u64)
    ensures
        (v as u64) as i64 == v,
        (x as i64) as u64 == x,
{
    assert((v as u64) as i64 == v) by (bit_vector);
    assert((x as i64) as u64 == x) by (bit_vector);
}

/// Decoding the bytes of an instruction, wherever they stand, gives that
/// instruction back, and the position just after its bytes.
pub proof fn lemma_decode_encoding(op: Op, prefix: Seq<u8>, suffix: Seq<u8>)
    ensures
        spec_decode(prefix + encoding(op) + suffix, prefix.len() as int) == Ok::<(Op, int), DecodeError>(
            (op, (prefix.len() + encoding(op).len()) as int),
        ),
{
    vstd::bytes::lemma_auto_spec_u64_to_from_le_bytes();
    let bytes = prefix + encoding(op) + suffix;
    let ip = prefix.len() as int;
    assert(bytes[ip] == opcode(op));
    match op {
        Op::Push(v) => {
            lemma_i64_u64_casts(v, 0);
            assert(bytes.subrange(ip + 1, ip + 9) =~= spec_u64_to_le_bytes(v as u64));
        },
        Op::Load(i) => {
            assert(bytes[ip + 1] == i);
        },
        Op::Store(i) => {
            assert(bytes[ip + 1] == i);
        },
        _ => {},
    }
}

/// What decoding finds is exactly what the bytes it read encode.
pub proof fn lemma_decode_faithful(bytes: Seq<u8>, ip: int)
    ensures
        spec_decode(bytes, ip) matches Ok((op, next)) ==> bytes.subrange(ip, next) == encoding(op),
{
    vstd::bytes::lemma_auto_spec_u64_to_from_le_bytes();
    if let Ok((op, next)) = spec_decode(bytes, ip) {
        match op {
            Op::Push(v) => {
                let raw = bytes.subrange(ip + 1, ip + 9);
                let x = spec_u64_from_le_bytes(raw);
                lemma_i64_u64_casts(0, x);
                assert(spec_u64_to_le_bytes(x) == raw);
                assert(bytes.subrange(ip, next) =~= seq![0x01u8] + raw);
            },
            _ => {
                assert(bytes.subrange(ip, next) =~= encoding(op));
            },
        }
    }
}

/// Decoding the bytes of a sequence of instructions gives that sequence.
pub proof fn lemma_decode_encode_all(prefix: Seq<u8>, ops: Seq<Op>)
    ensures
        decode_from(prefix + encode_all(ops), prefix.len() as int) == Ok::<Seq<Op>, DecodeError>(ops),
    decreases ops.len(),
{
    let bytes = prefix + encode_all(ops);
    if ops.len() == 0 {
        assert(bytes.len() == prefix.len());
        assert(ops =~= Seq::<Op>::empty());
    } else {
        let op = ops[0];
        let rest = ops.drop_first();
        let suffix = encode_all(rest);
        assert(bytes =~= prefix + encoding(op) + suffix);
        lemma_decode_encoding(op, prefix, suffix);
        let prefix2 = prefix + encoding(op);
        assert(bytes =~= prefix2 + suffix);
        lemma_decode_encode_all(prefix2, rest);
        assert(seq![op] + rest =~= ops);
    }
}

/// Whatever decodes to a sequence of instructions is the encoding of that
/// sequence.
pub proof fn lemma_decode_from_faithful(bytes: Seq<u8>, ip: int)
    requires
        0 <= ip <= bytes.len(),
    ensures
        decode_from(bytes, ip) matches Ok(ops) ==> encode_all(ops) == bytes.skip(ip),
    decreases bytes.len() - ip,
{
    if ip == bytes.len() {
        assert(bytes.skip(ip) =~= Seq::<u8>::empty());
    } else {
        lemma_decode_advances(bytes, ip);
        lemma_decode_faithful(bytes, ip);
        if let Ok((op, next)) = spec_decode(bytes, ip) {
            lemma_decode_from_faithful(bytes, next);
            if let Ok(ops) = decode_from(bytes, ip) {
                let rest = decode_from(bytes, next)->Ok_0;
                assert(ops == seq![op] + rest);
                assert(ops.drop_first() =~= rest);
                assert(bytes.skip(ip) =~= bytes.subrange(ip, next) + bytes.skip(next));
            }
        }
    }
}

/// The byte layout of every instruction: the opcode table of the machine,
/// and a `PUSH` value as eight little-endian bytes.
pub proof fn law_encoding_table(v: i64, i: u8)
    ensures
        encoding(Op::Push(v)) == seq![0x01u8] + spec_u64_to_le_bytes(v as u64),
        encoding(Op::Pop) == seq![0x02u8],
        encoding(Op::Dup) == seq![0x03u8],
        encoding(Op::Swap) == seq![0x04u8],
        encoding(Op::Add) == seq![0x10u8],
        encoding(Op::Sub) == seq![0x11u8],
        encoding(Op::Mul) == seq![0x12u8],
        encoding(Op::Div) == seq![0x13u8],
        encoding(Op::Mod) == seq![0x14u8],
        encoding(Op::Neg) == seq![0x15u8],
        encoding(Op::Load(i)) == seq![0x40u8, i],
        encoding(Op::Store(i)) == seq![0x41u8, i],
        encoding(Op::Print) == seq![0x60u8],
        encoding(Op::Halt) == seq![0xffu8],
{
}

/// What decoding finds at a position, by the byte there: the opcode table
/// read the other way, operands after the opcode, and an error for any
/// other byte or a missing operand.
pub proof fn law_decode_table(bytes: Seq<u8>, ip: int)
    requires
        0 <= ip < bytes.len(),
    ensures
        bytes[ip] == 0x01 && ip + 9 <= bytes.len() ==> spec_decode(bytes, ip) == Ok::<(Op, int), DecodeError>(
            (Op::Push(spec_u64_from_le_bytes(bytes.subrange(ip + 1, ip + 9)) as i64), ip + 9),
        ),
        bytes[ip] == 0x01 && ip + 9 > bytes.len() ==> spec_decode(bytes, ip) == Err::<(Op, int), DecodeError>(
            DecodeError::TruncatedPush,
        ),
        bytes[ip] == 0x02 ==> spec_decode(bytes, ip) == Ok::<(Op, int), DecodeError>((Op::Pop, ip + 1)),
        bytes[ip] == 0x03 ==> spec_decode(bytes, ip) == Ok::<(Op, int), DecodeError>((Op::Dup, ip + 1)),
        bytes[ip] == 0x04 ==> spec_decode(bytes, ip) == Ok::<(Op, int), DecodeError>((Op::Swap, ip + 1)),
        bytes[ip] == 0x10 ==> spec_decode(bytes, ip) == Ok::<(Op, int), DecodeError>((Op::Add, ip + 1)),
        bytes[ip] == 0x11 ==> spec_decode(bytes, ip) == Ok::<(Op, int), DecodeError>((Op::Sub, ip + 1)),
        bytes[ip] == 0x12 ==> spec_decode(bytes, ip) == Ok::<(Op, int), DecodeError>((Op::Mul, ip + 1)),
        bytes[ip] == 0x13 ==> spec_decode(bytes, ip) == Ok::<(Op, int), DecodeError>((Op::Div, ip + 1)),
        bytes[ip] == 0x14 ==> spec_decode(bytes, ip) == Ok::<(Op, int), DecodeError>((Op::Mod, ip + 1)),
        bytes[ip] == 0x15 ==> spec_decode(bytes, ip) == Ok::<(Op, int), DecodeError>((Op::Neg, ip + 1)),
        bytes[ip] == 0x40 && ip + 1 < bytes.len() ==> spec_decode(bytes, ip) == Ok::<(Op, int), DecodeError>(
            (Op::Load(bytes[ip + 1]), ip + 2),
        ),
        bytes[ip] == 0x40 && ip + 1 == bytes.len() ==> spec_decode(bytes, ip) == Err::<(Op, int), DecodeError>(
            DecodeError::TruncatedLoad,
        ),
        bytes[ip] == 0x41 && ip + 1 < bytes.len() ==> spec_decode(bytes, ip) == Ok::<(Op, int), DecodeError>(
            (Op::Store(bytes[ip + 1]), ip + 2),
        ),
        bytes[ip] == 0x41 && ip + 1 == bytes.len() ==> spec_decode(bytes, ip) == Err::<(Op, int), DecodeError>(
            DecodeError::TruncatedStore,
        ),
        bytes[ip] == 0x60 ==> spec_decode(bytes, ip) == Ok::<(Op, int), DecodeError>((Op::Print, ip + 1)),
        bytes[ip] == 0xff ==> spec_decode(bytes, ip) == Ok::<(Op, int), DecodeError>((Op::Halt, ip + 1)),
        !(bytes[ip] == 0x01 || bytes[ip] == 0x02 || bytes[ip] == 0x03 || bytes[ip] == 0x04 || (0x10
            <= bytes[ip] <= 0x15) || bytes[ip] == 0x40 || bytes[ip] == 0x41 || bytes[ip] == 0x60
            || bytes[ip] == 0xff) ==> spec_decode(bytes, ip) == Err::<(Op, int), DecodeError>(
            DecodeError::UnknownOpcode,
        ),
{
}

/// The assembly text of every instruction: its mnemonic, then one space and
/// the operand in decimal where it has one.
pub proof fn law_mnemonic_table(v: i64, i: u8)
    ensures
        op_text(Op::Push(v)) == "PUSH "@ + dec_int(v as int),
        op_text(Op::Pop) == "POP"@,
        op_text(Op::Dup) == "DUP"@,
        op_text(Op::Swap) == "SWAP"@,
        op_text(Op::Add) == "ADD"@,
        op_text(Op::Sub) == "SUB"@,
        op_text(Op::Mul) == "MUL"@,
        op_text(Op::Div) == "DIV"@,
        op_text(Op::Mod) == "MOD"@,
        op_text(Op::Neg) == "NEG"@,
        op_text(Op::Load(i)) == "LOAD "@ + dec_digits(i as nat),
        op_text(Op::Store(i)) == "STORE "@ + dec_digits(i as nat),
        op_text(Op::Print) == "PRINT"@,
        op_text(Op::Halt) == "HALT"@,
{
    reveal_strlit("PUSH ");
    reveal_strlit("POP");
    reveal_strlit("DUP");
    reveal_strlit("SWAP");
    reveal_strlit("ADD");
    reveal_strlit("SUB");
    reveal_strlit("MUL");
    reveal_strlit("DIV");
    reveal_strlit("MOD");
    reveal_strlit("NEG");
    reveal_strlit("LOAD ");
    reveal_strlit("STORE ");
    reveal_strlit("PRINT");
    reveal_strlit("HALT");
    assert(op_text(Op::Push(v)) =~= "PUSH "@ + dec_int(v as int));
    assert(op_text(Op::Pop) =~= "POP"@);
    assert(op_text(Op::Dup) =~= "DUP"@);
    assert(op_text(Op::Swap) =~= "SWAP"@);
    assert(op_text(Op::Add) =~= "ADD"@);
    assert(op_text(Op::Sub) =~= "SUB"@);
    assert(op_text(Op::Mul) =~= "MUL"@);
    assert(op_text(Op::Div) =~= "DIV"@);
    assert(op_text(Op::Mod) =~= "MOD"@);
    assert(op_text(Op::Neg) =~= "NEG"@);
    assert(op_text(Op::Load(i)) =~= "LOAD "@ + dec_digits(i as nat));
    assert(op_text(Op::Store(i)) =~= "STORE "@ + dec_digits(i as nat));
    assert(op_text(Op::Print) =~= "PRINT"@);
    assert(op_text(Op::Halt) =~= "HALT"@);
}

impl DecodeError {
    pub fn message(&self) -> (s: String)
        ensures
            s@ == decode_error_text(*self),
    {
        match self {
            DecodeError::UnknownOpcode => String::from_str("unknown opcode"),
            DecodeError::TruncatedPush => String::from_str("truncated PUSH operand"),
            DecodeError::TruncatedLoad => String::from_str("truncated LOAD operand"),
            DecodeError::TruncatedStore => String::from_str("truncated STORE operand"),
        }
    }
}

impl Op {
    /// The instruction in assembly language.
    pub fn format_op(&self) -> (s: String)
        ensures
            s@ == op_text(*self),
    {
        let mut s = String::new();
        let name = match self {
            Op::Push(_) => "PUSH",
            Op::Pop => "POP",
            Op::Dup => "DUP",
            Op::Swap => "SWAP",
            Op::Add => "ADD",
            Op::Sub => "SUB",
            Op::Mul => "MUL",
            Op::Div => "DIV",
            Op::Mod => "MOD",
            Op::Neg => "NEG",
            Op::Load(_) => "LOAD",
            Op::Store(_) => "STORE",
            Op::Print => "PRINT",
            Op::Halt => "HALT",
        };
        proof {
            reveal_strlit("PUSH");
            reveal_strlit("POP");
            reveal_strlit("DUP");
            reveal_strlit("SWAP");
            reveal_strlit("ADD");
            reveal_strlit("SUB");
            reveal_strlit("MUL");
            reveal_strlit("DIV");
            reveal_strlit("MOD");
            reveal_strlit("NEG");
            reveal_strlit("LOAD");
            reveal_strlit("STORE");
            reveal_strlit("PRINT");
            reveal_strlit("HALT");
            reveal_strlit(" ");
            assert(name@ =~= op_name(*self));
        }
        s.append(name);
        match self {
            Op::Push(v) => {
                s.append(" ");
                push_signed(&mut s, *v);
            },
            Op::Load(i) | Op::Store(i) => {
                s.append(" ");
                push_unsigned(&mut s, *i as u64);
            },
            _ => {},
        }
        proof {
            assert(s@ =~= op_text(*self));
        }
        s
    }

    /// Appends the bytes of this instruction to `output`.
    pub fn encode(&self, output: &mut Vec<u8>)
        ensures
            final(output)@ == old(output)@ + encoding(*self),
    {
        match self {
            Op::Push(value) => {
                output.push(0x01);
                let mut bytes = u64_to_le_bytes(*value as u64);
                output.append(&mut bytes);
            },
            Op::Pop => output.push(0x02),
            Op::Dup => output.push(0x03),
            Op::Swap => output.push(0x04),
            Op::Add => output.push(0x10),
            Op::Sub => output.push(0x11),
            Op::Mul => output.push(0x12),
            Op::Div => output.push(0x13),
            Op::Mod => output.push(0x14),
            Op::Neg => output.push(0x15),
            Op::Load(index) => {
                output.push(0x40);
                output.push(*index);
            },
            Op::Store(index) => {
                output.push(0x41);
                output.push(*index);
            },
            Op::Print => output.push(0x60),
            Op::Halt => output.push(0xff),
        }
        proof {
            assert(final(output)@ =~= old(output)@ + encoding(*self));
        }
    }

    /// The instruction at `ip` and the position just after it.
    pub fn decode_op(bytes: &[u8], ip: usize) -> (r: Result<(Op, usize), DecodeError>)
        ensures
            match r {
                Ok((op, next)) => spec_decode(bytes@, ip as int) == Ok::<(Op, int), DecodeError>((op, next as int)),
                Err(e) => spec_decode(bytes@, ip as int) == Err::<(Op, int), DecodeError>(e),
            },
    {
        if ip >= bytes.len() {
            return Err(DecodeError::UnknownOpcode);
        }
        let opcode = bytes[ip];
        let next = ip + 1;
        match opcode {
            0x01 => {
                if bytes.len() - next < 8 {
                    return Err(DecodeError::TruncatedPush);
                }
                let raw = vstd::slice::slice_subrange(bytes, next, next + 8);
                let value = u64_from_le_bytes(raw) as i64;
                Ok((Op::Push(value), next + 8))
            },
            0x02 => Ok((Op::Pop, next)),
            0x03 => Ok((Op::Dup, next)),
            0x04 => Ok((Op::Swap, next)),
            0x10 => Ok((Op::Add, next)),
            0x11 => Ok((Op::Sub, next)),
            0x12 => Ok((Op::Mul, next)),
            0x13 => Ok((Op::Div, next)),
            0x14 => Ok((Op::Mod, next)),
            0x15 => Ok((Op::Neg, next)),
            0x40 => {
                if next >= bytes.len() {
                    return Err(DecodeError::TruncatedLoad);
                }
                Ok((Op::Load(bytes[next]), next + 1))
            },
            0x41 => {
                if next >= bytes.len() {
                    return Err(DecodeError::TruncatedStore);
                }
                Ok((Op::Store(bytes[next]), next + 1))
            },
            0x60 => Ok((Op::Print, next)),
            0xff => Ok((Op::Halt, next)),
            _ => Err(DecodeError::UnknownOpcode),
        }
    }

    /// The instruction at `ip` and the position just after it, or the text
    /// of why there is none.
    pub fn decode(bytes: &[u8], ip: usize) -> (r: Result<(Op, usize), String>)
        ensures
            match spec_decode(bytes@, ip as int) {
                Ok((op, next)) => r == Ok::<(Op, usize), String>((op, next as usize)),
                Err(e) => r is Err && r->Err_0@ == decode_error_text(e),
            },
    {
        match Op::decode_op(bytes, ip) {
            Ok(pair) => Ok(pair),
            Err(e) => Err(e.message()),
        }
    }
}

} // verus!
