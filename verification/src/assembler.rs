//! Turning assembly text into bytecode.
//!
//! A program is a sequence of lines. On each line, what follows a `;` is a
//! comment. What remains is split into whitespace-separated words: an empty
//! line is skipped; otherwise the first word, in any case, names the
//! instruction and the others are its operands.

use vstd::prelude::*;
use crate::isa::{after, encode_all, encoding, lemma_encode_all_push, op_name, Op};
use crate::isa::op_text;
use crate::numeral::{
    dec_digits, dec_int, is_digit, lemma_dec_digits, lemma_parse_dec_i64, lemma_parse_dec_u8,
    parse_i64, parse_i64_value, parse_u8, parse_u8_value,
};
use crate::text::{
    chars_of, code_part, is_ws, lemma_code_part_plain, lemma_words_pair, lemma_words_single, find_char, lines, not_newline, run_len, slice_chars, split_words,
    view_all, words,
};

verus! {

/// ASCII upper case of one character.
pub open spec fn upper(c: char) -> char {
    if 'a' <= c <= 'z' {
        (c as int - 32) as char
    } else {
        c
    }
}

pub open spec fn upper_all(s: Seq<char>) -> Seq<char> {
    s.map_values(|c: char| upper(c))
}

/// The instruction that a mnemonic names, with a zero operand where it
/// takes one.
pub open spec fn lookup(name: Seq<char>) -> Option<Op> {
    if name == op_name(Op::Push(0)) {
        Some(Op::Push(0))
    } else if name == op_name(Op::Pop) {
        Some(Op::Pop)
    } else if name == op_name(Op::Dup) {
        Some(Op::Dup)
    } else if name == op_name(Op::Swap) {
        Some(Op::Swap)
    } else if name == op_name(Op::Add) {
        Some(Op::Add)
    } else if name == op_name(Op::Sub) {
        Some(Op::Sub)
    } else if name == op_name(Op::Mul) {
        Some(Op::Mul)
    } else if name == op_name(Op::Div) {
        Some(Op::Div)
    } else if name == op_name(Op::Mod) {
        Some(Op::Mod)
    } else if name == op_name(Op::Neg) {
        Some(Op::Neg)
    } else if name == op_name(Op::Load(0)) {
        Some(Op::Load(0))
    } else if name == op_name(Op::Store(0)) {
        Some(Op::Store(0))
    } else if name == op_name(Op::Print) {
        Some(Op::Print)
    } else if name == op_name(Op::Halt) {
        Some(Op::Halt)
    } else {
        None
    }
}

/// The error for words after an instruction that takes no operand.
pub open spec fn extra_token_text(op: Op) -> Seq<char> {
    match op {
        Op::Push(_) => "unexpected token after PUSH operand"@,
        Op::Load(_) => "unexpected token after LOAD operand"@,
        Op::Store(_) => "unexpected token after STORE operand"@,
        Op::Pop => "unexpected token after POP"@,
        Op::Dup => "unexpected token after DUP"@,
        Op::Swap => "unexpected token after SWAP"@,
        Op::Add => "unexpected token after ADD"@,
        Op::Sub => "unexpected token after SUB"@,
        Op::Mul => "unexpected token after MUL"@,
        Op::Div => "unexpected token after DIV"@,
        Op::Mod => "unexpected token after MOD"@,
        Op::Neg => "unexpected token after NEG"@,
        Op::Print => "unexpected token after PRINT"@,
        Op::Halt => "unexpected token after HALT"@,
    }
}

/// The instruction named by `op` with the operand words `args`.
pub open spec fn parse_operands(op: Op, args: Seq<Seq<char>>) -> Result<Op, Seq<char>> {
    match op {
        Op::Push(_) => if args.len() == 0 {
            Err("missing operand for PUSH"@)
        } else if args.len() > 1 {
            Err(extra_token_text(op))
        } else {
            match parse_i64_value(args[0]) {
                Some(v) => Ok(Op::Push(v)),
                None => Err("invalid integer for PUSH"@),
            }
        },
        Op::Load(_) => if args.len() == 0 {
            Err("missing operand for LOAD"@)
        } else if args.len() > 1 {
            Err(extra_token_text(op))
        } else {
            match parse_u8_value(args[0]) {
                Some(i) => Ok(Op::Load(i)),
                None => Err("invalid slot for LOAD"@),
            }
        },
        Op::Store(_) => if args.len() == 0 {
            Err("missing operand for STORE"@)
        } else if args.len() > 1 {
            Err(extra_token_text(op))
        } else {
            match parse_u8_value(args[0]) {
                Some(i) => Ok(Op::Store(i)),
                None => Err("invalid slot for STORE"@),
            }
        },
        _ => if args.len() > 0 {
            Err(extra_token_text(op))
        } else {
            Ok(op)
        },
    }
}

/// One line of assembly: no instruction, an instruction, or the error text.
pub open spec fn parse_line(line: Seq<char>) -> Result<Option<Op>, Seq<char>> {
    let ws = words(code_part(line));
    if ws.len() == 0 {
        Ok(None)
    } else {
        let name = upper_all(ws[0]);
        match lookup(name) {
            None => Err("unknown instruction: "@ + name),
            Some(op) => match parse_operands(op, ws.drop_first()) {
                Ok(o) => Ok(Some(o)),
                Err(e) => Err(e),
            },
        }
    }
}

/// The instructions of a sequence of lines, or the error of the first line
/// that has one.
pub open spec fn parse_lines(ls: Seq<Seq<char>>) -> Result<Seq<Op>, Seq<char>>
    decreases ls.len(),
{
    if ls.len() == 0 {
        Ok(seq![])
    } else {
        match parse_line(ls[0]) {
            Err(e) => Err(e),
            Ok(None) => parse_lines(ls.drop_first()),
            Ok(Some(op)) => match parse_lines(ls.drop_first()) {
                Ok(rest) => Ok(seq![op] + rest),
                Err(e) => Err(e),
            },
        }
    }
}

/// The instructions of a program text.
pub open spec fn program(src: Seq<char>) -> Result<Seq<Op>, Seq<char>> {
    parse_lines(lines(src))
}

/// The bytecode of a program text, or the text of its first error.
pub open spec fn assembly(src: Seq<char>) -> Result<Seq<u8>, Seq<char>> {
    match program(src) {
        Ok(ops) => Ok(encode_all(ops)),
        Err(e) => Err(e),
    }
}

/// Characters that need no special treatment in a line: they are not
/// whitespace, comment or line markers, and upper case leaves them alone.
pub open spec fn plain(s: Seq<char>) -> bool {
    forall|k: int|
        0 <= k < s.len() ==> !is_ws(#[trigger] s[k]) && s[k] != ';' && s[k] != '\n' && upper(
            s[k],
        ) == s[k]
}

proof fn lemma_plain_name(op: Op)
    ensures
        plain(op_name(op)),
        op_name(op).len() > 0,
        upper_all(op_name(op)) == op_name(op),
{
    let s = op_name(op);
    assert forall|k: int| 0 <= k < s.len() implies 'A' <= #[trigger] s[k] <= 'Z' by {
        match op {
            Op::Push(_) => assert(s =~= seq!['P', 'U', 'S', 'H']),
            _ => {},
        }
    }
    assert(upper_all(s) =~= s);
}

proof fn lemma_plain_number(s: Seq<char>)
    requires
        forall|k: int| 0 <= k < s.len() ==> is_digit(#[trigger] s[k]) || s[k] == '-',
    ensures
        plain(s),
{
}

/// The text of an instruction reads back as that instruction.
pub proof fn lemma_parse_op_text(op: Op)
    ensures
        parse_line(op_text(op)) == Ok::<Option<Op>, Seq<char>>(Some(op)),
        forall|k: int| 0 <= k < op_text(op).len() ==> #[trigger] op_text(op)[k] != '\n',
{
    let name = op_name(op);
    let t = op_text(op);
    lemma_plain_name(op);
    match op {
        Op::Push(v) => {
            let num = dec_int(v as int);
            lemma_parse_dec_i64(v);
            if v < 0 {
                lemma_dec_digits((-v) as nat);
            } else {
                lemma_dec_digits(v as nat);
            }
            assert forall|k: int| 0 <= k < num.len() implies is_digit(#[trigger] num[k]) || num[k] == '-' by {
                if v < 0 && k > 0 {
                    assert(num[k] == dec_digits((-v) as nat)[k - 1]);
                }
            }
            lemma_plain_number(num);
            lemma_words_pair(name, num);
            assert forall|k: int| 0 <= k < t.len() implies #[trigger] t[k] != ';' && t[k] != '\n' by {
                if k < name.len() {
                    assert(t[k] == name[k]);
                } else if k > name.len() {
                    assert(t[k] == num[k - name.len() - 1]);
                }
            }
            lemma_code_part_plain(t);
            assert(seq![name, num].drop_first() =~= seq![num]);
        },
        Op::Load(i) | Op::Store(i) => {
            let num = dec_digits(i as nat);
            lemma_parse_dec_u8(i);
            lemma_dec_digits(i as nat);
            lemma_plain_number(num);
            lemma_words_pair(name, num);
            assert forall|k: int| 0 <= k < t.len() implies #[trigger] t[k] != ';' && t[k] != '\n' by {
                if k < name.len() {
                    assert(t[k] == name[k]);
                } else if k > name.len() {
                    assert(t[k] == num[k - name.len() - 1]);
                }
            }
            lemma_code_part_plain(t);
            assert(seq![name, num].drop_first() =~= seq![num]);
        },
        _ => {
            lemma_words_single(name);
            lemma_code_part_plain(t);
            assert(seq![name].drop_first() =~= Seq::<Seq<char>>::empty());
        },
    }
}

pub proof fn lemma_parse_lines_append(a: Seq<Seq<char>>, b: Seq<Seq<char>>)
    ensures
        parse_lines(a + b) == (match parse_lines(a) {
            Ok(x) => after(x, parse_lines(b)),
            Err(e) => Err(e),
        }),
    decreases a.len(),
{
    if a.len() == 0 {
        assert(a + b =~= b);
        match parse_lines(b) {
            Ok(y) => assert(Seq::<Op>::empty() + y =~= y),
            Err(_) => {},
        }
    } else {
        lemma_parse_lines_append(a.drop_first(), b);
        assert((a + b).drop_first() =~= a.drop_first() + b);
        assert((a + b)[0] == a[0]);
        match parse_line(a[0]) {
            Ok(Some(op)) => {
                match parse_lines(a.drop_first()) {
                    Ok(x) => match parse_lines(b) {
                        Ok(y) => assert(seq![op] + (x + y) =~= (seq![op] + x) + y),
                        Err(_) => {},
                    },
                    Err(_) => {},
                }
            },
            _ => {},
        }
    }
}

/// Mnemonics are read in any case: ASCII lower-case letters become the
/// upper-case ones, every other character stays.
pub proof fn law_upper(c: char)
    ensures
        'a' <= c <= 'z' ==> upper(c) as int == c as int - 32 && 'A' <= upper(c) <= 'Z',
        !('a' <= c <= 'z') ==> upper(c) == c,
{
}

fn to_upper(c: char) -> (u: char)
    ensures
        u == upper(c),
{
    if 'a' <= c && c <= 'z' {
        ((c as u8) - 32) as char
    } else {
        c
    }
}

fn upper_word(w: &Vec<char>) -> (u: Vec<char>)
    ensures
        u@ == upper_all(w@),
{
    let mut u: Vec<char> = Vec::new();
    for i in 0..w.len()
        invariant
            u@ =~= upper_all(w@.take(i as int)),
    {
        u.push(to_upper(w[i]));
        proof {
            assert(upper_all(w@.take(i + 1)) =~= upper_all(w@.take(i as int)).push(upper(w@[i as int])));
        }
    }
    proof {
        assert(w@.take(w.len() as int) =~= w@);
    }
    u
}

/// Whether the characters of `w` spell `name`.
fn spells(w: &Vec<char>, name: &str) -> (b: bool)
    ensures
        b == (w@ == name@),
{
    let n = name.unicode_len();
    if w.len() != n {
        return false;
    }
    for i in 0..n
        invariant
            n == name@.len(),
            w.len() == n,
            forall|k: int| 0 <= k < i ==> w@[k] == name@[k],
    {
        if w[i] != name.get_char(i) {
            return false;
        }
    }
    proof {
        assert(w@ =~= name@);
    }
    true
}

fn lookup_name(name: &Vec<char>) -> (r: Option<Op>)
    ensures
        r == lookup(name@),
{
    proof {
        reveal_strlit("PUSH");
        reveal_strlit("POP");
        reveal_strlit("DUP");
        reveal_strlit("SWAP");
        reveal_strlit("ADD");
        reveal_strlit("SUB");
        reveal_strlit("MUL");
        reveal_strlit("DIV");
        reveal_strlit("MOD");
        reveal_strlit("NEG");
        reveal_strlit("LOAD");
        reveal_strlit("STORE");
        reveal_strlit("PRINT");
        reveal_strlit("HALT");
        assert("PUSH"@ =~= op_name(Op::Push(0)));
        assert("POP"@ =~= op_name(Op::Pop));
        assert("DUP"@ =~= op_name(Op::Dup));
        assert("SWAP"@ =~= op_name(Op::Swap));
        assert("ADD"@ =~= op_name(Op::Add));
        assert("SUB"@ =~= op_name(Op::Sub));
        assert("MUL"@ =~= op_name(Op::Mul));
        assert("DIV"@ =~= op_name(Op::Div));
        assert("MOD"@ =~= op_name(Op::Mod));
        assert("NEG"@ =~= op_name(Op::Neg));
        assert("LOAD"@ =~= op_name(Op::Load(0)));
        assert("STORE"@ =~= op_name(Op::Store(0)));
        assert("PRINT"@ =~= op_name(Op::Print));
        assert("HALT"@ =~= op_name(Op::Halt));
    }
    if spells(name, "PUSH") {
        Some(Op::Push(0))
    } else if spells(name, "POP") {
        Some(Op::Pop)
    } else if spells(name, "DUP") {
        Some(Op::Dup)
    } else if spells(name, "SWAP") {
        Some(Op::Swap)
    } else if spells(name, "ADD") {
        Some(Op::Add)
    } else if spells(name, "SUB") {
        Some(Op::Sub)
    } else if spells(name, "MUL") {
        Some(Op::Mul)
    } else if spells(name, "DIV") {
        Some(Op::Div)
    } else if spells(name, "MOD") {
        Some(Op::Mod)
    } else if spells(name, "NEG") {
        Some(Op::Neg)
    } else if spells(name, "LOAD") {
        Some(Op::Load(0))
    } else if spells(name, "STORE") {
        Some(Op::Store(0))
    } else if spells(name, "PRINT") {
        Some(Op::Print)
    } else if spells(name, "HALT") {
        Some(Op::Halt)
    } else {
        None
    }
}

fn extra_token_error(op: Op) -> (s: String)
    ensures
        s@ == extra_token_text(op),
{
    String::from_str(
        match op {
            Op::Push(_) => "unexpected token after PUSH operand",
            Op::Load(_) => "unexpected token after LOAD operand",
            Op::Store(_) => "unexpected token after STORE operand",
            Op::Pop => "unexpected token after POP",
            Op::Dup => "unexpected token after DUP",
            Op::Swap => "unexpected token after SWAP",
            Op::Add => "unexpected token after ADD",
            Op::Sub => "unexpected token after SUB",
            Op::Mul => "unexpected token after MUL",
            Op::Div => "unexpected token after DIV",
            Op::Mod => "unexpected token after MOD",
            Op::Neg => "unexpected token after NEG",
            Op::Print => "unexpected token after PRINT",
            Op::Halt => "unexpected token after HALT",
        },
    )
}

fn operands(op: Op, ws: &Vec<Vec<char>>) -> (r: Result<Op, String>)
    requires
        ws.len() >= 1,
    ensures
        match parse_operands(op, view_all(ws@).drop_first()) {
            Ok(o) => r == Ok::<Op, String>(o),
            Err(e) => r is Err && r->Err_0@ == e,
        },
{
    let ghost args = view_all(ws@).drop_first();
    let n = ws.len() - 1;
    assert(args.len() == n);
    match op {
        Op::Push(_) | Op::Load(_) | Op::Store(_) => {
            if n == 0 {
                return Err(String::from_str(
                    match op {
                        Op::Push(_) => "missing operand for PUSH",
                        Op::Load(_) => "missing operand for LOAD",
                        _ => "missing operand for STORE",
                    },
                ));
            }
            if n > 1 {
                return Err(extra_token_error(op));
            }
            let arg = &ws[1];
            assert(args[0] == arg@);
            match op {
                Op::Push(_) => match parse_i64(arg) {
                    Some(v) => Ok(Op::Push(v)),
                    None => Err(String::from_str("invalid integer for PUSH")),
                },
                Op::Load(_) => match parse_u8(arg) {
                    Some(i) => Ok(Op::Load(i)),
                    None => Err(String::from_str("invalid slot for LOAD")),
                },
                _ => match parse_u8(arg) {
                    Some(i) => Ok(Op::Store(i)),
                    None => Err(String::from_str("invalid slot for STORE")),
                },
            }
        },
        _ => {
            if n > 0 {
                Err(extra_token_error(op))
            } else {
                Ok(op)
            }
        },
    }
}

/// Appends the characters of `v`.
fn push_all(out: &mut String, v: &Vec<char>)
    ensures
        final(out)@ == old(out)@ + v@,
{
    let ghost start = out@;
    for i in 0..v.len()
        invariant
            out@ =~= start + v@.take(i as int),
    {
        crate::numeral::push_char(out, v[i]);
        proof {
            assert(v@.take(i + 1) =~= v@.take(i as int).push(v@[i as int]));
        }
    }
    proof {
        assert(v@.take(v.len() as int) =~= v@);
    }
}

/// One line of assembly: no instruction, an instruction, or the error text.
pub fn assemble_line(line: &Vec<char>) -> (r: Result<Option<Op>, String>)
    ensures
        match parse_line(line@) {
            Ok(o) => r == Ok::<Option<Op>, String>(o),
            Err(e) => r is Err && r->Err_0@ == e,
        },
{
    let k = find_char(line, 0, ';');
    let code = slice_chars(line, 0, k);
    proof {
        assert(line@.skip(0) =~= line@);
        assert(code@ =~= code_part(line@));
    }
    let ws = split_words(&code);
    if ws.len() == 0 {
        return Ok(None);
    }
    let name = upper_word(&ws[0]);
    proof {
        assert(view_all(ws@)[0] == ws@[0]@);
    }
    match lookup_name(&name) {
        None => {
            let mut e = String::from_str("unknown instruction: ");
            push_all(&mut e, &name);
            Err(e)
        },
        Some(op) => match operands(op, &ws) {
            Ok(o) => Ok(Some(o)),
            Err(e) => Err(e),
        },
    }
}

/// The bytecode of a program text, or the text of its first error.
pub fn assemble_bytes(input: &str) -> (r: Result<Vec<u8>, String>)
    ensures
        match assembly(input@) {
            Ok(b) => r is Ok && r->Ok_0@ == b,
            Err(e) => r is Err && r->Err_0@ == e,
        },
{
    let cs = chars_of(input);
    let mut bytes: Vec<u8> = Vec::new();
    let mut i: usize = 0;
    let ghost done: Seq<Op> = seq![];
    proof {
        assert(cs@.skip(0) =~= cs@);
        match parse_lines(lines(cs@)) {
            Ok(all) => assert(done + all =~= all),
            Err(_) => {},
        }
    }
    loop
        invariant
            i <= cs.len(),
            cs@ == input@,
            program(input@) == after(done, parse_lines(lines(cs@.skip(i as int)))),
            bytes@ == encode_all(done),
        decreases cs.len() - i,
    {
        let j = find_char(&cs, i, '\n');
        let line = slice_chars(&cs, i, j);
        let ghost t = cs@.skip(i as int);
        let ghost ls = lines(t);
        proof {
            assert(t.take(j - i) =~= line@);
            if j < cs.len() {
                assert(t.skip(j - i + 1) =~= cs@.skip(j + 1));
                assert(ls == seq![line@] + lines(cs@.skip(j + 1)));
                assert(ls.drop_first() =~= lines(cs@.skip(j + 1)));
            } else {
                assert(t =~= line@);
                assert(ls == seq![line@]);
                assert(ls.drop_first() =~= Seq::<Seq<char>>::empty());
            }
            assert(ls[0] == line@);
        }
        match assemble_line(&line) {
            Err(e) => {
                return Err(e);
            },
            Ok(None) => {},
            Ok(Some(op)) => {
                op.encode(&mut bytes);
                proof {
                    lemma_encode_all_push(done, op);
                    match parse_lines(ls.drop_first()) {
                        Ok(rest) => {
                            assert(done + (seq![op] + rest) =~= done.push(op) + rest);
                        },
                        Err(_) => {},
                    }
                    done = done.push(op);
                }
            },
        }
        if j == cs.len() {
            proof {
                assert(parse_lines(ls.drop_first()) == Ok::<Seq<Op>, Seq<char>>(Seq::<Op>::empty()));
                assert(done + Seq::<Op>::empty() =~= done);
            }
            return Ok(bytes);
        }
        i = j + 1;
    }
}

/// Checks that a program text assembles: `Ok(())`, or the text of its
/// first error. The output name is not used; `assemble_bytes` gives the
/// bytecode.
pub fn assemble(input: &str, _output: &str) -> (r: Result<(), String>)
    ensures
        match assembly(input@) {
            Ok(_) => r is Ok,
            Err(e) => r is Err && r->Err_0@ == e,
        },
{
    match assemble_bytes(input) {
        Ok(_) => Ok(()),
        Err(e) => Err(e),
    }
}

} // verus!
