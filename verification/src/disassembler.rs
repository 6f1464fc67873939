//! Turning bytecode back into assembly text.

use vstd::prelude::*;
use crate::isa::{after, decode_error_text, decode_from, op_text, spec_decode, lemma_decode_advances, DecodeError, Op};

verus! {

/// The assembly text of a sequence of instructions: one line each, every
/// line ended by a newline.
pub open spec fn render_all(ops: Seq<Op>) -> Seq<char>
    decreases ops.len(),
{
    if ops.len() == 0 {
        seq![]
    } else {
        op_text(ops[0]) + seq!['\n'] + render_all(ops.drop_first())
    }
}

/// What disassembling `code` gives: the text of its instructions, or the
/// text of the first decoding error.
pub open spec fn disassembly(code: Seq<u8>) -> Result<Seq<char>, Seq<char>> {
    match decode_from(code, 0) {
        Ok(ops) => Ok(render_all(ops)),
        Err(e) => Err(decode_error_text(e)),
    }
}

pub proof fn lemma_render_push(ops: Seq<Op>, op: Op)
    ensures
        render_all(ops.push(op)) == render_all(ops) + op_text(op) + seq!['\n'],
    decreases ops.len(),
{
    if ops.len() == 0 {
        assert(ops.push(op).drop_first() =~= Seq::<Op>::empty());
        assert(ops.push(op)[0] == op);
        assert(render_all(Seq::<Op>::empty()) == Seq::<char>::empty());
        assert(render_all(ops) == Seq::<char>::empty());
        assert(render_all(ops.push(op)) =~= op_text(op) + seq!['\n'] + Seq::<char>::empty());
    } else {
        lemma_render_push(ops.drop_first(), op);
        assert(ops.push(op).drop_first() =~= ops.drop_first().push(op));
        assert(render_all(ops.push(op)) =~= render_all(ops) + op_text(op) + seq!['\n']);
    }
}

/// The assembly text of `code`, one instruction per line, or the text of
/// the first decoding error.
pub fn disassemble(code: &[u8]) -> (r: Result<String, String>)
    ensures
        match disassembly(code@) {
            Ok(t) => r is Ok && r->Ok_0@ == t,
            Err(m) => r is Err && r->Err_0@ == m,
        },
{
    let mut out = String::new();
    let mut ip: usize = 0;
    let ghost done: Seq<Op> = seq![];
    proof {
        assert(done + Seq::<Op>::empty() =~= Seq::<Op>::empty());
        match decode_from(code@, 0) {
            Ok(all) => assert(done + all =~= all),
            Err(_) => {},
        }
    }
    while ip < code.len()
        invariant
            ip <= code.len(),
            decode_from(code@, 0) == after(done, decode_from(code@, ip as int)),
            out@ == render_all(done),
        decreases code.len() - ip,
    {
        proof {
            lemma_decode_advances(code@, ip as int);
        }
        match Op::decode_op(code, ip) {
            Err(e) => {
                return Err(e.message());
            },
            Ok((op, next)) => {
                let line = op.format_op();
                out.append(line.as_str());
                out.append("\n");
                proof {
                    reveal_strlit("\n");
                    lemma_render_push(done, op);
                    match decode_from(code@, next as int) {
                        Ok(rest) => {
                            assert(done + (seq![op] + rest) =~= done.push(op) + rest);
                        },
                        Err(_) => {},
                    }
                    done = done.push(op);
                }
                ip = next;
            },
        }
    }
    proof {
        assert(done + Seq::<Op>::empty() =~= done);
    }
    Ok(out)
}

} // verus!
