//! How assembling and disassembling undo each other.

use vstd::prelude::*;
use crate::assembler::{assembly, lemma_parse_lines_append, lemma_parse_op_text, parse_line, parse_lines, program};
use crate::disassembler::{disassembly, render_all};
use crate::isa::{decode_from, encode_all, lemma_encode_all_append, lemma_decode_encode_all, lemma_decode_from_faithful, op_text, Op};
use crate::text::{code_part, lemma_code_part_plain, lemma_lines_append, lines, not_newline, run_len, words};

verus! {

/// The text of a sequence of instructions reads back as that sequence.
pub proof fn lemma_program_render_all(ops: Seq<Op>)
    ensures
        program(render_all(ops)) == Ok::<Seq<Op>, Seq<char>>(ops),
    decreases ops.len(),
{
    if ops.len() == 0 {
        let e = Seq::<char>::empty();
        assert(render_all(ops) == e);
        lemma_code_part_plain(e);
        assert(words(e) == Seq::<Seq<char>>::empty());
        assert(parse_line(e) == Ok::<Option<Op>, Seq<char>>(None));
        assert(lines(e) == seq![e]);
        assert(lines(e).drop_first() =~= Seq::<Seq<char>>::empty());
        assert(lines(e)[0] == e);
        assert(parse_lines(lines(e)) == parse_lines(lines(e).drop_first()));
        assert(parse_lines(Seq::<Seq<char>>::empty()) == Ok::<Seq<Op>, Seq<char>>(Seq::<Op>::empty()));
        assert(ops =~= Seq::<Op>::empty());
    } else {
        let op = ops[0];
        let rest = ops.drop_first();
        lemma_parse_op_text(op);
        crate::text::lemma_lines_first(op_text(op), render_all(rest));
        lemma_program_render_all(rest);
        let ls = lines(render_all(ops));
        assert(ls == seq![op_text(op)] + lines(render_all(rest)));
        assert(ls.drop_first() =~= lines(render_all(rest)));
        assert(ls[0] == op_text(op));
        assert(parse_lines(ls) == Ok::<Seq<Op>, Seq<char>>(seq![op] + rest));
        assert(seq![op] + rest =~= ops);
    }
}

/// Assembly goes line by line: where the first text is empty or ends in a
/// newline, assembling two texts one after the other gives their
/// bytecodes one after the other.
pub proof fn law_assembly_joins(a: Seq<char>, b: Seq<char>)
    requires
        a.len() == 0 || a.last() == '\n',
        assembly(a) is Ok,
        assembly(b) is Ok,
    ensures
        assembly(a + b) == Ok::<Seq<u8>, Seq<char>>(assembly(a)->Ok_0 + assembly(b)->Ok_0),
{
    let x = program(a)->Ok_0;
    let y = program(b)->Ok_0;
    lemma_encode_all_append(x, y);
    if a.len() == 0 {
        assert(a + b =~= b);
        let e = Seq::<char>::empty();
        lemma_code_part_plain(e);
        assert(words(e) == Seq::<Seq<char>>::empty());
        assert(run_len(e, not_newline()) == 0);
        assert(lines(e) == seq![e]);
        assert(lines(e).drop_first() =~= Seq::<Seq<char>>::empty());
        assert(lines(e)[0] == e);
        assert(parse_line(e) == Ok::<Option<Op>, Seq<char>>(None));
        assert(parse_lines(lines(e)) == parse_lines(lines(e).drop_first()));
        assert(parse_lines(Seq::<Seq<char>>::empty()) == Ok::<Seq<Op>, Seq<char>>(Seq::<Op>::empty()));
        assert(a =~= e);
        assert(x =~= Seq::<Op>::empty());
        assert(x + y =~= y);
        assert(encode_all(x) == Seq::<u8>::empty());
        assert(encode_all(x) + encode_all(y) =~= encode_all(y));
    } else {
        lemma_lines_append(a, b);
        let la = lines(a);
        let e = Seq::<char>::empty();
        lemma_code_part_plain(e);
        assert(words(e) == Seq::<Seq<char>>::empty());
        assert(parse_line(e) == Ok::<Option<Op>, Seq<char>>(None));
        assert(seq![e].drop_first() =~= Seq::<Seq<char>>::empty());
        assert(parse_lines(seq![e]) == Ok::<Seq<Op>, Seq<char>>(Seq::<Op>::empty()));
        assert(la =~= la.drop_last() + seq![e]);
        lemma_parse_lines_append(la.drop_last(), seq![e]);
        lemma_parse_lines_append(la.drop_last(), lines(b));
        let x0 = parse_lines(la.drop_last());
        assert(x0 is Ok) by {
            if x0 is Err {
                assert(parse_lines(la) is Err);
            }
        }
        assert(x0->Ok_0 + Seq::<Op>::empty() =~= x0->Ok_0);
        assert(x0->Ok_0 == x);
    }
}

/// Disassembling bytecode and assembling the text gives the same bytes.
pub proof fn law_disassemble_then_assemble(code: Seq<u8>)
    requires
        disassembly(code) is Ok,
    ensures
        assembly(disassembly(code)->Ok_0) == Ok::<Seq<u8>, Seq<char>>(code),
{
    let ops = decode_from(code, 0)->Ok_0;
    lemma_program_render_all(ops);
    lemma_decode_from_faithful(code, 0);
    assert(code.skip(0) =~= code);
}

/// Whatever assembles also disassembles, into the text of the same
/// instructions, and that text assembles into the very same bytes.
pub proof fn law_assemble_then_disassemble(src: Seq<char>)
    requires
        assembly(src) is Ok,
    ensures
        disassembly(assembly(src)->Ok_0) == Ok::<Seq<char>, Seq<char>>(render_all(program(src)->Ok_0)),
        assembly(disassembly(assembly(src)->Ok_0)->Ok_0) == assembly(src),
{
    let ops = program(src)->Ok_0;
    let code = encode_all(ops);
    lemma_decode_encode_all(Seq::<u8>::empty(), ops);
    assert(Seq::<u8>::empty() + code =~= code);
    law_disassemble_then_assemble(code);
}

/// The number of newline characters in `t`.
pub open spec fn newline_count(t: Seq<char>) -> nat
    decreases t.len(),
{
    if t.len() == 0 {
        0
    } else {
        (if t[0] == '\n' {
            1nat
        } else {
            0nat
        }) + newline_count(t.drop_first())
    }
}

/// The number of lines that hold an instruction: neither blank nor only a
/// comment.
pub open spec fn instruction_line_count(ls: Seq<Seq<char>>) -> nat
    decreases ls.len(),
{
    if ls.len() == 0 {
        0
    } else {
        (if words(code_part(ls[0])).len() > 0 {
            1nat
        } else {
            0nat
        }) + instruction_line_count(ls.drop_first())
    }
}

proof fn lemma_newline_count_append(a: Seq<char>, b: Seq<char>)
    ensures
        newline_count(a + b) == newline_count(a) + newline_count(b),
    decreases a.len(),
{
    if a.len() == 0 {
        assert(a + b =~= b);
    } else {
        lemma_newline_count_append(a.drop_first(), b);
        assert((a + b).drop_first() =~= a.drop_first() + b);
        assert((a + b)[0] == a[0]);
    }
}

proof fn lemma_newline_count_none(a: Seq<char>)
    requires
        forall|k: int| 0 <= k < a.len() ==> #[trigger] a[k] != '\n',
    ensures
        newline_count(a) == 0,
    decreases a.len(),
{
    if a.len() > 0 {
        assert forall|k: int| 0 <= k < a.drop_first().len() implies #[trigger] a.drop_first()[k] != '\n' by {
            assert(a.drop_first()[k] == a[k + 1]);
        }
        lemma_newline_count_none(a.drop_first());
    }
}

proof fn lemma_render_all_lines(ops: Seq<Op>)
    ensures
        newline_count(render_all(ops)) == ops.len(),
        ops.len() > 0 ==> render_all(ops).len() > 0 && render_all(ops).last() == '\n',
    decreases ops.len(),
{
    if ops.len() > 0 {
        let rest = ops.drop_first();
        lemma_render_all_lines(rest);
        lemma_parse_op_text(ops[0]);
        let t = op_text(ops[0]);
        lemma_newline_count_none(t);
        let nl = seq!['\n'];
        assert(nl.drop_first() =~= Seq::<char>::empty());
        assert(nl[0] == '\n');
        assert(newline_count(Seq::<char>::empty()) == 0);
        assert(newline_count(nl) == 1 + newline_count(nl.drop_first()));
        assert(newline_count(nl) == 1);
        lemma_newline_count_append(t, nl);
        lemma_newline_count_append(t + nl, render_all(rest));
        let r = render_all(ops);
        assert(r == t + nl + render_all(rest));
        if rest.len() == 0 {
            assert(render_all(rest) == Seq::<char>::empty());
            assert(r =~= t + nl);
        }
    }
}

proof fn lemma_parse_lines_count(ls: Seq<Seq<char>>)
    requires
        parse_lines(ls) is Ok,
    ensures
        parse_lines(ls)->Ok_0.len() == instruction_line_count(ls),
    decreases ls.len(),
{
    if ls.len() > 0 {
        lemma_parse_lines_count(ls.drop_first());
    }
}

/// A text that assembles disassembles into one newline-ended line for each
/// of its lines that holds an instruction.
pub proof fn law_one_line_per_instruction(src: Seq<char>)
    requires
        assembly(src) is Ok,
    ensures
        disassembly(assembly(src)->Ok_0) is Ok,
        newline_count(disassembly(assembly(src)->Ok_0)->Ok_0) == instruction_line_count(lines(src)),
        disassembly(assembly(src)->Ok_0)->Ok_0.len() == 0 || disassembly(
            assembly(src)->Ok_0,
        )->Ok_0.last() == '\n',
{
    law_assemble_then_disassemble(src);
    let ops = program(src)->Ok_0;
    lemma_parse_lines_count(lines(src));
    lemma_render_all_lines(ops);
}

} // verus!
