//! The command line's help text.

use vstd::prelude::*;

verus! {

pub open spec fn usage_text() -> Seq<char> {
    "Usage:\n    minivm asm <input.tasm> -o <output.tbc>\n    minivm run <input.tbc>\n    minivm run --trace <input.tbc>\n    minivm dis <input.tbc>\n"@
}

/// How to call the program.
pub fn usage() -> (s: String)
    ensures
        s@ == usage_text(),
{
    String::from_str(
        "Usage:\n    minivm asm <input.tasm> -o <output.tbc>\n    minivm run <input.tbc>\n    minivm run --trace <input.tbc>\n    minivm dis <input.tbc>\n",
    )
}

} // verus!
