//! The bytecode file format: a four-byte magic number, a version byte, the
//! code length as four little-endian bytes, then the code itself.

use vstd::prelude::*;
use vstd::bytes::{spec_u32_from_le_bytes, spec_u32_to_le_bytes, u32_from_le_bytes, u32_to_le_bytes};

verus! {

pub const VERSION: u8 = 1;

pub open spec fn magic() -> Seq<u8> {
    seq![0x4Du8, 0x56u8, 0x4Du8, 0x00u8]
}

/// The file that holds `code`. The length field holds the code length
/// modulo 2^32.
pub open spec fn container(code: Seq<u8>) -> Seq<u8> {
    magic() + seq![VERSION] + spec_u32_to_le_bytes(code.len() as u32) + code
}

/// What reading a file gives: its code, or the text of why it is refused.
pub open spec fn read_container(file: Seq<u8>) -> Result<Seq<u8>, Seq<char>> {
    if file.len() < 9 {
        Err("failed to read header: failed to fill whole buffer"@)
    } else if file.take(4) != magic() {
        Err("invalid magic"@)
    } else if file[4] != VERSION {
        Err("unsupported version"@)
    } else {
        let n = spec_u32_from_le_bytes(file.subrange(5, 9)) as int;
        if file.len() - 9 < n {
            Err("failed to read code: failed to fill whole buffer"@)
        } else if file.len() - 9 > n {
            Err("extra bytes after code"@)
        } else {
            Ok(file.skip(9))
        }
    }
}

/// The bytes of the file that holds `code`.
pub fn write_bytecode(code: &[u8]) -> (file: Vec<u8>)
    ensures
        file@ == container(code@),
{
    let mut file: Vec<u8> = Vec::new();
    file.push(0x4D);
    file.push(0x56);
    file.push(0x4D);
    file.push(0x00);
    file.push(VERSION);
    #[verifier::truncate]
    let len = code.len() as u32;
    let mut length = u32_to_le_bytes(len);
    file.append(&mut length);
    let mut i: usize = 0;
    let ghost head = file@;
    while i < code.len()
        invariant
            i <= code.len(),
            file@ == head + code@.take(i as int),
        decreases code.len() - i,
    {
        file.push(code[i]);
        i = i + 1;
        proof {
            assert(code@.take(i as int) =~= code@.take(i - 1).push(code@[i - 1]));
        }
    }
    proof {
        assert(code@.take(i as int) =~= code@);
        assert(file@ =~= container(code@));
    }
    file
}

/// The code held by a bytecode file, or the text of why the file is refused.
pub fn read_bytecode(file: &[u8]) -> (r: Result<Vec<u8>, String>)
    ensures
        match read_container(file@) {
            Ok(c) => r is Ok && r->Ok_0@ == c,
            Err(e) => r is Err && r->Err_0@ == e,
        },
{
    if file.len() < 9 {
        return Err(String::from_str("failed to read header: failed to fill whole buffer"));
    }
    if file[0] != 0x4D || file[1] != 0x56 || file[2] != 0x4D || file[3] != 0x00 {
        proof {
            assert(file@.take(4) != magic()) by {
                if file@.take(4) == magic() {
                    assert(file@.take(4)[0] == file@[0]);
                    assert(file@.take(4)[1] == file@[1]);
                    assert(file@.take(4)[2] == file@[2]);
                    assert(file@.take(4)[3] == file@[3]);
                }
            }
        }
        return Err(String::from_str("invalid magic"));
    }
    proof {
        assert(file@.take(4) =~= magic());
    }
    if file[4] != VERSION {
        return Err(String::from_str("unsupported version"));
    }
    let header = vstd::slice::slice_subrange(file, 5, 9);
    let n = u32_from_le_bytes(header) as usize;
    if file.len() - 9 < n {
        return Err(String::from_str("failed to read code: failed to fill whole buffer"));
    }
    if file.len() - 9 > n {
        return Err(String::from_str("extra bytes after code"));
    }
    let code = vstd::slice::slice_to_vec(vstd::slice::slice_subrange(file, 9, file.len()));
    proof {
        assert(code@ =~= file@.skip(9));
    }
    Ok(code)
}

/// The layout of a written file: the bytes 4D 56 4D 00, the version 1,
/// the code length as four little-endian bytes, then the code as it is.
pub proof fn law_container_layout(code: Seq<u8>)
    ensures
        container(code).len() == code.len() + 9,
        container(code).take(5) == seq![0x4Du8, 0x56u8, 0x4Du8, 0x00u8, 0x01u8],
        container(code).subrange(5, 9) == spec_u32_to_le_bytes(code.len() as u32),
        container(code).skip(9) == code,
{
    vstd::bytes::lemma_auto_spec_u32_to_from_le_bytes();
    let f = container(code);
    let len = spec_u32_to_le_bytes(code.len() as u32);
    assert(f.take(5) =~= seq![0x4Du8, 0x56u8, 0x4Du8, 0x00u8, 0x01u8]);
    assert(f.subrange(5, 9) =~= len);
    assert(f.skip(9) =~= code);
}

/// A file with the right magic, version and length gives back the bytes
/// after its header, in order.
pub proof fn law_read_well_formed(c: Seq<u8>)
    requires
        c.len() <= u32::MAX,
    ensures
        read_container(
            seq![0x4Du8, 0x56u8, 0x4Du8, 0x00u8, 0x01u8] + spec_u32_to_le_bytes(c.len() as u32) + c,
        ) == Ok::<Seq<u8>, Seq<char>>(c),
{
    vstd::bytes::lemma_auto_spec_u32_to_from_le_bytes();
    let f = seq![0x4Du8, 0x56u8, 0x4Du8, 0x00u8, 0x01u8] + spec_u32_to_le_bytes(c.len() as u32) + c;
    assert(f.take(4) =~= magic());
    assert(f[4] == VERSION);
    assert(f.subrange(5, 9) =~= spec_u32_to_le_bytes(c.len() as u32));
    assert(f.skip(9) =~= c);
}

/// Reading the file written for some code gives that code back.
pub proof fn law_read_written(code: Seq<u8>)
    requires
        code.len() <= u32::MAX,
    ensures
        read_container(container(code)) == Ok::<Seq<u8>, Seq<char>>(code),
{
    vstd::bytes::lemma_auto_spec_u32_to_from_le_bytes();
    let f = container(code);
    let len = spec_u32_to_le_bytes(code.len() as u32);
    assert(f.take(4) =~= magic());
    assert(f[4] == VERSION);
    assert(f.subrange(5, 9) =~= len);
    assert(f.skip(9) =~= code);
}

} // verus!
