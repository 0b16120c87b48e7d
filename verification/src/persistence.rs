//! Where chunks are stored: one file for each chunk, named by the chunk's
//! position.

use vstd::prelude::*;
use vstd::string::StringExecFns;
use crate::chunk::{ChunkView, CompressedChunk, DecodeError, COMPRESSION_LEVEL};
use crate::chunk::{decode_compressed, encode_chunk};
use crate::loaded_chunks::LoadedChunks;
use crate::lz4_block::lz4_block_compressed;
use crate::position::IVec3;

verus! {

/// The character of the digit `d`.
pub open spec fn digit_char(d: int) -> char {
    if d == 0 {
        '0'
    } else if d == 1 {
        '1'
    } else if d == 2 {
        '2'
    } else if d == 3 {
        '3'
    } else if d == 4 {
        '4'
    } else if d == 5 {
        '5'
    } else if d == 6 {
        '6'
    } else if d == 7 {
        '7'
    } else if d == 8 {
        '8'
    } else {
        '9'
    }
}

/// The decimal digits of `n`, which is not negative, without leading zeros.
pub open spec fn digits(n: int) -> Seq<char>
    decreases n,
{
    if n < 10 {
        seq![digit_char(n)]
    } else {
        digits(n / 10).push(digit_char(n % 10))
    }
}

/// `n` in decimal, with a minus sign in front where it is negative.
pub open spec fn decimal(n: int) -> Seq<char> {
    if n < 0 {
        seq!['-'] + digits(-n)
    } else {
        digits(n)
    }
}

/// The name of the file that holds the chunk at `pos`: `saves/chunk_`, the
/// three coordinates in decimal with `_` between them, and `.chunk`.
pub open spec fn spec_chunk_file_name(pos: IVec3) -> Seq<char> {
    "saves/chunk_"@ + decimal(pos.x as int) + "_"@ + decimal(pos.y as int) + "_"@ + decimal(
        pos.z as int,
    ) + ".chunk"@
}

/// The digit `d` as a string.
fn digit_str(d: u64) -> (s: &'static str)
    requires
        d < 10,
    ensures
        s@ == seq![digit_char(d as int)],
{
    proof {
        reveal_strlit("0");
        reveal_strlit("1");
        reveal_strlit("2");
        reveal_strlit("3");
        reveal_strlit("4");
        reveal_strlit("5");
        reveal_strlit("6");
        reveal_strlit("7");
        reveal_strlit("8");
        reveal_strlit("9");
    }
    let s = if d == 0 {
        "0"
    } else if d == 1 {
        "1"
    } else if d == 2 {
        "2"
    } else if d == 3 {
        "3"
    } else if d == 4 {
        "4"
    } else if d == 5 {
        "5"
    } else if d == 6 {
        "6"
    } else if d == 7 {
        "7"
    } else if d == 8 {
        "8"
    } else {
        "9"
    };
    assert(s@ =~= seq![digit_char(d as int)]);
    s
}

/// Appends the decimal digits of `n` to `out`.
fn push_digits(out: &mut String, n: u64)
    ensures
        final(out)@ == old(out)@ + digits(n as int),
    decreases n,
{
    if n >= 10 {
        push_digits(out, n / 10);
    }
    out.append(digit_str(n % 10));
    proof {
        if n >= 10 {
            assert(out@ =~= old(out)@ + digits(n as int));
        } else {
            assert(out@ =~= old(out)@ + digits(n as int));
        }
    }
}

/// Appends `n` in decimal to `out`.
fn push_decimal(out: &mut String, n: i32)
    ensures
        final(out)@ == old(out)@ + decimal(n as int),
{
    if n < 0 {
        proof {
            reveal_strlit("-");
        }
        out.append("-");
        push_digits(out, (-(n as i64)) as u64);
        assert(out@ =~= old(out)@ + decimal(n as int));
    } else {
        push_digits(out, n as u64);
    }
}

/// The name of the file that holds the chunk at `pos`.
pub fn chunk_file_name(pos: IVec3) -> (name: String)
    ensures
        name@ == spec_chunk_file_name(pos),
{
    let mut name = String::from_str("saves/chunk_");
    push_decimal(&mut name, pos.x);
    name.append("_");
    push_decimal(&mut name, pos.y);
    name.append("_");
    push_decimal(&mut name, pos.z);
    name.append(".chunk");
    assert(name@ =~= spec_chunk_file_name(pos));
    name
}

/// A chunk as it goes to its file.
pub struct SavedChunk {
    /// Name of the file.
    pub name: String,
    /// What the file is to hold: the chunk in compressed form.
    pub payload: CompressedChunk,
}

/// What is to be written when the server saves: for every loaded chunk, in
/// the order of the ids, the name of its file and the chunk in compressed
/// form, with all the edits that it has seen.
pub fn save_all(world: &LoadedChunks) -> (files: Vec<SavedChunk>)
    ensures
        files@.len() == world@.len(),
        forall|i: int|
            0 <= i < files@.len() ==> {
                &&& (#[trigger] files@[i]).name@ == spec_chunk_file_name(world@[i].chunk.pos)
                &&& files@[i].payload@ == lz4_block_compressed(
                    encode_chunk(world@[i].chunk),
                    COMPRESSION_LEVEL as int,
                )
                &&& decode_compressed(files@[i].payload@) == Ok::<ChunkView, DecodeError>(
                    world@[i].chunk.detached(),
                )
            },
{
    let mut files: Vec<SavedChunk> = Vec::new();
    let mut id: usize = 0;
    while id < world.len()
        invariant
            id <= world@.len(),
            files@.len() == id,
            forall|i: int|
                0 <= i < files@.len() ==> {
                    &&& (#[trigger] files@[i]).name@ == spec_chunk_file_name(world@[i].chunk.pos)
                    &&& files@[i].payload@ == lz4_block_compressed(
                        encode_chunk(world@[i].chunk),
                        COMPRESSION_LEVEL as int,
                    )
                    &&& decode_compressed(files@[i].payload@) == Ok::<ChunkView, DecodeError>(
                        world@[i].chunk.detached(),
                    )
                },
        decreases world@.len() - id,
    {
        let chunk = world.get(id).read_chunk();
        files.push(SavedChunk { name: chunk_file_name(chunk.pos()), payload: chunk.compress() });
        id += 1;
    }
    files
}

} // verus!
