//! Deflate streams made of stored (uncompressed) blocks.

use vstd::prelude::*;

use crate::encoding::{push_byte, push_range, push_u16_le};
use crate::generic::WriteError;
use crate::png::writing::{stored_block, stored_blocks, stored_blocks_from, STORED_BLOCK_MAX};

verus! {

/// How deflate data is produced.
#[derive(Debug, Clone, Copy, PartialEq, Eq, PartialOrd, Ord, Hash, Default)]
pub enum DeflateMode {
    /// Stored blocks of at most 65535 bytes each, without compression.
    #[default]
    Stored,
}

/// Writes `data` as stored deflate blocks (see [`stored_blocks`]), returning
/// the number of bytes written.
pub fn write_deflate(output: &mut Vec<u8>, data: &[u8]) -> (written: Result<usize, WriteError>)
    ensures
        final(output)@ == old(output)@ + stored_blocks(data@),
        written == Ok::<usize, WriteError>(stored_blocks(data@).len() as usize),
{
    let before = output.len();
    let mut i: usize = 0;
    while i < data.len()
        invariant
            i <= data@.len(),
            output@ + stored_blocks_from(data@, i as int) == old(output)@ + stored_blocks(data@),
        decreases data@.len() - i,
    {
        let ghost prefix = output@;
        let end: usize = if data.len() - i <= STORED_BLOCK_MAX {
            data.len()
        } else {
            i + STORED_BLOCK_MAX
        };
        let is_last = end == data.len();
        let length: u16 = (end - i) as u16;
        push_byte(output, if is_last { 1 } else { 0 });
        push_u16_le(output, length);
        push_u16_le(output, 0xFFFF - length);
        push_range(output, data, i, end);
        proof {
            let block = stored_block(is_last, data@.subrange(i as int, end as int));
            assert(output@ == prefix + block);
            assert(stored_blocks_from(data@, i as int) == block + stored_blocks_from(
                data@,
                end as int,
            ));
            assert(prefix + (block + stored_blocks_from(data@, end as int)) == output@
                + stored_blocks_from(data@, end as int));
        }
        i = end;
    }
    assert(stored_blocks_from(data@, i as int) == Seq::<u8>::empty());
    assert(output@ == old(output)@ + stored_blocks(data@));
    let after = output.len();
    Ok(after - before)
}

} // verus!
