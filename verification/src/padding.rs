//! Writing data aligned to block boundaries, padded with zeros.

use vstd::prelude::*;

use crate::encoding::{push_bytes, push_repeated, zeros};
use crate::generic::WriteError;

verus! {

/// How many zero bytes bring offset `end` up to the next multiple of
/// `alignment` (none if it is already a multiple).
pub open spec fn padding_for(end: int, alignment: int) -> int {
    if end % alignment != 0 {
        alignment - end % alignment
    } else {
        0
    }
}

/// The padding is always less than one alignment block, and reaches a
/// multiple of the alignment.
pub proof fn lemma_padding_for(end: int, alignment: int)
    requires
        0 <= end,
        0 < alignment,
    ensures
        0 <= padding_for(end, alignment) < alignment,
        (end + padding_for(end, alignment)) % alignment == 0,
{
    assert((end + padding_for(end, alignment)) % alignment == 0) by (nonlinear_arith)
        requires
            0 <= end,
            0 < alignment,
            padding_for(end, alignment) == (if end % alignment != 0 {
                alignment - end % alignment
            } else {
                0
            }),
    ;
}

pub(crate) fn padding_needed(end: usize, alignment: usize) -> (padding: usize)
    requires
        alignment > 0,
    ensures
        padding == padding_for(end as int, alignment as int),
{
    if end % alignment != 0 {
        alignment - end % alignment
    } else {
        0
    }
}

/// Writes `bytes` to `output`, padded with trailing zeroes to the next
/// multiple of `alignment`. Returns the range that `bytes` was written to in
/// `output`, excluding the padding.
pub fn write_aligned_pad_end(output: &mut Vec<u8>, bytes: &[u8], alignment: usize) -> (written:
    Result<core::ops::Range<usize>, WriteError>)
    requires
        alignment > 0,
        old(output)@.len() + bytes@.len() + alignment <= usize::MAX,
    ensures
        written matches Ok(range) && range.start == old(output)@.len() && range.end == old(
            output,
        )@.len() + bytes@.len(),
        final(output)@ == old(output)@ + bytes@ + zeros(
            padding_for((old(output)@.len() + bytes@.len()) as int, alignment as int) as nat,
        ),
        final(output)@.len() as int % (alignment as int) == 0,
{
    let index_before_data = output.len();
    push_bytes(output, bytes);
    let index_after_data = output.len();
    let padding = padding_needed(index_after_data, alignment);
    proof {
        lemma_padding_for(index_after_data as int, alignment as int);
    }
    push_repeated(output, 0, padding);
    Ok(index_before_data..index_after_data)
}

/// Writes `bytes` to `output`, padded with leading zeroes so that `bytes`
/// ends at a multiple of `alignment`. Returns the range that `bytes` was
/// written to in `output`, excluding the padding.
pub fn write_aligned_pad_start(output: &mut Vec<u8>, bytes: &[u8], alignment: usize) -> (written:
    Result<core::ops::Range<usize>, WriteError>)
    requires
        alignment > 0,
        old(output)@.len() + bytes@.len() + alignment <= usize::MAX,
    ensures
        ({
            let padding = padding_for((old(output)@.len() + bytes@.len()) as int, alignment as int);
            written matches Ok(range) && range.start == old(output)@.len() + padding && range.end == old(
                output,
            )@.len() + padding + bytes@.len()
        }),
        final(output)@ == old(output)@ + zeros(
            padding_for((old(output)@.len() + bytes@.len()) as int, alignment as int) as nat,
        ) + bytes@,
        final(output)@.len() as int % (alignment as int) == 0,
{
    let end = output.len() + bytes.len();
    let padding = padding_needed(end, alignment);
    proof {
        lemma_padding_for(end as int, alignment as int);
    }
    push_repeated(output, 0, padding);
    let index_before_data = output.len();
    push_bytes(output, bytes);
    let index_after_data = output.len();
    Ok(index_before_data..index_after_data)
}

} // verus!
