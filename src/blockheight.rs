//! How many GOBs a block holds: the block height inferred for the base
//! mipmap, the block height of each smaller mipmap, and the block depth.
use crate::arith::{div_round_up, spec_div_round_up};
use crate::{is_block_height_value, BlockHeight, GOB_HEIGHT_IN_BYTES};
use vstd::prelude::*;

verus! {

/// The block height inferred from the height of the base mipmap (in rows of
/// pixels or compression blocks): the largest of 1, 2, 4, 8 and 16 GOBs that
/// does not exceed the height counted in GOBs.
pub open spec fn spec_block_height_mip0(height: int) -> BlockHeight {
    let gobs = spec_div_round_up(height, 8);
    if gobs >= 16 {
        BlockHeight::Sixteen
    } else if gobs >= 8 {
        BlockHeight::Eight
    } else if gobs >= 4 {
        BlockHeight::Four
    } else if gobs >= 2 {
        BlockHeight::Two
    } else {
        BlockHeight::One
    }
}

/// The block height of a mipmap of `mip_height` rows: the base block height
/// halved while half a block would still cover every row.
pub open spec fn spec_mip_block_height(mip_height: int, block_height: nat) -> nat
    decreases block_height,
{
    if block_height > 1 && mip_height <= (block_height / 2) * 8 {
        spec_mip_block_height(mip_height, block_height / 2)
    } else {
        block_height
    }
}

/// The block depth of a mipmap of `depth` slices: the largest of 1, 2, 4, 8,
/// 16 and 32 that does not exceed the depth.
pub open spec fn spec_block_depth(depth: int) -> nat {
    if depth >= 32 {
        32
    } else if depth >= 16 {
        16
    } else if depth >= 8 {
        8
    } else if depth >= 4 {
        4
    } else if depth >= 2 {
        2
    } else {
        1
    }
}

/// A block height halved from a legal one is legal.
pub proof fn lemma_mip_block_height_legal(mip_height: int, block_height: nat)
    requires
        is_block_height_value(block_height as int),
    ensures
        is_block_height_value(spec_mip_block_height(mip_height, block_height) as int),
        spec_mip_block_height(mip_height, block_height) <= block_height,
    decreases block_height,
{
    if block_height > 1 && mip_height <= (block_height / 2) * 8 {
        lemma_mip_block_height_legal(mip_height, block_height / 2);
    }
}

/// Infers the block height of the base mipmap from its height in rows of
/// pixels or compression blocks.
pub fn block_height_mip0(height: usize) -> (r: BlockHeight)
    ensures
        r == spec_block_height_mip0(height as int),
{
    let gobs = div_round_up(height, GOB_HEIGHT_IN_BYTES);
    if gobs >= 16 {
        BlockHeight::Sixteen
    } else if gobs >= 8 {
        BlockHeight::Eight
    } else if gobs >= 4 {
        BlockHeight::Four
    } else if gobs >= 2 {
        BlockHeight::Two
    } else {
        BlockHeight::One
    }
}

/// The block height of a mipmap whose height is `mip_height` rows, given the
/// block height of the base mipmap.
pub fn mip_block_height(mip_height: usize, block_height_mip0: BlockHeight) -> (r: BlockHeight)
    ensures
        r.spec_value() == spec_mip_block_height(mip_height as int, block_height_mip0.spec_value()),
{
    let mut block_height = block_height_mip0.value();
    while block_height > 1 && mip_height <= (block_height / 2) * 8
        invariant
            is_block_height_value(block_height as int),
            spec_mip_block_height(mip_height as int, block_height as nat)
                == spec_mip_block_height(mip_height as int, block_height_mip0.spec_value()),
        decreases block_height,
    {
        block_height = block_height / 2;
    }
    match BlockHeight::new(block_height) {
        Ok(b) => b,
        Err(_) => BlockHeight::One,
    }
}

/// The block depth of a mipmap of `depth` slices.
pub fn block_depth(depth: usize) -> (r: usize)
    ensures
        r == spec_block_depth(depth as int),
        1 <= r <= 32,
{
    if depth >= 32 {
        32
    } else if depth >= 16 {
        16
    } else if depth >= 8 {
        8
    } else if depth >= 4 {
        4
    } else if depth >= 2 {
        2
    } else {
        1
    }
}

} // verus!
