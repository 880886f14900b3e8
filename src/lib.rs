//! Conversion of texture surfaces between a dense linear layout and the
//! block-linear layout used by the Tegra X1 GPU.
//!
//! A GOB (group of bytes) is the fixed hardware tile of 64 bytes by 8 rows.
//! Blocks stack GOBs vertically (block height) and along z (block depth).
//! Every function here is verified against the mathematical layout that the
//! spec functions describe.
use vstd::prelude::*;

pub mod arith;
pub mod blockheight;
pub mod gob;
pub mod lemmas;
pub mod mipmap;
pub mod surface;

pub use blockheight::{block_depth, block_height_mip0, mip_block_height};
pub use surface::{deswizzle_surface, swizzle_surface, BlockDim};

verus! {

/// The width of a GOB in bytes.
pub const GOB_WIDTH_IN_BYTES: usize = 64;

/// The height of a GOB in rows.
pub const GOB_HEIGHT_IN_BYTES: usize = 8;

/// The size of a GOB in bytes: 64 bytes by 8 rows.
pub const GOB_SIZE_IN_BYTES: usize = 512;

/// The number of GOBs stacked vertically in one block.
#[derive(Debug, Clone, Copy, PartialEq, Eq, Structural)]
pub enum BlockHeight {
    One,
    Two,
    Four,
    Eight,
    Sixteen,
    ThirtyTwo,
}

/// The numbers of GOBs that a block may be tall: 1, 2, 4, 8, 16 or 32.
pub open spec fn is_block_height_value(v: int) -> bool {
    v == 1 || v == 2 || v == 4 || v == 8 || v == 16 || v == 32
}

impl BlockHeight {
    /// The number of GOBs that this block height stands for.
    pub open spec fn spec_value(self) -> nat {
        match self {
            BlockHeight::One => 1,
            BlockHeight::Two => 2,
            BlockHeight::Four => 4,
            BlockHeight::Eight => 8,
            BlockHeight::Sixteen => 16,
            BlockHeight::ThirtyTwo => 32,
        }
    }

    /// The number of GOBs that this block height stands for.
    pub fn value(self) -> (r: usize)
        ensures
            r == self.spec_value(),
            is_block_height_value(r as int),
    {
        match self {
            BlockHeight::One => 1,
            BlockHeight::Two => 2,
            BlockHeight::Four => 4,
            BlockHeight::Eight => 8,
            BlockHeight::Sixteen => 16,
            BlockHeight::ThirtyTwo => 32,
        }
    }

    /// The block height of `value` GOBs, or `InvalidBlockHeight` where `value`
    /// is not one of 1, 2, 4, 8, 16 and 32.
    pub fn new(value: usize) -> (r: Result<BlockHeight, SwizzleError>)
        ensures
            is_block_height_value(value as int) <==> r.is_ok(),
            r matches Ok(b) ==> b.spec_value() == value,
            r matches Err(e) ==> e == SwizzleError::InvalidBlockHeight(value),
    {
        match value {
            1 => Ok(BlockHeight::One),
            2 => Ok(BlockHeight::Two),
            4 => Ok(BlockHeight::Four),
            8 => Ok(BlockHeight::Eight),
            16 => Ok(BlockHeight::Sixteen),
            32 => Ok(BlockHeight::ThirtyTwo),
            _ => Err(SwizzleError::InvalidBlockHeight(value)),
        }
    }
}

/// The ways in which swizzling or deswizzling a surface can fail.
#[derive(Debug, Clone, Copy, PartialEq, Eq, Structural)]
pub enum SwizzleError {
    /// The source holds fewer bytes than the surface needs.
    NotEnoughData { expected_size: usize, actual_size: usize },
    /// A block height other than 1, 2, 4, 8, 16 or 32 GOBs was asked for.
    InvalidBlockHeight(usize),
}

} // verus!
