use tegra_swizzle::surface::{deswizzle_surface, swizzle_surface, BlockDim};
use tegra_swizzle::{block_depth, block_height_mip0, mip_block_height, BlockHeight, SwizzleError};

fn pattern(len: usize) -> Vec<u8> {
    (0..len).map(|i| (i * 31 + i / 7) as u8).collect()
}

#[test]
fn round_trip_arrays_and_mipmaps() {
    // 128x128 BC7 with 8 mipmaps and 6 layers.
    let input = pattern(131232);
    let swizzled =
        swizzle_surface(128, 128, 1, &input, BlockDim::block_4x4(), None, 16, 8, 6).unwrap();
    assert_eq!(147456, swizzled.len());
    let output =
        deswizzle_surface(128, 128, 1, &swizzled, BlockDim::block_4x4(), None, 16, 8, 6).unwrap();
    assert_eq!(input, output);
}

#[test]
fn round_trip_odd_sizes_and_volume() {
    let input = pattern(37 * 100 * 3 * 3);
    let swizzled =
        swizzle_surface(37, 3, 3, &input, BlockDim::uncompressed(), None, 100, 1, 1).unwrap();
    let output =
        deswizzle_surface(37, 3, 3, &swizzled, BlockDim::uncompressed(), None, 100, 1, 1)
            .unwrap();
    assert_eq!(input, output);
}

#[test]
fn swizzled_length_does_not_depend_on_bytes() {
    let a = swizzle_surface(100, 100, 1, &vec![0u8; 6864], BlockDim::block_4x4(), None, 8, 7, 1)
        .unwrap();
    let b = swizzle_surface(100, 100, 1, &pattern(6864), BlockDim::block_4x4(), None, 8, 7, 1)
        .unwrap();
    assert_eq!(a.len(), b.len());
    assert_eq!(12800, b.len());
}

#[test]
fn layers_swizzled_one_by_one_match_the_array() {
    // 16x16 BC7 with 5 mipmaps and 6 layers: one layer holds 368 linear
    // bytes; swizzled layers are padded to the 512-byte base block.
    let input = pattern(368 * 6);
    let all = swizzle_surface(16, 16, 1, &input, BlockDim::block_4x4(), None, 16, 5, 6).unwrap();
    let mut joined = Vec::new();
    for layer in 0..6 {
        let part = &input[layer * 368..(layer + 1) * 368];
        let mut one =
            swizzle_surface(16, 16, 1, part, BlockDim::block_4x4(), None, 16, 5, 1).unwrap();
        let aligned = (one.len() + 511) / 512 * 512;
        one.resize(aligned, 0);
        joined.extend_from_slice(&one);
    }
    assert_eq!(all, joined);
    assert_eq!(15360, all.len());
}

#[test]
fn zero_input_swizzles_to_zero() {
    let out = swizzle_surface(180, 180, 1, &vec![0u8; 21992], BlockDim::block_4x4(), None, 8, 8, 1)
        .unwrap();
    assert_eq!(35328, out.len());
    assert!(out.iter().all(|b| *b == 0));
}

#[test]
fn padding_of_a_small_mipmap_is_zero() {
    // A 4x4 RGBA texture fills 16 bytes of each of 4 rows of one 512-byte GOB.
    let input = vec![0xFFu8; 64];
    let out = swizzle_surface(4, 4, 1, &input, BlockDim::uncompressed(), None, 4, 1, 1).unwrap();
    assert_eq!(512, out.len());
    assert_eq!(64, out.iter().filter(|b| **b == 0xFF).count());
    assert_eq!(0xFF, out[0]);
    assert_eq!(0xFF, out[16]);
    assert_eq!(0xFF, out[64]);
    assert_eq!(0xFF, out[80]);
    assert_eq!(0, out[32]);
}

#[test]
fn mip_sizes_grow_with_mip_count() {
    // 64x64 RGBA: the swizzled mipmaps take 16384, 4096, 1024, then 512 bytes each.
    let source = vec![0u8; 21844];
    let mut previous = 0;
    for mips in 1..8 {
        let len = swizzle_surface(64, 64, 1, &source, BlockDim::uncompressed(), None, 4, mips, 1)
            .unwrap()
            .len();
        assert!(len >= previous);
        previous = len;
    }
    assert_eq!(16384 + 4096 + 1024 + 4 * 512, previous);
}

#[test]
fn swizzle_not_enough_data() {
    let result = swizzle_surface(16, 16, 1, &vec![0u8; 1023], BlockDim::uncompressed(), None, 4, 1, 1);
    assert_eq!(
        Err(SwizzleError::NotEnoughData { expected_size: 1024, actual_size: 1023 }),
        result
    );
}

#[test]
fn deswizzle_not_enough_data() {
    // Two layers of one 512-byte block each: the last layer's padding is not read.
    let ok = deswizzle_surface(4, 4, 1, &vec![0u8; 1024], BlockDim::uncompressed(), None, 4, 1, 2);
    assert_eq!(128, ok.unwrap().len());
    let result = deswizzle_surface(4, 4, 1, &vec![0u8; 1023], BlockDim::uncompressed(), None, 4, 1, 2);
    assert_eq!(
        Err(SwizzleError::NotEnoughData { expected_size: 1024, actual_size: 1023 }),
        result
    );
}

#[test]
fn invalid_block_height() {
    assert_eq!(Err(SwizzleError::InvalidBlockHeight(3)), BlockHeight::new(3));
    assert_eq!(Err(SwizzleError::InvalidBlockHeight(64)), BlockHeight::new(64));
    assert_eq!(Ok(BlockHeight::ThirtyTwo), BlockHeight::new(32));
    assert_eq!(Ok(BlockHeight::One), BlockHeight::new(1));
    assert_eq!(16, BlockHeight::Sixteen.value());
}

#[test]
fn explicit_block_height_changes_padding() {
    // A 16x40 RGBA texture is 5 GOBs tall: inferred 4-GOB blocks pad it to
    // 64 rows, 2-GOB blocks to 48 rows.
    let input = pattern(16 * 40 * 4);
    let inferred = swizzle_surface(16, 40, 1, &input, BlockDim::uncompressed(), None, 4, 1, 1).unwrap();
    assert_eq!(64 * 64, inferred.len());
    let forced = swizzle_surface(16, 40, 1, &input, BlockDim::uncompressed(), Some(BlockHeight::Two), 4, 1, 1).unwrap();
    assert_eq!(64 * 48, forced.len());
    let back = deswizzle_surface(16, 40, 1, &forced, BlockDim::uncompressed(), Some(BlockHeight::Two), 4, 1, 1).unwrap();
    assert_eq!(input, back);
}

#[test]
fn block_height_policy() {
    assert_eq!(BlockHeight::One, block_height_mip0(8));
    assert_eq!(BlockHeight::Two, block_height_mip0(9));
    assert_eq!(BlockHeight::Four, block_height_mip0(25));
    assert_eq!(BlockHeight::Eight, block_height_mip0(64));
    assert_eq!(BlockHeight::Sixteen, block_height_mip0(128));
    assert_eq!(BlockHeight::Sixteen, block_height_mip0(100000));
    assert_eq!(BlockHeight::Four, mip_block_height(32, BlockHeight::Sixteen));
    assert_eq!(BlockHeight::Eight, mip_block_height(33, BlockHeight::Sixteen));
    assert_eq!(BlockHeight::One, mip_block_height(1, BlockHeight::ThirtyTwo));
    assert_eq!(1, block_depth(1));
    assert_eq!(2, block_depth(3));
    assert_eq!(16, block_depth(16));
    assert_eq!(32, block_depth(1000));
}
