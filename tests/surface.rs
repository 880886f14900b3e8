use tegra_swizzle::surface::{deswizzle_surface, swizzle_surface, BlockDim};

// Use helper functions to shorten the test cases.
fn swizzle_length(
    width: usize,
    height: usize,
    source_length: usize,
    is_compressed: bool,
    bpp: usize,
    layer_count: usize,
    mipmap_count: usize,
) -> usize {
    swizzle_length_3d(
        width,
        height,
        1,
        source_length,
        is_compressed,
        bpp,
        layer_count,
        mipmap_count,
    )
}

fn deswizzle_length(
    width: usize,
    height: usize,
    source_length: usize,
    is_compressed: bool,
    bpp: usize,
    layer_count: usize,
    mipmap_count: usize,
) -> usize {
    deswizzle_length_3d(
        width,
        height,
        1,
        source_length,
        is_compressed,
        bpp,
        layer_count,
        mipmap_count,
    )
}

fn swizzle_length_3d(
    width: usize,
    height: usize,
    depth: usize,
    source_length: usize,
    is_compressed: bool,
    bpp: usize,
    layer_count: usize,
    mipmap_count: usize,
) -> usize {
    swizzle_surface(
        width,
        height,
        depth,
        &vec![0u8; source_length],
        if is_compressed {
            BlockDim::block_4x4()
        } else {
            BlockDim::uncompressed()
        },
        None,
        bpp,
        layer_count,
        mipmap_count,
    )
    .unwrap()
    .len()
}

fn deswizzle_length_3d(
    width: usize,
    height: usize,
    depth: usize,
    source_length: usize,
    is_compressed: bool,
    bpp: usize,
    layer_count: usize,
    mipmap_count: usize,
) -> usize {
    deswizzle_surface(
        width,
        height,
        depth,
        &vec![0u8; source_length],
        if is_compressed {
            BlockDim::block_4x4()
        } else {
            BlockDim::uncompressed()
        },
        None,
        bpp,
        layer_count,
        mipmap_count,
    )
    .unwrap()
    .len()
}

// Expected swizzled sizes are taken from the nutexb footer.
// Expected deswizzled sizes are the product of the mipmap size sum and the array count.
#[test]
fn swizzle_surface_arrays_no_mipmaps_length() {
    assert_eq!(6144, swizzle_length(16, 16, 6144, false, 4, 1, 6));
    assert_eq!(3072, swizzle_length(16, 16, 768, true, 8, 1, 6));
    assert_eq!(
        25165824,
        swizzle_length(2048, 2048, 25165824, true, 16, 1, 6)
    );
    assert_eq!(1572864, swizzle_length(256, 256, 1572864, false, 4, 1, 6));
    assert_eq!(98304, swizzle_length(64, 64, 98304, false, 4, 1, 6));
    assert_eq!(98304, swizzle_length(64, 64, 98304, false, 4, 1, 6));
    assert_eq!(393216, swizzle_length(64, 64, 393216, false, 16, 1, 6));
}

#[test]
fn swizzle_surface_arrays_mipmaps_length() {
    assert_eq!(147456, swizzle_length(128, 128, 131232, true, 16, 8, 6));
    assert_eq!(15360, swizzle_length(16, 16, 2208, true, 16, 5, 6));
    assert_eq!(540672, swizzle_length(256, 256, 524448, true, 16, 9, 6));
    assert_eq!(1204224, swizzle_length(288, 288, 664512, true, 16, 9, 6));
    assert_eq!(2113536, swizzle_length(512, 512, 2097312, true, 16, 10, 6));
    assert_eq!(49152, swizzle_length(64, 64, 32928, true, 16, 7, 6));
}

#[test]
fn swizzle_surface_nutexb_length() {
    // Sizes and parameters taken from Smash Ultimate nutexb files.
    // The deswizzled size is estimated as the product of the mip sizes sum and array count.
    // The swizzled size is taken from the footer.
    assert_eq!(12800, swizzle_length(100, 100, 6864, true, 8, 7, 1));
    assert_eq!(360960, swizzle_length(1028, 256, 351376, true, 16, 11, 1));
    assert_eq!(24064, swizzle_length(128, 32, 21852, false, 4, 8, 1));
    assert_eq!(
        2099712,
        swizzle_length(1536, 1024, 2097184, true, 16, 11, 1)
    );
    assert_eq!(35328, swizzle_length(180, 180, 21992, true, 8, 8, 1));
    assert_eq!(
        4546048,
        swizzle_length(2048, 1344, 3670320, true, 16, 12, 1)
    );
    assert_eq!(17920, swizzle_length(256, 32, 11024, true, 16, 9, 1));
    assert_eq!(58368, swizzle_length(320, 128, 54672, true, 16, 9, 1));
    assert_eq!(125440, swizzle_length(340, 340, 77840, true, 8, 9, 1));
    assert_eq!(147968, swizzle_length(400, 400, 106864, true, 8, 9, 1));
    assert_eq!(2048, swizzle_length(4, 24, 384, false, 4, 1, 1));
    assert_eq!(351744, swizzle_length(512, 384, 262192, true, 16, 10, 1));
    assert_eq!(440832, swizzle_length(640, 640, 273120, true, 8, 10, 1));
    assert_eq!(26624, swizzle_length(64, 512, 21896, true, 8, 10, 1));
    assert_eq!(280064, swizzle_length(800, 400, 213576, true, 8, 10, 1));
    assert_eq!(
        16777216,
        swizzle_length(8192, 2048, 16777216, true, 16, 1, 1)
    );
}

#[test]
fn deswizzle_surface_nutexb_length() {
    // Sizes and parameters taken from Smash Ultimate nutexb files.
    // The deswizzled size is estimated as the product of the mip sizes sum and array count.
    // The swizzled size is taken from the footer.
    assert_eq!(6864, deswizzle_length(100, 100, 12800, true, 8, 7, 1));
    assert_eq!(351376, deswizzle_length(1028, 256, 360960, true, 16, 11, 1));
    assert_eq!(21852, deswizzle_length(128, 32, 24064, false, 4, 8, 1));
    assert_eq!(
        2097184,
        deswizzle_length(1536, 1024, 2099712, true, 16, 11, 1)
    );
    assert_eq!(21992, deswizzle_length(180, 180, 35328, true, 8, 8, 1));
    assert_eq!(
        3670320,
        deswizzle_length(2048, 1344, 4546048, true, 16, 12, 1)
    );
    assert_eq!(11024, deswizzle_length(256, 32, 17920, true, 16, 9, 1));
    assert_eq!(54672, deswizzle_length(320, 128, 58368, true, 16, 9, 1));
    assert_eq!(77840, deswizzle_length(340, 340, 125440, true, 8, 9, 1));
    assert_eq!(106864, deswizzle_length(400, 400, 147968, true, 8, 9, 1));
    assert_eq!(384, deswizzle_length(4, 24, 2048, false, 4, 1, 1));
    assert_eq!(262192, deswizzle_length(512, 384, 351744, true, 16, 10, 1));
    assert_eq!(273120, deswizzle_length(640, 640, 440832, true, 8, 10, 1));
    assert_eq!(21896, deswizzle_length(64, 512, 26624, true, 8, 10, 1));
    assert_eq!(213576, deswizzle_length(800, 400, 280064, true, 8, 10, 1));
    assert_eq!(
        16777216,
        deswizzle_length(8192, 2048, 16777216, true, 16, 1, 1)
    );
}

#[test]
fn deswizzle_surface_arrays_no_mipmaps_length() {
    assert_eq!(6144, deswizzle_length(16, 16, 6144, false, 4, 1, 6));
    assert_eq!(768, deswizzle_length(16, 16, 3072, true, 8, 1, 6));
    assert_eq!(
        25165824,
        deswizzle_length(2048, 2048, 25165824, true, 16, 1, 6)
    );
    assert_eq!(1572864, deswizzle_length(256, 256, 1572864, false, 4, 1, 6));
    assert_eq!(98304, deswizzle_length(64, 64, 98304, false, 4, 1, 6));
    assert_eq!(98304, deswizzle_length(64, 64, 98304, false, 4, 1, 6));
    assert_eq!(393216, deswizzle_length(64, 64, 393216, false, 16, 1, 6));
}

#[test]
fn deswizzle_surface_arrays_mipmaps_length() {
    assert_eq!(131232, deswizzle_length(128, 128, 147456, true, 16, 8, 6));
    assert_eq!(2208, deswizzle_length(16, 16, 15360, true, 16, 5, 6));
    assert_eq!(524448, deswizzle_length(256, 256, 540672, true, 16, 9, 6));
    assert_eq!(664512, deswizzle_length(288, 288, 1204224, true, 16, 9, 6));
    assert_eq!(
        2097312,
        deswizzle_length(512, 512, 2113536, true, 16, 10, 6)
    );
    assert_eq!(32928, deswizzle_length(64, 64, 49152, true, 16, 7, 6));
}

// A 16x16x16 RGBA volume and its swizzled form, written out from the
// block-linear layout: one GOB column, two 8-row blocks per slice, sixteen
// slices per block.
fn rgba_16_16_16_volumes() -> (Vec<u8>, Vec<u8>) {
    let mut linear = vec![0u8; 16 * 16 * 16 * 4];
    let mut swizzled = vec![0u8; 16 * 16 * 16 * 4];
    for z in 0..16usize {
        for y in 0..16usize {
            for x in 0..64usize {
                let i = (z * 16 + y) * 64 + x;
                let value = (i * 7 + i / 251) as u8;
                let gob = ((x % 64) / 32) * 256
                    + ((y % 8) / 2) * 64
                    + ((x % 32) / 16) * 32
                    + (y % 2) * 16
                    + x % 16;
                let address = (y / 8) * 8192 + z * 512 + gob;
                linear[i] = value;
                swizzled[address] = value;
            }
        }
    }
    (linear, swizzled)
}

#[test]
fn swizzle_surface_rgba_16_16_16() {
    let (input, expected) = rgba_16_16_16_volumes();
    let actual =
        swizzle_surface(16, 16, 16, &input, BlockDim::uncompressed(), None, 4, 1, 1).unwrap();
    assert_eq!(expected, actual);
}

#[test]
fn deswizzle_surface_rgba_16_16_16() {
    let (expected, input) = rgba_16_16_16_volumes();
    let actual =
        deswizzle_surface(16, 16, 16, &input, BlockDim::uncompressed(), None, 4, 1, 1).unwrap();
    assert_eq!(expected, actual);
}
