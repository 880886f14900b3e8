//! Sizes of one mipmap in both layouts, and the byte copy between them.
use crate::arith::div_round_up;
use crate::blockheight::{block_depth, spec_block_depth};
use crate::gob::{
    gob_offset, lemma_address_inverse, lemma_linear_index_inverse, lemma_position_inverse,
    lemma_shape_sizes, MipShape,
};
use crate::{BlockHeight, SwizzleError, GOB_SIZE_IN_BYTES, GOB_WIDTH_IN_BYTES};
use vstd::prelude::*;

verus! {

/// The shape of a mipmap of the given extent, block height (in GOBs) and
/// bytes per pixel; its block depth follows from its depth.
pub open spec fn mip_shape(
    width: nat,
    height: nat,
    depth: nat,
    block_height: nat,
    bytes_per_pixel: nat,
) -> MipShape {
    MipShape {
        width,
        height,
        depth,
        block_height,
        block_depth: spec_block_depth(depth as int),
        bytes_per_pixel,
    }
}

/// The facts on a shape's strides that the copy loop needs.
proof fn lemma_strides(s: MipShape)
    requires
        s.wf(),
    ensures
        512 * s.block_height <= s.block_size() <= s.block_row_size(),
        s.block_row_size() <= s.block_slice_size() <= s.swizzled_size(),
        s.width_in_gobs() * 64 <= s.swizzled_size(),
        s.row_bytes() <= s.linear_size(),
{
    lemma_shape_sizes(s);
    let bh = s.block_height as int;
    let bd = s.block_depth as int;
    let b = s.block_size();
    let wg = s.width_in_gobs();
    let hb = s.height_in_blocks();
    let db = s.depth_in_blocks();
    assert(512 * bh <= b) by (nonlinear_arith)
        requires
            b == 512 * bh * bd,
            bd >= 1,
            bh >= 1,
    ;
    assert(b <= wg * b <= hb * (wg * b) <= hb * (wg * b) * db) by (nonlinear_arith)
        requires
            b >= 0,
            wg >= 1,
            hb >= 1,
            db >= 1,
    ;
    assert(wg * 64 <= wg * b) by (nonlinear_arith)
        requires
            wg >= 1,
            b >= 512,
    ;
    assert(s.row_bytes() <= s.row_bytes() * s.height * s.depth) by (nonlinear_arith)
        requires
            s.row_bytes() >= 1,
            s.height >= 1,
            s.depth >= 1,
    ;
}

/// The terms of an address are not negative, and the address of a position
/// of the extent lies in the mipmap.
proof fn lemma_address_terms(s: MipShape, x: int, y: int, z: int)
    requires
        s.wf(),
        s.in_extent(x, y, z),
    ensures
        (z / s.block_depth as int) * s.block_slice_size() >= 0,
        (y / (8 * s.block_height as int)) * s.block_row_size() >= 0,
        (x / 64) * s.block_size() >= 0,
        (z % s.block_depth as int) * (512 * s.block_height as int) >= 0,
        0 <= s.address(x, y, z) < s.swizzled_size(),
{
    lemma_shape_sizes(s);
    lemma_strides(s);
    let bh = s.block_height as int;
    let bd = s.block_depth as int;
    assert((z / bd) * s.block_slice_size() >= 0) by (nonlinear_arith)
        requires
            z >= 0,
            bd >= 1,
            s.block_slice_size() >= 0,
    ;
    assert((y / (8 * bh)) * s.block_row_size() >= 0) by (nonlinear_arith)
        requires
            y >= 0,
            bh >= 1,
            s.block_row_size() >= 0,
    ;
    assert((x / 64) * s.block_size() >= 0) by (nonlinear_arith)
        requires
            x >= 0,
            s.block_size() >= 0,
    ;
    assert((z % bd) * (512 * bh) >= 0) by (nonlinear_arith)
        requires
            z >= 0,
            bd >= 1,
            bh >= 1,
    ;
    lemma_address_inverse(s, x, y, z);
}

/// The bytes of a mipmap in the block-linear layout.
pub fn swizzled_mip_size(
    width: usize,
    height: usize,
    depth: usize,
    block_height: BlockHeight,
    bytes_per_pixel: usize,
) -> (r: usize)
    requires
        mip_shape(
            width as nat,
            height as nat,
            depth as nat,
            block_height.spec_value(),
            bytes_per_pixel as nat,
        ).wf(),
        mip_shape(
            width as nat,
            height as nat,
            depth as nat,
            block_height.spec_value(),
            bytes_per_pixel as nat,
        ).swizzled_size() <= usize::MAX,
    ensures
        r == mip_shape(
            width as nat,
            height as nat,
            depth as nat,
            block_height.spec_value(),
            bytes_per_pixel as nat,
        ).swizzled_size(),
{
    let ghost s = mip_shape(
        width as nat,
        height as nat,
        depth as nat,
        block_height.spec_value(),
        bytes_per_pixel as nat,
    );
    let bh = block_height.value();
    let bd = block_depth(depth);
    proof {
        lemma_shape_sizes(s);
        lemma_strides(s);
        assert(width * bytes_per_pixel <= usize::MAX);
    }
    let width_in_gobs = div_round_up(width * bytes_per_pixel, GOB_WIDTH_IN_BYTES);
    let height_in_blocks = div_round_up(height, 8 * bh);
    let depth_in_blocks = div_round_up(depth, bd);
    proof {
        let pw = s.padded_row_bytes();
        let ph = s.padded_height();
        let pd = s.padded_depth();
        assert(pw * ph <= s.swizzled_size() && ph <= s.swizzled_size() && pd <= s.swizzled_size())
            by (nonlinear_arith)
            requires
                pw * ph * pd == s.swizzled_size(),
                pd >= 1,
                pw >= 1,
                ph >= 1,
        ;
    }
    let padded_width = width_in_gobs * 64;
    let padded_height = height_in_blocks * (8 * bh);
    let padded_depth = depth_in_blocks * bd;
    padded_width * padded_height * padded_depth
}

/// The bytes of a mipmap in the linear layout.
pub fn deswizzled_mip_size(width: usize, height: usize, depth: usize, bytes_per_pixel: usize) -> (r:
    usize)
    requires
        (width * bytes_per_pixel) * height * depth <= usize::MAX,
        width >= 1,
        height >= 1,
        depth >= 1,
    ensures
        r == (width * bytes_per_pixel) * height * depth,
{
    proof {
        assert((width * bytes_per_pixel) * height <= (width * bytes_per_pixel) * height * depth)
            by (nonlinear_arith)
            requires
                depth >= 1,
        ;
        assert(width * bytes_per_pixel <= (width * bytes_per_pixel) * height) by (nonlinear_arith)
            requires
                height >= 1,
        ;
    }
    width * bytes_per_pixel * height * depth
}

/// The bytes of the mipmap that the source must hold: its block-linear
/// bytes when deswizzling, its linear bytes when swizzling.
pub open spec fn mip_input_size(s: MipShape, deswizzle: bool) -> int {
    if deswizzle {
        s.swizzled_size()
    } else {
        s.linear_size()
    }
}

/// The bytes that one mipmap adds to the output, read from `source` from
/// `start` on.
pub open spec fn mip_output(s: MipShape, source: Seq<u8>, start: int, deswizzle: bool) -> Seq<u8> {
    if deswizzle {
        s.deswizzled(source, start)
    } else {
        s.swizzled(source, start)
    }
}

/// What a swizzled mipmap holds once the linear bytes before `i` are copied.
pub open spec fn partly_swizzled_byte(s: MipShape, source: Seq<u8>, start: int, i: int, p: int) -> u8 {
    let x = s.swizzled_x(p);
    let y = s.swizzled_y(p);
    let z = s.swizzled_z(p);
    if s.in_extent(x, y, z) && s.linear_index(x, y, z) < i {
        source[start + s.linear_index(x, y, z)]
    } else {
        0
    }
}

/// The part of an address that depends on the row and the slice alone.
pub open spec fn row_offset(s: MipShape, y: int, z: int) -> int {
    let bh = s.block_height as int;
    let bd = s.block_depth as int;
    (z / bd) * s.block_slice_size() + (y / (8 * bh)) * s.block_row_size() + (z % bd) * (512 * bh)
        + ((y / 8) % bh) * 512
}

/// Copying linear byte `i`, of position `(x, y, z)`, changes no other byte
/// of the swizzled mipmap.
proof fn lemma_partly_swizzled_step(
    s: MipShape,
    source: Seq<u8>,
    start: int,
    x: int,
    y: int,
    z: int,
    p: int,
)
    requires
        s.wf(),
        s.in_extent(x, y, z),
        0 <= p < s.swizzled_size(),
        p != s.address(x, y, z),
    ensures
        partly_swizzled_byte(s, source, start, s.linear_index(x, y, z) + 1, p)
            == partly_swizzled_byte(s, source, start, s.linear_index(x, y, z), p),
{
    lemma_position_inverse(s, p);
    lemma_linear_index_inverse(s, x, y, z);
    let px = s.swizzled_x(p);
    let py = s.swizzled_y(p);
    let pz = s.swizzled_z(p);
    if s.in_extent(px, py, pz) {
        lemma_linear_index_inverse(s, px, py, pz);
    }
}

/// Copying linear byte `i`, of position `(x, y, z)`, fills its address.
proof fn lemma_partly_swizzled_at(s: MipShape, source: Seq<u8>, start: int, x: int, y: int, z: int)
    requires
        s.wf(),
        s.in_extent(x, y, z),
    ensures
        partly_swizzled_byte(s, source, start, s.linear_index(x, y, z) + 1, s.address(x, y, z))
            == source[start + s.linear_index(x, y, z)],
{
    lemma_shape_sizes(s);
    lemma_address_inverse(s, x, y, z);
}

/// Once every linear byte is copied, the mipmap is swizzled.
proof fn lemma_partly_swizzled_done(s: MipShape, source: Seq<u8>, start: int, i: int, p: int)
    requires
        s.wf(),
        i >= s.linear_size(),
        0 <= p < s.swizzled_size(),
    ensures
        partly_swizzled_byte(s, source, start, i, p) == s.swizzled(source, start)[p],
{
    let px = s.swizzled_x(p);
    let py = s.swizzled_y(p);
    let pz = s.swizzled_z(p);
    if s.in_extent(px, py, pz) {
        lemma_linear_index_inverse(s, px, py, pz);
    }
}

/// Copies the bytes of one mipmap between the linear layout and the
/// block-linear layout. The mipmap's output takes the tail of `destination`
/// from `dst_start` on; when swizzling, that tail is zero beforehand.
#[verifier::rlimit(40)]
fn swizzle_inner<const DESWIZZLE: bool>(
    width: usize,
    height: usize,
    depth: usize,
    source: &[u8],
    src_start: usize,
    destination: &mut Vec<u8>,
    dst_start: usize,
    block_height: usize,
    block_depth: usize,
    bytes_per_pixel: usize,
)
    requires
        mip_shape(width as nat, height as nat, depth as nat, block_height as nat, bytes_per_pixel as nat).wf(),
        crate::is_block_height_value(block_height as int),
        block_depth == spec_block_depth(depth as int),
        mip_shape(width as nat, height as nat, depth as nat, block_height as nat, bytes_per_pixel as nat).swizzled_size() <= usize::MAX,
        mip_shape(width as nat, height as nat, depth as nat, block_height as nat, bytes_per_pixel as nat).linear_size() <= usize::MAX,
        src_start + mip_input_size(mip_shape(width as nat, height as nat, depth as nat, block_height as nat, bytes_per_pixel as nat), DESWIZZLE) <= source@.len(),
        dst_start + mip_input_size(mip_shape(width as nat, height as nat, depth as nat, block_height as nat, bytes_per_pixel as nat), !DESWIZZLE) == old(destination)@.len(),
        !DESWIZZLE ==> forall|j: int| dst_start <= j < old(destination)@.len() ==> old(destination)@[j] == 0,
    ensures
        final(destination)@ == old(destination)@.subrange(0, dst_start as int) + mip_output(
            mip_shape(width as nat, height as nat, depth as nat, block_height as nat, bytes_per_pixel as nat),
            source@,
            src_start as int,
            DESWIZZLE,
        ),
{
    let ghost s = mip_shape(width as nat, height as nat, depth as nat, block_height as nat, bytes_per_pixel as nat);
    proof {
        lemma_shape_sizes(s);
        lemma_strides(s);
    }
    let row_bytes = width * bytes_per_pixel;
    let width_in_gobs = div_round_up(row_bytes, GOB_WIDTH_IN_BYTES);
    let height_in_blocks = div_round_up(height, 8 * block_height);
    let block_size = GOB_SIZE_IN_BYTES * block_height * block_depth;
    let block_row_size = width_in_gobs * block_size;
    let block_slice_size = height_in_blocks * block_row_size;
    proof {
        assert(row_bytes * height <= row_bytes * height * depth) by (nonlinear_arith)
            requires
                depth >= 1,
                row_bytes * height >= 0,
        ;
    }
    let linear_size = row_bytes * height * depth;
    let ghost out_size = mip_input_size(s, !DESWIZZLE);
    let ghost old_dst = destination@;
    let mut x: usize = 0;
    let mut y: usize = 0;
    let mut z: usize = 0;
    let mut i: usize = 0;
    let src_len = source.len();
    let dst_len = destination.len();
    proof {
        lemma_address_terms(s, 0, 0, 0);
        assert(s.linear_index(0, 0, 0) == 0) by (nonlinear_arith);
    }
    let mut row_base: usize = (z / block_depth) * block_slice_size + (y / (8 * block_height))
        * block_row_size + (z % block_depth) * (512 * block_height) + ((y / 8) % block_height)
        * 512;
    while i < linear_size
        invariant
            s == mip_shape(width as nat, height as nat, depth as nat, block_height as nat, bytes_per_pixel as nat),
            s.wf(),
            crate::is_block_height_value(block_height as int),
            block_depth == s.block_depth,
            s.swizzled_size() <= usize::MAX,
            row_bytes == s.row_bytes(),
            block_size == s.block_size(),
            block_row_size == s.block_row_size(),
            block_slice_size == s.block_slice_size(),
            linear_size == s.linear_size(),
            out_size == mip_input_size(s, !DESWIZZLE),
            src_start + mip_input_size(s, DESWIZZLE) <= source@.len(),
            dst_start + out_size == destination@.len(),
            src_len == source@.len(),
            dst_len == destination@.len(),
            x < row_bytes,
            y < height,
            z < depth || (z == depth && x == 0 && y == 0),
            i == s.linear_index(x as int, y as int, z as int),
            z < depth ==> row_base == row_offset(s, y as int, z as int),
            forall|j: int| 0 <= j < dst_start ==> destination@[j] == old_dst[j],
            DESWIZZLE ==> forall|j: int|
                0 <= j < i ==> destination@[dst_start + j] == source@[src_start + s.address(
                    s.linear_x(j),
                    s.linear_y(j),
                    s.linear_z(j),
                )],
            !DESWIZZLE ==> forall|p: int|
                0 <= p < out_size ==> destination@[dst_start + p] == partly_swizzled_byte(
                    s,
                    source@,
                    src_start as int,
                    i as int,
                    p,
                ),
        decreases linear_size - i,
    {
        proof {
            if z == depth {
                assert(i == linear_size) by (nonlinear_arith)
                    requires
                        i == (z * height + y) * row_bytes + x,
                        x == 0,
                        y == 0,
                        z == depth,
                        linear_size == row_bytes * height * depth,
                ;
            }
            lemma_shape_sizes(s);
            lemma_address_terms(s, x as int, y as int, z as int);
            lemma_address_inverse(s, x as int, y as int, z as int);
            lemma_linear_index_inverse(s, x as int, y as int, z as int);
        }
        let address = row_base + (x / 64) * block_size + gob_offset(x, y);
        assert(address == s.address(x as int, y as int, z as int));
        if DESWIZZLE {
            assert(src_start + s.swizzled_size() <= source@.len());
            assert(dst_start + s.linear_size() == destination@.len());
            destination[dst_start + i] = source[src_start + address];
        } else {
            destination[dst_start + address] = source[src_start + i];
            proof {
                assert forall|p: int| 0 <= p < out_size implies #[trigger] destination@[dst_start + p]
                    == partly_swizzled_byte(s, source@, src_start as int, i + 1, p) by {
                    if p != address {
                        lemma_partly_swizzled_step(s, source@, src_start as int, x as int, y as int, z as int, p);
                    } else {
                        lemma_partly_swizzled_at(s, source@, src_start as int, x as int, y as int, z as int);
                    }
                }
            }
        }
        proof {
            assert((z * height + y) * row_bytes + row_bytes == (z * height + y + 1) * row_bytes)
                by (nonlinear_arith);
            assert(z * height + height == (z + 1) * height) by (nonlinear_arith);
        }
        i = i + 1;
        x = x + 1;
        if x == row_bytes {
            x = 0;
            y = y + 1;
            if y == height {
                y = 0;
                z = z + 1;
            }
            if z < depth {
                proof {
                    lemma_address_terms(s, 0, y as int, z as int);
                }
                row_base = (z / block_depth) * block_slice_size + (y / (8 * block_height))
                    * block_row_size + (z % block_depth) * (512 * block_height) + ((y / 8)
                    % block_height) * 512;
            }
        }
    }
    proof {
        if z < depth {
            lemma_linear_index_inverse(s, x as int, y as int, z as int);
        }
        let expected = old_dst.subrange(0, dst_start as int) + mip_output(s, source@, src_start as int, DESWIZZLE);
        assert forall|j: int| 0 <= j < destination@.len() implies destination@[j] == expected[j] by {
            if j >= dst_start {
                let k = j - dst_start;
                assert(destination@[dst_start + k] == destination@[j]);
                assert(expected[j] == mip_output(s, source@, src_start as int, DESWIZZLE)[k]);
                if DESWIZZLE {
                    assert(k < i);
                } else {
                    lemma_partly_swizzled_done(s, source@, src_start as int, i as int, k);
                }
            } else {
                assert(expected[j] == old_dst[j]);
            }
        }
        assert(destination@ =~= expected);
    }
}

/// Copies one mipmap from `source`, from `*src_offset` on, to the end of
/// `result`, and moves `*src_offset` past the bytes read. Fails with
/// `NotEnoughData` where the source ends too early.
pub fn swizzle_mipmap<const DESWIZZLE: bool>(
    width: usize,
    height: usize,
    depth: usize,
    block_height: BlockHeight,
    bytes_per_pixel: usize,
    source: &[u8],
    result: &mut Vec<u8>,
    src_offset: &mut usize,
) -> (r: Result<(), SwizzleError>)
    requires
        mip_shape(width as nat, height as nat, depth as nat, block_height.spec_value(), bytes_per_pixel as nat).wf(),
        mip_shape(width as nat, height as nat, depth as nat, block_height.spec_value(), bytes_per_pixel as nat).swizzled_size() <= usize::MAX,
        mip_shape(width as nat, height as nat, depth as nat, block_height.spec_value(), bytes_per_pixel as nat).linear_size() <= usize::MAX,
        old(result)@.len() + mip_input_size(
            mip_shape(width as nat, height as nat, depth as nat, block_height.spec_value(), bytes_per_pixel as nat),
            !DESWIZZLE,
        ) <= usize::MAX,
        *old(src_offset) + mip_input_size(
            mip_shape(width as nat, height as nat, depth as nat, block_height.spec_value(), bytes_per_pixel as nat),
            DESWIZZLE,
        ) <= usize::MAX,
    ensures
        ({
            let s = mip_shape(width as nat, height as nat, depth as nat, block_height.spec_value(), bytes_per_pixel as nat);
            let need = *old(src_offset) + mip_input_size(s, DESWIZZLE);
            &&& r.is_ok() <==> need <= source@.len()
            &&& r.is_ok() ==> final(result)@ == old(result)@ + mip_output(s, source@, *old(src_offset) as int, DESWIZZLE)
            &&& r.is_ok() ==> *final(src_offset) == need
            &&& r.is_err() ==> r == Err::<(), SwizzleError>(SwizzleError::NotEnoughData { expected_size: need as usize, actual_size: source@.len() as usize })
            &&& r.is_err() ==> final(result)@ == old(result)@ && *final(src_offset) == *old(src_offset)
        }),
{
    let ghost s = mip_shape(width as nat, height as nat, depth as nat, block_height.spec_value(), bytes_per_pixel as nat);
    let swizzled_size = swizzled_mip_size(width, height, depth, block_height, bytes_per_pixel);
    let deswizzled_size = deswizzled_mip_size(width, height, depth, bytes_per_pixel);
    let input_size = if DESWIZZLE {
        swizzled_size
    } else {
        deswizzled_size
    };
    let added_size = if DESWIZZLE {
        deswizzled_size
    } else {
        swizzled_size
    };
    // Make sure the source has enough space.
    if source.len() < *src_offset + input_size {
        return Err(SwizzleError::NotEnoughData {
            expected_size: *src_offset + input_size,
            actual_size: source.len(),
        });
    }
    let dst_offset = result.len();
    result.resize(dst_offset + added_size, 0);
    proof {
        assert(result@.subrange(0, dst_offset as int) == old(result)@);
        assert forall|j: int| dst_offset <= j < result@.len() implies result@[j] == 0 by {
            assert(cloned::<u8>(0, result@[j]));
        }
    }
    let block_depth = block_depth(depth);
    swizzle_inner::<DESWIZZLE>(
        width,
        height,
        depth,
        source,
        *src_offset,
        result,
        dst_offset,
        block_height.value(),
        block_depth,
        bytes_per_pixel,
    );
    *src_offset = *src_offset + input_size;
    Ok(())
}

} // verus!
