//! Functions for working with surfaces stored in a combined buffer for all
//! array layers and mipmaps.
//!
//! Array layers and mipmaps are ordered by layer and then by mipmap. The
//! linear layout is tightly packed; the block-linear layout pads each mipmap
//! to whole blocks and, for arrays, each layer to a whole block of the base
//! mipmap.
use crate::arith::{div_round_up, lemma_align_up_shift, lemma_div_round_up, spec_align_up, spec_div_round_up};
use crate::blockheight::{
    block_height_mip0 as infer_block_height, lemma_mip_block_height_legal, mip_block_height, spec_block_height_mip0,
    spec_mip_block_height,
};
use crate::gob::{lemma_shape_sizes, MipShape};
use crate::mipmap::{mip_input_size, mip_output, mip_shape, swizzle_mipmap};
use crate::{is_block_height_value, BlockHeight, SwizzleError};
use vstd::prelude::*;

verus! {

/// The dimensions of a compressed block in pixels. Compressed blocks are
/// usually 4x4x1; uncompressed formats use 1x1x1.
#[derive(Debug, Clone, Copy, PartialEq, Eq, Structural)]
pub struct BlockDim {
    /// The width of the block in pixels.
    pub width: usize,
    /// The height of the block in pixels.
    pub height: usize,
    /// The depth of the block in pixels.
    pub depth: usize,
}

impl BlockDim {
    /// Every dimension is positive.
    pub open spec fn wf(self) -> bool {
        self.width >= 1 && self.height >= 1 && self.depth >= 1
    }

    /// A 1x1x1 block for formats that do not use block compression like R8G8B8A8.
    pub fn uncompressed() -> (r: Self)
        ensures
            r.width == 1 && r.height == 1 && r.depth == 1,
    {
        BlockDim { width: 1, height: 1, depth: 1 }
    }

    /// A 4x4x1 compressed block. This includes any of the BCN formats like
    /// BC1, BC3, or BC7, and also DXT1, DXT3, and DXT5.
    pub fn block_4x4() -> (r: Self)
        ensures
            r.width == 4 && r.height == 4 && r.depth == 1,
    {
        BlockDim { width: 4, height: 4, depth: 1 }
    }
}

/// `dim >> n`: `dim` halved `n` times, rounding down.
pub open spec fn halved(dim: nat, n: nat) -> nat
    decreases n,
{
    if n == 0 {
        dim
    } else {
        halved(dim, (n - 1) as nat) / 2
    }
}

/// The extent of mipmap `mip` along an axis whose base extent is `dim`
/// pixels, counted in compression blocks of `block` pixels; never below 1.
pub open spec fn mip_extent(dim: nat, mip: nat, block: nat) -> nat {
    let q = spec_div_round_up(halved(dim, mip) as int, block as int);
    if q < 1 {
        1
    } else {
        q as nat
    }
}

/// Everything that fixes the layout of a surface.
pub struct Surface {
    pub width: nat,
    pub height: nat,
    pub depth: nat,
    pub block_dim: BlockDim,
    /// The block height of the base mipmap in GOBs, once resolved.
    pub block_height_mip0: nat,
    pub bytes_per_pixel: nat,
    pub mipmap_count: nat,
    pub array_count: nat,
}

/// The block height of the base mipmap: the one asked for, or the one
/// inferred from the height; always one GOB for 3D surfaces.
pub open spec fn resolved_block_height_mip0(
    height: nat,
    depth: nat,
    block_dim: BlockDim,
    block_height_mip0: Option<BlockHeight>,
) -> nat {
    if depth == 1 {
        match block_height_mip0 {
            Some(b) => b.spec_value(),
            None => spec_block_height_mip0(
                spec_div_round_up(height as int, block_dim.height as int),
            ).spec_value(),
        }
    } else {
        1
    }
}

/// The surface that the arguments of `swizzle_surface` and
/// `deswizzle_surface` describe.
pub open spec fn surface(
    width: usize,
    height: usize,
    depth: usize,
    block_dim: BlockDim,
    block_height_mip0: Option<BlockHeight>,
    bytes_per_pixel: usize,
    mipmap_count: usize,
    array_count: usize,
) -> Surface {
    Surface {
        width: width as nat,
        height: height as nat,
        depth: depth as nat,
        block_dim,
        block_height_mip0: resolved_block_height_mip0(
            height as nat,
            depth as nat,
            block_dim,
            block_height_mip0,
        ),
        bytes_per_pixel: bytes_per_pixel as nat,
        mipmap_count: mipmap_count as nat,
        array_count: array_count as nat,
    }
}

/// `s` followed by zeros up to a multiple of `a` bytes.
pub open spec fn pad_to(s: Seq<u8>, a: int) -> Seq<u8> {
    s + Seq::new((spec_align_up(s.len() as int, a) - s.len()) as nat, |i: int| 0u8)
}

impl Surface {
    /// The shape of mipmap `m` of every layer.
    pub open spec fn mip(self, m: nat) -> MipShape {
        let h = mip_extent(self.height, m, self.block_dim.height as nat);
        mip_shape(
            mip_extent(self.width, m, self.block_dim.width as nat),
            h,
            mip_extent(self.depth, m, self.block_dim.depth as nat),
            spec_mip_block_height(h as int, self.block_height_mip0),
            self.bytes_per_pixel,
        )
    }

    /// The block-linear bytes of the first `n` mipmaps of a layer.
    pub open spec fn swizzled_layer_size(self, n: nat) -> int
        decreases n,
    {
        if n == 0 {
            0
        } else {
            self.swizzled_layer_size((n - 1) as nat) + self.mip((n - 1) as nat).swizzled_size()
        }
    }

    /// The linear bytes of the first `n` mipmaps of a layer.
    pub open spec fn linear_layer_size(self, n: nat) -> int
        decreases n,
    {
        if n == 0 {
            0
        } else {
            self.linear_layer_size((n - 1) as nat) + self.mip((n - 1) as nat).linear_size()
        }
    }

    /// The alignment of array layers in the block-linear layout: one block of
    /// the base mipmap.
    pub open spec fn layer_alignment(self) -> int {
        let h0 = spec_div_round_up(self.height as int, self.block_dim.height as int);
        (512 * spec_mip_block_height(if h0 < 1 { 1 } else { h0 }, self.block_height_mip0)) as int
    }

    /// The distance between array layers in the block-linear layout.
    pub open spec fn swizzled_layer_stride(self) -> int {
        if self.array_count > 1 {
            spec_align_up(self.swizzled_layer_size(self.mipmap_count), self.layer_alignment())
        } else {
            self.swizzled_layer_size(self.mipmap_count)
        }
    }

    /// The bytes of the whole surface in the block-linear layout.
    pub open spec fn swizzled_surface_size(self) -> int {
        self.array_count * self.swizzled_layer_stride()
    }

    /// The bytes of the whole surface in the linear layout.
    pub open spec fn linear_surface_size(self) -> int {
        self.array_count * self.linear_layer_size(self.mipmap_count)
    }

    /// The arguments are in the domain of the conversion, and both layouts
    /// of the surface fit in memory.
    pub open spec fn fits(self) -> bool {
        &&& self.block_dim.wf()
        &&& self.bytes_per_pixel >= 1
        &&& self.swizzled_surface_size() <= usize::MAX
        &&& self.linear_surface_size() <= usize::MAX
    }

    /// The distance between layers in the source.
    pub open spec fn input_stride(self, deswizzle: bool) -> int {
        if deswizzle {
            self.swizzled_layer_stride()
        } else {
            self.linear_layer_size(self.mipmap_count)
        }
    }

    /// The distance between layers in the output.
    pub open spec fn output_stride(self, deswizzle: bool) -> int {
        if deswizzle {
            self.linear_layer_size(self.mipmap_count)
        } else {
            self.swizzled_layer_stride()
        }
    }

    /// Where mipmap `m` of a layer starts in the source, from the layer's
    /// start.
    pub open spec fn input_offset(self, m: nat, deswizzle: bool) -> int {
        if deswizzle {
            self.swizzled_layer_size(m)
        } else {
            self.linear_layer_size(m)
        }
    }

    /// The bytes that the source must hold: the padding after the last layer
    /// of a block-linear source is not read.
    pub open spec fn input_size(self, deswizzle: bool) -> int {
        if self.array_count == 0 {
            0
        } else if deswizzle {
            (self.array_count - 1) * self.swizzled_layer_stride() + self.swizzled_layer_size(
                self.mipmap_count,
            )
        } else {
            self.linear_surface_size()
        }
    }

    /// The output of the first `n` mipmaps of the layer that starts at `base`
    /// in `source`.
    pub open spec fn layer_output(self, source: Seq<u8>, base: int, n: nat, deswizzle: bool) -> Seq<
        u8,
    >
        decreases n,
    {
        if n == 0 {
            Seq::empty()
        } else {
            self.layer_output(source, base, (n - 1) as nat, deswizzle) + mip_output(
                self.mip((n - 1) as nat),
                source,
                base + self.input_offset((n - 1) as nat, deswizzle),
                deswizzle,
            )
        }
    }

    /// The output of the first `k` layers; block-linear layers of an array are
    /// padded to the layer alignment.
    pub open spec fn layers_output(self, source: Seq<u8>, k: nat, deswizzle: bool) -> Seq<u8>
        decreases k,
    {
        if k == 0 {
            Seq::empty()
        } else {
            let layer = self.layer_output(
                source,
                (k - 1) * self.input_stride(deswizzle),
                self.mipmap_count,
                deswizzle,
            );
            self.layers_output(source, (k - 1) as nat, deswizzle) + if !deswizzle
                && self.array_count > 1 {
                pad_to(layer, self.layer_alignment())
            } else {
                layer
            }
        }
    }

    /// The whole output of a conversion of `source`.
    pub open spec fn output(self, source: Seq<u8>, deswizzle: bool) -> Seq<u8> {
        self.layers_output(source, self.array_count, deswizzle)
    }

    /// The block-linear layout of the linear surface `source`.
    pub open spec fn swizzled(self, source: Seq<u8>) -> Seq<u8> {
        self.output(source, false)
    }

    /// The linear layout of the block-linear surface `source`.
    pub open spec fn deswizzled(self, source: Seq<u8>) -> Seq<u8> {
        self.output(source, true)
    }
}

/// A resolved base block height is a legal one.
pub proof fn lemma_resolved_block_height_legal(
    height: nat,
    depth: nat,
    block_dim: BlockDim,
    block_height_mip0: Option<BlockHeight>,
)
    ensures
        is_block_height_value(
            resolved_block_height_mip0(height, depth, block_dim, block_height_mip0) as int,
        ),
{
}

/// Every mipmap of a surface in the domain has a well-formed shape.
pub proof fn lemma_mip_wf(surf: Surface, m: nat)
    requires
        surf.block_dim.wf(),
        surf.bytes_per_pixel >= 1,
        is_block_height_value(surf.block_height_mip0 as int),
    ensures
        surf.mip(m).wf(),
        is_block_height_value(surf.mip(m).block_height as int),
{
    let h = mip_extent(surf.height, m, surf.block_dim.height as nat);
    lemma_mip_block_height_legal(h as int, surf.block_height_mip0);
}

/// Layer sizes grow with the number of mipmaps, one mipmap at a time.
pub proof fn lemma_layer_sizes_grow(surf: Surface, a: nat, b: nat)
    requires
        surf.block_dim.wf(),
        surf.bytes_per_pixel >= 1,
        is_block_height_value(surf.block_height_mip0 as int),
        a <= b,
    ensures
        0 <= surf.swizzled_layer_size(a) <= surf.swizzled_layer_size(b),
        0 <= surf.linear_layer_size(a) <= surf.linear_layer_size(b),
        a < b ==> surf.swizzled_layer_size(a) + surf.mip(a).swizzled_size()
            <= surf.swizzled_layer_size(b),
        a < b ==> surf.linear_layer_size(a) + surf.mip(a).linear_size() <= surf.linear_layer_size(
            b,
        ),
    decreases b,
{
    if b > 0 {
        lemma_mip_wf(surf, (b - 1) as nat);
        lemma_shape_sizes(surf.mip((b - 1) as nat));
        lemma_layer_sizes_grow(surf, if a < b { a } else { (b - 1) as nat }, (b - 1) as nat);
    }
}

/// The length of the output of the first `n` mipmaps of a layer.
pub proof fn lemma_layer_output_len(surf: Surface, source: Seq<u8>, base: int, n: nat, deswizzle: bool)
    requires
        surf.block_dim.wf(),
        surf.bytes_per_pixel >= 1,
        is_block_height_value(surf.block_height_mip0 as int),
    ensures
        surf.layer_output(source, base, n, deswizzle).len() == surf.input_offset(n, !deswizzle),
    decreases n,
{
    if n > 0 {
        lemma_layer_output_len(surf, source, base, (n - 1) as nat, deswizzle);
        lemma_mip_wf(surf, (n - 1) as nat);
        lemma_shape_sizes(surf.mip((n - 1) as nat));
    }
}

/// The layer alignment is positive, and the stride between block-linear
/// layers holds a whole layer.
pub proof fn lemma_stride(surf: Surface)
    requires
        surf.block_dim.wf(),
        surf.bytes_per_pixel >= 1,
        is_block_height_value(surf.block_height_mip0 as int),
    ensures
        surf.layer_alignment() >= 512,
        surf.swizzled_layer_stride() >= surf.swizzled_layer_size(surf.mipmap_count),
        surf.swizzled_layer_size(surf.mipmap_count) >= 0,
        surf.linear_layer_size(surf.mipmap_count) >= 0,
{
    let h0 = spec_div_round_up(surf.height as int, surf.block_dim.height as int);
    lemma_mip_block_height_legal(if h0 < 1 { 1 } else { h0 }, surf.block_height_mip0);
    lemma_layer_sizes_grow(surf, 0, surf.mipmap_count);
    lemma_div_round_up(surf.swizzled_layer_size(surf.mipmap_count), surf.layer_alignment());
}

/// The length of the output of the first `k` layers.
pub proof fn lemma_layers_output_len(surf: Surface, source: Seq<u8>, k: nat, deswizzle: bool)
    requires
        surf.block_dim.wf(),
        surf.bytes_per_pixel >= 1,
        is_block_height_value(surf.block_height_mip0 as int),
    ensures
        surf.layers_output(source, k, deswizzle).len() == k * surf.output_stride(deswizzle),
    decreases k,
{
    if k > 0 {
        lemma_layers_output_len(surf, source, (k - 1) as nat, deswizzle);
        lemma_layer_output_len(
            surf,
            source,
            (k - 1) * surf.input_stride(deswizzle),
            surf.mipmap_count,
            deswizzle,
        );
        lemma_stride(surf);
        let layer = surf.layer_output(
            source,
            (k - 1) * surf.input_stride(deswizzle),
            surf.mipmap_count,
            deswizzle,
        );
        lemma_div_round_up(layer.len() as int, surf.layer_alignment());
        let prev = surf.layers_output(source, (k - 1) as nat, deswizzle);
        if !deswizzle && surf.array_count > 1 {
            assert(pad_to(layer, surf.layer_alignment()).len() == surf.output_stride(deswizzle));
            assert(surf.layers_output(source, k, deswizzle) == prev + pad_to(
                layer,
                surf.layer_alignment(),
            ));
        } else {
            assert(layer.len() == surf.output_stride(deswizzle));
            assert(surf.layers_output(source, k, deswizzle) == prev + layer);
        }
        assert((k - 1) * surf.output_stride(deswizzle) + surf.output_stride(deswizzle) == k
            * surf.output_stride(deswizzle)) by (nonlinear_arith);
    } else {
        assert(0 * surf.output_stride(deswizzle) == 0);
    }
}

/// `dim >> mip` divided by `block` and rounded up, at least 1.
fn mip_dimension(dim: usize, mip: usize, block: usize) -> (r: usize)
    requires
        block >= 1,
    ensures
        r == mip_extent(dim as nat, mip as nat, block as nat),
{
    let mut v = dim;
    let mut i: usize = 0;
    while i < mip
        invariant
            i <= mip,
            v == halved(dim as nat, i as nat),
        decreases mip - i,
    {
        v = v / 2;
        i = i + 1;
    }
    let q = div_round_up(v, block);
    if q < 1 {
        1
    } else {
        q
    }
}

/// `x` rounded up to a multiple of `a`.
fn align_up(x: usize, a: usize) -> (r: usize)
    requires
        a > 0,
        spec_align_up(x as int, a as int) <= usize::MAX,
    ensures
        r == spec_align_up(x as int, a as int),
{
    div_round_up(x, a) * a
}

/// The bounds that every step of the walk over layers and mipmaps stays in.
proof fn lemma_walk_bounds(surf: Surface, layer: nat, m: nat, deswizzle: bool)
    requires
        surf.fits(),
        is_block_height_value(surf.block_height_mip0 as int),
        layer < surf.array_count,
        m < surf.mipmap_count,
    ensures
        surf.mip(m).wf(),
        is_block_height_value(surf.mip(m).block_height as int),
        surf.mip(m).swizzled_size() <= usize::MAX,
        surf.mip(m).linear_size() <= usize::MAX,
        layer * surf.output_stride(deswizzle) + surf.input_offset(m + 1, !deswizzle)
            <= surf.array_count * surf.output_stride(deswizzle) <= usize::MAX,
        layer * surf.input_stride(deswizzle) + surf.input_offset(m + 1, deswizzle)
            <= surf.input_size(deswizzle),
        surf.input_offset(m, deswizzle) + mip_input_size(surf.mip(m), deswizzle)
            == surf.input_offset(m + 1, deswizzle),
        surf.input_offset(m, !deswizzle) + mip_input_size(surf.mip(m), !deswizzle)
            == surf.input_offset(m + 1, !deswizzle),
{
    lemma_mip_wf(surf, m);
    lemma_stride(surf);
    lemma_layer_sizes_grow(surf, m, (m + 1) as nat);
    lemma_layer_sizes_grow(surf, (m + 1) as nat, surf.mipmap_count);
    lemma_layer_sizes_grow(surf, 0, m);
    let n = surf.array_count as int;
    let st = surf.swizzled_layer_stride();
    let lin = surf.linear_layer_size(surf.mipmap_count);
    let l = layer as int;
    assert(l * st + st <= n * st && l * lin + lin <= n * lin && st <= n * st && lin <= n * lin)
        by (nonlinear_arith)
        requires
            0 <= l < n,
            st >= 0,
            lin >= 0,
    ;
    assert(l * st <= (n - 1) * st) by (nonlinear_arith)
        requires
            0 <= l < n,
            st >= 0,
    ;
}

/// The extent and block height of mipmap `mip`.
fn mip_layout(
    width: usize,
    height: usize,
    depth: usize,
    block_dim: BlockDim,
    block_height_mip0: BlockHeight,
    mip: usize,
) -> (r: (usize, usize, usize, BlockHeight))
    requires
        block_dim.wf(),
    ensures
        r.0 == mip_extent(width as nat, mip as nat, block_dim.width as nat),
        r.1 == mip_extent(height as nat, mip as nat, block_dim.height as nat),
        r.2 == mip_extent(depth as nat, mip as nat, block_dim.depth as nat),
        r.3.spec_value() == spec_mip_block_height(r.1 as int, block_height_mip0.spec_value()),
{
    let mip_width = mip_dimension(width, mip, block_dim.width);
    let mip_height = mip_dimension(height, mip, block_dim.height);
    let mip_depth = mip_dimension(depth, mip, block_dim.depth);
    let mip_block_height = mip_block_height(mip_height, block_height_mip0);
    (mip_width, mip_height, mip_depth, mip_block_height)
}

/// Converts every layer and mipmap of `source` in one direction: from the
/// block-linear layout to the linear one when `DESWIZZLE`, the other way
/// otherwise.
#[verifier::rlimit(50)]
fn swizzle_surface_inner<const DESWIZZLE: bool>(
    width: usize,
    height: usize,
    depth: usize,
    source: &[u8],
    block_dim: BlockDim,
    block_height_mip0: Option<BlockHeight>,
    bytes_per_pixel: usize,
    mipmap_count: usize,
    array_count: usize,
) -> (r: Result<Vec<u8>, SwizzleError>)
    requires
        surface(width, height, depth, block_dim, block_height_mip0, bytes_per_pixel, mipmap_count, array_count).fits(),
    ensures
        ({
            let surf = surface(width, height, depth, block_dim, block_height_mip0, bytes_per_pixel, mipmap_count, array_count);
            &&& r.is_ok() <==> surf.input_size(DESWIZZLE) <= source@.len()
            &&& r matches Ok(v) ==> v@ == surf.output(source@, DESWIZZLE)
            &&& r matches Err(e) ==> e == SwizzleError::NotEnoughData {
                expected_size: surf.input_size(DESWIZZLE) as usize,
                actual_size: source@.len() as usize,
            }
        }),
{
    let ghost surf = surface(width, height, depth, block_dim, block_height_mip0, bytes_per_pixel, mipmap_count, array_count);
    proof {
        lemma_resolved_block_height_legal(height as nat, depth as nat, block_dim, block_height_mip0);
        lemma_stride(surf);
    }
    // The block height can be inferred if not specified.
    let bh0 = if depth == 1 {
        match block_height_mip0 {
            Some(b) => b,
            None => infer_block_height(div_round_up(height, block_dim.height)),
        }
    } else {
        BlockHeight::One
    };
    assert(bh0.spec_value() == surf.block_height_mip0);
    if array_count == 0 {
        return Ok(Vec::new());
    }
    // The size of one layer in both layouts.
    let mut swizzled_layer_size: usize = 0;
    let mut linear_layer_size: usize = 0;
    let mut mip: usize = 0;
    while mip < mipmap_count
        invariant
            surf == surface(width, height, depth, block_dim, block_height_mip0, bytes_per_pixel, mipmap_count, array_count),
            surf.fits(),
            bh0.spec_value() == surf.block_height_mip0,
            is_block_height_value(surf.block_height_mip0 as int),
            0 < array_count,
            mip <= mipmap_count,
            swizzled_layer_size == surf.swizzled_layer_size(mip as nat),
            linear_layer_size == surf.linear_layer_size(mip as nat),
        decreases mipmap_count - mip,
    {
        proof {
            lemma_walk_bounds(surf, 0, mip as nat, false);
            lemma_walk_bounds(surf, 0, mip as nat, true);
        }
        let (w, h, d, bh) = mip_layout(width, height, depth, block_dim, bh0, mip);
        swizzled_layer_size = swizzled_layer_size + crate::mipmap::swizzled_mip_size(w, h, d, bh, bytes_per_pixel);
        linear_layer_size = linear_layer_size + crate::mipmap::deswizzled_mip_size(w, h, d, bytes_per_pixel);
        mip = mip + 1;
    }
    // Array layers are aligned to one block of the base mipmap.
    let base_height = div_round_up(height, block_dim.height);
    let base_height = if base_height < 1 {
        1
    } else {
        base_height
    };
    let alignment = 512 * mip_block_height(base_height, bh0).value();
    proof {
        let n = array_count as int;
        let st = surf.swizzled_layer_stride();
        let lin = surf.linear_layer_size(mipmap_count as nat);
        assert(st <= n * st && lin <= n * lin && (n - 1) * st + st == n * st) by (nonlinear_arith)
            requires
                n >= 1,
                st >= 0,
                lin >= 0,
        ;
    }
    let stride = if array_count > 1 {
        align_up(swizzled_layer_size, alignment)
    } else {
        swizzled_layer_size
    };
    let input_size = if DESWIZZLE {
        (array_count - 1) * stride + swizzled_layer_size
    } else {
        array_count * linear_layer_size
    };
    if source.len() < input_size {
        return Err(SwizzleError::NotEnoughData { expected_size: input_size, actual_size: source.len() });
    }
    let output_size = if DESWIZZLE {
        array_count * linear_layer_size
    } else {
        array_count * stride
    };
    let mut result: Vec<u8> = Vec::with_capacity(output_size);
    let mut src_offset: usize = 0;
    let mut layer: usize = 0;
    proof {
        assert(surf.layers_output(source@, 0, DESWIZZLE) =~= result@);
    }
    while layer < array_count
        invariant
            surf == surface(width, height, depth, block_dim, block_height_mip0, bytes_per_pixel, mipmap_count, array_count),
            surf.fits(),
            bh0.spec_value() == surf.block_height_mip0,
            is_block_height_value(surf.block_height_mip0 as int),
            layer <= array_count,
            alignment == surf.layer_alignment(),
            stride == surf.swizzled_layer_stride(),
            input_size == surf.input_size(DESWIZZLE),
            input_size <= source@.len(),
            result@ == surf.layers_output(source@, layer as nat, DESWIZZLE),
            src_offset == layer * surf.input_stride(DESWIZZLE),
        decreases array_count - layer,
    {
        let mut mip: usize = 0;
        proof {
            lemma_layers_output_len(surf, source@, layer as nat, DESWIZZLE);
            assert(result@ =~= surf.layers_output(source@, layer as nat, DESWIZZLE) + surf.layer_output(source@, layer * surf.input_stride(DESWIZZLE), 0, DESWIZZLE));
        }
        while mip < mipmap_count
            invariant
                surf == surface(width, height, depth, block_dim, block_height_mip0, bytes_per_pixel, mipmap_count, array_count),
                surf.fits(),
                bh0.spec_value() == surf.block_height_mip0,
                is_block_height_value(surf.block_height_mip0 as int),
                layer < array_count,
                mip <= mipmap_count,
                input_size == surf.input_size(DESWIZZLE),
                input_size <= source@.len(),
                result@ == surf.layers_output(source@, layer as nat, DESWIZZLE) + surf.layer_output(
                    source@,
                    layer * surf.input_stride(DESWIZZLE),
                    mip as nat,
                    DESWIZZLE,
                ),
                src_offset == layer * surf.input_stride(DESWIZZLE) + surf.input_offset(mip as nat, DESWIZZLE),
            decreases mipmap_count - mip,
        {
            proof {
                lemma_walk_bounds(surf, layer as nat, mip as nat, DESWIZZLE);
                lemma_layers_output_len(surf, source@, layer as nat, DESWIZZLE);
                lemma_layer_output_len(surf, source@, layer * surf.input_stride(DESWIZZLE), mip as nat, DESWIZZLE);
            }
            let (w, h, d, bh) = mip_layout(width, height, depth, block_dim, bh0, mip);
            assert(mip_shape(w as nat, h as nat, d as nat, bh.spec_value(), bytes_per_pixel as nat) == surf.mip(mip as nat));
            let ghost before = result@;
            match swizzle_mipmap::<DESWIZZLE>(w, h, d, bh, bytes_per_pixel, source, &mut result, &mut src_offset) {
                Ok(()) => {},
                Err(e) => {
                    return Err(e);
                },
            }
            proof {
                assert(result@ =~= surf.layers_output(source@, layer as nat, DESWIZZLE) + surf.layer_output(
                    source@,
                    layer * surf.input_stride(DESWIZZLE),
                    (mip + 1) as nat,
                    DESWIZZLE,
                ));
            }
            mip = mip + 1;
        }
        proof {
            lemma_layers_output_len(surf, source@, layer as nat, DESWIZZLE);
            lemma_layer_output_len(surf, source@, layer * surf.input_stride(DESWIZZLE), mipmap_count as nat, DESWIZZLE);
            lemma_layers_output_len(surf, source@, (layer + 1) as nat, DESWIZZLE);
        }
        // Alignment for array layers.
        if array_count > 1 {
            let ghost q = spec_div_round_up(surf.swizzled_layer_size(mipmap_count as nat), alignment as int);
            proof {
                lemma_stride(surf);
                lemma_div_round_up(surf.swizzled_layer_size(mipmap_count as nat), alignment as int);
                assert(layer * stride == (layer * q) * alignment) by (nonlinear_arith)
                    requires
                        stride == q * alignment,
                ;
                assert(layer * q >= 0) by (nonlinear_arith)
                    requires
                        layer >= 0,
                        q >= 0,
                ;
                lemma_div_round_up(surf.swizzled_layer_size(mipmap_count as nat), alignment as int);
                lemma_align_up_shift(layer * q, alignment as int, surf.swizzled_layer_size(mipmap_count as nat));
                assert(layer * stride + stride <= array_count * stride) by (nonlinear_arith)
                    requires
                        layer < array_count,
                        stride >= 0,
                ;
            }
            if DESWIZZLE {
                // Align the swizzled source offset.
                src_offset = align_up(src_offset, alignment);
            } else {
                // Align the swizzled output data.
                let new_length = align_up(result.len(), alignment);
                let ghost unpadded = result@;
                result.resize(new_length, 0);
                proof {
                    let layer_out = surf.layer_output(source@, layer * surf.input_stride(DESWIZZLE), mipmap_count as nat, DESWIZZLE);
                    let expected = surf.layers_output(source@, layer as nat, DESWIZZLE) + pad_to(layer_out, alignment as int);
                    assert forall|j: int| 0 <= j < result@.len() implies result@[j] == expected[j] by {
                        if j >= unpadded.len() {
                            assert(cloned::<u8>(0, result@[j]));
                        } else {
                            assert(result@[j] == unpadded[j]);
                        }
                    }
                    assert(result@ =~= expected);
                }
            }
        } else {
            proof {
                assert(layer == 0);
                assert(layer * surf.input_stride(DESWIZZLE) == 0 && (layer + 1) * surf.input_stride(DESWIZZLE) == surf.input_stride(DESWIZZLE)) by (nonlinear_arith)
                    requires
                        layer == 0,
                ;
                assert(surf.input_stride(DESWIZZLE) == surf.input_offset(mipmap_count as nat, DESWIZZLE));
                assert(src_offset == (layer + 1) * surf.input_stride(DESWIZZLE));
                assert(result@ =~= surf.layers_output(source@, (layer + 1) as nat, DESWIZZLE));
            }
        }
        proof {
            assert(layer * surf.input_stride(DESWIZZLE) + surf.input_stride(DESWIZZLE) == (layer + 1) * surf.input_stride(DESWIZZLE)) by (nonlinear_arith);
        }
        layer = layer + 1;
    }
    Ok(result)
}

/// Swizzles all the array layers and mipmaps in `source` using the block
/// linear algorithm to a combined vector with appropriate mipmap and array
/// alignment.
///
/// Set `block_height_mip0` to `None` to infer the block height from the
/// specified dimensions. Fails with `NotEnoughData` exactly when `source`
/// holds fewer bytes than the linear surface.
pub fn swizzle_surface(
    width: usize,
    height: usize,
    depth: usize,
    source: &[u8],
    block_dim: BlockDim,
    block_height_mip0: Option<BlockHeight>,
    bytes_per_pixel: usize,
    mipmap_count: usize,
    array_count: usize,
) -> (r: Result<Vec<u8>, SwizzleError>)
    requires
        surface(width, height, depth, block_dim, block_height_mip0, bytes_per_pixel, mipmap_count, array_count).fits(),
    ensures
        ({
            let surf = surface(width, height, depth, block_dim, block_height_mip0, bytes_per_pixel, mipmap_count, array_count);
            &&& r.is_ok() <==> surf.linear_surface_size() <= source@.len()
            &&& r matches Ok(v) ==> v@ == surf.swizzled(source@)
            &&& r matches Ok(v) ==> v@.len() == surf.swizzled_surface_size()
            &&& r matches Err(e) ==> e == SwizzleError::NotEnoughData {
                expected_size: surf.linear_surface_size() as usize,
                actual_size: source@.len() as usize,
            }
        }),
{
    let ghost surf = surface(width, height, depth, block_dim, block_height_mip0, bytes_per_pixel, mipmap_count, array_count);
    let r = swizzle_surface_inner::<false>(
        width,
        height,
        depth,
        source,
        block_dim,
        block_height_mip0,
        bytes_per_pixel,
        mipmap_count,
        array_count,
    );
    proof {
        lemma_resolved_block_height_legal(height as nat, depth as nat, block_dim, block_height_mip0);
        lemma_layers_output_len(surf, source@, array_count as nat, false);
    }
    r
}

/// Deswizzles all the array layers and mipmaps in `source` using the block
/// linear algorithm to a new vector without any padding between array
/// layers or mipmaps.
///
/// Set `block_height_mip0` to `None` to infer the block height from the
/// specified dimensions. Fails with `NotEnoughData` exactly when `source`
/// ends before the last mipmap of the last layer.
pub fn deswizzle_surface(
    width: usize,
    height: usize,
    depth: usize,
    source: &[u8],
    block_dim: BlockDim,
    block_height_mip0: Option<BlockHeight>,
    bytes_per_pixel: usize,
    mipmap_count: usize,
    array_count: usize,
) -> (r: Result<Vec<u8>, SwizzleError>)
    requires
        surface(width, height, depth, block_dim, block_height_mip0, bytes_per_pixel, mipmap_count, array_count).fits(),
    ensures
        ({
            let surf = surface(width, height, depth, block_dim, block_height_mip0, bytes_per_pixel, mipmap_count, array_count);
            &&& r.is_ok() <==> surf.input_size(true) <= source@.len()
            &&& r matches Ok(v) ==> v@ == surf.deswizzled(source@)
            &&& r matches Ok(v) ==> v@.len() == surf.linear_surface_size()
            &&& r matches Err(e) ==> e == SwizzleError::NotEnoughData {
                expected_size: surf.input_size(true) as usize,
                actual_size: source@.len() as usize,
            }
        }),
{
    let ghost surf = surface(width, height, depth, block_dim, block_height_mip0, bytes_per_pixel, mipmap_count, array_count);
    let r = swizzle_surface_inner::<true>(
        width,
        height,
        depth,
        source,
        block_dim,
        block_height_mip0,
        bytes_per_pixel,
        mipmap_count,
        array_count,
    );
    proof {
        lemma_resolved_block_height_legal(height as nat, depth as nat, block_dim, block_height_mip0);
        lemma_layers_output_len(surf, source@, array_count as nat, true);
    }
    r
}

} // verus!
