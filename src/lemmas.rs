//! Facts that relate several conversions of a surface.
use crate::gob::{lemma_linear_index_inverse, lemma_shape_sizes, MipShape};
use crate::is_block_height_value;
use crate::mipmap::mip_output;
use crate::surface::{
    lemma_layer_output_len, lemma_layer_sizes_grow, lemma_layers_output_len, lemma_mip_wf,
    lemma_stride, pad_to, Surface,
};
use vstd::prelude::*;

verus! {

/// The surface's block dimensions and bytes per pixel are positive and its
/// base block height is legal.
pub open spec fn valid(surf: Surface) -> bool {
    &&& surf.block_dim.wf()
    &&& surf.bytes_per_pixel >= 1
    &&& is_block_height_value(surf.block_height_mip0 as int)
}

/// Every byte of `s` is zero.
pub open spec fn all_zero(s: Seq<u8>) -> bool {
    forall|i: int| 0 <= i < s.len() ==> #[trigger] s[i] == 0
}

/// The block-linear bytes of the first `a` mipmaps of a layer never exceed
/// those of the first `b`, for `a <= b`.
pub proof fn lemma_swizzled_mip_sizes_grow(surf: Surface, a: nat, b: nat)
    requires
        valid(surf),
        a <= b,
    ensures
        surf.swizzled_layer_size(a) <= surf.swizzled_layer_size(b),
{
    lemma_layer_sizes_grow(surf, a, b);
}

/// The length of a swizzled surface depends on its layout alone, not on the
/// bytes swizzled.
pub proof fn lemma_swizzled_length_depends_on_layout_only(
    surf: Surface,
    a: Seq<u8>,
    b: Seq<u8>,
)
    requires
        valid(surf),
    ensures
        surf.swizzled(a).len() == surf.swizzled(b).len(),
        surf.swizzled(a).len() == surf.swizzled_surface_size(),
{
    lemma_layers_output_len(surf, a, surf.array_count, false);
    lemma_layers_output_len(surf, b, surf.array_count, false);
}

/// A mipmap swizzled from zero bytes is zero, padding included.
proof fn lemma_zero_mip(s: MipShape, source: Seq<u8>, start: int)
    requires
        s.wf(),
        0 <= start,
        start + s.linear_size() <= source.len(),
        forall|i: int| start <= i < start + s.linear_size() ==> #[trigger] source[i] == 0,
    ensures
        all_zero(s.swizzled(source, start)),
{
    assert forall|p: int| 0 <= p < s.swizzled(source, start).len() implies #[trigger] s.swizzled(
        source,
        start,
    )[p] == 0 by {
        let x = s.swizzled_x(p);
        let y = s.swizzled_y(p);
        let z = s.swizzled_z(p);
        if s.in_extent(x, y, z) {
            lemma_linear_index_inverse(s, x, y, z);
            assert(source[start + s.linear_index(x, y, z)] == 0);
        }
    }
}

/// The first `n` mipmaps of a layer swizzled from zero bytes are zero.
proof fn lemma_zero_layer(surf: Surface, source: Seq<u8>, base: int, n: nat)
    requires
        valid(surf),
        0 <= base,
        base + surf.linear_layer_size(n) <= source.len(),
        forall|i: int| base <= i < base + surf.linear_layer_size(n) ==> #[trigger] source[i] == 0,
    ensures
        all_zero(surf.layer_output(source, base, n, false)),
    decreases n,
{
    if n > 0 {
        let m = (n - 1) as nat;
        lemma_layer_sizes_grow(surf, m, n);
        lemma_layer_sizes_grow(surf, 0, m);
        lemma_zero_layer(surf, source, base, m);
        lemma_mip_wf(surf, m);
        lemma_zero_mip(surf.mip(m), source, base + surf.linear_layer_size(m));
        let prev = surf.layer_output(source, base, m, false);
        let cur = mip_output(surf.mip(m), source, base + surf.input_offset(m, false), false);
        assert(surf.layer_output(source, base, n, false) == prev + cur);
        assert forall|i: int| 0 <= i < (prev + cur).len() implies #[trigger] (prev + cur)[i]
            == 0 by {
            if i >= prev.len() {
                assert(cur[i - prev.len()] == 0);
            } else {
                assert(prev[i] == 0);
            }
        }
    }
}

/// The first `k` layers swizzled from zero bytes are zero.
proof fn lemma_zero_layers(surf: Surface, source: Seq<u8>, k: nat)
    requires
        valid(surf),
        k <= surf.array_count,
        surf.linear_surface_size() <= source.len(),
        all_zero(source),
    ensures
        all_zero(surf.layers_output(source, k, false)),
    decreases k,
{
    if k > 0 {
        let lin = surf.linear_layer_size(surf.mipmap_count);
        lemma_stride(surf);
        assert((k - 1) * lin + lin <= surf.array_count * lin && 0 <= (k - 1) * lin)
            by (nonlinear_arith)
            requires
                1 <= k <= surf.array_count,
                lin >= 0,
        ;
        lemma_zero_layers(surf, source, (k - 1) as nat);
        lemma_zero_layer(surf, source, (k - 1) * lin, surf.mipmap_count);
        let prev = surf.layers_output(source, (k - 1) as nat, false);
        let layer = surf.layer_output(source, (k - 1) * lin, surf.mipmap_count, false);
        let cur = if surf.array_count > 1 {
            pad_to(layer, surf.layer_alignment())
        } else {
            layer
        };
        assert(surf.layers_output(source, k, false) == prev + cur);
        assert forall|i: int| 0 <= i < (prev + cur).len() implies #[trigger] (prev + cur)[i]
            == 0 by {
            if i >= prev.len() {
                let j = i - prev.len();
                if j < layer.len() {
                    assert(layer[j] == 0);
                }
            } else {
                assert(prev[i] == 0);
            }
        }
    }
}

/// Swizzling a zero-filled linear surface gives a zero-filled block-linear
/// surface, padding included.
pub proof fn lemma_zero_swizzles_to_zero(surf: Surface, source: Seq<u8>)
    requires
        valid(surf),
        surf.linear_surface_size() <= source.len(),
        all_zero(source),
    ensures
        surf.swizzled(source) == Seq::new(surf.swizzled_surface_size() as nat, |i: int| 0u8),
{
    lemma_zero_layers(surf, source, surf.array_count);
    lemma_layers_output_len(surf, source, surf.array_count, false);
    assert(surf.swizzled(source) =~= Seq::new(surf.swizzled_surface_size() as nat, |i: int| 0u8));
}

/// Byte `p` of mipmap `m` of a swizzled layer lies after the mipmaps before
/// it.
proof fn lemma_layer_byte(surf: Surface, source: Seq<u8>, base: int, n: nat, m: nat, p: int)
    requires
        valid(surf),
        m < n,
        0 <= p < surf.mip(m).swizzled_size(),
    ensures
        surf.layer_output(source, base, n, false)[surf.swizzled_layer_size(m) + p] == surf.mip(
            m,
        ).swizzled(source, base + surf.linear_layer_size(m))[p],
    decreases n,
{
    let k = (n - 1) as nat;
    lemma_layer_output_len(surf, source, base, k, false);
    lemma_layer_sizes_grow(surf, m, k);
    lemma_layer_sizes_grow(surf, 0, m);
    let prev = surf.layer_output(source, base, k, false);
    let cur = mip_output(surf.mip(k), source, base + surf.input_offset(k, false), false);
    assert(surf.layer_output(source, base, n, false) == prev + cur);
    if m < k {
        lemma_layer_byte(surf, source, base, k, m, p);
    }
}

/// Byte `i` of swizzled layer `k` lies after the layers before it.
proof fn lemma_layers_byte(surf: Surface, source: Seq<u8>, big_k: nat, k: nat, i: int)
    requires
        valid(surf),
        k < big_k,
        0 <= i < surf.swizzled_layer_size(surf.mipmap_count),
    ensures
        surf.layers_output(source, big_k, false)[k * surf.swizzled_layer_stride() + i]
            == surf.layer_output(
            source,
            k * surf.linear_layer_size(surf.mipmap_count),
            surf.mipmap_count,
            false,
        )[i],
    decreases big_k,
{
    let j = (big_k - 1) as nat;
    let st = surf.swizzled_layer_stride();
    lemma_stride(surf);
    lemma_layers_output_len(surf, source, j, false);
    let prev = surf.layers_output(source, j, false);
    let layer = surf.layer_output(
        source,
        j * surf.input_stride(false),
        surf.mipmap_count,
        false,
    );
    lemma_layer_output_len(surf, source, j * surf.input_stride(false), surf.mipmap_count, false);
    let cur = if surf.array_count > 1 {
        pad_to(layer, surf.layer_alignment())
    } else {
        layer
    };
    assert(surf.layers_output(source, big_k, false) == prev + cur);
    if k < j {
        lemma_layers_byte(surf, source, j, k, i);
        assert(k * st + st <= j * st && k * st >= 0) by (nonlinear_arith)
            requires
                k < j,
                st >= 0,
        ;
    } else {
        assert(k * st == j * st);
    }
}

/// Deswizzling one mipmap of a swizzled surface gives back its linear bytes.
proof fn lemma_deswizzle_mip(surf: Surface, source: Seq<u8>, k: nat, m: nat)
    requires
        valid(surf),
        k < surf.array_count,
        m < surf.mipmap_count,
        source.len() == surf.linear_surface_size(),
    ensures
        ({
            let lin = surf.linear_layer_size(surf.mipmap_count);
            let start = k * lin + surf.linear_layer_size(m);
            &&& 0 <= start
            &&& start + surf.mip(m).linear_size() <= source.len()
            &&& surf.mip(m).deswizzled(
                surf.swizzled(source),
                k * surf.swizzled_layer_stride() + surf.swizzled_layer_size(m),
            ) == source.subrange(start, start + surf.mip(m).linear_size())
        }),
{
    let s = surf.mip(m);
    let lin = surf.linear_layer_size(surf.mipmap_count);
    let st = surf.swizzled_layer_stride();
    let start = k * lin + surf.linear_layer_size(m);
    let sw = surf.swizzled(source);
    let at = k * st + surf.swizzled_layer_size(m);
    lemma_mip_wf(surf, m);
    lemma_shape_sizes(s);
    lemma_stride(surf);
    lemma_layer_sizes_grow(surf, m, (m + 1) as nat);
    lemma_layer_sizes_grow(surf, (m + 1) as nat, surf.mipmap_count);
    lemma_layer_sizes_grow(surf, 0, m);
    assert(k * lin + lin <= surf.array_count * lin && 0 <= k * lin && 0 <= k * st)
        by (nonlinear_arith)
        requires
            k < surf.array_count,
            lin >= 0,
            st >= 0,
    ;
    let local = s.swizzled(source, start);
    assert forall|i: int| 0 <= i < s.linear_size() implies #[trigger] s.deswizzled(sw, at)[i]
        == s.deswizzled(local, 0)[i] by {
        crate::gob::lemma_linear_inverse(s, i);
        let x = s.linear_x(i);
        let y = s.linear_y(i);
        let z = s.linear_z(i);
        crate::gob::lemma_address_inverse(s, x, y, z);
        let a = s.address(x, y, z);
        lemma_layer_byte(
            surf,
            source,
            k * surf.input_stride(false),
            surf.mipmap_count,
            m,
            a,
        );
        lemma_layers_byte(surf, source, surf.array_count, k, surf.swizzled_layer_size(m) + a);
        assert(k * st + (surf.swizzled_layer_size(m) + a) == at + a);
    }
    assert(s.deswizzled(sw, at) =~= s.deswizzled(local, 0));
    crate::gob::lemma_mip_round_trip(s, source, start);
}

/// Deswizzling the first `n` mipmaps of swizzled layer `k` gives back their
/// linear bytes.
proof fn lemma_deswizzle_layer(surf: Surface, source: Seq<u8>, k: nat, n: nat)
    requires
        valid(surf),
        k < surf.array_count,
        n <= surf.mipmap_count,
        source.len() == surf.linear_surface_size(),
    ensures
        ({
            let lin = surf.linear_layer_size(surf.mipmap_count);
            surf.layer_output(surf.swizzled(source), k * surf.swizzled_layer_stride(), n, true)
                == source.subrange(k * lin, k * lin + surf.linear_layer_size(n))
        }),
    decreases n,
{
    let lin = surf.linear_layer_size(surf.mipmap_count);
    lemma_stride(surf);
    lemma_layer_sizes_grow(surf, n, surf.mipmap_count);
    lemma_layer_sizes_grow(surf, 0, n);
    assert(k * lin + lin <= surf.array_count * lin && 0 <= k * lin) by (nonlinear_arith)
        requires
            k < surf.array_count,
            lin >= 0,
    ;
    if n == 0 {
        assert(source.subrange(k * lin, k * lin) =~= Seq::<u8>::empty());
    } else {
        let m = (n - 1) as nat;
        lemma_deswizzle_layer(surf, source, k, m);
        lemma_deswizzle_mip(surf, source, k, m);
        lemma_layer_sizes_grow(surf, m, n);
        assert(source.subrange(k * lin, k * lin + surf.linear_layer_size(n)) =~= source.subrange(
            k * lin,
            k * lin + surf.linear_layer_size(m),
        ) + source.subrange(k * lin + surf.linear_layer_size(m), k * lin + surf.linear_layer_size(n)));
    }
}

/// Deswizzling the first `k` layers of a swizzled surface gives back their
/// linear bytes.
proof fn lemma_deswizzle_layers(surf: Surface, source: Seq<u8>, k: nat)
    requires
        valid(surf),
        k <= surf.array_count,
        source.len() == surf.linear_surface_size(),
    ensures
        surf.layers_output(surf.swizzled(source), k, true) == source.subrange(
            0,
            k * surf.linear_layer_size(surf.mipmap_count),
        ),
    decreases k,
{
    let lin = surf.linear_layer_size(surf.mipmap_count);
    lemma_stride(surf);
    if k == 0 {
        assert(source.subrange(0, 0 * lin) =~= Seq::<u8>::empty());
    } else {
        let j = (k - 1) as nat;
        lemma_deswizzle_layers(surf, source, j);
        lemma_deswizzle_layer(surf, source, j, surf.mipmap_count);
        assert(j * lin + lin == k * lin && j * lin + lin <= surf.array_count * lin && 0 <= j * lin)
            by (nonlinear_arith)
            requires
                j + 1 == k,
                k <= surf.array_count,
                lin >= 0,
        ;
        assert(source.subrange(0, k * lin) =~= source.subrange(0, j * lin) + source.subrange(
            j * lin,
            j * lin + lin,
        ));
    }
}

/// Deswizzling a swizzled surface gives back the linear surface, and the
/// swizzled surface holds every byte that deswizzling reads.
pub proof fn lemma_round_trip(surf: Surface, source: Seq<u8>)
    requires
        valid(surf),
        source.len() == surf.linear_surface_size(),
    ensures
        surf.input_size(true) <= surf.swizzled(source).len(),
        surf.deswizzled(surf.swizzled(source)) == source,
{
    let lin = surf.linear_layer_size(surf.mipmap_count);
    lemma_stride(surf);
    lemma_layers_output_len(surf, source, surf.array_count, false);
    lemma_deswizzle_layers(surf, source, surf.array_count);
    assert(source.subrange(0, surf.array_count * lin) =~= source);
    if surf.array_count > 0 {
        let st = surf.swizzled_layer_stride();
        assert((surf.array_count - 1) * st + st == surf.array_count * st) by (nonlinear_arith);
    }
}

/// The same surface with a single array layer.
pub open spec fn single_layer(surf: Surface) -> Surface {
    Surface { array_count: 1, ..surf }
}

/// The first `k` layers of `source`, each swizzled on its own as a single
/// layer surface and padded to the layer alignment, one after the other.
pub open spec fn layers_one_by_one(surf: Surface, source: Seq<u8>, k: nat) -> Seq<u8>
    decreases k,
{
    if k == 0 {
        Seq::empty()
    } else {
        let lin = surf.linear_layer_size(surf.mipmap_count);
        layers_one_by_one(surf, source, (k - 1) as nat) + pad_to(
            single_layer(surf).swizzled(source.subrange((k - 1) * lin, k * lin)),
            surf.layer_alignment(),
        )
    }
}

/// A mipmap swizzled from part of a buffer reads that part alone.
proof fn lemma_mip_reads_its_part(s: MipShape, source: Seq<u8>, b: int, e: int, o: int)
    requires
        s.wf(),
        0 <= b <= e <= source.len(),
        0 <= o,
        o + s.linear_size() <= e - b,
    ensures
        s.swizzled(source, b + o) == s.swizzled(source.subrange(b, e), o),
{
    assert forall|p: int| 0 <= p < s.swizzled_size() implies #[trigger] s.swizzled(source, b + o)[p]
        == s.swizzled(source.subrange(b, e), o)[p] by {
        let x = s.swizzled_x(p);
        let y = s.swizzled_y(p);
        let z = s.swizzled_z(p);
        if s.in_extent(x, y, z) {
            lemma_linear_index_inverse(s, x, y, z);
        }
    }
    assert(s.swizzled(source, b + o) =~= s.swizzled(source.subrange(b, e), o));
}

/// The first `n` mipmaps of a layer of an array swizzle as those of the same
/// layer taken alone.
proof fn lemma_layer_alone(surf: Surface, source: Seq<u8>, b: int, n: nat)
    requires
        valid(surf),
        n <= surf.mipmap_count,
        0 <= b,
        b + surf.linear_layer_size(surf.mipmap_count) <= source.len(),
    ensures
        surf.layer_output(source, b, n, false) == single_layer(surf).layer_output(
            source.subrange(b, b + surf.linear_layer_size(surf.mipmap_count)),
            0,
            n,
            false,
        ),
    decreases n,
{
    if n > 0 {
        let m = (n - 1) as nat;
        lemma_layer_alone(surf, source, b, m);
        lemma_mip_wf(surf, m);
        lemma_layer_sizes_grow(surf, m, n);
        lemma_layer_sizes_grow(surf, n, surf.mipmap_count);
        lemma_layer_sizes_grow(surf, 0, m);
        assert(single_layer(surf).mip(m) == surf.mip(m));
        assert(single_layer(surf).input_offset(m, false) == surf.input_offset(m, false)) by {
            lemma_same_sizes(surf, m);
        }
        lemma_mip_reads_its_part(
            surf.mip(m),
            source,
            b,
            b + surf.linear_layer_size(surf.mipmap_count),
            surf.linear_layer_size(m),
        );
    }
}

/// The layer sizes do not depend on the number of layers.
proof fn lemma_same_sizes(surf: Surface, n: nat)
    ensures
        single_layer(surf).linear_layer_size(n) == surf.linear_layer_size(n),
        single_layer(surf).swizzled_layer_size(n) == surf.swizzled_layer_size(n),
    decreases n,
{
    if n > 0 {
        lemma_same_sizes(surf, (n - 1) as nat);
        assert(single_layer(surf).mip((n - 1) as nat) == surf.mip((n - 1) as nat));
    }
}

/// The first `k` layers of an array swizzle as the layers taken one by one.
proof fn lemma_layers_one_by_one(surf: Surface, source: Seq<u8>, k: nat)
    requires
        valid(surf),
        surf.array_count > 1,
        k <= surf.array_count,
        surf.linear_surface_size() <= source.len(),
    ensures
        surf.layers_output(source, k, false) == layers_one_by_one(surf, source, k),
    decreases k,
{
    if k > 0 {
        let j = (k - 1) as nat;
        let lin = surf.linear_layer_size(surf.mipmap_count);
        let one = single_layer(surf);
        lemma_stride(surf);
        assert(j * lin + lin == k * lin && k * lin <= surf.array_count * lin && 0 <= j * lin)
            by (nonlinear_arith)
            requires
                j + 1 == k,
                k <= surf.array_count,
                lin >= 0,
        ;
        lemma_layers_one_by_one(surf, source, j);
        lemma_layer_alone(surf, source, j * lin, surf.mipmap_count);
        lemma_same_sizes(surf, surf.mipmap_count);
        let part = source.subrange(j * lin, k * lin);
        assert(one.layers_output(part, 1, false) == one.layers_output(part, 0, false)
            + one.layer_output(part, 0 * one.input_stride(false), surf.mipmap_count, false));
        assert(one.layers_output(part, 1, false) =~= one.layer_output(part, 0, surf.mipmap_count, false));
    }
}

/// Swizzling every layer of an array on its own and padding each to the
/// layer alignment gives the array swizzled in one call.
pub proof fn lemma_layer_symmetry(surf: Surface, source: Seq<u8>)
    requires
        valid(surf),
        surf.array_count > 1,
        surf.linear_surface_size() <= source.len(),
    ensures
        surf.swizzled(source) == layers_one_by_one(surf, source, surf.array_count),
{
    lemma_layers_one_by_one(surf, source, surf.array_count);
}

} // verus!
