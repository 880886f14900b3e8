//! The block-linear address transform of one mipmap, and its inverse.
//!
//! A mipmap's swizzled bytes are numbered in mixed radix: from the most
//! significant digit, the block along z, the block row, the block along x,
//! the GOB along z inside the block, the GOB along y inside the block, and
//! the byte inside the 512-byte GOB.
use crate::arith::{lemma_digit, lemma_div_round_up, lemma_split, spec_div_round_up};
use vstd::arithmetic::div_mod::lemma_div_denominator;
use vstd::arithmetic::mul::{lemma_mul_is_associative, lemma_mul_is_distributive_add_other_way};
use vstd::prelude::*;

verus! {

/// The byte inside a GOB of column `x` (below 64) and row `y` (below 8).
///
/// The bits of the byte are, from the most significant: bit 5 of `x`, bits
/// 2 and 1 of `y`, bit 4 of `x`, bit 0 of `y`, bits 3 to 0 of `x`.
pub open spec fn spec_gob_offset(x: int, y: int) -> int {
    (((x / 16 / 2 * 4 + y / 2) * 2 + x / 16 % 2) * 2 + y % 2) * 16 + x % 16
}

/// The column of the byte at `g` inside a GOB.
pub open spec fn spec_gob_x(g: int) -> int {
    (g / 16 / 2 / 2 / 4 * 2 + g / 16 / 2 % 2) * 16 + g % 16
}

/// The row of the byte at `g` inside a GOB.
pub open spec fn spec_gob_y(g: int) -> int {
    g / 16 / 2 / 2 % 4 * 2 + g / 16 % 2
}

/// Reading a position back out of its GOB byte.
pub proof fn lemma_gob_offset_inverse(x: int, y: int)
    requires
        0 <= x < 64,
        0 <= y < 8,
    ensures
        0 <= spec_gob_offset(x, y) < 512,
        spec_gob_x(spec_gob_offset(x, y)) == x,
        spec_gob_y(spec_gob_offset(x, y)) == y,
{
    lemma_split(x, 16, 4);
    lemma_split(x / 16, 2, 2);
    lemma_split(y, 2, 4);
    let a = x / 16 / 2;
    let b = x / 16 % 2;
    let c = x % 16;
    let d = y / 2;
    let e = y % 2;
    lemma_digit(a, 4, d, 2);
    lemma_digit(a * 4 + d, 2, b, 8);
    lemma_digit((a * 4 + d) * 2 + b, 2, e, 16);
    lemma_digit(((a * 4 + d) * 2 + b) * 2 + e, 16, c, 32);
}

/// Every GOB byte is the byte of its own position.
pub proof fn lemma_gob_position_inverse(g: int)
    requires
        0 <= g < 512,
    ensures
        0 <= spec_gob_x(g) < 64,
        0 <= spec_gob_y(g) < 8,
        spec_gob_offset(spec_gob_x(g), spec_gob_y(g)) == g,
{
    lemma_split(g, 16, 32);
    lemma_split(g / 16, 2, 16);
    lemma_split(g / 16 / 2, 2, 8);
    lemma_split(g / 16 / 2 / 2, 4, 2);
    let a = g / 16 / 2 / 2 / 4;
    let d = g / 16 / 2 / 2 % 4;
    let b = g / 16 / 2 % 2;
    let e = g / 16 % 2;
    let c = g % 16;
    lemma_digit(a, 2, b, 2);
    lemma_digit(a * 2 + b, 16, c, 4);
    lemma_digit(d, 2, e, 4);
}

/// The byte inside a GOB of column `x % 64` and row `y % 8`.
pub fn gob_offset(x: usize, y: usize) -> (r: usize)
    ensures
        r == spec_gob_offset(x as int % 64, y as int % 8),
        r < 512,
{
    let xs = x % 64;
    let ys = y % 8;
    let a = xs / 16 / 2;
    let b = xs / 16 % 2;
    let c = xs % 16;
    let d = ys / 2;
    let e = ys % 2;
    proof {
        lemma_gob_offset_inverse(xs as int, ys as int);
        assert(a < 2 && b < 2 && c < 16 && d < 4 && e < 2);
    }
    let t1 = a * 4 + d;
    let t2 = t1 * 2 + b;
    let t3 = t2 * 2 + e;
    t3 * 16 + c
}

/// The six digits of a block-linear address, read in mixed radix, are the
/// sum of their strides.
proof fn lemma_mixed_radix(
    bz: int,
    by: int,
    bx: int,
    gz: int,
    gy: int,
    g: int,
    hb: int,
    wg: int,
    bd: int,
    bh: int,
)
    ensures
        ((((bz * hb + by) * wg + bx) * bd + gz) * bh + gy) * 512 + g == bz * (hb * (wg * (512
            * bh * bd))) + by * (wg * (512 * bh * bd)) + bx * (512 * bh * bd) + gz * (512 * bh)
            + gy * 512 + g,
{
    let u = (bz * hb + by) * wg + bx;
    let b = 512 * bh * bd;
    lemma_low_digits(u, gz, gy, bd, bh);
    lemma_high_digits(bz, by, bx, hb, wg, b);
}

proof fn lemma_low_digits(u: int, gz: int, gy: int, bd: int, bh: int)
    ensures
        ((u * bd + gz) * bh + gy) * 512 == u * (512 * bh * bd) + gz * (512 * bh) + gy * 512,
{
    lemma_mul_is_distributive_add_other_way(bh, u * bd, gz);
    lemma_mul_is_associative(u, bd, bh);
    assert(u * (bd * bh) * 512 == u * (512 * bh * bd)) by (nonlinear_arith);
    assert(gz * bh * 512 == gz * (512 * bh)) by (nonlinear_arith);
}

proof fn lemma_high_digits(bz: int, by: int, bx: int, hb: int, wg: int, b: int)
    ensures
        ((bz * hb + by) * wg + bx) * b == bz * (hb * (wg * b)) + by * (wg * b) + bx * b,
{
    let x = (bz * hb + by) * wg;
    lemma_mul_is_distributive_add_other_way(b, x, bx);
    lemma_mul_is_associative(bz * hb + by, wg, b);
    lemma_mul_is_distributive_add_other_way(wg * b, bz * hb, by);
    lemma_mul_is_associative(bz, hb, wg * b);
}

/// The shape of one mipmap: its extent in pixels (or compression blocks), its
/// block height and block depth in GOBs, and the bytes of one pixel (or
/// compression block).
pub struct MipShape {
    pub width: nat,
    pub height: nat,
    pub depth: nat,
    pub block_height: nat,
    pub block_depth: nat,
    pub bytes_per_pixel: nat,
}

impl MipShape {
    /// Every extent and size is positive.
    pub open spec fn wf(self) -> bool {
        &&& self.width >= 1
        &&& self.height >= 1
        &&& self.depth >= 1
        &&& self.block_height >= 1
        &&& self.block_depth >= 1
        &&& self.bytes_per_pixel >= 1
    }

    /// The bytes of one row of the mipmap.
    pub open spec fn row_bytes(self) -> int {
        (self.width * self.bytes_per_pixel) as int
    }

    /// The row width rounded up to whole GOBs, counted in GOBs.
    pub open spec fn width_in_gobs(self) -> int {
        spec_div_round_up(self.row_bytes(), 64)
    }

    /// The height rounded up to whole blocks, counted in blocks.
    pub open spec fn height_in_blocks(self) -> int {
        spec_div_round_up(self.height as int, (8 * self.block_height) as int)
    }

    /// The depth rounded up to whole blocks, counted in blocks.
    pub open spec fn depth_in_blocks(self) -> int {
        spec_div_round_up(self.depth as int, self.block_depth as int)
    }

    /// The padded width in bytes.
    pub open spec fn padded_row_bytes(self) -> int {
        self.width_in_gobs() * 64
    }

    /// The padded height in rows.
    pub open spec fn padded_height(self) -> int {
        self.height_in_blocks() * (8 * self.block_height)
    }

    /// The padded depth in slices.
    pub open spec fn padded_depth(self) -> int {
        self.depth_in_blocks() * self.block_depth
    }

    /// The bytes of the mipmap in the block-linear layout, padding included.
    pub open spec fn swizzled_size(self) -> int {
        self.padded_row_bytes() * self.padded_height() * self.padded_depth()
    }

    /// The bytes of the mipmap in the tightly packed linear layout.
    pub open spec fn linear_size(self) -> int {
        self.row_bytes() * self.height * self.depth
    }

    /// The bytes of one block.
    pub open spec fn block_size(self) -> int {
        (512 * self.block_height * self.block_depth) as int
    }

    /// The bytes of one row of blocks.
    pub open spec fn block_row_size(self) -> int {
        self.width_in_gobs() * self.block_size()
    }

    /// The bytes of one slice of blocks.
    pub open spec fn block_slice_size(self) -> int {
        self.height_in_blocks() * self.block_row_size()
    }

    /// Where the byte at column `x` (in bytes), row `y` and slice `z` lies in
    /// the block-linear layout.
    pub open spec fn address(self, x: int, y: int, z: int) -> int {
        let bh = self.block_height as int;
        let bd = self.block_depth as int;
        (z / bd) * self.block_slice_size() + (y / (8 * bh)) * self.block_row_size() + (x / 64)
            * self.block_size() + (z % bd) * (512 * bh) + ((y / 8) % bh) * 512
            + spec_gob_offset(x % 64, y % 8)
    }

    /// The position lies inside the mipmap's extent.
    pub open spec fn in_extent(self, x: int, y: int, z: int) -> bool {
        0 <= x < self.row_bytes() && 0 <= y < self.height && 0 <= z < self.depth
    }

    /// The position lies inside the mipmap's padded extent.
    pub open spec fn in_padded_extent(self, x: int, y: int, z: int) -> bool {
        0 <= x < self.padded_row_bytes() && 0 <= y < self.padded_height() && 0 <= z
            < self.padded_depth()
    }

    /// Where the byte at a position lies in the linear layout.
    pub open spec fn linear_index(self, x: int, y: int, z: int) -> int {
        (z * self.height + y) * self.row_bytes() + x
    }

    /// The column (in bytes) of linear byte `i`.
    pub open spec fn linear_x(self, i: int) -> int {
        i % self.row_bytes()
    }

    /// The row of linear byte `i`.
    pub open spec fn linear_y(self, i: int) -> int {
        (i / self.row_bytes()) % (self.height as int)
    }

    /// The slice of linear byte `i`.
    pub open spec fn linear_z(self, i: int) -> int {
        (i / self.row_bytes()) / (self.height as int)
    }

    /// The column (in bytes) of swizzled byte `p`.
    pub open spec fn swizzled_x(self, p: int) -> int {
        let bh = self.block_height as int;
        let bd = self.block_depth as int;
        ((p / 512) / bh / bd % self.width_in_gobs()) * 64 + spec_gob_x(p % 512)
    }

    /// The row of swizzled byte `p`.
    pub open spec fn swizzled_y(self, p: int) -> int {
        let bh = self.block_height as int;
        let bd = self.block_depth as int;
        let block_row = (p / 512) / bh / bd / self.width_in_gobs() % self.height_in_blocks();
        (block_row * bh + (p / 512) % bh) * 8 + spec_gob_y(p % 512)
    }

    /// The slice of swizzled byte `p`.
    pub open spec fn swizzled_z(self, p: int) -> int {
        let bh = self.block_height as int;
        let bd = self.block_depth as int;
        let block_slice = (p / 512) / bh / bd / self.width_in_gobs() / self.height_in_blocks();
        block_slice * bd + (p / 512) / bh % bd
    }

    /// The byte of the block-linear layout at `p`: the linear byte of the same
    /// position in `source` from `start` on, or zero in the padding.
    pub open spec fn swizzled_byte(self, source: Seq<u8>, start: int, p: int) -> u8 {
        let x = self.swizzled_x(p);
        let y = self.swizzled_y(p);
        let z = self.swizzled_z(p);
        if self.in_extent(x, y, z) {
            source[start + self.linear_index(x, y, z)]
        } else {
            0
        }
    }

    /// The block-linear layout of the mipmap whose linear bytes start at
    /// `start` in `source`.
    pub open spec fn swizzled(self, source: Seq<u8>, start: int) -> Seq<u8> {
        Seq::new(self.swizzled_size() as nat, |p: int| self.swizzled_byte(source, start, p))
    }

    /// The linear layout of the mipmap whose block-linear bytes start at
    /// `start` in `source`.
    pub open spec fn deswizzled(self, source: Seq<u8>, start: int) -> Seq<u8> {
        Seq::new(
            self.linear_size() as nat,
            |i: int|
                source[start + self.address(self.linear_x(i), self.linear_y(i), self.linear_z(i))],
        )
    }
}

/// The sizes of a well-formed shape are positive, and the padded extent
/// holds the extent.
pub proof fn lemma_shape_sizes(s: MipShape)
    requires
        s.wf(),
    ensures
        s.row_bytes() >= 1,
        s.width_in_gobs() >= 1,
        s.height_in_blocks() >= 1,
        s.depth_in_blocks() >= 1,
        s.padded_row_bytes() >= s.row_bytes(),
        s.padded_height() >= s.height,
        s.padded_depth() >= s.depth,
        s.linear_size() >= 1,
        s.swizzled_size() >= 1,
        s.swizzled_size() == (((s.depth_in_blocks() * s.height_in_blocks()) * s.width_in_gobs()
            * s.block_depth) * s.block_height) * 512,
        s.linear_size() == (s.depth * s.height) * s.row_bytes(),
        s.block_slice_size() * s.depth_in_blocks() == s.swizzled_size(),
{
    let bh = s.block_height as int;
    let bd = s.block_depth as int;
    assert(s.row_bytes() >= 1) by (nonlinear_arith)
        requires
            s.width >= 1,
            s.bytes_per_pixel >= 1,
    ;
    lemma_div_round_up(s.row_bytes(), 64);
    lemma_div_round_up(s.height as int, 8 * bh);
    lemma_div_round_up(s.depth as int, bd);
    let wg = s.width_in_gobs();
    let hb = s.height_in_blocks();
    let db = s.depth_in_blocks();
    let rb = s.row_bytes();
    let h = s.height as int;
    let d = s.depth as int;
    assert(rb * h * d >= 1 && rb * h * d == (d * h) * rb) by (nonlinear_arith)
        requires
            rb >= 1,
            h >= 1,
            d >= 1,
    ;
    assert(wg * 64 * (hb * (8 * bh)) * (db * bd) == ((((db * hb) * wg) * bd) * bh) * 512)
        by (nonlinear_arith);
    assert(wg * 64 * (hb * (8 * bh)) * (db * bd) >= 1) by (nonlinear_arith)
        requires
            wg >= 1,
            hb >= 1,
            db >= 1,
            bh >= 1,
            bd >= 1,
    ;
    assert(hb * (wg * (512 * bh * bd)) * db == wg * 64 * (hb * (8 * bh)) * (db * bd))
        by (nonlinear_arith);
}

/// The address of every position of the padded extent is a byte of the
/// mipmap, from which the position is read back.
pub proof fn lemma_address_inverse(s: MipShape, x: int, y: int, z: int)
    requires
        s.wf(),
        s.in_padded_extent(x, y, z),
    ensures
        0 <= s.address(x, y, z) < s.swizzled_size(),
        s.swizzled_x(s.address(x, y, z)) == x,
        s.swizzled_y(s.address(x, y, z)) == y,
        s.swizzled_z(s.address(x, y, z)) == z,
{
    lemma_shape_sizes(s);
    let bh = s.block_height as int;
    let bd = s.block_depth as int;
    let wg = s.width_in_gobs();
    let hb = s.height_in_blocks();
    let db = s.depth_in_blocks();
    // The digits of the position.
    lemma_split(x, 64, wg);
    let bx = x / 64;
    assert(s.padded_height() == hb * (8 * bh));
    lemma_split(y, 8 * bh, hb);
    let by = y / (8 * bh);
    lemma_div_denominator(y, 8, bh);
    assert(hb * (8 * bh) == (hb * bh) * 8) by (nonlinear_arith);
    lemma_split(y, 8, hb * bh);
    lemma_split(y / 8, bh, hb);
    let gy = (y / 8) % bh;
    lemma_split(z, bd, db);
    let bz = z / bd;
    let gz = z % bd;
    let g = spec_gob_offset(x % 64, y % 8);
    lemma_gob_offset_inverse(x % 64, y % 8);
    // The number they make, digit by digit.
    lemma_digit(bz, hb, by, db);
    let t1 = bz * hb + by;
    lemma_digit(t1, wg, bx, db * hb);
    let t2 = t1 * wg + bx;
    lemma_digit(t2, bd, gz, db * hb * wg);
    let t3 = t2 * bd + gz;
    lemma_digit(t3, bh, gy, db * hb * wg * bd);
    let t4 = t3 * bh + gy;
    lemma_digit(t4, 512, g, db * hb * wg * bd * bh);
    let p = t4 * 512 + g;
    lemma_mixed_radix(bz, by, bx, gz, gy, g, hb, wg, bd, bh);
    assert(p / 512 / bh / bd == t2);
    assert(t2 / wg == t1);
    assert((bx * 64 + spec_gob_x(g)) == x);
    assert((by * bh + gy) * 8 + spec_gob_y(g) == y) by (nonlinear_arith)
        requires
            y / 8 == by * bh + gy,
            y == (y / 8) * 8 + y % 8,
            spec_gob_y(g) == y % 8,
    ;
}

/// Every byte of the mipmap is the address of a position of the padded
/// extent.
pub proof fn lemma_position_inverse(s: MipShape, p: int)
    requires
        s.wf(),
        0 <= p < s.swizzled_size(),
    ensures
        s.in_padded_extent(s.swizzled_x(p), s.swizzled_y(p), s.swizzled_z(p)),
        s.address(s.swizzled_x(p), s.swizzled_y(p), s.swizzled_z(p)) == p,
{
    lemma_shape_sizes(s);
    let bh = s.block_height as int;
    let bd = s.block_depth as int;
    let wg = s.width_in_gobs();
    let hb = s.height_in_blocks();
    let db = s.depth_in_blocks();
    lemma_split(p, 512, db * hb * wg * bd * bh);
    let g = p % 512;
    let t4 = p / 512;
    lemma_split(t4, bh, db * hb * wg * bd);
    let gy = t4 % bh;
    let t3 = t4 / bh;
    lemma_split(t3, bd, db * hb * wg);
    let gz = t3 % bd;
    let t2 = t3 / bd;
    lemma_split(t2, wg, db * hb);
    let bx = t2 % wg;
    let t1 = t2 / wg;
    lemma_split(t1, hb, db);
    let by = t1 % hb;
    let bz = t1 / hb;
    lemma_gob_position_inverse(g);
    let x = s.swizzled_x(p);
    let y = s.swizzled_y(p);
    let z = s.swizzled_z(p);
    assert(x == bx * 64 + spec_gob_x(g));
    assert(z == bz * bd + gz);
    assert(y == (by * bh + gy) * 8 + spec_gob_y(g));
    lemma_digit(bx, 64, spec_gob_x(g), wg);
    lemma_digit(by, bh, gy, hb);
    lemma_digit(by * bh + gy, 8, spec_gob_y(g), hb * bh);
    lemma_digit(bz, bd, gz, db);
    lemma_div_denominator(y, 8, bh);
    assert(hb * bh * 8 == hb * (8 * bh)) by (nonlinear_arith);
    lemma_mixed_radix(bz, by, bx, gz, gy, g, hb, wg, bd, bh);
}

/// Linear bytes and positions of the extent correspond one to one.
pub proof fn lemma_linear_inverse(s: MipShape, i: int)
    requires
        s.wf(),
        0 <= i < s.linear_size(),
    ensures
        s.in_extent(s.linear_x(i), s.linear_y(i), s.linear_z(i)),
        s.linear_index(s.linear_x(i), s.linear_y(i), s.linear_z(i)) == i,
{
    lemma_shape_sizes(s);
    let rb = s.row_bytes();
    let h = s.height as int;
    let d = s.depth as int;
    lemma_split(i, rb, d * h);
    lemma_split(i / rb, h, d);
}

/// The linear index of a position of the extent is a linear byte, from which
/// the position is read back.
pub proof fn lemma_linear_index_inverse(s: MipShape, x: int, y: int, z: int)
    requires
        s.wf(),
        s.in_extent(x, y, z),
    ensures
        0 <= s.linear_index(x, y, z) < s.linear_size(),
        s.linear_x(s.linear_index(x, y, z)) == x,
        s.linear_y(s.linear_index(x, y, z)) == y,
        s.linear_z(s.linear_index(x, y, z)) == z,
{
    lemma_shape_sizes(s);
    let rb = s.row_bytes();
    let h = s.height as int;
    let d = s.depth as int;
    lemma_digit(z, h, y, d);
    lemma_digit(z * h + y, rb, x, d * h);
}

/// Deswizzling a swizzled mipmap gives back its linear bytes.
pub proof fn lemma_mip_round_trip(s: MipShape, source: Seq<u8>, start: int)
    requires
        s.wf(),
        0 <= start,
        start + s.linear_size() <= source.len(),
    ensures
        s.deswizzled(s.swizzled(source, start), 0) == source.subrange(
            start,
            start + s.linear_size(),
        ),
{
    let sw = s.swizzled(source, start);
    let out = s.deswizzled(sw, 0);
    let expected = source.subrange(start, start + s.linear_size());
    assert forall|i: int| 0 <= i < s.linear_size() implies out[i] == expected[i] by {
        lemma_linear_inverse(s, i);
        let x = s.linear_x(i);
        let y = s.linear_y(i);
        let z = s.linear_z(i);
        lemma_shape_sizes(s);
        lemma_address_inverse(s, x, y, z);
    }
    assert(out =~= expected);
}

} // verus!
