//! Integer side of the block material textures: the lattice hash behind the
//! procedural noise, the box filter that builds each mip level, and the mip
//! chain of the two texture-array payloads (albedo + roughness, normal).

use vstd::prelude::*;

verus! {

/// One texel axis of each block's material tile.
pub const ATLAS_SIZE: u32 = 16;

/// Layers: block ids `0..=12` (air at 0 is generated but never rendered).
pub const ATLAS_LAYERS: u32 = 13;

/// Two texture-array payloads (albedo + roughness, normal), each as a mip
/// chain. Every level holds `layers × w × h × 4` bytes, layer-major.
pub struct MaterialAtlas {
    pub size: u32,
    pub layers: u32,
    pub mip_levels: u32,
    /// RGB = linear albedo, A = roughness.
    pub albedo: Vec<Vec<u8>>,
    /// RGB = encoded tangent-space normal (`n * 0.5 + 0.5`), A unused.
    pub normal: Vec<Vec<u8>>,
}

/// Integer bit-mix hash (deterministic, no state).
pub open spec fn spec_hash(x: u32) -> u32 {
    let a = x ^ (x >> 16u32);
    let b = a.wrapping_mul(0x7feb_352d);
    let c = b ^ (b >> 15u32);
    let d = c.wrapping_mul(0x846c_a68b);
    d ^ (d >> 16u32)
}

/// Integer bit-mix hash (deterministic, no state).
pub fn hash(x: u32) -> (r: u32)
    ensures
        r == spec_hash(x),
{
    let mut v = x;
    v = v ^ (v >> 16u32);
    v = v.wrapping_mul(0x7feb_352d);
    v = v ^ (v >> 15u32);
    v = v.wrapping_mul(0x846c_a68b);
    v = v ^ (v >> 16u32);
    v
}

/// Hash of a noise lattice point of a layer, before scaling to `0..1`.
pub open spec fn spec_lattice_hash(gx: u32, gy: u32, layer: u32, salt: u32) -> u32 {
    spec_hash(
        gx.wrapping_mul(374_761_393) ^ gy.wrapping_mul(668_265_263) ^ layer.wrapping_mul(2_246_822_519)
            ^ salt.wrapping_mul(3_266_489_917),
    )
}

/// Hash of a noise lattice point of a layer, before scaling to `0..1`.
pub fn lattice_hash(gx: u32, gy: u32, layer: u32, salt: u32) -> (r: u32)
    ensures
        r == spec_lattice_hash(gx, gy, layer, salt),
{
    hash(
        gx.wrapping_mul(374_761_393) ^ gy.wrapping_mul(668_265_263) ^ layer.wrapping_mul(2_246_822_519)
            ^ salt.wrapping_mul(3_266_489_917),
    )
}

/// Half a dimension, at least 1.
pub open spec fn half_dim(w: int) -> int {
    if w / 2 >= 1 {
        w / 2
    } else {
        1
    }
}

/// Byte `j` of the half-resolution image of `src` (`layers × w × h × 4`,
/// layer-major): the average of the 2×2 block of source texels it covers,
/// clamped at the last row and column.
pub open spec fn downsampled(src: Seq<u8>, w: int, h: int, j: int) -> u8 {
    let nw = half_dim(w);
    let nh = half_dim(h);
    let c = j % 4;
    let p = j / 4;
    let x = p % nw;
    let y = (p / nw) % nh;
    let layer = p / (nw * nh);
    let base = layer * w * h * 4;
    let at = |sx: int, sy: int|
        src[base + ((if sy < h - 1 {
            sy
        } else {
            h - 1
        }) * w + (if sx < w - 1 {
            sx
        } else {
            w - 1
        })) * 4 + c] as int;
    ((at(2 * x, 2 * y) + at(2 * x + 1, 2 * y) + at(2 * x, 2 * y + 1) + at(2 * x + 1, 2 * y + 1)) / 4) as u8
}

proof fn lemma_decompose(j: int, nw: int, nh: int, layers: int)
    requires
        nw >= 1,
        nh >= 1,
        0 <= j < layers * nw * nh * 4,
    ensures
        0 <= j % 4 < 4,
        0 <= (j / 4) % nw < nw,
        0 <= (j / 4 / nw) % nh < nh,
        0 <= j / 4 / (nw * nh) < layers,
{
    assert(0 <= j / 4 < layers * nw * nh) by (nonlinear_arith)
        requires
            0 <= j < layers * nw * nh * 4,
    ;
    assert(0 <= j / 4 / (nw * nh) < layers) by (nonlinear_arith)
        requires
            0 <= j / 4 < layers * nw * nh,
            nw >= 1,
            nh >= 1,
    ;
}

/// Box-filters `src` (`layers × w × h × 4`, layer-major) to half resolution.
pub fn downsample(src: &[u8], layers: u32, w: u32, h: u32) -> (dst: Vec<u8>)
    requires
        w >= 1,
        h >= 1,
        layers * w * h * 4 <= u32::MAX,
        src@.len() >= layers * w * h * 4,
    ensures
        dst@.len() == layers * half_dim(w as int) * half_dim(h as int) * 4,
        forall|j: int| 0 <= j < dst@.len() ==> #[trigger] dst@[j] == downsampled(src@, w as int, h as int, j),
{
    let nw: u32 = if w / 2 >= 1 {
        w / 2
    } else {
        1
    };
    let nh: u32 = if h / 2 >= 1 {
        h / 2
    } else {
        1
    };
    if layers == 0 {
        assert(layers * half_dim(w as int) * half_dim(h as int) * 4 == 0) by (nonlinear_arith)
            requires
                layers == 0,
        ;
        return Vec::new();
    }
    assert(layers * nw <= layers * nw * nh && layers * nw * nh <= layers * nw * nh * 4 && layers * nw * nh * 4 <= layers * w
        * h * 4 && nw * nh <= w * h && w * h <= layers * w * h * 4) by (nonlinear_arith)
        requires
            1 <= nw <= w,
            1 <= nh <= h,
            layers >= 1,
    ;
    let n: usize = (layers as u64 * nw as u64 * nh as u64 * 4) as usize;
    assert(n == layers * nw * nh * 4);
    let mut dst: Vec<u8> = Vec::new();
    let mut j: usize = 0;
    while j < n
        invariant
            j <= n,
            n == layers * nw * nh * 4,
            nw == half_dim(w as int),
            nh == half_dim(h as int),
            w >= 1,
            h >= 1,
            layers >= 1,
            layers * w * h * 4 <= u32::MAX,
            src@.len() >= layers * w * h * 4,
            dst@.len() == j,
            forall|k: int| 0 <= k < j ==> #[trigger] dst@[k] == downsampled(src@, w as int, h as int, k),
        decreases n - j,
    {
        proof {
            lemma_decompose(j as int, nw as int, nh as int, layers as int);
        }
        let c = j % 4;
        let p = j / 4;
        let x = p % (nw as usize);
        let y = (p / (nw as usize)) % (nh as usize);
        assert(1 <= (nw as usize) * (nh as usize) <= (w as usize) * (h as usize) <= u32::MAX) by (nonlinear_arith)
            requires
                1 <= nw <= w,
                1 <= nh <= h,
                layers >= 1,
                layers * w * h * 4 <= u32::MAX,
        ;
        let layer = p / ((nw as usize) * (nh as usize));
        assert(0 <= layer * w * h * 4 + ((h - 1) * w + (w - 1)) * 4 + 3 < layers * w * h * 4) by (nonlinear_arith)
            requires
                0 <= layer < layers,
                w >= 1,
                h >= 1,
        ;
        assert(layer * w <= layer * w * h && layer * w * h <= layer * w * h * 4) by (nonlinear_arith)
            requires
                w >= 1,
                h >= 1,
                layer >= 0,
        ;
        let base: usize = layer * (w as usize) * (h as usize) * 4;
        let y0: usize = if 2 * y < (h as usize) - 1 {
            2 * y
        } else {
            (h as usize) - 1
        };
        let y1: usize = if 2 * y + 1 < (h as usize) - 1 {
            2 * y + 1
        } else {
            (h as usize) - 1
        };
        let x0: usize = if 2 * x < (w as usize) - 1 {
            2 * x
        } else {
            (w as usize) - 1
        };
        let x1: usize = if 2 * x + 1 < (w as usize) - 1 {
            2 * x + 1
        } else {
            (w as usize) - 1
        };
        assert(0 <= base + (y1 * w + x1) * 4 + c < layers * w * h * 4 && 0 <= base + (y0 * w + x0) * 4 + c < layers * w * h
            * 4 && 0 <= base + (y0 * w + x1) * 4 + c < layers * w * h * 4 && 0 <= base + (y1 * w + x0) * 4 + c < layers
            * w * h * 4) by (nonlinear_arith)
            requires
                base == layer * w * h * 4,
                0 <= layer < layers,
                y0 <= h - 1,
                y1 <= h - 1,
                x0 <= w - 1,
                x1 <= w - 1,
                c < 4,
                w >= 1,
                h >= 1,
        ;
        let s00 = src[base + (y0 * (w as usize) + x0) * 4 + c] as u32;
        let s10 = src[base + (y0 * (w as usize) + x1) * 4 + c] as u32;
        let s01 = src[base + (y1 * (w as usize) + x0) * 4 + c] as u32;
        let s11 = src[base + (y1 * (w as usize) + x1) * 4 + c] as u32;
        let avg = (s00 + s10 + s01 + s11) / 4;
        dst.push(avg as u8);
        proof {
            assert(dst@[j as int] == downsampled(src@, w as int, h as int, j as int));
        }
        j = j + 1;
    }
    dst
}

/// Floor of the base-2 logarithm (0 for 0 and 1).
pub open spec fn floor_log2(n: nat) -> nat
    decreases n,
{
    if n <= 1 {
        0
    } else {
        1 + floor_log2(n / 2)
    }
}

/// Width of mip level `k` of a `size`-wide tile.
pub open spec fn mip_width(size: int, k: nat) -> int
    decreases k,
{
    if k == 0 {
        size
    } else {
        half_dim(mip_width(size, (k - 1) as nat))
    }
}

proof fn lemma_mip_width_bounds(size: int, k: nat)
    requires
        size >= 1,
    ensures
        1 <= mip_width(size, k) <= size,
    decreases k,
{
    if k > 0 {
        lemma_mip_width_bounds(size, (k - 1) as nat);
    }
}

/// Level `k` of the mip chain built from `level0`.
pub open spec fn mip_level(level0: Seq<u8>, layers: int, size: int, k: nat) -> Seq<u8>
    decreases k,
{
    if k == 0 {
        level0
    } else {
        let prev = mip_level(level0, layers, size, (k - 1) as nat);
        let w = mip_width(size, (k - 1) as nat);
        Seq::new(
            (layers * half_dim(w) * half_dim(w) * 4) as nat,
            |j: int| downsampled(prev, w, w, j),
        )
    }
}

fn log2_floor(n: u32) -> (r: u32)
    ensures
        r == floor_log2(n as nat),
        r < u32::MAX,
{
    let mut v = n;
    let mut r: u32 = 0;
    while v > 1
        invariant
            floor_log2(n as nat) == r + floor_log2(v as nat),
            r + v <= n || (r == 0 && v == n),
            v >= 1 || r == 0,
        decreases v,
    {
        v = v / 2;
        r = r + 1;
    }
    r
}

/// Builds the full mip chain of both payloads from their level 0
/// (`layers × size × size × 4` bytes each): `floor(log2(size)) + 1` levels,
/// each the box-filtered half of the previous.
pub fn mip_chain(size: u32, albedo0: Vec<u8>, normal0: Vec<u8>) -> (atlas: MaterialAtlas)
    requires
        size >= 1,
        ATLAS_LAYERS * size * size * 4 <= u32::MAX,
        albedo0@.len() == ATLAS_LAYERS * size * size * 4,
        normal0@.len() == ATLAS_LAYERS * size * size * 4,
    ensures
        atlas.size == size,
        atlas.layers == ATLAS_LAYERS,
        atlas.mip_levels == floor_log2(size as nat) + 1,
        atlas.albedo@.len() == atlas.mip_levels,
        atlas.normal@.len() == atlas.mip_levels,
        forall|k: int|
            0 <= k < atlas.mip_levels ==> (#[trigger] atlas.albedo@[k])@ == mip_level(
                albedo0@,
                ATLAS_LAYERS as int,
                size as int,
                k as nat,
            ) && atlas.normal@[k]@ == mip_level(normal0@, ATLAS_LAYERS as int, size as int, k as nat),
{
    let layers = ATLAS_LAYERS;
    let mip_levels = log2_floor(size) + 1;
    let ghost a0 = albedo0@;
    let ghost n0 = normal0@;
    let mut albedo: Vec<Vec<u8>> = Vec::new();
    let mut normal: Vec<Vec<u8>> = Vec::new();
    albedo.push(albedo0);
    normal.push(normal0);
    let mut w: u32 = size;
    let mut k: u32 = 1;
    while k < mip_levels
        invariant
            1 <= k <= mip_levels,
            mip_levels == floor_log2(size as nat) + 1,
            size >= 1,
            layers == ATLAS_LAYERS,
            ATLAS_LAYERS * size * size * 4 <= u32::MAX,
            w == mip_width(size as int, (k - 1) as nat),
            albedo@.len() == k,
            normal@.len() == k,
            forall|i: int|
                0 <= i < k ==> (#[trigger] albedo@[i])@ == mip_level(a0, ATLAS_LAYERS as int, size as int, i as nat)
                    && normal@[i]@ == mip_level(n0, ATLAS_LAYERS as int, size as int, i as nat),
            forall|i: int|
                0 <= i < k ==> (#[trigger] albedo@[i])@.len() == ATLAS_LAYERS * mip_width(size as int, i as nat) * mip_width(
                    size as int,
                    i as nat,
                ) * 4 && normal@[i]@.len() == ATLAS_LAYERS * mip_width(size as int, i as nat) * mip_width(
                    size as int,
                    i as nat,
                ) * 4,
        decreases mip_levels - k,
    {
        proof {
            lemma_mip_width_bounds(size as int, (k - 1) as nat);
            assert(layers * w * w * 4 <= ATLAS_LAYERS * size * size * 4) by (nonlinear_arith)
                requires
                    1 <= w <= size,
                    layers == ATLAS_LAYERS,
            ;
        }
        let last = k as usize - 1;
        let next_a = downsample(albedo[last].as_slice(), layers, w, w);
        let next_n = downsample(normal[last].as_slice(), layers, w, w);
        proof {
            let wk = mip_width(size as int, (k - 1) as nat);
            assert(next_a@ =~= mip_level(a0, ATLAS_LAYERS as int, size as int, k as nat));
            assert(next_n@ =~= mip_level(n0, ATLAS_LAYERS as int, size as int, k as nat));
            assert(mip_width(size as int, k as nat) == half_dim(wk));
        }
        let ghost aa = albedo@;
        let ghost nn = normal@;
        albedo.push(next_a);
        normal.push(next_n);
        proof {
            assert forall|i: int|
                0 <= i < k + 1 implies (#[trigger] albedo@[i])@ == mip_level(a0, ATLAS_LAYERS as int, size as int, i as nat)
                    && normal@[i]@ == mip_level(n0, ATLAS_LAYERS as int, size as int, i as nat) by {
                if i < k {
                    assert(albedo@[i] == aa[i] && normal@[i] == nn[i]);
                }
            }
        }
        w = if w / 2 >= 1 {
            w / 2
        } else {
            1
        };
        k = k + 1;
    }
    MaterialAtlas { size, layers, mip_levels, albedo, normal }
}

} // verus!
