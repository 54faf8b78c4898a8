//! Sizes and knobs of the level generators.
//!
//! Levels of detail scale a voxel by powers of two, and doubling a float needs no
//! arithmetic but on its exponent: sizes are exact at every level of detail.

use vstd::arithmetic::power2::{lemma2_to64, lemma_pow2_strictly_increases, lemma_pow2_unfold, pow2};
use vstd::prelude::*;

use crate::domain::float_bits::{magnitude, FloatBits, INFINITY_BITS, SIGN_BIT};

verus! {

/// Multipliers around the defaults; zero disables a feature, about two saturates
/// it.
#[derive(Clone, Copy, Debug, PartialEq, Eq, Structural)]
pub struct LevelTuning {
    /// Structural column and pillar density.
    pub pillars: FloatBits,
    /// Office wall segment density.
    pub walls: FloatBits,
    /// How much of the world vaults into tall atria.
    pub atria: FloatBits,
    /// Ceiling light panel density.
    pub lights: FloatBits,
    /// Dead-end and junction frequency.
    pub junction_density: FloatBits,
    /// Frequency of stairs.
    pub stairs_density: FloatBits,
}

/// The bits of one.
pub const ONE: FloatBits = 0x3F80_0000;

pub open spec fn default_tuning() -> LevelTuning {
    LevelTuning {
        pillars: ONE,
        walls: ONE,
        atria: ONE,
        lights: ONE,
        junction_density: ONE,
        stairs_density: ONE,
    }
}

impl Default for LevelTuning {
    fn default() -> (tuning: Self)
        ensures
            tuning == default_tuning(),
    {
        LevelTuning {
            pillars: ONE,
            walls: ONE,
            atria: ONE,
            lights: ONE,
            junction_density: ONE,
            stairs_density: ONE,
        }
    }
}

/// Profile that scales octree dimensions and the voxel grid.
#[derive(Clone, Copy, Debug, PartialEq, Eq, Structural)]
pub struct GeneratorConfig {
    pub chunk_size: FloatBits,
    pub voxel_scale: FloatBits,
    /// Which level generator fills the chunks.
    pub level: u32,
    pub tuning: LevelTuning,
}

/// Magnitude of the smallest float with a leading one.
pub const SMALLEST_NORMAL: u32 = 0x0080_0000;

/// Twice a number: infinite where that is too large, and whatever has no double
/// stays as it is.
pub open spec fn doubled(bits: u32) -> u32 {
    let m = magnitude(bits);
    let sign = if bits >= SIGN_BIT {
        SIGN_BIT as int
    } else {
        0
    };
    if m < SMALLEST_NORMAL {
        (sign + 2 * m) as u32
    } else if m >= INFINITY_BITS {
        bits
    } else if m + SMALLEST_NORMAL >= INFINITY_BITS {
        (sign + INFINITY_BITS) as u32
    } else {
        (sign + m + SMALLEST_NORMAL) as u32
    }
}

/// A number doubled `n` times.
pub open spec fn scaled(bits: u32, n: nat) -> u32
    decreases n,
{
    if n == 0 {
        bits
    } else {
        doubled(scaled(bits, (n - 1) as nat))
    }
}

fn double(bits: FloatBits) -> (r: FloatBits)
    ensures
        r == doubled(bits),
{
    let (sign, m): (u32, u32) = if bits >= SIGN_BIT {
        (SIGN_BIT, bits - SIGN_BIT)
    } else {
        (0, bits)
    };
    if m < SMALLEST_NORMAL {
        sign + 2 * m
    } else if m >= INFINITY_BITS {
        bits
    } else if m + SMALLEST_NORMAL >= INFINITY_BITS {
        sign + INFINITY_BITS
    } else {
        sign + m + SMALLEST_NORMAL
    }
}

fn scale(bits: FloatBits, n: u32) -> (r: FloatBits)
    ensures
        r == scaled(bits, n as nat),
{
    let mut r: FloatBits = bits;
    let mut i: u32 = 0;
    while i < n
        invariant
            i <= n,
            r == scaled(bits, i as nat),
        decreases n - i,
    {
        r = double(r);
        i = i + 1;
    }
    r
}

pub proof fn lemma_scaled_sum(bits: u32, a: nat, b: nat)
    ensures
        scaled(scaled(bits, a), b) == scaled(bits, a + b),
    decreases b,
{
    if b > 0 {
        lemma_scaled_sum(bits, a, (b - 1) as nat);
    }
}

/// The coarsest level of detail.
pub const COARSEST_LOD: u8 = 4;

pub open spec fn lod_steps(lod: u8) -> nat {
    if lod <= COARSEST_LOD {
        lod as nat
    } else {
        COARSEST_LOD as nat
    }
}

/// Most voxels along a chunk's side: a larger count has no power of two above it
/// that fits.
pub const MAX_VOXELS: u32 = 0x8000_0000;

/// Longest side of an octree's cube, in voxels: twice as many do not fit a signed
/// count.
pub const MAX_CUBE: u32 = 0x4000_0000;

/// `depth` is the least number of halvings that take a cube which holds the voxels
/// down to one.
pub open spec fn is_svo_depth(voxels: u32, depth: nat) -> bool {
    &&& voxels <= pow2(depth)
    &&& depth > 0 ==> pow2((depth - 1) as nat) < voxels
}

impl GeneratorConfig {
    /// Twenty units of voxels a tenth of a unit in size.
    pub fn high_spec() -> (config: Self)
        ensures
            config == (GeneratorConfig {
                chunk_size: 0x41A0_0000,
                voxel_scale: 0x3DCC_CCCD,
                level: 0,
                tuning: default_tuning(),
            }),
    {
        GeneratorConfig {
            chunk_size: 0x41A0_0000,
            voxel_scale: 0x3DCC_CCCD,
            level: 0,
            tuning: LevelTuning::default(),
        }
    }

    /// Ten units of voxels a fifth of a unit in size.
    pub fn low_spec() -> (config: Self)
        ensures
            config == (GeneratorConfig {
                chunk_size: 0x4120_0000,
                voxel_scale: 0x3E4C_CCCD,
                level: 0,
                tuning: default_tuning(),
            }),
    {
        GeneratorConfig {
            chunk_size: 0x4120_0000,
            voxel_scale: 0x3E4C_CCCD,
            level: 0,
            tuning: LevelTuning::default(),
        }
    }

    pub fn with_level(self, level: u32) -> (config: Self)
        ensures
            config == (GeneratorConfig { level, ..self }),
    {
        let mut config = self;
        config.level = level;
        config
    }

    pub fn with_tuning(self, tuning: LevelTuning) -> (config: Self)
        ensures
            config == (GeneratorConfig { tuning, ..self }),
    {
        let mut config = self;
        config.tuning = tuning;
        config
    }

    /// The same chunk at a coarser level of detail: voxels double per step.
    pub fn at_lod(self, lod: u8) -> (config: Self)
        ensures
            config == (GeneratorConfig { voxel_scale: scaled(self.voxel_scale, lod_steps(lod)), ..self }),
    {
        let steps: u32 = if lod <= COARSEST_LOD {
            lod as u32
        } else {
            COARSEST_LOD as u32
        };
        let mut config = self;
        config.voxel_scale = scale(self.voxel_scale, steps);
        config
    }

    /// Depth of the octree of a chunk with so many voxels along a side.
    pub fn svo_depth(&self, voxels: u32) -> (depth: u32)
        requires
            voxels <= MAX_VOXELS,
        ensures
            is_svo_depth(voxels, depth as nat),
            depth <= 31,
    {
        let mut depth: u32 = 0;
        let mut size: u32 = 1;
        proof {
            lemma2_to64();
        }
        while size < voxels
            invariant
                voxels <= MAX_VOXELS,
                depth <= 31,
                size == pow2(depth as nat),
                pow2(31) == 0x8000_0000,
                depth > 0 ==> pow2((depth - 1) as nat) < voxels,
            decreases 31 - depth,
        {
            proof {
                if depth == 31 {
                    assert(size == 0x8000_0000);
                }
                lemma2_to64();
                if depth < 30 {
                    lemma_pow2_strictly_increases(depth as nat, 30);
                }
                lemma_pow2_unfold((depth + 1) as nat);
            }
            depth = depth + 1;
            size = size * 2;
        }
        depth
    }

    /// World size of the octree's cube: its voxels times their size.
    pub fn svo_world_size(&self, voxels: u32) -> (size: FloatBits)
        requires
            voxels <= MAX_CUBE,
        ensures
            exists|depth: nat|
                #[trigger] is_svo_depth(voxels, depth) && size == scaled(self.voxel_scale, depth),
    {
        let depth: u32 = self.svo_depth(voxels);
        assert(is_svo_depth(voxels, depth as nat));
        scale(self.voxel_scale, depth)
    }
}

/// Only one depth holds the voxels.
pub proof fn law_svo_depth_is_unique(voxels: u32, a: nat, b: nat)
    requires
        is_svo_depth(voxels, a),
        is_svo_depth(voxels, b),
    ensures
        a == b,
{
    if a < b {
        if a < b - 1 {
            lemma_pow2_strictly_increases(a, (b - 1) as nat);
        }
    } else if b < a {
        if b < a - 1 {
            lemma_pow2_strictly_increases(b, (a - 1) as nat);
        }
    }
}

/// Every level of detail spans the same world: fewer voxels of a larger size make
/// up the same cube, so payloads are interchangeable.
pub proof fn law_lod_keeps_world_size(config: GeneratorConfig, lod: u8, fine: nat, coarse: nat)
    requires
        coarse + lod_steps(lod) == fine,
    ensures
        scaled(scaled(config.voxel_scale, lod_steps(lod)), coarse) == scaled(config.voxel_scale, fine),
{
    lemma_scaled_sum(config.voxel_scale, lod_steps(lod), coarse);
}

/// How many of the smallest steps above zero a finite number is from zero.
pub open spec fn steps_of(bits: u32) -> int {
    let m = magnitude(bits);
    if m < 0x0080_0000 {
        m
    } else {
        (0x0080_0000 + m % 0x0080_0000) * pow2((m / 0x0080_0000 - 1) as nat)
    }
}

/// Doubling doubles: a finite number comes out twice as far from zero on the same side,
/// unless that is too large, when it comes out infinite. What is no finite number stays.
pub proof fn law_doubling_doubles(bits: u32)
    ensures
        bits >= 0x8000_0000 <==> doubled(bits) >= 0x8000_0000,
        magnitude(bits) >= 0x7F80_0000 ==> doubled(bits) == bits,
        magnitude(doubled(bits)) < 0x7F80_0000 ==> steps_of(doubled(bits)) == 2 * steps_of(bits),
        magnitude(bits) < 0x7F00_0000 ==> magnitude(doubled(bits)) < 0x7F80_0000,
{
    let m = magnitude(bits);
    let e = m / 0x0080_0000;
    if m < 0x0080_0000 {
        if 2 * m >= 0x0080_0000 {
            lemma2_to64();
            assert(2 * m % 0x0080_0000 == 2 * m - 0x0080_0000);
            assert(2 * m / 0x0080_0000 == 1);
            assert(steps_of(doubled(bits)) == (0x0080_0000 + 2 * m % 0x0080_0000) * pow2(0));
        }
    } else if m + 0x0080_0000 < 0x7F80_0000 {
        let f = 0x0080_0000 + m % 0x0080_0000;
        assert((m + 0x0080_0000) % 0x0080_0000 == m % 0x0080_0000);
        assert((m + 0x0080_0000) / 0x0080_0000 == e + 1);
        lemma_pow2_unfold(e as nat);
        let p = pow2((e - 1) as nat) as int;
        assert(f * (2 * p) == 2 * (f * p)) by (nonlinear_arith);
    }
}

/// The first level of detail is the chunk itself, every step doubles its voxels, and
/// past the fourth nothing gets coarser.
pub proof fn law_lods_double_the_voxels(bits: u32, lod: u8)
    ensures
        scaled(bits, lod_steps(0)) == bits,
        lod < 4 ==> scaled(bits, lod_steps((lod + 1) as u8)) == doubled(
            scaled(bits, lod_steps(lod)),
        ),
        lod >= 4 ==> lod_steps(lod) == 4,
{
}

} // verus!
