//! The heightfield sampler: the height at a point, blended from the coherent
//! noise that the host samples there at each octave.
//!
//! Noise samples, the persistence and the octave weights are in millionths:
//! a sample of `NOISE_UNIT` stands for a noise value of one.

use vstd::prelude::*;
use crate::bounds::abs_int;
use crate::terrain::TerrainConfig;
use crate::units::floor_div_spec;
use crate::units::lemma_floor_div_bounds;
use vstd::arithmetic::div_mod::lemma_fundamental_div_mod;
use vstd::arithmetic::div_mod::lemma_fundamental_div_mod_converse;

verus! {

/// A noise value of one, and the weight of the first octave.
pub const NOISE_UNIT: i64 = 1_000_000;

/// The most that the magnitudes of the octave weights may sum to, for the
/// blend to be worked out in 128-bit integers: `2^64`.
pub const WEIGHT_LIMIT: i128 = 0x1_0000_0000_0000_0000;

/// The weight of octave `i`: `NOISE_UNIT` for the first, and for each
/// further octave the weight before it times the persistence, floored.
pub open spec fn amplitude(persistence: int, i: nat) -> int
    decreases i,
{
    if i == 0 {
        NOISE_UNIT as int
    } else {
        floor_div_spec(amplitude(persistence, (i - 1) as nat) * persistence, NOISE_UNIT as int)
    }
}

/// The first `n` samples, each times the weight of its octave, summed.
pub open spec fn weighted_sum(samples: Seq<i32>, persistence: int, n: nat) -> int
    decreases n,
{
    if n == 0 {
        0
    } else {
        weighted_sum(samples, persistence, (n - 1) as nat) + samples[n - 1] * amplitude(
            persistence,
            (n - 1) as nat,
        )
    }
}

/// The weights of the first `n` octaves, summed.
pub open spec fn amplitude_sum(persistence: int, n: nat) -> int
    decreases n,
{
    if n == 0 {
        0
    } else {
        amplitude_sum(persistence, (n - 1) as nat) + amplitude(persistence, (n - 1) as nat)
    }
}

/// The magnitudes of the weights of the first `n` octaves, summed.
pub open spec fn weight_mass(persistence: int, n: nat) -> int
    decreases n,
{
    if n == 0 {
        0
    } else {
        weight_mass(persistence, (n - 1) as nat) + abs_int(amplitude(persistence, (n - 1) as nat))
    }
}

/// Whether `octaves` octaves under the persistence can be blended in 128-bit
/// integers: the magnitudes of their weights sum to `WEIGHT_LIMIT` at most.
/// Any number of octaves under a persistence between nothing and one can
/// (`lemma_fading_octaves_are_blendable`).
pub open spec fn blendable(persistence: int, octaves: nat) -> bool {
    weight_mass(persistence, octaves) <= WEIGHT_LIMIT
}

/// The height blended from the octave samples: their weighted mean, a noise
/// value, times the height scale, floored. Where the weights do not sum to
/// more than nothing, the height is zero.
pub open spec fn blended_height(samples: Seq<i32>, persistence: int, height_scale: int) -> int {
    if amplitude_sum(persistence, samples.len()) > 0 {
        floor_div_spec(
            weighted_sum(samples, persistence, samples.len()) * height_scale,
            amplitude_sum(persistence, samples.len()) * NOISE_UNIT,
        )
    } else {
        0
    }
}

/// More octaves weigh no less; the weight of an octave is within the mass up
/// to it; and the sums stay within the mass, the weighted one within the
/// bound of the samples times the mass.
pub proof fn lemma_mass_bounds(samples: Seq<i32>, persistence: int, n: nat, bound: int)
    requires
        n <= samples.len(),
        bound >= 0,
        forall|i: int| 0 <= i < n ==> -bound <= #[trigger] samples[i] <= bound,
    ensures
        0 <= weight_mass(persistence, n),
        n > 0 ==> weight_mass(persistence, (n - 1) as nat) <= weight_mass(persistence, n)
            && abs_int(amplitude(persistence, (n - 1) as nat)) <= weight_mass(persistence, n),
        -weight_mass(persistence, n) <= amplitude_sum(persistence, n) <= weight_mass(
            persistence,
            n,
        ),
        -bound * weight_mass(persistence, n) <= weighted_sum(samples, persistence, n) <= bound
            * weight_mass(persistence, n),
    decreases n,
{
    if n > 0 {
        lemma_mass_bounds(samples, persistence, (n - 1) as nat, bound);
        let a = amplitude(persistence, (n - 1) as nat);
        let s = samples[n - 1] as int;
        let rest = weight_mass(persistence, (n - 1) as nat);
        let m = abs_int(a);
        assert(-bound * m <= s * a <= bound * m) by (nonlinear_arith)
            requires
                -bound <= s <= bound,
                m == abs_int(a),
        ;
        assert(bound * (rest + m) == bound * rest + bound * m) by (nonlinear_arith);
        assert(-bound * (rest + m) == -bound * rest + -bound * m) by (nonlinear_arith);
    } else {
        assert(bound * 0 == 0);
    }
}

/// The mass of fewer octaves is no more than that of more.
pub proof fn lemma_mass_grows(persistence: int, i: nat, n: nat)
    requires
        i <= n,
    ensures
        0 <= weight_mass(persistence, i) <= weight_mass(persistence, n),
    decreases n,
{
    if n > 0 {
        if i < n {
            lemma_mass_grows(persistence, i, (n - 1) as nat);
        } else {
            lemma_mass_grows(persistence, (i - 1) as nat, (n - 1) as nat);
        }
    }
}

/// Under a persistence that is not negative no weight is negative, so the
/// weights sum to their mass.
pub proof fn lemma_weights_not_negative(persistence: int, n: nat)
    requires
        persistence >= 0,
    ensures
        0 <= amplitude(persistence, n),
        amplitude_sum(persistence, n) == weight_mass(persistence, n),
    decreases n,
{
    if n > 0 {
        lemma_weights_not_negative(persistence, (n - 1) as nat);
        let a = amplitude(persistence, (n - 1) as nat);
        assert(0 <= a * persistence) by (nonlinear_arith)
            requires
                0 <= a,
                0 <= persistence,
        ;
        lemma_floor_div_bounds(a * persistence, NOISE_UNIT as int);
        let q = floor_div_spec(a * persistence, NOISE_UNIT as int);
        assert(0 <= q) by (nonlinear_arith)
            requires
                a * persistence < (q + 1) * NOISE_UNIT,
                0 <= a * persistence,
                NOISE_UNIT == 1_000_000,
        ;
    }
}

/// Under a persistence between nothing and one no weight exceeds the first,
/// so that as many octaves as a configuration can name are blendable.
pub proof fn lemma_fading_octaves_are_blendable(persistence: int, octaves: nat)
    requires
        0 <= persistence <= NOISE_UNIT,
        octaves <= u32::MAX,
    ensures
        0 <= amplitude(persistence, octaves) <= NOISE_UNIT,
        weight_mass(persistence, octaves) <= octaves * NOISE_UNIT,
        blendable(persistence, octaves),
    decreases octaves,
{
    lemma_weights_not_negative(persistence, octaves);
    if octaves > 0 {
        lemma_fading_octaves_are_blendable(persistence, (octaves - 1) as nat);
        let a = amplitude(persistence, (octaves - 1) as nat);
        assert(a * persistence <= a * NOISE_UNIT) by (nonlinear_arith)
            requires
                0 <= a,
                persistence <= NOISE_UNIT,
        ;
        lemma_floor_div_bounds(a * persistence, NOISE_UNIT as int);
        let q = floor_div_spec(a * persistence, NOISE_UNIT as int);
        assert(q <= a) by (nonlinear_arith)
            requires
                q * NOISE_UNIT <= a * persistence,
                a * persistence <= a * NOISE_UNIT,
                NOISE_UNIT == 1_000_000,
        ;
        assert(octaves * NOISE_UNIT == (octaves - 1) * NOISE_UNIT + NOISE_UNIT)
            by (nonlinear_arith);
    }
    assert(octaves * NOISE_UNIT <= 0xffff_ffff * 1_000_000) by (nonlinear_arith)
        requires
            octaves <= 0xffff_ffff,
            NOISE_UNIT == 1_000_000,
    ;
}

/// Normalising by the sum of the weights keeps the height bounded, however
/// many octaves are blended: of noise between minus one and one, under a
/// persistence that is not negative, the height lies between minus the
/// height scale and the height scale.
pub proof fn lemma_height_is_bounded(samples: Seq<i32>, persistence: int, height_scale: int)
    requires
        0 <= persistence,
        0 <= height_scale <= i32::MAX,
        forall|i: int| 0 <= i < samples.len() ==> -NOISE_UNIT <= #[trigger] samples[i] <= NOISE_UNIT,
    ensures
        -height_scale <= blended_height(samples, persistence, height_scale) <= height_scale,
{
    let n = samples.len();
    let sum = weighted_sum(samples, persistence, n);
    let norm = amplitude_sum(persistence, n);
    if norm > 0 {
        lemma_mass_bounds(samples, persistence, n, NOISE_UNIT as int);
        lemma_weights_not_negative(persistence, n);
        let den = norm * NOISE_UNIT;
        assert(den >= 1) by (nonlinear_arith)
            requires
                den == norm * NOISE_UNIT,
                norm >= 1,
                NOISE_UNIT == 1_000_000,
        ;
        assert(-height_scale * den <= sum * height_scale <= height_scale * den)
            by (nonlinear_arith)
            requires
                -NOISE_UNIT * norm <= sum <= NOISE_UNIT * norm,
                den == norm * NOISE_UNIT,
                0 <= height_scale,
        ;
        lemma_floor_div_bounds(sum * height_scale, den);
        let q = floor_div_spec(sum * height_scale, den);
        assert(-height_scale <= q <= height_scale) by (nonlinear_arith)
            requires
                q * den <= sum * height_scale < (q + 1) * den,
                -height_scale * den <= sum * height_scale <= height_scale * den,
                den >= 1,
        ;
    }
}

/// `floor(a / d)` on the widest integers.
fn floor_div_widest(a: i128, d: i128) -> (q: i128)
    requires
        d >= 1,
    ensures
        q == floor_div_spec(a as int, d as int),
{
    if a >= 0 {
        a / d
    } else {
        let n: i128 = -(a + 1);
        let m: i128 = n / d;
        let r: i128 = n % d;
        proof {
            lemma_fundamental_div_mod(n as int, d as int);
            let q = -(m as int) - 1;
            let rr = d - 1 - r;
            assert(a as int == q * d + rr) by (nonlinear_arith)
                requires
                    a == -(n as int) - 1,
                    n == d * m + r,
                    q == -(m as int) - 1,
                    rr == d - 1 - r,
            ;
            lemma_fundamental_div_mod_converse(a as int, d as int, q, rr);
        }
        -m - 1
    }
}

/// The weight that follows a weight of a magnitude within `WEIGHT_LIMIT`.
fn next_amplitude(amp: i128, persistence: i32) -> (next: i128)
    requires
        -WEIGHT_LIMIT <= amp <= WEIGHT_LIMIT,
    ensures
        next == floor_div_spec(amp * persistence, NOISE_UNIT as int),
        -0x1000_0000_0000_0000_0000 <= next <= 0x1000_0000_0000_0000_0000,
{
    assert(-0x1_0000_0000_0000_0000 * 0x8000_0000 <= amp * persistence <= 0x1_0000_0000_0000_0000
        * 0x8000_0000) by (nonlinear_arith)
        requires
            -0x1_0000_0000_0000_0000 <= amp <= 0x1_0000_0000_0000_0000,
            -0x8000_0000 <= persistence <= 0x8000_0000,
    ;
    proof {
        lemma_floor_div_bounds(amp * persistence, NOISE_UNIT as int);
    }
    floor_div_widest(amp * (persistence as i128), NOISE_UNIT as i128)
}

/// Whether the octaves of a configuration can be blended: `blendable` of its
/// persistence and its number of octaves.
pub fn is_blendable(config: &TerrainConfig) -> (b: bool)
    ensures
        b == blendable(config.noise_persistence as int, config.noise_octaves as nat),
{
    let persistence: i32 = config.noise_persistence;
    let mut amp: i128 = NOISE_UNIT as i128;
    let mut mass: i128 = 0;
    let mut i: u32 = 0;
    while i < config.noise_octaves
        invariant
            0 <= i <= config.noise_octaves,
            persistence == config.noise_persistence,
            amp == amplitude(persistence as int, i as nat),
            -0x1000_0000_0000_0000_0000 <= amp <= 0x1000_0000_0000_0000_0000,
            mass == weight_mass(persistence as int, i as nat),
            0 <= mass <= WEIGHT_LIMIT,
        decreases config.noise_octaves - i,
    {
        let magnitude: i128 = if amp >= 0 {
            amp
        } else {
            -amp
        };
        mass = mass + magnitude;
        if mass > WEIGHT_LIMIT {
            proof {
                lemma_mass_grows(
                    persistence as int,
                    (i + 1) as nat,
                    config.noise_octaves as nat,
                );
            }
            return false;
        }
        amp = next_amplitude(amp, persistence);
        i = i + 1;
    }
    true
}

/// The height at a point, from the noise sampled there at each octave, one
/// sample an octave in order: `blended_height` of them under the
/// configuration's persistence and height scale. The same samples under the
/// same configuration give the same height, always.
///
/// The octaves must be blendable, which `is_blendable` tells. The height is
/// wide: samples beyond a noise value of one, or weights of both signs, can
/// take it far beyond the range of coordinates (of noise within one under a
/// persistence that is not negative, `lemma_height_is_bounded` keeps it within
/// the height scale).
pub fn sample_height(config: &TerrainConfig, samples: &Vec<i32>) -> (height: i128)
    requires
        samples@.len() == config.noise_octaves,
        blendable(config.noise_persistence as int, config.noise_octaves as nat),
    ensures
        height == blended_height(
            samples@,
            config.noise_persistence as int,
            config.height_scale as int,
        ),
{
    let persistence: i32 = config.noise_persistence;
    let height_scale: i32 = config.height_scale;
    let ghost n: nat = samples@.len();
    let mut amp: i128 = NOISE_UNIT as i128;
    let mut sum: i128 = 0;
    let mut norm: i128 = 0;
    let mut i: usize = 0;
    while i < samples.len()
        invariant
            0 <= i <= samples@.len(),
            n == samples@.len(),
            weight_mass(persistence as int, n) <= WEIGHT_LIMIT,
            amp == amplitude(persistence as int, i as nat),
            sum == weighted_sum(samples@, persistence as int, i as nat),
            norm == amplitude_sum(persistence as int, i as nat),
        decreases samples@.len() - i,
    {
        let s: i128 = samples[i] as i128;
        proof {
            lemma_mass_bounds(samples@, persistence as int, i as nat, 0x8000_0000);
            lemma_mass_bounds(samples@, persistence as int, (i + 1) as nat, 0x8000_0000);
            lemma_mass_grows(persistence as int, (i + 1) as nat, n);
            let m = weight_mass(persistence as int, i as nat);
            let m1 = weight_mass(persistence as int, (i + 1) as nat);
            assert(0x8000_0000 * m <= 0x8000_0000 * 0x1_0000_0000_0000_0000 && 0x8000_0000 * m1
                <= 0x8000_0000 * 0x1_0000_0000_0000_0000) by (nonlinear_arith)
                requires
                    0 <= m <= 0x1_0000_0000_0000_0000,
                    0 <= m1 <= 0x1_0000_0000_0000_0000,
            ;
            assert(-0x8000_0000 * 0x1_0000_0000_0000_0000 <= s * amp <= 0x8000_0000
                * 0x1_0000_0000_0000_0000) by (nonlinear_arith)
                requires
                    -0x8000_0000 <= s <= 0x8000_0000,
                    -0x1_0000_0000_0000_0000 <= amp <= 0x1_0000_0000_0000_0000,
            ;
        }
        sum = sum + s * amp;
        norm = norm + amp;
        amp = next_amplitude(amp, persistence);
        i = i + 1;
    }
    if norm <= 0 {
        return 0;
    }
    proof {
        lemma_mass_bounds(samples@, persistence as int, n, 0x8000_0000);
        let m = weight_mass(persistence as int, n);
        assert(0x8000_0000 * m <= 0x8000_0000 * 0x1_0000_0000_0000_0000) by (nonlinear_arith)
            requires
                0 <= m <= 0x1_0000_0000_0000_0000,
        ;
        assert(-0x8000_0000 * 0x1_0000_0000_0000_0000 * 0x8000_0000 <= sum * height_scale
            <= 0x8000_0000 * 0x1_0000_0000_0000_0000 * 0x8000_0000) by (nonlinear_arith)
            requires
                -0x8000_0000 * 0x1_0000_0000_0000_0000 <= sum <= 0x8000_0000
                    * 0x1_0000_0000_0000_0000,
                -0x8000_0000 <= height_scale <= 0x8000_0000,
        ;
        assert(1 <= norm * NOISE_UNIT <= 0x1_0000_0000_0000_0000 * 1_000_000)
            by (nonlinear_arith)
            requires
                1 <= norm <= 0x1_0000_0000_0000_0000,
                NOISE_UNIT == 1_000_000,
        ;
    }
    floor_div_widest(sum * (height_scale as i128), norm * (NOISE_UNIT as i128))
}

} // verus!
