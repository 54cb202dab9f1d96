//! First-order magnitude estimation.
//!
//! Official sources carry an authoritative magnitude. For phone-only consensus it
//! is estimated from peak ground acceleration and distance, by an attenuation model
//! whose logarithms are the caller's to compute.

use vstd::arithmetic::power2::*;
use vstd::prelude::*;

use crate::double::lemma_value;
use crate::double::Double;
use crate::double::Single;
use crate::double::ONE;
use crate::double::ZERO;

verus! {

/// Largest magnitude that is ever estimated, as the bit pattern of the double 10.
pub const MAX_MAGNITUDE: u64 = 0x4024_0000_0000_0000;

/// Uncertainty (magnitude units) attached to a provisional PGA estimate, as the bit pattern of the
/// single 0.5.
pub const PROVISIONAL_UNCERT: u32 = 0x3f00_0000;

/// Uncertainty attached to an authoritative official magnitude, as the bit pattern of the single
/// 0.2.
pub const OFFICIAL_UNCERT: u32 = 0x3e4c_cccd;

/// Magnitude that a modelled value stands for: within 0 and 10, unless it is no number.
pub open spec fn bounded_magnitude(modelled: Double) -> Double {
    modelled.spec_clamp(Double { bits: ZERO }, Double { bits: MAX_MAGNITUDE })
}

/// Whether an estimate with `model` may be `m`: 0 where the PGA is not positive, else what the
/// model may give for the PGA and the distance, which is at least 1 km, within bounds.
pub open spec fn estimate_may_be<F: Fn(Single, Double) -> Double>(
    model: F,
    pga_g: Single,
    distance_km: Double,
    m: Double,
) -> bool {
    if pga_g.spec_not_positive() {
        m == (Double { bits: ZERO })
    } else {
        exists|modelled: Double|
            {
                &&& #[trigger] call_ensures(
                    model,
                    (pga_g, distance_km.spec_at_least(Double { bits: ONE })),
                    modelled,
                )
                &&& m == bounded_magnitude(modelled)
            }
    }
}

/// Provisional magnitude from PGA (in g) and hypocentral distance (km).
/// Returns 0 when PGA is not positive.
///
/// `model` gives the magnitude for a PGA and a distance of at least 1 km.
pub fn estimate_from_pga<F: Fn(Single, Double) -> Double>(
    pga_g: Single,
    distance_km: Double,
    model: &F,
) -> (m: Double)
    requires
        forall|pga: Single, r: Double| call_requires(*model, (pga, r)),
    ensures
        estimate_may_be(*model, pga_g, distance_km, m),
{
    if pga_g.not_positive() {
        return Double { bits: ZERO };
    }
    let r: Double = distance_km.at_least(Double { bits: ONE });
    let modelled: Double = model(pga_g, r);
    assert(call_ensures(*model, (pga_g, r), modelled));
    modelled.clamp(Double { bits: ZERO }, Double { bits: MAX_MAGNITUDE })
}

/// An estimate that is a number lies between 0 and 10.
pub proof fn magnitude_is_bounded(modelled: Double)
    requires
        !modelled.spec_is_nan(),
    ensures
        (Double { bits: ZERO }).spec_le(bounded_magnitude(modelled)),
        bounded_magnitude(modelled).spec_le(Double { bits: MAX_MAGNITUDE }),
{
}

/// Of two modelled magnitudes the larger never gives the smaller estimate.
pub proof fn magnitude_keeps_order(weak: Double, strong: Double)
    requires
        weak.spec_le(strong),
    ensures
        bounded_magnitude(weak).spec_le(bounded_magnitude(strong)),
{
}

/// Whether a model gives a number for every positive PGA and every distance, and never a smaller
/// one for a larger PGA or a larger distance.
pub open spec fn keeps_order<F: Fn(Single, Double) -> Double>(model: F) -> bool {
    forall|p: Single, q: Single, r: Double, s: Double, x: Double, y: Double|
        #[trigger] call_ensures(model, (p, r), x) && #[trigger] call_ensures(model, (q, s), y)
            && !p.spec_not_positive() && p.spec_le(q) && r.spec_le(s) ==> x.spec_le(y)
}

/// Where the model keeps order, so does the estimate: a larger PGA or a larger distance never gives
/// a smaller magnitude.
pub proof fn estimate_keeps_order<F: Fn(Single, Double) -> Double>(
    model: F,
    weak_g: Single,
    strong_g: Single,
    near_km: Double,
    far_km: Double,
    low: Double,
    high: Double,
)
    requires
        keeps_order(model),
        weak_g.spec_le(strong_g),
        near_km.spec_le(far_km),
        estimate_may_be(model, weak_g, near_km, low),
        estimate_may_be(model, strong_g, far_km, high),
    ensures
        low.spec_le(high),
{
    let one = Double { bits: ONE };
    let r = near_km.spec_at_least(one);
    let s = far_km.spec_at_least(one);
    if !strong_g.spec_not_positive() {
        let y = choose|y: Double|
            #[trigger] call_ensures(model, (strong_g, s), y) && high == bounded_magnitude(y);
        assert(y.spec_le(y));
        magnitude_is_bounded(y);
        if !weak_g.spec_not_positive() {
            let x = choose|x: Double|
                #[trigger] call_ensures(model, (weak_g, r), x) && low == bounded_magnitude(x);
            assert(r.spec_le(s));
            magnitude_keeps_order(x, y);
        }
    }
}

/// The estimate for a positive PGA is what the model gives for exactly that PGA and exactly that
/// distance, or for 1 km where the distance is less, wherever it lies between 0 and 10; it is 0
/// below that and 10 above. For a PGA that is not positive it is 0.
pub proof fn estimate_is_the_modelled_magnitude<F: Fn(Single, Double) -> Double>(
    model: F,
    pga_g: Single,
    distance_km: Double,
    m: Double,
)
    requires
        estimate_may_be(model, pga_g, distance_km, m),
    ensures
        ({
            let zero = Double { bits: 0 };
            let one = Double { bits: 0x3ff0_0000_0000_0000 };
            let ten = Double { bits: 0x4024_0000_0000_0000 };
            let positive = 0 < pga_g.bits < 0x8000_0000 || pga_g.bits > 0xff80_0000;
            &&& !positive ==> m == zero
            &&& positive ==> exists|r: Double, x: Double|
                {
                    &&& #[trigger] call_ensures(model, (pga_g, r), x)
                    &&& one.spec_le(distance_km) ==> r == distance_km
                    &&& !one.spec_le(distance_km) ==> r == one
                    &&& zero.spec_le(x) && x.spec_le(ten) ==> m == x
                    &&& x.spec_lt(zero) ==> m == zero
                    &&& ten.spec_lt(x) ==> m == ten
                    &&& x.spec_is_nan() ==> m == x
                }
        }),
{
    let one = Double { bits: 0x3ff0_0000_0000_0000 };
    if !pga_g.spec_not_positive() {
        let r = distance_km.spec_at_least(Double { bits: ONE });
        let x = choose|x: Double|
            #[trigger] call_ensures(model, (pga_g, r), x) && m == bounded_magnitude(x);
        if one.spec_le(distance_km) && distance_km.spec_le(one) {
            assert(distance_km == one);
        }
        assert(call_ensures(model, (pga_g, r), x));
    }
}

/// Magnitudes reach up to 10, counted in the smallest positive double.
pub proof fn largest_magnitude_is_ten()
    ensures
        (Double { bits: MAX_MAGNITUDE }).value() == 10 * pow2(1074),
        PROVISIONAL_UNCERT == 0x3f00_0000,
        OFFICIAL_UNCERT == 0x3e4c_cccd,
{
    lemma2_to64_rest();
    lemma_value(Double { bits: MAX_MAGNITUDE }, 10, 49);
}

} // verus!
