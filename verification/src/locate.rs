//! Travel-time phase association: hypocenter location.
//!
//! Given the times of P picks, a two-stage grid search looks for the epicentre and
//! origin time that best fit a single source. How well a candidate fits is measured
//! by the caller, in floating point; the search decides where to look and what to
//! keep. A low residual means that the picks are consistent with one earthquake.

use vstd::arithmetic::power2::*;
use vstd::prelude::*;

use crate::double::lemma_value;
use crate::double::Double;

verus! {

/// Crustal P velocity (km/s) for the homogeneous model, as the bit pattern of the double 6.
pub const VP_KM_S: u64 = 0x4018_0000_0000_0000;

/// Picks below which there is no location.
pub const MIN_PICKS: usize = 3;

/// Half-width of the coarse grid in degrees, as the bit pattern of the double 3.
pub const COARSE_SPAN: u64 = 0x4008_0000_0000_0000;

/// Pitch of the coarse grid in degrees, as the bit pattern of the double 0.25.
pub const COARSE_STEP: u64 = 0x3fd0_0000_0000_0000;

/// Points along a side of the coarse grid.
pub const COARSE_POINTS: usize = 25;

/// Half-width of the fine grid in degrees, as the bit pattern of the double 0.25.
pub const FINE_SPAN: u64 = 0x3fd0_0000_0000_0000;

/// Pitch of the fine grid in degrees, as the bit pattern of the double 0.02.
pub const FINE_STEP: u64 = 0x3f94_7ae1_47ae_147b;

/// Points along a side of the fine grid.
pub const FINE_POINTS: usize = 26;

/// A located source.
#[derive(Clone, Copy, Debug, PartialEq, Eq, Structural)]
pub struct Hypocenter {
    pub lat: Double,
    pub lon: Double,
    pub origin_ns: i64,
    pub rms_s: Double,
    pub n: usize,
}

/// A candidate epicentre to measure.
#[derive(Clone, Copy, Debug, PartialEq, Eq, Structural)]
pub enum Probe {
    /// The mean of the picks' coordinates.
    Centroid,
    /// A grid point: `step` times `row` north and `step` times `column` east of the corner that
    /// lies `span` south and west of the centre.
    Grid { lat: Double, lon: Double, span: Double, step: Double, row: usize, column: usize },
}

/// How the picks fit a candidate: where it lies, the residual, and the best origin time in
/// nanoseconds after the earliest pick.
#[derive(Clone, Copy, Debug, PartialEq, Eq, Structural)]
pub struct Fit {
    pub lat: Double,
    pub lon: Double,
    pub rms_s: Double,
    pub offset_ns: i64,
}

/// The earliest of some times.
pub open spec fn earliest(times: Seq<i64>) -> i64
    decreases times.len(),
{
    if times.len() <= 1 {
        times[0]
    } else {
        let before = earliest(times.drop_last());
        if times.last() < before {
            times.last()
        } else {
            before
        }
    }
}

/// Nanoseconds from the earliest of some times to each.
pub open spec fn since_earliest(times: Seq<i64>) -> Seq<u64> {
    times.map_values(|t: i64| (t - earliest(times)) as u64)
}

/// The first fit that no later one improves on.
pub open spec fn best_of(fits: Seq<Fit>) -> Fit
    decreases fits.len(),
{
    if fits.len() <= 1 {
        fits[0]
    } else {
        let before = best_of(fits.drop_last());
        if fits.last().rms_s.spec_lt(before.rms_s) {
            fits.last()
        } else {
            before
        }
    }
}

/// Number of candidates before the fine grid: the centroid and the coarse grid.
pub open spec fn coarse_count() -> int {
    1 + COARSE_POINTS * COARSE_POINTS
}

/// Number of candidates of a search.
pub open spec fn probe_count() -> int {
    coarse_count() + FINE_POINTS * FINE_POINTS
}

/// The candidate that is measured after `fits`: the centroid, then the coarse grid about it row by
/// row, then the fine grid about the best fit of those.
pub open spec fn next_probe(fits: Seq<Fit>) -> Probe {
    let k = fits.len() as int;
    if k == 0 {
        Probe::Centroid
    } else if k < coarse_count() {
        let centre = fits[0];
        Probe::Grid {
            lat: centre.lat,
            lon: centre.lon,
            span: Double { bits: COARSE_SPAN },
            step: Double { bits: COARSE_STEP },
            row: ((k - 1) / COARSE_POINTS as int) as usize,
            column: ((k - 1) % COARSE_POINTS as int) as usize,
        }
    } else {
        let centre = best_of(fits.take(coarse_count()));
        Probe::Grid {
            lat: centre.lat,
            lon: centre.lon,
            span: Double { bits: FINE_SPAN },
            step: Double { bits: FINE_STEP },
            row: ((k - coarse_count()) / FINE_POINTS as int) as usize,
            column: ((k - coarse_count()) % FINE_POINTS as int) as usize,
        }
    }
}

/// Whether `measure` may give `fit` for a candidate.
pub open spec fn fit_may_be<F: Fn(&Vec<u64>, Probe) -> Fit>(
    measure: F,
    since: Seq<u64>,
    probe: Probe,
    fit: Fit,
) -> bool {
    exists|v: Vec<u64>| v@ == since && #[trigger] call_ensures(measure, (&v, probe), fit)
}

/// Whether `measure` may give `fits`, candidate by candidate.
pub open spec fn searched<F: Fn(&Vec<u64>, Probe) -> Fit>(
    measure: F,
    since: Seq<u64>,
    fits: Seq<Fit>,
) -> bool {
    forall|k: int|
        0 <= k < fits.len() ==> fit_may_be(
            measure,
            since,
            next_probe(fits.take(k)),
            #[trigger] fits[k],
        )
}

/// What a search with the given fits finds.
pub open spec fn located(times: Seq<i64>, fits: Seq<Fit>) -> Option<Hypocenter> {
    let best = best_of(fits);
    if best.rms_s.spec_is_finite() {
        Some(
            Hypocenter {
                lat: best.lat,
                lon: best.lon,
                origin_ns: (earliest(times) + best.offset_ns) as i64,
                rms_s: best.rms_s,
                n: times.len() as usize,
            },
        )
    } else {
        None
    }
}

/// Whether a search with `measure` over picks made at the given times may find `r`.
pub open spec fn may_locate<F: Fn(&Vec<u64>, Probe) -> Fit>(
    measure: F,
    times: Seq<i64>,
    r: Option<Hypocenter>,
) -> bool {
    if times.len() < MIN_PICKS {
        r is None
    } else {
        exists|fits: Seq<Fit>|
            {
                &&& fits.len() == probe_count()
                &&& #[trigger] searched(measure, since_earliest(times), fits)
                &&& r == located(times, fits)
            }
    }
}

/// Whether the origin time of the best fit of a search is always one that a signed 64-bit number
/// can hold.
pub open spec fn origin_fits<F: Fn(&Vec<u64>, Probe) -> Fit>(measure: F, times: Seq<i64>) -> bool {
    times.len() >= MIN_PICKS ==> forall|fits: Seq<Fit>| #[trigger]
        searched(measure, since_earliest(times), fits) && fits.len() == probe_count() && best_of(
            fits,
        ).rms_s.spec_is_finite() ==> i64::MIN <= earliest(times) + best_of(fits).offset_ns
            <= i64::MAX
}

fn find_earliest(times: &Vec<i64>) -> (t0: i64)
    requires
        times@.len() > 0,
    ensures
        t0 == earliest(times@),
        forall|i: int| 0 <= i < times@.len() ==> t0 <= #[trigger] times@[i],
{
    let mut t0: i64 = times[0];
    let mut i: usize = 1;
    assert(times@.take(1).len() == 1);
    while i < times.len()
        invariant
            1 <= i <= times@.len(),
            t0 == earliest(times@.take(i as int)),
            forall|k: int| 0 <= k < i ==> t0 <= #[trigger] times@[k],
        decreases times@.len() - i,
    {
        assert(times@.take(i + 1).drop_last() =~= times@.take(i as int));
        if times[i] < t0 {
            t0 = times[i];
        }
        i = i + 1;
    }
    assert(times@.take(i as int) =~= times@);
    t0
}

/// Measures one more candidate and keeps the better fit.
fn step<F: Fn(&Vec<u64>, Probe) -> Fit>(
    measure: &F,
    since: &Vec<u64>,
    probe: Probe,
    best: Fit,
    Ghost(fits): Ghost<Seq<Fit>>,
) -> (r: (Fit, Ghost<Seq<Fit>>))
    requires
        forall|v: &Vec<u64>, p: Probe| call_requires(*measure, (v, p)),
        fits.len() > 0,
        searched(*measure, since@, fits),
        probe == next_probe(fits),
        best == best_of(fits),
    ensures
        r.1@.len() == fits.len() + 1,
        r.1@.take(fits.len() as int) == fits,
        searched(*measure, since@, r.1@),
        r.0 == best_of(r.1@),
{
    let fit: Fit = measure(since, probe);
    assert(call_ensures(*measure, (since, probe), fit));
    let ghost more = fits.push(fit);
    assert(more.drop_last() =~= fits);
    assert(more.take(fits.len() as int) =~= fits);
    assert forall|k: int| 0 <= k < more.len() implies fit_may_be(
        *measure,
        since@,
        next_probe(more.take(k)),
        #[trigger] more[k],
    ) by {
        assert(more.take(k) =~= fits.take(k));
        if k < fits.len() {
            assert(more[k] == fits[k]);
        } else {
            assert(fits.take(k) =~= fits);
        }
    }
    if fit.rms_s.lt(best.rms_s) {
        (fit, Ghost(more))
    } else {
        (best, Ghost(more))
    }
}

/// Locates the best-fitting hypocenter for picks made at the given times. Returns None for fewer
/// than 3 picks, or where no candidate has a finite residual.
///
/// `measure` tells how the picks fit a candidate; it is handed the nanoseconds from the earliest
/// pick to each. Ties keep the earlier candidate, the centroid above all, so that picks that do
/// not constrain the source do not drift to a grid corner. The origin time of the best fit has to
/// be one that a signed 64-bit number can hold.
pub fn locate<F: Fn(&Vec<u64>, Probe) -> Fit>(times: &Vec<i64>, measure: &F) -> (r: Option<
    Hypocenter,
>)
    requires
        forall|v: &Vec<u64>, p: Probe| call_requires(*measure, (v, p)),
        origin_fits(*measure, times@),
    ensures
        may_locate(*measure, times@, r),
{
    if times.len() < MIN_PICKS {
        return None;
    }
    let t0: i64 = find_earliest(times);
    let mut since: Vec<u64> = Vec::new();
    let mut k: usize = 0;
    while k < times.len()
        invariant
            0 <= k <= times@.len(),
            t0 == earliest(times@),
            forall|i: int| 0 <= i < times@.len() ==> t0 <= #[trigger] times@[i],
            since@.len() == k,
            forall|i: int| 0 <= i < k ==> since@[i] == times@[i] - t0,
        decreases times@.len() - k,
    {
        since.push((times[k] as i128 - t0 as i128) as u64);
        k = k + 1;
    }
    assert(since@ =~= since_earliest(times@));

    let mut best: Fit = measure(&since, Probe::Centroid);
    assert(call_ensures(*measure, (&since, Probe::Centroid), best));
    let ghost mut fits: Seq<Fit> = seq![best];
    assert(fits.take(0) =~= Seq::empty());
    assert(searched(*measure, since@, fits));

    let centre: Fit = best;
    let mut i: usize = 0;
    while i < COARSE_POINTS
        invariant
            0 <= i <= COARSE_POINTS,
            forall|v: &Vec<u64>, p: Probe| call_requires(*measure, (v, p)),
            fits.len() == 1 + COARSE_POINTS * i,
            fits[0] == centre,
            searched(*measure, since@, fits),
            best == best_of(fits),
        decreases COARSE_POINTS - i,
    {
        let mut j: usize = 0;
        while j < COARSE_POINTS
            invariant
                0 <= i < COARSE_POINTS,
                0 <= j <= COARSE_POINTS,
                forall|v: &Vec<u64>, p: Probe| call_requires(*measure, (v, p)),
                fits.len() == 1 + COARSE_POINTS * i + j,
                fits[0] == centre,
                searched(*measure, since@, fits),
                best == best_of(fits),
            decreases COARSE_POINTS - j,
        {
            let probe = Probe::Grid {
                lat: centre.lat,
                lon: centre.lon,
                span: Double { bits: COARSE_SPAN },
                step: Double { bits: COARSE_STEP },
                row: i,
                column: j,
            };
            let r: (Fit, Ghost<Seq<Fit>>) = step(measure, &since, probe, best, Ghost(fits));
            best = r.0;
            proof {
                assert(r.1@.take(fits.len() as int)[0] == centre);
                fits = r.1@;
            }
            j = j + 1;
        }
        i = i + 1;
    }

    let centre: Fit = best;
    let ghost coarse = fits;
    assert(fits.take(coarse_count()) =~= coarse);
    let mut i: usize = 0;
    while i < FINE_POINTS
        invariant
            0 <= i <= FINE_POINTS,
            forall|v: &Vec<u64>, p: Probe| call_requires(*measure, (v, p)),
            fits.len() == coarse_count() + FINE_POINTS * i,
            coarse.len() == coarse_count(),
            fits.take(coarse_count()) == coarse,
            centre == best_of(coarse),
            searched(*measure, since@, fits),
            best == best_of(fits),
        decreases FINE_POINTS - i,
    {
        let mut j: usize = 0;
        while j < FINE_POINTS
            invariant
                0 <= i < FINE_POINTS,
                0 <= j <= FINE_POINTS,
                forall|v: &Vec<u64>, p: Probe| call_requires(*measure, (v, p)),
                fits.len() == coarse_count() + FINE_POINTS * i + j,
                coarse.len() == coarse_count(),
                fits.take(coarse_count()) == coarse,
                centre == best_of(coarse),
                searched(*measure, since@, fits),
                best == best_of(fits),
            decreases FINE_POINTS - j,
        {
            let probe = Probe::Grid {
                lat: centre.lat,
                lon: centre.lon,
                span: Double { bits: FINE_SPAN },
                step: Double { bits: FINE_STEP },
                row: i,
                column: j,
            };
            let r: (Fit, Ghost<Seq<Fit>>) = step(measure, &since, probe, best, Ghost(fits));
            best = r.0;
            proof {
                assert(r.1@.take(coarse_count()) =~= r.1@.take(fits.len() as int).take(
                    coarse_count(),
                ));
                fits = r.1@;
            }
            j = j + 1;
        }
        i = i + 1;
    }

    if !best.rms_s.is_finite() {
        return None;
    }
    Some(
        Hypocenter {
            lat: best.lat,
            lon: best.lon,
            origin_ns: t0 + best.offset_ns,
            rms_s: best.rms_s,
            n: times.len(),
        },
    )
}

/// The best fit is the first of those that no other improves on: every number among the residuals
/// before it is larger, and none is smaller.
pub proof fn best_is_first_minimum(fits: Seq<Fit>)
    requires
        fits.len() > 0,
    ensures
        exists|m: int|
            {
                &&& 0 <= m < fits.len()
                &&& #[trigger] fits[m] == best_of(fits)
                &&& forall|k: int|
                    0 <= k < m && !(#[trigger] fits[k]).rms_s.spec_is_nan() ==> fits[m].rms_s.spec_lt(
                        fits[k].rms_s,
                    )
            },
        forall|k: int|
            0 <= k < fits.len() ==> !(#[trigger] fits[k]).rms_s.spec_lt(best_of(fits).rms_s),
    decreases fits.len(),
{
    if fits.len() > 1 {
        let shorter = fits.drop_last();
        best_is_first_minimum(shorter);
        let m = choose|m: int|
            {
                &&& 0 <= m < shorter.len()
                &&& #[trigger] shorter[m] == best_of(shorter)
                &&& forall|k: int|
                    0 <= k < m && !(#[trigger] shorter[k]).rms_s.spec_is_nan()
                        ==> shorter[m].rms_s.spec_lt(shorter[k].rms_s)
            };
        if fits.last().rms_s.spec_lt(best_of(shorter).rms_s) {
            let n = fits.len() - 1;
            assert(fits[n] == best_of(fits));
            assert forall|k: int| 0 <= k < n && !(#[trigger] fits[k]).rms_s.spec_is_nan() implies fits[n].rms_s.spec_lt(
                fits[k].rms_s,
            ) by {
                assert(shorter[k] == fits[k]);
            }
            assert forall|k: int| 0 <= k < fits.len() implies !(#[trigger] fits[k]).rms_s.spec_lt(
                best_of(fits).rms_s,
            ) by {
                if k < n {
                    assert(shorter[k] == fits[k]);
                }
            }
        } else {
            assert(fits[m] == best_of(fits));
            assert forall|k: int| 0 <= k < m && !(#[trigger] fits[k]).rms_s.spec_is_nan() implies fits[m].rms_s.spec_lt(
                fits[k].rms_s,
            ) by {
                assert(shorter[k] == fits[k]);
            }
            assert forall|k: int| 0 <= k < fits.len() implies !(#[trigger] fits[k]).rms_s.spec_lt(
                best_of(fits).rms_s,
            ) by {
                if k < fits.len() - 1 {
                    assert(shorter[k] == fits[k]);
                }
            }
        }
    } else {
        assert(fits[0] == best_of(fits));
    }
}

/// Whether `measure` gives one fit only for each candidate.
pub open spec fn is_deterministic<F: Fn(&Vec<u64>, Probe) -> Fit>(measure: F) -> bool {
    forall|since: Seq<u64>, probe: Probe, a: Fit, b: Fit|
        #[trigger] fit_may_be(measure, since, probe, a) && #[trigger] fit_may_be(
            measure,
            since,
            probe,
            b,
        ) ==> a == b
}

/// A search is deterministic where its measure is: two searches over the same times meet the same
/// fits, and so find the same.
pub proof fn search_is_deterministic<F: Fn(&Vec<u64>, Probe) -> Fit>(
    measure: F,
    times: Seq<i64>,
    a: Seq<Fit>,
    b: Seq<Fit>,
)
    requires
        is_deterministic(measure),
        a.len() == b.len(),
        searched(measure, since_earliest(times), a),
        searched(measure, since_earliest(times), b),
    ensures
        a == b,
        located(times, a) == located(times, b),
{
    lemma_same_fits(measure, since_earliest(times), a, b, a.len() as int);
    assert(a.take(a.len() as int) =~= a);
    assert(b.take(b.len() as int) =~= b);
}

proof fn lemma_same_fits<F: Fn(&Vec<u64>, Probe) -> Fit>(
    measure: F,
    since: Seq<u64>,
    a: Seq<Fit>,
    b: Seq<Fit>,
    n: int,
)
    requires
        is_deterministic(measure),
        searched(measure, since, a),
        searched(measure, since, b),
        0 <= n <= a.len() == b.len(),
    ensures
        a.take(n) == b.take(n),
    decreases n,
{
    if n > 0 {
        lemma_same_fits(measure, since, a, b, n - 1);
        assert(fit_may_be(measure, since, next_probe(a.take(n - 1)), a[n - 1]));
        assert(fit_may_be(measure, since, next_probe(b.take(n - 1)), b[n - 1]));
        assert(a.take(n) =~= a.take(n - 1).push(a[n - 1]));
        assert(b.take(n) =~= b.take(n - 1).push(b[n - 1]));
    } else {
        assert(a.take(0) =~= b.take(0));
    }
}

proof fn lemma_earliest_shifts(times: Seq<i64>, shifted: Seq<i64>, shift: int)
    requires
        0 < times.len() == shifted.len(),
        forall|i: int| 0 <= i < times.len() ==> #[trigger] shifted[i] == times[i] + shift,
    ensures
        earliest(shifted) == earliest(times) + shift,
    decreases times.len(),
{
    assert(shifted[times.len() - 1] == times[times.len() - 1] + shift);
    if times.len() > 1 {
        let fewer = times.drop_last();
        let moved = shifted.drop_last();
        assert forall|i: int| 0 <= i < fewer.len() implies #[trigger] moved[i] == fewer[i]
            + shift by {
            assert(moved[i] == shifted[i]);
        }
        lemma_earliest_shifts(fewer, moved, shift);
    }
}

/// Where the measure is deterministic, picks that are all shifted by one time are located at the
/// same place with the same residual, or neither are located, and the origin is shifted alike.
pub proof fn shift_moves_only_the_origin<F: Fn(&Vec<u64>, Probe) -> Fit>(
    measure: F,
    times: Seq<i64>,
    shifted: Seq<i64>,
    shift: int,
    r: Option<Hypocenter>,
    moved: Option<Hypocenter>,
)
    requires
        is_deterministic(measure),
        times.len() == shifted.len(),
        forall|i: int| 0 <= i < times.len() ==> #[trigger] shifted[i] == times[i] + shift,
        origin_fits(measure, times),
        origin_fits(measure, shifted),
        may_locate(measure, times, r),
        may_locate(measure, shifted, moved),
    ensures
        r is None <==> moved is None,
        r matches Some(h) ==> {
            &&& moved->0.lat == h.lat
            &&& moved->0.lon == h.lon
            &&& moved->0.rms_s == h.rms_s
            &&& moved->0.n == h.n
            &&& moved->0.origin_ns == h.origin_ns + shift
        },
{
    if times.len() >= MIN_PICKS {
        lemma_earliest_shifts(times, shifted, shift);
        assert(since_earliest(shifted) =~= since_earliest(times)) by {
            assert forall|i: int| 0 <= i < times.len() implies since_earliest(shifted)[i]
                == since_earliest(times)[i] by {
                assert(shifted[i] == times[i] + shift);
            }
        }
        let a = choose|a: Seq<Fit>|
            {
                &&& a.len() == probe_count()
                &&& #[trigger] searched(measure, since_earliest(times), a)
                &&& r == located(times, a)
            };
        let b = choose|b: Seq<Fit>|
            {
                &&& b.len() == probe_count()
                &&& #[trigger] searched(measure, since_earliest(shifted), b)
                &&& moved == located(shifted, b)
            };
        search_is_deterministic(measure, times, a, b);
    }
}

/// Where the measure is deterministic, so is what a search finds.
pub proof fn location_is_deterministic<F: Fn(&Vec<u64>, Probe) -> Fit>(
    measure: F,
    times: Seq<i64>,
    r: Option<Hypocenter>,
    s: Option<Hypocenter>,
)
    requires
        is_deterministic(measure),
        may_locate(measure, times, r),
        may_locate(measure, times, s),
    ensures
        r == s,
{
    if times.len() >= MIN_PICKS {
        let a = choose|a: Seq<Fit>|
            {
                &&& a.len() == probe_count()
                &&& #[trigger] searched(measure, since_earliest(times), a)
                &&& r == located(times, a)
            };
        let b = choose|b: Seq<Fit>|
            {
                &&& b.len() == probe_count()
                &&& #[trigger] searched(measure, since_earliest(times), b)
                &&& s == located(times, b)
            };
        search_is_deterministic(measure, times, a, b);
    }
}

/// A candidate is measured by handing over the nanoseconds from the earliest pick to each, and the
/// candidate itself.
pub proof fn candidates_are_measured<F: Fn(&Vec<u64>, Probe) -> Fit>(
    measure: F,
    since: Seq<u64>,
    probe: Probe,
    fit: Fit,
)
    ensures
        fit_may_be(measure, since, probe, fit) <==> exists|v: Vec<u64>|
            v@ == since && #[trigger] call_ensures(measure, (&v, probe), fit),
{
}

proof fn lemma_earliest_is_least(times: Seq<i64>)
    requires
        times.len() > 0,
    ensures
        times.contains(earliest(times)),
        forall|i: int| 0 <= i < times.len() ==> earliest(times) <= #[trigger] times[i],
    decreases times.len(),
{
    assert(times[times.len() - 1] == times.last());
    if times.len() > 1 {
        let fewer = times.drop_last();
        lemma_earliest_is_least(fewer);
        let k = choose|k: int| 0 <= k < fewer.len() && fewer[k] == earliest(fewer);
        assert(times[k] == earliest(fewer));
        assert forall|i: int| 0 <= i < times.len() implies earliest(times) <= #[trigger] times[i] by {
            if i < fewer.len() {
                assert(fewer[i] == times[i]);
            }
        }
    } else {
        assert(times[0] == earliest(times));
    }
}

/// A search measures the centroid, every point of a coarse grid of 25 rows and 25 columns about
/// it, 0.25 degrees apart and up to 3 degrees away, and every point of a fine grid of 26 rows and
/// 26 columns, 0.02 degrees apart and up to 0.25 degrees away, about the best of those. What is
/// found is the best of all: no point of either grid has a smaller residual, and of equals the
/// first counts. There is nothing to be found where its residual is not finite, or with fewer than
/// 3 picks. The origin lies as long after the earliest pick as the best fit tells.
pub proof fn search_covers_both_grids<F: Fn(&Vec<u64>, Probe) -> Fit>(
    measure: F,
    times: Seq<i64>,
    r: Option<Hypocenter>,
)
    requires
        may_locate(measure, times, r),
        origin_fits(measure, times),
    ensures
        times.len() < 3 ==> r is None,
        times.len() >= 3 ==> exists|
            first: i64,
            since: Seq<u64>,
            fits: Seq<Fit>,
            pivot: int,
            best: int,
        |
            #![trigger times.contains(first), fit_may_be(measure, since, Probe::Centroid, fits[0]), fits[pivot], fits[best]]
            {
                // times count from the earliest pick
                &&& times.contains(first)
                &&& forall|i: int| 0 <= i < times.len() ==> first <= #[trigger] times[i]
                &&& since.len() == times.len()
                &&& forall|i: int| 0 <= i < times.len() ==> #[trigger] since[i] == times[i] - first
                // the centroid, the coarse grid about it, the fine grid about the best of those
                &&& fits.len() == 1 + 25 * 25 + 26 * 26
                &&& fit_may_be(measure, since, Probe::Centroid, fits[0])
                &&& forall|row: int, column: int|
                    0 <= row < 25 && 0 <= column < 25 ==> #[trigger] fit_may_be(
                        measure,
                        since,
                        Probe::Grid {
                            lat: fits[0].lat,
                            lon: fits[0].lon,
                            span: Double { bits: 0x4008_0000_0000_0000 },
                            step: Double { bits: 0x3fd0_0000_0000_0000 },
                            row: row as usize,
                            column: column as usize,
                        },
                        fits[1 + 25 * row + column],
                    )
                &&& forall|row: int, column: int|
                    0 <= row < 26 && 0 <= column < 26 ==> #[trigger] fit_may_be(
                        measure,
                        since,
                        Probe::Grid {
                            lat: fits[pivot].lat,
                            lon: fits[pivot].lon,
                            span: Double { bits: 0x3fd0_0000_0000_0000 },
                            step: Double { bits: 0x3f94_7ae1_47ae_147b },
                            row: row as usize,
                            column: column as usize,
                        },
                        fits[626 + 26 * row + column],
                    )
                // the best before the fine grid, and the best of all
                &&& 0 <= pivot < 626
                &&& forall|k: int|
                    0 <= k < 626 ==> !(#[trigger] fits[k]).rms_s.spec_lt(fits[pivot].rms_s)
                &&& forall|k: int|
                    0 <= k < pivot && !(#[trigger] fits[k]).rms_s.spec_is_nan()
                        ==> fits[pivot].rms_s.spec_lt(fits[k].rms_s)
                &&& 0 <= best < fits.len()
                &&& forall|k: int|
                    0 <= k < fits.len() ==> !(#[trigger] fits[k]).rms_s.spec_lt(fits[best].rms_s)
                &&& forall|k: int|
                    0 <= k < best && !(#[trigger] fits[k]).rms_s.spec_is_nan()
                        ==> fits[best].rms_s.spec_lt(fits[k].rms_s)
                // what is found
                &&& r is Some <==> fits[best].rms_s.spec_is_finite()
                &&& r matches Some(h) ==> {
                    &&& h.lat == fits[best].lat
                    &&& h.lon == fits[best].lon
                    &&& h.rms_s == fits[best].rms_s
                    &&& h.origin_ns == first + fits[best].offset_ns
                    &&& h.n == times.len() as usize
                }
            },
{
    if times.len() >= 3 {
        let since = since_earliest(times);
        let first = earliest(times);
        let fits = choose|fits: Seq<Fit>|
            {
                &&& fits.len() == probe_count()
                &&& #[trigger] searched(measure, since_earliest(times), fits)
                &&& r == located(times, fits)
            };
        lemma_earliest_is_least(times);
        assert forall|i: int| 0 <= i < times.len() implies #[trigger] since[i] == times[i] - first by {
            assert(first <= times[i]);
        }
        let coarse = fits.take(626);
        best_is_first_minimum(coarse);
        best_is_first_minimum(fits);
        let pivot = choose|m: int|
            {
                &&& 0 <= m < coarse.len()
                &&& #[trigger] coarse[m] == best_of(coarse)
                &&& forall|k: int|
                    0 <= k < m && !(#[trigger] coarse[k]).rms_s.spec_is_nan()
                        ==> coarse[m].rms_s.spec_lt(coarse[k].rms_s)
            };
        let best = choose|m: int|
            {
                &&& 0 <= m < fits.len()
                &&& #[trigger] fits[m] == best_of(fits)
                &&& forall|k: int|
                    0 <= k < m && !(#[trigger] fits[k]).rms_s.spec_is_nan()
                        ==> fits[m].rms_s.spec_lt(fits[k].rms_s)
            };
        assert(fits[pivot] == coarse[pivot]);
        assert forall|k: int| 0 <= k < 626 implies !(#[trigger] fits[k]).rms_s.spec_lt(
            fits[pivot].rms_s,
        ) by {
            assert(coarse[k] == fits[k]);
        }
        assert forall|k: int| 0 <= k < pivot && !(#[trigger] fits[k]).rms_s.spec_is_nan() implies fits[pivot].rms_s.spec_lt(
            fits[k].rms_s,
        ) by {
            assert(coarse[k] == fits[k]);
        }
        assert(fit_may_be(measure, since, next_probe(fits.take(0)), fits[0]));
        assert forall|row: int, column: int| 0 <= row < 25 && 0 <= column < 25 implies #[trigger] fit_may_be(
            measure,
            since,
            Probe::Grid {
                lat: fits[0].lat,
                lon: fits[0].lon,
                span: Double { bits: 0x4008_0000_0000_0000 },
                step: Double { bits: 0x3fd0_0000_0000_0000 },
                row: row as usize,
                column: column as usize,
            },
            fits[1 + 25 * row + column],
        ) by {
            let k = 1 + 25 * row + column;
            assert(fit_may_be(measure, since, next_probe(fits.take(k)), fits[k]));
            assert(fits.take(k)[0] == fits[0]);
            assert((k - 1) / 25 == row && (k - 1) % 25 == column);
        }
        assert forall|row: int, column: int| 0 <= row < 26 && 0 <= column < 26 implies #[trigger] fit_may_be(
            measure,
            since,
            Probe::Grid {
                lat: fits[pivot].lat,
                lon: fits[pivot].lon,
                span: Double { bits: 0x3fd0_0000_0000_0000 },
                step: Double { bits: 0x3f94_7ae1_47ae_147b },
                row: row as usize,
                column: column as usize,
            },
            fits[626 + 26 * row + column],
        ) by {
            let k = 626 + 26 * row + column;
            assert(fit_may_be(measure, since, next_probe(fits.take(k)), fits[k]));
            assert(fits.take(k).take(626) =~= coarse);
            assert((k - 626) / 26 == row && (k - 626) % 26 == column);
        }
    }
}

/// The P velocity is 6 km/s, and the grids reach 3 and 0.25 degrees, the coarse one in steps of
/// 0.25, counted in the smallest positive double.
pub proof fn speeds_and_spans()
    ensures
        (Double { bits: VP_KM_S }).value() == 6 * pow2(1074),
        (Double { bits: COARSE_SPAN }).value() == 3 * pow2(1074),
        4 * (Double { bits: COARSE_STEP }).value() == pow2(1074),
        4 * (Double { bits: FINE_SPAN }).value() == pow2(1074),
        MIN_PICKS == 3,
        COARSE_POINTS == 25,
        FINE_POINTS == 26,
{
    lemma2_to64_rest();
    lemma_value(Double { bits: VP_KM_S }, 6, 50);
    lemma_value(Double { bits: COARSE_SPAN }, 3, 51);
    lemma_value(Double { bits: COARSE_STEP }, 1, 52);
    lemma_pow2_unfold(1074);
    lemma_pow2_unfold(1073);
}

} // verus!
