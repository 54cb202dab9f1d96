//! What the trust model guarantees of each observation that a fusion engine is given.

use vstd::prelude::*;

use crate::cluster::all_linked;
use crate::cluster::choice;
use crate::cluster::choice_exists;
use crate::cluster::choice_is_linked;
use crate::cluster::choice_is_maximal;
use crate::cluster::choice_of_all;
use crate::cluster::count;
use crate::cluster::flagged_in;
use crate::cluster::lemma_select;
use crate::cluster::lemma_select_all;
use crate::cluster::lemma_select_count;
use crate::cluster::lemma_select_filter;
use crate::cluster::lemma_select_keeps_order;
use crate::cluster::lemma_select_splits;
use crate::cluster::linked;
use crate::cluster::ordered_in;
use crate::cluster::select;
use crate::double::Double;
use crate::fusion::distance_may_be;
use crate::fusion::event_of;
use crate::fusion::events_are_signed_drafts;
use crate::fusion::fresh;
use crate::fusion::in_window;
use crate::fusion::ingested;
use crate::fusion::is_compared;
use crate::fusion::is_correlated;
use crate::fusion::is_fresh;
use crate::fusion::is_one_cluster;
use crate::fusion::measured;
use crate::fusion::near_each_other;
use crate::fusion::outcome;
use crate::fusion::pick_of;
use crate::fusion::picked;
use crate::fusion::taken_in;
use crate::fusion::verdict;
use crate::fusion::within;
use crate::fusion::Distances;
use crate::fusion::FusionView;
use crate::fusion::IngestError;
use crate::fusion::PickView;
use crate::fusion::Verdict;
use crate::geo::cell_of;
use crate::geo::is_geohash;
use crate::geo::CellView;
use crate::geo::GeoCell;
use crate::identity::ed25519_public_key;
use crate::message::ConfirmedEvent;
use crate::message::EventView;
use crate::message::EvidenceKind;
use crate::message::ObservationView;
use crate::message::SourceType;

verus! {

/// Any two picks of a consensus lie within the window of each other.
pub proof fn consensus_shares_the_window(joined: FusionView, d: Distances, a: int, b: int)
    requires
        joined.agrees(d),
        0 <= a < b < joined.cluster(d).len(),
    ensures
        in_window(joined.cluster(d)[a].t_ns, joined.cluster(d)[b].t_ns, joined.window_ns),
{
    let company = joined.company(d.to_newest);
    let links = joined.links(company, d.between);
    let need = (joined.consensus_n - 1) as nat;
    let chosen = choice(links, need)->0;
    let taken = select(company, chosen, true);
    choice_is_linked(links, need);
    lemma_select(company, chosen, true);
    lemma_select_keeps_order(company, chosen, true);
    lemma_select(joined.older(), joined.near(d.to_newest), true);
    assert(joined.cluster(d)[a] == taken[a]);
    if b < taken.len() {
        assert(joined.cluster(d)[b] == taken[b]);
        assert(ordered_in(company, chosen, true, taken[a], taken[b]));
        let (i, j) = choose|i: int, j: int|
            0 <= i < j < company.len() && chosen[i] && chosen[j] && #[trigger] company[i]
                == taken[a] && #[trigger] company[j] == taken[b];
        assert(links[j][i]);
    } else {
        assert(flagged_in(company, chosen, true, taken[a]));
        let i = choose|i: int|
            0 <= i < company.len() && chosen[i] && #[trigger] company[i] == taken[a];
        assert(flagged_in(joined.older(), joined.near(d.to_newest), true, company[i]));
    }
}

/// Where all picks near the newest are near each other, a consensus is of all of them and the
/// newest, and there is one if and only if they are enough.
pub proof fn consensus_takes_all(joined: FusionView, d: Distances)
    requires
        joined.consensus_n >= 1,
        is_one_cluster(joined, d),
    ensures
        joined.agrees(d) <==> joined.company(d.to_newest).len() + 1 >= joined.consensus_n,
        joined.agrees(d) ==> joined.cluster(d) == joined.company(d.to_newest).push(joined.newest()),
{
    let company = joined.company(d.to_newest);
    let links = joined.links(company, d.between);
    let need = (joined.consensus_n - 1) as nat;
    choice_of_all(links, need);
    if joined.agrees(d) {
        lemma_select_all(company, choice(links, need)->0);
    }
}

/// What fires is a consensus of correlated picks, whatever the distances.
pub proof fn agreement_is_correlated<D: Fn(&GeoCell, &GeoCell) -> Double>(
    f: FusionView,
    obs: ObservationView,
    distance: D,
    d: Distances,
)
    requires
        f.consensus_n >= 1,
        measured(distance, f.joined(pick_of(obs)), d),
    ensures
        is_correlated(f, obs, distance, d, f.joined(pick_of(obs)).agrees(d)),
{
    let joined = f.joined(pick_of(obs));
    let company = joined.company(d.to_newest);
    let links = joined.links(company, d.between);
    let need = (f.consensus_n - 1) as nat;
    let cluster = joined.cluster(d);
    if joined.agrees(d) {
        let chosen = choice(links, need)->0;
        choice_is_linked(links, need);
        lemma_select_count(company, chosen);
        lemma_select(company, chosen, true);
        lemma_select_keeps_order(company, chosen, true);
        lemma_select(joined.older(), joined.near(d.to_newest), true);
        let taken = select(company, chosen, true);
        assert forall|a: int, b: int| 0 <= a < b < cluster.len() implies in_window(
            (#[trigger] cluster[a]).t_ns,
            (#[trigger] cluster[b]).t_ns,
            f.window_ns,
        ) && within(distance, cluster[b].cell, cluster[a].cell, f.radius_km) by {
            consensus_shares_the_window(joined, d, a, b);
            assert(cluster[a] == taken[a]);
            if b < taken.len() {
                assert(cluster[b] == taken[b]);
                assert(ordered_in(company, chosen, true, taken[a], taken[b]));
                let (i, j) = choose|i: int, j: int|
                    0 <= i < j < company.len() && chosen[i] && chosen[j] && #[trigger] company[i]
                        == taken[a] && #[trigger] company[j] == taken[b];
                assert(links[j][i]);
                assert(distance_may_be(
                    distance,
                    company[j].cell,
                    company[i].cell,
                    d.between[j][i],
                ));
            } else {
                assert(flagged_in(company, chosen, true, taken[a]));
                let i = choose|i: int|
                    0 <= i < company.len() && chosen[i] && #[trigger] company[i] == taken[a];
                let near = joined.near(d.to_newest);
                assert(flagged_in(joined.older(), near, true, company[i]));
                let k = choose|k: int|
                    0 <= k < joined.older().len() && near[k] && #[trigger] joined.older()[k]
                        == company[i];
                assert(distance_may_be(
                    distance,
                    joined.newest().cell,
                    joined.older()[k].cell,
                    d.to_newest[k],
                ));
            }
        }
    }
    if is_one_cluster(joined, d) {
        consensus_takes_all(joined, d);
    }
}

/// An official P-wave fires on its own; without a P-wave an official observation never does.
pub proof fn official_p_wave_fires_alone(f: FusionView, obs: ObservationView, d: Distances)
    requires
        obs.protocol_version == f.protocol_version,
        obs.source_type == SourceType::Official,
    ensures
        obs.p_wave_detected ==> verdict(f, obs, d) == Verdict::Fire(
            seq![obs],
            EvidenceKind::Official,
        ),
        !obs.p_wave_detected ==> verdict(f, obs, d) == Verdict::Wait,
{
}

/// A consensus rests on at least N picks, any two of which lie within the radius and the window
/// of each other. The newest pick is the last of them.
pub proof fn consensus_is_of_n_correlated_picks<D: Fn(&GeoCell, &GeoCell) -> Double>(
    f: FusionView,
    obs: ObservationView,
    distance: D,
    d: Distances,
)
    requires
        f.consensus_n >= 1,
        is_compared(f, obs),
        measured(distance, f.joined(pick_of(obs)), d),
        verdict(f, obs, d) is Fire,
    ensures
        ({
            let cluster = f.joined(pick_of(obs)).cluster(d);
            &&& verdict(f, obs, d) == Verdict::Fire(picked(cluster), EvidenceKind::Consensus)
            &&& cluster.len() >= f.consensus_n
            &&& near_each_other(distance, cluster, f.radius_km, f.window_ns)
            &&& cluster.last() == pick_of(obs)
        }),
{
    agreement_is_correlated(f, obs, distance, d);
}

/// Where all picks near a new one are near each other, the consensus is of exactly those and the
/// new one, and it fires if and only if they number at least N.
pub proof fn picks_near_each_other_fire_together(f: FusionView, obs: ObservationView, d: Distances)
    requires
        f.consensus_n >= 1,
        is_compared(f, obs),
        is_one_cluster(f.joined(pick_of(obs)), d),
    ensures
        ({
            let company = f.joined(pick_of(obs)).company(d.to_newest);
            verdict(f, obs, d) == if company.len() + 1 >= f.consensus_n {
                Verdict::Fire(picked(company.push(pick_of(obs))), EvidenceKind::Consensus)
            } else {
                Verdict::Wait
            }
        }),
{
    consensus_takes_all(f.joined(pick_of(obs)), d);
}

/// At least N picks near each other, a new one among them, fire.
pub proof fn n_correlated_picks_fire(
    f: FusionView,
    obs: ObservationView,
    d: Distances,
    mask: Seq<bool>,
)
    requires
        is_compared(f, obs),
        mask.len() == f.joined(pick_of(obs)).company(d.to_newest).len(),
        all_linked(
            f.joined(pick_of(obs)).links(f.joined(pick_of(obs)).company(d.to_newest), d.between),
            mask,
        ),
        count(mask) + 1 >= f.consensus_n,
        f.consensus_n >= 1,
    ensures
        verdict(f, obs, d) is Fire,
{
    let joined = f.joined(pick_of(obs));
    choice_exists(
        joined.links(joined.company(d.to_newest), d.between),
        (f.consensus_n - 1) as nat,
        mask,
    );
}

/// A consensus leaves out no pick near the new one that is near all of the consensus.
pub proof fn consensus_leaves_out_no_pick(
    f: FusionView,
    obs: ObservationView,
    d: Distances,
    x: int,
)
    requires
        is_compared(f, obs),
        verdict(f, obs, d) is Fire,
        ({
            let joined = f.joined(pick_of(obs));
            let company = joined.company(d.to_newest);
            let chosen = joined.chosen(company, d.between)->0;
            &&& 0 <= x < company.len()
            &&& forall|i: int|
                0 <= i < company.len() && i != x && #[trigger] chosen[i] ==> linked(
                    joined.links(company, d.between),
                    i,
                    x,
                )
        }),
    ensures
        ({
            let joined = f.joined(pick_of(obs));
            let company = joined.company(d.to_newest);
            joined.chosen(company, d.between)->0[x]
        }),
{
    let joined = f.joined(pick_of(obs));
    let company = joined.company(d.to_newest);
    choice_is_maximal(joined.links(company, d.between), (f.consensus_n - 1) as nat, x);
}

proof fn lemma_fresh(buffer: Seq<PickView>, newest_ns: i64, window_ns: i64)
    ensures
        fresh(buffer, newest_ns, window_ns).len() <= buffer.len(),
        forall|k: int|
            0 <= k < fresh(buffer, newest_ns, window_ns).len() ==> is_fresh(
                (#[trigger] fresh(buffer, newest_ns, window_ns)[k]).t_ns,
                newest_ns,
                window_ns,
            ),
{
    broadcast use vstd::seq_lib::group_filter_ensures;

    let keep = |p: PickView| is_fresh(p.t_ns, newest_ns, window_ns);
    buffer.lemma_filter_len(keep);
    assert forall|k: int| 0 <= k < fresh(buffer, newest_ns, window_ns).len() implies is_fresh(
        (#[trigger] fresh(buffer, newest_ns, window_ns)[k]).t_ns,
        newest_ns,
        window_ns,
    ) by {
        assert(keep(buffer.filter(keep)[k]));
    }
}

/// Phones fewer than N never fire.
pub proof fn too_few_picks_wait(f: FusionView, obs: ObservationView, d: Distances)
    requires
        is_compared(f, obs),
        f.buffer.len() + 1 < f.consensus_n,
    ensures
        verdict(f, obs, d) is Wait,
{
    let joined = f.joined(pick_of(obs));
    let company = joined.company(d.to_newest);
    let need = (f.consensus_n - 1) as nat;
    lemma_fresh(f.buffer, obs.captured_at_ns, f.window_ns);
    lemma_select(joined.older(), joined.near(d.to_newest), true);
    if joined.agrees(d) {
        choice_is_linked(joined.links(company, d.between), need);
        let chosen = joined.chosen(company, d.between)->0;
        lemma_select_count(company, chosen);
        lemma_select(company, chosen, true);
    }
}

/// The picks that a consensus consumes.
pub open spec fn consumed(f: FusionView, obs: ObservationView, d: Distances) -> Seq<PickView> {
    let joined = f.joined(pick_of(obs));
    if is_compared(f, obs) && joined.agrees(d) {
        joined.cluster(d)
    } else {
        Seq::empty()
    }
}

/// Every pick is kept, consumed by a consensus or dropped as stale: those that stay in the buffer
/// and the cluster that fired are together the fresh picks and the new one.
pub proof fn picks_are_kept_or_consumed(f: FusionView, obs: ObservationView, d: Distances)
    requires
        is_compared(f, obs),
    ensures
        taken_in(f, obs, d).buffer.to_multiset().add(consumed(f, obs, d).to_multiset())
            == fresh(f.buffer, obs.captured_at_ns, f.window_ns).push(
            pick_of(obs),
        ).to_multiset(),
{
    broadcast use vstd::seq_lib::group_to_multiset_ensures;

    let joined = f.joined(pick_of(obs));
    let near = joined.near(d.to_newest);
    let company = joined.company(d.to_newest);
    let rest = joined.parted(d.to_newest).buffer;
    lemma_select_splits(joined.older(), near);
    assert(joined.buffer =~= joined.older().push(joined.newest()));
    match joined.chosen(company, d.between) {
        Some(chosen) => {
            let taken = select(company, chosen, true);
            let left = select(company, chosen, false);
            lemma_select_splits(company, chosen);
            vstd::seq_lib::lemma_multiset_commutative(rest, left);
            assert(consumed(f, obs, d) == taken.push(pick_of(obs)));
        },
        None => {
            vstd::seq_lib::lemma_multiset_commutative(rest, company.push(joined.newest()));
        },
    }
    assert(taken_in(f, obs, d).buffer.to_multiset().add(consumed(f, obs, d).to_multiset())
        =~= joined.buffer.to_multiset());
}

/// Once a phone pick has been taken in, no pick in the buffer is older than it by more than the
/// window.
pub proof fn buffer_stays_fresh(f: FusionView, obs: ObservationView, d: Distances, p: PickView)
    requires
        f.window_ns >= 0,
        is_compared(f, obs),
        taken_in(f, obs, d).buffer.contains(p),
    ensures
        is_fresh(p.t_ns, obs.captured_at_ns, f.window_ns),
{
    broadcast use vstd::seq_lib::group_to_multiset_ensures;

    let t = obs.captured_at_ns;
    let after = taken_in(f, obs, d).buffer;
    let joined = f.joined(pick_of(obs)).buffer;
    picks_are_kept_or_consumed(f, obs, d);
    assert(after.to_multiset().count(p) > 0);
    assert(joined.to_multiset().count(p) > 0);
    assert(joined.contains(p));
    lemma_fresh(f.buffer, t, f.window_ns);
    let k = joined.index_of(p);
    if k < joined.len() - 1 {
        assert(p == fresh(f.buffer, t, f.window_ns)[k]);
    }
}

/// A pick drops no other but those older than it by more than the window, so a late pick evicts
/// none that was made after it.
pub proof fn only_older_picks_are_dropped(
    f: FusionView,
    obs: ObservationView,
    d: Distances,
    p: PickView,
)
    requires
        is_compared(f, obs),
        f.buffer.contains(p),
        is_fresh(p.t_ns, obs.captured_at_ns, f.window_ns),
    ensures
        taken_in(f, obs, d).buffer.contains(p) || consumed(f, obs, d).contains(p),
{
    broadcast use vstd::seq_lib::group_to_multiset_ensures;

    let keep = |q: PickView| is_fresh(q.t_ns, obs.captured_at_ns, f.window_ns);
    let kept = fresh(f.buffer, obs.captured_at_ns, f.window_ns);
    let after = taken_in(f, obs, d).buffer.to_multiset();
    let used = consumed(f, obs, d).to_multiset();
    f.buffer.lemma_filter_contains_rev(keep, p);
    assert(kept.contains(p));
    let k = kept.index_of(p);
    assert(kept.push(pick_of(obs))[k] == p);
    assert(kept.push(pick_of(obs)).contains(p));
    assert(kept.push(pick_of(obs)).to_multiset().count(p) > 0);
    picks_are_kept_or_consumed(f, obs, d);
    assert(after.add(used).count(p) == after.count(p) + used.count(p));
}

/// An engine's events are counted: each outcome with an event adds that event, every other none.
/// What the engine was made with never changes, and a rejected observation changes nothing.
pub proof fn outcome_keeps_the_books<S: Fn(&ed25519_dalek::SigningKey, &ConfirmedEvent) -> Vec<u8>>(
    before: FusionView,
    obs: ObservationView,
    d: Distances,
    sign: S,
    after: FusionView,
    r: Result<Option<ConfirmedEvent>, IngestError>,
)
    requires
        outcome(before, obs, d, sign, after, r),
    ensures
        after.emitted == match r {
            Ok(Some(e)) => before.emitted.push(e@),
            _ => before.emitted,
        },
        r is Err ==> after == before,
        after.seed == before.seed,
        after.protocol_version == before.protocol_version,
        after.consensus_n == before.consensus_n,
        after.radius_km == before.radius_km,
        after.window_ns == before.window_ns,
{
}

/// An official observation leaves the waiting picks alone.
pub proof fn official_leaves_the_buffer<
    S: Fn(&ed25519_dalek::SigningKey, &ConfirmedEvent) -> Vec<u8>,
>(
    before: FusionView,
    obs: ObservationView,
    d: Distances,
    sign: S,
    after: FusionView,
    r: Result<Option<ConfirmedEvent>, IngestError>,
)
    requires
        obs.source_type == SourceType::Official,
        outcome(before, obs, d, sign, after, r),
    ensures
        after.buffer == before.buffer,
{
}

/// Whether every event that an engine has emitted bears its public key and protocol version.
pub open spec fn events_are_own(f: FusionView) -> bool {
    forall|i: int|
        0 <= i < f.emitted.len() ==> (#[trigger] f.emitted[i]).pubkey == ed25519_public_key(f.seed)
            && f.emitted[i].protocol_version == f.protocol_version
}

/// Every emitted event bears the node's public key and protocol version, from the first on.
pub proof fn events_stay_own<S: Fn(&ed25519_dalek::SigningKey, &ConfirmedEvent) -> Vec<u8>>(
    before: FusionView,
    obs: ObservationView,
    d: Distances,
    sign: S,
    after: FusionView,
    r: Result<Option<ConfirmedEvent>, IngestError>,
)
    requires
        outcome(before, obs, d, sign, after, r),
        events_are_own(before),
    ensures
        events_are_own(after),
{
    outcome_keeps_the_books(before, obs, d, sign, after, r);
    assert forall|i: int| 0 <= i < after.emitted.len() implies (#[trigger] after.emitted[i]).pubkey
        == ed25519_public_key(after.seed) && after.emitted[i].protocol_version
        == after.protocol_version by {
        if i < before.emitted.len() {
            assert(after.emitted[i] == before.emitted[i]);
        } else {
            let e = r->Ok_0->0@;
            assert(after.emitted[i] == e);
            assert((EventView { signature: Seq::empty(), ..e }).pubkey == e.pubkey);
            assert((EventView { signature: Seq::empty(), ..e }).protocol_version
                == e.protocol_version);
        }
    }
}

/// An event tells what it rests on: the observation itself where that is official, else the
/// cluster, which numbers at least N.
pub proof fn event_tells_its_evidence<
    S: Fn(&ed25519_dalek::SigningKey, &ConfirmedEvent) -> Vec<u8>,
>(
    before: FusionView,
    obs: ObservationView,
    d: Distances,
    sign: S,
    after: FusionView,
    r: Result<Option<ConfirmedEvent>, IngestError>,
)
    requires
        before.consensus_n >= 1,
        outcome(before, obs, d, sign, after, r),
        r is Ok,
        r->Ok_0 is Some,
    ensures
        ({
            let e = r->Ok_0->0@;
            &&& e.num_observations == e.obs_ids.len() % 0x1_0000_0000
            &&& e.evidence == EvidenceKind::Official ==> {
                &&& obs.source_type == SourceType::Official
                &&& obs.p_wave_detected
                &&& e.obs_ids == seq![obs.observation_id]
                &&& e.origin_time_ns == obs.captured_at_ns
                &&& e.epicenter == obs.location
                &&& e.magnitude == obs.reported_magnitude
            }
            &&& e.evidence == EvidenceKind::Consensus ==> {
                let cluster = before.joined(pick_of(obs)).cluster(d);
                &&& is_compared(before, obs)
                &&& e.obs_ids == cluster.map_values(|p: PickView| p.obs.observation_id)
                &&& e.obs_ids.len() >= before.consensus_n
                &&& e.origin_time_ns == cluster[0].obs.captured_at_ns
                &&& e.epicenter == cluster[0].obs.location
                &&& e.magnitude == cluster[0].obs.reported_magnitude
            }
        }),
{
    let e = r->Ok_0->0@;
    let unsigned = EventView { signature: Seq::empty(), ..e };
    assert(unsigned.num_observations == e.num_observations && unsigned.obs_ids == e.obs_ids
        && unsigned.evidence == e.evidence);
    match e.evidence {
        EvidenceKind::Official => {
            assert(e.obs_ids =~= seq![obs.observation_id]);
        },
        EvidenceKind::Consensus => {
            let joined = before.joined(pick_of(obs));
            let cluster = joined.cluster(d);
            let company = joined.company(d.to_newest);
            choice_is_linked(joined.links(company, d.between), (before.consensus_n - 1) as nat);
            lemma_select_count(company, joined.chosen(company, d.between)->0);
            assert(e.obs_ids =~= cluster.map_values(|p: PickView| p.obs.observation_id));
            events_are_signed_drafts(before, picked(cluster), EvidenceKind::Consensus, sign, e);
            assert(picked(cluster)[0] == cluster[0].obs);
        },
    }
}

/// An observation of another protocol version, of a source that is neither official nor a phone,
/// or of a phone that does not say where it is, is rejected and changes nothing.
pub proof fn unusable_observations_are_rejected<
    D: Fn(&GeoCell, &GeoCell) -> Double,
    S: Fn(&ed25519_dalek::SigningKey, &ConfirmedEvent) -> Vec<u8>,
>(
    before: FusionView,
    obs: ObservationView,
    measure: D,
    sign: S,
    after: FusionView,
    r: Result<Option<ConfirmedEvent>, IngestError>,
)
    requires
        ingested(before, obs, measure, sign, after, r),
    ensures
        r is Err <==> obs.protocol_version != before.protocol_version || obs.source_type is Other || (
        obs.source_type == SourceType::Phone && (obs.location is None || !is_geohash(
            obs.location->0.geohash,
        ))),
        r is Err ==> r->Err_0 == IngestError::BadFields && after == before,
{
}

/// An official observation gives an event of itself exactly where it tells of a P-wave, and leaves
/// the waiting picks alone.
pub proof fn official_observations_stand_alone<
    D: Fn(&GeoCell, &GeoCell) -> Double,
    S: Fn(&ed25519_dalek::SigningKey, &ConfirmedEvent) -> Vec<u8>,
>(
    before: FusionView,
    obs: ObservationView,
    measure: D,
    sign: S,
    after: FusionView,
    r: Result<Option<ConfirmedEvent>, IngestError>,
)
    requires
        ingested(before, obs, measure, sign, after, r),
        obs.protocol_version == before.protocol_version,
        obs.source_type == SourceType::Official,
    ensures
        r is Ok,
        r->Ok_0 is Some <==> obs.p_wave_detected,
        r->Ok_0 is None ==> after == before,
        r->Ok_0 matches Some(e) ==> {
            &&& after == (FusionView { emitted: before.emitted.push(e@), ..before })
            &&& event_of(before, seq![obs], EvidenceKind::Official, sign, e@)
            &&& e@.evidence == EvidenceKind::Official
            &&& e@.origin_time_ns == obs.captured_at_ns
            &&& e@.epicenter == obs.location
            &&& e@.magnitude == obs.reported_magnitude
            &&& e@.num_observations == 1
            &&& e@.obs_ids == seq![obs.observation_id]
        },
{
    if r->Ok_0 is Some {
        let e = r->Ok_0->0@;
        events_are_signed_drafts(before, seq![obs], EvidenceKind::Official, sign, e);
        assert(e.obs_ids[0] == obs.observation_id);
        assert(e.obs_ids =~= seq![obs.observation_id]);
    }
}

/// A located phone pick is judged with those that wait and are not older than it by more than the
/// window. Its company are those within the radius and the window of it, at the distances of
/// `distance`. A consensus is of it and some of its company, at least N in all, any two of them
/// within the radius and the window of each other, and it leaves out no other of the company that
/// is so with all of it. There is one wherever there can be. Its event is led by the pick that
/// waited longest; what it consumes leaves the buffer, and all else stays.
pub proof fn phone_picks_need_each_other<
    D: Fn(&GeoCell, &GeoCell) -> Double,
    S: Fn(&ed25519_dalek::SigningKey, &ConfirmedEvent) -> Vec<u8>,
>(
    before: FusionView,
    obs: ObservationView,
    measure: D,
    distance: spec_fn(CellView, CellView) -> Double,
    sign: S,
    after: FusionView,
    r: Result<Option<ConfirmedEvent>, IngestError>,
)
    requires
        ingested(before, obs, measure, sign, after, r),
        before.consensus_n >= 1,
        forall|a: GeoCell, b: GeoCell, x: Double| #[trigger]
            call_ensures(measure, (&a, &b), x) ==> x == distance(a@, b@),
        obs.protocol_version == before.protocol_version,
        obs.source_type == SourceType::Phone,
        obs.location is Some,
        is_geohash(obs.location->0.geohash),
    ensures
        ({
            let window = before.window_ns as int;
            let new = PickView {
                cell: cell_of(obs.location->0.geohash),
                t_ns: obs.captured_at_ns,
                obs,
            };
            let near = |p: PickView, q: PickView|
                distance(q.cell, p.cell).spec_le(before.radius_km) && p.t_ns - q.t_ns <= window
                    && q.t_ns - p.t_ns <= window;
            let waiting = before.buffer.filter(|p: PickView| new.t_ns - p.t_ns <= window);
            let company = waiting.filter(|p: PickView| near(p, new));
            let others = waiting.filter(|p: PickView| !near(p, new));
            &&& r is Ok
            &&& r->Ok_0 is None ==> {
                &&& after == (FusionView { buffer: others + company.push(new), ..before })
                &&& forall|mask: Seq<bool>|
                    {
                        &&& mask.len() == company.len()
                        &&& forall|i: int, j: int|
                            0 <= i < j < mask.len() && #[trigger] mask[i] && #[trigger] mask[j]
                                ==> near(company[i], company[j])
                    } ==> (#[trigger] select(company, mask, true)).len() + 1 < before.consensus_n
            }
            &&& r->Ok_0 is Some ==> exists|mask: Seq<bool>|
                {
                    let e = r->Ok_0->0@;
                    let cluster = select(company, mask, true).push(new);
                    &&& mask.len() == company.len()
                    &&& forall|i: int, j: int|
                        0 <= i < j < mask.len() && #[trigger] mask[i] && #[trigger] mask[j] ==> near(
                            company[i],
                            company[j],
                        )
                    &&& (#[trigger] select(company, mask, true)).len() + 1 >= before.consensus_n
                    &&& forall|x: int|
                        0 <= x < mask.len() && !#[trigger] mask[x] ==> exists|i: int|
                            {
                                &&& 0 <= i < mask.len()
                                &&& #[trigger] mask[i]
                                &&& i < x ==> !near(company[i], company[x])
                                &&& i > x ==> !near(company[x], company[i])
                            }
                    &&& after == (FusionView {
                        buffer: others + select(company, mask, false),
                        emitted: before.emitted.push(e),
                        ..before
                    })
                    &&& event_of(before, picked(cluster), EvidenceKind::Consensus, sign, e)
                    &&& e.evidence == EvidenceKind::Consensus
                    &&& e.origin_time_ns == cluster[0].obs.captured_at_ns
                    &&& e.epicenter == cluster[0].obs.location
                    &&& e.magnitude == cluster[0].obs.reported_magnitude
                    &&& e.num_observations == cluster.len() % 0x1_0000_0000
                    &&& e.obs_ids.len() == cluster.len()
                    &&& forall|i: int|
                        0 <= i < cluster.len() ==> #[trigger] e.obs_ids[i]
                            == cluster[i].obs.observation_id
                }
        }),
{
    let window = before.window_ns as int;
    let new = PickView { cell: cell_of(obs.location->0.geohash), t_ns: obs.captured_at_ns, obs };
    let near = |p: PickView, q: PickView|
        distance(q.cell, p.cell).spec_le(before.radius_km) && p.t_ns - q.t_ns <= window && q.t_ns
            - p.t_ns <= window;
    let keep = |p: PickView| new.t_ns - p.t_ns <= window;
    let close = |p: PickView| near(p, new);
    let waiting = before.buffer.filter(keep);
    let company = waiting.filter(close);
    let others = waiting.filter(|p: PickView| !near(p, new));
    let d = choose|d: Distances|
        {
            &&& is_compared(before, obs) ==> {
                &&& measured(measure, before.joined(pick_of(obs)), d)
                &&& is_correlated(before, obs, measure, d, r->Ok_0 is Some)
            }
            &&& #[trigger] outcome(before, obs, d, sign, after, r)
        };
    let joined = before.joined(pick_of(obs));
    assert(pick_of(obs) == new);
    assert(keep =~= (|p: PickView| is_fresh(p.t_ns, new.t_ns, before.window_ns)));
    assert(joined.older() =~= waiting);
    assert(joined.newest() == new);
    let flags = joined.near(d.to_newest);
    assert forall|i: int| 0 <= i < waiting.len() implies #[trigger] flags[i] == close(waiting[i]) by {
        assert(distance_may_be(measure, new.cell, waiting[i].cell, d.to_newest[i]));
    }
    lemma_select_filter(waiting, flags, close);
    assert((|p: PickView| !close(p)) =~= (|p: PickView| !near(p, new)));
    assert(joined.company(d.to_newest) == company);
    assert(joined.parted(d.to_newest).buffer == others);
    let links = joined.links(company, d.between);
    assert forall|i: int, j: int| 0 <= i < j < company.len() implies #[trigger] links[j][i] == near(
        company[i],
        company[j],
    ) by {
        assert(distance_may_be(measure, company[j].cell, company[i].cell, d.between[j][i]));
    }
    let parted = joined.parted(d.to_newest);
    assert(parted.links(company, d.between) =~~= links);
    let need = (before.consensus_n - 1) as nat;
    if r->Ok_0 is None {
        assert forall|mask: Seq<bool>|
            {
                &&& mask.len() == company.len()
                &&& forall|i: int, j: int|
                    0 <= i < j < mask.len() && #[trigger] mask[i] && #[trigger] mask[j] ==> near(
                        company[i],
                        company[j],
                    )
            } implies (#[trigger] select(company, mask, true)).len() + 1 < before.consensus_n by {
            lemma_select_count(company, mask);
            if count(mask) >= need {
                assert(all_linked(links, mask)) by {
                    assert forall|i: int, j: int|
                        0 <= i < j < mask.len() && #[trigger] mask[i] && #[trigger] mask[j] implies links[j][i] by {
                        assert(links[j][i] == near(company[i], company[j]));
                    }
                }
                choice_exists(links, need, mask);
            }
        }
    } else {
        let mask = choice(links, need)->0;
        let e = r->Ok_0->0@;
        let cluster = select(company, mask, true).push(new);
        assert(joined.cluster(d) == cluster);
        choice_is_linked(links, need);
        lemma_select_count(company, mask);
        assert forall|i: int, j: int|
            0 <= i < j < mask.len() && #[trigger] mask[i] && #[trigger] mask[j] implies near(
            company[i],
            company[j],
        ) by {
            assert(links[j][i] == near(company[i], company[j]));
        }
        assert forall|x: int| 0 <= x < mask.len() && !#[trigger] mask[x] implies exists|i: int|
            {
                &&& 0 <= i < mask.len()
                &&& #[trigger] mask[i]
                &&& i < x ==> !near(company[i], company[x])
                &&& i > x ==> !near(company[x], company[i])
            } by {
            if forall|i: int|
                0 <= i < links.len() && i != x && #[trigger] mask[i] ==> linked(links, i, x) {
                choice_is_maximal(links, need, x);
            }
            let i = choose|i: int|
                0 <= i < links.len() && i != x && #[trigger] mask[i] && !linked(links, i, x);
            assert(mask[i]);
            if i < x {
                assert(links[x][i] == near(company[i], company[x]));
            } else {
                assert(links[i][x] == near(company[x], company[i]));
            }
        }
        events_are_signed_drafts(before, picked(cluster), EvidenceKind::Consensus, sign, e);
        assert forall|i: int| 0 <= i < cluster.len() implies #[trigger] e.obs_ids[i]
            == cluster[i].obs.observation_id by {
            assert(picked(cluster)[i] == cluster[i].obs);
        }
    }
}

} // verus!
