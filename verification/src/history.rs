//! What holds of a fusion engine over any sequence of observations.

use vstd::multiset::Multiset;
use vstd::prelude::*;

use crate::cluster::lemma_select_filter;
use crate::double::Double;
use crate::fusion::covers_pairs;
use crate::fusion::distance_may_be;
use crate::fusion::fresh;
use crate::fusion::in_window;
use crate::fusion::ingested;
use crate::fusion::is_compared;
use crate::fusion::is_correlated;
use crate::fusion::is_fresh;
use crate::fusion::measured;
use crate::fusion::outcome;
use crate::fusion::pick_of;
use crate::fusion::taken_in;
use crate::fusion::verdict;
use crate::fusion::Distances;
use crate::fusion::FusionView;
use crate::fusion::IngestError;
use crate::fusion::PickView;
use crate::geo::CellView;
use crate::geo::GeoCell;
use crate::message::ConfirmedEvent;
use crate::message::EventView;
use crate::message::EvidenceKind;
use crate::message::ObservationView;
use crate::message::SourceType;
use crate::trust::consensus_shares_the_window;
use crate::trust::consensus_takes_all;
use crate::trust::consumed;
use crate::trust::outcome_keeps_the_books;
use crate::trust::picks_are_kept_or_consumed;
use crate::trust::picks_near_each_other_fire_together;

verus! {

/// An observation that an engine was given, and the distances by which it was judged.
pub struct Call {
    pub obs: ObservationView,
    pub d: Distances,
}

/// An engine without the events that it has emitted.
pub open spec fn phones(f: FusionView) -> FusionView {
    FusionView { emitted: Seq::empty(), ..f }
}

/// An engine after some calls, the events aside.
pub open spec fn after_calls(f: FusionView, calls: Seq<Call>) -> FusionView
    decreases calls.len(),
{
    if calls.len() == 0 {
        phones(f)
    } else {
        taken_in(after_calls(f, calls.drop_last()), calls.last().obs, calls.last().d)
    }
}

/// Whether an engine goes through some states as it is given one observation after the other, and
/// returns these results.
pub open spec fn is_run<S: Fn(&ed25519_dalek::SigningKey, &ConfirmedEvent) -> Vec<u8>>(
    states: Seq<FusionView>,
    calls: Seq<Call>,
    sign: S,
    results: Seq<Result<Option<ConfirmedEvent>, IngestError>>,
) -> bool {
    &&& states.len() == calls.len() + 1
    &&& results.len() == calls.len()
    &&& forall|i: int|
        0 <= i < calls.len() ==> outcome(
            states[i],
            (#[trigger] calls[i]).obs,
            calls[i].d,
            sign,
            states[i + 1],
            results[i],
        )
}

/// Whether an engine goes through some states as it ingests one observation after the other, and
/// returns these results.
pub open spec fn is_ingest_run<
    D: Fn(&GeoCell, &GeoCell) -> Double,
    S: Fn(&ed25519_dalek::SigningKey, &ConfirmedEvent) -> Vec<u8>,
>(
    states: Seq<FusionView>,
    observations: Seq<ObservationView>,
    distance: D,
    sign: S,
    results: Seq<Result<Option<ConfirmedEvent>, IngestError>>,
) -> bool {
    &&& states.len() == observations.len() + 1
    &&& results.len() == observations.len()
    &&& forall|i: int|
        0 <= i < observations.len() ==> ingested(
            states[i],
            #[trigger] observations[i],
            distance,
            sign,
            states[i + 1],
            results[i],
        )
}

/// Whether calls are of these observations, at distances that `distance` gives.
pub open spec fn are_calls_of<D: Fn(&GeoCell, &GeoCell) -> Double>(
    states: Seq<FusionView>,
    calls: Seq<Call>,
    observations: Seq<ObservationView>,
    distance: D,
) -> bool {
    &&& calls.len() == observations.len()
    &&& forall|i: int|
        0 <= i < calls.len() ==> {
            &&& (#[trigger] calls[i]).obs == observations[i]
            &&& is_compared(states[i], observations[i]) ==> measured(
                distance,
                states[i].joined(pick_of(observations[i])),
                calls[i].d,
            )
        }
}

spec fn was_judged_by<
    D: Fn(&GeoCell, &GeoCell) -> Double,
    S: Fn(&ed25519_dalek::SigningKey, &ConfirmedEvent) -> Vec<u8>,
>(
    before: FusionView,
    obs: ObservationView,
    distance: D,
    sign: S,
    after: FusionView,
    r: Result<Option<ConfirmedEvent>, IngestError>,
    d: Distances,
) -> bool {
    &&& is_compared(before, obs) ==> measured(distance, before.joined(pick_of(obs)), d)
    &&& outcome(before, obs, d, sign, after, r)
}

spec fn judging_distances<
    D: Fn(&GeoCell, &GeoCell) -> Double,
    S: Fn(&ed25519_dalek::SigningKey, &ConfirmedEvent) -> Vec<u8>,
>(
    before: FusionView,
    obs: ObservationView,
    distance: D,
    sign: S,
    after: FusionView,
    r: Result<Option<ConfirmedEvent>, IngestError>,
) -> Distances {
    choose|d: Distances| was_judged_by(before, obs, distance, sign, after, r, d)
}

/// Observations that an engine ingests one after the other make a run, so that what holds over any
/// run holds of them.
pub proof fn ingested_observations_make_a_run<
    D: Fn(&GeoCell, &GeoCell) -> Double,
    S: Fn(&ed25519_dalek::SigningKey, &ConfirmedEvent) -> Vec<u8>,
>(
    states: Seq<FusionView>,
    observations: Seq<ObservationView>,
    distance: D,
    sign: S,
    results: Seq<Result<Option<ConfirmedEvent>, IngestError>>,
)
    requires
        is_ingest_run(states, observations, distance, sign, results),
    ensures
        exists|calls: Seq<Call>|
            #[trigger] is_run(states, calls, sign, results) && are_calls_of(
                states,
                calls,
                observations,
                distance,
            ),
{
    let calls = Seq::new(
        observations.len(),
        |i: int|
            Call {
                obs: observations[i],
                d: judging_distances(
                    states[i],
                    observations[i],
                    distance,
                    sign,
                    states[i + 1],
                    results[i],
                ),
            },
    );
    assert forall|i: int| 0 <= i < calls.len() implies was_judged_by(
            states[i],
            observations[i],
            distance,
            sign,
            states[i + 1],
            results[i],
            (#[trigger] calls[i]).d,
        ) by {
        assert(ingested(
            states[i],
            observations[i],
            distance,
            sign,
            states[i + 1],
            results[i],
        ));
        let d = choose|d: Distances|
            {
                &&& is_compared(states[i], observations[i]) ==> {
                    &&& measured(distance, states[i].joined(pick_of(observations[i])), d)
                    &&& is_correlated(
                        states[i],
                        observations[i],
                        distance,
                        d,
                        results[i]->Ok_0 is Some,
                    )
                }
                &&& #[trigger] outcome(
                    states[i],
                    observations[i],
                    d,
                    sign,
                    states[i + 1],
                    results[i],
                )
            };
        assert(was_judged_by(
            states[i],
            observations[i],
            distance,
            sign,
            states[i + 1],
            results[i],
            d,
        ));
    }
    assert(is_run(states, calls, sign, results));
}

/// The events among some results, in order.
pub open spec fn returned_events(
    results: Seq<Result<Option<ConfirmedEvent>, IngestError>>,
) -> Seq<EventView>
    decreases results.len(),
{
    if results.len() == 0 {
        Seq::empty()
    } else {
        let before = returned_events(results.drop_last());
        match results.last() {
            Ok(Some(e)) => before.push(e@),
            _ => before,
        }
    }
}

/// Whether a result is an event.
pub open spec fn is_event() -> spec_fn(Result<Option<ConfirmedEvent>, IngestError>) -> bool {
    |r: Result<Option<ConfirmedEvent>, IngestError>| r is Ok && r->Ok_0 is Some
}

/// An engine has emitted, after any run, exactly the events that it returned, in order: as many as
/// there are results with an event.
pub proof fn returned_events_are_counted<
    S: Fn(&ed25519_dalek::SigningKey, &ConfirmedEvent) -> Vec<u8>,
>(
    states: Seq<FusionView>,
    calls: Seq<Call>,
    sign: S,
    results: Seq<Result<Option<ConfirmedEvent>, IngestError>>,
    i: int,
)
    requires
        is_run(states, calls, sign, results),
        0 <= i <= calls.len(),
    ensures
        states[i].emitted == states[0].emitted + returned_events(results.take(i)),
        states[i].emitted.len() == states[0].emitted.len() + results.take(i).filter(
            is_event(),
        ).len(),
    decreases i,
{
    reveal(Seq::filter);
    if i > 0 {
        let c = calls[i - 1];
        returned_events_are_counted(states, calls, sign, results, i - 1);
        assert(results.take(i).drop_last() =~= results.take(i - 1));
        assert(results.take(i).last() == results[i - 1]);
        assert(outcome(states[i - 1], c.obs, c.d, sign, states[i - 1 + 1], results[i - 1]));
        outcome_keeps_the_books(states[i - 1], c.obs, c.d, sign, states[i], results[i - 1]);
        assert(states[i].emitted =~= states[0].emitted + returned_events(results.take(i)));
    } else {
        assert(states[0].emitted =~= states[0].emitted + returned_events(results.take(0)));
    }
}

proof fn lemma_phones(f: FusionView, obs: ObservationView, d: Distances)
    ensures
        verdict(phones(f), obs, d) == verdict(f, obs, d),
        phones(taken_in(f, obs, d)) == taken_in(phones(f), obs, d),
        phones(f).joined(pick_of(obs)).cluster(d) == f.joined(pick_of(obs)).cluster(d),
{
    let a = f.joined(pick_of(obs));
    let b = phones(f).joined(pick_of(obs));
    assert(a.near(d.to_newest) =~= b.near(d.to_newest));
    let company = a.company(d.to_newest);
    assert(a.links(company, d.between) =~~= b.links(company, d.between));
    assert(a.parted(d.to_newest).links(company, d.between) =~~= b.parted(d.to_newest).links(
        company,
        d.between,
    ));
}

proof fn lemma_kept(f: FusionView, calls: Seq<Call>)
    ensures
        after_calls(f, calls) == (FusionView { buffer: after_calls(f, calls).buffer, ..phones(f) }),
    decreases calls.len(),
{
    if calls.len() > 0 {
        lemma_kept(f, calls.drop_last());
    }
}

/// The state of an engine in a run is what its first state and the calls up to there make it, the
/// events aside.
pub proof fn run_follows_calls<S: Fn(&ed25519_dalek::SigningKey, &ConfirmedEvent) -> Vec<u8>>(
    states: Seq<FusionView>,
    calls: Seq<Call>,
    sign: S,
    results: Seq<Result<Option<ConfirmedEvent>, IngestError>>,
    i: int,
)
    requires
        is_run(states, calls, sign, results),
        0 <= i <= calls.len(),
    ensures
        phones(states[i]) == after_calls(states[0], calls.take(i)),
    decreases i,
{
    if i > 0 {
        run_follows_calls(states, calls, sign, results, i - 1);
        assert(calls.take(i).drop_last() =~= calls.take(i - 1));
        let c = calls[i - 1];
        assert(calls.take(i).last() == c);
        assert(outcome(states[i - 1], c.obs, c.d, sign, states[i - 1 + 1], results[i - 1]));
        lemma_phones(states[i - 1], c.obs, c.d);
        assert(phones(states[i]) =~= phones(taken_in(states[i - 1], c.obs, c.d)));
    }
}

/// Whether an observation is one that an engine neither rejects nor takes as official.
pub open spec fn counts(f: FusionView) -> spec_fn(Call) -> bool {
    |c: Call| is_compared(f, c.obs)
}

proof fn lemma_only_counted(f: FusionView, calls: Seq<Call>)
    ensures
        after_calls(f, calls) == after_calls(f, calls.filter(counts(f))),
    decreases calls.len(),
{
    reveal(Seq::filter);
    if calls.len() > 0 {
        let fewer = calls.drop_last();
        lemma_only_counted(f, fewer);
        lemma_kept(f, fewer);
        if counts(f)(calls.last()) {
            let all = calls.filter(counts(f));
            assert(all.drop_last() =~= fewer.filter(counts(f)));
        }
    }
}

/// Whether two results tell of the same evidence.
pub open spec fn same_evidence(
    r: Result<Option<ConfirmedEvent>, IngestError>,
    s: Result<Option<ConfirmedEvent>, IngestError>,
) -> bool {
    match (r, s) {
        (Ok(None), Ok(None)) => true,
        (Ok(Some(a)), Ok(Some(b))) => {
            &&& a@.obs_ids == b@.obs_ids
            &&& a@.num_observations == b@.num_observations
            &&& a@.origin_time_ns == b@.origin_time_ns
            &&& a@.epicenter == b@.epicenter
            &&& a@.magnitude == b@.magnitude
            &&& a@.evidence == b@.evidence
        },
        _ => false,
    }
}

/// Rejected and official observations leave the phone picks alone: a run without them, on an
/// engine made alike, gives for each phone pick what the full run gives for it.
pub proof fn only_phone_picks_matter<
    S: Fn(&ed25519_dalek::SigningKey, &ConfirmedEvent) -> Vec<u8>,
>(
    states: Seq<FusionView>,
    calls: Seq<Call>,
    results: Seq<Result<Option<ConfirmedEvent>, IngestError>>,
    fewer_states: Seq<FusionView>,
    fewer_results: Seq<Result<Option<ConfirmedEvent>, IngestError>>,
    sign: S,
    i: int,
)
    requires
        is_run(states, calls, sign, results),
        is_run(fewer_states, calls.filter(counts(states[0])), sign, fewer_results),
        phones(fewer_states[0]) == phones(states[0]),
        0 <= i < calls.len(),
    ensures
        counts(states[0])(calls[i]) <==> results[i] is Ok && calls[i].obs.source_type
            != SourceType::Official,
        counts(states[0])(calls[i]) ==> {
            let k = calls.take(i).filter(counts(states[0])).len() as int;
            &&& k < fewer_results.len()
            &&& calls.filter(counts(states[0]))[k] == calls[i]
            &&& same_evidence(results[i], fewer_results[k])
        },
{
    let f = states[0];
    let c = calls[i];
    run_follows_calls(states, calls, sign, results, i);
    lemma_kept(f, calls.take(i));
    assert(outcome(states[i], c.obs, c.d, sign, states[i + 1], results[i]));
    assert(states[i].protocol_version == phones(states[i]).protocol_version);
    assert(f.protocol_version == phones(f).protocol_version);
    if counts(f)(c) {
        let before = calls.take(i);
        let kept = calls.filter(counts(f));
        let k = before.filter(counts(f)).len() as int;
        let from = calls.skip(i);
        assert(calls =~= before + from);
        Seq::filter_distributes_over_add(before, from, counts(f));
        assert(from =~= seq![c] + from.drop_first());
        Seq::filter_distributes_over_add(seq![c], from.drop_first(), counts(f));
        assert(seq![c].filter(counts(f)) =~= seq![c]) by {
            reveal_with_fuel(Seq::filter, 2);
            assert(seq![c].drop_last() =~= Seq::empty());
        }
        assert(kept[k] == c);
        assert(kept.take(k) =~= before.filter(counts(f)));
        run_follows_calls(fewer_states, kept, sign, fewer_results, k);
        lemma_only_counted(f, before);
        lemma_same_start(f, fewer_states[0], kept.take(k));
        assert(phones(states[i]) == phones(fewer_states[k]));
        lemma_phones(states[i], c.obs, c.d);
        lemma_phones(fewer_states[k], c.obs, c.d);
        assert(outcome(
            fewer_states[k],
            kept[k].obs,
            kept[k].d,
            sign,
            fewer_states[k + 1],
            fewer_results[k],
        ));
        lemma_event_fields(results[i]);
        lemma_event_fields(fewer_results[k]);
    }
}

proof fn lemma_same_start(f: FusionView, g: FusionView, calls: Seq<Call>)
    requires
        phones(f) == phones(g),
    ensures
        after_calls(f, calls) == after_calls(g, calls),
    decreases calls.len(),
{
    if calls.len() > 0 {
        lemma_same_start(f, g, calls.drop_last());
    }
}

/// Leaving the signature out changes no other field.
proof fn lemma_event_fields(r: Result<Option<ConfirmedEvent>, IngestError>)
    ensures
        r matches Ok(Some(e)) ==> {
            let u = EventView { signature: Seq::empty(), ..e@ };
            &&& u.obs_ids == e@.obs_ids
            &&& u.num_observations == e@.num_observations
            &&& u.origin_time_ns == e@.origin_time_ns
            &&& u.epicenter == e@.epicenter
            &&& u.magnitude == e@.magnitude
            &&& u.evidence == e@.evidence
        },
{
}

/// The ids of the observations behind some picks.
pub open spec fn pick_ids(picks: Seq<PickView>) -> Seq<Seq<u8>> {
    picks.map_values(|p: PickView| p.obs.observation_id)
}

/// The ids of the observations that an engine was given.
pub open spec fn call_ids(calls: Seq<Call>) -> Seq<Seq<u8>> {
    calls.map_values(|c: Call| c.obs.observation_id)
}

/// The ids of the observations that a result rests on.
pub open spec fn result_ids(r: Result<Option<ConfirmedEvent>, IngestError>) -> Seq<Seq<u8>> {
    match r {
        Ok(Some(e)) => e@.obs_ids,
        _ => Seq::empty(),
    }
}

/// The ids of the observations that all events rest on, one event after the other.
pub open spec fn reported_ids(results: Seq<Result<Option<ConfirmedEvent>, IngestError>>) -> Seq<
    Seq<u8>,
>
    decreases results.len(),
{
    if results.len() == 0 {
        Seq::empty()
    } else {
        reported_ids(results.drop_last()) + result_ids(results.last())
    }
}

proof fn lemma_map_permuted<A, B>(s: Seq<A>, t: Seq<A>, f: spec_fn(A) -> B)
    requires
        s.to_multiset() == t.to_multiset(),
    ensures
        s.map_values(f).to_multiset() == t.map_values(f).to_multiset(),
    decreases t.len(),
{
    broadcast use vstd::seq_lib::group_to_multiset_ensures;

    s.to_multiset_ensures();
    t.to_multiset_ensures();
    if t.len() == 0 {
        assert(s =~= t);
    } else {
        let x = t.last();
        let shorter = t.drop_last();
        assert(t =~= shorter.push(x));
        assert(t.contains(x));
        assert(t.to_multiset().count(x) > 0);
        assert(s.to_multiset().count(x) > 0);
        assert(s.contains(x));
        let k = s.index_of(x);
        assert(s.remove(k).to_multiset() =~= shorter.to_multiset());
        lemma_map_permuted(s.remove(k), shorter, f);
        assert(s.map_values(f).remove(k) =~= s.remove(k).map_values(f));
        assert(t.map_values(f) =~= shorter.map_values(f).push(f(x)));
        assert(s.map_values(f).to_multiset() =~= s.map_values(f).remove(k).to_multiset().insert(
            f(x),
        ));
    }
}

proof fn lemma_filter_count<A>(s: Seq<A>, keep: spec_fn(A) -> bool, x: A)
    ensures
        s.filter(keep).to_multiset().count(x) == if keep(x) {
            s.to_multiset().count(x)
        } else {
            0
        },
    decreases s.len(),
{
    broadcast use vstd::seq_lib::group_to_multiset_ensures;

    reveal(Seq::filter);
    if s.len() > 0 {
        lemma_filter_count(s.drop_last(), keep, x);
        assert(s =~= s.drop_last().push(s.last()));
    }
}

proof fn lemma_filter_ids<A, B>(s: Seq<A>, keep: spec_fn(A) -> bool, f: spec_fn(A) -> B, x: B)
    ensures
        s.filter(keep).map_values(f).to_multiset().count(x) <= s.map_values(f).to_multiset().count(
            x,
        ),
    decreases s.len(),
{
    broadcast use vstd::seq_lib::group_to_multiset_ensures;

    reveal(Seq::filter);
    if s.len() > 0 {
        let shorter = s.drop_last();
        lemma_filter_ids(shorter, keep, f, x);
        assert(s.map_values(f) =~= shorter.map_values(f).push(f(s.last())));
        if keep(s.last()) {
            assert(s.filter(keep).map_values(f) =~= shorter.filter(keep).map_values(f).push(
                f(s.last()),
            ));
        }
    }
}

/// An outcome brings no id into the buffer or behind its event but from the buffer and the
/// observation.
proof fn lemma_ids_step<S: Fn(&ed25519_dalek::SigningKey, &ConfirmedEvent) -> Vec<u8>>(
    before: FusionView,
    obs: ObservationView,
    d: Distances,
    sign: S,
    after: FusionView,
    r: Result<Option<ConfirmedEvent>, IngestError>,
    x: Seq<u8>,
)
    requires
        outcome(before, obs, d, sign, after, r),
    ensures
        result_ids(r).to_multiset().count(x) + pick_ids(after.buffer).to_multiset().count(x)
            <= pick_ids(before.buffer).to_multiset().count(x) + if x == obs.observation_id {
            1nat
        } else {
            0nat
        },
{
    broadcast use vstd::seq_lib::group_to_multiset_ensures;

    let ids = result_ids(r);
    lemma_event_fields(r);
    if is_compared(before, obs) {
        let id = |p: PickView| p.obs.observation_id;
        let t = obs.captured_at_ns;
        let keep = |p: PickView| is_fresh(p.t_ns, t, before.window_ns);
        let kept = fresh(before.buffer, t, before.window_ns);
        let joined = before.joined(pick_of(obs)).buffer;
        let used = consumed(before, obs, d);
        let rest = pick_ids(after.buffer);
        assert(ids =~= pick_ids(used));
        picks_are_kept_or_consumed(before, obs, d);
        assert(after.buffer == taken_in(before, obs, d).buffer);
        vstd::seq_lib::lemma_multiset_commutative(after.buffer, used);
        lemma_map_permuted(after.buffer + used, joined, id);
        assert((after.buffer + used).map_values(id) =~= rest + ids);
        vstd::seq_lib::lemma_multiset_commutative(rest, ids);
        assert((rest + ids).to_multiset().count(x) == rest.to_multiset().count(x)
            + ids.to_multiset().count(x));
        lemma_filter_ids(before.buffer, keep, id, x);
        assert(kept == before.buffer.filter(keep));
        assert(joined.map_values(id) =~= kept.map_values(id).push(obs.observation_id));
        assert(joined.map_values(id).to_multiset().count(x) == kept.map_values(
            id,
        ).to_multiset().count(x) + if x == obs.observation_id {
            1nat
        } else {
            0nat
        });
        assert(pick_ids(before.buffer) == before.buffer.map_values(id));
    } else {
        assert(after.buffer == before.buffer);
        if ids.len() > 0 {
            assert(ids =~= Seq::empty().push(obs.observation_id));
        } else {
            assert(ids =~= Seq::empty());
        }
    }
}

/// An id is in the buffer or behind an event at most as often as it was given.
proof fn lemma_ids<S: Fn(&ed25519_dalek::SigningKey, &ConfirmedEvent) -> Vec<u8>>(
    states: Seq<FusionView>,
    calls: Seq<Call>,
    sign: S,
    results: Seq<Result<Option<ConfirmedEvent>, IngestError>>,
    x: Seq<u8>,
)
    requires
        is_run(states, calls, sign, results),
        states[0].buffer.len() == 0,
    ensures
        reported_ids(results).to_multiset().count(x) + pick_ids(
            states.last().buffer,
        ).to_multiset().count(x) <= call_ids(calls).to_multiset().count(x),
    decreases calls.len(),
{
    broadcast use vstd::seq_lib::group_to_multiset_ensures;

    if calls.len() == 0 {
        assert(pick_ids(states.last().buffer) =~= Seq::empty());
    } else {
        let r = results.last();
        let n = calls.len() as int;
        let c = calls[n - 1];
        let fewer = calls.drop_last();
        let earlier = reported_ids(results.drop_last());
        assert forall|i: int| 0 <= i < fewer.len() implies outcome(
            states.drop_last()[i],
            (#[trigger] fewer[i]).obs,
            fewer[i].d,
            sign,
            states.drop_last()[i + 1],
            results.drop_last()[i],
        ) by {
            assert(fewer[i] == calls[i]);
        }
        lemma_ids(states.drop_last(), fewer, sign, results.drop_last(), x);
        assert(states.drop_last().last() == states[n - 1]);
        assert(states[n - 1 + 1] == states.last());
        lemma_ids_step(states[n - 1], c.obs, c.d, sign, states.last(), r, x);
        assert(call_ids(calls) =~= call_ids(fewer).push(c.obs.observation_id));
        vstd::seq_lib::lemma_multiset_commutative(earlier, result_ids(r));
        assert((earlier + result_ids(r)).to_multiset().count(x) == earlier.to_multiset().count(x)
            + result_ids(r).to_multiset().count(x));
    }
}

/// An observation serves at most one event: where the observations given to a new engine have
/// different ids, no id comes twice in all the events together.
pub proof fn observations_serve_one_event<
    S: Fn(&ed25519_dalek::SigningKey, &ConfirmedEvent) -> Vec<u8>,
>(
    states: Seq<FusionView>,
    calls: Seq<Call>,
    sign: S,
    results: Seq<Result<Option<ConfirmedEvent>, IngestError>>,
)
    requires
        is_run(states, calls, sign, results),
        states[0].buffer.len() == 0,
        call_ids(calls).no_duplicates(),
    ensures
        reported_ids(results).no_duplicates(),
{
    broadcast use vstd::seq_lib::group_to_multiset_ensures;

    let ids = reported_ids(results);
    call_ids(calls).lemma_multiset_has_no_duplicates();
    assert forall|x: Seq<u8>| ids.to_multiset().contains(x) implies ids.to_multiset().count(x)
        == 1 by {
        lemma_ids(states, calls, sign, results, x);
        assert(call_ids(calls).to_multiset().contains(x));
    }
    ids.lemma_multiset_has_no_duplicates_conv();
}

/// Whether the compared observations of some calls come no later than a time.
pub open spec fn none_after(f: FusionView, calls: Seq<Call>, t_ns: i64) -> bool {
    forall|i: int|
        0 <= i < calls.len() && is_compared(f, (#[trigger] calls[i]).obs)
            ==> calls[i].obs.captured_at_ns <= t_ns
}

/// The picks of some calls that no consensus has consumed, however old.
pub open spec fn unconsumed(f: FusionView, calls: Seq<Call>) -> Multiset<PickView>
    decreases calls.len(),
{
    if calls.len() == 0 {
        Multiset::empty()
    } else {
        let c = calls.last();
        let before = unconsumed(f, calls.drop_last());
        if is_compared(f, c.obs) {
            before.insert(pick_of(c.obs)).sub(
                consumed(after_calls(f, calls.drop_last()), c.obs, c.d).to_multiset(),
            )
        } else {
            before
        }
    }
}

proof fn lemma_step_count(f: FusionView, obs: ObservationView, d: Distances, p: PickView)
    requires
        is_compared(f, obs),
    ensures
        taken_in(f, obs, d).buffer.to_multiset().count(p) + consumed(
            f,
            obs,
            d,
        ).to_multiset().count(p) == (if is_fresh(
            p.t_ns,
            obs.captured_at_ns,
            f.window_ns,
        ) {
            f.buffer.to_multiset().count(p)
        } else {
            0
        }) + if p == pick_of(obs) {
            1nat
        } else {
            0nat
        },
{
    broadcast use vstd::seq_lib::group_to_multiset_ensures;

    let t = obs.captured_at_ns;
    let keep = |p: PickView| is_fresh(p.t_ns, t, f.window_ns);
    let kept = taken_in(f, obs, d).buffer.to_multiset();
    let used = consumed(f, obs, d).to_multiset();
    picks_are_kept_or_consumed(f, obs, d);
    lemma_filter_count(f.buffer, keep, p);
    assert(kept.add(used).count(p) == kept.count(p) + used.count(p));
    assert(fresh(f.buffer, t, f.window_ns) == f.buffer.filter(keep));
}

proof fn lemma_times(f: FusionView, calls: Seq<Call>, t_ns: i64, p: PickView)
    requires
        f.buffer.len() == 0,
        none_after(f, calls, t_ns),
        after_calls(f, calls).buffer.to_multiset().count(p) > 0,
    ensures
        p.t_ns <= t_ns,
    decreases calls.len(),
{
    broadcast use vstd::seq_lib::group_to_multiset_ensures;

    if calls.len() > 0 {
        let c = calls.last();
        let fewer = calls.drop_last();
        let before = after_calls(f, fewer);
        lemma_kept(f, fewer);
        assert(calls[calls.len() - 1] == c);
        assert forall|i: int|
            0 <= i < fewer.len() && is_compared(f, (#[trigger] fewer[i]).obs) implies fewer[i].obs.captured_at_ns
            <= t_ns by {
            assert(fewer[i] == calls[i]);
        }
        if is_compared(f, c.obs) {
            lemma_step_count(before, c.obs, c.d, p);
            if before.buffer.to_multiset().count(p) > 0 {
                lemma_times(f, fewer, t_ns, p);
            }
        } else {
            lemma_times(f, fewer, t_ns, p);
        }
    }
}

/// The buffer holds all unconsumed picks that a later pick can still meet in its window.
proof fn lemma_buffer_is_unconsumed(f: FusionView, calls: Seq<Call>, t_ns: i64, p: PickView)
    requires
        f.buffer.len() == 0,
        none_after(f, calls, t_ns),
        p.t_ns >= t_ns - f.window_ns,
    ensures
        after_calls(f, calls).buffer.to_multiset().count(p) == unconsumed(f, calls).count(p),
    decreases calls.len(),
{
    broadcast use vstd::seq_lib::group_to_multiset_ensures;

    if calls.len() == 0 {
        assert(after_calls(f, calls).buffer =~= Seq::empty());
    } else {
        let c = calls.last();
        let fewer = calls.drop_last();
        lemma_kept(f, fewer);
        assert(calls[calls.len() - 1] == c);
        assert forall|i: int|
            0 <= i < fewer.len() && is_compared(f, (#[trigger] fewer[i]).obs) implies fewer[i].obs.captured_at_ns
            <= t_ns by {
            assert(fewer[i] == calls[i]);
        }
        lemma_buffer_is_unconsumed(f, fewer, t_ns, p);
        if is_compared(f, c.obs) {
            lemma_step_count(after_calls(f, fewer), c.obs, c.d, p);
        }
    }
}

/// Whether the distances by which an engine's newest pick is judged are those of `distance`.
pub open spec fn given_by(
    distance: spec_fn(CellView, CellView) -> Double,
    joined: FusionView,
    d: Distances,
) -> bool {
    let company = joined.company(d.to_newest);
    &&& d.to_newest.len() == joined.older().len()
    &&& forall|i: int|
        0 <= i < d.to_newest.len() ==> #[trigger] d.to_newest[i] == distance(
            joined.newest().cell,
            joined.older()[i].cell,
        )
    &&& covers_pairs(d.between, company.len())
    &&& forall|i: int, j: int|
        0 <= i < j < company.len() ==> #[trigger] d.between[j][i] == distance(
            company[j].cell,
            company[i].cell,
        )
}

/// A function that gives one distance for any two cells gives the distances of that.
pub proof fn measured_distances_are_given<D: Fn(&GeoCell, &GeoCell) -> Double>(
    measure: D,
    distance: spec_fn(CellView, CellView) -> Double,
    joined: FusionView,
    d: Distances,
)
    requires
        measured(measure, joined, d),
        forall|a: CellView, b: CellView, x: Double| #[trigger]
            distance_may_be(measure, a, b, x) ==> x == distance(a, b),
    ensures
        given_by(distance, joined, d),
{
}

/// Whether a pick lies within the radius and the window of an observation.
pub open spec fn is_near(
    f: FusionView,
    obs: ObservationView,
    distance: spec_fn(CellView, CellView) -> Double,
) -> spec_fn(PickView) -> bool {
    |p: PickView|
        in_window(p.t_ns, obs.captured_at_ns, f.window_ns) && distance(
            pick_of(obs).cell,
            p.cell,
        ).spec_le(f.radius_km)
}

/// Whether any two of some picks lie within a radius of each other.
pub open spec fn are_close(
    picks: Multiset<PickView>,
    distance: spec_fn(CellView, CellView) -> Double,
    radius_km: Double,
) -> bool {
    forall|p: PickView, q: PickView|
        #[trigger] picks.contains(p) && #[trigger] picks.contains(q) && (p != q || picks.count(p)
            > 1) ==> distance(q.cell, p.cell).spec_le(radius_km)
}

proof fn lemma_twice<A>(s: Seq<A>, i: int, j: int)
    requires
        0 <= i < j < s.len(),
        s[i] == s[j],
    ensures
        s.to_multiset().count(s[i]) > 1,
{
    broadcast use vstd::seq_lib::group_to_multiset_ensures;

    let fewer = s.remove(j);
    assert(fewer[i] == s[i]);
    assert(fewer.contains(s[i]));
    assert(fewer.to_multiset().count(s[i]) > 0);
    assert(s.contains(s[j]));
    assert(s.to_multiset().count(s[i]) > 0);
    vstd::seq_lib::to_multiset_remove(s, j);
    assert(fewer.to_multiset().count(s[i]) == s.to_multiset().remove(s[j]).count(s[i]));
}

/// Over any history an event for a phone pick is of exactly that pick and the unconsumed picks
/// within its radius and window, where these are within the radius of each other and no earlier
/// pick was made after it; it comes if and only if they number at least N. The new pick is the last.
pub proof fn consensus_is_of_all_neighbours<
    S: Fn(&ed25519_dalek::SigningKey, &ConfirmedEvent) -> Vec<u8>,
>(
    states: Seq<FusionView>,
    calls: Seq<Call>,
    sign: S,
    results: Seq<Result<Option<ConfirmedEvent>, IngestError>>,
    distance: spec_fn(CellView, CellView) -> Double,
    i: int,
)
    requires
        is_run(states, calls, sign, results),
        states[0].buffer.len() == 0,
        states[0].consensus_n >= 1,
        0 <= i < calls.len(),
        is_compared(states[0], calls[i].obs),
        none_after(states[0], calls.take(i), calls[i].obs.captured_at_ns),
        given_by(distance, states[i].joined(pick_of(calls[i].obs)), calls[i].d),
        are_close(
            unconsumed(states[0], calls.take(i)).filter(
                is_near(states[0], calls[i].obs, distance),
            ),
            distance,
            states[0].radius_km,
        ),
    ensures
        ({
            let obs = calls[i].obs;
            let near = unconsumed(states[0], calls.take(i)).filter(
                is_near(states[0], obs, distance),
            );
            let cluster = states[i].joined(pick_of(obs)).cluster(calls[i].d);
            &&& results[i] is Ok
            &&& results[i]->Ok_0 is Some <==> near.len() + 1 >= states[0].consensus_n
            &&& results[i]->Ok_0 matches Some(e) ==> {
                &&& e@.evidence == EvidenceKind::Consensus
                &&& e@.num_observations == (near.len() + 1) % 0x1_0000_0000
                &&& e@.obs_ids == pick_ids(cluster)
                &&& e@.obs_ids.last() == obs.observation_id
                &&& cluster.to_multiset() == near.insert(pick_of(obs))
            }
        }),
{
    broadcast use vstd::seq_lib::group_to_multiset_ensures;

    let f = states[0];
    let s = states[i];
    let obs = calls[i].obs;
    let d = calls[i].d;
    let t = obs.captured_at_ns;
    let earlier = calls.take(i);
    let keep = is_near(f, obs, distance);
    let near = unconsumed(f, earlier).filter(keep);
    run_follows_calls(states, calls, sign, results, i);
    lemma_kept(f, earlier);
    assert(phones(s).buffer == s.buffer);
    assert(phones(s).radius_km == s.radius_km && phones(s).window_ns == s.window_ns);
    assert(phones(s).consensus_n == s.consensus_n);
    assert(phones(s).protocol_version == s.protocol_version);
    let joined = s.joined(pick_of(obs));
    let older = joined.older();
    let company = joined.company(d.to_newest);
    let window = |p: PickView| is_fresh(p.t_ns, t, s.window_ns);
    assert(older =~= s.buffer.filter(window));
    lemma_select_filter(older, joined.near(d.to_newest), keep);
    assert(company.to_multiset() =~= near) by {
        assert forall|p: PickView| company.to_multiset().count(p) == near.count(p) by {
            lemma_filter_count(older, keep, p);
            lemma_filter_count(s.buffer, window, p);
            if keep(p) {
                lemma_buffer_is_unconsumed(f, earlier, t, p);
            }
        }
    }
    let links = joined.links(company, d.between);
    assert forall|j: int, k: int| 0 <= j < k < links.len() implies #[trigger] links[k][j] by {
        let p = company[j];
        let q = company[k];
        assert(company.contains(p) && company.contains(q));
        assert(near.contains(p) && near.contains(q));
        if p == q {
            lemma_twice(company, j, k);
        }
        assert(keep(p) && keep(q));
        lemma_filter_count(older, keep, p);
        lemma_filter_count(older, keep, q);
        lemma_filter_count(s.buffer, window, p);
        lemma_filter_count(s.buffer, window, q);
        lemma_times(f, earlier, t, p);
        lemma_times(f, earlier, t, q);
        assert(d.between[k][j] == distance(q.cell, p.cell));
    }
    picks_near_each_other_fire_together(s, obs, d);
    assert(outcome(s, obs, d, sign, states[i + 1], results[i]));
    lemma_event_fields(results[i]);
    assert(company.len() == near.len());
    if results[i]->Ok_0 is Some {
        let e = results[i]->Ok_0->0@;
        let cluster = joined.cluster(d);
        consensus_takes_all(joined, d);
        assert(cluster == company.push(pick_of(obs)));
        assert(e.obs_ids =~= pick_ids(cluster));
        assert(cluster.to_multiset() =~= near.insert(pick_of(obs)));
        assert(pick_ids(cluster).last() == obs.observation_id);
    }
}

/// Any two picks of one consensus lie within the window of each other, over any history.
pub proof fn picks_of_an_event_share_the_window<
    S: Fn(&ed25519_dalek::SigningKey, &ConfirmedEvent) -> Vec<u8>,
>(
    states: Seq<FusionView>,
    calls: Seq<Call>,
    sign: S,
    results: Seq<Result<Option<ConfirmedEvent>, IngestError>>,
    i: int,
    j: int,
    k: int,
)
    requires
        is_run(states, calls, sign, results),
        0 <= i < calls.len(),
        results[i] is Ok,
        results[i]->Ok_0 is Some,
        results[i]->Ok_0->0@.evidence == EvidenceKind::Consensus,
        0 <= j < k < results[i]->Ok_0->0@.obs_ids.len(),
    ensures
        ({
            let cluster = states[i].joined(pick_of(calls[i].obs)).cluster(calls[i].d);
            &&& results[i]->Ok_0->0@.obs_ids == pick_ids(cluster)
            &&& in_window(cluster[j].t_ns, cluster[k].t_ns, states[0].window_ns)
        }),
{
    let s = states[i];
    let c = calls[i];
    run_follows_calls(states, calls, sign, results, i);
    lemma_kept(states[0], calls.take(i));
    assert(phones(s).window_ns == s.window_ns);
    assert(outcome(s, c.obs, c.d, sign, states[i + 1], results[i]));
    lemma_event_fields(results[i]);
    let cluster = s.joined(pick_of(c.obs)).cluster(c.d);
    assert(results[i]->Ok_0->0@.obs_ids =~= pick_ids(cluster));
    consensus_shares_the_window(s.joined(pick_of(c.obs)), c.d, j, k);
}

} // verus!
