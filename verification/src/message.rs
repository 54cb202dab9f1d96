//! What the node takes in and gives out: observations and confirmed events.
//!
//! These types hold what the node reads of an observation and everything it
//! puts into an event. Their wire form is the protocol's concern.

use vstd::prelude::*;

use crate::double::Single;

verus! {

/// Who made an observation.
#[derive(Clone, Copy, Debug, PartialEq, Eq, Structural)]
pub enum SourceType {
    /// An authority's own sensor network.
    Official,
    /// A phone.
    Phone,
    /// Any other code of the protocol, known or not.
    Other(i32),
}

/// What a confirmed event rests on.
#[derive(Clone, Copy, Debug, PartialEq, Eq, Structural)]
pub enum EvidenceKind {
    /// One official observation.
    Official,
    /// Correlated picks of several phones.
    Consensus,
}

/// Where an observation was made.
#[derive(Debug)]
pub struct Location {
    pub geohash: String,
    pub precision_m: u32,
}

pub struct LocationView {
    pub geohash: Seq<char>,
    pub precision_m: u32,
}

impl View for Location {
    type V = LocationView;

    open spec fn view(&self) -> LocationView {
        LocationView { geohash: self.geohash@, precision_m: self.precision_m }
    }
}

impl Clone for Location {
    fn clone(&self) -> (r: Location)
        ensures
            r@ == self@,
    {
        Location { geohash: self.geohash.clone(), precision_m: self.precision_m }
    }
}

/// A location that may be missing.
pub open spec fn place_view(place: Option<Location>) -> Option<LocationView> {
    match place {
        Some(l) => Some(l@),
        None => None,
    }
}

pub(crate) fn clone_place(place: &Option<Location>) -> (r: Option<Location>)
    ensures
        place_view(r) == place_view(*place),
{
    match place {
        Some(l) => Some(l.clone()),
        None => None,
    }
}

/// One pick by one sensor.
#[derive(Debug)]
pub struct Observation {
    pub protocol_version: u32,
    pub observation_id: Vec<u8>,
    pub source_type: SourceType,
    pub captured_at_ns: i64,
    pub location: Option<Location>,
    pub p_wave_detected: bool,
    pub reported_magnitude: Single,
}

pub struct ObservationView {
    pub protocol_version: u32,
    pub observation_id: Seq<u8>,
    pub source_type: SourceType,
    pub captured_at_ns: i64,
    pub location: Option<LocationView>,
    pub p_wave_detected: bool,
    pub reported_magnitude: Single,
}

impl View for Observation {
    type V = ObservationView;

    open spec fn view(&self) -> ObservationView {
        ObservationView {
            protocol_version: self.protocol_version,
            observation_id: self.observation_id@,
            source_type: self.source_type,
            captured_at_ns: self.captured_at_ns,
            location: place_view(self.location),
            p_wave_detected: self.p_wave_detected,
            reported_magnitude: self.reported_magnitude,
        }
    }
}

impl Clone for Observation {
    fn clone(&self) -> (r: Observation)
        ensures
            r@ == self@,
    {
        Observation {
            protocol_version: self.protocol_version,
            observation_id: clone_bytes(&self.observation_id),
            source_type: self.source_type,
            captured_at_ns: self.captured_at_ns,
            location: clone_place(&self.location),
            p_wave_detected: self.p_wave_detected,
            reported_magnitude: self.reported_magnitude,
        }
    }
}

/// An earthquake the node vouches for.
#[derive(Debug)]
pub struct ConfirmedEvent {
    pub protocol_version: u32,
    pub event_id: Vec<u8>,
    pub pubkey: Vec<u8>,
    pub origin_time_ns: i64,
    pub issued_at_ns: i64,
    pub epicenter: Option<Location>,
    pub depth_km: Single,
    pub magnitude: Single,
    pub magnitude_uncert: Single,
    pub evidence: EvidenceKind,
    pub num_observations: u32,
    pub obs_ids: Vec<Vec<u8>>,
    pub supersedes: Vec<u8>,
    pub signature: Vec<u8>,
}

#[verifier::ext_equal]
pub struct EventView {
    pub protocol_version: u32,
    pub event_id: Seq<u8>,
    pub pubkey: Seq<u8>,
    pub origin_time_ns: i64,
    pub issued_at_ns: i64,
    pub epicenter: Option<LocationView>,
    pub depth_km: Single,
    pub magnitude: Single,
    pub magnitude_uncert: Single,
    pub evidence: EvidenceKind,
    pub num_observations: u32,
    pub obs_ids: Seq<Seq<u8>>,
    pub supersedes: Seq<u8>,
    pub signature: Seq<u8>,
}

/// The bytes of each of several byte strings.
pub open spec fn bytes_views(v: Seq<Vec<u8>>) -> Seq<Seq<u8>> {
    Seq::new(v.len(), |i: int| v[i]@)
}

impl View for ConfirmedEvent {
    type V = EventView;

    open spec fn view(&self) -> EventView {
        EventView {
            protocol_version: self.protocol_version,
            event_id: self.event_id@,
            pubkey: self.pubkey@,
            origin_time_ns: self.origin_time_ns,
            issued_at_ns: self.issued_at_ns,
            epicenter: place_view(self.epicenter),
            depth_km: self.depth_km,
            magnitude: self.magnitude,
            magnitude_uncert: self.magnitude_uncert,
            evidence: self.evidence,
            num_observations: self.num_observations,
            obs_ids: bytes_views(self.obs_ids@),
            supersedes: self.supersedes@,
            signature: self.signature@,
        }
    }
}

pub(crate) fn clone_bytes(v: &Vec<u8>) -> (r: Vec<u8>)
    ensures
        r@ == v@,
{
    vstd::slice::slice_to_vec(v.as_slice())
}

fn clone_byte_strings(v: &Vec<Vec<u8>>) -> (r: Vec<Vec<u8>>)
    ensures
        bytes_views(r@) == bytes_views(v@),
{
    let mut out: Vec<Vec<u8>> = Vec::new();
    let mut i: usize = 0;
    while i < v.len()
        invariant
            0 <= i <= v@.len(),
            out@.len() == i,
            forall|k: int| 0 <= k < i ==> (#[trigger] out@[k])@ == v@[k]@,
        decreases v@.len() - i,
    {
        out.push(clone_bytes(&v[i]));
        i = i + 1;
    }
    assert(bytes_views(out@) =~= bytes_views(v@));
    out
}

impl Clone for ConfirmedEvent {
    fn clone(&self) -> (r: ConfirmedEvent)
        ensures
            r@ == self@,
    {
        ConfirmedEvent {
            protocol_version: self.protocol_version,
            event_id: clone_bytes(&self.event_id),
            pubkey: clone_bytes(&self.pubkey),
            origin_time_ns: self.origin_time_ns,
            issued_at_ns: self.issued_at_ns,
            epicenter: clone_place(&self.epicenter),
            depth_km: self.depth_km,
            magnitude: self.magnitude,
            magnitude_uncert: self.magnitude_uncert,
            evidence: self.evidence,
            num_observations: self.num_observations,
            obs_ids: clone_byte_strings(&self.obs_ids),
            supersedes: clone_bytes(&self.supersedes),
            signature: clone_bytes(&self.signature),
        }
    }
}

/// The view of an observation holds what the observation holds.
pub proof fn observations_are_what_they_show(o: Observation)
    ensures
        o@.protocol_version == o.protocol_version,
        o@.observation_id == o.observation_id@,
        o@.source_type == o.source_type,
        o@.captured_at_ns == o.captured_at_ns,
        o@.location is Some <==> o.location is Some,
        o.location matches Some(l) ==> o@.location->0.geohash == l.geohash@
            && o@.location->0.precision_m == l.precision_m,
        o@.p_wave_detected == o.p_wave_detected,
        o@.reported_magnitude == o.reported_magnitude,
{
}

/// The view of an event holds what the event holds.
pub proof fn events_are_what_they_show(e: ConfirmedEvent)
    ensures
        e@.protocol_version == e.protocol_version,
        e@.event_id == e.event_id@,
        e@.pubkey == e.pubkey@,
        e@.origin_time_ns == e.origin_time_ns,
        e@.issued_at_ns == e.issued_at_ns,
        e@.epicenter is Some <==> e.epicenter is Some,
        e.epicenter matches Some(l) ==> e@.epicenter->0.geohash == l.geohash@
            && e@.epicenter->0.precision_m == l.precision_m,
        e@.depth_km == e.depth_km,
        e@.magnitude == e.magnitude,
        e@.magnitude_uncert == e.magnitude_uncert,
        e@.evidence == e.evidence,
        e@.num_observations == e.num_observations,
        e@.obs_ids.len() == e.obs_ids@.len(),
        forall|i: int| 0 <= i < e.obs_ids@.len() ==> #[trigger] e@.obs_ids[i] == e.obs_ids@[i]@,
        e@.supersedes == e.supersedes@,
        e@.signature == e.signature@,
{
}

} // verus!
