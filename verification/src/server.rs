//! The ingest surface: what a request is answered, and what is to be done besides.
//!
//! Adapters send signed messages. Each is decoded and verified; its observation is
//! persisted and fed to the fusion engine, and any resulting event is persisted and
//! forwarded. The transport, the stores and the counters are the caller's: a reply
//! lists, in order, what they are to do.

use vstd::prelude::*;

use crate::double::Double;
use crate::fusion::ingested;
use crate::fusion::Fusion;
use crate::fusion::FusionView;
use crate::fusion::IngestError;
use crate::geo::is_geohash;
use crate::geo::GeoCell;
use crate::message::ConfirmedEvent;
use crate::message::EventView;
use crate::message::EvidenceKind;
use crate::message::Observation;
use crate::message::ObservationView;
use crate::message::SourceType;
use crate::trust::unusable_observations_are_rejected;

verus! {

/// Status of an answer.
#[derive(Clone, Copy, Debug, PartialEq, Eq, Structural)]
pub enum Status {
    /// Verified, persisted, ingested.
    Accepted,
    /// Undecodable, or bad fields.
    BadRequest,
    /// Signature failed.
    Unauthorized,
}

impl Status {
    /// The HTTP status code.
    pub open spec fn spec_code(self) -> u16 {
        match self {
            Status::Accepted => 202,
            Status::BadRequest => 400,
            Status::Unauthorized => 401,
        }
    }

    /// The HTTP status code.
    pub fn code(self) -> (c: u16)
        ensures
            c == self.spec_code(),
    {
        match self {
            Status::Accepted => 202,
            Status::BadRequest => 400,
            Status::Unauthorized => 401,
        }
    }
}

/// Something to do about a request, apart from answering it.
#[derive(Clone, Copy, Debug, PartialEq, Eq, Structural)]
pub enum Action {
    /// Count the observation under its source.
    CountObservation,
    /// Persist the observation.
    RecordObservation,
    /// Count the event under its evidence.
    CountEvent,
    /// Persist the event.
    RecordEvent,
    /// Persist the reputation, which consensus events update.
    RecordReputation,
    /// Send the event to the relay.
    ForwardEvent,
    /// Count the error.
    CountError(IngestError),
    /// Note how long the request took.
    TimeRequest,
}

/// The answer to a request.
#[derive(Debug)]
pub struct Reply {
    pub status: Status,
    pub event: Option<ConfirmedEvent>,
    pub actions: Vec<Action>,
}

#[verifier::ext_equal]
pub struct ReplyView {
    pub status: Status,
    pub event: Option<EventView>,
    pub actions: Seq<Action>,
}

pub open spec fn event_view(event: Option<ConfirmedEvent>) -> Option<EventView> {
    match event {
        Some(e) => Some(e@),
        None => None,
    }
}

impl View for Reply {
    type V = ReplyView;

    open spec fn view(&self) -> ReplyView {
        ReplyView {
            status: self.status,
            event: event_view(self.event),
            actions: self.actions@,
        }
    }
}

/// Liveness answer.
pub fn health() -> (r: &'static str)
    ensures
        r@ == "ok"@,
{
    "ok"
}

/// What to do about an observation before it is fused.
pub open spec fn on_observation() -> Seq<Action> {
    seq![Action::CountObservation, Action::RecordObservation]
}

/// What to do about an event.
pub open spec fn on_event(evidence: EvidenceKind) -> Seq<Action> {
    match evidence {
        EvidenceKind::Official => seq![
            Action::CountEvent,
            Action::RecordEvent,
            Action::ForwardEvent,
        ],
        EvidenceKind::Consensus => seq![
            Action::CountEvent,
            Action::RecordEvent,
            Action::RecordReputation,
            Action::ForwardEvent,
        ],
    }
}

/// The answer to a verified observation of which fusion made `fused`.
pub open spec fn answer(fused: Result<Option<ConfirmedEvent>, IngestError>) -> ReplyView {
    match fused {
        Ok(Some(e)) => ReplyView {
            status: Status::Accepted,
            event: Some(e@),
            actions: on_observation() + on_event(e.evidence),
        },
        Ok(None) => ReplyView {
            status: Status::Accepted,
            event: None,
            actions: on_observation(),
        },
        Err(IngestError::BadFields) => ReplyView {
            status: Status::BadRequest,
            event: None,
            actions: on_observation().push(Action::CountError(IngestError::BadFields)),
        },
        Err(_) => ReplyView {
            status: Status::BadRequest,
            event: None,
            actions: on_observation(),
        },
    }
}

/// The answer to a message that is turned down before it is fused.
pub open spec fn refusal(status: Status, error: IngestError) -> ReplyView {
    ReplyView { status, event: None, actions: seq![Action::CountError(error)] }
}

/// An answer whose time is taken.
pub open spec fn timed(r: ReplyView) -> ReplyView {
    ReplyView { actions: r.actions.push(Action::TimeRequest), ..r }
}

/// Answers a verified observation of which fusion made `fused`.
pub fn answer_fused(fused: Result<Option<ConfirmedEvent>, IngestError>) -> (r: Reply)
    ensures
        r@ == answer(fused),
{
    let mut actions: Vec<Action> = Vec::new();
    actions.push(Action::CountObservation);
    actions.push(Action::RecordObservation);
    assert(actions@ =~= on_observation());
    match fused {
        Ok(Some(event)) => {
            actions.push(Action::CountEvent);
            actions.push(Action::RecordEvent);
            if event.evidence == EvidenceKind::Consensus {
                actions.push(Action::RecordReputation);
            }
            actions.push(Action::ForwardEvent);
            assert(actions@ =~= on_observation() + on_event(event.evidence));
            Reply { status: Status::Accepted, event: Some(event), actions }
        },
        Ok(None) => Reply { status: Status::Accepted, event: None, actions },
        Err(IngestError::BadFields) => {
            actions.push(Action::CountError(IngestError::BadFields));
            Reply { status: Status::BadRequest, event: None, actions }
        },
        Err(_) => Reply { status: Status::BadRequest, event: None, actions },
    }
}

fn refuse(status: Status, error: IngestError) -> (r: Reply)
    ensures
        r@ == refusal(status, error),
{
    let mut actions: Vec<Action> = Vec::new();
    actions.push(Action::CountError(error));
    assert(actions@ =~= seq![Action::CountError(error)]);
    Reply { status, event: None, actions }
}

/// Whether an engine may go from `before` to `after` over a verified observation, and answer `r`.
pub open spec fn processed<
    D: Fn(&GeoCell, &GeoCell) -> Double,
    S: Fn(&ed25519_dalek::SigningKey, &ConfirmedEvent) -> Vec<u8>,
>(
    before: FusionView,
    obs: ObservationView,
    distance_km: D,
    sign: S,
    after: FusionView,
    r: ReplyView,
) -> bool {
    exists|fused: Result<Option<ConfirmedEvent>, IngestError>|
        #[trigger] ingested(before, obs, distance_km, sign, after, fused) && r == answer(fused)
}

/// Shared path for a verified pick (from either wire version): persist, fuse, and forward any
/// resulting event.
pub fn process_observation<
    D: Fn(&GeoCell, &GeoCell) -> Double,
    S: Fn(&ed25519_dalek::SigningKey, &ConfirmedEvent) -> Vec<u8>,
>(fusion: &mut Fusion, obs: Observation, distance_km: &D, sign: &S) -> (r: Reply)
    requires
        old(fusion).wf(),
        forall|a: &GeoCell, b: &GeoCell| call_requires(*distance_km, (a, b)),
        forall|key: &ed25519_dalek::SigningKey, draft: &ConfirmedEvent|
            call_requires(*sign, (key, draft)),
    ensures
        final(fusion).wf(),
        processed(old(fusion)@, obs@, *distance_km, *sign, final(fusion)@, r@),
{
    let fused: Result<Option<ConfirmedEvent>, IngestError> = fusion.ingest(obs, distance_km, sign);
    answer_fused(fused)
}

fn take_time(r: Reply) -> (t: Reply)
    ensures
        t@ == timed(r@),
{
    let mut t = r;
    t.actions.push(Action::TimeRequest);
    t
}

/// Answers one signed `Observation`: accepted once verified, persisted and ingested; a bad
/// request where it does not decode or its fields are bad; unauthorized where the signature
/// fails.
///
/// `decode` reads an observation together with the signed message it came in, and `verify`
/// checks the signature of that message.
pub fn ingest<
    M,
    C: Fn(&[u8]) -> Option<(Observation, M)>,
    V: Fn(&M) -> bool,
    D: Fn(&GeoCell, &GeoCell) -> Double,
    S: Fn(&ed25519_dalek::SigningKey, &ConfirmedEvent) -> Vec<u8>,
>(
    fusion: &mut Fusion,
    body: &[u8],
    decode: &C,
    verify: &V,
    distance_km: &D,
    sign: &S,
) -> (r: Reply)
    requires
        old(fusion).wf(),
        call_requires(*decode, (body,)),
        forall|message: &M| call_requires(*verify, (message,)),
        forall|a: &GeoCell, b: &GeoCell| call_requires(*distance_km, (a, b)),
        forall|key: &ed25519_dalek::SigningKey, draft: &ConfirmedEvent|
            call_requires(*sign, (key, draft)),
    ensures
        final(fusion).wf(),
        exists|decoded: Option<(Observation, M)>|
            {
                &&& #[trigger] call_ensures(*decode, (body,), decoded)
                &&& match decoded {
                    None => r@ == refusal(Status::BadRequest, IngestError::Decode) && final(fusion)@
                        == old(fusion)@,
                    Some((obs, message)) => exists|valid: bool|
                        {
                            &&& #[trigger] call_ensures(*verify, (&message,), valid)
                            &&& !valid ==> r@ == refusal(
                                Status::Unauthorized,
                                IngestError::Signature,
                            ) && final(fusion)@ == old(fusion)@
                            &&& valid ==> exists|reply: ReplyView|
                                {
                                    &&& #[trigger] processed(
                                        old(fusion)@,
                                        obs@,
                                        *distance_km,
                                        *sign,
                                        final(fusion)@,
                                        reply,
                                    )
                                    &&& r@ == timed(reply)
                                }
                        },
                }
            },
{
    let decoded: Option<(Observation, M)> = decode(body);
    assert(call_ensures(*decode, (body,), decoded));
    match decoded {
        None => refuse(Status::BadRequest, IngestError::Decode),
        Some((obs, message)) => {
            let valid: bool = verify(&message);
            assert(call_ensures(*verify, (&message,), valid));
            if !valid {
                return refuse(Status::Unauthorized, IngestError::Signature);
            }
            take_time(process_observation(fusion, obs, distance_km, sign))
        },
    }
}

/// Answers one signed `Signal`. A seismic pick is normalized into an observation and fed to the
/// same fusion engine; other modalities are accepted but not routed to the alert path.
///
/// `decode` reads a signed message, `verify` checks its signature, and `normalize` gives the
/// observation of a seismic pick.
pub fn ingest_signal<
    M,
    C: Fn(&[u8]) -> Option<M>,
    V: Fn(&M) -> bool,
    N: Fn(&M) -> Option<Observation>,
    D: Fn(&GeoCell, &GeoCell) -> Double,
    S: Fn(&ed25519_dalek::SigningKey, &ConfirmedEvent) -> Vec<u8>,
>(
    fusion: &mut Fusion,
    body: &[u8],
    decode: &C,
    verify: &V,
    normalize: &N,
    distance_km: &D,
    sign: &S,
) -> (r: Reply)
    requires
        old(fusion).wf(),
        call_requires(*decode, (body,)),
        forall|message: &M| call_requires(*verify, (message,)),
        forall|message: &M| call_requires(*normalize, (message,)),
        forall|a: &GeoCell, b: &GeoCell| call_requires(*distance_km, (a, b)),
        forall|key: &ed25519_dalek::SigningKey, draft: &ConfirmedEvent|
            call_requires(*sign, (key, draft)),
    ensures
        final(fusion).wf(),
        exists|decoded: Option<M>|
            {
                &&& #[trigger] call_ensures(*decode, (body,), decoded)
                &&& match decoded {
                    None => r@ == refusal(Status::BadRequest, IngestError::Decode) && final(fusion)@
                        == old(fusion)@,
                    Some(message) => exists|valid: bool|
                        {
                            &&& #[trigger] call_ensures(*verify, (&message,), valid)
                            &&& !valid ==> r@ == refusal(
                                Status::Unauthorized,
                                IngestError::Signature,
                            ) && final(fusion)@ == old(fusion)@
                            &&& valid ==> exists|pick: Option<Observation>|
                                {
                                    &&& #[trigger] call_ensures(*normalize, (&message,), pick)
                                    &&& match pick {
                                        None => {
                                            &&& r@ == timed(
                                                (ReplyView {
                                                    status: Status::Accepted,
                                                    event: None,
                                                    actions: Seq::empty(),
                                                }),
                                            )
                                            &&& final(fusion)@ == old(fusion)@
                                        },
                                        Some(obs) => exists|reply: ReplyView|
                                            {
                                                &&& #[trigger] processed(
                                                    old(fusion)@,
                                                    obs@,
                                                    *distance_km,
                                                    *sign,
                                                    final(fusion)@,
                                                    reply,
                                                )
                                                &&& r@ == timed(reply)
                                            },
                                    }
                                }
                        },
                }
            },
{
    let decoded: Option<M> = decode(body);
    assert(call_ensures(*decode, (body,), decoded));
    match decoded {
        None => refuse(Status::BadRequest, IngestError::Decode),
        Some(message) => {
            let valid: bool = verify(&message);
            assert(call_ensures(*verify, (&message,), valid));
            if !valid {
                return refuse(Status::Unauthorized, IngestError::Signature);
            }
            let pick: Option<Observation> = normalize(&message);
            assert(call_ensures(*normalize, (&message,), pick));
            match pick {
                Some(obs) => take_time(process_observation(fusion, obs, distance_km, sign)),
                None => {
                    let actions: Vec<Action> = Vec::new();
                    assert(actions@ =~= Seq::empty());
                    take_time(Reply { status: Status::Accepted, event: None, actions })
                },
            }
        },
    }
}

/// Every observation that was verified is persisted, whatever fusion makes of it, and an event is
/// forwarded exactly where there is one.
pub proof fn verified_observations_are_recorded(
    fused: Result<Option<ConfirmedEvent>, IngestError>,
)
    ensures
        answer(fused).actions.contains(Action::RecordObservation),
        answer(fused).actions.contains(Action::ForwardEvent) <==> answer(fused).event is Some,
        answer(fused).actions.contains(Action::RecordEvent) <==> answer(fused).event is Some,
        answer(fused).actions.contains(Action::RecordReputation) <==> (answer(
            fused,
        ).event matches Some(e) && e.evidence == EvidenceKind::Consensus),
        answer(fused).status == Status::Accepted <==> fused is Ok,
        answer(fused).status == Status::BadRequest <==> fused is Err,
{
    let actions = answer(fused).actions;
    assert(actions[1] == Action::RecordObservation);
    match fused {
        Ok(Some(e)) => {
            assert(actions[3] == Action::RecordEvent);
            if e.evidence == EvidenceKind::Consensus {
                assert(actions[4] == Action::RecordReputation);
                assert(actions[5] == Action::ForwardEvent);
            } else {
                assert(actions[4] == Action::ForwardEvent);
            }
        },
        _ => {},
    }
}

/// The codes of the answers: 202 where a message is accepted, 400 where it is a bad request, 401
/// where it is not authorized.
pub proof fn statuses_have_their_codes()
    ensures
        Status::Accepted.spec_code() == 202,
        Status::BadRequest.spec_code() == 400,
        Status::Unauthorized.spec_code() == 401,
{
}

/// Every verified observation is first counted and persisted. An event is then counted, persisted
/// and forwarded, and a consensus updates the reputation before that; an observation with bad
/// fields is counted as an error. The event, where there is one, is handed on.
pub proof fn answers_follow_from_fusion(fused: Result<Option<ConfirmedEvent>, IngestError>)
    ensures
        ({
            let r = answer(fused);
            let counted = Action::CountObservation;
            let kept = Action::RecordObservation;
            match fused {
                Ok(Some(e)) => {
                    &&& r.status == Status::Accepted
                    &&& r.event == Some(e@)
                    &&& e.evidence == EvidenceKind::Official ==> r.actions == seq![
                        counted,
                        kept,
                        Action::CountEvent,
                        Action::RecordEvent,
                        Action::ForwardEvent,
                    ]
                    &&& e.evidence == EvidenceKind::Consensus ==> r.actions == seq![
                        counted,
                        kept,
                        Action::CountEvent,
                        Action::RecordEvent,
                        Action::RecordReputation,
                        Action::ForwardEvent,
                    ]
                },
                Ok(None) => {
                    &&& r.status == Status::Accepted
                    &&& r.event is None
                    &&& r.actions == seq![counted, kept]
                },
                Err(IngestError::BadFields) => {
                    &&& r.status == Status::BadRequest
                    &&& r.event is None
                    &&& r.actions == seq![
                        counted,
                        kept,
                        Action::CountError(IngestError::BadFields),
                    ]
                },
                Err(_) => {
                    &&& r.status == Status::BadRequest
                    &&& r.event is None
                    &&& r.actions == seq![counted, kept]
                },
            }
        }),
{
    if let Ok(Some(e)) = fused {
        match e.evidence {
            EvidenceKind::Official => {
                assert(answer(fused).actions =~= seq![
                    Action::CountObservation,
                    Action::RecordObservation,
                    Action::CountEvent,
                    Action::RecordEvent,
                    Action::ForwardEvent,
                ]);
            },
            EvidenceKind::Consensus => {
                assert(answer(fused).actions =~= seq![
                    Action::CountObservation,
                    Action::RecordObservation,
                    Action::CountEvent,
                    Action::RecordEvent,
                    Action::RecordReputation,
                    Action::ForwardEvent,
                ]);
            },
        }
    }
    if let Err(IngestError::BadFields) = fused {
        assert(answer(fused).actions =~= seq![
            Action::CountObservation,
            Action::RecordObservation,
            Action::CountError(IngestError::BadFields),
        ]);
    }
}

/// A message that is turned down is counted as an error and nothing else is done about it; taking
/// the time of a request comes last and changes nothing else.
pub proof fn refusals_and_times(status: Status, error: IngestError, r: ReplyView)
    ensures
        refusal(status, error).status == status,
        refusal(status, error).event is None,
        refusal(status, error).actions == seq![Action::CountError(error)],
        timed(r).status == r.status,
        timed(r).event == r.event,
        timed(r).actions == r.actions.push(Action::TimeRequest),
{
}

/// A verified observation is accepted exactly where fusion can use it: it has the engine's protocol
/// version and is official, or of a phone that says where it is. Else it is a bad request and
/// leaves the engine as it was. The event of an answer is the one that the engine emitted, and
/// there is one exactly where it emitted one.
pub proof fn usable_observations_are_accepted<
    D: Fn(&GeoCell, &GeoCell) -> Double,
    S: Fn(&ed25519_dalek::SigningKey, &ConfirmedEvent) -> Vec<u8>,
>(
    before: FusionView,
    obs: ObservationView,
    distance_km: D,
    sign: S,
    after: FusionView,
    r: ReplyView,
)
    requires
        processed(before, obs, distance_km, sign, after, r),
    ensures
        r.status == Status::Accepted <==> obs.protocol_version == before.protocol_version && (
        obs.source_type == SourceType::Official || (obs.source_type == SourceType::Phone
            && obs.location is Some && is_geohash(obs.location->0.geohash))),
        r.status != Status::Accepted ==> r.status == Status::BadRequest && after == before,
        r.event is None ==> after.emitted == before.emitted,
        r.event matches Some(e) ==> after.emitted == before.emitted.push(e),
        exists|fused: Result<Option<ConfirmedEvent>, IngestError>|
            #[trigger] ingested(before, obs, distance_km, sign, after, fused) && r == answer(fused),
        r.actions.len() >= 2,
        r.actions[0] == Action::CountObservation,
        r.actions[1] == Action::RecordObservation,
{
    let fused = choose|fused: Result<Option<ConfirmedEvent>, IngestError>|
        #[trigger] ingested(before, obs, distance_km, sign, after, fused) && r == answer(fused);
    unusable_observations_are_rejected(before, obs, distance_km, sign, after, fused);
    answers_follow_from_fusion(fused);
}

/// The view of a reply holds what the reply holds.
pub proof fn replies_are_what_they_show(r: Reply)
    ensures
        r@.status == r.status,
        r@.event is Some <==> r.event is Some,
        r.event matches Some(e) ==> r@.event == Some(e@),
        r@.actions == r.actions@,
{
}

} // verus!
