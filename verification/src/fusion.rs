//! Fusion and consensus.
//!
//! - OFFICIAL with a P-wave: an event at once (high trust).
//! - PHONE: a pick joins the buffer; it fires consensus only when at least N picks
//!   lie within the radius and the window of each other (correlated in space and
//!   time). Stale picks (older than the newest by more than the window) are dropped.

use vstd::prelude::*;

use crate::cluster::choice;
use crate::cluster::choice_is_linked;
use crate::cluster::choose_linked;
use crate::cluster::is_triangle;
use crate::cluster::link_views;
use crate::cluster::select;
use crate::double::Double;
use crate::double::Single;
use crate::double::ZERO;
use crate::geo::cell_of;
use crate::geo::decode_geohash;
use crate::geo::is_geohash;
use crate::geo::CellView;
use crate::geo::GeoCell;
use crate::identity::ed25519_public_key;
use crate::identity::ed25519_signing_key;
use crate::identity::is_random_id;
use crate::identity::random_id;
use crate::identity::ID_LEN;
use crate::identity::NodeIdentity;
use crate::message::clone_bytes;
use crate::message::clone_place;
use crate::message::ConfirmedEvent;
use crate::message::EventView;
use crate::message::EvidenceKind;
use crate::message::Observation;
use crate::message::ObservationView;
use crate::message::SourceType;
use crate::trust::agreement_is_correlated;

verus! {

/// Why an ingested observation was rejected.
#[derive(Clone, Copy, Debug, PartialEq, Eq, Structural)]
pub enum IngestError {
    /// Bytes were not a valid Observation.
    Decode,
    /// Signature did not verify.
    Signature,
    /// Unsupported protocol version, unusable fields, or missing/invalid location.
    BadFields,
}

/// `SystemTime::elapsed` of the Unix epoch, in nanoseconds: the time since then, or None where
/// the clock stands before it. Nothing is known of the reading.
#[verifier::external_body]
fn since_epoch() -> (reading: Option<u128>) {
    std::time::UNIX_EPOCH.elapsed().ok().map(|d| d.as_nanos())
}

/// A clock reading as a signed 64-bit number: 0 before the epoch, else the low 64 bits of the
/// nanoseconds in two's complement.
pub open spec fn reading_ns(reading: Option<u128>) -> int {
    match reading {
        None => 0,
        Some(n) => {
            let low = n as int % 0x1_0000_0000_0000_0000;
            if low <= i64::MAX {
                low
            } else {
                low - 0x1_0000_0000_0000_0000
            }
        },
    }
}

/// Whether a reading is one that the clock gave.
pub closed spec fn is_reading(reading: Option<u128>) -> bool {
    call_ensures(since_epoch, (), reading)
}

/// Whether a time was read off the clock.
pub open spec fn is_clock_time(ns: i64) -> bool {
    exists|reading: Option<u128>| #[trigger] is_reading(reading) && ns == reading_ns(reading)
}

/// Nanoseconds since the epoch of a clock reading.
pub fn epoch_ns(reading: Option<u128>) -> (ns: i64)
    ensures
        ns == reading_ns(reading),
{
    match reading {
        None => 0,
        Some(n) => {
            let low: u128 = n % 0x1_0000_0000_0000_0000;
            if low <= 0x7fff_ffff_ffff_ffff {
                low as i64
            } else {
                (low as i128 - 0x1_0000_0000_0000_0000) as i64
            }
        },
    }
}

/// Nanoseconds since the epoch, now.
pub fn now_ns() -> (ns: i64)
    ensures
        is_clock_time(ns),
{
    let reading: Option<u128> = since_epoch();
    assert(is_reading(reading));
    epoch_ns(reading)
}

/// A phone pick waiting for others.
#[derive(Debug)]
pub struct BufferedPick {
    pub cell: GeoCell,
    pub t_ns: i64,
    pub obs: Observation,
}

pub struct PickView {
    pub cell: CellView,
    pub t_ns: i64,
    pub obs: ObservationView,
}

impl View for BufferedPick {
    type V = PickView;

    open spec fn view(&self) -> PickView {
        PickView { cell: self.cell@, t_ns: self.t_ns, obs: self.obs@ }
    }
}

pub open spec fn pick_views(s: Seq<BufferedPick>) -> Seq<PickView> {
    s.map_values(|p: BufferedPick| p@)
}

pub open spec fn event_views(s: Seq<ConfirmedEvent>) -> Seq<EventView> {
    s.map_values(|e: ConfirmedEvent| e@)
}

pub open spec fn observation_views(s: Seq<Observation>) -> Seq<ObservationView> {
    s.map_values(|o: Observation| o@)
}

/// The observations behind some picks.
pub open spec fn picked(s: Seq<PickView>) -> Seq<ObservationView> {
    s.map_values(|p: PickView| p.obs)
}

/// Whether two times lie within the window of each other.
pub open spec fn in_window(a: i64, b: i64, window_ns: i64) -> bool {
    -window_ns <= a - b <= window_ns
}

/// Whether a time comes before another by no more than the window, or after it.
pub open spec fn is_fresh(t_ns: i64, newest_ns: i64, window_ns: i64) -> bool {
    t_ns >= newest_ns - window_ns
}

/// The picks of a buffer that a pick made at `newest_ns` does not make stale, in order.
pub open spec fn fresh(buffer: Seq<PickView>, newest_ns: i64, window_ns: i64) -> Seq<PickView> {
    buffer.filter(|p: PickView| is_fresh(p.t_ns, newest_ns, window_ns))
}

/// The distances by which a new pick is judged.
pub struct Distances {
    /// From the newest pick to each older one.
    pub to_newest: Seq<Double>,
    /// Among the older picks near the newest: from each to those before it.
    pub between: Seq<Seq<Double>>,
}

/// What a fusion engine holds.
#[verifier::ext_equal]
pub struct FusionView {
    /// Secret seed of the node's key.
    pub seed: Seq<u8>,
    pub protocol_version: u32,
    /// Picks that make a consensus.
    pub consensus_n: nat,
    pub radius_km: Double,
    pub window_ns: i64,
    pub buffer: Seq<PickView>,
    pub emitted: Seq<EventView>,
}

impl FusionView {
    /// The engine once a pick has joined the buffer and those older than it by more than the window
    /// have left it.
    pub open spec fn joined(self, pick: PickView) -> FusionView {
        FusionView {
            buffer: fresh(self.buffer, pick.t_ns, self.window_ns).push(pick),
            ..self
        }
    }

    /// The pick that joined last.
    pub open spec fn newest(self) -> PickView {
        self.buffer.last()
    }

    /// The picks that were there before the newest.
    pub open spec fn older(self) -> Seq<PickView> {
        self.buffer.drop_last()
    }

    /// Which older picks are near the newest, at the given distances from it.
    pub open spec fn near(self, to_newest: Seq<Double>) -> Seq<bool> {
        Seq::new(
            self.older().len(),
            |i: int|
                to_newest[i].spec_le(self.radius_km) && in_window(
                    self.older()[i].t_ns,
                    self.newest().t_ns,
                    self.window_ns,
                ),
        )
    }

    /// The older picks near the newest.
    pub open spec fn company(self, to_newest: Seq<Double>) -> Seq<PickView> {
        select(self.older(), self.near(to_newest), true)
    }

    /// The engine without the newest pick and those near it.
    pub open spec fn parted(self, to_newest: Seq<Double>) -> FusionView {
        FusionView { buffer: select(self.older(), self.near(to_newest), false), ..self }
    }

    /// Which of some picks are near each other, at the given distances from each to those before
    /// it.
    pub open spec fn links(self, company: Seq<PickView>, between: Seq<Seq<Double>>) -> Seq<
        Seq<bool>,
    > {
        Seq::new(
            company.len(),
            |j: int|
                Seq::new(
                    j as nat,
                    |i: int|
                        between[j][i].spec_le(self.radius_km) && in_window(
                            company[i].t_ns,
                            company[j].t_ns,
                            self.window_ns,
                        ),
                ),
        )
    }

    /// Which of the picks near the newest make a consensus with it: enough of them, near each
    /// other.
    pub open spec fn chosen(self, company: Seq<PickView>, between: Seq<Seq<Double>>) -> Option<
        Seq<bool>,
    > {
        choice(self.links(company, between), (self.consensus_n - 1) as nat)
    }

    /// A parted engine once the newest pick has been settled: a consensus is consumed, all other
    /// picks go back to the end of the buffer.
    pub open spec fn rejoined(
        self,
        company: Seq<PickView>,
        newest: PickView,
        between: Seq<Seq<Double>>,
    ) -> FusionView {
        FusionView {
            buffer: match self.chosen(company, between) {
                Some(chosen) => self.buffer + select(company, chosen, false),
                None => self.buffer + company.push(newest),
            },
            ..self
        }
    }

    /// Whether the newest pick makes a consensus.
    pub open spec fn agrees(self, d: Distances) -> bool {
        self.chosen(self.company(d.to_newest), d.between) is Some
    }

    /// The picks of a consensus, in the order of the buffer: the newest is the last.
    pub open spec fn cluster(self, d: Distances) -> Seq<PickView> {
        let company = self.company(d.to_newest);
        select(company, self.chosen(company, d.between)->0, true).push(self.newest())
    }

    /// The engine once the newest pick has been compared with the others.
    pub open spec fn settled(self, d: Distances) -> FusionView {
        self.parted(d.to_newest).rejoined(self.company(d.to_newest), self.newest(), d.between)
    }

    /// The engine once it has emitted an event.
    pub open spec fn with_event(self, event: EventView) -> FusionView {
        FusionView { emitted: self.emitted.push(event), ..self }
    }
}

/// The fusion engine.
pub struct Fusion {
    identity: NodeIdentity,
    protocol_version: u32,
    consensus_n: usize,
    radius_km: Double,
    window_ns: i64,
    phone_buffer: Vec<BufferedPick>,
    emitted: Vec<ConfirmedEvent>,
}

impl View for Fusion {
    type V = FusionView;

    closed spec fn view(&self) -> FusionView {
        FusionView {
            seed: self.identity@,
            protocol_version: self.protocol_version,
            consensus_n: self.consensus_n as nat,
            radius_km: self.radius_km,
            window_ns: self.window_ns,
            buffer: pick_views(self.phone_buffer@),
            emitted: event_views(self.emitted@),
        }
    }
}

fn times_in_window(a: i64, b: i64, window_ns: i64) -> (r: bool)
    ensures
        r == in_window(a, b, window_ns),
{
    let apart: i128 = a as i128 - b as i128;
    -(window_ns as i128) <= apart && apart <= window_ns as i128
}

/// A window in seconds, in nanoseconds; one that a signed 64-bit number cannot hold is as long as
/// it can be.
pub open spec fn window_of(window_secs: u64) -> i64 {
    if window_secs * 1_000_000_000 > i64::MAX {
        i64::MAX
    } else {
        (window_secs * 1_000_000_000) as i64
    }
}

fn window_in_ns(window_secs: u64) -> (ns: i64)
    ensures
        ns == window_of(window_secs),
{
    let ns: u128 = window_secs as u128 * 1_000_000_000;
    if ns > i64::MAX as u128 {
        i64::MAX
    } else {
        ns as i64
    }
}

fn time_is_fresh(t_ns: i64, newest_ns: i64, window_ns: i64) -> (r: bool)
    ensures
        r == is_fresh(t_ns, newest_ns, window_ns),
{
    t_ns as i128 >= newest_ns as i128 - window_ns as i128
}

/// Parts picks by their flags, each part in order.
fn split(picks: Vec<BufferedPick>, flags: &Vec<bool>) -> (r: (Vec<BufferedPick>, Vec<BufferedPick>))
    requires
        flags@.len() == picks@.len(),
    ensures
        pick_views(r.0@) == select(pick_views(picks@), flags@, true),
        pick_views(r.1@) == select(pick_views(picks@), flags@, false),
{
    let ghost all = picks@;
    let count: usize = picks.len();
    let mut taken: Vec<BufferedPick> = Vec::new();
    let mut left: Vec<BufferedPick> = Vec::new();
    let mut i: usize = 0;
    for p in it: picks.into_iter()
        invariant
            it.seq() == all,
            i == it.index(),
            count == all.len(),
            flags@.len() == all.len(),
            pick_views(taken@) == select(pick_views(all.take(i as int)), flags@, true),
            pick_views(left@) == select(pick_views(all.take(i as int)), flags@, false),
    {
        proof {
            assert(pick_views(all.take(i + 1)).drop_last() =~= pick_views(all.take(i as int)));
            assert(pick_views(all.take(i + 1)).last() == all[i as int]@);
        }
        let ghost taken_before = taken@;
        let ghost left_before = left@;
        if flags[i] {
            taken.push(p);
            assert(pick_views(taken@) =~= pick_views(taken_before).push(p@));
        } else {
            left.push(p);
            assert(pick_views(left@) =~= pick_views(left_before).push(p@));
        }
        i = i + 1;
    }
    assert(all.take(all.len() as int) =~= all);
    (taken, left)
}

/// Whether each of some picks has its distances to those before it.
pub open spec fn covers_pairs(between: Seq<Seq<Double>>, count: nat) -> bool {
    &&& between.len() == count
    &&& forall|j: int| 0 <= j < count ==> (#[trigger] between[j]).len() == j
}

pub open spec fn distance_views(between: Seq<Vec<Double>>) -> Seq<Seq<Double>> {
    between.map_values(|row: Vec<Double>| row@)
}

impl Fusion {
    /// At least one pick makes a consensus, and neither the radius nor the window is negative.
    pub open spec fn wf(&self) -> bool {
        &&& self@.consensus_n >= 1
        &&& self@.window_ns >= 0
        &&& (Double { bits: ZERO }).spec_le(self@.radius_km)
    }

    /// `consensus_n` phone picks within `radius_km` and `window_secs` trigger consensus.
    pub fn new(
        identity: NodeIdentity,
        consensus_n: usize,
        radius_km: Double,
        window_secs: u64,
        protocol_version: u32,
    ) -> (f: Fusion)
        ensures
            f.wf(),
            f@ == (FusionView {
                seed: identity@,
                protocol_version,
                consensus_n: if consensus_n == 0 {
                    1
                } else {
                    consensus_n as nat
                },
                radius_km: radius_km.spec_at_least(Double { bits: ZERO }),
                window_ns: window_of(window_secs),
                buffer: Seq::empty(),
                emitted: Seq::empty(),
            }),
    {
        let f = Fusion {
            identity,
            protocol_version,
            consensus_n: if consensus_n == 0 {
                1
            } else {
                consensus_n
            },
            radius_km: radius_km.at_least(Double { bits: ZERO }),
            window_ns: window_in_ns(window_secs),
            phone_buffer: Vec::new(),
            emitted: Vec::new(),
        };
        assert(f@.buffer =~= Seq::empty());
        assert(f@.emitted =~= Seq::empty());
        f
    }

    /// Number of events emitted so far.
    pub fn emitted_count(&self) -> (n: usize)
        ensures
            n == self@.emitted.len(),
    {
        self.emitted.len()
    }

    /// Adds a pick to the buffer and drops those older than it by more than the window.
    pub fn join(&mut self, pick: BufferedPick)
        requires
            old(self).wf(),
        ensures
            final(self).wf(),
            final(self)@ == old(self)@.joined(pick@),
    {
        let mut waiting: Vec<BufferedPick> = Vec::new();
        std::mem::swap(&mut waiting, &mut self.phone_buffer);
        let ghost all = waiting@;
        let ghost keep = |p: PickView| is_fresh(p.t_ns, pick.t_ns, self.window_ns);
        let mut kept: Vec<BufferedPick> = Vec::new();
        for p in it: waiting.into_iter()
            invariant
                it.seq() == all,
                keep == (|p: PickView| is_fresh(p.t_ns, pick.t_ns, self.window_ns)),
                pick_views(kept@) == pick_views(all.take(it.index() as int)).filter(keep),
        {
            proof {
                reveal(Seq::filter);
                let i = it.index() as int;
                assert(pick_views(all.take(i + 1)).drop_last() =~= pick_views(all.take(i)));
                assert(pick_views(all.take(i + 1)).last() == all[i]@);
            }
            if time_is_fresh(p.t_ns, pick.t_ns, self.window_ns) {
                let ghost before = kept@;
                kept.push(p);
                assert(pick_views(kept@) =~= pick_views(before).push(p@));
            }
        }
        assert(all.take(all.len() as int) =~= all);
        let ghost before = kept@;
        kept.push(pick);
        assert(pick_views(kept@) =~= pick_views(before).push(pick@));
        self.phone_buffer = kept;
    }

    /// Takes the newest pick out of the buffer, and with it those near it at the given distances
    /// from it.
    pub fn part(&mut self, to_newest: &Vec<Double>) -> (r: (Vec<BufferedPick>, BufferedPick))
        requires
            old(self).wf(),
            old(self)@.buffer.len() > 0,
            to_newest@.len() == old(self)@.older().len(),
        ensures
            final(self).wf(),
            final(self)@ == old(self)@.parted(to_newest@),
            pick_views(r.0@) == old(self)@.company(to_newest@),
            r.1@ == old(self)@.newest(),
    {
        let ghost before = self@;
        let mut older: Vec<BufferedPick> = Vec::new();
        std::mem::swap(&mut older, &mut self.phone_buffer);
        let ghost all = older@;
        let count: usize = older.len() - 1;
        let newest: BufferedPick = older.remove(count);
        assert(pick_views(older@) =~= before.older());
        let mut near: Vec<bool> = Vec::new();
        let mut i: usize = 0;
        while i < count
            invariant
                0 <= i <= count,
                count == older@.len(),
                to_newest@.len() == count,
                pick_views(older@) == before.older(),
                newest@ == before.newest(),
                before.window_ns == self.window_ns,
                before.radius_km == self.radius_km,
                near@ == before.near(to_newest@).take(i as int),
            decreases count - i,
        {
            assert(before.older()[i as int] == older@[i as int]@);
            near.push(
                to_newest[i].le(self.radius_km) && times_in_window(
                    older[i].t_ns,
                    newest.t_ns,
                    self.window_ns,
                ),
            );
            i = i + 1;
            assert(near@ =~= before.near(to_newest@).take(i as int));
        }
        assert(near@ =~= before.near(to_newest@));
        let (company, rest) = split(older, &near);
        self.phone_buffer = rest;
        (company, newest)
    }

    /// Settles the newest pick and those near it, at the given distances from each of these to
    /// those before it, and hands out a consensus where there is one. All other picks go back to
    /// the end of the buffer.
    pub fn settle(
        &mut self,
        company: Vec<BufferedPick>,
        newest: BufferedPick,
        between: &Vec<Vec<Double>>,
    ) -> (r: Option<Vec<BufferedPick>>)
        requires
            old(self).wf(),
            covers_pairs(distance_views(between@), company@.len()),
        ensures
            final(self).wf(),
            final(self)@ == old(self)@.rejoined(
                pick_views(company@),
                newest@,
                distance_views(between@),
            ),
            ({
                let chosen = old(self)@.chosen(pick_views(company@), distance_views(between@));
                &&& r is Some <==> chosen is Some
                &&& r matches Some(cluster) ==> pick_views(cluster@) == select(
                    pick_views(company@),
                    chosen->0,
                    true,
                ).push(newest@)
            }),
    {
        let ghost before = self@;
        let ghost picks = pick_views(company@);
        let links: Vec<Vec<bool>> = self.find_links(&company, between);
        match choose_linked(&links, self.consensus_n - 1) {
            Some(chosen) => {
                proof {
                    choice_is_linked(
                        link_views(links@),
                        (before.consensus_n - 1) as nat,
                    );
                }
                let (mut cluster, mut left) = split(company, &chosen);
                let ghost waiting = self.phone_buffer@;
                assert(pick_views(waiting + left@) =~= pick_views(waiting) + pick_views(left@));
                self.phone_buffer.append(&mut left);
                let ghost taken = cluster@;
                cluster.push(newest);
                assert(pick_views(cluster@) =~= pick_views(taken).push(newest@));
                Some(cluster)
            },
            None => {
                let mut back: Vec<BufferedPick> = company;
                back.push(newest);
                assert(pick_views(back@) =~= picks.push(newest@));
                let ghost waiting = self.phone_buffer@;
                assert(pick_views(waiting + back@) =~= pick_views(waiting) + pick_views(back@));
                self.phone_buffer.append(&mut back);
                None
            },
        }
    }

    fn find_links(&self, company: &Vec<BufferedPick>, between: &Vec<Vec<Double>>) -> (links: Vec<
        Vec<bool>,
    >)
        requires
            covers_pairs(distance_views(between@), company@.len()),
        ensures
            link_views(links@) == self@.links(pick_views(company@), distance_views(between@)),
            is_triangle(link_views(links@)),
    {
        let ghost wanted = self@.links(pick_views(company@), distance_views(between@));
        let mut links: Vec<Vec<bool>> = Vec::new();
        let mut j: usize = 0;
        while j < company.len()
            invariant
                0 <= j <= company@.len(),
                links@.len() == j,
                covers_pairs(distance_views(between@), company@.len()),
                wanted == self@.links(pick_views(company@), distance_views(between@)),
                forall|k: int| 0 <= k < j ==> (#[trigger] links@[k])@ == wanted[k],
            decreases company@.len() - j,
        {
            let mut row: Vec<bool> = Vec::new();
            let mut i: usize = 0;
            assert(distance_views(between@)[j as int].len() == j);
            while i < j
                invariant
                    0 <= i <= j,
                    j < company@.len(),
                    between@.len() == company@.len(),
                    between@[j as int]@.len() == j,
                    wanted == self@.links(pick_views(company@), distance_views(between@)),
                    row@ == wanted[j as int].take(i as int),
                decreases j - i,
            {
                assert(pick_views(company@)[i as int] == company@[i as int]@);
                assert(pick_views(company@)[j as int] == company@[j as int]@);
                row.push(
                    between[j][i].le(self.radius_km) && times_in_window(
                        company[i].t_ns,
                        company[j].t_ns,
                        self.window_ns,
                    ),
                );
                i = i + 1;
                assert(row@ =~= wanted[j as int].take(i as int));
            }
            assert(row@ =~= wanted[j as int]);
            links.push(row);
            j = j + 1;
        }
        assert(link_views(links@) =~= wanted);
        links
    }
}

/// The event that some observations make, before it is signed.
pub open spec fn drafted(
    seed: Seq<u8>,
    protocol_version: u32,
    picks: Seq<ObservationView>,
    evidence: EvidenceKind,
    event_id: Seq<u8>,
    issued_at_ns: i64,
) -> EventView {
    EventView {
        protocol_version,
        event_id,
        pubkey: ed25519_public_key(seed),
        origin_time_ns: picks[0].captured_at_ns,
        issued_at_ns,
        epicenter: picks[0].location,
        depth_km: Single { bits: 0 },
        magnitude: picks[0].reported_magnitude,
        magnitude_uncert: Single { bits: 0 },
        evidence,
        num_observations: (picks.len() % 0x1_0000_0000) as u32,
        obs_ids: picks.map_values(|o: ObservationView| o.observation_id),
        supersedes: Seq::empty(),
        signature: Seq::empty(),
    }
}

/// Builds the event that some observations make, the first of which leads, unsigned.
pub fn draft_event(
    identity: &NodeIdentity,
    protocol_version: u32,
    picks: &Vec<Observation>,
    evidence: EvidenceKind,
    event_id: Vec<u8>,
    issued_at_ns: i64,
) -> (e: ConfirmedEvent)
    requires
        picks@.len() > 0,
    ensures
        e@ == drafted(
            identity@,
            protocol_version,
            observation_views(picks@),
            evidence,
            event_id@,
            issued_at_ns,
        ),
{
    let mut obs_ids: Vec<Vec<u8>> = Vec::new();
    let mut i: usize = 0;
    while i < picks.len()
        invariant
            0 <= i <= picks@.len(),
            obs_ids@.len() == i,
            forall|k: int| 0 <= k < i ==> (#[trigger] obs_ids@[k])@ == picks@[k].observation_id@,
        decreases picks@.len() - i,
    {
        obs_ids.push(clone_bytes(&picks[i].observation_id));
        i = i + 1;
    }
    let lead: &Observation = &picks[0];
    let e = ConfirmedEvent {
        protocol_version,
        event_id,
        pubkey: identity.pubkey(),
        origin_time_ns: lead.captured_at_ns,
        issued_at_ns,
        epicenter: clone_place(&lead.location),
        depth_km: Single { bits: 0 },
        magnitude: lead.reported_magnitude,
        magnitude_uncert: Single { bits: 0 },
        evidence,
        num_observations: (picks.len() as u64 % 0x1_0000_0000) as u32,
        obs_ids,
        supersedes: Vec::new(),
        signature: Vec::new(),
    };
    assert(e@.obs_ids =~= observation_views(picks@).map_values(
        |o: ObservationView| o.observation_id,
    ));
    assert(e@.supersedes =~= Seq::empty());
    assert(e@.signature =~= Seq::empty());
    e
}

/// Whether an event bears a signature that `sign` may give with the key of `seed`.
pub open spec fn signed_by<S: Fn(&ed25519_dalek::SigningKey, &ConfirmedEvent) -> Vec<u8>>(
    sign: S,
    seed: Seq<u8>,
    e: EventView,
) -> bool {
    exists|key: ed25519_dalek::SigningKey, draft: ConfirmedEvent, signature: Vec<u8>| {
        &&& key == ed25519_signing_key(seed)
        &&& draft@ == (EventView { signature: Seq::empty(), ..e })
        &&& #[trigger] call_ensures(sign, (&key, &draft), signature)
        &&& e.signature == signature@
    }
}

/// Whether an event is one that an engine makes of some observations and signs with `sign`, with an
/// id drawn at random and the time of the clock.
pub open spec fn event_of<S: Fn(&ed25519_dalek::SigningKey, &ConfirmedEvent) -> Vec<u8>>(
    f: FusionView,
    picks: Seq<ObservationView>,
    evidence: EvidenceKind,
    sign: S,
    e: EventView,
) -> bool {
    &&& e.event_id.len() == ID_LEN
    &&& is_random_id(e.event_id)
    &&& is_clock_time(e.issued_at_ns)
    &&& (EventView { signature: Seq::empty(), ..e }) == drafted(
        f.seed,
        f.protocol_version,
        picks,
        evidence,
        e.event_id,
        e.issued_at_ns,
    )
    &&& signed_by(sign, f.seed, e)
}

/// Whether an observation says where it was made, by a valid geohash.
pub open spec fn is_located(obs: ObservationView) -> bool {
    obs.location is Some && is_geohash(obs.location->0.geohash)
}

/// The pick that a located observation makes.
pub open spec fn pick_of(obs: ObservationView) -> PickView {
    PickView { cell: cell_of(obs.location->0.geohash), t_ns: obs.captured_at_ns, obs }
}

/// Whether `distance` may give `d` for two cells.
pub open spec fn distance_may_be<D: Fn(&GeoCell, &GeoCell) -> Double>(
    distance: D,
    from: CellView,
    to: CellView,
    d: Double,
) -> bool {
    exists|a: GeoCell, b: GeoCell|
        a@ == from && b@ == to && #[trigger] call_ensures(distance, (&a, &b), d)
}

/// Whether `distance` may give `between` from each of some picks to those before it.
pub open spec fn measured_between<D: Fn(&GeoCell, &GeoCell) -> Double>(
    distance: D,
    picks: Seq<PickView>,
    between: Seq<Seq<Double>>,
) -> bool {
    &&& covers_pairs(between, picks.len())
    &&& forall|j: int, i: int|
        0 <= i < j < picks.len() ==> distance_may_be(
            distance,
            picks[j].cell,
            picks[i].cell,
            #[trigger] between[j][i],
        )
}

/// Whether `distance` may give the distances by which the newest pick of an engine is judged.
pub open spec fn measured<D: Fn(&GeoCell, &GeoCell) -> Double>(
    distance: D,
    joined: FusionView,
    d: Distances,
) -> bool {
    &&& d.to_newest.len() == joined.older().len()
    &&& forall|i: int|
        0 <= i < d.to_newest.len() ==> distance_may_be(
            distance,
            joined.newest().cell,
            joined.older()[i].cell,
            #[trigger] d.to_newest[i],
        )
    &&& measured_between(distance, joined.company(d.to_newest), d.between)
}

/// Whether `distance` may put two cells within a radius of each other.
pub open spec fn within<D: Fn(&GeoCell, &GeoCell) -> Double>(
    distance: D,
    from: CellView,
    to: CellView,
    radius_km: Double,
) -> bool {
    exists|d: Double| #[trigger] distance_may_be(distance, from, to, d) && d.spec_le(radius_km)
}

/// Whether any two of some picks lie within the radius and the window of each other.
pub open spec fn near_each_other<D: Fn(&GeoCell, &GeoCell) -> Double>(
    distance: D,
    picks: Seq<PickView>,
    radius_km: Double,
    window_ns: i64,
) -> bool {
    forall|i: int, j: int|
        0 <= i < j < picks.len() ==> in_window(
            (#[trigger] picks[i]).t_ns,
            (#[trigger] picks[j]).t_ns,
            window_ns,
        ) && within(distance, picks[j].cell, picks[i].cell, radius_km)
}

/// Whether the older picks near the newest are all near each other too.
pub open spec fn is_one_cluster(joined: FusionView, d: Distances) -> bool {
    let links = joined.links(joined.company(d.to_newest), d.between);
    forall|i: int, j: int| 0 <= i < j < links.len() ==> #[trigger] links[j][i]
}

/// What consensus means for a located phone pick: the picks of one that fires are at least N, any
/// two of them within the radius and the window of each other. Where all picks near the new one
/// are so, it is of exactly those and the new one, and it fires if and only if they are at least N.
pub open spec fn is_correlated<D: Fn(&GeoCell, &GeoCell) -> Double>(
    f: FusionView,
    obs: ObservationView,
    distance: D,
    d: Distances,
    fires: bool,
) -> bool {
    let joined = f.joined(pick_of(obs));
    let company = joined.company(d.to_newest);
    &&& fires ==> {
        &&& joined.cluster(d).len() >= f.consensus_n
        &&& near_each_other(distance, joined.cluster(d), f.radius_km, f.window_ns)
    }
    &&& is_one_cluster(joined, d) ==> {
        &&& fires <==> company.len() + 1 >= f.consensus_n
        &&& fires ==> joined.cluster(d) == company.push(pick_of(obs))
    }
}

/// How an engine ends up, and what it returns, once a located phone pick has been compared with
/// the others at the given distances.
pub open spec fn phone_outcome<S: Fn(&ed25519_dalek::SigningKey, &ConfirmedEvent) -> Vec<u8>>(
    before: FusionView,
    obs: ObservationView,
    d: Distances,
    sign: S,
    after: FusionView,
    r: Result<Option<ConfirmedEvent>, IngestError>,
) -> bool {
    let joined = before.joined(pick_of(obs));
    &&& after == joined.settled(d)
    &&& r is Ok
    &&& r->Ok_0 is Some <==> joined.agrees(d)
    &&& r->Ok_0 matches Some(e) ==> event_of(
        before,
        picked(joined.cluster(d)),
        EvidenceKind::Consensus,
        sign,
        e@,
    )
}

impl Fusion {
    /// Builds and signs an event from the contributing picks.
    pub fn make_event<S: Fn(&ed25519_dalek::SigningKey, &ConfirmedEvent) -> Vec<u8>>(
        &self,
        picks: &Vec<Observation>,
        evidence: EvidenceKind,
        sign: &S,
    ) -> (e: ConfirmedEvent)
        requires
            picks@.len() > 0,
            forall|key: &ed25519_dalek::SigningKey, draft: &ConfirmedEvent|
                call_requires(*sign, (key, draft)),
        ensures
            event_of(self@, observation_views(picks@), evidence, *sign, e@),
    {
        let draft: ConfirmedEvent = draft_event(
            &self.identity,
            self.protocol_version,
            picks,
            evidence,
            random_id(),
            now_ns(),
        );
        let ghost unsigned = draft;
        let key: ed25519_dalek::SigningKey = self.identity.signing_key();
        let signature: Vec<u8> = sign(&key, &draft);
        let mut event = draft;
        event.signature = signature;
        assert((EventView { signature: Seq::empty(), ..event@ }) =~= unsigned@);
        assert(call_ensures(*sign, (&key, &unsigned), signature));
        event
    }

    /// Buffers a phone pick and fires consensus if a correlated cluster forms.
    ///
    /// The picks of a consensus lie within the radius and the window of each other. Where all
    /// picks near the new one do so, the consensus is of exactly those, and it fires if and only
    /// if they are enough.
    pub fn ingest_phone<
        D: Fn(&GeoCell, &GeoCell) -> Double,
        S: Fn(&ed25519_dalek::SigningKey, &ConfirmedEvent) -> Vec<u8>,
    >(&mut self, obs: Observation, distance_km: &D, sign: &S) -> (r: Result<
        Option<ConfirmedEvent>,
        IngestError,
    >)
        requires
            old(self).wf(),
            forall|a: &GeoCell, b: &GeoCell| call_requires(*distance_km, (a, b)),
            forall|key: &ed25519_dalek::SigningKey, draft: &ConfirmedEvent|
                call_requires(*sign, (key, draft)),
        ensures
            final(self).wf(),
            !is_located(obs@) ==> r is Err && r->Err_0 == IngestError::BadFields && final(self)@
                == old(self)@,
            is_located(obs@) ==> exists|d: Distances|
                {
                    &&& #[trigger] measured(*distance_km, old(self)@.joined(pick_of(obs@)), d)
                    &&& phone_outcome(old(self)@, obs@, d, *sign, final(self)@, r)
                    &&& is_correlated(old(self)@, obs@, *distance_km, d, r->Ok_0 is Some)
                },
    {
        let located: Option<GeoCell> = match &obs.location {
            Some(place) => decode_geohash(place.geohash.as_str()),
            None => None,
        };
        let cell: GeoCell = match located {
            Some(cell) => cell,
            None => return Err(IngestError::BadFields),
        };
        let t_ns: i64 = obs.captured_at_ns;
        let pick = BufferedPick { cell, t_ns, obs };
        let ghost before = self@;
        let ghost joined = self@.joined(pick@);
        assert(pick@ == pick_of(obs@));
        self.join(pick);

        let to_newest: Vec<Double> = self.measure_to_newest(distance_km);
        let (company, newest) = self.part(&to_newest);
        let between: Vec<Vec<Double>> = measure_between(&company, distance_km);
        let ghost d = Distances { to_newest: to_newest@, between: distance_views(between@) };
        assert(joined.newest() == pick_of(obs@));
        assert(measured(*distance_km, joined, d));
        proof {
            agreement_is_correlated(before, obs@, *distance_km, d);
        }
        match self.settle(company, newest, &between) {
            None => {
                let r = Ok(None);
                assert(phone_outcome(before, obs@, d, *sign, self@, r));
                r
            },
            Some(cluster) => {
                let ghost all = cluster@;
                let mut picks: Vec<Observation> = Vec::new();
                for p in it: cluster.into_iter()
                    invariant
                        it.seq() == all,
                        observation_views(picks@) == picked(pick_views(all.take(it.index() as int))),
                {
                    let ghost before = picks@;
                    let ghost k = it.index() as int;
                    picks.push(p.obs);
                    assert(observation_views(picks@) =~= observation_views(before).push(p.obs@));
                    assert(picked(pick_views(all.take(k + 1))) =~= picked(
                        pick_views(all.take(k)),
                    ).push(all[k]@.obs));
                }
                assert(all.take(all.len() as int) =~= all);
                assert(picks@.len() == observation_views(picks@).len());
                let r = Ok(Some(self.make_event(&picks, EvidenceKind::Consensus, sign)));
                assert(phone_outcome(before, obs@, d, *sign, self@, r));
                r
            },
        }
    }

    fn measure_to_newest<D: Fn(&GeoCell, &GeoCell) -> Double>(&self, distance_km: &D) -> (distances:
        Vec<Double>)
        requires
            self@.buffer.len() > 0,
            forall|a: &GeoCell, b: &GeoCell| call_requires(*distance_km, (a, b)),
        ensures
            distances@.len() == self@.older().len(),
            forall|i: int|
                0 <= i < distances@.len() ==> distance_may_be(
                    *distance_km,
                    self@.newest().cell,
                    self@.older()[i].cell,
                    #[trigger] distances@[i],
                ),
    {
        let count: usize = self.phone_buffer.len() - 1;
        let mut distances: Vec<Double> = Vec::new();
        let mut i: usize = 0;
        while i < count
            invariant
                0 <= i <= count,
                count == self.phone_buffer@.len() - 1,
                distances@.len() == i,
                forall|a: &GeoCell, b: &GeoCell| call_requires(*distance_km, (a, b)),
                forall|k: int|
                    0 <= k < i ==> distance_may_be(
                        *distance_km,
                        self@.newest().cell,
                        self@.older()[k].cell,
                        #[trigger] distances@[k],
                    ),
            decreases count - i,
        {
            let newest: &BufferedPick = &self.phone_buffer[count];
            let other: &BufferedPick = &self.phone_buffer[i];
            assert(newest@ == self@.newest());
            assert(other@ == self@.older()[i as int]);
            let d: Double = distance_km(&newest.cell, &other.cell);
            assert(call_ensures(*distance_km, (&newest.cell, &other.cell), d));
            distances.push(d);
            i = i + 1;
        }
        distances
    }
}

fn measure_between<D: Fn(&GeoCell, &GeoCell) -> Double>(
    picks: &Vec<BufferedPick>,
    distance_km: &D,
) -> (between: Vec<Vec<Double>>)
    requires
        forall|a: &GeoCell, b: &GeoCell| call_requires(*distance_km, (a, b)),
    ensures
        measured_between(*distance_km, pick_views(picks@), distance_views(between@)),
{
    let ghost views = pick_views(picks@);
    let mut between: Vec<Vec<Double>> = Vec::new();
    let mut j: usize = 0;
    while j < picks.len()
        invariant
            0 <= j <= picks@.len(),
            views == pick_views(picks@),
            between@.len() == j,
            forall|a: &GeoCell, b: &GeoCell| call_requires(*distance_km, (a, b)),
            forall|k: int| 0 <= k < j ==> (#[trigger] between@[k])@.len() == k,
            forall|k: int, i: int|
                0 <= i < k < j ==> distance_may_be(
                    *distance_km,
                    views[k].cell,
                    views[i].cell,
                    #[trigger] between@[k]@[i],
                ),
        decreases picks@.len() - j,
    {
        let mut row: Vec<Double> = Vec::new();
        let mut i: usize = 0;
        while i < j
            invariant
                0 <= i <= j,
                j < picks@.len(),
                views == pick_views(picks@),
                row@.len() == i,
                forall|a: &GeoCell, b: &GeoCell| call_requires(*distance_km, (a, b)),
                forall|k: int|
                    0 <= k < i ==> distance_may_be(
                        *distance_km,
                        views[j as int].cell,
                        views[k].cell,
                        #[trigger] row@[k],
                    ),
            decreases j - i,
        {
            let d: Double = distance_km(&picks[j].cell, &picks[i].cell);
            assert(views[j as int] == picks@[j as int]@);
            assert(views[i as int] == picks@[i as int]@);
            assert(call_ensures(
                *distance_km,
                (&picks@[j as int].cell, &picks@[i as int].cell),
                d,
            ));
            row.push(d);
            i = i + 1;
        }
        between.push(row);
        j = j + 1;
    }
    assert forall|k: int| 0 <= k < views.len() implies (#[trigger] distance_views(
        between@,
    )[k]).len() == k by {
        assert(between@[k]@.len() == k);
    }
    assert forall|k: int, i: int| 0 <= i < k < views.len() implies distance_may_be(
        *distance_km,
        views[k].cell,
        views[i].cell,
        #[trigger] distance_views(between@)[k][i],
    ) by {
        assert(distance_views(between@)[k][i] == between@[k]@[i]);
    }
    between
}

/// What an engine makes of an observation.
pub enum Verdict {
    /// The observation cannot be used.
    Reject,
    /// No event.
    Wait,
    /// An event of these observations.
    Fire(Seq<ObservationView>, EvidenceKind),
}

/// Whether an observation is a phone pick that the engine compares with others.
pub open spec fn is_compared(f: FusionView, obs: ObservationView) -> bool {
    obs.protocol_version == f.protocol_version && obs.source_type == SourceType::Phone
        && is_located(obs)
}

/// The trust model: an official P-wave fires on its own, a phone pick with the others that agree.
pub open spec fn verdict(f: FusionView, obs: ObservationView, d: Distances) -> Verdict {
    if obs.protocol_version != f.protocol_version {
        Verdict::Reject
    } else {
        match obs.source_type {
            SourceType::Official => if obs.p_wave_detected {
                Verdict::Fire(seq![obs], EvidenceKind::Official)
            } else {
                Verdict::Wait
            },
            SourceType::Phone => if !is_located(obs) {
                Verdict::Reject
            } else if f.joined(pick_of(obs)).agrees(d) {
                Verdict::Fire(
                    picked(f.joined(pick_of(obs)).cluster(d)),
                    EvidenceKind::Consensus,
                )
            } else {
                Verdict::Wait
            },
            SourceType::Other(_) => Verdict::Reject,
        }
    }
}

/// The engine once it has taken an observation in, any event aside: only a phone pick that is
/// compared with others changes it.
pub open spec fn taken_in(f: FusionView, obs: ObservationView, d: Distances) -> FusionView {
    if is_compared(f, obs) {
        f.joined(pick_of(obs)).settled(d)
    } else {
        f
    }
}

/// How an engine ends up, and what it returns, for an observation and the distances of a phone
/// pick to the others.
pub open spec fn outcome<S: Fn(&ed25519_dalek::SigningKey, &ConfirmedEvent) -> Vec<u8>>(
    before: FusionView,
    obs: ObservationView,
    d: Distances,
    sign: S,
    after: FusionView,
    r: Result<Option<ConfirmedEvent>, IngestError>,
) -> bool {
    match verdict(before, obs, d) {
        Verdict::Reject => r is Err && r->Err_0 == IngestError::BadFields && after == before,
        Verdict::Wait => r is Ok && r->Ok_0 is None && after == taken_in(before, obs, d),
        Verdict::Fire(picks, evidence) => {
            &&& r is Ok
            &&& r->Ok_0 is Some
            &&& event_of(before, picks, evidence, sign, r->Ok_0->0@)
            &&& after == taken_in(before, obs, d).with_event(r->Ok_0->0@)
        },
    }
}

/// The outcome for an observation, at distances that `distance` gives.
pub open spec fn ingested<
    D: Fn(&GeoCell, &GeoCell) -> Double,
    S: Fn(&ed25519_dalek::SigningKey, &ConfirmedEvent) -> Vec<u8>,
>(
    before: FusionView,
    obs: ObservationView,
    distance: D,
    sign: S,
    after: FusionView,
    r: Result<Option<ConfirmedEvent>, IngestError>,
) -> bool {
    exists|d: Distances|
        {
            &&& is_compared(before, obs) ==> {
                &&& measured(distance, before.joined(pick_of(obs)), d)
                &&& is_correlated(before, obs, distance, d, r->Ok_0 is Some)
            }
            &&& #[trigger] outcome(before, obs, d, sign, after, r)
        }
}

impl Fusion {
    /// Ingests an already-verified Observation and maybe produces a ConfirmedEvent.
    ///
    /// `distance_km` gives the distance between two cells, `sign` the signature of an event.
    pub fn ingest<
        D: Fn(&GeoCell, &GeoCell) -> Double,
        S: Fn(&ed25519_dalek::SigningKey, &ConfirmedEvent) -> Vec<u8>,
    >(&mut self, obs: Observation, distance_km: &D, sign: &S) -> (r: Result<
        Option<ConfirmedEvent>,
        IngestError,
    >)
        requires
            old(self).wf(),
            forall|a: &GeoCell, b: &GeoCell| call_requires(*distance_km, (a, b)),
            forall|key: &ed25519_dalek::SigningKey, draft: &ConfirmedEvent|
                call_requires(*sign, (key, draft)),
        ensures
            final(self).wf(),
            ingested(old(self)@, obs@, *distance_km, *sign, final(self)@, r),
    {
        let ghost before = self@;
        let ghost view = obs@;
        let ghost none = Distances { to_newest: Seq::empty(), between: Seq::empty() };
        if obs.protocol_version != self.protocol_version {
            let r = Err(IngestError::BadFields);
            assert(outcome(before, view, none, *sign, self@, r));
            return r;
        }
        match obs.source_type {
            SourceType::Official => {
                if obs.p_wave_detected {
                    let mut picks: Vec<Observation> = Vec::new();
                    picks.push(obs);
                    assert(observation_views(picks@) =~= seq![view]);
                    let e: ConfirmedEvent = self.make_event(&picks, EvidenceKind::Official, sign);
                    self.record(&e);
                    let r = Ok(Some(e));
                    assert(outcome(before, view, none, *sign, self@, r));
                    r
                } else {
                    let r = Ok(None);
                    assert(outcome(before, view, none, *sign, self@, r));
                    r
                }
            },
            SourceType::Phone => {
                match self.ingest_phone(obs, distance_km, sign) {
                    Ok(event) => {
                        let ghost d = choose|d: Distances|
                            #[trigger] measured(*distance_km, before.joined(pick_of(view)), d)
                                && phone_outcome(before, view, d, *sign, self@, Ok(event))
                                && is_correlated(before, view, *distance_km, d, event is Some);
                        if let Some(e) = &event {
                            self.record(e);
                        }
                        let r = Ok(event);
                        assert(outcome(before, view, d, *sign, self@, r));
                        r
                    },
                    Err(error) => {
                        let r = Err(error);
                        assert(outcome(before, view, none, *sign, self@, r));
                        r
                    },
                }
            },
            SourceType::Other(_) => {
                let r = Err(IngestError::BadFields);
                assert(outcome(before, view, none, *sign, self@, r));
                r
            },
        }
    }

    /// Decodes, verifies and ingests the raw bytes of an Observation.
    ///
    /// `decode` reads an observation together with the signed message it came in, and `verify`
    /// checks the signature of that message.
    pub fn ingest_bytes<
        M,
        C: Fn(&[u8]) -> Option<(Observation, M)>,
        V: Fn(&M) -> bool,
        D: Fn(&GeoCell, &GeoCell) -> Double,
        S: Fn(&ed25519_dalek::SigningKey, &ConfirmedEvent) -> Vec<u8>,
    >(&mut self, bytes: &[u8], decode: &C, verify: &V, distance_km: &D, sign: &S) -> (r: Result<
        Option<ConfirmedEvent>,
        IngestError,
    >)
        requires
            old(self).wf(),
            call_requires(*decode, (bytes,)),
            forall|message: &M| call_requires(*verify, (message,)),
            forall|a: &GeoCell, b: &GeoCell| call_requires(*distance_km, (a, b)),
            forall|key: &ed25519_dalek::SigningKey, draft: &ConfirmedEvent|
                call_requires(*sign, (key, draft)),
        ensures
            final(self).wf(),
            exists|decoded: Option<(Observation, M)>|
                {
                    &&& #[trigger] call_ensures(*decode, (bytes,), decoded)
                    &&& match decoded {
                        None => r is Err && r->Err_0 == IngestError::Decode && final(self)@ == old(
                            self,
                        )@,
                        Some((obs, message)) => exists|valid: bool|
                            {
                                &&& #[trigger] call_ensures(*verify, (&message,), valid)
                                &&& !valid ==> r is Err && r->Err_0 == IngestError::Signature
                                    && final(self)@ == old(self)@
                                &&& valid ==> ingested(
                                    old(self)@,
                                    obs@,
                                    *distance_km,
                                    *sign,
                                    final(self)@,
                                    r,
                                )
                            },
                    }
                },
    {
        let decoded: Option<(Observation, M)> = decode(bytes);
        assert(call_ensures(*decode, (bytes,), decoded));
        match decoded {
            None => Err(IngestError::Decode),
            Some((obs, message)) => {
                let valid: bool = verify(&message);
                assert(call_ensures(*verify, (&message,), valid));
                if valid {
                    self.ingest(obs, distance_km, sign)
                } else {
                    Err(IngestError::Signature)
                }
            },
        }
    }

    fn record(&mut self, e: &ConfirmedEvent)
        requires
            old(self).wf(),
        ensures
            final(self).wf(),
            final(self)@ == old(self)@.with_event(e@),
    {
        let ghost before = self.emitted@;
        self.emitted.push(e.clone());
        assert(event_views(self.emitted@) =~= event_views(before).push(e@));
    }
}

/// A clock reading keeps its low 64 bits, read as a signed number; one from before the epoch is 0.
pub proof fn readings_keep_their_low_bits(n: u128)
    ensures
        reading_ns(None) == 0,
        i64::MIN <= reading_ns(Some(n)) <= i64::MAX,
        (n - reading_ns(Some(n))) % 0x1_0000_0000_0000_0000 == 0,
{
}

/// Two times lie within the window where neither comes after the other by more; a time is stale
/// where it comes before by more.
pub proof fn windows_are_inclusive(a: i64, b: i64, window_ns: i64)
    ensures
        in_window(a, b, window_ns) <==> a - b <= window_ns && b - a <= window_ns,
        is_fresh(a, b, window_ns) <==> b - a <= window_ns,
{
}

/// A window holds a thousand million nanoseconds to the second, as far as a signed 64-bit number
/// can hold them.
pub proof fn windows_count_nanoseconds(window_secs: u64)
    ensures
        window_secs * 1_000_000_000 <= 0x7fff_ffff_ffff_ffff ==> window_of(window_secs) == window_secs
            * 1_000_000_000,
        window_secs * 1_000_000_000 > 0x7fff_ffff_ffff_ffff ==> window_of(window_secs)
            == 0x7fff_ffff_ffff_ffff,
{
}

/// The pick of a located observation holds its cell, its time and itself.
pub proof fn picks_hold_their_observation(obs: ObservationView)
    ensures
        is_located(obs) <==> obs.location is Some && is_geohash(obs.location->0.geohash),
        is_located(obs) ==> {
            &&& pick_of(obs).cell == cell_of(obs.location->0.geohash)
            &&& pick_of(obs).t_ns == obs.captured_at_ns
            &&& pick_of(obs).obs == obs
        },
{
}

/// An unsigned event is led by the first of the observations that it rests on: its time, place and
/// magnitude are those of that one, however many there are. It names all of them, in order.
pub proof fn drafts_are_led_by_the_first_pick(
    seed: Seq<u8>,
    protocol_version: u32,
    picks: Seq<ObservationView>,
    evidence: EvidenceKind,
    event_id: Seq<u8>,
    issued_at_ns: i64,
)
    requires
        picks.len() > 0,
    ensures
        ({
            let e = drafted(seed, protocol_version, picks, evidence, event_id, issued_at_ns);
            &&& e.protocol_version == protocol_version
            &&& e.event_id == event_id
            &&& e.pubkey == ed25519_public_key(seed)
            &&& e.origin_time_ns == picks[0].captured_at_ns
            &&& e.issued_at_ns == issued_at_ns
            &&& e.epicenter == picks[0].location
            &&& e.magnitude == picks[0].reported_magnitude
            &&& e.depth_km.bits == 0
            &&& e.magnitude_uncert.bits == 0
            &&& e.evidence == evidence
            &&& e.num_observations == picks.len() % 0x1_0000_0000
            &&& e.obs_ids.len() == picks.len()
            &&& forall|i: int|
                0 <= i < picks.len() ==> #[trigger] e.obs_ids[i] == picks[i].observation_id
            &&& e.supersedes.len() == 0
            &&& e.signature.len() == 0
        }),
{
}

/// An event that was made is its draft, with an id drawn at random and the time of the clock,
/// signed with the node's key: only the signature is added to what was signed.
pub proof fn events_are_signed_drafts<S: Fn(&ed25519_dalek::SigningKey, &ConfirmedEvent) -> Vec<u8>>(
    f: FusionView,
    picks: Seq<ObservationView>,
    evidence: EvidenceKind,
    sign: S,
    e: EventView,
)
    requires
        picks.len() > 0,
        event_of(f, picks, evidence, sign, e),
    ensures
        e.protocol_version == f.protocol_version,
        e.pubkey == ed25519_public_key(f.seed),
        e.origin_time_ns == picks[0].captured_at_ns,
        e.epicenter == picks[0].location,
        e.magnitude == picks[0].reported_magnitude,
        e.depth_km.bits == 0,
        e.magnitude_uncert.bits == 0,
        e.evidence == evidence,
        e.num_observations == picks.len() % 0x1_0000_0000,
        e.obs_ids.len() == picks.len(),
        forall|i: int| 0 <= i < picks.len() ==> #[trigger] e.obs_ids[i] == picks[i].observation_id,
        e.supersedes.len() == 0,
        e.event_id.len() == 16,
        is_random_id(e.event_id),
        is_clock_time(e.issued_at_ns),
        exists|key: ed25519_dalek::SigningKey, draft: ConfirmedEvent, signature: Vec<u8>|
            {
                &&& key == ed25519_signing_key(f.seed)
                &&& #[trigger] call_ensures(sign, (&key, &draft), signature)
                &&& draft@.signature.len() == 0
                &&& e == (EventView { signature: signature@, ..draft@ })
            },
{
    let unsigned = EventView { signature: Seq::empty(), ..e };
    drafts_are_led_by_the_first_pick(
        f.seed,
        f.protocol_version,
        picks,
        evidence,
        e.event_id,
        e.issued_at_ns,
    );
    assert(unsigned.obs_ids == e.obs_ids && unsigned.supersedes == e.supersedes);
    assert(unsigned.protocol_version == e.protocol_version && unsigned.pubkey == e.pubkey);
    assert(unsigned.origin_time_ns == e.origin_time_ns && unsigned.epicenter == e.epicenter);
    assert(unsigned.magnitude == e.magnitude && unsigned.depth_km == e.depth_km);
    assert(unsigned.magnitude_uncert == e.magnitude_uncert && unsigned.evidence == e.evidence);
    assert(unsigned.num_observations == e.num_observations);
    let (key, draft, signature) = choose|
        key: ed25519_dalek::SigningKey,
        draft: ConfirmedEvent,
        signature: Vec<u8>,
    |
        {
            &&& key == ed25519_signing_key(f.seed)
            &&& draft@ == (EventView { signature: Seq::empty(), ..e })
            &&& #[trigger] call_ensures(sign, (&key, &draft), signature)
            &&& e.signature == signature@
        };
    assert(e =~= (EventView { signature: signature@, ..draft@ }));
    assert(call_ensures(sign, (&key, &draft), signature));
}

/// A time of the clock is the number of a reading that the clock gave, and nothing else is.
pub proof fn clock_times_are_read(ns: i64)
    ensures
        is_clock_time(ns) <==> exists|reading: Option<u128>| #[trigger]
            is_reading(reading) && ns == reading_ns(reading),
{
}

proof fn lemma_readings_are_given(reading: Option<u128>)
    ensures
        is_reading(reading) <==> call_ensures(since_epoch, (), reading),
{
}

/// A pick joins at the end of the buffer, and of those before it only the ones older than it by
/// more than the window leave.
pub proof fn picks_join_at_the_end(f: FusionView, pick: PickView)
    ensures
        f.joined(pick) == (FusionView {
            buffer: f.buffer.filter(
                |p: PickView| pick.t_ns - p.t_ns <= f.window_ns,
            ).push(pick),
            ..f
        }),
{
    assert((|p: PickView| is_fresh(p.t_ns, pick.t_ns, f.window_ns)) =~= (|p: PickView|
        pick.t_ns - p.t_ns <= f.window_ns));
}

/// The newest pick leaves with those within the radius and the window of it, in order; the others
/// stay, in order.
pub proof fn near_picks_part_from_the_others(
    f: FusionView,
    older: Seq<PickView>,
    newest: PickView,
    to_newest: Seq<Double>,
    flags: Seq<bool>,
)
    requires
        f.buffer == older.push(newest),
        flags.len() == older.len(),
        forall|i: int|
            0 <= i < older.len() ==> #[trigger] flags[i] == (to_newest[i].spec_le(f.radius_km)
                && older[i].t_ns - newest.t_ns <= f.window_ns && newest.t_ns - older[i].t_ns
                <= f.window_ns),
    ensures
        f.newest() == newest,
        f.older() == older,
        f.company(to_newest) == select(older, flags, true),
        f.parted(to_newest) == (FusionView { buffer: select(older, flags, false), ..f }),
{
    assert(f.older() =~= older);
    assert(f.near(to_newest) =~= flags);
}

/// What makes a consensus with the newest pick is the choice of at least N but one of those near it
/// that are within the radius and the window of each other. It is consumed with the newest pick;
/// all others go back to the end of the buffer, and without a consensus so does the newest.
pub proof fn consensus_is_the_choice_of_linked_picks(
    f: FusionView,
    company: Seq<PickView>,
    newest: PickView,
    between: Seq<Seq<Double>>,
    links: Seq<Seq<bool>>,
)
    requires
        f.consensus_n >= 1,
        links.len() == company.len(),
        forall|j: int| 0 <= j < links.len() ==> (#[trigger] links[j]).len() == j,
        forall|i: int, j: int|
            0 <= i < j < links.len() ==> #[trigger] links[j][i] == (between[j][i].spec_le(
                f.radius_km,
            ) && company[i].t_ns - company[j].t_ns <= f.window_ns && company[j].t_ns
                - company[i].t_ns <= f.window_ns),
    ensures
        f.chosen(company, between) == choice(links, (f.consensus_n - 1) as nat),
        choice(links, (f.consensus_n - 1) as nat) is None ==> f.rejoined(company, newest, between)
            == (FusionView { buffer: f.buffer + company.push(newest), ..f }),
        choice(links, (f.consensus_n - 1) as nat) matches Some(mask) ==> f.rejoined(
            company,
            newest,
            between,
        ) == (FusionView { buffer: f.buffer + select(company, mask, false), ..f }),
{
    let own = f.links(company, between);
    assert forall|j: int| 0 <= j < links.len() implies #[trigger] own[j] == links[j] by {
        assert(links[j].len() == j);
        assert forall|i: int| 0 <= i < j implies own[j][i] == links[j][i] by {
            assert(links[j][i] == (between[j][i].spec_le(f.radius_km) && company[i].t_ns
                - company[j].t_ns <= f.window_ns && company[j].t_ns - company[i].t_ns
                <= f.window_ns));
        }
        assert(own[j] =~= links[j]);
    }
    assert(own =~= links);
}

/// The view of a waiting pick holds what the pick holds.
pub proof fn picks_are_what_they_show(p: BufferedPick)
    ensures
        p@.cell == p.cell@,
        p@.t_ns == p.t_ns,
        p@.obs == p.obs@,
{
}

} // verus!
