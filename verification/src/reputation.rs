//! Identity reputation: time-decayed weights with a persisted form.
//!
//! Each identity's weight decays toward the default with a half-life, so a one-off
//! burst of good picks doesn't grant permanent trust and inactive identities fade.
//! Reputation is persisted as lines of tab-separated values so that it survives
//! restarts. The arithmetic on weights is the caller's to compute.

use vstd::arithmetic::power2::*;
use vstd::prelude::*;

use crate::double::lemma_value;
use crate::double::Double;
use crate::text::chars_of;
use crate::text::decimal_round_trip;
use crate::text::decimal_text;
use crate::text::decimal_value;
use crate::text::find_mark;
use crate::text::hex_bytes;
use crate::text::hex_decode;
use crate::text::hex_encode;
use crate::text::hex_round_trip;
use crate::text::hex_text;
use crate::text::is_hex;
use crate::text::lemma_decimal_characters;
use crate::text::lemma_length_before_is;
use crate::text::length_before;
use crate::text::lines;
use crate::text::parse_decimal;
use crate::text::split_lines;
use crate::text::text_of;
use crate::text::text_views;
use crate::text::write_decimal;

verus! {

/// Weight of an unknown/new identity, as the bit pattern of the double 1.
pub const DEFAULT_WEIGHT: u64 = 0x3ff0_0000_0000_0000;

/// Reputation cap, as the bit pattern of the double 5.
pub const MAX_WEIGHT: u64 = 0x4014_0000_0000_0000;

/// Weight gained when an identity's pick is an inlier of a confirmed event, as the bit pattern of
/// the double 0.5.
pub const REWARD: u64 = 0x3fe0_0000_0000_0000;

/// Half-life (ns) for decay of a weight toward the default: 7 days.
pub const HALF_LIFE_NS: i64 = 604_800_000_000_000;

/// What is known of one identity: its weight, and when that was set.
#[derive(Debug)]
pub struct Entry {
    pub pubkey: Vec<u8>,
    pub weight: Double,
    pub last_ns: i64,
}

pub struct EntryView {
    pub pubkey: Seq<u8>,
    pub weight: Double,
    pub last_ns: i64,
}

impl View for Entry {
    type V = EntryView;

    open spec fn view(&self) -> EntryView {
        EntryView { pubkey: self.pubkey@, weight: self.weight, last_ns: self.last_ns }
    }
}

/// Weight and time of each identity of some entries; a later entry replaces an earlier one.
pub open spec fn table(entries: Seq<EntryView>) -> Map<Seq<u8>, (Double, i64)>
    decreases entries.len(),
{
    if entries.len() == 0 {
        Map::empty()
    } else {
        table(entries.drop_last()).insert(
            entries.last().pubkey,
            (entries.last().weight, entries.last().last_ns),
        )
    }
}

/// Reputation store: pubkey to weight and time of the last update.
pub struct Reputation {
    weights: Vec<Entry>,
}

impl View for Reputation {
    type V = Seq<EntryView>;

    closed spec fn view(&self) -> Seq<EntryView> {
        self.weights@.map_values(|e: Entry| e@)
    }
}

/// Whether no identity occurs twice.
pub open spec fn is_unique(entries: Seq<EntryView>) -> bool {
    forall|i: int, j: int|
        0 <= i < j < entries.len() ==> (#[trigger] entries[i]).pubkey != (#[trigger] entries[j]).pubkey
}

proof fn lemma_table_lookup(entries: Seq<EntryView>, i: int)
    requires
        is_unique(entries),
        0 <= i < entries.len(),
    ensures
        table(entries).contains_key(entries[i].pubkey),
        table(entries)[entries[i].pubkey] == (entries[i].weight, entries[i].last_ns),
    decreases entries.len(),
{
    let shorter = entries.drop_last();
    if i < shorter.len() {
        assert(is_unique(shorter)) by {
            assert forall|a: int, b: int| 0 <= a < b < shorter.len() implies (
            #[trigger] shorter[a]).pubkey != (#[trigger] shorter[b]).pubkey by {
                assert(shorter[a] == entries[a] && shorter[b] == entries[b]);
            }
        }
        lemma_table_lookup(shorter, i);
        assert(shorter[i] == entries[i]);
        assert(entries[i].pubkey != entries[entries.len() - 1].pubkey);
    }
}

proof fn lemma_table_absent(entries: Seq<EntryView>, pubkey: Seq<u8>)
    requires
        forall|i: int| 0 <= i < entries.len() ==> (#[trigger] entries[i]).pubkey != pubkey,
    ensures
        !table(entries).contains_key(pubkey),
    decreases entries.len(),
{
    if entries.len() > 0 {
        let shorter = entries.drop_last();
        assert forall|i: int| 0 <= i < shorter.len() implies (#[trigger] shorter[i]).pubkey
            != pubkey by {
            assert(shorter[i] == entries[i]);
        }
        lemma_table_absent(shorter, pubkey);
        assert(entries[entries.len() - 1].pubkey != pubkey);
    }
}

proof fn lemma_table_update(entries: Seq<EntryView>, i: int, e: EntryView)
    requires
        is_unique(entries),
        0 <= i < entries.len(),
        entries[i].pubkey == e.pubkey,
    ensures
        is_unique(entries.update(i, e)),
        table(entries.update(i, e)) == table(entries).insert(e.pubkey, (e.weight, e.last_ns)),
    decreases entries.len(),
{
    let changed = entries.update(i, e);
    assert forall|a: int, b: int| 0 <= a < b < changed.len() implies (#[trigger] changed[a]).pubkey
        != (#[trigger] changed[b]).pubkey by {
        assert(entries[a].pubkey != entries[b].pubkey);
    }
    let shorter = entries.drop_last();
    if i < shorter.len() {
        assert(is_unique(shorter)) by {
            assert forall|a: int, b: int| 0 <= a < b < shorter.len() implies (
            #[trigger] shorter[a]).pubkey != (#[trigger] shorter[b]).pubkey by {
                assert(shorter[a] == entries[a] && shorter[b] == entries[b]);
            }
        }
        assert(shorter[i] == entries[i]);
        lemma_table_update(shorter, i, e);
        assert(changed.drop_last() =~= shorter.update(i, e));
        assert(entries[i].pubkey != entries[entries.len() - 1].pubkey);
    } else {
        assert(changed.drop_last() =~= shorter);
    }
    assert(table(changed) =~= table(entries).insert(e.pubkey, (e.weight, e.last_ns)));
}

/// Whether `weight` may be the weight at `now_ns` of an identity of which `known` is known:
/// the default for an unknown one; else what was set, which has decayed as `fade` tells of it
/// and of the nanoseconds since then.
pub open spec fn weight_may_be<F: Fn(Double, u64) -> Double>(
    known: Option<(Double, i64)>,
    now_ns: i64,
    fade: F,
    weight: Double,
) -> bool {
    match known {
        None => weight == (Double { bits: DEFAULT_WEIGHT }),
        Some((set, last_ns)) => if now_ns <= last_ns {
            weight == set
        } else {
            call_ensures(fade, (set, (now_ns - last_ns) as u64), weight)
        },
    }
}

/// What a table tells of an identity.
pub open spec fn known(table: Map<Seq<u8>, (Double, i64)>, pubkey: Seq<u8>) -> Option<(Double, i64)> {
    if table.contains_key(pubkey) {
        Some(table[pubkey])
    } else {
        None
    }
}

/// Whether a table may be what a reward at `now_ns` makes of another: the weight of the identity,
/// decayed to then, and the reward, summed up by `plus` and capped, become its weight as of then.
pub open spec fn rewarded<F: Fn(Double, u64) -> Double, P: Fn(Double, Double) -> Double>(
    before: Map<Seq<u8>, (Double, i64)>,
    pubkey: Seq<u8>,
    now_ns: i64,
    fade: F,
    plus: P,
    after: Map<Seq<u8>, (Double, i64)>,
) -> bool {
    exists|w: Double, sum: Double|
        {
            &&& weight_may_be(known(before, pubkey), now_ns, fade, w)
            &&& #[trigger] call_ensures(plus, (w, (Double { bits: REWARD })), sum)
            &&& after == before.insert(
                pubkey,
                (sum.spec_at_most(Double { bits: MAX_WEIGHT }), now_ns),
            )
        }
}

fn same_bytes(a: &[u8], b: &[u8]) -> (r: bool)
    ensures
        r == (a@ == b@),
{
    if a.len() != b.len() {
        return false;
    }
    let mut i: usize = 0;
    while i < a.len()
        invariant
            0 <= i <= a@.len(),
            a@.len() == b@.len(),
            forall|k: int| 0 <= k < i ==> a@[k] == b@[k],
        decreases a@.len() - i,
    {
        if a[i] != b[i] {
            return false;
        }
        i = i + 1;
    }
    assert(a@ =~= b@);
    true
}

impl Reputation {
    /// No identity is held twice.
    pub open spec fn wf(&self) -> bool {
        is_unique(self@)
    }

    /// An empty store.
    pub fn new() -> (r: Reputation)
        ensures
            r.wf(),
            r@ == Seq::<EntryView>::empty(),
            table(r@) == Map::<Seq<u8>, (Double, i64)>::empty(),
    {
        let r = Reputation { weights: Vec::new() };
        assert(r@ =~= Seq::<EntryView>::empty());
        r
    }

    fn find(&self, pubkey: &[u8]) -> (r: Option<usize>)
        requires
            self.wf(),
        ensures
            r matches Some(i) ==> i < self.weights@.len() && self.weights@[i as int].pubkey@ == pubkey@
                && known(table(self@), pubkey@) == Some(
                (self.weights@[i as int].weight, self.weights@[i as int].last_ns),
            ),
            r is None ==> known(table(self@), pubkey@) is None && forall|k: int|
                0 <= k < self@.len() ==> (#[trigger] self@[k]).pubkey != pubkey@,
    {
        let mut i: usize = 0;
        while i < self.weights.len()
            invariant
                self.wf(),
                0 <= i <= self.weights@.len(),
                forall|k: int| 0 <= k < i ==> (#[trigger] self@[k]).pubkey != pubkey@,
            decreases self.weights@.len() - i,
        {
            if same_bytes(self.weights[i].pubkey.as_slice(), pubkey) {
                proof {
                    lemma_table_lookup(self@, i as int);
                    assert(self@[i as int] == self.weights@[i as int]@);
                }
                return Some(i);
            }
            assert(self@[i as int] == self.weights@[i as int]@);
            i = i + 1;
        }
        proof {
            lemma_table_absent(self@, pubkey@);
        }
        None
    }

    fn insert(&mut self, pubkey: Vec<u8>, weight: Double, last_ns: i64)
        requires
            old(self).wf(),
        ensures
            final(self).wf(),
            table(final(self)@) == table(old(self)@).insert(pubkey@, (weight, last_ns)),
    {
        let ghost before = self@;
        let e = Entry { pubkey, weight, last_ns };
        let ghost view = e@;
        match self.find(e.pubkey.as_slice()) {
            Some(i) => {
                assert(self@[i as int] == self.weights@[i as int]@);
                proof {
                    lemma_table_update(before, i as int, view);
                }
                self.weights[i] = e;
                assert(self@ =~= before.update(i as int, view));
            },
            None => {
                self.weights.push(e);
                assert(self@ =~= before.push(view));
                assert(self@.drop_last() =~= before);
            },
        }
    }

    /// Decayed weight of an identity at `now_ns` (default for unknown).
    ///
    /// `fade` gives what is left of a weight after some nanoseconds.
    pub fn weight<F: Fn(Double, u64) -> Double>(
        &self,
        pubkey: &[u8],
        now_ns: i64,
        fade: &F,
    ) -> (w: Double)
        requires
            self.wf(),
            forall|set: Double, elapsed_ns: u64| call_requires(*fade, (set, elapsed_ns)),
        ensures
            weight_may_be(known(table(self@), pubkey@), now_ns, *fade, w),
    {
        match self.find(pubkey) {
            None => Double { bits: DEFAULT_WEIGHT },
            Some(i) => {
                let set: Double = self.weights[i].weight;
                let last_ns: i64 = self.weights[i].last_ns;
                if now_ns <= last_ns {
                    set
                } else {
                    fade(set, (now_ns as i128 - last_ns as i128) as u64)
                }
            },
        }
    }

    /// Rewards an identity: its weight decays to now, then grows by the reward, capped.
    ///
    /// `plus` gives the sum of two weights.
    pub fn reward<F: Fn(Double, u64) -> Double, P: Fn(Double, Double) -> Double>(
        &mut self,
        pubkey: &[u8],
        now_ns: i64,
        fade: &F,
        plus: &P,
    )
        requires
            old(self).wf(),
            forall|set: Double, elapsed_ns: u64| call_requires(*fade, (set, elapsed_ns)),
            forall|a: Double, b: Double| call_requires(*plus, (a, b)),
        ensures
            final(self).wf(),
            rewarded(table(old(self)@), pubkey@, now_ns, *fade, *plus, table(final(self)@)),
    {
        let w: Double = self.weight(pubkey, now_ns, fade);
        let sum: Double = plus(w, Double { bits: REWARD });
        assert(call_ensures(*plus, (w, (Double { bits: REWARD })), sum));
        let capped: Double = sum.at_most(Double { bits: MAX_WEIGHT });
        self.insert(vstd::slice::slice_to_vec(pubkey), capped, now_ns);
    }
}

/// The first three fields of a line of tab-separated values.
pub struct FieldsView {
    pub pubkey: Seq<char>,
    pub weight: Seq<char>,
    pub last_ns: Seq<char>,
}

/// The first three fields of a line, where it has as many.
pub open spec fn fields(line: Seq<char>) -> Option<FieldsView> {
    let a = length_before(line, '\t');
    let second = line.skip(a + 1);
    let b = length_before(second, '\t');
    let third = second.skip(b + 1);
    let c = length_before(third, '\t');
    if a < line.len() && b < second.len() {
        Some(FieldsView { pubkey: line.take(a), weight: second.take(b), last_ns: third.take(c) })
    } else {
        None
    }
}

/// The entry that a line stands for where its weight reads as `weight`.
pub open spec fn entry_of(line: Seq<char>, weight: Option<Double>) -> Option<EntryView> {
    match fields(line) {
        None => None,
        Some(f) => if is_hex(f.pubkey) && weight is Some && decimal_value(f.last_ns) is Some {
            Some(
                EntryView {
                    pubkey: hex_bytes(f.pubkey),
                    weight: weight->0,
                    last_ns: decimal_value(f.last_ns)->0,
                },
            )
        } else {
            None
        },
    }
}

/// Weight and time of each identity of some lines, whose weights read as `weights`. Lines that
/// stand for no entry are passed over; a later entry replaces an earlier one.
pub open spec fn table_of_lines(lines: Seq<Seq<char>>, weights: Seq<Option<Double>>) -> Map<
    Seq<u8>,
    (Double, i64),
>
    decreases lines.len(),
{
    if lines.len() == 0 {
        Map::empty()
    } else {
        let before = table_of_lines(lines.drop_last(), weights);
        match entry_of(lines.last(), weights[lines.len() - 1]) {
            Some(e) => before.insert(e.pubkey, (e.weight, e.last_ns)),
            None => before,
        }
    }
}

/// Whether `read_weight` may read a text as `weight`.
pub open spec fn reads_as<R: Fn(&str) -> Option<Double>>(
    read_weight: R,
    text: Seq<char>,
    weight: Option<Double>,
) -> bool {
    exists|s: &str| s@ == text && #[trigger] call_ensures(read_weight, (s,), weight)
}

/// Whether `read_weight` may read the weights of some lines as `weights`.
pub open spec fn read_weights<R: Fn(&str) -> Option<Double>>(
    read_weight: R,
    lines: Seq<Seq<char>>,
    weights: Seq<Option<Double>>,
) -> bool {
    &&& weights.len() == lines.len()
    &&& forall|i: int|
        0 <= i < lines.len() && fields(lines[i]) is Some ==> reads_as(
            read_weight,
            fields(lines[i])->0.weight,
            #[trigger] weights[i],
        )
}

/// The line of an entry whose weight is written as `weight`.
pub open spec fn line_of(e: EntryView, weight: Seq<char>) -> Seq<char> {
    hex_text(e.pubkey) + seq!['\t'] + weight + seq!['\t'] + decimal_text(e.last_ns)
}

/// The text of some entries whose weights are written as `weights`, line by line.
pub open spec fn text_of_entries(entries: Seq<EntryView>, weights: Seq<Seq<char>>) -> Seq<char>
    decreases entries.len(),
{
    if entries.len() == 0 {
        Seq::empty()
    } else {
        line_of(entries[0], weights[0]) + seq!['\n'] + text_of_entries(
            entries.drop_first(),
            weights.drop_first(),
        )
    }
}

/// Whether `write_weight` may write a weight as `text`.
pub open spec fn writes_as<W: Fn(Double) -> String>(
    write_weight: W,
    weight: Double,
    text: Seq<char>,
) -> bool {
    exists|s: String| s@ == text && #[trigger] call_ensures(write_weight, (weight,), s)
}

/// Whether `write_weight` may write the weights of some entries as `weights`.
pub open spec fn written_weights<W: Fn(Double) -> String>(
    write_weight: W,
    entries: Seq<EntryView>,
    weights: Seq<Seq<char>>,
) -> bool {
    &&& weights.len() == entries.len()
    &&& forall|i: int|
        0 <= i < entries.len() ==> writes_as(
            write_weight,
            entries[i].weight,
            #[trigger] weights[i],
        )
}

struct Fields {
    pubkey: String,
    weight: String,
    last_ns: String,
}

fn split_fields(line: &str) -> (r: Option<Fields>)
    ensures
        r is Some <==> fields(line@) is Some,
        r matches Some(f) ==> {
            &&& f.pubkey@ == fields(line@)->0.pubkey
            &&& f.weight@ == fields(line@)->0.weight
            &&& f.last_ns@ == fields(line@)->0.last_ns
        },
{
    let chars: Vec<char> = chars_of(line);
    assert(chars@.skip(0) =~= chars@);
    let a: usize = find_mark(&chars, 0, '\t');
    if a == chars.len() {
        return None;
    }
    let b: usize = find_mark(&chars, a + 1, '\t');
    if b == chars.len() {
        return None;
    }
    let c: usize = find_mark(&chars, b + 1, '\t');
    proof {
        let second = chars@.skip(a + 1);
        let third = second.skip(b - (a + 1) + 1);
        assert(third =~= chars@.skip(b + 1));
        assert(chars@.subrange(0, a as int) =~= chars@.take(a as int));
        assert(chars@.subrange(a + 1, b as int) =~= second.take(b - (a + 1)));
        assert(chars@.subrange(b + 1, c as int) =~= third.take(c - (b + 1)));
    }
    Some(
        Fields {
            pubkey: text_of(&chars, 0, a),
            weight: text_of(&chars, a + 1, b),
            last_ns: text_of(&chars, b + 1, c),
        },
    )
}

/// Whether a persisted text may be read, with `read_weight`, as a table.
pub open spec fn may_load<R: Fn(&str) -> Option<Double>>(
    read_weight: R,
    text: Seq<char>,
    loaded: Map<Seq<u8>, (Double, i64)>,
) -> bool {
    exists|weights: Seq<Option<Double>>|
        {
            &&& #[trigger] read_weights(read_weight, lines(text), weights)
            &&& loaded == table_of_lines(lines(text), weights)
        }
}

/// Whether entries may be persisted, with `write_weight`, as a text.
pub open spec fn may_save<W: Fn(Double) -> String>(
    write_weight: W,
    entries: Seq<EntryView>,
    text: Seq<char>,
) -> bool {
    exists|weights: Seq<Seq<char>>|
        {
            &&& #[trigger] written_weights(write_weight, entries, weights)
            &&& text == text_of_entries(entries, weights)
        }
}

impl Reputation {
    /// Reads the persisted text (`hex<TAB>weight<TAB>last_ns` per line); empty if missing.
    ///
    /// `read_weight` reads a weight.
    pub fn load<R: Fn(&str) -> Option<Double>>(text: Option<&str>, read_weight: &R) -> (r:
        Reputation)
        requires
            forall|s: &str| call_requires(*read_weight, (s,)),
        ensures
            r.wf(),
            text is None ==> table(r@) == Map::<Seq<u8>, (Double, i64)>::empty(),
            text is Some ==> may_load(*read_weight, text->0@, table(r@)),
    {
        let mut r = Reputation::new();
        let whole: &str = match text {
            Some(whole) => whole,
            None => return r,
        };
        let split: Vec<String> = split_lines(whole);
        let ghost all = lines(whole@);
        let ghost mut weights: Seq<Option<Double>> = Seq::empty();
        let mut i: usize = 0;
        while i < split.len()
            invariant
                r.wf(),
                0 <= i <= split@.len(),
                text_views(split@) == all,
                forall|s: &str| call_requires(*read_weight, (s,)),
                weights.len() == i,
                forall|k: int|
                    0 <= k < i && fields(all[k]) is Some ==> reads_as(
                        *read_weight,
                        fields(all[k])->0.weight,
                        #[trigger] weights[k],
                    ),
                table(r@) == table_of_lines(all.take(i as int), weights),
            decreases split@.len() - i,
        {
            assert(split@[i as int]@ == all[i as int]);
            assert(all.take(i + 1).drop_last() =~= all.take(i as int));
            let ghost before = weights;
            match split_fields(split[i].as_str()) {
                Some(f) => {
                    let weight: Option<Double> = read_weight(f.weight.as_str());
                    proof {
                        assert(reads_as(*read_weight, f.weight@, weight));
                        weights = before.push(weight);
                        lemma_lines_prefix(all.take(i as int), before, weights);
                    }
                    match (hex_decode(f.pubkey.as_str()), weight, parse_decimal(f.last_ns.as_str())) {
                        (Some(pubkey), Some(w), Some(last_ns)) => {
                            r.insert(pubkey, w, last_ns);
                        },
                        _ => {},
                    }
                },
                None => {
                    proof {
                        weights = before.push(None);
                        lemma_lines_prefix(all.take(i as int), before, weights);
                    }
                },
            }
            i = i + 1;
        }
        assert(all.take(i as int) =~= all);
        assert(read_weights(*read_weight, all, weights));
        r
    }

    /// The text to persist.
    ///
    /// `write_weight` writes a weight.
    pub fn save<W: Fn(Double) -> String>(&self, write_weight: &W) -> (text: String)
        requires
            forall|w: Double| call_requires(*write_weight, (w,)),
        ensures
            may_save(*write_weight, self@, text@),
    {
        let mut out: String = String::new();
        let ghost mut weights: Seq<Seq<char>> = Seq::empty();
        let mut i: usize = 0;
        while i < self.weights.len()
            invariant
                0 <= i <= self.weights@.len(),
                forall|w: Double| call_requires(*write_weight, (w,)),
                weights.len() == i,
                forall|k: int|
                    0 <= k < i ==> writes_as(
                        *write_weight,
                        self@[k].weight,
                        #[trigger] weights[k],
                    ),
                out@ == text_of_entries(self@.take(i as int), weights),
            decreases self.weights@.len() - i,
        {
            let e: &Entry = &self.weights[i];
            assert(e@ == self@[i as int]);
            let ghost before = out@;
            let written: String = write_weight(e.weight);
            assert(writes_as(*write_weight, self@[i as int].weight, written@));
            proof {
                lemma_text_grows(self@.take(i as int), weights, self@[i as int], written@);
                weights = weights.push(written@);
            }
            let hex: String = hex_encode(e.pubkey.as_slice());
            let last_ns: String = write_decimal(e.last_ns);
            out.append(hex.as_str());
            out.push('\t');
            out.append(written.as_str());
            out.push('\t');
            out.append(last_ns.as_str());
            out.push('\n');
            assert(out@ =~= before + (line_of(e@, written@) + seq!['\n']));
            assert(self@.take(i + 1) =~= self@.take(i as int).push(e@));
            i = i + 1;
        }
        assert(self@.take(i as int) =~= self@);
        assert(written_weights(*write_weight, self@, weights));
        out
    }
}

proof fn lemma_lines_prefix(lines: Seq<Seq<char>>, a: Seq<Option<Double>>, b: Seq<Option<Double>>)
    requires
        lines.len() <= a.len(),
        lines.len() <= b.len(),
        forall|i: int| 0 <= i < lines.len() ==> a[i] == b[i],
    ensures
        table_of_lines(lines, a) == table_of_lines(lines, b),
    decreases lines.len(),
{
    if lines.len() > 0 {
        lemma_lines_prefix(lines.drop_last(), a, b);
    }
}

proof fn lemma_text_grows(
    entries: Seq<EntryView>,
    weights: Seq<Seq<char>>,
    e: EntryView,
    weight: Seq<char>,
)
    requires
        entries.len() == weights.len(),
    ensures
        text_of_entries(entries.push(e), weights.push(weight)) == text_of_entries(entries, weights)
            + (line_of(e, weight) + seq!['\n']),
    decreases entries.len(),
{
    let more = entries.push(e);
    let more_weights = weights.push(weight);
    if entries.len() == 0 {
        assert(more.drop_first() =~= Seq::empty());
        assert(text_of_entries(more.drop_first(), more_weights.drop_first()) =~= Seq::empty());
        assert(text_of_entries(more, more_weights) =~= text_of_entries(entries, weights) + (line_of(
            e,
            weight,
        ) + seq!['\n']));
    } else {
        lemma_text_grows(entries.drop_first(), weights.drop_first(), e, weight);
        assert(more.drop_first() =~= entries.drop_first().push(e));
        assert(more_weights.drop_first() =~= weights.drop_first().push(weight));
        assert(text_of_entries(more, more_weights) =~= text_of_entries(entries, weights) + (line_of(
            e,
            weight,
        ) + seq!['\n']));
    }
}

/// Whether no weight of a table is above the cap.
pub open spec fn is_capped(table: Map<Seq<u8>, (Double, i64)>) -> bool {
    forall|pubkey: Seq<u8>| #[trigger]
        table.contains_key(pubkey) ==> table[pubkey].0.spec_le(Double { bits: MAX_WEIGHT })
}

/// A new store is within the cap, and rewards, whatever they sum to, keep it there.
pub proof fn rewards_keep_the_cap(
    before: Map<Seq<u8>, (Double, i64)>,
    pubkey: Seq<u8>,
    sum: Double,
    now_ns: i64,
)
    requires
        is_capped(before),
    ensures
        is_capped(Map::empty()),
        is_capped(
            before.insert(pubkey, (sum.spec_at_most(Double { bits: MAX_WEIGHT }), now_ns)),
        ),
{
}

/// A weight that was set holds until time passes, and setting one leaves the others alone.
pub proof fn set_weight_holds<F: Fn(Double, u64) -> Double>(
    before: Map<Seq<u8>, (Double, i64)>,
    pubkey: Seq<u8>,
    other: Seq<u8>,
    set: Double,
    last_ns: i64,
    now_ns: i64,
    fade: F,
    weight: Double,
)
    requires
        now_ns <= last_ns,
    ensures
        weight_may_be(known(before.insert(pubkey, (set, last_ns)), pubkey), now_ns, fade, weight)
            <==> weight == set,
        other != pubkey ==> known(before.insert(pubkey, (set, last_ns)), other) == known(
            before,
            other,
        ),
{
}

/// Whether `fade` leaves one weight only of a weight and a time.
pub open spec fn fades_alike<F: Fn(Double, u64) -> Double>(fade: F) -> bool {
    forall|set: Double, elapsed_ns: u64, a: Double, b: Double| #[trigger]
        call_ensures(fade, (set, elapsed_ns), a) && #[trigger] call_ensures(
            fade,
            (set, elapsed_ns),
            b,
        ) ==> a == b
}

/// Whether `plus` gives one sum only of two weights.
pub open spec fn sums_alike<P: Fn(Double, Double) -> Double>(plus: P) -> bool {
    forall|v: Double, w: Double, a: Double, b: Double| #[trigger]
        call_ensures(plus, (v, w), a) && #[trigger] call_ensures(plus, (v, w), b) ==> a == b
}

/// Right after a reward the weight of the identity is what it was and the reward, capped; every
/// other identity weighs at all times what it did. Where decay and sum are functions of their
/// arguments, this holds of whatever weights are asked for before and after.
pub proof fn reward_adds_to_the_weight<
    F: Fn(Double, u64) -> Double,
    P: Fn(Double, Double) -> Double,
>(
    before: Map<Seq<u8>, (Double, i64)>,
    pubkey: Seq<u8>,
    now_ns: i64,
    fade: F,
    plus: P,
    after: Map<Seq<u8>, (Double, i64)>,
)
    requires
        rewarded(before, pubkey, now_ns, fade, plus, after),
    ensures
        exists|w: Double, sum: Double|
            {
                &&& weight_may_be(known(before, pubkey), now_ns, fade, w)
                &&& #[trigger] call_ensures(plus, (w, (Double { bits: REWARD })), sum)
                &&& forall|x: Double|
                    weight_may_be(known(after, pubkey), now_ns, fade, x) <==> x
                        == sum.spec_at_most(Double { bits: MAX_WEIGHT })
            },
        forall|other: Seq<u8>, t: i64, x: Double|
            other != pubkey ==> (weight_may_be(known(after, other), t, fade, x) <==> weight_may_be(
                known(before, other),
                t,
                fade,
                x,
            )),
        fades_alike(fade) && sums_alike(plus) ==> forall|w: Double, sum: Double, x: Double|
            weight_may_be(known(before, pubkey), now_ns, fade, w) && #[trigger] call_ensures(
                plus,
                (w, (Double { bits: REWARD })),
                sum,
            ) && #[trigger] weight_may_be(known(after, pubkey), now_ns, fade, x) ==> x
                == sum.spec_at_most(Double { bits: MAX_WEIGHT }),
{
    let (w, sum) = choose|w: Double, sum: Double|
        {
            &&& weight_may_be(known(before, pubkey), now_ns, fade, w)
            &&& #[trigger] call_ensures(plus, (w, (Double { bits: REWARD })), sum)
            &&& after == before.insert(
                pubkey,
                (sum.spec_at_most(Double { bits: MAX_WEIGHT }), now_ns),
            )
        };
    assert(call_ensures(plus, (w, (Double { bits: REWARD })), sum));
    assert forall|other: Seq<u8>| other != pubkey implies known(after, other) == known(
        before,
        other,
    ) by {}
}

/// Whether a weight lies between the default and the cap.
pub open spec fn in_range(weight: Double) -> bool {
    (Double { bits: DEFAULT_WEIGHT }).spec_le(weight) && weight.spec_le(
        Double { bits: MAX_WEIGHT },
    )
}

/// Whether what is left of a weight in range lies between the default and that weight.
pub open spec fn fades_to_default<F: Fn(Double, u64) -> Double>(fade: F) -> bool {
    forall|set: Double, elapsed_ns: u64, left: Double| #[trigger]
        call_ensures(fade, (set, elapsed_ns), left) && in_range(set) ==> (Double {
            bits: DEFAULT_WEIGHT,
        }).spec_le(left) && left.spec_le(set)
}

/// Whether a weight in range and the reward never sum up to less than the weight.
pub open spec fn reward_is_a_gain<P: Fn(Double, Double) -> Double>(plus: P) -> bool {
    forall|w: Double, sum: Double| #[trigger]
        call_ensures(plus, (w, (Double { bits: REWARD })), sum) && in_range(w) ==> w.spec_le(sum)
}

/// Whether tables follow each other by rewards, from that of a new store on.
pub open spec fn is_reward_history<F: Fn(Double, u64) -> Double, P: Fn(Double, Double) -> Double>(
    tables: Seq<Map<Seq<u8>, (Double, i64)>>,
    pubkeys: Seq<Seq<u8>>,
    times: Seq<i64>,
    fade: F,
    plus: P,
) -> bool {
    &&& tables.len() > 0
    &&& pubkeys.len() == times.len() == tables.len() - 1
    &&& tables[0] == Map::<Seq<u8>, (Double, i64)>::empty()
    &&& forall|i: int|
        0 <= i < pubkeys.len() ==> rewarded(
            tables[i],
            #[trigger] pubkeys[i],
            times[i],
            fade,
            plus,
            tables[i + 1],
        )
}

/// Over any history of rewards every weight lies, at all times, between the default and the cap,
/// where decay leads toward the default and a reward is a gain.
pub proof fn weights_stay_in_range<F: Fn(Double, u64) -> Double, P: Fn(Double, Double) -> Double>(
    tables: Seq<Map<Seq<u8>, (Double, i64)>>,
    pubkeys: Seq<Seq<u8>>,
    times: Seq<i64>,
    fade: F,
    plus: P,
    i: int,
    pubkey: Seq<u8>,
    now_ns: i64,
    weight: Double,
)
    requires
        is_reward_history(tables, pubkeys, times, fade, plus),
        fades_to_default(fade),
        reward_is_a_gain(plus),
        0 <= i < tables.len(),
        weight_may_be(known(tables[i], pubkey), now_ns, fade, weight),
    ensures
        in_range(weight),
{
    lemma_set_in_range(tables, pubkeys, times, fade, plus, i, pubkey);
}

proof fn lemma_set_in_range<F: Fn(Double, u64) -> Double, P: Fn(Double, Double) -> Double>(
    tables: Seq<Map<Seq<u8>, (Double, i64)>>,
    pubkeys: Seq<Seq<u8>>,
    times: Seq<i64>,
    fade: F,
    plus: P,
    i: int,
    pubkey: Seq<u8>,
)
    requires
        is_reward_history(tables, pubkeys, times, fade, plus),
        fades_to_default(fade),
        reward_is_a_gain(plus),
        0 <= i < tables.len(),
    ensures
        known(tables[i], pubkey) matches Some((set, _)) ==> in_range(set),
    decreases i,
{
    if i > 0 {
        let k = i - 1;
        lemma_set_in_range(tables, pubkeys, times, fade, plus, k, pubkey);
        lemma_set_in_range(tables, pubkeys, times, fade, plus, k, pubkeys[k]);
        assert(rewarded(tables[k], pubkeys[k], times[k], fade, plus, tables[k + 1]));
    }
}

/// Whether a text may stand in a field.
pub open spec fn is_field(text: Seq<char>) -> bool {
    forall|i: int| 0 <= i < text.len() ==> #[trigger] text[i] != '\t' && text[i] != '\n'
}

proof fn lemma_hex_is_field(bytes: Seq<u8>)
    ensures
        is_field(hex_text(bytes)),
{
}

proof fn lemma_decimal_is_field(n: i64)
    ensures
        is_field(decimal_text(n)),
        decimal_text(n).len() > 0,
        decimal_text(n).last() != '\r',
{
    lemma_decimal_characters(n);
}

proof fn lemma_line_fields(e: EntryView, weight: Seq<char>)
    requires
        is_field(weight),
    ensures
        fields(line_of(e, weight)) == Some(
            FieldsView {
                pubkey: hex_text(e.pubkey),
                weight,
                last_ns: decimal_text(e.last_ns),
            },
        ),
{
    let line = line_of(e, weight);
    let hex = hex_text(e.pubkey);
    let last = decimal_text(e.last_ns);
    lemma_hex_is_field(e.pubkey);
    lemma_decimal_is_field(e.last_ns);
    let a = hex.len() as int;
    assert forall|i: int| 0 <= i < a implies #[trigger] line[i] != '\t' by {
        assert(line[i] == hex[i]);
    }
    lemma_length_before_is(line, '\t', a);
    assert(line.take(a) =~= hex);
    let second = line.skip(a + 1);
    assert(second =~= weight + seq!['\t'] + last);
    let b = weight.len() as int;
    assert forall|i: int| 0 <= i < b implies #[trigger] second[i] != '\t' by {
        assert(second[i] == weight[i]);
    }
    lemma_length_before_is(second, '\t', b);
    assert(second.take(b) =~= weight);
    let third = second.skip(b + 1);
    assert(third =~= last);
    lemma_length_before_is(third, '\t', last.len() as int);
    assert(third.take(last.len() as int) =~= last);
}

proof fn lemma_text_lines(entries: Seq<EntryView>, weights: Seq<Seq<char>>)
    requires
        weights.len() == entries.len(),
        forall|i: int| 0 <= i < weights.len() ==> is_field(#[trigger] weights[i]),
    ensures
        lines(text_of_entries(entries, weights)) == Seq::new(
            entries.len(),
            |i: int| line_of(entries[i], weights[i]),
        ),
    decreases entries.len(),
{
    let text = text_of_entries(entries, weights);
    let want = Seq::new(entries.len(), |i: int| line_of(entries[i], weights[i]));
    if entries.len() == 0 {
        assert(lines(text) =~= want);
    } else {
        let rest = entries.drop_first();
        let rest_weights = weights.drop_first();
        assert forall|i: int| 0 <= i < rest_weights.len() implies is_field(
            #[trigger] rest_weights[i],
        ) by {
            assert(rest_weights[i] == weights[i + 1]);
        }
        lemma_text_lines(rest, rest_weights);
        let line = line_of(entries[0], weights[0]);
        let hex = hex_text(entries[0].pubkey);
        let last = decimal_text(entries[0].last_ns);
        let n = line.len() as int;
        lemma_hex_is_field(entries[0].pubkey);
        lemma_decimal_is_field(entries[0].last_ns);
        assert(is_field(weights[0]));
        assert forall|i: int| 0 <= i < n implies #[trigger] text[i] != '\n' by {
            assert(text[i] == line[i]);
            let h = hex.len() as int;
            let w = weights[0].len() as int;
            if i < h {
                assert(line[i] == hex[i]);
            } else if i == h {
            } else if i < h + 1 + w {
                assert(line[i] == weights[0][i - h - 1]);
            } else if i == h + 1 + w {
            } else {
                assert(line[i] == last[i - h - w - 2]);
            }
        }
        assert(text[n] == '\n');
        lemma_length_before_is(text, '\n', n);
        assert(text.take(n) =~= line);
        assert(text.skip(n + 1) =~= text_of_entries(rest, rest_weights));
        assert(line.last() == last.last());
        assert(lines(text) =~= seq![line] + lines(text_of_entries(rest, rest_weights)));
        assert(lines(text) =~= want);
    }
}

proof fn lemma_lines_table(
    entries: Seq<EntryView>,
    texts: Seq<Seq<char>>,
    weights: Seq<Option<Double>>,
)
    requires
        texts.len() == entries.len(),
        weights.len() >= entries.len(),
        forall|i: int| 0 <= i < texts.len() ==> is_field(#[trigger] texts[i]),
        forall|i: int| 0 <= i < entries.len() ==> #[trigger] weights[i] == Some(entries[i].weight),
    ensures
        table_of_lines(Seq::new(entries.len(), |i: int| line_of(entries[i], texts[i])), weights)
            == table(entries),
    decreases entries.len(),
{
    let all = Seq::new(entries.len(), |i: int| line_of(entries[i], texts[i]));
    if entries.len() > 0 {
        let n = entries.len() - 1;
        let fewer = entries.drop_last();
        let fewer_texts = texts.drop_last();
        assert forall|i: int| 0 <= i < fewer_texts.len() implies is_field(
            #[trigger] fewer_texts[i],
        ) by {
            assert(fewer_texts[i] == texts[i]);
        }
        lemma_lines_table(fewer, fewer_texts, weights);
        assert(all.drop_last() =~= Seq::new(
            fewer.len(),
            |i: int| line_of(fewer[i], fewer_texts[i]),
        ));
        assert(is_field(texts[n]));
        lemma_line_fields(entries[n], texts[n]);
        hex_round_trip(entries[n].pubkey);
        decimal_round_trip(entries[n].last_ns);
        assert(weights[n] == Some(entries[n].weight));
    }
}

/// Whether what `write_weight` writes of a weight holds neither tabs nor line feeds, and
/// `read_weight` reads it as that weight.
pub open spec fn reads_back<W: Fn(Double) -> String, R: Fn(&str) -> Option<Double>>(
    write_weight: W,
    read_weight: R,
    weight: Double,
) -> bool {
    &&& forall|text: Seq<char>| #[trigger] writes_as(write_weight, weight, text) ==> is_field(text)
    &&& forall|text: Seq<char>, read: Option<Double>|
        #[trigger] writes_as(write_weight, weight, text) && #[trigger] reads_as(
            read_weight,
            text,
            read,
        ) ==> read == Some(weight)
}

proof fn lemma_round_trip<W: Fn(Double) -> String, R: Fn(&str) -> Option<Double>>(
    write_weight: W,
    read_weight: R,
    entries: Seq<EntryView>,
    texts: Seq<Seq<char>>,
    weights: Seq<Option<Double>>,
)
    requires
        forall|i: int|
            0 <= i < entries.len() ==> reads_back(
                write_weight,
                read_weight,
                (#[trigger] entries[i]).weight,
            ),
        written_weights(write_weight, entries, texts),
        read_weights(read_weight, lines(text_of_entries(entries, texts)), weights),
    ensures
        table_of_lines(lines(text_of_entries(entries, texts)), weights) == table(entries),
{
    assert forall|i: int| 0 <= i < texts.len() implies is_field(#[trigger] texts[i]) by {
        assert(reads_back(write_weight, read_weight, entries[i].weight));
        assert(writes_as(write_weight, entries[i].weight, texts[i]));
    }
    lemma_text_lines(entries, texts);
    let all = lines(text_of_entries(entries, texts));
    assert forall|i: int| 0 <= i < entries.len() implies #[trigger] weights[i] == Some(
        entries[i].weight,
    ) by {
        assert(is_field(texts[i]));
        lemma_line_fields(entries[i], texts[i]);
        assert(all[i] == line_of(entries[i], texts[i]));
        assert(reads_as(read_weight, texts[i], weights[i]));
        assert(reads_back(write_weight, read_weight, entries[i].weight));
        assert(writes_as(write_weight, entries[i].weight, texts[i]));
    }
    lemma_lines_table(entries, texts, weights);
}

/// What was persisted is what is read back: the text of a store, read again, gives its table, and
/// so every identity, at all times, the weight that it had, provided that each weight that the
/// store holds reads back as it was written.
pub proof fn save_load_round_trip<
    W: Fn(Double) -> String,
    R: Fn(&str) -> Option<Double>,
    F: Fn(Double, u64) -> Double,
>(
    write_weight: W,
    read_weight: R,
    fade: F,
    entries: Seq<EntryView>,
    text: Seq<char>,
    loaded: Map<Seq<u8>, (Double, i64)>,
)
    requires
        forall|i: int|
            0 <= i < entries.len() ==> reads_back(
                write_weight,
                read_weight,
                (#[trigger] entries[i]).weight,
            ),
        may_save(write_weight, entries, text),
        may_load(read_weight, text, loaded),
    ensures
        loaded == table(entries),
        forall|pubkey: Seq<u8>, now_ns: i64, weight: Double|
            weight_may_be(known(loaded, pubkey), now_ns, fade, weight) <==> weight_may_be(
                known(table(entries), pubkey),
                now_ns,
                fade,
                weight,
            ),
{
    let texts = choose|texts: Seq<Seq<char>>|
        {
            &&& #[trigger] written_weights(write_weight, entries, texts)
            &&& text == text_of_entries(entries, texts)
        };
    let weights = choose|weights: Seq<Option<Double>>|
        {
            &&& #[trigger] read_weights(read_weight, lines(text), weights)
            &&& loaded == table_of_lines(lines(text), weights)
        };
    lemma_round_trip(write_weight, read_weight, entries, texts, weights);
}

/// The weight of an identity is read off its entry: at any later time, however long after, it is
/// what decay leaves of exactly the weight that was stored after exactly the nanoseconds since
/// then; until then it is the weight that was stored. It is 1 where there is no entry.
pub proof fn weight_is_of_the_entry<F: Fn(Double, u64) -> Double>(
    entries: Seq<EntryView>,
    pubkey: Seq<u8>,
    now_ns: i64,
    fade: F,
    weight: Double,
)
    requires
        forall|i: int, j: int|
            0 <= i < j < entries.len() ==> (#[trigger] entries[i]).pubkey != (
            #[trigger] entries[j]).pubkey,
        weight_may_be(known(table(entries), pubkey), now_ns, fade, weight),
    ensures
        forall|i: int|
            0 <= i < entries.len() && (#[trigger] entries[i]).pubkey == pubkey ==> {
                &&& now_ns > entries[i].last_ns ==> call_ensures(
                    fade,
                    (entries[i].weight, (now_ns - entries[i].last_ns) as u64),
                    weight,
                )
                &&& now_ns <= entries[i].last_ns ==> weight == entries[i].weight
            },
        (forall|i: int| 0 <= i < entries.len() ==> (#[trigger] entries[i]).pubkey != pubkey)
            ==> weight == (Double { bits: 0x3ff0_0000_0000_0000 }),
{
    assert forall|i: int| 0 <= i < entries.len() && (#[trigger] entries[i]).pubkey == pubkey implies {
        &&& now_ns > entries[i].last_ns ==> call_ensures(
            fade,
            (entries[i].weight, (now_ns - entries[i].last_ns) as u64),
            weight,
        )
        &&& now_ns <= entries[i].last_ns ==> weight == entries[i].weight
    } by {
        lemma_table_lookup(entries, i);
    }
    if forall|i: int| 0 <= i < entries.len() ==> (#[trigger] entries[i]).pubkey != pubkey {
        lemma_table_absent(entries, pubkey);
    }
}

proof fn lemma_table_holds_entries(entries: Seq<EntryView>, pubkey: Seq<u8>)
    requires
        table(entries).contains_key(pubkey),
    ensures
        exists|i: int| 0 <= i < entries.len() && (#[trigger] entries[i]).pubkey == pubkey,
{
    if forall|i: int| 0 <= i < entries.len() ==> (#[trigger] entries[i]).pubkey != pubkey {
        lemma_table_absent(entries, pubkey);
    }
}

/// A reward stores the sum of the weight that the identity had then and 0.5, or 5 where that is
/// not less, and the time of the reward; at any later time the weight is what decay leaves of
/// exactly that.
pub proof fn rewards_decay_from_the_capped_sum<
    F: Fn(Double, u64) -> Double,
    P: Fn(Double, Double) -> Double,
>(
    before: Seq<EntryView>,
    after: Seq<EntryView>,
    pubkey: Seq<u8>,
    reward_ns: i64,
    now_ns: i64,
    fade: F,
    plus: P,
    weight: Double,
)
    requires
        is_unique(before),
        is_unique(after),
        rewarded(table(before), pubkey, reward_ns, fade, plus, table(after)),
        weight_may_be(known(table(after), pubkey), now_ns, fade, weight),
    ensures
        exists|had: Double, sum: Double|
            {
                let five = Double { bits: 0x4014_0000_0000_0000 };
                let stored = if sum.spec_lt(five) {
                    sum
                } else {
                    five
                };
                &&& #[trigger] call_ensures(
                    plus,
                    (had, (Double { bits: 0x3fe0_0000_0000_0000 })),
                    sum,
                )
                &&& forall|i: int|
                    0 <= i < before.len() && (#[trigger] before[i]).pubkey == pubkey ==> {
                        &&& reward_ns > before[i].last_ns ==> call_ensures(
                            fade,
                            (before[i].weight, (reward_ns - before[i].last_ns) as u64),
                            had,
                        )
                        &&& reward_ns <= before[i].last_ns ==> had == before[i].weight
                    }
                &&& (forall|i: int|
                    0 <= i < before.len() ==> (#[trigger] before[i]).pubkey != pubkey) ==> had == (
                Double { bits: 0x3ff0_0000_0000_0000 })
                &&& now_ns > reward_ns ==> call_ensures(
                    fade,
                    (stored, (now_ns - reward_ns) as u64),
                    weight,
                )
                &&& now_ns <= reward_ns ==> weight == stored
                &&& exists|i: int|
                    0 <= i < after.len() && #[trigger] after[i] == (EntryView {
                        pubkey,
                        weight: stored,
                        last_ns: reward_ns,
                    })
            },
{
    let (had, sum) = choose|w: Double, sum: Double|
        {
            &&& weight_may_be(known(table(before), pubkey), reward_ns, fade, w)
            &&& #[trigger] call_ensures(plus, (w, (Double { bits: REWARD })), sum)
            &&& table(after) == table(before).insert(
                pubkey,
                (sum.spec_at_most(Double { bits: MAX_WEIGHT }), reward_ns),
            )
        };
    weight_is_of_the_entry(before, pubkey, reward_ns, fade, had);
    assert(table(after).contains_key(pubkey));
    lemma_table_holds_entries(after, pubkey);
    let i = choose|i: int| 0 <= i < after.len() && (#[trigger] after[i]).pubkey == pubkey;
    lemma_table_lookup(after, i);
    assert(call_ensures(plus, (had, (Double { bits: 0x3fe0_0000_0000_0000 })), sum));
    let stored = sum.spec_at_most(Double { bits: MAX_WEIGHT });
    assert(after[i] == (EntryView { pubkey, weight: stored, last_ns: reward_ns }));
}

/// A reward leaves the entries of all other identities as they are.
pub proof fn rewards_leave_other_entries<
    F: Fn(Double, u64) -> Double,
    P: Fn(Double, Double) -> Double,
>(
    before: Seq<EntryView>,
    after: Seq<EntryView>,
    pubkey: Seq<u8>,
    reward_ns: i64,
    fade: F,
    plus: P,
    e: EntryView,
)
    requires
        is_unique(before),
        is_unique(after),
        rewarded(table(before), pubkey, reward_ns, fade, plus, table(after)),
        e.pubkey != pubkey,
    ensures
        before.contains(e) <==> after.contains(e),
{
    let key = e.pubkey;
    assert(known(table(before), key) == known(table(after), key));
    if before.contains(e) {
        let i = choose|i: int| 0 <= i < before.len() && before[i] == e;
        lemma_table_lookup(before, i);
        lemma_table_holds_entries(after, key);
        let j = choose|j: int| 0 <= j < after.len() && (#[trigger] after[j]).pubkey == key;
        lemma_table_lookup(after, j);
        assert(after[j] == e);
    }
    if after.contains(e) {
        let i = choose|i: int| 0 <= i < after.len() && after[i] == e;
        lemma_table_lookup(after, i);
        lemma_table_holds_entries(before, key);
        let j = choose|j: int| 0 <= j < before.len() && (#[trigger] before[j]).pubkey == key;
        lemma_table_lookup(before, j);
        assert(before[j] == e);
    }
}

/// No identity stands twice in a store exactly where no two of its entries have the same key.
pub proof fn unique_entries_have_different_keys(entries: Seq<EntryView>)
    ensures
        is_unique(entries) <==> forall|i: int, j: int|
            0 <= i < entries.len() && 0 <= j < entries.len() && i != j ==> (
            #[trigger] entries[i]).pubkey != (#[trigger] entries[j]).pubkey,
{
}

/// The fields of a line stand between tabs; three are read and more are passed over, while a line
/// with fewer has none.
pub proof fn fields_stand_between_tabs(
    a: Seq<char>,
    b: Seq<char>,
    c: Seq<char>,
    more: Seq<char>,
)
    requires
        forall|i: int| 0 <= i < a.len() ==> #[trigger] a[i] != '\t',
        forall|i: int| 0 <= i < b.len() ==> #[trigger] b[i] != '\t',
        forall|i: int| 0 <= i < c.len() ==> #[trigger] c[i] != '\t',
    ensures
        ({
            let tab = seq!['\t'];
            let three = Some(FieldsView { pubkey: a, weight: b, last_ns: c });
            &&& fields(a + tab + b + tab + c) == three
            &&& fields(a + tab + b + tab + c + tab + more) == three
            &&& fields(a) is None
            &&& fields(a + tab + b) is None
        }),
{
    let tab = seq!['\t'];
    lemma_fields(a, b, c);
    lemma_fields(a, b, c + tab + more);
    assert(a + tab + b + tab + (c + tab + more) =~= a + tab + b + tab + c + tab + more);
    let rest = c + tab + more;
    assert forall|i: int| 0 <= i < c.len() implies #[trigger] rest[i] != '\t' by {
        assert(rest[i] == c[i]);
    }
    lemma_length_before_is(rest, '\t', c.len() as int);
    assert(rest.take(c.len() as int) =~= c);
    lemma_length_before_is(c, '\t', c.len() as int);
    assert(c.take(c.len() as int) =~= c);
    lemma_length_before_is(a, '\t', a.len() as int);
    let two = a + tab + b;
    assert forall|i: int| 0 <= i < a.len() implies #[trigger] two[i] != '\t' by {
        assert(two[i] == a[i]);
    }
    lemma_length_before_is(two, '\t', a.len() as int);
    assert(two.skip(a.len() as int + 1) =~= b);
    lemma_length_before_is(b, '\t', b.len() as int);
}

proof fn lemma_fields(a: Seq<char>, b: Seq<char>, rest: Seq<char>)
    requires
        forall|i: int| 0 <= i < a.len() ==> #[trigger] a[i] != '\t',
        forall|i: int| 0 <= i < b.len() ==> #[trigger] b[i] != '\t',
    ensures
        fields(a + seq!['\t'] + b + seq!['\t'] + rest) == Some(
            FieldsView {
                pubkey: a,
                weight: b,
                last_ns: rest.take(length_before(rest, '\t')),
            },
        ),
{
    let line = a + seq!['\t'] + b + seq!['\t'] + rest;
    assert forall|i: int| 0 <= i < a.len() implies #[trigger] line[i] != '\t' by {
        assert(line[i] == a[i]);
    }
    lemma_length_before_is(line, '\t', a.len() as int);
    assert(line.take(a.len() as int) =~= a);
    let second = line.skip(a.len() as int + 1);
    assert(second =~= b + seq!['\t'] + rest);
    assert forall|i: int| 0 <= i < b.len() implies #[trigger] second[i] != '\t' by {
        assert(second[i] == b[i]);
    }
    lemma_length_before_is(second, '\t', b.len() as int);
    assert(second.take(b.len() as int) =~= b);
    assert(second.skip(b.len() as int + 1) =~= rest);
}

/// A line stands for an entry exactly where it has three fields, the first in hexadecimal, the
/// second a weight and the third a decimal number; the entry holds what they stand for.
pub proof fn lines_stand_for_entries(line: Seq<char>, weight: Option<Double>)
    ensures
        entry_of(line, weight) is Some <==> fields(line) is Some && is_hex(fields(line)->0.pubkey)
            && weight is Some && decimal_value(fields(line)->0.last_ns) is Some,
        entry_of(line, weight) matches Some(e) ==> {
            &&& e.pubkey == hex_bytes(fields(line)->0.pubkey)
            &&& Some(e.weight) == weight
            &&& Some(e.last_ns) == decimal_value(fields(line)->0.last_ns)
        },
{
}

proof fn lemma_last_line_counts(
    all: Seq<Seq<char>>,
    weights: Seq<Option<Double>>,
    pubkey: Seq<u8>,
)
    requires
        all.len() <= weights.len(),
    ensures
        table_of_lines(all, weights).contains_key(pubkey) ==> exists|i: int|
            {
                &&& 0 <= i < all.len()
                &&& stands_for(#[trigger] all[i], weights[i], pubkey)
                &&& forall|j: int| i < j < all.len() ==> !stands_for(#[trigger] all[j], weights[j], pubkey)
                &&& table_of_lines(all, weights)[pubkey] == (
                    entry_of(all[i], weights[i])->0.weight,
                    entry_of(all[i], weights[i])->0.last_ns,
                )
            },
        !table_of_lines(all, weights).contains_key(pubkey) ==> forall|i: int|
            0 <= i < all.len() ==> !stands_for(#[trigger] all[i], weights[i], pubkey),
    decreases all.len(),
{
    if all.len() > 0 {
        let n = all.len() - 1;
        let fewer = all.drop_last();
        lemma_last_line_counts(fewer, weights, pubkey);
        assert(all[n] == all.last());
        if stands_for(all[n], weights[n], pubkey) {
        } else if table_of_lines(fewer, weights).contains_key(pubkey) {
            let i = choose|i: int|
                {
                    &&& 0 <= i < fewer.len()
                    &&& stands_for(#[trigger] fewer[i], weights[i], pubkey)
                    &&& forall|j: int|
                        i < j < fewer.len() ==> !stands_for(#[trigger] fewer[j], weights[j], pubkey)
                    &&& table_of_lines(fewer, weights)[pubkey] == (
                        entry_of(fewer[i], weights[i])->0.weight,
                        entry_of(fewer[i], weights[i])->0.last_ns,
                    )
                };
            assert(all[i] == fewer[i]);
            assert forall|j: int| i < j < all.len() implies !stands_for(
                #[trigger] all[j],
                weights[j],
                pubkey,
            ) by {
                if j < n {
                    assert(fewer[j] == all[j]);
                }
            }
        } else {
            assert forall|i: int| 0 <= i < all.len() implies !stands_for(
                #[trigger] all[i],
                weights[i],
                pubkey,
            ) by {
                if i < n {
                    assert(fewer[i] == all[i]);
                }
            }
        }
    }
}

/// Whether a line stands for an entry of an identity.
pub open spec fn stands_for(line: Seq<char>, weight: Option<Double>, pubkey: Seq<u8>) -> bool {
    entry_of(line, weight) is Some && entry_of(line, weight)->0.pubkey == pubkey
}

/// What is loaded of an identity is what its last line stands for, with the weight that is read of
/// that line's second field; nothing is loaded of an identity without a line.
pub proof fn last_lines_are_loaded<R: Fn(&str) -> Option<Double>>(
    read_weight: R,
    text: Seq<char>,
    loaded: Map<Seq<u8>, (Double, i64)>,
    pubkey: Seq<u8>,
)
    requires
        may_load(read_weight, text, loaded),
    ensures
        exists|weights: Seq<Option<Double>>|
            {
                let all = lines(text);
                &&& #[trigger] read_weights(read_weight, lines(text), weights)
                &&& weights.len() == all.len()
                &&& forall|i: int|
                    0 <= i < all.len() && fields(#[trigger] all[i]) is Some ==> exists|s: &str|
                        {
                            &&& s@ == fields(all[i])->0.weight
                            &&& #[trigger] call_ensures(read_weight, (s,), weights[i])
                        }
                &&& loaded.contains_key(pubkey) <==> exists|i: int|
                    {
                        &&& 0 <= i < all.len()
                        &&& entry_of(#[trigger] all[i], weights[i]) is Some
                        &&& entry_of(all[i], weights[i])->0.pubkey == pubkey
                    }
                &&& forall|i: int|
                    {
                        &&& 0 <= i < all.len()
                        &&& entry_of(#[trigger] all[i], weights[i]) is Some
                        &&& entry_of(all[i], weights[i])->0.pubkey == pubkey
                        &&& forall|j: int|
                            i < j < all.len() ==> !(entry_of(#[trigger] all[j], weights[j]) is Some
                                && entry_of(all[j], weights[j])->0.pubkey == pubkey)
                    } ==> loaded[pubkey] == (
                        entry_of(all[i], weights[i])->0.weight,
                        entry_of(all[i], weights[i])->0.last_ns,
                    )
            },
{
    let weights = choose|weights: Seq<Option<Double>>|
        {
            &&& #[trigger] read_weights(read_weight, lines(text), weights)
            &&& loaded == table_of_lines(lines(text), weights)
        };
    let all = lines(text);
    lemma_last_line_counts(all, weights, pubkey);
    assert(read_weights(read_weight, lines(text), weights));
    assert forall|i: int| 0 <= i < all.len() && fields(#[trigger] all[i]) is Some implies exists|
        s: &str,
    |
        {
            &&& s@ == fields(all[i])->0.weight
            &&& #[trigger] call_ensures(read_weight, (s,), weights[i])
        } by {
        assert(reads_as(read_weight, fields(all[i])->0.weight, weights[i]));
    }
    if loaded.contains_key(pubkey) {
        let k = choose|i: int|
            {
                &&& 0 <= i < all.len()
                &&& stands_for(#[trigger] all[i], weights[i], pubkey)
                &&& forall|j: int| i < j < all.len() ==> !stands_for(#[trigger] all[j], weights[j], pubkey)
                &&& loaded[pubkey] == (
                    entry_of(all[i], weights[i])->0.weight,
                    entry_of(all[i], weights[i])->0.last_ns,
                )
            };
        assert(stands_for(all[k], weights[k], pubkey));
        assert forall|i: int|
            {
                &&& 0 <= i < all.len()
                &&& entry_of(#[trigger] all[i], weights[i]) is Some
                &&& entry_of(all[i], weights[i])->0.pubkey == pubkey
                &&& forall|j: int|
                    i < j < all.len() ==> !(entry_of(#[trigger] all[j], weights[j]) is Some
                        && entry_of(all[j], weights[j])->0.pubkey == pubkey)
            } implies loaded[pubkey] == (
            entry_of(all[i], weights[i])->0.weight,
            entry_of(all[i], weights[i])->0.last_ns,
        ) by {
            assert(stands_for(all[i], weights[i], pubkey));
            if i < k {
                assert(entry_of(all[k], weights[k]) is Some);
            }
            if k < i {
                assert(!stands_for(all[i], weights[i], pubkey));
            }
        }
    }
}

/// A store is persisted entry by entry: the key in hexadecimal, a tab, the weight as it is written,
/// a tab, the time in decimal and a line feed.
pub proof fn entries_are_saved_line_by_line<W: Fn(Double) -> String>(
    write_weight: W,
    entries: Seq<EntryView>,
    text: Seq<char>,
)
    requires
        may_save(write_weight, entries, text),
    ensures
        entries.len() == 0 ==> text.len() == 0,
        entries.len() > 0 ==> exists|weight: String, rest: Seq<char>|
            {
                &&& #[trigger] call_ensures(write_weight, (entries[0].weight,), weight)
                &&& #[trigger] may_save(write_weight, entries.skip(1), rest)
                &&& text == hex_text(entries[0].pubkey) + seq!['\t'] + weight@ + seq!['\t']
                    + decimal_text(entries[0].last_ns) + seq!['\n'] + rest
            },
{
    let texts = choose|texts: Seq<Seq<char>>|
        {
            &&& #[trigger] written_weights(write_weight, entries, texts)
            &&& text == text_of_entries(entries, texts)
        };
    if entries.len() > 0 {
        assert(writes_as(write_weight, entries[0].weight, texts[0]));
        let weight = choose|s: String|
            s@ == texts[0] && #[trigger] call_ensures(write_weight, (entries[0].weight,), s);
        let fewer = entries.skip(1);
        let more = texts.skip(1);
        assert(fewer =~= entries.drop_first());
        assert(more =~= texts.drop_first());
        let rest = text_of_entries(fewer, more);
        assert forall|i: int| 0 <= i < fewer.len() implies writes_as(
            write_weight,
            fewer[i].weight,
            #[trigger] more[i],
        ) by {
            assert(writes_as(write_weight, entries[i + 1].weight, texts[i + 1]));
        }
        assert(written_weights(write_weight, fewer, more));
        assert(may_save(write_weight, entries.skip(1), rest));
        assert(call_ensures(write_weight, (entries[0].weight,), weight));
        assert(text =~= hex_text(entries[0].pubkey) + seq!['\t'] + weight@ + seq!['\t']
            + decimal_text(entries[0].last_ns) + seq!['\n'] + rest);
    }
}

/// A table holds of each identity the last of its entries, and of no other anything.
pub proof fn tables_hold_the_last_entry(entries: Seq<EntryView>, last: EntryView)
    ensures
        table(Seq::empty()) == Map::<Seq<u8>, (Double, i64)>::empty(),
        table(entries.push(last)) == table(entries).insert(
            last.pubkey,
            (last.weight, last.last_ns),
        ),
{
    assert(entries.push(last).drop_last() =~= entries);
}

/// The view of an entry holds what the entry holds.
pub proof fn entries_are_what_they_show(e: Entry)
    ensures
        e@.pubkey == e.pubkey@,
        e@.weight == e.weight,
        e@.last_ns == e.last_ns,
{
}

/// The default weight is 1, the cap 5 and the reward 0.5, counted in the smallest positive double,
/// and the half-life is seven days.
pub proof fn weights_and_half_life()
    ensures
        (Double { bits: DEFAULT_WEIGHT }).value() == pow2(1074),
        (Double { bits: MAX_WEIGHT }).value() == 5 * pow2(1074),
        2 * (Double { bits: REWARD }).value() == pow2(1074),
        HALF_LIFE_NS == 7 * 24 * 3600 * 1_000_000_000,
{
    lemma2_to64_rest();
    lemma_value(Double { bits: DEFAULT_WEIGHT }, 1, 52);
    lemma_value(Double { bits: MAX_WEIGHT }, 5, 50);
    lemma_value(Double { bits: REWARD }, 1, 52);
    lemma_pow2_unfold(1074);
}

} // verus!
