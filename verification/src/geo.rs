//! Geohash decoding for consensus correlation.
//!
//! A geohash names a cell of the globe by halving longitude and latitude in
//! turn. A cell is kept here as the two sequences of halves that were chosen;
//! its centre in degrees follows from them by bisection.

use vstd::arithmetic::power2::*;
use vstd::prelude::*;

use crate::double::Double;
use crate::text::chars_of;

verus! {

/// Value of a geohash character: its position in
/// `0123456789bcdefghjkmnpqrstuvwxyz`, the digits and letters without `a`, `i`, `l`, `o`.
pub open spec fn base32_value(c: char) -> Option<int> {
    if '0' <= c <= '9' {
        Some(c as int - '0' as int)
    } else if 'b' <= c <= 'h' {
        Some(10 + (c as int - 'b' as int))
    } else if 'j' <= c <= 'k' {
        Some(17 + (c as int - 'j' as int))
    } else if 'm' <= c <= 'n' {
        Some(19 + (c as int - 'm' as int))
    } else if 'p' <= c <= 'z' {
        Some(21 + (c as int - 'p' as int))
    } else {
        None
    }
}

/// Whether every character belongs to the geohash alphabet.
pub open spec fn is_geohash(s: Seq<char>) -> bool {
    forall|i: int| 0 <= i < s.len() ==> base32_value(#[trigger] s[i]) is Some
}

/// Place value of bit `j` of a character, the highest bit first.
pub open spec fn place(j: int) -> int {
    if j == 0 {
        16
    } else if j == 1 {
        8
    } else if j == 2 {
        4
    } else if j == 3 {
        2
    } else {
        1
    }
}

/// Bit `k` of a geohash, which holds five bits to a character.
pub open spec fn geohash_bit(s: Seq<char>, k: int) -> bool {
    (base32_value(s[k / 5])->0 / place(k % 5)) % 2 == 1
}

/// The halves chosen on each axis, from the coarsest on: true is north or east.
#[verifier::ext_equal]
pub struct CellView {
    pub lat: Seq<bool>,
    pub lon: Seq<bool>,
}

/// The cell a geohash names: its bits in turn halve longitude and latitude.
pub open spec fn cell_of(s: Seq<char>) -> CellView {
    CellView {
        lat: Seq::new((5 * s.len() / 2) as nat, |i: int| geohash_bit(s, 2 * i + 1)),
        lon: Seq::new(((5 * s.len() + 1) / 2) as nat, |i: int| geohash_bit(s, 2 * i)),
    }
}

/// A geohash cell.
#[derive(Debug)]
pub struct GeoCell {
    pub lat: Vec<bool>,
    pub lon: Vec<bool>,
}

impl View for GeoCell {
    type V = CellView;

    open spec fn view(&self) -> CellView {
        CellView { lat: self.lat@, lon: self.lon@ }
    }
}

fn base32_digit(c: char) -> (r: Option<u32>)
    ensures
        r is Some <==> base32_value(c) is Some,
        r matches Some(v) ==> v == base32_value(c)->0 && v < 32,
{
    if '0' <= c && c <= '9' {
        Some(c as u32 - '0' as u32)
    } else if 'b' <= c && c <= 'h' {
        Some(10 + (c as u32 - 'b' as u32))
    } else if 'j' <= c && c <= 'k' {
        Some(17 + (c as u32 - 'j' as u32))
    } else if 'm' <= c && c <= 'n' {
        Some(19 + (c as u32 - 'm' as u32))
    } else if 'p' <= c && c <= 'z' {
        Some(21 + (c as u32 - 'p' as u32))
    } else {
        None
    }
}

/// Decodes a geohash to its cell. Returns None on an invalid character.
pub fn decode_geohash(geohash: &str) -> (r: Option<GeoCell>)
    ensures
        r is Some <==> is_geohash(geohash@),
        r matches Some(cell) ==> cell@ == cell_of(geohash@),
{
    let ghost s = geohash@;
    let chars: Vec<char> = chars_of(geohash);
    let mut cell = GeoCell { lat: Vec::new(), lon: Vec::new() };
    let mut even: bool = true;
    let mut i: usize = 0;
    while i < chars.len()
        invariant
            0 <= i <= chars@.len(),
            s == geohash@,
            chars@ == s,
            forall|m: int| 0 <= m < i ==> base32_value(#[trigger] s[m]) is Some,
            even == ((5 * i) % 2 == 0),
            cell.lon@.len() == (5 * i + 1) / 2,
            cell.lat@.len() == 5 * i / 2,
            forall|m: int| 0 <= m < cell.lon@.len() ==> #[trigger] cell.lon@[m] == geohash_bit(s, 2 * m),
            forall|m: int| 0 <= m < cell.lat@.len() ==> #[trigger] cell.lat@[m] == geohash_bit(s, 2 * m + 1),
        decreases chars@.len() - i,
    {
        let digit: u32 = match base32_digit(chars[i]) {
            Some(d) => d,
            None => {
                assert(base32_value(s[i as int]) is None);
                return None;
            },
        };
        let mut weight: u32 = 16;
        let mut j: usize = 0;
        while j < 5
            invariant
                0 <= j <= 5,
                0 <= i < s.len(),
                digit < 32,
                base32_value(s[i as int]) == Some(digit as int),
                j < 5 ==> weight == place(j as int),
                weight >= 1,
                even == ((5 * i + j) % 2 == 0),
                cell.lon@.len() == (5 * i + j + 1) / 2,
                cell.lat@.len() == (5 * i + j) / 2,
                forall|m: int| 0 <= m < cell.lon@.len() ==> #[trigger] cell.lon@[m] == geohash_bit(s, 2 * m),
                forall|m: int| 0 <= m < cell.lat@.len() ==> #[trigger] cell.lat@[m] == geohash_bit(s, 2 * m + 1),
            decreases 5 - j,
        {
            let set: bool = (digit / weight) % 2 == 1;
            assert((5 * i + j) / 5 == i && (5 * i + j) % 5 == j as int);
            assert(set == geohash_bit(s, 5 * i + j));
            if even {
                cell.lon.push(set);
            } else {
                cell.lat.push(set);
            }
            even = !even;
            if j < 4 {
                weight = weight / 2;
            }
            j = j + 1;
        }
        i = i + 1;
    }
    assert(cell@ =~= cell_of(s));
    Some(cell)
}

/// Southern end of the latitudes in degrees, as the bit pattern of the double -90.
pub const SOUTH: u64 = 0xc056_8000_0000_0000;

/// Northern end of the latitudes in degrees, as the bit pattern of the double 90.
pub const NORTH: u64 = 0x4056_8000_0000_0000;

/// Western end of the longitudes in degrees, as the bit pattern of the double -180.
pub const WEST: u64 = 0xc066_8000_0000_0000;

/// Eastern end of the longitudes in degrees, as the bit pattern of the double 180.
pub const EAST: u64 = 0x4066_8000_0000_0000;

/// Whether `mids` are middles that `midpoint` may give when the range from `low` to `high` is
/// halved as `bits` tell, the last of them that of the part which is left.
pub open spec fn halved<M: Fn(Double, Double) -> Double>(
    midpoint: M,
    low: Double,
    high: Double,
    bits: Seq<bool>,
    mids: Seq<Double>,
) -> bool
    decreases bits.len(),
{
    &&& mids.len() == bits.len() + 1
    &&& call_ensures(midpoint, (low, high), mids[0])
    &&& bits.len() > 0 ==> if bits[0] {
        halved(midpoint, mids[0], high, bits.drop_first(), mids.drop_first())
    } else {
        halved(midpoint, low, mids[0], bits.drop_first(), mids.drop_first())
    }
}

/// Whether `centre` may be the middle of the part of a range that `bits` choose.
pub open spec fn is_middle<M: Fn(Double, Double) -> Double>(
    midpoint: M,
    low: Double,
    high: Double,
    bits: Seq<bool>,
    centre: Double,
) -> bool {
    exists|mids: Seq<Double>| #[trigger]
        halved(midpoint, low, high, bits, mids) && mids.last() == centre
}

proof fn lemma_middle_unfolds<M: Fn(Double, Double) -> Double>(
    midpoint: M,
    low: Double,
    high: Double,
    bits: Seq<bool>,
    mid: Double,
    centre: Double,
)
    requires
        bits.len() > 0,
        call_ensures(midpoint, (low, high), mid),
        is_middle(
            midpoint,
            if bits[0] {
                mid
            } else {
                low
            },
            if bits[0] {
                high
            } else {
                mid
            },
            bits.drop_first(),
            centre,
        ),
    ensures
        is_middle(midpoint, low, high, bits, centre),
{
    let next_low = if bits[0] {
        mid
    } else {
        low
    };
    let next_high = if bits[0] {
        high
    } else {
        mid
    };
    let rest = choose|mids: Seq<Double>| #[trigger]
        halved(midpoint, next_low, next_high, bits.drop_first(), mids) && mids.last() == centre;
    let mids = seq![mid] + rest;
    assert(mids.drop_first() =~= rest);
    assert(mids.last() == centre);
    assert(halved(midpoint, low, high, bits, mids));
}

/// Halves a range as `bits` tell and gives the middle of the part which is left.
fn middle<M: Fn(Double, Double) -> Double>(
    midpoint: &M,
    low: Double,
    high: Double,
    bits: &Vec<bool>,
) -> (centre: Double)
    requires
        forall|a: Double, b: Double| call_requires(*midpoint, (a, b)),
    ensures
        is_middle(*midpoint, low, high, bits@, centre),
{
    let mut lo: Double = low;
    let mut hi: Double = high;
    let mut i: usize = 0;
    assert(bits@.skip(0) =~= bits@);
    while i < bits.len()
        invariant
            0 <= i <= bits@.len(),
            forall|a: Double, b: Double| call_requires(*midpoint, (a, b)),
            forall|c: Double|
                #[trigger] is_middle(*midpoint, lo, hi, bits@.skip(i as int), c) ==> is_middle(
                    *midpoint,
                    low,
                    high,
                    bits@,
                    c,
                ),
        decreases bits@.len() - i,
    {
        let ghost rest = bits@.skip(i as int);
        let ghost from = lo;
        let ghost to = hi;
        let mid: Double = midpoint(lo, hi);
        if bits[i] {
            lo = mid;
        } else {
            hi = mid;
        }
        i = i + 1;
        proof {
            assert(rest.drop_first() =~= bits@.skip(i as int));
            assert forall|c: Double| #[trigger]
                is_middle(*midpoint, lo, hi, bits@.skip(i as int), c) implies is_middle(
                *midpoint,
                low,
                high,
                bits@,
                c,
            ) by {
                lemma_middle_unfolds(*midpoint, from, to, rest, mid, c);
            }
        }
    }
    let centre: Double = midpoint(lo, hi);
    assert(halved(*midpoint, lo, hi, bits@.skip(i as int), seq![centre]));
    assert(seq![centre].last() == centre);
    assert(is_middle(*midpoint, lo, hi, bits@.skip(i as int), centre));
    centre
}

impl GeoCell {
    /// Centre of the cell: latitude and longitude in degrees.
    ///
    /// `midpoint` gives half the sum of two numbers.
    pub fn centre<M: Fn(Double, Double) -> Double>(&self, midpoint: &M) -> (c: (Double, Double))
        requires
            forall|a: Double, b: Double| call_requires(*midpoint, (a, b)),
        ensures
            is_middle(
                *midpoint,
                Double { bits: SOUTH },
                Double { bits: NORTH },
                self@.lat,
                c.0,
            ),
            is_middle(*midpoint, Double { bits: WEST }, Double { bits: EAST }, self@.lon, c.1),
    {
        let lat: Double = middle(
            midpoint,
            Double { bits: SOUTH },
            Double { bits: NORTH },
            &self.lat,
        );
        let lon: Double = middle(
            midpoint,
            Double { bits: WEST },
            Double { bits: EAST },
            &self.lon,
        );
        (lat, lon)
    }
}

/// The geohash alphabet in order: the character at position `i` has value `i`, and no other
/// character has a value.
pub proof fn base32_alphabet(c: char)
    ensures
        ({
            let alphabet = "0123456789bcdefghjkmnpqrstuvwxyz"@;
            &&& alphabet.len() == 32
            &&& base32_value(c) is Some ==> 0 <= base32_value(c)->0 < 32 && alphabet[base32_value(c)->0]
                == c
            &&& base32_value(c) is None ==> !alphabet.contains(c)
        }),
{
    reveal_strlit("0123456789bcdefghjkmnpqrstuvwxyz");
}

/// Number of the chosen part when a range is cut into two to the `bits.len()` equal parts.
pub open spec fn part(bits: Seq<bool>) -> nat
    decreases bits.len(),
{
    if bits.len() == 0 {
        0
    } else {
        2 * part(bits.drop_last()) + if bits.last() {
            1nat
        } else {
            0nat
        }
    }
}

/// Whether each middle is exactly half the sum of the ends that it lies between.
pub open spec fn middles_are_exact(
    low: Double,
    high: Double,
    bits: Seq<bool>,
    mids: Seq<Double>,
) -> bool
    decreases bits.len(),
{
    &&& 2 * mids[0].value() == low.value() + high.value()
    &&& bits.len() > 0 ==> if bits[0] {
        middles_are_exact(mids[0], high, bits.drop_first(), mids.drop_first())
    } else {
        middles_are_exact(low, mids[0], bits.drop_first(), mids.drop_first())
    }
}

proof fn lemma_part_from_front(bits: Seq<bool>)
    requires
        bits.len() > 0,
    ensures
        part(bits) == part(bits.drop_first()) + if bits[0] {
            pow2((bits.len() - 1) as nat)
        } else {
            0
        },
    decreases bits.len(),
{
    lemma2_to64();
    if bits.len() == 1 {
        assert(bits.drop_last() =~= Seq::empty());
        assert(bits.drop_first() =~= Seq::empty());
        assert(part(Seq::<bool>::empty()) == 0);
    } else {
        let shorter = bits.drop_last();
        lemma_part_from_front(shorter);
        assert(shorter.drop_first() =~= bits.drop_first().drop_last());
        lemma_pow2_unfold((bits.len() - 1) as nat);
    }
}

/// As long as halving is exact, it ends at the middle of the chosen part: of the two to the
/// `bits.len()` equal parts of the range, number `part(bits)`.
pub proof fn halving_ends_in_the_middle<M: Fn(Double, Double) -> Double>(
    midpoint: M,
    low: Double,
    high: Double,
    bits: Seq<bool>,
    mids: Seq<Double>,
)
    requires
        halved(midpoint, low, high, bits, mids),
        middles_are_exact(low, high, bits, mids),
    ensures
        (mids.last().value() - low.value()) * pow2(bits.len() + 1) == (2 * part(bits) + 1) * (
        high.value() - low.value()),
    decreases bits.len(),
{
    let l = low.value();
    let h = high.value();
    let m = mids[0].value();
    let c = mids.last().value();
    lemma_pow2_unfold(bits.len() + 1);
    if bits.len() == 0 {
        lemma2_to64();
        assert((c - l) * 2 == h - l);
        assert((c - l) * pow2(1) == (2 * part(bits) + 1) * (h - l)) by (nonlinear_arith)
            requires
                pow2(1) == 2,
                part(bits) == 0,
                (c - l) * 2 == h - l,
        ;
    } else {
        let rest = bits.drop_first();
        let next = mids.drop_first();
        assert(next.last() == mids.last());
        lemma_part_from_front(bits);
        lemma_pow2_unfold(bits.len());
        let k = pow2((bits.len() - 1) as nat) as int;
        let p = part(rest) as int;
        let q = pow2(bits.len()) as int;
        assert(q == 2 * k);
        if bits[0] {
            halving_ends_in_the_middle(midpoint, mids[0], high, rest, next);
            assert((c - l) * (2 * q) == (2 * (p + k) + 1) * (h - l)) by (nonlinear_arith)
                requires
                    (c - m) * q == (2 * p + 1) * (h - m),
                    2 * m == l + h,
                    q == 2 * k,
            ;
        } else {
            halving_ends_in_the_middle(midpoint, low, mids[0], rest, next);
            assert((c - l) * (2 * q) == (2 * p + 1) * (h - l)) by (nonlinear_arith)
                requires
                    (c - l) * q == (2 * p + 1) * (m - l),
                    2 * m == l + h,
            ;
        }
    }
}

/// Whether the part chosen by `inner` lies within the part chosen by `outer`.
pub open spec fn part_covers(outer: Seq<bool>, inner: Seq<bool>) -> bool {
    &&& part(outer) * pow2(inner.len()) <= part(inner) * pow2(outer.len())
    &&& (part(inner) + 1) * pow2(outer.len()) <= (part(outer) + 1) * pow2(inner.len())
}

/// Whether one cell lies within another.
pub open spec fn cell_covers(outer: CellView, inner: CellView) -> bool {
    part_covers(outer.lat, inner.lat) && part_covers(outer.lon, inner.lon)
}

proof fn lemma_prefix_covers(outer: Seq<bool>, inner: Seq<bool>)
    requires
        outer.len() <= inner.len(),
        outer == inner.take(outer.len() as int),
    ensures
        part_covers(outer, inner),
    decreases inner.len(),
{
    if outer.len() == inner.len() {
        assert(outer =~= inner);
    } else {
        let shorter = inner.drop_last();
        assert(outer =~= shorter.take(outer.len() as int));
        lemma_prefix_covers(outer, shorter);
        lemma_pow2_unfold(inner.len());
        let a = part(outer) as int;
        let b = part(shorter) as int;
        let c = part(inner) as int;
        let p = pow2(shorter.len()) as int;
        let q = pow2(outer.len()) as int;
        assert(pow2(inner.len()) == 2 * p);
        assert(a * (2 * p) <= c * q && (c + 1) * q <= (a + 1) * (2 * p)) by (nonlinear_arith)
            requires
                a * p <= b * q,
                (b + 1) * q <= (a + 1) * p,
                c == 2 * b || c == 2 * b + 1,
                q >= 0,
        ;
    }
}

/// Characters added to a geohash narrow its cell.
pub proof fn longer_geohash_is_within(s: Seq<char>, more: Seq<char>)
    requires
        is_geohash(s + more),
    ensures
        cell_covers(cell_of(s), cell_of(s + more)),
{
    let a = cell_of(s);
    let b = cell_of(s + more);
    assert forall|k: int| 0 <= k < 5 * s.len() implies geohash_bit(s, k) == geohash_bit(s + more, k) by {
        assert(0 <= k / 5 < s.len());
    }
    assert(a.lat =~= b.lat.take(a.lat.len() as int));
    assert(a.lon =~= b.lon.take(a.lon.len() as int));
    lemma_prefix_covers(a.lat, b.lat);
    lemma_prefix_covers(a.lon, b.lon);
}

proof fn lemma_five_bits(x: int, y: int)
    requires
        0 <= x < 32,
        0 <= y < 32,
        forall|j: int| 0 <= j < 5 ==> (x / #[trigger] place(j)) % 2 == (y / place(j)) % 2,
    ensures
        x == y,
{
    assert((x / place(0)) % 2 == (y / place(0)) % 2);
    assert((x / place(1)) % 2 == (y / place(1)) % 2);
    assert((x / place(2)) % 2 == (y / place(2)) % 2);
    assert((x / place(3)) % 2 == (y / place(3)) % 2);
    assert((x / place(4)) % 2 == (y / place(4)) % 2);
}

/// Different geohashes name different cells.
pub proof fn cell_names_are_unique(s: Seq<char>, t: Seq<char>)
    requires
        is_geohash(s),
        is_geohash(t),
        cell_of(s) == cell_of(t),
    ensures
        s == t,
{
    let a = cell_of(s);
    let b = cell_of(t);
    assert(a.lat.len() + a.lon.len() == 5 * s.len());
    assert(b.lat.len() + b.lon.len() == 5 * t.len());
    assert forall|k: int| 0 <= k < 5 * s.len() implies geohash_bit(s, k) == geohash_bit(t, k) by {
        if k % 2 == 0 {
            assert(a.lon[k / 2] == b.lon[k / 2]);
            assert(2 * (k / 2) == k);
        } else {
            assert(a.lat[k / 2] == b.lat[k / 2]);
            assert(2 * (k / 2) + 1 == k);
        }
    }
    assert forall|i: int| 0 <= i < s.len() implies s[i] == t[i] by {
        let x = base32_value(s[i])->0;
        let y = base32_value(t[i])->0;
        assert forall|j: int| 0 <= j < 5 implies (x / #[trigger] place(j)) % 2 == (y / place(j)) % 2 by {
            assert((5 * i + j) / 5 == i && (5 * i + j) % 5 == j);
            assert(geohash_bit(s, 5 * i + j) == geohash_bit(t, 5 * i + j));
            assert((x / place(j)) % 2 == 0 || (x / place(j)) % 2 == 1);
            assert((y / place(j)) % 2 == 0 || (y / place(j)) % 2 == 1);
        }
        lemma_five_bits(x, y);
    }
    assert(s =~= t);
}

/// A text is a geohash exactly where each of its characters belongs to the alphabet.
pub proof fn geohashes_are_of_the_alphabet(s: Seq<char>)
    ensures
        is_geohash(s) <==> forall|i: int|
            0 <= i < s.len() ==> "0123456789bcdefghjkmnpqrstuvwxyz"@.contains(#[trigger] s[i]),
{
    let alphabet = "0123456789bcdefghjkmnpqrstuvwxyz"@;
    assert forall|i: int| 0 <= i < s.len() implies (base32_value(#[trigger] s[i]) is Some
        <==> alphabet.contains(s[i])) by {
        base32_alphabet(s[i]);
        if base32_value(s[i]) is Some {
            assert(alphabet[base32_value(s[i])->0] == s[i]);
        }
    }
    if is_geohash(s) {
        assert forall|i: int| 0 <= i < s.len() implies alphabet.contains(#[trigger] s[i]) by {
            assert(base32_value(s[i]) is Some);
        }
    }
    if forall|i: int| 0 <= i < s.len() ==> alphabet.contains(#[trigger] s[i]) {
        assert forall|i: int| 0 <= i < s.len() implies base32_value(#[trigger] s[i]) is Some by {
            assert(alphabet.contains(s[i]));
        }
    }
}

proof fn lemma_five_bits_sum(x: int)
    requires
        0 <= x < 32,
    ensures
        x == 16 * ((x / 16) % 2) + 8 * ((x / 8) % 2) + 4 * ((x / 4) % 2) + 2 * ((x / 2) % 2) + x % 2,
{
}

/// Every character of a geohash adds five bits to the cell, in turn to longitude and latitude: the
/// binary digits, highest first, of its position in the alphabet.
pub proof fn characters_spell_the_cell(s: Seq<char>, i: int)
    requires
        is_geohash(s),
        0 <= i < s.len(),
    ensures
        ({
            let c = cell_of(s);
            let bit = |k: int|
                if (if k % 2 == 0 {
                    c.lon[k / 2]
                } else {
                    c.lat[k / 2]
                }) {
                    1int
                } else {
                    0int
                };
            let position = 16 * bit(5 * i) + 8 * bit(5 * i + 1) + 4 * bit(5 * i + 2) + 2 * bit(
                5 * i + 3,
            ) + bit(5 * i + 4);
            &&& c.lon.len() + c.lat.len() == 5 * s.len()
            &&& c.lat.len() <= c.lon.len() <= c.lat.len() + 1
            &&& 0 <= position < 32
            &&& "0123456789bcdefghjkmnpqrstuvwxyz"@[position] == s[i]
        }),
{
    let c = cell_of(s);
    let x = base32_value(s[i])->0;
    base32_alphabet(s[i]);
    assert(base32_value(s[i]) is Some);
    assert forall|j: int| 0 <= j < 5 implies #[trigger] geohash_bit(s, 5 * i + j) == ((x / place(j))
        % 2 == 1) by {
        assert((5 * i + j) / 5 == i && (5 * i + j) % 5 == j);
    }
    assert(geohash_bit(s, 5 * i + 0) == ((x / 16) % 2 == 1));
    assert(geohash_bit(s, 5 * i + 1) == ((x / 8) % 2 == 1));
    assert(geohash_bit(s, 5 * i + 2) == ((x / 4) % 2 == 1));
    assert(geohash_bit(s, 5 * i + 3) == ((x / 2) % 2 == 1));
    assert(geohash_bit(s, 5 * i + 4) == ((x / 1) % 2 == 1));
    assert forall|k: int| 0 <= k < 5 * s.len() implies #[trigger] geohash_bit(s, k) == if k % 2
        == 0 {
        c.lon[k / 2]
    } else {
        c.lat[k / 2]
    } by {
        if k % 2 == 0 {
            assert(2 * (k / 2) == k);
        } else {
            assert(2 * (k / 2) + 1 == k);
        }
    }
    lemma_five_bits_sum(x);
}

/// Halving goes by the first bit, then by the rest within the half chosen: the upper one where the
/// bit is set. With no bit left, the middle is that of the range.
pub proof fn halving_goes_bit_by_bit<M: Fn(Double, Double) -> Double>(
    midpoint: M,
    low: Double,
    high: Double,
    bits: Seq<bool>,
    centre: Double,
)
    ensures
        bits.len() == 0 ==> (is_middle(midpoint, low, high, bits, centre) <==> call_ensures(
            midpoint,
            (low, high),
            centre,
        )),
        bits.len() > 0 ==> (is_middle(midpoint, low, high, bits, centre) <==> exists|mid: Double|
            {
                &&& #[trigger] call_ensures(midpoint, (low, high), mid)
                &&& bits[0] ==> is_middle(midpoint, mid, high, bits.skip(1), centre)
                &&& !bits[0] ==> is_middle(midpoint, low, mid, bits.skip(1), centre)
            }),
{
    if bits.len() == 0 {
        if is_middle(midpoint, low, high, bits, centre) {
            let mids = choose|mids: Seq<Double>| #[trigger]
                halved(midpoint, low, high, bits, mids) && mids.last() == centre;
            assert(mids.last() == mids[0]);
        }
        if call_ensures(midpoint, (low, high), centre) {
            assert(halved(midpoint, low, high, bits, seq![centre]));
            assert(seq![centre].last() == centre);
        }
    } else {
        assert(bits.skip(1) =~= bits.drop_first());
        if is_middle(midpoint, low, high, bits, centre) {
            let mids = choose|mids: Seq<Double>| #[trigger]
                halved(midpoint, low, high, bits, mids) && mids.last() == centre;
            let rest = mids.drop_first();
            assert(rest.last() == centre);
            assert(call_ensures(midpoint, (low, high), mids[0]));
            if bits[0] {
                assert(halved(midpoint, mids[0], high, bits.skip(1), rest));
            } else {
                assert(halved(midpoint, low, mids[0], bits.skip(1), rest));
            }
        }
        if exists|mid: Double|
            {
                &&& #[trigger] call_ensures(midpoint, (low, high), mid)
                &&& bits[0] ==> is_middle(midpoint, mid, high, bits.skip(1), centre)
                &&& !bits[0] ==> is_middle(midpoint, low, mid, bits.skip(1), centre)
            } {
            let mid = choose|mid: Double|
                {
                    &&& #[trigger] call_ensures(midpoint, (low, high), mid)
                    &&& bits[0] ==> is_middle(midpoint, mid, high, bits.skip(1), centre)
                    &&& !bits[0] ==> is_middle(midpoint, low, mid, bits.skip(1), centre)
                };
            lemma_middle_unfolds(midpoint, low, high, bits, mid, centre);
        }
    }
}

/// Each bit doubles the number of the part and adds itself.
pub proof fn parts_double(bits: Seq<bool>, last: bool)
    ensures
        part(Seq::empty()) == 0,
        part(bits.push(last)) == 2 * part(bits) + if last {
            1nat
        } else {
            0nat
        },
{
    assert(bits.push(last).drop_last() =~= bits);
}

/// The ranges that are halved are the degrees of the globe: latitudes from -90 to 90, longitudes
/// from -180 to 180.
pub proof fn ranges_are_those_of_the_globe()
    ensures
        (Double { bits: SOUTH }).value() == -90 * pow2(1074),
        (Double { bits: NORTH }).value() == 90 * pow2(1074),
        (Double { bits: WEST }).value() == -180 * pow2(1074),
        (Double { bits: EAST }).value() == 180 * pow2(1074),
{
    lemma2_to64_rest();
    lemma_pow2_adds(46, 1028);
    lemma_pow2_adds(45, 1029);
    let a = pow2(1028) as int;
    let b = pow2(1029) as int;
    let k: int = 0x10_0000_0000_0000;
    assert(NORTH as int / k == 1029 && k + NORTH as int % k == 90 * 0x4000_0000_0000);
    assert(EAST as int / k == 1030 && k + EAST as int % k == 180 * 0x2000_0000_0000);
    assert((90 * 0x4000_0000_0000) * a == 90 * (0x4000_0000_0000 * a)) by (nonlinear_arith);
    assert((180 * 0x2000_0000_0000) * b == 180 * (0x2000_0000_0000 * b)) by (nonlinear_arith);
}

/// The view of a cell holds what the cell holds.
pub proof fn cells_are_what_they_show(c: GeoCell)
    ensures
        c@.lat == c.lat@,
        c@.lon == c.lon@,
{
}

/// A cell holds five bits for each character of its geohash, the odd one for longitude.
pub proof fn cells_hold_five_bits_a_character(s: Seq<char>)
    ensures
        cell_of(s).lon.len() + cell_of(s).lat.len() == 5 * s.len(),
        cell_of(s).lat.len() <= cell_of(s).lon.len() <= cell_of(s).lat.len() + 1,
{
}

} // verus!
