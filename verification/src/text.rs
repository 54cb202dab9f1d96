//! Text in and out: hexadecimal, decimal, lines and fields.

use vstd::prelude::*;

verus! {

/// The characters of a string, one by one.
pub fn chars_of(s: &str) -> (r: Vec<char>)
    ensures
        r@ == s@,
{
    let mut out: Vec<char> = Vec::new();
    for c in it: s.chars()
        invariant
            out@ == it.seq().take(it.index() as int),
            it.seq() == s@,
    {
        out.push(c);
    }
    out
}

/// [`String::push`]: the character becomes the last of the string.
pub assume_specification[ String::push ](s: &mut String, c: char)
    ensures
        final(s)@ == old(s)@.push(c),
;

/// Value of a hexadecimal digit, in either case.
pub open spec fn hex_digit(c: char) -> Option<int> {
    if '0' <= c <= '9' {
        Some(c as int - '0' as int)
    } else if 'a' <= c <= 'f' {
        Some(10 + (c as int - 'a' as int))
    } else if 'A' <= c <= 'F' {
        Some(10 + (c as int - 'A' as int))
    } else {
        None
    }
}

/// Value of two characters read as a number in base 16: two digits, or a plus sign and one digit.
pub open spec fn hex_pair(a: char, b: char) -> Option<int> {
    match (hex_digit(a), hex_digit(b)) {
        (Some(high), Some(low)) => Some(16 * high + low),
        (None, Some(low)) => if a == '+' {
            Some(low)
        } else {
            None
        },
        _ => None,
    }
}

/// Whether a text is a sequence of hexadecimal pairs.
pub open spec fn is_hex(s: Seq<char>) -> bool {
    &&& s.len() % 2 == 0
    &&& forall|i: int|
        0 <= i < s.len() / 2 ==> #[trigger] hex_pair(s[2 * i], s[2 * i + 1]) is Some
}

/// The bytes that a sequence of hexadecimal pairs stands for.
pub open spec fn hex_bytes(s: Seq<char>) -> Seq<u8> {
    Seq::new(s.len() / 2, |i: int| hex_pair(s[2 * i], s[2 * i + 1])->0 as u8)
}

/// The lower-case hexadecimal digit of a value below 16.
pub open spec fn hex_char(v: int) -> char {
    if v < 10 {
        ('0' as int + v) as char
    } else {
        ('a' as int + (v - 10)) as char
    }
}

/// Two lower-case hexadecimal digits per byte.
pub open spec fn hex_text(bytes: Seq<u8>) -> Seq<char> {
    Seq::new(
        2 * bytes.len(),
        |i: int|
            if i % 2 == 0 {
                hex_char(bytes[i / 2] as int / 16)
            } else {
                hex_char(bytes[i / 2] as int % 16)
            },
    )
}

fn hex_value(c: char) -> (r: Option<u32>)
    ensures
        r is Some <==> hex_digit(c) is Some,
        r matches Some(v) ==> v == hex_digit(c)->0 && v < 16,
{
    if '0' <= c && c <= '9' {
        Some(c as u32 - '0' as u32)
    } else if 'a' <= c && c <= 'f' {
        Some(10 + (c as u32 - 'a' as u32))
    } else if 'A' <= c && c <= 'F' {
        Some(10 + (c as u32 - 'A' as u32))
    } else {
        None
    }
}

fn pair_value(a: char, b: char) -> (r: Option<u8>)
    ensures
        r is Some <==> hex_pair(a, b) is Some,
        r matches Some(v) ==> v == hex_pair(a, b)->0,
{
    let low: u32 = match hex_value(b) {
        Some(v) => v,
        None => return None,
    };
    match hex_value(a) {
        Some(high) => Some((16 * high + low) as u8),
        None => if a == '+' {
            Some(low as u8)
        } else {
            None
        },
    }
}

/// Reads pairs of hexadecimal digits as bytes. None where the text holds anything else.
///
/// As with the integer parser of the standard library, a plus sign may stand for a leading zero.
pub fn hex_decode(s: &str) -> (r: Option<Vec<u8>>)
    ensures
        r is Some <==> is_hex(s@),
        r matches Some(bytes) ==> bytes@ == hex_bytes(s@),
{
    let chars: Vec<char> = chars_of(s);
    if chars.len() % 2 != 0 {
        return None;
    }
    let mut out: Vec<u8> = Vec::new();
    let mut i: usize = 0;
    while i < chars.len() / 2
        invariant
            chars@ == s@,
            chars@.len() % 2 == 0,
            0 <= i <= chars@.len() / 2,
            out@.len() == i,
            forall|k: int|
                0 <= k < i ==> {
                    &&& #[trigger] hex_pair(s@[2 * k], s@[2 * k + 1]) is Some
                    &&& out@[k] == hex_pair(s@[2 * k], s@[2 * k + 1])->0
                },
        decreases chars@.len() / 2 - i,
    {
        match pair_value(chars[2 * i], chars[2 * i + 1]) {
            Some(b) => {
                out.push(b);
            },
            None => {
                assert(hex_pair(s@[2 * i], s@[2 * i + 1]) is None);
                return None;
            },
        }
        i = i + 1;
    }
    assert(out@ =~= hex_bytes(s@)) by {
        assert forall|k: int| 0 <= k < out@.len() implies out@[k] == hex_bytes(s@)[k] by {
            assert(hex_pair(s@[2 * k], s@[2 * k + 1]) is Some);
        }
    }
    Some(out)
}

/// Whether a text holds hexadecimal digits alone.
pub open spec fn is_digits(s: Seq<char>) -> bool {
    forall|i: int| 0 <= i < s.len() ==> hex_digit(#[trigger] s[i]) is Some
}

/// Whether a text holds hexadecimal digits alone.
pub fn holds_digits(s: &str) -> (r: bool)
    ensures
        r == is_digits(s@),
{
    let chars: Vec<char> = chars_of(s);
    let mut i: usize = 0;
    while i < chars.len()
        invariant
            chars@ == s@,
            0 <= i <= chars@.len(),
            forall|k: int| 0 <= k < i ==> hex_digit(#[trigger] s@[k]) is Some,
        decreases chars@.len() - i,
    {
        if hex_value(chars[i]).is_none() {
            assert(hex_digit(s@[i as int]) is None);
            return false;
        }
        i = i + 1;
    }
    true
}

/// An even number of hexadecimal digits is a sequence of pairs.
pub proof fn digits_are_hex(s: Seq<char>)
    requires
        is_digits(s),
        s.len() % 2 == 0,
    ensures
        is_hex(s),
{
    assert forall|i: int| 0 <= i < s.len() / 2 implies #[trigger] hex_pair(
        s[2 * i],
        s[2 * i + 1],
    ) is Some by {
        assert(hex_digit(s[2 * i]) is Some && hex_digit(s[2 * i + 1]) is Some);
    }
}

fn digit_char(v: u8) -> (c: char)
    requires
        v < 16,
    ensures
        c == hex_char(v as int),
{
    if v < 10 {
        (48 + v) as char
    } else {
        (97 + (v - 10)) as char
    }
}

/// Writes bytes as lower-case hexadecimal digits.
pub fn hex_encode(bytes: &[u8]) -> (r: String)
    ensures
        r@ == hex_text(bytes@),
{
    let mut out: String = String::new();
    let mut i: usize = 0;
    while i < bytes.len()
        invariant
            0 <= i <= bytes@.len(),
            out@ == hex_text(bytes@.take(i as int)),
        decreases bytes@.len() - i,
    {
        let b: u8 = bytes[i];
        out.push(digit_char(b / 16));
        out.push(digit_char(b % 16));
        i = i + 1;
        assert(out@ =~= hex_text(bytes@.take(i as int)));
    }
    assert(bytes@.take(i as int) =~= bytes@);
    out
}

/// Hexadecimal text reads back as the bytes it was written from.
pub proof fn hex_round_trip(bytes: Seq<u8>)
    ensures
        is_hex(hex_text(bytes)),
        is_digits(hex_text(bytes)),
        hex_bytes(hex_text(bytes)) == bytes,
{
    let s = hex_text(bytes);
    assert forall|i: int| 0 <= i < s.len() implies hex_digit(#[trigger] s[i]) is Some by {
        assert(0 <= bytes[i / 2] as int / 16 < 16 && 0 <= bytes[i / 2] as int % 16 < 16);
    }
    assert forall|i: int| 0 <= i < s.len() / 2 implies #[trigger] hex_pair(s[2 * i], s[2 * i + 1])
        == Some(bytes[i] as int) by {
        assert((2 * i) / 2 == i && (2 * i + 1) / 2 == i);
        assert(s[2 * i] == hex_char(bytes[i] as int / 16));
        assert(s[2 * i + 1] == hex_char(bytes[i] as int % 16));
    }
    assert(hex_bytes(s) =~= bytes) by {
        assert forall|i: int| 0 <= i < bytes.len() implies hex_bytes(s)[i] == bytes[i] by {
            assert(hex_pair(s[2 * i], s[2 * i + 1]) == Some(bytes[i] as int));
        }
    }
}

/// Number of characters before the first `mark`, or of all where there is none.
pub open spec fn length_before(s: Seq<char>, mark: char) -> int
    decreases s.len(),
{
    if s.len() == 0 || s[0] == mark {
        0
    } else {
        1 + length_before(s.drop_first(), mark)
    }
}

proof fn lemma_length_before(s: Seq<char>, mark: char)
    ensures
        0 <= length_before(s, mark) <= s.len(),
        length_before(s, mark) < s.len() ==> s[length_before(s, mark)] == mark,
        forall|i: int| 0 <= i < length_before(s, mark) ==> #[trigger] s[i] != mark,
    decreases s.len(),
{
    if s.len() > 0 && s[0] != mark {
        let t = s.drop_first();
        lemma_length_before(t, mark);
        assert forall|i: int| 0 <= i < length_before(s, mark) implies #[trigger] s[i] != mark by {
            if i > 0 {
                assert(t[i - 1] == s[i]);
            }
        }
    }
}

/// The length before a mark is where the first one stands, or the end.
pub(crate) proof fn lemma_length_before_is(s: Seq<char>, mark: char, n: int)
    requires
        0 <= n <= s.len(),
        n < s.len() ==> s[n] == mark,
        forall|i: int| 0 <= i < n ==> #[trigger] s[i] != mark,
    ensures
        length_before(s, mark) == n,
{
    lemma_length_before(s, mark);
}

/// Part of a slice of characters as a string.
pub(crate) fn text_of(chars: &Vec<char>, from: usize, to: usize) -> (r: String)
    requires
        from <= to <= chars@.len(),
    ensures
        r@ == chars@.subrange(from as int, to as int),
{
    let mut out: String = String::new();
    let mut i: usize = from;
    while i < to
        invariant
            from <= i <= to <= chars@.len(),
            out@ == chars@.subrange(from as int, i as int),
        decreases to - i,
    {
        out.push(chars[i]);
        i = i + 1;
        assert(out@ =~= chars@.subrange(from as int, i as int));
    }
    out
}

/// A line without the carriage return before its line feed.
pub open spec fn without_return(line: Seq<char>) -> Seq<char> {
    if line.len() > 0 && line.last() == '\r' {
        line.drop_last()
    } else {
        line
    }
}

/// The lines of a text. A line ends at a line feed, with or without a carriage return before it;
/// the last may end with the text.
pub open spec fn lines(s: Seq<char>) -> Seq<Seq<char>>
    decreases s.len(),
{
    let n = length_before(s, '\n');
    if s.len() == 0 {
        Seq::empty()
    } else if n < 0 || n >= s.len() {
        seq![s]
    } else {
        seq![without_return(s.take(n))] + lines(s.skip(n + 1))
    }
}

/// Position of the first `mark` from `from` on, or the end.
pub(crate) fn find_mark(chars: &Vec<char>, from: usize, mark: char) -> (r: usize)
    requires
        from <= chars@.len(),
    ensures
        from <= r <= chars@.len(),
        r - from == length_before(chars@.skip(from as int), mark),
{
    let mut i: usize = from;
    while i < chars.len() && chars[i] != mark
        invariant
            from <= i <= chars@.len(),
            forall|k: int| from <= k < i ==> #[trigger] chars@[k] != mark,
        decreases chars@.len() - i,
    {
        i = i + 1;
    }
    proof {
        let rest = chars@.skip(from as int);
        assert forall|k: int| 0 <= k < i - from implies #[trigger] rest[k] != mark by {
            assert(rest[k] == chars@[from + k]);
        }
        lemma_length_before_is(rest, mark, i - from);
    }
    i
}

/// The lines of several texts.
pub open spec fn text_views(v: Seq<String>) -> Seq<Seq<char>> {
    v.map_values(|s: String| s@)
}

/// Splits a text into its lines.
pub fn split_lines(s: &str) -> (r: Vec<String>)
    ensures
        text_views(r@) == lines(s@),
{
    let chars: Vec<char> = chars_of(s);
    let mut out: Vec<String> = Vec::new();
    let mut start: usize = 0;
    assert(text_views(out@) + lines(chars@.skip(0)) =~= lines(chars@)) by {
        assert(chars@.skip(0) =~= chars@);
    }
    while start < chars.len()
        invariant
            start <= chars@.len(),
            text_views(out@) + lines(chars@.skip(start as int)) == lines(chars@),
        decreases chars@.len() - start,
    {
        let ghost rest = chars@.skip(start as int);
        let ghost before = out@;
        let end: usize = find_mark(&chars, start, '\n');
        if end == chars.len() {
            let line: String = text_of(&chars, start, end);
            assert(line@ =~= rest);
            out.push(line);
            assert(lines(rest) =~= seq![rest]);
            assert(text_views(out@) =~= text_views(before) + seq![rest]);
            start = end;
            assert(chars@.skip(start as int) =~= Seq::empty());
            assert(text_views(out@) + lines(chars@.skip(start as int)) =~= text_views(out@));
        } else {
            let last: usize = if end > start && chars[end - 1] == '\r' {
                end - 1
            } else {
                end
            };
            let line: String = text_of(&chars, start, last);
            proof {
                let n = end - start;
                assert(n == length_before(rest, '\n'));
                assert(line@ =~= without_return(rest.take(n)));
                assert(rest.skip(n + 1) =~= chars@.skip(end + 1));
            }
            out.push(line);
            assert(text_views(out@) =~= text_views(before) + seq![line@]);
            assert(text_views(out@) + lines(chars@.skip(end + 1)) =~= text_views(before) + lines(
                rest,
            ));
            start = end + 1;
        }
    }
    assert(chars@.skip(start as int) =~= Seq::empty());
    assert(text_views(out@) + lines(chars@.skip(start as int)) =~= text_views(out@));
    out
}

/// Value of a decimal digit.
pub open spec fn is_digit(c: char) -> bool {
    '0' <= c <= '9'
}

/// The number that decimal digits stand for.
pub open spec fn digits_value(s: Seq<char>) -> int
    decreases s.len(),
{
    if s.len() == 0 {
        0
    } else {
        10 * digits_value(s.drop_last()) + (s.last() as int - '0' as int)
    }
}

pub open spec fn all_digits(s: Seq<char>) -> bool {
    forall|i: int| 0 <= i < s.len() ==> is_digit(#[trigger] s[i])
}

/// The signed 64-bit number that a text stands for: digits after an optional sign.
pub open spec fn decimal_value(s: Seq<char>) -> Option<i64> {
    let signed = s.len() > 0 && (s[0] == '-' || s[0] == '+');
    let digits = if signed {
        s.skip(1)
    } else {
        s
    };
    let n = if signed && s[0] == '-' {
        -digits_value(digits)
    } else {
        digits_value(digits)
    };
    if digits.len() > 0 && all_digits(digits) && i64::MIN <= n <= i64::MAX {
        Some(n as i64)
    } else {
        None
    }
}

proof fn lemma_digits_grow(s: Seq<char>, i: int)
    requires
        all_digits(s),
        0 <= i <= s.len(),
    ensures
        0 <= digits_value(s.take(i)) <= digits_value(s),
    decreases s.len(),
{
    if i == s.len() {
        assert(s.take(i) =~= s);
        if s.len() > 0 {
            let t = s.drop_last();
            assert(t.take(t.len() as int) =~= t);
            assert forall|k: int| 0 <= k < t.len() implies is_digit(#[trigger] t[k]) by {
                assert(t[k] == s[k]);
            }
            lemma_digits_grow(t, t.len() as int);
            assert(is_digit(s[s.len() - 1]));
        }
    } else {
        let t = s.drop_last();
        assert forall|k: int| 0 <= k < t.len() implies is_digit(#[trigger] t[k]) by {
            assert(t[k] == s[k]);
        }
        lemma_digits_grow(t, i);
        assert(t.take(i) =~= s.take(i));
        assert(is_digit(s[s.len() - 1]));
    }
}

/// Reads a signed 64-bit number in decimal.
pub fn parse_decimal(s: &str) -> (r: Option<i64>)
    ensures
        r == decimal_value(s@),
{
    let chars: Vec<char> = chars_of(s);
    let signed: bool = chars.len() > 0 && (chars[0] == '-' || chars[0] == '+');
    let negative: bool = signed && chars[0] == '-';
    let first: usize = if signed {
        1
    } else {
        0
    };
    let ghost digits = chars@.skip(first as int);
    assert(!signed ==> digits =~= chars@);
    if first == chars.len() {
        return None;
    }
    let mut value: u64 = 0;
    let mut i: usize = first;
    while i < chars.len()
        invariant
            chars@ == s@,
            first <= i <= chars@.len(),
            first <= 1,
            first < chars@.len(),
            signed == (s@.len() > 0 && (s@[0] == '-' || s@[0] == '+')),
            negative == (signed && s@[0] == '-'),
            first == (if signed {
                1int
            } else {
                0
            }),
            digits == chars@.skip(first as int),
            !signed ==> digits == s@,
            forall|k: int| 0 <= k < i - first ==> is_digit(#[trigger] digits[k]),
            value == digits_value(digits.take(i - first)),
            value <= 0x8000_0000_0000_0000,
        decreases chars@.len() - i,
    {
        let c: char = chars[i];
        assert(digits[i - first] == c);
        if c < '0' || '9' < c {
            assert(!is_digit(digits[i - first]));
            return None;
        }
        let digit: u64 = (c as u32 - '0' as u32) as u64;
        let grown: u128 = value as u128 * 10 + digit as u128;
        assert(digits.take(i + 1 - first).drop_last() =~= digits.take(i - first));
        if grown > 0x8000_0000_0000_0000 {
            proof {
                if all_digits(digits) {
                    lemma_digits_grow(digits, i + 1 - first);
                }
            }
            return None;
        }
        value = grown as u64;
        i = i + 1;
    }
    assert(digits.take(i - first) =~= digits);
    if negative {
        Some((-(value as i128)) as i64)
    } else if value <= 0x7fff_ffff_ffff_ffff {
        Some(value as i64)
    } else {
        None
    }
}

/// The decimal digits of a number, without leading zeros.
pub open spec fn digits_text(n: nat) -> Seq<char>
    decreases n,
{
    let last = ('0' as int + n % 10) as char;
    if n < 10 {
        seq![last]
    } else {
        digits_text(n / 10).push(last)
    }
}

/// A number in decimal, with a minus sign where it is negative.
pub open spec fn decimal_text(n: i64) -> Seq<char> {
    if n < 0 {
        seq!['-'] + digits_text((-n) as nat)
    } else {
        digits_text(n as nat)
    }
}

fn push_digits(out: &mut String, n: u64)
    ensures
        final(out)@ == old(out)@ + digits_text(n as nat),
    decreases n,
{
    let ghost before = out@;
    if n >= 10 {
        push_digits(out, n / 10);
    }
    out.push((48 + (n % 10) as u8) as char);
    assert(out@ =~= before + digits_text(n as nat));
}

/// Writes a signed 64-bit number in decimal.
pub fn write_decimal(n: i64) -> (r: String)
    ensures
        r@ == decimal_text(n),
{
    let mut out: String = String::new();
    if n < 0 {
        out.push('-');
        push_digits(&mut out, (-(n as i128)) as u64);
        assert(out@ =~= decimal_text(n));
    } else {
        push_digits(&mut out, n as u64);
        assert(out@ =~= decimal_text(n));
    }
    out
}

proof fn lemma_digits_round_trip(n: nat)
    ensures
        digits_text(n).len() > 0,
        all_digits(digits_text(n)),
        digits_value(digits_text(n)) == n,
    decreases n,
{
    let s = digits_text(n);
    if n >= 10 {
        lemma_digits_round_trip(n / 10);
        assert(s.drop_last() =~= digits_text(n / 10));
        assert forall|i: int| 0 <= i < s.len() implies is_digit(#[trigger] s[i]) by {
            if i < s.len() - 1 {
                assert(s[i] == digits_text(n / 10)[i]);
            }
        }
    } else {
        assert(s.drop_last() =~= Seq::empty());
        assert(digits_value(Seq::<char>::empty()) == 0);
    }
}

/// A number in decimal holds digits and a minus sign, and ends in a digit.
pub(crate) proof fn lemma_decimal_characters(n: i64)
    ensures
        decimal_text(n).len() > 0,
        is_digit(decimal_text(n).last()),
        forall|i: int|
            0 <= i < decimal_text(n).len() ==> is_digit(#[trigger] decimal_text(n)[i])
                || decimal_text(n)[i] == '-',
{
    let digits = if n < 0 {
        digits_text((-n) as nat)
    } else {
        digits_text(n as nat)
    };
    lemma_digits_round_trip(
        if n < 0 {
            (-n) as nat
        } else {
            n as nat
        },
    );
    assert(is_digit(digits[digits.len() - 1]));
    let s = decimal_text(n);
    assert forall|i: int| 0 <= i < s.len() implies is_digit(#[trigger] s[i]) || s[i] == '-' by {
        if n < 0 && i > 0 {
            assert(s[i] == digits[i - 1]);
        }
    }
}

/// A number written in decimal reads back as itself.
pub proof fn decimal_round_trip(n: i64)
    ensures
        decimal_value(decimal_text(n)) == Some(n),
{
    if n < 0 {
        lemma_digits_round_trip((-n) as nat);
        assert(decimal_text(n).skip(1) =~= digits_text((-n) as nat));
    } else {
        lemma_digits_round_trip(n as nat);
        assert(is_digit(digits_text(n as nat)[0]));
    }
}

/// The hexadecimal digits in order, in either case: the character at position `i` has value `i`,
/// and no other character has a value.
pub proof fn hex_alphabet(c: char)
    ensures
        ({
            let lower = "0123456789abcdef"@;
            let upper = "0123456789ABCDEF"@;
            &&& hex_digit(c) matches Some(v) ==> 0 <= v < 16 && (lower[v] == c || upper[v] == c)
            &&& hex_digit(c) is None ==> !lower.contains(c) && !upper.contains(c)
        }),
{
    reveal_strlit("0123456789abcdef");
    reveal_strlit("0123456789ABCDEF");
}

/// A text reads as bytes exactly where its characters pair off, the second of each pair a digit and
/// the first a digit or a plus sign; each pair gives sixteen times its first digit and its second.
pub proof fn pairs_spell_bytes(s: Seq<char>)
    ensures
        is_hex(s) <==> s.len() % 2 == 0 && forall|i: int|
            0 <= i < s.len() ==> (hex_digit(#[trigger] s[i]) is Some || (i % 2 == 0 && s[i]
                == '+')),
        is_hex(s) ==> {
            &&& 2 * hex_bytes(s).len() == s.len()
            &&& forall|i: int|
                0 <= i < hex_bytes(s).len() ==> #[trigger] hex_bytes(s)[i] == 16 * (if s[2 * i]
                    == '+' {
                    0
                } else {
                    hex_digit(s[2 * i])->0
                }) + hex_digit(s[2 * i + 1])->0
        },
        is_digits(s) <==> forall|i: int| 0 <= i < s.len() ==> hex_digit(#[trigger] s[i]) is Some,
{
    if is_hex(s) {
        assert forall|i: int| 0 <= i < s.len() implies (hex_digit(#[trigger] s[i]) is Some || (i % 2
            == 0 && s[i] == '+')) by {
            let k = i / 2;
            assert(hex_pair(s[2 * k], s[2 * k + 1]) is Some);
            assert(i == 2 * k || i == 2 * k + 1);
        }
        assert forall|i: int| 0 <= i < hex_bytes(s).len() implies #[trigger] hex_bytes(s)[i] == 16 * (
        if s[2 * i] == '+' {
            0
        } else {
            hex_digit(s[2 * i])->0
        }) + hex_digit(s[2 * i + 1])->0 by {
            assert(hex_pair(s[2 * i], s[2 * i + 1]) is Some);
        }
    }
    if s.len() % 2 == 0 && forall|i: int|
        0 <= i < s.len() ==> (hex_digit(#[trigger] s[i]) is Some || (i % 2 == 0 && s[i] == '+')) {
        assert forall|i: int| 0 <= i < s.len() / 2 implies #[trigger] hex_pair(
            s[2 * i],
            s[2 * i + 1],
        ) is Some by {
            assert(hex_digit(s[2 * i]) is Some || s[2 * i] == '+');
            assert(hex_digit(s[2 * i + 1]) is Some || ((2 * i + 1) % 2 == 0 && s[2 * i + 1] == '+'));
        }
    }
}

/// Bytes are written as two lower-case digits each, the high one first.
pub proof fn bytes_are_written_in_lower_case(bytes: Seq<u8>, i: int)
    requires
        0 <= i < bytes.len(),
    ensures
        hex_text(bytes).len() == 2 * bytes.len(),
        hex_text(bytes)[2 * i] == "0123456789abcdef"@[bytes[i] as int / 16],
        hex_text(bytes)[2 * i + 1] == "0123456789abcdef"@[bytes[i] as int % 16],
{
    reveal_strlit("0123456789abcdef");
    assert((2 * i) / 2 == i && (2 * i + 1) / 2 == i && (2 * i) % 2 == 0 && (2 * i + 1) % 2 == 1);
    assert(0 <= bytes[i] as int / 16 < 16 && 0 <= bytes[i] as int % 16 < 16);
}

/// A text has no lines where it is empty, is one line where it holds no line feed, and else begins
/// with the line before its first line feed, without a carriage return at its end, followed by the
/// lines of what comes after.
pub proof fn lines_end_at_line_feeds(line: Seq<char>, rest: Seq<char>)
    requires
        forall|i: int| 0 <= i < line.len() ==> #[trigger] line[i] != '\n',
    ensures
        lines(Seq::empty()) == Seq::<Seq<char>>::empty(),
        line.len() > 0 ==> lines(line) == seq![line],
        line.len() == 0 || line.last() != '\r' ==> lines(line + seq!['\n'] + rest) == seq![line]
            + lines(rest),
        line.len() > 0 && line.last() == '\r' ==> lines(line + seq!['\n'] + rest)
            == seq![line.drop_last()] + lines(rest),
{
    let text = line + seq!['\n'] + rest;
    let n = line.len() as int;
    lemma_length_before_is(line, '\n', n);
    assert forall|i: int| 0 <= i < n implies #[trigger] text[i] != '\n' by {
        assert(text[i] == line[i]);
    }
    assert(text[n] == '\n');
    lemma_length_before_is(text, '\n', n);
    assert(text.take(n) =~= line);
    assert(text.skip(n + 1) =~= rest);
}

proof fn lemma_digits_push(s: Seq<char>, c: char)
    ensures
        digits_value(s.push(c)) == 10 * digits_value(s) + (c as int - '0' as int),
        all_digits(s.push(c)) <==> all_digits(s) && is_digit(c),
{
    let more = s.push(c);
    assert(more.drop_last() =~= s);
    if all_digits(more) {
        assert forall|i: int| 0 <= i < s.len() implies is_digit(#[trigger] s[i]) by {
            assert(is_digit(more[i]));
        }
        assert(is_digit(more[s.len() as int]));
    }
}

proof fn lemma_digits_positive(s: Seq<char>)
    requires
        all_digits(s),
    ensures
        digits_value(s) >= 0,
{
    lemma_digits_grow(s, 0);
}

/// One more decimal digit makes ten times the number and the digit, away from zero, as far as a
/// signed 64-bit number can hold it; a single digit is its own number, and a plus sign before
/// digits changes nothing.
pub proof fn digits_spell_numbers(s: Seq<char>, c: char)
    requires
        '0' <= c <= '9',
    ensures
        decimal_value(seq![c]) == Some((c as int - '0' as int) as i64),
        decimal_value(seq!['-', c]) == Some((-(c as int - '0' as int)) as i64),
        ({
            let v = decimal_value(s)->0;
            let digit = c as int - '0' as int;
            &&& decimal_value(s) is Some && s[0] != '-' ==> decimal_value(s.push(c)) == if 10 * v
                + digit <= i64::MAX {
                Some((10 * v + digit) as i64)
            } else {
                None
            }
            &&& decimal_value(s) is Some && s[0] == '-' ==> decimal_value(s.push(c)) == if 10 * v
                - digit >= i64::MIN {
                Some((10 * v - digit) as i64)
            } else {
                None
            }
        }),
        s.len() > 0 && '0' <= s[0] <= '9' ==> decimal_value(seq!['+'] + s) == decimal_value(s),
{
    let empty = Seq::<char>::empty();
    lemma_digits_push(empty, c);
    assert(empty.push(c) =~= seq![c]);
    assert(digits_value(empty) == 0);
    assert(seq!['-', c].skip(1) =~= seq![c]);
    if s.len() > 0 {
        let signed = s[0] == '-' || s[0] == '+';
        let digits = if signed {
            s.skip(1)
        } else {
            s
        };
        lemma_digits_push(digits, c);
        assert(s.push(c)[0] == s[0]);
        assert(signed ==> s.push(c).skip(1) =~= digits.push(c));
        if all_digits(digits) {
            lemma_digits_positive(digits);
        }
        if '0' <= s[0] <= '9' {
            assert((seq!['+'] + s).skip(1) =~= s);
        }
    }
}

/// A text reads as a number only where it holds digits after at most one sign, and at least one
/// digit; where it does so but stands for too large a number, no longer text reads as one.
pub proof fn only_digits_spell_numbers(s: Seq<char>, c: char)
    ensures
        decimal_value(s) is Some ==> {
            &&& s.len() > 0
            &&& '0' <= s.last() <= '9'
            &&& forall|i: int|
                0 <= i < s.len() ==> '0' <= #[trigger] s[i] <= '9' || (i == 0 && (s[0] == '-'
                    || s[0] == '+'))
        },
        decimal_value(s) is None && s.len() > 0 && '0' <= s.last() <= '9' ==> decimal_value(s.push(c))
            is None,
{
    if s.len() > 0 {
        let signed = s[0] == '-' || s[0] == '+';
        let digits = if signed {
            s.skip(1)
        } else {
            s
        };
        if decimal_value(s) is Some {
            assert forall|i: int| 0 <= i < s.len() implies '0' <= #[trigger] s[i] <= '9' || (i == 0
                && (s[0] == '-' || s[0] == '+')) by {
                if signed && i > 0 {
                    assert(digits[i - 1] == s[i]);
                    assert(is_digit(digits[i - 1]));
                } else if !signed {
                    assert(is_digit(digits[i]));
                }
            }
            assert(is_digit(digits[digits.len() - 1]));
        } else if '0' <= s.last() <= '9' {
            lemma_digits_push(digits, c);
            assert(s.push(c)[0] == s[0]);
            assert(signed ==> s.push(c).skip(1) =~= digits.push(c));
            if all_digits(digits) {
                lemma_digits_positive(digits);
            }
        }
    }
}

/// A number is written with a minus sign exactly where it is negative, then with digits alone, of
/// which the first is not 0 unless it is the only one. It reads back as itself.
pub proof fn numbers_are_written_plainly(n: i64)
    ensures
        ({
            let text = decimal_text(n);
            let digits = if n < 0 {
                text.skip(1)
            } else {
                text
            };
            &&& decimal_value(text) == Some(n)
            &&& n < 0 ==> text[0] == '-'
            &&& digits.len() > 0
            &&& forall|i: int| 0 <= i < digits.len() ==> '0' <= #[trigger] digits[i] <= '9'
            &&& digits[0] == '0' ==> n == 0 && digits.len() == 1
        }),
{
    decimal_round_trip(n);
    let size: nat = if n < 0 {
        (-n) as nat
    } else {
        n as nat
    };
    lemma_digits_round_trip(size);
    lemma_no_leading_zero(size);
    if n < 0 {
        assert(decimal_text(n).skip(1) =~= digits_text(size));
    }
    assert forall|i: int| 0 <= i < digits_text(size).len() implies '0' <= #[trigger] digits_text(
        size,
    )[i] <= '9' by {
        assert(is_digit(digits_text(size)[i]));
    }
}

proof fn lemma_no_leading_zero(n: nat)
    ensures
        digits_text(n).len() > 0,
        digits_text(n)[0] == '0' ==> n == 0 && digits_text(n).len() == 1,
    decreases n,
{
    if n >= 10 {
        lemma_no_leading_zero(n / 10);
        assert(digits_text(n)[0] == digits_text(n / 10)[0]);
    }
}

} // verus!
