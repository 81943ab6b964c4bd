//! Nanosecond timestamps and half-open intervals.

use crate::decimal::{
    b_all_digits, b_digit_val, b_digits_val, b_is_digit, dec_int, dec_nat, lemma_b_digits_bound,
    lemma_b_digits_prefix_bound, lemma_b_digits_split, pow10, u64_dec_string,
};
use vstd::prelude::*;
use vstd::string::StringSliceAdditionalSpecFns;

verus! {

/// A point in time, counted in nanoseconds.
#[derive(Debug, Copy, Clone, PartialEq, Eq, PartialOrd, Ord, Default, Structural)]
pub struct Timestamp(pub i64);

#[derive(Debug, Copy, Clone, PartialEq, Eq, PartialOrd, Ord, Structural)]
pub enum TimestampParseError {
    InvalidValue,
    NoUnit,
    InvalidUnit,
}

/// A half-open span of time `[start, stop)`.
#[derive(Debug, Copy, Clone, PartialEq, Eq, PartialOrd, Ord, Default, Structural)]
pub struct Interval {
    pub start: Timestamp,
    pub stop: Timestamp,
}

impl Interval {
    /// Length of the interval in nanoseconds; negative when `stop < start`.
    pub open spec fn spec_duration(self) -> int {
        self.stop.0 - self.start.0
    }

    /// The documented interval invariant.
    pub open spec fn spec_wf(self) -> bool {
        self.start.0 <= self.stop.0
    }

    pub open spec fn spec_empty(self) -> bool {
        self.start.0 == self.stop.0
    }

    pub open spec fn spec_contains(self, point: Timestamp) -> bool {
        self.start.0 <= point.0 && point.0 < self.stop.0
    }

    /// Two intervals overlap when they share at least one point: the
    /// largest start lies strictly before the smallest stop.  An empty
    /// interval shares no point with anything, itself included.
    pub open spec fn spec_overlaps(self, other: Interval) -> bool {
        max_i64(self.start.0, other.start.0) < min_i64(self.stop.0, other.stop.0)
    }

    pub open spec fn spec_intersection(self, other: Interval) -> Interval {
        Interval {
            start: Timestamp(max_i64(self.start.0, other.start.0)),
            stop: Timestamp(min_i64(self.stop.0, other.stop.0)),
        }
    }

    pub open spec fn spec_union(self, other: Interval) -> Interval {
        Interval {
            start: Timestamp(min_i64(self.start.0, other.start.0)),
            stop: Timestamp(max_i64(self.stop.0, other.stop.0)),
        }
    }

    pub open spec fn spec_grow(self, n: int) -> Interval
        recommends
            i64::MIN <= self.start.0 - n <= i64::MAX,
            i64::MIN <= self.stop.0 + n <= i64::MAX,
    {
        Interval { start: Timestamp((self.start.0 - n) as i64), stop: Timestamp((self.stop.0 + n) as i64) }
    }

    pub open spec fn spec_translate(self, n: int) -> Interval
        recommends
            i64::MIN <= self.start.0 + n <= i64::MAX,
            i64::MIN <= self.stop.0 + n <= i64::MAX,
    {
        Interval { start: Timestamp((self.start.0 + n) as i64), stop: Timestamp((self.stop.0 + n) as i64) }
    }
}

pub open spec fn max_i64(a: i64, b: i64) -> i64 {
    if a >= b {
        a
    } else {
        b
    }
}

pub open spec fn min_i64(a: i64, b: i64) -> i64 {
    if a <= b {
        a
    } else {
        b
    }
}

impl Interval {
    pub fn new(start: Timestamp, stop: Timestamp) -> (r: Self)
        ensures
            r.start == start,
            r.stop == stop,
    {
        Self { start, stop }
    }

    /// Midpoint of a well-formed interval.
    pub fn center(self) -> (r: Timestamp)
        requires
            self.spec_wf(),
            self.spec_duration() <= i64::MAX,
        ensures
            r.0 == self.start.0 + self.spec_duration() / 2,
    {
        let d: i64 = self.stop.0 - self.start.0;
        let half: i64 = ((d as u64) / 2) as i64;
        Timestamp(self.start.0 + half)
    }

    pub fn duration_ns(self) -> (r: i64)
        requires
            i64::MIN <= self.spec_duration() <= i64::MAX,
        ensures
            r == self.spec_duration(),
    {
        self.stop.0 - self.start.0
    }

    pub fn contains(self, point: Timestamp) -> (r: bool)
        ensures
            r == self.spec_contains(point),
    {
        self.start.0 <= point.0 && point.0 < self.stop.0
    }

    pub fn overlaps(self, other: Interval) -> (r: bool)
        ensures
            r == self.spec_overlaps(other),
    {
        let lo: i64 = if self.start.0 >= other.start.0 {
            self.start.0
        } else {
            other.start.0
        };
        let hi: i64 = if self.stop.0 <= other.stop.0 {
            self.stop.0
        } else {
            other.stop.0
        };
        lo < hi
    }

    pub fn intersection(self, other: Interval) -> (r: Self)
        ensures
            r == self.spec_intersection(other),
    {
        let lo: i64 = if self.start.0 >= other.start.0 {
            self.start.0
        } else {
            other.start.0
        };
        let hi: i64 = if self.stop.0 <= other.stop.0 {
            self.stop.0
        } else {
            other.stop.0
        };
        Self { start: Timestamp(lo), stop: Timestamp(hi) }
    }

    pub fn union(self, other: Interval) -> (r: Self)
        ensures
            r == self.spec_union(other),
    {
        let lo: i64 = if self.start.0 <= other.start.0 {
            self.start.0
        } else {
            other.start.0
        };
        let hi: i64 = if self.stop.0 >= other.stop.0 {
            self.stop.0
        } else {
            other.stop.0
        };
        Self { start: Timestamp(lo), stop: Timestamp(hi) }
    }

    /// Widen (or, for a negative argument, shrink) by `duration_ns` on
    /// each side.
    pub fn grow(self, duration_ns: i64) -> (r: Self)
        requires
            i64::MIN <= self.start.0 - duration_ns <= i64::MAX,
            i64::MIN <= self.stop.0 + duration_ns <= i64::MAX,
        ensures
            r == self.spec_grow(duration_ns as int),
            r.start.0 == self.start.0 - duration_ns,
            r.stop.0 == self.stop.0 + duration_ns,
    {
        Self {
            start: Timestamp(self.start.0 - duration_ns),
            stop: Timestamp(self.stop.0 + duration_ns),
        }
    }

    /// Shift both endpoints by `duration_ns`.
    pub fn translate(self, duration_ns: i64) -> (r: Self)
        requires
            i64::MIN <= self.start.0 + duration_ns <= i64::MAX,
            i64::MIN <= self.stop.0 + duration_ns <= i64::MAX,
        ensures
            r == self.spec_translate(duration_ns as int),
            r.start.0 == self.start.0 + duration_ns,
            r.stop.0 == self.stop.0 + duration_ns,
    {
        Self {
            start: Timestamp(self.start.0 + duration_ns),
            stop: Timestamp(self.stop.0 + duration_ns),
        }
    }
}

// ---------------------------------------------------------------------
// Parsing `<decimal><unit>` strings.
//
// The value part is decimal digits with an optional '.', the digits may
// be grouped with spaces, and the unit is one of ns/us/ms/s in either
// case.  All specifications are over the UTF-8 bytes of the input.
// ---------------------------------------------------------------------

pub open spec fn b_is_space(b: u8) -> bool {
    b == 32 || b == 9 || b == 10 || b == 13
}

/// Bytes that may appear in the value part: digits, '.', and spaces.
pub open spec fn b_value_byte(b: u8) -> bool {
    b_is_digit(b) || b == 46 || b_is_space(b)
}

pub open spec fn count_leading_spaces(s: Seq<u8>) -> nat
    decreases s.len(),
{
    if s.len() > 0 && b_is_space(s[0]) {
        1 + count_leading_spaces(s.drop_first())
    } else {
        0
    }
}

pub open spec fn count_trailing_spaces(s: Seq<u8>) -> nat
    decreases s.len(),
{
    if s.len() > 0 && b_is_space(s.last()) {
        1 + count_trailing_spaces(s.drop_last())
    } else {
        0
    }
}

/// The input without leading and trailing whitespace.
pub open spec fn trimmed(s: Seq<u8>) -> Seq<u8> {
    let lo = count_leading_spaces(s);
    if lo == s.len() {
        Seq::empty()
    } else {
        s.subrange(lo as int, s.len() - count_trailing_spaces(s))
    }
}

/// Number of leading bytes that belong to the value part.
pub open spec fn unit_split(t: Seq<u8>) -> nat
    decreases t.len(),
{
    if t.len() > 0 && b_value_byte(t[0]) {
        1 + unit_split(t.drop_first())
    } else {
        0
    }
}

/// The value bytes with the grouping spaces removed.
pub open spec fn strip_spaces(s: Seq<u8>) -> Seq<u8>
    decreases s.len(),
{
    if s.len() == 0 {
        Seq::empty()
    } else if b_is_space(s.last()) {
        strip_spaces(s.drop_last())
    } else {
        strip_spaces(s.drop_last()).push(s.last())
    }
}

pub open spec fn count_dots(v: Seq<u8>) -> nat
    decreases v.len(),
{
    if v.len() == 0 {
        0
    } else {
        count_dots(v.drop_last()) + if v.last() == 46 {
            1nat
        } else {
            0nat
        }
    }
}

/// Index of the first '.', or the length when there is none.
pub open spec fn first_dot(v: Seq<u8>) -> nat
    decreases v.len(),
{
    if v.len() == 0 {
        0
    } else if v[0] == 46 {
        0
    } else {
        1 + first_dot(v.drop_first())
    }
}

/// A valid value: digits and at most one dot, with at least one digit.
pub open spec fn valid_value(v: Seq<u8>) -> bool {
    &&& (forall|i: int| 0 <= i < v.len() ==> b_is_digit(#[trigger] v[i]) || v[i] == 46)
    &&& count_dots(v) <= 1
    &&& v.len() > count_dots(v)
}

pub open spec fn int_digits(v: Seq<u8>) -> Seq<u8> {
    v.take(first_dot(v) as int)
}

pub open spec fn frac_digits(v: Seq<u8>) -> Seq<u8> {
    if first_dot(v) == v.len() {
        Seq::empty()
    } else {
        v.skip(first_dot(v) as int + 1)
    }
}

/// The fractional digits scaled to `m` decimal places: truncated when
/// longer, padded with zeros when shorter.
pub open spec fn frac_scaled(f: Seq<u8>, m: nat) -> nat {
    if f.len() >= m {
        b_digits_val(f.take(m as int))
    } else {
        b_digits_val(f) * pow10((m - f.len()) as nat)
    }
}

/// The nanosecond value of a valid value string under a unit of
/// `10^m` nanoseconds.
pub open spec fn value_ns(v: Seq<u8>, m: nat) -> nat {
    b_digits_val(int_digits(v)) * pow10(m) + frac_scaled(frac_digits(v), m)
}

pub open spec fn sat_i64(n: nat) -> i64 {
    if n > i64::MAX {
        i64::MAX
    } else {
        n as i64
    }
}

pub open spec fn b_lower(b: u8) -> u8 {
    if 65 <= b && b <= 90 {
        (b + 32) as u8
    } else {
        b
    }
}

/// The unit's scale, as a number of decimal zeros: ns, us, ms, s give
/// 0, 3, 6, 9.  Case-insensitive; `None` for anything else.
pub open spec fn unit_zeros(u: Seq<u8>) -> Option<nat> {
    if u.len() == 1 && b_lower(u[0]) == 115 {
        Some(9nat)
    } else if u.len() == 2 && b_lower(u[1]) == 115 {
        if b_lower(u[0]) == 110 {
            Some(0nat)
        } else if b_lower(u[0]) == 117 {
            Some(3nat)
        } else if b_lower(u[0]) == 109 {
            Some(6nat)
        } else {
            None
        }
    } else {
        None
    }
}

/// What `Timestamp::parse` returns, byte for byte.
pub open spec fn spec_parse_timestamp(raw: Seq<u8>) -> Result<Timestamp, TimestampParseError> {
    let t = trimmed(raw);
    let k = unit_split(t);
    if k == t.len() {
        Err(TimestampParseError::NoUnit)
    } else {
        let v = strip_spaces(t.take(k as int));
        if !valid_value(v) {
            Err(TimestampParseError::InvalidValue)
        } else {
            match unit_zeros(t.skip(k as int)) {
                Option::None => Err(TimestampParseError::InvalidUnit),
                Option::Some(m) => Ok(Timestamp(sat_i64(value_ns(v, m)))),
            }
        }
    }
}

proof fn lemma_count_leading_at(s: Seq<u8>, k: int)
    requires
        0 <= k <= s.len(),
        forall|j: int| 0 <= j < k ==> b_is_space(#[trigger] s[j]),
        k < s.len() ==> !b_is_space(s[k]),
    ensures
        count_leading_spaces(s) == k,
    decreases k,
{
    if k == 0 {
    } else {
        assert(b_is_space(s[0]));
        lemma_count_leading_at(s.drop_first(), k - 1);
    }
}

proof fn lemma_count_trailing_at(s: Seq<u8>, k: int)
    requires
        0 <= k <= s.len(),
        forall|j: int| s.len() - k <= j < s.len() ==> b_is_space(#[trigger] s[j]),
        k < s.len() ==> !b_is_space(s[s.len() - k - 1]),
    ensures
        count_trailing_spaces(s) == k,
    decreases k,
{
    if k == 0 {
    } else {
        assert(b_is_space(s.last()));
        lemma_count_trailing_at(s.drop_last(), k - 1);
    }
}

proof fn lemma_unit_split_at(t: Seq<u8>, k: int)
    requires
        0 <= k <= t.len(),
        forall|j: int| 0 <= j < k ==> b_value_byte(#[trigger] t[j]),
        k < t.len() ==> !b_value_byte(t[k]),
    ensures
        unit_split(t) == k,
    decreases k,
{
    if k == 0 {
    } else {
        assert(b_value_byte(t[0]));
        lemma_unit_split_at(t.drop_first(), k - 1);
    }
}

proof fn lemma_first_dot_at(v: Seq<u8>, k: int)
    requires
        0 <= k <= v.len(),
        forall|j: int| 0 <= j < k ==> (#[trigger] v[j]) != 46,
        k < v.len() ==> v[k] == 46,
    ensures
        first_dot(v) == k,
    decreases k,
{
    if k == 0 {
    } else {
        lemma_first_dot_at(v.drop_first(), k - 1);
    }
}

pub proof fn lemma_pow10_values()
    ensures
        pow10(0) == 1,
        pow10(1) == 10,
        pow10(2) == 100,
        pow10(3) == 1000,
        pow10(4) == 10000,
        pow10(5) == 100000,
        pow10(6) == 1000000,
        pow10(7) == 10000000,
        pow10(8) == 100000000,
        pow10(9) == 1000000000,
{
    reveal_with_fuel(crate::decimal::pow10, 11);
}

/// `10^e` for small exponents.
pub fn pow10_u64(e: usize) -> (r: u64)
    requires
        e <= 9,
    ensures
        r as nat == pow10(e as nat),
        r >= 1,
{
    proof {
        lemma_pow10_values();
    }
    let mut r: u64 = 1;
    let mut i: usize = 0;
    while i < e
        invariant
            i <= e <= 9,
            r as nat == pow10(i as nat),
            r <= 1_000_000_000,
        decreases e - i,
    {
        proof {
            lemma_pow10_values();
            assert(pow10((i + 1) as nat) == 10 * pow10(i as nat));
            crate::decimal::lemma_pow10_mono(i as nat, 8);
            crate::decimal::lemma_pow10_mono((i + 1) as nat, 9);
        }
        r = r * 10;
        i = i + 1;
    }
    proof {
        crate::decimal::lemma_pow10_pos(i as nat);
    }
    r
}

impl Timestamp {
    /// Parse a `<decimal><unit>` string into nanoseconds.  The unit is
    /// ns, us, ms or s in either case; whitespace around the value and
    /// the unit is tolerated, and the value's digits may be grouped
    /// with spaces.  A value too large for the timestamp saturates.
    pub fn parse(s: &str) -> (r: Result<Timestamp, TimestampParseError>)
        ensures
            r == spec_parse_timestamp(s.spec_bytes()),
    {
        let b: &[u8] = s.as_bytes();
        let n: usize = b.len();

        // Trim leading and trailing whitespace.
        let mut lo: usize = 0;
        while lo < n && (b[lo] == 32 || b[lo] == 9 || b[lo] == 10 || b[lo] == 13)
            invariant
                0 <= lo <= n == b@.len(),
                forall|j: int| 0 <= j < lo ==> b_is_space(#[trigger] b@[j]),
            decreases n - lo,
        {
            lo = lo + 1;
        }
        proof {
            lemma_count_leading_at(b@, lo as int);
        }
        if lo == n {
            proof {
                assert(trimmed(b@) =~= Seq::<u8>::empty());
                assert(unit_split(trimmed(b@)) == 0);
            }
            return Err(TimestampParseError::NoUnit);
        }
        let mut hi: usize = n;
        while hi > lo && (b[hi - 1] == 32 || b[hi - 1] == 9 || b[hi - 1] == 10 || b[hi - 1] == 13)
            invariant
                lo <= hi <= n == b@.len(),
                lo < n,
                !b_is_space(b@[lo as int]),
                forall|j: int| hi <= j < n ==> b_is_space(#[trigger] b@[j]),
            decreases hi,
        {
            hi = hi - 1;
        }
        proof {
            assert(hi > lo);
            lemma_count_trailing_at(b@, n - hi);
        }
        let ghost t = b@.subrange(lo as int, hi as int);
        proof {
            assert(t =~= trimmed(b@));
        }

        // Find where the unit begins: the first byte that is not a
        // digit, a dot or a space.
        let mut k: usize = lo;
        while k < hi && (b[k] == 46 || (48 <= b[k] && b[k] <= 57) || b[k] == 32 || b[k] == 9
            || b[k] == 10 || b[k] == 13)
            invariant
                lo <= k <= hi <= n == b@.len(),
                t == b@.subrange(lo as int, hi as int),
                forall|j: int| lo <= j < k ==> b_value_byte(#[trigger] b@[j]),
            decreases hi - k,
        {
            k = k + 1;
        }
        proof {
            assert(forall|j: int| 0 <= j < k - lo ==> b_value_byte(#[trigger] t[j]));
            if k < hi {
                assert(!b_value_byte(t[k - lo]));
            }
            lemma_unit_split_at(t, k - lo);
        }
        if k == hi {
            return Err(TimestampParseError::NoUnit);
        }

        // Collect the value bytes, dropping the grouping spaces.
        let mut v: Vec<u8> = Vec::new();
        let mut i: usize = lo;
        while i < k
            invariant
                lo <= i <= k <= hi <= n == b@.len(),
                t == b@.subrange(lo as int, hi as int),
                k - lo <= t.len(),
                v@ == strip_spaces(b@.subrange(lo as int, i as int)),
            decreases k - i,
        {
            let c: u8 = b[i];
            proof {
                assert(b@.subrange(lo as int, i + 1).drop_last() =~= b@.subrange(
                    lo as int,
                    i as int,
                ));
                assert(b@.subrange(lo as int, i + 1).last() == c);
            }
            if !(c == 32 || c == 9 || c == 10 || c == 13) {
                v.push(c);
            }
            i = i + 1;
        }
        proof {
            assert(b@.subrange(lo as int, k as int) =~= t.take(k - lo));
            assert(v@ == strip_spaces(t.take(k - lo)));
        }

        // Validate the value: digits with at most one dot, and at
        // least one digit.
        let vn: usize = v.len();
        let mut dots: usize = 0;
        let mut digits_ok: bool = true;
        let mut j: usize = 0;
        while j < vn
            invariant
                0 <= j <= vn == v@.len(),
                dots as nat == count_dots(v@.take(j as int)),
                dots <= j,
                digits_ok <==> (forall|x: int|
                    0 <= x < j ==> b_is_digit(#[trigger] v@[x]) || v@[x] == 46),
            decreases vn - j,
        {
            let c: u8 = v[j];
            proof {
                assert(v@.take(j + 1).drop_last() =~= v@.take(j as int));
                assert(v@.take(j + 1).last() == c);
            }
            if c == 46 {
                dots = dots + 1;
            } else if !(48 <= c && c <= 57) {
                digits_ok = false;
            }
            j = j + 1;
        }
        proof {
            assert(v@.take(vn as int) =~= v@);
        }
        if !digits_ok || vn == 0 || dots > 1 || vn == dots {
            proof {
                assert(!valid_value(v@));
            }
            return Err(TimestampParseError::InvalidValue);
        }
        proof {
            assert(valid_value(v@));
        }

        // Locate the first dot and split integer from fraction.
        let mut dot: usize = 0;
        while dot < vn && v[dot] != 46
            invariant
                0 <= dot <= vn == v@.len(),
                forall|x: int| 0 <= x < dot ==> (#[trigger] v@[x]) != 46,
            decreases vn - dot,
        {
            dot = dot + 1;
        }
        proof {
            lemma_first_dot_at(v@, dot as int);
        }
        let ghost ints = int_digits(v@);
        let ghost fracs = frac_digits(v@);
        proof {
            assert(ints =~= v@.subrange(0, dot as int));
            if dot < vn {
                assert(fracs =~= v@.subrange(dot + 1, vn as int));
            }
        }

        // Accumulate the integer part, noting when it can no longer
        // fit in a timestamp.
        let mut acc: u64 = 0;
        let mut over: bool = false;
        let mut p: usize = 0;
        while p < dot
            invariant
                0 <= p <= dot <= vn == v@.len(),
                ints == v@.subrange(0, dot as int),
                valid_value(v@),
                forall|x: int| 0 <= x < dot ==> (#[trigger] v@[x]) != 46,
                !over ==> acc as nat == b_digits_val(ints.take(p as int)) && acc
                    <= 0x7fff_ffff_ffff_ffff,
                over ==> b_digits_val(ints) > 0x7fff_ffff_ffff_ffff,
            decreases dot - p,
        {
            let c: u8 = v[p];
            proof {
                assert(b_is_digit(v@[p as int]) || v@[p as int] == 46);
                assert(v@[p as int] != 46);
                assert(ints.take(p + 1).drop_last() =~= ints.take(p as int));
                assert(ints.take(p + 1).last() == c);
            }
            let d: u64 = (c - 48) as u64;
            if !over {
                if acc > 922_337_203_685_477_580 || (acc == 922_337_203_685_477_580 && d > 7) {
                    proof {
                        assert(b_digits_val(ints.take(p + 1)) == acc * 10 + d);
                        lemma_b_digits_prefix_bound(ints, p + 1);
                    }
                    over = true;
                } else {
                    acc = acc * 10 + d;
                }
            }
            p = p + 1;
        }
        proof {
            assert(ints.take(dot as int) =~= ints);
        }

        // Accumulate up to nine fractional digits.
        let fn_total: usize = if dot < vn {
            vn - dot - 1
        } else {
            0
        };
        let k9: usize = if fn_total > 9 {
            9
        } else {
            fn_total
        };
        let mut fracacc: u64 = 0;
        let mut q: usize = 0;
        proof {
            assert(fracs.len() == fn_total);
        }
        while q < k9
            invariant
                0 <= q <= k9 <= 9,
                k9 <= fracs.len() == fn_total,
                dot < vn ==> fracs == v@.subrange(dot + 1, vn as int),
                fn_total > 0 ==> dot < vn,
                vn == v@.len(),
                valid_value(v@),
                forall|x: int| 0 <= x < dot ==> (#[trigger] v@[x]) != 46,
                dot < vn ==> v@[dot as int] == 46,
                dot <= vn,
                forall|x: int| 0 <= x < q ==> b_is_digit(#[trigger] fracs[x]),
                fracacc as nat == b_digits_val(fracs.take(q as int)),
                (fracacc as nat) < pow10(q as nat),
            decreases k9 - q,
        {
            let c: u8 = v[dot + 1 + q];
            proof {
                assert(fracs[q as int] == c);
                assert(b_is_digit(v@[dot + 1 + q]) || v@[dot + 1 + q] == 46);
                assert(count_dots(v@) <= 1);
                if v@[dot + 1 + q] == 46 {
                    lemma_two_dots(v@, dot as int, dot + 1 + q);
                }
                assert(b_is_digit(c));
                assert(fracs.take(q + 1).drop_last() =~= fracs.take(q as int));
                assert(fracs.take(q + 1).last() == c);
                lemma_pow10_values();
                crate::decimal::lemma_pow10_mono(q as nat, 8);
                assert(pow10((q + 1) as nat) == 10 * pow10(q as nat));
            }
            let d: u64 = (c - 48) as u64;
            fracacc = fracacc * 10 + d;
            q = q + 1;
        }
        proof {
            lemma_pow10_values();
            crate::decimal::lemma_pow10_mono(k9 as nat, 9);
            assert(fracacc < 1_000_000_000);
        }

        // Identify the unit.
        let ulen: usize = hi - k;
        let m: usize;
        if ulen == 1 {
            let c0: u8 = lower_byte(b[k]);
            proof {
                assert(t.skip(k - lo).len() == 1);
                assert(t.skip(k - lo)[0] == b@[k as int]);
            }
            if c0 == 115 {
                m = 9;
            } else {
                return Err(TimestampParseError::InvalidUnit);
            }
        } else if ulen == 2 {
            let c0: u8 = lower_byte(b[k]);
            let c1: u8 = lower_byte(b[k + 1]);
            proof {
                assert(t.skip(k - lo).len() == 2);
                assert(t.skip(k - lo)[0] == b@[k as int]);
                assert(t.skip(k - lo)[1] == b@[k + 1]);
            }
            if c1 != 115 {
                return Err(TimestampParseError::InvalidUnit);
            }
            if c0 == 110 {
                m = 0;
            } else if c0 == 117 {
                m = 3;
            } else if c0 == 109 {
                m = 6;
            } else {
                return Err(TimestampParseError::InvalidUnit);
            }
        } else {
            proof {
                assert(t.skip(k - lo).len() == ulen);
            }
            return Err(TimestampParseError::InvalidUnit);
        }
        proof {
            assert(unit_zeros(t.skip(k - lo)) == Some(m as nat));
        }

        // Combine the pieces, saturating at the largest timestamp.
        let ghost exact = value_ns(v@, m as nat);
        proof {
            crate::decimal::lemma_pow10_pos(m as nat);
            assert(b_digits_val(ints) * pow10(m as nat) >= b_digits_val(ints) * 1) by (
            nonlinear_arith)
                requires
                    pow10(m as nat) >= 1,
            ;
        }
        if over {
            return Ok(Timestamp(i64::MAX));
        }
        // Scale the fraction to `m` digits.
        let g: u64;
        if fn_total >= m {
            let div: u64 = pow10_u64(k9 - m);
            proof {
                lemma_frac_truncate(fracs, k9 as nat, m as nat);
            }
            g = fracacc / div;
        } else {
            let mul: u64 = pow10_u64(m - fn_total);
            proof {
                assert(fracs.take(k9 as int) =~= fracs);
                lemma_pow10_values();
                crate::decimal::lemma_pow10_mono((m - fn_total) as nat, 9);
                assert(fracacc * mul < 1_000_000_000 * 1_000_000_000) by (nonlinear_arith)
                    requires
                        fracacc < 1_000_000_000,
                        mul as nat <= 1_000_000_000,
                        mul >= 1,
                ;
            }
            g = fracacc * mul;
        }
        let fac: u64 = pow10_u64(m);
        let ns: i64 = match acc.checked_mul(fac) {
            Option::Some(prod) => {
                match prod.checked_add(g) {
                    Option::Some(sum) => {
                        if sum > 0x7fff_ffff_ffff_ffff {
                            i64::MAX
                        } else {
                            sum as i64
                        }
                    },
                    Option::None => i64::MAX,
                }
            },
            Option::None => i64::MAX,
        };
        proof {
            assert(exact == b_digits_val(ints) * pow10(m as nat) + frac_scaled(
                fracs,
                m as nat,
            ));
            assert(ns == sat_i64(exact));
        }
        Ok(Timestamp(ns))
    }
}

/// Two distinct dot positions mean at least two dots.
proof fn lemma_two_dots(v: Seq<u8>, a: int, c: int)
    requires
        0 <= a < c < v.len(),
        v[a] == 46,
        v[c] == 46,
    ensures
        count_dots(v) >= 2,
    decreases v.len(),
{
    if c == v.len() - 1 {
        lemma_one_dot(v.drop_last(), a);
    } else {
        lemma_two_dots(v.drop_last(), a, c);
    }
}

proof fn lemma_one_dot(v: Seq<u8>, a: int)
    requires
        0 <= a < v.len(),
        v[a] == 46,
    ensures
        count_dots(v) >= 1,
    decreases v.len(),
{
    if a == v.len() - 1 {
    } else {
        lemma_one_dot(v.drop_last(), a);
    }
}

/// The first `m` of `k` collected fraction digits are the scaled
/// fraction: dividing by `10^(k-m)` drops the rest.
proof fn lemma_frac_truncate(f: Seq<u8>, k: nat, m: nat)
    requires
        m <= k <= f.len(),
        f.len() >= m,
        forall|i: int| 0 <= i < k ==> b_is_digit(#[trigger] f[i]),
    ensures
        b_digits_val(f.take(k as int)) / pow10((k - m) as nat) == b_digits_val(f.take(m as int)),
{
    let fk = f.take(k as int);
    lemma_b_digits_split(fk, m as int);
    assert(fk.take(m as int) =~= f.take(m as int));
    assert(forall|i: int| 0 <= i < fk.skip(m as int).len() ==> b_is_digit(
        #[trigger] fk.skip(m as int)[i],
    ));
    lemma_b_digits_bound(fk.skip(m as int));
    crate::decimal::lemma_pow10_pos((k - m) as nat);
    vstd::arithmetic::div_mod::lemma_fundamental_div_mod_converse(
        b_digits_val(fk) as int,
        pow10((k - m) as nat) as int,
        b_digits_val(f.take(m as int)) as int,
        b_digits_val(fk.skip(m as int)) as int,
    );
}

/// ASCII lower-casing of a single byte.
fn lower_byte(b: u8) -> (r: u8)
    ensures
        r == b_lower(b),
{
    if 65 <= b && b <= 90 {
        b + 32
    } else {
        b
    }
}

// ---------------------------------------------------------------------
// Formatting.
//
// A time is shown in the largest unit with at least one whole unit,
// with three-digit groups after the separator.
// ---------------------------------------------------------------------

/// The display scale: a divisor, how many digits to show after the
/// separator, and the unit's name.
#[derive(Debug, Copy, Clone, PartialEq, Eq)]
pub struct TimestampUnits {
    pub divisor: i64,
    pub digits_after_separator: i64,
    pub unit_name: &'static str,
}

/// The divisor/digit combinations that the scale rules produce.
pub open spec fn spec_units_wf(u: TimestampUnits) -> bool {
    ||| (u.divisor == 1 && u.digits_after_separator == 0)
    ||| (u.divisor == 1000 && u.digits_after_separator == 3)
    ||| (u.divisor == 1000000 && (u.digits_after_separator == 3 || u.digits_after_separator == 6))
    ||| (u.divisor == 1000000000 && (u.digits_after_separator == 3 || u.digits_after_separator == 6
        || u.digits_after_separator == 9))
}

pub open spec fn spec_units_label(divisor: i64) -> Seq<char> {
    if divisor == 1000000000 {
        "s"@
    } else if divisor == 1000000 {
        "ms"@
    } else if divisor == 1000 {
        "us"@
    } else {
        "ns"@
    }
}

pub open spec fn spec_ts_divisor(ns: i64) -> i64 {
    if ns >= 1000000000 {
        1000000000
    } else if ns >= 1000000 {
        1000000
    } else if ns >= 1000 {
        1000
    } else {
        1
    }
}

pub open spec fn spec_ts_digits(ns: i64) -> i64 {
    if ns >= 1000 {
        3
    } else {
        0
    }
}

pub open spec fn spec_interval_divisor(iv: Interval) -> i64 {
    spec_ts_divisor(iv.stop.0)
}

/// Digits after the separator for an interval's endpoints.  A span of
/// a second or more keeps whole milliseconds; a shorter span shows the
/// endpoints down to the nanosecond grouping its sub-second part
/// needs: full nanoseconds for a sub-second span of milliseconds,
/// microseconds for a span of microseconds, nanoseconds again below
/// that.
pub open spec fn spec_interval_digits(iv: Interval) -> i64 {
    let ns = iv.stop.0;
    let dur = iv.spec_duration();
    if ns >= 1000000000 {
        if dur >= 1000000000 {
            3
        } else if dur >= 1000000 {
            9
        } else if dur >= 1000 {
            6
        } else {
            9
        }
    } else if ns >= 1000000 {
        if dur >= 1000 {
            3
        } else {
            6
        }
    } else if ns >= 1000 {
        3
    } else {
        0
    }
}

/// Digits for the duration shown beside the endpoints: the duration
/// keeps the endpoints' absolute precision in its own unit, never
/// fewer than three digits for a unit above nanoseconds, and bare
/// nanoseconds with none.
pub open spec fn spec_interval_duration_digits(iv: Interval) -> i64 {
    let idiv = spec_interval_divisor(iv) as int;
    let idig = spec_interval_digits(iv) as int;
    let ddiv = spec_ts_divisor(iv.spec_duration() as i64) as int;
    if ddiv == 1 {
        0
    } else {
        let steps: int = if idiv == ddiv {
            0
        } else if idiv == 1000 * ddiv {
            1
        } else if idiv == 1000000 * ddiv {
            2
        } else {
            3
        };
        let d = idig - 3 * steps;
        if d < 3 {
            3
        } else {
            d as i64
        }
    }
}

/// A value below 1000, zero-padded to three digits.
pub open spec fn pad3(n: nat) -> Seq<char> {
    if n < 10 {
        "00"@ + dec_nat(n)
    } else if n < 100 {
        "0"@ + dec_nat(n)
    } else {
        dec_nat(n)
    }
}

pub open spec fn to_nat(x: int) -> nat {
    if x >= 0 {
        x as nat
    } else {
        0
    }
}

/// The rendering of a non-negative count under the given scale.
pub open spec fn spec_display_mag(
    m: int,
    divisor: i64,
    digits: i64,
    label: Seq<char>,
    include_units: bool,
) -> Seq<char> {
    let d = divisor as int;
    let whole = dec_int(m / d);
    let rem = to_nat(m % d);
    let part0 = if digits >= 3 {
        "."@ + pad3(rem / to_nat(d / 1000))
    } else {
        Seq::<char>::empty()
    };
    let part1 = if digits >= 6 {
        " "@ + pad3((rem / to_nat(d / 1000000)) % 1000)
    } else {
        Seq::<char>::empty()
    };
    let part2 = if digits >= 9 {
        " "@ + pad3((rem / to_nat(d / 1000000000)) % 1000)
    } else {
        Seq::<char>::empty()
    };
    let units_part = if include_units {
        " "@ + label
    } else {
        Seq::<char>::empty()
    };
    whole + part0 + part1 + part2 + units_part
}

/// The rendering of `ns` under the given scale; a negative count is
/// its magnitude with a leading '-'.
pub open spec fn spec_display_parts(
    ns: i64,
    divisor: i64,
    digits: i64,
    label: Seq<char>,
    include_units: bool,
) -> Seq<char> {
    if ns >= 0 {
        spec_display_mag(ns as int, divisor, digits, label, include_units)
    } else {
        seq!['-'] + spec_display_mag(-(ns as int), divisor, digits, label, include_units)
    }
}

pub open spec fn spec_timestamp_display(t: Timestamp) -> Seq<char> {
    spec_display_parts(
        t.0,
        spec_ts_divisor(t.0),
        spec_ts_digits(t.0),
        spec_units_label(spec_ts_divisor(t.0)),
        true,
    )
}

pub open spec fn spec_interval_display(iv: Interval) -> Seq<char> {
    let d = spec_interval_divisor(iv);
    let g = spec_interval_digits(iv);
    let l = spec_units_label(d);
    let dur = Timestamp(iv.spec_duration() as i64);
    let dd = spec_ts_divisor(dur.0);
    let dg = spec_interval_duration_digits(iv);
    "from "@ + spec_display_parts(iv.start.0, d, g, l, false) + " to "@ + spec_display_parts(
        iv.stop.0,
        d,
        g,
        l,
        true,
    ) + " (duration: "@ + spec_display_parts(dur.0, dd, dg, spec_units_label(dd), true) + ")"@
}

impl TimestampUnits {
    /// The scale in which a single time is shown.
    pub fn from_timestamp(t: Timestamp) -> (r: TimestampUnits)
        ensures
            r.divisor == spec_ts_divisor(t.0),
            r.digits_after_separator == spec_ts_digits(t.0),
            r.unit_name@ == spec_units_label(r.divisor),
            spec_units_wf(r),
            t.0 < 1000 ==> r.divisor == 1,
    {
        if t.0 >= 1_000_000_000 {
            TimestampUnits { divisor: 1_000_000_000, digits_after_separator: 3, unit_name: "s" }
        } else if t.0 >= 1_000_000 {
            TimestampUnits { divisor: 1_000_000, digits_after_separator: 3, unit_name: "ms" }
        } else if t.0 >= 1000 {
            TimestampUnits { divisor: 1000, digits_after_separator: 3, unit_name: "us" }
        } else {
            TimestampUnits { divisor: 1, digits_after_separator: 0, unit_name: "ns" }
        }
    }

    /// The scale in which an interval's endpoints are shown: sized by
    /// the endpoint, refined by the duration.
    pub fn from_interval(iv: Interval) -> (r: TimestampUnits)
        requires
            i64::MIN <= iv.spec_duration() <= i64::MAX,
        ensures
            r.divisor == spec_interval_divisor(iv),
            r.digits_after_separator == spec_interval_digits(iv),
            r.unit_name@ == spec_units_label(r.divisor),
            spec_units_wf(r),
            iv.stop.0 < 1000 ==> r.divisor == 1,
    {
        let ns: i64 = iv.stop.0;
        let duration: i64 = iv.stop.0 - iv.start.0;
        if ns >= 1_000_000_000 {
            let digits: i64 = if duration >= 1_000_000_000 {
                3
            } else if duration >= 1_000_000 {
                9
            } else if duration >= 1000 {
                6
            } else {
                9
            };
            TimestampUnits { divisor: 1_000_000_000, digits_after_separator: digits, unit_name: "s" }
        } else if ns >= 1_000_000 {
            let digits: i64 = if duration >= 1000 {
                3
            } else {
                6
            };
            TimestampUnits { divisor: 1_000_000, digits_after_separator: digits, unit_name: "ms" }
        } else if ns >= 1000 {
            TimestampUnits { divisor: 1000, digits_after_separator: 3, unit_name: "us" }
        } else {
            TimestampUnits { divisor: 1, digits_after_separator: 0, unit_name: "ns" }
        }
    }
}

fn pad3_string(n: u64) -> (s: String)
    requires
        n < 1000,
    ensures
        s@ == pad3(n as nat),
{
    let mut s = String::new();
    if n < 10 {
        s.append("00");
    } else if n < 100 {
        s.append("0");
    }
    let ds = u64_dec_string(n);
    s.append(ds.as_str());
    proof {
        assert(s@ =~= pad3(n as nat));
    }
    s
}

/// A single time under an explicit scale.
#[derive(Debug, Copy, Clone)]
pub struct TimestampDisplay {
    pub timestamp: Timestamp,
    pub units: TimestampUnits,
    pub include_units: bool,
}

impl TimestampDisplay {
    pub fn display(&self) -> (r: String)
        requires
            spec_units_wf(self.units),
        ensures
            r@ == spec_display_parts(
                self.timestamp.0,
                self.units.divisor,
                self.units.digits_after_separator,
                self.units.unit_name@,
                self.include_units,
            ),
    {
        let ns: i64 = self.timestamp.0;
        if ns >= 0 {
            display_mag(ns as u64, self.units, self.include_units)
        } else {
            let mag: u64 = if ns == i64::MIN {
                9223372036854775808u64
            } else {
                (-ns) as u64
            };
            let mut s = "-".to_owned();
            proof {
                reveal_strlit("-");
                assert(s@ =~= seq!['-']);
            }
            let rest = display_mag(mag, self.units, self.include_units);
            s.append(rest.as_str());
            proof {
                assert(mag as int == -(ns as int));
                assert(s@ =~= spec_display_parts(
                    self.timestamp.0,
                    self.units.divisor,
                    self.units.digits_after_separator,
                    self.units.unit_name@,
                    self.include_units,
                ));
            }
            s
        }
    }
}

/// Render a non-negative count under a scale.
fn display_mag(mag: u64, units: TimestampUnits, include_units: bool) -> (s: String)
    requires
        spec_units_wf(units),
    ensures
        s@ == spec_display_mag(
            mag as int,
            units.divisor,
            units.digits_after_separator,
            units.unit_name@,
            include_units,
        ),
{
    let t: u64 = mag;
    let d: u64 = units.divisor as u64;
    let whole: u64 = t / d;
    let mut s = u64_dec_string(whole);
    proof {
        assert(whole as int == mag as int / (units.divisor as int));
        assert(s@ =~= dec_int(mag as int / (units.divisor as int)));
    }
    let rem: u64 = t % d;
    proof {
        assert(rem as int == mag as int % (units.divisor as int));
    }
    if units.digits_after_separator >= 3 {
        s.append(".");
        let sub: u64 = d / 1000;
        let r0: u64 = rem / sub;
        proof {
            vstd::arithmetic::div_mod::lemma_mod_bound(t as int, d as int);
            assert(rem < d);
            if d == 1000 {
                assert(sub == 1);
            } else if d == 1000000 {
                assert(sub == 1000);
                vstd::arithmetic::div_mod::lemma_fundamental_div_mod(rem as int, 1000);
                vstd::arithmetic::div_mod::lemma_mod_bound(rem as int, 1000);
            } else {
                assert(d == 1000000000);
                assert(sub == 1000000);
                vstd::arithmetic::div_mod::lemma_fundamental_div_mod(rem as int, 1000000);
                vstd::arithmetic::div_mod::lemma_mod_bound(rem as int, 1000000);
            }
            assert(r0 < 1000);
            assert(r0 as nat == to_nat(rem as int) / to_nat((units.divisor as int) / 1000));
        }
        let p = pad3_string(r0);
        s.append(p.as_str());
    }
    if units.digits_after_separator >= 6 {
        s.append(" ");
        let sub: u64 = d / 1_000_000;
        let r1: u64 = (rem / sub) % 1000;
        proof {
            assert(r1 as nat == (to_nat(rem as int) / to_nat(
                (units.divisor as int) / 1000000,
            )) % 1000);
        }
        let p = pad3_string(r1);
        s.append(p.as_str());
    }
    if units.digits_after_separator >= 9 {
        s.append(" ");
        let sub: u64 = d / 1_000_000_000;
        let r2: u64 = (rem / sub) % 1000;
        proof {
            assert(r2 as nat == (to_nat(rem as int) / to_nat(
                (units.divisor as int) / 1000000000,
            )) % 1000);
        }
        let p = pad3_string(r2);
        s.append(p.as_str());
    }
    if include_units {
        s.append(" ");
        s.append(units.unit_name);
    }
    proof {
        assert(s@ =~= spec_display_mag(
            mag as int,
            units.divisor,
            units.digits_after_separator,
            units.unit_name@,
            include_units,
        ));
    }
    s
}

impl Timestamp {
    /// Render in the largest fitting unit, unit name included.
    pub fn display(&self) -> (r: String)
        ensures
            r@ == spec_timestamp_display(*self),
    {
        let units = TimestampUnits::from_timestamp(*self);
        let d = TimestampDisplay { timestamp: *self, units, include_units: true };
        d.display()
    }
}

impl Interval {
    /// Render as `from <start> to <stop> (duration: <d>)`, endpoints in
    /// a shared scale and the duration in its own.
    pub fn display(&self) -> (r: String)
        requires
            self.spec_wf(),
            self.spec_duration() <= i64::MAX,
        ensures
            r@ == spec_interval_display(*self),
    {
        let units = TimestampUnits::from_interval(*self);
        let duration = Timestamp(self.stop.0 - self.start.0);
        let mut s = "from ".to_owned();
        let start_part = TimestampDisplay {
            timestamp: self.start,
            units,
            include_units: false,
        }.display();
        s.append(start_part.as_str());
        s.append(" to ");
        let stop_part = TimestampDisplay {
            timestamp: self.stop,
            units,
            include_units: true,
        }.display();
        s.append(stop_part.as_str());
        s.append(" (duration: ");
        let base = TimestampUnits::from_timestamp(duration);
        let ddigits: i64 = if base.divisor == 1 {
            0
        } else {
            let steps: i64 = if units.divisor == base.divisor {
                0
            } else if units.divisor == 1000 * base.divisor {
                1
            } else if units.divisor == 1_000_000 * base.divisor {
                2
            } else {
                3
            };
            let d: i64 = units.digits_after_separator - 3 * steps;
            if d < 3 {
                3
            } else {
                d
            }
        };
        let dur_units = TimestampUnits {
            divisor: base.divisor,
            digits_after_separator: ddigits,
            unit_name: base.unit_name,
        };
        proof {
            assert(spec_units_wf(dur_units));
            assert(ddigits == spec_interval_duration_digits(*self));
        }
        let dur_part = TimestampDisplay {
            timestamp: duration,
            units: dur_units,
            include_units: true,
        }.display();
        s.append(dur_part.as_str());
        s.append(")");
        proof {
            assert(s@ =~= spec_interval_display(*self));
        }
        s
    }
}

/// An empty interval overlaps nothing, itself included.
pub proof fn lemma_empty_overlaps_nothing(a: Interval, b: Interval)
    requires
        a.spec_empty(),
    ensures
        !a.spec_overlaps(b),
        !b.spec_overlaps(a),
{
}

/// `grow(n)` widens the span by `n` on each side; `translate(n)` keeps
/// the span and shifts both endpoints by `n`.
pub proof fn lemma_grow_translate(a: Interval, n: i64)
    requires
        i64::MIN <= a.start.0 - n <= i64::MAX,
        i64::MIN <= a.stop.0 + n <= i64::MAX,
        i64::MIN <= a.start.0 + n <= i64::MAX,
    ensures
        a.spec_grow(n as int).spec_duration() == a.spec_duration() + 2 * n,
        a.spec_grow(n as int).start.0 == a.start.0 - n,
        a.spec_grow(n as int).stop.0 == a.stop.0 + n,
        a.spec_translate(n as int).spec_duration() == a.spec_duration(),
        a.spec_translate(n as int).start.0 == a.start.0 + n,
        a.spec_translate(n as int).stop.0 == a.stop.0 + n,
{
}

} // verus!
