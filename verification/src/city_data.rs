//! The running statistics of one city: minimum, maximum, exact sum and count
//! of its readings.

use crate::temp_value::{display_of, TempValue, MAX_READING};
use vstd::arithmetic::div_mod::lemma_fundamental_div_mod;
use vstd::arithmetic::div_mod::lemma_fundamental_div_mod_converse;
use vstd::prelude::*;

verus! {

/// ASCII `=`, between a city's name and its numbers.
pub const EQUALS: u8 = 61;

/// ASCII `/`, between the numbers of a city.
pub const SLASH: u8 = 47;

/// The statistics of one city as numbers: its name, the smallest and the
/// largest reading, their sum (all in tenths) and how many there were.
/// With no reading yet, `min`, `max` and `sum` are zero.
pub ghost struct CityStats {
    pub name: Seq<u8>,
    pub min: int,
    pub max: int,
    pub sum: int,
    pub count: nat,
}

/// The statistics of a city of which nothing was observed yet.
pub open spec fn empty_stats(name: Seq<u8>) -> CityStats {
    CityStats { name, min: 0, max: 0, sum: 0, count: 0 }
}

/// The statistics after one more reading of `tenths`. The first reading
/// becomes minimum, maximum and sum at once.
pub open spec fn observe(s: CityStats, tenths: int) -> CityStats {
    if s.count == 0 {
        CityStats { name: s.name, min: tenths, max: tenths, sum: tenths, count: 1 }
    } else {
        CityStats {
            name: s.name,
            min: if tenths < s.min {
                tenths
            } else {
                s.min
            },
            max: if tenths > s.max {
                tenths
            } else {
                s.max
            },
            sum: s.sum + tenths,
            count: s.count + 1,
        }
    }
}

/// The statistics of a city first seen with a reading of `tenths`.
pub open spec fn seeded(name: Seq<u8>, tenths: int) -> CityStats {
    observe(empty_stats(name), tenths)
}

/// The statistics of the readings of `a` and of `b` together. A side without
/// readings leaves the other as it is; otherwise the name is that of `a`.
pub open spec fn merge_stats(a: CityStats, b: CityStats) -> CityStats {
    if b.count == 0 {
        a
    } else if a.count == 0 {
        b
    } else {
        CityStats {
            name: a.name,
            min: if b.min < a.min {
                b.min
            } else {
                a.min
            },
            max: if b.max > a.max {
                b.max
            } else {
                a.max
            },
            sum: a.sum + b.sum,
            count: a.count + b.count,
        }
    }
}

/// `a` and `b` agree in everything but, possibly, the name.
pub open spec fn same_numbers(a: CityStats, b: CityStats) -> bool {
    &&& a.min == b.min
    &&& a.max == b.max
    &&& a.sum == b.sum
    &&& a.count == b.count
}

/// Statistics that some sequence of readings can have produced: the extremes
/// are readings, in order, and the sum lies between `count` times the one and
/// `count` times the other.
pub open spec fn stats_wf(s: CityStats) -> bool {
    if s.count == 0 {
        s.min == 0 && s.max == 0 && s.sum == 0
    } else {
        &&& -MAX_READING <= s.min <= s.max <= MAX_READING
        &&& s.count * s.min <= s.sum <= s.count * s.max
    }
}

/// The mean of `count` readings that add up to `sum`, in tenths, rounded to
/// the nearest tenth; a mean halfway between two tenths goes to the larger.
pub open spec fn mean_tenths(sum: int, count: nat) -> int {
    (2 * sum + count) / (2 * count as int)
}

/// One display entry: `name=min/mean/max`.
pub open spec fn display_stats(s: CityStats) -> Seq<u8> {
    s.name + seq![EQUALS] + display_of(s.min) + seq![SLASH] + display_of(
        mean_tenths(s.sum, s.count),
    ) + seq![SLASH] + display_of(s.max)
}

/// The sum of well-formed statistics is at most `count` readings of the
/// largest magnitude.
pub proof fn lemma_sum_bound(s: CityStats)
    requires
        stats_wf(s),
    ensures
        -MAX_READING * s.count <= s.sum <= MAX_READING * s.count,
{
    if s.count > 0 {
        let c = s.count as int;
        assert(c * (-999) <= c * s.min) by (nonlinear_arith)
            requires
                c > 0,
                -999 <= s.min,
        ;
        assert(c * s.max <= c * 999) by (nonlinear_arith)
            requires
                c > 0,
                s.max <= 999,
        ;
    }
}

/// Observing a reading keeps statistics well formed.
pub proof fn lemma_observe_wf(s: CityStats, tenths: int)
    requires
        stats_wf(s),
        -MAX_READING <= tenths <= MAX_READING,
    ensures
        stats_wf(observe(s, tenths)),
{
    if s.count > 0 {
        let c = s.count as int;
        let t = observe(s, tenths);
        assert((c + 1) * t.min <= c * s.min + tenths) by (nonlinear_arith)
            requires
                c > 0,
                t.min <= s.min,
                t.min <= tenths,
        ;
        assert(c * s.max + tenths <= (c + 1) * t.max) by (nonlinear_arith)
            requires
                c > 0,
                s.max <= t.max,
                tenths <= t.max,
        ;
    }
}

/// Merging keeps statistics well formed.
pub proof fn lemma_merge_wf(a: CityStats, b: CityStats)
    requires
        stats_wf(a),
        stats_wf(b),
    ensures
        stats_wf(merge_stats(a, b)),
{
    if a.count > 0 && b.count > 0 {
        let m = merge_stats(a, b);
        let ca = a.count as int;
        let cb = b.count as int;
        assert((ca + cb) * m.min <= ca * a.min + cb * b.min) by (nonlinear_arith)
            requires
                ca > 0,
                cb > 0,
                m.min <= a.min,
                m.min <= b.min,
        ;
        assert(ca * a.max + cb * b.max <= (ca + cb) * m.max) by (nonlinear_arith)
            requires
                ca > 0,
                cb > 0,
                a.max <= m.max,
                b.max <= m.max,
        ;
    }
}

/// Merging is commutative: the numbers never depend on the order, and
/// neither does the name where both sides carry the same one.
pub proof fn lemma_merge_commutative(a: CityStats, b: CityStats)
    requires
        stats_wf(a),
        stats_wf(b),
    ensures
        same_numbers(merge_stats(a, b), merge_stats(b, a)),
        a.name == b.name ==> merge_stats(a, b) == merge_stats(b, a),
{
}

/// Merging is associative, name included.
pub proof fn lemma_merge_associative(a: CityStats, b: CityStats, c: CityStats)
    ensures
        merge_stats(merge_stats(a, b), c) == merge_stats(a, merge_stats(b, c)),
{
}

/// Statistics without readings are the identity of merging: on the right
/// always, on the left for every side that has a reading.
pub proof fn lemma_merge_identity(a: CityStats, name: Seq<u8>)
    ensures
        merge_stats(a, empty_stats(name)) == a,
        a.count > 0 ==> merge_stats(empty_stats(name), a) == a,
{
}

/// Merging in a city seen once is observing its reading, for a side that has
/// readings already.
pub proof fn lemma_merge_seeded(a: CityStats, name: Seq<u8>, tenths: int)
    requires
        a.count > 0,
    ensures
        merge_stats(a, seeded(name, tenths)) == observe(a, tenths),
{
}

/// Observing a reading after a merge is merging after the right side
/// observed it, where both sides have readings.
pub proof fn lemma_merge_observe(a: CityStats, b: CityStats, tenths: int)
    requires
        a.count > 0,
        b.count > 0,
    ensures
        merge_stats(a, observe(b, tenths)) == observe(merge_stats(a, b), tenths),
{
}

/// The rounded mean lies between the minimum and the maximum.
pub proof fn lemma_mean_between(s: CityStats)
    requires
        stats_wf(s),
        s.count > 0,
    ensures
        s.min <= mean_tenths(s.sum, s.count) <= s.max,
{
    let c = s.count as int;
    let d = 2 * c;
    let n = 2 * s.sum + c;
    let q = n / d;
    lemma_fundamental_div_mod(n, d);
    assert(n == d * q + n % d);
    assert(0 <= n % d < d);
    assert(s.min <= q) by (nonlinear_arith)
        requires
            c > 0,
            d == 2 * c,
            d * q + d > 2 * s.sum + c,
            c * s.min <= s.sum,
    ;
    assert(q <= s.max) by (nonlinear_arith)
        requires
            c > 0,
            d == 2 * c,
            d * q <= 2 * s.sum + c,
            s.sum <= c * s.max,
    ;
}

/// Flooring a negative quotient: round the magnitude up, then negate.
proof fn lemma_floor_div_negative(n: int, d: int)
    requires
        n < 0,
        d > 0,
    ensures
        n / d == -((-n + d - 1) / d),
{
    let m = -n + d - 1;
    let q = m / d;
    let r = m % d;
    lemma_fundamental_div_mod(m, d);
    assert(m == d * q + r);
    assert(n == (-q) * d + (d - 1 - r)) by (nonlinear_arith)
        requires
            -n + d - 1 == d * q + r,
    ;
    lemma_fundamental_div_mod_converse(n, d, -q, d - 1 - r);
}

/// The running statistics of one city. The name borrows the bytes of the
/// input that the city was first read from.
#[derive(Clone, Copy, Debug)]
pub struct CityData<'name> {
    city: &'name [u8],
    min: TempValue,
    max: TempValue,
    acc: TempValue,
    count: u64,
}

impl<'name> View for CityData<'name> {
    type V = CityStats;

    closed spec fn view(&self) -> CityStats {
        CityStats {
            name: self.city@,
            min: self.min@,
            max: self.max@,
            sum: self.acc@,
            count: self.count as nat,
        }
    }
}

impl<'name> CityData<'name> {
    /// Every value of this type has well-formed statistics and a count that
    /// fits the machine.
    #[verifier::type_invariant]
    pub closed spec fn wf(self) -> bool {
        stats_wf(self@)
    }

    /// What `wf` says, for those who hold a value only in a proof.
    pub proof fn lemma_wf(self)
        requires
            self.wf(),
        ensures
            stats_wf(self@),
            self@.count <= u64::MAX,
    {
    }

    /// Statistics for `city`, with no reading yet.
    pub fn new(city: &'name [u8]) -> (data: CityData<'name>)
        ensures
            data@ == empty_stats(city@),
            data.wf(),
    {
        CityData {
            city,
            min: TempValue::from_tenths(0),
            max: TempValue::from_tenths(0),
            acc: TempValue::from_tenths(0),
            count: 0,
        }
    }

    /// The city's name.
    pub fn city(&self) -> (city: &'name [u8])
        ensures
            city@ == self@.name,
    {
        self.city
    }

    /// The smallest reading.
    pub fn min(&self) -> (min: TempValue)
        ensures
            min@ == self@.min,
            min.is_reading(),
    {
        proof {
            use_type_invariant(self);
        }
        self.min
    }

    /// The largest reading.
    pub fn max(&self) -> (max: TempValue)
        ensures
            max@ == self@.max,
            max.is_reading(),
    {
        proof {
            use_type_invariant(self);
        }
        self.max
    }

    /// The exact sum of the readings.
    pub fn sum(&self) -> (sum: TempValue)
        ensures
            sum@ == self@.sum,
    {
        self.acc
    }

    /// The number of readings.
    pub fn count(&self) -> (count: u64)
        ensures
            count == self@.count,
            self.wf(),
    {
        proof {
            use_type_invariant(self);
        }
        self.count
    }

    /// Takes one more reading into the statistics.
    pub fn add(&mut self, value: TempValue)
        requires
            value.is_reading(),
            old(self)@.count < u64::MAX,
        ensures
            final(self)@ == observe(old(self)@, value@),
            final(self).wf(),
    {
        proof {
            use_type_invariant(&*self);
            lemma_sum_bound(self@);
            lemma_observe_wf(self@, value@);
        }
        *self = if self.count == 0 {
            CityData { city: self.city, min: value, max: value, acc: value, count: 1 }
        } else {
            CityData {
                city: self.city,
                min: self.min.min(value),
                max: self.max.max(value),
                acc: self.acc + value,
                count: self.count + 1,
            }
        };
    }

    /// Takes the readings behind `other` into the statistics.
    pub fn merge(&mut self, other: &CityData<'name>)
        requires
            old(self)@.count + other@.count <= u64::MAX,
        ensures
            final(self)@ == merge_stats(old(self)@, other@),
            final(self).wf(),
    {
        proof {
            use_type_invariant(&*self);
            use_type_invariant(other);
            lemma_sum_bound(self@);
            lemma_sum_bound(other@);
            lemma_merge_wf(self@, other@);
        }
        if other.count == 0 {
        } else if self.count == 0 {
            *self = *other;
        } else {
            *self = CityData {
                city: self.city,
                min: self.min.min(other.min),
                max: self.max.max(other.max),
                acc: self.acc + other.acc,
                count: self.count + other.count,
            };
        }
    }

    /// The mean reading, rounded to the nearest tenth, computed from the
    /// exact sum at the moment it is asked for.
    pub fn mean(&self) -> (mean: TempValue)
        requires
            self@.count > 0,
        ensures
            mean@ == mean_tenths(self@.sum, self@.count),
            mean.is_reading(),
    {
        proof {
            use_type_invariant(self);
            lemma_sum_bound(self@);
            lemma_mean_between(self@);
        }
        let sum: i128 = self.acc.tenths();
        let count: i128 = self.count as i128;
        let n: i128 = 2 * sum + count;
        let d: i128 = 2 * count;
        if n >= 0 {
            let q: u128 = (n as u128) / (d as u128);
            TempValue::from_tenths(q as i128)
        } else {
            proof {
                lemma_floor_div_negative(n as int, d as int);
            }
            let m: u128 = (-n) as u128;
            let q: u128 = (m + (d as u128) - 1) / (d as u128);
            TempValue::from_tenths(-(q as i128))
        }
    }

    /// Appends the display entry `name=min/mean/max` to `out`.
    pub fn write_to(&self, out: &mut Vec<u8>)
        requires
            self@.count > 0,
        ensures
            final(out)@ == old(out)@ + display_stats(self@),
    {
        out.extend_from_slice(self.city);
        out.push(EQUALS);
        self.min.write_to(out);
        out.push(SLASH);
        self.mean().write_to(out);
        out.push(SLASH);
        self.max.write_to(out);
    }

    /// The display entry `name=min/mean/max`.
    pub fn to_display_string(&self) -> (out: Vec<u8>)
        requires
            self@.count > 0,
        ensures
            out@ == display_stats(self@),
    {
        let mut out: Vec<u8> = Vec::new();
        self.write_to(&mut out);
        out
    }
}

} // verus!
