//! The running statistics of one station, and the table that holds one such
//! accumulator for every station name seen so far.

use vstd::prelude::*;
use crate::decimal::Units;
use crate::digits::all_digits;
use crate::digits::digits_value;
use crate::digits::sum_of;
use crate::digits::zero_digits;
use crate::digits::zeros;
use crate::tenths::ceil_div;
use crate::tenths::lemma_ceil_div_is_least;
use crate::tenths::lemma_ceil_div_reaches;
use crate::tenths::lemma_nearest_at_most_up;
use crate::tenths::mean_tenths;
use crate::tenths::value_tenths;
use crate::text::same_bytes;
use crate::text::to_owned_bytes;

verus! {

/// What is known of one station, as numbers: the least and the greatest
/// value seen, the exact total of all values, and how many there were.
/// Values are in units.
pub struct Accumulator {
    pub min: int,
    pub max: int,
    pub sum: int,
    pub count: nat,
}

impl Accumulator {
    /// At least one value was seen, the bounds are in order, and the total
    /// lies between `count` times the least and `count` times the greatest
    /// value, so that the mean lies between the two.
    pub open spec fn well_formed(self) -> bool {
        &&& self.count >= 1
        &&& self.min <= self.max
        &&& self.count * self.min <= self.sum <= self.count * self.max
    }

    /// The accumulator of a station whose only value so far is `value`.
    pub open spec fn first(value: int) -> Accumulator {
        Accumulator { min: value, max: value, sum: value, count: 1 }
    }

    /// The accumulator after one more `value`: a bound moves only when the
    /// value lies strictly beyond it, the total and the count always grow.
    pub open spec fn with(self, value: int) -> Accumulator {
        Accumulator {
            min: if value < self.min {
                value
            } else {
                self.min
            },
            max: if value > self.max {
                value
            } else {
                self.max
            },
            sum: self.sum + value,
            count: self.count + 1,
        }
    }
}

/// An accumulator stays well formed when it takes one more value.
pub proof fn lemma_with_keeps_well_formed(before: Accumulator, value: int)
    requires
        before.well_formed(),
    ensures
        before.with(value).well_formed(),
{
    let n = before.count as int;
    let lo = before.with(value).min;
    let hi = before.with(value).max;
    assert((n + 1) * lo <= n * before.min + value) by (nonlinear_arith)
        requires
            n >= 1,
            lo <= before.min,
            lo <= value,
    ;
    assert(n * before.max + value <= (n + 1) * hi) by (nonlinear_arith)
        requires
            n >= 1,
            before.max <= hi,
            value <= hi,
    ;
}

/// Where the mean that is shown lies. Rounded up to a tenth, the mean of a
/// well-formed accumulator is never below the least value and stays less
/// than a tenth above the greatest one. It need not stay below the
/// greatest value: it exceeds it whenever the exact mean is the greatest
/// value and that is not a whole number of tenths.
pub proof fn lemma_shown_mean_near_bounds(stats: Accumulator, tenth: int)
    requires
        stats.well_formed(),
        tenth > 0,
    ensures
        stats.min <= mean_tenths(stats.sum, stats.count as int, tenth) * tenth,
        mean_tenths(stats.sum, stats.count as int, tenth) * tenth < stats.max + tenth,
        stats.sum == stats.count * stats.max && stats.max % tenth != 0 ==> mean_tenths(
            stats.sum,
            stats.count as int,
            tenth,
        ) * tenth > stats.max,
{
    let n = stats.count as int;
    let t = tenth;
    let d = n * t;
    let c = ceil_div(stats.sum, d);
    assert(d > 0) by (nonlinear_arith)
        requires
            d == n * t,
            n >= 1,
            t > 0,
    ;
    lemma_ceil_div_reaches(stats.sum, d);
    let shown = c * t;
    assert(c * d == n * shown && (c - 1) * d == n * (shown - t)) by (nonlinear_arith)
        requires
            d == n * t,
            shown == c * t,
    ;
    assert(shown >= stats.min) by (nonlinear_arith)
        requires
            n * shown >= n * stats.min,
            n >= 1,
    ;
    assert(shown - t < stats.max) by (nonlinear_arith)
        requires
            n * (shown - t) < n * stats.max,
            n >= 1,
    ;
    if stats.sum == n * stats.max {
        assert(shown >= stats.max) by (nonlinear_arith)
            requires
                n * shown >= n * stats.max,
                n >= 1,
        ;
        vstd::arithmetic::div_mod::lemma_mod_multiples_basic(c, t);
    }
}

/// The least value as it is shown never exceeds the mean as it is shown.
pub proof fn lemma_shown_min_at_most_shown_mean(stats: Accumulator, tenth: nat)
    requires
        stats.well_formed(),
        tenth > 0,
    ensures
        value_tenths(stats.min, tenth) <= mean_tenths(stats.sum, stats.count as int, tenth as int),
{
    let t = tenth as int;
    lemma_shown_mean_near_bounds(stats, t);
    lemma_ceil_div_is_least(stats.min, t, mean_tenths(stats.sum, stats.count as int, t));
    lemma_nearest_at_most_up(stats.min, tenth);
}

/// The accumulator of one station as the machine holds it. The total is
/// kept as two sums that only grow: `gains`, the total of the values that
/// are not negative, and `losses`, the total of the others without their
/// sign.
#[derive(Debug, PartialEq, Eq)]
pub struct StationStats {
    pub min: Units,
    pub max: Units,
    pub gains: Vec<u8>,
    pub losses: Vec<u8>,
    pub count: u64,
}

impl View for StationStats {
    type V = Accumulator;

    open spec fn view(&self) -> Accumulator {
        Accumulator {
            min: self.min@,
            max: self.max@,
            sum: digits_value(self.gains@) - digits_value(self.losses@),
            count: self.count as nat,
        }
    }
}

impl StationStats {
    /// The numbers are digit strings long enough for `scale`, and they
    /// make a well-formed accumulator.
    pub open spec fn well_formed(&self, scale: nat) -> bool {
        &&& self@.well_formed()
        &&& self.min.well_formed(scale)
        &&& self.max.well_formed(scale)
        &&& all_digits(self.gains@)
        &&& all_digits(self.losses@)
        &&& (self.gains@.len() >= scale || self.losses@.len() >= scale)
    }

    /// Starts an accumulator from a station's first value.
    pub fn single(value: &Units, scale: usize) -> (stats: StationStats)
        requires
            value.well_formed(scale as nat),
        ensures
            stats@ == Accumulator::first(value@),
            stats.well_formed(scale as nat),
    {
        let nothing = zero_digits(0);
        assert(digits_value(zeros(0)) == 0);
        let digits = to_owned_bytes(value.digits.as_slice());
        if value.negative {
            StationStats {
                min: value.copy(),
                max: value.copy(),
                gains: nothing,
                losses: digits,
                count: 1,
            }
        } else {
            StationStats {
                min: value.copy(),
                max: value.copy(),
                gains: digits,
                losses: nothing,
                count: 1,
            }
        }
    }

    /// The accumulator with one more value taken in.
    pub fn absorb(&self, value: &Units, scale: usize) -> (stats: StationStats)
        requires
            self.well_formed(scale as nat),
            value.well_formed(scale as nat),
            self.count < u64::MAX,
        ensures
            stats@ == self@.with(value@),
            stats.well_formed(scale as nat),
    {
        proof {
            lemma_with_keeps_well_formed(self@, value@);
        }
        let min = if value.is_less(&self.min) {
            value.copy()
        } else {
            self.min.copy()
        };
        let max = if self.max.is_less(value) {
            value.copy()
        } else {
            self.max.copy()
        };
        if value.negative {
            StationStats {
                min,
                max,
                gains: to_owned_bytes(self.gains.as_slice()),
                losses: sum_of(self.losses.as_slice(), value.digits.as_slice()),
                count: self.count + 1,
            }
        } else {
            StationStats {
                min,
                max,
                gains: sum_of(self.gains.as_slice(), value.digits.as_slice()),
                losses: to_owned_bytes(self.losses.as_slice()),
                count: self.count + 1,
            }
        }
    }
}

/// The accumulator of a station after `value`, given what was known of the
/// station before: nothing, or its accumulator.
pub open spec fn folded(before: Option<Accumulator>, value: int) -> Accumulator {
    match before {
        None => Accumulator::first(value),
        Some(stats) => stats.with(value),
    }
}

/// What a map knows of a station.
pub open spec fn lookup(stations: Map<Seq<u8>, Accumulator>, name: Seq<u8>) -> Option<Accumulator> {
    if stations.contains_key(name) {
        Some(stations[name])
    } else {
        None
    }
}

/// The stations after one more record.
pub open spec fn fold_record(stations: Map<Seq<u8>, Accumulator>, name: Seq<u8>, value: int) -> Map<
    Seq<u8>,
    Accumulator,
> {
    stations.insert(name, folded(lookup(stations, name), value))
}

/// The total of a sequence of values.
pub open spec fn total(values: Seq<int>) -> int
    decreases values.len(),
{
    if values.len() == 0 {
        0
    } else {
        total(values.drop_last()) + values.last()
    }
}

/// The accumulator that a station's values give when they are taken in
/// order; it is meant for at least one value.
pub open spec fn accumulated(values: Seq<int>) -> Accumulator
    decreases values.len(),
{
    if values.len() <= 1 {
        Accumulator::first(values[0])
    } else {
        accumulated(values.drop_last()).with(values.last())
    }
}

/// What an accumulator holds of the values it took: their number and
/// their exact total, the least of them and the greatest of them.
pub proof fn lemma_accumulated_is_exact(values: Seq<int>)
    requires
        values.len() >= 1,
    ensures
        accumulated(values).well_formed(),
        accumulated(values).count == values.len(),
        accumulated(values).sum == total(values),
        forall|i: int|
            0 <= i < values.len() ==> accumulated(values).min <= #[trigger] values[i]
                <= accumulated(values).max,
        exists|i: int| 0 <= i < values.len() && #[trigger] values[i] == accumulated(values).min,
        exists|i: int| 0 <= i < values.len() && #[trigger] values[i] == accumulated(values).max,
    decreases values.len(),
{
    if values.len() == 1 {
        assert(total(values.drop_last()) == 0);
        assert(total(values) == values[0]);
        assert(values[0] == accumulated(values).min);
    } else {
        let front = values.drop_last();
        let before = accumulated(front);
        let after = accumulated(values);
        lemma_accumulated_is_exact(front);
        lemma_with_keeps_well_formed(before, values.last());
        assert forall|i: int| 0 <= i < values.len() implies after.min <= #[trigger] values[i]
            <= after.max by {
            if i < front.len() {
                assert(before.min <= front[i] <= before.max);
            }
        }
        let low = choose|i: int| 0 <= i < front.len() && #[trigger] front[i] == before.min;
        let high = choose|i: int| 0 <= i < front.len() && #[trigger] front[i] == before.max;
        if values.last() < before.min {
            assert(values[values.len() - 1] == after.min);
        } else {
            assert(values[low] == after.min);
        }
        if values.last() > before.max {
            assert(values[values.len() - 1] == after.max);
        } else {
            assert(values[high] == after.max);
        }
    }
}

/// The order in which two records are folded makes no difference.
pub proof fn lemma_fold_order_is_irrelevant(
    stations: Map<Seq<u8>, Accumulator>,
    name: Seq<u8>,
    value: int,
    other_name: Seq<u8>,
    other_value: int,
)
    ensures
        fold_record(fold_record(stations, name, value), other_name, other_value) == fold_record(
            fold_record(stations, other_name, other_value),
            name,
            value,
        ),
{
    assert(fold_record(fold_record(stations, name, value), other_name, other_value)
        =~= fold_record(fold_record(stations, other_name, other_value), name, value));
}

/// Folding a record into stations that are all well formed leaves them so.
pub proof fn lemma_fold_keeps_well_formed(
    stations: Map<Seq<u8>, Accumulator>,
    name: Seq<u8>,
    value: int,
)
    requires
        forall|k: Seq<u8>| #[trigger] stations.contains_key(k) ==> stations[k].well_formed(),
    ensures
        forall|k: Seq<u8>| #[trigger]
            fold_record(stations, name, value).contains_key(k) ==> fold_record(
                stations,
                name,
                value,
            )[k].well_formed(),
{
    if stations.contains_key(name) {
        lemma_with_keeps_well_formed(stations[name], value);
    }
}

/// One accumulator per station name. A name is entered when it first occurs
/// and is never removed; the stations are kept in the order in which they
/// first occurred.
#[derive(Debug)]
pub struct Table {
    scale: usize,
    names: Vec<Vec<u8>>,
    stats: Vec<StationStats>,
}

impl View for Table {
    type V = Map<Seq<u8>, Accumulator>;

    /// The table as a map from station name to accumulator.
    closed spec fn view(&self) -> Map<Seq<u8>, Accumulator> {
        let names = self.names();
        let stats = self.stats@;
        Map::new(
            |name: Seq<u8>| names.contains(name),
            |name: Seq<u8>| stats[names.index_of(name)]@,
        )
    }
}

impl Table {
    /// The station names in the order in which they first occurred.
    pub closed spec fn names(&self) -> Seq<Seq<u8>> {
        Seq::new(self.names@.len(), |i: int| self.names@[i]@)
    }

    /// The accumulators, in the order of `names`.
    pub closed spec fn accumulators(&self) -> Seq<StationStats> {
        self.stats@
    }

    /// How finely the table counts: ten to the power `scale` of its units
    /// make one. The scale is at least one, so that a tenth is a whole
    /// number of units.
    pub closed spec fn scale(&self) -> nat {
        self.scale as nat
    }

    /// No name occurs twice, and every accumulator is well formed.
    pub closed spec fn well_formed(&self) -> bool {
        &&& self.scale >= 1
        &&& self.names@.len() == self.stats@.len()
        &&& forall|i: int, j: int|
            0 <= i < j < self.names@.len() ==> self.names@[i]@ != self.names@[j]@
        &&& forall|i: int| 0 <= i < self.stats@.len() ==> (#[trigger] self.stats@[i]).well_formed(self.scale as nat)
    }

    /// How the listing by first occurrence and the map relate: the listing
    /// holds each station of the map exactly once, with its accumulator.
    pub proof fn lemma_listing(&self)
        requires
            self.well_formed(),
        ensures
            self.names().len() == self.accumulators().len(),
            forall|i: int, j: int|
                0 <= i < j < self.names().len() ==> self.names()[i] != self.names()[j],
            forall|i: int|
                0 <= i < self.names().len() ==> self@.contains_key(#[trigger] self.names()[i])
                    && self@[self.names()[i]] == self.accumulators()[i]@,
            forall|name: Seq<u8>| self@.contains_key(name) <==> self.names().contains(name),
            forall|name: Seq<u8>| #[trigger]
                self@.contains_key(name) ==> self@[name].well_formed(),
            forall|i: int|
                0 <= i < self.accumulators().len() ==> (#[trigger] self.accumulators()[i]).well_formed(
                    self.scale(),
                ),
            self.scale() >= 1,
            self@.dom().finite(),
    {
        let names = self.names();
        assert forall|i: int| 0 <= i < names.len() implies self@.contains_key(#[trigger] names[i])
            && self@[names[i]] == self.accumulators()[i]@ by {
            assert(names.contains(names[i]));
            let j = names.index_of(names[i]);
            assert(j == i);
        }
        assert forall|name: Seq<u8>| #[trigger] self@.contains_key(name) implies (self@[name]).well_formed() by {
            let j = names.index_of(name);
            assert(self@[name] == self.stats@[j]@);
        }
        assert(self@.dom() =~= names.to_set());
        vstd::seq_lib::seq_to_set_is_finite(names);
    }

    /// An empty table that counts in units of which ten to the power
    /// `scale` make one.
    pub fn new(scale: usize) -> (table: Table)
        requires
            scale >= 1,
        ensures
            table.well_formed(),
            table.scale() == scale,
            table@ == Map::<Seq<u8>, Accumulator>::empty(),
            table.names() == Seq::<Seq<u8>>::empty(),
    {
        Table { scale, names: Vec::new(), stats: Vec::new() }
    }

    /// The scale of the table.
    pub fn scale_of(&self) -> (scale: usize)
        requires
            self.well_formed(),
        ensures
            scale == self.scale(),
            scale >= 1,
    {
        self.scale
    }

    /// The number of stations.
    pub fn len(&self) -> (n: usize)
        requires
            self.well_formed(),
        ensures
            n == self.names().len(),
            n == self@.dom().len(),
    {
        proof {
            self.lemma_listing();
            assert(self@.dom() =~= self.names().to_set());
            self.names().unique_seq_to_set();
        }
        self.names.len()
    }

    /// The name of the station at place `i` of the listing.
    pub fn name_at(&self, i: usize) -> (name: &[u8])
        requires
            self.well_formed(),
            i < self.names().len(),
        ensures
            name@ == self.names()[i as int],
    {
        self.names[i].as_slice()
    }

    /// The accumulator of the station at place `i` of the listing.
    pub fn stats_at(&self, i: usize) -> (stats: &StationStats)
        requires
            self.well_formed(),
            i < self.names().len(),
        ensures
            *stats == self.accumulators()[i as int],
            stats.well_formed(self.scale()),
    {
        &self.stats[i]
    }

    /// The place of `name` in the listing, if the table holds it.
    pub fn position(&self, name: &[u8]) -> (place: Option<usize>)
        requires
            self.well_formed(),
        ensures
            match place {
                Some(i) => i < self.names().len() && self.names()[i as int] == name@,
                None => !self@.contains_key(name@),
            },
    {
        let mut i: usize = 0;
        while i < self.names.len()
            invariant
                i <= self.names@.len(),
                forall|j: int| 0 <= j < i ==> self.names@[j]@ != name@,
            decreases self.names@.len() - i,
        {
            if same_bytes(self.names[i].as_slice(), name) {
                return Some(i);
            }
            i += 1;
        }
        proof {
            if self.names().contains(name@) {
                let j = self.names().index_of(name@);
                assert(self.names@[j]@ == name@);
            }
        }
        None
    }

    /// The accumulator of the station `name`, if the table holds it.
    pub fn get(&self, name: &[u8]) -> (found: Option<&StationStats>)
        requires
            self.well_formed(),
        ensures
            match found {
                Some(stats) => lookup(self@, name@) == Some(stats@),
                None => lookup(self@, name@) is None,
            },
    {
        proof {
            self.lemma_listing();
        }
        match self.position(name) {
            Some(i) => Some(&self.stats[i]),
            None => None,
        }
    }

    /// Folds one record into the table. A station seen for the first time
    /// is entered with `value` as its least, greatest and total value and a
    /// count of one; a known station takes `value` into its accumulator.
    pub fn fold(&mut self, name: &[u8], value: &Units)
        requires
            old(self).well_formed(),
            value.well_formed(old(self).scale()),
            old(self)@.contains_key(name@) ==> old(self)@[name@].count < u64::MAX,
        ensures
            final(self).well_formed(),
            final(self).scale() == old(self).scale(),
            final(self)@ == fold_record(old(self)@, name@, value@),
            final(self).names() == if old(self)@.contains_key(name@) {
                old(self).names()
            } else {
                old(self).names().push(name@)
            },
    {
        proof {
            self.lemma_listing();
        }
        let ghost before = *self;
        match self.position(name) {
            Some(i) => {
                let merged = self.stats[i].absorb(value, self.scale);
                self.stats.set(i, merged);
                proof {
                    assert(self.names() =~= before.names());
                    assert(self.well_formed());
                    assert(self@ =~= fold_record(before@, name@, value@)) by {
                        assert forall|k: Seq<u8>| self@.contains_key(k) implies #[trigger] self@[k]
                            == fold_record(before@, name@, value@)[k] by {
                            let j = self.names().index_of(k);
                            if k == name@ {
                                assert(j == i);
                            } else {
                                assert(j != i);
                            }
                        }
                    }
                }
            },
            None => {
                self.names.push(to_owned_bytes(name));
                self.stats.push(StationStats::single(value, self.scale));
                proof {
                    let n = before.names().len() as int;
                    assert(self.names() =~= before.names().push(name@));
                    assert forall|j: int| 0 <= j < n implies self.names@[j]@ != name@ by {
                        if before.names()[j] == name@ {
                            assert(before.names().contains(name@));
                        }
                    }
                    assert(self.well_formed());
                    assert forall|k: Seq<u8>| self.names().contains(k) <==> (k == name@
                        || before.names().contains(k)) by {
                        if before.names().contains(k) {
                            let j = before.names().index_of(k);
                            assert(self.names()[j] == k);
                        }
                        if k == name@ {
                            assert(self.names()[n] == k);
                        }
                    }
                    assert(self@ =~= fold_record(before@, name@, value@)) by {
                        assert forall|k: Seq<u8>| self@.contains_key(k) implies #[trigger] self@[k]
                            == fold_record(before@, name@, value@)[k] by {
                            let j = self.names().index_of(k);
                            if k == name@ {
                                assert(j == n);
                            } else {
                                let j0 = before.names().index_of(k);
                                assert(self.names()[j0] == k);
                                assert(j == j0);
                            }
                        }
                    }
                }
            },
        }
    }
}

} // verus!
