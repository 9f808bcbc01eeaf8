//! The running aggregate of one station: minimum, maximum, sum and count of
//! its measurements, all in tenths of a degree.
use vstd::prelude::*;

verus! {

/// What an accumulator holds, as mathematical integers.
pub struct StationView {
    pub min: int,
    pub max: int,
    pub sum: int,
    pub count: nat,
}

/// The accumulator before any measurement: sentinel extremes, zero sum.
pub open spec fn empty_view() -> StationView {
    StationView { min: i16::MAX as int, max: i16::MIN as int, sum: 0, count: 0 }
}

pub open spec fn min_of(a: int, b: int) -> int {
    if a <= b {
        a
    } else {
        b
    }
}

pub open spec fn max_of(a: int, b: int) -> int {
    if a >= b {
        a
    } else {
        b
    }
}

/// One measurement folded into an accumulator.
pub open spec fn add_view(a: StationView, v: int) -> StationView {
    StationView {
        min: min_of(a.min, v),
        max: max_of(a.max, v),
        sum: a.sum + v,
        count: a.count + 1,
    }
}

/// Two accumulators combined.
pub open spec fn merge_view(a: StationView, b: StationView) -> StationView {
    StationView {
        min: min_of(a.min, b.min),
        max: max_of(a.max, b.max),
        sum: a.sum + b.sum,
        count: a.count + b.count,
    }
}

/// A fresh accumulator fed the measurements of `s`, first to last.
pub open spec fn fold(s: Seq<i16>) -> StationView
    decreases s.len(),
{
    if s.len() == 0 {
        empty_view()
    } else {
        add_view(fold(s.drop_last()), s.last() as int)
    }
}

/// The bounds that hold of every accumulator: the sentinels while it is
/// empty; otherwise `min * count <= sum <= max * count`, which is
/// `min <= mean <= max`.
pub open spec fn view_wf(a: StationView) -> bool {
    &&& i16::MIN <= a.min <= i16::MAX
    &&& i16::MIN <= a.max <= i16::MAX
    &&& a.count == 0 ==> a == empty_view()
    &&& a.count > 0 ==> a.min <= a.max && a.min * a.count <= a.sum <= a.max * a.count
}

/// The mean of any measurements fed to one accumulator lies between their
/// minimum and their maximum.
pub proof fn lemma_mean_between_extremes(s: Seq<i16>)
    ensures
        view_wf(fold(s)),
        s.len() > 0 ==> fold(s).min * fold(s).count <= fold(s).sum <= fold(s).max * fold(s).count,
        fold(s).count == s.len(),
    decreases s.len(),
{
    if s.len() > 0 {
        lemma_mean_between_extremes(s.drop_last());
        lemma_add_wf(fold(s.drop_last()), s.last() as int);
    }
}

/// Adding an `i16` measurement keeps an accumulator's bounds.
pub proof fn lemma_add_wf(a: StationView, v: int)
    requires
        view_wf(a),
        i16::MIN <= v <= i16::MAX,
    ensures
        view_wf(add_view(a, v)),
{
    let r = add_view(a, v);
    if a.count > 0 {
        assert(r.min * r.count == r.min * a.count + r.min) by (nonlinear_arith)
            requires
                r.count == a.count + 1,
        ;
        assert(r.max * r.count == r.max * a.count + r.max) by (nonlinear_arith)
            requires
                r.count == a.count + 1,
        ;
        assert(r.min * a.count <= a.min * a.count) by (nonlinear_arith)
            requires
                r.min <= a.min,
                a.count > 0,
        ;
        assert(a.max * a.count <= r.max * a.count) by (nonlinear_arith)
            requires
                a.max <= r.max,
                a.count > 0,
        ;
    }
}

/// Merging keeps the bounds of both accumulators.
pub proof fn lemma_merge_wf(a: StationView, b: StationView)
    requires
        view_wf(a),
        view_wf(b),
    ensures
        view_wf(merge_view(a, b)),
{
    let r = merge_view(a, b);
    if a.count > 0 && b.count > 0 {
        assert(r.min * r.count == r.min * a.count + r.min * b.count) by (nonlinear_arith)
            requires
                r.count == a.count + b.count,
        ;
        assert(r.max * r.count == r.max * a.count + r.max * b.count) by (nonlinear_arith)
            requires
                r.count == a.count + b.count,
        ;
        assert(r.min * a.count <= a.min * a.count && r.min * b.count <= b.min * b.count)
            by (nonlinear_arith)
            requires
                r.min <= a.min,
                r.min <= b.min,
                a.count > 0,
                b.count > 0,
        ;
        assert(a.max * a.count <= r.max * a.count && b.max * b.count <= r.max * b.count)
            by (nonlinear_arith)
            requires
                a.max <= r.max,
                b.max <= r.max,
                a.count > 0,
                b.count > 0,
        ;
    }
}

/// The sum of a bounded accumulator is at most `2^15` times its count in
/// magnitude.
pub proof fn lemma_sum_bound(a: StationView)
    requires
        view_wf(a),
    ensures
        -32768 * a.count <= a.sum <= 32767 * a.count,
{
    if a.count > 0 {
        assert(-32768 * a.count <= a.min * a.count) by (nonlinear_arith)
            requires
                -32768 <= a.min,
                a.count > 0,
        ;
        assert(a.max * a.count <= 32767 * a.count) by (nonlinear_arith)
            requires
                a.max <= 32767,
                a.count > 0,
        ;
    }
}

/// Merging does not depend on the order of its two arguments.
pub proof fn lemma_merge_commutative(a: StationView, b: StationView)
    ensures
        merge_view(a, b) == merge_view(b, a),
{
}

/// Merging three accumulators does not depend on how they are grouped.
pub proof fn lemma_merge_associative(a: StationView, b: StationView, c: StationView)
    ensures
        merge_view(merge_view(a, b), c) == merge_view(a, merge_view(b, c)),
{
}

/// Merging the accumulators of two runs of measurements gives what one
/// fresh accumulator fed both runs, one after the other, would hold.
pub proof fn lemma_merge_is_concatenation(s1: Seq<i16>, s2: Seq<i16>)
    ensures
        merge_view(fold(s1), fold(s2)) == fold(s1 + s2),
    decreases s2.len(),
{
    if s2.len() == 0 {
        assert(s1 + s2 =~= s1);
        lemma_mean_between_extremes(s1);
    } else {
        lemma_merge_is_concatenation(s1, s2.drop_last());
        assert((s1 + s2).drop_last() =~= s1 + s2.drop_last());
        assert((s1 + s2).last() == s2.last());
    }
}

/// Taking one measurement out of a run and feeding it last changes nothing.
proof fn lemma_fold_remove(s: Seq<i16>, i: int)
    requires
        0 <= i < s.len(),
    ensures
        fold(s) == add_view(fold(s.remove(i)), s[i] as int),
{
    let a = s.take(i);
    let b = s.skip(i + 1);
    let x = seq![s[i]];
    assert(s =~= (a + x) + b);
    assert(s.remove(i) =~= a + b);
    assert(x =~= Seq::<i16>::empty().push(s[i]));
    assert(x.drop_last() =~= Seq::<i16>::empty());
    lemma_merge_is_concatenation(a + x, b);
    lemma_merge_is_concatenation(a, x);
    lemma_merge_is_concatenation(a, b);
    lemma_merge_is_concatenation(a + b, x);
    assert((a + b) + x =~= (a + b).push(s[i]));
    assert(((a + b).push(s[i])).drop_last() =~= a + b);
}

/// Feeding the same measurements in any order gives the same accumulator.
pub proof fn lemma_fold_permutation(s1: Seq<i16>, s2: Seq<i16>)
    requires
        s1.to_multiset() == s2.to_multiset(),
    ensures
        fold(s1) == fold(s2),
    decreases s1.len(),
{
    broadcast use vstd::seq_lib::group_to_multiset_ensures;

    if s1.len() == 0 {
        assert(s1.to_multiset().len() == 0);
        assert(s2.to_multiset().len() == s2.len());
        assert(s2 =~= s1);
    } else {
        let x = s1.last();
        let rest = s1.drop_last();
        assert(s1 =~= rest.push(x));
        assert(s1.to_multiset() =~= rest.to_multiset().insert(x));
        assert(s2.to_multiset().count(x) > 0);
        assert(s2.contains(x));
        let i = choose|i: int| 0 <= i < s2.len() && s2[i] == x;
        let r2 = s2.remove(i);
        assert(r2.to_multiset() =~= s2.to_multiset().remove(x));
        assert(r2.to_multiset() =~= rest.to_multiset());
        lemma_fold_permutation(rest, r2);
        lemma_fold_remove(s2, i);
    }
}

/// The running aggregate of one station's measurements, in tenths.
#[derive(Debug, Clone, Copy)]
pub struct WeatherStation {
    pub min: i16,
    pub max: i16,
    pub sum: i64,
    pub count: u32,
}

impl View for WeatherStation {
    type V = StationView;

    open spec fn view(&self) -> StationView {
        StationView {
            min: self.min as int,
            max: self.max as int,
            sum: self.sum as int,
            count: self.count as nat,
        }
    }
}

impl WeatherStation {
    pub open spec fn wf(&self) -> bool {
        view_wf(self@)
    }

    /// An accumulator that has seen no measurement.
    pub fn new() -> (r: Self)
        ensures
            r@ == empty_view(),
            r.wf(),
    {
        WeatherStation { min: i16::MAX, max: i16::MIN, sum: 0, count: 0 }
    }

    /// Folds one measurement in.
    pub fn add_measurement(&mut self, measurement: i16)
        requires
            old(self).wf(),
            old(self).count < u32::MAX,
        ensures
            final(self)@ == add_view(old(self)@, measurement as int),
            final(self).wf(),
    {
        proof {
            lemma_sum_bound(self@);
            lemma_add_wf(self@, measurement as int);
        }
        if measurement < self.min {
            self.min = measurement;
        }
        if measurement > self.max {
            self.max = measurement;
        }
        self.sum = self.sum + measurement as i64;
        self.count = self.count + 1;
    }

    /// Combines `other` into `self`, as if each of its measurements had
    /// been added here.
    pub fn merge(&mut self, other: &WeatherStation)
        requires
            old(self).wf(),
            other.wf(),
            old(self).count + other.count <= u32::MAX,
        ensures
            final(self)@ == merge_view(old(self)@, other@),
            final(self).wf(),
    {
        proof {
            lemma_sum_bound(self@);
            lemma_sum_bound(other@);
            lemma_merge_wf(self@, other@);
        }
        if other.min < self.min {
            self.min = other.min;
        }
        if other.max > self.max {
            self.max = other.max;
        }
        self.sum = self.sum + other.sum;
        self.count = self.count + other.count;
    }

    /// Smallest measurement, in tenths.
    pub fn min_tenths(&self) -> (r: i16)
        ensures
            r == self.min,
    {
        self.min
    }

    /// Largest measurement, in tenths.
    pub fn max_tenths(&self) -> (r: i16)
        ensures
            r == self.max,
    {
        self.max
    }

    /// Sum of the measurements, in tenths.
    pub fn sum_tenths(&self) -> (r: i64)
        ensures
            r == self.sum,
    {
        self.sum
    }

    /// Number of measurements folded in.
    pub fn count(&self) -> (r: u32)
        ensures
            r == self.count,
    {
        self.count
    }
}

} // verus!
