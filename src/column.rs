use crate::num::{less_than, words_for, Num, MAX_PREC, MIN_PREC};
use vstd::prelude::*;
use vstd::seq_lib::{to_multiset_contains, to_multiset_len};

verus! {

/// The values of a sequence of numbers, each times `2^(2^63)`.
pub open spec fn scaled_values(s: Seq<Num>) -> Seq<int> {
    s.map_values(|n: Num| n.scaled())
}

/// The least element, as a left fold that keeps the earlier of two equal ones.
pub open spec fn seq_min(s: Seq<int>) -> int
    decreases s.len(),
{
    if s.len() <= 1 {
        if s.len() == 1 { s[0] } else { 0 }
    } else {
        let m = seq_min(s.drop_last());
        if s.last() < m { s.last() } else { m }
    }
}

/// The greatest element, as a left fold that keeps the earlier of two equal ones.
pub open spec fn seq_max(s: Seq<int>) -> int
    decreases s.len(),
{
    if s.len() <= 1 {
        if s.len() == 1 { s[0] } else { 0 }
    } else {
        let m = seq_max(s.drop_last());
        if m < s.last() { s.last() } else { m }
    }
}

/// `seq_min` is an element, and no element is below it.
pub proof fn lemma_seq_min(s: Seq<int>)
    requires
        s.len() > 0,
    ensures
        s.contains(seq_min(s)),
        forall|i: int| 0 <= i < s.len() ==> seq_min(s) <= s[i],
    decreases s.len(),
{
    if s.len() > 1 {
        let d = s.drop_last();
        lemma_seq_min(d);
        let k = choose|k: int| 0 <= k < d.len() && d[k] == seq_min(d);
        assert(s[k] == d[k]);
        assert(s[s.len() - 1] == s.last());
        assert forall|i: int| 0 <= i < s.len() implies seq_min(s) <= s[i] by {
            if i < s.len() - 1 {
                assert(s[i] == d[i]);
            }
        }
    } else {
        assert(s[0] == seq_min(s));
    }
}

/// `seq_max` is an element, and no element is above it.
pub proof fn lemma_seq_max(s: Seq<int>)
    requires
        s.len() > 0,
    ensures
        s.contains(seq_max(s)),
        forall|i: int| 0 <= i < s.len() ==> s[i] <= seq_max(s),
    decreases s.len(),
{
    if s.len() > 1 {
        let d = s.drop_last();
        lemma_seq_max(d);
        let k = choose|k: int| 0 <= k < d.len() && d[k] == seq_max(d);
        assert(s[k] == d[k]);
        assert(s[s.len() - 1] == s.last());
        assert forall|i: int| 0 <= i < s.len() implies s[i] <= seq_max(s) by {
            if i < s.len() - 1 {
                assert(s[i] == d[i]);
            }
        }
    } else {
        assert(s[0] == seq_max(s));
    }
}

/// The extrema of two sequences that hold the same elements, in whatever order, are equal.
pub proof fn lemma_extrema_of_permutation(s: Seq<int>, t: Seq<int>)
    requires
        s.to_multiset() == t.to_multiset(),
    ensures
        s.len() == t.len(),
        seq_min(s) == seq_min(t),
        seq_max(s) == seq_max(t),
{
    to_multiset_len(s);
    to_multiset_len(t);
    if s.len() > 0 {
        lemma_seq_min(s);
        lemma_seq_min(t);
        lemma_seq_max(s);
        lemma_seq_max(t);
        to_multiset_contains(s, seq_min(s));
        to_multiset_contains(t, seq_min(s));
        to_multiset_contains(s, seq_min(t));
        to_multiset_contains(t, seq_min(t));
        to_multiset_contains(s, seq_max(s));
        to_multiset_contains(t, seq_max(s));
        to_multiset_contains(s, seq_max(t));
        to_multiset_contains(t, seq_max(t));
    }
}

/// The observed history of one column: every value in the order it was
/// added, the count, and the extrema.
///
/// The extrema of an empty column are zero by convention.
pub struct ColumnStats {
    precision: u32,
    width: usize,
    count: usize,
    max: Num,
    min: Num,
    values: Vec<Num>,
}

impl ColumnStats {
    pub closed spec fn precision_spec(&self) -> u32 {
        self.precision
    }

    /// The width, in 64-bit words, of every mantissa of the column.
    pub closed spec fn width_spec(&self) -> nat {
        self.width as nat
    }

    /// The values added so far, in insertion order.
    pub closed spec fn values_spec(&self) -> Seq<Num> {
        self.values@
    }

    pub closed spec fn count_spec(&self) -> nat {
        self.count as nat
    }

    pub closed spec fn min_spec(&self) -> Num {
        self.min
    }

    pub closed spec fn max_spec(&self) -> Num {
        self.max
    }

    pub closed spec fn wf(&self) -> bool {
        &&& MIN_PREC <= self.precision <= MAX_PREC
        &&& self.width as nat == words_for(self.precision)
        &&& self.count == self.values@.len()
        &&& forall|i: int|
            0 <= i < self.values@.len() ==> #[trigger] self.values@[i].wf(self.width as nat)
        &&& self.min.wf(self.width as nat)
        &&& self.max.wf(self.width as nat)
        &&& self.min.scaled() == seq_min(scaled_values(self.values@))
        &&& self.max.scaled() == seq_max(scaled_values(self.values@))
    }

    /// An empty column whose numbers carry `precision` bits.
    pub fn new(precision: u32) -> (r: ColumnStats)
        requires
            MIN_PREC <= precision <= MAX_PREC,
        ensures
            r.wf(),
            r.precision_spec() == precision,
            r.width_spec() == words_for(precision),
            r.values_spec().len() == 0,
            r.min_spec().is_zero(),
            r.max_spec().is_zero(),
    {
        let width: usize = ((precision as usize) + 63) / 64;
        let r = ColumnStats {
            precision,
            width,
            count: 0,
            max: Num::zero(width),
            min: Num::zero(width),
            values: Vec::new(),
        };
        assert(scaled_values(r.values@) =~= Seq::<int>::empty());
        r
    }

    /// Adds one value: it is kept, counted, and taken into the extrema.
    pub fn add(&mut self, value: Num)
        requires
            old(self).wf(),
            value.wf(old(self).width_spec()),
            old(self).values_spec().len() < usize::MAX,
        ensures
            final(self).wf(),
            final(self).precision_spec() == old(self).precision_spec(),
            final(self).width_spec() == old(self).width_spec(),
            final(self).values_spec() == old(self).values_spec().push(value),
    {
        let ghost old_values = self.values@;
        if self.count == 0 {
            self.max = value.duplicate();
            self.min = value.duplicate();
        } else {
            if less_than(&self.max, &value) {
                self.max = value.duplicate();
            }
            if less_than(&value, &self.min) {
                self.min = value.duplicate();
            }
        }
        self.values.push(value);
        self.count += 1;
        proof {
            let s = scaled_values(self.values@);
            assert(s.drop_last() =~= scaled_values(old_values));
            assert(s.last() == value.scaled());
        }
    }

    pub fn count(&self) -> (r: usize)
        requires
            self.wf(),
        ensures
            r == self.values_spec().len(),
    {
        self.count
    }

    /// The least value; zero for an empty column.
    pub fn minimum(&self, _precision: u32) -> (r: &Num)
        requires
            self.wf(),
        ensures
            r.wf(self.width_spec()),
            r.scaled() == seq_min(scaled_values(self.values_spec())),
    {
        &self.min
    }

    /// The greatest value; zero for an empty column.
    pub fn maximum(&self, _precision: u32) -> (r: &Num)
        requires
            self.wf(),
        ensures
            r.wf(self.width_spec()),
            r.scaled() == seq_max(scaled_values(self.values_spec())),
    {
        &self.max
    }

    /// Every value added, in insertion order: the order in which sums accumulate.
    pub fn values(&self) -> (r: &Vec<Num>)
        ensures
            r@ == self.values_spec(),
    {
        &self.values
    }

    pub fn precision(&self) -> (r: u32)
        ensures
            r == self.precision_spec(),
    {
        self.precision
    }
}

/// A column counts exactly the values it holds, and when it holds any, its
/// minimum is at most, and its maximum at least, every one of them.
pub proof fn lemma_count_and_extrema(c: &ColumnStats)
    requires
        c.wf(),
    ensures
        c.count_spec() == c.values_spec().len(),
        c.values_spec().len() > 0 ==> forall|i: int|
            0 <= i < c.values_spec().len() ==> c.min_spec().scaled()
                <= #[trigger] c.values_spec()[i].scaled() <= c.max_spec().scaled(),
{
    let s = scaled_values(c.values_spec());
    if s.len() > 0 {
        lemma_seq_min(s);
        lemma_seq_max(s);
        assert forall|i: int| 0 <= i < c.values_spec().len() implies c.min_spec().scaled()
            <= #[trigger] c.values_spec()[i].scaled() <= c.max_spec().scaled() by {
            assert(s[i] == c.values_spec()[i].scaled());
        }
    }
}

/// Two columns fed the same values in different orders have the same count,
/// and minima and maxima of the same value.
pub proof fn lemma_order_insensitive_extrema(a: &ColumnStats, b: &ColumnStats)
    requires
        a.wf(),
        b.wf(),
        scaled_values(a.values_spec()).to_multiset() == scaled_values(b.values_spec()).to_multiset(),
    ensures
        a.count_spec() == b.count_spec(),
        a.min_spec().scaled() == b.min_spec().scaled(),
        a.max_spec().scaled() == b.max_spec().scaled(),
{
    lemma_extrema_of_permutation(scaled_values(a.values_spec()), scaled_values(b.values_spec()));
}

} // verus!
