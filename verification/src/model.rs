//! Column-range descriptors and the selection engine.
//!
//! A [`Range`] names one shape of column range, with all indices zero-based.
//! A [`Target`] is an ordered list of ranges; applying it to a row picks the
//! fields each range covers, in the order the ranges were declared, keeping
//! duplicates where ranges overlap.

use vstd::prelude::*;

verus! {

/// One parsed column range, all indices zero-based.
#[derive(Debug, Clone, Copy, PartialEq, Eq, Structural)]
pub enum Range {
    /// Exactly one column, e.g. `3`.
    Single(u8),
    /// All columns from the given one to the end of the row, e.g. `4-`.
    Left(u8),
    /// All columns from the start of the row up to and including the given
    /// one, e.g. `-5`.
    Right(u8),
    /// All columns between the two given ones, both inclusive, e.g. `7-9`.
    Interval(u8, u8),
}

impl Range {
    /// The half-open index interval `[start, end)` a range covers, before
    /// clamping to any particular row's width.
    pub open spec fn ends_spec(self) -> (int, int) {
        match self {
            Range::Single(x) => (x as int, x as int + 1),
            Range::Left(x) => (x as int, usize::MAX as int),
            Range::Right(x) => (0, x as int + 1),
            Range::Interval(x, y) => (x as int, y as int + 1),
        }
    }

    /// Half-open bounds of the positions this range selects.
    pub fn ends(&self) -> (r: (usize, usize))
        ensures
            (r.0 as int, r.1 as int) == self.ends_spec(),
    {
        match self {
            Range::Single(x) => (*x as usize, *x as usize + 1),
            Range::Left(x) => (*x as usize, usize::MAX),
            Range::Right(x) => (0, *x as usize + 1),
            Range::Interval(x, y) => (*x as usize, *y as usize + 1),
        }
    }
}

/// The fields of `row` that `r` selects, in ascending position order: the
/// positions of the row that lie inside `r`'s half-open interval.
pub open spec fn range_sel(r: Range, row: Seq<String>) -> Seq<String> {
    let lo = r.ends_spec().0;
    let hi = r.ends_spec().1;
    let l = if lo <= row.len() { lo } else { row.len() as int };
    let h = if hi <= row.len() { hi } else { row.len() as int };
    if h <= l {
        Seq::empty()
    } else {
        row.subrange(l, h)
    }
}

/// The fields selected by a whole list of ranges: each range's selection in
/// turn, concatenated in the order the ranges appear.
pub open spec fn selected_of(ranges: Seq<Range>, row: Seq<String>) -> Seq<String>
    decreases ranges.len(),
{
    if ranges.len() == 0 {
        Seq::empty()
    } else {
        range_sel(ranges[0], row) + selected_of(ranges.drop_first(), row)
    }
}

/// An ordered column selector: the ranges to apply, in declaration order.
#[derive(Debug, Clone)]
pub struct Target {
    pub ranges: Vec<Range>,
}

/// The ordered output of applying a [`Target`] to one row of fields.
#[derive(Debug, Clone)]
pub struct ResultRow(pub Vec<String>);

proof fn lemma_selected_of_take(ranges: Seq<Range>, row: Seq<String>, k: int)
    requires
        0 <= k < ranges.len(),
    ensures
        selected_of(ranges.subrange(0, k + 1), row) == selected_of(ranges.subrange(0, k), row)
            + range_sel(ranges[k], row),
    decreases k,
{
    let a = ranges.subrange(0, k + 1);
    let b = ranges.subrange(0, k);
    if k == 0 {
        assert(a.drop_first() =~= Seq::<Range>::empty());
        assert(selected_of(Seq::<Range>::empty(), row) == Seq::<String>::empty());
        assert(selected_of(a, row) == range_sel(a[0], row) + selected_of(a.drop_first(), row));
        assert(a[0] == ranges[0]);
        assert(b =~= Seq::<Range>::empty());
        assert(selected_of(a, row) =~= selected_of(b, row) + range_sel(ranges[0], row));
    } else {
        let tail = ranges.drop_first();
        lemma_selected_of_take(tail, row, k - 1);
        assert(a.drop_first() =~= tail.subrange(0, k));
        assert(b.drop_first() =~= tail.subrange(0, k - 1));
        assert(tail[k - 1] == ranges[k]);
        assert(selected_of(a, row) == range_sel(ranges[0], row) + selected_of(
            tail.subrange(0, k),
            row,
        ));
        assert(selected_of(b, row) == range_sel(ranges[0], row) + selected_of(
            tail.subrange(0, k - 1),
            row,
        ));
        assert(selected_of(a, row) =~= selected_of(b, row) + range_sel(ranges[k], row));
    }
}

impl Target {
    /// Cut out the selected portions of the row: every range in turn
    /// contributes the fields at the positions it covers, clamped to the
    /// row's width; overlapping ranges repeat fields.
    pub fn select(&self, row: &Vec<String>) -> (out: ResultRow)
        ensures
            out.0@ == selected_of(self.ranges@, row@),
    {
        let mut v: Vec<String> = Vec::new();
        let n = row.len();
        let mut k: usize = 0;
        assert(self.ranges@.subrange(0, 0) =~= Seq::<Range>::empty());
        while k < self.ranges.len()
            invariant
                k <= self.ranges@.len(),
                n == row@.len(),
                v@ == selected_of(self.ranges@.subrange(0, k as int), row@),
            decreases self.ranges@.len() - k,
        {
            let (lo, hi) = self.ranges[k].ends();
            let l = if lo <= n {
                lo
            } else {
                n
            };
            let h = if hi <= n {
                hi
            } else {
                n
            };
            let ghost v_before = v@;
            let mut i = l;
            if l < h {
                assert(range_sel(self.ranges@[k as int], row@) == row@.subrange(
                    l as int,
                    h as int,
                ));
                while i < h
                    invariant
                        l <= i <= h <= n,
                        n == row@.len(),
                        v@ == v_before + row@.subrange(l as int, i as int),
                    decreases h - i,
                {
                    assert(v_before + row@.subrange(l as int, i as int) =~= v@);
                    v.push(row[i].clone());
                    i = i + 1;
                    assert(row@.subrange(l as int, i as int) =~= row@.subrange(
                        l as int,
                        i - 1 as int,
                    ).push(row@[i - 1 as int]));
                }
                assert(v@ =~= v_before + range_sel(self.ranges@[k as int], row@));
            } else {
                assert(range_sel(self.ranges@[k as int], row@) =~= Seq::<String>::empty());
                assert(v@ =~= v_before + range_sel(self.ranges@[k as int], row@));
            }
            proof {
                lemma_selected_of_take(self.ranges@, row@, k as int);
            }
            k = k + 1;
        }
        assert(self.ranges@.subrange(0, self.ranges@.len() as int) =~= self.ranges@);
        ResultRow(v)
    }
}

/// A selector with no ranges selects nothing, whatever the row holds.
pub proof fn lemma_empty_selector(ranges: Seq<Range>, row: Seq<String>)
    requires
        ranges.len() == 0,
    ensures
        selected_of(ranges, row) == Seq::<String>::empty(),
{
}

/// A reversed interval (`i > j`) selects nothing, whatever the row holds,
/// alone or as one range of a selector.
pub proof fn lemma_reversed_interval(i: u8, j: u8, row: Seq<String>)
    requires
        i > j,
    ensures
        range_sel(Range::Interval(i, j), row) == Seq::<String>::empty(),
        selected_of(seq![Range::Interval(i, j)], row) == Seq::<String>::empty(),
{
    let one = seq![Range::Interval(i, j)];
    assert(one.drop_first() =~= Seq::<Range>::empty());
    assert(selected_of(Seq::<Range>::empty(), row) == Seq::<String>::empty());
    assert(selected_of(one, row) =~= Seq::<String>::empty());
}

} // verus!
