//! The food grid: `width * height` cells of fixed-point values. Agents only
//! ever add to a cell (consumption is a negative amount), so the state after
//! a tick does not depend on the order in which their additions arrive.

use crate::fixed::{lemma_clamp_bounds, representable, Fixed};
use vstd::prelude::*;

verus! {

/// The exact sum of the numerators of `cells`.
pub open spec fn total_of(cells: Seq<Fixed>) -> int
    decreases cells.len(),
{
    if cells.len() == 0 {
        0
    } else {
        total_of(cells.drop_last()) + cells.last()@
    }
}

/// `cells` after `amount` was added to the cell at position `i`.
pub open spec fn with_added(cells: Seq<Fixed>, i: int, amount: Fixed) -> Seq<Fixed> {
    cells.update(i, cells[i].spec_plus(amount))
}

/// Replacing one cell changes the total by the difference of the two values.
pub proof fn lemma_total_update(cells: Seq<Fixed>, i: int, value: Fixed)
    requires
        0 <= i < cells.len(),
    ensures
        total_of(cells.update(i, value)) == total_of(cells) - cells[i]@ + value@,
    decreases cells.len(),
{
    if i == cells.len() - 1 {
        assert(cells.update(i, value).drop_last() =~= cells.drop_last());
    } else {
        assert(cells.update(i, value).drop_last() =~= cells.drop_last().update(i, value));
        lemma_total_update(cells.drop_last(), i, value);
    }
}

/// The total of `n` cells lies within `n` times the range of one numerator.
pub proof fn lemma_total_bound(cells: Seq<Fixed>)
    ensures
        -(cells.len() * 0x8000_0000_0000_0000) <= total_of(cells) <= cells.len()
            * 0x8000_0000_0000_0000,
    decreases cells.len(),
{
    if cells.len() > 0 {
        lemma_total_bound(cells.drop_last());
        let last = cells.last();
        let n = cells.len() as int;
        Fixed::lemma_view_range(last);
        assert((n - 1) * 0x8000_0000_0000_0000 + 0x8000_0000_0000_0000 == n
            * 0x8000_0000_0000_0000) by (nonlinear_arith);
    }
}

/// Two additions give the same cells in either order, whichever cells they
/// go to, as long as every sum along the way is representable.
pub proof fn lemma_adds_commute(cells: Seq<Fixed>, i: int, a: Fixed, j: int, b: Fixed)
    requires
        0 <= i < cells.len(),
        0 <= j < cells.len(),
        representable(cells[i]@ + a@),
        representable(cells[j]@ + b@),
        i == j ==> representable(cells[i]@ + a@ + b@),
    ensures
        with_added(with_added(cells, i, a), j, b) == with_added(with_added(cells, j, b), i, a),
{
    Fixed::lemma_plus_view(cells[i], a);
    Fixed::lemma_plus_view(cells[j], b);
    if i == j {
        Fixed::lemma_plus_view(cells[i].spec_plus(a), b);
        Fixed::lemma_plus_view(cells[i].spec_plus(b), a);
        Fixed::lemma_view_injective(
            cells[i].spec_plus(a).spec_plus(b),
            cells[i].spec_plus(b).spec_plus(a),
        );
    }
    assert(with_added(with_added(cells, i, a), j, b) =~= with_added(
        with_added(cells, j, b),
        i,
        a,
    ));
}

/// Adding to a cell moves the total by exactly the amount added.
pub proof fn lemma_total_with_added(cells: Seq<Fixed>, i: int, amount: Fixed)
    requires
        0 <= i < cells.len(),
        representable(cells[i]@ + amount@),
    ensures
        total_of(with_added(cells, i, amount)) == total_of(cells) + amount@,
{
    Fixed::lemma_plus_view(cells[i], amount);
    lemma_total_update(cells, i, cells[i].spec_plus(amount));
}

/// What the additions `adds`, each a position and an amount, bring to the
/// cell at position `i` in all: the exact sum of the amounts that go there.
pub open spec fn net_added(adds: Seq<(int, Fixed)>, i: int) -> int
    decreases adds.len(),
{
    if adds.len() == 0 {
        0
    } else {
        net_added(adds.drop_last(), i) + gain(adds.last(), i)
    }
}

/// What one addition brings to the cell at position `i`.
pub open spec fn gain(addition: (int, Fixed), i: int) -> int {
    if addition.0 == i {
        addition.1@
    } else {
        0
    }
}

/// `cells` after the additions `adds` were applied one after the other.
pub open spec fn after_adds(cells: Seq<Fixed>, adds: Seq<(int, Fixed)>) -> Seq<Fixed>
    decreases adds.len(),
{
    if adds.len() == 0 {
        cells
    } else {
        with_added(after_adds(cells, adds.drop_last()), adds.last().0, adds.last().1)
    }
}

/// Whether every addition goes to a cell, and every cell can hold its value
/// after each of the additions.
pub open spec fn sums_fit(cells: Seq<Fixed>, adds: Seq<(int, Fixed)>) -> bool {
    &&& forall|k: int| 0 <= k < adds.len() ==> 0 <= (#[trigger] adds[k]).0 < cells.len()
    &&& forall|p: int, i: int|
        0 <= p <= adds.len() && 0 <= i < cells.len() ==> representable(
            cells[i]@ + #[trigger] net_added(adds.take(p), i),
        )
}

/// Taking one addition out lowers what arrives at a cell by what that
/// addition brought.
pub proof fn lemma_net_added_remove(adds: Seq<(int, Fixed)>, k: int, i: int)
    requires
        0 <= k < adds.len(),
    ensures
        net_added(adds, i) == net_added(adds.remove(k), i) + gain(adds[k], i),
    decreases adds.len(),
{
    if k == adds.len() - 1 {
        assert(adds.remove(k) =~= adds.drop_last());
    } else {
        assert(adds.remove(k).drop_last() =~= adds.drop_last().remove(k));
        assert(adds.remove(k).last() == adds.last());
        lemma_net_added_remove(adds.drop_last(), k, i);
    }
}

/// What arrives at a cell does not depend on the order of the additions.
pub proof fn lemma_net_added_any_order(a: Seq<(int, Fixed)>, b: Seq<(int, Fixed)>, i: int)
    requires
        a.to_multiset() == b.to_multiset(),
    ensures
        net_added(a, i) == net_added(b, i),
    decreases a.len(),
{
    a.to_multiset_ensures();
    b.to_multiset_ensures();
    assert(a.len() == b.len());
    if a.len() > 0 {
        let n = a.len() - 1;
        let x = a[n];
        assert(a.contains(x));
        assert(b.to_multiset().count(x) > 0);
        let k = choose|k: int| 0 <= k < b.len() && b[k] == x;
        assert(a.remove(n) =~= a.drop_last());
        assert(a.drop_last().to_multiset() == b.remove(k).to_multiset());
        lemma_net_added_any_order(a.drop_last(), b.remove(k), i);
        lemma_net_added_remove(b, k, i);
    }
}

/// After any run of additions each cell holds what it held before plus all
/// that was added to it.
pub proof fn lemma_after_adds(cells: Seq<Fixed>, adds: Seq<(int, Fixed)>)
    requires
        sums_fit(cells, adds),
    ensures
        after_adds(cells, adds).len() == cells.len(),
        forall|i: int|
            0 <= i < cells.len() ==> (#[trigger] after_adds(cells, adds)[i])@ == cells[i]@
                + net_added(adds, i),
    decreases adds.len(),
{
    if adds.len() > 0 {
        let n = adds.len() - 1;
        let earlier = adds.drop_last();
        assert(adds[n].0 == adds.last().0);
        assert forall|k: int| 0 <= k < earlier.len() implies 0 <= (#[trigger] earlier[k]).0
            < cells.len() by {
            assert(earlier[k] == adds[k]);
        }
        assert forall|p: int, i: int|
            0 <= p <= earlier.len() && 0 <= i < cells.len() implies representable(
            cells[i]@ + #[trigger] net_added(earlier.take(p), i),
        ) by {
            assert(earlier.take(p) =~= adds.take(p));
        }
        lemma_after_adds(cells, earlier);
        let prev = after_adds(cells, earlier);
        let j = adds.last().0;
        assert(adds.take(adds.len() as int) =~= adds);
        assert(representable(cells[j]@ + net_added(adds.take(adds.len() as int), j)));
        assert(prev[j]@ == cells[j]@ + net_added(earlier, j));
        Fixed::lemma_plus_view(prev[j], adds.last().1);
    }
}

/// The cells after a run of additions are the same for every order of the
/// run, as long as in both orders every cell can hold its value after each
/// addition.
pub proof fn lemma_adds_any_order(cells: Seq<Fixed>, a: Seq<(int, Fixed)>, b: Seq<(int, Fixed)>)
    requires
        a.to_multiset() == b.to_multiset(),
        sums_fit(cells, a),
        sums_fit(cells, b),
    ensures
        after_adds(cells, a) == after_adds(cells, b),
{
    lemma_after_adds(cells, a);
    lemma_after_adds(cells, b);
    assert forall|i: int| 0 <= i < cells.len() implies after_adds(cells, a)[i] == after_adds(
        cells,
        b,
    )[i] by {
        lemma_net_added_any_order(a, b, i);
        Fixed::lemma_view_injective(after_adds(cells, a)[i], after_adds(cells, b)[i]);
    }
    assert(after_adds(cells, a) =~= after_adds(cells, b));
}

/// A grid of `width * height` cells.
#[derive(Clone, Debug)]
pub struct FoodGrid {
    width: usize,
    height: usize,
    cells: Vec<Fixed>,
}

impl FoodGrid {
    /// The number of columns.
    pub closed spec fn spec_width(&self) -> nat {
        self.width as nat
    }

    /// The number of rows.
    pub closed spec fn spec_height(&self) -> nat {
        self.height as nat
    }

    /// All the cells, column after column.
    pub closed spec fn cells(&self) -> Seq<Fixed> {
        self.cells@
    }

    /// There is one cell for each pair of a column and a row.
    pub closed spec fn wf(&self) -> bool {
        self.cells@.len() == self.width * self.height
    }

    /// Where the cell of column `w` and row `h` stands in `cells`.
    pub open spec fn position(&self, w: int, h: int) -> int {
        w * self.spec_height() + h
    }

    /// The value of the cell in column `w` and row `h`.
    pub open spec fn at(&self, w: int, h: int) -> Fixed {
        self.cells()[self.position(w, h)]
    }

    /// Whether `(w, h)` names a cell.
    pub open spec fn in_bounds(&self, w: int, h: int) -> bool {
        0 <= w < self.spec_width() && 0 <= h < self.spec_height()
    }

    /// Every pair in bounds has a position of its own among the cells.
    pub proof fn lemma_position(&self, w: int, h: int)
        requires
            self.wf(),
            self.in_bounds(w, h),
        ensures
            0 <= w * self.spec_height() <= self.position(w, h) < self.cells().len(),
            self.cells().len() == self.spec_width() * self.spec_height(),
    {
        let height = self.spec_height() as int;
        let width = self.spec_width() as int;
        assert(0 <= w * height) by (nonlinear_arith)
            requires
                0 <= w,
                0 <= height,
        ;
        assert(w * height + h < width * height) by (nonlinear_arith)
            requires
                0 <= w < width,
                0 <= h < height,
        ;
    }

    /// A grid of zeros.
    pub fn new(width: usize, height: usize) -> (r: FoodGrid)
        requires
            width * height <= usize::MAX,
        ensures
            r.wf(),
            r.spec_width() == width,
            r.spec_height() == height,
            r.cells().len() == width * height,
            forall|i: int| 0 <= i < r.cells().len() ==> (#[trigger] r.cells()[i])@ == 0,
    {
        let count: usize = width * height;
        let zero = Fixed::from_storage(0);
        let mut cells: Vec<Fixed> = Vec::with_capacity(count);
        while cells.len() < count
            invariant
                cells@.len() <= count,
                zero@ == 0,
                forall|i: int| 0 <= i < cells@.len() ==> (#[trigger] cells@[i]) == zero,
            decreases count - cells@.len(),
        {
            cells.push(zero);
        }
        FoodGrid { width, height, cells }
    }

    /// The number of columns.
    pub fn width(&self) -> (r: usize)
        ensures
            r == self.spec_width(),
    {
        self.width
    }

    /// The number of rows.
    pub fn height(&self) -> (r: usize)
        ensures
            r == self.spec_height(),
    {
        self.height
    }

    fn offset(&self, w: usize, h: usize) -> (r: usize)
        requires
            self.wf(),
            self.in_bounds(w as int, h as int),
        ensures
            r == self.position(w as int, h as int),
            r < self.cells().len(),
    {
        let count = self.cells.len();
        proof {
            self.lemma_position(w as int, h as int);
            assert(w * self.height + h < count);
        }
        w * self.height + h
    }

    /// The value of the cell in column `w` and row `h`.
    pub fn get(&self, w: usize, h: usize) -> (r: Fixed)
        requires
            self.wf(),
            self.in_bounds(w as int, h as int),
        ensures
            r == self.at(w as int, h as int),
    {
        let i = self.offset(w, h);
        self.cells[i]
    }

    /// Overwrites the cell in column `w` and row `h`.
    pub fn set(&mut self, w: usize, h: usize, value: Fixed)
        requires
            old(self).wf(),
            old(self).in_bounds(w as int, h as int),
        ensures
            final(self).wf(),
            final(self).spec_width() == old(self).spec_width(),
            final(self).spec_height() == old(self).spec_height(),
            final(self).cells() == old(self).cells().update(
                old(self).position(w as int, h as int),
                value,
            ),
    {
        let i = self.offset(w, h);
        self.cells.set(i, value);
    }

    /// Adds `amount` to the cell in column `w` and row `h`. The total moves
    /// by exactly `amount`.
    pub fn add(&mut self, w: usize, h: usize, amount: Fixed)
        requires
            old(self).wf(),
            old(self).in_bounds(w as int, h as int),
            representable(old(self).at(w as int, h as int)@ + amount@),
        ensures
            final(self).wf(),
            final(self).spec_width() == old(self).spec_width(),
            final(self).spec_height() == old(self).spec_height(),
            final(self).cells() == with_added(
                old(self).cells(),
                old(self).position(w as int, h as int),
                amount,
            ),
            total_of(final(self).cells()) == total_of(old(self).cells()) + amount@,
    {
        let i = self.offset(w, h);
        proof {
            lemma_total_with_added(self.cells(), i as int, amount);
        }
        let sum = self.cells[i].checked_add(amount);
        self.cells.set(i, sum.unwrap());
    }

    /// Adds `amount` to the cell in column `w` and row `h` where there is
    /// such a cell and it can hold the sum, and says whether it did. Where
    /// it did not, the grid is unchanged.
    pub fn try_add(&mut self, w: usize, h: usize, amount: Fixed) -> (done: bool)
        requires
            old(self).wf(),
        ensures
            final(self).wf(),
            final(self).spec_width() == old(self).spec_width(),
            final(self).spec_height() == old(self).spec_height(),
            done == (old(self).in_bounds(w as int, h as int) && representable(
                old(self).at(w as int, h as int)@ + amount@,
            )),
            done ==> final(self).cells() == with_added(
                old(self).cells(),
                old(self).position(w as int, h as int),
                amount,
            ),
            done ==> total_of(final(self).cells()) == total_of(old(self).cells()) + amount@,
            !done ==> final(self).cells() == old(self).cells(),
    {
        if w < self.width && h < self.height {
            let i = self.offset(w, h);
            match self.cells[i].checked_add(amount) {
                Some(_) => {
                    self.add(w, h, amount);
                    true
                },
                None => false,
            }
        } else {
            false
        }
    }

    /// A copy in which every cell is saturated into `[low, high]`: what the
    /// agents read during a tick.
    pub fn snapshot(&self, low: Fixed, high: Fixed) -> (r: FoodGrid)
        requires
            self.wf(),
        ensures
            r.wf(),
            r.spec_width() == self.spec_width(),
            r.spec_height() == self.spec_height(),
            r.cells().len() == self.cells().len(),
            forall|i: int|
                0 <= i < self.cells().len() ==> #[trigger] r.cells()[i] == self.cells()[i].spec_clamp(
                    low,
                    high,
                ),
            low@ <= high@ ==> forall|i: int|
                0 <= i < r.cells().len() ==> low@ <= (#[trigger] r.cells()[i])@ <= high@,
    {
        let mut cells: Vec<Fixed> = Vec::with_capacity(self.cells.len());
        let mut i: usize = 0;
        while i < self.cells.len()
            invariant
                i <= self.cells@.len(),
                cells@.len() == i,
                forall|j: int|
                    0 <= j < i ==> #[trigger] cells@[j] == self.cells@[j].spec_clamp(low, high),
            decreases self.cells@.len() - i,
        {
            cells.push(self.cells[i].clamp(low, high));
            i += 1;
        }
        proof {
            if low@ <= high@ {
                assert forall|j: int| 0 <= j < cells@.len() implies low@ <= (#[trigger] cells@[j])@
                    <= high@ by {
                    lemma_clamp_bounds(self.cells@[j], low, high);
                }
            }
        }
        FoodGrid { width: self.width, height: self.height, cells }
    }

    /// The exact sum of all numerators.
    pub fn total(&self) -> (r: i128)
        ensures
            r == total_of(self.cells()),
    {
        let mut sum: i128 = 0;
        let mut i: usize = 0;
        while i < self.cells.len()
            invariant
                i <= self.cells@.len(),
                sum == total_of(self.cells@.take(i as int)),
            decreases self.cells@.len() - i,
        {
            proof {
                assert(self.cells@.take(i + 1).drop_last() =~= self.cells@.take(i as int));
                lemma_total_bound(self.cells@.take(i as int));
                lemma_total_bound(self.cells@.take(i + 1));
                assert(i * 0x8000_0000_0000_0000 <= 0xffff_ffff_ffff_ffff * 0x8000_0000_0000_0000)
                    by (nonlinear_arith)
                    requires
                        0 <= i <= 0xffff_ffff_ffff_ffff,
                ;
                assert((i + 1) * 0x8000_0000_0000_0000 <= 0xffff_ffff_ffff_ffff
                    * 0x8000_0000_0000_0000) by (nonlinear_arith)
                    requires
                        0 <= i + 1 <= 0xffff_ffff_ffff_ffff,
                ;
            }
            let numer: i64 = self.cells[i].to_storage();
            sum = sum + numer as i128;
            i += 1;
        }
        proof {
            assert(self.cells@.take(i as int) =~= self.cells@);
        }
        sum
    }

    /// Whether both grids have the same shape and the same value in every
    /// cell.
    pub fn same_values(&self, other: &FoodGrid) -> (r: bool)
        ensures
            r == (self.spec_width() == other.spec_width() && self.spec_height()
                == other.spec_height() && self.cells() == other.cells()),
    {
        if self.width != other.width || self.height != other.height || self.cells.len()
            != other.cells.len() {
            return false;
        }
        let mut i: usize = 0;
        while i < self.cells.len()
            invariant
                i <= self.cells@.len(),
                self.cells@.len() == other.cells@.len(),
                forall|j: int| 0 <= j < i ==> self.cells@[j] == other.cells@[j],
            decreases self.cells@.len() - i,
        {
            if self.cells[i] != other.cells[i] {
                return false;
            }
            i += 1;
        }
        proof {
            assert(self.cells@ =~= other.cells@);
        }
        true
    }
}

} // verus!
