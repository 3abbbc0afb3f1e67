//! The fixed-point value used wherever several agents accumulate into one
//! number. A value is a numerator over the fixed denominator [`DENOM`], so
//! addition and subtraction are exact integer operations and the order in
//! which they are applied never shows in the result.

use fix_rat::TenRat;
use vstd::prelude::*;

verus! {

/// The denominator: one whole unit is this many steps of the numerator.
pub const DENOM: i64 = 576460752303423487i64;

/// The largest whole number whose product with [`DENOM`] is representable.
pub const INT_RANGE: i64 = 16i64;

/// `fix_rat::TenRat::from_int` on `i`, given back as its stored numerator.
/// The outside function multiplies `i` by the denominator with plain integer
/// multiplication, so the product has to be representable.
#[verifier::external_body]
fn rat_from_int(i: i64) -> (r: i64)
    requires
        i64::MIN <= i * DENOM <= i64::MAX,
    ensures
        r == i * DENOM,
{
    TenRat::from_int(i).to_storage()
}

/// `fix_rat::TenRat::checked_add` on two stored numerators: the integer sum
/// where an `i64` holds it, nothing otherwise.
#[verifier::external_body]
fn rat_checked_add(a: i64, b: i64) -> (r: Option<i64>)
    ensures
        r == (if i64::MIN <= a + b <= i64::MAX {
            Some((a + b) as i64)
        } else {
            None
        }),
{
    match TenRat::from_storage(a).checked_add(TenRat::from_storage(b)) {
        Some(s) => Some(s.to_storage()),
        None => None,
    }
}

/// `fix_rat::TenRat::checked_sub` on two stored numerators: the integer
/// difference where an `i64` holds it, nothing otherwise.
#[verifier::external_body]
fn rat_checked_sub(a: i64, b: i64) -> (r: Option<i64>)
    ensures
        r == (if i64::MIN <= a - b <= i64::MAX {
            Some((a - b) as i64)
        } else {
            None
        }),
{
    match TenRat::from_storage(a).checked_sub(TenRat::from_storage(b)) {
        Some(s) => Some(s.to_storage()),
        None => None,
    }
}

/// `fix_rat::TenRat::clamp` on stored numerators. The outside function takes
/// the larger of the value and `low`, then the smaller of that and `high`,
/// in the order of the numerators; it accepts `low > high` and then gives
/// `high`.
#[verifier::external_body]
fn rat_clamp(x: i64, low: i64, high: i64) -> (r: i64)
    ensures
        r == clamp_int(x as int, low as int, high as int),
{
    TenRat::from_storage(x).clamp(TenRat::from_storage(low), TenRat::from_storage(high)).to_storage()
}

/// The larger of `x` and `low`, then the smaller of that and `high`.
pub open spec fn clamp_int(x: int, low: int, high: int) -> int {
    let raised = if x < low { low } else { x };
    if raised > high { high } else { raised }
}

/// Whether `n` is a numerator that a value can hold.
pub open spec fn representable(n: int) -> bool {
    i64::MIN <= n <= i64::MAX
}

/// An exact rational number with denominator [`DENOM`].
#[derive(Clone, Copy, Debug, PartialEq, Eq, Structural)]
pub struct Fixed {
    numer: i64,
}

impl View for Fixed {
    type V = int;

    /// The numerator.
    closed spec fn view(&self) -> int {
        self.numer as int
    }
}

impl Fixed {
    /// The value with numerator `n`.
    pub open spec fn of(n: int) -> Fixed
        recommends
            representable(n),
    {
        Fixed::spec_from_storage(n as i64)
    }

    /// The value with the stored numerator `numer`.
    pub closed spec fn spec_from_storage(numer: i64) -> Fixed {
        Fixed { numer }
    }

    /// The exact sum, meaningful where it is representable.
    pub open spec fn spec_plus(self, other: Fixed) -> Fixed {
        Fixed::of(self@ + other@)
    }

    /// The exact difference, meaningful where it is representable.
    pub open spec fn spec_minus(self, other: Fixed) -> Fixed {
        Fixed::of(self@ - other@)
    }

    /// The value saturated into `[low, high]`.
    pub open spec fn spec_clamp(self, low: Fixed, high: Fixed) -> Fixed {
        Fixed::of(clamp_int(self@, low@, high@))
    }

    /// Two values are the same exactly when their numerators are.
    pub proof fn lemma_view_injective(a: Fixed, b: Fixed)
        ensures
            a@ == b@ <==> a == b,
    {
    }

    /// Every value has a representable numerator.
    pub proof fn lemma_view_range(a: Fixed)
        ensures
            representable(a@),
    {
    }

    /// Where the sum is representable, its numerator is the sum of the
    /// numerators.
    pub proof fn lemma_plus_view(a: Fixed, b: Fixed)
        requires
            representable(a@ + b@),
        ensures
            a.spec_plus(b)@ == a@ + b@,
    {
    }

    /// Wraps a stored numerator.
    #[verifier::when_used_as_spec(spec_from_storage)]
    pub fn from_storage(numer: i64) -> (r: Fixed)
        ensures
            r@ == numer,
            r == Fixed::spec_from_storage(numer),
    {
        Fixed { numer }
    }

    /// The stored numerator.
    pub fn to_storage(self) -> (r: i64)
        ensures
            r == self@,
    {
        self.numer
    }

    /// The whole number `i` as a fixed-point value.
    pub fn from_int(i: i64) -> (r: Fixed)
        requires
            -INT_RANGE <= i <= INT_RANGE,
        ensures
            r@ == i * DENOM,
    {
        assert(i64::MIN <= i * DENOM <= i64::MAX) by (nonlinear_arith)
            requires
                -16 <= i <= 16,
                DENOM == 576460752303423487,
        ;
        Fixed { numer: rat_from_int(i) }
    }

    /// The sum, or nothing where it leaves the representable range.
    pub fn checked_add(self, other: Fixed) -> (r: Option<Fixed>)
        ensures
            representable(self@ + other@) ==> r == Some(self.spec_plus(other)),
            !representable(self@ + other@) ==> r.is_none(),
    {
        match rat_checked_add(self.numer, other.numer) {
            Some(numer) => Some(Fixed { numer }),
            None => None,
        }
    }

    /// The difference, or nothing where it leaves the representable range.
    pub fn checked_sub(self, other: Fixed) -> (r: Option<Fixed>)
        ensures
            representable(self@ - other@) ==> r == Some(self.spec_minus(other)),
            !representable(self@ - other@) ==> r.is_none(),
    {
        match rat_checked_sub(self.numer, other.numer) {
            Some(numer) => Some(Fixed { numer }),
            None => None,
        }
    }

    /// The value saturated into `[low, high]`.
    pub fn clamp(self, low: Fixed, high: Fixed) -> (r: Fixed)
        ensures
            r == self.spec_clamp(low, high),
            r@ == clamp_int(self@, low@, high@),
    {
        Fixed { numer: rat_clamp(self.numer, low.numer, high.numer) }
    }

    /// Whether `self` is strictly below `other`.
    pub fn less_than(self, other: Fixed) -> (r: bool)
        ensures
            r == (self@ < other@),
    {
        self.numer < other.numer
    }
}

/// Addition is exact, so grouping and order do not matter: `(a + b) + c`
/// equals `a + (c + b)` whenever the sums involved are representable.
pub proof fn lemma_add_regroup(a: Fixed, b: Fixed, c: Fixed)
    requires
        representable(a@ + b@),
        representable(c@ + b@),
        representable(a@ + b@ + c@),
    ensures
        a.spec_plus(b).spec_plus(c) == a.spec_plus(c.spec_plus(b)),
{
}

/// Subtraction is exact: `(a - b) - c` equals `(a - c) - b` whenever the
/// differences involved are representable.
pub proof fn lemma_sub_reorder(a: Fixed, b: Fixed, c: Fixed)
    requires
        representable(a@ - b@),
        representable(a@ - c@),
        representable(a@ - b@ - c@),
    ensures
        a.spec_minus(b).spec_minus(c) == a.spec_minus(c).spec_minus(b),
{
}

/// Addition commutes wherever the sum is representable.
pub proof fn lemma_add_commutes(a: Fixed, b: Fixed)
    ensures
        a.spec_plus(b) == b.spec_plus(a),
{
}

/// Clamping a value that already lies in `[low, high]` changes nothing.
pub proof fn lemma_clamp_in_range(x: Fixed, low: Fixed, high: Fixed)
    requires
        low@ <= x@ <= high@,
    ensures
        x.spec_clamp(low, high) == x,
{
}

/// Clamping twice into the same interval is clamping once.
pub proof fn lemma_clamp_idempotent(x: Fixed, low: Fixed, high: Fixed)
    ensures
        x.spec_clamp(low, high).spec_clamp(low, high) == x.spec_clamp(low, high),
{
}

/// A clamped value lies in the interval whenever the interval is not empty.
pub proof fn lemma_clamp_bounds(x: Fixed, low: Fixed, high: Fixed)
    requires
        low@ <= high@,
    ensures
        low@ <= x.spec_clamp(low, high)@ <= high@,
{
}

} // verus!
