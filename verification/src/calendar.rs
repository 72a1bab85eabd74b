//! Calendar validity: an operating period is a day range together with a
//! bit set indexed by day offset from the start of the range.
//!
//! Dates are plain day numbers (days counted from an arbitrary fixed epoch,
//! the same epoch for every date in a feed); times of day are seconds since
//! midnight.

use vstd::prelude::*;

verus! {

/// Number of seconds in a civil day; every time of day lies below this bound.
pub const SECONDS_PER_DAY: u32 = 86400;

#[verifier::external_type_specification]
#[verifier::external_body]
#[verifier::reject_recursive_types(B)]
pub struct ExBitSet<B>(bit_set::BitSet<B>);

/// The set of day offsets stored in a bit set.
pub uninterp spec fn bitset_set(b: bit_set::BitSet) -> Set<usize>;

/// Relies on bit_set::BitSet::new: a fresh bit set holds no values.
#[verifier::external_body]
pub(crate) fn bitset_new() -> (r: bit_set::BitSet)
    ensures
        bitset_set(r) == Set::<usize>::empty(),
{
    bit_set::BitSet::new()
}

/// Relies on bit_set::BitSet::insert: afterwards the value is present and
/// nothing else changed; the result says whether the value was new.
#[verifier::external_body]
pub(crate) fn bitset_insert(b: &mut bit_set::BitSet, value: usize) -> (fresh: bool)
    ensures
        bitset_set(*final(b)) == bitset_set(*old(b)).insert(value),
        fresh == !bitset_set(*old(b)).contains(value),
{
    b.insert(value)
}

/// Relies on bit_set::BitSet::contains: a membership test.
#[verifier::external_body]
pub(crate) fn bitset_contains(b: &bit_set::BitSet, value: usize) -> (r: bool)
    ensures
        r == bitset_set(*b).contains(value),
{
    b.contains(value)
}

/// Builds the day bit set from per-day flags: bit `i` is set exactly when
/// `flags[i]` is true.
pub fn day_bits_from_flags(flags: &Vec<bool>) -> (r: bit_set::BitSet)
    ensures
        bitset_set(r) == Set::new(|i: usize| i < flags@.len() && flags@[i as int]),
{
    let mut bits = bitset_new();
    let mut i: usize = 0;
    while i < flags.len()
        invariant
            i <= flags@.len(),
            bitset_set(bits) == Set::new(|j: usize| j < i && flags@[j as int]),
        decreases flags@.len() - i,
    {
        if flags[i] {
            bitset_insert(&mut bits, i);
        }
        proof {
            assert(bitset_set(bits) =~= Set::new(|j: usize| j < i + 1 && flags@[j as int]));
        }
        i = i + 1;
    }
    bits
}

/// A calendar template: trips attached to it run on day `from_date + i`
/// exactly when bit `i` of `day_bits` is set and the day lies inside
/// `[from_date, to_date]`.
#[derive(Debug)]
pub struct OperatingPeriod {
    pub from_date: u32,
    pub to_date: u32,
    pub day_bits: bit_set::BitSet,
}

/// When an operating period is valid on a date: the date lies in the range
/// and the bit at its day offset from the range start is set.
pub open spec fn period_valid(p: OperatingPeriod, date: u32) -> bool {
    &&& p.from_date <= date <= p.to_date
    &&& bitset_set(p.day_bits).contains((date - p.from_date) as usize)
}

impl OperatingPeriod {
    /// Does this period cover the given date?
    pub fn is_valid(&self, date: u32) -> (r: bool)
        ensures
            r == period_valid(*self, date),
    {
        if self.from_date > date || date > self.to_date {
            return false;
        }
        let delta: u32 = date - self.from_date;
        bitset_contains(&self.day_bits, delta as usize)
    }
}

} // verus!
