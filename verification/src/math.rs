//! Clamping of ordered values.

use core::cmp::Ordering;
use vstd::prelude::*;
use vstd::std_specs::cmp::PartialOrdSpec;
use vstd::std_specs::convert::FromSpec;

verus! {

/// `value` held to the closed interval from `min` to `max`, by the partial
/// order of `T`: `max` where `value` lies above it, else `min` where `value`
/// lies below it, else `value` itself. A value that compares with neither
/// bound is handed back as it is.
pub open spec fn clamp_spec<T: PartialOrd>(value: T, min: T, max: T) -> T {
    if value.partial_cmp_spec(&max) == Some(Ordering::Greater) {
        max
    } else if value.partial_cmp_spec(&min) == Some(Ordering::Less) {
        min
    } else {
        value
    }
}

/// Whether `r` is `value` clamped as the comparisons of `T` themselves
/// decide: `max` where `value > max` answers yes; else `min` where
/// `value < min` answers yes; else `value`. This holds of every `T`, also of
/// one whose order is not described by `partial_cmp_spec`.
pub open spec fn clamped_as_compared<T: PartialOrd>(value: T, min: T, max: T, r: T) -> bool {
    exists|above: bool|
        {
            &&& #[trigger] call_ensures(T::gt, (&value, &max), above)
            &&& above ==> r == max
            &&& !above ==> exists|below: bool|
                {
                    &&& #[trigger] call_ensures(T::lt, (&value, &min), below)
                    &&& below ==> r == min
                    &&& !below ==> r == value
                }
        }
}

/// Holds `value` to the interval from `min` to `max`. The upper bound is
/// tested first, so with `min` above `max` a value above `max` gives `max`.
pub fn clamp<T>(value: T, min: T, max: T) -> (r: T) where T: PartialOrd
    ensures
        clamped_as_compared(value, min, max, r),
        T::obeys_partial_cmp_spec() ==> r == clamp_spec(value, min, max),
{
    if value > max {
        max
    } else if value < min {
        min
    } else {
        value
    }
}

/// Holds `value` to the interval from zero to one, as `T` makes them from
/// the bytes 0 and 1.
pub fn clamp01<T>(value: T) -> (r: T) where T: PartialOrd + From<u8>
    ensures
        exists|zero: T, one: T|
            {
                &&& call_ensures(T::from, (0u8,), zero)
                &&& call_ensures(T::from, (1u8,), one)
                &&& #[trigger] clamped_as_compared(value, zero, one, r)
            },
        T::obeys_partial_cmp_spec() && T::obeys_from_spec() ==> r == clamp_spec(
            value,
            T::from_spec(0u8),
            T::from_spec(1u8),
        ),
{
    clamp(value, T::from(0u8), T::from(1u8))
}

} // verus!
