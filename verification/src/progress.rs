//! The progress of one setup task.

use vstd::prelude::*;
use vstd::std_specs::cmp::{PartialEqSpecImpl, PartialOrdSpecImpl};
use vstd::std_specs::convert::FromSpecImpl;
use core::cmp::Ordering;
use crate::single::{
    is_finite, is_nan, is_negative, lemma_ordinal_orders_values, lemma_scaled_nearly_one,
    lemma_scaled_one, magnitude, ordinal, scaled_epsilon, scaled_one, scaled_value, INFINITY_BITS,
    NEARLY_ONE_BITS, ONE_BITS, SIGN_BIT,
};

verus! {

/// A finite single is clamped to the closed interval from 0 to 1; any other
/// is kept bit for bit. Negative zero is not less than zero, so it stays.
pub open spec fn clamp_bits(bits: u32) -> u32 {
    if !is_finite(bits) {
        bits
    } else if is_negative(bits) && magnitude(bits) > 0 {
        0
    } else if !is_negative(bits) && bits > ONE_BITS {
        ONE_BITS
    } else {
        bits
    }
}

/// A finite single lies in the closed interval from 0 to 1.
pub open spec fn in_unit_interval(bits: u32) -> bool {
    0 <= scaled_value(bits) <= scaled_one()
}

/// Clamping brings every finite single into the unit interval, to the
/// nearer end where it lay outside and to itself where it lay inside, and
/// keeps every other single as it is.
pub proof fn lemma_clamp_bits(bits: u32)
    ensures
        is_finite(bits) ==> is_finite(clamp_bits(bits)) && in_unit_interval(clamp_bits(bits)),
        is_finite(bits) && scaled_value(bits) < 0 ==> scaled_value(clamp_bits(bits)) == 0,
        is_finite(bits) && scaled_value(bits) > scaled_one() ==> scaled_value(clamp_bits(bits)) == scaled_one(),
        is_finite(bits) && in_unit_interval(bits) ==> clamp_bits(bits) == bits,
        !is_finite(bits) ==> clamp_bits(bits) == bits,
{
    lemma_scaled_one();
    lemma_ordinal_orders_values(bits, ONE_BITS);
    lemma_ordinal_orders_values(bits, 0);
    assert(scaled_value(0) == 0);
}

/// A completion value: a single-precision number held by its bits, between 0
/// and 1 where it is finite. Infinities and NaNs are kept as they come; what
/// they mean is for the application to say, and they are never finished.
#[derive(Clone, Copy, Debug)]
pub struct Progress {
    bits: u32,
}

impl View for Progress {
    type V = u32;

    /// The bits of the number.
    closed spec fn view(&self) -> u32 {
        self.bits
    }
}

/// Whether a single counts as finished: it is finite and at least one less
/// the machine epsilon.
pub open spec fn finished_bits(bits: u32) -> bool {
    is_finite(bits) && scaled_value(bits) >= scaled_one() - scaled_epsilon()
}

/// A single is finished iff its bits lie from those of `1 - 2^-23` up to,
/// and not reaching, those of positive infinity.
pub proof fn lemma_finished_bits(bits: u32)
    ensures
        finished_bits(bits) <==> NEARLY_ONE_BITS <= bits < INFINITY_BITS,
{
    lemma_scaled_nearly_one();
    lemma_ordinal_orders_values(bits, NEARLY_ONE_BITS);
}

/// How two singles compare as numbers: not at all where one is a NaN, else
/// by their values, the two zeros being equal.
pub open spec fn compare_bits(a: u32, b: u32) -> Option<Ordering> {
    if is_nan(a) || is_nan(b) {
        None
    } else if ordinal(a) < ordinal(b) {
        Some(Ordering::Less)
    } else if ordinal(a) == ordinal(b) {
        Some(Ordering::Equal)
    } else {
        Some(Ordering::Greater)
    }
}

/// The ordinal of a single.
fn ordinal_of(bits: u32) -> (r: i64)
    ensures
        r == ordinal(bits),
{
    if bits >= SIGN_BIT {
        -((bits - SIGN_BIT) as i64)
    } else {
        bits as i64
    }
}

/// Whether a single is a NaN.
fn nan_bits(bits: u32) -> (r: bool)
    ensures
        r == is_nan(bits),
{
    if bits >= SIGN_BIT {
        bits - SIGN_BIT > INFINITY_BITS
    } else {
        bits > INFINITY_BITS
    }
}

impl Progress {
    #[verifier::type_invariant]
    spec fn clamped(self) -> bool {
        clamp_bits(self.bits) == self.bits
    }

    /// The progress with the given bits.
    pub closed spec fn of_bits(bits: u32) -> Progress {
        Progress { bits }
    }

    /// A progress is its bits and nothing else.
    pub proof fn lemma_of_bits(self)
        ensures
            self == Progress::of_bits(self@),
            forall|bits: u32| #[trigger] Progress::of_bits(bits)@ == bits,
    {
    }

    /// No progress: `0.0`.
    pub fn zero() -> (p: Progress)
        ensures
            p == Progress::of_bits(0),
            p@ == 0,
    {
        Progress { bits: 0 }
    }

    /// Complete: `1.0`.
    pub fn done() -> (p: Progress)
        ensures
            p == Progress::of_bits(ONE_BITS),
            p@ == ONE_BITS,
    {
        Progress { bits: ONE_BITS }
    }

    /// The progress that the single with the given bits stands for: clamped
    /// to the unit interval where it is finite, itself where it is not.
    pub fn new(bits: u32) -> (p: Progress)
        ensures
            p@ == clamp_bits(bits),
            p == Progress::of_bits(clamp_bits(bits)),
            is_finite(bits) ==> is_finite(p@) && in_unit_interval(p@),
            !is_finite(bits) ==> p@ == bits,
    {
        proof {
            lemma_clamp_bits(bits);
        }
        if bits >= SIGN_BIT {
            if bits - SIGN_BIT < INFINITY_BITS && bits > SIGN_BIT {
                Progress { bits: 0 }
            } else {
                Progress { bits }
            }
        } else if bits < INFINITY_BITS && bits > ONE_BITS {
            Progress { bits: ONE_BITS }
        } else {
            Progress { bits }
        }
    }

    /// The bits of the number.
    pub fn into_inner(self) -> (bits: u32)
        ensures
            bits == self@,
            clamp_bits(bits) == bits,
    {
        proof {
            use_type_invariant(&self);
        }
        self.bits
    }

    /// Whether the task counts as done: the value is finite and at least
    /// `1 - 2^-23`.
    pub fn finished(self) -> (done: bool)
        ensures
            done == finished_bits(self@),
            done == (NEARLY_ONE_BITS <= self@ < INFINITY_BITS),
    {
        proof {
            lemma_finished_bits(self.bits);
        }
        self.bits >= NEARLY_ONE_BITS && self.bits < INFINITY_BITS
    }

    /// Whether the value is finite: neither an infinity nor a NaN.
    pub fn is_finite(self) -> (finite: bool)
        ensures
            finite == is_finite(self@),
    {
        if self.bits >= SIGN_BIT {
            self.bits - SIGN_BIT < INFINITY_BITS
        } else {
            self.bits < INFINITY_BITS
        }
    }
}

impl Default for Progress {
    /// No progress.
    fn default() -> (p: Progress)
        ensures
            p == Progress::of_bits(0),
            p@ == 0,
    {
        Progress { bits: 0 }
    }
}

impl From<bool> for Progress {
    /// `true` is complete, `false` is no progress.
    fn from(val: bool) -> (p: Progress) {
        if val {
            Progress { bits: ONE_BITS }
        } else {
            Progress { bits: 0 }
        }
    }
}

impl FromSpecImpl<bool> for Progress {
    open spec fn obeys_from_spec() -> bool {
        true
    }

    open spec fn from_spec(val: bool) -> Progress {
        if val {
            Progress::of_bits(ONE_BITS)
        } else {
            Progress::of_bits(0)
        }
    }
}

impl PartialEq for Progress {
    /// Equal as numbers: a NaN equals nothing, the two zeros are equal.
    fn eq(&self, other: &Progress) -> (r: bool) {
        !nan_bits(self.bits) && !nan_bits(other.bits) && ordinal_of(self.bits) == ordinal_of(other.bits)
    }
}

impl PartialEqSpecImpl for Progress {
    open spec fn obeys_eq_spec() -> bool {
        true
    }

    open spec fn eq_spec(&self, other: &Progress) -> bool {
        compare_bits(self@, other@) == Some(Ordering::Equal)
    }
}

impl PartialOrd for Progress {
    /// Ordered as numbers: a NaN compares with nothing.
    fn partial_cmp(&self, other: &Progress) -> (r: Option<Ordering>) {
        if nan_bits(self.bits) || nan_bits(other.bits) {
            None
        } else {
            let a = ordinal_of(self.bits);
            let b = ordinal_of(other.bits);
            if a < b {
                Some(Ordering::Less)
            } else if a == b {
                Some(Ordering::Equal)
            } else {
                Some(Ordering::Greater)
            }
        }
    }
}

impl PartialOrdSpecImpl for Progress {
    open spec fn obeys_partial_cmp_spec() -> bool {
        true
    }

    open spec fn partial_cmp_spec(&self, other: &Progress) -> Option<Ordering> {
        compare_bits(self@, other@)
    }
}

} // verus!
