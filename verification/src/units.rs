use vstd::prelude::*;

verus! {

use crate::MetricError;

/// The closed set of duration unit tags a timing reading may carry.
#[derive(PartialEq, Eq, Structural, Clone, Copy, Debug)]
pub enum TimeUnit {
    Nanoseconds,
    Microseconds,
    Milliseconds,
    Seconds,
}

/// Scaled nanoseconds per unit: readings are held scaled by a thousand, so
/// normalizing multiplies the scaled reading by the plain nanosecond count
/// of one unit.
pub open spec fn nanos_per(u: TimeUnit) -> int {
    match u {
        TimeUnit::Nanoseconds => 1,
        TimeUnit::Microseconds => 1_000,
        TimeUnit::Milliseconds => 1_000_000,
        TimeUnit::Seconds => 1_000_000_000,
    }
}

/// `ns`
pub open spec fn ns_tag() -> Seq<u8> {
    seq!['n' as u8, 's' as u8]
}

/// `us`
pub open spec fn us_tag() -> Seq<u8> {
    seq!['u' as u8, 's' as u8]
}

/// `ms`
pub open spec fn ms_tag() -> Seq<u8> {
    seq!['m' as u8, 's' as u8]
}

/// `s`
pub open spec fn s_tag() -> Seq<u8> {
    seq!['s' as u8]
}

/// Which unit a tag names, if any.
pub open spec fn unit_of_tag(tag: Seq<u8>) -> Option<TimeUnit> {
    if tag == ns_tag() {
        Some(TimeUnit::Nanoseconds)
    } else if tag == us_tag() {
        Some(TimeUnit::Microseconds)
    } else if tag == ms_tag() {
        Some(TimeUnit::Milliseconds)
    } else if tag == s_tag() {
        Some(TimeUnit::Seconds)
    } else {
        None
    }
}

/// Reads a unit tag. A tag outside the closed set is a schema error and is
/// rejected, never defaulted.
pub fn parse_unit(tag: &Vec<u8>) -> (r: Result<TimeUnit, MetricError>)
    ensures
        r == match unit_of_tag(tag@) {
            Some(u) => Ok::<TimeUnit, MetricError>(u),
            None => Err::<TimeUnit, MetricError>(MetricError::UnknownUnit),
        },
{
    if tag.len() == 1 {
        if tag[0] == 's' as u8 {
            proof {
                assert(tag@ =~= s_tag());
            }
            return Ok(TimeUnit::Seconds);
        }
    } else if tag.len() == 2 {
        if tag[1] == 's' as u8 {
            if tag[0] == 'n' as u8 {
                proof {
                    assert(tag@ =~= ns_tag());
                }
                return Ok(TimeUnit::Nanoseconds);
            }
            if tag[0] == 'u' as u8 {
                proof {
                    assert(tag@ =~= us_tag());
                }
                return Ok(TimeUnit::Microseconds);
            }
            if tag[0] == 'm' as u8 {
                proof {
                    assert(tag@ =~= ms_tag());
                }
                return Ok(TimeUnit::Milliseconds);
            }
        }
    }
    proof {
        assert(tag@ != ns_tag() && tag@ != us_tag() && tag@ != ms_tag() && tag@ != s_tag()) by {
            assert(ns_tag().len() == 2 && ns_tag()[0] == 'n' as u8 && ns_tag()[1] == 's' as u8);
            assert(us_tag().len() == 2 && us_tag()[0] == 'u' as u8 && us_tag()[1] == 's' as u8);
            assert(ms_tag().len() == 2 && ms_tag()[0] == 'm' as u8 && ms_tag()[1] == 's' as u8);
            assert(s_tag().len() == 1 && s_tag()[0] == 's' as u8);
        }
    }
    Err(MetricError::UnknownUnit)
}

/// A scaled reading converted to scaled nanoseconds.
pub open spec fn normalized(value: int, u: TimeUnit) -> int {
    value * nanos_per(u)
}

/// Converts a scaled duration reading to scaled nanoseconds. A value whose
/// conversion does not fit 64 bits is rejected rather than recorded wrong.
pub fn normalize(value: u64, u: TimeUnit) -> (r: Result<u64, MetricError>)
    ensures
        r == if normalized(value as int, u) <= u64::MAX {
            Ok::<u64, MetricError>(normalized(value as int, u) as u64)
        } else {
            Err::<u64, MetricError>(MetricError::ValueOutOfRange)
        },
{
    let factor: u64 = match u {
        TimeUnit::Nanoseconds => 1,
        TimeUnit::Microseconds => 1_000,
        TimeUnit::Milliseconds => 1_000_000,
        TimeUnit::Seconds => 1_000_000_000,
    };
    proof {
        assert((value as int) * (factor as int) <= (u64::MAX as int) * (1_000_000_000int)
            && (u64::MAX as int) * (1_000_000_000int) < u128::MAX as int) by (nonlinear_arith)
            requires
                0 <= value as int <= u64::MAX as int,
                0 < factor as int <= 1_000_000_000int,
        ;
    }
    let wide = (value as u128) * (factor as u128);
    if wide <= u64::MAX as u128 {
        Ok(wide as u64)
    } else {
        Err(MetricError::ValueOutOfRange)
    }
}

/// Normalization is linear: converting a sum is summing the conversions.
pub proof fn lemma_normalize_linear(a: int, b: int, u: TimeUnit)
    ensures
        normalized(a + b, u) == normalized(a, u) + normalized(b, u),
{
    assert((a + b) * nanos_per(u) == a * nanos_per(u) + b * nanos_per(u)) by (nonlinear_arith);
}

/// Normalization is invertible: distinct readings never normalize to the
/// same value, so no precision is lost by converting.
pub proof fn lemma_normalize_injective(a: int, b: int, u: TimeUnit)
    requires
        normalized(a, u) == normalized(b, u),
    ensures
        a == b,
{
    assert(a == b) by (nonlinear_arith)
        requires
            a * nanos_per(u) == b * nanos_per(u),
            nanos_per(u) >= 1,
    ;
}

} // verus!
