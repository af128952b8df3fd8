use vstd::prelude::*;

verus! {

use vstd::arithmetic::div_mod::{lemma_div_is_ordered, lemma_div_multiples_vanish};
use vstd::arithmetic::mul::{lemma_mul_inequality, lemma_mul_is_commutative};
use vstd::relations::{sorted_by, total_ordering};
use vstd::seq_lib::group_to_multiset_ensures;
use crate::mapping::MetricMap;

/// Largest admissible reading. Readings are scaled utilization or rate
/// values, far below this; the bound keeps every intermediate product of
/// the spread computation inside 128 bits.
pub const SAMPLE_MAX: u64 = 0xFFFF_FFFF;

/// Sum of a reading sequence.
pub open spec fn sum_of(s: Seq<u64>) -> int
    decreases s.len(),
{
    if s.len() == 0 {
        0
    } else {
        sum_of(s.drop_last()) + s.last()
    }
}

/// Sum of the squares of a reading sequence.
pub open spec fn sum_sq_of(s: Seq<u64>) -> int
    decreases s.len(),
{
    if s.len() == 0 {
        0
    } else {
        sum_sq_of(s.drop_last()) + s.last() * s.last()
    }
}

/// Arithmetic mean, truncated to an integer.
pub open spec fn mean_of(s: Seq<u64>) -> int
    recommends
        s.len() > 0,
{
    sum_of(s) / s.len() as int
}

/// Least reading.
pub open spec fn min_of(s: Seq<u64>) -> int
    recommends
        s.len() > 0,
    decreases s.len(),
{
    if s.len() <= 1 {
        s[0] as int
    } else if s.last() < min_of(s.drop_last()) {
        s.last() as int
    } else {
        min_of(s.drop_last())
    }
}

/// Greatest reading.
pub open spec fn max_of(s: Seq<u64>) -> int
    recommends
        s.len() > 0,
    decreases s.len(),
{
    if s.len() <= 1 {
        s[0] as int
    } else if s.last() > max_of(s.drop_last()) {
        s.last() as int
    } else {
        max_of(s.drop_last())
    }
}

pub proof fn lemma_sum_bounds(s: Seq<u64>)
    requires
        s.len() > 0,
    ensures
        (s.len() as int) * min_of(s) <= sum_of(s),
        sum_of(s) <= (s.len() as int) * max_of(s),
        min_of(s) <= max_of(s),
        exists|i: int| 0 <= i < s.len() && s[i] == min_of(s),
        exists|i: int| 0 <= i < s.len() && s[i] == max_of(s),
        forall|i: int| 0 <= i < s.len() ==> min_of(s) <= #[trigger] s[i] <= max_of(s),
    decreases s.len(),
{
    if s.len() == 1 {
        assert(s[0] == s.last());
        assert((s.len() as int) * min_of(s) == min_of(s)) by (nonlinear_arith)
            requires s.len() == 1;
        assert((s.len() as int) * max_of(s) == max_of(s)) by (nonlinear_arith)
            requires s.len() == 1;
        assert(sum_of(s) == sum_of(s.drop_last()) + s.last());
        assert(s.drop_last().len() == 0);
    } else {
        let rest = s.drop_last();
        lemma_sum_bounds(rest);
        assert(forall|i: int| 0 <= i < rest.len() ==> rest[i] == s[i]);
        let i = choose|i: int| 0 <= i < rest.len() && rest[i] == min_of(rest);
        let j = choose|j: int| 0 <= j < rest.len() && rest[j] == max_of(rest);
        assert(s[i] == min_of(rest));
        assert(s[j] == max_of(rest));
        assert(rest.len() * min_of(rest) <= sum_of(rest));
        assert((rest.len() + 1) * min_of(s) <= sum_of(rest) + s.last()) by {
            assert(rest.len() * min_of(s) <= rest.len() * min_of(rest)) by {
                lemma_mul_inequality_right(rest.len() as int, min_of(s), min_of(rest));
            }
            assert((rest.len() + 1) * min_of(s) == rest.len() * min_of(s) + min_of(s))
                by (nonlinear_arith);
        }
        assert(sum_of(rest) + s.last() <= (rest.len() + 1) * max_of(s)) by {
            assert(rest.len() * max_of(rest) <= rest.len() * max_of(s)) by {
                lemma_mul_inequality_right(rest.len() as int, max_of(rest), max_of(s));
            }
            assert((rest.len() + 1) * max_of(s) == rest.len() * max_of(s) + max_of(s))
                by (nonlinear_arith);
        }
        assert((s.len() as int) * min_of(s) == (rest.len() + 1) * min_of(s)) by (nonlinear_arith)
            requires s.len() == rest.len() + 1;
        assert((s.len() as int) * max_of(s) == (rest.len() + 1) * max_of(s)) by (nonlinear_arith)
            requires s.len() == rest.len() + 1;
        assert(s[s.len() - 1] == s.last());
    }
}

/// Multiplying both sides of `a <= b` by a nonnegative `n` keeps the order.
proof fn lemma_mul_inequality_right(n: int, a: int, b: int)
    requires
        n >= 0,
        a <= b,
    ensures
        n * a <= n * b,
{
    lemma_mul_is_commutative(n, a);
    lemma_mul_is_commutative(n, b);
    lemma_mul_inequality(a, b, n);
}

/// The truncated mean of a non-empty reading sequence lies between the
/// least and the greatest reading.
pub proof fn lemma_mean_bounds(s: Seq<u64>)
    requires
        s.len() > 0,
    ensures
        min_of(s) <= mean_of(s) <= max_of(s),
{
    let n = s.len() as int;
    lemma_sum_bounds(s);
    assert(n * min_of(s) <= sum_of(s));
    assert((n * min_of(s)) / n <= sum_of(s) / n) by {
        lemma_div_is_ordered(n * min_of(s), sum_of(s), n);
    }
    assert((n * min_of(s)) / n == min_of(s)) by {
        lemma_mul_is_commutative(n, min_of(s));
        lemma_div_multiples_vanish(min_of(s), n);
    }
    assert(sum_of(s) / n <= (n * max_of(s)) / n) by {
        lemma_div_is_ordered(sum_of(s), n * max_of(s), n);
    }
    assert((n * max_of(s)) / n == max_of(s)) by {
        lemma_mul_is_commutative(n, max_of(s));
        lemma_div_multiples_vanish(max_of(s), n);
    }
}

/// Truncated mean of a non-empty reading sequence.
pub fn mean(samples: &Vec<u64>) -> (r: u64)
    requires
        samples@.len() > 0,
    ensures
        r == mean_of(samples@),
        min_of(samples@) <= r <= max_of(samples@),
{
    proof {
        lemma_mean_bounds(samples@);
        lemma_sum_bounds(samples@);
    }
    let total = sum_u128(samples);
    let n = samples.len();
    let q = total / (n as u128);
    proof {
        assert(q == mean_of(samples@));
    }
    q as u64
}

/// Sum of all readings; fits in 128 bits because each reading is 64 bits
/// and there are fewer than 2^64 of them.
fn sum_u128(samples: &Vec<u64>) -> (r: u128)
    ensures
        r == sum_of(samples@),
{
    let n = samples.len();
    let mut total: u128 = 0;
    let mut i: usize = 0;
    while i < n
        invariant
            n == samples@.len(),
            i <= n,
            total == sum_of(samples@.subrange(0, i as int)),
            total <= i * (u64::MAX as int),
        decreases n - i,
    {
        proof {
            assert(samples@.subrange(0, i + 1 as int).drop_last() =~= samples@.subrange(
                0,
                i as int,
            ));
            assert((i + 1) * (u64::MAX as int) == i * (u64::MAX as int) + u64::MAX)
                by (nonlinear_arith);
            assert(i * (u64::MAX as int) <= (u64::MAX as int) * (u64::MAX as int)) by {
                lemma_mul_inequality(i as int, u64::MAX as int, u64::MAX as int);
            }
        }
        total = total + (samples[i] as u128);
        i = i + 1;
    }
    proof {
        assert(samples@.subrange(0, n as int) =~= samples@);
    }
    total
}

/// Least reading of a non-empty sequence.
pub fn min(samples: &Vec<u64>) -> (r: u64)
    requires
        samples@.len() > 0,
    ensures
        r == min_of(samples@),
{
    let n = samples.len();
    let mut best = samples[0];
    let mut i: usize = 1;
    while i < n
        invariant
            n == samples@.len(),
            1 <= i <= n,
            best == min_of(samples@.subrange(0, i as int)),
        decreases n - i,
    {
        proof {
            assert(samples@.subrange(0, i + 1 as int).drop_last() =~= samples@.subrange(
                0,
                i as int,
            ));
        }
        let x = samples[i];
        if x < best {
            best = x;
        }
        i = i + 1;
    }
    proof {
        assert(samples@.subrange(0, n as int) =~= samples@);
    }
    best
}

/// The order the readings are ranked by.
pub open spec fn reading_le() -> spec_fn(u64, u64) -> bool {
    |a: u64, b: u64| a <= b
}

/// Middle reading of the ranked sequence; for an even count, the truncated
/// average of the two middle readings.
pub open spec fn median_of(s: Seq<u64>) -> int
    recommends
        s.len() > 0,
{
    let ranked = s.sort_by(reading_le());
    if s.len() % 2 == 1 {
        ranked[s.len() as int / 2] as int
    } else {
        (ranked[s.len() as int / 2 - 1] + ranked[s.len() as int / 2]) / 2
    }
}

proof fn lemma_reading_le_total()
    ensures
        total_ordering(reading_le()),
{
    let r = reading_le();
    assert forall|a: u64, b: u64| #[trigger] r(a, b) && r(b, a) implies a == b by {}
    assert(vstd::relations::reflexive(r)) by {
        assert(forall|a: u64| #[trigger] r(a, a));
    }
    assert(vstd::relations::antisymmetric(r));
    assert(vstd::relations::transitive(r)) by {
        assert(forall|a: u64, b: u64, c: u64| #[trigger] r(a, b) && #[trigger] r(b, c) ==> r(a, c));
    }
    assert(vstd::relations::strongly_connected(r)) by {
        assert(forall|a: u64, b: u64| #[trigger] r(a, b) || #[trigger] r(b, a));
    }
}

/// Two rankings of the same readings are the same sequence.
proof fn lemma_ranked_unique(a: Seq<u64>, b: Seq<u64>)
    requires
        sorted_by(a, reading_le()),
        sorted_by(b, reading_le()),
        a.to_multiset() == b.to_multiset(),
    ensures
        a == b,
    decreases a.len(),
{
    broadcast use group_to_multiset_ensures;

    assert(a.len() == a.to_multiset().len());
    assert(b.len() == b.to_multiset().len());
    if a.len() == 0 {
        assert(a =~= b);
    } else {
        assert(a.to_multiset().count(a[0]) > 0) by {
            assert(a.contains(a[0]));
        }
        assert(b.to_multiset().count(b[0]) > 0) by {
            assert(b.contains(b[0]));
        }
        assert(b.to_multiset().count(a[0]) > 0);
        assert(a.to_multiset().count(b[0]) > 0);
        assert(b.contains(a[0]));
        assert(a.contains(b[0]));
        let ka = choose|k: int| 0 <= k < b.len() && b[k] == a[0];
        let kb = choose|k: int| 0 <= k < a.len() && a[k] == b[0];
        assert(reading_le()(b[0], b[ka]));
        assert(reading_le()(a[0], a[kb]));
        assert(a[0] == b[0]);
        let ar = a.drop_first();
        let br = b.drop_first();
        assert(a.remove(0) =~= ar);
        assert(b.remove(0) =~= br);
        assert(ar.to_multiset() == a.to_multiset().remove(a[0]));
        assert(br.to_multiset() == b.to_multiset().remove(b[0]));
        assert(sorted_by(ar, reading_le())) by {
            assert(forall|i: int, j: int|
                0 <= i <= j < ar.len() ==> ar[i] == a[i + 1] && ar[j] == a[j + 1]);
        }
        assert(sorted_by(br, reading_le())) by {
            assert(forall|i: int, j: int|
                0 <= i <= j < br.len() ==> br[i] == b[i + 1] && br[j] == b[j + 1]);
        }
        lemma_ranked_unique(ar, br);
        assert(a =~= b) by {
            assert(forall|i: int| 1 <= i < a.len() ==> a[i] == ar[i - 1] && b[i] == br[i - 1]);
        }
    }
}

/// Inserting a reading anywhere adds it to the multiset of readings.
proof fn lemma_insert_to_multiset(s: Seq<u64>, i: int, x: u64)
    requires
        0 <= i <= s.len(),
    ensures
        s.insert(i, x).to_multiset() == s.to_multiset().insert(x),
{
    broadcast use group_to_multiset_ensures;

    let t = s.insert(i, x);
    assert(t[i] == x);
    assert(t.remove(i) =~= s);
    assert(s.to_multiset() == t.to_multiset().remove(x));
    assert(t.to_multiset().count(x) > 0) by {
        assert(t.contains(x));
    }
    assert(t.to_multiset() =~= s.to_multiset().insert(x)) by {
        assert(forall|y: u64|
            y != x ==> #[trigger] s.to_multiset().insert(x).count(y) == t.to_multiset().remove(
                x,
            ).count(y));
        assert(s.to_multiset().insert(x).count(x) == t.to_multiset().count(x));
    }
}

/// Ranks the readings from least to greatest.
fn rank_samples(samples: &Vec<u64>) -> (r: Vec<u64>)
    ensures
        r@ == samples@.sort_by(reading_le()),
        r@.len() == samples@.len(),
{
    let n = samples.len();
    let mut out: Vec<u64> = Vec::new();
    proof {
        assert(out@ =~= samples@.subrange(0, 0));
    }
    let mut i: usize = 0;
    while i < n
        invariant
            n == samples@.len(),
            i <= n,
            sorted_by(out@, reading_le()),
            out@.to_multiset() == samples@.subrange(0, i as int).to_multiset(),
            out@.len() == i,
        decreases n - i,
    {
        broadcast use group_to_multiset_ensures;

        let x = samples[i];
        let m = out.len();
        let mut j: usize = 0;
        while j < m && out[j] <= x
            invariant
                m == out@.len(),
                j <= m,
                forall|k: int| 0 <= k < j ==> out@[k] <= x,
            decreases m - j,
        {
            j = j + 1;
        }
        let ghost pre = out@;
        out.insert(j, x);
        proof {
            assert(samples@.subrange(0, i + 1 as int) =~= samples@.subrange(0, i as int).push(x));
            assert(samples@.subrange(0, i as int).push(x).to_multiset() =~= samples@.subrange(
                0,
                i as int,
            ).to_multiset().insert(x));
            lemma_insert_to_multiset(pre, j as int, x);
            assert(out@.to_multiset() == samples@.subrange(0, i + 1 as int).to_multiset());
            assert(sorted_by(out@, reading_le())) by {
                assert(j < pre.len() ==> x < pre[j as int]);
                assert(forall|p: int, q: int|
                    0 <= p <= q < pre.len() ==> reading_le()(pre[p], pre[q]));
                assert(forall|p: int|
                    0 <= p < out@.len() ==> out@[p] == if p < j {
                        pre[p]
                    } else if p == j {
                        x
                    } else {
                        pre[p - 1]
                    });
                assert forall|p: int, q: int| 0 <= p <= q < out@.len() implies reading_le()(
                    out@[p],
                    out@[q],
                ) by {
                    if p < j && q > j {
                        assert(pre[p] <= x || x < pre[j as int]);
                        if x < pre[j as int] {
                            assert(pre[p] <= x || reading_le()(pre[p], pre[q - 1]));
                        }
                    }
                }
            }
        }
        i = i + 1;
    }
    proof {
        assert(samples@.subrange(0, n as int) =~= samples@);
        lemma_reading_le_total();
        samples@.lemma_sort_by_ensures(reading_le());
        lemma_ranked_unique(out@, samples@.sort_by(reading_le()));
    }
    out
}

/// Middle reading (for an even count, the truncated average of the two
/// middle readings) of a non-empty sequence.
pub fn median(samples: &Vec<u64>) -> (r: u64)
    requires
        samples@.len() > 0,
    ensures
        r == median_of(samples@),
        min_of(samples@) <= r <= max_of(samples@),
{
    proof {
        lemma_median_bounds(samples@);
    }
    let ranked = rank_samples(samples);
    let n = samples.len();
    if n % 2 == 1 {
        ranked[n / 2]
    } else {
        let a = ranked[n / 2 - 1];
        let b = ranked[n / 2];
        (((a as u128) + (b as u128)) / 2) as u64
    }
}

/// The spread numerator: the count of readings times the sum of squares,
/// less the square of the sum. This is the population variance scaled by
/// the squared count, an exact integer.
pub open spec fn scatter_of(s: Seq<u64>) -> int {
    (s.len() as int) * sum_sq_of(s) - sum_of(s) * sum_of(s)
}

/// Sum of squared deviations of the readings from `y`.
pub open spec fn dev_sq_sum(s: Seq<u64>, y: int) -> int
    decreases s.len(),
{
    if s.len() == 0 {
        0
    } else {
        dev_sq_sum(s.drop_last(), y) + (s.last() - y) * (s.last() - y)
    }
}

proof fn lemma_dev_sq_sum_props(s: Seq<u64>, y: int)
    ensures
        dev_sq_sum(s, y) >= 0,
        dev_sq_sum(s, y) == 0 <==> (forall|i: int| 0 <= i < s.len() ==> s[i] == y),
        dev_sq_sum(s, y) == sum_sq_of(s) - 2 * y * sum_of(s) + (s.len() as int) * y * y,
    decreases s.len(),
{
    if s.len() == 0 {
        assert((s.len() as int) * y * y == 0) by (nonlinear_arith)
            requires s.len() == 0;
    } else {
        let rest = s.drop_last();
        let l = s.last() as int;
        lemma_dev_sq_sum_props(rest, y);
        assert((l - y) * (l - y) >= 0) by (nonlinear_arith);
        assert((l - y) * (l - y) == 0 <==> l == y) by (nonlinear_arith);
        assert(forall|i: int| 0 <= i < rest.len() ==> rest[i] == s[i]);
        assert((forall|i: int| 0 <= i < s.len() ==> s[i] == y) <==> ((forall|i: int|
            0 <= i < rest.len() ==> rest[i] == y) && l == y)) by {
            assert(s[s.len() - 1] == s.last());
        }
        assert(dev_sq_sum(s, y) == sum_sq_of(s) - 2 * y * sum_of(s) + (s.len() as int) * y
            * y) by (nonlinear_arith)
            requires
                dev_sq_sum(s, y) == dev_sq_sum(rest, y) + (l - y) * (l - y),
                dev_sq_sum(rest, y) == sum_sq_of(rest) - 2 * y * sum_of(rest) + (
                rest.len() as int) * y * y,
                sum_sq_of(s) == sum_sq_of(rest) + l * l,
                sum_of(s) == sum_of(rest) + l,
                s.len() == rest.len() + 1,
        ;
    }
}

/// The spread numerator grows by the squared deviations from the new
/// reading when one reading is appended.
proof fn lemma_scatter_push(s: Seq<u64>, y: u64)
    ensures
        scatter_of(s.push(y)) == scatter_of(s) + dev_sq_sum(s, y as int),
{
    let t = s.push(y);
    let yi = y as int;
    assert(t.drop_last() =~= s);
    assert(t.last() == y);
    lemma_dev_sq_sum_props(s, yi);
    assert(scatter_of(t) == scatter_of(s) + dev_sq_sum(s, yi)) by (nonlinear_arith)
        requires
            scatter_of(t) == (t.len() as int) * sum_sq_of(t) - sum_of(t) * sum_of(t),
            scatter_of(s) == (s.len() as int) * sum_sq_of(s) - sum_of(s) * sum_of(s),
            sum_sq_of(t) == sum_sq_of(s) + yi * yi,
            sum_of(t) == sum_of(s) + yi,
            t.len() == s.len() + 1,
            dev_sq_sum(s, yi) == sum_sq_of(s) - 2 * yi * sum_of(s) + (s.len() as int) * yi
                * yi,
    ;
}

/// All readings of a sequence are the same.
pub open spec fn all_equal(s: Seq<u64>) -> bool {
    forall|i: int, j: int| 0 <= i < s.len() && 0 <= j < s.len() ==> s[i] == s[j]
}

/// The spread numerator is never negative, and it vanishes exactly when
/// every reading is the same: the spread of a reading sequence is zero if
/// and only if the readings are constant.
pub proof fn lemma_scatter_props(s: Seq<u64>)
    ensures
        scatter_of(s) >= 0,
        scatter_of(s) == 0 <==> all_equal(s),
    decreases s.len(),
{
    if s.len() == 0 {
        assert(scatter_of(s) == (s.len() as int) * sum_sq_of(s) - sum_of(s) * sum_of(s));
        assert((s.len() as int) * sum_sq_of(s) == 0) by (nonlinear_arith)
            requires s.len() == 0;
    } else {
        let rest = s.drop_last();
        let l = s.last();
        assert(rest.push(l) =~= s);
        lemma_scatter_push(rest, l);
        lemma_scatter_props(rest);
        lemma_dev_sq_sum_props(rest, l as int);
        assert(scatter_of(s) == scatter_of(rest) + dev_sq_sum(rest, l as int));
        if scatter_of(s) == 0 {
            assert(all_equal(rest));
            assert(forall|i: int| 0 <= i < rest.len() ==> rest[i] == l as int);
            assert(forall|i: int| 0 <= i < s.len() - 1 ==> s[i] == l);
            assert(s[s.len() - 1] == l);
            assert(all_equal(s));
        }
        if all_equal(s) {
            assert(forall|i: int| 0 <= i < rest.len() ==> rest[i] == s[i]);
            assert(s[s.len() - 1] == l);
            assert(all_equal(rest));
            assert(forall|i: int| 0 <= i < rest.len() ==> rest[i] == l as int);
            assert(scatter_of(s) == 0);
        }
    }
}

/// Integer square root, rounded down.
pub open spec fn floor_sqrt(n: int) -> int
    recommends
        n >= 0,
    decreases n,
{
    if n <= 0 {
        0
    } else {
        let r = floor_sqrt(n - 1);
        if (r + 1) * (r + 1) <= n {
            r + 1
        } else {
            r
        }
    }
}

pub proof fn lemma_floor_sqrt_props(n: int)
    requires
        n >= 0,
    ensures
        floor_sqrt(n) >= 0,
        floor_sqrt(n) * floor_sqrt(n) <= n,
        n < (floor_sqrt(n) + 1) * (floor_sqrt(n) + 1),
    decreases n,
{
    if n == 0 {
    } else {
        lemma_floor_sqrt_props(n - 1);
        let r = floor_sqrt(n - 1);
        if (r + 1) * (r + 1) <= n {
            assert(n < ((r + 1) + 1) * ((r + 1) + 1)) by (nonlinear_arith)
                requires
                    r >= 0,
                    n - 1 < (r + 1) * (r + 1),
            ;
        }
    }
}

pub proof fn lemma_floor_sqrt_unique(n: int, r: int)
    requires
        n >= 0,
        r >= 0,
        r * r <= n,
        n < (r + 1) * (r + 1),
    ensures
        r == floor_sqrt(n),
{
    lemma_floor_sqrt_props(n);
    let f = floor_sqrt(n);
    assert(r == f) by (nonlinear_arith)
        requires
            r >= 0,
            f >= 0,
            r * r <= n,
            n < (r + 1) * (r + 1),
            f * f <= n,
            n < (f + 1) * (f + 1),
    ;
}

/// Population standard deviation, truncated to an integer: the integer
/// square root of the spread numerator, divided by the reading count.
pub open spec fn std_dev_of(s: Seq<u64>) -> int
    recommends
        s.len() > 0,
{
    floor_sqrt(scatter_of(s)) / (s.len() as int)
}

/// The reported deviation is never negative; it is zero whenever the
/// readings are constant, and a positive report proves the readings were
/// not constant. (The exact zero-if-and-only-if law lives on the exact
/// spread `scatter_of`, in `lemma_scatter_props`: truncation can round a
/// tiny positive deviation down to zero, but never invents one.)
pub proof fn lemma_std_dev_constant(s: Seq<u64>)
    requires
        s.len() > 0,
    ensures
        std_dev_of(s) >= 0,
        all_equal(s) ==> std_dev_of(s) == 0,
        std_dev_of(s) > 0 ==> !all_equal(s),
{
    lemma_scatter_props(s);
    lemma_floor_sqrt_props(scatter_of(s));
    vstd::arithmetic::div_mod::lemma_div_pos_is_pos(
        floor_sqrt(scatter_of(s)),
        s.len() as int,
    );
    if all_equal(s) {
        assert(scatter_of(s) == 0);
        assert(floor_sqrt(0) == 0);
        assert(std_dev_of(s) == 0int / (s.len() as int));
        vstd::arithmetic::div_mod::lemma_div_of0(s.len() as int);
    }
}

/// Every reading is at most `SAMPLE_MAX`.
pub open spec fn samples_bounded(s: Seq<u64>) -> bool {
    forall|i: int| 0 <= i < s.len() ==> #[trigger] s[i] <= SAMPLE_MAX
}

/// A reading sequence a rollup accepts: a bounded count of bounded
/// readings.
pub open spec fn samples_ok(s: Seq<u64>) -> bool {
    s.len() <= u32::MAX && samples_bounded(s)
}

/// Tells whether a reading sequence is within the accepted bounds.
pub fn check_samples(s: &Vec<u64>) -> (r: bool)
    ensures
        r == samples_ok(s@),
{
    let n = s.len();
    if n > u32::MAX as usize {
        return false;
    }
    let mut i: usize = 0;
    while i < n
        invariant
            i <= n,
            n == s@.len(),
            forall|k: int| 0 <= k < i ==> #[trigger] s@[k] <= SAMPLE_MAX,
        decreases n - i,
    {
        if s[i] > SAMPLE_MAX {
            return false;
        }
        i = i + 1;
    }
    true
}

/// Integer square root, rounded down. The argument is bracketed between
/// the squares of the result and of its successor.
fn isqrt(n: u128) -> (r: u64)
    ensures
        r == floor_sqrt(n as int),
{
    if n == 0 {
        proof {
            lemma_floor_sqrt_unique(n as int, 0);
        }
        return 0;
    }
    let mut lo: u128 = 0;
    let mut hi: u128 = 0x1_0000_0000_0000_0000;
    while hi - lo > 1
        invariant
            0 <= lo < hi <= 0x1_0000_0000_0000_0000,
            (lo as int) * (lo as int) <= n as int,
            (n as int) < (hi as int) * (hi as int),
        decreases hi - lo,
    {
        let mid = lo + (hi - lo) / 2;
        proof {
            assert(lo < mid < hi);
            assert((mid as int) * (mid as int) < 0x1_0000_0000_0000_0000u128 * 0x1_0000_0000_0000_0000u128)
                by (nonlinear_arith)
                requires 0 <= (mid as int) < 0x1_0000_0000_0000_0000u128 as int;
        }
        if mid * mid <= n {
            lo = mid;
        } else {
            hi = mid;
        }
    }
    proof {
        assert(hi == lo + 1);
        assert(lo < 0x1_0000_0000_0000_0000);
        lemma_floor_sqrt_unique(n as int, lo as int);
    }
    lo as u64
}

/// Truncated population standard deviation of a non-empty sequence of
/// bounded readings. It is zero whenever all readings are equal; when they
/// are not, the exact spread `scatter_of` is positive, though truncation
/// may still round the reported value down to zero.
pub fn std_dev(samples: &Vec<u64>) -> (r: u64)
    requires
        samples@.len() > 0,
        samples@.len() <= u32::MAX,
        samples_bounded(samples@),
    ensures
        r == std_dev_of(samples@),
{
    let n = samples.len();
    let total = sum_u128(samples);
    let total_sq = sum_sq_u128(samples);
    proof {
        lemma_scatter_props(samples@);
        lemma_sum_nonneg(samples@);
        let ni = n as int;
        let s1 = sum_of(samples@);
        let s2 = sum_sq_of(samples@);
        let m = SAMPLE_MAX as int;
        lemma_sum_le(samples@, m);
        assert(s1 <= ni * m);
        assert(s2 <= ni * (m * m));
        assert(ni * s2 <= ni * (ni * (m * m))) by {
            lemma_mul_inequality_right(ni, s2, ni * (m * m));
        }
        assert(ni * (ni * (m * m)) < (0x1_0000_0000_0000_0000i128 as int)
            * (0x1_0000_0000_0000_0000i128 as int)) by (nonlinear_arith)
            requires 0 < ni <= u32::MAX as int, m == SAMPLE_MAX as int;
        assert(s1 * s1 <= (ni * m) * (ni * m)) by (nonlinear_arith)
            requires 0 <= s1 <= ni * m;
        assert((ni * m) * (ni * m) < (0x1_0000_0000_0000_0000i128 as int)
            * (0x1_0000_0000_0000_0000i128 as int)) by (nonlinear_arith)
            requires 0 < ni <= u32::MAX as int, m == SAMPLE_MAX as int;
        assert(s1 * s1 <= ni * s2) by {
            assert(scatter_of(samples@) >= 0);
        }
    }
    let scatter = (n as u128) * total_sq - total * total;
    let root = isqrt(scatter);
    proof {
        assert(root == floor_sqrt(scatter_of(samples@)));
        vstd::arithmetic::div_mod::lemma_div_pos_is_pos(root as int, n as int);
        lemma_div_is_ordered(0, root as int, n as int);
    }
    root / (n as u64)
}

proof fn lemma_sum_nonneg(s: Seq<u64>)
    ensures
        sum_of(s) >= 0,
        sum_sq_of(s) >= 0,
    decreases s.len(),
{
    if s.len() > 0 {
        lemma_sum_nonneg(s.drop_last());
        assert((s.last() as int) * (s.last() as int) >= 0) by (nonlinear_arith);
    }
}

/// A sum of readings each at most `m` is at most the count times `m`.
proof fn lemma_sum_le(s: Seq<u64>, m: int)
    requires
        forall|i: int| 0 <= i < s.len() ==> #[trigger] s[i] <= m,
    ensures
        sum_of(s) <= (s.len() as int) * m,
        sum_sq_of(s) <= (s.len() as int) * (m * m),
    decreases s.len(),
{
    if s.len() == 0 {
        assert((s.len() as int) * m == 0) by (nonlinear_arith)
            requires s.len() == 0;
        assert((s.len() as int) * (m * m) == 0) by (nonlinear_arith)
            requires s.len() == 0;
    } else {
        let rest = s.drop_last();
        let l = s.last() as int;
        assert(forall|i: int| 0 <= i < rest.len() ==> #[trigger] rest[i] <= m) by {
            assert(forall|i: int| 0 <= i < rest.len() ==> rest[i] == s[i]);
        }
        lemma_sum_le(rest, m);
        assert(s[s.len() - 1] == s.last());
        assert(0 <= l <= m);
        assert(sum_of(s) <= (s.len() as int) * m) by (nonlinear_arith)
            requires
                sum_of(s) == sum_of(rest) + l,
                sum_of(rest) <= (rest.len() as int) * m,
                s.len() == rest.len() + 1,
                0 <= l <= m,
        ;
        assert(l * l <= m * m) by (nonlinear_arith)
            requires 0 <= l <= m;
        assert(sum_sq_of(s) <= (s.len() as int) * (m * m)) by (nonlinear_arith)
            requires
                sum_sq_of(s) == sum_sq_of(rest) + l * l,
                sum_sq_of(rest) <= (rest.len() as int) * (m * m),
                s.len() == rest.len() + 1,
                l * l <= m * m,
        ;
    }
}

/// Sum of the squares of all readings, each bounded by `SAMPLE_MAX`.
fn sum_sq_u128(samples: &Vec<u64>) -> (r: u128)
    requires
        samples@.len() <= u32::MAX,
        samples_bounded(samples@),
    ensures
        r == sum_sq_of(samples@),
{
    let n = samples.len();
    let mut total: u128 = 0;
    let mut i: usize = 0;
    while i < n
        invariant
            n == samples@.len(),
            n <= u32::MAX,
            samples_bounded(samples@),
            i <= n,
            total == sum_sq_of(samples@.subrange(0, i as int)),
            total <= (i as int) * ((SAMPLE_MAX as int) * (SAMPLE_MAX as int)),
        decreases n - i,
    {
        let x = samples[i];
        proof {
            assert(samples@.subrange(0, i + 1 as int).drop_last() =~= samples@.subrange(
                0,
                i as int,
            ));
            let m = SAMPLE_MAX as int;
            assert(x <= m);
            assert((x as int) * (x as int) <= m * m) by (nonlinear_arith)
                requires 0 <= x as int <= m;
            assert((i + 1) * (m * m) == (i as int) * (m * m) + m * m) by (nonlinear_arith);
            assert((i + 1) * (m * m) <= (u32::MAX as int) * (m * m)) by (nonlinear_arith)
                requires 0 <= i + 1 <= u32::MAX as int;
            assert((u32::MAX as int) * (m * m) < u128::MAX as int) by (nonlinear_arith)
                requires m == SAMPLE_MAX as int;
        }
        total = total + (x as u128) * (x as u128);
        i = i + 1;
    }
    proof {
        assert(samples@.subrange(0, n as int) =~= samples@);
    }
    total
}

/// Every ranked reading lies between the least and greatest readings.
proof fn lemma_ranked_element_bounds(s: Seq<u64>, i: int)
    requires
        s.len() > 0,
        0 <= i < s.len(),
    ensures
        s.sort_by(reading_le()).len() == s.len(),
        min_of(s) <= s.sort_by(reading_le())[i] <= max_of(s),
{
    broadcast use group_to_multiset_ensures;

    lemma_reading_le_total();
    s.lemma_sort_by_ensures(reading_le());
    lemma_sum_bounds(s);
    let ranked = s.sort_by(reading_le());
    assert(ranked.len() == ranked.to_multiset().len());
    assert(s.len() == s.to_multiset().len());
    assert(ranked.to_multiset().count(ranked[i]) > 0);
    assert(s.to_multiset().count(ranked[i]) > 0);
    assert(s.contains(ranked[i]));
    let k = choose|k: int| 0 <= k < s.len() && s[k] == ranked[i];
    assert(min_of(s) <= s[k] <= max_of(s));
}

/// The median of a non-empty reading sequence lies between the least and
/// the greatest reading.
pub proof fn lemma_median_bounds(s: Seq<u64>)
    requires
        s.len() > 0,
    ensures
        min_of(s) <= median_of(s) <= max_of(s),
{
    let n = s.len() as int;
    if s.len() % 2 == 1 {
        lemma_ranked_element_bounds(s, n / 2);
    } else {
        lemma_ranked_element_bounds(s, n / 2 - 1);
        lemma_ranked_element_bounds(s, n / 2);
    }
}

/// Greatest reading of a non-empty sequence.
pub fn max(samples: &Vec<u64>) -> (r: u64)
    requires
        samples@.len() > 0,
    ensures
        r == max_of(samples@),
{
    let n = samples.len();
    let mut best = samples[0];
    let mut i: usize = 1;
    while i < n
        invariant
            n == samples@.len(),
            1 <= i <= n,
            best == max_of(samples@.subrange(0, i as int)),
        decreases n - i,
    {
        proof {
            assert(samples@.subrange(0, i + 1 as int).drop_last() =~= samples@.subrange(
                0,
                i as int,
            ));
        }
        let x = samples[i];
        if x > best {
            best = x;
        }
        i = i + 1;
    }
    proof {
        assert(samples@.subrange(0, n as int) =~= samples@);
    }
    best
}

/// `.mean`
pub open spec fn mean_suffix() -> Seq<u8> {
    seq!['.' as u8, 'm' as u8, 'e' as u8, 'a' as u8, 'n' as u8]
}

/// `.median`
pub open spec fn median_suffix() -> Seq<u8> {
    seq!['.' as u8, 'm' as u8, 'e' as u8, 'd' as u8, 'i' as u8, 'a' as u8, 'n' as u8]
}

/// `.min`
pub open spec fn min_suffix() -> Seq<u8> {
    seq!['.' as u8, 'm' as u8, 'i' as u8, 'n' as u8]
}

/// `.max`
pub open spec fn max_suffix() -> Seq<u8> {
    seq!['.' as u8, 'm' as u8, 'a' as u8, 'x' as u8]
}

/// `.std_dev`
pub open spec fn std_dev_suffix() -> Seq<u8> {
    seq![
        '.' as u8,
        's' as u8,
        't' as u8,
        'd' as u8,
        '_' as u8,
        'd' as u8,
        'e' as u8,
        'v' as u8,
    ]
}

/// The map after rolling a reading sequence up under a key prefix: the
/// five summary statistics keyed `<prefix>.mean`, `.median`, `.min`,
/// `.max` and `.std_dev`. An empty reading sequence adds nothing at all:
/// an absent subsystem leaves no keys, never zeroes.
pub open spec fn with_rollup(m: Map<Seq<u8>, u64>, prefix: Seq<u8>, s: Seq<u64>) -> Map<
    Seq<u8>,
    u64,
> {
    if s.len() == 0 {
        m
    } else {
        m.insert(prefix + mean_suffix(), mean_of(s) as u64).insert(
            prefix + median_suffix(),
            median_of(s) as u64,
        ).insert(prefix + min_suffix(), min_of(s) as u64).insert(
            prefix + max_suffix(),
            max_of(s) as u64,
        ).insert(prefix + std_dev_suffix(), std_dev_of(s) as u64)
    }
}

/// Appends a byte-string suffix to a key prefix.
fn key_with_suffix(prefix: &Vec<u8>, suffix: &[u8]) -> (r: Vec<u8>)
    ensures
        r@ == prefix@ + suffix@,
{
    let mut r: Vec<u8> = Vec::new();
    r.extend_from_slice(prefix.as_slice());
    r.extend_from_slice(suffix);
    proof {
        assert(forall|i: int| 0 <= i < prefix@.len() ==> r@[i] == prefix@[i]);
        assert(forall|i: int|
            prefix@.len() <= i < r@.len() ==> cloned::<u8>(suffix@[i - prefix@.len()], r@[i]));
        assert(r@ =~= prefix@ + suffix@);
    }
    r
}

/// Rolls one reading sequence up into the mapping under a key prefix,
/// adding the five summary statistics; an empty sequence adds no keys.
pub fn add_rollup(map: &mut MetricMap, prefix: &Vec<u8>, samples: &Vec<u64>)
    requires
        old(map).wf(),
        samples@.len() <= u32::MAX,
        samples_bounded(samples@),
    ensures
        final(map).wf(),
        final(map)@ == with_rollup(old(map)@, prefix@, samples@),
{
    if samples.len() == 0 {
        return ;
    }
    let m = mean(samples);
    let md = median(samples);
    let lo = min(samples);
    let hi = max(samples);
    let sd = std_dev(samples);
    let mean_sfx: [u8; 5] = ['.' as u8, 'm' as u8, 'e' as u8, 'a' as u8, 'n' as u8];
    let median_sfx: [u8; 7] = [
        '.' as u8,
        'm' as u8,
        'e' as u8,
        'd' as u8,
        'i' as u8,
        'a' as u8,
        'n' as u8,
    ];
    let min_sfx: [u8; 4] = ['.' as u8, 'm' as u8, 'i' as u8, 'n' as u8];
    let max_sfx: [u8; 4] = ['.' as u8, 'm' as u8, 'a' as u8, 'x' as u8];
    let std_dev_sfx: [u8; 8] = [
        '.' as u8,
        's' as u8,
        't' as u8,
        'd' as u8,
        '_' as u8,
        'd' as u8,
        'e' as u8,
        'v' as u8,
    ];
    proof {
        assert(mean_sfx@ =~= mean_suffix());
        assert(median_sfx@ =~= median_suffix());
        assert(min_sfx@ =~= min_suffix());
        assert(max_sfx@ =~= max_suffix());
        assert(std_dev_sfx@ =~= std_dev_suffix());
    }
    map.insert(key_with_suffix(prefix, mean_sfx.as_slice()), m);
    map.insert(key_with_suffix(prefix, median_sfx.as_slice()), md);
    map.insert(key_with_suffix(prefix, min_sfx.as_slice()), lo);
    map.insert(key_with_suffix(prefix, max_sfx.as_slice()), hi);
    map.insert(key_with_suffix(prefix, std_dev_sfx.as_slice()), sd);
}

} // verus!
