//! Integer statistics helpers for boot-time measurements: the mean, the sample
//! standard deviation and the integer square root, all without floating point.
use vstd::prelude::*;

verus! {

/// Sum of the samples, as a mathematical integer.
pub open spec fn seq_sum(s: Seq<u64>) -> int
    decreases s.len(),
{
    if s.len() == 0 {
        0
    } else {
        seq_sum(s.drop_last()) + s.last()
    }
}

/// Distance between a sample and the mean, as the code computes it.
pub open spec fn abs_diff(x: u64, avg: u64) -> int {
    if x >= avg {
        x - avg
    } else {
        avg - x
    }
}

/// Sum of squared distances from `avg`.
pub open spec fn sq_dev_sum(s: Seq<u64>, avg: u64) -> int
    decreases s.len(),
{
    if s.len() == 0 {
        0
    } else {
        sq_dev_sum(s.drop_last(), avg) + abs_diff(s.last(), avg) * abs_diff(s.last(), avg)
    }
}

/// `r` is the integer square root of `n`: the largest `r` with `r * r <= n`.
pub open spec fn is_isqrt(n: int, r: int) -> bool {
    &&& 0 <= r
    &&& r * r <= n
    &&& n < (r + 1) * (r + 1)
}

/// The arithmetic mean of `s`, rounded down; `0` for no samples.
pub open spec fn spec_average(s: Seq<u64>) -> int {
    if s.len() == 0 {
        0
    } else {
        seq_sum(s) / (s.len() as int)
    }
}

/// Integer-like numbers with an integer square root.
pub trait Number: Sized + Copy {
    /// The value as a mathematical integer.
    spec fn as_int(self) -> int;

    /// Spec-level bound under which `sqrt` is defined.
    spec fn sqrt_defined(self) -> bool;

    /// Computes `⌊√self⌋` with Newton's method.
    fn sqrt(self) -> (r: Self)
        requires
            self.sqrt_defined(),
        ensures
            is_isqrt(self.as_int(), r.as_int()),
    ;
}

proof fn lemma_sum_bound(a: int, x: int, s: int, n: int) by (nonlinear_arith)
    requires
        x > 0,
        s >= 0,
        s * s <= n,
        a * x <= n,
        n < (a + 1) * x,
    ensures
        a + x >= 2 * s,
{
    if a + x < 2 * s {
        assert((a + 1) * x <= (2 * s - x) * x);
        assert((2 * s - x) * x == s * s - (s - x) * (s - x));
    }
}

proof fn lemma_newton_step_no_overflow(n: int, x: int, a: int) by (nonlinear_arith)
    requires
        1 <= x <= n,
        a * x <= n,
        0 <= a,
    ensures
        a + x <= n + 1,
{
    if x >= 2 && a + x > n + 1 {
        assert(a >= n + 2 - x);
        assert(a * x >= (n + 2 - x) * x);
        assert((n + 2 - x) * x - n == (n - x) * (x - 1) + x);
    }
}

proof fn lemma_div_facts(n: int, x: int)
    requires
        x > 0,
        n >= 0,
    ensures
        (n / x) * x <= n,
        n < (n / x + 1) * x,
        n / x >= 0,
{
    assert((n / x) * x <= n) by (nonlinear_arith)
        requires x > 0, n >= 0;
    assert(n < (n / x + 1) * x) by (nonlinear_arith)
        requires x > 0, n >= 0;
    assert(n / x >= 0) by (nonlinear_arith)
        requires x > 0, n >= 0;
}

/// The integer square root of `n`, given by its defining property.
pub proof fn lemma_isqrt_exists(n: int)
    requires
        n >= 0,
    ensures
        exists|r: int| #[trigger] is_isqrt(n, r),
    decreases n,
{
    if n == 0 {
        assert(is_isqrt(0, 0));
    } else {
        lemma_isqrt_exists(n - 1);
        let r = choose|r: int| #[trigger] is_isqrt(n - 1, r);
        if (r + 1) * (r + 1) <= n {
            assert((r + 1) * (r + 1) == n) by (nonlinear_arith)
                requires n - 1 < (r + 1) * (r + 1), (r + 1) * (r + 1) <= n;
            assert(n < (r + 2) * (r + 2)) by (nonlinear_arith)
                requires (r + 1) * (r + 1) == n, r >= 0;
            assert(is_isqrt(n, r + 1));
        } else {
            assert(is_isqrt(n, r));
        }
    }
}

impl Number for u64 {
    open spec fn as_int(self) -> int {
        self as int
    }

    open spec fn sqrt_defined(self) -> bool {
        true
    }

    fn sqrt(self) -> (r: u64) {
        if self == 0 {
            assert(is_isqrt(0, 0));
            return 0;
        }
        let n = self;
        proof {
            lemma_isqrt_exists(n as int);
        }
        let ghost s = choose|r: int| #[trigger] is_isqrt(n as int, r);
        let mut x: u64 = n;
        let mut y: u64 = ((x as u128 + 1) / 2) as u64;
        proof {
            lemma_div_facts(n as int, x as int);
            assert(n as int / n as int == 1) by (nonlinear_arith)
                requires n > 0;
            assert(s >= 1) by (nonlinear_arith)
                requires n >= 1, n < (s + 1) * (s + 1), s >= 0;
            assert(s <= n) by (nonlinear_arith)
                requires s >= 1, s * s <= n;
        }
        while y < x
            invariant
                0 < n,
                is_isqrt(n as int, s),
                1 <= x <= n,
                1 <= s <= x,
                y == (n as int / x as int + x) / 2,
            decreases x,
        {
            proof {
                lemma_div_facts(n as int, x as int);
                lemma_sum_bound(n as int / x as int, x as int, s, n as int);
            }
            x = y;
            proof {
                lemma_div_facts(n as int, x as int);
                lemma_sum_bound(n as int / x as int, x as int, s, n as int);
                lemma_newton_step_no_overflow(n as int, x as int, n as int / x as int);
            }
            y = ((n as u128 / x as u128 + x as u128) / 2) as u64;
        }
        proof {
            lemma_div_facts(n as int, x as int);
            let a = n as int / x as int;
            assert(a >= x);
            assert(x * x <= n) by (nonlinear_arith)
                requires a >= x, a * x <= n, x >= 1;
            if x > s {
                assert(x * x >= (s + 1) * (s + 1)) by (nonlinear_arith)
                    requires x >= s + 1, s >= 0;
            }
        }
        x
    }
}

proof fn lemma_sum_prefix_monotone(s: Seq<u64>, i: int)
    requires
        0 <= i <= s.len(),
    ensures
        0 <= seq_sum(s.take(i)) <= seq_sum(s),
    decreases s.len() - i,
{
    if i == s.len() {
        assert(s.take(i) =~= s);
        lemma_sum_nonneg(s);
    } else {
        lemma_sum_prefix_monotone(s, i + 1);
        assert(s.take(i + 1).drop_last() =~= s.take(i));
        lemma_sum_nonneg(s.take(i));
    }
}

proof fn lemma_sum_nonneg(s: Seq<u64>)
    ensures
        seq_sum(s) >= 0,
    decreases s.len(),
{
    if s.len() > 0 {
        lemma_sum_nonneg(s.drop_last());
    }
}

proof fn lemma_dev_prefix_monotone(s: Seq<u64>, avg: u64, i: int)
    requires
        0 <= i <= s.len(),
    ensures
        0 <= sq_dev_sum(s.take(i), avg) <= sq_dev_sum(s, avg),
    decreases s.len() - i,
{
    if i == s.len() {
        assert(s.take(i) =~= s);
        lemma_dev_nonneg(s, avg);
    } else {
        lemma_dev_prefix_monotone(s, avg, i + 1);
        assert(s.take(i + 1).drop_last() =~= s.take(i));
        lemma_dev_nonneg(s.take(i), avg);
        let d = abs_diff(s[i], avg);
        assert(d * d >= 0) by (nonlinear_arith);
    }
}

proof fn lemma_dev_nonneg(s: Seq<u64>, avg: u64)
    ensures
        sq_dev_sum(s, avg) >= 0,
    decreases s.len(),
{
    if s.len() > 0 {
        lemma_dev_nonneg(s.drop_last(), avg);
        let d = abs_diff(s.last(), avg);
        assert(d * d >= 0) by (nonlinear_arith);
    }
}

/// Returns the arithmetic mean of `values`, rounded down, or `0` when there
/// are none.
pub fn average(values: &[u64]) -> (r: u64)
    requires
        seq_sum(values@) <= u64::MAX,
    ensures
        r == spec_average(values@),
{
    if values.len() == 0 {
        return 0;
    }
    let mut sum: u64 = 0;
    let mut i: usize = 0;
    while i < values.len()
        invariant
            0 <= i <= values.len(),
            sum == seq_sum(values@.take(i as int)),
            seq_sum(values@) <= u64::MAX,
        decreases values.len() - i,
    {
        proof {
            assert(values@.take(i as int + 1).drop_last() =~= values@.take(i as int));
            lemma_sum_prefix_monotone(values@, i as int + 1);
        }
        sum = sum + values[i];
        i = i + 1;
    }
    proof {
        assert(values@.take(values.len() as int) =~= values@);
    }
    let n: u64 = values.len() as u64;
    sum / n
}

/// The sample variance (Bessel's correction) of `s` about `avg`.
pub open spec fn spec_variance(s: Seq<u64>, avg: u64) -> int {
    sq_dev_sum(s, avg) / ((s.len() - 1) as int)
}

/// Whether `std_dev` can compute on `s` without leaving `u64`: the sum and
/// the sum of squared deviations fit.
pub open spec fn std_dev_defined(s: Seq<u64>) -> bool {
    &&& seq_sum(s) <= u64::MAX
    &&& (s.len() >= 2 ==> {
        let avg = spec_average(s) as u64;
        sq_dev_sum(s, avg) <= u64::MAX
    })
}

/// Returns the sample standard deviation of `values` (integer square root of
/// the variance with Bessel's correction), or `None` when there are fewer
/// than two samples.
pub fn std_dev(values: &[u64]) -> (r: Option<u64>)
    requires
        std_dev_defined(values@),
    ensures
        values@.len() < 2 <==> r is None,
        r matches Some(d) ==> is_isqrt(
            spec_variance(values@, spec_average(values@) as u64),
            d as int,
        ),
{
    if values.len() < 2 {
        return None;
    }
    let avg = average(values);
    let mut acc: u64 = 0;
    let mut i: usize = 0;
    while i < values.len()
        invariant
            0 <= i <= values.len(),
            values.len() >= 2,
            avg == spec_average(values@),
            acc == sq_dev_sum(values@.take(i as int), avg),
            sq_dev_sum(values@, avg) <= u64::MAX,
        decreases values.len() - i,
    {
        let x = values[i];
        let diff: u64 = if x >= avg {
            x - avg
        } else {
            avg - x
        };
        proof {
            assert(values@.take(i as int + 1).drop_last() =~= values@.take(i as int));
            lemma_dev_prefix_monotone(values@, avg, i as int + 1);
            lemma_dev_nonneg(values@.take(i as int), avg);
            assert(diff * diff >= 0) by (nonlinear_arith);
        }
        acc = acc + diff * diff;
        i = i + 1;
    }
    proof {
        assert(values@.take(values.len() as int) =~= values@);
    }
    let n: u64 = (values.len() - 1) as u64;
    let variance = acc / n;
    Some(variance.sqrt())
}

} // verus!
