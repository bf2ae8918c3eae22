//! Integer arithmetic.
use vstd::arithmetic::div_mod::{lemma_fundamental_div_mod, lemma_fundamental_div_mod_converse};
use vstd::prelude::*;

verus! {

/// The smaller of two numbers.
pub open spec fn least(a: int, b: int) -> int {
    if a <= b {
        a
    } else {
        b
    }
}

/// The larger of two numbers.
pub open spec fn most(a: int, b: int) -> int {
    if a >= b {
        a
    } else {
        b
    }
}

/// `r` is the square root of `n`, rounded down.
pub open spec fn is_root(n: int, r: int) -> bool {
    0 <= r && r * r <= n < (r + 1) * (r + 1)
}

/// The square root, rounded down.
pub fn isqrt(n: usize) -> (r: usize)
    ensures
        is_root(n as int, r as int),
{
    let mut lo: usize = 0;
    let mut hi: usize = n;
    assert(n < (n + 1) * (n + 1)) by (nonlinear_arith)
        requires
            n >= 0,
    ;
    while lo < hi
        invariant
            0 <= lo <= hi <= n,
            lo * lo <= n,
            n < (hi + 1) * (hi + 1),
        decreases hi - lo,
    {
        let mid: usize = lo + (hi - lo) / 2 + (hi - lo) % 2;
        assert(lo < mid <= hi);
        let m: u128 = mid as u128;
        assert(m * m <= 0xffff_ffff_ffff_ffff * 0xffff_ffff_ffff_ffff) by (nonlinear_arith)
            requires
                0 <= m <= 0xffff_ffff_ffff_ffff,
        ;
        if m * m <= n as u128 {
            lo = mid;
        } else {
            hi = mid - 1;
        }
    }
    lo
}

/// How many groups of `size` hold `n` things.
pub open spec fn groups(n: int, size: int) -> int {
    (n + size - 1) / size
}

/// How many groups of `size` hold `n` things.
pub fn div_ceil(n: usize, size: usize) -> (r: usize)
    requires
        size > 0,
    ensures
        r == groups(n as int, size as int),
        r <= n,
{
    let whole: usize = n / size;
    let rest: usize = n % size;
    proof {
        let (n, b) = (n as int, size as int);
        lemma_fundamental_div_mod(n, b);
        let q = n / b;
        let r = n % b;
        assert(q <= n) by (nonlinear_arith)
            requires
                n == b * q + r,
                b > 0,
                0 <= r,
                q >= 0,
        ;
        if r == 0 {
            assert(n + b - 1 == q * b + (b - 1)) by (nonlinear_arith)
                requires
                    n == b * q + r,
                    r == 0,
            ;
            lemma_fundamental_div_mod_converse(n + b - 1, b, q, b - 1);
        } else {
            assert(n + b - 1 == (q + 1) * b + (r - 1)) by (nonlinear_arith)
                requires
                    n == b * q + r,
            ;
            lemma_fundamental_div_mod_converse(n + b - 1, b, q + 1, r - 1);
            assert(q < n) by (nonlinear_arith)
                requires
                    n == b * q + r,
                    b > 0,
                    0 < r,
                    q >= 0,
            ;
        }
    }
    if rest == 0 {
        whole
    } else {
        whole + 1
    }
}

/// The groups hold everything, and one group fewer would not.
pub proof fn law_groups(n: int, size: int)
    requires
        n >= 0,
        size > 0,
    ensures
        groups(n, size) >= 0,
        groups(n, size) * size >= n,
        (groups(n, size) - 1) * size < n,
{
    let c = groups(n, size);
    lemma_fundamental_div_mod(n + size - 1, size);
    let r = (n + size - 1) % size;
    assert(c >= 0 && c * size >= n && (c - 1) * size < n) by (nonlinear_arith)
        requires
            n >= 0,
            size > 0,
            n + size - 1 == size * c + r,
            0 <= r < size,
    ;
}

/// The least multiple of `step` that is not below `n`.
pub open spec fn next_multiple(n: int, step: int) -> int {
    ((n + step - 1) / step) * step
}

/// The next multiple is the least multiple that is not below the number.
pub proof fn law_next_multiple(n: int, step: int, k: int)
    requires
        n >= 0,
        step > 0,
    ensures
        next_multiple(n, step) % step == 0,
        n <= next_multiple(n, step) < n + step,
        k * step >= n ==> k * step >= next_multiple(n, step),
{
    law_groups(n, step);
    let q = groups(n, step);
    assert(next_multiple(n, step) == q * step);
    assert((q - 1) * step == q * step - step) by (nonlinear_arith);
    vstd::arithmetic::div_mod::lemma_mod_multiples_basic(q, step);
    if k * step >= n && k < q {
        assert(k * step <= (q - 1) * step) by (nonlinear_arith)
            requires
                k <= q - 1,
                step > 0,
        ;
    } else if k >= q {
        assert(k * step >= q * step) by (nonlinear_arith)
            requires
                k >= q,
                step > 0,
        ;
    }
}

/// A number has one root, and a larger number has no smaller root.
pub proof fn law_root(n: int, m: int, r: int, s: int)
    requires
        is_root(n, r),
        is_root(m, s),
        n <= m,
    ensures
        r <= s,
        n == m ==> r == s,
        r * r <= n,
        (r + 1) * (r + 1) > n,
{
    if r > s {
        assert((s + 1) * (s + 1) <= r * r) by (nonlinear_arith)
            requires
                0 <= s,
                s + 1 <= r,
        ;
    }
    if n == m && s > r {
        assert((r + 1) * (r + 1) <= s * s) by (nonlinear_arith)
            requires
                0 <= r,
                r + 1 <= s,
        ;
    }
}

/// The smaller of two numbers is one of them and above neither, the larger is one of them and below
/// neither.
pub proof fn law_bounds(a: int, b: int)
    ensures
        least(a, b) == a || least(a, b) == b,
        least(a, b) <= a,
        least(a, b) <= b,
        most(a, b) == a || most(a, b) == b,
        most(a, b) >= a,
        most(a, b) >= b,
{
}

/// The least multiple of `step` that is not below `n`.
pub fn next_multiple_of(n: usize, step: usize) -> (r: usize)
    requires
        step > 0,
        next_multiple(n as int, step as int) <= usize::MAX,
    ensures
        r == next_multiple(n as int, step as int),
        r >= n,
        r % step == 0,
{
    let (a, s) = (n as u128, step as u128);
    let ghost q = (n + step - 1) / (step as int);
    proof {
        lemma_fundamental_div_mod(n + step - 1, step as int);
        assert(q * step >= n && q >= 0) by (nonlinear_arith)
            requires
                step > 0,
                n >= 0,
                n + step - 1 == step * q + (n + step - 1) % (step as int),
                0 <= (n + step - 1) % (step as int) < step,
        ;
        assert((q * step) % (step as int) == 0) by (nonlinear_arith)
            requires
                step > 0,
        ;
    }
    let count: u128 = (a + s - 1) / s;
    (count * s) as usize
}

/// Different numbers below a bound are at most as many as the bound.
pub proof fn lemma_distinct_bounded(s: Seq<usize>, n: nat)
    requires
        forall|i: int| 0 <= i < s.len() ==> (#[trigger] s[i]) < n,
        forall|i: int, j: int| 0 <= i < j < s.len() ==> s[i] != s[j],
    ensures
        s.len() <= n,
{
    let values = s.map_values(|v: usize| v as int);
    assert(values.no_duplicates()) by {
        assert forall|i: int, j: int|
            0 <= i < values.len() && 0 <= j < values.len() && i != j implies values[i]
            != values[j] by {
            if i < j {
                assert(s[i] != s[j]);
            } else {
                assert(s[j] != s[i]);
            }
        }
    }
    values.unique_seq_to_set();
    let range = vstd::set_lib::set_int_range(0, n as int);
    vstd::set_lib::lemma_int_range(0, n as int);
    assert(values.to_set().subset_of(range)) by {
        assert forall|x: int| values.to_set().contains(x) implies range.contains(x) by {
            let k = choose|k: int| 0 <= k < values.len() && values[k] == x;
            assert(s[k] < n);
        }
    }
    vstd::set_lib::lemma_len_subset(values.to_set(), range);
}

/// As many different numbers below a bound as the bound are all of them.
pub proof fn lemma_distinct_full(s: Seq<usize>, n: nat, v: usize)
    requires
        forall|i: int| 0 <= i < s.len() ==> (#[trigger] s[i]) < n,
        forall|i: int, j: int| 0 <= i < j < s.len() ==> s[i] != s[j],
        s.len() >= n,
        v < n,
    ensures
        s.contains(v),
{
    if !s.contains(v) {
        let more = s.push(v);
        assert forall|i: int, j: int| 0 <= i < j < more.len() implies more[i] != more[j] by {
            if j == s.len() {
                assert(s.contains(s[i]));
            }
        }
        lemma_distinct_bounded(more, n);
    }
}

} // verus!
