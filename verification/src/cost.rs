//! Plan costs: whole numbers of cost units, added with saturation.

use vstd::prelude::*;

verus! {

/// The cost of a plan, in cost units.
#[derive(Clone, Copy, Debug, PartialEq, Eq, Structural)]
pub struct Cost {
    pub value: u64,
}

/// Cost units charged once for opening a table scan.
pub const COST_INIT_SCAN_FACTOR: u64 = 100;

/// Cost units per row that a table scan reads.
pub const COST_TABLE_SCAN_COST_UNIT: u64 = 10;

/// Cost units per row and key column that an index scan compares.
pub const COST_INDEX_FILTER_COST_UNIT: u64 = 2;

/// Cost units per row that an index scan fetches.
pub const COST_INDEX_SCAN_TUP_COST_UNIT: u64 = 4;

/// Cost units charged once for the random access of an index scan.
pub const COST_INDEX_SCAN_TUP_RANDOM_FACTOR: u64 = 50;

/// Cost units per row and predicate column that a filter tests.
pub const COST_FILTER_COL_COST_UNIT: u64 = 1;

/// Cost units per row that a projection handles.
pub const COST_TUP_DEFAULT_PROC_COST_UNIT: u64 = 1;

/// Cost units per row and comparison level of a sort.
pub const COST_SORT_TUP_WIDTH_COST_UNIT: u64 = 2;

/// The sum of two costs, held at the largest cost where it would pass it.
pub open spec fn plus_spec(a: Cost, b: Cost) -> Cost {
    if a.value + b.value > u64::MAX {
        Cost { value: u64::MAX }
    } else {
        Cost { value: (a.value + b.value) as u64 }
    }
}

/// The product of two counts, held at the largest `u64` where it would pass it.
pub open spec fn times_spec(a: u64, b: u64) -> u64 {
    if a * b > u64::MAX {
        u64::MAX
    } else {
        (a * b) as u64
    }
}

/// The sum of two counts, held at the largest `u64` where it would pass it.
pub open spec fn sum_spec(a: u64, b: u64) -> u64 {
    if a + b > u64::MAX {
        u64::MAX
    } else {
        (a + b) as u64
    }
}

/// The sum of a sequence of costs, from the zero cost.
pub open spec fn total_spec(costs: Seq<Cost>) -> Cost
    decreases costs.len(),
{
    if costs.len() == 0 {
        Cost { value: 0 }
    } else {
        plus_spec(total_spec(costs.drop_last()), costs.last())
    }
}

/// The largest `k` with `2^k <= n`, and 0 for `n` below 2.
pub open spec fn log2_spec(n: u64) -> nat
    decreases n,
{
    if n < 2 {
        0
    } else {
        1 + log2_spec(n / 2)
    }
}

/// The logarithm of a number is no larger than the number.
pub proof fn lemma_log2_bound(n: u64)
    ensures
        log2_spec(n) <= n,
    decreases n,
{
    if n >= 2 {
        lemma_log2_bound(n / 2);
    }
}

impl Cost {
    pub fn new(value: u64) -> (c: Self)
        ensures
            c.value == value,
    {
        Cost { value }
    }

    pub fn value(&self) -> (v: u64)
        ensures
            v == self.value,
    {
        self.value
    }

    /// The cost of doing nothing.
    pub fn zero() -> (c: Self)
        ensures
            c.value == 0,
    {
        Cost { value: 0 }
    }

    /// The sum of two costs.
    pub fn plus(self, other: Cost) -> (c: Self)
        ensures
            c == plus_spec(self, other),
    {
        if self.value > u64::MAX - other.value {
            Cost { value: u64::MAX }
        } else {
            Cost { value: self.value + other.value }
        }
    }

    /// Whether this cost is strictly below `other`.
    pub fn less_than(&self, other: &Cost) -> (b: bool)
        ensures
            b == (self.value < other.value),
    {
        self.value < other.value
    }
}

/// The product of two counts, saturating.
pub fn times(a: u64, b: u64) -> (p: u64)
    ensures
        p == times_spec(a, b),
{
    if a == 0 || b == 0 {
        assert(a * b == 0) by (nonlinear_arith)
            requires
                a == 0 || b == 0,
        ;
        0
    } else if a > u64::MAX / b {
        assert(a * b > u64::MAX) by (nonlinear_arith)
            requires
                a > u64::MAX / b,
                b > 0,
        ;
        u64::MAX
    } else {
        assert(a * b <= u64::MAX) by (nonlinear_arith)
            requires
                a <= u64::MAX / b,
                b > 0,
        ;
        a * b
    }
}

/// The sum of two counts, saturating.
pub fn sum(a: u64, b: u64) -> (s: u64)
    ensures
        s == sum_spec(a, b),
{
    if a > u64::MAX - b {
        u64::MAX
    } else {
        a + b
    }
}

/// The whole part of the base-two logarithm of `n`.
pub fn log2(n: u64) -> (k: u64)
    ensures
        k == log2_spec(n),
{
    let mut k: u64 = 0;
    let mut m: u64 = n;
    while m >= 2
        invariant
            k + log2_spec(m) == log2_spec(n),
        decreases m,
    {
        proof {
            lemma_log2_bound(n);
        }
        m = m / 2;
        k = k + 1;
    }
    k
}

/// The sum of the costs in `costs`.
pub fn cost_children(costs: &Vec<Cost>) -> (c: Cost)
    ensures
        c == total_spec(costs@),
{
    let mut total = Cost::zero();
    let mut i: usize = 0;
    while i < costs.len()
        invariant
            i <= costs.len(),
            total == total_spec(costs@.take(i as int)),
        decreases costs.len() - i,
    {
        assert(costs@.take(i as int + 1).drop_last() =~= costs@.take(i as int));
        total = total.plus(costs[i]);
        i += 1;
    }
    assert(costs@.take(costs.len() as int) =~= costs@);
    total
}

/// Adding costs does not depend on how the sums are grouped.
pub proof fn lemma_plus_associative(a: Cost, b: Cost, c: Cost)
    ensures
        plus_spec(plus_spec(a, b), c) == plus_spec(a, plus_spec(b, c)),
{
}

/// Adding costs does not depend on their order.
pub proof fn lemma_plus_commutative(a: Cost, b: Cost)
    ensures
        plus_spec(a, b) == plus_spec(b, a),
{
}

/// The zero cost changes nothing when added.
pub proof fn lemma_plus_zero(a: Cost)
    ensures
        plus_spec(a, Cost { value: 0 }) == a,
        plus_spec(Cost { value: 0 }, a) == a,
{
}

/// A sum is at least each of its parts.
pub proof fn lemma_plus_monotone(a: Cost, b: Cost)
    ensures
        plus_spec(a, b).value >= a.value,
        plus_spec(a, b).value >= b.value,
{
}

/// The sum of the first costs of a sequence is no larger than the sum of all.
pub proof fn lemma_total_prefix(costs: Seq<Cost>, k: int)
    requires
        0 <= k <= costs.len(),
    ensures
        total_spec(costs.take(k)).value <= total_spec(costs).value,
    decreases costs.len(),
{
    if k == costs.len() {
        assert(costs.take(k) =~= costs);
    } else {
        lemma_total_prefix(costs.drop_last(), k);
        assert(costs.drop_last().take(k) =~= costs.take(k));
    }
}

} // verus!
