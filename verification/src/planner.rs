use vstd::prelude::*;
use vstd::arithmetic::mul::lemma_mul_inequality;
use vstd::arithmetic::power::{
    pow, lemma_pow0, lemma_pow_adds, lemma_pow_increases, lemma_pow_multiplies,
    lemma_pow_positive,
};
use vstd::arithmetic::power2::lemma2_to64;

use crate::errors::AtmError;

verus! {

/// Partition geometry: how many hash characters each directory level
/// consumes (`partition_size`), and how many directory levels stand between
/// the output root and a leaf file (`partition_depth`, zero meaning a flat
/// layout).
#[derive(Clone, Copy, Debug, PartialEq, Eq, Structural)]
pub struct PartitionGeometry {
    pub partition_size: u32,
    pub partition_depth: u32,
}

/// Number of sequences in the planned space: `n^length`.
pub open spec fn space_size(n: nat, length: nat) -> nat {
    pow(n as int, length) as nat
}

/// `space_size`, clamped to the widest machine integer the planner computes
/// with.  Spaces larger than `u128::MAX` are treated as exactly that bound;
/// the resulting geometry is at least as wide as any exact computation would
/// give, never wider than needed for a `u128`-sized space.
pub open spec fn clamped_space_size(n: nat, length: nat) -> nat {
    if space_size(n, length) > u128::MAX {
        u128::MAX as nat
    } else {
        space_size(n, length)
    }
}

/// The planning inequality: with `size` hexadecimal hash characters per
/// directory level and `depth` levels there are `16^(size * depth)` terminal
/// directories, so the expected number of leaf entries per terminal directory
/// stays within `max_files` exactly when
/// `n^length <= max_files * 16^(size * depth)` (the left side clamped as
/// `clamped_space_size` says).
pub open spec fn within_budget(
    n: nat,
    length: nat,
    max_files: nat,
    depth: nat,
    size: nat,
) -> bool {
    clamped_space_size(n, length) <= max_files * pow(16, (size * depth) as nat)
}

/// The smallest level width `>= s` (capped at 32, a width that always
/// satisfies the budget for a clamped space) that satisfies the planning
/// inequality.
pub open spec fn smallest_size_from(
    n: nat,
    length: nat,
    max_files: nat,
    depth: nat,
    s: nat,
) -> nat
    decreases 32 - s,
{
    if s >= 32 || within_budget(n, length, max_files, depth, s) {
        s
    } else {
        smallest_size_from(n, length, max_files, depth, (s + 1) as nat)
    }
}

/// The level width the planner chooses: the smallest `size >= 1` satisfying
/// the planning inequality, or `1` for a flat layout (`depth == 0`), where
/// no partitioning happens and the width is irrelevant.
pub open spec fn planned_size(n: nat, length: nat, max_files: nat, depth: nat) -> nat {
    if depth == 0 {
        1
    } else {
        smallest_size_from(n, length, max_files, depth, 1)
    }
}

/// `base^exp`, saturating at `u128::MAX`.
pub(crate) fn pow_clamped_u128(base: u128, exp: u64) -> (r: u128)
    requires
        1 <= base,
    ensures
        r as int == (if pow(base as int, exp as nat) > u128::MAX {
            u128::MAX as int
        } else {
            pow(base as int, exp as nat)
        }),
{
    let mut acc: u128 = 1;
    let mut i: u64 = 0;
    proof {
        lemma_pow0(base as int);
    }
    loop
        invariant
            1 <= base,
            i <= exp,
            acc as int == (if pow(base as int, i as nat) > u128::MAX {
                u128::MAX as int
            } else {
                pow(base as int, i as nat)
            }),
        ensures
            acc as int == (if pow(base as int, exp as nat) > u128::MAX {
                u128::MAX as int
            } else {
                pow(base as int, exp as nat)
            }),
        decreases exp - i,
    {
        if i == exp {
            break;
        }
        if acc == u128::MAX {
            proof {
                lemma_pow_increases(base as nat, i as nat, exp as nat);
            }
            break;
        }
        proof {
            reveal(pow);
            assert(pow(base as int, (i + 1) as nat) == base * pow(base as int, i as nat));
        }
        match acc.checked_mul(base) {
            Some(v) => {
                acc = v;
            },
            None => {
                acc = u128::MAX;
            },
        }
        i = i + 1;
    }
    acc
}

/// Decides the planning inequality exactly over the clamped space size.
fn budget_holds(n: u64, length: u32, max_files: u64, depth: u32, size: u32) -> (b: bool)
    requires
        1 <= n,
        1 <= max_files,
    ensures
        b == within_budget(n as nat, length as nat, max_files as nat, depth as nat, size as nat),
{
    let lhs = pow_clamped_u128(n as u128, length as u64);
    proof {
        assert((size as u64) * (depth as u64) <= u64::MAX) by (nonlinear_arith)
            requires
                size <= 0xffff_ffffu64,
                depth <= 0xffff_ffffu64,
        ;
    }
    let e: u64 = (size as u64) * (depth as u64);
    let p16 = pow_clamped_u128(16, e);
    let ghost pow16: int = pow(16, (size * depth) as nat);
    proof {
        lemma_pow_positive(16, (size * depth) as nat);
    }
    if p16 == u128::MAX {
        proof {
            // the true power is at least the clamp, and max_files >= 1
            lemma_mul_inequality(1, max_files as int, pow16);
        }
        true
    } else {
        match (max_files as u128).checked_mul(p16) {
            Some(rhs) => lhs <= rhs,
            None => {
                proof {
                    lemma_mul_inequality(1, max_files as int, pow16);
                }
                true
            },
        }
    }
}

/// A width of 32 always satisfies the budget: `16^32` alone already exceeds
/// the clamped space size.
proof fn lemma_budget_at_32(n: nat, length: nat, max_files: nat, depth: nat)
    requires
        1 <= max_files,
        1 <= depth,
    ensures
        within_budget(n, length, max_files, depth, 32),
{
    assert(pow(2, 4nat) == 16) by {
        reveal_with_fuel(pow, 5);
    }
    lemma_pow_positive(2, 64);
    lemma2_to64();
    assert(pow(2, 64nat) == 0x10000000000000000);
    lemma_pow_adds(2, 64, 64);
    assert(pow(2, 128nat) == 0x10000000000000000 * 0x10000000000000000);
    lemma_pow_multiplies(2, 4, 32);
    assert(pow(16, 32nat) == pow(2, 128nat));
    assert(pow(16, 32nat) > u128::MAX);
    assert(32 * 1 <= 32 * (depth as int)) by {
        lemma_mul_inequality(1, depth as int, 32);
    }
    lemma_pow_increases(16, 32, (32 * depth) as nat);
    lemma_pow_positive(16, (32 * depth) as nat);
    assert(1 * pow(16, (32 * depth) as nat) <= max_files * pow(16, (32 * depth) as nat)) by {
        lemma_pow_positive(16, (32 * depth) as nat);
        lemma_mul_inequality(1, max_files as int, pow(16, (32 * depth) as nat));
    }
}

/// Every width the search can report is at least its starting point.
proof fn lemma_smallest_at_least(n: nat, length: nat, max_files: nat, depth: nat, s: nat)
    ensures
        smallest_size_from(n, length, max_files, depth, s) >= s,
    decreases 32 - s,
{
    if !(s >= 32 || within_budget(n, length, max_files, depth, s)) {
        lemma_smallest_at_least(n, length, max_files, depth, (s + 1) as nat);
    }
}

/// A larger budget never makes the search start anywhere later.
proof fn lemma_smallest_monotonic(
    n: nat,
    length: nat,
    m1: nat,
    m2: nat,
    depth: nat,
    s: nat,
)
    requires
        m1 <= m2,
    ensures
        smallest_size_from(n, length, m2, depth, s) <= smallest_size_from(n, length, m1, depth, s),
    decreases 32 - s,
{
    if s >= 32 {
    } else if within_budget(n, length, m1, depth, s) {
        assert(within_budget(n, length, m2, depth, s)) by {
            lemma_pow_positive(16, (s * depth) as nat);
            lemma_mul_inequality(m1 as int, m2 as int, pow(16, (s * depth) as nat));
        }
    } else if within_budget(n, length, m2, depth, s) {
        lemma_smallest_at_least(n, length, m1, depth, (s + 1) as nat);
    } else {
        lemma_smallest_monotonic(n, length, m1, m2, depth, (s + 1) as nat);
    }
}

/// A raised `max_files` budget never widens the planned level, and a zero
/// depth always plans a flat layout, whatever the other inputs.
pub proof fn lemma_planner_monotonic(n: nat, length: nat, m1: nat, m2: nat, depth: nat)
    requires
        m1 <= m2,
    ensures
        planned_size(n, length, m2, depth) <= planned_size(n, length, m1, depth),
        planned_size(n, length, m1, 0) == 1,
{
    if depth != 0 {
        lemma_smallest_monotonic(n, length, m1, m2, depth, 1);
    }
}

/// Computes the partition geometry for a space of `n^length` artifacts and a
/// budget of `max_files` expected entries per terminal directory, using
/// exactly `partition_depth` directory levels: the smallest level width that
/// satisfies the planning inequality, and width 1 for a flat layout.
pub fn plan(n: u64, length: u32, max_files: u64, partition_depth: u32) -> (g: PartitionGeometry)
    requires
        1 <= n,
        1 <= length,
        1 <= max_files,
    ensures
        g.partition_depth == partition_depth,
        g.partition_size as nat == planned_size(
            n as nat,
            length as nat,
            max_files as nat,
            partition_depth as nat,
        ),
        1 <= g.partition_size <= 32,
        partition_depth >= 1 ==> within_budget(
            n as nat,
            length as nat,
            max_files as nat,
            partition_depth as nat,
            g.partition_size as nat,
        ),
        partition_depth >= 1 ==> forall|s: nat|
            1 <= s < g.partition_size ==> !within_budget(
                n as nat,
                length as nat,
                max_files as nat,
                partition_depth as nat,
                s,
            ),
{
    if partition_depth == 0 {
        return PartitionGeometry { partition_size: 1, partition_depth };
    }
    let mut s: u32 = 1;
    loop
        invariant
            1 <= s <= 32,
            1 <= n,
            1 <= length,
            1 <= max_files,
            1 <= partition_depth,
            forall|t: nat|
                1 <= t < s ==> !within_budget(
                    n as nat,
                    length as nat,
                    max_files as nat,
                    partition_depth as nat,
                    t,
                ),
            smallest_size_from(n as nat, length as nat, max_files as nat, partition_depth as nat, 1)
                == smallest_size_from(
                n as nat,
                length as nat,
                max_files as nat,
                partition_depth as nat,
                s as nat,
            ),
        ensures
            1 <= s <= 32,
            within_budget(
                n as nat,
                length as nat,
                max_files as nat,
                partition_depth as nat,
                s as nat,
            ),
            forall|t: nat|
                1 <= t < s ==> !within_budget(
                    n as nat,
                    length as nat,
                    max_files as nat,
                    partition_depth as nat,
                    t,
                ),
            s as nat == smallest_size_from(
                n as nat,
                length as nat,
                max_files as nat,
                partition_depth as nat,
                1,
            ),
        decreases 32 - s,
    {
        if budget_holds(n, length, max_files, partition_depth, s) {
            break;
        }
        proof {
            if s == 32 {
                lemma_budget_at_32(n as nat, length as nat, max_files as nat, partition_depth as nat);
                assert(false);
            }
        }
        s = s + 1;
    }
    PartitionGeometry { partition_size: s, partition_depth }
}

} // verus!
