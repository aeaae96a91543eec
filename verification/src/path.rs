use vstd::prelude::*;
use vstd::arithmetic::mul::{
    lemma_mul_inequality, lemma_mul_is_commutative, lemma_mul_is_distributive_add_other_way,
};

use crate::errors::AtmError;
use crate::planner::PartitionGeometry;

verus! {

/// The directory part that the geometry carves out of `h`: one
/// `size`-character slice of `h` per level, each followed by a separator, in
/// hash order.  Empty for a flat layout (`depth == 0`).
pub open spec fn partition_prefix(h: Seq<char>, size: nat, depth: nat) -> Seq<char>
    decreases depth,
{
    if depth == 0 {
        Seq::empty()
    } else {
        partition_prefix(h, size, (depth - 1) as nat) + h.subrange(
            ((depth - 1) * size) as int,
            (depth * size) as int,
        ) + seq!['/']
    }
}

/// The full path assigned to `h` under `root`: the root, the carved
/// directory levels, and the complete hash as the leaf file name with the
/// artifact extension.
pub open spec fn assigned_path(root: Seq<char>, h: Seq<char>, size: nat, depth: nat) -> Seq<char> {
    root + seq!['/'] + partition_prefix(h, size, depth) + h + seq!['.', 'm', 'i', 'd']
}

/// Whether a hash has strictly more characters than the directory levels
/// consume, as path assignment requires.
pub open spec fn hash_long_enough(h: Seq<char>, size: nat, depth: nat) -> bool {
    h.len() > size * depth
}

/// Maps a content hash and a partition geometry to the artifact's path under
/// `root`: `depth` successive non-overlapping `size`-character slices of the
/// hash name the directory levels, and the full hash names the leaf file.
/// The same hash, geometry and root always yield the same path.  A hash that
/// does not reach past the directory levels is a configuration error.
pub fn assign(hash: &str, geometry: &PartitionGeometry, root: &str) -> (r: Result<
    String,
    AtmError,
>)
    ensures
        ({
            let size = geometry.partition_size as nat;
            let depth = geometry.partition_depth as nat;
            match r {
                Ok(p) => hash_long_enough(hash@, size, depth) && p@ == assigned_path(
                    root@,
                    hash@,
                    size,
                    depth,
                ),
                Err(e) => e == AtmError::InvalidConfiguration && !hash_long_enough(
                    hash@,
                    size,
                    depth,
                ),
            }
        }),
{
    let size = geometry.partition_size;
    let depth = geometry.partition_depth;
    proof {
        assert((size as u64) * (depth as u64) <= u64::MAX) by (nonlinear_arith)
            requires
                size <= 0xffff_ffffu64,
                depth <= 0xffff_ffffu64,
        ;
    }
    let consumed: u64 = (size as u64) * (depth as u64);
    let hash_chars = hash.unicode_len();
    if hash_chars as u64 <= consumed {
        return Err(AtmError::InvalidConfiguration);
    }
    let mut out = root.to_owned();
    out.append("/");
    proof {
        reveal_strlit("/");
        assert(out@ =~= root@ + seq!['/'] + partition_prefix(
            hash@,
            size as nat,
            0,
        ));
    }
    let mut k: u32 = 0;
    while k < depth
        invariant
            k <= depth,
            hash@.len() > (size as nat) * (depth as nat),
            hash@.len() <= usize::MAX,
            out@ == root@ + seq!['/'] + partition_prefix(hash@, size as nat, k as nat),
        decreases depth - k,
    {
        proof {
            lemma_mul_inequality(k as int, depth as int, size as int);
            lemma_mul_inequality(k + 1, depth as int, size as int);
            lemma_mul_is_distributive_add_other_way(size as int, k as int, 1);
            lemma_mul_is_commutative(size as int, depth as int);
            assert((k + 1) * (size as int) == k * (size as int) + size);
        }
        let start: usize = (k as usize) * (size as usize);
        let end: usize = start + (size as usize);
        let part = hash.substring_char(start, end);
        out.append(part);
        out.append("/");
        k = k + 1;
        proof {
            reveal_strlit("/");
            assert(out@ =~= root@ + seq!['/'] + partition_prefix(hash@, size as nat, k as nat));
        }
    }
    out.append(hash);
    out.append(".mid");
    proof {
        reveal_strlit(".mid");
        assert(".mid"@ =~= seq!['.', 'm', 'i', 'd']);
        assert(out@ =~= assigned_path(
            root@,
            hash@,
            size as nat,
            depth as nat,
        ));
    }
    Ok(out)
}

/// Two hashes that agree on the characters the directory levels consume are
/// assigned to the same directory: the directory part of `assigned_path`
/// depends only on that shared prefix.
pub proof fn lemma_shared_prefix_same_directory(
    h1: Seq<char>,
    h2: Seq<char>,
    size: nat,
    depth: nat,
)
    requires
        h1.len() >= size * depth,
        h2.len() >= size * depth,
        h1.subrange(0, (size * depth) as int) == h2.subrange(0, (size * depth) as int),
    ensures
        partition_prefix(h1, size, depth) == partition_prefix(h2, size, depth),
    decreases depth,
{
    if depth > 0 {
        assert((depth - 1) * size >= 0) by (nonlinear_arith)
            requires
                depth >= 1,
        ;
        assert((depth - 1) * size <= depth * size) by (nonlinear_arith)
            requires
                depth >= 1,
                size >= 0,
        ;
        lemma_mul_is_commutative(depth as int, size as int);
        lemma_mul_is_commutative(depth - 1, size as int);
        assert(forall|i: int|
            0 <= i < size * depth ==> h1[i] == h2[i]) by {
            assert(forall|i: int|
                0 <= i < size * depth ==> h1.subrange(0, (size * depth) as int)[i] == h1[i]
                    && h2.subrange(0, (size * depth) as int)[i] == h2[i]);
        }
        assert(h1.subrange(((depth - 1) * size) as int, (depth * size) as int) =~= h2.subrange(
            ((depth - 1) * size) as int,
            (depth * size) as int,
        ));
        assert(h1.subrange(0, (size * (depth - 1)) as int) =~= h2.subrange(
            0,
            (size * (depth - 1)) as int,
        ));
        lemma_shared_prefix_same_directory(h1, h2, size, (depth - 1) as nat);
    }
}

} // verus!
