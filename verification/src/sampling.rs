//! Layout of the pre-generated low-discrepancy sample table.
//!
//! The table holds one 4-component entry per `(sample index, dimension
//! set)` pair: the first dimension set of a sample feeds pixel jitter, and
//! every bounce consumes two more sets, so a sample needs `bounces * 2 + 1`
//! sets. The host program fills the table by evaluating its sample
//! generator over [`sequence_pairs`] in order and uploads it once; the
//! kernel indexes it by [`entry_index`].

use vstd::prelude::*;

verus! {

use crate::driver::MAX_BOUNCES;

/// Dimension sets one sample consumes: two per bounce plus the camera set.
pub open spec fn spec_dimension_sets(bounces: int) -> int {
    2 * bounces + 1
}

/// Number of entries in the table: `max_samples * (bounces * 2 + 1)`.
pub open spec fn spec_sequence_len(max_samples: int, bounces: int) -> int {
    max_samples * spec_dimension_sets(bounces)
}

/// Dimension sets one sample consumes.
pub fn dimension_sets(bounces: u32) -> (r: u32)
    requires
        bounces <= MAX_BOUNCES,
    ensures
        r as int == spec_dimension_sets(bounces as int),
{
    2 * bounces + 1
}

/// Number of entries in the sample table.
pub fn sequence_len(max_samples: u32, bounces: u32) -> (r: u64)
    requires
        bounces <= MAX_BOUNCES,
    ensures
        r as int == spec_sequence_len(max_samples as int, bounces as int),
{
    proof {
        crate::geom::lemma_mul_magnitude(
            max_samples as int,
            spec_dimension_sets(bounces as int),
            u32::MAX as int,
            65,
        );
    }
    (max_samples as u64) * (dimension_sets(bounces) as u64)
}

/// Flat index of the entry for `(sample_index, dimension_set)`: the table
/// is sample-major.
pub fn entry_index(sample_index: u32, dimension_set: u32, bounces: u32) -> (r: u64)
    requires
        bounces <= MAX_BOUNCES,
        dimension_set < spec_dimension_sets(bounces as int),
    ensures
        r as int == sample_index as int * spec_dimension_sets(bounces as int)
            + dimension_set as int,
{
    proof {
        crate::geom::lemma_mul_magnitude(
            sample_index as int,
            spec_dimension_sets(bounces as int),
            u32::MAX as int,
            65,
        );
    }
    (sample_index as u64) * (dimension_sets(bounces) as u64) + (dimension_set as u64)
}

/// All `(sample_index, dimension_set)` pairs in table order, sample-major:
/// the entry at flat index `s * (bounces * 2 + 1) + d` is `(s, d)`. The
/// host maps its sample generator over this list to fill the table.
pub fn sequence_pairs(max_samples: u32, bounces: u32) -> (r: Vec<(u32, u32)>)
    requires
        max_samples <= 0x100_0000,
        bounces <= MAX_BOUNCES,
    ensures
        r@.len() == spec_sequence_len(max_samples as int, bounces as int),
        forall|s: int, d: int|
            0 <= s < max_samples && 0 <= d < spec_dimension_sets(bounces as int)
                ==> #[trigger] r@[s * spec_dimension_sets(bounces as int) + d] == (
            s as u32,
            d as u32,
            ),
{
    let dims = dimension_sets(bounces);
    let mut pairs: Vec<(u32, u32)> = Vec::new();
    let mut s: u32 = 0;
    while s < max_samples
        invariant
            s <= max_samples <= 0x100_0000,
            1 <= dims <= 65,
            dims as int == spec_dimension_sets(bounces as int),
            pairs@.len() == s as int * dims as int,
            forall|si: int, d: int|
                0 <= si < s && 0 <= d < dims ==> #[trigger] pairs@[si * dims as int + d] == (
                si as u32,
                d as u32,
                ),
        decreases max_samples - s,
    {
        let mut d: u32 = 0;
        while d < dims
            invariant
                s < max_samples <= 0x100_0000,
                1 <= dims <= 65,
                dims as int == spec_dimension_sets(bounces as int),
                d <= dims,
                pairs@.len() == s as int * dims as int + d as int,
                forall|si: int, di: int|
                    0 <= si < s && 0 <= di < dims ==> #[trigger] pairs@[si * dims as int + di] == (
                    si as u32,
                    di as u32,
                    ),
                forall|di: int|
                    0 <= di < d ==> #[trigger] pairs@[s as int * dims as int + di] == (s, di as u32),
            decreases dims - d,
        {
            proof {
                crate::geom::lemma_mul_magnitude(s as int, dims as int, 0x100_0000, 65);
                assert forall|si: int| 0 <= si < s implies #[trigger] (si * dims as int)
                    + dims as int <= s as int * dims as int by {
                    assert((si + 1) * dims as int <= s as int * dims as int) by (nonlinear_arith)
                        requires
                            si + 1 <= s as int,
                            dims as int >= 1,
                    ;
                    assert((si + 1) * dims as int == si * dims as int + dims as int)
                        by (nonlinear_arith);
                }
            }
            pairs.push((s, d));
            d = d + 1;
        }
        proof {
            assert((s as int + 1) * dims as int == s as int * dims as int + dims as int)
                by (nonlinear_arith);
            assert forall|si: int| 0 <= si < s + 1 implies #[trigger] (si * dims as int)
                + dims as int <= (s as int + 1) * dims as int by {
                assert((si + 1) * dims as int <= (s as int + 1) * dims as int) by (nonlinear_arith)
                    requires
                        si + 1 <= s as int + 1,
                        dims as int >= 1,
                ;
                assert((si + 1) * dims as int == si * dims as int + dims as int)
                    by (nonlinear_arith);
            }
        }
        s = s + 1;
    }
    pairs
}

} // verus!
