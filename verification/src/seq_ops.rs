//! Small verified helpers over integer slices and vectors: summing, taking
//! the maximum through a shared view, and doubling in place through an
//! exclusive handle.

use vstd::prelude::*;

verus! {

/// The sum of the elements of `s`.
pub open spec fn sum_spec(s: Seq<i32>) -> int
    decreases s.len(),
{
    if s.len() == 0 {
        0
    } else {
        sum_spec(s.drop_last()) + s.last()
    }
}

/// Sums a slice. Every prefix sum must fit in `i32`, which is what the
/// running total needs to never overflow.
pub fn calc_sum(data: &[i32]) -> (r: i32)
    requires
        forall|k: int| 0 <= k <= data@.len() ==> i32::MIN <= sum_spec(
            #[trigger] data@.subrange(0, k),
        ) <= i32::MAX,
    ensures
        r == sum_spec(data@),
{
    let mut sum: i32 = 0;
    let mut idx: usize = 0;
    proof {
        assert(data@.subrange(0, 0) =~= Seq::<i32>::empty());
    }
    while idx < data.len()
        invariant
            idx <= data@.len(),
            sum == sum_spec(data@.subrange(0, idx as int)),
            forall|k: int| 0 <= k <= data@.len() ==> i32::MIN <= sum_spec(
                #[trigger] data@.subrange(0, k),
            ) <= i32::MAX,
        decreases data@.len() - idx,
    {
        proof {
            let cur = data@.subrange(0, idx as int + 1);
            assert(cur.drop_last() =~= data@.subrange(0, idx as int));
            assert(cur.last() == data@[idx as int]);
        }
        sum = sum + data[idx];
        idx = idx + 1;
    }
    proof {
        assert(data@.subrange(0, data@.len() as int) =~= data@);
    }
    sum
}

/// The largest element of a nonempty slice: it occurs in the slice and no
/// element exceeds it.
pub fn max(data: &[i32]) -> (r: i32)
    requires
        data@.len() > 0,
    ensures
        data@.contains(r),
        forall|i: int| 0 <= i < data@.len() ==> #[trigger] data@[i] <= r,
{
    let mut best: i32 = data[0];
    let mut idx: usize = 1;
    while idx < data.len()
        invariant
            1 <= idx <= data@.len(),
            data@.contains(best),
            forall|i: int| 0 <= i < idx ==> #[trigger] data@[i] <= best,
        decreases data@.len() - idx,
    {
        if data[idx] > best {
            best = data[idx];
        }
        idx = idx + 1;
    }
    best
}

/// Doubles every element in place. Each element must be small enough that
/// its double still fits in `i32`.
pub fn double_values(v: &mut Vec<i32>)
    requires
        forall|i: int| 0 <= i < old(v)@.len() ==> -0x4000_0000 <= #[trigger] old(v)@[i]
            <= 0x3FFF_FFFF,
    ensures
        final(v)@.len() == old(v)@.len(),
        forall|i: int| 0 <= i < old(v)@.len() ==> #[trigger] final(v)@[i] == 2 * old(v)@[i],
{
    let mut idx: usize = 0;
    while idx < v.len()
        invariant
            idx <= v@.len() == old(v)@.len(),
            forall|i: int| 0 <= i < old(v)@.len() ==> -0x4000_0000 <= #[trigger] old(v)@[i]
                <= 0x3FFF_FFFF,
            forall|i: int| idx <= i < old(v)@.len() ==> #[trigger] v@[i] == old(v)@[i],
            forall|i: int| 0 <= i < idx ==> #[trigger] v@[i] == 2 * old(v)@[i],
        decreases v@.len() - idx,
    {
        v[idx] = 2 * v[idx];
        idx = idx + 1;
    }
}

} // verus!
