//! Index arithmetic of sequences: Python-style slicing and negative indexing.

use vstd::prelude::*;

verus! {

/// `value` limited to the range `lo..=hi`.
pub open spec fn clamp(value: int, lo: int, hi: int) -> int {
    if value < lo {
        lo
    } else if value > hi {
        hi
    } else {
        value
    }
}

/// Where a slice bound lands in a sequence of length `len`: a negative index
/// counts from the end; the result is clamped to `0..=len` when stepping
/// forward and to `-1..=len - 1` when stepping backward. A missing bound is the
/// start or the end in the direction of the step.
pub open spec fn spec_adjust_index(index: Option<i64>, len: int, is_end: bool, step_positive: bool) -> int {
    match index {
        Some(v) => {
            let from_end = if v < 0 { v + len } else { v as int };
            if step_positive {
                clamp(from_end, 0, len)
            } else {
                clamp(from_end, -1, len - 1)
            }
        },
        None => {
            if step_positive {
                if is_end { len } else { 0 }
            } else if is_end || len <= 0 {
                -1
            } else {
                len - 1
            }
        },
    }
}

/// The positions `idx, idx + step, ...` strictly before `end` (in the
/// direction of the step) that lie inside `0..len`.
pub open spec fn stepped_positions(idx: int, end: int, step: int, len: int) -> Seq<int>
    decreases (if step > 0 && idx < end { end - idx } else if step < 0 && idx > end { idx - end } else { 0 }),
{
    let here = if 0 <= idx < len { seq![idx] } else { Seq::<int>::empty() };
    if step > 0 && idx < end {
        here + stepped_positions(idx + step, end, step, len)
    } else if step < 0 && idx > end {
        here + stepped_positions(idx + step, end, step, len)
    } else {
        Seq::empty()
    }
}

/// The positions that slicing a sequence of length `len` with the given
/// bounds and step selects, in order.
pub open spec fn spec_slice_positions(len: int, start: Option<i64>, end: Option<i64>, step: int) -> Seq<int> {
    if len == 0 {
        Seq::empty()
    } else {
        stepped_positions(
            spec_adjust_index(start, len, false, step > 0),
            spec_adjust_index(end, len, true, step > 0),
            step,
            len,
        )
    }
}

/// Adjusts a slice index according to Python's slicing rules.
pub fn adjust_index(index: Option<i64>, len: isize, is_end: bool, step_positive: bool) -> (adjusted: isize)
    requires
        len >= 0,
    ensures
        adjusted == spec_adjust_index(index, len as int, is_end, step_positive),
{
    let len_i64 = len as i64;
    match index {
        Some(value) => {
            let mut value = value;
            if value < 0 {
                value = value + len_i64;
            }
            if step_positive {
                if value < 0 {
                    value = 0;
                }
                if value > len_i64 {
                    value = len_i64;
                }
            } else {
                if value < -1 {
                    value = -1;
                }
                if value >= len_i64 {
                    value = len_i64 - 1;
                }
            }
            value as isize
        },
        None => {
            if step_positive {
                if is_end {
                    len
                } else {
                    0
                }
            } else if is_end || len_i64 <= 0 {
                -1
            } else {
                len - 1
            }
        },
    }
}

/// Every selected position lies inside the sequence.
pub proof fn lemma_stepped_positions_in_bounds(idx: int, end: int, step: int, len: int)
    ensures
        forall|k: int|
            0 <= k < stepped_positions(idx, end, step, len).len() ==> 0 <= #[trigger] stepped_positions(
                idx,
                end,
                step,
                len,
            )[k] < len,
    decreases (if step > 0 && idx < end { end - idx } else if step < 0 && idx > end { idx - end } else { 0 }),
{
    if (step > 0 && idx < end) || (step < 0 && idx > end) {
        lemma_stepped_positions_in_bounds(idx + step, end, step, len);
        let here = if 0 <= idx < len { seq![idx] } else { Seq::<int>::empty() };
        let rest = stepped_positions(idx + step, end, step, len);
        assert forall|k: int| 0 <= k < (here + rest).len() implies 0 <= #[trigger] (here + rest)[k] < len by {
            if k >= here.len() {
                assert((here + rest)[k] == rest[k - here.len()]);
            }
        }
    }
}

/// Computes the indices for a slice operation with support for step values.
/// Gives `None` exactly when the step is zero.
pub fn slice_indices(len: usize, start: Option<i64>, end: Option<i64>, step: i64) -> (indices: Option<Vec<usize>>)
    requires
        len <= isize::MAX,
    ensures
        step == 0 <==> indices is None,
        indices matches Some(v) ==> v@.map_values(|i: usize| i as int) == spec_slice_positions(
            len as int,
            start,
            end,
            step as int,
        ),
        indices matches Some(v) ==> forall|k: int| 0 <= k < v@.len() ==> #[trigger] v@[k] < len,
{
    if step == 0 {
        return None;
    }
    if len == 0 {
        let empty: Vec<usize> = Vec::new();
        assert(empty@.map_values(|i: usize| i as int) =~= Seq::<int>::empty());
        return Some(empty);
    }
    let len_isize = len as isize;
    let step_positive = step > 0;
    let start_idx = adjust_index(start, len_isize, false, step_positive) as i64;
    let end_idx = adjust_index(end, len_isize, true, step_positive) as i64;
    let len_i64 = len as i64;
    let ghost target = spec_slice_positions(len as int, start, end, step as int);
    let mut indices: Vec<usize> = Vec::new();
    let mut idx = start_idx;
    let mut done = false;
    proof {
        assert(indices@.map_values(|i: usize| i as int) + stepped_positions(
            idx as int,
            end_idx as int,
            step as int,
            len as int,
        ) =~= target);
    }
    while !done
        invariant
            len as int == len_i64 as int,
            step != 0,
            step_positive == (step > 0),
            -1 <= end_idx <= len_i64,
            step > 0 ==> idx >= 0,
            step < 0 ==> idx >= -1,
            !done ==> indices@.map_values(|i: usize| i as int) + stepped_positions(
                idx as int,
                end_idx as int,
                step as int,
                len as int,
            ) == target,
            done ==> indices@.map_values(|i: usize| i as int) == target,
        decreases (if done { 0 } else if step > 0 { if idx <= end_idx { end_idx - idx + 2 } else { 1 } } else { if idx >= end_idx { idx - end_idx + 2 } else { 1 } }),
    {
        let ghost before = indices@.map_values(|i: usize| i as int);
        let continues = if step_positive { idx < end_idx } else { idx > end_idx };
        if !continues {
            done = true;
        } else {
            if idx >= 0 && idx < len_i64 {
                indices.push(idx as usize);
            }
            proof {
                let here = if 0 <= idx < len { seq![idx as int] } else { Seq::<int>::empty() };
                assert(indices@.map_values(|i: usize| i as int) =~= before + here);
            }
            // Stepping past the bound in the direction of the step ends the walk.
            if (step_positive && step >= end_idx - idx) || (!step_positive && step <= end_idx - idx) {
                proof {
                    assert(stepped_positions(idx + step, end_idx as int, step as int, len as int)
                        =~= Seq::<int>::empty());
                }
                done = true;
            } else {
                idx = idx + step;
            }
        }
    }
    proof {
        lemma_stepped_positions_in_bounds(
            spec_adjust_index(start, len as int, false, step > 0),
            spec_adjust_index(end, len as int, true, step > 0),
            step as int,
            len as int,
        );
        assert forall|k: int| 0 <= k < indices@.len() implies #[trigger] indices@[k] < len by {
            assert(indices@.map_values(|i: usize| i as int)[k] == indices@[k] as int);
        }
    }
    Some(indices)
}

/// The position that an index of a list or tuple denotes: a negative index
/// counts from the end. Gives `None` for an index outside the sequence.
pub fn normalize_index(index: i64, len: usize) -> (position: Option<usize>)
    requires
        len <= isize::MAX,
    ensures
        ({
            let p = if index < 0 { index + len } else { index as int };
            match position {
                Some(q) => 0 <= p < len && q == p,
                None => !(0 <= p < len),
            }
        }),
{
    let len_i64 = len as i64;
    let mut idx = index;
    if idx < 0 {
        idx = idx + len_i64;
    }
    if idx < 0 || idx >= len_i64 {
        return None;
    }
    Some(idx as usize)
}

/// One step of a `for` loop over a sequence of length `len`, given the
/// iteration index kept on the stack.
#[derive(Debug, Clone, Copy, PartialEq, Eq, Structural)]
pub enum IterStep {
    /// A negative index: the program is wrong.
    Invalid,
    /// The index is past the end: the loop is over.
    Finished,
    /// Take the element at `position`; the next index is `next`.
    Element { position: usize, next: i64 },
}

/// Decides the next step of iterating over a sequence of length `len`.
pub fn iter_step(index: i64, len: usize) -> (step: IterStep)
    requires
        len <= isize::MAX,
    ensures
        index < 0 ==> step == IterStep::Invalid,
        index >= 0 && index >= len ==> step == IterStep::Finished,
        0 <= index < len ==> step == (IterStep::Element { position: index as usize, next: (index + 1) as i64 }),
{
    if index < 0 {
        return IterStep::Invalid;
    }
    if index >= len as i64 {
        IterStep::Finished
    } else {
        IterStep::Element { position: index as usize, next: index + 1 }
    }
}

/// The integers from `start` up to, but not including, `end` (none when
/// `start >= end`).
pub fn range_values(start: i64, end: i64) -> (values: Vec<i64>)
    ensures
        start < end ==> values@.len() == end - start,
        start >= end ==> values@.len() == 0,
        forall|k: int| 0 <= k < values@.len() ==> #[trigger] values@[k] == start + k,
{
    let mut values: Vec<i64> = Vec::new();
    if start >= end {
        return values;
    }
    let mut v = start;
    while v < end
        invariant
            start <= v <= end,
            values@.len() == v - start,
            forall|k: int| 0 <= k < values@.len() ==> #[trigger] values@[k] == start + k,
        decreases end - v,
    {
        values.push(v);
        v += 1;
    }
    values
}

} // verus!
