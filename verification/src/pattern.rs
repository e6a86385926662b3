//! Pattern classifier and alignment locator.
//!
//! A module position is protected when it belongs to a finder, timing,
//! format, version or alignment pattern, or to the reserved length-header
//! cells near the bottom-right corner.  A module is writable iff none of
//! these hold.  Alignment pattern centers are derived from the symbol
//! version by the standard deterministic formula and filtered so that no
//! center overlaps a finder pattern.

use vstd::prelude::*;

verus! {

use vstd::arithmetic::div_mod::lemma_div_nonincreasing;
use vstd::arithmetic::mul::lemma_mul_inequality;

/// Finder patterns: the three large squares in the corners, with their
/// separators (an 8 x 8 area each).
pub open spec fn spec_is_finder(size: int, x: int, y: int) -> bool {
    (x < 8 && y < 8) || (x < 8 && y >= size - 8) || (x >= size - 8 && y < 8)
}

/// Timing patterns: row 6 and column 6.
pub open spec fn spec_is_timing(x: int, y: int) -> bool {
    x == 6 || y == 6
}

/// Format information cells along row 8 and column 8.
pub open spec fn spec_is_format(size: int, x: int, y: int) -> bool {
    (x == 8 && (y <= 8 || y >= size - 8)) || (y == 8 && (x <= 8 || x >= size - 8))
}

/// Version information blocks (6 x 3) next to two of the finder patterns.
pub open spec fn spec_is_version(size: int, x: int, y: int) -> bool {
    (0 <= x <= 5 && size - 11 <= y <= size - 9) || (size - 11 <= x <= size - 9 && 0 <= y <= 5)
}

/// Absolute difference of two 1-D module coordinates.
pub open spec fn spec_dist(a: int, b: int) -> int {
    if a >= b {
        a - b
    } else {
        b - a
    }
}

/// Within Chebyshev distance 2 of some alignment pattern center.
pub open spec fn spec_is_alignment(aligns: Seq<(i32, i32)>, x: int, y: int) -> bool {
    exists|i: int|
        0 <= i < aligns.len() && spec_dist(x, aligns[i].0 as int) <= 2 && spec_dist(
            y,
            aligns[i].1 as int,
        ) <= 2
}

/// The reserved cells near the bottom-right corner that carry the secret
/// length header.
pub open spec fn spec_is_header(size: int, x: int, y: int) -> bool {
    size - 6 <= y <= size && (x == size - 1 || x == size - 2)
}

/// A module may carry a payload bit iff it lies in none of the protected
/// regions.
pub open spec fn spec_writable(size: int, aligns: Seq<(i32, i32)>, x: int, y: int) -> bool {
    !spec_is_finder(size, x, y) && !spec_is_timing(x, y) && !spec_is_alignment(aligns, x, y)
        && !spec_is_format(size, x, y) && !spec_is_version(size, x, y) && !spec_is_header(
        size,
        x,
        y,
    )
}

/// All alignment centers lie in a small window around the grid; needed so
/// that coordinate arithmetic stays within machine bounds.
pub open spec fn aligns_bounded(aligns: Seq<(i32, i32)>) -> bool {
    forall|i: int|
        0 <= i < aligns.len() ==> -4096 <= #[trigger] aligns[i].0 <= 4096 && -4096 <= aligns[i].1
            <= 4096
}

pub fn is_finder_pattern(size: usize, x: usize, y: usize) -> (r: bool)
    requires
        21 <= size <= 177,
    ensures
        r == spec_is_finder(size as int, x as int, y as int),
{
    (x < 8 && y < 8) || (x < 8 && y >= size - 8) || (x >= size - 8 && y < 8)
}

pub fn is_timing_pattern(x: usize, y: usize) -> (r: bool)
    ensures
        r == spec_is_timing(x as int, y as int),
{
    x == 6 || y == 6
}

pub fn is_format_pattern(size: usize, x: usize, y: usize) -> (r: bool)
    requires
        21 <= size <= 177,
    ensures
        r == spec_is_format(size as int, x as int, y as int),
{
    (x == 8 && (y <= 8 || y >= size - 8)) || (y == 8 && (x <= 8 || x >= size - 8))
}

pub fn is_version_pattern(size: usize, x: usize, y: usize) -> (r: bool)
    requires
        21 <= size <= 177,
        x <= 100000,
        y <= 100000,
    ensures
        r == spec_is_version(size as int, x as int, y as int),
{
    let bottom_left_version = x <= 5 && y + 11 >= size && y + 9 <= size;
    let top_right_version = x + 11 >= size && x + 9 <= size && y <= 5;
    bottom_left_version || top_right_version
}

pub fn module_distance(x1: i32, x2: i32) -> (r: i32)
    requires
        -100000 <= x1 <= 100000,
        -100000 <= x2 <= 100000,
    ensures
        r == spec_dist(x1 as int, x2 as int),
{
    if x1 >= x2 {
        x1 - x2
    } else {
        x2 - x1
    }
}

pub fn is_alignment_pattern(aligns: &Vec<(i32, i32)>, x: usize, y: usize) -> (r: bool)
    requires
        aligns_bounded(aligns@),
        x <= 100000,
        y <= 100000,
    ensures
        r == spec_is_alignment(aligns@, x as int, y as int),
{
    let mut i: usize = 0;
    while i < aligns.len()
        invariant
            i <= aligns@.len(),
            aligns_bounded(aligns@),
            x <= 100000,
            y <= 100000,
            forall|k: int|
                0 <= k < i ==> !(spec_dist(x as int, #[trigger] aligns@[k].0 as int) <= 2
                    && spec_dist(y as int, aligns@[k].1 as int) <= 2),
        decreases aligns@.len() - i,
    {
        let c = aligns[i];
        if module_distance(x as i32, c.0) <= 2 && module_distance(y as i32, c.1) <= 2 {
            return true;
        }
        i += 1;
    }
    false
}

pub fn is_length_or_mode_pattern(size: usize, x: usize, y: usize) -> (r: bool)
    requires
        21 <= size <= 177,
        x <= 100000,
        y <= 100000,
    ensures
        r == spec_is_header(size as int, x as int, y as int),
{
    (y + 6 >= size && y <= size) && (x + 1 == size || x + 2 == size)
}

/// The writable predicate, composed from the individual region tests.
pub fn module_can_be_overwritten(size: usize, aligns: &Vec<(i32, i32)>, x: usize, y: usize) -> (r:
    bool)
    requires
        21 <= size <= 177,
        aligns_bounded(aligns@),
        x < size,
        y < size,
    ensures
        r == spec_writable(size as int, aligns@, x as int, y as int),
{
    !is_finder_pattern(size, x, y) && !is_timing_pattern(x, y) && !is_alignment_pattern(
        aligns,
        x,
        y,
    ) && !is_format_pattern(size, x, y) && !is_version_pattern(size, x, y)
        && !is_length_or_mode_pattern(size, x, y)
}

/// The number of extra alignment coordinates for a version.
pub open spec fn spec_align_interval(version: int) -> int {
    version / 7 + 1
}

/// The span between the first and last alignment coordinate.
pub open spec fn spec_align_distance(version: int) -> int {
    4 * version + 4
}

/// The rounded, even step between consecutive alignment coordinates.
pub open spec fn spec_align_step(version: int) -> int {
    let s = (2 * spec_align_distance(version) + spec_align_interval(version)) / (2
        * spec_align_interval(version));
    if s % 2 == 1 {
        s + 1
    } else {
        s
    }
}

/// The 1-D alignment coordinate candidates: 6, then evenly stepped values
/// ending at 6 + distance.  Empty for version 1.
pub open spec fn spec_align_candidates(version: int) -> Seq<i32> {
    if version <= 1 {
        Seq::empty()
    } else {
        Seq::new(
            (spec_align_interval(version) + 1) as nat,
            |i: int|
                if i == 0 {
                    6i32
                } else {
                    (6 + spec_align_distance(version) - spec_align_step(version) * (
                    spec_align_interval(version) - i)) as i32
                },
        )
    }
}

/// The candidates for versions up to 40 lie within a small window.
pub proof fn lemma_candidates_bounded(version: int)
    requires
        1 <= version <= 40,
    ensures
        forall|i: int|
            0 <= i < spec_align_candidates(version).len() ==> -4096 <= #[trigger] spec_align_candidates(
                version,
            )[i] <= 4096,
{
    if version > 1 {
        let iv = spec_align_interval(version);
        let d = spec_align_distance(version);
        let s = spec_align_step(version);
        assert(1 <= iv <= 6);
        assert(8 <= d <= 164);
        lemma_div_nonincreasing(2 * d + iv, 2 * iv);
        assert(0 <= (2 * d + iv) / (2 * iv)) by {
            vstd::arithmetic::div_mod::lemma_div_pos_is_pos(2 * d + iv, 2 * iv);
        }
        assert(0 <= s <= 335);
        assert forall|i: int| 0 <= i < spec_align_candidates(version).len() implies -4096
            <= #[trigger] spec_align_candidates(version)[i] <= 4096 by {
            if i > 0 {
                assert(0 <= iv - i <= 5);
                assert(s * (iv - i) <= 335 * 5) by {
                    lemma_mul_inequality(s, 335, iv - i);
                    lemma_mul_inequality(iv - i, 5, 335);
                }
                assert(0 <= s * (iv - i)) by {
                    vstd::arithmetic::mul::lemma_mul_nonnegative(s, iv - i);
                }
            }
        }
    }
}

/// The 1-D alignment coordinate candidates for this version.
pub fn get_potential_alignment_positions(version: u8) -> (r: Vec<i32>)
    requires
        1 <= version <= 40,
    ensures
        r@ == spec_align_candidates(version as int),
{
    let mut alignment_pos: Vec<i32> = Vec::new();
    if version <= 1 {
        return alignment_pos;
    }
    let interval: u32 = (version / 7) as u32 + 1;
    let distance: u32 = 4 * (version as u32) + 4;
    proof {
        lemma_div_nonincreasing(2 * distance + interval, 2 * interval);
        vstd::arithmetic::div_mod::lemma_div_pos_is_pos(
            2 * distance + interval,
            2 * interval,
        );
    }
    let mut step: u32 = (2 * distance + interval) / (2 * interval);
    if step % 2 != 0 {
        step = step + 1;
    }
    assert(step == spec_align_step(version as int));
    alignment_pos.push(6);
    let mut i: u32 = 1;
    while i < interval + 1
        invariant
            2 <= version <= 40,
            1 <= i <= interval + 1,
            interval == spec_align_interval(version as int),
            distance == spec_align_distance(version as int),
            step == spec_align_step(version as int),
            0 <= step <= 335,
            1 <= interval <= 6,
            8 <= distance <= 164,
            alignment_pos@.len() == i,
            forall|k: int|
                0 <= k < i ==> alignment_pos@[k] == spec_align_candidates(version as int)[k],
        decreases interval + 1 - i,
    {
        proof {
            assert(0 <= step * (interval - i) <= 335 * 5) by {
                lemma_mul_inequality(step as int, 335, interval - i);
                lemma_mul_inequality(interval - i, 5, 335);
                vstd::arithmetic::mul::lemma_mul_nonnegative(
                    step as int,
                    interval - i,
                );
            }
        }
        let value: i32 = 6 + distance as i32 - (step as i32) * (interval as i32 - i as i32);
        proof {
            assert(spec_align_candidates(version as int)[i as int] == (6 + spec_align_distance(
                version as int,
            ) - spec_align_step(version as int) * (spec_align_interval(version as int)
                - i)) as i32);
            assert(value == spec_align_candidates(version as int)[i as int]);
        }
        alignment_pos.push(value);
        i += 1;
    }
    proof {
        assert(alignment_pos@ =~= spec_align_candidates(version as int));
    }
    alignment_pos
}

/// The 2-D centers from a candidate row: pairs (x, cands[j]) for j from
/// `j0` on, keeping only those that do not overlap a finder pattern.
pub open spec fn spec_center_row(x: i32, cands: Seq<i32>, j0: int, size: int) -> Seq<(i32, i32)>
    decreases cands.len() - j0,
{
    if j0 < 0 || j0 >= cands.len() {
        Seq::empty()
    } else {
        (if !spec_is_finder(size, x as int, cands[j0] as int) {
            seq![(x, cands[j0])]
        } else {
            Seq::empty()
        }) + spec_center_row(x, cands, j0 + 1, size)
    }
}

/// The 2-D centers from candidate rows `i0` on: the cross product of the
/// candidate set with itself, in row-major order, finder overlaps dropped.
pub open spec fn spec_centers_from(cands: Seq<i32>, i0: int, size: int) -> Seq<(i32, i32)>
    decreases cands.len() - i0,
{
    if i0 < 0 || i0 >= cands.len() {
        Seq::empty()
    } else {
        spec_center_row(cands[i0], cands, 0, size) + spec_centers_from(cands, i0 + 1, size)
    }
}

/// The alignment pattern centers of a version: cross product of the 1-D
/// candidates, centers overlapping a finder pattern removed.
pub open spec fn spec_alignment_positions(version: int) -> Seq<(i32, i32)> {
    spec_centers_from(spec_align_candidates(version), 0, 4 * version + 17)
}

/// Every listed center is bounded by [lo, hi] in both coordinates and
/// avoids the finder patterns.
pub open spec fn centers_ok(s: Seq<(i32, i32)>, size: int, lo: i32, hi: i32) -> bool {
    forall|t: int|
        0 <= t < s.len() ==> lo <= (#[trigger] s[t]).0 <= hi && lo <= s[t].1 <= hi
            && !spec_is_finder(size, s[t].0 as int, s[t].1 as int)
}

proof fn lemma_centers_ok_concat(a: Seq<(i32, i32)>, b: Seq<(i32, i32)>, size: int, lo: i32, hi: i32)
    requires
        centers_ok(a, size, lo, hi),
        centers_ok(b, size, lo, hi),
    ensures
        centers_ok(a + b, size, lo, hi),
{
    assert forall|t: int| 0 <= t < (a + b).len() implies lo <= (#[trigger] (a + b)[t]).0 <= hi && lo
        <= (a + b)[t].1 <= hi && !spec_is_finder(size, (a + b)[t].0 as int, (a + b)[t].1 as int) by {
        if t < a.len() {
            assert((a + b)[t] == a[t]);
        } else {
            assert((a + b)[t] == b[t - a.len()]);
        }
    }
}

proof fn lemma_center_row_facts(x: i32, cands: Seq<i32>, j0: int, size: int, lo: i32, hi: i32)
    requires
        lo <= x <= hi,
        forall|k: int| 0 <= k < cands.len() ==> lo <= #[trigger] cands[k] <= hi,
    ensures
        centers_ok(spec_center_row(x, cands, j0, size), size, lo, hi),
    decreases cands.len() - j0,
{
    if !(j0 < 0 || j0 >= cands.len()) {
        lemma_center_row_facts(x, cands, j0 + 1, size, lo, hi);
        let head = if !spec_is_finder(size, x as int, cands[j0] as int) {
            seq![(x, cands[j0])]
        } else {
            Seq::<(i32, i32)>::empty()
        };
        assert(centers_ok(head, size, lo, hi));
        lemma_centers_ok_concat(head, spec_center_row(x, cands, j0 + 1, size), size, lo, hi);
    }
}

/// Every produced center is bounded and avoids the finder patterns.
pub proof fn lemma_centers_facts(cands: Seq<i32>, i0: int, size: int, lo: i32, hi: i32)
    requires
        forall|k: int| 0 <= k < cands.len() ==> lo <= #[trigger] cands[k] <= hi,
    ensures
        centers_ok(spec_centers_from(cands, i0, size), size, lo, hi),
    decreases cands.len() - i0,
{
    if !(i0 < 0 || i0 >= cands.len()) {
        lemma_center_row_facts(cands[i0], cands, 0, size, lo, hi);
        lemma_centers_facts(cands, i0 + 1, size, lo, hi);
        lemma_centers_ok_concat(
            spec_center_row(cands[i0], cands, 0, size),
            spec_centers_from(cands, i0 + 1, size),
            size,
            lo,
            hi,
        );
    }
}

/// Alignment centers for a version: candidates crossed with themselves,
/// filtered against the finder patterns.
pub fn compute_alignment_positions(version: u8, size: usize) -> (r: Vec<(i32, i32)>)
    requires
        1 <= version <= 40,
        size == 4 * version + 17,
    ensures
        r@ == spec_alignment_positions(version as int),
        aligns_bounded(r@),
{
    let cands = get_potential_alignment_positions(version);
    let ghost cs = cands@;
    let ghost sz = size as int;
    proof {
        lemma_candidates_bounded(version as int);
        lemma_centers_facts(cs, 0, sz, -4096i32, 4096i32);
    }
    let mut out: Vec<(i32, i32)> = Vec::new();
    let mut i: usize = 0;
    while i < cands.len()
        invariant
            i <= cs.len(),
            cands@ == cs,
            sz == size as int,
            21 <= size <= 177,
            forall|k: int| 0 <= k < cs.len() ==> -4096 <= #[trigger] cs[k] <= 4096,
            out@ + spec_centers_from(cs, i as int, sz) =~= spec_centers_from(cs, 0, sz),
        decreases cs.len() - i,
    {
        let x: i32 = cands[i];
        proof {
            assert(spec_centers_from(cs, i as int, sz) == spec_center_row(cs[i as int], cs, 0, sz)
                + spec_centers_from(cs, i as int + 1, sz));
        }
        let mut j: usize = 0;
        while j < cands.len()
            invariant
                j <= cs.len(),
                i < cs.len(),
                cands@ == cs,
                sz == size as int,
                21 <= size <= 177,
                x == cs[i as int],
                forall|k: int| 0 <= k < cs.len() ==> -4096 <= #[trigger] cs[k] <= 4096,
                out@ + spec_center_row(cs[i as int], cs, j as int, sz) + spec_centers_from(
                    cs,
                    i as int + 1,
                    sz,
                ) =~= spec_centers_from(cs, 0, sz),
            decreases cs.len() - j,
        {
            let y: i32 = cands[j];
            proof {
                assert(spec_center_row(cs[i as int], cs, j as int, sz) == (if !spec_is_finder(
                    sz,
                    cs[i as int] as int,
                    cs[j as int] as int,
                ) {
                    seq![(cs[i as int], cs[j as int])]
                } else {
                    Seq::<(i32, i32)>::empty()
                }) + spec_center_row(cs[i as int], cs, j as int + 1, sz));
            }
            if !is_finder_center(size, x, y) {
                out.push((x, y));
            }
            j += 1;
        }
        proof {
            assert(spec_center_row(cs[i as int], cs, cs.len() as int, sz).len() == 0);
        }
        i += 1;
    }
    proof {
        assert(spec_centers_from(cs, cs.len() as int, sz).len() == 0);
        assert(out@ =~= spec_alignment_positions(version as int));
        lemma_centers_facts(cs, 0, sz, -4096i32, 4096i32);
        assert(aligns_bounded(out@));
    }
    out
}

/// Finder overlap test for signed center candidates.
fn is_finder_center(size: usize, x: i32, y: i32) -> (r: bool)
    requires
        21 <= size <= 177,
        -4096 <= x <= 4096,
        -4096 <= y <= 4096,
    ensures
        r == spec_is_finder(size as int, x as int, y as int),
{
    let s = size as i32;
    (x < 8 && y < 8) || (x < 8 && y >= s - 8) || (x >= s - 8 && y < 8)
}

/// Alignment invariant: a version-1 symbol has no alignment centers; a
/// version-2 symbol has exactly one, at (18, 18), which does not overlap
/// any finder pattern.
pub proof fn lemma_alignment_invariant(version: int)
    requires
        1 <= version <= 40,
    ensures
        version <= 1 ==> spec_alignment_positions(version).len() == 0,
        version == 2 ==> spec_alignment_positions(version) =~= seq![(18i32, 18i32)],
        version == 2 ==> !spec_is_finder(4 * version + 17, 18, 18),
{
    if version <= 1 {
        assert(spec_align_candidates(version).len() == 0);
        assert(spec_alignment_positions(version).len() == 0);
    }
    if version == 2 {
        let cands = spec_align_candidates(2);
        assert(spec_align_interval(2) == 1);
        assert(spec_align_distance(2) == 12);
        assert(2 * spec_align_distance(2) + spec_align_interval(2) == 25);
        assert(2 * spec_align_interval(2) == 2);
        assert(25int / 2int == 12);
        assert(spec_align_step(2) == 12);
        assert(cands.len() == 2);
        assert(cands[0] == 6i32);
        assert(cands[1] == 18i32);
        reveal_with_fuel(spec_center_row, 4);
        reveal_with_fuel(spec_centers_from, 4);
        assert(spec_center_row(6i32, cands, 0, 25).len() == 0);
        assert(spec_center_row(18i32, cands, 0, 25) =~= seq![(18i32, 18i32)]);
        assert(spec_centers_from(cands, 0, 25) =~= seq![(18i32, 18i32)]);
    }
}

} // verus!
