//! Zigzag coordinate generator.
//!
//! The writable coordinates are listed in a deterministic order: column
//! pairs are scanned from the rightmost column leftward in steps of two,
//! column 5 standing in whenever the pair would start on the timing column
//! 6; within a pair all rows are visited, the direction alternating with
//! the pair's parity, and each row lists the right column before the left.
//! Coordinates that fail the writable predicate are omitted.

use vstd::prelude::*;

verus! {

use crate::pattern::aligns_bounded;
use crate::pattern::module_can_be_overwritten;
use crate::pattern::spec_writable;

/// Direction of travel for the column pair starting at `right`.
pub open spec fn zz_upward(right: int) -> bool {
    (right + 1) % 4 < 2
}

/// The row visited at step `vert` of the column pair starting at `right`.
pub open spec fn zz_y(size: int, right: int, vert: int) -> int {
    if zz_upward(right) {
        size - 1 - vert
    } else {
        vert
    }
}

/// The coordinate contributed by column `right - j` at step `vert`:
/// a single writable cell, or nothing.
pub open spec fn zz_cell(
    size: int,
    aligns: Seq<(i32, i32)>,
    right: int,
    vert: int,
    j: int,
) -> Seq<(usize, usize)> {
    let x = right - j;
    let y = zz_y(size, right, vert);
    if 0 <= x < size && 0 <= y < size && spec_writable(size, aligns, x, y) {
        seq![(x as usize, y as usize)]
    } else {
        Seq::empty()
    }
}

/// The coordinates of the first `n` row steps of the column pair at `right`.
pub open spec fn zz_rows(size: int, aligns: Seq<(i32, i32)>, right: int, n: int) -> Seq<
    (usize, usize),
>
    decreases n,
{
    if n <= 0 {
        Seq::empty()
    } else {
        zz_rows(size, aligns, right, n - 1) + zz_cell(size, aligns, right, n - 1, 0) + zz_cell(
            size,
            aligns,
            right,
            n - 1,
            1,
        )
    }
}

/// The coordinates of all column pairs from `right` leftward.
pub open spec fn zz_cols(size: int, aligns: Seq<(i32, i32)>, right: int) -> Seq<(usize, usize)>
    decreases right + 1,
{
    if right < 1 {
        Seq::empty()
    } else {
        let r = if right == 6 {
            5int
        } else {
            right
        };
        zz_rows(size, aligns, r, size) + zz_cols(size, aligns, r - 2)
    }
}

/// The full zigzag sequence of a grid.
pub open spec fn spec_zigzag(size: int, aligns: Seq<(i32, i32)>) -> Seq<(usize, usize)> {
    zz_cols(size, aligns, size - 1)
}

/// Every coordinate of `s` is writable and inside the grid.
pub open spec fn coords_ok(s: Seq<(usize, usize)>, size: int, aligns: Seq<(i32, i32)>) -> bool {
    forall|k: int|
        0 <= k < s.len() ==> spec_writable(size, aligns, (#[trigger] s[k]).0 as int, s[k].1 as int)
            && s[k].0 < size && s[k].1 < size
}

proof fn lemma_coords_ok_concat(
    a: Seq<(usize, usize)>,
    b: Seq<(usize, usize)>,
    size: int,
    aligns: Seq<(i32, i32)>,
)
    requires
        coords_ok(a, size, aligns),
        coords_ok(b, size, aligns),
    ensures
        coords_ok(a + b, size, aligns),
{
    assert forall|k: int| 0 <= k < (a + b).len() implies spec_writable(
        size,
        aligns,
        (#[trigger] (a + b)[k]).0 as int,
        (a + b)[k].1 as int,
    ) && (a + b)[k].0 < size && (a + b)[k].1 < size by {
        if k < a.len() {
            assert((a + b)[k] == a[k]);
        } else {
            assert((a + b)[k] == b[k - a.len()]);
        }
    }
}

/// Facts about one column pair: its coordinates are writable, lie in the
/// two columns `right` and `right - 1`, and stay within the rows already
/// visited.
proof fn lemma_rows_facts(size: int, aligns: Seq<(i32, i32)>, right: int, n: int)
    requires
        0 <= size <= 177,
    ensures
        coords_ok(zz_rows(size, aligns, right, n), size, aligns),
        forall|k: int|
            0 <= k < zz_rows(size, aligns, right, n).len() ==> ((#[trigger] zz_rows(
                size,
                aligns,
                right,
                n,
            )[k]).0 as int == right || zz_rows(size, aligns, right, n)[k].0 as int == right - 1),
        forall|k: int|
            0 <= k < zz_rows(size, aligns, right, n).len() && zz_upward(right) ==> (
            #[trigger] zz_rows(size, aligns, right, n)[k]).1 as int >= size - n,
        forall|k: int|
            0 <= k < zz_rows(size, aligns, right, n).len() && !zz_upward(right) ==> ((
            #[trigger] zz_rows(size, aligns, right, n)[k]).1 as int) < n,
    decreases n,
{
    if n > 0 {
        lemma_rows_facts(size, aligns, right, n - 1);
        let prev = zz_rows(size, aligns, right, n - 1);
        let c0 = zz_cell(size, aligns, right, n - 1, 0);
        let c1 = zz_cell(size, aligns, right, n - 1, 1);
        let cur = zz_rows(size, aligns, right, n);
        assert(cur == prev + c0 + c1);
        assert forall|k: int| 0 <= k < cur.len() implies spec_writable(
            size,
            aligns,
            (#[trigger] cur[k]).0 as int,
            cur[k].1 as int,
        ) && cur[k].0 < size && cur[k].1 < size && (cur[k].0 as int == right || cur[k].0 as int
            == right - 1) && (zz_upward(right) ==> cur[k].1 as int >= size - n) && (!zz_upward(
            right,
        ) ==> (cur[k].1 as int) < n) by {
            if k < prev.len() {
                assert(cur[k] == prev[k]);
            } else if k < prev.len() + c0.len() {
                assert(cur[k] == c0[k - prev.len()]);
            } else {
                assert(cur[k] == c1[k - prev.len() - c0.len()]);
            }
        }
    }
}

/// Within one column pair no coordinate repeats: the two columns differ
/// inside a row step, and the row changes across steps.
proof fn lemma_rows_distinct(size: int, aligns: Seq<(i32, i32)>, right: int, n: int)
    requires
        0 <= size <= 177,
    ensures
        zz_rows(size, aligns, right, n).no_duplicates(),
    decreases n,
{
    if n > 0 {
        lemma_rows_distinct(size, aligns, right, n - 1);
        lemma_rows_facts(size, aligns, right, n - 1);
        let prev = zz_rows(size, aligns, right, n - 1);
        let c0 = zz_cell(size, aligns, right, n - 1, 0);
        let c1 = zz_cell(size, aligns, right, n - 1, 1);
        let cur = zz_rows(size, aligns, right, n);
        assert(cur == prev + c0 + c1);
        assert forall|i: int, j: int| 0 <= i < j < cur.len() implies cur[i] != cur[j] by {
            if j < prev.len() {
                assert(cur[i] == prev[i] && cur[j] == prev[j]);
            } else {
                if i < prev.len() {
                    assert(cur[i] == prev[i]);
                    assert(cur[j].1 as int == zz_y(size, right, n - 1));
                    if zz_upward(right) {
                        assert(prev[i].1 as int >= size - (n - 1));
                    } else {
                        assert((prev[i].1 as int) < n - 1);
                    }
                } else {
                    assert(cur[i] == c0[i - prev.len()]);
                    assert(cur[j] == c1[j - prev.len() - c0.len()]);
                    assert(cur[i].0 as int == right && cur[j].0 as int == right - 1);
                }
            }
        }
    }
}

/// Facts about the whole tail: all coordinates writable, in bounds, and in
/// columns at or left of `right`.
proof fn lemma_cols_facts(size: int, aligns: Seq<(i32, i32)>, right: int)
    requires
        0 <= size <= 177,
    ensures
        coords_ok(zz_cols(size, aligns, right), size, aligns),
        forall|k: int|
            0 <= k < zz_cols(size, aligns, right).len() ==> (#[trigger] zz_cols(
                size,
                aligns,
                right,
            )[k]).0 as int <= right,
    decreases right + 1,
{
    if right >= 1 {
        let r = if right == 6 {
            5int
        } else {
            right
        };
        lemma_rows_facts(size, aligns, r, size);
        lemma_cols_facts(size, aligns, r - 2);
        let a = zz_rows(size, aligns, r, size);
        let b = zz_cols(size, aligns, r - 2);
        let cur = zz_cols(size, aligns, right);
        assert(cur == a + b);
        assert forall|k: int| 0 <= k < cur.len() implies spec_writable(
            size,
            aligns,
            (#[trigger] cur[k]).0 as int,
            cur[k].1 as int,
        ) && cur[k].0 < size && cur[k].1 < size && cur[k].0 as int <= right by {
            if k < a.len() {
                assert(cur[k] == a[k]);
            } else {
                assert(cur[k] == b[k - a.len()]);
            }
        }
    }
}

proof fn lemma_cols_distinct(size: int, aligns: Seq<(i32, i32)>, right: int)
    requires
        0 <= size <= 177,
    ensures
        zz_cols(size, aligns, right).no_duplicates(),
    decreases right + 1,
{
    if right >= 1 {
        let r = if right == 6 {
            5int
        } else {
            right
        };
        lemma_rows_distinct(size, aligns, r, size);
        lemma_rows_facts(size, aligns, r, size);
        lemma_cols_distinct(size, aligns, r - 2);
        lemma_cols_facts(size, aligns, r - 2);
        let a = zz_rows(size, aligns, r, size);
        let b = zz_cols(size, aligns, r - 2);
        let cur = zz_cols(size, aligns, right);
        assert(cur == a + b);
        assert forall|i: int, j: int| 0 <= i < j < cur.len() implies cur[i] != cur[j] by {
            if j < a.len() {
                assert(cur[i] == a[i] && cur[j] == a[j]);
            } else if i >= a.len() {
                assert(cur[i] == b[i - a.len()] && cur[j] == b[j - a.len()]);
            } else {
                assert(cur[i] == a[i] && cur[j] == b[j - a.len()]);
                assert(a[i].0 as int == r || a[i].0 as int == r - 1);
                assert(b[j - a.len()].0 as int <= r - 2);
            }
        }
    }
}

/// Writable-set invariant of the zigzag sequence: every coordinate it
/// lists satisfies the writable predicate and lies inside the grid, and no
/// coordinate repeats.
pub proof fn lemma_zigzag_properties(size: int, aligns: Seq<(i32, i32)>)
    requires
        0 <= size <= 177,
    ensures
        coords_ok(spec_zigzag(size, aligns), size, aligns),
        spec_zigzag(size, aligns).no_duplicates(),
{
    lemma_cols_facts(size, aligns, size - 1);
    lemma_cols_distinct(size, aligns, size - 1);
}

/// The ordered list of writable coordinates of a grid, produced by the
/// zigzag traversal.
pub fn zigzag_coordinates(size: usize, aligns: &Vec<(i32, i32)>) -> (r: Vec<(usize, usize)>)
    requires
        21 <= size <= 177,
        aligns_bounded(aligns@),
    ensures
        r@ == spec_zigzag(size as int, aligns@),
{
    let ghost sz = size as int;
    let ghost ali = aligns@;
    let mut coords: Vec<(usize, usize)> = Vec::new();
    let mut right: usize = size - 1;
    while right >= 1
        invariant
            21 <= size <= 177,
            aligns_bounded(ali),
            aligns@ == ali,
            sz == size as int,
            right <= size - 1,
            coords@ + zz_cols(sz, ali, right as int) =~= spec_zigzag(sz, ali),
        decreases right,
    {
        let r: usize = if right == 6 {
            5
        } else {
            right
        };
        proof {
            assert(zz_cols(sz, ali, right as int) == zz_rows(sz, ali, r as int, sz) + zz_cols(
                sz,
                ali,
                r as int - 2,
            ));
        }
        let ghost pre = coords@;
        let upward: bool = (r + 1) % 4 < 2;
        let mut vert: usize = 0;
        while vert < size
            invariant
                21 <= size <= 177,
                aligns_bounded(ali),
                aligns@ == ali,
                sz == size as int,
                1 <= r <= size - 1,
                upward == zz_upward(r as int),
                vert <= size,
                coords@ =~= pre + zz_rows(sz, ali, r as int, vert as int),
            decreases size - vert,
        {
            let y: usize = if upward {
                size - 1 - vert
            } else {
                vert
            };
            proof {
                assert(y as int == zz_y(sz, r as int, vert as int));
            }
            let ghost mid0 = coords@;
            if module_can_be_overwritten(size, aligns, r, y) {
                coords.push((r, y));
            }
            proof {
                assert(coords@ =~= mid0 + zz_cell(sz, ali, r as int, vert as int, 0));
            }
            let ghost mid1 = coords@;
            if module_can_be_overwritten(size, aligns, r - 1, y) {
                coords.push((r - 1, y));
            }
            proof {
                assert(coords@ =~= mid1 + zz_cell(sz, ali, r as int, vert as int, 1));
                assert(zz_rows(sz, ali, r as int, vert as int + 1) == zz_rows(
                    sz,
                    ali,
                    r as int,
                    vert as int,
                ) + zz_cell(sz, ali, r as int, vert as int, 0) + zz_cell(
                    sz,
                    ali,
                    r as int,
                    vert as int,
                    1,
                ));
            }
            vert += 1;
        }
        if r >= 3 {
            right = r - 2;
        } else {
            proof {
                assert(zz_cols(sz, ali, r as int - 2).len() == 0);
                assert(zz_cols(sz, ali, 0).len() == 0);
            }
            right = 0;
        }
    }
    proof {
        assert(zz_cols(sz, ali, right as int).len() == 0);
        assert(coords@ =~= spec_zigzag(sz, ali));
    }
    coords
}

} // verus!
