//! Rasterizer: a deterministic mapping from a module grid to a greyscale
//! pixel raster.
//!
//! Each module becomes a solid 10 x 10 pixel square; a 20 pixel white
//! border surrounds the symbol, so the canvas side is `10 * size + 40`.
//! Dark modules are black (0), everything else is white (255).

use vstd::prelude::*;

verus! {

use vstd::arithmetic::div_mod::lemma_fundamental_div_mod_converse;

/// The pixel side length of one module.
pub const MODULE_PX: usize = 10;

/// The pixel width of the white border around the symbol.
pub const BORDER_PX: usize = 20;

/// The canvas side length for a grid of the given module count.
pub open spec fn spec_canvas_dim(size: int) -> int {
    10 * size + 40
}

/// The luminance of the canvas pixel at (px, py): black over a dark
/// module, white elsewhere.
pub open spec fn spec_pixel(g: Seq<bool>, size: int, px: int, py: int) -> u8 {
    if 20 <= px < 20 + 10 * size && 20 <= py < 20 + 10 * size && g[((py - 20) / 10) * size + ((px
        - 20) / 10)] {
        0
    } else {
        255
    }
}

/// The whole canvas, row-major.
pub open spec fn spec_pixels(g: Seq<bool>, size: int) -> Seq<u8> {
    Seq::new(
        (spec_canvas_dim(size) * spec_canvas_dim(size)) as nat,
        |k: int| spec_pixel(g, size, k % spec_canvas_dim(size), k / spec_canvas_dim(size)),
    )
}

/// Render a module grid to a greyscale raster.  The grid side formula
/// keeps every drawn pixel inside the canvas, so no bounds failure can
/// occur.
pub fn render_pixels(grid: &Vec<bool>, size: usize) -> (r: Vec<u8>)
    requires
        21 <= size <= 177,
        grid@.len() == size * size,
    ensures
        r@ == spec_pixels(grid@, size as int),
        r@.len() == spec_canvas_dim(size as int) * spec_canvas_dim(size as int),
{
    let dim: usize = MODULE_PX * size + 2 * BORDER_PX;
    let glen: usize = grid.len();
    let ghost d = dim as int;
    let ghost sz = size as int;
    let mut r: Vec<u8> = Vec::new();
    let mut py: usize = 0;
    while py < dim
        invariant
            21 <= size <= 177,
            sz == size as int,
            d == dim as int,
            d == spec_canvas_dim(sz),
            grid@.len() == sz * sz,
            sz * sz <= usize::MAX,
            py <= dim,
            r@.len() == py * d,
            forall|k: int|
                0 <= k < r@.len() ==> r@[k] == spec_pixel(grid@, sz, k % d, k / d),
        decreases dim - py,
    {
        proof {
            vstd::arithmetic::mul::lemma_mul_inequality(py as int, d - 1, d);
            vstd::arithmetic::mul::lemma_mul_is_distributive_sub(d, d, 1);
            vstd::arithmetic::mul::lemma_mul_is_commutative(d, d - 1);
        }
        let mut px: usize = 0;
        while px < dim
            invariant
                21 <= size <= 177,
                sz == size as int,
                d == dim as int,
                d == spec_canvas_dim(sz),
                grid@.len() == sz * sz,
                sz * sz <= usize::MAX,
                py < dim,
                px <= dim,
                py * d + d <= d * d,
                r@.len() == py * d + px,
                forall|k: int|
                    0 <= k < r@.len() ==> r@[k] == spec_pixel(grid@, sz, k % d, k / d),
            decreases dim - px,
        {
            let val: u8 = if px >= BORDER_PX && px < BORDER_PX + MODULE_PX * size && py >= BORDER_PX
                && py < BORDER_PX + MODULE_PX * size {
                let mx: usize = (px - BORDER_PX) / MODULE_PX;
                let my: usize = (py - BORDER_PX) / MODULE_PX;
                proof {
                    assert((px - 20) / 10 < sz && (py - 20) / 10 < sz) by {
                        lemma_fundamental_div_mod_converse(10 * sz - 1, 10, sz - 1, 9);
                        vstd::arithmetic::div_mod::lemma_div_is_ordered(
                            px - 20,
                            10 * sz - 1,
                            10,
                        );
                        vstd::arithmetic::div_mod::lemma_div_is_ordered(
                            py - 20,
                            10 * sz - 1,
                            10,
                        );
                    }
                    assert(my as int * sz + mx < sz * sz) by {
                        vstd::arithmetic::mul::lemma_mul_inequality(my as int, sz - 1, sz);
                        vstd::arithmetic::mul::lemma_mul_is_distributive_sub(sz, sz, 1);
                        vstd::arithmetic::mul::lemma_mul_is_commutative(sz, sz - 1);
                        vstd::arithmetic::mul::lemma_mul_is_commutative(sz, my as int);
                    }
                }
                if grid[my * size + mx] {
                    0
                } else {
                    255
                }
            } else {
                255
            };
            proof {
                lemma_fundamental_div_mod_converse(
                    py as int * d + px as int,
                    d,
                    py as int,
                    px as int,
                );
                assert(val == spec_pixel(grid@, sz, px as int, py as int));
            }
            r.push(val);
            px += 1;
        }
        proof {
            vstd::arithmetic::mul::lemma_mul_is_distributive_add(d, py as int, 1);
            vstd::arithmetic::mul::lemma_mul_is_commutative(d, py as int + 1);
            vstd::arithmetic::mul::lemma_mul_is_commutative(d, py as int);
        }
        py += 1;
    }
    proof {
        assert(r@ =~= spec_pixels(grid@, sz));
    }
    r
}

} // verus!
