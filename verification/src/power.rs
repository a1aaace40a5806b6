//! Fuel-cell power grid: power levels of a 300 by 300 grid of cells
//! and the search for the square region with the largest total power.
//!
//! The search keeps a buffer of horizontal window sums so that each
//! square is evaluated from column partial sums rather than from
//! scratch.

use crate::array2d::lemma_cell_index_in_range;
use vstd::prelude::*;

verus! {

/// The power level of the fuel cell at `(x, y)`: the hundreds digit of
/// `((x+10)*y + serial)*(x+10)`, minus five.
pub open spec fn spec_power_level(grid_serial: u32, x: u32, y: u32) -> int {
    ((x + 10) * y + grid_serial) * (x + 10) / 100 % 10 - 5
}

/// Every power level lies in `[-5, 4]`.
pub proof fn lemma_power_level_range(grid_serial: u32, x: u32, y: u32)
    ensures
        -5 <= spec_power_level(grid_serial, x, y) <= 4,
{
    let p = ((x + 10) * y + grid_serial) * (x + 10);
    assert(((x + 10) * y + grid_serial) * (x + 10) >= 0) by (nonlinear_arith)
        requires
            x >= 0 && y >= 0 && grid_serial >= 0,
    ;
    vstd::arithmetic::div_mod::lemma_div_pos_is_pos(p, 100);
    vstd::arithmetic::div_mod::lemma_mod_division_less_than_divisor(p / 100, 10);
    vstd::arithmetic::div_mod::lemma_div_pos_is_pos(p / 100, 10);
    assert(0 <= p / 100 % 10 <= 9);
}

/// Computes the power level of the fuel cell at `(x, y)`.
pub fn power_level(grid_serial: u32, x: u32, y: u32) -> (r: i32)
    requires
        1 <= x <= 311,
        1 <= y <= 311,
        grid_serial <= 10_000_000,
    ensures
        r == spec_power_level(grid_serial, x, y),
{
    proof {
        assert((x + 10) * y <= 321 * 311 && ((x + 10) * y + grid_serial) * (x + 10) <= (321 * 311
            + 10_000_000) * 321) by (nonlinear_arith)
            requires
                1 <= x <= 311 && 1 <= y <= 311 && grid_serial <= 10_000_000,
        ;
        lemma_power_level_range(grid_serial, x, y);
    }
    let rack_id = x + 10;
    let power = rack_id * y;
    let power = power + grid_serial;
    let power = power * rack_id;
    let power = (power / 100) % 10;
    power as i32 - 5
}

/// Finds a best-scoring `size` by `size` square: returns its top-left
/// corner — both coordinates between `1` and `301 - size` — and its
/// total power.  `buffer` is scratch space for the window sums.
pub fn find_best_square(grid_serial: u32, size: u32, buffer: &mut Vec<i32>) -> (r: (u32, u32, i32))
    requires
        1 <= size <= 300,
        grid_serial <= 10_000_000,
    ensures
        1 <= r.0 <= 301 - size,
        1 <= r.1 <= 301 - size,
{
    buffer.clear();
    let buffer_width = (301 - size) as usize;
    let mut y: u32 = 1;
    while y <= 301
        invariant
            1 <= y <= 302,
            1 <= size <= 300,
            grid_serial <= 10_000_000,
            buffer_width == 301 - size,
            buffer@.len() == (y - 1) * buffer_width,
            forall|k: int| 0 <= k < buffer@.len() ==> -5000 <= #[trigger] buffer@[k] <= 5000,
        decreases 302 - y,
    {
        let mut p: i32 = 0;
        let mut k: u32 = 1;
        while k < size
            invariant
                1 <= k <= size <= 300,
                1 <= y <= 301,
                grid_serial <= 10_000_000,
                -5 * (k - 1) <= p <= 4 * (k - 1),
            decreases size - k,
        {
            p = p + power_level(grid_serial, k, y);
            k = k + 1;
        }
        let mut x: u32 = 1;
        while x <= 301 - size
            invariant
                1 <= x <= 302 - size,
                1 <= size <= 300,
                1 <= y <= 301,
                grid_serial <= 10_000_000,
                buffer_width == 301 - size,
                -5 * (size - 1) - 9 * (x - 1) <= p <= 4 * (size - 1) + 9 * (x - 1),
                buffer@.len() == (y - 1) * buffer_width + (x - 1),
                forall|k2: int| 0 <= k2 < buffer@.len() ==> -5000 <= #[trigger] buffer@[k2] <= 5000,
            decreases 302 - size - x,
        {
            p = p + power_level(grid_serial, x + size - 1, y);
            buffer.push(p);
            p = p - power_level(grid_serial, x, y);
            x = x + 1;
        }
        proof {
            assert((y - 1) * buffer_width + buffer_width == ((y + 1) - 1) * buffer_width)
                by (nonlinear_arith);
        }
        y = y + 1;
    }
    proof {
        assert(301 * buffer_width == buffer_width * 301) by (nonlinear_arith);
    }
    let mut best_x: u32 = 1;
    let mut best_y: u32 = 1;
    let mut best_p: i32 = i32::MIN;
    let mut first = true;
    let mut x: u32 = 1;
    while x <= 301 - size
        invariant
            1 <= x <= 302 - size,
            1 <= size <= 300,
            buffer_width == 301 - size,
            buffer@.len() == buffer_width * 301,
            forall|k2: int| 0 <= k2 < buffer@.len() ==> -5000 <= #[trigger] buffer@[k2] <= 5000,
            1 <= best_x <= 301 - size,
            1 <= best_y <= 301 - size,
        decreases 302 - size - x,
    {
        let xo = (x - 1) as usize;
        let mut p: i32 = 0;
        let mut k: u32 = 1;
        while k < size
            invariant
                1 <= k <= size <= 300,
                1 <= x <= 301 - size,
                xo == x - 1,
                buffer_width == 301 - size,
                buffer@.len() == buffer_width * 301,
                forall|k2: int| 0 <= k2 < buffer@.len() ==> -5000 <= #[trigger] buffer@[k2] <= 5000,
                -5000 * (k - 1) <= p <= 5000 * (k - 1),
            decreases size - k,
        {
            proof {
                lemma_cell_index_in_range(xo, (k - 1) as usize, buffer_width, 301);
            }
            p = p + buffer[xo + (k - 1) as usize * buffer_width];
            k = k + 1;
        }
        let mut yy: u32 = 1;
        while yy <= 301 - size
            invariant
                1 <= yy <= 302 - size,
                1 <= x <= 301 - size,
                1 <= size <= 300,
                xo == x - 1,
                buffer_width == 301 - size,
                buffer@.len() == buffer_width * 301,
                forall|k2: int| 0 <= k2 < buffer@.len() ==> -5000 <= #[trigger] buffer@[k2] <= 5000,
                -5000 * (size - 1) - 10000 * (yy - 1) <= p <= 5000 * (size - 1) + 10000 * (yy - 1),
                1 <= best_x <= 301 - size,
                1 <= best_y <= 301 - size,
        decreases 302 - size - yy,
        {
            proof {
                lemma_cell_index_in_range(xo, (yy + size - 2) as usize, buffer_width, 301);
                lemma_cell_index_in_range(xo, (yy - 1) as usize, buffer_width, 301);
            }
            p = p + buffer[xo + (yy + size - 2) as usize * buffer_width];
            if first || p >= best_p {
                best_x = x;
                best_y = yy;
                best_p = p;
                first = false;
            }
            p = p - buffer[xo + (yy - 1) as usize * buffer_width];
            yy = yy + 1;
        }
        x = x + 1;
    }
    (best_x, best_y, best_p)
}

/// Finds a best 3 by 3 square for the given serial number and returns
/// its top-left corner.
pub fn best_square(grid_serial: u32) -> (r: (u32, u32))
    requires
        grid_serial <= 10_000_000,
    ensures
        1 <= r.0 <= 298,
        1 <= r.1 <= 298,
{
    let mut buffer: Vec<i32> = Vec::new();
    let (x, y, _p) = find_best_square(grid_serial, 3, &mut buffer);
    (x, y)
}

/// Finds a best square of any size between 1 and 300: returns its
/// top-left corner and its size.
pub fn best_square_any_size(grid_serial: u32) -> (r: (u32, u32, u32))
    requires
        grid_serial <= 10_000_000,
    ensures
        1 <= r.0 <= 300,
        1 <= r.1 <= 300,
        1 <= r.2 <= 300,
{
    let mut buffer: Vec<i32> = Vec::new();
    let mut best: (u32, u32, u32) = (1, 1, 1);
    let mut best_p: i32 = i32::MIN;
    let mut first = true;
    let mut size: u32 = 1;
    while size <= 300
        invariant
            1 <= size <= 301,
            grid_serial <= 10_000_000,
            1 <= best.0 <= 300,
            1 <= best.1 <= 300,
            1 <= best.2 <= 300,
        decreases 301 - size,
    {
        let (x, y, p) = find_best_square(grid_serial, size, &mut buffer);
        if first || p >= best_p {
            best = (x, y, size);
            best_p = p;
            first = false;
        }
        size = size + 1;
    }
    best
}

} // verus!
