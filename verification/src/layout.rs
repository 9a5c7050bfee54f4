use vstd::prelude::*;

verus! {

use vstd::arithmetic::div_mod::lemma_div_is_ordered;

/// Pixels between the window edge (and between boxes) and the cells.
pub const BOARD_PADDING: i32 = 10;

/// Pixels between two neighbouring cells inside a box.
pub const CELL_PADDING: i32 = 2;

/// Pixels between a cell's edge and its pencil-mark text.
pub const HINT_PADDING: i32 = 4;

/// Height in pixels of the header band above the grid.
pub const HEADER_HEIGHT: i32 = 100;

/// The left edge of column `j` for cells `cs` pixels wide: the board padding,
/// then each earlier column advances by a cell and a gap, and the gap widens
/// from the cell padding to the board padding after every third column.
pub open spec fn cell_left(j: int, cs: int) -> int {
    10 + j * (cs + 2) + (j / 3) * 8
}

/// The top edge of row `i`, below the header band, spaced like the columns.
pub open spec fn cell_top(i: int, cs: int) -> int {
    110 + i * (cs + 2) + (i / 3) * 8
}

/// The point (x, y) lies inside the cell at row `i`, column `j`.
pub open spec fn point_in_cell(x: int, y: int, i: int, j: int, cs: int) -> bool {
    &&& cell_left(j, cs) <= x < cell_left(j, cs) + cs
    &&& cell_top(i, cs) <= y < cell_top(i, cs) + cs
}

/// Later columns start at least a whole cell and gap further right.
proof fn lemma_cell_left_separated(j1: int, j2: int, cs: int)
    requires
        0 <= j1 < j2 < 9,
        cs >= 0,
    ensures
        cell_left(j2, cs) >= cell_left(j1, cs) + cs + 2,
{
    assert(j2 * (cs + 2) - j1 * (cs + 2) >= cs + 2) by (nonlinear_arith)
        requires
            j2 - j1 >= 1,
            cs >= 0,
    ;
    lemma_div_is_ordered(j1, j2, 3);
}

/// Later rows start at least a whole cell and gap further down.
proof fn lemma_cell_top_separated(i1: int, i2: int, cs: int)
    requires
        0 <= i1 < i2 < 9,
        cs >= 0,
    ensures
        cell_top(i2, cs) >= cell_top(i1, cs) + cs + 2,
{
    assert(i2 * (cs + 2) - i1 * (cs + 2) >= cs + 2) by (nonlinear_arith)
        requires
            i2 - i1 >= 1,
            cs >= 0,
    ;
    lemma_div_is_ordered(i1, i2, 3);
}

/// Cells do not overlap: a point lies in at most one of them.
pub proof fn lemma_hit_cell_unique(x: int, y: int, i1: int, j1: int, i2: int, j2: int, cs: int)
    requires
        cs >= 0,
        0 <= i1 < 9,
        0 <= j1 < 9,
        0 <= i2 < 9,
        0 <= j2 < 9,
        point_in_cell(x, y, i1, j1, cs),
        point_in_cell(x, y, i2, j2, cs),
    ensures
        i1 == i2,
        j1 == j2,
{
    if j1 < j2 {
        lemma_cell_left_separated(j1, j2, cs);
    } else if j2 < j1 {
        lemma_cell_left_separated(j2, j1, cs);
    }
    if i1 < i2 {
        lemma_cell_top_separated(i1, i2, cs);
    } else if i2 < i1 {
        lemma_cell_top_separated(i2, i1, cs);
    }
}

/// The cell edge length for a window `width` pixels wide: the width minus
/// four board paddings and four cell paddings, split over the nine columns.
/// A window too narrow to hold the paddings gives zero.
pub fn cell_edge(width: u32) -> (r: i32)
    ensures
        width >= 48 ==> r == (width - 48) / 9,
        width < 48 ==> r == 0,
        r >= 0,
{
    if width < 48 {
        0
    } else {
        ((width - 48) / 9) as i32
    }
}

/// Which cell, if any, the point (x, y) lies in, walking the grid row-major
/// with the same spacing the renderer uses. The result pairs the column with
/// the row, in that order.
pub fn locate_cell(x: i32, y: i32, cs: i32) -> (r: Option<(u8, u8)>)
    requires
        0 <= cs <= 200_000_000,
    ensures
        r matches Some(p) ==> p.0 < 9 && p.1 < 9 && point_in_cell(
            x as int,
            y as int,
            p.1 as int,
            p.0 as int,
            cs as int,
        ),
        r is None ==> forall|i: int, j: int|
            0 <= i < 9 && 0 <= j < 9 ==> !point_in_cell(x as int, y as int, i, j, cs as int),
{
    let mut i: u8 = 0;
    let mut ly: i32 = 110;
    while i < 9
        invariant
            0 <= cs <= 200_000_000,
            i <= 9,
            ly == cell_top(i as int, cs as int),
            110 <= ly <= 110 + (i as int) * 200_000_010,
            forall|a: int, b: int|
                0 <= a < i && 0 <= b < 9 ==> !point_in_cell(x as int, y as int, a, b, cs as int),
        decreases 9 - i,
    {
        let mut j: u8 = 0;
        let mut lx: i32 = 10;
        while j < 9
            invariant
                0 <= cs <= 200_000_000,
                i < 9,
                j <= 9,
                lx == cell_left(j as int, cs as int),
                10 <= lx <= 10 + (j as int) * 200_000_010,
                ly == cell_top(i as int, cs as int),
                110 <= ly <= 110 + (i as int) * 200_000_010,
                forall|a: int, b: int|
                    0 <= a < i && 0 <= b < 9 ==> !point_in_cell(
                        x as int,
                        y as int,
                        a,
                        b,
                        cs as int,
                    ),
                forall|b: int|
                    0 <= b < j ==> !point_in_cell(x as int, y as int, i as int, b, cs as int),
            decreases 9 - j,
        {
            if x >= lx && x < lx + cs && y >= ly && y < ly + cs {
                return Some((j, i));
            }
            proof {
                let jj = j as int;
                assert((jj + 1) * (cs as int + 2) == jj * (cs as int + 2) + (cs as int + 2))
                    by (nonlinear_arith);
                if (jj + 1) % 3 == 0 {
                    assert(jj == 2 || jj == 5 || jj == 8);
                    assert((jj + 1) / 3 == jj / 3 + 1);
                } else {
                    assert((jj + 1) / 3 == jj / 3);
                }
            }
            if (j + 1) % 3 == 0 {
                lx = lx + 10;
            } else {
                lx = lx + 2;
            }
            lx = lx + cs;
            j = j + 1;
        }
        proof {
            let ii = i as int;
            assert((ii + 1) * (cs as int + 2) == ii * (cs as int + 2) + (cs as int + 2))
                by (nonlinear_arith);
            if (ii + 1) % 3 == 0 {
                assert(ii == 2 || ii == 5 || ii == 8);
                assert((ii + 1) / 3 == ii / 3 + 1);
            } else {
                assert((ii + 1) / 3 == ii / 3);
            }
        }
        if (i + 1) % 3 == 0 {
            ly = ly + 10;
        } else {
            ly = ly + 2;
        }
        ly = ly + cs;
        i = i + 1;
    }
    None
}

/// The four strips that draw an unfilled rectangular border of thickness `t`
/// for the rectangle at (x, y) sized `w` by `h`: the top strip, the left
/// strip, the bottom strip and the right strip, each as (x, y, width,
/// height), exactly as the canvas fills them.
pub fn border_rects(x: i32, y: i32, w: u32, h: u32, t: u32) -> (r: Vec<(i32, i32, u32, u32)>)
    requires
        -1_000_000 <= x <= 1_000_000,
        -1_000_000 <= y <= 1_000_000,
        w <= 1_000_000,
        h <= 1_000_000,
        t <= 1_000_000,
    ensures
        r@.len() == 4,
        r@[0] == (x, y, w, t),
        r@[1] == (x, y, t, h),
        r@[2].0 == x && r@[2].1 == y + h - t && r@[2].2 == w && r@[2].3 == t,
        r@[3].0 == x + w - t && r@[3].1 == y && r@[3].2 == t && r@[3].3 == h,
{
    let mut v: Vec<(i32, i32, u32, u32)> = Vec::new();
    v.push((x, y, w, t));
    v.push((x, y, t, h));
    v.push((x, (y + h as i32) - t as i32, w, t));
    v.push(((x + w as i32) - t as i32, y, t, h));
    v
}

} // verus!
