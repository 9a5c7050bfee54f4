use vstd::prelude::*;

verus! {

use crate::board::{Board, cells_view, grid_dims, grid_solved, grid_update, grid_wf};
use crate::cell::{Cell, CellValue, CellView, hint_toggled};
use crate::layout::{lemma_hit_cell_unique, locate_cell, point_in_cell};

/// The player's current focus: a cell named by column and row, and whether
/// the selection is committed (typed digits replace the value) or not yet
/// (typed digits toggle pencil-marks).
#[derive(Clone, Copy, Debug, PartialEq, Eq, Structural)]
pub struct Selection {
    pub col: u8,
    pub row: u8,
    pub committed: bool,
}

/// The selection points inside the grid, at a cell the player may edit.
pub open spec fn selection_ok(g: Seq<Seq<CellView>>, s: Selection) -> bool {
    &&& s.row < 9
    &&& s.col < 9
    &&& !g[s.row as int][s.col as int].is_original
}

/// An absent selection is fine; a present one must point at an editable cell.
pub open spec fn opt_selection_ok(g: Seq<Seq<CellView>>, s: Option<Selection>) -> bool {
    s matches Some(p) ==> selection_ok(g, p)
}

/// Two positions see each other when they differ and share a row, a column
/// or a 3x3 box.
pub open spec fn sees(r1: int, c1: int, r2: int, c2: int) -> bool {
    &&& !(r1 == r2 && c1 == c2)
    &&& (r1 == r2 || c1 == c2 || (r1 / 3 == r2 / 3 && c1 / 3 == c2 / 3))
}

/// The cell at (r, c) is in conflict: some cell it sees holds the same value.
pub open spec fn conflict_at(g: Seq<Seq<CellView>>, r: int, c: int) -> bool {
    exists|i: int, j: int|
        0 <= i < 9 && 0 <= j < 9 && sees(r, c, i, j) && (#[trigger] g[i][j]).value == g[r][c].value
}

/// The cell as a committed digit entry leaves it: the digit written, the
/// pencil-marks and originality kept, and the conflict flag re-derived
/// against the cells it sees once the digit is in place.
pub open spec fn digit_entry_cell(g: Seq<Seq<CellView>>, r: int, c: int, digit: u8) -> CellView {
    let placed = CellView {
        value: CellValue::Number(digit),
        hints: g[r][c].hints,
        is_original: g[r][c].is_original,
        is_invalid: g[r][c].is_invalid,
    };
    CellView {
        value: CellValue::Number(digit),
        hints: g[r][c].hints,
        is_original: g[r][c].is_original,
        is_invalid: conflict_at(grid_update(g, r, c, placed), r, c),
    }
}

/// What a pointer release landing on the cell at row `i`, column `j` makes
/// of the selection: a second click on the uncommitted selection commits it,
/// a click on a non-original cell selects it fresh and uncommitted, and a
/// click on an original cell clears the selection.
pub open spec fn selection_after_hit(
    prev: Option<Selection>,
    g: Seq<Seq<CellView>>,
    i: int,
    j: int,
) -> Option<Selection> {
    if (prev matches Some(p) && p.col == j && p.row == i && !p.committed) {
        Some(Selection { col: j as u8, row: i as u8, committed: true })
    } else if !g[i][j].is_original {
        Some(Selection { col: j as u8, row: i as u8, committed: false })
    } else {
        None
    }
}

/// Replace the cell at (r, c), keeping every other cell as it was.
fn put_cell(board: &mut Board, r: usize, c: usize, cell: Cell)
    requires
        grid_dims(old(board)@),
        r < 9,
        c < 9,
    ensures
        final(board)@ == grid_update(old(board)@, r as int, c as int, cell@),
        grid_dims(final(board)@),
{
    let ghost g0 = board@;
    proof {
        assert(board.cells@.len() == 9);
        assert(g0[r as int] == cells_view(board.cells@[r as int]@));
        assert(board.cells@[r as int]@.len() == 9);
    }
    let ghost cells0 = board.cells@;
    let ghost orow = board.cells@[r as int]@;
    let mut row = board.cells.remove(r);
    row.remove(c);
    row.insert(c, cell);
    proof {
        assert forall|l: int| 0 <= l < 9 implies row@[l] == orow.update(c as int, cell)[l] by {
            if l < c {
                assert(row@[l] == orow.remove(c as int)[l]);
                assert(orow.remove(c as int)[l] == orow[l]);
            } else if l == c {
            } else {
                assert(row@[l] == orow.remove(c as int)[l - 1]);
                assert(orow.remove(c as int)[l - 1] == orow[l]);
            }
        }
        assert(row@ =~= orow.update(c as int, cell));
    }
    let ghost rowview = row@;
    board.cells.insert(r, row);
    proof {
        let gu = grid_update(g0, r as int, c as int, cell@);
        assert forall|k: int| 0 <= k < 9 && k != r implies board.cells@[k] == cells0[k] by {
            if k < r {
                assert(board.cells@[k] == cells0.remove(r as int)[k]);
                assert(cells0.remove(r as int)[k] == cells0[k]);
            } else {
                assert(board.cells@[k] == cells0.remove(r as int)[k - 1]);
                assert(cells0.remove(r as int)[k - 1] == cells0[k]);
            }
        }
        assert(board.cells@[r as int] == row);
        assert forall|k: int| 0 <= k < 9 implies board@[k] == gu[k] by {
            assert(board@[k] == cells_view(board.cells@[k]@));
            if k == r {
                assert(board.cells@[k]@ == rowview);
                assert forall|l: int| 0 <= l < 9 implies cells_view(rowview)[l] == g0[r as int].update(
                    c as int,
                    cell@,
                )[l] by {
                    if l != c {
                        assert(rowview[l] == orow[l]);
                        assert(g0[r as int][l] == orow[l]@);
                    }
                }
                assert(cells_view(rowview) =~= g0[r as int].update(c as int, cell@));
                assert(gu[k] == g0[r as int].update(c as int, cell@));
            } else {
                assert(g0[k] == cells_view(cells0[k]@));
                assert(gu[k] == g0[k]);
            }
        }
        assert(board@ =~= gu);
    }
}

/// Whether some cell that (r, c) sees holds the same value as (r, c) itself.
fn conflict_check(board: &Board, r: usize, c: usize) -> (found: bool)
    requires
        grid_dims(board@),
        r < 9,
        c < 9,
    ensures
        found == conflict_at(board@, r as int, c as int),
{
    let ghost g = board@;
    let mut found = false;
    let mut i: usize = 0;
    while i < 9
        invariant
            g == board@,
            grid_dims(g),
            r < 9,
            c < 9,
            i <= 9,
            found ==> conflict_at(g, r as int, c as int),
            !found ==> forall|a: int, b: int|
                0 <= a < i && 0 <= b < 9 ==> !(sees(r as int, c as int, a, b) && (#[trigger] g[a][b]).value
                    == g[r as int][c as int].value),
        decreases 9 - i,
    {
        let mut j: usize = 0;
        while j < 9
            invariant
                g == board@,
                grid_dims(g),
                r < 9,
                c < 9,
                i < 9,
                j <= 9,
                found ==> conflict_at(g, r as int, c as int),
                !found ==> forall|a: int, b: int|
                    0 <= a < i && 0 <= b < 9 ==> !(sees(r as int, c as int, a, b) && (
                    #[trigger] g[a][b]).value == g[r as int][c as int].value),
                !found ==> forall|b: int|
                    0 <= b < j ==> !(sees(r as int, c as int, i as int, b) && (
                    #[trigger] g[i as int][b]).value == g[r as int][c as int].value),
            decreases 9 - j,
        {
            proof {
                assert(board.cells@.len() == 9);
                assert(g[i as int] == cells_view(board.cells@[i as int]@));
                assert(board.cells@[i as int]@.len() == 9);
                assert(g[r as int] == cells_view(board.cells@[r as int]@));
                assert(board.cells@[r as int]@.len() == 9);
                assert(g[i as int][j as int] == board.cells@[i as int]@[j as int]@);
                assert(g[r as int][c as int] == board.cells@[r as int]@[c as int]@);
            }
            let same_pos = i == r && j == c;
            let same_unit = i == r || j == c || (i / 3 == r / 3 && j / 3 == c / 3);
            if !same_pos && same_unit {
                let v1 = board.cells[i][j].value;
                let v2 = board.cells[r][c].value;
                if v1 == v2 {
                    proof {
                        assert(sees(r as int, c as int, i as int, j as int));
                        assert(g[i as int][j as int].value == g[r as int][c as int].value);
                        assert(conflict_at(g, r as int, c as int));
                    }
                    found = true;
                }
            }
            j = j + 1;
        }
        i = i + 1;
    }
    proof {
        if !found && conflict_at(g, r as int, c as int) {
            let (a, b) = choose|a: int, b: int|
                0 <= a < 9 && 0 <= b < 9 && sees(r as int, c as int, a, b) && (
                #[trigger] g[a][b]).value == g[r as int][c as int].value;
            assert(!(sees(r as int, c as int, a, b) && g[a][b].value
                == g[r as int][c as int].value));
        }
    }
    found
}

/// Clear the selected cell, as Backspace or Delete do: a non-original cell
/// holding a number is emptied and its conflict flag cleared; any other
/// cell, original cells above all, is left exactly as it was.
pub fn apply_erase(board: &mut Board, sel: Selection)
    requires
        grid_dims(old(board)@),
        sel.row < 9,
        sel.col < 9,
    ensures
        grid_dims(final(board)@),
        ({
            let oc = old(board)@[sel.row as int][sel.col as int];
            if !oc.is_original && oc.value is Number {
                final(board)@ == grid_update(
                    old(board)@,
                    sel.row as int,
                    sel.col as int,
                    (CellView {
                        value: CellValue::Empty,
                        hints: oc.hints,
                        is_original: oc.is_original,
                        is_invalid: false,
                    }),
                )
            } else {
                final(board)@ == old(board)@
            }
        }),
{
    let r = sel.row as usize;
    let c = sel.col as usize;
    proof {
        assert(board.cells@.len() == 9);
        assert(board@[r as int] == cells_view(board.cells@[r as int]@));
        assert(board.cells@[r as int]@.len() == 9);
        assert(board@[r as int][c as int] == board.cells@[r as int]@[c as int]@);
    }
    let is_orig = board.cells[r][c].is_original;
    let has_number = match board.cells[r][c].value {
        CellValue::Number(_) => true,
        CellValue::Empty => false,
    };
    if !is_orig && has_number {
        let mut cell = board.cells[r][c].clone();
        cell.value = CellValue::Empty;
        cell.is_invalid = false;
        put_cell(board, r, c, cell);
    }
}

/// Apply a typed digit 1-9 to the selected cell. An original cell never
/// changes. On a committed selection the digit replaces the cell's value,
/// the cell's conflict flag is re-derived, and the result says whether the
/// board is solved now; on an uncommitted selection the digit is toggled as
/// a pencil-mark instead, and the result is false.
pub fn apply_digit(board: &mut Board, sel: Selection, digit: u8) -> (solved: bool)
    requires
        grid_wf(old(board)@),
        1 <= digit <= 9,
        sel.row < 9,
        sel.col < 9,
    ensures
        grid_wf(final(board)@),
        ({
            let oc = old(board)@[sel.row as int][sel.col as int];
            let r = sel.row as int;
            let c = sel.col as int;
            &&& oc.is_original ==> final(board)@ == old(board)@ && !solved
            &&& !oc.is_original && sel.committed ==> final(board)@ == grid_update(
                old(board)@,
                r,
                c,
                digit_entry_cell(old(board)@, r, c, digit),
            ) && solved == grid_solved(final(board)@)
            &&& !oc.is_original && !sel.committed ==> {
                &&& !solved
                &&& final(board)@[r][c].value == oc.value
                &&& final(board)@[r][c].is_original == oc.is_original
                &&& final(board)@[r][c].is_invalid == oc.is_invalid
                &&& hint_toggled(oc.hints, final(board)@[r][c].hints, digit)
                &&& forall|a: int, b: int|
                    0 <= a < 9 && 0 <= b < 9 && !(a == r && b == c)
                        ==> final(board)@[a][b] == old(board)@[a][b]
            }
        }),
{
    let ghost g0 = board@;
    let r = sel.row as usize;
    let c = sel.col as usize;
    proof {
        assert(board.cells@.len() == 9);
        assert(g0[r as int] == cells_view(board.cells@[r as int]@));
        assert(board.cells@[r as int]@.len() == 9);
        assert(g0[r as int][c as int] == board.cells@[r as int]@[c as int]@);
        assert(g0[r as int][c as int].wf());
    }
    if board.cells[r][c].is_original {
        return false;
    }
    if sel.committed {
        let mut cell = board.cells[r][c].clone();
        cell.value = CellValue::Number(digit);
        let ghost placed = cell@;
        put_cell(board, r, c, cell);
        let ghost g1 = board@;
        let conf = conflict_check(board, r, c);
        proof {
            assert(board.cells@.len() == 9);
            assert(g1[r as int] == cells_view(board.cells@[r as int]@));
            assert(board.cells@[r as int]@.len() == 9);
            assert(g1[r as int][c as int] == board.cells@[r as int]@[c as int]@);
            assert(g1[r as int][c as int] == placed);
        }
        let mut cell2 = board.cells[r][c].clone();
        cell2.is_invalid = conf;
        proof {
            assert(cell2@ == digit_entry_cell(g0, r as int, c as int, digit));
        }
        put_cell(board, r, c, cell2);
        proof {
            let gu = grid_update(g0, r as int, c as int, cell2@);
            assert(g1[r as int].update(c as int, cell2@) =~= g0[r as int].update(
                c as int,
                cell2@,
            ));
            assert(board@ =~= gu);
            assert forall|a: int, b: int| 0 <= a < 9 && 0 <= b < 9 implies (
            #[trigger] board@[a][b]).wf() by {
                if a == r && b == c {
                    assert(board@[a][b] == cell2@);
                } else {
                    assert(board@[a][b] == g0[a][b]);
                    assert(g0[a][b].wf());
                }
            }
        }
        let now_solved = board.is_solved();
        now_solved
    } else {
        let mut cell = board.cells[r][c].clone();
        cell.add_hint(digit);
        put_cell(board, r, c, cell);
        proof {
            assert forall|a: int, b: int| 0 <= a < 9 && 0 <= b < 9 implies (
            #[trigger] board@[a][b]).wf() by {
                if !(a == r && b == c) {
                    assert(board@[a][b] == g0[a][b]);
                    assert(g0[a][b].wf());
                }
            }
        }
        false
    }
}

/// Handle a pointer release at (x, y) for cells `cell_size` pixels wide.
/// A second click on the uncommitted selection commits it; a click on a
/// non-original cell selects it fresh and uncommitted; a click anywhere
/// else, original cells and the space between cells included, clears the
/// selection. A selection never comes to rest on an original cell.
pub fn select_cell(
    prev: Option<Selection>,
    board: &Board,
    x: i32,
    y: i32,
    cell_size: i32,
) -> (r: Option<Selection>)
    requires
        grid_dims(board@),
        0 <= cell_size <= 200_000_000,
    ensures
        (forall|i: int, j: int|
            0 <= i < 9 && 0 <= j < 9 ==> !point_in_cell(
                x as int,
                y as int,
                i,
                j,
                cell_size as int,
            )) ==> r is None,
        forall|i: int, j: int|
            0 <= i < 9 && 0 <= j < 9 && point_in_cell(x as int, y as int, i, j, cell_size as int)
                ==> r == selection_after_hit(prev, board@, i, j),
        opt_selection_ok(board@, prev) ==> opt_selection_ok(board@, r),
{
    match locate_cell(x, y, cell_size) {
        None => None,
        Some(p) => {
            let j = p.0;
            let i = p.1;
            proof {
                assert forall|i2: int, j2: int|
                    0 <= i2 < 9 && 0 <= j2 < 9 && point_in_cell(
                        x as int,
                        y as int,
                        i2,
                        j2,
                        cell_size as int,
                    ) implies i2 == i as int && j2 == j as int by {
                    lemma_hit_cell_unique(
                        x as int,
                        y as int,
                        i2,
                        j2,
                        i as int,
                        j as int,
                        cell_size as int,
                    );
                }
            }
            let hit_prev_uncommitted = match prev {
                Some(p2) => p2.col == j && p2.row == i && !p2.committed,
                None => false,
            };
            if hit_prev_uncommitted {
                Some(Selection { col: j, row: i, committed: true })
            } else {
                proof {
                    assert(board.cells@.len() == 9);
                    assert(board@[i as int] == cells_view(board.cells@[i as int]@));
                    assert(board.cells@[i as int]@.len() == 9);
                    assert(board@[i as int][j as int] == board.cells@[i as int]@[j as int]@);
                }
                if !board.cells[i as usize][j as usize].is_original {
                    Some(Selection { col: j, row: i, committed: false })
                } else {
                    None
                }
            }
        },
    }
}

/// The puzzle path rule the startup sequence enforces: the path must be
/// non-empty and hold only single-byte (ASCII) characters.
pub fn path_acceptable(path: &str) -> (r: bool)
    ensures
        r == (path@.len() > 0 && vstd::string::is_ascii(path)),
{
    !path.is_empty() && path.is_ascii()
}

} // verus!
