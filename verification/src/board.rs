use vstd::prelude::*;

verus! {

use vstd::string::StringExecFns;
use crate::cell::{Cell, CellValue, CellView, cell_has_digit, digit_char, digit_str};

/// The mathematical content of a run of cells.
pub open spec fn cells_view(v: Seq<Cell>) -> Seq<CellView> {
    v.map_values(|c: Cell| c@)
}

/// Nine rows of nine cells.
pub open spec fn grid_dims(g: Seq<Seq<CellView>>) -> bool {
    &&& g.len() == 9
    &&& forall|i: int| 0 <= i < 9 ==> (#[trigger] g[i]).len() == 9
}

/// Dimensions hold and every cell is well formed.
pub open spec fn grid_wf(g: Seq<Seq<CellView>>) -> bool {
    &&& grid_dims(g)
    &&& forall|i: int, j: int| 0 <= i < 9 && 0 <= j < 9 ==> (#[trigger] g[i][j]).wf()
}

/// The nine cells of row `i`, left to right.
pub open spec fn row_of(g: Seq<Seq<CellView>>, i: int) -> Seq<CellView> {
    g[i]
}

/// The nine cells of column `j`, top to bottom.
pub open spec fn col_of(g: Seq<Seq<CellView>>, j: int) -> Seq<CellView> {
    Seq::new(9, |i: int| g[i][j])
}

/// The nine cells of the 3x3 box `k`, row-major; boxes are numbered row-major
/// themselves, so box `k` starts at row `(k / 3) * 3`, column `(k % 3) * 3`.
pub open spec fn box_of(g: Seq<Seq<CellView>>, k: int) -> Seq<CellView> {
    Seq::new(9, |m: int| g[(k / 3) * 3 + m / 3][(k % 3) * 3 + m % 3])
}

/// How many cells of the group hold exactly the digit `d`.
pub open spec fn digit_count(s: Seq<CellView>, d: u8) -> nat
    decreases s.len(),
{
    if s.len() == 0 {
        0
    } else {
        digit_count(s.drop_last(), d) + (if cell_has_digit(s.last(), d) {
            1nat
        } else {
            0nat
        })
    }
}

/// A row, column or box is complete when each digit 1-9 appears exactly once.
pub open spec fn group_complete(s: Seq<CellView>) -> bool {
    forall|d: u8| 1 <= d <= 9 ==> #[trigger] digit_count(s, d) == 1
}

/// No cell of the grid is empty.
pub open spec fn all_cells_filled(g: Seq<Seq<CellView>>) -> bool {
    forall|i: int, j: int| 0 <= i < 9 && 0 <= j < 9 ==> (#[trigger] g[i][j]).value is Number
}

/// Solved: every cell holds a number, and every row, column and box contains
/// each digit 1-9 exactly once.
pub open spec fn grid_solved(g: Seq<Seq<CellView>>) -> bool {
    &&& all_cells_filled(g)
    &&& forall|k: int| 0 <= k < 9 ==> group_complete(#[trigger] row_of(g, k))
    &&& forall|k: int| 0 <= k < 9 ==> group_complete(#[trigger] col_of(g, k))
    &&& forall|k: int| 0 <= k < 9 ==> group_complete(#[trigger] box_of(g, k))
}

/// The grid with the cell at row `r`, column `c` replaced.
pub open spec fn grid_update(g: Seq<Seq<CellView>>, r: int, c: int, cell: CellView) -> Seq<
    Seq<CellView>,
> {
    g.update(r, g[r].update(c, cell))
}

/// A puzzle character: `.` for an empty cell, or a digit 1-9.
pub open spec fn valid_cell_char(ch: char) -> bool {
    ch == '.' || char_digit(ch) != 0
}

/// The digit a puzzle character stands for, or 0 when it stands for none.
pub open spec fn char_digit(ch: char) -> u8 {
    if ch == '1' {
        1
    } else if ch == '2' {
        2
    } else if ch == '3' {
        3
    } else if ch == '4' {
        4
    } else if ch == '5' {
        5
    } else if ch == '6' {
        6
    } else if ch == '7' {
        7
    } else if ch == '8' {
        8
    } else if ch == '9' {
        9
    } else {
        0
    }
}

/// The cell value a puzzle character stands for.
pub open spec fn parsed_value(ch: char) -> CellValue {
    if ch == '.' {
        CellValue::Empty
    } else {
        CellValue::Number(char_digit(ch))
    }
}

/// The freshly parsed cell for a puzzle character: pre-filled characters make
/// original cells, nothing starts with pencil-marks or a conflict flag.
pub open spec fn parsed_cell(ch: char) -> CellView {
    CellView {
        value: parsed_value(ch),
        hints: Seq::<u8>::empty(),
        is_original: ch != '.',
        is_invalid: false,
    }
}

/// The rows of characters, as mathematics.
pub open spec fn rows_view(rows: Seq<Vec<char>>) -> Seq<Seq<char>> {
    rows.map_values(|r: Vec<char>| r@)
}

/// The input has nine lines of nine characters each.
pub open spec fn input_dims_ok(rows: Seq<Seq<char>>) -> bool {
    &&& rows.len() == 9
    &&& forall|i: int| 0 <= i < 9 ==> (#[trigger] rows[i]).len() == 9
}

/// Every input character is `.` or a digit 1-9.
pub open spec fn input_chars_ok(rows: Seq<Seq<char>>) -> bool {
    forall|i: int, j: int|
        0 <= i < rows.len() && 0 <= j < rows[i].len() ==> valid_cell_char(#[trigger] rows[i][j])
}

/// Parsing succeeds exactly on well-dimensioned, well-lettered input.
pub open spec fn parse_ok(rows: Seq<Seq<char>>) -> bool {
    input_dims_ok(rows) && input_chars_ok(rows)
}

/// The grid that a valid input parses to, cell by cell.
pub open spec fn parsed_grid(rows: Seq<Seq<char>>, g: Seq<Seq<CellView>>) -> bool {
    &&& grid_dims(g)
    &&& forall|i: int, j: int| 0 <= i < 9 && 0 <= j < 9 ==> #[trigger] g[i][j] == parsed_cell(
        rows[i][j],
    )
}

/// The dashed horizontal rule of the text drawing.
pub open spec fn rule_line() -> Seq<char> {
    Seq::new(13, |k: int| '-')
}

/// The character that draws a cell value: `.` when empty, else its digit.
pub open spec fn value_char(v: CellValue) -> char {
    match v {
        CellValue::Empty => '.',
        CellValue::Number(n) => digit_char(n),
    }
}

/// The text drawing of the first `j` cells of a row, with the leading `|` and
/// a `|` after every third cell.
pub open spec fn row_render_upto(row: Seq<CellView>, j: int) -> Seq<char>
    decreases j,
{
    if j <= 0 {
        seq!['|']
    } else {
        row_render_upto(row, j - 1) + seq![value_char(row[j - 1].value)] + (if j % 3 == 0 {
            seq!['|']
        } else {
            Seq::<char>::empty()
        })
    }
}

/// The text drawing of one whole row.
pub open spec fn row_render(row: Seq<CellView>) -> Seq<char> {
    row_render_upto(row, 9)
}

/// The text drawing of the rule and the first `i` rows, with another rule
/// after every third row.
pub open spec fn grid_render_upto(g: Seq<Seq<CellView>>, i: int) -> Seq<char>
    decreases i,
{
    if i <= 0 {
        rule_line() + seq!['\n']
    } else {
        grid_render_upto(g, i - 1) + row_render(g[i - 1]) + (if i % 3 == 0 {
            seq!['\n'] + rule_line()
        } else {
            Seq::<char>::empty()
        }) + seq!['\n']
    }
}

/// The whole diagnostic text drawing of a grid.
pub open spec fn grid_render(g: Seq<Seq<CellView>>) -> Seq<char> {
    grid_render_upto(g, 9)
}

/// The 9x9 grid of cells, row-major.
pub struct Board {
    pub cells: Vec<Vec<Cell>>,
}

impl View for Board {
    type V = Seq<Seq<CellView>>;

    open spec fn view(&self) -> Seq<Seq<CellView>> {
        self.cells@.map_values(|r: Vec<Cell>| cells_view(r@))
    }
}

impl Board {
    /// Parse rows of puzzle characters. `.` is an empty cell, `1`-`9` a given
    /// digit; a given digit marks its cell original. Input that is not nine
    /// lines of nine characters, or holds any other character (`0` included),
    /// is rejected whole.
    pub fn new(cells: Vec<Vec<char>>) -> (r: Result<Board, String>)
        ensures
            r is Ok <==> parse_ok(rows_view(cells@)),
            r matches Ok(b) ==> parsed_grid(rows_view(cells@), b@) && grid_wf(b@),
            !input_dims_ok(rows_view(cells@)) ==> (r matches Err(m) && m@
                == "Invalid board dimensions in input file"@),
            input_dims_ok(rows_view(cells@)) && !input_chars_ok(rows_view(cells@))
                ==> (r matches Err(m) && m@ == "Invalid character in input file"@),
    {
        let ghost rows = rows_view(cells@);
        proof {
            assert(rows.len() == cells@.len());
        }
        if cells.len() != 9 {
            return Err("Invalid board dimensions in input file".to_owned());
        }
        let mut i: usize = 0;
        while i < 9
            invariant
                rows == rows_view(cells@),
                cells@.len() == 9,
                i <= 9,
                forall|k: int| 0 <= k < i ==> (#[trigger] rows[k]).len() == 9,
            decreases 9 - i,
        {
            proof {
                assert(rows[i as int] == cells@[i as int]@);
            }
            if cells[i].len() != 9 {
                return Err("Invalid board dimensions in input file".to_owned());
            }
            i = i + 1;
        }
        let mut grid: Vec<Vec<Cell>> = Vec::new();
        let mut i: usize = 0;
        while i < 9
            invariant
                rows == rows_view(cells@),
                cells@.len() == 9,
                forall|k: int| 0 <= k < 9 ==> (#[trigger] rows[k]).len() == 9,
                i <= 9,
                grid@.len() == i,
                forall|k: int, l: int|
                    0 <= k < i && 0 <= l < 9 ==> valid_cell_char(#[trigger] rows[k][l]),
                forall|k: int| 0 <= k < i ==> (#[trigger] grid@[k])@.len() == 9,
                forall|k: int, l: int|
                    0 <= k < i && 0 <= l < 9 ==> (#[trigger] grid@[k]@[l])@ == parsed_cell(
                        rows[k][l],
                    ),
            decreases 9 - i,
        {
            let mut out_row: Vec<Cell> = Vec::new();
            let mut j: usize = 0;
            while j < 9
                invariant
                    rows == rows_view(cells@),
                    cells@.len() == 9,
                    forall|k: int| 0 <= k < 9 ==> (#[trigger] rows[k]).len() == 9,
                    i < 9,
                    j <= 9,
                    out_row@.len() == j,
                    forall|l: int| 0 <= l < j ==> valid_cell_char(#[trigger] rows[i as int][l]),
                    forall|l: int|
                        0 <= l < j ==> (#[trigger] out_row@[l])@ == parsed_cell(rows[i as int][l]),
                decreases 9 - j,
            {
                let ch = cells[i][j];
                proof {
                    assert(rows[i as int] == cells@[i as int]@);
                    assert(ch == rows[i as int][j as int]);
                }
                if ch == '.' {
                    out_row.push(Cell::new(CellValue::Empty, false));
                    proof {
                        assert(out_row@[j as int]@ == parsed_cell(ch));
                    }
                } else {
                    let d: u8 = match ch {
                        '1' => 1,
                        '2' => 2,
                        '3' => 3,
                        '4' => 4,
                        '5' => 5,
                        '6' => 6,
                        '7' => 7,
                        '8' => 8,
                        '9' => 9,
                        _ => 0,
                    };
                    if d == 0 {
                        return Err("Invalid character in input file".to_owned());
                    }
                    out_row.push(Cell::new(CellValue::Number(d), true));
                    proof {
                        assert(d == char_digit(ch));
                        assert(valid_cell_char(ch));
                        assert(out_row@[j as int]@ == parsed_cell(ch));
                    }
                }
                j = j + 1;
            }
            grid.push(out_row);
            i = i + 1;
        }
        let b = Board { cells: grid };
        proof {
            assert forall|k: int, l: int| 0 <= k < 9 && 0 <= l < 9 implies #[trigger] b@[k][l]
                == parsed_cell(rows[k][l]) by {
                assert(b@[k] == cells_view(grid@[k]@));
            }
            assert forall|k: int| 0 <= k < 9 implies (#[trigger] b@[k]).len() == 9 by {
                assert(b@[k] == cells_view(grid@[k]@));
            }
        }
        Ok(b)
    }

    /// The board is solved exactly when no cell is empty and every row,
    /// column and box holds each digit 1-9 exactly once.
    pub fn is_solved(&self) -> (r: bool)
        requires
            grid_dims(self@),
        ensures
            r == grid_solved(self@),
    {
        let ghost g = self@;
        let mut i: usize = 0;
        while i < 9
            invariant
                g == self@,
                grid_dims(g),
                i <= 9,
                forall|a: int, b: int|
                    0 <= a < i && 0 <= b < 9 ==> (#[trigger] g[a][b]).value is Number,
            decreases 9 - i,
        {
            let mut j: usize = 0;
            while j < 9
                invariant
                    g == self@,
                    grid_dims(g),
                    i < 9,
                    j <= 9,
                    forall|b: int| 0 <= b < j ==> (#[trigger] g[i as int][b]).value is Number,
                decreases 9 - j,
            {
                proof {
                    assert(self.cells@.len() == 9);
                    assert(g[i as int] == cells_view(self.cells@[i as int]@));
                    assert(self.cells@[i as int]@.len() == 9);
                    assert(g[i as int][j as int] == self.cells@[i as int]@[j as int]@);
                }
                let empty = match self.cells[i][j].value {
                    CellValue::Empty => true,
                    CellValue::Number(_) => false,
                };
                if empty {
                    return false;
                }
                j = j + 1;
            }
            i = i + 1;
        }
        let mut k: usize = 0;
        while k < 9
            invariant
                g == self@,
                grid_dims(g),
                all_cells_filled(g),
                k <= 9,
                forall|t: int| 0 <= t < k ==> group_complete(#[trigger] row_of(g, t)),
                forall|t: int| 0 <= t < k ==> group_complete(#[trigger] col_of(g, t)),
                forall|t: int| 0 <= t < k ==> group_complete(#[trigger] box_of(g, t)),
            decreases 9 - k,
        {
            let row = self.get_row(k).unwrap();
            if !group_complete_check(&row) {
                return false;
            }
            let col = self.get_col(k).unwrap();
            if !group_complete_check(&col) {
                return false;
            }
            let square = self.get_square(k).unwrap();
            if !group_complete_check(&square) {
                return false;
            }
            k = k + 1;
        }
        true
    }

    /// The nine cells of row `idx`, or nothing when the index is out of range.
    pub fn get_row(&self, idx: usize) -> (r: Option<Vec<Cell>>)
        requires
            grid_dims(self@),
        ensures
            idx < 9 ==> (r matches Some(v) && cells_view(v@) == row_of(self@, idx as int)),
            idx >= 9 ==> r is None,
    {
        if idx >= self.cells.len() {
            return None;
        }
        let v = self.cells[idx].clone();
        proof {
            assert forall|k: int| 0 <= k < v@.len() implies v@[k]@
                == self.cells@[idx as int]@[k]@ by {}
            assert(cells_view(v@) =~= row_of(self@, idx as int));
        }
        Some(v)
    }

    /// The nine cells of column `idx`, top to bottom; only indices strictly
    /// below the row length are in range.
    pub fn get_col(&self, idx: usize) -> (r: Option<Vec<Cell>>)
        requires
            grid_dims(self@),
        ensures
            idx < 9 ==> (r matches Some(v) && cells_view(v@) == col_of(self@, idx as int)),
            idx >= 9 ==> r is None,
    {
        if idx >= 9 {
            return None;
        }
        let mut v: Vec<Cell> = Vec::new();
        let mut i: usize = 0;
        while i < 9
            invariant
                grid_dims(self@),
                idx < 9,
                i <= 9,
                v@.len() == i,
                forall|k: int| 0 <= k < i ==> (#[trigger] v@[k])@ == self@[k][idx as int],
            decreases 9 - i,
        {
            proof {
                assert(self.cells@.len() == 9);
                assert(self@[i as int] == cells_view(self.cells@[i as int]@));
                assert(self.cells@[i as int]@.len() == 9);
            }
            v.push(self.cells[i][idx].clone());
            i = i + 1;
        }
        proof {
            assert(cells_view(v@) =~= col_of(self@, idx as int));
        }
        Some(v)
    }

    /// The nine cells of the 3x3 box `idx` (0-8, numbered row-major), or
    /// nothing when the index is out of range.
    pub fn get_square(&self, idx: usize) -> (r: Option<Vec<Cell>>)
        requires
            grid_dims(self@),
        ensures
            idx <= 8 ==> (r matches Some(v) && cells_view(v@) == box_of(self@, idx as int)),
            idx > 8 ==> r is None,
    {
        if idx > 8 {
            return None;
        }
        let base_r = (idx / 3) * 3;
        let base_c = (idx % 3) * 3;
        let mut v: Vec<Cell> = Vec::new();
        let mut m: usize = 0;
        while m < 9
            invariant
                grid_dims(self@),
                idx <= 8,
                base_r == (idx as int / 3) * 3,
                base_c == (idx as int % 3) * 3,
                m <= 9,
                v@.len() == m,
                forall|k: int|
                    0 <= k < m ==> (#[trigger] v@[k])@ == self@[(idx as int / 3) * 3 + k / 3][(
                    idx as int % 3) * 3 + k % 3],
            decreases 9 - m,
        {
            proof {
                assert(self.cells@.len() == 9);
                assert(base_r + m / 3 < 9);
                assert(self@[base_r + m / 3] == cells_view(self.cells@[base_r + m / 3]@));
                assert(self.cells@[base_r + m / 3]@.len() == 9);
            }
            v.push(self.cells[base_r + m / 3][base_c + m % 3].clone());
            m = m + 1;
        }
        proof {
            assert(cells_view(v@) =~= box_of(self@, idx as int));
        }
        Some(v)
    }

    /// The human-readable text drawing of the grid: a dashed rule above the
    /// grid and after every third row, `|` at both edges and after every third
    /// column, `.` for an empty cell and its digit otherwise.
    pub fn render_text(&self) -> (r: String)
        requires
            grid_wf(self@),
        ensures
            r@ == grid_render(self@),
    {
        let ghost g = self@;
        let mut out = String::new();
        out.append("-------------");
        out.append("\n");
        proof {
            reveal_strlit("-------------");
            reveal_strlit("\n");
            assert(out@ =~= grid_render_upto(g, 0));
        }
        let mut i: usize = 0;
        while i < 9
            invariant
                g == self@,
                grid_wf(g),
                i <= 9,
                out@ == grid_render_upto(g, i as int),
            decreases 9 - i,
        {
            out.append("|");
            proof {
                reveal_strlit("|");
                reveal_strlit("\n");
                reveal_strlit("-------------");
                assert(out@ =~= grid_render_upto(g, i as int) + row_render_upto(g[i as int], 0));
            }
            let mut j: usize = 0;
            while j < 9
                invariant
                    g == self@,
                    grid_wf(g),
                    i < 9,
                    j <= 9,
                    out@ == grid_render_upto(g, i as int) + row_render_upto(
                        g[i as int],
                        j as int,
                    ),
                decreases 9 - j,
            {
                proof {
                    assert(self.cells@.len() == 9);
                    assert(g[i as int] == cells_view(self.cells@[i as int]@));
                    assert(self.cells@[i as int]@.len() == 9);
                    assert(g[i as int][j as int] == self.cells@[i as int]@[j as int]@);
                    assert(g[i as int][j as int].wf());
                }
                match self.cells[i][j].value {
                    CellValue::Empty => {
                        out.append(".");
                        proof {
                            reveal_strlit(".");
                        }
                    },
                    CellValue::Number(n) => {
                        out.append(digit_str(n));
                    },
                }
                if (j + 1) % 3 == 0 {
                    out.append("|");
                    proof {
                        reveal_strlit("|");
                    }
                }
                proof {
                    assert(out@ =~= grid_render_upto(g, i as int) + row_render_upto(
                        g[i as int],
                        j as int + 1,
                    ));
                }
                j = j + 1;
            }
            if (i + 1) % 3 == 0 {
                out.append("\n");
                out.append("-------------");
                proof {
                    reveal_strlit("\n");
                    reveal_strlit("-------------");
                }
            }
            out.append("\n");
            proof {
                assert(out@ =~= grid_render_upto(g, i as int + 1));
            }
            i = i + 1;
        }
        out
    }
}

/// Each digit 1-9 must be found exactly once in the given nine cells.
fn group_complete_check(v: &Vec<Cell>) -> (r: bool)
    ensures
        r == group_complete(cells_view(v@)),
{
    let ghost s = cells_view(v@);
    let mut d: u8 = 1;
    while d <= 9
        invariant
            s == cells_view(v@),
            1 <= d <= 10,
            forall|e: u8| 1 <= e < d ==> #[trigger] digit_count(s, e) == 1,
        decreases 10 - d,
    {
        let mut cnt: usize = 0;
        let mut idx: usize = 0;
        while idx < v.len()
            invariant
                s == cells_view(v@),
                idx <= v@.len(),
                cnt <= idx,
                cnt == digit_count(s.take(idx as int), d),
            decreases v@.len() - idx,
        {
            let hit = match v[idx].value {
                CellValue::Number(n) => n == d,
                CellValue::Empty => false,
            };
            proof {
                assert(s.take(idx as int + 1).drop_last() =~= s.take(idx as int));
                assert(s.take(idx as int + 1).last() == s[idx as int]);
            }
            if hit {
                cnt = cnt + 1;
            }
            idx = idx + 1;
        }
        proof {
            assert(s.take(v@.len() as int) =~= s);
        }
        if cnt != 1 {
            return false;
        }
        d = d + 1;
    }
    true
}

/// A group in which some position holds `d` counts `d` at least once.
proof fn lemma_digit_count_at_least_one(s: Seq<CellView>, d: u8, k: int)
    requires
        0 <= k < s.len(),
        cell_has_digit(s[k], d),
    ensures
        digit_count(s, d) >= 1,
    decreases s.len(),
{
    if k == s.len() - 1 {
    } else {
        assert(s.drop_last()[k] == s[k]);
        lemma_digit_count_at_least_one(s.drop_last(), d, k);
    }
}

/// Two distinct positions holding `d` put the count of `d` at two or more.
proof fn lemma_digit_count_at_least_two(s: Seq<CellView>, d: u8, k1: int, k2: int)
    requires
        0 <= k1 < k2 < s.len(),
        cell_has_digit(s[k1], d),
        cell_has_digit(s[k2], d),
    ensures
        digit_count(s, d) >= 2,
    decreases s.len(),
{
    if k2 == s.len() - 1 {
        lemma_digit_count_at_least_one(s.drop_last(), d, k1);
    } else {
        assert(s.drop_last()[k1] == s[k1]);
        assert(s.drop_last()[k2] == s[k2]);
        lemma_digit_count_at_least_two(s.drop_last(), d, k1, k2);
    }
}

/// On a solved board, writing into a non-original cell a digit that its row
/// already holds elsewhere leaves the board unsolved: that row then counts
/// the digit twice, so the row's completeness check fails.
pub proof fn lemma_row_duplicate_breaks_solved(
    g: Seq<Seq<CellView>>,
    r: int,
    c: int,
    c2: int,
    d: u8,
    cell: CellView,
)
    requires
        grid_dims(g),
        grid_solved(g),
        0 <= r < 9,
        0 <= c < 9,
        0 <= c2 < 9,
        c != c2,
        !g[r][c].is_original,
        1 <= d <= 9,
        cell_has_digit(g[r][c2], d),
        cell.value == CellValue::Number(d),
    ensures
        !grid_solved(grid_update(g, r, c, cell)),
{
    let g2 = grid_update(g, r, c, cell);
    let row2 = row_of(g2, r);
    assert(row2 == g[r].update(c, cell));
    assert(row2[c] == cell);
    assert(row2[c2] == g[r][c2]);
    assert(row2.len() == 9);
    if c < c2 {
        lemma_digit_count_at_least_two(row2, d, c, c2);
    } else {
        lemma_digit_count_at_least_two(row2, d, c2, c);
    }
    assert(digit_count(row_of(g2, r), d) >= 2);
    assert(!group_complete(row_of(g2, r)));
}

} // verus!
