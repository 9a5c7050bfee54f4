use vstd::prelude::*;

verus! {

use vstd::string::StringExecFns;

/// What one board position holds: nothing yet, or a digit.
#[derive(Clone, Copy, Debug, PartialEq, Eq, Structural)]
pub enum CellValue {
    Empty,
    Number(u8),
}

/// A position's content stays inside the Sudoku alphabet: empty, or a digit 1-9.
pub open spec fn value_in_range(v: CellValue) -> bool {
    v matches CellValue::Number(n) ==> 1 <= n <= 9
}

/// The cell currently holds exactly the digit `d`.
pub open spec fn cell_has_digit(c: CellView, d: u8) -> bool {
    c.value == CellValue::Number(d)
}

/// Pencil-marks are kept strictly increasing: ascending order, no duplicates.
pub open spec fn hints_sorted(h: Seq<u8>) -> bool {
    forall|i: int, j: int| 0 <= i < j < h.len() ==> h[i] < h[j]
}

/// Every pencil-mark is a digit 1-9.
pub open spec fn hints_in_range(h: Seq<u8>) -> bool {
    forall|k: int| 0 <= k < h.len() ==> 1 <= #[trigger] h[k] <= 9
}

/// Membership after one toggle of `d`: `d` flips, every other digit is kept.
pub open spec fn hint_toggled(before: Seq<u8>, after: Seq<u8>, d: u8) -> bool {
    forall|x: u8|
        #![trigger after.contains(x)]
        #![trigger before.contains(x)]
        after.contains(x) <==> (if x == d {
            !before.contains(x)
        } else {
            before.contains(x)
        })
}

/// The character that renders the digit `d`.
pub open spec fn digit_char(d: u8) -> char {
    if d == 1 {
        '1'
    } else if d == 2 {
        '2'
    } else if d == 3 {
        '3'
    } else if d == 4 {
        '4'
    } else if d == 5 {
        '5'
    } else if d == 6 {
        '6'
    } else if d == 7 {
        '7'
    } else if d == 8 {
        '8'
    } else if d == 9 {
        '9'
    } else {
        ' '
    }
}

/// The comma-separated rendering of the first `j` pencil-marks.
pub open spec fn hints_render_upto(h: Seq<u8>, j: int) -> Seq<char>
    decreases j,
{
    if j <= 0 {
        Seq::empty()
    } else if j == 1 {
        seq![digit_char(h[0])]
    } else {
        hints_render_upto(h, j - 1) + seq![','] + seq![digit_char(h[j - 1])]
    }
}

/// The comma-separated rendering of a whole pencil-mark list.
pub open spec fn hints_render(h: Seq<u8>) -> Seq<char> {
    hints_render_upto(h, h.len() as int)
}

/// The mathematical value of one grid position, used by every contract.
pub ghost struct CellView {
    pub value: CellValue,
    pub hints: Seq<u8>,
    pub is_original: bool,
    pub is_invalid: bool,
}

impl CellView {
    /// A cell is well formed when its value is in the alphabet and its
    /// pencil-marks are ascending digits 1-9.
    pub open spec fn wf(self) -> bool {
        &&& value_in_range(self.value)
        &&& hints_sorted(self.hints)
        &&& hints_in_range(self.hints)
    }
}

/// One grid position: its value, the player's pencil-marks, whether it came
/// pre-filled from the puzzle file, and whether it is flagged as conflicting.
#[derive(Debug)]
pub struct Cell {
    pub value: CellValue,
    pub hints: Vec<u8>,
    pub is_original: bool,
    pub is_invalid: bool,
}

impl View for Cell {
    type V = CellView;

    open spec fn view(&self) -> CellView {
        CellView {
            value: self.value,
            hints: self.hints@,
            is_original: self.is_original,
            is_invalid: self.is_invalid,
        }
    }
}

impl Clone for Cell {
    fn clone(&self) -> (c: Self)
        ensures
            c@ == self@,
    {
        let hints = self.hints.clone();
        proof {
            assert(hints@ =~= self.hints@);
        }
        Cell {
            value: self.value,
            hints,
            is_original: self.is_original,
            is_invalid: self.is_invalid,
        }
    }
}

impl Cell {
    pub fn new(value: CellValue, is_original: bool) -> (c: Cell)
        ensures
            c@ == (CellView {
                value: value,
                hints: Seq::<u8>::empty(),
                is_original: is_original,
                is_invalid: false,
            }),
    {
        let c = Cell { value, hints: Vec::new(), is_original, is_invalid: false };
        proof {
            assert(c.hints@ =~= Seq::<u8>::empty());
        }
        c
    }

    /// Toggle the pencil-mark `hint`: remove it when present, otherwise insert
    /// it at its ascending position.
    pub fn add_hint(&mut self, hint: u8)
        requires
            1 <= hint <= 9,
            hints_sorted(old(self).hints@),
            hints_in_range(old(self).hints@),
        ensures
            final(self)@.value == old(self)@.value,
            final(self)@.is_original == old(self)@.is_original,
            final(self)@.is_invalid == old(self)@.is_invalid,
            hints_sorted(final(self)@.hints),
            hints_in_range(final(self)@.hints),
            hint_toggled(old(self)@.hints, final(self)@.hints, hint),
    {
        let ghost h0 = self.hints@;
        let mut i: usize = 0;
        while i < self.hints.len() && self.hints[i] < hint
            invariant
                self.hints@ == h0,
                hints_sorted(h0),
                i <= h0.len(),
                forall|k: int| 0 <= k < i ==> #[trigger] h0[k] < hint,
            decreases h0.len() - i,
        {
            i = i + 1;
        }
        if i < self.hints.len() && self.hints[i] == hint {
            self.hints.remove(i);
            proof {
                let after = self.hints@;
                assert(after =~= h0.subrange(0, i as int) + h0.subrange(
                    i as int + 1,
                    h0.len() as int,
                ));
                assert forall|k: int| 0 <= k < h0.len() && k != i implies #[trigger] h0[k]
                    != hint by {
                    if k < i {
                        assert(h0[k] < h0[i as int]);
                    } else {
                        assert(h0[i as int] < h0[k]);
                    }
                }
                assert forall|x: u8| #[trigger] after.contains(x) implies h0.contains(x) && x
                    != hint by {
                    let k = choose|k: int| 0 <= k < after.len() && after[k] == x;
                    if k < i {
                        assert(h0[k] == x);
                    } else {
                        assert(h0[k + 1] == x);
                    }
                }
                assert forall|x: u8| h0.contains(x) && x != hint implies #[trigger] after.contains(
                    x,
                ) by {
                    let k = choose|k: int| 0 <= k < h0.len() && h0[k] == x;
                    if k < i {
                        assert(after[k] == x);
                    } else {
                        assert(k > i);
                        assert(after[k - 1] == x);
                    }
                }
                assert(h0.contains(hint));
                assert(hint_toggled(h0, after, hint));
            }
        } else {
            self.hints.insert(i, hint);
            proof {
                let after = self.hints@;
                assert(after == h0.insert(i as int, hint));
                assert(after[i as int] == hint);
                assert forall|k: int| 0 <= k < h0.len() implies #[trigger] h0[k] != hint by {
                    if k < i {
                        assert(h0[k] < hint);
                    } else if k == i {
                    } else {
                        assert(h0[i as int] < h0[k]);
                        assert(h0[i as int] >= hint);
                    }
                }
                assert(!h0.contains(hint));
                assert forall|a: int, b: int| 0 <= a < b < after.len() implies after[a]
                    < after[b] by {
                    if a < i && b < i {
                    } else if a < i && b == i {
                        assert(after[a] == h0[a]);
                    } else if a == i && b > i {
                        assert(after[b] == h0[b - 1]);
                        assert(h0[b - 1] >= h0[i as int]);
                        assert(h0[i as int] > hint || i == h0.len());
                        if (i as int) < h0.len() {
                            assert(h0[b - 1] > hint);
                        }
                    } else if a < i && b > i {
                        assert(after[a] == h0[a] && after[b] == h0[b - 1]);
                    } else {
                        assert(after[a] == h0[a - 1] && after[b] == h0[b - 1]);
                    }
                }
                assert forall|x: u8| #[trigger] after.contains(x) implies (x == hint
                    || h0.contains(x)) by {
                    let k = choose|k: int| 0 <= k < after.len() && after[k] == x;
                    if k < i {
                        assert(h0[k] == x);
                    } else if k == i {
                    } else {
                        assert(h0[k - 1] == x);
                    }
                }
                assert forall|x: u8| h0.contains(x) implies #[trigger] after.contains(x) by {
                    let k = choose|k: int| 0 <= k < h0.len() && h0[k] == x;
                    if k < i {
                        assert(after[k] == x);
                    } else {
                        assert(after[k + 1] == x);
                    }
                }
                assert(after.contains(hint));
                assert(hint_toggled(h0, after, hint));
            }
        }
    }

    /// The pencil-marks drawn as a comma-separated digit list, such as `2,5`.
    pub fn hints_text(&self) -> (r: String)
        requires
            hints_in_range(self.hints@),
        ensures
            r@ == hints_render(self.hints@),
    {
        let mut out = String::new();
        let mut j: usize = 0;
        while j < self.hints.len()
            invariant
                hints_in_range(self.hints@),
                j <= self.hints@.len(),
                out@ == hints_render_upto(self.hints@, j as int),
            decreases self.hints@.len() - j,
        {
            if j > 0 {
                out.append(",");
                proof {
                    reveal_strlit(",");
                }
            }
            out.append(digit_str(self.hints[j]));
            proof {
                assert(out@ =~= hints_render_upto(self.hints@, j as int + 1));
            }
            j = j + 1;
        }
        out
    }
}

/// The one-character string that renders the digit `d`.
pub fn digit_str(d: u8) -> (r: &'static str)
    requires
        1 <= d <= 9,
    ensures
        r@ == seq![digit_char(d)],
{
    let r: &'static str = match d {
        1 => "1",
        2 => "2",
        3 => "3",
        4 => "4",
        5 => "5",
        6 => "6",
        7 => "7",
        8 => "8",
        _ => "9",
    };
    proof {
        reveal_strlit("1");
        reveal_strlit("2");
        reveal_strlit("3");
        reveal_strlit("4");
        reveal_strlit("5");
        reveal_strlit("6");
        reveal_strlit("7");
        reveal_strlit("8");
        reveal_strlit("9");
        assert(r@ =~= seq![digit_char(d)]);
    }
    r
}

/// Two ascending pencil-mark lists with the same members are the same list:
/// the stored order never depends on the order the player toggled them in.
pub proof fn lemma_sorted_hints_unique(a: Seq<u8>, b: Seq<u8>)
    requires
        hints_sorted(a),
        hints_sorted(b),
        forall|x: u8|
            #![trigger a.contains(x)]
            #![trigger b.contains(x)]
            a.contains(x) <==> b.contains(x),
    ensures
        a == b,
    decreases a.len(),
{
    if a.len() == 0 {
        if b.len() > 0 {
            assert(b.contains(b[0]));
            assert(a.contains(b[0]));
        }
        assert(a =~= b);
    } else if b.len() == 0 {
        assert(a.contains(a[0]));
        assert(b.contains(a[0]));
    } else {
        assert(a.contains(a[0]));
        assert(b.contains(a[0]));
        let j = choose|j: int| 0 <= j < b.len() && b[j] == a[0];
        assert(b.contains(b[0]));
        assert(a.contains(b[0]));
        let i = choose|i: int| 0 <= i < a.len() && a[i] == b[0];
        assert(a[0] <= a[i]);
        assert(b[0] <= b[j]);
        assert(a[0] == b[0]);
        let at = a.subrange(1, a.len() as int);
        let bt = b.subrange(1, b.len() as int);
        assert forall|x: u8| #[trigger] at.contains(x) implies bt.contains(x) by {
            let k = choose|k: int| 0 <= k < at.len() && at[k] == x;
            assert(a[k + 1] == x);
            assert(a.contains(x));
            assert(a[0] < x);
            assert(b.contains(x));
            let m = choose|m: int| 0 <= m < b.len() && b[m] == x;
            assert(m != 0);
            assert(bt[m - 1] == x);
        }
        assert forall|x: u8| #[trigger] bt.contains(x) implies at.contains(x) by {
            let k = choose|k: int| 0 <= k < bt.len() && bt[k] == x;
            assert(b[k + 1] == x);
            assert(b.contains(x));
            assert(b[0] < x);
            assert(a.contains(x));
            let m = choose|m: int| 0 <= m < a.len() && a[m] == x;
            assert(m != 0);
            assert(at[m - 1] == x);
        }
        lemma_sorted_hints_unique(at, bt);
        assert(a.len() == b.len());
        assert forall|k: int| 0 <= k < a.len() implies a[k] == b[k] by {
            if k > 0 {
                assert(at[k - 1] == bt[k - 1]);
                assert(a[k] == at[k - 1]);
                assert(b[k] == bt[k - 1]);
            }
        }
        assert(a =~= b);
    }
}

/// Toggling the same pencil-mark twice returns the list to exactly where it
/// started: membership comes back, and with it the whole ascending list.
pub proof fn lemma_toggle_hint_twice(before: Seq<u8>, mid: Seq<u8>, after: Seq<u8>, d: u8)
    requires
        hints_sorted(before),
        hints_sorted(mid),
        hints_sorted(after),
        hint_toggled(before, mid, d),
        hint_toggled(mid, after, d),
    ensures
        after == before,
{
    assert forall|x: u8| #[trigger] after.contains(x) implies before.contains(x) by {
        assert(mid.contains(x) <==> (if x == d {
            !before.contains(x)
        } else {
            before.contains(x)
        }));
    }
    assert forall|x: u8| #[trigger] before.contains(x) implies after.contains(x) by {
        assert(mid.contains(x) <==> (if x == d {
            !before.contains(x)
        } else {
            before.contains(x)
        }));
    }
    lemma_sorted_hints_unique(after, before);
}

} // verus!
