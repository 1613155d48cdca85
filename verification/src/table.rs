use crate::markers::Markers;
use vstd::prelude::*;

verus! {

/// Number of cells in `s` that carry the mark `m`.
pub open spec fn seq_count(s: Seq<Markers>, m: Markers) -> nat
    decreases s.len(),
{
    if s.len() == 0 {
        0
    } else {
        seq_count(s.drop_last(), m) + (if s.last() == m {
            1nat
        } else {
            0nat
        })
    }
}

/// The mark stored at column `x`, row `y` of a row-major grid of the given
/// side length.
pub open spec fn grid_get(cells: Seq<Markers>, side: usize, x: int, y: int) -> Markers {
    cells[y * side + x]
}

/// `seq_count` is zero exactly when no cell carries the mark.
pub proof fn lemma_seq_count_zero(s: Seq<Markers>, m: Markers)
    ensures
        (seq_count(s, m) == 0) <==> (forall|i: int| 0 <= i < s.len() ==> s[i] != m),
    decreases s.len(),
{
    if s.len() > 0 {
        lemma_seq_count_zero(s.drop_last(), m);
        if seq_count(s, m) == 0 {
            assert forall|i: int| 0 <= i < s.len() implies s[i] != m by {
                if i < s.len() - 1 {
                    assert(s.drop_last()[i] != m);
                } else {
                    assert(s[i] == s.last());
                }
            }
        }
        if forall|i: int| 0 <= i < s.len() ==> s[i] != m {
            assert forall|i: int| 0 <= i < s.drop_last().len() implies s.drop_last()[i] != m by {
                assert(s.drop_last()[i] == s[i]);
            }
            assert(seq_count(s.drop_last(), m) == 0);
            assert(s.last() != m);
        }
    }
}

/// The characters of a row layout, flattened in order.
pub open spec fn layout_chars(rows: Seq<&str>) -> Seq<char>
    decreases rows.len(),
{
    if rows.len() == 0 {
        Seq::empty()
    } else {
        layout_chars(rows.drop_last()) + rows.last()@
    }
}

/// The mark a layout character denotes: `X` and `O` case-insensitively,
/// anything else an unmarked cell.
pub open spec fn spec_mark_of(c: char) -> Markers {
    if c == 'X' || c == 'x' {
        Markers::X
    } else if c == 'O' || c == 'o' {
        Markers::O
    } else {
        Markers::NotMarked
    }
}

/// The marks a character sequence denotes, in order.
pub open spec fn marks_of(s: Seq<char>) -> Seq<Markers> {
    s.map_values(|c: char| spec_mark_of(c))
}

/// The mark the fixture with one `X` row, one `O` row and blank middle rows
/// assigns to the cell at index `i`: the last row is `O`, the first row `X`,
/// the rest unmarked.
pub open spec fn mixed_mark(side: usize, i: int) -> Markers {
    if i / (side as int) == side - 1 {
        Markers::O
    } else if i / (side as int) == 0 {
        Markers::X
    } else {
        Markers::NotMarked
    }
}

/// A square grid of marks, stored row-major: the cell at column `x`, row `y`
/// sits at index `y * side + x`. Well-formed tables hold exactly
/// `side * side` cells.
#[derive(Clone, Debug)]
pub struct Table {
    pub side: usize,
    pub cells: Vec<Markers>,
}

impl Table {
    /// Exactly `side * side` cells are present.
    pub open spec fn wf(&self) -> bool {
        self.cells@.len() == self.side * self.side
    }

    /// A fresh table of the given side length with every cell unmarked.
    fn new(side: usize) -> (t: Table)
        requires
            side * side <= usize::MAX,
        ensures
            t.side == side,
            t.wf(),
            forall|i: int| 0 <= i < t.cells@.len() ==> t.cells@[i] == Markers::NotMarked,
    {
        let total = side * side;
        let mut cells: Vec<Markers> = Vec::new();
        let mut i: usize = 0;
        while i < total
            invariant
                i <= total,
                cells@.len() == i,
                forall|j: int| 0 <= j < i ==> cells@[j] == Markers::NotMarked,
            decreases total - i,
        {
            cells.push(Markers::NotMarked);
            i = i + 1;
        }
        Table { side, cells }
    }

    /// Row-major index of the cell at column `x`, row `y`.
    fn translate_from_multi_to_unidimensional(x: usize, y: usize, side: usize) -> (r: usize)
        requires
            x < side,
            y < side,
            side * side <= usize::MAX,
        ensures
            r == y * side + x,
    {
        proof {
            assert(y * side + x < side * side) by (nonlinear_arith)
                requires
                    x < side,
                    y < side,
            ;
        }
        y * side + x
    }

    /// Bounds-checked read of the cell at column `x`, row `y`.
    pub fn get(&self, x: usize, y: usize) -> (r: Markers)
        requires
            self.wf(),
            x < self.side,
            y < self.side,
        ensures
            r == grid_get(self.cells@, self.side, x as int, y as int),
    {
        let len = self.cells.len();
        let idx = Self::translate_from_multi_to_unidimensional(x, y, self.side);
        proof {
            assert(y * self.side + x < self.side * self.side) by (nonlinear_arith)
                requires
                    x < self.side,
                    y < self.side,
            ;
        }
        self.cells[idx]
    }

    /// Number of cells of the whole grid that carry the mark `m`.
    pub fn count(&self, mark: Markers) -> (r: usize)
        ensures
            r == seq_count(self.cells@, mark),
    {
        let len = self.cells.len();
        let mut cnt: usize = 0;
        let mut i: usize = 0;
        while i < len
            invariant
                i <= len,
                len == self.cells@.len(),
                cnt <= i,
                cnt == seq_count(self.cells@.take(i as int), mark),
            decreases len - i,
        {
            proof {
                assert(self.cells@.take(i + 1).drop_last() =~= self.cells@.take(i as int));
                assert(self.cells@.take(i + 1).last() == self.cells@[i as int]);
            }
            if self.cells[i] == mark {
                cnt = cnt + 1;
            }
            i = i + 1;
        }
        proof {
            assert(self.cells@.take(len as int) =~= self.cells@);
        }
        cnt
    }

    /// Build a table from a row layout: the rows' characters, flattened in
    /// order, fill the grid row-major, mapped case-insensitively (`X` marks
    /// the first side, `O` the second, anything else nothing). The flattened
    /// character count must fit the grid exactly.
    pub fn from_string(input: &[&str], side: usize) -> (t: Table)
        requires
            layout_chars(input@).len() == side * side,
            side * side <= usize::MAX,
        ensures
            t.side == side,
            t.wf(),
            t.cells@ == marks_of(layout_chars(input@)),
    {
        let mut table = Self::new(side);
        let mut vector: Vec<Markers> = Vec::new();
        let mut r: usize = 0;
        while r < input.len()
            invariant
                r <= input@.len(),
                vector@ == marks_of(layout_chars(input@.take(r as int))),
            decreases input@.len() - r,
        {
            let row: &str = input[r];
            let rl = row.unicode_len();
            let mut i: usize = 0;
            while i < rl
                invariant
                    r < input@.len(),
                    row@ == input@[r as int]@,
                    rl == row@.len(),
                    i <= rl,
                    vector@ == marks_of(layout_chars(input@.take(r as int)) + row@.take(i as int)),
                decreases rl - i,
            {
                let c = row.get_char(i);
                vector.push(mark_of_char(c));
                proof {
                    let base = layout_chars(input@.take(r as int));
                    assert(base + row@.take(i + 1) =~= (base + row@.take(i as int)).push(
                        row@[i as int],
                    ));
                    assert(vector@ =~= marks_of(base + row@.take(i + 1)));
                }
                i = i + 1;
            }
            proof {
                assert(input@.take(r + 1).drop_last() =~= input@.take(r as int));
                assert(input@.take(r + 1).last() == input@[r as int]);
                assert(layout_chars(input@.take(r + 1)) == layout_chars(input@.take(r as int))
                    + input@[r as int]@);
                assert(row@.take(rl as int) =~= row@);
            }
            r = r + 1;
        }
        proof {
            assert(input@.take(input@.len() as int) =~= input@);
        }
        table.cells = vector;
        table
    }

    /// Fixture: every cell marked by the first side.
    pub fn all_x(side: usize) -> (t: Table)
        requires
            side * side <= usize::MAX,
        ensures
            t.side == side,
            t.wf(),
            forall|i: int| 0 <= i < t.cells@.len() ==> t.cells@[i] == Markers::X,
    {
        let total = side * side;
        let mut cells: Vec<Markers> = Vec::new();
        let mut i: usize = 0;
        while i < total
            invariant
                i <= total,
                cells@.len() == i,
                forall|j: int| 0 <= j < i ==> cells@[j] == Markers::X,
            decreases total - i,
        {
            cells.push(Markers::X);
            i = i + 1;
        }
        Table { side, cells }
    }

    /// Fixture: every cell marked by the second side.
    pub fn all_o(side: usize) -> (t: Table)
        requires
            side * side <= usize::MAX,
        ensures
            t.side == side,
            t.wf(),
            forall|i: int| 0 <= i < t.cells@.len() ==> t.cells@[i] == Markers::O,
    {
        let total = side * side;
        let mut cells: Vec<Markers> = Vec::new();
        let mut i: usize = 0;
        while i < total
            invariant
                i <= total,
                cells@.len() == i,
                forall|j: int| 0 <= j < i ==> cells@[j] == Markers::O,
            decreases total - i,
        {
            cells.push(Markers::O);
            i = i + 1;
        }
        Table { side, cells }
    }

    /// Fixture: the first row marked by the first side, the last row by the
    /// second side, everything between unmarked.
    pub fn mixed(side: usize) -> (t: Table)
        requires
            side >= 1,
            side * side <= usize::MAX,
        ensures
            t.side == side,
            t.wf(),
            forall|i: int| 0 <= i < t.cells@.len() ==> t.cells@[i] == mixed_mark(side, i),
    {
        let total = side * side;
        let mut cells: Vec<Markers> = Vec::new();
        let mut i: usize = 0;
        while i < total
            invariant
                side >= 1,
                i <= total,
                cells@.len() == i,
                forall|j: int| 0 <= j < i ==> cells@[j] == mixed_mark(side, j),
            decreases total - i,
        {
            let rownum = i / side;
            if rownum == side - 1 {
                cells.push(Markers::O);
            } else if rownum == 0 {
                cells.push(Markers::X);
            } else {
                cells.push(Markers::NotMarked);
            }
            i = i + 1;
        }
        Table { side, cells }
    }
}

/// The mark a layout character denotes.
fn mark_of_char(c: char) -> (m: Markers)
    ensures
        m == spec_mark_of(c),
{
    if c == 'X' || c == 'x' {
        Markers::X
    } else if c == 'O' || c == 'o' {
        Markers::O
    } else {
        Markers::NotMarked
    }
}

impl PartialEq for Table {
    /// Tables are equal when their side lengths and cell contents agree.
    fn eq(&self, other: &Table) -> (r: bool) {
        if self.side != other.side {
            return false;
        }
        if self.cells.len() != other.cells.len() {
            proof {
                assert(self.cells@ != other.cells@);
            }
            return false;
        }
        let mut i: usize = 0;
        while i < self.cells.len()
            invariant
                i <= self.cells@.len(),
                self.cells@.len() == other.cells@.len(),
                forall|j: int| 0 <= j < i ==> self.cells@[j] == other.cells@[j],
            decreases self.cells@.len() - i,
        {
            if self.cells[i] != other.cells[i] {
                proof {
                    assert(self.cells@[i as int] != other.cells@[i as int]);
                }
                return false;
            }
            i = i + 1;
        }
        proof {
            assert(self.cells@ =~= other.cells@);
        }
        true
    }
}

impl vstd::std_specs::cmp::PartialEqSpecImpl for Table {
    open spec fn obeys_eq_spec() -> bool {
        true
    }

    open spec fn eq_spec(&self, other: &Table) -> bool {
        self.side == other.side && self.cells@ == other.cells@
    }
}

} // verus!
