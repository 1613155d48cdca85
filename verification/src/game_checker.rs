use crate::markers::Markers;
use crate::moves::{
    lemma_line_seq_membership, line_seq, on_line, pos_in_bounds, InLineMoves, Position,
};
use crate::table::{grid_get, lemma_seq_count_zero, seq_count, Table};
use vstd::prelude::*;

verus! {

/// The evaluation's final classification of a board: a win for one of the
/// two sides, a draw, or an indeterminate state.
#[derive(Clone, Copy, PartialEq, Eq, Structural, Debug)]
pub enum Verdict {
    SideA,
    SideB,
    Draw,
    Indeterminate,
}

/// Number of positions of `s` whose cell of the grid carries the mark `m`.
pub open spec fn count_matching(
    cells: Seq<Markers>,
    side: usize,
    s: Seq<Position>,
    m: Markers,
) -> nat
    decreases s.len(),
{
    if s.len() == 0 {
        0
    } else {
        count_matching(cells, side, s.drop_last(), m) + (if grid_get(
            cells,
            side,
            s.last().0 as int,
            s.last().1 as int,
        ) == m {
            1nat
        } else {
            0nat
        })
    }
}

/// The sampled anchor positions: top-left, top-right and bottom-left
/// corners, and the center.
pub open spec fn anchor(side: usize, j: int) -> Position {
    if j == 0 {
        (0usize, 0usize)
    } else if j == 1 {
        (((side - 1) as usize), 0usize)
    } else if j == 2 {
        (0usize, ((side - 1) as usize))
    } else {
        ((((side - 1) / 2) as usize), (((side - 1) / 2) as usize))
    }
}

/// The axis family checked in slot `j` of each anchor's round.
pub open spec fn family_at(j: int) -> InLineMoves {
    if j == 0 {
        InLineMoves::VERTICAL
    } else if j == 1 {
        InLineMoves::HORIZONTAL
    } else if j == 2 {
        InLineMoves::DIAGONALASC
    } else {
        InLineMoves::DIAGONALDES
    }
}

/// Run registered for the side marking `m` by combination `idx`: anchor
/// `idx / 4` and family `idx % 4`. An anchor contributes only to the side
/// whose mark it carries; the count spans the full line through the anchor.
pub open spec fn combo_run(cells: Seq<Markers>, side: usize, m: Markers, idx: int) -> nat {
    let a = anchor(side, idx / 4);
    let f = family_at(idx % 4);
    if grid_get(cells, side, a.0 as int, a.1 as int) == m {
        count_matching(cells, side, line_seq(f, a, side), m)
    } else {
        0
    }
}

/// Largest run for the side marking `m` among the first `k` combinations.
pub open spec fn max_run_upto(cells: Seq<Markers>, side: usize, m: Markers, k: int) -> nat
    decreases k,
{
    if k <= 0 {
        0
    } else {
        let prevmax = max_run_upto(cells, side, m, k - 1);
        let cur = combo_run(cells, side, m, k - 1);
        if cur > prevmax {
            cur
        } else {
            prevmax
        }
    }
}

/// Largest same-mark run registered for the side marking `m` over all
/// sixteen anchor/family combinations.
pub open spec fn max_run(cells: Seq<Markers>, side: usize, m: Markers) -> nat {
    max_run_upto(cells, side, m, 16)
}

/// Every cell of the board carries a mark.
pub open spec fn board_full(cells: Seq<Markers>) -> bool {
    forall|i: int| 0 <= i < cells.len() ==> cells[i] != Markers::NotMarked
}

/// The verdict rule, applied in order: the first side wins on a full-length
/// run backed by moving first (one mark more than the opponent); the second
/// side wins on a full-length run with balanced counts, unless the first
/// side also holds a full-length run; a fully marked board with the count
/// parity that perfect alternation implies is a draw; anything else is
/// indeterminate.
pub open spec fn verdict_of(cells: Seq<Markers>, side: usize) -> Verdict {
    let maxa = max_run(cells, side, Markers::X);
    let maxb = max_run(cells, side, Markers::O);
    let ca = seq_count(cells, Markers::X);
    let cb = seq_count(cells, Markers::O);
    if maxa == side && ca == cb + 1 {
        Verdict::SideA
    } else if maxb == side && ca == cb && maxa != side {
        Verdict::SideB
    } else if board_full(cells) && (if (side * side) % 2 == 0 {
        ca == cb
    } else {
        ca == cb + 1
    }) {
        Verdict::Draw
    } else {
        Verdict::Indeterminate
    }
}

/// Totality: the verdict of any board is one of the four verdict kinds.
pub proof fn lemma_verdict_total(cells: Seq<Markers>, side: usize)
    ensures
        verdict_of(cells, side) is SideA || verdict_of(cells, side) is SideB || verdict_of(
            cells,
            side,
        ) is Draw || verdict_of(cells, side) is Indeterminate,
{
}

/// Purity: the verdict is a function of the cell contents and side length
/// alone, so evaluating the same board twice yields the same verdict.
pub proof fn lemma_evaluate_deterministic(t1: &Table, t2: &Table)
    requires
        t1.side == t2.side,
        t1.cells@ == t2.cells@,
    ensures
        verdict_of(t1.cells@, t1.side) == verdict_of(t2.cells@, t2.side),
{
}

/// Anchor coverage on the three-by-three grid: every full-length line —
/// each row, each column, and both main diagonals — passes through at least
/// one of the four anchors.
pub proof fn lemma_anchor_coverage(f: InLineMoves, p: Position)
    requires
        pos_in_bounds(p, 3),
        line_seq(f, p, 3).len() == 3,
    ensures
        exists|j: int| 0 <= j < 4 && on_line(f, p, #[trigger] anchor(3, j), 3),
{
    match f {
        InLineMoves::VERTICAL => {
            if p.0 == 0 {
                assert(on_line(f, p, anchor(3, 0), 3));
            } else if p.0 == 1 {
                assert(on_line(f, p, anchor(3, 3), 3));
            } else {
                assert(on_line(f, p, anchor(3, 1), 3));
            }
        },
        InLineMoves::HORIZONTAL => {
            if p.1 == 0 {
                assert(on_line(f, p, anchor(3, 0), 3));
            } else if p.1 == 1 {
                assert(on_line(f, p, anchor(3, 3), 3));
            } else {
                assert(on_line(f, p, anchor(3, 2), 3));
            }
        },
        InLineMoves::DIAGONALASC => {
            assert(p.0 + p.1 == 2);
            assert(on_line(f, p, anchor(3, 1), 3));
        },
        InLineMoves::DIAGONALDES => {
            assert(p.0 == p.1);
            assert(on_line(f, p, anchor(3, 0), 3));
        },
    }
}

/// Owner of the outcome evaluation.
pub struct GameChecker;

impl GameChecker {
    /// Walk the four anchors; for each marked anchor count, along every axis
    /// family, the cells of its line that carry the anchor's mark, and keep
    /// the largest run per side; then apply the verdict rule to those maxima
    /// and the total per-side counts.
    pub fn check_table(table: &Table) -> (r: Verdict)
        requires
            table.wf(),
            table.side >= 1,
        ensures
            r == verdict_of(table.cells@, table.side),
    {
        let side = table.side;
        let ghost cells = table.cells@;
        let mut max_num_x_inline: usize = 0;
        let mut max_num_o_inline: usize = 0;

        let mut core_positions: Vec<Position> = Vec::new();
        core_positions.push((0, 0));
        core_positions.push((side - 1, 0));
        core_positions.push((0, side - 1));
        core_positions.push(((side - 1) / 2, (side - 1) / 2));
        proof {
            assert(core_positions@[0] == anchor(side, 0));
            assert(core_positions@[1] == anchor(side, 1));
            assert(core_positions@[2] == anchor(side, 2));
            assert(core_positions@[3] == anchor(side, 3));
        }
        let mut inliners: Vec<InLineMoves> = Vec::new();
        inliners.push(InLineMoves::VERTICAL);
        inliners.push(InLineMoves::HORIZONTAL);
        inliners.push(InLineMoves::DIAGONALASC);
        inliners.push(InLineMoves::DIAGONALDES);
        proof {
            assert(inliners@[0] == family_at(0));
            assert(inliners@[1] == family_at(1));
            assert(inliners@[2] == family_at(2));
            assert(inliners@[3] == family_at(3));
        }

        let mut a: usize = 0;
        while a < 4
            invariant
                side == table.side,
                side >= 1,
                table.wf(),
                cells == table.cells@,
                core_positions@.len() == 4,
                inliners@.len() == 4,
                forall|j: int| 0 <= j < 4 ==> core_positions@[j] == anchor(side, j),
                forall|j: int| 0 <= j < 4 ==> inliners@[j] == family_at(j),
                a <= 4,
                max_num_x_inline == max_run_upto(cells, side, Markers::X, 4 * a),
                max_num_o_inline == max_run_upto(cells, side, Markers::O, 4 * a),
            decreases 4 - a,
        {
            let position = core_positions[a];
            proof {
                assert(position == anchor(side, a as int));
                assert(pos_in_bounds(position, side));
            }
            let mark = table.get(position.0, position.1);
            if mark == Markers::NotMarked {
                proof {
                    assert forall|t: int| 4 * a <= t < 4 * a + 4 implies combo_run(
                        cells,
                        side,
                        Markers::X,
                        t,
                    ) == 0 && combo_run(cells, side, Markers::O, t) == 0 by {
                        assert(t / 4 == a as int);
                        assert(anchor(side, t / 4) == position);
                    }
                    assert(max_run_upto(cells, side, Markers::X, 4 * a + 1) == max_run_upto(
                        cells, side, Markers::X, 4 * a));
                    assert(max_run_upto(cells, side, Markers::X, 4 * a + 2) == max_run_upto(
                        cells, side, Markers::X, 4 * a + 1));
                    assert(max_run_upto(cells, side, Markers::X, 4 * a + 3) == max_run_upto(
                        cells, side, Markers::X, 4 * a + 2));
                    assert(max_run_upto(cells, side, Markers::X, 4 * a + 4) == max_run_upto(
                        cells, side, Markers::X, 4 * a + 3));
                    assert(max_run_upto(cells, side, Markers::O, 4 * a + 1) == max_run_upto(
                        cells, side, Markers::O, 4 * a));
                    assert(max_run_upto(cells, side, Markers::O, 4 * a + 2) == max_run_upto(
                        cells, side, Markers::O, 4 * a + 1));
                    assert(max_run_upto(cells, side, Markers::O, 4 * a + 3) == max_run_upto(
                        cells, side, Markers::O, 4 * a + 2));
                    assert(max_run_upto(cells, side, Markers::O, 4 * a + 4) == max_run_upto(
                        cells, side, Markers::O, 4 * a + 3));
                }
            } else {
                let mut fidx: usize = 0;
                while fidx < 4
                    invariant
                        side == table.side,
                        side >= 1,
                        table.wf(),
                        cells == table.cells@,
                        core_positions@.len() == 4,
                        inliners@.len() == 4,
                        forall|j: int| 0 <= j < 4 ==> core_positions@[j] == anchor(side, j),
                        forall|j: int| 0 <= j < 4 ==> inliners@[j] == family_at(j),
                        a < 4,
                        fidx <= 4,
                        position == anchor(side, a as int),
                        pos_in_bounds(position, side),
                        mark == grid_get(cells, side, position.0 as int, position.1 as int),
                        mark != Markers::NotMarked,
                        max_num_x_inline == max_run_upto(cells, side, Markers::X, 4 * a + fidx),
                        max_num_o_inline == max_run_upto(cells, side, Markers::O, 4 * a + fidx),
                    decreases 4 - fidx,
                {
                    let family = inliners[fidx];
                    let inline = family.get_all_linear_moves(&position, side);
                    proof {
                        assert(inline@ == line_seq(family, position, side));
                        lemma_line_seq_membership(family, position, side);
                        assert forall|w: int| 0 <= w < inline@.len() implies pos_in_bounds(
                            #[trigger] inline@[w],
                            side,
                        ) by {
                            assert(inline@.contains(inline@[w]));
                        }
                    }
                    let mut count: usize = 0;
                    let mut t: usize = 0;
                    while t < inline.len()
                        invariant
                            side == table.side,
                            table.wf(),
                            cells == table.cells@,
                            inline@ == line_seq(family, position, side),
                            forall|w: int|
                                0 <= w < inline@.len() ==> pos_in_bounds(
                                    #[trigger] inline@[w],
                                    side,
                                ),
                            t <= inline@.len(),
                            count <= t,
                            count == count_matching(cells, side, inline@.take(t as int), mark),
                        decreases inline@.len() - t,
                    {
                        proof {
                            assert(inline@.take(t + 1).drop_last() =~= inline@.take(t as int));
                            assert(inline@.take(t + 1).last() == inline@[t as int]);
                        }
                        let p = inline[t];
                        if table.get(p.0, p.1) == mark {
                            count = count + 1;
                        }
                        t = t + 1;
                    }
                    proof {
                        assert(inline@.take(inline@.len() as int) =~= inline@);
                        let idx: int = 4 * a + fidx;
                        assert(idx / 4 == a as int);
                        assert(idx % 4 == fidx as int);
                        assert(anchor(side, idx / 4) == position);
                        assert(family_at(idx % 4) == family);
                        if mark == Markers::X {
                            assert(combo_run(cells, side, Markers::X, idx) == count);
                            assert(combo_run(cells, side, Markers::O, idx) == 0);
                        } else {
                            assert(combo_run(cells, side, Markers::O, idx) == count);
                            assert(combo_run(cells, side, Markers::X, idx) == 0);
                        }
                    }
                    if mark == Markers::X {
                        if count > max_num_x_inline {
                            max_num_x_inline = count;
                        }
                    } else {
                        if count > max_num_o_inline {
                            max_num_o_inline = count;
                        }
                    }
                    fidx = fidx + 1;
                }
            }
            a = a + 1;
        }

        let num_of_x = table.count(Markers::X);
        let num_of_o = table.count(Markers::O);
        let empties = table.count(Markers::NotMarked);
        proof {
            lemma_seq_count_zero(cells, Markers::NotMarked);
            assert(max_num_x_inline == max_run(cells, side, Markers::X));
            assert(max_num_o_inline == max_run(cells, side, Markers::O));
        }

        if max_num_x_inline == side && num_of_x >= 1 && num_of_x - 1 == num_of_o {
            return Verdict::SideA;
        } else if max_num_o_inline == side && num_of_x == num_of_o && max_num_x_inline != side {
            return Verdict::SideB;
        }

        let total = table.cells.len();
        if empties == 0 && ((total % 2 == 0 && num_of_x == num_of_o) || (total % 2 != 0 && num_of_x
            >= 1 && num_of_x - 1 == num_of_o)) {
            return Verdict::Draw;
        }

        Verdict::Indeterminate
    }
}

} // verus!
