use vstd::prelude::*;

verus! {

/// One coordinate of a grid position.
pub type PositionAxis = usize;

/// A zero-based (column, row) pair.
pub type Position = (PositionAxis, PositionAxis);

/// Both coordinates lie inside a grid of the given side length.
pub open spec fn pos_in_bounds(p: Position, side: usize) -> bool {
    p.0 < side && p.1 < side
}

/// `a` precedes `b` in ascending lexicographic order of (column, row).
pub open spec fn lex_lt(a: Position, b: Position) -> bool {
    a.0 < b.0 || (a.0 == b.0 && a.1 < b.1)
}

/// Strict lexicographic ascending order: sorted and free of duplicates.
pub open spec fn strictly_sorted_lex(s: Seq<Position>) -> bool {
    forall|i: int, j: int| 0 <= i < j < s.len() ==> lex_lt(s[i], s[j])
}

/// The four axis families along which collinear positions are enumerated.
#[derive(Clone, Copy, PartialEq, Eq, Structural, Debug)]
pub enum InLineMoves {
    VERTICAL,
    HORIZONTAL,
    DIAGONALASC,
    DIAGONALDES,
}

/// A horizontal unit step.
#[derive(Clone, Copy, PartialEq, Eq, Structural, Debug)]
pub enum MovesX {
    LEFT,
    RIGHT,
    NONE,
}

/// A vertical unit step.
#[derive(Clone, Copy, PartialEq, Eq, Structural, Debug)]
pub enum MovesY {
    UP,
    DOWN,
    NONE,
}

/// A combined step: one horizontal and one vertical component.
#[derive(Clone, Copy, PartialEq, Eq, Structural, Debug)]
pub enum Moves {
    Move(MovesX, MovesY),
}

/// Horizontal component of a move.
pub open spec fn move_x(m: Moves) -> MovesX {
    match m {
        Moves::Move(x, _) => x,
    }
}

/// Vertical component of a move.
pub open spec fn move_y(m: Moves) -> MovesY {
    match m {
        Moves::Move(_, y) => y,
    }
}

/// Column reached by applying the horizontal component (may fall off the
/// grid on either edge, hence the unbounded result).
pub open spec fn step_x(mx: MovesX, x: usize) -> int {
    match mx {
        MovesX::LEFT => x - 1,
        MovesX::RIGHT => x + 1,
        MovesX::NONE => x as int,
    }
}

/// Row reached by applying the vertical component.
pub open spec fn step_y(my: MovesY, y: usize) -> int {
    match my {
        MovesY::UP => y - 1,
        MovesY::DOWN => y + 1,
        MovesY::NONE => y as int,
    }
}

/// Applying `m` at `p` lands on a cell of a grid of the given side length.
pub open spec fn move_ok(m: Moves, p: Position, side: usize) -> bool {
    0 <= step_x(move_x(m), p.0) < side && 0 <= step_y(move_y(m), p.1) < side
}

/// The position reached by applying `m` at `p` (meaningful under `move_ok`).
pub open spec fn stepped(m: Moves, p: Position) -> Position {
    (step_x(move_x(m), p.0) as usize, step_y(move_y(m), p.1) as usize)
}

/// The eight candidate unit steps, in their fixed enumeration order.
pub open spec fn all_moves_seq() -> Seq<Moves> {
    seq![
        Moves::Move(MovesX::LEFT, MovesY::NONE),
        Moves::Move(MovesX::LEFT, MovesY::UP),
        Moves::Move(MovesX::LEFT, MovesY::DOWN),
        Moves::Move(MovesX::RIGHT, MovesY::NONE),
        Moves::Move(MovesX::RIGHT, MovesY::UP),
        Moves::Move(MovesX::RIGHT, MovesY::DOWN),
        Moves::Move(MovesX::NONE, MovesY::UP),
        Moves::Move(MovesX::NONE, MovesY::DOWN),
    ]
}

/// Keep a candidate step when its landing cell stays on the grid.
pub open spec fn simple_pred(p: Position, side: usize) -> spec_fn(Moves) -> bool {
    |m: Moves| move_ok(m, p, side)
}

/// The single-step moves available at `p`: the eight candidates, in order,
/// restricted to those whose landing cell stays on the grid.
pub open spec fn spec_simple_moves(p: Position, side: usize) -> Seq<Moves> {
    all_moves_seq().filter(simple_pred(p, side))
}

/// `m` belongs to the axis family `f`.
pub open spec fn family_move(f: InLineMoves, m: Moves) -> bool {
    match f {
        InLineMoves::VERTICAL => move_x(m) == MovesX::NONE,
        InLineMoves::HORIZONTAL => move_y(m) == MovesY::NONE,
        InLineMoves::DIAGONALASC => (move_x(m) == MovesX::LEFT && move_y(m) == MovesY::DOWN) || (
        move_x(m) == MovesX::RIGHT && move_y(m) == MovesY::UP),
        InLineMoves::DIAGONALDES => (move_x(m) == MovesX::LEFT && move_y(m) == MovesY::UP) || (
        move_x(m) == MovesX::RIGHT && move_y(m) == MovesY::DOWN),
    }
}

/// `p` and `q` are collinear along the axis family `f`.
pub open spec fn collinear(f: InLineMoves, p: Position, q: Position) -> bool {
    match f {
        InLineMoves::VERTICAL => q.0 == p.0,
        InLineMoves::HORIZONTAL => q.1 == p.1,
        InLineMoves::DIAGONALASC => q.0 + q.1 == p.0 + p.1,
        InLineMoves::DIAGONALDES => q.0 + p.1 == p.0 + q.1,
    }
}

/// `q` lies on the full line through `p` along `f`, inside the grid.
pub open spec fn on_line(f: InLineMoves, p: Position, q: Position, side: usize) -> bool {
    pos_in_bounds(p, side) && pos_in_bounds(q, side) && collinear(f, p, q)
}

/// The coordinate that varies along a line of family `f`: the row for
/// vertical lines, the column for every other family.
pub open spec fn line_param(f: InLineMoves, q: Position) -> int {
    match f {
        InLineMoves::VERTICAL => q.1 as int,
        _ => q.0 as int,
    }
}

/// `b` is one family-`f` unit step away from `a`, inside the grid.
pub open spec fn neighbor(f: InLineMoves, a: Position, b: Position, side: usize) -> bool {
    pos_in_bounds(a, side) && pos_in_bounds(b, side) && collinear(f, a, b) && (line_param(f, b)
        == line_param(f, a) + 1 || line_param(f, b) == line_param(f, a) - 1)
}

/// Smallest parameter value of the line through `p` along `f`.
pub open spec fn line_lo(f: InLineMoves, p: Position, side: usize) -> int {
    match f {
        InLineMoves::VERTICAL => 0,
        InLineMoves::HORIZONTAL => 0,
        InLineMoves::DIAGONALASC => if p.0 + p.1 >= side {
            p.0 + p.1 - (side - 1)
        } else {
            0
        },
        InLineMoves::DIAGONALDES => if p.0 >= p.1 {
            p.0 - p.1
        } else {
            0
        },
    }
}

/// One past the largest parameter value of the line through `p` along `f`.
pub open spec fn line_hi(f: InLineMoves, p: Position, side: usize) -> int {
    match f {
        InLineMoves::VERTICAL => side as int,
        InLineMoves::HORIZONTAL => side as int,
        InLineMoves::DIAGONALASC => if p.0 + p.1 < side {
            p.0 + p.1 + 1
        } else {
            side as int
        },
        InLineMoves::DIAGONALDES => if p.0 >= p.1 {
            side as int
        } else {
            side - (p.1 - p.0)
        },
    }
}

/// The position with parameter `t` on the line through `p` along `f`.
pub open spec fn line_point(f: InLineMoves, p: Position, t: int) -> Position {
    match f {
        InLineMoves::VERTICAL => (p.0, t as usize),
        InLineMoves::HORIZONTAL => (t as usize, p.1),
        InLineMoves::DIAGONALASC => (t as usize, (p.0 + p.1 - t) as usize),
        InLineMoves::DIAGONALDES => (t as usize, (p.1 - p.0 + t) as usize),
    }
}

/// The full line through `p` along `f`, in ascending lexicographic order:
/// the positions with parameters `line_lo(..) .. line_hi(..)`.
pub open spec fn line_seq(f: InLineMoves, p: Position, side: usize) -> Seq<Position> {
    Seq::new((line_hi(f, p, side) - line_lo(f, p, side)) as nat, |i: int| line_point(f, p, line_lo(f, p, side) + i))
}

impl MovesX {
    /// The column after this step, or nothing when the step would fall off
    /// the zero edge.
    fn ret_index(&self, actual_position: &Position) -> (r: Option<PositionAxis>)
        requires
            actual_position.0 < usize::MAX,
        ensures
            match r {
                Some(v) => step_x(*self, actual_position.0) >= 0 && v == step_x(*self, actual_position.0),
                None => step_x(*self, actual_position.0) < 0,
            },
    {
        match self {
            MovesX::LEFT => if actual_position.0 > 0 {
                Some(actual_position.0 - 1)
            } else {
                None
            },
            MovesX::RIGHT => Some(actual_position.0 + 1),
            MovesX::NONE => Some(actual_position.0),
        }
    }
}

impl MovesY {
    /// The row after this step, or nothing when the step would fall off the
    /// zero edge.
    fn ret_index(&self, actual_position: &Position) -> (r: Option<PositionAxis>)
        requires
            actual_position.1 < usize::MAX,
        ensures
            match r {
                Some(v) => step_y(*self, actual_position.1) >= 0 && v == step_y(*self, actual_position.1),
                None => step_y(*self, actual_position.1) < 0,
            },
    {
        match self {
            MovesY::UP => if actual_position.1 > 0 {
                Some(actual_position.1 - 1)
            } else {
                None
            },
            MovesY::DOWN => Some(actual_position.1 + 1),
            MovesY::NONE => Some(actual_position.1),
        }
    }
}

impl Moves {
    /// A stepped-to position is rejected unless it lies on the grid.
    fn is_inside_table(position: Option<Position>, side: usize) -> (r: bool)
        ensures
            r == match position {
                Some(q) => pos_in_bounds(q, side),
                None => false,
            },
    {
        match position {
            Some(q) => q.0 < side && q.1 < side,
            None => false,
        }
    }

    /// The position reached by applying this move, or nothing when either
    /// component would fall off the zero edge.
    pub fn ret_index(&self, actual_position: &Position) -> (r: Option<Position>)
        requires
            actual_position.0 < usize::MAX,
            actual_position.1 < usize::MAX,
        ensures
            (step_x(move_x(*self), actual_position.0) >= 0 && step_y(move_y(*self), actual_position.1) >= 0)
                ==> r == Some(stepped(*self, *actual_position)),
            !(step_x(move_x(*self), actual_position.0) >= 0 && step_y(move_y(*self), actual_position.1) >= 0)
                ==> r is None,
    {
        match self {
            Moves::Move(x, y) => {
                match x.ret_index(actual_position) {
                    None => None,
                    Some(vx) => match y.ret_index(actual_position) {
                        None => None,
                        Some(vy) => Some((vx, vy)),
                    },
                }
            },
        }
    }

    /// The single-step moves available at `actual_position`: of the eight
    /// candidate directions, in their fixed order, those whose landing cell
    /// stays on the grid.
    pub fn get_all_simple_moves(actual_position: &Position, side: usize) -> (r: Vec<Moves>)
        requires
            actual_position.0 < usize::MAX,
            actual_position.1 < usize::MAX,
        ensures
            r@ == spec_simple_moves(*actual_position, side),
    {
        let mut all_moves: Vec<Moves> = Vec::new();
        all_moves.push(Moves::Move(MovesX::LEFT, MovesY::NONE));
        all_moves.push(Moves::Move(MovesX::LEFT, MovesY::UP));
        all_moves.push(Moves::Move(MovesX::LEFT, MovesY::DOWN));
        all_moves.push(Moves::Move(MovesX::RIGHT, MovesY::NONE));
        all_moves.push(Moves::Move(MovesX::RIGHT, MovesY::UP));
        all_moves.push(Moves::Move(MovesX::RIGHT, MovesY::DOWN));
        all_moves.push(Moves::Move(MovesX::NONE, MovesY::UP));
        all_moves.push(Moves::Move(MovesX::NONE, MovesY::DOWN));
        proof {
            assert(all_moves@ =~= all_moves_seq());
        }
        let mut result: Vec<Moves> = Vec::new();
        let mut k: usize = 0;
        while k < all_moves.len()
            invariant
                all_moves@ == all_moves_seq(),
                k <= 8,
                all_moves@.len() == 8,
                actual_position.0 < usize::MAX,
                actual_position.1 < usize::MAX,
                result@ == all_moves_seq().take(k as int).filter(
                    simple_pred(*actual_position, side),
                ),
            decreases 8 - k,
        {
            let m = all_moves[k];
            proof {
                let pred = simple_pred(*actual_position, side);
                let pre = all_moves_seq().take(k as int);
                assert(all_moves_seq().take(k + 1) =~= pre + seq![m]);
                Seq::<Moves>::filter_distributes_over_add(pre, seq![m], pred);
                reveal(Seq::filter);
                assert(Seq::<Moves>::empty().filter(pred) =~= Seq::<Moves>::empty());
                assert(seq![m].drop_last() =~= Seq::<Moves>::empty());
                assert(seq![m].last() == m);
                if pred(m) {
                    assert(seq![m].filter(pred) =~= seq![m]);
                } else {
                    assert(seq![m].filter(pred) =~= Seq::<Moves>::empty());
                }
            }
            if Moves::is_inside_table(m.ret_index(actual_position), side) {
                assert(move_ok(m, *actual_position, side));
                result.push(m);
            } else {
                assert(!move_ok(m, *actual_position, side));
                assert(result@ == all_moves_seq().take(k + 1).filter(
                    simple_pred(*actual_position, side),
                ));
            }
            k = k + 1;
        }
        proof {
            assert(all_moves_seq().take(8) =~= all_moves_seq());
        }
        result
    }
}

impl InLineMoves {
    /// Worklist flood-walk: starting from `start`, repeatedly take a not yet
    /// processed position, apply its surviving single-step moves restricted
    /// to this axis family, and union the landing cells into the worklist;
    /// when the worklist is exhausted, sort the visited positions and strip
    /// duplicates. The result is the full line through `start`.
    fn gen_all_linear_moves(&self, start: Position, side: usize) -> (r: Vec<Position>)
        requires
            pos_in_bounds(start, side),
        ensures
            strictly_sorted_lex(r@),
            forall|q: Position| #[trigger] r@.contains(q) ==> on_line(*self, start, q, side),
            forall|q: Position| on_line(*self, start, q, side) ==> #[trigger] r@.contains(q),
    {
        let f = *self;
        let mut pos_vec: Vec<Position> = Vec::new();
        pos_vec.push(start);
        let mut visited_pos: Vec<Position> = Vec::new();
        proof {
            assert(pos_vec@[0] == start);
            assert(pos_vec@.contains(start));
            assert(pos_vec@.no_duplicates());
            assert(visited_pos@ =~= pos_vec@.take(0));
        }
        let mut i: usize = 0;
        while i < pos_vec.len()
            invariant
                pos_in_bounds(start, side),
                i <= pos_vec@.len(),
                pos_vec@.len() <= side,
                pos_vec@.no_duplicates(),
                pos_vec@.contains(start),
                visited_pos@ == pos_vec@.take(i as int),
                forall|k: int|
                    0 <= k < pos_vec@.len() ==> on_line(f, start, #[trigger] pos_vec@[k], side),
                forall|j: int, b: Position|
                    0 <= j < i && #[trigger] neighbor(f, pos_vec@[j], b, side)
                        ==> pos_vec@.contains(b),
            decreases side - i,
        {
            let position = pos_vec[i];
            visited_pos.push(position);
            proof {
                assert(visited_pos@ =~= pos_vec@.take(i + 1));
            }
            let moves = Moves::get_all_simple_moves(&position, side);
            let mut k: usize = 0;
            while k < moves.len()
                invariant
                    pos_in_bounds(start, side),
                    pos_in_bounds(position, side),
                    i < pos_vec@.len(),
                    pos_vec@.len() <= side,
                    pos_vec@.no_duplicates(),
                    pos_vec@.contains(start),
                    pos_vec@[i as int] == position,
                    visited_pos@ == pos_vec@.take(i + 1),
                    on_line(f, start, position, side),
                    moves@ == spec_simple_moves(position, side),
                    k <= moves@.len(),
                    forall|t: int|
                        0 <= t < pos_vec@.len() ==> on_line(f, start, #[trigger] pos_vec@[t], side),
                    forall|j: int, b: Position|
                        0 <= j < i && #[trigger] neighbor(f, pos_vec@[j], b, side)
                            ==> pos_vec@.contains(b),
                    forall|t: int|
                        0 <= t < k && family_move(f, #[trigger] moves@[t]) ==> pos_vec@.contains(
                            stepped(moves@[t], position),
                        ),
                decreases moves@.len() - k,
            {
                let m = moves[k];
                if f.filter_by_move(&m) {
                    proof {
                        assert(moves@[k as int] == m);
                        assert(spec_simple_moves(position, side).contains(m));
                        lemma_filter_subset(all_moves_seq(), simple_pred(position, side), m);
                        lemma_family_move_neighbor(f, m, position, side);
                    }
                    let np = m.ret_index(&position).unwrap();
                    proof {
                        assert(np == stepped(m, position));
                        assert(neighbor(f, position, np, side));
                    }
                    if !vec_contains_position(&pos_vec, np) {
                        let ghost prev = pos_vec@;
                        pos_vec.push(np);
                        proof {
                            assert(pos_vec@ == prev.push(np));
                            assert(pos_vec@.no_duplicates()) by {
                                assert(forall|t: int|
                                    0 <= t < prev.len() ==> pos_vec@[t] == prev[t]);
                                assert(pos_vec@[prev.len() as int] == np);
                                assert(forall|t: int|
                                    0 <= t < prev.len() ==> prev[t] != np) by {
                                    if exists|t: int| 0 <= t < prev.len() && prev[t] == np {
                                        let t = choose|t: int|
                                            0 <= t < prev.len() && prev[t] == np;
                                        assert(prev.contains(np));
                                    }
                                }
                            }
                            assert(pos_vec@.contains(start)) by {
                                let w = choose|w: int|
                                    0 <= w < prev.len() && prev[w] == start;
                                assert(pos_vec@[w] == start);
                            }
                            assert(on_line(f, start, np, side));
                            assert(forall|t: int|
                                0 <= t < pos_vec@.len() ==> on_line(
                                    f,
                                    start,
                                    #[trigger] pos_vec@[t],
                                    side,
                                ));
                            lemma_line_vec_bound(f, start, pos_vec@, side);
                            assert(visited_pos@ =~= pos_vec@.take(i + 1));
                            assert forall|j: int, b: Position|
                                0 <= j < i && #[trigger] neighbor(f, pos_vec@[j], b, side)
                                    implies pos_vec@.contains(b) by {
                                assert(pos_vec@[j] == prev[j]);
                                assert(prev.contains(b));
                                let t = choose|t: int| 0 <= t < prev.len() && prev[t] == b;
                                assert(pos_vec@[t] == b);
                            }
                            assert forall|t: int|
                                0 <= t < k + 1 && family_move(f, #[trigger] moves@[t])
                                    implies pos_vec@.contains(stepped(moves@[t], position)) by {
                                if t < k {
                                    assert(prev.contains(stepped(moves@[t], position)));
                                    let w = choose|w: int|
                                        0 <= w < prev.len() && prev[w] == stepped(
                                            moves@[t],
                                            position,
                                        );
                                    assert(pos_vec@[w] == stepped(moves@[t], position));
                                } else {
                                    assert(pos_vec@[prev.len() as int] == np);
                                }
                            }
                        }
                    } else {
                        proof {
                            assert(pos_vec@.contains(stepped(moves@[k as int], position)));
                        }
                    }
                } else {
                    proof {
                        assert(!family_move(f, moves@[k as int]));
                    }
                }
                k = k + 1;
            }
            proof {
                assert forall|b: Position| #[trigger] neighbor(f, position, b, side)
                    implies pos_vec@.contains(b) by {
                    lemma_neighbor_has_move(f, position, b, side);
                    let m = choose|m: Moves|
                        #[trigger] spec_simple_moves(position, side).contains(m) && family_move(
                            f,
                            m,
                        ) && stepped(m, position) == b;
                    let t = choose|t: int| 0 <= t < moves@.len() && moves@[t] == m;
                    assert(pos_vec@.contains(stepped(moves@[t], position)));
                }
            }
            i = i + 1;
            proof {
                assert forall|j: int, b: Position|
                    0 <= j < i && #[trigger] neighbor(f, pos_vec@[j], b, side)
                        implies pos_vec@.contains(b) by {
                    if j == i - 1 {
                        assert(pos_vec@[j] == position);
                    }
                }
            }
        }
        proof {
            assert(visited_pos@ =~= pos_vec@);
            assert forall|q: Position| on_line(f, start, q, side)
                implies pos_vec@.contains(q) by {
                assert forall|a: Position, b: Position|
                    pos_vec@.contains(a) && #[trigger] neighbor(f, a, b, side)
                        implies pos_vec@.contains(b) by {
                    let j = choose|j: int| 0 <= j < pos_vec@.len() && pos_vec@[j] == a;
                    assert(neighbor(f, pos_vec@[j], b, side));
                }
                lemma_closed_covers(f, start, pos_vec@, q, side);
            }
        }
        let sorted_vec = sort_positions(&visited_pos);
        let result = dedup_sorted(&sorted_vec);
        result
    }

    /// The complete, deduplicated, lexicographically ascending enumeration
    /// of the positions collinear with `actual_position` along this axis
    /// family; empty when the start lies off the grid.
    pub fn get_all_linear_moves(&self, actual_position: &Position, side: usize) -> (r: Vec<
        Position,
    >)
        ensures
            pos_in_bounds(*actual_position, side) ==> r@ == line_seq(
                *self,
                *actual_position,
                side,
            ),
            !pos_in_bounds(*actual_position, side) ==> r@ == Seq::<Position>::empty(),
    {
        if !Moves::is_inside_table(Some(*actual_position), side) {
            let r: Vec<Position> = Vec::new();
            proof {
                assert(r@ =~= Seq::<Position>::empty());
            }
            return r;
        }
        let r = self.gen_all_linear_moves(*actual_position, side);
        proof {
            lemma_line_seq_membership(*self, *actual_position, side);
            lemma_line_seq_sorted(*self, *actual_position, side);
            lemma_strictly_sorted_same_members(r@, line_seq(*self, *actual_position, side));
        }
        r
    }

    /// Does `m` belong to this axis family?
    fn filter_by_move(&self, m: &Moves) -> (r: bool)
        ensures
            r == family_move(*self, *m),
    {
        match self {
            InLineMoves::VERTICAL => Self::is_vertical_move(m),
            InLineMoves::HORIZONTAL => Self::is_horizontal_move(m),
            InLineMoves::DIAGONALASC => Self::is_diagonalasc_move(m),
            InLineMoves::DIAGONALDES => Self::is_diagonaldes_move(m),
        }
    }

    /// A descending-diagonal step pairs left with up or right with down.
    fn is_diagonaldes_move(m: &Moves) -> (r: bool)
        ensures
            r == family_move(InLineMoves::DIAGONALDES, *m),
    {
        match m {
            Moves::Move(MovesX::LEFT, MovesY::UP) => true,
            Moves::Move(MovesX::RIGHT, MovesY::DOWN) => true,
            _ => false,
        }
    }

    /// An ascending-diagonal step pairs left with down or right with up.
    fn is_diagonalasc_move(m: &Moves) -> (r: bool)
        ensures
            r == family_move(InLineMoves::DIAGONALASC, *m),
    {
        match m {
            Moves::Move(MovesX::LEFT, MovesY::DOWN) => true,
            Moves::Move(MovesX::RIGHT, MovesY::UP) => true,
            _ => false,
        }
    }

    /// A horizontal step leaves the row unchanged.
    fn is_horizontal_move(m: &Moves) -> (r: bool)
        ensures
            r == family_move(InLineMoves::HORIZONTAL, *m),
    {
        match m {
            Moves::Move(_, MovesY::NONE) => true,
            _ => false,
        }
    }

    /// A vertical step leaves the column unchanged.
    fn is_vertical_move(m: &Moves) -> (r: bool)
        ensures
            r == family_move(InLineMoves::VERTICAL, *m),
    {
        match m {
            Moves::Move(MovesX::NONE, _) => true,
            _ => false,
        }
    }
}

/// Whatever the filter keeps was already present and satisfies the test.
proof fn lemma_filter_subset(s: Seq<Moves>, pred: spec_fn(Moves) -> bool, m: Moves)
    requires
        s.filter(pred).contains(m),
    ensures
        s.contains(m),
        pred(m),
    decreases s.len(),
{
    reveal(Seq::filter);
    if s.len() > 0 {
        let sub = s.drop_last().filter(pred);
        if pred(s.last()) && m == s.last() {
            assert(s[s.len() - 1] == m);
        } else {
            if pred(s.last()) {
                let i = choose|i: int|
                    0 <= i < s.filter(pred).len() && s.filter(pred)[i] == m;
                assert(s.filter(pred) == sub.push(s.last()));
                assert(i < sub.len());
                assert(sub[i] == m);
            }
            lemma_filter_subset(s.drop_last(), pred, m);
            let j = choose|j: int| 0 <= j < s.drop_last().len() && s.drop_last()[j] == m;
            assert(s[j] == m);
        }
    }
}

/// Every parameter between the line's bounds names a grid cell of the line.
pub proof fn lemma_line_point_on_line(f: InLineMoves, p: Position, t: int, side: usize)
    requires
        pos_in_bounds(p, side),
        line_lo(f, p, side) <= t < line_hi(f, p, side),
    ensures
        on_line(f, p, line_point(f, p, t), side),
        line_param(f, line_point(f, p, t)) == t,
{
}

/// A line position's parameter lies between the line's bounds, and the
/// parameter determines the position.
pub proof fn lemma_on_line_param(f: InLineMoves, p: Position, q: Position, side: usize)
    requires
        on_line(f, p, q, side),
    ensures
        line_lo(f, p, side) <= line_param(f, q) < line_hi(f, p, side),
        line_point(f, p, line_param(f, q)) == q,
{
}

/// `line_seq` holds exactly the in-bounds positions collinear with `p`.
pub proof fn lemma_line_seq_membership(f: InLineMoves, p: Position, side: usize)
    requires
        pos_in_bounds(p, side),
    ensures
        forall|q: Position| #[trigger] line_seq(f, p, side).contains(q) ==> on_line(f, p, q, side),
        forall|q: Position| on_line(f, p, q, side) ==> #[trigger] line_seq(f, p, side).contains(q),
{
    let s = line_seq(f, p, side);
    let lo = line_lo(f, p, side);
    assert forall|q: Position| #[trigger] s.contains(q) implies on_line(f, p, q, side) by {
        let i = choose|i: int| 0 <= i < s.len() && s[i] == q;
        lemma_line_point_on_line(f, p, lo + i, side);
    }
    assert forall|q: Position| on_line(f, p, q, side) implies #[trigger] s.contains(q) by {
        lemma_on_line_param(f, p, q, side);
        let t = line_param(f, q);
        assert(s[t - lo] == q);
    }
}

/// `line_seq` is strictly ascending in lexicographic (column, row) order.
pub proof fn lemma_line_seq_sorted(f: InLineMoves, p: Position, side: usize)
    requires
        pos_in_bounds(p, side),
    ensures
        strictly_sorted_lex(line_seq(f, p, side)),
{
    let s = line_seq(f, p, side);
    let lo = line_lo(f, p, side);
    assert forall|i: int, j: int| 0 <= i < j < s.len() implies lex_lt(s[i], s[j]) by {
        lemma_line_point_on_line(f, p, lo + i, side);
        lemma_line_point_on_line(f, p, lo + j, side);
    }
}

/// A kept candidate step of family `f` lands on a family-`f` neighbor.
pub proof fn lemma_family_move_neighbor(f: InLineMoves, m: Moves, p: Position, side: usize)
    requires
        pos_in_bounds(p, side),
        all_moves_seq().contains(m),
        family_move(f, m),
        move_ok(m, p, side),
    ensures
        neighbor(f, p, stepped(m, p), side),
{
    let i = choose|i: int| 0 <= i < all_moves_seq().len() && all_moves_seq()[i] == m;
    assert(!(move_x(m) == MovesX::NONE && move_y(m) == MovesY::NONE)) by {
        if i == 0 {
            assert(m == Moves::Move(MovesX::LEFT, MovesY::NONE));
        } else if i == 1 {
            assert(m == Moves::Move(MovesX::LEFT, MovesY::UP));
        } else if i == 2 {
            assert(m == Moves::Move(MovesX::LEFT, MovesY::DOWN));
        } else if i == 3 {
            assert(m == Moves::Move(MovesX::RIGHT, MovesY::NONE));
        } else if i == 4 {
            assert(m == Moves::Move(MovesX::RIGHT, MovesY::UP));
        } else if i == 5 {
            assert(m == Moves::Move(MovesX::RIGHT, MovesY::DOWN));
        } else if i == 6 {
            assert(m == Moves::Move(MovesX::NONE, MovesY::UP));
        } else {
            assert(m == Moves::Move(MovesX::NONE, MovesY::DOWN));
        }
    }
}

/// Every family-`f` neighbor is reached by some kept single-step move.
pub proof fn lemma_neighbor_has_move(f: InLineMoves, a: Position, b: Position, side: usize)
    requires
        neighbor(f, a, b, side),
    ensures
        exists|m: Moves|
            #[trigger] spec_simple_moves(a, side).contains(m) && family_move(f, m) && stepped(
                m,
                a,
            ) == b,
{
    let forward: bool = line_param(f, b) == line_param(f, a) + 1;
    let m = match f {
        InLineMoves::VERTICAL => if forward {
            Moves::Move(MovesX::NONE, MovesY::DOWN)
        } else {
            Moves::Move(MovesX::NONE, MovesY::UP)
        },
        InLineMoves::HORIZONTAL => if forward {
            Moves::Move(MovesX::RIGHT, MovesY::NONE)
        } else {
            Moves::Move(MovesX::LEFT, MovesY::NONE)
        },
        InLineMoves::DIAGONALASC => if forward {
            Moves::Move(MovesX::RIGHT, MovesY::UP)
        } else {
            Moves::Move(MovesX::LEFT, MovesY::DOWN)
        },
        InLineMoves::DIAGONALDES => if forward {
            Moves::Move(MovesX::RIGHT, MovesY::DOWN)
        } else {
            Moves::Move(MovesX::LEFT, MovesY::UP)
        },
    };
    let idx: int = match f {
        InLineMoves::VERTICAL => if forward {
            7
        } else {
            6
        },
        InLineMoves::HORIZONTAL => if forward {
            3
        } else {
            0
        },
        InLineMoves::DIAGONALASC => if forward {
            4
        } else {
            2
        },
        InLineMoves::DIAGONALDES => if forward {
            5
        } else {
            1
        },
    };
    assert(all_moves_seq()[idx] == m);
    assert(move_ok(m, a, side));
    assert(stepped(m, a) == b);
    assert(family_move(f, m));
    Seq::<Moves>::lemma_filter_contains(all_moves_seq(), simple_pred(a, side), idx);
    assert(spec_simple_moves(a, side).contains(m));
}

/// A collection that holds `p0` and every family-`f` neighbor of each of its
/// members covers the whole line through `p0`.
pub proof fn lemma_closed_covers(
    f: InLineMoves,
    p0: Position,
    s: Seq<Position>,
    q: Position,
    side: usize,
)
    requires
        pos_in_bounds(p0, side),
        s.contains(p0),
        forall|a: Position, b: Position|
            s.contains(a) && #[trigger] neighbor(f, a, b, side) ==> s.contains(b),
        on_line(f, p0, q, side),
    ensures
        s.contains(q),
    decreases
            (if line_param(f, q) >= line_param(f, p0) {
                line_param(f, q) - line_param(f, p0)
            } else {
                line_param(f, p0) - line_param(f, q)
            }),
{
    let tp = line_param(f, p0);
    let tq = line_param(f, q);
    lemma_on_line_param(f, p0, q, side);
    lemma_on_line_param(f, p0, p0, side);
    if tq == tp {
        assert(q == p0);
    } else if tq > tp {
        let q2 = line_point(f, p0, tq - 1);
        lemma_line_point_on_line(f, p0, tq - 1, side);
        lemma_closed_covers(f, p0, s, q2, side);
        assert(neighbor(f, q2, q, side));
    } else {
        let q2 = line_point(f, p0, tq + 1);
        lemma_line_point_on_line(f, p0, tq + 1, side);
        lemma_closed_covers(f, p0, s, q2, side);
        assert(neighbor(f, q2, q, side));
    }
}

/// Distinct positions on one line have distinct parameters, so at most
/// `side` of them fit on the grid.
pub proof fn lemma_line_vec_bound(f: InLineMoves, p0: Position, s: Seq<Position>, side: usize)
    requires
        pos_in_bounds(p0, side),
        s.no_duplicates(),
        forall|i: int| 0 <= i < s.len() ==> on_line(f, p0, #[trigger] s[i], side),
    ensures
        s.len() <= side,
{
    let params = s.map_values(|q: Position| line_param(f, q));
    assert(params.len() == s.len());
    assert forall|i: int, j: int|
        0 <= i < params.len() && 0 <= j < params.len() && i != j implies params[i] != params[j] by {
        lemma_on_line_param(f, p0, s[i], side);
        lemma_on_line_param(f, p0, s[j], side);
        assert(s[i] != s[j]);
    }
    assert(params.no_duplicates());
    params.unique_seq_to_set();
    let range = vstd::set_lib::set_int_range(0, side as int);
    assert forall|x: int| params.to_set().contains(x) implies range.contains(x) by {
        let i = choose|i: int| 0 <= i < params.len() && params[i] == x;
        lemma_on_line_param(f, p0, s[i], side);
    }
    assert(params.to_set().subset_of(range));
    vstd::set_lib::lemma_int_range(0, side as int);
    vstd::set_lib::lemma_len_subset(params.to_set(), range);
}

/// Two strictly sorted enumerations of the same membership are equal.
pub proof fn lemma_strictly_sorted_same_members(s1: Seq<Position>, s2: Seq<Position>)
    requires
        strictly_sorted_lex(s1),
        strictly_sorted_lex(s2),
        forall|q: Position| #[trigger] s1.contains(q) ==> s2.contains(q),
        forall|q: Position| #[trigger] s2.contains(q) ==> s1.contains(q),
    ensures
        s1 == s2,
    decreases s1.len(),
{
    if s1.len() == 0 {
        if s2.len() > 0 {
            assert(s2.contains(s2[0]));
            assert(s1.contains(s2[0]));
        }
        assert(s1 =~= s2);
    } else {
        assert(s2.contains(s1[0])) by {
            assert(s1.contains(s1[0]));
        }
        assert(s1.contains(s2[0])) by {
            assert(s2.contains(s2[0]));
        }
        let k = choose|k: int| 0 <= k < s2.len() && s2[k] == s1[0];
        let h = choose|h: int| 0 <= h < s1.len() && s1[h] == s2[0];
        assert(s1[0] == s2[0]) by {
            if k > 0 {
                assert(lex_lt(s2[0], s2[k]));
            }
            if h > 0 {
                assert(lex_lt(s1[0], s1[h]));
            }
        }
        let t1 = s1.drop_first();
        let t2 = s2.drop_first();
        assert forall|q: Position| t1.contains(q) implies #[trigger] t2.contains(q) by {
            let i = choose|i: int| 0 <= i < t1.len() && t1[i] == q;
            assert(s1[i + 1] == q);
            assert(s1.contains(q));
            assert(lex_lt(s1[0], q));
            let j = choose|j: int| 0 <= j < s2.len() && s2[j] == q;
            assert(j > 0) by {
                if j == 0 {
                    assert(q == s1[0]);
                }
            }
            assert(t2[j - 1] == q);
        }
        assert forall|q: Position| t2.contains(q) implies #[trigger] t1.contains(q) by {
            let i = choose|i: int| 0 <= i < t2.len() && t2[i] == q;
            assert(s2[i + 1] == q);
            assert(s2.contains(q));
            assert(lex_lt(s2[0], q));
            let j = choose|j: int| 0 <= j < s1.len() && s1[j] == q;
            assert(j > 0) by {
                if j == 0 {
                    assert(q == s2[0]);
                }
            }
            assert(t1[j - 1] == q);
        }
        assert(strictly_sorted_lex(t1)) by {
            assert(forall|i: int, j: int|
                0 <= i < j < t1.len() ==> t1[i] == s1[i + 1] && t1[j] == s1[j + 1]);
        }
        assert(strictly_sorted_lex(t2)) by {
            assert(forall|i: int, j: int|
                0 <= i < j < t2.len() ==> t2[i] == s2[i + 1] && t2[j] == s2[j + 1]);
        }
        lemma_strictly_sorted_same_members(t1, t2);
        assert(s1 =~= s2) by {
            assert(forall|i: int| 1 <= i < s1.len() ==> s1[i] == t1[i - 1]);
            assert(forall|i: int| 1 <= i < s2.len() ==> s2[i] == t2[i - 1]);
        }
    }
}

/// A line always contains its start position.
pub proof fn lemma_line_contains_start(f: InLineMoves, p: Position, side: usize)
    requires
        pos_in_bounds(p, side),
    ensures
        line_seq(f, p, side).contains(p),
{
    lemma_line_seq_membership(f, p, side);
    assert(on_line(f, p, p, side));
}

/// A line is closed under its axis family: every in-bounds family neighbor
/// of a line position lies on the line as well.
pub proof fn lemma_line_closed(f: InLineMoves, p: Position, q: Position, b: Position, side: usize)
    requires
        pos_in_bounds(p, side),
        line_seq(f, p, side).contains(q),
        neighbor(f, q, b, side),
    ensures
        line_seq(f, p, side).contains(b),
{
    lemma_line_seq_membership(f, p, side);
    assert(on_line(f, p, q, side));
    assert(on_line(f, p, b, side));
}

/// The enumerated line does not depend on which of its positions the walk
/// starts from.
pub proof fn lemma_line_start_independent(f: InLineMoves, p1: Position, p2: Position, side: usize)
    requires
        on_line(f, p1, p2, side),
    ensures
        line_seq(f, p1, side) == line_seq(f, p2, side),
{
    assert(line_seq(f, p1, side) =~= line_seq(f, p2, side));
}

/// A start position beyond the grid on either axis, other than directly on
/// its edge, admits no single-step move at all.
pub proof fn lemma_simple_moves_empty_far_outside(p: Position, side: usize)
    requires
        p.0 > side || p.1 > side,
    ensures
        spec_simple_moves(p, side) == Seq::<Moves>::empty(),
{
    let s = spec_simple_moves(p, side);
    if s.len() > 0 {
        Seq::<Moves>::lemma_filter_pred(all_moves_seq(), simple_pred(p, side), 0);
        assert(move_ok(s[0], p, side));
        assert(step_x(move_x(s[0]), p.0) >= p.0 - 1);
        assert(step_y(move_y(s[0]), p.1) >= p.1 - 1);
    }
    assert(s =~= Seq::<Moves>::empty());
}

/// Linear scan for a position among those collected so far.
fn vec_contains_position(v: &Vec<Position>, p: Position) -> (r: bool)
    ensures
        r == v@.contains(p),
{
    let mut i: usize = 0;
    while i < v.len()
        invariant
            i <= v@.len(),
            forall|j: int| 0 <= j < i ==> v@[j] != p,
        decreases v@.len() - i,
    {
        let q = v[i];
        if q.0 == p.0 && q.1 == p.1 {
            assert(v@[i as int] == p);
            assert(v@.contains(p));
            return true;
        }
        i = i + 1;
    }
    proof {
        if v@.contains(p) {
            let j = choose|j: int| 0 <= j < v@.len() && v@[j] == p;
            assert(v@[j] != p);
        }
    }
    false
}

/// Place `e` at its lexicographic slot of an already sorted, duplicate-free
/// collection that does not hold it yet.
fn insert_sorted(out: &mut Vec<Position>, e: Position)
    requires
        strictly_sorted_lex(old(out)@),
        !old(out)@.contains(e),
    ensures
        strictly_sorted_lex(final(out)@),
        forall|q: Position| #[trigger] final(out)@.contains(q) ==> (old(out)@.contains(q) || q
            == e),
        forall|q: Position| old(out)@.contains(q) ==> #[trigger] final(out)@.contains(q),
        final(out)@.contains(e),
        final(out)@.len() == old(out)@.len() + 1,
{
    let ghost prev = out@;
    let len = out.len();
    let mut k: usize = 0;
    let mut ins: usize = len;
    let mut found: bool = false;
    while k < len
        invariant
            k <= len,
            len == prev.len(),
            out@ == prev,
            strictly_sorted_lex(prev),
            !prev.contains(e),
            !found ==> ins == len && (forall|t: int| 0 <= t < k ==> lex_lt(prev[t], e)),
            found ==> ins < len && lex_lt(e, prev[ins as int]) && (forall|t: int|
                0 <= t < ins ==> lex_lt(prev[t], e)),
        decreases len - k,
    {
        if !found {
            let c = out[k];
            if e.0 < c.0 || (e.0 == c.0 && e.1 < c.1) {
                ins = k;
                found = true;
            } else {
                proof {
                    assert(prev[k as int] != e) by {
                        if prev[k as int] == e {
                            assert(prev.contains(e));
                        }
                    }
                    assert(lex_lt(prev[k as int], e));
                }
            }
        }
        k = k + 1;
    }
    proof {
        assert(forall|t: int| 0 <= t < ins ==> lex_lt(prev[t], e));
        assert forall|t: int| ins <= t < len implies lex_lt(e, prev[t]) by {
            assert(found);
            if t > ins {
                assert(lex_lt(prev[ins as int], prev[t]));
            }
        }
    }
    out.insert(ins, e);
    proof {
        let now = out@;
        assert(now == prev.insert(ins as int, e));
        prev.insert_ensures(ins as int, e);
        assert forall|i: int, j: int| 0 <= i < j < now.len() implies lex_lt(now[i], now[j]) by {
            if j < ins {
                assert(now[i] == prev[i] && now[j] == prev[j]);
            } else if i > ins {
                assert(now[i] == prev[i - 1] && now[j] == prev[j - 1]);
            } else if i < ins && j == ins {
                assert(now[i] == prev[i] && now[j] == e);
            } else if i == ins && j > ins {
                assert(now[i] == e && now[j] == prev[j - 1]);
            } else if i < ins && j > ins {
                assert(now[i] == prev[i] && now[j] == prev[j - 1]);
                assert(lex_lt(prev[i], e));
                assert(lex_lt(e, prev[j - 1]));
            }
        }
        assert(now[ins as int] == e);
        assert(now.contains(e));
        assert forall|q: Position| #[trigger] now.contains(q) implies (prev.contains(q) || q
            == e) by {
            let i = choose|i: int| 0 <= i < now.len() && now[i] == q;
            if i < ins {
                assert(prev[i] == q);
            } else if i > ins {
                assert(prev[i - 1] == q);
            }
        }
        assert forall|q: Position| prev.contains(q) implies #[trigger] now.contains(q) by {
            let i = choose|i: int| 0 <= i < prev.len() && prev[i] == q;
            if i < ins {
                assert(now[i] == q);
            } else {
                assert(now[i + 1] == q);
            }
        }
    }
}

/// Ascending insertion sort of a duplicate-free collection of positions.
fn sort_positions(v: &Vec<Position>) -> (r: Vec<Position>)
    requires
        v@.no_duplicates(),
    ensures
        strictly_sorted_lex(r@),
        forall|q: Position| #[trigger] r@.contains(q) ==> v@.contains(q),
        forall|q: Position| v@.contains(q) ==> #[trigger] r@.contains(q),
{
    let mut out: Vec<Position> = Vec::new();
    let mut i: usize = 0;
    while i < v.len()
        invariant
            i <= v@.len(),
            v@.no_duplicates(),
            strictly_sorted_lex(out@),
            forall|q: Position| #[trigger] out@.contains(q) ==> v@.take(i as int).contains(q),
            forall|q: Position| v@.take(i as int).contains(q) ==> #[trigger] out@.contains(q),
        decreases v@.len() - i,
    {
        let e = v[i];
        proof {
            assert(!out@.contains(e)) by {
                if out@.contains(e) {
                    let j = choose|j: int|
                        0 <= j < v@.take(i as int).len() && v@.take(i as int)[j] == e;
                    assert(v@[j] == e);
                    assert(v@[i as int] == e);
                }
            }
        }
        insert_sorted(&mut out, e);
        proof {
            let taken = v@.take(i + 1);
            assert(taken.drop_last() =~= v@.take(i as int));
            assert(taken.last() == e);
            assert forall|q: Position| taken.contains(q) implies #[trigger] out@.contains(q) by {
                let j = choose|j: int| 0 <= j < taken.len() && taken[j] == q;
                if j < taken.len() - 1 {
                    assert(v@.take(i as int)[j] == q);
                    assert(v@.take(i as int).contains(q));
                }
            }
            assert forall|q: Position| #[trigger] out@.contains(q) implies taken.contains(q) by {
                if q == e {
                    assert(taken[taken.len() - 1] == q);
                } else {
                    assert(v@.take(i as int).contains(q));
                    let j = choose|j: int|
                        0 <= j < v@.take(i as int).len() && v@.take(i as int)[j] == q;
                    assert(taken[j] == q);
                }
            }
        }
        i = i + 1;
    }
    proof {
        assert(v@.take(v@.len() as int) =~= v@);
    }
    out
}

/// Collapse adjacent duplicates; a strictly sorted collection has none, so
/// it comes back unchanged.
fn dedup_sorted(v: &Vec<Position>) -> (r: Vec<Position>)
    requires
        strictly_sorted_lex(v@),
    ensures
        r@ == v@,
{
    let mut out: Vec<Position> = Vec::new();
    let mut i: usize = 0;
    while i < v.len()
        invariant
            i <= v@.len(),
            strictly_sorted_lex(v@),
            out@ == v@.take(i as int),
        decreases v@.len() - i,
    {
        let e = v[i];
        let mut keep: bool = true;
        if out.len() > 0 {
            let last = out[out.len() - 1];
            if last.0 == e.0 && last.1 == e.1 {
                keep = false;
                proof {
                    assert(out@[out@.len() - 1] == v@[i - 1]);
                    assert(lex_lt(v@[i - 1], v@[i as int]));
                }
            }
        }
        if keep {
            out.push(e);
        }
        proof {
            assert(out@ =~= v@.take(i + 1));
        }
        i = i + 1;
    }
    proof {
        assert(v@.take(v@.len() as int) =~= v@);
    }
    out
}

} // verus!
