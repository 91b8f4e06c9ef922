//! Chambers of a maze and the walks inside them: what recursive division
//! keeps true, so that a maze that it made has a walk between any two of
//! its cells that are no walls.

use crate::grid::adjacent;
use crate::grid::connects;
use crate::grid::passable;
use crate::grid::reachable;
use crate::grid::rectangular;
use crate::services::maze_generator::Cell;
use vstd::prelude::*;

verus! {

/// A rectangular part of a grid: from column `x` on, `width` wide, and from
/// row `y` on, `height` high.
pub struct Chamber {
    pub x: int,
    pub width: int,
    pub y: int,
    pub height: int,
}

impl Chamber {
    /// The chamber holds the position, a pair of a row and a column.
    pub open spec fn holds(self, at: (int, int)) -> bool {
        self.y <= at.0 < self.y + self.height && self.x <= at.1 < self.x + self.width
    }

    /// The last column of the chamber.
    pub open spec fn end_x(self) -> int {
        self.x + self.width - 1
    }

    /// The last row of the chamber.
    pub open spec fn end_y(self) -> int {
        self.y + self.height - 1
    }

    /// The part of the chamber above the row `wall`.
    pub open spec fn above(self, wall: int) -> Chamber {
        Chamber { height: wall - self.y, ..self }
    }

    /// The part of the chamber below the row `wall`.
    pub open spec fn below(self, wall: int) -> Chamber {
        Chamber { y: wall + 1, height: self.end_y() - wall, ..self }
    }

    /// The part of the chamber left of the column `wall`.
    pub open spec fn left_of(self, wall: int) -> Chamber {
        Chamber { width: wall - self.x, ..self }
    }

    /// The part of the chamber right of the column `wall`.
    pub open spec fn right_of(self, wall: int) -> Chamber {
        Chamber { x: wall + 1, width: self.end_x() - wall, ..self }
    }

    /// Every position of the chamber is a position of `other`.
    pub open spec fn within(self, other: Chamber) -> bool {
        forall|at: (int, int)| #[trigger] self.holds(at) ==> other.holds(at)
    }
}

/// The positions form a walk that stays in the chamber and on cells that
/// are no walls, the first cell too.
pub open spec fn walk_inside(grid: Seq<Seq<Cell>>, chamber: Chamber, walk: Seq<(int, int)>) -> bool {
    &&& walk.len() >= 1
    &&& forall|k: int|
        0 <= k < walk.len() ==> chamber.holds(#[trigger] walk[k]) && passable(grid, walk[k])
    &&& forall|k: int| 1 <= k < walk.len() ==> adjacent(walk[k - 1], #[trigger] walk[k])
}

/// A walk inside the chamber leads from `a` to `b`.
pub open spec fn linked(grid: Seq<Seq<Cell>>, chamber: Chamber, a: (int, int), b: (int, int)) -> bool {
    exists|walk: Seq<(int, int)>|
        #[trigger] walk_inside(grid, chamber, walk) && walk[0] == a && walk.last() == b
}

/// A walk inside the chamber leads from any cell of the chamber that is no
/// wall to any other.
pub open spec fn joined(grid: Seq<Seq<Cell>>, chamber: Chamber) -> bool {
    forall|a: (int, int), b: (int, int)|
        #![trigger chamber.holds(a), chamber.holds(b)]
        chamber.holds(a) && chamber.holds(b) && passable(grid, a) && passable(grid, b) ==> linked(
            grid,
            chamber,
            a,
            b,
        )
}

/// Every cell of the chamber is empty.
pub open spec fn all_empty(grid: Seq<Seq<Cell>>, chamber: Chamber) -> bool {
    forall|at: (int, int)| #[trigger] chamber.holds(at) ==> grid[at.0][at.1] == Cell::Empty
}

/// The chamber lies on the grid.
pub open spec fn on_grid(grid: Seq<Seq<Cell>>, chamber: Chamber) -> bool {
    forall|at: (int, int)| #[trigger]
        chamber.holds(at) ==> 0 <= at.0 < grid.len() && 0 <= at.1 < grid[at.0].len()
}

/// A cell that is no wall is linked to itself.
pub proof fn lemma_linked_self(grid: Seq<Seq<Cell>>, chamber: Chamber, a: (int, int))
    requires
        chamber.holds(a),
        passable(grid, a),
    ensures
        linked(grid, chamber, a, a),
{
    let walk = seq![a];
    assert(walk_inside(grid, chamber, walk));
    assert(walk[0] == a && walk.last() == a);
}

/// A walk goes on by a step to a neighbour in the chamber that is no wall.
pub proof fn lemma_linked_step(
    grid: Seq<Seq<Cell>>,
    chamber: Chamber,
    a: (int, int),
    b: (int, int),
    c: (int, int),
)
    requires
        linked(grid, chamber, a, b),
        adjacent(b, c),
        chamber.holds(c),
        passable(grid, c),
    ensures
        linked(grid, chamber, a, c),
{
    let walk = choose|walk: Seq<(int, int)>|
        #[trigger] walk_inside(grid, chamber, walk) && walk[0] == a && walk.last() == b;
    let longer = walk.push(c);
    assert forall|k: int| 0 <= k < longer.len() implies chamber.holds(#[trigger] longer[k])
        && passable(grid, longer[k]) by {
        if k < walk.len() {
            assert(chamber.holds(walk[k]) && passable(grid, walk[k]));
        }
    }
    assert forall|k: int| 1 <= k < longer.len() implies adjacent(
        longer[k - 1],
        #[trigger] longer[k],
    ) by {
        if k < walk.len() {
            assert(adjacent(walk[k - 1], walk[k]));
        }
    }
    assert(walk_inside(grid, chamber, longer));
    assert(longer[0] == a && longer.last() == c);
}

/// Two walks, the second from where the first ends, make one walk.
pub proof fn lemma_linked_chain(
    grid: Seq<Seq<Cell>>,
    chamber: Chamber,
    a: (int, int),
    b: (int, int),
    c: (int, int),
)
    requires
        linked(grid, chamber, a, b),
        linked(grid, chamber, b, c),
    ensures
        linked(grid, chamber, a, c),
{
    let first = choose|walk: Seq<(int, int)>|
        #[trigger] walk_inside(grid, chamber, walk) && walk[0] == a && walk.last() == b;
    let second = choose|walk: Seq<(int, int)>|
        #[trigger] walk_inside(grid, chamber, walk) && walk[0] == b && walk.last() == c;
    let whole = first + second.skip(1);
    assert forall|k: int| 0 <= k < whole.len() implies chamber.holds(#[trigger] whole[k])
        && passable(grid, whole[k]) by {
        if k < first.len() {
            assert(chamber.holds(first[k]) && passable(grid, first[k]));
        } else {
            let m = k - first.len() + 1;
            assert(whole[k] == second[m]);
            assert(chamber.holds(second[m]) && passable(grid, second[m]));
        }
    }
    assert forall|k: int| 1 <= k < whole.len() implies adjacent(whole[k - 1], #[trigger] whole[k]) by {
        if k < first.len() {
            assert(adjacent(first[k - 1], first[k]));
        } else {
            let m = k - first.len() + 1;
            assert(whole[k] == second[m]);
            assert(adjacent(second[m - 1], second[m]));
            if k == first.len() {
                assert(whole[k - 1] == first.last());
            } else {
                assert(whole[k - 1] == second[m - 1]);
            }
        }
    }
    assert(walk_inside(grid, chamber, whole));
    assert(whole[0] == a);
    assert(whole.last() == c) by {
        if second.len() == 1 {
            assert(whole =~= first);
        } else {
            assert(whole.last() == second.last());
        }
    }
}

/// A walk can be gone back.
pub proof fn lemma_linked_back(grid: Seq<Seq<Cell>>, chamber: Chamber, a: (int, int), b: (int, int))
    requires
        linked(grid, chamber, a, b),
    ensures
        linked(grid, chamber, b, a),
{
    let walk = choose|walk: Seq<(int, int)>|
        #[trigger] walk_inside(grid, chamber, walk) && walk[0] == a && walk.last() == b;
    let back = walk.reverse();
    assert forall|k: int| 0 <= k < back.len() implies chamber.holds(#[trigger] back[k])
        && passable(grid, back[k]) by {
        assert(chamber.holds(walk[walk.len() - 1 - k]) && passable(grid, walk[walk.len() - 1 - k]));
    }
    assert forall|k: int| 1 <= k < back.len() implies adjacent(back[k - 1], #[trigger] back[k]) by {
        assert(adjacent(walk[walk.len() - 1 - k], walk[walk.len() - k]));
    }
    assert(walk_inside(grid, chamber, back));
    assert(back[0] == b && back.last() == a);
}

/// A walk inside a chamber is a walk inside a chamber that holds it, and in
/// a grid in which the cells of the chamber that were no walls are no walls.
pub proof fn lemma_linked_wider(
    grid: Seq<Seq<Cell>>,
    chamber: Chamber,
    other_grid: Seq<Seq<Cell>>,
    wider: Chamber,
    a: (int, int),
    b: (int, int),
)
    requires
        linked(grid, chamber, a, b),
        chamber.within(wider),
        forall|at: (int, int)|
            chamber.holds(at) && #[trigger] passable(grid, at) ==> passable(other_grid, at),
    ensures
        linked(other_grid, wider, a, b),
{
    let walk = choose|walk: Seq<(int, int)>|
        #[trigger] walk_inside(grid, chamber, walk) && walk[0] == a && walk.last() == b;
    assert forall|k: int| 0 <= k < walk.len() implies wider.holds(#[trigger] walk[k]) && passable(
        other_grid,
        walk[k],
    ) by {
        assert(chamber.holds(walk[k]) && passable(grid, walk[k]));
    }
    assert(walk_inside(other_grid, wider, walk));
}

/// A chamber that is joined stays joined in a grid that has the same cells
/// in it.
pub proof fn lemma_joined_kept(grid: Seq<Seq<Cell>>, other_grid: Seq<Seq<Cell>>, chamber: Chamber)
    requires
        joined(grid, chamber),
        on_grid(grid, chamber),
        other_grid.len() == grid.len(),
        forall|r: int| 0 <= r < grid.len() ==> (#[trigger] other_grid[r]).len() == grid[r].len(),
        forall|at: (int, int)| #[trigger] chamber.holds(at) ==> other_grid[at.0][at.1] == grid[at.0][at.1],
    ensures
        joined(other_grid, chamber),
{
    assert forall|a: (int, int), b: (int, int)|
        #![trigger chamber.holds(a), chamber.holds(b)]
        chamber.holds(a) && chamber.holds(b) && passable(other_grid, a) && passable(
            other_grid,
            b,
        ) implies linked(other_grid, chamber, a, b) by {
        assert(passable(grid, a) && passable(grid, b));
        assert(chamber.within(chamber));
        assert forall|at: (int, int)|
            chamber.holds(at) && #[trigger] passable(grid, at) implies passable(other_grid, at) by {
            assert(other_grid[at.0].len() == grid[at.0].len());
        }
        lemma_linked_wider(grid, chamber, other_grid, chamber, a, b);
    }
}

/// Along a row of cells that are no walls, a walk leads from any cell to any
/// other.
pub proof fn lemma_row_linked(
    grid: Seq<Seq<Cell>>,
    chamber: Chamber,
    row: int,
    from: int,
    to: int,
)
    requires
        from <= to,
        forall|c: int|
            from <= c <= to ==> #[trigger] chamber.holds((row, c)) && passable(grid, (row, c)),
    ensures
        linked(grid, chamber, (row, from), (row, to)),
    decreases to - from,
{
    assert(chamber.holds((row, from)) && passable(grid, (row, from)));
    if from == to {
        lemma_linked_self(grid, chamber, (row, from));
    } else {
        lemma_row_linked(grid, chamber, row, from, to - 1);
        assert(chamber.holds((row, to)) && passable(grid, (row, to)));
        lemma_linked_step(grid, chamber, (row, from), (row, to - 1), (row, to));
    }
}

/// Along a column of cells that are no walls, a walk leads from any cell to
/// any other.
pub proof fn lemma_column_linked(
    grid: Seq<Seq<Cell>>,
    chamber: Chamber,
    col: int,
    from: int,
    to: int,
)
    requires
        from <= to,
        forall|r: int|
            from <= r <= to ==> #[trigger] chamber.holds((r, col)) && passable(grid, (r, col)),
    ensures
        linked(grid, chamber, (from, col), (to, col)),
    decreases to - from,
{
    assert(chamber.holds((from, col)) && passable(grid, (from, col)));
    if from == to {
        lemma_linked_self(grid, chamber, (from, col));
    } else {
        lemma_column_linked(grid, chamber, col, from, to - 1);
        assert(chamber.holds((to, col)) && passable(grid, (to, col)));
        lemma_linked_step(grid, chamber, (from, col), (to - 1, col), (to, col));
    }
}

/// A chamber without walls is joined.
pub proof fn lemma_open_chamber_joined(grid: Seq<Seq<Cell>>, chamber: Chamber)
    requires
        on_grid(grid, chamber),
        forall|at: (int, int)| #[trigger] chamber.holds(at) ==> passable(grid, at),
    ensures
        joined(grid, chamber),
{
    assert forall|a: (int, int), b: (int, int)|
        #![trigger chamber.holds(a), chamber.holds(b)]
        chamber.holds(a) && chamber.holds(b) && passable(grid, a) && passable(
            grid,
            b,
        ) implies linked(grid, chamber, a, b) by {
        // along the row of `a` to the column of `b`, then along that column
        let corner = (a.0, b.1);
        assert(chamber.holds(corner));
        assert forall|c: int|
            (if a.1 <= b.1 {
                a.1
            } else {
                b.1
            }) <= c <= (if a.1 <= b.1 {
                b.1
            } else {
                a.1
            }) implies #[trigger] chamber.holds((a.0, c)) && passable(grid, (a.0, c)) by {
            assert(chamber.holds((a.0, c)));
        }
        assert forall|r: int|
            (if a.0 <= b.0 {
                a.0
            } else {
                b.0
            }) <= r <= (if a.0 <= b.0 {
                b.0
            } else {
                a.0
            }) implies #[trigger] chamber.holds((r, b.1)) && passable(grid, (r, b.1)) by {
            assert(chamber.holds((r, b.1)));
        }
        if a.1 <= b.1 {
            lemma_row_linked(grid, chamber, a.0, a.1, b.1);
        } else {
            lemma_row_linked(grid, chamber, a.0, b.1, a.1);
            lemma_linked_back(grid, chamber, (a.0, b.1), (a.0, a.1));
        }
        if a.0 <= b.0 {
            lemma_column_linked(grid, chamber, b.1, a.0, b.0);
        } else {
            lemma_column_linked(grid, chamber, b.1, b.0, a.0);
            lemma_linked_back(grid, chamber, (b.0, b.1), (a.0, b.1));
        }
        lemma_linked_chain(grid, chamber, a, corner, b);
    }
}

/// Of the cell one step right and one step down from the first cell of the
/// chamber, of the cell left of it and of the cell above it, one is no
/// wall. This is said of a chamber of two or more rows and columns.
pub open spec fn near_corner(grid: Seq<Seq<Cell>>, chamber: Chamber) -> bool {
    chamber.width >= 2 && chamber.height >= 2 ==> {
        ||| passable(grid, (chamber.y + 1, chamber.x + 1))
        ||| passable(grid, (chamber.y + 1, chamber.x))
        ||| passable(grid, (chamber.y, chamber.x + 1))
    }
}

/// Of the cell one step left and one step up from the last cell of the
/// chamber, of the cell right of it and of the cell below it, one is no
/// wall. This is said of a chamber of two or more rows and columns whose
/// last row and last column have odd numbers.
pub open spec fn far_corner(grid: Seq<Seq<Cell>>, chamber: Chamber) -> bool {
    chamber.width >= 2 && chamber.height >= 2 && chamber.end_x() % 2 == 1 && chamber.end_y() % 2
        == 1 ==> {
        ||| passable(grid, (chamber.end_y() - 1, chamber.end_x() - 1))
        ||| passable(grid, (chamber.end_y() - 1, chamber.end_x()))
        ||| passable(grid, (chamber.end_y(), chamber.end_x() - 1))
    }
}

/// A chamber before it is divided: it lies on the grid, its first row and
/// its first column have odd numbers, and all its cells are empty.
pub open spec fn ready(grid: Seq<Seq<Cell>>, chamber: Chamber) -> bool {
    &&& on_grid(grid, chamber)
    &&& chamber.x >= 1
    &&& chamber.y >= 1
    &&& chamber.x % 2 == 1
    &&& chamber.y % 2 == 1
    &&& chamber.width >= 0
    &&& chamber.height >= 0
    &&& all_empty(grid, chamber)
}

/// What recursive division makes of a chamber that was ready: its cells are
/// walls or empty, those in a row and a column of odd numbers are empty, a
/// walk inside the chamber leads from any cell that is no wall to any other,
/// a chamber of one row or one column is left without walls, and near each
/// of the two corners a cell is no wall.
#[verifier::opaque]
pub open spec fn divided(grid: Seq<Seq<Cell>>, chamber: Chamber) -> bool {
    &&& forall|at: (int, int)|
        #[trigger] chamber.holds(at) ==> grid[at.0][at.1] == Cell::Wall || grid[at.0][at.1]
            == Cell::Empty
    &&& forall|at: (int, int)|
        #[trigger] chamber.holds(at) && at.0 % 2 == 1 && at.1 % 2 == 1 ==> grid[at.0][at.1]
            == Cell::Empty
    &&& joined(grid, chamber)
    &&& (chamber.width == 1 || chamber.height == 1) ==> all_empty(grid, chamber)
    &&& near_corner(grid, chamber)
    &&& far_corner(grid, chamber)
}

/// A chamber that is left as it was, ready, counts as divided.
pub proof fn lemma_undivided(grid: Seq<Seq<Cell>>, chamber: Chamber)
    requires
        ready(grid, chamber),
    ensures
        divided(grid, chamber),
{
    reveal(divided);
    assert forall|at: (int, int)| #[trigger] chamber.holds(at) implies passable(grid, at) by {}
    lemma_open_chamber_joined(grid, chamber);
    if chamber.width >= 2 && chamber.height >= 2 {
        assert(chamber.holds((chamber.y + 1, chamber.x + 1)));
        assert(chamber.holds((chamber.end_y() - 1, chamber.end_x() - 1)));
    }
}

/// What holds of a divided chamber holds of it in any grid that has the
/// same cells in it.
pub proof fn lemma_divided_kept(
    grid: Seq<Seq<Cell>>,
    other_grid: Seq<Seq<Cell>>,
    chamber: Chamber,
)
    requires
        divided(grid, chamber),
        on_grid(grid, chamber),
        chamber.width >= 0,
        chamber.height >= 0,
        other_grid.len() == grid.len(),
        forall|r: int| 0 <= r < grid.len() ==> (#[trigger] other_grid[r]).len() == grid[r].len(),
        forall|at: (int, int)| #[trigger]
            chamber.holds(at) ==> other_grid[at.0][at.1] == grid[at.0][at.1],
    ensures
        divided(other_grid, chamber),
{
    reveal(divided);
    lemma_joined_kept(grid, other_grid, chamber);
    assert forall|at: (int, int)| #[trigger] chamber.holds(at) implies (passable(other_grid, at)
        <==> passable(grid, at)) by {
        assert(other_grid[at.0].len() == grid[at.0].len());
    }
    if chamber.width >= 2 && chamber.height >= 2 {
        assert(chamber.holds((chamber.y + 1, chamber.x + 1)));
        assert(chamber.holds((chamber.y + 1, chamber.x)));
        assert(chamber.holds((chamber.y, chamber.x + 1)));
        assert(chamber.holds((chamber.end_y() - 1, chamber.end_x() - 1)));
        assert(chamber.holds((chamber.end_y() - 1, chamber.end_x())));
        assert(chamber.holds((chamber.end_y(), chamber.end_x() - 1)));
    }
    assert forall|at: (int, int)| #[trigger] chamber.holds(at) implies other_grid[at.0][at.1]
        == Cell::Wall || other_grid[at.0][at.1] == Cell::Empty by {}
}

/// The row `wall` of the chamber is a wall with one passage, in the column
/// `passage`.
pub open spec fn walled_row(grid: Seq<Seq<Cell>>, chamber: Chamber, wall: int, passage: int) -> bool {
    &&& chamber.y < wall <= chamber.end_y()
    &&& wall % 2 == 0
    &&& chamber.x <= passage <= chamber.end_x()
    &&& passage % 2 == 1
    &&& forall|c: int|
        chamber.x <= c <= chamber.end_x() ==> #[trigger] grid[wall][c] == (if c == passage {
            Cell::Empty
        } else {
            Cell::Wall
        })
}

/// The column `wall` of the chamber is a wall with one passage, in the row
/// `passage`.
pub open spec fn walled_column(
    grid: Seq<Seq<Cell>>,
    chamber: Chamber,
    wall: int,
    passage: int,
) -> bool {
    &&& chamber.x < wall <= chamber.end_x()
    &&& wall % 2 == 0
    &&& chamber.y <= passage <= chamber.end_y()
    &&& passage % 2 == 1
    &&& forall|r: int|
        chamber.y <= r <= chamber.end_y() ==> #[trigger] grid[r][wall] == (if r == passage {
            Cell::Empty
        } else {
            Cell::Wall
        })
}

/// What recursive division builds in a chamber. A chamber of at most two
/// rows and two columns is left empty. A larger one holds a wall with one
/// passage: along a row where the chamber is not wider than high, along a
/// column where it is not higher than wide; and what lies on either side of
/// the wall is built in the same way.
pub open spec fn carved(grid: Seq<Seq<Cell>>, chamber: Chamber) -> bool
    decreases chamber.width + chamber.height,
{
    if chamber.width <= 0 || chamber.height <= 0 {
        true
    } else if chamber.width <= 2 && chamber.height <= 2 {
        all_empty(grid, chamber)
    } else {
        ||| chamber.width <= chamber.height && exists|wall: int, passage: int|
            #[trigger] walled_row(grid, chamber, wall, passage) && carved(
                grid,
                chamber.above(wall),
            ) && carved(grid, chamber.below(wall))
        ||| chamber.height <= chamber.width && exists|wall: int, passage: int|
            #[trigger] walled_column(grid, chamber, wall, passage) && carved(
                grid,
                chamber.left_of(wall),
            ) && carved(grid, chamber.right_of(wall))
    }
}

/// What was built in a chamber is built in it in any grid that has the same
/// cells in it.
pub proof fn lemma_carved_kept(grid: Seq<Seq<Cell>>, other_grid: Seq<Seq<Cell>>, chamber: Chamber)
    requires
        carved(grid, chamber),
        forall|at: (int, int)| #[trigger]
            chamber.holds(at) ==> other_grid[at.0][at.1] == grid[at.0][at.1],
    ensures
        carved(other_grid, chamber),
    decreases chamber.width + chamber.height,
{
    if chamber.width <= 0 || chamber.height <= 0 {
    } else if chamber.width <= 2 && chamber.height <= 2 {
    } else if chamber.width <= chamber.height && exists|wall: int, passage: int|
        #[trigger] walled_row(grid, chamber, wall, passage) && carved(grid, chamber.above(wall))
            && carved(grid, chamber.below(wall)) {
        let (wall, passage) = choose|wall: int, passage: int|
            #[trigger] walled_row(grid, chamber, wall, passage) && carved(
                grid,
                chamber.above(wall),
            ) && carved(grid, chamber.below(wall));
        assert forall|at: (int, int)| #[trigger] chamber.above(wall).holds(at) implies chamber.holds(
            at,
        ) by {}
        assert forall|at: (int, int)| #[trigger] chamber.below(wall).holds(at) implies chamber.holds(
            at,
        ) by {}
        lemma_carved_kept(grid, other_grid, chamber.above(wall));
        lemma_carved_kept(grid, other_grid, chamber.below(wall));
        assert forall|c: int| chamber.x <= c <= chamber.end_x() implies #[trigger] other_grid[wall][c]
            == grid[wall][c] by {
            assert(chamber.holds((wall, c)));
        }
        assert(walled_row(other_grid, chamber, wall, passage));
    } else {
        let (wall, passage) = choose|wall: int, passage: int|
            #[trigger] walled_column(grid, chamber, wall, passage) && carved(
                grid,
                chamber.left_of(wall),
            ) && carved(grid, chamber.right_of(wall));
        assert forall|at: (int, int)| #[trigger] chamber.left_of(wall).holds(
            at,
        ) implies chamber.holds(at) by {}
        assert forall|at: (int, int)| #[trigger] chamber.right_of(wall).holds(
            at,
        ) implies chamber.holds(at) by {}
        lemma_carved_kept(grid, other_grid, chamber.left_of(wall));
        lemma_carved_kept(grid, other_grid, chamber.right_of(wall));
        assert forall|r: int| chamber.y <= r <= chamber.end_y() implies #[trigger] other_grid[r][wall]
            == grid[r][wall] by {
            assert(chamber.holds((r, wall)));
        }
        assert(walled_column(other_grid, chamber, wall, passage));
    }
}

/// From any cell of a chamber that a row divides, a walk leads to the cell
/// above the passage.
proof fn lemma_row_anchor(
    grid: Seq<Seq<Cell>>,
    chamber: Chamber,
    wall: int,
    passage: int,
    a: (int, int),
)
    requires
        on_grid(grid, chamber),
        walled_row(grid, chamber, wall, passage),
        divided(grid, chamber.above(wall)),
        divided(grid, chamber.below(wall)),
        chamber.holds(a),
        passable(grid, a),
    ensures
        linked(grid, chamber, a, (wall - 1, passage)),
{
    reveal(divided);
    let top = chamber.above(wall);
    let bottom = chamber.below(wall);
    let anchor = (wall - 1, passage);
    let gap = (wall, passage);
    assert(top.holds(anchor));
    assert(chamber.holds(anchor) && chamber.holds(gap));
    assert(grid[anchor.0][anchor.1] == Cell::Empty);
    assert(grid[wall][passage] == Cell::Empty);
    assert(passable(grid, anchor) && passable(grid, gap));
    assert(top.within(chamber));
    assert(bottom.within(chamber));
    if a.0 < wall {
        assert(top.holds(a));
        assert(linked(grid, top, a, anchor));
        lemma_linked_wider(grid, top, grid, chamber, a, anchor);
    } else if a.0 == wall {
        assert(grid[wall][a.1] == Cell::Empty);
        assert(a == gap);
        lemma_linked_self(grid, chamber, a);
        lemma_linked_step(grid, chamber, a, a, anchor);
    } else {
        let below = (wall + 1, passage);
        assert(bottom.holds(a));
        assert(bottom.holds(below));
        assert(chamber.holds(below));
        assert(grid[below.0][below.1] == Cell::Empty);
        assert(passable(grid, below));
        assert(linked(grid, bottom, a, below));
        lemma_linked_wider(grid, bottom, grid, chamber, a, below);
        lemma_linked_step(grid, chamber, a, below, gap);
        lemma_linked_step(grid, chamber, a, gap, anchor);
    }
}

/// A chamber that a wall along a row with one passage divides in two
/// divided chambers is divided.
pub proof fn lemma_divided_by_row(
    grid: Seq<Seq<Cell>>,
    chamber: Chamber,
    wall: int,
    passage: int,
)
    requires
        on_grid(grid, chamber),
        chamber.x % 2 == 1,
        chamber.y % 2 == 1,
        walled_row(grid, chamber, wall, passage),
        divided(grid, chamber.above(wall)),
        divided(grid, chamber.below(wall)),
    ensures
        divided(grid, chamber),
{
    let top = chamber.above(wall);
    let bottom = chamber.below(wall);
    assert forall|a: (int, int), b: (int, int)|
        #![trigger chamber.holds(a), chamber.holds(b)]
        chamber.holds(a) && chamber.holds(b) && passable(grid, a) && passable(
            grid,
            b,
        ) implies linked(grid, chamber, a, b) by {
        let anchor = (wall - 1, passage);
        lemma_row_anchor(grid, chamber, wall, passage, a);
        lemma_row_anchor(grid, chamber, wall, passage, b);
        lemma_linked_back(grid, chamber, b, anchor);
        lemma_linked_chain(grid, chamber, a, anchor, b);
    }
    reveal(divided);
    assert forall|at: (int, int)| #[trigger] chamber.holds(at) implies (grid[at.0][at.1]
        == Cell::Wall || grid[at.0][at.1] == Cell::Empty) && (at.0 % 2 == 1 && at.1 % 2 == 1
        ==> grid[at.0][at.1] == Cell::Empty) by {
        if at.0 < wall {
            assert(top.holds(at));
        } else if at.0 > wall {
            assert(bottom.holds(at));
        } else {
            assert(grid[wall][at.1] == Cell::Wall || grid[wall][at.1] == Cell::Empty);
        }
    }
    if chamber.width == 1 {
        assert forall|at: (int, int)| #[trigger] chamber.holds(at) implies grid[at.0][at.1]
            == Cell::Empty by {
            if at.0 < wall {
                assert(top.holds(at));
            } else if at.0 > wall {
                assert(bottom.holds(at));
            } else {
                assert(grid[wall][at.1] == Cell::Empty);
            }
        }
    }
    if chamber.width >= 2 && chamber.height >= 2 {
        if wall == chamber.y + 1 {
            assert(top.holds((chamber.y, chamber.x + 1)));
            assert(chamber.holds((chamber.y, chamber.x + 1)));
        } else {
            assert(top.holds((chamber.y + 1, chamber.x + 1)));
        }
        if chamber.end_x() % 2 == 1 && chamber.end_y() % 2 == 1 {
            if wall == chamber.end_y() - 1 {
                assert(bottom.holds((chamber.end_y(), chamber.end_x() - 1)));
                assert(chamber.holds((chamber.end_y(), chamber.end_x() - 1)));
            } else {
                assert(bottom.end_y() == chamber.end_y());
                assert(bottom.end_x() == chamber.end_x());
                assert(bottom.height >= 2);
            }
        }
    }
}

/// From any cell of a chamber that a column divides, a walk leads to the
/// cell left of the passage.
proof fn lemma_column_anchor(
    grid: Seq<Seq<Cell>>,
    chamber: Chamber,
    wall: int,
    passage: int,
    a: (int, int),
)
    requires
        on_grid(grid, chamber),
        walled_column(grid, chamber, wall, passage),
        divided(grid, chamber.left_of(wall)),
        divided(grid, chamber.right_of(wall)),
        chamber.holds(a),
        passable(grid, a),
    ensures
        linked(grid, chamber, a, (passage, wall - 1)),
{
    reveal(divided);
    let left = chamber.left_of(wall);
    let right = chamber.right_of(wall);
    let anchor = (passage, wall - 1);
    let gap = (passage, wall);
    assert(left.holds(anchor));
    assert(chamber.holds(anchor) && chamber.holds(gap));
    assert(grid[anchor.0][anchor.1] == Cell::Empty);
    assert(grid[passage][wall] == Cell::Empty);
    assert(passable(grid, anchor) && passable(grid, gap));
    assert(left.within(chamber));
    assert(right.within(chamber));
    if a.1 < wall {
        assert(left.holds(a));
        assert(linked(grid, left, a, anchor));
        lemma_linked_wider(grid, left, grid, chamber, a, anchor);
    } else if a.1 == wall {
        assert(grid[a.0][wall] == Cell::Empty);
        assert(a == gap);
        lemma_linked_self(grid, chamber, a);
        lemma_linked_step(grid, chamber, a, a, anchor);
    } else {
        let beside = (passage, wall + 1);
        assert(right.holds(a));
        assert(right.holds(beside));
        assert(chamber.holds(beside));
        assert(grid[beside.0][beside.1] == Cell::Empty);
        assert(passable(grid, beside));
        assert(linked(grid, right, a, beside));
        lemma_linked_wider(grid, right, grid, chamber, a, beside);
        lemma_linked_step(grid, chamber, a, beside, gap);
        lemma_linked_step(grid, chamber, a, gap, anchor);
    }
}

/// A chamber that a wall along a column with one passage divides in two
/// divided chambers is divided.
pub proof fn lemma_divided_by_column(
    grid: Seq<Seq<Cell>>,
    chamber: Chamber,
    wall: int,
    passage: int,
)
    requires
        on_grid(grid, chamber),
        chamber.x % 2 == 1,
        chamber.y % 2 == 1,
        walled_column(grid, chamber, wall, passage),
        divided(grid, chamber.left_of(wall)),
        divided(grid, chamber.right_of(wall)),
    ensures
        divided(grid, chamber),
{
    let left = chamber.left_of(wall);
    let right = chamber.right_of(wall);
    assert forall|a: (int, int), b: (int, int)|
        #![trigger chamber.holds(a), chamber.holds(b)]
        chamber.holds(a) && chamber.holds(b) && passable(grid, a) && passable(
            grid,
            b,
        ) implies linked(grid, chamber, a, b) by {
        let anchor = (passage, wall - 1);
        lemma_column_anchor(grid, chamber, wall, passage, a);
        lemma_column_anchor(grid, chamber, wall, passage, b);
        lemma_linked_back(grid, chamber, b, anchor);
        lemma_linked_chain(grid, chamber, a, anchor, b);
    }
    reveal(divided);
    assert forall|at: (int, int)| #[trigger] chamber.holds(at) implies (grid[at.0][at.1]
        == Cell::Wall || grid[at.0][at.1] == Cell::Empty) && (at.0 % 2 == 1 && at.1 % 2 == 1
        ==> grid[at.0][at.1] == Cell::Empty) by {
        if at.1 < wall {
            assert(left.holds(at));
        } else if at.1 > wall {
            assert(right.holds(at));
        } else {
            assert(grid[at.0][wall] == Cell::Wall || grid[at.0][wall] == Cell::Empty);
        }
    }
    if chamber.height == 1 {
        assert forall|at: (int, int)| #[trigger] chamber.holds(at) implies grid[at.0][at.1]
            == Cell::Empty by {
            if at.1 < wall {
                assert(left.holds(at));
            } else if at.1 > wall {
                assert(right.holds(at));
            } else {
                assert(grid[at.0][wall] == Cell::Empty);
            }
        }
    }
    if chamber.width >= 2 && chamber.height >= 2 {
        if wall == chamber.x + 1 {
            assert(left.holds((chamber.y + 1, chamber.x)));
            assert(chamber.holds((chamber.y + 1, chamber.x)));
        } else {
            assert(left.holds((chamber.y + 1, chamber.x + 1)));
        }
        if chamber.end_x() % 2 == 1 && chamber.end_y() % 2 == 1 {
            if wall == chamber.end_x() - 1 {
                assert(right.holds((chamber.end_y() - 1, chamber.end_x())));
                assert(chamber.holds((chamber.end_y() - 1, chamber.end_x())));
            } else {
                assert(right.end_y() == chamber.end_y());
                assert(right.end_x() == chamber.end_x());
                assert(right.width >= 2);
            }
        }
    }
}

/// The grid `after` is the grid `before` but for cells of the chamber.
pub open spec fn only_changed_in(
    before: Seq<Seq<Cell>>,
    after: Seq<Seq<Cell>>,
    chamber: Chamber,
) -> bool {
    &&& after.len() == before.len()
    &&& forall|r: int| 0 <= r < before.len() ==> (#[trigger] after[r]).len() == before[r].len()
    &&& forall|at: (int, int)|
        0 <= at.0 < before.len() && 0 <= at.1 < before[at.0].len() && !(#[trigger] chamber.holds(
            at,
        )) ==> after[at.0][at.1] == before[at.0][at.1]
}

/// The grid `after` is the grid `before` but for cells of the chamber that
/// became walls or empty.
pub open spec fn touched(before: Seq<Seq<Cell>>, after: Seq<Seq<Cell>>, chamber: Chamber) -> bool {
    &&& only_changed_in(before, after, chamber)
    &&& forall|at: (int, int)|
        0 <= at.0 < before.len() && 0 <= at.1 < before[at.0].len() && #[trigger] chamber.holds(at)
            ==> after[at.0][at.1] == before[at.0][at.1] || after[at.0][at.1] == Cell::Wall
            || after[at.0][at.1] == Cell::Empty
}

/// What was touched in two chambers of a chamber, one after the other, was
/// touched in the chamber.
pub proof fn lemma_touched_chain(
    first: Seq<Seq<Cell>>,
    second: Seq<Seq<Cell>>,
    third: Seq<Seq<Cell>>,
    one: Chamber,
    other: Chamber,
    outer: Chamber,
)
    requires
        touched(first, second, one),
        touched(second, third, other),
        one.within(outer),
        other.within(outer),
    ensures
        touched(first, third, outer),
{
    lemma_changes_chain(first, second, third, one, other, outer);
    assert forall|at: (int, int)|
        0 <= at.0 < first.len() && 0 <= at.1 < first[at.0].len() && #[trigger] outer.holds(
            at,
        ) implies third[at.0][at.1] == first[at.0][at.1] || third[at.0][at.1] == Cell::Wall
        || third[at.0][at.1] == Cell::Empty by {
        assert(second[at.0].len() == first[at.0].len());
        if !one.holds(at) {
            assert(second[at.0][at.1] == first[at.0][at.1]);
        }
        if !other.holds(at) {
            assert(third[at.0][at.1] == second[at.0][at.1]);
        }
    }
}

/// The grid `after` is the grid `before` with a wall along the row `wall`
/// of the chamber, and with a passage in the column `passage`.
pub open spec fn row_walled(
    before: Seq<Seq<Cell>>,
    after: Seq<Seq<Cell>>,
    chamber: Chamber,
    wall: int,
    passage: int,
) -> bool {
    &&& after.len() == before.len()
    &&& forall|r: int| 0 <= r < before.len() ==> (#[trigger] after[r]).len() == before[r].len()
    &&& chamber.y < wall <= chamber.end_y()
    &&& wall % 2 == 0
    &&& chamber.x <= passage <= chamber.end_x()
    &&& passage % 2 == 1
    &&& forall|at: (int, int)|
        0 <= at.0 < before.len() && 0 <= at.1 < before[at.0].len() ==> #[trigger] after[at.0][at.1]
            == (if at.0 == wall && chamber.x <= at.1 <= chamber.end_x() {
            if at.1 == passage {
                Cell::Empty
            } else {
                Cell::Wall
            }
        } else {
            before[at.0][at.1]
        })
}

/// The grid `after` is the grid `before` with a wall along the column
/// `wall` of the chamber, and with a passage in the row `passage`.
pub open spec fn column_walled(
    before: Seq<Seq<Cell>>,
    after: Seq<Seq<Cell>>,
    chamber: Chamber,
    wall: int,
    passage: int,
) -> bool {
    &&& after.len() == before.len()
    &&& forall|r: int| 0 <= r < before.len() ==> (#[trigger] after[r]).len() == before[r].len()
    &&& chamber.x < wall <= chamber.end_x()
    &&& wall % 2 == 0
    &&& chamber.y <= passage <= chamber.end_y()
    &&& passage % 2 == 1
    &&& forall|at: (int, int)|
        0 <= at.0 < before.len() && 0 <= at.1 < before[at.0].len() ==> #[trigger] after[at.0][at.1]
            == (if at.1 == wall && chamber.y <= at.0 <= chamber.end_y() {
            if at.0 == passage {
                Cell::Empty
            } else {
                Cell::Wall
            }
        } else {
            before[at.0][at.1]
        })
}

/// A chamber without a cell counts as divided, whatever the grid.
pub proof fn lemma_divided_nothing(grid: Seq<Seq<Cell>>, chamber: Chamber)
    requires
        chamber.width <= 0 || chamber.height <= 0,
    ensures
        divided(grid, chamber),
{
    reveal(divided);
    assert forall|at: (int, int)| !(#[trigger] chamber.holds(at)) by {}
}

/// Above a wall along a row, the chamber is ready to be divided.
pub proof fn lemma_ready_above(
    before: Seq<Seq<Cell>>,
    walled: Seq<Seq<Cell>>,
    chamber: Chamber,
    wall: int,
    passage: int,
)
    requires
        ready(before, chamber),
        row_walled(before, walled, chamber, wall, passage),
    ensures
        ready(walled, chamber.above(wall)),
        on_grid(walled, chamber),
{
    let top = chamber.above(wall);
    assert forall|at: (int, int)| #[trigger] chamber.holds(at) implies 0 <= at.0 < walled.len()
        && 0 <= at.1 < walled[at.0].len() by {
        assert(walled[at.0].len() == before[at.0].len());
    }
    assert forall|at: (int, int)| #[trigger] top.holds(at) implies 0 <= at.0 < walled.len() && 0
        <= at.1 < walled[at.0].len() && walled[at.0][at.1] == Cell::Empty by {
        assert(chamber.holds(at));
    }
}

/// Below a wall along a row, the chamber is ready to be divided, whatever
/// was done above the wall.
pub proof fn lemma_ready_below(
    before: Seq<Seq<Cell>>,
    walled: Seq<Seq<Cell>>,
    above_done: Seq<Seq<Cell>>,
    chamber: Chamber,
    wall: int,
    passage: int,
)
    requires
        ready(before, chamber),
        row_walled(before, walled, chamber, wall, passage),
        only_changed_in(walled, above_done, chamber.above(wall)),
    ensures
        ready(above_done, chamber.below(wall)),
{
    let top = chamber.above(wall);
    let bottom = chamber.below(wall);
    assert forall|at: (int, int)| #[trigger] bottom.holds(at) implies 0 <= at.0 < above_done.len()
        && 0 <= at.1 < above_done[at.0].len() && above_done[at.0][at.1] == Cell::Empty by {
        assert(chamber.holds(at));
        assert(!top.holds(at));
        assert(walled[at.0].len() == before[at.0].len());
        assert(above_done[at.0].len() == walled[at.0].len());
        assert(walled[at.0][at.1] == before[at.0][at.1]);
    }
}

/// A chamber with a wall along a row, with one passage, and with the
/// chambers above and below the wall divided, is divided, and nothing
/// outside it was changed.
pub proof fn lemma_division_by_row(
    before: Seq<Seq<Cell>>,
    walled: Seq<Seq<Cell>>,
    above_done: Seq<Seq<Cell>>,
    after: Seq<Seq<Cell>>,
    chamber: Chamber,
    wall: int,
    passage: int,
)
    requires
        ready(before, chamber),
        row_walled(before, walled, chamber, wall, passage),
        only_changed_in(walled, above_done, chamber.above(wall)),
        divided(above_done, chamber.above(wall)),
        only_changed_in(above_done, after, chamber.below(wall)),
        divided(after, chamber.below(wall)),
        carved(above_done, chamber.above(wall)),
        carved(after, chamber.below(wall)),
        chamber.width >= 1,
        chamber.width <= chamber.height,
        chamber.height > 2,
    ensures
        divided(after, chamber),
        only_changed_in(before, after, chamber),
        carved(after, chamber),
{
    let top = chamber.above(wall);
    let bottom = chamber.below(wall);
    lemma_ready_above(before, walled, chamber, wall, passage);
    assert forall|r: int| 0 <= r < before.len() implies (#[trigger] after[r]).len()
        == before[r].len() && above_done[r].len() == before[r].len() by {
        assert(walled[r].len() == before[r].len());
        assert(above_done[r].len() == walled[r].len());
    }
    assert(on_grid(above_done, top)) by {
        assert forall|at: (int, int)| #[trigger] top.holds(at) implies 0 <= at.0
            < above_done.len() && 0 <= at.1 < above_done[at.0].len() by {
            assert(chamber.holds(at));
        }
    }
    assert forall|at: (int, int)| #[trigger] top.holds(at) implies after[at.0][at.1]
        == above_done[at.0][at.1] by {
        assert(chamber.holds(at));
        assert(!bottom.holds(at));
    }
    lemma_divided_kept(above_done, after, top);
    assert(on_grid(after, chamber)) by {
        assert forall|at: (int, int)| #[trigger] chamber.holds(at) implies 0 <= at.0 < after.len()
            && 0 <= at.1 < after[at.0].len() by {}
    }
    assert(walled_row(after, chamber, wall, passage)) by {
        assert forall|c: int| chamber.x <= c <= chamber.end_x() implies #[trigger] after[wall][c]
            == (if c == passage {
            Cell::Empty
        } else {
            Cell::Wall
        }) by {
            let at = (wall, c);
            assert(chamber.holds(at));
            assert(!top.holds(at));
            assert(!bottom.holds(at));
            assert(above_done[at.0][at.1] == walled[at.0][at.1]);
            assert(after[at.0][at.1] == above_done[at.0][at.1]);
        }
    }
    lemma_divided_by_row(after, chamber, wall, passage);
    lemma_carved_kept(above_done, after, top);
    assert forall|at: (int, int)|
        0 <= at.0 < before.len() && 0 <= at.1 < before[at.0].len() && !(#[trigger] chamber.holds(
            at,
        )) implies after[at.0][at.1] == before[at.0][at.1] by {
        assert(!top.holds(at));
        assert(!bottom.holds(at));
        assert(walled[at.0][at.1] == before[at.0][at.1]);
        assert(above_done[at.0][at.1] == walled[at.0][at.1]);
    }
}

/// Left of a wall along a column, the chamber is ready to be divided.
pub proof fn lemma_ready_left(
    before: Seq<Seq<Cell>>,
    walled: Seq<Seq<Cell>>,
    chamber: Chamber,
    wall: int,
    passage: int,
)
    requires
        ready(before, chamber),
        column_walled(before, walled, chamber, wall, passage),
    ensures
        ready(walled, chamber.left_of(wall)),
        on_grid(walled, chamber),
{
    let left = chamber.left_of(wall);
    assert forall|at: (int, int)| #[trigger] chamber.holds(at) implies 0 <= at.0 < walled.len()
        && 0 <= at.1 < walled[at.0].len() by {
        assert(walled[at.0].len() == before[at.0].len());
    }
    assert forall|at: (int, int)| #[trigger] left.holds(at) implies 0 <= at.0 < walled.len() && 0
        <= at.1 < walled[at.0].len() && walled[at.0][at.1] == Cell::Empty by {
        assert(chamber.holds(at));
    }
}

/// Right of a wall along a column, the chamber is ready to be divided,
/// whatever was done left of the wall.
pub proof fn lemma_ready_right(
    before: Seq<Seq<Cell>>,
    walled: Seq<Seq<Cell>>,
    left_done: Seq<Seq<Cell>>,
    chamber: Chamber,
    wall: int,
    passage: int,
)
    requires
        ready(before, chamber),
        column_walled(before, walled, chamber, wall, passage),
        only_changed_in(walled, left_done, chamber.left_of(wall)),
    ensures
        ready(left_done, chamber.right_of(wall)),
{
    let left = chamber.left_of(wall);
    let right = chamber.right_of(wall);
    assert forall|at: (int, int)| #[trigger] right.holds(at) implies 0 <= at.0 < left_done.len()
        && 0 <= at.1 < left_done[at.0].len() && left_done[at.0][at.1] == Cell::Empty by {
        assert(chamber.holds(at));
        assert(!left.holds(at));
        assert(walled[at.0].len() == before[at.0].len());
        assert(left_done[at.0].len() == walled[at.0].len());
        assert(walled[at.0][at.1] == before[at.0][at.1]);
    }
}

/// A chamber with a wall along a column, with one passage, and with the
/// chambers left and right of the wall divided, is divided, and nothing
/// outside it was changed.
pub proof fn lemma_division_by_column(
    before: Seq<Seq<Cell>>,
    walled: Seq<Seq<Cell>>,
    left_done: Seq<Seq<Cell>>,
    after: Seq<Seq<Cell>>,
    chamber: Chamber,
    wall: int,
    passage: int,
)
    requires
        ready(before, chamber),
        column_walled(before, walled, chamber, wall, passage),
        only_changed_in(walled, left_done, chamber.left_of(wall)),
        divided(left_done, chamber.left_of(wall)),
        only_changed_in(left_done, after, chamber.right_of(wall)),
        divided(after, chamber.right_of(wall)),
        carved(left_done, chamber.left_of(wall)),
        carved(after, chamber.right_of(wall)),
        chamber.height >= 1,
        chamber.height <= chamber.width,
        chamber.width > 2,
    ensures
        divided(after, chamber),
        only_changed_in(before, after, chamber),
        carved(after, chamber),
{
    let left = chamber.left_of(wall);
    let right = chamber.right_of(wall);
    lemma_ready_left(before, walled, chamber, wall, passage);
    assert forall|r: int| 0 <= r < before.len() implies (#[trigger] after[r]).len()
        == before[r].len() && left_done[r].len() == before[r].len() by {
        assert(walled[r].len() == before[r].len());
        assert(left_done[r].len() == walled[r].len());
    }
    assert(on_grid(left_done, left)) by {
        assert forall|at: (int, int)| #[trigger] left.holds(at) implies 0 <= at.0
            < left_done.len() && 0 <= at.1 < left_done[at.0].len() by {
            assert(chamber.holds(at));
        }
    }
    assert forall|at: (int, int)| #[trigger] left.holds(at) implies after[at.0][at.1]
        == left_done[at.0][at.1] by {
        assert(chamber.holds(at));
        assert(!right.holds(at));
    }
    lemma_divided_kept(left_done, after, left);
    assert(on_grid(after, chamber)) by {
        assert forall|at: (int, int)| #[trigger] chamber.holds(at) implies 0 <= at.0 < after.len()
            && 0 <= at.1 < after[at.0].len() by {}
    }
    assert(walled_column(after, chamber, wall, passage)) by {
        assert forall|r: int| chamber.y <= r <= chamber.end_y() implies #[trigger] after[r][wall]
            == (if r == passage {
            Cell::Empty
        } else {
            Cell::Wall
        }) by {
            let at = (r, wall);
            assert(chamber.holds(at));
            assert(!left.holds(at));
            assert(!right.holds(at));
            assert(left_done[at.0][at.1] == walled[at.0][at.1]);
            assert(after[at.0][at.1] == left_done[at.0][at.1]);
        }
    }
    lemma_divided_by_column(after, chamber, wall, passage);
    lemma_carved_kept(left_done, after, left);
    assert forall|at: (int, int)|
        0 <= at.0 < before.len() && 0 <= at.1 < before[at.0].len() && !(#[trigger] chamber.holds(
            at,
        )) implies after[at.0][at.1] == before[at.0][at.1] by {
        assert(!left.holds(at));
        assert(!right.holds(at));
        assert(walled[at.0][at.1] == before[at.0][at.1]);
        assert(left_done[at.0][at.1] == walled[at.0][at.1]);
    }
}

/// The part of a grid of the height and the width inside its border.
pub open spec fn interior(height: int, width: int) -> Chamber {
    Chamber { x: 1, width: width - 2, y: 1, height: height - 2 }
}

/// A walk inside a chamber is a walk.
pub proof fn lemma_linked_reachable(
    grid: Seq<Seq<Cell>>,
    chamber: Chamber,
    a: (int, int),
    b: (int, int),
)
    requires
        linked(grid, chamber, a, b),
    ensures
        reachable(grid, a, b),
{
    let walk = choose|walk: Seq<(int, int)>|
        #[trigger] walk_inside(grid, chamber, walk) && walk[0] == a && walk.last() == b;
    assert(passable(grid, walk[0]));
    assert forall|k: int| 1 <= k < walk.len() implies adjacent(walk[k - 1], #[trigger] walk[k])
        && passable(grid, walk[k]) by {}
    assert(connects(grid, walk, a, b));
}

/// A cell that is no wall is linked to a neighbour that is no wall, and to
/// itself.
proof fn lemma_linked_near(grid: Seq<Seq<Cell>>, chamber: Chamber, a: (int, int), b: (int, int))
    requires
        chamber.holds(a),
        chamber.holds(b),
        passable(grid, a),
        passable(grid, b),
        a == b || adjacent(a, b),
    ensures
        linked(grid, chamber, a, b),
{
    lemma_linked_self(grid, chamber, a);
    if a != b {
        lemma_linked_step(grid, chamber, a, a, b);
    }
}

/// In a grid whose part inside the border was divided, and in which then one
/// cell became the entry and another the exit, a walk leads from the entry
/// to the exit. The exit is three columns from the right and three rows
/// from the bottom; the entry is in column two of row two, or in column one
/// of row one where the exit has that place.
pub proof fn lemma_entry_reaches_exit(
    before: Seq<Seq<Cell>>,
    after: Seq<Seq<Cell>>,
    height: int,
    width: int,
)
    requires
        rectangular(before, height, width),
        rectangular(after, height, width),
        width >= 4,
        height >= 4,
        divided(before, interior(height, width)),
        forall|r: int, c: int|
            0 <= r < height && 0 <= c < width ==> #[trigger] after[r][c] == (if r == height - 3
                && c == width - 3 {
                Cell::Exit
            } else if (r, c) == (if width == 5 && height == 5 {
                (1int, 1int)
            } else {
                (2int, 2int)
            }) {
                Cell::Entry
            } else {
                before[r][c]
            }),
    ensures
        reachable(
            after,
            if width == 5 && height == 5 {
                (1int, 1int)
            } else {
                (2int, 2int)
            },
            (height - 3, width - 3),
        ),
{
    reveal(divided);
    let inner = interior(height, width);
    let entry: (int, int) = if width == 5 && height == 5 {
        (1, 1)
    } else {
        (2, 2)
    };
    let exit = (height - 3, width - 3);
    assert forall|at: (int, int)| #[trigger] inner.holds(at) implies 0 <= at.0 < height && 0
        <= at.1 < width && before[at.0].len() == width && after[at.0].len() == width by {}
    assert forall|at: (int, int)| inner.holds(at) && #[trigger] passable(before, at) implies passable(
        after,
        at,
    ) by {
        assert(after[at.0][at.1] == Cell::Exit || after[at.0][at.1] == Cell::Entry
            || after[at.0][at.1] == before[at.0][at.1]);
    }
    // a cell beside the entry, or the entry itself, was no wall
    assert(inner.holds(entry) && inner.holds((2, 1)) && inner.holds((1, 2)) && inner.holds((1, 1)));
    let near: (int, int) = if passable(before, entry) {
        entry
    } else if passable(before, (2, 1)) {
        (2, 1)
    } else {
        (1, 2)
    };
    assert(passable(before, near)) by {
        if entry == (1int, 1int) {
            assert(before[1][1] == Cell::Empty);
        }
    }
    // a cell beside the exit, or the exit itself, was no wall
    let right = (exit.0, exit.1 + 1);
    let below = (exit.0 + 1, exit.1);
    assert(inner.holds(exit) && inner.holds(right) && inner.holds(below));
    assert(inner.end_x() == exit.1 + 1 && inner.end_y() == exit.0 + 1);
    let far: (int, int) = if passable(before, exit) {
        exit
    } else if passable(before, right) {
        right
    } else {
        below
    };
    assert(passable(before, far)) by {
        if exit.0 % 2 == 1 && exit.1 % 2 == 1 {
            assert(before[exit.0][exit.1] == Cell::Empty);
        } else if exit.0 % 2 == 1 {
            assert(before[right.0][right.1] == Cell::Empty);
        } else if exit.1 % 2 == 1 {
            assert(before[below.0][below.1] == Cell::Empty);
        }
    }
    assert(inner.holds(near) && inner.holds(far));
    assert(linked(before, inner, near, far));
    assert(inner.within(inner));
    lemma_linked_wider(before, inner, after, inner, near, far);
    assert(after[entry.0][entry.1] == Cell::Entry);
    assert(after[exit.0][exit.1] == Cell::Exit);
    assert(passable(after, entry) && passable(after, exit));
    lemma_linked_near(after, inner, entry, near);
    lemma_linked_near(after, inner, far, exit);
    lemma_linked_chain(after, inner, entry, near, far);
    lemma_linked_chain(after, inner, entry, far, exit);
    lemma_linked_reachable(after, inner, entry, exit);
}

/// The cells of a divided chamber are walls or empty, and those in a row
/// and a column of odd numbers are empty.
pub proof fn lemma_divided_cells(grid: Seq<Seq<Cell>>, chamber: Chamber)
    requires
        divided(grid, chamber),
    ensures
        forall|at: (int, int)|
            #[trigger] chamber.holds(at) ==> grid[at.0][at.1] == Cell::Wall || grid[at.0][at.1]
                == Cell::Empty,
        forall|at: (int, int)|
            #[trigger] chamber.holds(at) && at.0 % 2 == 1 && at.1 % 2 == 1 ==> grid[at.0][at.1]
                == Cell::Empty,
{
    reveal(divided);
}

/// What was changed in two chambers of a chamber, one after the other, was
/// changed in the chamber.
pub proof fn lemma_changes_chain(
    first: Seq<Seq<Cell>>,
    second: Seq<Seq<Cell>>,
    third: Seq<Seq<Cell>>,
    one: Chamber,
    other: Chamber,
    outer: Chamber,
)
    requires
        only_changed_in(first, second, one),
        only_changed_in(second, third, other),
        one.within(outer),
        other.within(outer),
    ensures
        only_changed_in(first, third, outer),
{
    assert forall|r: int| 0 <= r < first.len() implies (#[trigger] third[r]).len()
        == first[r].len() by {
        assert(second[r].len() == first[r].len());
    }
    assert forall|at: (int, int)|
        0 <= at.0 < first.len() && 0 <= at.1 < first[at.0].len() && !(#[trigger] outer.holds(
            at,
        )) implies third[at.0][at.1] == first[at.0][at.1] by {
        assert(!one.holds(at));
        assert(!other.holds(at));
        assert(second[at.0].len() == first[at.0].len());
        assert(second[at.0][at.1] == first[at.0][at.1]);
    }
}

} // verus!
