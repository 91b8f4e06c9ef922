//! The depth-first solver.

use crate::coords::Coords;
use crate::grid::adjacent;
use crate::grid::connects;
use crate::grid::inside;
use crate::grid::is_walk;
use crate::grid::passable;
use crate::grid::reachable;
use crate::grid::rectangular;
use crate::grid::shaped;
use crate::maze_solver_algorithms::positions;
use crate::maze_solver_algorithms::step_from;
use crate::maze_solver_algorithms::stepped;
use crate::services::maze_generator::Cell;
use crate::services::maze_generator::Maze;
use crate::services::marks::last_mark;
use crate::services::marks::lemma_last_mark_concat;
use crate::services::marks::lemma_last_mark_push;
use crate::services::marks::lemma_marks_at_concat;
use crate::services::marks::lemma_marks_at_push;
use crate::services::marks::lemma_step_gives_a_mark;
use crate::services::marks::marked_once;
use crate::services::marks::marks_at;
use crate::services::marks::off_the_walls;
use crate::services::marks::lemma_visits_then_path_joined;
use crate::services::marks::lemma_visits_then_path_pushed;
use crate::services::marks::visits_then_path;
use crate::services::marks::path_marked;
use crate::services::mazer::lemma_logged_chain;
use crate::services::mazer::lemma_logged_nothing;
use crate::services::mazer::lemma_logged_push;
use crate::services::mazer::logged;
use crate::services::mazer::MazeSolverReturnType;
use crate::services::mazer::MazeStep;
use crate::steps::chronological;
use crate::steps::lemma_recorded_from_empty;
use crate::steps::lemma_recorded_nothing;
use crate::steps::recorded;
use std::collections::VecDeque;
use vstd::prelude::*;

verus! {

/// The marks of the search as a sequence of rows.
pub open spec fn flags(visited: Seq<Vec<bool>>) -> Seq<Seq<bool>> {
    Seq::new(visited.len(), |r: int| visited[r]@)
}

/// The marks cover a grid of `height` rows of `width` cells.
#[verifier::opaque]
pub open spec fn covers(marks: Seq<Seq<bool>>, height: int, width: int) -> bool {
    &&& marks.len() == height
    &&& forall|r: int| 0 <= r < height ==> (#[trigger] marks[r]).len() == width
}

/// The position is marked.
pub open spec fn marked(marks: Seq<Seq<bool>>, at: (int, int)) -> bool {
    0 <= at.0 < marks.len() && 0 <= at.1 < marks[at.0].len() && marks[at.0][at.1]
}

/// The number of cells of a row that are not marked.
pub open spec fn unmarked_in_row(row: Seq<bool>) -> nat
    decreases row.len(),
{
    if row.len() == 0 {
        0
    } else {
        unmarked_in_row(row.drop_last()) + if row.last() {
            0nat
        } else {
            1nat
        }
    }
}

/// The number of cells that are not marked.
pub open spec fn unmarked(marks: Seq<Seq<bool>>) -> nat
    decreases marks.len(),
{
    if marks.len() == 0 {
        0
    } else {
        unmarked(marks.drop_last()) + unmarked_in_row(marks.last())
    }
}

/// Every mark of `before` is a mark of `after`.
#[verifier::opaque]
pub open spec fn grown(before: Seq<Seq<bool>>, after: Seq<Seq<bool>>) -> bool {
    &&& after.len() == before.len()
    &&& forall|r: int| 0 <= r < before.len() ==> (#[trigger] after[r]).len() == before[r].len()
    &&& forall|r: int, c: int|
        0 <= r < before.len() && 0 <= c < before[r].len() && before[r][c] ==> #[trigger] after[r][c]
}

proof fn lemma_unmarked_in_row_grown(before: Seq<bool>, after: Seq<bool>)
    requires
        before.len() == after.len(),
        forall|c: int| 0 <= c < before.len() && before[c] ==> after[c],
    ensures
        unmarked_in_row(after) <= unmarked_in_row(before),
    decreases before.len(),
{
    if before.len() > 0 {
        lemma_unmarked_in_row_grown(before.drop_last(), after.drop_last());
    }
}

proof fn lemma_unmarked_in_row_marked(row: Seq<bool>, c: int)
    requires
        0 <= c < row.len(),
        !row[c],
    ensures
        unmarked_in_row(row.update(c, true)) + 1 == unmarked_in_row(row),
    decreases row.len(),
{
    if c == row.len() - 1 {
        assert(row.update(c, true).drop_last() =~= row.drop_last());
    } else {
        lemma_unmarked_in_row_marked(row.drop_last(), c);
        assert(row.update(c, true).drop_last() =~= row.drop_last().update(c, true));
    }
}

/// A grid without marks has as many unmarked cells as it has cells.
pub proof fn lemma_unmarked_all(marks: Seq<Seq<bool>>, height: int, width: int)
    requires
        shaped(marks, height, width),
        forall|r: int, c: int| 0 <= r < height && 0 <= c < width ==> !(#[trigger] marks[r][c]),
    ensures
        unmarked(marks) == height * width,
    decreases height,
{
    if height > 0 {
        let rest = marks.drop_last();
        assert(shaped(rest, height - 1, width)) by {
            assert forall|r: int| 0 <= r < height - 1 implies (#[trigger] rest[r]).len()
                == width by {
                assert(marks[r].len() == width);
            }
        }
        assert forall|r: int, c: int| 0 <= r < height - 1 && 0 <= c < width implies !(
        #[trigger] rest[r][c]) by {
            assert(!marks[r][c]);
        }
        lemma_unmarked_all(rest, height - 1, width);
        assert(marks.last().len() == width);
        assert forall|c: int| 0 <= c < width implies !(#[trigger] marks.last()[c]) by {
            assert(!marks[height - 1][c]);
        }
        lemma_unmarked_all_of_row(marks.last());
        assert((height - 1) * width + width == height * width) by (nonlinear_arith);
    } else {
        assert(height * width == 0) by (nonlinear_arith)
            requires
                height == 0,
        ;
    }
}

proof fn lemma_unmarked_all_of_row(row: Seq<bool>)
    requires
        forall|c: int| 0 <= c < row.len() ==> !(#[trigger] row[c]),
    ensures
        unmarked_in_row(row) == row.len(),
    decreases row.len(),
{
    if row.len() > 0 {
        lemma_unmarked_all_of_row(row.drop_last());
    }
}

/// Where marks were only added, no more cells are unmarked than before.
pub proof fn lemma_unmarked_grown(before: Seq<Seq<bool>>, after: Seq<Seq<bool>>)
    requires
        grown(before, after),
    ensures
        unmarked(after) <= unmarked(before),
    decreases before.len(),
{
    reveal(grown);
    if before.len() > 0 {
        let last = before.len() - 1;
        assert(after[last].len() == before[last].len());
        assert forall|c: int| 0 <= c < before.last().len() && before.last()[c] implies after.last()[c] by {
            assert(after[last][c]);
        }
        lemma_unmarked_in_row_grown(before.last(), after.last());
        assert(grown(before.drop_last(), after.drop_last())) by {
            assert forall|r: int| 0 <= r < before.drop_last().len() implies (
            #[trigger] after.drop_last()[r]).len() == before.drop_last()[r].len() by {
                assert(after[r].len() == before[r].len());
            }
            assert forall|r: int, c: int|
                0 <= r < before.drop_last().len() && 0 <= c < before.drop_last()[r].len()
                    && before.drop_last()[r][c] implies #[trigger] after.drop_last()[r][c] by {
                assert(after[r][c]);
            }
        }
        lemma_unmarked_grown(before.drop_last(), after.drop_last());
    }
}

/// Marking a cell that was not marked leaves one unmarked cell less.
pub proof fn lemma_unmarked_marked(marks: Seq<Seq<bool>>, r: int, c: int)
    requires
        0 <= r < marks.len(),
        0 <= c < marks[r].len(),
        !marks[r][c],
    ensures
        unmarked(marks.update(r, marks[r].update(c, true))) + 1 == unmarked(marks),
    decreases marks.len(),
{
    let after = marks.update(r, marks[r].update(c, true));
    if r == marks.len() - 1 {
        assert(after.drop_last() =~= marks.drop_last());
        lemma_unmarked_in_row_marked(marks[r], c);
    } else {
        lemma_unmarked_marked(marks.drop_last(), r, c);
        assert(after.drop_last() =~= marks.drop_last().update(r, marks[r].update(c, true)));
    }
}

/// The walk avoids the marked cells, but for its first cell, which may be
/// marked.
#[verifier::opaque]
pub open spec fn avoids(walk: Seq<(int, int)>, marks: Seq<Seq<bool>>) -> bool {
    forall|k: int| 1 <= k < walk.len() ==> !marked(marks, #[trigger] walk[k])
}

/// The cells that were marked since `before` are closed: none of them is
/// `end`, and every neighbour of such a cell that is no wall is marked.
#[verifier::opaque]
pub open spec fn closed_since(
    grid: Seq<Seq<Cell>>,
    before: Seq<Seq<bool>>,
    after: Seq<Seq<bool>>,
    end: (int, int),
) -> bool {
    &&& forall|at: (int, int)| #[trigger] marked(after, at) && !marked(before, at) ==> at != end
    &&& forall|at: (int, int), next: (int, int)|
        #![trigger marked(after, at), adjacent(at, next)]
        marked(after, at) && !marked(before, at) && adjacent(at, next) && passable(grid, next)
            ==> marked(after, next)
}

/// Every neighbour of the cell that is no wall is marked.
#[verifier::opaque]
pub open spec fn surrounded(grid: Seq<Seq<Cell>>, marks: Seq<Seq<bool>>, at: (int, int)) -> bool {
    forall|next: (int, int)| #[trigger]
        adjacent(at, next) && passable(grid, next) ==> marked(marks, next)
}

/// A walk from a cell whose neighbours are all marked, through cells that
/// were not marked before a search, stays on cells that the search marked
/// and closed. It cannot end on `end`, which no search marks.
proof fn lemma_no_walk_out(
    grid: Seq<Seq<Cell>>,
    before: Seq<Seq<bool>>,
    after: Seq<Seq<bool>>,
    start: (int, int),
    end: (int, int),
    walk: Seq<(int, int)>,
    upto: int,
)
    requires
        closed_since(grid, before, after, end),
        surrounded(grid, after, start),
        is_walk(grid, walk),
        walk[0] == start,
        avoids(walk, before),
        1 <= upto < walk.len(),
    ensures
        marked(after, walk[upto]),
        !marked(before, walk[upto]),
        walk[upto] != end,
    decreases upto,
{
    reveal(avoids);
    reveal(closed_since);
    reveal(surrounded);
    assert(adjacent(walk[upto - 1], walk[upto]) && passable(grid, walk[upto]));
    if upto == 1 {
        assert(marked(after, walk[1]));
    } else {
        lemma_no_walk_out(grid, before, after, start, end, walk, upto - 1);
        assert(marked(after, walk[upto - 1]) && adjacent(walk[upto - 1], walk[upto]));
    }
    assert(!marked(before, walk[upto]));
}

/// The cells that were marked since `before`, but for `except`, are closed:
/// none of them is `end`, and every neighbour of such a cell that is no wall
/// is marked.
#[verifier::opaque]
pub open spec fn closed_since_but(
    grid: Seq<Seq<Cell>>,
    before: Seq<Seq<bool>>,
    after: Seq<Seq<bool>>,
    end: (int, int),
    except: (int, int),
) -> bool {
    &&& forall|at: (int, int)| #[trigger]
        marked(after, at) && !marked(before, at) && at != except ==> at != end
    &&& forall|at: (int, int), next: (int, int)|
        #![trigger marked(after, at), adjacent(at, next)]
        marked(after, at) && !marked(before, at) && at != except && adjacent(at, next) && passable(
            grid,
            next,
        ) ==> marked(after, next)
}

/// The walk that a path stands for: the path is kept from its end to its
/// start and without the end of the walk.
pub open spec fn walk_of(path: Seq<(usize, usize)>, end: (int, int)) -> Seq<(int, int)> {
    positions(path).reverse().push(end)
}

/// What the log of a search says of each cell by its last mark: a cell of
/// the path is on the path, any other cell that the search came to is
/// visited, and no other cell is marked.
pub open spec fn search_marks(
    log: Seq<MazeStep>,
    path: Seq<(usize, usize)>,
    marks: Seq<Seq<bool>>,
) -> bool {
    forall|at: (int, int)| #[trigger]
        last_mark(chronological(log), at) == (if positions(path).contains(at) {
            Some(Cell::Path)
        } else if marked(marks, at) {
            Some(Cell::Visited)
        } else {
            None
        })
}

/// What the log of a search has recorded for each cell, step by step. A
/// cell of the path was recorded as visited and later as on the path, once
/// each; any other cell that the search came to was recorded as visited
/// once; no other cell was recorded. No cell is twice in the path, the
/// search came to every cell of the path, and the cells that it came to are
/// no walls, but perhaps the cell `start`. The visits come first, the
/// first of them that of `start`, and then the cells of the path as the
/// path holds them.
pub open spec fn search_log(
    grid: Seq<Seq<Cell>>,
    log: Seq<MazeStep>,
    path: Seq<(usize, usize)>,
    marks: Seq<Seq<bool>>,
    start: (int, int),
) -> bool {
    &&& positions(path).no_duplicates()
    &&& forall|at: (int, int)| #[trigger] positions(path).contains(at) ==> marked(marks, at)
    &&& forall|at: (int, int)| #[trigger]
        marks_at(chronological(log), at) == (if positions(path).contains(at) {
            seq![Cell::Visited, Cell::Path]
        } else if marked(marks, at) {
            seq![Cell::Visited]
        } else {
            Seq::empty()
        })
    &&& forall|at: (int, int)| #[trigger] marked(marks, at) ==> passable(grid, at) || at == start
    &&& off_the_walls(grid, chronological(log), start)
    &&& visits_then_path(chronological(log), positions(path))
    &&& log.len() > 0 ==> chronological(log)[0].at() == start && chronological(log)[0].cell_type
        == Cell::Visited
}

/// What a search that started with no cell marked has recorded.
proof fn lemma_search_log(
    grid: Seq<Seq<Cell>>,
    steps: Seq<MazeStep>,
    path: Seq<(usize, usize)>,
    nothing: Seq<Seq<bool>>,
    marks: Seq<Seq<bool>>,
    from: (int, int),
    to: (int, int),
)
    requires
        forall|at: (int, int)| !marked(nothing, at),
        marks_given(
            grid,
            chronological(steps),
            nothing,
            marks,
            path,
            if from == to {
                None
            } else {
                Some(from)
            },
            None,
        ),
        from != to ==> marked(marks, from),
        from == to ==> steps.len() == 0,
    ensures
        search_log(grid, steps, path, marks, from),
{
    reveal(marks_given);
    let log = chronological(steps);
    assert forall|at: (int, int)| newly_marked(nothing, marks, at) == marked(marks, at) by {
        assert(!marked(nothing, at));
    }
    assert forall|at: (int, int)| #[trigger] positions(path).contains(at) implies marked(
        marks,
        at,
    ) by {
        assert(newly_marked(nothing, marks, at) == marked(marks, at));
    }
    assert forall|at: (int, int)| #[trigger]
        marks_at(log, at) == (if positions(path).contains(at) {
            seq![Cell::Visited, Cell::Path]
        } else if marked(marks, at) {
            seq![Cell::Visited]
        } else {
            Seq::empty()
        }) by {
        assert(newly_marked(nothing, marks, at) == marked(marks, at));
    }
    assert forall|at: (int, int)| #[trigger] marked(marks, at) implies passable(grid, at) || at
        == from by {
        assert(newly_marked(nothing, marks, at));
    }
    assert forall|n: int| 0 <= n < log.len() implies passable(grid, (#[trigger] log[n]).at())
        || log[n].at() == from by {
        lemma_step_gives_a_mark(log, n);
        let at = log[n].at();
        assert(marks_at(log, at).len() > 0);
        assert(marked(marks, at));
    }
}

/// Whether a walk leads from `start` to `end`, and the path of one where it
/// does.
///
/// Returns the path, whether there is a walk, the cells that the search came
/// to, and the log of the search. The path runs from the cell before `end`
/// back to `start`. The start must lie in the maze.
pub fn is_path_between(maze: &Maze, start: Coords<usize>, end: Coords<usize>) -> (result: (
    Vec<(usize, usize)>,
    bool,
    Vec<Vec<bool>>,
    VecDeque<MazeStep>,
))
    requires
        maze.wf(),
        maze.holds(start.x as int, start.y as int),
    ensures
        result.1 <==> reachable(
            maze.grid(),
            (start.y as int, start.x as int),
            (end.y as int, end.x as int),
        ),
        result.1 ==> connects(
            maze.grid(),
            walk_of(result.0@, (end.y as int, end.x as int)),
            (start.y as int, start.x as int),
            (end.y as int, end.x as int),
        ),
        !result.1 ==> result.0@.len() == 0,
        covers(flags(result.2@), maze.height as int, maze.width as int),
        logged(maze.grid(), Seq::empty(), result.3@),
        search_marks(result.3@, result.0@, flags(result.2@)),
        search_log(
            maze.grid(),
            result.3@,
            result.0@,
            flags(result.2@),
            (start.y as int, start.x as int),
        ),
        result.1 && (start.y as int, start.x as int) != (end.y as int, end.x as int)
            ==> ends_with_path_mark(chronological(result.3@), start),
        result.3@.len() + unmarked(flags(result.2@)) == maze.height * maze.width + result.0@.len(),
        result.0@.len() + unmarked(flags(result.2@)) <= maze.height * maze.width,
        result.3@.len() <= 2 * maze.height * maze.width,
{
    let mut visited: Vec<Vec<bool>> = Vec::new();
    let mut row: usize = 0;
    while row < maze.height
        invariant
            row <= maze.height,
            visited@.len() == row,
            forall|r: int| 0 <= r < row ==> (#[trigger] visited@[r])@ == Seq::new(
                maze.width as nat,
                |c: int| false,
            ),
        decreases maze.height - row,
    {
        let mut flags_of_row: Vec<bool> = Vec::new();
        let mut col: usize = 0;
        while col < maze.width
            invariant
                col <= maze.width,
                flags_of_row@ == Seq::new(col as nat, |c: int| false),
            decreases maze.width - col,
        {
            flags_of_row.push(false);
            col += 1;
            assert(flags_of_row@ =~= Seq::new(col as nat, |c: int| false));
        }
        visited.push(flags_of_row);
        row += 1;
    }
    let mut path: Vec<(usize, usize)> = Vec::new();
    let mut steps: VecDeque<MazeStep> = VecDeque::new();
    let ghost unmarked_all = flags(visited@);
    proof {
        reveal(covers);
        assert forall|r: int| 0 <= r < maze.height implies (#[trigger] unmarked_all[r]).len()
            == maze.width by {
            assert(unmarked_all[r] == visited@[r]@);
        }
    }
    proof {
        reveal(covers);
        assert(shaped(unmarked_all, maze.height as int, maze.width as int));
        assert forall|r: int, c: int|
            0 <= r < maze.height && 0 <= c < maze.width implies !(#[trigger] unmarked_all[r][c]) by {
            assert(unmarked_all[r] == visited@[r]@);
        }
        lemma_unmarked_all(unmarked_all, maze.height as int, maze.width as int);
    }
    let result = dfs_path_exists(maze, &mut visited, start, end, &mut path, &mut steps);
    proof {
        let grid = maze.grid();
        let from = (start.y as int, start.x as int);
        let to = (end.y as int, end.x as int);
        assert(path@.skip(0) =~= path@);
        lemma_recorded_from_empty(steps@);
        assert(search_marks(steps@, path@, flags(visited@))) by {
            reveal(marks_left);
            assert forall|at: (int, int)| !marked(unmarked_all, at) by {
                if 0 <= at.0 < unmarked_all.len() {
                    assert(unmarked_all[at.0] == Seq::new(maze.width as nat, |c: int| false));
                }
            }
            assert forall|at: (int, int)| #[trigger]
                last_mark(chronological(steps@), at) == (if positions(path@).contains(at) {
                    Some(Cell::Path)
                } else if marked(flags(visited@), at) {
                    Some(Cell::Visited)
                } else {
                    None
                }) by {
                assert(!marked(unmarked_all, at));
            }
        }
        assert forall|at: (int, int)| !marked(unmarked_all, at) by {
            if 0 <= at.0 < unmarked_all.len() {
                assert(unmarked_all[at.0] == Seq::new(maze.width as nat, |c: int| false));
            }
        }
        lemma_search_log(grid, steps@, path@, unmarked_all, flags(visited@), from, to);
        assert(steps@.len() <= 2 * maze.height * maze.width) by (nonlinear_arith)
            requires
                steps@.len() + unmarked(flags(visited@)) == maze.height * maze.width + path@.len(),
                path@.len() + unmarked(flags(visited@)) <= maze.height * maze.width,
        ;
        if !result {
            assert forall|walk: Seq<(int, int)>| !connects(grid, walk, from, to) by {
                if connects(grid, walk, from, to) {
                    assert(avoids(walk, unmarked_all)) by {
                        reveal(avoids);
                    }
                    lemma_no_walk_out(
                        grid,
                        unmarked_all,
                        flags(visited@),
                        from,
                        to,
                        walk,
                        walk.len() - 1,
                    );
                }
            }
        }
    }
    (path, result, visited, steps)
}

/// The path of a walk from `start` to `end`, from the cell before `end` back
/// to `start`, and the log of the search for it. The path is empty where no
/// walk leads from `start` to `end`, and where `start` is `end`.
pub fn solve_maze_by_dfs(maze: &Maze, start: Coords<usize>, end: Coords<usize>) -> (result:
    MazeSolverReturnType)
    requires
        maze.wf(),
        maze.holds(start.x as int, start.y as int),
    ensures
        logged(maze.grid(), Seq::empty(), result.1@),
        path_marked(chronological(result.1@), positions(result.0@)),
        marked_once(chronological(result.1@), positions(result.0@)),
        off_the_walls(maze.grid(), chronological(result.1@), (start.y as int, start.x as int)),
        visits_then_path(chronological(result.1@), positions(result.0@)),
        result.1@.len() <= 2 * maze.height * maze.width,
        reachable(maze.grid(), (start.y as int, start.x as int), (end.y as int, end.x as int)) && (
        start.y as int,
        start.x as int,
    ) != (end.y as int, end.x as int) ==> ends_with_path_mark(chronological(result.1@), start),
        reachable(maze.grid(), (start.y as int, start.x as int), (end.y as int, end.x as int))
            ==> connects(
            maze.grid(),
            walk_of(result.0@, (end.y as int, end.x as int)),
            (start.y as int, start.x as int),
            (end.y as int, end.x as int),
        ),
        !reachable(maze.grid(), (start.y as int, start.x as int), (end.y as int, end.x as int))
            ==> result.0@.len() == 0,
{
    let (path, _found, _visited, steps) = is_path_between(maze, start, end);
    proof {
        assert forall|at: (int, int)| (#[trigger] last_mark(chronological(steps@), at) == Some(
            Cell::Path,
        )) <==> positions(path@).contains(at) by {}
    }
    (path, steps)
}

/// The search has looked in the direction of the number from `(row, col)`:
/// the neighbour in that direction is marked, unless it is a wall or lies
/// outside the grid.
pub open spec fn looked(
    grid: Seq<Seq<Cell>>,
    marks: Seq<Seq<bool>>,
    row: usize,
    col: usize,
    direction: int,
) -> bool {
    match stepped(row, col, d_row(direction), d_col(direction)) {
        Some(next) => passable(grid, (next.0 as int, next.1 as int)) ==> marked(
            marks,
            (next.0 as int, next.1 as int),
        ),
        None => true,
    }
}

/// A mark stays where marks are only added.
proof fn lemma_marked_grown(before: Seq<Seq<bool>>, after: Seq<Seq<bool>>, at: (int, int))
    requires
        grown(before, after),
        marked(before, at),
    ensures
        marked(after, at),
{
    reveal(grown);
    assert(after[at.0].len() == before[at.0].len());
    assert(after[at.0][at.1]);
}

/// Marks that are as they were were only added.
proof fn lemma_grown_same(marks: Seq<Seq<bool>>)
    ensures
        grown(marks, marks),
{
    reveal(grown);
}

/// Marks that were only added twice were only added.
proof fn lemma_grown_chain(first: Seq<Seq<bool>>, second: Seq<Seq<bool>>, third: Seq<Seq<bool>>)
    requires
        grown(first, second),
        grown(second, third),
    ensures
        grown(first, third),
{
    reveal(grown);
    assert forall|r: int| 0 <= r < first.len() implies (#[trigger] third[r]).len()
        == first[r].len() by {
        assert(second[r].len() == first[r].len());
    }
    assert forall|r: int, c: int|
        0 <= r < first.len() && 0 <= c < first[r].len() && first[r][c] implies #[trigger] third[r][c] by {
        assert(second[r].len() == first[r].len());
        assert(second[r][c]);
    }
}

/// What the search has looked at stays looked at where marks are only added.
proof fn lemma_looked_grown(
    grid: Seq<Seq<Cell>>,
    before: Seq<Seq<bool>>,
    after: Seq<Seq<bool>>,
    row: usize,
    col: usize,
    direction: int,
)
    requires
        grown(before, after),
        looked(grid, before, row, col, direction),
    ensures
        looked(grid, after, row, col, direction),
{
    match stepped(row, col, d_row(direction), d_col(direction)) {
        Some(next) => {
            if passable(grid, (next.0 as int, next.1 as int)) {
                lemma_marked_grown(before, after, (next.0 as int, next.1 as int));
            }
        },
        None => {},
    }
}

/// A cell at whose four sides the search has looked is surrounded.
proof fn lemma_surrounded(
    grid: Seq<Seq<Cell>>,
    marks: Seq<Seq<bool>>,
    row: usize,
    col: usize,
    height: usize,
    width: usize,
)
    requires
        rectangular(grid, height as int, width as int),
        forall|k: int| 0 <= k < 4 ==> #[trigger] looked(grid, marks, row, col, k),
    ensures
        surrounded(grid, marks, (row as int, col as int)),
{
    reveal(surrounded);
    let here = (row as int, col as int);
    assert forall|next: (int, int)| #[trigger]
        adjacent(here, next) && passable(grid, next) implies marked(marks, next) by {
        let k: int = if next.0 == here.0 && next.1 == here.1 + 1 {
            0
        } else if next.0 == here.0 {
            1
        } else if next.0 == here.0 + 1 {
            2
        } else {
            3
        };
        assert(looked(grid, marks, row, col, k));
        assert(grid[next.0].len() == width);
        assert(stepped(row, col, d_row(k), d_col(k)) == Some((next.0 as usize, next.1 as usize)));
    }
}

/// The cells that a search within a search has closed stay closed.
proof fn lemma_closed_after_search(
    grid: Seq<Seq<Cell>>,
    marks0: Seq<Seq<bool>>,
    before: Seq<Seq<bool>>,
    after: Seq<Seq<bool>>,
    goal: (int, int),
    here: (int, int),
)
    requires
        closed_since_but(grid, marks0, before, goal, here),
        closed_since(grid, before, after, goal),
        grown(before, after),
    ensures
        closed_since_but(grid, marks0, after, goal, here),
{
    reveal(closed_since);
    reveal(closed_since_but);
    assert forall|at: (int, int)| #[trigger]
        marked(after, at) && !marked(marks0, at) && at != here implies at != goal by {
        if marked(before, at) {
        }
    }
    assert forall|at: (int, int), next: (int, int)|
        #![trigger marked(after, at), adjacent(at, next)]
        marked(after, at) && !marked(marks0, at) && at != here && adjacent(at, next) && passable(
            grid,
            next,
        ) implies marked(after, next) by {
        if marked(before, at) {
            assert(marked(before, next));
            lemma_marked_grown(before, after, next);
        }
    }
}

/// Once the cell of the search itself is surrounded, all that the search
/// marked is closed.
proof fn lemma_closed_with_here(
    grid: Seq<Seq<Cell>>,
    marks0: Seq<Seq<bool>>,
    after: Seq<Seq<bool>>,
    goal: (int, int),
    here: (int, int),
)
    requires
        closed_since_but(grid, marks0, after, goal, here),
        surrounded(grid, after, here),
        here != goal,
    ensures
        closed_since(grid, marks0, after, goal),
{
    reveal(closed_since);
    reveal(closed_since_but);
    reveal(surrounded);
    assert forall|at: (int, int), next: (int, int)|
        #![trigger marked(after, at), adjacent(at, next)]
        marked(after, at) && !marked(marks0, at) && adjacent(at, next) && passable(
            grid,
            next,
        ) implies marked(after, next) by {
        if at == here {
            assert(adjacent(here, next) && passable(grid, next));
        }
    }
}

/// A walk that a search from a neighbour found, with the cell of the search
/// put before it.
proof fn lemma_path_found(
    grid: Seq<Seq<Cell>>,
    marks0: Seq<Seq<bool>>,
    marks_before: Seq<Seq<bool>>,
    row: usize,
    col: usize,
    next: (int, int),
    goal: (int, int),
    tail: Seq<(usize, usize)>,
)
    requires
        connects(grid, walk_of(tail, goal), next, goal),
        avoids(walk_of(tail, goal), marks_before),
        grown(marks0, marks_before),
        inside(grid, (row as int, col as int)),
        adjacent((row as int, col as int), next),
        passable(grid, next),
        !marked(marks_before, next),
    ensures
        connects(grid, walk_of(tail.push((row, col)), goal), (row as int, col as int), goal),
        avoids(walk_of(tail.push((row, col)), goal), marks0),
{
    reveal(avoids);
    let here = (row as int, col as int);
    let inner = walk_of(tail, goal);
    let whole = walk_of(tail.push((row, col)), goal);
    assert(whole =~= seq![here] + inner);
    assert forall|k: int| 1 <= k < whole.len() implies adjacent(whole[k - 1], #[trigger] whole[k])
        && passable(grid, whole[k]) by {
        if k >= 2 {
            assert(adjacent(inner[k - 2], inner[k - 1]) && passable(grid, inner[k - 1]));
        }
    }
    assert forall|k: int| 1 <= k < whole.len() implies !marked(marks0, #[trigger] whole[k]) by {
        if marked(marks0, whole[k]) {
            lemma_marked_grown(marks0, marks_before, whole[k]);
            if k >= 2 {
                assert(!marked(marks_before, inner[k - 1]));
            }
        }
    }
}

/// Marking the cell of the search adds a mark and nothing else.
proof fn lemma_mark(marks0: Seq<Seq<bool>>, row: int, col: int, height: int, width: int)
    requires
        covers(marks0, height, width),
        0 <= row < height,
        0 <= col < width,
    ensures
        covers(marks0.update(row, marks0[row].update(col, true)), height, width),
        grown(marks0, marks0.update(row, marks0[row].update(col, true))),
        marked(marks0.update(row, marks0[row].update(col, true)), (row, col)),
        unmarked(marks0.update(row, marks0[row].update(col, true))) < unmarked(marks0) || (marked(
            marks0,
            (row, col),
        ) && unmarked(marks0.update(row, marks0[row].update(col, true))) == unmarked(marks0)),
        unmarked(marks0.update(row, marks0[row].update(col, true))) + (if marked(
            marks0,
            (row, col),
        ) {
            0int
        } else {
            1int
        }) == unmarked(marks0),
        closed_since_but(
            Seq::empty(),
            marks0,
            marks0.update(row, marks0[row].update(col, true)),
            (row, col),
            (row, col),
        ),
{
    reveal(covers);
    reveal(grown);
    reveal(closed_since_but);
    let marks1 = marks0.update(row, marks0[row].update(col, true));
    assert(marks0[row].len() == width);
    if marked(marks0, (row, col)) {
        assert(marks0[row].update(col, true) =~= marks0[row]);
        assert(marks1 =~= marks0);
    } else {
        lemma_unmarked_marked(marks0, row, col);
    }
    assert forall|r: int| 0 <= r < height implies (#[trigger] marks1[r]).len() == width by {
        assert(marks0[r].len() == width);
    }
}

/// Nothing but the cell of the search is marked yet, so nothing but it needs
/// to be closed.
proof fn lemma_closed_at_first(
    grid: Seq<Seq<Cell>>,
    marks0: Seq<Seq<bool>>,
    row: int,
    col: int,
    goal: (int, int),
)
    requires
        0 <= row < marks0.len(),
        0 <= col < marks0[row].len(),
    ensures
        closed_since_but(
            grid,
            marks0,
            marks0.update(row, marks0[row].update(col, true)),
            goal,
            (row, col),
        ),
{
    reveal(closed_since_but);
}

/// The rows of the marks and of the grid are as long as the maze is wide.
proof fn lemma_rows(maze: &Maze, visited: Seq<Vec<bool>>)
    requires
        maze.wf(),
        covers(flags(visited), maze.height as int, maze.width as int),
    ensures
        visited.len() == maze.height,
        maze.cells@.len() == maze.height,
        forall|r: int|
            0 <= r < maze.height ==> (#[trigger] visited[r])@.len() == maze.width,
        forall|r: int|
            0 <= r < maze.height ==> (#[trigger] maze.cells@[r])@.len() == maze.width,
{
    reveal(covers);
    assert forall|r: int| 0 <= r < maze.height implies (#[trigger] visited[r])@.len()
        == maze.width by {
        assert(flags(visited)[r].len() == maze.width);
    }
    assert forall|r: int| 0 <= r < maze.height implies (#[trigger] maze.cells@[r])@.len()
        == maze.width by {
        assert(maze.grid()[r].len() == maze.width);
    }
}

/// The last of the steps marks the cell as on the path.
pub open spec fn ends_with_path_mark(steps: Seq<MazeStep>, cell: Coords<usize>) -> bool {
    steps.len() > 0 && steps.last() == (MazeStep { coords: cell, cell_type: Cell::Path })
}

/// Some walk leads from `from` to `to` through cells that are not marked;
/// its first cell may be marked.
pub open spec fn reachable_avoiding(
    grid: Seq<Seq<Cell>>,
    from: (int, int),
    to: (int, int),
    marks: Seq<Seq<bool>>,
) -> bool {
    exists|walk: Seq<(int, int)>| #[trigger] connects(grid, walk, from, to) && avoids(walk, marks)
}

/// Where a search has closed all that it marked and has not come to `end`,
/// no walk leads to `end` through cells that were not marked before.
proof fn lemma_none_found(
    grid: Seq<Seq<Cell>>,
    before: Seq<Seq<bool>>,
    after: Seq<Seq<bool>>,
    start: (int, int),
    end: (int, int),
)
    requires
        closed_since(grid, before, after, end),
        surrounded(grid, after, start),
        start != end,
    ensures
        !reachable_avoiding(grid, start, end, before),
{
    assert forall|walk: Seq<(int, int)>| !(#[trigger] connects(grid, walk, start, end) && avoids(
        walk,
        before,
    )) by {
        if connects(grid, walk, start, end) && avoids(walk, before) {
            lemma_no_walk_out(grid, before, after, start, end, walk, walk.len() - 1);
        }
    }
}

/// A walk that avoids marks avoids fewer marks.
proof fn lemma_avoids_fewer(walk: Seq<(int, int)>, fewer: Seq<Seq<bool>>, marks: Seq<Seq<bool>>)
    requires
        grown(fewer, marks),
        avoids(walk, marks),
    ensures
        avoids(walk, fewer),
{
    reveal(avoids);
    assert forall|k: int| 1 <= k < walk.len() implies !marked(fewer, #[trigger] walk[k]) by {
        if marked(fewer, walk[k]) {
            lemma_marked_grown(fewer, marks, walk[k]);
        }
    }
}

/// Nothing was marked since the marks were as they are, so nothing needs to
/// be closed.
proof fn lemma_closed_nothing(grid: Seq<Seq<Cell>>, marks: Seq<Seq<bool>>, goal: (int, int))
    ensures
        closed_since(grid, marks, marks, goal),
{
    reveal(closed_since);
}

/// What a search has recorded, by the last mark of each cell: a cell of
/// the path that it found is marked as on the path, a cell that it marked,
/// and the cell `origin` from which it started, as visited, and no other
/// cell is marked.
#[verifier::opaque]
pub open spec fn marks_left(
    steps: Seq<MazeStep>,
    before: Seq<Seq<bool>>,
    after: Seq<Seq<bool>>,
    path: Seq<(usize, usize)>,
    origin: Option<(int, int)>,
) -> bool {
    forall|at: (int, int)| #[trigger]
        last_mark(steps, at) == (if positions(path).contains(at) {
            Some(Cell::Path)
        } else if (marked(after, at) && !marked(before, at)) || origin == Some(at) {
            Some(Cell::Visited)
        } else {
            None
        })
}

/// A search that has done nothing has recorded nothing.
proof fn lemma_marks_nothing(marks: Seq<Seq<bool>>)
    ensures
        marks_left(Seq::empty(), marks, marks, Seq::empty(), None),
{
    reveal(marks_left);
    assert forall|at: (int, int)| !positions(Seq::<(usize, usize)>::empty()).contains(at) by {}
}

/// A search that has marked the cell from which it starts has recorded it
/// as visited.
proof fn lemma_marks_started(marks0: Seq<Seq<bool>>, row: usize, col: usize)
    requires
        0 <= row < marks0.len(),
        0 <= col < marks0[row as int].len(),
    ensures
        marks_left(
            seq![MazeStep { coords: Coords { x: col, y: row }, cell_type: Cell::Visited }],
            marks0,
            marks0.update(row as int, marks0[row as int].update(col as int, true)),
            Seq::empty(),
            Some((row as int, col as int)),
        ),
{
    reveal(marks_left);
    let step = MazeStep { coords: Coords { x: col, y: row }, cell_type: Cell::Visited };
    let steps = seq![step];
    let after = marks0.update(row as int, marks0[row as int].update(col as int, true));
    assert forall|at: (int, int)| #[trigger]
        last_mark(steps, at) == (if positions(Seq::<(usize, usize)>::empty()).contains(at) {
            Some(Cell::Path)
        } else if (marked(after, at) && !marked(marks0, at)) || Some((row as int, col as int))
            == Some(at) {
            Some(Cell::Visited)
        } else {
            None
        }) by {
        assert(steps =~= Seq::<MazeStep>::empty().push(step));
        lemma_last_mark_push(Seq::<MazeStep>::empty(), step, at);
        assert(last_mark(Seq::<MazeStep>::empty(), at) is None);
        assert(step.at() == (row as int, col as int));
        assert(!positions(Seq::<(usize, usize)>::empty()).contains(at));
        if at != (row as int, col as int) {
            if 0 <= at.0 < marks0.len() && 0 <= at.1 < marks0[at.0].len() {
                assert(after[at.0][at.1] == marks0[at.0][at.1]);
            }
            assert(marked(after, at) == marked(marks0, at));
        }
    }
}

/// What a search has recorded, and then what a look from its cell has
/// recorded.
proof fn lemma_marks_joined(
    first: Seq<MazeStep>,
    second: Seq<MazeStep>,
    marks0: Seq<Seq<bool>>,
    between: Seq<Seq<bool>>,
    after: Seq<Seq<bool>>,
    path: Seq<(usize, usize)>,
    origin: Option<(int, int)>,
)
    requires
        marks_left(first, marks0, between, Seq::empty(), origin),
        marks_left(second, between, after, path, None),
        grown(marks0, between),
        grown(between, after),
    ensures
        marks_left(first + second, marks0, after, path, origin),
{
    reveal(marks_left);
    assert forall|at: (int, int)| #[trigger]
        last_mark(first + second, at) == (if positions(path).contains(at) {
            Some(Cell::Path)
        } else if (marked(after, at) && !marked(marks0, at)) || origin == Some(at) {
            Some(Cell::Visited)
        } else {
            None
        }) by {
        lemma_last_mark_concat(first, second, at);
        assert(!positions(Seq::<(usize, usize)>::empty()).contains(at));
        if marked(marks0, at) {
            lemma_marked_grown(marks0, between, at);
        }
        if marked(between, at) {
            lemma_marked_grown(between, after, at);
        }
    }
}

/// What a search from a neighbour has recorded, and then the cell of the
/// look, recorded as on the path.
proof fn lemma_marks_path_added(
    steps: Seq<MazeStep>,
    before: Seq<Seq<bool>>,
    after: Seq<Seq<bool>>,
    path: Seq<(usize, usize)>,
    row: usize,
    col: usize,
    origin: Option<(int, int)>,
)
    requires
        marks_left(steps, before, after, path, origin),
        origin is Some ==> marked(after, origin.unwrap()) && !marked(before, origin.unwrap()),
    ensures
        marks_left(
            steps.push(MazeStep { coords: Coords { x: col, y: row }, cell_type: Cell::Path }),
            before,
            after,
            path.push((row, col)),
            None,
        ),
{
    reveal(marks_left);
    let step = MazeStep { coords: Coords { x: col, y: row }, cell_type: Cell::Path };
    let longer = path.push((row, col));
    assert forall|at: (int, int)| #[trigger]
        last_mark(steps.push(step), at) == (if positions(longer).contains(at) {
            Some(Cell::Path)
        } else if (marked(after, at) && !marked(before, at)) || None::<(int, int)> == Some(at) {
            Some(Cell::Visited)
        } else {
            None
        }) by {
        lemma_last_mark_push(steps, step, at);
        let here = (row as int, col as int);
        assert(positions(longer)[path.len() as int] == here);
        if positions(path).contains(at) {
            let k = choose|k: int| 0 <= k < positions(path).len() && positions(path)[k] == at;
            assert(positions(longer)[k] == at);
        }
        if positions(longer).contains(at) && at != here {
            let k = choose|k: int| 0 <= k < positions(longer).len() && positions(longer)[k] == at;
            assert(positions(path)[k] == at);
        }
    }
}

/// The cell from which a search started is one of the cells that it marked,
/// where it was not marked before.
proof fn lemma_marks_origin_marked(
    steps: Seq<MazeStep>,
    before: Seq<Seq<bool>>,
    after: Seq<Seq<bool>>,
    path: Seq<(usize, usize)>,
    origin: (int, int),
)
    requires
        marks_left(steps, before, after, path, Some(origin)),
        marked(after, origin),
        !marked(before, origin),
    ensures
        marks_left(steps, before, after, path, None),
{
    reveal(marks_left);
    assert forall|at: (int, int)| #[trigger]
        last_mark(steps, at) == (if positions(path).contains(at) {
            Some(Cell::Path)
        } else if (marked(after, at) && !marked(before, at)) || None::<(int, int)> == Some(at) {
            Some(Cell::Visited)
        } else {
            None
        }) by {
    }
}

/// The cell was marked by the search: it is marked after it and was not
/// marked before it.
pub open spec fn newly_marked(before: Seq<Seq<bool>>, after: Seq<Seq<bool>>, at: (int, int)) -> bool {
    marked(after, at) && !marked(before, at)
}

/// What a part of a search has recorded for each cell, step by step. A cell
/// of the path was recorded as visited and later as on the path, once each;
/// any other cell that the search marked, and the cell `origin` from which
/// it started, was recorded as visited once; no other cell was recorded.
/// The cell `own`, where the part is one look from that cell, was at most
/// recorded as on the path, for it was visited before the look. No cell is
/// twice in the path, and the cells that the search marked, but perhaps the
/// cell from which it started, are no walls. The visits come first, the
/// first of them that of `origin`, and then the cells of the path as the
/// path holds them.
#[verifier::opaque]
pub open spec fn marks_given(
    grid: Seq<Seq<Cell>>,
    steps: Seq<MazeStep>,
    before: Seq<Seq<bool>>,
    after: Seq<Seq<bool>>,
    path: Seq<(usize, usize)>,
    origin: Option<(int, int)>,
    own: Option<(int, int)>,
) -> bool {
    &&& positions(path).no_duplicates()
    &&& forall|at: (int, int)| #[trigger]
        positions(path).contains(at) ==> own == Some(at) || origin == Some(at) || newly_marked(
            before,
            after,
            at,
        )
    &&& forall|at: (int, int)| #[trigger]
        marks_at(steps, at) == (if positions(path).contains(at) {
            if own == Some(at) {
                seq![Cell::Path]
            } else {
                seq![Cell::Visited, Cell::Path]
            }
        } else if newly_marked(before, after, at) || origin == Some(at) {
            seq![Cell::Visited]
        } else {
            Seq::empty()
        })
    &&& forall|at: (int, int)| #[trigger]
        newly_marked(before, after, at) ==> passable(grid, at) || origin == Some(at)
    &&& visits_then_path(steps, positions(path))
    &&& origin is Some ==> steps.len() > 0 && steps[0].at() == origin.unwrap()
        && steps[0].cell_type == Cell::Visited
}

/// A search that has done nothing has recorded nothing.
proof fn lemma_given_nothing(grid: Seq<Seq<Cell>>, marks: Seq<Seq<bool>>, own: Option<(int, int)>)
    ensures
        marks_given(grid, Seq::empty(), marks, marks, Seq::empty(), None, own),
{
    reveal(marks_given);
    assert(positions(Seq::<(usize, usize)>::empty()) =~= Seq::<(int, int)>::empty());
    assert forall|at: (int, int)| !positions(Seq::<(usize, usize)>::empty()).contains(at) by {}
}

/// A search that has marked the cell from which it starts has recorded it
/// as visited, once.
proof fn lemma_given_started(grid: Seq<Seq<Cell>>, marks0: Seq<Seq<bool>>, row: usize, col: usize)
    requires
        0 <= row < marks0.len(),
        0 <= col < marks0[row as int].len(),
    ensures
        marks_given(
            grid,
            seq![MazeStep { coords: Coords { x: col, y: row }, cell_type: Cell::Visited }],
            marks0,
            marks0.update(row as int, marks0[row as int].update(col as int, true)),
            Seq::empty(),
            Some((row as int, col as int)),
            None,
        ),
{
    reveal(marks_given);
    let step = MazeStep { coords: Coords { x: col, y: row }, cell_type: Cell::Visited };
    let steps = seq![step];
    let here = (row as int, col as int);
    let after = marks0.update(row as int, marks0[row as int].update(col as int, true));
    assert(positions(Seq::<(usize, usize)>::empty()) =~= Seq::<(int, int)>::empty());
    assert(steps[0].at() == here);
    assert forall|at: (int, int)| !positions(Seq::<(usize, usize)>::empty()).contains(at) by {}
    assert forall|at: (int, int)| at != here implies marked(after, at) == marked(marks0, at) by {
        if 0 <= at.0 < marks0.len() && 0 <= at.1 < marks0[at.0].len() {
            assert(after[at.0][at.1] == marks0[at.0][at.1]);
        }
    }
    assert forall|at: (int, int)| #[trigger]
        marks_at(steps, at) == (if newly_marked(marks0, after, at) || Some(here) == Some(at) {
            seq![Cell::Visited]
        } else {
            Seq::empty()
        }) by {
        assert(steps =~= Seq::<MazeStep>::empty().push(step));
        lemma_marks_at_push(Seq::<MazeStep>::empty(), step, at);
        assert(marks_at(Seq::<MazeStep>::empty(), at) =~= Seq::<Cell>::empty());
        assert(step.at() == here);
        assert(Seq::<Cell>::empty().push(Cell::Visited) =~= seq![Cell::Visited]);
        if at != here {
            assert(marked(after, at) == marked(marks0, at));
        }
    }
}

/// What a search has recorded, and then what a look from its cell has
/// recorded.
proof fn lemma_given_joined(
    grid: Seq<Seq<Cell>>,
    first: Seq<MazeStep>,
    second: Seq<MazeStep>,
    marks0: Seq<Seq<bool>>,
    between: Seq<Seq<bool>>,
    after: Seq<Seq<bool>>,
    path: Seq<(usize, usize)>,
    here: (int, int),
)
    requires
        marks_given(grid, first, marks0, between, Seq::empty(), Some(here), None),
        marks_given(grid, second, between, after, path, None, Some(here)),
        grown(marks0, between),
        grown(between, after),
        marked(between, here),
    ensures
        marks_given(grid, first + second, marks0, after, path, Some(here), None),
{
    reveal(marks_given);
    assert(positions(Seq::<(usize, usize)>::empty()) =~= Seq::<(int, int)>::empty());
    lemma_visits_then_path_joined(first, second, positions(path));
    assert((first + second)[0] == first[0]);
    assert forall|at: (int, int)| !positions(Seq::<(usize, usize)>::empty()).contains(at) by {}
    assert forall|at: (int, int)|
        newly_marked(marks0, after, at) <==> newly_marked(marks0, between, at) || newly_marked(
            between,
            after,
            at,
        ) by {
        if marked(marks0, at) {
            lemma_marked_grown(marks0, between, at);
        }
        if marked(between, at) {
            lemma_marked_grown(between, after, at);
        }
    }
    assert forall|at: (int, int)| #[trigger]
        positions(path).contains(at) implies Some(here) == Some(at) || newly_marked(
        marks0,
        after,
        at,
    ) by {
        assert(newly_marked(marks0, after, at) <==> newly_marked(marks0, between, at)
            || newly_marked(between, after, at));
    }
    assert forall|at: (int, int)| #[trigger]
        marks_at(first + second, at) == (if positions(path).contains(at) {
            seq![Cell::Visited, Cell::Path]
        } else if newly_marked(marks0, after, at) || Some(here) == Some(at) {
            seq![Cell::Visited]
        } else {
            Seq::empty()
        }) by {
        lemma_marks_at_concat(first, second, at);
        assert(newly_marked(marks0, after, at) <==> newly_marked(marks0, between, at)
            || newly_marked(between, after, at));
        let a = marks_at(first, at);
        let b = marks_at(second, at);
        if positions(path).contains(at) {
            if at == here {
                assert(a + b =~= seq![Cell::Visited, Cell::Path]);
            } else {
                assert(newly_marked(between, after, at));
                assert(a + b =~= seq![Cell::Visited, Cell::Path]);
            }
        } else if newly_marked(marks0, between, at) || at == here {
            assert(a + b =~= seq![Cell::Visited]);
        } else {
            assert(a + b =~= b);
        }
    }
    assert forall|at: (int, int)| #[trigger]
        newly_marked(marks0, after, at) implies passable(grid, at) || Some(here) == Some(at) by {
        assert(newly_marked(marks0, after, at) <==> newly_marked(marks0, between, at)
            || newly_marked(between, after, at));
    }
}

/// What a search from a neighbour has recorded is what a look has
/// recorded that did not find a walk, or before it adds its own cell.
proof fn lemma_given_settled(
    grid: Seq<Seq<Cell>>,
    steps: Seq<MazeStep>,
    before: Seq<Seq<bool>>,
    after: Seq<Seq<bool>>,
    path: Seq<(usize, usize)>,
    origin: Option<(int, int)>,
    own: (int, int),
)
    requires
        marks_given(grid, steps, before, after, path, origin, None),
        origin is Some ==> newly_marked(before, after, origin.unwrap()) && passable(
            grid,
            origin.unwrap(),
        ),
        marked(before, own),
    ensures
        marks_given(grid, steps, before, after, path, None, Some(own)),
        !positions(path).contains(own),
{
    reveal(marks_given);
    if positions(path).contains(own) {
        assert(origin == Some(own) || newly_marked(before, after, own));
    }
    assert forall|at: (int, int)| #[trigger]
        marks_at(steps, at) == (if positions(path).contains(at) {
            if Some(own) == Some(at) {
                seq![Cell::Path]
            } else {
                seq![Cell::Visited, Cell::Path]
            }
        } else if newly_marked(before, after, at) || None::<(int, int)> == Some(at) {
            seq![Cell::Visited]
        } else {
            Seq::empty()
        }) by {}
}

/// What a look has recorded whose search from a neighbour found a walk: the
/// cell of the look, recorded as on the path, after all the rest.
proof fn lemma_given_path_added(
    grid: Seq<Seq<Cell>>,
    steps: Seq<MazeStep>,
    before: Seq<Seq<bool>>,
    after: Seq<Seq<bool>>,
    path: Seq<(usize, usize)>,
    row: usize,
    col: usize,
)
    requires
        marks_given(grid, steps, before, after, path, None, Some((row as int, col as int))),
        !positions(path).contains((row as int, col as int)),
        marked(before, (row as int, col as int)),
    ensures
        marks_given(
            grid,
            steps.push(MazeStep { coords: Coords { x: col, y: row }, cell_type: Cell::Path }),
            before,
            after,
            path.push((row, col)),
            None,
            Some((row as int, col as int)),
        ),
{
    reveal(marks_given);
    let step = MazeStep { coords: Coords { x: col, y: row }, cell_type: Cell::Path };
    let longer = path.push((row, col));
    let here = (row as int, col as int);
    assert(positions(longer) =~= positions(path).push(here));
    assert(step.at() == here);
    lemma_visits_then_path_pushed(steps, positions(path), step);
    assert forall|at: (int, int)|
        positions(longer).contains(at) <==> positions(path).contains(at) || at == here by {
        assert(positions(longer)[path.len() as int] == here);
        if positions(path).contains(at) {
            let k = choose|k: int| 0 <= k < positions(path).len() && positions(path)[k] == at;
            assert(positions(longer)[k] == at);
        }
        if positions(longer).contains(at) && at != here {
            let k = choose|k: int| 0 <= k < positions(longer).len() && positions(longer)[k] == at;
            assert(positions(path)[k] == at);
        }
    }
    assert(positions(longer).no_duplicates()) by {
        assert forall|i: int, j: int|
            0 <= i < positions(longer).len() && 0 <= j < positions(longer).len() && i
                != j implies positions(longer)[i] != positions(longer)[j] by {
            if i < path.len() && j < path.len() {
                assert(positions(path)[i] != positions(path)[j]);
            } else if i < path.len() {
                assert(positions(path)[i] == positions(longer)[i]);
                assert(positions(path).contains(positions(path)[i]));
            } else {
                assert(positions(path)[j] == positions(longer)[j]);
                assert(positions(path).contains(positions(path)[j]));
            }
        }
    }
    assert forall|at: (int, int)| #[trigger]
        positions(longer).contains(at) implies Some(here) == Some(at) || newly_marked(
        before,
        after,
        at,
    ) by {
        assert(positions(longer).contains(at) <==> positions(path).contains(at) || at == here);
        if at != here {
            assert(positions(path).contains(at));
        }
    }
    assert forall|at: (int, int)| #[trigger]
        marks_at(steps.push(step), at) == (if positions(longer).contains(at) {
            if Some(here) == Some(at) {
                seq![Cell::Path]
            } else {
                seq![Cell::Visited, Cell::Path]
            }
        } else if newly_marked(before, after, at) || None::<(int, int)> == Some(at) {
            seq![Cell::Visited]
        } else {
            Seq::empty()
        }) by {
        lemma_marks_at_push(steps, step, at);
        assert(positions(longer).contains(at) <==> positions(path).contains(at) || at == here);
        assert(step.at() == here);
        if at == here {
            assert(marks_at(steps, at) =~= Seq::<Cell>::empty());
            assert(Seq::<Cell>::empty().push(Cell::Path) =~= seq![Cell::Path]);
        }
    }
}

/// The search from `current`: whether a walk leads from `current` to `end`
/// through cells that are not marked yet.
///
/// The search marks the cells that it comes to and records each mark. Where
/// it finds a walk, it adds the cells of the walk to the path, from the cell
/// before `end` back to `current`, and records each as on the path. The
/// cell `current` must lie in the maze, and the marks must cover the maze.
pub fn dfs_path_exists(
    maze: &Maze,
    visited: &mut Vec<Vec<bool>>,
    current: Coords<usize>,
    end: Coords<usize>,
    path: &mut Vec<(usize, usize)>,
    steps: &mut VecDeque<MazeStep>,
) -> (found: bool)
    requires
        maze.wf(),
        covers(flags(old(visited)@), maze.height as int, maze.width as int),
        maze.holds(current.x as int, current.y as int),
    ensures
        covers(flags(final(visited)@), maze.height as int, maze.width as int),
        grown(flags(old(visited)@), flags(final(visited)@)),
        logged(maze.grid(), old(steps)@, final(steps)@),
        marks_left(
            recorded(old(steps)@, final(steps)@),
            flags(old(visited)@),
            flags(final(visited)@),
            final(path)@.skip(old(path)@.len() as int),
            if (current.y as int, current.x as int) == (end.y as int, end.x as int) {
                None
            } else {
                Some((current.y as int, current.x as int))
            },
        ),
        marks_given(
            maze.grid(),
            recorded(old(steps)@, final(steps)@),
            flags(old(visited)@),
            flags(final(visited)@),
            final(path)@.skip(old(path)@.len() as int),
            if (current.y as int, current.x as int) == (end.y as int, end.x as int) {
                None
            } else {
                Some((current.y as int, current.x as int))
            },
            None,
        ),
        final(path)@.len() - old(path)@.len() + unmarked(flags(final(visited)@)) <= unmarked(
            flags(old(visited)@),
        ) + (if marked(flags(old(visited)@), (current.y as int, current.x as int)) && (
            current.y as int,
            current.x as int,
        ) != (end.y as int, end.x as int) {
            1int
        } else {
            0int
        }),
        (current.y as int, current.x as int) != (end.y as int, end.x as int) ==> marked(
            flags(final(visited)@),
            (current.y as int, current.x as int),
        ),
        (current.y as int, current.x as int) == (end.y as int, end.x as int) ==> final(steps)@
            == old(steps)@ && final(path)@ == old(path)@ && final(visited)@ == old(visited)@,
        found <==> reachable_avoiding(
            maze.grid(),
            (current.y as int, current.x as int),
            (end.y as int, end.x as int),
            flags(old(visited)@),
        ),
        found && (current.y as int, current.x as int) != (end.y as int, end.x as int)
            ==> ends_with_path_mark(recorded(old(steps)@, final(steps)@), current),
        recorded(old(steps)@, final(steps)@).len() + unmarked(flags(final(visited)@))
            == unmarked(flags(old(visited)@)) + final(path)@.len() - old(path)@.len() + (if marked(
            flags(old(visited)@),
            (current.y as int, current.x as int),
        ) && (current.y as int, current.x as int) != (end.y as int, end.x as int) {
            1int
        } else {
            0int
        }),
        final(path)@.len() >= old(path)@.len(),
        final(path)@.take(old(path)@.len() as int) == old(path)@,
        found ==> connects(
            maze.grid(),
            walk_of(final(path)@.skip(old(path)@.len() as int), (end.y as int, end.x as int)),
            (current.y as int, current.x as int),
            (end.y as int, end.x as int),
        ) && avoids(
            walk_of(final(path)@.skip(old(path)@.len() as int), (end.y as int, end.x as int)),
            flags(old(visited)@),
        ),
        !found ==> {
            &&& final(path)@ == old(path)@
            &&& (current.y as int, current.x as int) != (end.y as int, end.x as int)
            &&& marked(flags(final(visited)@), (current.y as int, current.x as int))
            &&& surrounded(
                maze.grid(),
                flags(final(visited)@),
                (current.y as int, current.x as int),
            )
            &&& closed_since(
                maze.grid(),
                flags(old(visited)@),
                flags(final(visited)@),
                (end.y as int, end.x as int),
            )
        },
    decreases
            2 * unmarked(flags(old(visited)@)) + (if marked(
                flags(old(visited)@),
                (current.y as int, current.x as int),
            ) {
                1nat
            } else {
                0nat
            }),
            1nat,
{
    let (row, col) = (current.y, current.x);
    let ghost grid = maze.grid();
    let ghost here = (row as int, col as int);
    let ghost goal = (end.y as int, end.x as int);
    let ghost marks0 = flags(visited@);
    proof {
        lemma_logged_nothing(grid, steps@);
        lemma_rows(maze, visited@);
        assert(path@.take(path@.len() as int) =~= path@);
    }
    if current.x == end.x && current.y == end.y {
        proof {
            assert(path@.skip(path@.len() as int) =~= Seq::<(usize, usize)>::empty());
            assert(walk_of(Seq::<(usize, usize)>::empty(), goal) =~= seq![goal]);
            assert(avoids(seq![goal], marks0)) by {
                reveal(avoids);
            }
            lemma_grown_same(marks0);
            lemma_recorded_nothing(steps@);
            lemma_marks_nothing(marks0);
            lemma_given_nothing(grid, marks0, None);
            assert(grid[here.0].len() == maze.width);
            assert(connects(grid, seq![goal], here, goal));
        }
        return true;
    }
    proof {
        assert(marks0[row as int] == visited@[row as int]@);
        lemma_mark(marks0, row as int, col as int, maze.height as int, maze.width as int);
        lemma_closed_at_first(grid, marks0, row as int, col as int, goal);
        lemma_logged_push(
            grid,
            old(steps)@,
            steps@,
            MazeStep { coords: Coords { x: col, y: row }, cell_type: Cell::Visited },
        );
    }

    visited[row][col] = true;
    steps.push_front(MazeStep { coords: Coords::from(col, row), cell_type: Cell::Visited });
    let ghost marks1 = flags(visited@);
    proof {
        assert(marks1 =~= marks0.update(row as int, marks0[row as int].update(col as int, true)));
        lemma_grown_same(marks1);
        lemma_recorded_nothing(old(steps)@);
        lemma_marks_started(marks0, row, col);
        lemma_given_started(grid, marks0, row, col);
        assert(recorded(old(steps)@, steps@) =~= seq![
            MazeStep { coords: Coords { x: col, y: row }, cell_type: Cell::Visited },
        ]);
        assert(path@.skip(path@.len() as int) =~= Seq::<(usize, usize)>::empty());
    }

    let mut direction: usize = 0;
    while direction < 4
        invariant
            maze.wf(),
            grid == maze.grid(),
            row == current.y,
            col == current.x,
            here == (row as int, col as int),
            goal == (end.y as int, end.x as int),
            here != goal,
            maze.holds(col as int, row as int),
            marks0 == flags(old(visited)@),
            direction <= 4,
            covers(flags(visited@), maze.height as int, maze.width as int),
            grown(marks0, flags(visited@)),
            grown(marks1, flags(visited@)),
            unmarked(marks1) < unmarked(marks0) || (marked(marks0, here) && unmarked(marks1)
                == unmarked(marks0)),
            marked(flags(visited@), here),
            logged(grid, old(steps)@, steps@),
            marks_left(
                recorded(old(steps)@, steps@),
                marks0,
                flags(visited@),
                Seq::empty(),
                Some(here),
            ),
            marks_given(
                grid,
                recorded(old(steps)@, steps@),
                marks0,
                flags(visited@),
                Seq::empty(),
                Some(here),
                None,
            ),
            recorded(old(steps)@, steps@).len() + unmarked(flags(visited@)) == unmarked(marks0) + (
            if marked(marks0, here) {
                1int
            } else {
                0int
            }),
            path@ == old(path)@,
            closed_since_but(grid, marks0, flags(visited@), goal, here),
            forall|k: int|
                0 <= k < direction ==> #[trigger] looked(grid, flags(visited@), row, col, k),
        decreases 4 - direction,
    {
        let ghost marks_before = flags(visited@);
        let ghost log_before = steps@;
        proof {
            lemma_unmarked_grown(marks1, marks_before);
        }
        let found = look(maze, visited, row, col, direction, end, path, steps);
        proof {
            let marks_after = flags(visited@);
            lemma_logged_chain(grid, old(steps)@, log_before, steps@);
            lemma_grown_chain(marks0, marks_before, marks_after);
            lemma_grown_chain(marks1, marks_before, marks_after);
            lemma_marked_grown(marks_before, marks_after, here);
            lemma_marks_joined(
                recorded(old(steps)@, log_before),
                recorded(log_before, steps@),
                marks0,
                marks_before,
                marks_after,
                path@.skip(old(path)@.len() as int),
                Some(here),
            );
            lemma_given_joined(
                grid,
                recorded(old(steps)@, log_before),
                recorded(log_before, steps@),
                marks0,
                marks_before,
                marks_after,
                path@.skip(old(path)@.len() as int),
                here,
            );
            if !found {
                assert(path@.skip(path@.len() as int) =~= Seq::<(usize, usize)>::empty());
            }
        }
        if found {
            proof {
                assert(path@.take(old(path)@.len() as int) =~= old(path)@);
                lemma_avoids_fewer(
                    walk_of(path@.skip(old(path)@.len() as int), goal),
                    marks0,
                    marks_before,
                );
            }
            return true;
        }
        proof {
            let marks_after = flags(visited@);
            lemma_closed_after_search(grid, marks0, marks_before, marks_after, goal, here);
            assert forall|k: int| 0 <= k < direction + 1 implies #[trigger] looked(
                grid,
                marks_after,
                row,
                col,
                k,
            ) by {
                if k < direction {
                    lemma_looked_grown(grid, marks_before, marks_after, row, col, k);
                }
            }
        }
        direction += 1;
    }
    proof {
        let marks_after = flags(visited@);
        lemma_surrounded(grid, marks_after, row, col, maze.height, maze.width);
        lemma_closed_with_here(grid, marks0, marks_after, goal, here);
        assert(path@.skip(path@.len() as int) =~= Seq::<(usize, usize)>::empty());
        lemma_none_found(grid, marks0, marks_after, here, goal);
    }

    false
}

/// One look from `(row, col)` in the direction of the number: where the
/// neighbour there lies in the maze, is no wall and is not marked, the
/// search goes on from it. Where that finds a walk, `(row, col)` is added to
/// the path and recorded as on the path.
fn look(
    maze: &Maze,
    visited: &mut Vec<Vec<bool>>,
    row: usize,
    col: usize,
    direction: usize,
    end: Coords<usize>,
    path: &mut Vec<(usize, usize)>,
    steps: &mut VecDeque<MazeStep>,
) -> (found: bool)
    requires
        maze.wf(),
        covers(flags(old(visited)@), maze.height as int, maze.width as int),
        maze.holds(col as int, row as int),
        marked(flags(old(visited)@), (row as int, col as int)),
        direction < 4,
    ensures
        covers(flags(final(visited)@), maze.height as int, maze.width as int),
        grown(flags(old(visited)@), flags(final(visited)@)),
        logged(maze.grid(), old(steps)@, final(steps)@),
        marks_given(
            maze.grid(),
            recorded(old(steps)@, final(steps)@),
            flags(old(visited)@),
            flags(final(visited)@),
            final(path)@.skip(old(path)@.len() as int),
            None,
            Some((row as int, col as int)),
        ),
        final(path)@.len() - old(path)@.len() + unmarked(flags(final(visited)@)) <= unmarked(
            flags(old(visited)@),
        ) + 1,
        marks_left(
            recorded(old(steps)@, final(steps)@),
            flags(old(visited)@),
            flags(final(visited)@),
            final(path)@.skip(old(path)@.len() as int),
            None,
        ),
        found ==> ends_with_path_mark(
            recorded(old(steps)@, final(steps)@),
            Coords { x: col, y: row },
        ),
        recorded(old(steps)@, final(steps)@).len() + unmarked(flags(final(visited)@))
            == unmarked(flags(old(visited)@)) + final(path)@.len() - old(path)@.len(),
        final(path)@.len() >= old(path)@.len(),
        final(path)@.take(old(path)@.len() as int) == old(path)@,
        found ==> connects(
            maze.grid(),
            walk_of(final(path)@.skip(old(path)@.len() as int), (end.y as int, end.x as int)),
            (row as int, col as int),
            (end.y as int, end.x as int),
        ) && avoids(
            walk_of(final(path)@.skip(old(path)@.len() as int), (end.y as int, end.x as int)),
            flags(old(visited)@),
        ),
        !found ==> {
            &&& final(path)@ == old(path)@
            &&& looked(maze.grid(), flags(final(visited)@), row, col, direction as int)
            &&& closed_since(
                maze.grid(),
                flags(old(visited)@),
                flags(final(visited)@),
                (end.y as int, end.x as int),
            )
        },
    decreases 2 * unmarked(flags(old(visited)@)) + 1, 0nat,
{
    let (dr, dc): (i8, i8) = if direction == 0 {
        (0, 1)
    } else if direction == 1 {
        (0, -1)
    } else if direction == 2 {
        (1, 0)
    } else {
        (-1, 0)
    };
    let ghost grid = maze.grid();
    let ghost goal = (end.y as int, end.x as int);
    let ghost marks_before = flags(visited@);
    proof {
        lemma_rows(maze, visited@);
        lemma_logged_nothing(grid, steps@);
        lemma_grown_same(marks_before);
        lemma_closed_nothing(grid, marks_before, goal);
        assert(path@.take(path@.len() as int) =~= path@);
        assert(path@.skip(path@.len() as int) =~= Seq::<(usize, usize)>::empty());
        lemma_recorded_nothing(steps@);
        lemma_marks_nothing(marks_before);
        lemma_given_nothing(grid, marks_before, Some((row as int, col as int)));
    }
    if let Some((nr, nc)) = step_from(row, col, dr, dc) {
        if nr < maze.cells.len() && nc < maze.cells[nr].len() && !visited[nr][nc]
            && maze.cells[nr][nc] != Cell::Wall {
            proof {
                assert(marks_before[nr as int] == visited@[nr as int]@);
                assert(grid[nr as int] == maze.cells@[nr as int]@);
            }
            if dfs_path_exists(maze, visited, Coords::from(nc, nr), end, path, steps) {
                let ghost found_path = path@;
                let ghost found_log = steps@;
                proof {
                    lemma_logged_push(
                        grid,
                        old(steps)@,
                        steps@,
                        MazeStep { coords: Coords { x: col, y: row }, cell_type: Cell::Path },
                    );
                }
                path.push((row, col));
                steps.push_front(MazeStep { coords: Coords::from(col, row), cell_type: Cell::Path });
                proof {
                    let base = old(path)@.len() as int;
                    let tail = found_path.skip(base);
                    assert(path@.take(base) =~= old(path)@);
                    assert(path@.skip(base) =~= tail.push((row, col)));
                    lemma_given_settled(
                        grid,
                        recorded(old(steps)@, found_log),
                        marks_before,
                        flags(visited@),
                        tail,
                        if (nr as int, nc as int) == goal {
                            None
                        } else {
                            Some((nr as int, nc as int))
                        },
                        (row as int, col as int),
                    );
                    lemma_given_path_added(
                        grid,
                        recorded(old(steps)@, found_log),
                        marks_before,
                        flags(visited@),
                        tail,
                        row,
                        col,
                    );
                    lemma_marks_path_added(
                        recorded(old(steps)@, found_log),
                        marks_before,
                        flags(visited@),
                        tail,
                        row,
                        col,
                        if (nr as int, nc as int) == goal {
                            None
                        } else {
                            Some((nr as int, nc as int))
                        },
                    );
                    lemma_path_found(
                        grid,
                        marks_before,
                        marks_before,
                        row,
                        col,
                        (nr as int, nc as int),
                        goal,
                        tail,
                    );
                }
                return true;
            }
            proof {
                assert(marked(flags(visited@), (nr as int, nc as int)));
                assert(path@.skip(path@.len() as int) =~= Seq::<(usize, usize)>::empty());
                lemma_marks_origin_marked(
                    recorded(old(steps)@, steps@),
                    marks_before,
                    flags(visited@),
                    Seq::empty(),
                    (nr as int, nc as int),
                );
                lemma_given_settled(
                    grid,
                    recorded(old(steps)@, steps@),
                    marks_before,
                    flags(visited@),
                    Seq::empty(),
                    Some((nr as int, nc as int)),
                    (row as int, col as int),
                );
            }
        } else {
            proof {
                assert(marks_before[nr as int] == visited@[nr as int]@ || nr >= maze.height);
                assert(grid[nr as int] == maze.cells@[nr as int]@ || nr >= maze.height);
            }
        }
    }
    false
}

/// The step along the rows of the direction of the number: the search looks
/// right, left, down and up, in this order.
pub open spec fn d_row(direction: int) -> int {
    if direction == 2 {
        1
    } else if direction == 3 {
        -1
    } else {
        0
    }
}

/// The step along the columns of the direction of the number.
pub open spec fn d_col(direction: int) -> int {
    if direction == 0 {
        1
    } else if direction == 1 {
        -1
    } else {
        0
    }
}

} // verus!
