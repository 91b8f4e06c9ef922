//! The marks that a log of a maze solver leaves on the cells of a maze.
//!
//! What a replay shows on a cell is decided by the last step of the log that
//! marks the cell, unless the cell is the entry or the exit, which a replay
//! leaves as they are.

use crate::grid::inside;
use crate::services::maze_generator::Cell;
use crate::services::mazer::all_marks;
use crate::services::mazer::logged;
use crate::steps::chronological;
use crate::steps::lemma_recorded_from_empty;
use crate::services::mazer::replay_marks;
use crate::services::mazer::MazeStep;
use vstd::prelude::*;

verus! {

/// The mark of the last step that marks the cell, if a step marks it.
pub open spec fn last_mark(steps: Seq<MazeStep>, at: (int, int)) -> Option<Cell>
    decreases steps.len(),
{
    if steps.len() == 0 {
        None
    } else if steps.last().at() == at {
        Some(steps.last().cell_type)
    } else {
        last_mark(steps.drop_last(), at)
    }
}

/// What a replay shows on a cell that the last step marked with `mark`: the
/// mark, or the cell as it was where no step marked it or where it is the
/// entry or the exit.
pub open spec fn shown(cell: Cell, mark: Option<Cell>) -> Cell {
    if cell == Cell::Entry || cell == Cell::Exit {
        cell
    } else {
        match mark {
            Some(m) => m,
            None => cell,
        }
    }
}

/// The last mark of a log with one more step.
pub proof fn lemma_last_mark_push(steps: Seq<MazeStep>, step: MazeStep, at: (int, int))
    ensures
        last_mark(steps.push(step), at) == (if step.at() == at {
            Some(step.cell_type)
        } else {
            last_mark(steps, at)
        }),
{
    assert(steps.push(step).drop_last() =~= steps);
}

/// The last mark of two logs, one after the other: that of the second, or
/// that of the first where the second does not mark the cell.
pub proof fn lemma_last_mark_concat(first: Seq<MazeStep>, second: Seq<MazeStep>, at: (int, int))
    ensures
        last_mark(first + second, at) == (match last_mark(second, at) {
            Some(m) => Some(m),
            None => last_mark(first, at),
        }),
    decreases second.len(),
{
    if second.len() == 0 {
        assert(first + second =~= first);
    } else {
        lemma_last_mark_concat(first, second.drop_last(), at);
        assert((first + second).drop_last() =~= first + second.drop_last());
    }
}

/// The marks that the steps give the cell, from the first to the last.
pub open spec fn marks_at(steps: Seq<MazeStep>, at: (int, int)) -> Seq<Cell>
    decreases steps.len(),
{
    if steps.len() == 0 {
        Seq::empty()
    } else if steps.last().at() == at {
        marks_at(steps.drop_last(), at).push(steps.last().cell_type)
    } else {
        marks_at(steps.drop_last(), at)
    }
}

/// The marks that a log with one more step gives a cell.
pub proof fn lemma_marks_at_push(steps: Seq<MazeStep>, step: MazeStep, at: (int, int))
    ensures
        marks_at(steps.push(step), at) == (if step.at() == at {
            marks_at(steps, at).push(step.cell_type)
        } else {
            marks_at(steps, at)
        }),
{
    assert(steps.push(step).drop_last() =~= steps);
}

/// The marks that two logs, one after the other, give a cell: those of the
/// first and then those of the second.
pub proof fn lemma_marks_at_concat(first: Seq<MazeStep>, second: Seq<MazeStep>, at: (int, int))
    ensures
        marks_at(first + second, at) == marks_at(first, at) + marks_at(second, at),
    decreases second.len(),
{
    if second.len() == 0 {
        assert(first + second =~= first);
        assert(marks_at(first, at) + marks_at(second, at) =~= marks_at(first, at));
    } else {
        lemma_marks_at_concat(first, second.drop_last(), at);
        assert((first + second).drop_last() =~= first + second.drop_last());
        assert((first + second).last() == second.last());
        if second.last().at() == at {
            assert(marks_at(first, at) + marks_at(second.drop_last(), at).push(
                second.last().cell_type,
            ) =~= (marks_at(first, at) + marks_at(second.drop_last(), at)).push(
                second.last().cell_type,
            ));
        }
    }
}

/// The last mark of a cell is the last of the marks that the steps give it.
pub proof fn lemma_last_of_marks_at(steps: Seq<MazeStep>, at: (int, int))
    ensures
        last_mark(steps, at) == (if marks_at(steps, at).len() == 0 {
            None
        } else {
            Some(marks_at(steps, at).last())
        }),
    decreases steps.len(),
{
    if steps.len() > 0 && steps.last().at() != at {
        lemma_last_of_marks_at(steps.drop_last(), at);
    }
}

/// A step at a cell gives the cell a mark.
pub proof fn lemma_step_gives_a_mark(steps: Seq<MazeStep>, n: int)
    requires
        0 <= n < steps.len(),
    ensures
        marks_at(steps, steps[n].at()).len() > 0,
    decreases steps.len(),
{
    let rest = steps.drop_last();
    if n < steps.len() - 1 {
        assert(rest[n] == steps[n]);
        lemma_step_gives_a_mark(rest, n);
    }
}

/// What the steps of a search give each cell, one after the other: a cell of
/// the path is recorded as visited and later as on the path, once each; any
/// other cell is recorded as visited once or not at all. No cell is twice
/// in the path.
pub open spec fn marked_once(steps: Seq<MazeStep>, path: Seq<(int, int)>) -> bool {
    &&& path.no_duplicates()
    &&& forall|at: (int, int)| #[trigger]
        marks_at(steps, at) == (if path.contains(at) {
            seq![Cell::Visited, Cell::Path]
        } else if marks_at(steps, at).len() > 0 {
            seq![Cell::Visited]
        } else {
            Seq::empty()
        })
}

/// The order of a log: first the visits, and then the cells of the path,
/// recorded as on the path one after the other as the path holds them.
pub open spec fn visits_then_path(steps: Seq<MazeStep>, path: Seq<(int, int)>) -> bool {
    &&& steps.len() >= path.len()
    &&& forall|k: int|
        0 <= k < steps.len() - path.len() ==> (#[trigger] steps[k]).cell_type == Cell::Visited
    &&& forall|k: int|
        0 <= k < path.len() ==> (#[trigger] steps[steps.len() - path.len() + k]).cell_type
            == Cell::Path && steps[steps.len() - path.len() + k].at() == path[k]
}

/// Visits, and then a log of visits and a path, are visits and the path.
pub proof fn lemma_visits_then_path_joined(
    first: Seq<MazeStep>,
    second: Seq<MazeStep>,
    path: Seq<(int, int)>,
)
    requires
        visits_then_path(first, Seq::empty()),
        visits_then_path(second, path),
    ensures
        visits_then_path(first + second, path),
{
    let both = first + second;
    assert forall|k: int| 0 <= k < both.len() - path.len() implies (#[trigger] both[k]).cell_type
        == Cell::Visited by {
        if k < first.len() {
            assert(both[k] == first[k]);
        } else {
            assert(both[k] == second[k - first.len()]);
        }
    }
    assert forall|k: int| 0 <= k < path.len() implies (#[trigger] both[both.len() - path.len()
        + k]).cell_type == Cell::Path && both[both.len() - path.len() + k].at() == path[k] by {
        assert(both[both.len() - path.len() + k] == second[second.len() - path.len() + k]);
    }
}

/// A log of visits and a path, and then one more cell of the path.
pub proof fn lemma_visits_then_path_pushed(
    steps: Seq<MazeStep>,
    path: Seq<(int, int)>,
    step: MazeStep,
)
    requires
        visits_then_path(steps, path),
        step.cell_type == Cell::Path,
    ensures
        visits_then_path(steps.push(step), path.push(step.at())),
{
    let more = steps.push(step);
    let longer = path.push(step.at());
    assert forall|k: int| 0 <= k < more.len() - longer.len() implies (#[trigger] more[k]).cell_type
        == Cell::Visited by {
        assert(more[k] == steps[k]);
    }
    assert forall|k: int| 0 <= k < longer.len() implies (#[trigger] more[more.len() - longer.len()
        + k]).cell_type == Cell::Path && more[more.len() - longer.len() + k].at() == longer[k] by {
        if k < path.len() {
            assert(more[more.len() - longer.len() + k] == steps[steps.len() - path.len() + k]);
        }
    }
}

/// Where all the steps are at one cell, the cell is given as many marks as
/// there are steps.
pub proof fn lemma_steps_at_one_cell(steps: Seq<MazeStep>, at: (int, int))
    requires
        forall|n: int| 0 <= n < steps.len() ==> (#[trigger] steps[n]).at() == at,
    ensures
        marks_at(steps, at).len() == steps.len(),
    decreases steps.len(),
{
    if steps.len() > 0 {
        let rest = steps.drop_last();
        assert forall|n: int| 0 <= n < rest.len() implies (#[trigger] rest[n]).at() == at by {
            assert(rest[n] == steps[n]);
        }
        lemma_steps_at_one_cell(rest, at);
        assert(steps[steps.len() - 1].at() == at);
    }
}

/// No step is at a wall, but perhaps steps at the cell `start`.
pub open spec fn off_the_walls(grid: Seq<Seq<Cell>>, steps: Seq<MazeStep>, start: (int, int)) -> bool {
    forall|n: int|
        0 <= n < steps.len() ==> crate::grid::passable(grid, (#[trigger] steps[n]).at())
            || steps[n].at() == start
}

/// The last mark of a log of a solver says visited or on the path.
pub proof fn lemma_last_mark_kind(steps: Seq<MazeStep>, at: (int, int))
    requires
        all_marks(steps),
    ensures
        last_mark(steps, at) is None || last_mark(steps, at) == Some(Cell::Visited) || last_mark(
            steps,
            at,
        ) == Some(Cell::Path),
    decreases steps.len(),
{
    if steps.len() > 0 {
        assert(steps[steps.len() - 1].cell_type == Cell::Visited || steps[steps.len()
            - 1].cell_type == Cell::Path);
        if steps.last().at() != at {
            let rest = steps.drop_last();
            assert forall|k: int| 0 <= k < rest.len() implies (#[trigger] rest[k]).cell_type
                == Cell::Visited || rest[k].cell_type == Cell::Path by {
                assert(steps[k].cell_type == Cell::Visited || steps[k].cell_type == Cell::Path);
            }
            lemma_last_mark_kind(rest, at);
        }
    }
}

/// What a replay shows: on every cell of the grid, what the last mark of
/// the cell says.
pub proof fn lemma_replay_shows_last_marks(grid: Seq<Seq<Cell>>, steps: Seq<MazeStep>)
    requires
        all_marks(steps),
    ensures
        replay_marks(grid, steps).len() == grid.len(),
        forall|r: int|
            0 <= r < grid.len() ==> (#[trigger] replay_marks(grid, steps)[r]).len()
                == grid[r].len(),
        forall|r: int, c: int|
            0 <= r < grid.len() && 0 <= c < grid[r].len() ==> #[trigger] replay_marks(
                grid,
                steps,
            )[r][c] == shown(grid[r][c], last_mark(steps, (r, c))),
    decreases steps.len(),
{
    if steps.len() > 0 {
        let rest = steps.drop_last();
        let last = steps.last();
        assert(all_marks(rest)) by {
            assert forall|k: int| 0 <= k < rest.len() implies (#[trigger] rest[k]).cell_type
                == Cell::Visited || rest[k].cell_type == Cell::Path by {
                assert(steps[k].cell_type == Cell::Visited || steps[k].cell_type == Cell::Path);
            }
        }
        lemma_replay_shows_last_marks(grid, rest);
        let before = replay_marks(grid, rest);
        let after = replay_marks(grid, steps);
        assert(last.cell_type == Cell::Visited || last.cell_type == Cell::Path);
        assert(after == last.apply(before));
        assert forall|r: int| 0 <= r < grid.len() implies (#[trigger] after[r]).len()
            == grid[r].len() by {
            assert(before[r].len() == grid[r].len());
        }
        assert forall|r: int, c: int| 0 <= r < grid.len() && 0 <= c < grid[r].len() implies
        #[trigger] after[r][c] == shown(grid[r][c], last_mark(steps, (r, c))) by {
            assert(before[r].len() == grid[r].len());
            assert(before[r][c] == shown(grid[r][c], last_mark(rest, (r, c))));
            lemma_last_mark_kind(rest, (r, c));
            let (lr, lc) = last.at();
            if last.at() == (r, c) {
                assert(inside(before, (r, c)));
                if before[r][c] != Cell::Entry && before[r][c] != Cell::Exit {
                    assert(after == before.update(r, before[r].update(c, last.cell_type)));
                } else {
                    assert(after == before);
                }
            } else {
                if inside(before, (lr, lc)) && before[lr][lc] != Cell::Entry && before[lr][lc]
                    != Cell::Exit {
                    assert(after == before.update(lr, before[lr].update(lc, last.cell_type)));
                    assert(after[r][c] == before[r][c]);
                } else {
                    assert(after == before);
                }
            }
        }
    }
}

/// The cells that the last marks of the steps say are on the path are the
/// cells of the path.
pub open spec fn path_marked(steps: Seq<MazeStep>, path: Seq<(int, int)>) -> bool {
    forall|at: (int, int)|
        (#[trigger] last_mark(steps, at) == Some(Cell::Path)) <==> path.contains(at)
}

/// Where each cell of the path, and no other cell, is recorded as on the
/// path after its visit, the last marks say of the cells of the path, and
/// of no others, that they are on the path.
pub proof fn lemma_marked_once_marks_the_path(steps: Seq<MazeStep>, path: Seq<(int, int)>)
    requires
        marked_once(steps, path),
    ensures
        path_marked(steps, path),
{
    assert forall|at: (int, int)| (#[trigger] last_mark(steps, at) == Some(Cell::Path))
        <==> path.contains(at) by {
        lemma_last_of_marks_at(steps, at);
        let marks = marks_at(steps, at);
        if path.contains(at) {
            assert(marks == seq![Cell::Visited, Cell::Path]);
            assert(marks.last() == Cell::Path);
        } else if marks.len() > 0 {
            assert(marks == seq![Cell::Visited]);
            assert(marks.last() == Cell::Visited);
        }
    }
}

/// What the full replay of the log of a solver shows. On every cell of the
/// path that the solver found, the replay shows the mark of the path, unless
/// the cell is the entry or the exit. On every other cell it shows the cell
/// as it was or the mark of a visit.
pub proof fn lemma_replay_shows_the_path(
    grid: Seq<Seq<Cell>>,
    log: Seq<MazeStep>,
    path: Seq<(int, int)>,
)
    requires
        logged(grid, Seq::empty(), log),
        path_marked(chronological(log), path),
    ensures
        forall|r: int, c: int|
            0 <= r < grid.len() && 0 <= c < grid[r].len() && path.contains((r, c))
                ==> #[trigger] replay_marks(grid, chronological(log))[r][c] == shown(
                grid[r][c],
                Some(Cell::Path),
            ),
        forall|r: int, c: int|
            0 <= r < grid.len() && 0 <= c < grid[r].len() && !path.contains((r, c)) ==> {
                ||| #[trigger] replay_marks(grid, chronological(log))[r][c] == grid[r][c]
                ||| replay_marks(grid, chronological(log))[r][c] == Cell::Visited
            },
{
    reveal(logged);
    lemma_recorded_from_empty(log);
    let steps = chronological(log);
    lemma_replay_shows_last_marks(grid, steps);
    assert forall|r: int, c: int|
        0 <= r < grid.len() && 0 <= c < grid[r].len() && !path.contains((r, c)) implies {
        ||| #[trigger] replay_marks(grid, steps)[r][c] == grid[r][c]
        ||| replay_marks(grid, steps)[r][c] == Cell::Visited
    } by {
        lemma_last_mark_kind(steps, (r, c));
        let mark = last_mark(steps, (r, c));
        assert(mark != Some(Cell::Path));
    }
    assert forall|r: int, c: int|
        0 <= r < grid.len() && 0 <= c < grid[r].len() && path.contains(
            (r, c),
        ) implies #[trigger] replay_marks(grid, steps)[r][c] == shown(
        grid[r][c],
        Some(Cell::Path),
    ) by {
        let mark = last_mark(steps, (r, c));
        assert(mark == Some(Cell::Path));
    }
}

} // verus!
