//! The solver by Dijkstra's algorithm: cells are taken from a queue in the
//! order of their distance from the start, so that the first walk that
//! reaches the end is a shortest one.

use crate::coords::Coords;
use crate::grid::adjacent;
use crate::grid::connects;
use crate::grid::inside;
use crate::grid::is_walk;
use crate::grid::no_shorter_walk;
use crate::grid::passable;
use crate::grid::reachable;
use crate::grid::rectangular;
use crate::grid::rows;
use crate::grid::shaped;
use crate::grid::with_at;
use crate::maze_solver_algorithms::dfs::lemma_unmarked_all;
use crate::maze_solver_algorithms::dfs::lemma_unmarked_marked;
use crate::maze_solver_algorithms::dfs::unmarked;
use crate::maze_solver_algorithms::step_from;
use crate::maze_solver_algorithms::stepped;
use crate::services::maze_generator::Cell;
use crate::services::maze_generator::Maze;
use crate::maze_solver_algorithms::dfs::ends_with_path_mark;
use crate::maze_solver_algorithms::positions;
use crate::services::marks::last_mark;
use crate::services::marks::lemma_last_mark_push;
use crate::services::marks::lemma_marks_at_push;
use crate::services::marks::lemma_step_gives_a_mark;
use crate::services::marks::marked_once;
use crate::services::marks::marks_at;
use crate::services::marks::off_the_walls;
use crate::services::marks::visits_then_path;
use crate::services::marks::path_marked;
use crate::services::mazer::lemma_logged_nothing;
use crate::services::mazer::lemma_logged_push;
use crate::services::mazer::logged;
use crate::services::mazer::MazeSolverReturnType;
use crate::services::mazer::MazeStep;
use crate::steps::lemma_recorded_nothing;
use crate::steps::recorded;
use std::collections::VecDeque;
use vstd::prelude::*;

verus! {

/// A cell that waits to be looked at, with its distance from the start.
#[derive(Debug, Clone, Copy)]
pub struct DijkstraNode {
    pub coords: Coords<usize>,
    pub distance: u32,
}

impl DijkstraNode {
    /// The position of the cell as row and column.
    pub open spec fn at(self) -> (int, int) {
        (self.coords.y as int, self.coords.x as int)
    }
}

/// The cells that wait to be looked at. The cell that is taken out is one of
/// the least distance, and among those the one that has waited longest.
pub struct MinQueue {
    pub nodes: Vec<DijkstraNode>,
}

impl MinQueue {
    /// The index of the node that [`MinQueue::pop`] takes from the nodes:
    /// the first of the least distance.
    pub open spec fn first_least(nodes: Seq<DijkstraNode>, index: int) -> bool {
        &&& 0 <= index < nodes.len()
        &&& forall|k: int| 0 <= k < nodes.len() ==> nodes[index].distance <= (#[trigger] nodes[k]).distance
        &&& forall|k: int| 0 <= k < index ==> nodes[index].distance < (#[trigger] nodes[k]).distance
    }

    /// An empty queue.
    pub fn new() -> (queue: MinQueue)
        ensures
            queue.nodes@.len() == 0,
    {
        MinQueue { nodes: Vec::new() }
    }

    /// Adds a node behind the nodes that wait.
    pub fn push(&mut self, node: DijkstraNode)
        ensures
            final(self).nodes@ == old(self).nodes@.push(node),
    {
        self.nodes.push(node);
    }

    /// The index of the first node of the least distance.
    pub open spec fn least_index(nodes: Seq<DijkstraNode>) -> int {
        choose|index: int| MinQueue::first_least(nodes, index)
    }

    /// Takes out the first node of the least distance, if the queue holds a
    /// node.
    pub fn pop(&mut self) -> (taken: Option<DijkstraNode>)
        ensures
            match taken {
                Some(node) => {
                    &&& MinQueue::first_least(
                        old(self).nodes@,
                        MinQueue::least_index(old(self).nodes@),
                    )
                    &&& node == old(self).nodes@[MinQueue::least_index(old(self).nodes@)]
                    &&& final(self).nodes@ == old(self).nodes@.remove(
                        MinQueue::least_index(old(self).nodes@),
                    )
                },
                None => old(self).nodes@.len() == 0 && final(self).nodes@.len() == 0,
            },
    {
        if self.nodes.len() == 0 {
            return None;
        }
        let mut least: usize = 0;
        let mut k: usize = 1;
        while k < self.nodes.len()
            invariant
                *self == *old(self),
                1 <= k <= self.nodes@.len(),
                least < k,
                forall|j: int|
                    0 <= j < k ==> self.nodes@[least as int].distance <= (
                    #[trigger] self.nodes@[j]).distance,
                forall|j: int|
                    0 <= j < least ==> self.nodes@[least as int].distance < (
                    #[trigger] self.nodes@[j]).distance,
            decreases self.nodes@.len() - k,
        {
            if self.nodes[k].distance < self.nodes[least].distance {
                least = k;
            }
            k += 1;
        }
        proof {
            let nodes = self.nodes@;
            assert(MinQueue::first_least(nodes, least as int));
            let chosen = MinQueue::least_index(nodes);
            assert(MinQueue::first_least(nodes, chosen));
            if chosen < least {
                assert(nodes[least as int].distance < nodes[chosen].distance);
                assert(nodes[chosen].distance <= nodes[least as int].distance);
            }
            if least < chosen {
                assert(nodes[chosen].distance < nodes[least as int].distance);
                assert(nodes[least as int].distance <= nodes[chosen].distance);
            }
        }
        let node = self.nodes.remove(least);
        Some(node)
    }
}

/// The distance of the cell from the start is known.
pub open spec fn known(dist: Seq<Seq<u32>>, at: (int, int)) -> bool {
    0 <= at.0 < dist.len() && 0 <= at.1 < dist[at.0].len() && dist[at.0][at.1] != u32::MAX
}

/// The distance that is noted for the cell.
pub open spec fn far(dist: Seq<Seq<u32>>, at: (int, int)) -> int {
    dist[at.0][at.1] as int
}

/// The cells whose distance is known, as marks.
pub open spec fn known_cells(dist: Seq<Seq<u32>>) -> Seq<Seq<bool>> {
    Seq::new(dist.len(), |r: int| Seq::new(dist[r].len(), |c: int| dist[r][c] != u32::MAX))
}

/// The cell waits in the queue.
pub open spec fn waits(nodes: Seq<DijkstraNode>, at: (int, int)) -> bool {
    exists|i: int| 0 <= i < nodes.len() && (#[trigger] nodes[i]).at() == at
}

/// The cell from which the search came to the cell.
pub open spec fn came_from(pred: Seq<Seq<Coords<usize>>>, at: (int, int)) -> (int, int) {
    (pred[at.0][at.1].y as int, pred[at.0][at.1].x as int)
}

/// The state of a search, as the proof of the solver sees it.
pub struct Search {
    /// The grid of the maze, with its height and its width.
    pub grid: Seq<Seq<Cell>>,
    pub height: int,
    pub width: int,
    /// The distance that is noted for each cell; the greatest number where
    /// none is known.
    pub dist: Seq<Seq<u32>>,
    /// The cell from which the search came to each cell.
    pub pred: Seq<Seq<Coords<usize>>>,
    /// The queue.
    pub nodes: Seq<DijkstraNode>,
    /// The cells that were taken from the queue and looked at from all
    /// sides.
    pub done: Set<(int, int)>,
    /// The distance of the cell that was taken from the queue last.
    pub level: int,
    /// The greatest distance that is known.
    pub top: int,
    pub start: (int, int),
    pub end: (int, int),
    /// The cell that was taken from the queue and is being looked at.
    pub busy: Option<(int, int)>,
}

/// The grids fit the maze, the start is known at no distance, and no known
/// distance is greater than `top`, which is the level or one more and small
/// enough for the cells that are not known yet.
#[verifier::opaque]
pub open spec fn bounds_ok(
    grid: Seq<Seq<Cell>>,
    height: int,
    width: int,
    dist: Seq<Seq<u32>>,
    pred: Seq<Seq<Coords<usize>>>,
    start: (int, int),
    level: int,
    top: int,
) -> bool {
    &&& rectangular(grid, height, width)
    &&& shaped(dist, height, width)
    &&& shaped(pred, height, width)
    &&& height <= usize::MAX
    &&& width <= usize::MAX
    &&& height * width < u32::MAX
    &&& inside(grid, start)
    &&& known(dist, start)
    &&& far(dist, start) == 0
    &&& 0 <= level <= top <= level + 1
    &&& top + unmarked(known_cells(dist)) <= height * width - 1
    &&& forall|p: (int, int)| #[trigger] known(dist, p) ==> far(dist, p) <= top
}

/// Every node of the queue is a known cell at its distance, which is not
/// less than the level.
#[verifier::opaque]
pub open spec fn nodes_ok(dist: Seq<Seq<u32>>, nodes: Seq<DijkstraNode>, level: int) -> bool {
    forall|i: int|
        0 <= i < nodes.len() ==> {
            &&& known(dist, (#[trigger] nodes[i]).at())
            &&& far(dist, nodes[i].at()) == nodes[i].distance
            &&& level <= nodes[i].distance
        }
}

/// Every known cell is done with, is being looked at, or waits.
#[verifier::opaque]
pub open spec fn waiting_ok(
    dist: Seq<Seq<u32>>,
    nodes: Seq<DijkstraNode>,
    done: Set<(int, int)>,
    busy: Option<(int, int)>,
) -> bool {
    forall|p: (int, int)|
        #[trigger] known(dist, p) && !done.contains(p) && busy != Some(p) ==> waits(nodes, p)
}

/// Every cell that is done with is known, is not the end and is not farther
/// than the level, and each of its neighbours that is no wall is known and
/// at most one step farther.
#[verifier::opaque]
pub open spec fn done_ok(
    grid: Seq<Seq<Cell>>,
    dist: Seq<Seq<u32>>,
    done: Set<(int, int)>,
    level: int,
    end: (int, int),
) -> bool {
    &&& forall|p: (int, int)| #[trigger]
        done.contains(p) ==> known(dist, p) && p != end && far(dist, p) <= level
    &&& forall|p: (int, int), q: (int, int)|
        #![trigger done.contains(p), adjacent(p, q)]
        done.contains(p) && adjacent(p, q) && passable(grid, q) ==> known(dist, q) && far(dist, q)
            <= far(dist, p) + 1
}

/// The search came to every known cell but the start from a known neighbour
/// that is one step nearer, and the cell is no wall.
#[verifier::opaque]
pub open spec fn pred_ok(
    grid: Seq<Seq<Cell>>,
    dist: Seq<Seq<u32>>,
    pred: Seq<Seq<Coords<usize>>>,
    start: (int, int),
) -> bool {
    forall|p: (int, int)|
        #[trigger] known(dist, p) && p != start ==> {
            &&& known(dist, came_from(pred, p))
            &&& far(dist, came_from(pred, p)) + 1 == far(dist, p)
            &&& adjacent(came_from(pred, p), p)
            &&& passable(grid, p)
        }
}

/// The cell that is being looked at is known, at the level, and not the end.
pub open spec fn busy_ok(
    dist: Seq<Seq<u32>>,
    level: int,
    end: (int, int),
    busy: Option<(int, int)>,
) -> bool {
    match busy {
        Some(u) => known(dist, u) && far(dist, u) == level && u != end,
        None => true,
    }
}

impl Search {
    /// What holds of a search between any two of its steps.
    pub open spec fn valid(self) -> bool {
        &&& bounds_ok(
            self.grid,
            self.height,
            self.width,
            self.dist,
            self.pred,
            self.start,
            self.level,
            self.top,
        )
        &&& nodes_ok(self.dist, self.nodes, self.level)
        &&& waiting_ok(self.dist, self.nodes, self.done, self.busy)
        &&& done_ok(self.grid, self.dist, self.done, self.level, self.end)
        &&& pred_ok(self.grid, self.dist, self.pred, self.start)
        &&& busy_ok(self.dist, self.level, self.end, self.busy)
    }

    /// The search after the first node of the least distance is taken from
    /// the queue, to be looked at.
    pub open spec fn taken(self) -> Search {
        let index = MinQueue::least_index(self.nodes);
        Search {
            nodes: self.nodes.remove(index),
            level: self.nodes[index].distance as int,
            busy: Some(self.nodes[index].at()),
            ..self
        }
    }

    /// The search after it has come to the cell `q` from the cell that it
    /// looks at.
    pub open spec fn reached(self, q: (int, int)) -> Search {
        Search {
            dist: with_at(self.dist, q, (self.level + 1) as u32),
            pred: with_at(
                self.pred,
                q,
                Coords { x: self.busy.unwrap().1 as usize, y: self.busy.unwrap().0 as usize },
            ),
            nodes: self.nodes.push(
                DijkstraNode {
                    coords: Coords { x: q.1 as usize, y: q.0 as usize },
                    distance: (self.level + 1) as u32,
                },
            ),
            top: self.level + 1,
            ..self
        }
    }

    /// The search after the cell that it looked at is done with.
    pub open spec fn finished(self) -> Search {
        Search { done: self.done.insert(self.busy.unwrap()), busy: None, ..self }
    }

    /// The search has looked from the cell that it looks at towards `q`.
    pub open spec fn looked_at(self, q: (int, int)) -> bool {
        passable(self.grid, q) ==> known(self.dist, q) && far(self.dist, q) <= self.level + 1
    }
}

/// The search as it starts: the start is known, at no distance, and waits.
pub proof fn lemma_search_starts(
    grid: Seq<Seq<Cell>>,
    height: int,
    width: int,
    blank: Seq<Seq<u32>>,
    pred: Seq<Seq<Coords<usize>>>,
    start: Coords<usize>,
    end: (int, int),
) -> (search: Search)
    requires
        rectangular(grid, height, width),
        shaped(blank, height, width),
        shaped(pred, height, width),
        height <= usize::MAX,
        width <= usize::MAX,
        height * width < u32::MAX,
        inside(grid, (start.y as int, start.x as int)),
        forall|r: int, c: int|
            0 <= r < height && 0 <= c < width ==> (#[trigger] blank[r][c]) == u32::MAX,
    ensures
        search.valid(),
        search.grid == grid,
        search.height == height,
        search.width == width,
        search.dist == with_at(blank, (start.y as int, start.x as int), 0u32),
        search.pred == pred,
        search.nodes == seq![DijkstraNode { coords: start, distance: 0 }],
        search.start == (start.y as int, start.x as int),
        search.end == end,
        search.busy is None,
{
    reveal(bounds_ok);
    reveal(nodes_ok);
    reveal(waiting_ok);
    reveal(done_ok);
    reveal(pred_ok);
    let at = (start.y as int, start.x as int);
    let dist = with_at(blank, at, 0u32);
    let search = Search {
        grid,
        height,
        width,
        dist,
        pred,
        nodes: seq![DijkstraNode { coords: start, distance: 0 }],
        done: Set::empty(),
        level: 0,
        top: 0,
        start: at,
        end,
        busy: None,
    };
    assert(grid[at.0].len() == width);
    assert(blank[at.0].len() == width);
    assert(shaped(dist, height, width)) by {
        assert forall|r: int| 0 <= r < height implies (#[trigger] dist[r]).len() == width by {
            assert(blank[r].len() == width);
        }
    }
    let none = known_cells(blank);
    assert(shaped(none, height, width)) by {
        assert forall|r: int| 0 <= r < height implies (#[trigger] none[r]).len() == width by {
            assert(blank[r].len() == width);
        }
    }
    assert forall|r: int, c: int| 0 <= r < height && 0 <= c < width implies !(
    #[trigger] none[r][c]) by {
        assert(blank[r].len() == width);
        assert(blank[r][c] == u32::MAX);
    }
    lemma_unmarked_all(none, height, width);
    lemma_unmarked_marked(none, at.0, at.1);
    assert(known_cells(dist) =~= with_at(none, at, true)) by {
        assert forall|r: int| 0 <= r < height implies #[trigger] known_cells(dist)[r] =~= with_at(
            none,
            at,
            true,
        )[r] by {
            assert(blank[r].len() == width);
        }
    }
    assert forall|p: (int, int)| #[trigger] known(dist, p) implies p == at by {
        assert(blank[p.0].len() == width);
        if p != at {
            assert(blank[p.0][p.1] == u32::MAX);
        }
    }
    assert(search.nodes[0].at() == at);
    assert(waits(search.nodes, at));
    search
}

/// Taking the first node of the least distance from the queue: the cell is
/// known at the distance of the node, no known cell that is not done with
/// is nearer, and unless the cell is the end, the search goes on with
/// looking at it.
pub proof fn lemma_search_takes(search: Search)
    requires
        search.valid(),
        search.busy is None,
        search.nodes.len() > 0,
    ensures
        MinQueue::first_least(search.nodes, MinQueue::least_index(search.nodes)),
        known(search.dist, search.taken().busy.unwrap()),
        far(search.dist, search.taken().busy.unwrap()) == search.taken().level,
        search.taken().busy.unwrap() != search.end ==> search.taken().valid(),
        forall|p: (int, int)|
            #[trigger] known(search.dist, p) && far(search.dist, p) < search.taken().level
                ==> search.done.contains(p),
{
    let nodes = search.nodes;
    // some index is the first of the least distance
    lemma_first_least_exists(nodes, nodes.len() as int);
    assert(nodes.take(nodes.len() as int) =~= nodes);
    let index = MinQueue::least_index(nodes);
    assert(MinQueue::first_least(nodes, index));
    let after = search.taken();
    let u = nodes[index].at();
    assert(known(search.dist, nodes[index].at()) && far(search.dist, u) == nodes[index].distance
        && search.level <= nodes[index].distance) by {
        reveal(nodes_ok);
    }
    assert forall|p: (int, int)|
        #[trigger] known(search.dist, p) && far(search.dist, p) < after.level implies search.done.contains(
        p,
    ) by {
        reveal(nodes_ok);
        reveal(waiting_ok);
        if !search.done.contains(p) {
            assert(waits(nodes, p));
            let i = choose|i: int| 0 <= i < nodes.len() && (#[trigger] nodes[i]).at() == p;
            assert(nodes[index].distance <= nodes[i].distance);
            assert(known(search.dist, nodes[i].at()));
        }
    }
    if u != search.end {
        assert(bounds_ok(
            after.grid,
            after.height,
            after.width,
            after.dist,
            after.pred,
            after.start,
            after.level,
            after.top,
        )) by {
            reveal(bounds_ok);
            assert(known(search.dist, u));
        }
        assert(nodes_ok(after.dist, after.nodes, after.level)) by {
            reveal(nodes_ok);
            assert forall|i: int| 0 <= i < after.nodes.len() implies {
                &&& known(after.dist, (#[trigger] after.nodes[i]).at())
                &&& far(after.dist, after.nodes[i].at()) == after.nodes[i].distance
                &&& after.level <= after.nodes[i].distance
            } by {
                let j = if i < index {
                    i
                } else {
                    i + 1
                };
                assert(after.nodes[i] == nodes[j]);
                assert(known(search.dist, nodes[j].at()));
                assert(nodes[index].distance <= nodes[j].distance);
            }
        }
        assert(waiting_ok(after.dist, after.nodes, after.done, after.busy)) by {
            reveal(waiting_ok);
            assert forall|p: (int, int)|
                #[trigger] known(after.dist, p) && !after.done.contains(p) && after.busy != Some(
                    p,
                ) implies waits(after.nodes, p) by {
                assert(waits(nodes, p));
                let i = choose|i: int| 0 <= i < nodes.len() && (#[trigger] nodes[i]).at() == p;
                let j = if i < index {
                    i
                } else {
                    i - 1
                };
                assert(after.nodes[j] == nodes[i]);
                assert(after.nodes[j].at() == p);
            }
        }
        assert(done_ok(after.grid, after.dist, after.done, after.level, after.end)) by {
            reveal(done_ok);
        }
    }
}

proof fn lemma_first_least_exists(nodes: Seq<DijkstraNode>, upto: int)
    requires
        1 <= upto <= nodes.len(),
    ensures
        exists|i: int| MinQueue::first_least(nodes.take(upto), i),
    decreases upto,
{
    let part = nodes.take(upto);
    if upto == 1 {
        assert(MinQueue::first_least(part, 0));
    } else {
        lemma_first_least_exists(nodes, upto - 1);
        let before = nodes.take(upto - 1);
        let i = choose|i: int| MinQueue::first_least(before, i);
        assert(MinQueue::first_least(before, i));
        if part[upto - 1].distance < part[i].distance {
            assert forall|k: int| 0 <= k < part.len() implies part[upto - 1].distance <= (
            #[trigger] part[k]).distance by {
                if k < upto - 1 {
                    assert(before[i].distance <= before[k].distance);
                }
            }
            assert forall|k: int| 0 <= k < upto - 1 implies part[upto - 1].distance < (
            #[trigger] part[k]).distance by {
                assert(before[i].distance <= before[k].distance);
            }
            assert(MinQueue::first_least(part, upto - 1));
        } else {
            assert forall|k: int| 0 <= k < part.len() implies part[i].distance <= (
            #[trigger] part[k]).distance by {
                if k < upto - 1 {
                    assert(before[i].distance <= before[k].distance);
                }
            }
            assert forall|k: int| 0 <= k < i implies part[i].distance < (
            #[trigger] part[k]).distance by {
                assert(before[i].distance < before[k].distance);
            }
            assert(MinQueue::first_least(part, i));
        }
    }
}

/// One step more than the level is a distance that can be noted, and no
/// known cell is farther.
pub proof fn lemma_search_level(search: Search)
    requires
        search.valid(),
    ensures
        0 <= search.level,
        search.level + 1 < u32::MAX,
        shaped(search.dist, search.height, search.width),
        shaped(search.pred, search.height, search.width),
        rectangular(search.grid, search.height, search.width),
        search.height <= usize::MAX,
        search.width <= usize::MAX,
        forall|p: (int, int)|
            #[trigger] known(search.dist, p) ==> far(search.dist, p) <= search.level + 1,
{
    reveal(bounds_ok);
}

/// A neighbour that is known already has been looked at.
pub proof fn lemma_search_skips(search: Search, q: (int, int))
    requires
        search.valid(),
        known(search.dist, q) || !passable(search.grid, q),
    ensures
        search.looked_at(q),
{
    reveal(bounds_ok);
}

/// Coming to a neighbour that is no wall and not known yet: the neighbour
/// is noted one step farther than the level, with the cell that is being
/// looked at as the cell from which the search came, and it waits.
pub proof fn lemma_search_reaches(search: Search, q: (int, int))
    requires
        search.valid(),
        search.busy is Some,
        adjacent(search.busy.unwrap(), q),
        passable(search.grid, q),
        !known(search.dist, q),
    ensures
        search.reached(q).valid(),
        search.reached(q).looked_at(q),
        unmarked(known_cells(search.reached(q).dist)) < unmarked(known_cells(search.dist)),
        forall|other: (int, int)| search.looked_at(other) ==> search.reached(q).looked_at(other),
{
    let after = search.reached(q);
    let u = search.busy.unwrap();
    let d = (search.level + 1) as u32;
    lemma_search_level(search);
    assert(search.grid[q.0].len() == search.width);
    assert(search.dist[q.0].len() == search.width);
    assert(search.pred[q.0].len() == search.width);
    assert(search.dist[q.0][q.1] == u32::MAX);
    // the distances: only that of `q` has changed
    assert forall|p: (int, int)| #[trigger] known(after.dist, p) <==> known(search.dist, p) || p
        == q by {
        if 0 <= p.0 < search.height {
            assert(search.dist[p.0].len() == search.width);
        }
    }
    assert forall|p: (int, int)| #[trigger] known(search.dist, p) implies far(after.dist, p)
        == far(search.dist, p) by {}
    assert(far(after.dist, q) == search.level + 1);
    assert(known(after.dist, q));
    assert(known(search.dist, u) && far(search.dist, u) == search.level);
    assert(bounds_ok(
        after.grid,
        after.height,
        after.width,
        after.dist,
        after.pred,
        after.start,
        after.level,
        after.top,
    )) by {
        reveal(bounds_ok);
        assert(shaped(after.dist, after.height, after.width)) by {
            assert forall|r: int| 0 <= r < after.height implies (#[trigger] after.dist[r]).len()
                == after.width by {
                assert(search.dist[r].len() == search.width);
            }
        }
        assert(shaped(after.pred, after.height, after.width)) by {
            assert forall|r: int| 0 <= r < after.height implies (#[trigger] after.pred[r]).len()
                == after.width by {
                assert(search.pred[r].len() == search.width);
            }
        }
        let marks = known_cells(search.dist);
        assert(!marks[q.0][q.1]);
        lemma_unmarked_marked(marks, q.0, q.1);
        assert(known_cells(after.dist) =~= with_at(marks, q, true)) by {
            assert forall|r: int| 0 <= r < after.height implies #[trigger] known_cells(
                after.dist,
            )[r] =~= with_at(marks, q, true)[r] by {
                assert(search.dist[r].len() == search.width);
            }
        }
        assert forall|p: (int, int)| #[trigger] known(after.dist, p) implies far(after.dist, p)
            <= after.top by {
            if p != q {
                assert(known(search.dist, p));
            }
        }
    }
    assert(unmarked(known_cells(after.dist)) < unmarked(known_cells(search.dist))) by {
        let marks = known_cells(search.dist);
        assert(!marks[q.0][q.1]);
        lemma_unmarked_marked(marks, q.0, q.1);
        assert(known_cells(after.dist) =~= with_at(marks, q, true)) by {
            assert forall|r: int| 0 <= r < after.height implies #[trigger] known_cells(
                after.dist,
            )[r] =~= with_at(marks, q, true)[r] by {
                assert(search.dist[r].len() == search.width);
            }
        }
    }
    assert(nodes_ok(after.dist, after.nodes, after.level)) by {
        reveal(nodes_ok);
        assert forall|i: int| 0 <= i < after.nodes.len() implies {
            &&& known(after.dist, (#[trigger] after.nodes[i]).at())
            &&& far(after.dist, after.nodes[i].at()) == after.nodes[i].distance
            &&& after.level <= after.nodes[i].distance
        } by {
            if i < search.nodes.len() {
                assert(after.nodes[i] == search.nodes[i]);
                assert(known(search.dist, search.nodes[i].at()));
            } else {
                assert(after.nodes[i].at() == q);
            }
        }
    }
    assert(waiting_ok(after.dist, after.nodes, after.done, after.busy)) by {
        reveal(waiting_ok);
        assert forall|p: (int, int)|
            #[trigger] known(after.dist, p) && !after.done.contains(p) && after.busy != Some(
                p,
            ) implies waits(after.nodes, p) by {
            if p == q {
                assert(after.nodes[search.nodes.len() as int].at() == q);
            } else {
                assert(known(search.dist, p));
                assert(waits(search.nodes, p));
                let i = choose|i: int|
                    0 <= i < search.nodes.len() && (#[trigger] search.nodes[i]).at() == p;
                assert(after.nodes[i] == search.nodes[i]);
                assert(after.nodes[i].at() == p);
            }
        }
    }
    assert(done_ok(after.grid, after.dist, after.done, after.level, after.end)) by {
        reveal(done_ok);
        assert forall|p: (int, int)| #[trigger] after.done.contains(p) implies known(
            after.dist,
            p,
        ) && p != after.end && far(after.dist, p) <= after.level by {
            assert(known(search.dist, p));
        }
        assert forall|p: (int, int), other: (int, int)|
            #![trigger after.done.contains(p), adjacent(p, other)]
            after.done.contains(p) && adjacent(p, other) && passable(
                after.grid,
                other,
            ) implies known(after.dist, other) && far(after.dist, other) <= far(after.dist, p)
            + 1 by {
            assert(known(search.dist, p));
            assert(known(search.dist, other));
        }
    }
    assert(pred_ok(after.grid, after.dist, after.pred, after.start)) by {
        reveal(pred_ok);
        assert forall|p: (int, int)| #[trigger] known(after.dist, p) && p != after.start implies {
            &&& known(after.dist, came_from(after.pred, p))
            &&& far(after.dist, came_from(after.pred, p)) + 1 == far(after.dist, p)
            &&& adjacent(came_from(after.pred, p), p)
            &&& passable(after.grid, p)
        } by {
            if p == q {
                assert(came_from(after.pred, q) == u);
            } else {
                assert(known(search.dist, p));
                assert(search.pred[p.0].len() == search.width);
                assert(came_from(after.pred, p) == came_from(search.pred, p));
                assert(known(search.dist, came_from(search.pred, p)));
            }
        }
    }
    assert forall|other: (int, int)| search.looked_at(other) implies after.looked_at(other) by {
        if passable(search.grid, other) && other != q {
            assert(known(search.dist, other));
        }
    }
}

/// Being done with the cell that is being looked at, once the search has
/// looked at each of its neighbours.
pub proof fn lemma_search_finishes(search: Search)
    requires
        search.valid(),
        search.busy is Some,
        forall|q: (int, int)| #[trigger] adjacent(search.busy.unwrap(), q) ==> search.looked_at(q),
    ensures
        search.finished().valid(),
        search.finished().busy is None,
{
    let after = search.finished();
    let u = search.busy.unwrap();
    assert(nodes_ok(after.dist, after.nodes, after.level));
    assert(waiting_ok(after.dist, after.nodes, after.done, after.busy)) by {
        reveal(waiting_ok);
    }
    assert(done_ok(after.grid, after.dist, after.done, after.level, after.end)) by {
        reveal(done_ok);
        assert forall|p: (int, int), q: (int, int)|
            #![trigger after.done.contains(p), adjacent(p, q)]
            after.done.contains(p) && adjacent(p, q) && passable(after.grid, q) implies known(
                after.dist,
                q,
            ) && far(after.dist, q) <= far(after.dist, p) + 1 by {
            if p == u {
                assert(search.looked_at(q));
            } else {
                assert(search.done.contains(p));
            }
        }
    }
}

/// Along a walk from the start, as long as the cells are nearer than
/// `bound`, every cell is known and no farther than the steps to it.
proof fn lemma_walk_is_known(search: Search, walk: Seq<(int, int)>, bound: int, upto: int)
    requires
        search.valid(),
        is_walk(search.grid, walk),
        walk[0] == search.start,
        forall|p: (int, int)|
            #[trigger] known(search.dist, p) && far(search.dist, p) < bound ==> search.done.contains(
                p,
            ),
        0 <= upto < walk.len(),
        upto <= bound,
    ensures
        known(search.dist, walk[upto]),
        far(search.dist, walk[upto]) <= upto,
    decreases upto,
{
    if upto == 0 {
        reveal(bounds_ok);
    } else {
        lemma_walk_is_known(search, walk, bound, upto - 1);
        let p = walk[upto - 1];
        let q = walk[upto];
        assert(adjacent(p, q) && passable(search.grid, q));
        assert(known(search.dist, p) && far(search.dist, p) < bound);
        assert(search.done.contains(p));
        reveal(done_ok);
    }
}

/// When the end is taken from the queue, no walk from the start to the end
/// is shorter than the distance of the end.
pub proof fn lemma_search_found(search: Search)
    requires
        search.valid(),
        search.busy is None,
        search.nodes.len() > 0,
        search.taken().busy == Some(search.end),
    ensures
        no_shorter_walk(search.grid, search.start, search.end, search.taken().level),
{
    lemma_search_takes(search);
    let bound = search.taken().level;
    assert forall|walk: Seq<(int, int)>| #[trigger]
        connects(search.grid, walk, search.start, search.end) implies walk.len() - 1 >= bound by {
        if walk.len() - 1 < bound {
            lemma_walk_is_known(search, walk, bound, walk.len() - 1);
        }
    }
}

/// Along a walk from the start, once the queue is empty, every cell is done
/// with.
proof fn lemma_walk_is_done(search: Search, walk: Seq<(int, int)>, upto: int)
    requires
        search.valid(),
        search.busy is None,
        search.nodes.len() == 0,
        is_walk(search.grid, walk),
        walk[0] == search.start,
        0 <= upto < walk.len(),
    ensures
        search.done.contains(walk[upto]),
    decreases upto,
{
    reveal(waiting_ok);
    if upto == 0 {
        reveal(bounds_ok);
        assert(known(search.dist, search.start));
        if !search.done.contains(search.start) {
            assert(waits(search.nodes, search.start));
        }
    } else {
        lemma_walk_is_done(search, walk, upto - 1);
        let p = walk[upto - 1];
        let q = walk[upto];
        assert(adjacent(p, q) && passable(search.grid, q));
        assert(known(search.dist, q)) by {
            reveal(done_ok);
        }
        if !search.done.contains(q) {
            assert(waits(search.nodes, q));
        }
    }
}

/// When the queue is empty, no walk leads from the start to the end.
pub proof fn lemma_search_exhausted(search: Search)
    requires
        search.valid(),
        search.busy is None,
        search.nodes.len() == 0,
    ensures
        !reachable(search.grid, search.start, search.end),
{
    assert forall|walk: Seq<(int, int)>| !connects(
        search.grid,
        walk,
        search.start,
        search.end,
    ) by {
        if connects(search.grid, walk, search.start, search.end) {
            lemma_walk_is_done(search, walk, walk.len() - 1);
            reveal(done_ok);
        }
    }
}

/// A walk leads from the start to every cell whose distance is known.
pub proof fn lemma_known_is_reachable(search: Search, p: (int, int))
    requires
        search.valid(),
        known(search.dist, p),
    ensures
        reachable(search.grid, search.start, p),
    decreases far(search.dist, p),
{
    reveal(bounds_ok);
    reveal(pred_ok);
    if p == search.start {
        assert(connects(search.grid, seq![p], search.start, p));
    } else {
        let before = came_from(search.pred, p);
        lemma_known_is_reachable(search, before);
        let walk = choose|walk: Seq<(int, int)>|
            connects(search.grid, walk, search.start, before);
        let longer = walk.push(p);
        assert forall|k: int| 1 <= k < longer.len() implies adjacent(
            longer[k - 1],
            #[trigger] longer[k],
        ) && passable(search.grid, longer[k]) by {
            if k < walk.len() {
                assert(longer[k] == walk[k]);
                assert(longer[k - 1] == walk[k - 1]);
            }
        }
        assert(connects(search.grid, longer, search.start, p));
    }
}

/// When the queue is empty, the distance of every cell to which a walk
/// leads from the start is known.
pub proof fn lemma_reachable_is_known(search: Search, p: (int, int))
    requires
        search.valid(),
        search.busy is None,
        search.nodes.len() == 0,
        reachable(search.grid, search.start, p),
    ensures
        known(search.dist, p),
{
    let walk = choose|walk: Seq<(int, int)>| connects(search.grid, walk, search.start, p);
    lemma_walk_is_done(search, walk, walk.len() - 1);
    reveal(done_ok);
}

/// Where no walk leads from the start to any other cell, the log of a
/// search holds the visit of the start and nothing else.
pub proof fn lemma_log_of_a_closed_start(
    grid: Seq<Seq<Cell>>,
    steps: Seq<MazeStep>,
    start: Coords<usize>,
)
    requires
        visits_then_walk(steps, Seq::empty(), start),
        marked_once(steps, Seq::empty()),
        within_reach(grid, steps, (start.y as int, start.x as int)),
        forall|at: (int, int)|
            reachable(grid, (start.y as int, start.x as int), at) ==> at == (
                start.y as int,
                start.x as int,
            ),
    ensures
        steps == seq![MazeStep { coords: start, cell_type: Cell::Visited }],
{
    let at = (start.y as int, start.x as int);
    assert forall|n: int| 0 <= n < steps.len() implies (#[trigger] steps[n]).at() == at by {
        assert(reachable(grid, at, steps[n].at()));
    }
    crate::services::marks::lemma_steps_at_one_cell(steps, at);
    assert(!Seq::<(int, int)>::empty().contains(at));
    assert(marks_at(steps, at).len() <= 1);
    assert(steps =~= seq![MazeStep { coords: start, cell_type: Cell::Visited }]);
}

/// A path of coordinates as positions: pairs of a row and a column.
pub open spec fn coords_walk(path: Seq<Coords<usize>>) -> Seq<(int, int)> {
    Seq::new(path.len(), |k: int| (path[k].y as int, path[k].x as int))
}

/// A path of coordinates from its end to its start, as pairs of a row and a
/// column.
pub open spec fn backwards(path: Seq<Coords<usize>>) -> Seq<(usize, usize)> {
    Seq::new(path.len(), |k: int| (path[path.len() - 1 - k].y, path[path.len() - 1 - k].x))
}

/// The step along the rows of the direction of the number: the search looks
/// down, up, right and left, in this order.
pub open spec fn d_row(direction: int) -> int {
    if direction == 0 {
        1
    } else if direction == 1 {
        -1
    } else {
        0
    }
}

/// The step along the columns of the direction of the number.
pub open spec fn d_col(direction: int) -> int {
    if direction == 2 {
        1
    } else if direction == 3 {
        -1
    } else {
        0
    }
}

/// The search has looked in the direction of the number from the cell that
/// it looks at.
pub open spec fn looked(search: Search, row: usize, col: usize, direction: int) -> bool {
    match stepped(row, col, d_row(direction), d_col(direction)) {
        Some(next) => search.looked_at((next.0 as int, next.1 as int)),
        None => true,
    }
}

/// The state of the proof is that of the grids and of the queue.
pub open spec fn tracks(
    search: Search,
    maze: &Maze,
    distance: Seq<Vec<u32>>,
    path: Seq<Vec<Coords<usize>>>,
    queue: MinQueue,
    start: Coords<usize>,
    end: Coords<usize>,
) -> bool {
    &&& search.grid == maze.grid()
    &&& search.height == maze.height
    &&& search.width == maze.width
    &&& search.dist == rows(distance)
    &&& search.pred == rows(path)
    &&& search.nodes == queue.nodes@
    &&& search.start == (start.y as int, start.x as int)
    &&& search.end == (end.y as int, end.x as int)
}

/// What the search has recorded, by the last mark of each cell: the cells
/// whose distance is known are marked as visited, and no other cell is
/// marked.
#[verifier::opaque]
pub open spec fn visits_left(steps: Seq<MazeStep>, dist: Seq<Seq<u32>>) -> bool {
    forall|at: (int, int)| #[trigger]
        last_mark(steps, at) == (if known(dist, at) {
            Some(Cell::Visited)
        } else {
            None
        })
}

/// What the search has recorded once it has gone back along a part of the
/// walk that it found: the cells of that part are marked as on the path,
/// the other cells whose distance is known as visited, and no other cell is
/// marked.
#[verifier::opaque]
pub open spec fn walk_left(
    steps: Seq<MazeStep>,
    dist: Seq<Seq<u32>>,
    walk: Seq<Coords<usize>>,
) -> bool {
    forall|at: (int, int)| #[trigger]
        last_mark(steps, at) == (if coords_walk(walk).contains(at) {
            Some(Cell::Path)
        } else if known(dist, at) {
            Some(Cell::Visited)
        } else {
            None
        })
}

/// The start, recorded as visited, at the start of a search.
proof fn lemma_visits_start(blank: Seq<Seq<u32>>, height: int, width: int, start: Coords<usize>)
    requires
        shaped(blank, height, width),
        0 <= start.y < height,
        0 <= start.x < width,
        forall|r: int, c: int|
            0 <= r < height && 0 <= c < width ==> (#[trigger] blank[r][c]) == u32::MAX,
    ensures
        visits_left(
            seq![MazeStep { coords: start, cell_type: Cell::Visited }],
            with_at(blank, (start.y as int, start.x as int), 0u32),
        ),
{
    reveal(visits_left);
    let step = MazeStep { coords: start, cell_type: Cell::Visited };
    let dist = with_at(blank, (start.y as int, start.x as int), 0u32);
    assert(blank[start.y as int].len() == width);
    assert forall|at: (int, int)| #[trigger]
        last_mark(seq![step], at) == (if known(dist, at) {
            Some(Cell::Visited)
        } else {
            None
        }) by {
        assert(seq![step] =~= Seq::<MazeStep>::empty().push(step));
        lemma_last_mark_push(Seq::<MazeStep>::empty(), step, at);
        assert(last_mark(Seq::<MazeStep>::empty(), at) is None);
        if at != (start.y as int, start.x as int) {
            if 0 <= at.0 < height && 0 <= at.1 < width {
                assert(blank[at.0].len() == width);
                assert(blank[at.0][at.1] == u32::MAX);
            }
        }
    }
}

/// A cell that the search has come to, recorded as visited.
proof fn lemma_visits_reached(steps: Seq<MazeStep>, search: Search, q: (int, int))
    requires
        search.valid(),
        visits_left(steps, search.dist),
        inside(search.grid, q),
        !known(search.dist, q),
    ensures
        visits_left(
            steps.push(
                MazeStep {
                    coords: Coords { x: q.1 as usize, y: q.0 as usize },
                    cell_type: Cell::Visited,
                },
            ),
            search.reached(q).dist,
        ),
{
    reveal(visits_left);
    lemma_search_level(search);
    let step = MazeStep {
        coords: Coords { x: q.1 as usize, y: q.0 as usize },
        cell_type: Cell::Visited,
    };
    let after = search.reached(q).dist;
    assert(search.grid[q.0].len() == search.width);
    assert(search.dist[q.0].len() == search.width);
    assert(step.at() == q);
    assert forall|at: (int, int)| #[trigger]
        last_mark(steps.push(step), at) == (if known(after, at) {
            Some(Cell::Visited)
        } else {
            None
        }) by {
        lemma_last_mark_push(steps, step, at);
        if at != q {
            if 0 <= at.0 < search.height {
                assert(search.dist[at.0].len() == search.width);
            }
            assert(known(after, at) == known(search.dist, at));
        }
    }
}

/// Before the search goes back along the walk, no cell is marked as on the
/// path.
proof fn lemma_walk_left_nothing(steps: Seq<MazeStep>, dist: Seq<Seq<u32>>)
    requires
        visits_left(steps, dist),
    ensures
        walk_left(steps, dist, Seq::empty()),
{
    reveal(visits_left);
    reveal(walk_left);
    assert forall|at: (int, int)| #[trigger]
        last_mark(steps, at) == (if coords_walk(Seq::<Coords<usize>>::empty()).contains(at) {
            Some(Cell::Path)
        } else if known(dist, at) {
            Some(Cell::Visited)
        } else {
            None
        }) by {
        assert(!coords_walk(Seq::<Coords<usize>>::empty()).contains(at));
    }
}

/// One more cell of the walk, recorded as on the path.
proof fn lemma_walk_left_more(
    steps: Seq<MazeStep>,
    dist: Seq<Seq<u32>>,
    walk: Seq<Coords<usize>>,
    cell: Coords<usize>,
)
    requires
        walk_left(steps, dist, walk),
    ensures
        walk_left(
            steps.push(MazeStep { coords: cell, cell_type: Cell::Path }),
            dist,
            seq![cell] + walk,
        ),
{
    reveal(walk_left);
    let step = MazeStep { coords: cell, cell_type: Cell::Path };
    let longer = seq![cell] + walk;
    assert forall|at: (int, int)| #[trigger]
        last_mark(steps.push(step), at) == (if coords_walk(longer).contains(at) {
            Some(Cell::Path)
        } else if known(dist, at) {
            Some(Cell::Visited)
        } else {
            None
        }) by {
        lemma_last_mark_push(steps, step, at);
        assert(coords_walk(longer)[0] == step.at());
        if coords_walk(walk).contains(at) {
            let k = choose|k: int| 0 <= k < coords_walk(walk).len() && coords_walk(walk)[k] == at;
            assert(coords_walk(longer)[k + 1] == at);
        }
        if coords_walk(longer).contains(at) && at != step.at() {
            let k = choose|k: int|
                0 <= k < coords_walk(longer).len() && coords_walk(longer)[k] == at;
            assert(coords_walk(walk)[k - 1] == at);
        }
    }
}

/// What the last marks say once the search has gone back along the whole
/// walk: the cells of the walk, and no others, are on the path.
proof fn lemma_walk_left_path(steps: Seq<MazeStep>, dist: Seq<Seq<u32>>, walk: Seq<Coords<usize>>)
    requires
        walk_left(steps, dist, walk),
    ensures
        path_marked(steps, coords_walk(walk)),
{
    reveal(walk_left);
    assert forall|at: (int, int)| (#[trigger] last_mark(steps, at) == Some(Cell::Path))
        <==> coords_walk(walk).contains(at) by {}
}

/// Where the search has found no walk, no cell is marked as on the path.
proof fn lemma_visits_no_path(steps: Seq<MazeStep>, dist: Seq<Seq<u32>>)
    requires
        visits_left(steps, dist),
    ensures
        path_marked(steps, Seq::empty()),
{
    reveal(visits_left);
    assert forall|at: (int, int)| (#[trigger] last_mark(steps, at) == Some(Cell::Path))
        <==> Seq::<(int, int)>::empty().contains(at) by {}
}

/// The order of a log: first the visits, of which the first is that of the
/// start, and then the cells of the walk, recorded as on the path from the
/// end of the walk back to its start.
pub open spec fn visits_then_walk(
    steps: Seq<MazeStep>,
    walk: Seq<Coords<usize>>,
    start: Coords<usize>,
) -> bool {
    &&& steps.len() > walk.len()
    &&& steps[0] == (MazeStep { coords: start, cell_type: Cell::Visited })
    &&& forall|k: int|
        0 <= k < steps.len() - walk.len() ==> (#[trigger] steps[k]).cell_type == Cell::Visited
    &&& forall|k: int|
        0 <= k < walk.len() ==> #[trigger] steps[steps.len() - 1 - k] == (MazeStep {
            coords: walk[k],
            cell_type: Cell::Path,
        })
}

/// Every step is at a cell to which a walk leads from `start`.
pub open spec fn within_reach(grid: Seq<Seq<Cell>>, steps: Seq<MazeStep>, start: (int, int)) -> bool {
    forall|n: int| 0 <= n < steps.len() ==> reachable(grid, start, (#[trigger] steps[n]).at())
}

/// Every cell to which a walk leads from `start` was recorded as visited,
/// once, and was not recorded otherwise.
pub open spec fn all_in_reach_visited(
    grid: Seq<Seq<Cell>>,
    steps: Seq<MazeStep>,
    start: (int, int),
) -> bool {
    forall|at: (int, int)|
        reachable(grid, start, at) ==> #[trigger] marks_at(steps, at) == seq![Cell::Visited]
}

/// What the search has recorded, step by step, before it goes back along a
/// walk: visits only, the first of them that of the start, one of each cell
/// whose distance is known and none of any other cell.
#[verifier::opaque]
pub open spec fn visits_given(steps: Seq<MazeStep>, dist: Seq<Seq<u32>>, start: Coords<usize>) -> bool {
    &&& visits_then_walk(steps, Seq::empty(), start)
    &&& forall|at: (int, int)| #[trigger]
        marks_at(steps, at) == (if known(dist, at) {
            seq![Cell::Visited]
        } else {
            Seq::empty()
        })
}

/// What the search has recorded, step by step, once it has gone back along
/// a part of the walk that it found: after the visits, each cell of that
/// part as on the path, once.
#[verifier::opaque]
pub open spec fn walk_given(
    steps: Seq<MazeStep>,
    dist: Seq<Seq<u32>>,
    walk: Seq<Coords<usize>>,
    start: Coords<usize>,
) -> bool {
    &&& visits_then_walk(steps, walk, start)
    &&& coords_walk(walk).no_duplicates()
    &&& forall|at: (int, int)| #[trigger] coords_walk(walk).contains(at) ==> known(dist, at)
    &&& forall|at: (int, int)| #[trigger]
        marks_at(steps, at) == (if coords_walk(walk).contains(at) {
            seq![Cell::Visited, Cell::Path]
        } else if known(dist, at) {
            seq![Cell::Visited]
        } else {
            Seq::empty()
        })
}

/// The visit of the start, at the start of a search.
proof fn lemma_given_start(blank: Seq<Seq<u32>>, height: int, width: int, start: Coords<usize>)
    requires
        shaped(blank, height, width),
        0 <= start.y < height,
        0 <= start.x < width,
        forall|r: int, c: int|
            0 <= r < height && 0 <= c < width ==> (#[trigger] blank[r][c]) == u32::MAX,
    ensures
        visits_given(
            seq![MazeStep { coords: start, cell_type: Cell::Visited }],
            with_at(blank, (start.y as int, start.x as int), 0u32),
            start,
        ),
{
    reveal(visits_given);
    let step = MazeStep { coords: start, cell_type: Cell::Visited };
    let dist = with_at(blank, (start.y as int, start.x as int), 0u32);
    assert(blank[start.y as int].len() == width);
    assert forall|at: (int, int)| #[trigger]
        marks_at(seq![step], at) == (if known(dist, at) {
            seq![Cell::Visited]
        } else {
            Seq::empty()
        }) by {
        assert(seq![step] =~= Seq::<MazeStep>::empty().push(step));
        lemma_marks_at_push(Seq::<MazeStep>::empty(), step, at);
        assert(marks_at(Seq::<MazeStep>::empty(), at) =~= Seq::<Cell>::empty());
        assert(Seq::<Cell>::empty().push(Cell::Visited) =~= seq![Cell::Visited]);
        if at != (start.y as int, start.x as int) {
            if 0 <= at.0 < height && 0 <= at.1 < width {
                assert(blank[at.0].len() == width);
                assert(blank[at.0][at.1] == u32::MAX);
            }
        }
    }
}

/// The visit of a cell that the search has come to.
proof fn lemma_given_reached(
    steps: Seq<MazeStep>,
    search: Search,
    q: (int, int),
    start: Coords<usize>,
)
    requires
        search.valid(),
        visits_given(steps, search.dist, start),
        inside(search.grid, q),
        !known(search.dist, q),
    ensures
        visits_given(
            steps.push(
                MazeStep {
                    coords: Coords { x: q.1 as usize, y: q.0 as usize },
                    cell_type: Cell::Visited,
                },
            ),
            search.reached(q).dist,
            start,
        ),
{
    reveal(visits_given);
    lemma_search_level(search);
    let step = MazeStep {
        coords: Coords { x: q.1 as usize, y: q.0 as usize },
        cell_type: Cell::Visited,
    };
    let after = search.reached(q).dist;
    let longer = steps.push(step);
    assert(search.grid[q.0].len() == search.width);
    assert(search.dist[q.0].len() == search.width);
    assert(step.at() == q);
    assert(longer[0] == steps[0]);
    assert forall|k: int| 0 <= k < longer.len() implies (#[trigger] longer[k]).cell_type
        == Cell::Visited by {
        if k < steps.len() {
            assert(longer[k] == steps[k]);
        }
    }
    assert forall|at: (int, int)| #[trigger]
        marks_at(longer, at) == (if known(after, at) {
            seq![Cell::Visited]
        } else {
            Seq::empty()
        }) by {
        lemma_marks_at_push(steps, step, at);
        if at != q {
            if 0 <= at.0 < search.height {
                assert(search.dist[at.0].len() == search.width);
            }
            assert(known(after, at) == known(search.dist, at));
        } else {
            assert(marks_at(steps, at) =~= Seq::<Cell>::empty());
            assert(Seq::<Cell>::empty().push(Cell::Visited) =~= seq![Cell::Visited]);
        }
    }
}

/// Before the search goes back along the walk, no cell is recorded as on
/// the path.
proof fn lemma_walk_given_nothing(steps: Seq<MazeStep>, dist: Seq<Seq<u32>>, start: Coords<usize>)
    requires
        visits_given(steps, dist, start),
    ensures
        walk_given(steps, dist, Seq::empty(), start),
{
    reveal(visits_given);
    reveal(walk_given);
    assert forall|at: (int, int)| !coords_walk(Seq::<Coords<usize>>::empty()).contains(at) by {}
}

/// One more cell of the walk, recorded as on the path.
proof fn lemma_walk_given_more(
    steps: Seq<MazeStep>,
    dist: Seq<Seq<u32>>,
    walk: Seq<Coords<usize>>,
    cell: Coords<usize>,
    start: Coords<usize>,
)
    requires
        walk_given(steps, dist, walk, start),
        known(dist, (cell.y as int, cell.x as int)),
        !coords_walk(walk).contains((cell.y as int, cell.x as int)),
    ensures
        walk_given(
            steps.push(MazeStep { coords: cell, cell_type: Cell::Path }),
            dist,
            seq![cell] + walk,
            start,
        ),
{
    reveal(walk_given);
    let step = MazeStep { coords: cell, cell_type: Cell::Path };
    let longer = seq![cell] + walk;
    let more = steps.push(step);
    let here = (cell.y as int, cell.x as int);
    assert(coords_walk(longer) =~= seq![here] + coords_walk(walk));
    assert forall|at: (int, int)|
        coords_walk(longer).contains(at) <==> coords_walk(walk).contains(at) || at == here by {
        assert(coords_walk(longer)[0] == here);
        if coords_walk(walk).contains(at) {
            let k = choose|k: int| 0 <= k < coords_walk(walk).len() && coords_walk(walk)[k] == at;
            assert(coords_walk(longer)[k + 1] == at);
        }
        if coords_walk(longer).contains(at) && at != here {
            let k = choose|k: int|
                0 <= k < coords_walk(longer).len() && coords_walk(longer)[k] == at;
            assert(coords_walk(walk)[k - 1] == at);
        }
    }
    assert(coords_walk(longer).no_duplicates()) by {
        assert forall|i: int, j: int|
            0 <= i < coords_walk(longer).len() && 0 <= j < coords_walk(longer).len() && i
                != j implies coords_walk(longer)[i] != coords_walk(longer)[j] by {
            if i > 0 && j > 0 {
                assert(coords_walk(walk)[i - 1] != coords_walk(walk)[j - 1]);
            } else if i > 0 {
                assert(coords_walk(walk).contains(coords_walk(walk)[i - 1]));
            } else {
                assert(coords_walk(walk).contains(coords_walk(walk)[j - 1]));
            }
        }
    }
    assert(visits_then_walk(more, longer, start)) by {
        assert(more[0] == steps[0]);
        assert forall|k: int| 0 <= k < more.len() - longer.len() implies (#[trigger] more[k]).cell_type
            == Cell::Visited by {
            assert(more[k] == steps[k]);
        }
        assert forall|k: int| 0 <= k < longer.len() implies #[trigger] more[more.len() - 1 - k] == (
        MazeStep { coords: longer[k], cell_type: Cell::Path }) by {
            if k > 0 {
                assert(more[more.len() - 1 - k] == steps[steps.len() - 1 - (k - 1)]);
                assert(longer[k] == walk[k - 1]);
            }
        }
    }
    assert forall|at: (int, int)| #[trigger] coords_walk(longer).contains(at) implies known(
        dist,
        at,
    ) by {
        assert(coords_walk(longer).contains(at) <==> coords_walk(walk).contains(at) || at == here);
    }
    assert forall|at: (int, int)| #[trigger]
        marks_at(more, at) == (if coords_walk(longer).contains(at) {
            seq![Cell::Visited, Cell::Path]
        } else if known(dist, at) {
            seq![Cell::Visited]
        } else {
            Seq::empty()
        }) by {
        lemma_marks_at_push(steps, step, at);
        assert(coords_walk(longer).contains(at) <==> coords_walk(walk).contains(at) || at == here);
        assert(step.at() == here);
        if at == here {
            assert(seq![Cell::Visited].push(Cell::Path) =~= seq![Cell::Visited, Cell::Path]);
        }
    }
}

/// What the log says, step by step, once the search is over: `walk` is the
/// walk that it went back along, or empty where it found none.
proof fn lemma_log_given(
    search: Search,
    steps: Seq<MazeStep>,
    walk: Seq<Coords<usize>>,
    start: Coords<usize>,
)
    requires
        search.valid(),
        search.start == (start.y as int, start.x as int),
        walk_given(steps, search.dist, walk, start),
    ensures
        marked_once(steps, coords_walk(walk)),
        visits_then_walk(steps, walk, start),
        off_the_walls(search.grid, steps, search.start),
        within_reach(search.grid, steps, search.start),
        walk.len() == 0 && search.busy is None && search.nodes.len() == 0 ==> all_in_reach_visited(
            search.grid,
            steps,
            search.start,
        ),
{
    reveal(walk_given);
    reveal(pred_ok);
    assert forall|n: int| 0 <= n < steps.len() implies reachable(
        search.grid,
        search.start,
        (#[trigger] steps[n]).at(),
    ) by {
        lemma_step_gives_a_mark(steps, n);
        let at = steps[n].at();
        assert(marks_at(steps, at).len() > 0);
        assert(known(search.dist, at));
        lemma_known_is_reachable(search, at);
    }
    if walk.len() == 0 && search.busy is None && search.nodes.len() == 0 {
        assert forall|at: (int, int)| reachable(search.grid, search.start, at) implies #[trigger] marks_at(
            steps,
            at,
        ) == seq![Cell::Visited] by {
            lemma_reachable_is_known(search, at);
            assert(!coords_walk(walk).contains(at));
        }
    }
    assert forall|n: int| 0 <= n < steps.len() implies passable(
        search.grid,
        (#[trigger] steps[n]).at(),
    ) || steps[n].at() == search.start by {
        lemma_step_gives_a_mark(steps, n);
        let at = steps[n].at();
        assert(marks_at(steps, at).len() > 0);
        assert(known(search.dist, at));
    }
}

/// A path from its end to its start holds the cells that it holds from its
/// start to its end.
proof fn lemma_backwards_holds(walk: Seq<Coords<usize>>, at: (int, int))
    ensures
        positions(backwards(walk)).contains(at) <==> coords_walk(walk).contains(at),
{
    let back = positions(backwards(walk));
    let forth = coords_walk(walk);
    if back.contains(at) {
        let k = choose|k: int| 0 <= k < back.len() && back[k] == at;
        assert(forth[walk.len() - 1 - k] == at);
    }
    if forth.contains(at) {
        let k = choose|k: int| 0 <= k < forth.len() && forth[k] == at;
        assert(back[walk.len() - 1 - k] == at);
    }
}

/// A shortest walk from `start` to `end`, and its length in steps, where
/// there is a walk; none where there is none.
///
/// The walk is added to `maze_path` from its end to its start. The search
/// records each cell that it comes to as visited, and at last each cell of
/// the walk, from its end to its start, as on the path. The start must lie
/// in the maze; the distances are kept in `u32`, so the maze must have
/// fewer cells than that holds.
pub fn dijkstra(
    maze: &Maze,
    start: Coords<usize>,
    end: Coords<usize>,
    maze_path: &mut Vec<(usize, usize)>,
    steps: &mut VecDeque<MazeStep>,
) -> (result: (Option<Vec<Coords<usize>>>, Option<u32>))
    requires
        maze.wf(),
        maze.holds(start.x as int, start.y as int),
        maze.width * maze.height < u32::MAX,
    ensures
        logged(maze.grid(), old(steps)@, final(steps)@),
        match result {
            (Some(path), Some(dist)) => {
                &&& connects(
                    maze.grid(),
                    coords_walk(path@),
                    (start.y as int, start.x as int),
                    (end.y as int, end.x as int),
                )
                &&& path@.len() == dist + 1
                &&& no_shorter_walk(
                    maze.grid(),
                    (start.y as int, start.x as int),
                    (end.y as int, end.x as int),
                    dist as int,
                )
                &&& final(maze_path)@ == old(maze_path)@ + backwards(path@)
                &&& path_marked(recorded(old(steps)@, final(steps)@), coords_walk(path@))
                &&& ends_with_path_mark(recorded(old(steps)@, final(steps)@), start)
                &&& marked_once(recorded(old(steps)@, final(steps)@), coords_walk(path@))
                &&& visits_then_walk(recorded(old(steps)@, final(steps)@), path@, start)
            },
            (None, None) => {
                &&& !reachable(
                    maze.grid(),
                    (start.y as int, start.x as int),
                    (end.y as int, end.x as int),
                )
                &&& final(maze_path)@ == old(maze_path)@
                &&& path_marked(recorded(old(steps)@, final(steps)@), Seq::empty())
                &&& marked_once(recorded(old(steps)@, final(steps)@), Seq::empty())
                &&& visits_then_walk(recorded(old(steps)@, final(steps)@), Seq::empty(), start)
                &&& all_in_reach_visited(
                    maze.grid(),
                    recorded(old(steps)@, final(steps)@),
                    (start.y as int, start.x as int),
                )
            },
            _ => false,
        },
        off_the_walls(
            maze.grid(),
            recorded(old(steps)@, final(steps)@),
            (start.y as int, start.x as int),
        ),
        within_reach(
            maze.grid(),
            recorded(old(steps)@, final(steps)@),
            (start.y as int, start.x as int),
        ),
{
    let mut distance: Vec<Vec<u32>> = Vec::new();
    let mut path: Vec<Vec<Coords<usize>>> = Vec::new();
    let mut row: usize = 0;
    while row < maze.height
        invariant
            row <= maze.height,
            distance@.len() == row,
            path@.len() == row,
            forall|r: int|
                0 <= r < row ==> (#[trigger] distance@[r])@ == Seq::new(
                    maze.width as nat,
                    |c: int| u32::MAX,
                ),
            forall|r: int| 0 <= r < row ==> (#[trigger] path@[r])@.len() == maze.width,
        decreases maze.height - row,
    {
        let mut distances_of_row: Vec<u32> = Vec::new();
        let mut coords_of_row: Vec<Coords<usize>> = Vec::new();
        let mut col: usize = 0;
        while col < maze.width
            invariant
                col <= maze.width,
                distances_of_row@ == Seq::new(col as nat, |c: int| u32::MAX),
                coords_of_row@.len() == col,
            decreases maze.width - col,
        {
            distances_of_row.push(u32::MAX);
            coords_of_row.push(Coords::from(0, 0));
            col += 1;
            assert(distances_of_row@ =~= Seq::new(col as nat, |c: int| u32::MAX));
        }
        distance.push(distances_of_row);
        path.push(coords_of_row);
        row += 1;
    }

    let mut min_heap = MinQueue::new();
    let ghost blank = rows(distance@);
    let ghost grid = maze.grid();
    proof {
        assert(maze.width * maze.height == maze.height * maze.width) by (nonlinear_arith);
        assert(shaped(blank, maze.height as int, maze.width as int)) by {
            assert forall|r: int| 0 <= r < maze.height implies (#[trigger] blank[r]).len()
                == maze.width by {
                assert(blank[r] == distance@[r]@);
            }
        }
        assert(shaped(rows(path@), maze.height as int, maze.width as int)) by {
            assert forall|r: int| 0 <= r < maze.height implies (#[trigger] rows(path@)[r]).len()
                == maze.width by {
                assert(rows(path@)[r] == path@[r]@);
            }
        }
        assert forall|r: int, c: int|
            0 <= r < maze.height && 0 <= c < maze.width implies (#[trigger] blank[r][c])
            == u32::MAX by {
            assert(blank[r] == distance@[r]@);
        }
        assert(blank[start.y as int] == distance@[start.y as int]@);
        assert(grid[start.y as int].len() == maze.width);
        lemma_logged_nothing(grid, steps@);
        lemma_logged_push(
            grid,
            old(steps)@,
            steps@,
            MazeStep { coords: start, cell_type: Cell::Visited },
        );
    }
    distance[start.y][start.x] = 0;
    min_heap.push(DijkstraNode { coords: start, distance: 0 });
    steps.push_front(MazeStep { coords: start, cell_type: Cell::Visited });
    let ghost mut search = lemma_search_starts(
        grid,
        maze.height as int,
        maze.width as int,
        blank,
        rows(path@),
        start,
        (end.y as int, end.x as int),
    );
    proof {
        assert(rows(distance@) =~= with_at(blank, (start.y as int, start.x as int), 0u32));
        assert(min_heap.nodes@ =~= seq![DijkstraNode { coords: start, distance: 0 }]);
        lemma_recorded_nothing(old(steps)@);
        assert(recorded(old(steps)@, steps@) =~= seq![
            MazeStep { coords: start, cell_type: Cell::Visited },
        ]);
        lemma_visits_start(blank, maze.height as int, maze.width as int, start);
        lemma_given_start(blank, maze.height as int, maze.width as int, start);
    }

    loop
        invariant
            maze.wf(),
            grid == maze.grid(),
            maze.holds(start.x as int, start.y as int),
            search.valid(),
            search.busy is None,
            tracks(search, maze, distance@, path@, min_heap, start, end),
            logged(grid, old(steps)@, steps@),
            visits_left(recorded(old(steps)@, steps@), search.dist),
            visits_given(recorded(old(steps)@, steps@), search.dist, start),
            maze_path@ == old(maze_path)@,
        decreases unmarked(known_cells(search.dist)), min_heap.nodes@.len(),
    {
        let ghost before = search;
        let taken = min_heap.pop();
        if taken.is_none() {
            proof {
                lemma_search_exhausted(search);
                lemma_visits_no_path(recorded(old(steps)@, steps@), search.dist);
                lemma_walk_given_nothing(recorded(old(steps)@, steps@), search.dist, start);
                lemma_log_given(search, recorded(old(steps)@, steps@), Seq::empty(), start);
                assert(coords_walk(Seq::<Coords<usize>>::empty()) =~= Seq::<(int, int)>::empty());
            }
            return (None, None);
        }
        let node = taken.unwrap();
        let coords = node.coords;
        let dist = node.distance;
        proof {
            lemma_search_takes(search);
        }
        if coords.x == end.x && coords.y == end.y {
            proof {
                lemma_search_found(search);
            }
            let path_vec = trace_back(
                maze,
                &distance,
                &path,
                start,
                end,
                maze_path,
                steps,
                Ghost(search),
                Ghost(old(steps)@),
            );
            return (Some(path_vec), Some(dist));
        }
        proof {
            search = search.taken();
        }
        let ghost popped = search;

        let mut direction: usize = 0;
        while direction < 4
            invariant
                maze.wf(),
                grid == maze.grid(),
                direction <= 4,
                search.valid(),
                search.busy == Some((coords.y as int, coords.x as int)),
                search.level == dist,
                tracks(search, maze, distance@, path@, min_heap, start, end),
                logged(grid, old(steps)@, steps@),
                visits_left(recorded(old(steps)@, steps@), search.dist),
                visits_given(recorded(old(steps)@, steps@), search.dist, start),
                maze_path@ == old(maze_path)@,
                unmarked(known_cells(search.dist)) < unmarked(known_cells(popped.dist)) || (
                search.dist == popped.dist && search.nodes == popped.nodes),
                forall|k: int|
                    0 <= k < direction ==> #[trigger] looked(search, coords.y, coords.x, k),
            decreases 4 - direction,
        {
            let ghost earlier = search;
            let next = look_from(
                maze,
                &mut distance,
                &mut path,
                &mut min_heap,
                steps,
                start,
                end,
                coords,
                dist,
                direction,
                Ghost(search),
                Ghost(old(steps)@),
            );
            proof {
                search = next@;
                assert forall|k: int| 0 <= k < direction + 1 implies #[trigger] looked(
                    search,
                    coords.y,
                    coords.x,
                    k,
                ) by {
                    if k < direction {
                        assert(looked(earlier, coords.y, coords.x, k));
                    }
                }
            }
            direction += 1;
        }
        proof {
            let u = (coords.y as int, coords.x as int);
            lemma_search_level(search);
            assert forall|q: (int, int)| #[trigger] adjacent(u, q) implies search.looked_at(q) by {
                if passable(search.grid, q) {
                    assert(search.grid[q.0].len() == search.width);
                    let k: int = if q.0 == u.0 + 1 {
                        0
                    } else if q.0 + 1 == u.0 {
                        1
                    } else if q.1 == u.1 + 1 {
                        2
                    } else {
                        3
                    };
                    assert(looked(search, coords.y, coords.x, k));
                    assert(stepped(coords.y, coords.x, d_row(k), d_col(k)) == Some(
                        (q.0 as usize, q.1 as usize),
                    ));
                }
            }
            lemma_search_finishes(search);
            search = search.finished();
            assert(before.nodes.remove(MinQueue::least_index(before.nodes)).len()
                == before.nodes.len() - 1);
        }
    }
}

/// One look from the cell that was taken from the queue in the direction of
/// the number: where the neighbour there lies in the maze, is no wall and
/// is not known yet, its distance is noted, it is recorded as visited, and
/// it waits.
fn look_from(
    maze: &Maze,
    distance: &mut Vec<Vec<u32>>,
    path: &mut Vec<Vec<Coords<usize>>>,
    min_heap: &mut MinQueue,
    steps: &mut VecDeque<MazeStep>,
    start: Coords<usize>,
    end: Coords<usize>,
    coords: Coords<usize>,
    dist: u32,
    direction: usize,
    Ghost(search): Ghost<Search>,
    Ghost(log): Ghost<Seq<MazeStep>>,
) -> (after: Ghost<Search>)
    requires
        maze.wf(),
        direction < 4,
        search.valid(),
        search.busy == Some((coords.y as int, coords.x as int)),
        search.level == dist,
        tracks(search, maze, old(distance)@, old(path)@, *old(min_heap), start, end),
        logged(maze.grid(), log, old(steps)@),
        visits_left(recorded(log, old(steps)@), search.dist),
        visits_given(recorded(log, old(steps)@), search.dist, start),
    ensures
        after@.valid(),
        after@.busy == search.busy,
        after@.level == search.level,
        tracks(after@, maze, final(distance)@, final(path)@, *final(min_heap), start, end),
        logged(maze.grid(), log, final(steps)@),
        visits_left(recorded(log, final(steps)@), after@.dist),
        visits_given(recorded(log, final(steps)@), after@.dist, start),
        looked(after@, coords.y, coords.x, direction as int),
        forall|other: (int, int)| search.looked_at(other) ==> after@.looked_at(other),
        unmarked(known_cells(after@.dist)) < unmarked(known_cells(search.dist)) || (after@.dist
            == search.dist && after@.nodes == search.nodes),
{
    let (dy, dx): (i8, i8) = if direction == 0 {
        (1, 0)
    } else if direction == 1 {
        (-1, 0)
    } else if direction == 2 {
        (0, 1)
    } else {
        (0, -1)
    };
    let ghost grid = maze.grid();
    proof {
        lemma_search_level(search);
        assert forall|r: int| 0 <= r < maze.height implies (#[trigger] distance@[r])@.len()
            == maze.width && (#[trigger] path@[r])@.len() == maze.width && (
        #[trigger] maze.cells@[r])@.len() == maze.width by {
            assert(rows(distance@)[r].len() == maze.width);
            assert(rows(path@)[r].len() == maze.width);
            assert(grid[r].len() == maze.width);
        }
    }
    if let Some((ny, nx)) = step_from(coords.y, coords.x, dy, dx) {
        let ghost q = (ny as int, nx as int);
        if nx < maze.width && ny < maze.height {
            let new_dist = dist + maze.get_weight();  // Adjust weight function accordingly
            proof {
                assert(rows(distance@)[ny as int] == distance@[ny as int]@);
                assert(grid[ny as int] == maze.cells@[ny as int]@);
            }
            if new_dist < distance[ny][nx] && maze.cells[ny][nx] != Cell::Wall {
                let new_coords = Coords::from(nx, ny);
                proof {
                    if known(search.dist, q) {
                        assert(far(search.dist, q) <= search.level + 1);
                    }
                    lemma_search_reaches(search, q);
                    lemma_logged_push(
                        grid,
                        log,
                        steps@,
                        MazeStep { coords: new_coords, cell_type: Cell::Visited },
                    );
                    lemma_visits_reached(recorded(log, steps@), search, q);
                    lemma_given_reached(recorded(log, steps@), search, q, start);
                }
                distance[ny][nx] = new_dist;
                path[ny][nx] = coords;
                steps.push_front(MazeStep { coords: new_coords, cell_type: Cell::Visited });
                min_heap.push(DijkstraNode { coords: new_coords, distance: new_dist });
                proof {
                    let after = search.reached(q);
                    assert(rows(distance@) =~= after.dist);
                    assert(rows(path@) =~= after.pred);
                    assert(min_heap.nodes@ =~= after.nodes);
                }
                return Ghost(search.reached(q));
            }
            proof {
                if passable(grid, q) {
                    assert(known(search.dist, q));
                }
                lemma_search_skips(search, q);
            }
        } else {
            proof {
                lemma_search_skips(search, q);
            }
        }
    }
    Ghost(search)
}

/// The walk from the start to the end, which the search has reached, along
/// the cells from which the search came.
fn trace_back(
    maze: &Maze,
    distance: &Vec<Vec<u32>>,
    path: &Vec<Vec<Coords<usize>>>,
    start: Coords<usize>,
    end: Coords<usize>,
    maze_path: &mut Vec<(usize, usize)>,
    steps: &mut VecDeque<MazeStep>,
    Ghost(search): Ghost<Search>,
    Ghost(log): Ghost<Seq<MazeStep>>,
) -> (path_vec: Vec<Coords<usize>>)
    requires
        maze.wf(),
        search.valid(),
        search.grid == maze.grid(),
        search.height == maze.height,
        search.width == maze.width,
        search.dist == rows(distance@),
        search.pred == rows(path@),
        search.start == (start.y as int, start.x as int),
        search.end == (end.y as int, end.x as int),
        known(search.dist, search.end),
        logged(maze.grid(), log, old(steps)@),
        visits_left(recorded(log, old(steps)@), search.dist),
        visits_given(recorded(log, old(steps)@), search.dist, start),
    ensures
        marked_once(recorded(log, final(steps)@), coords_walk(path_vec@)),
        visits_then_walk(recorded(log, final(steps)@), path_vec@, start),
        off_the_walls(maze.grid(), recorded(log, final(steps)@), search.start),
        within_reach(maze.grid(), recorded(log, final(steps)@), search.start),
        connects(maze.grid(), coords_walk(path_vec@), search.start, search.end),
        path_vec@.len() == far(search.dist, search.end) + 1,
        final(maze_path)@ == old(maze_path)@ + backwards(path_vec@),
        logged(maze.grid(), log, final(steps)@),
        path_marked(recorded(log, final(steps)@), coords_walk(path_vec@)),
        ends_with_path_mark(recorded(log, final(steps)@), start),
{
    let ghost grid = maze.grid();
    let mut current = end;
    let mut path_coords: VecDeque<Coords<usize>> = VecDeque::new();
    proof {
        lemma_search_level(search);
        assert(maze_path@ =~= old(maze_path)@ + backwards(path_coords@));
        lemma_walk_left_nothing(recorded(log, steps@), search.dist);
        lemma_walk_given_nothing(recorded(log, steps@), search.dist, start);
    }
    while !(current.x == start.x && current.y == start.y)
        invariant
            maze.wf(),
            grid == maze.grid(),
            search.valid(),
            search.grid == grid,
            search.height == maze.height,
            search.width == maze.width,
            search.dist == rows(distance@),
            search.pred == rows(path@),
            search.start == (start.y as int, start.x as int),
            search.end == (end.y as int, end.x as int),
            known(search.dist, (current.y as int, current.x as int)),
            far(search.dist, (current.y as int, current.x as int)) + path_coords@.len() == far(
                search.dist,
                search.end,
            ),
            path_coords@.len() == 0 ==> current == end,
            path_coords@.len() > 0 ==> {
                &&& adjacent((current.y as int, current.x as int), coords_walk(path_coords@)[0])
                &&& coords_walk(path_coords@).last() == search.end
            },
            forall|k: int|
                0 <= k < path_coords@.len() ==> passable(
                    grid,
                    #[trigger] coords_walk(path_coords@)[k],
                ),
            forall|k: int|
                1 <= k < path_coords@.len() ==> adjacent(
                    coords_walk(path_coords@)[k - 1],
                    #[trigger] coords_walk(path_coords@)[k],
                ),
            maze_path@ == old(maze_path)@ + backwards(path_coords@),
            logged(grid, log, steps@),
            walk_left(recorded(log, steps@), search.dist, path_coords@),
            walk_given(recorded(log, steps@), search.dist, path_coords@, start),
            forall|k: int|
                0 <= k < path_coords@.len() ==> far(
                    search.dist,
                    #[trigger] coords_walk(path_coords@)[k],
                ) > far(search.dist, (current.y as int, current.x as int)),
        decreases far(search.dist, (current.y as int, current.x as int)),
    {
        let ghost here = (current.y as int, current.x as int);
        let ghost walk_before = coords_walk(path_coords@);
        let ghost coords_before = path_coords@;
        proof {
            lemma_search_level(search);
            reveal(pred_ok);
            assert(known(search.dist, here) && here != search.start);
            assert(known(search.dist, came_from(search.pred, here)));
            assert(grid[here.0].len() == maze.width);
            assert(rows(path@)[here.0] == path@[here.0]@);
            assert(rows(path@)[here.0].len() == maze.width);
            lemma_logged_push(grid, log, steps@, MazeStep { coords: current, cell_type: Cell::Path });
            lemma_walk_left_more(recorded(log, steps@), search.dist, path_coords@, current);
            assert(!walk_before.contains(here)) by {
                if walk_before.contains(here) {
                    let k = choose|k: int| 0 <= k < walk_before.len() && walk_before[k] == here;
                    assert(far(search.dist, walk_before[k]) > far(search.dist, here));
                }
            }
            lemma_walk_given_more(recorded(log, steps@), search.dist, path_coords@, current, start);
        }
        path_coords.push_front(current);
        steps.push_front(MazeStep { coords: current, cell_type: Cell::Path });
        maze_path.push((current.y, current.x));
        current = path[current.y][current.x];
        proof {
            let walk = coords_walk(path_coords@);
            assert(walk =~= seq![here] + walk_before);
            assert(backwards(path_coords@) =~= backwards(coords_before).push(
                (here.0 as usize, here.1 as usize),
            ));
            assert((current.y as int, current.x as int) == came_from(search.pred, here));
            assert forall|k: int| 0 <= k < path_coords@.len() implies far(
                search.dist,
                #[trigger] walk[k],
            ) > far(search.dist, (current.y as int, current.x as int)) by {
                if k > 0 {
                    assert(walk[k] == walk_before[k - 1]);
                }
            }
            assert forall|k: int| 0 <= k < path_coords@.len() implies passable(
                grid,
                #[trigger] walk[k],
            ) by {
                if k > 0 {
                    assert(walk[k] == walk_before[k - 1]);
                }
            }
            assert forall|k: int| 1 <= k < path_coords@.len() implies adjacent(
                walk[k - 1],
                #[trigger] walk[k],
            ) by {
                if k > 1 {
                    assert(walk[k] == walk_before[k - 1]);
                    assert(walk[k - 1] == walk_before[k - 2]);
                }
            }
        }
    }
    let ghost coords_before = path_coords@;
    let ghost walk_before = coords_walk(path_coords@);
    proof {
        lemma_search_level(search);
        reveal(bounds_ok);
        lemma_logged_push(grid, log, steps@, MazeStep { coords: start, cell_type: Cell::Path });
        lemma_walk_left_more(recorded(log, steps@), search.dist, path_coords@, start);
        assert(!walk_before.contains(search.start)) by {
            if walk_before.contains(search.start) {
                let k = choose|k: int| 0 <= k < walk_before.len() && walk_before[k] == search.start;
                assert(far(search.dist, walk_before[k]) > far(search.dist, search.start));
            }
        }
        lemma_walk_given_more(recorded(log, steps@), search.dist, path_coords@, start, start);
    }
    path_coords.push_front(start);
    steps.push_front(MazeStep { coords: start, cell_type: Cell::Path });
    maze_path.push((start.y, start.x));
    proof {
        let walk = coords_walk(path_coords@);
        assert(walk =~= seq![search.start] + walk_before);
        assert(backwards(path_coords@) =~= backwards(coords_before).push((start.y, start.x)));
        assert forall|k: int| 1 <= k < walk.len() implies adjacent(walk[k - 1], #[trigger] walk[k])
            && passable(grid, walk[k]) by {
            assert(walk[k] == walk_before[k - 1]);
            if k > 1 {
                assert(walk[k - 1] == walk_before[k - 2]);
            }
        }
    }
    let mut path_vec: Vec<Coords<usize>> = Vec::new();
    let mut k: usize = 0;
    while k < path_coords.len()
        invariant
            k <= path_coords@.len(),
            path_vec@ == path_coords@.take(k as int),
        decreases path_coords@.len() - k,
    {
        path_vec.push(path_coords[k]);
        k += 1;
        assert(path_vec@ =~= path_coords@.take(k as int));
    }
    assert(path_vec@ =~= path_coords@);
    proof {
        lemma_walk_left_path(recorded(log, steps@), search.dist, path_vec@);
        lemma_log_given(search, recorded(log, steps@), path_vec@, start);
    }
    path_vec
}

/// What a log says of a walk, it says of the path that holds the walk from
/// its end to its start.
proof fn lemma_log_of_backwards(steps: Seq<MazeStep>, walk: Seq<Coords<usize>>, start: Coords<usize>)
    requires
        marked_once(steps, coords_walk(walk)),
        visits_then_walk(steps, walk, start),
    ensures
        marked_once(steps, positions(backwards(walk))),
        visits_then_path(steps, positions(backwards(walk))),
{
    let back = positions(backwards(walk));
    let forth = coords_walk(walk);
    assert forall|i: int, j: int| 0 <= i < back.len() && 0 <= j < back.len() && i != j implies back[i]
        != back[j] by {
        assert(back[i] == forth[walk.len() - 1 - i]);
        assert(back[j] == forth[walk.len() - 1 - j]);
    }
    assert forall|at: (int, int)| #[trigger]
        marks_at(steps, at) == (if back.contains(at) {
            seq![Cell::Visited, Cell::Path]
        } else if marks_at(steps, at).len() > 0 {
            seq![Cell::Visited]
        } else {
            Seq::empty()
        }) by {
        lemma_backwards_holds(walk, at);
    }
    assert forall|k: int| 0 <= k < back.len() implies (#[trigger] steps[steps.len() - back.len()
        + k]).cell_type == Cell::Path && steps[steps.len() - back.len() + k].at() == back[k] by {
        let m = walk.len() - 1 - k;
        assert(steps[steps.len() - 1 - m] == (MazeStep { coords: walk[m], cell_type: Cell::Path }));
    }
}

/// A shortest walk from `start` to `end`, from its end to its start, and
/// the log of the search for it.
pub fn solve_maze_by_dijkstra(
    maze: &Maze,
    start: Coords<usize>,
    end: Coords<usize>,
) -> (result: MazeSolverReturnType)
    requires
        maze.wf(),
        maze.holds(start.x as int, start.y as int),
        maze.width * maze.height < u32::MAX,
    ensures
        logged(maze.grid(), Seq::empty(), result.1@),
        path_marked(crate::steps::chronological(result.1@), positions(result.0@)),
        marked_once(crate::steps::chronological(result.1@), positions(result.0@)),
        visits_then_path(crate::steps::chronological(result.1@), positions(result.0@)),
        result.1@.len() > 0,
        crate::steps::chronological(result.1@)[0] == (MazeStep {
            coords: start,
            cell_type: Cell::Visited,
        }),
        off_the_walls(
            maze.grid(),
            crate::steps::chronological(result.1@),
            (start.y as int, start.x as int),
        ),
        within_reach(
            maze.grid(),
            crate::steps::chronological(result.1@),
            (start.y as int, start.x as int),
        ),
        !reachable(maze.grid(), (start.y as int, start.x as int), (end.y as int, end.x as int))
            ==> all_in_reach_visited(
            maze.grid(),
            crate::steps::chronological(result.1@),
            (start.y as int, start.x as int),
        ),
        reachable(maze.grid(), (start.y as int, start.x as int), (end.y as int, end.x as int))
            ==> ends_with_path_mark(crate::steps::chronological(result.1@), start),
        reachable(maze.grid(), (start.y as int, start.x as int), (end.y as int, end.x as int))
            <==> result.0@.len() > 0,
        result.0@.len() > 0 ==> {
            &&& connects(
                maze.grid(),
                crate::maze_solver_algorithms::positions(result.0@).reverse(),
                (start.y as int, start.x as int),
                (end.y as int, end.x as int),
            )
            &&& no_shorter_walk(
                maze.grid(),
                (start.y as int, start.x as int),
                (end.y as int, end.x as int),
                result.0@.len() - 1,
            )
        },
{
    let mut path: Vec<(usize, usize)> = Vec::new();
    let mut steps: VecDeque<MazeStep> = VecDeque::new();
    let found = dijkstra(maze, start, end, &mut path, &mut steps);
    proof {
        crate::steps::lemma_recorded_from_empty(steps@);
        match found {
            (Some(walk), Some(dist)) => {
                assert forall|at: (int, int)| (#[trigger] last_mark(
                    crate::steps::chronological(steps@),
                    at,
                ) == Some(Cell::Path)) <==> positions(backwards(walk@)).contains(at) by {
                    lemma_backwards_holds(walk@, at);
                }
                assert(path@ =~= backwards(walk@));
                assert(crate::maze_solver_algorithms::positions(path@).reverse() =~= coords_walk(
                    walk@,
                ));
                lemma_log_of_backwards(crate::steps::chronological(steps@), walk@, start);
            },
            _ => {
                assert forall|at: (int, int)| (#[trigger] last_mark(
                    crate::steps::chronological(steps@),
                    at,
                ) == Some(Cell::Path)) <==> positions(path@).contains(at) by {
                    assert(!Seq::<(int, int)>::empty().contains(at));
                    assert(!positions(path@).contains(at));
                }
                assert(positions(path@) =~= Seq::<(int, int)>::empty());
            },
        }
    }
    (path, steps)
}

} // verus!
