//! The mazer: one run of a maze solver over a maze, and its playback.

use crate::config::MazeConfigValues;
use crate::coords::Coords;
use crate::grid::connects;
use crate::grid::inside;
use crate::grid::no_shorter_walk;
use crate::grid::reachable;
use crate::grid::rows;
use crate::maze_solver_algorithms::dfs::solve_maze_by_dfs;
use crate::maze_solver_algorithms::dfs::walk_of;
use crate::maze_solver_algorithms::dijkstra::solve_maze_by_dijkstra;
use crate::maze_solver_algorithms::positions;
use crate::services::maze_generator::Cell;
use crate::services::maze_generator::Maze;
use crate::services::playable::Cursor;
use crate::services::playable::Playable;
use crate::services::playable::StepTime;
use crate::steps::chronological;
use crate::text::decimal_string;
use vstd::string::StringExecFns;
use crate::steps::extends;
use crate::steps::lemma_recorded_chain;
use crate::steps::lemma_recorded_nothing;
use crate::steps::lemma_recorded_push_front;
use crate::steps::recorded;
use std::collections::VecDeque;
use vstd::prelude::*;

verus! {

/// What a solver returns: the path that it found, as pairs of a row and a
/// column, and the log of its search.
pub type MazeSolverReturnType = (Vec<(usize, usize)>, VecDeque<MazeStep>);

/// One atomic change to the display of a maze: the cell at the position is
/// marked.
#[derive(PartialEq, Copy, Clone, Debug)]
pub struct MazeStep {
    pub coords: Coords<usize>,
    pub cell_type: Cell,
}

impl MazeStep {
    /// The position of the step as row and column.
    pub open spec fn at(self) -> (int, int) {
        (self.coords.y as int, self.coords.x as int)
    }

    /// The grid after the step. The entry and the exit keep what they are,
    /// and a step that lies outside the grid changes nothing.
    pub open spec fn apply(self, grid: Seq<Seq<Cell>>) -> Seq<Seq<Cell>> {
        let (r, c) = self.at();
        if inside(grid, (r, c)) && grid[r][c] != Cell::Entry && grid[r][c] != Cell::Exit {
            grid.update(r, grid[r].update(c, self.cell_type))
        } else {
            grid
        }
    }
}

/// The grid after the steps, applied in the order of the sequence.
pub open spec fn replay_marks(grid: Seq<Seq<Cell>>, steps: Seq<MazeStep>) -> Seq<Seq<Cell>>
    decreases steps.len(),
{
    if steps.len() == 0 {
        grid
    } else {
        steps.last().apply(replay_marks(grid, steps.drop_last()))
    }
}

/// Every step lies on the grid.
pub open spec fn all_inside(grid: Seq<Seq<Cell>>, steps: Seq<MazeStep>) -> bool {
    forall|k: int| 0 <= k < steps.len() ==> inside(grid, (#[trigger] steps[k]).at())
}

/// Every step marks its cell as visited or as on the path.
pub open spec fn all_marks(steps: Seq<MazeStep>) -> bool {
    forall|k: int|
        0 <= k < steps.len() ==> (#[trigger] steps[k]).cell_type == Cell::Visited
            || steps[k].cell_type == Cell::Path
}

/// The log was only added to since `before`, and what was added marks cells
/// of the grid as visited or as on the path.
#[verifier::opaque]
pub open spec fn logged(grid: Seq<Seq<Cell>>, before: Seq<MazeStep>, after: Seq<MazeStep>) -> bool {
    &&& extends(before, after)
    &&& all_inside(grid, recorded(before, after))
    &&& all_marks(recorded(before, after))
}

/// Nothing was added to a log since it was as it is.
pub proof fn lemma_logged_nothing(grid: Seq<Seq<Cell>>, log: Seq<MazeStep>)
    ensures
        logged(grid, log, log),
{
    reveal(logged);
    lemma_recorded_nothing(log);
}

/// A mark of a cell of the grid, pushed at the front of the log.
pub proof fn lemma_logged_push(
    grid: Seq<Seq<Cell>>,
    before: Seq<MazeStep>,
    now: Seq<MazeStep>,
    step: MazeStep,
)
    requires
        logged(grid, before, now),
        inside(grid, step.at()),
        step.cell_type == Cell::Visited || step.cell_type == Cell::Path,
    ensures
        logged(grid, before, seq![step] + now),
        recorded(before, seq![step] + now) == recorded(before, now).push(step),
{
    reveal(logged);
    lemma_recorded_push_front(before, now, step);
}

/// What was added in two stages was added.
pub proof fn lemma_logged_chain(
    grid: Seq<Seq<Cell>>,
    first: Seq<MazeStep>,
    second: Seq<MazeStep>,
    third: Seq<MazeStep>,
)
    requires
        logged(grid, first, second),
        logged(grid, second, third),
    ensures
        logged(grid, first, third),
        recorded(first, third) == recorded(first, second) + recorded(second, third),
{
    reveal(logged);
    lemma_recorded_chain(first, second, third);
}

/// Replaying one more step applies it to what the steps before it gave.
pub proof fn lemma_replay_marks_push(grid: Seq<Seq<Cell>>, steps: Seq<MazeStep>, step: MazeStep)
    ensures
        replay_marks(grid, steps.push(step)) == step.apply(replay_marks(grid, steps)),
{
    assert(steps.push(step).drop_last() =~= steps);
}

/// Replaying a prefix of a log and then the rest of it gives what replaying
/// the whole log gives.
pub proof fn lemma_replay_marks_concat(
    grid: Seq<Seq<Cell>>,
    prefix: Seq<MazeStep>,
    suffix: Seq<MazeStep>,
)
    ensures
        replay_marks(grid, prefix + suffix) == replay_marks(replay_marks(grid, prefix), suffix),
    decreases suffix.len(),
{
    if suffix.len() == 0 {
        assert(prefix + suffix =~= prefix);
    } else {
        lemma_replay_marks_concat(grid, prefix, suffix.drop_last());
        assert((prefix + suffix).drop_last() =~= prefix + suffix.drop_last());
    }
}

/// Replay leaves the entry and the exit where they are, adds none, and
/// keeps the shape of the grid.
pub proof fn lemma_replay_marks_keeps(grid: Seq<Seq<Cell>>, steps: Seq<MazeStep>)
    requires
        all_marks(steps),
    ensures
        replay_marks(grid, steps).len() == grid.len(),
        forall|r: int|
            0 <= r < grid.len() ==> (#[trigger] replay_marks(grid, steps)[r]).len()
                == grid[r].len(),
        forall|r: int, c: int|
            0 <= r < grid.len() && 0 <= c < grid[r].len() ==> ((#[trigger] replay_marks(
                grid,
                steps,
            )[r][c] == Cell::Entry) <==> grid[r][c] == Cell::Entry),
        forall|r: int, c: int|
            0 <= r < grid.len() && 0 <= c < grid[r].len() ==> ((#[trigger] replay_marks(
                grid,
                steps,
            )[r][c] == Cell::Exit) <==> grid[r][c] == Cell::Exit),
    decreases steps.len(),
{
    if steps.len() > 0 {
        let rest = steps.drop_last();
        assert(all_marks(rest)) by {
            assert forall|k: int| 0 <= k < rest.len() implies (#[trigger] rest[k]).cell_type
                == Cell::Visited || rest[k].cell_type == Cell::Path by {
                assert(steps[k].cell_type == Cell::Visited || steps[k].cell_type == Cell::Path);
            }
        }
        lemma_replay_marks_keeps(grid, rest);
        let before = replay_marks(grid, rest);
        let last = steps.last();
        assert(last.cell_type == Cell::Visited || last.cell_type == Cell::Path);
        assert forall|r: int| 0 <= r < grid.len() implies (#[trigger] replay_marks(
            grid,
            steps,
        )[r]).len() == grid[r].len() by {
            assert(before[r].len() == grid[r].len());
        }
        assert forall|r: int, c: int| 0 <= r < grid.len() && 0 <= c < grid[r].len() implies ((
        #[trigger] replay_marks(grid, steps)[r][c] == Cell::Entry) <==> grid[r][c]
            == Cell::Entry) by {
            assert(before[r].len() == grid[r].len());
            assert((before[r][c] == Cell::Entry) <==> grid[r][c] == Cell::Entry);
        }
        assert forall|r: int, c: int| 0 <= r < grid.len() && 0 <= c < grid[r].len() implies ((
        #[trigger] replay_marks(grid, steps)[r][c] == Cell::Exit) <==> grid[r][c]
            == Cell::Exit) by {
            assert(before[r].len() == grid[r].len());
            assert((before[r][c] == Cell::Exit) <==> grid[r][c] == Cell::Exit);
        }
    }
}

/// The maze solvers that the library knows.
#[derive(Clone, Copy, PartialEq, Eq, Debug, Structural)]
pub enum MazeAlgorithmsEnum {
    Dijkstra,
    DFS,
}

impl MazeAlgorithmsEnum {
    /// The solver of the name, or none where no solver has the name.
    pub open spec fn named(name: Seq<char>) -> Option<MazeAlgorithmsEnum> {
        if name == "dijkstra"@ {
            Some(MazeAlgorithmsEnum::Dijkstra)
        } else if name == "dfs"@ {
            Some(MazeAlgorithmsEnum::DFS)
        } else {
            None
        }
    }

    /// The solver of the name, or the solver by Dijkstra's algorithm where
    /// no solver has the name.
    pub open spec fn chosen(name: Seq<char>) -> MazeAlgorithmsEnum {
        match MazeAlgorithmsEnum::named(name) {
            Some(algorithm) => algorithm,
            None => MazeAlgorithmsEnum::Dijkstra,
        }
    }

    /// The solver of the name. A name that no solver has is an error.
    pub fn from_string(s: String) -> (result: Result<MazeAlgorithmsEnum, &'static str>)
        ensures
            match result {
                Ok(algorithm) => MazeAlgorithmsEnum::named(s@) == Some(algorithm),
                Err(message) => MazeAlgorithmsEnum::named(s@) is None && message@
                    == "Invalid variant"@,
            },
    {
        if s == String::from_str("dijkstra") {
            Ok(MazeAlgorithmsEnum::Dijkstra)
        } else if s == String::from_str("dfs") {
            Ok(MazeAlgorithmsEnum::DFS)
        } else {
            Err("Invalid variant")
        }
    }
}

/// What a solver returns for a maze, a start and an end: a log of marks of
/// cells of the maze and a path. The log holds first the visits, one of
/// each cell that the search came to, none of them a wall but perhaps the
/// start, and then the cells of the path, recorded as on the path as the
/// path holds them; where a walk was found, the last step of the log marks
/// the start. The
/// depth-first solver returns the path of a walk from the cell before the
/// end back to the start, the solver by Dijkstra's algorithm that of a
/// shortest walk from the end back to the start. The path is empty where
/// there is no walk.
pub open spec fn solves(
    algorithm: MazeAlgorithmsEnum,
    grid: Seq<Seq<Cell>>,
    start: (int, int),
    end: (int, int),
    result: MazeSolverReturnType,
) -> bool {
    &&& logged(grid, Seq::empty(), result.1@)
    &&& crate::services::marks::path_marked(chronological(result.1@), positions(result.0@))
    &&& crate::services::marks::marked_once(chronological(result.1@), positions(result.0@))
    &&& crate::services::marks::visits_then_path(chronological(result.1@), positions(result.0@))
    &&& crate::services::marks::off_the_walls(grid, chronological(result.1@), start)
    &&& reachable(grid, start, end) && start != end ==> chronological(result.1@).len() > 0
        && chronological(result.1@).last().cell_type == Cell::Path && chronological(
        result.1@,
    ).last().at() == start
    &&& !reachable(grid, start, end) ==> result.0@.len() == 0
    &&& reachable(grid, start, end) ==> match algorithm {
        MazeAlgorithmsEnum::DFS => connects(grid, walk_of(result.0@, end), start, end),
        MazeAlgorithmsEnum::Dijkstra => {
            &&& connects(grid, positions(result.0@).reverse(), start, end)
            &&& no_shorter_walk(grid, start, end, result.0@.len() - 1)
        },
    }
}

/// The registry of the maze solvers: from the name in a configuration to
/// the solver.
pub struct MazeAlgorithm;

impl MazeAlgorithm {
    /// Solves the maze with the solver that the configuration names, or with
    /// the solver by Dijkstra's algorithm where it names none. The start must
    /// lie in the maze.
    pub fn run(
        config: &MazeConfigValues,
        maze: &Maze,
        start: Coords<usize>,
        end: Coords<usize>,
    ) -> (result: MazeSolverReturnType)
        requires
            maze.wf(),
            maze.holds(start.x as int, start.y as int),
            maze.width * maze.height < u32::MAX,
        ensures
            solves(
                MazeAlgorithmsEnum::chosen(config.current_algorithm_name@),
                maze.grid(),
                (start.y as int, start.x as int),
                (end.y as int, end.x as int),
                result,
            ),
    {
        MazeAlgorithm::from_enum(MazeAlgorithm::from(config), maze, start, end)
    }

    /// The solver that the configuration names, or the solver by Dijkstra's
    /// algorithm where it names none.
    pub fn from(config: &MazeConfigValues) -> (algorithm: MazeAlgorithmsEnum)
        ensures
            algorithm == MazeAlgorithmsEnum::chosen(config.current_algorithm_name@),
    {
        let result = MazeAlgorithmsEnum::from_string(config.current_algorithm_name.clone());
        match result {
            Ok(v) => v,
            Err(_) => MazeAlgorithmsEnum::Dijkstra,
        }
    }

    /// Solves the maze with the solver.
    pub fn from_enum(
        enum_value: MazeAlgorithmsEnum,
        maze: &Maze,
        start: Coords<usize>,
        end: Coords<usize>,
    ) -> (result: MazeSolverReturnType)
        requires
            maze.wf(),
            maze.holds(start.x as int, start.y as int),
            maze.width * maze.height < u32::MAX,
        ensures
            solves(
                enum_value,
                maze.grid(),
                (start.y as int, start.x as int),
                (end.y as int, end.x as int),
                result,
            ),
    {
        match enum_value {
            MazeAlgorithmsEnum::Dijkstra => solve_maze_by_dijkstra(maze, start, end),
            MazeAlgorithmsEnum::DFS => solve_maze_by_dfs(maze, start, end),
        }
    }
}

/// A copy of the cells.
fn copy_cells(cells: &Vec<Vec<Cell>>) -> (copy: Vec<Vec<Cell>>)
    ensures
        rows(copy@) == rows(cells@),
{
    let mut copy: Vec<Vec<Cell>> = Vec::new();
    let mut r: usize = 0;
    while r < cells.len()
        invariant
            r <= cells@.len(),
            copy@.len() == r,
            forall|k: int| 0 <= k < r ==> (#[trigger] copy@[k])@ == cells@[k]@,
        decreases cells@.len() - r,
    {
        let mut row: Vec<Cell> = Vec::new();
        let mut c: usize = 0;
        while c < cells[r].len()
            invariant
                r < cells@.len(),
                c <= cells@[r as int]@.len(),
                row@ == cells@[r as int]@.take(c as int),
            decreases cells@[r as int]@.len() - c,
        {
            row.push(cells[r][c]);
            c += 1;
            assert(row@ =~= cells@[r as int]@.take(c as int));
        }
        assert(row@ =~= cells@[r as int]@);
        copy.push(row);
        r += 1;
    }
    assert(rows(copy@) =~= rows(cells@));
    copy
}

/// One run of a maze solver: the maze, the cells as they were before the
/// first step, the log of the solver, the path that it found, and the
/// playback of the log.
#[derive(Clone, PartialEq, Debug)]
pub struct Mazer {
    /// The maze as it is shown: the initial cells with the marks of the
    /// first `active_step` steps.
    pub maze: Maze,
    pub width: usize,
    pub height: usize,
    /// The path that the solver found, as pairs of a row and a column.
    pub path: Vec<(usize, usize)>,
    /// The log: the newest step at the front, the oldest at the back.
    pub steps: VecDeque<MazeStep>,
    /// The time that a step is given; idle where the animation does not run.
    pub steps_time: StepTime,
    /// Whether the animation runs.
    pub is_playing: bool,
    /// The number of steps that are applied.
    pub active_step: u32,
    /// The cells as they were before the first step.
    pub initial_cells: Vec<Vec<Cell>>,
}

impl Mazer {
    /// The number of steps of the log, as far as the cursor can count.
    pub open spec fn steps_total(&self) -> u32 {
        if self.steps@.len() > u32::MAX {
            u32::MAX
        } else {
            self.steps@.len() as u32
        }
    }

    /// The final step, at which the run rests with the maze shown as the
    /// solver left it: the whole log is applied.
    pub open spec fn final_step(&self) -> u32 {
        self.steps_total()
    }

    /// The mazer is what a tick makes of `before`: the run is the same, the
    /// cursor has moved as [`Cursor::ticked`] says, and the maze is shown
    /// at the step of the cursor where that has changed, and as it was
    /// shown where it has not.
    pub open spec fn ticked_from(&self, before: &Mazer) -> bool {
        &&& self.kept(before)
        &&& Playable::cursor(self) == Playable::cursor(before).ticked(before.steps_total())
        &&& self.active_step == before.active_step ==> self.maze == before.maze
        &&& self.active_step != before.active_step ==> self.maze.grid() == before.cells_at(
            self.active_step as nat,
        )
    }

    /// The cells after the first `step` steps of the log, or after all of
    /// them where the log holds fewer.
    pub open spec fn cells_at(&self, step: nat) -> Seq<Seq<Cell>> {
        replay_marks(
            rows(self.initial_cells@),
            chronological(self.steps@).take(
                if step > self.steps@.len() {
                    self.steps@.len() as int
                } else {
                    step as int
                },
            ),
        )
    }

    /// The run is as that of `other` but for the cursor and for the cells that
    /// are shown.
    pub open spec fn kept(&self, other: &Mazer) -> bool {
        &&& self.steps == other.steps
        &&& self.path == other.path
        &&& self.initial_cells == other.initial_cells
        &&& self.width == other.width
        &&& self.height == other.height
        &&& self.maze.width == other.maze.width
        &&& self.maze.height == other.maze.height
    }

    /// The maze can be solved: it is a grid with a cell, and with fewer
    /// cells than the distances of a solver can count.
    pub open spec fn solvable(&self) -> bool {
        &&& self.maze.wf()
        &&& self.maze.width > 0
        &&& self.maze.height > 0
        &&& self.maze.width * self.maze.height < u32::MAX
    }

    /// A mazer for a new maze of the size of the configuration. The log is
    /// empty until the maze is solved. The size must be four or more.
    pub fn new(config: &MazeConfigValues) -> (mazer: Mazer)
        requires
            config.size >= 4,
        ensures
            mazer.maze.is_new(),
            mazer.maze.width == config.size,
            mazer.maze.height == config.size,
            mazer.width == config.size,
            mazer.height == config.size,
            mazer.steps@.len() == 0,
            mazer.path@.len() == 0,
            rows(mazer.initial_cells@) == mazer.maze.grid(),
            Playable::cursor(&mazer) == Cursor::start(),
    {
        let width = config.size;
        let height = config.size;
        let maze = Maze::new(width, height);
        let initial_cells = copy_cells(&maze.cells);
        Self {
            steps: VecDeque::new(),
            active_step: 0,
            steps_time: StepTime::new_idle(),
            is_playing: false,
            width,
            height,
            maze,
            path: Vec::new(),
            initial_cells,
        }
    }

    /// Whether the path is to be drawn as a line: the run rests at its
    /// final step.
    pub fn show_path_line(&self) -> (show: bool)
        ensures
            show == (!self.is_playing && self.active_step == self.final_step()),
    {
        !self.is_playing && self.active_step == self.get_final_step()
    }

    /// Stops the animation where it runs, and starts or resumes it where it
    /// does not.
    pub fn play_or_pause(&mut self, config: &MazeConfigValues)
        ensures
            Playable::same_run(final(self), old(self)),
            final(self).kept(old(self)),
            old(self).is_playing ==> Playable::cursor(final(self)) == Playable::cursor(
                old(self),
            ).stopped() && final(self).maze == old(self).maze,
            !old(self).is_playing ==> Playable::cursor(final(self)) == Playable::cursor(
                old(self),
            ).played(config.time_overall, old(self).steps_total()) && Playable::shows(
                final(self),
                final(self).active_step as nat,
            ),
    {
        if self.is_playing {
            self.stop();
        } else {
            self.play(config);
        }
    }

    /// Replaces the maze by a new one of the size of the configuration. The
    /// log of the old maze and its path are dropped, and the playback comes
    /// to rest at the start. The size must be four or more.
    pub fn generate_new_maze(&mut self, config: &MazeConfigValues)
        requires
            config.size >= 4,
        ensures
            final(self).maze.is_new(),
            final(self).maze.width == config.size,
            final(self).maze.height == config.size,
            final(self).width == config.size,
            final(self).height == config.size,
            final(self).steps@.len() == 0,
            final(self).path@.len() == 0,
            rows(final(self).initial_cells@) == final(self).maze.grid(),
            Playable::cursor(final(self)) == Cursor::start(),
    {
        self.width = config.size;
        self.height = config.size;
        self.maze.reset(config);
        self.steps = VecDeque::new();
        self.path = Vec::new();
        self.initial_cells = copy_cells(&self.maze.cells);
        self.is_playing = false;
        self.steps_time = StepTime::new_idle();
        self.active_step = 0;
    }

    /// The final step, at which the run rests: the number of steps of the
    /// log.
    pub fn get_final_step(&self) -> (step: u32)
        ensures
            step == self.final_step(),
    {
        self.max_steps()
    }

    /// Shows the cells as they were before the first step.
    pub fn drop_cells(&mut self)
        ensures
            final(self).maze.grid() == rows(old(self).initial_cells@),
            final(self).kept(old(self)),
            Playable::same_run(final(self), old(self)),
            Playable::cursor(final(self)) == Playable::cursor(old(self)),
    {
        self.maze.cells = copy_cells(&self.initial_cells);
    }

    /// Solves the maze from its entry to its exit with the solver that the
    /// configuration names. The cells of the maze become the initial cells
    /// of the run, the log and the path are replaced by those of the solver,
    /// and the run rests at its final step, with the whole log applied. A
    /// maze that cannot be solved,
    /// because it is no grid, has no cell or has too many, gets an empty log
    /// and an empty path.
    pub fn solve(&mut self, config: &MazeConfigValues)
        ensures
            rows(final(self).initial_cells@) == old(self).maze.grid(),
            final(self).maze.width == old(self).maze.width,
            final(self).maze.height == old(self).maze.height,
            final(self).width == old(self).width,
            final(self).height == old(self).height,
            old(self).solvable() ==> solves(
                MazeAlgorithmsEnum::chosen(config.current_algorithm_name@),
                old(self).maze.grid(),
                (
                    old(self).maze.position_of(Cell::Entry).1,
                    old(self).maze.position_of(Cell::Entry).0,
                ),
                (old(self).maze.position_of(Cell::Exit).1, old(self).maze.position_of(Cell::Exit).0),
                (final(self).path, final(self).steps),
            ),
            !old(self).solvable() ==> final(self).steps@.len() == 0 && final(self).path@.len()
                == 0,
            Playable::cursor(final(self)) == (Cursor {
                active_step: final(self).steps_total(),
                ..Playable::cursor(old(self))
            }),
            final(self).maze.grid() == final(self).cells_at(final(self).active_step as nat),
            final(self).steps@.len() <= u32::MAX ==> final(self).maze.grid() == replay_marks(
                old(self).maze.grid(),
                chronological(final(self).steps@),
            ),
    {
        self.initial_cells = copy_cells(&self.maze.cells);
        assert(rows(self.initial_cells@) =~= self.maze.grid());
        if self.can_be_solved() {
            let (path, steps) = MazeAlgorithm::run(
                config,
                &self.maze,
                self.maze.entry(),
                self.maze.exit(),
            );
            self.steps = steps;
            self.path = path;
        } else {
            self.steps = VecDeque::new();
            self.path = Vec::new();
        }
        let final_step = self.get_final_step();
        self.set_step(final_step);
        proof {
            let steps = chronological(self.steps@);
            assert(steps.take(steps.len() as int) =~= steps);
        }
    }

    /// Whether the maze can be solved.
    fn can_be_solved(&self) -> (can: bool)
        ensures
            can == self.solvable(),
    {
        if !self.maze.is_rectangular() || self.maze.width == 0 || self.maze.height == 0 {
            return false;
        }
        assert((self.maze.width as u128) * (self.maze.height as u128) <= u64::MAX * u64::MAX)
            by (nonlinear_arith)
            requires
                self.maze.width <= u64::MAX,
                self.maze.height <= u64::MAX,
        ;
        let cells: u128 = (self.maze.width as u128) * (self.maze.height as u128);
        assert(cells == self.maze.width * self.maze.height) by (nonlinear_arith)
            requires
                cells == (self.maze.width as u128) * (self.maze.height as u128),
                self.maze.width <= u64::MAX,
                self.maze.height <= u64::MAX,
        ;
        cells < u32::MAX as u128
    }

    /// The number of steps of the log, as far as the cursor can count.
    fn max_steps(&self) -> (total: u32)
        ensures
            total == self.steps_total(),
    {
        let len = self.steps.len();
        if len > u32::MAX as usize {
            u32::MAX
        } else {
            len as u32
        }
    }

    fn get_cursor(&self) -> (cursor: Cursor)
        ensures
            cursor == Playable::cursor(self),
    {
        Cursor {
            active_step: self.active_step,
            is_playing: self.is_playing,
            steps_time: self.steps_time,
        }
    }
}

impl Playable<MazeConfigValues, MazeStep, Vec<Vec<Cell>>> for Mazer {
    open spec fn cursor(&self) -> Cursor {
        Cursor {
            active_step: self.active_step,
            is_playing: self.is_playing,
            steps_time: self.steps_time,
        }
    }

    open spec fn total(&self) -> u32 {
        self.steps_total()
    }

    open spec fn seconds(config: &MazeConfigValues) -> i32 {
        config.time_overall
    }

    open spec fn same_run(&self, other: &Self) -> bool {
        &&& rows(self.initial_cells@) == rows(other.initial_cells@)
        &&& self.steps@ == other.steps@
    }

    open spec fn is_output_at(&self, step: nat, output: &Vec<Vec<Cell>>) -> bool {
        rows(output@) == self.cells_at(step)
    }

    open spec fn shows(&self, step: nat) -> bool {
        self.maze.grid() == self.cells_at(step)
    }

    open spec fn has_active_item(&self) -> bool {
        self.active_step < self.steps@.len()
    }

    open spec fn active_item(&self) -> MazeStep {
        self.steps@[self.active_step as int]
    }

    fn reset(&mut self, config: &MazeConfigValues)
        ensures
            final(self).kept(old(self)),
            final(self).steps_time == StepTime::planned(config.time_overall, 0),
    {
        self.is_playing = false;
        let final_step = self.get_final_step();
        self.set_step(final_step);
        self.calculate_time(config);
    }

    fn play(&mut self, config: &MazeConfigValues)
        ensures
            final(self).kept(old(self)),
    {
        let total = self.max_steps();
        let mut cursor = self.get_cursor();
        cursor.play(config.time_overall, total);
        self.maze.cells = self.get_output_by_step(cursor.active_step);
        self.active_step = cursor.active_step;
        self.is_playing = cursor.is_playing;
        self.steps_time = cursor.steps_time;
    }

    fn stop(&mut self)
        ensures
            final(self).kept(old(self)),
            final(self).maze == old(self).maze,
    {
        self.is_playing = false;
        self.steps_time = StepTime::new_idle();
    }

    fn tick(&mut self)
        ensures
            final(self).ticked_from(old(self)),
    {
        let max_steps = self.max_steps();
        let mut cursor = self.get_cursor();
        cursor.tick(max_steps);
        if cursor.active_step != self.active_step {
            self.maze.cells = self.get_output_by_step(cursor.active_step);
        }
        self.active_step = cursor.active_step;
        self.is_playing = cursor.is_playing;
        self.steps_time = cursor.steps_time;
    }

    fn set_step(&mut self, step: u32)
        ensures
            final(self).kept(old(self)),
    {
        let total = self.max_steps();
        self.maze.cells = self.get_output_by_step(step);
        self.active_step = if step > total {
            total
        } else {
            step
        };
    }

    fn get_active_step_string(&self) -> (text: String) {
        decimal_string(self.active_step as i128)
    }

    fn tick_time(&self) -> (millis: u32) {
        self.get_cursor().interval()
    }

    fn get_output_by_step(&mut self, step: u32) -> (data: Vec<Vec<Cell>>)
        ensures
            *final(self) == *old(self),
    {
        let mut data = copy_cells(&self.initial_cells);
        let len = self.steps.len();
        let mut applied: usize = 0;
        proof {
            assert(chronological(self.steps@).take(0) =~= Seq::<MazeStep>::empty());
        }
        while applied < len && applied < step as usize
            invariant
                *self == *old(self),
                len == self.steps@.len(),
                applied <= len,
                applied <= step,
                rows(data@) == replay_marks(
                    rows(self.initial_cells@),
                    chronological(self.steps@).take(applied as int),
                ),
            decreases len - applied,
        {
            let ghost prefix = chronological(self.steps@).take(applied as int);
            let ghost before = rows(data@);
            let step_item = self.steps[len - 1 - applied];
            proof {
                assert(chronological(self.steps@).take(applied + 1) =~= prefix.push(step_item));
                lemma_replay_marks_push(rows(self.initial_cells@), prefix, step_item);
            }
            let coords = step_item.coords;
            let cell_type = step_item.cell_type;
            if coords.y < data.len() && coords.x < data[coords.y].len() {
                assert(before[coords.y as int] == data@[coords.y as int]@);
                if data[coords.y][coords.x] != Cell::Entry && data[coords.y][coords.x]
                    != Cell::Exit {
                    data[coords.y][coords.x] = cell_type;
                    assert(rows(data@) =~= step_item.apply(before));
                }
            } else {
                assert(coords.y >= data@.len() || before[coords.y as int] == data@[coords.y as int]@);
            }
            applied += 1;
        }
        data
    }

    fn get_steps_len_string(&self) -> (text: String) {
        decimal_string(self.get_final_step() as i128)
    }

    fn get_active_step_item(&self) -> (item: MazeStep) {
        self.steps[self.active_step as usize]
    }

    fn calculate_time(&mut self, config: &MazeConfigValues)
        ensures
            final(self).kept(old(self)),
            final(self).maze == old(self).maze,
    {
        let total = self.max_steps();
        let remaining = if self.active_step <= total {
            total - self.active_step
        } else {
            0
        };
        self.steps_time = StepTime::new_planned(config.time_overall, remaining);
    }
}

/// The cell of the entry of a new maze of the size, as row and column.
pub open spec fn entry_of_new(maze: Maze) -> (int, int) {
    (
        Maze::default_entry(maze.width as int, maze.height as int).1,
        Maze::default_entry(maze.width as int, maze.height as int).0,
    )
}

/// The cell of the exit of a new maze of the size, as row and column.
pub open spec fn exit_of_new(maze: Maze) -> (int, int) {
    (
        Maze::default_exit(maze.width as int, maze.height as int).1,
        Maze::default_exit(maze.width as int, maze.height as int).0,
    )
}

/// In a new maze both solvers find a walk from the entry to the exit. That
/// of the solver by Dijkstra's algorithm is a shortest walk, and that of the
/// depth-first solver is no shorter.
pub proof fn lemma_new_maze_is_solved(
    maze: Maze,
    by_dfs: MazeSolverReturnType,
    by_dijkstra: MazeSolverReturnType,
)
    requires
        maze.is_new(),
        solves(
            MazeAlgorithmsEnum::DFS,
            maze.grid(),
            (maze.position_of(Cell::Entry).1, maze.position_of(Cell::Entry).0),
            (maze.position_of(Cell::Exit).1, maze.position_of(Cell::Exit).0),
            by_dfs,
        ),
        solves(
            MazeAlgorithmsEnum::Dijkstra,
            maze.grid(),
            (maze.position_of(Cell::Entry).1, maze.position_of(Cell::Entry).0),
            (maze.position_of(Cell::Exit).1, maze.position_of(Cell::Exit).0),
            by_dijkstra,
        ),
    ensures
        entry_of_new(maze) != exit_of_new(maze),
        connects(
            maze.grid(),
            walk_of(by_dfs.0@, exit_of_new(maze)),
            entry_of_new(maze),
            exit_of_new(maze),
        ),
        connects(
            maze.grid(),
            positions(by_dijkstra.0@).reverse(),
            entry_of_new(maze),
            exit_of_new(maze),
        ),
        no_shorter_walk(
            maze.grid(),
            entry_of_new(maze),
            exit_of_new(maze),
            by_dijkstra.0@.len() - 1,
        ),
        by_dijkstra.0@.len() - 1 <= by_dfs.0@.len(),
{
}

/// At its final step a run shows the maze as the whole log leaves it: with
/// all the marks of the solver.
pub proof fn lemma_rest_shows_the_solved_maze(mazer: Mazer)
    requires
        mazer.steps@.len() <= u32::MAX,
    ensures
        mazer.final_step() == mazer.steps@.len(),
        mazer.cells_at(mazer.final_step() as nat) == replay_marks(
            rows(mazer.initial_cells@),
            chronological(mazer.steps@),
        ),
{
    let steps = chronological(mazer.steps@);
    assert(steps.take(steps.len() as int) =~= steps);
}

/// A mazer whose cursor stands at the end of its log is brought to rest by
/// a tick, which leaves the cursor at the end and the maze as it is shown;
/// a further tick changes nothing at all.
pub proof fn lemma_tick_at_the_end_changes_nothing(before: Mazer, once: Mazer, twice: Mazer)
    requires
        before.active_step == before.steps_total(),
        once.ticked_from(&before),
        twice.ticked_from(&once),
    ensures
        !once.is_playing,
        once.active_step == before.active_step,
        once.maze == before.maze,
        twice == once,
{
}

/// A tick of a mazer that does not play, and whose cursor does not stand
/// behind the end of the log, changes nothing but the time, which it
/// clears at the end of the log.
pub proof fn lemma_tick_at_rest_changes_nothing(before: Mazer, after: Mazer)
    requires
        !before.is_playing,
        before.active_step <= before.steps_total(),
        after.ticked_from(&before),
    ensures
        after.active_step == before.active_step,
        after.maze == before.maze,
        !after.is_playing,
        after.kept(&before),
{
}

} // verus!
