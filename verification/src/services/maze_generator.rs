//! The maze: a grid of cells, its generation by recursive division, and its
//! editing.

use crate::config::MazeConfigValues;
use crate::coords::Coords;
use crate::grid::reachable;
use crate::grid::rectangular;
use crate::services::chambers::column_walled;
use crate::services::chambers::carved;
use crate::services::chambers::divided;
use crate::services::chambers::interior;
use crate::services::chambers::lemma_divided_cells;
use crate::services::chambers::lemma_divided_nothing;
use crate::services::chambers::lemma_division_by_column;
use crate::services::chambers::lemma_division_by_row;
use crate::services::chambers::lemma_entry_reaches_exit;
use crate::services::chambers::lemma_ready_above;
use crate::services::chambers::lemma_ready_below;
use crate::services::chambers::lemma_ready_left;
use crate::services::chambers::lemma_ready_right;
use crate::services::chambers::lemma_undivided;
use crate::services::chambers::on_grid;
use crate::services::single_walks::lemma_division_is_perfect;
use crate::services::single_walks::odd_sized;
use crate::services::single_walks::perfect;
use crate::services::chambers::ready;
use crate::services::chambers::lemma_touched_chain;
use crate::services::chambers::row_walled;
use crate::services::chambers::touched;
use crate::services::chambers::Chamber;
use rand::Rng;
use vstd::prelude::*;

verus! {

/// What a cell of the grid is, or how it is marked.
///
/// `Empty`, `Wall`, `Entry` and `Exit` say what the cell is. `Visited` and
/// `Path` are marks that the replay of a solver's log puts on a cell.
#[derive(Debug, Clone, Copy, PartialEq, Eq, Structural)]
pub enum Cell {
    Visited,
    Path,
    Empty,
    Wall,
    Entry,
    Exit,
}

impl Cell {
    /// The kinds of cell, in the order of the legend.
    pub open spec fn all() -> Seq<Cell> {
        seq![Cell::Visited, Cell::Path, Cell::Empty, Cell::Wall, Cell::Entry, Cell::Exit]
    }

    /// The name of the kind.
    pub open spec fn name(self) -> Seq<char> {
        match self {
            Cell::Empty => "Empty"@,
            Cell::Visited => "Visited"@,
            Cell::Path => "Path"@,
            Cell::Wall => "Wall"@,
            Cell::Entry => "Entry"@,
            Cell::Exit => "Exit"@,
        }
    }

    /// The colour in which the kind is drawn.
    pub open spec fn color(self) -> Seq<char> {
        match self {
            Cell::Empty => "#f5f5f5"@,
            Cell::Visited => "#ff9933"@,
            Cell::Path => "#a0e6f2"@,
            Cell::Wall => "#cc0000"@,
            Cell::Entry => "#ffd700"@,
            Cell::Exit => "#00ff00"@,
        }
    }

    /// The kinds of cell, in the order of the legend.
    pub fn iterator() -> (kinds: Vec<Cell>)
        ensures
            kinds@ == Cell::all(),
    {
        let mut kinds: Vec<Cell> = Vec::new();
        kinds.push(Cell::Visited);
        kinds.push(Cell::Path);
        kinds.push(Cell::Empty);
        kinds.push(Cell::Wall);
        kinds.push(Cell::Entry);
        kinds.push(Cell::Exit);
        assert(kinds@ =~= Cell::all());
        kinds
    }

    /// The name of the kind.
    pub fn as_name(&self) -> (name: &'static str)
        ensures
            name@ == self.name(),
    {
        match self {
            Cell::Empty => "Empty",
            Cell::Visited => "Visited",
            Cell::Path => "Path",
            Cell::Wall => "Wall",
            Cell::Entry => "Entry",
            Cell::Exit => "Exit",
        }
    }

    /// The colour in which the kind is drawn.
    pub fn as_color(&self) -> (color: &'static str)
        ensures
            color@ == self.color(),
    {
        match self {
            Cell::Empty => "#f5f5f5",
            Cell::Visited => "#ff9933",
            Cell::Path => "#a0e6f2",
            Cell::Wall => "#cc0000",
            Cell::Entry => "#ffd700",
            Cell::Exit => "#00ff00",
        }
    }
}

/// The direction of a wall.
#[derive(Clone, Copy, PartialEq, Eq, Structural)]
enum Orientation {
    Horizontal,
    Vertical,
}

/// `Rng::gen_range` of the crate `rand` on the generator of the thread, for
/// the range from `low` up to, and without, `high`: a number of the range,
/// taken by chance. The crate panics on an empty range.
#[verifier::external_body]
fn rand_num(low: usize, high: usize) -> (number: usize)
    requires
        low < high,
    ensures
        low <= number < high,
{
    rand::thread_rng().gen_range(low..high)
}

/// The cell of a wall lies where a passage may be: in a column of odd
/// number where the wall is horizontal, in a row of odd number where it is
/// vertical.
spec fn odd_on_wall(orientation: Orientation, point: (usize, usize)) -> bool {
    match orientation {
        Orientation::Horizontal => point.0 % 2 != 0,
        Orientation::Vertical => point.1 % 2 != 0,
    }
}

/// The least even number that is not less than `num`.
pub open spec fn even_at_or_above(num: int) -> int {
    num + num % 2
}

/// The least even number that is not less than `num`.
fn float_even(num: usize) -> (even: usize)
    requires
        num < usize::MAX,
    ensures
        even == even_at_or_above(num as int),
        even % 2 == 0,
        num <= even <= num + 1,
{
    num + num % 2
}

/// A new maze of the size, as [`Maze::new`] makes it.
fn generate_new_maze(width: usize, height: usize) -> (maze: Maze)
    requires
        width >= 4,
        height >= 4,
    ensures
        maze.width == width,
        maze.height == height,
        maze.is_new(),
{
    let mut cells: Vec<Vec<Cell>> = Vec::new();
    let mut row: usize = 0;
    while row < height
        invariant
            row <= height,
            cells@.len() == row,
            forall|r: int|
                0 <= r < row ==> (#[trigger] cells@[r])@ == Seq::new(
                    width as nat,
                    |c: int| Cell::Empty,
                ),
        decreases height - row,
    {
        let mut cells_of_row: Vec<Cell> = Vec::new();
        let mut col: usize = 0;
        while col < width
            invariant
                col <= width,
                cells_of_row@ == Seq::new(col as nat, |c: int| Cell::Empty),
            decreases width - col,
        {
            cells_of_row.push(Cell::Empty);
            col += 1;
            assert(cells_of_row@ =~= Seq::new(col as nat, |c: int| Cell::Empty));
        }
        cells.push(cells_of_row);
        row += 1;
    }
    let mut maze = Maze { cells, width, height };
    let ghost blank = maze;
    maze.generate_side_walls();
    let ghost framed = maze;
    let ghost inner = Maze::chamber(1, (width - 2) as usize, 1, (height - 2) as usize);
    proof {
        assert forall|at: (int, int)| #[trigger] inner.holds(at) implies 0 <= at.0
            < framed.grid().len() && 0 <= at.1 < framed.grid()[at.0].len() && framed.grid()[at.0][at.1]
            == Cell::Empty by {
            assert(framed.holds(at.1, at.0));
            assert(framed.at(at.1, at.0) == blank.at(at.1, at.0));
            assert(blank.grid()[at.0] == blank.cells@[at.0]@);
        }
    }
    maze.generate(1, width - 2, 1, height - 2);
    let ghost divided_maze = maze;
    maze.set_default_entry_exit();
    proof {
        let before = divided_maze.grid();
        let after = maze.grid();
        let entry = Maze::default_entry(width as int, height as int);
        let exit = Maze::default_exit(width as int, height as int);
        lemma_divided_cells(before, inner);
        assert(inner == interior(height as int, width as int));
        assert forall|x: int, y: int| maze.holds(x, y) implies #[trigger] maze.at(x, y) == (if (x, y)
            == exit {
            Cell::Exit
        } else if (x, y) == entry {
            Cell::Entry
        } else {
            before[y][x]
        }) && (before[y][x] == Cell::Wall || before[y][x] == Cell::Empty) && ((x == 0 || y == 0
            || x == width - 1 || y == height - 1) ==> before[y][x] == Cell::Wall) by {
            assert(divided_maze.holds(x, y));
            assert(framed.holds(x, y));
            if inner.holds((y, x)) {
                assert(before[y][x] == Cell::Wall || before[y][x] == Cell::Empty);
            } else {
                assert(before[y][x] == framed.grid()[y][x]);
                assert(framed.at(x, y) == Cell::Wall);
            }
        }
        assert forall|x: int, y: int|
            1 <= x < width - 1 && 1 <= y < height - 1 && x % 2 == 1 && y % 2
                == 1 implies #[trigger] maze.at(x, y) != Cell::Wall by {
            assert(maze.holds(x, y));
            assert(inner.holds((y, x)));
            assert(before[y][x] == Cell::Empty);
        }
        assert forall|r: int, c: int| 0 <= r < height && 0 <= c < width implies #[trigger] after[r][c]
            == (if (c, r) == exit {
            Cell::Exit
        } else if (c, r) == entry {
            Cell::Entry
        } else {
            before[r][c]
        }) by {
            assert(maze.holds(c, r));
            assert(after[r][c] == maze.at(c, r));
        }
        lemma_entry_reaches_exit(before, after, height as int, width as int);
        assert(maze.holds(entry.0, entry.1) && maze.holds(exit.0, exit.1));
        assert(maze.at(entry.0, entry.1) == Cell::Entry);
        assert(maze.at(exit.0, exit.1) == Cell::Exit);
        maze.lemma_only_cell(Cell::Entry, entry.0, entry.1);
        maze.lemma_only_cell(Cell::Exit, exit.0, exit.1);
        assert(maze.marks(before));
        assert(maze.framed());
    }
    maze
}

/// A grid of cells with a width and a height.
#[derive(Debug, Clone, PartialEq)]
pub struct Maze {
    /// The rows of the grid, from the top; each holds its cells from the
    /// left.
    pub cells: Vec<Vec<Cell>>,
    pub width: usize,
    pub height: usize,
}

impl Maze {
    /// The grid as a sequence of rows.
    pub open spec fn grid(&self) -> Seq<Seq<Cell>> {
        Seq::new(self.cells@.len(), |r: int| self.cells@[r]@)
    }

    /// The grid has `height` rows of `width` cells each.
    pub open spec fn wf(&self) -> bool {
        rectangular(self.grid(), self.height as int, self.width as int)
    }

    /// The cell in column `x` of row `y`.
    pub open spec fn at(&self, x: int, y: int) -> Cell {
        self.grid()[y][x]
    }

    /// The position lies on the grid.
    pub open spec fn holds(&self, x: int, y: int) -> bool {
        0 <= x < self.width && 0 <= y < self.height
    }

    /// The grid of `other`, but for the cell in column `x` of row `y`, which
    /// is `value`.
    pub open spec fn is_with(&self, other: &Maze, x: int, y: int, value: Cell) -> bool {
        &&& self.width == other.width
        &&& self.height == other.height
        &&& self.grid() == other.grid().update(y, other.grid()[y].update(x, value))
    }

    /// The cells on the border of the grid are walls.
    pub open spec fn framed(&self) -> bool {
        forall|x: int, y: int|
            self.holds(x, y) && (x == 0 || y == 0 || x == self.width - 1 || y == self.height
                - 1) ==> #[trigger] self.at(x, y) == Cell::Wall
    }

    /// The place of the exit of a new maze, as column and row: three cells
    /// from the right and from the bottom.
    pub open spec fn default_exit(width: int, height: int) -> (int, int) {
        (width - 3, height - 3)
    }

    /// The place of the entry of a new maze, as column and row: column two
    /// of row two, and column one of row one where the exit has that place.
    pub open spec fn default_entry(width: int, height: int) -> (int, int) {
        if width == 5 && height == 5 {
            (1, 1)
        } else {
            (2, 2)
        }
    }

    /// The entry and the exit are where a new maze has them, and no other
    /// cell is an entry or an exit.
    pub open spec fn has_default_entry_exit(&self) -> bool {
        &&& self.position_of(Cell::Entry) == Maze::default_entry(
            self.width as int,
            self.height as int,
        )
        &&& self.position_of(Cell::Exit) == Maze::default_exit(self.width as int, self.height as int)
        &&& forall|x: int, y: int|
            self.holds(x, y) ==> #[trigger] self.at(x, y) == (if (x, y) == Maze::default_exit(
                self.width as int,
                self.height as int,
            ) {
                Cell::Exit
            } else if (x, y) == Maze::default_entry(self.width as int, self.height as int) {
                Cell::Entry
            } else if self.at(x, y) == Cell::Wall {
                Cell::Wall
            } else {
                Cell::Empty
            })
    }

    /// A walk leads from the entry of a new maze to its exit.
    pub open spec fn entry_reaches_exit(&self) -> bool {
        reachable(
            self.grid(),
            (
                Maze::default_entry(self.width as int, self.height as int).1,
                Maze::default_entry(self.width as int, self.height as int).0,
            ),
            (
                Maze::default_exit(self.width as int, self.height as int).1,
                Maze::default_exit(self.width as int, self.height as int).0,
            ),
        )
    }

    /// The maze is the grid `plan` with the entry and the exit of a new maze
    /// put on two of its cells.
    pub open spec fn marks(&self, plan: Seq<Seq<Cell>>) -> bool {
        &&& rectangular(plan, self.height as int, self.width as int)
        &&& forall|x: int, y: int|
            self.holds(x, y) ==> #[trigger] self.at(x, y) == (if (x, y) == Maze::default_exit(
                self.width as int,
                self.height as int,
            ) {
                Cell::Exit
            } else if (x, y) == Maze::default_entry(self.width as int, self.height as int) {
                Cell::Entry
            } else {
                plan[y][x]
            })
    }

    /// The maze is one that recursive division built: a grid with walls on
    /// its border, with what recursive division builds inside the border,
    /// and with the entry and the exit put on two of its cells.
    pub open spec fn is_divided(&self) -> bool {
        exists|plan: Seq<Seq<Cell>>| #[trigger]
            self.marks(plan) && carved(plan, interior(self.height as int, self.width as int))
                && divided(plan, interior(self.height as int, self.width as int))
    }

    /// A new maze of odd width and height is a perfect maze with the entry
    /// and the exit put on two of its cells: before they were put, one walk
    /// inside the border that comes to no cell twice led from any cell
    /// that is no wall to any other, and no second one.
    pub proof fn lemma_new_maze_is_perfect(&self)
        requires
            self.is_new(),
            self.width % 2 == 1,
            self.height % 2 == 1,
        ensures
            exists|plan: Seq<Seq<Cell>>| #[trigger]
                self.marks(plan) && perfect(plan, interior(self.height as int, self.width as int)),
    {
        let inner = interior(self.height as int, self.width as int);
        let plan = choose|plan: Seq<Seq<Cell>>| #[trigger]
            self.marks(plan) && carved(plan, inner) && divided(plan, inner);
        assert(on_grid(plan, inner));
        lemma_division_is_perfect(plan, inner);
    }

    /// Inside the border, no cell in a row and a column of odd numbers is a
    /// wall: the walls lie along rows and columns of even numbers.
    pub open spec fn walls_in_even_lines(&self) -> bool {
        forall|x: int, y: int|
            1 <= x < self.width - 1 && 1 <= y < self.height - 1 && x % 2 == 1 && y % 2 == 1
                ==> #[trigger] self.at(x, y) != Cell::Wall
    }

    /// What holds of a new maze: it has four or more rows and columns, its
    /// border is made of walls, recursive division built what lies inside
    /// the border, so that the walls lie along rows and columns of even
    /// numbers, the entry and the exit are on two cells inside the border,
    /// every other cell is a wall or empty, and a walk leads from the entry
    /// to the exit.
    pub open spec fn is_new(&self) -> bool {
        &&& self.wf()
        &&& self.width >= 4
        &&& self.height >= 4
        &&& self.framed()
        &&& self.is_divided()
        &&& self.has_default_entry_exit()
        &&& self.only_structure()
        &&& self.walls_in_even_lines()
        &&& self.entry_reaches_exit()
    }

    /// No cell carries a mark of a solver.
    pub open spec fn only_structure(&self) -> bool {
        forall|x: int, y: int|
            self.holds(x, y) ==> #[trigger] self.at(x, y) != Cell::Visited && self.at(x, y)
                != Cell::Path
    }

    /// A new maze of the size: walls on the border, a maze by recursive
    /// division inside, and an entry and an exit on two cells inside the
    /// border. Whatever chance gives, a walk leads from the entry to the
    /// exit. The width and the height must be four or more, so that the
    /// two cells are there.
    pub fn new(width: usize, height: usize) -> (maze: Maze)
        requires
            width >= 4,
            height >= 4,
        ensures
            maze.width == width,
            maze.height == height,
            maze.is_new(),
    {
        generate_new_maze(width, height)
    }

    /// The weight of a step from a cell to a neighbour.
    pub fn get_weight(&self) -> (weight: u32)
        ensures
            weight == 1,
    {
        return 1;
    }

    /// Replaces the maze by a new one of the size of the configuration. The
    /// size must be four or more.
    pub fn reset(&mut self, config: &MazeConfigValues)
        requires
            config.size >= 4,
        ensures
            final(self).width == config.size,
            final(self).height == config.size,
            final(self).is_new(),
    {
        *self = generate_new_maze(config.size, config.size);
    }

    /// The walls on the border.
    fn generate_side_walls(&mut self)
        requires
            old(self).wf(),
            old(self).width >= 1,
            old(self).height >= 1,
        ensures
            final(self).wf(),
            final(self).width == old(self).width,
            final(self).height == old(self).height,
            forall|x: int, y: int|
                final(self).holds(x, y) ==> #[trigger] final(self).at(x, y) == (if x == 0 || y == 0
                    || x == old(self).width - 1 || y == old(self).height - 1 {
                    Cell::Wall
                } else {
                    old(self).at(x, y)
                }),
    {
        let width = self.width;
        let height = self.height;
        for col in 0..width
            invariant
                self.wf(),
                self.width == width == old(self).width,
                self.height == height == old(self).height,
                height >= 1,
                forall|x: int, y: int|
                    self.holds(x, y) ==> #[trigger] self.at(x, y) == (if x < col && (y == 0 || y
                        == height - 1) {
                        Cell::Wall
                    } else {
                        old(self).at(x, y)
                    }),
        {
            self.put(col, 0, Cell::Wall);
            self.put(col, height - 1, Cell::Wall);
        }
        let mut row: usize = 1;
        while row < height - 1
            invariant
                self.wf(),
                self.width == width == old(self).width,
                self.height == height == old(self).height,
                width >= 1,
                height >= 1,
                1 <= row <= height,
                forall|x: int, y: int|
                    self.holds(x, y) ==> #[trigger] self.at(x, y) == (if y == 0 || y == height - 1
                        || (y < row && (x == 0 || x == width - 1)) {
                        Cell::Wall
                    } else {
                        old(self).at(x, y)
                    }),
            decreases height - row,
        {
            self.put(0, row, Cell::Wall);
            self.put(width - 1, row, Cell::Wall);
            row += 1;
        }
    }

    /// Assigns the cell in column `x` of row `y`.
    fn put(&mut self, x: usize, y: usize, value: Cell)
        requires
            old(self).wf(),
            old(self).holds(x as int, y as int),
        ensures
            final(self).wf(),
            final(self).is_with(old(self), x as int, y as int, value),
            forall|a: int, b: int|
                final(self).holds(a, b) ==> #[trigger] final(self).at(a, b) == (if a == x && b
                    == y {
                    value
                } else {
                    old(self).at(a, b)
                }),
    {
        assert(self.grid()[y as int] == self.cells@[y as int]@);
        self.cells[y][x] = value;
        assert(self.grid() =~= old(self).grid().update(
            y as int,
            old(self).grid()[y as int].update(x as int, value),
        ));
        assert(self.wf()) by {
            assert forall|r: int| 0 <= r < self.height implies (#[trigger] self.grid()[r]).len()
                == self.width by {
                assert(old(self).grid()[r].len() == self.width);
            }
        }
    }

    /// Whether the grid has `height` rows of `width` cells each.
    pub fn is_rectangular(&self) -> (ok: bool)
        ensures
            ok == self.wf(),
    {
        if self.cells.len() != self.height {
            return false;
        }
        let mut row: usize = 0;
        while row < self.height
            invariant
                self.cells@.len() == self.height,
                row <= self.height,
                forall|r: int| 0 <= r < row ==> (#[trigger] self.grid()[r]).len() == self.width,
            decreases self.height - row,
        {
            if self.cells[row].len() != self.width {
                assert(self.grid()[row as int].len() != self.width);
                return false;
            }
            row += 1;
        }
        true
    }

    /// The position is the first, row by row, whose cell is of the kind.
    pub open spec fn is_first_of(&self, cell_type: Cell, x: int, y: int) -> bool {
        &&& crate::grid::inside(self.grid(), (y, x))
        &&& self.at(x, y) == cell_type
        &&& forall|a: int, b: int|
            crate::grid::inside(self.grid(), (b, a)) && #[trigger] self.at(a, b) == cell_type ==> y
                < b || (y == b && x <= a)
    }

    /// No cell is of the kind.
    pub open spec fn has_none_of(&self, cell_type: Cell) -> bool {
        forall|a: int, b: int|
            crate::grid::inside(self.grid(), (b, a)) ==> #[trigger] self.at(a, b) != cell_type
    }

    /// The first position, row by row, whose cell is of the kind, as column
    /// and row, and the origin where no cell is of the kind.
    pub open spec fn position_of(&self, cell_type: Cell) -> (int, int) {
        if exists|p: (int, int)| self.is_first_of(cell_type, p.0, p.1) {
            choose|p: (int, int)| self.is_first_of(cell_type, p.0, p.1)
        } else {
            (0, 0)
        }
    }

    /// There is one first position of a kind, or no cell of the kind at all.
    pub proof fn lemma_position_of(&self, cell_type: Cell, x: int, y: int)
        requires
            self.is_first_of(cell_type, x, y) || (self.has_none_of(cell_type) && x == 0 && y == 0),
        ensures
            self.position_of(cell_type) == (x, y),
    {
        if self.is_first_of(cell_type, x, y) {
            assert(self.is_first_of(cell_type, (x, y).0, (x, y).1));
            let p = self.position_of(cell_type);
            assert(self.is_first_of(cell_type, p.0, p.1));
            assert(self.at(x, y) == cell_type);
            assert(self.at(p.0, p.1) == cell_type);
        } else {
            assert forall|p: (int, int)| !self.is_first_of(cell_type, p.0, p.1) by {
                if self.is_first_of(cell_type, p.0, p.1) {
                    assert(self.at(p.0, p.1) != cell_type);
                }
            }
        }
    }

    /// The one cell of a kind is the first of the kind.
    proof fn lemma_only_cell(&self, cell_type: Cell, x: int, y: int)
        requires
            self.wf(),
            self.holds(x, y),
            self.at(x, y) == cell_type,
            forall|a: int, b: int|
                self.holds(a, b) && (a != x || b != y) ==> #[trigger] self.at(a, b) != cell_type,
        ensures
            self.position_of(cell_type) == (x, y),
    {
        assert(self.grid()[y].len() == self.width);
        assert forall|a: int, b: int|
            crate::grid::inside(self.grid(), (b, a)) && #[trigger] self.at(a, b)
                == cell_type implies y < b || (y == b && x <= a) by {
            assert(self.grid()[b].len() == self.width);
            assert(self.holds(a, b));
        }
        self.lemma_position_of(cell_type, x, y);
    }

    /// The first position, row by row, whose cell is of the kind, and the
    /// origin where no cell is.
    fn get_first_coords_of(&self, cell_type: Cell) -> (coords: Coords<usize>)
        ensures
            (coords.x as int, coords.y as int) == self.position_of(cell_type),
            self.is_first_of(cell_type, coords.x as int, coords.y as int) || (self.has_none_of(
                cell_type,
            ) && coords.x == 0 && coords.y == 0),
    {
        let rows = self.cells.len();
        let mut y: usize = 0;
        while y < rows
            invariant
                rows == self.cells@.len(),
                y <= rows,
                forall|a: int, b: int|
                    0 <= b < y && crate::grid::inside(self.grid(), (b, a)) ==> #[trigger] self.at(
                        a,
                        b,
                    ) != cell_type,
            decreases rows - y,
        {
            let cols = self.cells[y].len();
            let mut x: usize = 0;
            while x < cols
                invariant
                    rows == self.cells@.len(),
                    y < rows,
                    cols == self.grid()[y as int].len(),
                    x <= cols,
                    forall|a: int, b: int|
                        0 <= b < y && crate::grid::inside(self.grid(), (b, a))
                            ==> #[trigger] self.at(a, b) != cell_type,
                    forall|a: int| 0 <= a < x ==> #[trigger] self.at(a, y as int) != cell_type,
                decreases cols - x,
            {
                if self.cells[y][x] == cell_type {
                    proof {
                        self.lemma_position_of(cell_type, x as int, y as int);
                    }
                    return Coords::from(x, y);
                }
                x += 1;
            }
            y += 1;
        }
        proof {
            self.lemma_position_of(cell_type, 0, 0);
        }
        Coords::from(0, 0)
    }

    /// The position of the exit: the first cell, row by row, that is an
    /// exit, and the origin where none is.
    pub fn exit(&self) -> (coords: Coords<usize>)
        ensures
            (coords.x as int, coords.y as int) == self.position_of(Cell::Exit),
            self.is_first_of(Cell::Exit, coords.x as int, coords.y as int) || (self.has_none_of(
                Cell::Exit,
            ) && coords.x == 0 && coords.y == 0),
    {
        self.get_first_coords_of(Cell::Exit)
    }

    /// The position of the entry: the first cell, row by row, that is an
    /// entry, and the origin where none is.
    pub fn entry(&self) -> (coords: Coords<usize>)
        ensures
            (coords.x as int, coords.y as int) == self.position_of(Cell::Entry),
            self.is_first_of(Cell::Entry, coords.x as int, coords.y as int) || (self.has_none_of(
                Cell::Entry,
            ) && coords.x == 0 && coords.y == 0),
    {
        self.get_first_coords_of(Cell::Entry)
    }

    /// The chamber from column `start_x` on, `width` wide, and from row
    /// `start_y` on, `height` high.
    pub open spec fn chamber(start_x: usize, width: usize, start_y: usize, height: usize) -> Chamber {
        Chamber { x: start_x as int, width: width as int, y: start_y as int, height: height as int }
    }

    /// Builds a wall across the chamber: along a row of even number taken by
    /// chance where the wall is horizontal, along a column of even number
    /// taken by chance where it is vertical. Returns the number of the row
    /// or column and the cells of the wall.
    fn wall_across(
        &mut self,
        orientation: Orientation,
        start_x: usize,
        width: usize,
        start_y: usize,
        height: usize,
    ) -> (wall: (usize, Vec<(usize, usize)>))
        requires
            old(self).wf(),
            start_x + width <= old(self).width,
            start_y + height <= old(self).height,
            orientation == Orientation::Horizontal ==> height > 2,
            orientation == Orientation::Vertical ==> width > 2,
        ensures
            final(self).wf(),
            final(self).width == old(self).width,
            final(self).height == old(self).height,
            wall.0 % 2 == 0,
            orientation == Orientation::Horizontal ==> {
                &&& start_y <= wall.0 <= start_y + height - 1
                &&& start_y % 2 == 1 ==> start_y < wall.0
                &&& wall.1@ == Seq::new(width as nat, |k: int| ((start_x + k) as usize, wall.0))
                &&& forall|a: int, b: int|
                    final(self).holds(a, b) ==> #[trigger] final(self).at(a, b) == (if b == wall.0
                        && start_x <= a < start_x + width {
                        Cell::Wall
                    } else {
                        old(self).at(a, b)
                    })
            },
            orientation == Orientation::Vertical ==> {
                &&& start_x <= wall.0 <= start_x + width - 1
                &&& start_x % 2 == 1 ==> start_x < wall.0
                &&& wall.1@ == Seq::new(height as nat, |k: int| (wall.0, (start_y + k) as usize))
                &&& forall|a: int, b: int|
                    final(self).holds(a, b) ==> #[trigger] final(self).at(a, b) == (if a == wall.0
                        && start_y <= b < start_y + height {
                        Cell::Wall
                    } else {
                        old(self).at(a, b)
                    })
            },
    {
        let mut wall_points: Vec<(usize, usize)> = Vec::new();
        match orientation {
            Orientation::Horizontal => {
                // Horizontal walls on even y-coordinates
                let y: usize = float_even(rand_num(start_y, start_y + height - 1));
                let mut x: usize = start_x;
                while x < start_x + width
                    invariant
                        self.wf(),
                        self.width == old(self).width,
                        self.height == old(self).height,
                        start_x <= x <= start_x + width <= self.width,
                        start_y <= y <= start_y + height - 1,
                        start_y + height <= self.height,
                        wall_points@ == Seq::new(
                            (x - start_x) as nat,
                            |k: int| ((start_x + k) as usize, y),
                        ),
                        forall|a: int, b: int|
                            self.holds(a, b) ==> #[trigger] self.at(a, b) == (if b == y && start_x
                                <= a < x {
                                Cell::Wall
                            } else {
                                old(self).at(a, b)
                            }),
                    decreases start_x + width - x,
                {
                    self.put(x, y, Cell::Wall);
                    wall_points.push((x, y));
                    x += 1;
                    assert(wall_points@ =~= Seq::new(
                        (x - start_x) as nat,
                        |k: int| ((start_x + k) as usize, y),
                    ));
                }
                (y, wall_points)
            },
            Orientation::Vertical => {
                // Vertical walls on even x-coordinates
                let x: usize = float_even(rand_num(start_x, start_x + width - 1));
                let mut y: usize = start_y;
                while y < start_y + height
                    invariant
                        self.wf(),
                        self.width == old(self).width,
                        self.height == old(self).height,
                        start_y <= y <= start_y + height <= self.height,
                        start_x <= x <= start_x + width - 1,
                        start_x + width <= self.width,
                        wall_points@ == Seq::new(
                            (y - start_y) as nat,
                            |k: int| (x, (start_y + k) as usize),
                        ),
                        forall|a: int, b: int|
                            self.holds(a, b) ==> #[trigger] self.at(a, b) == (if a == x && start_y
                                <= b < y {
                                Cell::Wall
                            } else {
                                old(self).at(a, b)
                            }),
                    decreases start_y + height - y,
                {
                    self.put(x, y, Cell::Wall);
                    wall_points.push((x, y));
                    y += 1;
                    assert(wall_points@ =~= Seq::new(
                        (y - start_y) as nat,
                        |k: int| (x, (start_y + k) as usize),
                    ));
                }
                (x, wall_points)
            },
        }
    }

    /// Opens a passage in a wall: one of its cells, taken by chance among
    /// those in a column of odd number where the wall is horizontal, and
    /// among those in a row of odd number where it is vertical, becomes
    /// empty. Returns the cell, or none where the wall has no such cell.
    fn passage_through(
        &mut self,
        orientation: Orientation,
        wall_points: &Vec<(usize, usize)>,
    ) -> (passage: Option<(usize, usize)>)
        requires
            old(self).wf(),
            forall|k: int|
                0 <= k < wall_points@.len() ==> old(self).holds(
                    (#[trigger] wall_points@[k]).0 as int,
                    wall_points@[k].1 as int,
                ),
        ensures
            final(self).wf(),
            final(self).width == old(self).width,
            final(self).height == old(self).height,
            match passage {
                Some(point) => {
                    &&& wall_points@.contains(point)
                    &&& odd_on_wall(orientation, point)
                    &&& forall|a: int, b: int|
                        final(self).holds(a, b) ==> #[trigger] final(self).at(a, b) == (if a
                            == point.0 && b == point.1 {
                            Cell::Empty
                        } else {
                            old(self).at(a, b)
                        })
                },
                None => {
                    &&& final(self).grid() == old(self).grid()
                    &&& forall|k: int|
                        0 <= k < wall_points@.len() ==> !odd_on_wall(
                            orientation,
                            #[trigger] wall_points@[k],
                        )
                },
            },
    {
        let mut odd_wall_points: Vec<(usize, usize)> = Vec::new();
        let mut k: usize = 0;
        while k < wall_points.len()
            invariant
                k <= wall_points@.len(),
                forall|m: int|
                    0 <= m < odd_wall_points@.len() ==> wall_points@.contains(
                        #[trigger] odd_wall_points@[m],
                    ) && odd_on_wall(orientation, odd_wall_points@[m]),
                odd_wall_points@.len() == 0 ==> forall|j: int|
                    0 <= j < k ==> !odd_on_wall(orientation, #[trigger] wall_points@[j]),
            decreases wall_points@.len() - k,
        {
            let coord = wall_points[k];
            let odd = match orientation {
                // Passages off horizontal walls on odd x-coordinates
                Orientation::Horizontal => coord.0 % 2 != 0,
                // Passages off vertical walls on odd y-coordinates
                Orientation::Vertical => coord.1 % 2 != 0,
            };
            if odd {
                odd_wall_points.push(coord);
            }
            k += 1;
        }

        // Get random point from the vec of valid passage points
        if odd_wall_points.len() > 0 {
            let passage = odd_wall_points[rand_num(0, odd_wall_points.len())];
            assert(wall_points@.contains(passage));

            // Remove the point from the wall to create a passage
            let mut passage_index: Option<usize> = None;
            let mut n: usize = 0;
            while n < wall_points.len() && passage_index.is_none()
                invariant
                    n <= wall_points@.len(),
                    match passage_index {
                        Some(index) => index < wall_points@.len() && wall_points@[index as int]
                            == passage,
                        None => forall|j: int| 0 <= j < n ==> wall_points@[j] != passage,
                    },
                decreases
                        wall_points@.len() - n + (if passage_index.is_none() {
                            1int
                        } else {
                            0int
                        }),
            {
                if wall_points[n].0 == passage.0 && wall_points[n].1 == passage.1 {
                    passage_index = Some(n);
                } else {
                    n += 1;
                }
            }
            if let Some(passage_index) = passage_index {
                let point = wall_points[passage_index];
                self.put(point.0, point.1, Cell::Empty);
                return Some(point);
            }
            proof {
                let found = choose|j: int| 0 <= j < wall_points@.len() && wall_points@[j] == passage;
                assert(wall_points@[found] == passage);
            }
        }
        None
    }

    /// Divides the chamber by a wall with one passage, and then the two
    /// chambers that the wall leaves, until the chambers are too small to be
    /// divided. The wall lies across the longer side of the chamber, in a
    /// row or column of even number taken by chance, and its passage in a
    /// column or row of odd number taken by chance.
    ///
    /// Only cells of the chamber change, and they become walls or empty. In
    /// a chamber that was empty and starts in a row and a column of odd
    /// numbers, the walls are those of recursive division, and whatever
    /// chance gives, a walk inside the chamber leads from any of its cells
    /// that is no wall to any other, and where the chamber has an odd
    /// number of rows and of columns, only one such walk comes to no cell
    /// twice. The chamber must lie on the grid.
    fn generate(&mut self, start_x: usize, width: usize, start_y: usize, height: usize)
        requires
            old(self).wf(),
            start_x + width <= old(self).width,
            start_y + height <= old(self).height,
        ensures
            final(self).wf(),
            final(self).width == old(self).width,
            final(self).height == old(self).height,
            touched(
                old(self).grid(),
                final(self).grid(),
                Maze::chamber(start_x, width, start_y, height),
            ),
            width <= 2 && height <= 2 ==> final(self).grid() == old(self).grid(),
            ready(old(self).grid(), Maze::chamber(start_x, width, start_y, height)) ==> divided(
                final(self).grid(),
                Maze::chamber(start_x, width, start_y, height),
            ) && carved(final(self).grid(), Maze::chamber(start_x, width, start_y, height)),
            ready(old(self).grid(), Maze::chamber(start_x, width, start_y, height)) && odd_sized(
                Maze::chamber(start_x, width, start_y, height),
            ) ==> perfect(final(self).grid(), Maze::chamber(start_x, width, start_y, height)),
        decreases width + height,
    {
        let ghost chamber = Maze::chamber(start_x, width, start_y, height);
        let ghost before = self.grid();
        let orientation = get_orientation(width, height);

        // Return when chamber is minimum size
        if (orientation == Orientation::Horizontal && height <= 2) || (orientation
            == Orientation::Vertical && width <= 2) {
            proof {
                if ready(before, chamber) {
                    lemma_undivided(before, chamber);
                    if odd_sized(chamber) {
                        lemma_division_is_perfect(before, chamber);
                    }
                }
            }
            return ;
        }
        let (wall_at, wall_points) = self.wall_across(orientation, start_x, width, start_y, height);
        let ghost built = *self;
        let passage = self.passage_through(orientation, &wall_points);
        let ghost walled = self.grid();
        let ghost wall = wall_at as int;
        proof {
            self.lemma_cells(before);
            built.lemma_cells(before);
            assert(touched(before, walled, chamber)) by {
                assert forall|at: (int, int)|
                    0 <= at.0 < before.len() && 0 <= at.1 < before[at.0].len() implies (
                #[trigger] chamber.holds(at) || walled[at.0][at.1] == before[at.0][at.1]) && (
                walled[at.0][at.1] == before[at.0][at.1] || walled[at.0][at.1] == Cell::Wall
                    || walled[at.0][at.1] == Cell::Empty) by {
                    assert(self.holds(at.1, at.0));
                    assert(built.holds(at.1, at.0));
                    assert(walled[at.0][at.1] == self.at(at.1, at.0));
                    assert(built.grid()[at.0][at.1] == built.at(at.1, at.0));
                    if passage is Some {
                        let point = passage.unwrap();
                        let k = wall_points@.index_of(point);
                        assert(wall_points@[k] == point);
                    }
                }
            }
        }
        match orientation {
            // If the wall is horizontal, recurse above and below
            Orientation::Horizontal => {
                let ghost gap: int = match passage {
                    Some(point) => point.0 as int,
                    None => 0,
                };
                proof {
                    if ready(before, chamber) {
                        if width > 0 {
                            assert(wall_points@[0] == (start_x, wall_at));
                            assert(odd_on_wall(orientation, wall_points@[0]));
                            let point = passage.unwrap();
                            let k = wall_points@.index_of(point);
                            assert(wall_points@[k] == point);
                            assert(row_walled(before, walled, chamber, wall, gap)) by {
                                assert forall|at: (int, int)|
                                    0 <= at.0 < before.len() && 0 <= at.1
                                        < before[at.0].len() implies #[trigger] walled[at.0][at.1]
                                    == (if at.0 == wall && chamber.x <= at.1 <= chamber.end_x() {
                                    if at.1 == gap {
                                        Cell::Empty
                                    } else {
                                        Cell::Wall
                                    }
                                } else {
                                    before[at.0][at.1]
                                }) by {
                                    assert(self.holds(at.1, at.0));
                                    assert(walled[at.0][at.1] == self.at(at.1, at.0));
                                }
                            }
                            lemma_ready_above(before, walled, chamber, wall, gap);
                        } else {
                            assert(walled =~= before) by {
                                assert forall|r: int| 0 <= r < before.len() implies walled[r]
                                    =~= before[r] by {
                                    assert forall|c: int|
                                        0 <= c < before[r].len() implies walled[r][c]
                                        == before[r][c] by {
                                        assert(built.holds(c, r));
                                        assert(walled[r][c] == built.at(c, r));
                                    }
                                }
                            }
                            assert(ready(walled, chamber.above(wall)));
                        }
                    }
                }
                // Top section
                self.generate(start_x, width, start_y, wall_at - start_y);
                let ghost above_done = self.grid();
                proof {
                    if ready(before, chamber) {
                        if width > 0 {
                            lemma_ready_below(before, walled, above_done, chamber, wall, gap);
                        } else {
                            assert(ready(above_done, chamber.below(wall)));
                        }
                    }
                }
                // Bottom section
                let end_y = start_y + height - 1;
                self.generate(start_x, width, wall_at + 1, end_y - wall_at);
                proof {
                    assert(chamber.above(wall).within(chamber));
                    assert(chamber.below(wall).within(chamber));
                    assert(chamber.within(chamber));
                    lemma_touched_chain(
                        walled,
                        above_done,
                        self.grid(),
                        chamber.above(wall),
                        chamber.below(wall),
                        chamber,
                    );
                    lemma_touched_chain(before, walled, self.grid(), chamber, chamber, chamber);
                    if ready(before, chamber) {
                        if width > 0 {
                            lemma_division_by_row(
                                before,
                                walled,
                                above_done,
                                self.grid(),
                                chamber,
                                wall,
                                gap,
                            );
                        } else {
                            lemma_divided_nothing(self.grid(), chamber);
                        }
                        if odd_sized(chamber) {
                            self.lemma_chamber_on_grid(chamber);
                            lemma_division_is_perfect(self.grid(), chamber);
                        }
                    }
                }
            },
            // If the wall is vertical, recurse left and right
            Orientation::Vertical => {
                let ghost gap: int = match passage {
                    Some(point) => point.1 as int,
                    None => 0,
                };
                proof {
                    if ready(before, chamber) {
                        if height > 0 {
                            assert(wall_points@[0] == (wall_at, start_y));
                            assert(odd_on_wall(orientation, wall_points@[0]));
                            let point = passage.unwrap();
                            let k = wall_points@.index_of(point);
                            assert(wall_points@[k] == point);
                            assert(column_walled(before, walled, chamber, wall, gap)) by {
                                assert forall|at: (int, int)|
                                    0 <= at.0 < before.len() && 0 <= at.1
                                        < before[at.0].len() implies #[trigger] walled[at.0][at.1]
                                    == (if at.1 == wall && chamber.y <= at.0 <= chamber.end_y() {
                                    if at.0 == gap {
                                        Cell::Empty
                                    } else {
                                        Cell::Wall
                                    }
                                } else {
                                    before[at.0][at.1]
                                }) by {
                                    assert(self.holds(at.1, at.0));
                                    assert(walled[at.0][at.1] == self.at(at.1, at.0));
                                }
                            }
                            lemma_ready_left(before, walled, chamber, wall, gap);
                        } else {
                            assert(walled =~= before) by {
                                assert forall|r: int| 0 <= r < before.len() implies walled[r]
                                    =~= before[r] by {
                                    assert forall|c: int|
                                        0 <= c < before[r].len() implies walled[r][c]
                                        == before[r][c] by {
                                        assert(built.holds(c, r));
                                        assert(walled[r][c] == built.at(c, r));
                                    }
                                }
                            }
                            assert(ready(walled, chamber.left_of(wall)));
                        }
                    }
                }
                // Left section
                self.generate(start_x, wall_at - start_x, start_y, height);
                let ghost left_done = self.grid();
                proof {
                    if ready(before, chamber) {
                        if height > 0 {
                            lemma_ready_right(before, walled, left_done, chamber, wall, gap);
                        } else {
                            assert(ready(left_done, chamber.right_of(wall)));
                        }
                    }
                }
                // Right section
                let end_x = start_x + width - 1;
                self.generate(wall_at + 1, end_x - wall_at, start_y, height);
                proof {
                    assert(chamber.left_of(wall).within(chamber));
                    assert(chamber.right_of(wall).within(chamber));
                    assert(chamber.within(chamber));
                    lemma_touched_chain(
                        walled,
                        left_done,
                        self.grid(),
                        chamber.left_of(wall),
                        chamber.right_of(wall),
                        chamber,
                    );
                    lemma_touched_chain(before, walled, self.grid(), chamber, chamber, chamber);
                    if ready(before, chamber) {
                        if height > 0 {
                            lemma_division_by_column(
                                before,
                                walled,
                                left_done,
                                self.grid(),
                                chamber,
                                wall,
                                gap,
                            );
                        } else {
                            lemma_divided_nothing(self.grid(), chamber);
                        }
                        if odd_sized(chamber) {
                            self.lemma_chamber_on_grid(chamber);
                            lemma_division_is_perfect(self.grid(), chamber);
                        }
                    }
                }
            },
        }
    }

    /// A chamber inside the width and the height of the maze lies on its
    /// grid.
    proof fn lemma_chamber_on_grid(&self, chamber: Chamber)
        requires
            self.wf(),
            0 <= chamber.x,
            0 <= chamber.y,
            chamber.x + chamber.width <= self.width,
            chamber.y + chamber.height <= self.height,
        ensures
            on_grid(self.grid(), chamber),
    {
    }

    /// The rows of a maze are as long as the maze is wide, and as long as
    /// those of a grid of its shape.
    proof fn lemma_cells(&self, other: Seq<Seq<Cell>>)
        requires
            self.wf(),
            rectangular(other, self.height as int, self.width as int),
        ensures
            self.grid().len() == other.len(),
            forall|r: int| 0 <= r < other.len() ==> (#[trigger] self.grid()[r]).len() == other[r].len(),
    {
    }

    /// The cell at the position, which must lie on the grid.
    fn get_cell(&self, coords: Coords<usize>) -> (cell: Cell)
        requires
            self.wf(),
            self.holds(coords.x as int, coords.y as int),
        ensures
            cell == self.at(coords.x as int, coords.y as int),
    {
        let y = coords.y;
        let x = coords.x;
        assert(self.grid()[y as int] == self.cells@[y as int]@);
        self.cells[y][x]
    }

    /// Assigns the cell at the position and returns what it holds then.
    fn modify_cell(&mut self, coords: Coords<usize>, value: Cell) -> (cell: Cell)
        requires
            old(self).wf(),
            old(self).holds(coords.x as int, coords.y as int),
        ensures
            cell == value,
            final(self).wf(),
            final(self).is_with(old(self), coords.x as int, coords.y as int, value),
            forall|a: int, b: int|
                final(self).holds(a, b) ==> #[trigger] final(self).at(a, b) == (if a == coords.x
                    && b == coords.y {
                    value
                } else {
                    old(self).at(a, b)
                }),
    {
        let y = coords.y;
        let x = coords.x;
        self.put(x, y, value);
        self.get_cell(coords)
    }

    /// Puts the exit three cells from the right and from the bottom, and the
    /// entry in column two of row two, or in column one of row one where
    /// the exit has that place.
    fn set_default_entry_exit(&mut self)
        requires
            old(self).wf(),
            old(self).width >= 4,
            old(self).height >= 4,
        ensures
            final(self).wf(),
            final(self).width == old(self).width,
            final(self).height == old(self).height,
            forall|a: int, b: int|
                final(self).holds(a, b) ==> #[trigger] final(self).at(a, b) == (if (a, b)
                    == Maze::default_exit(old(self).width as int, old(self).height as int) {
                    Cell::Exit
                } else if (a, b) == Maze::default_entry(
                    old(self).width as int,
                    old(self).height as int,
                ) {
                    Cell::Entry
                } else {
                    old(self).at(a, b)
                }),
    {
        let exit_point = Coords::from(self.width - 3, self.height - 3);
        let entry_point = if exit_point.x == 2 && exit_point.y == 2 {
            Coords::from(1, 1)
        } else {
            Coords::from(2, 2)
        };
        self.set_entry_exit(entry_point, exit_point);
    }

    /// Puts the entry and then the exit.
    fn set_entry_exit(&mut self, entry: Coords<usize>, exit: Coords<usize>)
        requires
            old(self).wf(),
            old(self).holds(entry.x as int, entry.y as int),
            old(self).holds(exit.x as int, exit.y as int),
        ensures
            final(self).wf(),
            final(self).width == old(self).width,
            final(self).height == old(self).height,
            forall|a: int, b: int|
                final(self).holds(a, b) ==> #[trigger] final(self).at(a, b) == (if a == exit.x && b
                    == exit.y {
                    Cell::Exit
                } else if a == entry.x && b == entry.y {
                    Cell::Entry
                } else {
                    old(self).at(a, b)
                }),
    {
        self.modify_cell(entry, Cell::Entry);
        self.modify_cell(exit, Cell::Exit);
    }

    /// What a click that toggles walls makes of a cell: a wall becomes
    /// empty, an entry and an exit stay, and any other cell becomes a wall.
    pub open spec fn toggled(cell: Cell) -> Cell {
        match cell {
            Cell::Wall => Cell::Empty,
            Cell::Entry => Cell::Entry,
            Cell::Exit => Cell::Exit,
            _ => Cell::Wall,
        }
    }

    /// Toggles the cell at the position between wall and empty. The entry
    /// and the exit are left as they are. The position must lie on the grid.
    pub fn create_wall_or_empty(&mut self, coords: Coords<usize>)
        requires
            old(self).wf(),
            old(self).holds(coords.x as int, coords.y as int),
        ensures
            final(self).wf(),
            final(self).is_with(
                old(self),
                coords.x as int,
                coords.y as int,
                Maze::toggled(old(self).at(coords.x as int, coords.y as int)),
            ),
    {
        let current = self.get_cell(coords);
        let next = if current == Cell::Wall {
            Cell::Empty
        } else if current == Cell::Entry || current == Cell::Exit {
            current
        } else {
            Cell::Wall
        };
        self.modify_cell(coords, next);
    }

    /// Exchanges the cells at the two positions, which must lie on the grid.
    pub fn swap_cells(&mut self, cell1: Coords<usize>, cell2: Coords<usize>)
        requires
            old(self).wf(),
            old(self).holds(cell1.x as int, cell1.y as int),
            old(self).holds(cell2.x as int, cell2.y as int),
        ensures
            final(self).wf(),
            final(self).width == old(self).width,
            final(self).height == old(self).height,
            forall|a: int, b: int|
                final(self).holds(a, b) ==> #[trigger] final(self).at(a, b) == (if a == cell2.x
                    && b == cell2.y {
                    old(self).at(cell1.x as int, cell1.y as int)
                } else if a == cell1.x && b == cell1.y {
                    old(self).at(cell2.x as int, cell2.y as int)
                } else {
                    old(self).at(a, b)
                }),
    {
        let old1 = self.get_cell(cell1);
        let old2 = self.get_cell(cell2);
        self.modify_cell(cell1, old2);
        self.modify_cell(cell2, old1);
    }

    /// The grid after the marker `kind`, entry or exit, is moved to the
    /// position `(x, y)` from `(from_x, from_y)`: onto the other marker, the
    /// two exchange their places; onto any other cell, the cell gets the
    /// marker, and the place that held it before becomes empty.
    pub open spec fn with_marker_moved(
        &self,
        kind: Cell,
        other: Cell,
        x: int,
        y: int,
        from_x: int,
        from_y: int,
        a: int,
        b: int,
    ) -> Cell {
        if self.at(x, y) == other {
            if a == from_x && b == from_y {
                other
            } else if a == x && b == y {
                self.at(from_x, from_y)
            } else {
                self.at(a, b)
            }
        } else {
            if a == x && b == y {
                kind
            } else if a == from_x && b == from_y && self.at(from_x, from_y) == kind {
                Cell::Empty
            } else {
                self.at(a, b)
            }
        }
    }

    /// The maze is `other` with the marker `kind`, entry or exit, moved to
    /// the position `(x, y)`.
    pub open spec fn is_with_marker_at(
        &self,
        other: &Maze,
        kind: Cell,
        other_kind: Cell,
        x: int,
        y: int,
    ) -> bool {
        forall|a: int, b: int|
            self.holds(a, b) ==> #[trigger] self.at(a, b) == other.with_marker_moved(
                kind,
                other_kind,
                x,
                y,
                other.position_of(kind).0,
                other.position_of(kind).1,
                a,
                b,
            )
    }

    /// What a click on the cell at the position does, by the kind of cell
    /// that was chosen for clicks: empty and wall toggle the cell between
    /// wall and empty, entry and exit move the marker there. The position
    /// must lie on the grid, and the kind must be none of the marks of a
    /// solver.
    pub fn put_cell_type(&mut self, cell_type: Cell, coords: Coords<usize>)
        requires
            old(self).wf(),
            old(self).holds(coords.x as int, coords.y as int),
            cell_type != Cell::Visited,
            cell_type != Cell::Path,
        ensures
            final(self).wf(),
            final(self).width == old(self).width,
            final(self).height == old(self).height,
            cell_type == Cell::Empty || cell_type == Cell::Wall ==> final(self).is_with(
                old(self),
                coords.x as int,
                coords.y as int,
                Maze::toggled(old(self).at(coords.x as int, coords.y as int)),
            ),
            cell_type == Cell::Entry ==> final(self).is_with_marker_at(
                old(self),
                Cell::Entry,
                Cell::Exit,
                coords.x as int,
                coords.y as int,
            ),
            cell_type == Cell::Exit ==> final(self).is_with_marker_at(
                old(self),
                Cell::Exit,
                Cell::Entry,
                coords.x as int,
                coords.y as int,
            ),
    {
        match cell_type {
            Cell::Visited => {},
            Cell::Path => {},
            Cell::Empty => self.create_wall_or_empty(coords),
            Cell::Wall => self.create_wall_or_empty(coords),
            Cell::Entry => self.change_entry(coords),
            Cell::Exit => self.change_exit(coords),
        }
    }

    /// Moves the entry to the position. Onto the exit, entry and exit
    /// exchange their places. The position must lie on the grid.
    pub fn change_entry(&mut self, entry: Coords<usize>)
        requires
            old(self).wf(),
            old(self).holds(entry.x as int, entry.y as int),
        ensures
            final(self).wf(),
            final(self).width == old(self).width,
            final(self).height == old(self).height,
            final(self).is_with_marker_at(old(self), Cell::Entry, Cell::Exit, entry.x as int, entry.y as int),
    {
        let prev_entry = self.entry();
        if self.get_cell(entry) == Cell::Exit {
            self.swap_cells(entry, prev_entry);
            return ;
        }
        if self.get_cell(prev_entry) == Cell::Entry {
            self.modify_cell(prev_entry, Cell::Empty);
        }
        self.modify_cell(entry, Cell::Entry);
    }

    /// Moves the exit to the position. Onto the entry, exit and entry
    /// exchange their places. The position must lie on the grid.
    pub fn change_exit(&mut self, exit: Coords<usize>)
        requires
            old(self).wf(),
            old(self).holds(exit.x as int, exit.y as int),
        ensures
            final(self).wf(),
            final(self).width == old(self).width,
            final(self).height == old(self).height,
            final(self).is_with_marker_at(old(self), Cell::Exit, Cell::Entry, exit.x as int, exit.y as int),
    {
        let prev_exit = self.exit();
        if self.get_cell(exit) == Cell::Entry {
            self.swap_cells(exit, prev_exit);
            return ;
        }
        if self.get_cell(prev_exit) == Cell::Exit {
            self.modify_cell(prev_exit, Cell::Empty);
        }
        self.modify_cell(exit, Cell::Exit);
    }
}

/// A wall across the longer side: horizontal where the chamber is higher
/// than wide, vertical where it is wider than high, and either, by chance,
/// where it is square.
fn get_orientation(width: usize, height: usize) -> (orientation: Orientation)
    ensures
        width < height ==> orientation == Orientation::Horizontal,
        height < width ==> orientation == Orientation::Vertical,
{
    if width < height {
        Orientation::Horizontal
    } else if height < width {
        Orientation::Vertical
    } else {
        if rand_num(0, 2) == 0 {
            Orientation::Horizontal
        } else {
            Orientation::Vertical
        }
    }
}

} // verus!
