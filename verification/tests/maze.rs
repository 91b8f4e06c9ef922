use algvis::config::MazeConfigValues;
use algvis::coords::Coords;
use algvis::maze_solver_algorithms::dfs::dfs_path_exists;
use algvis::maze_solver_algorithms::dfs::is_path_between;
use algvis::maze_solver_algorithms::dfs::solve_maze_by_dfs;
use algvis::maze_solver_algorithms::dijkstra::dijkstra;
use algvis::maze_solver_algorithms::dijkstra::solve_maze_by_dijkstra;
use algvis::maze_solver_algorithms::dijkstra::DijkstraNode;
use algvis::maze_solver_algorithms::dijkstra::MinQueue;
use algvis::maze_solver_algorithms::step_from;
use algvis::services::maze_generator::Cell;
use algvis::services::maze_generator::Maze;
use algvis::services::mazer::MazeAlgorithm;
use algvis::services::mazer::MazeAlgorithmsEnum;
use algvis::services::mazer::MazeStep;
use algvis::services::mazer::Mazer;
use algvis::services::playable::Playable;
use algvis::services::playable::StepTime;
use algvis::sorting_algorithms::merge_sort::merge_sort;
use algvis::steps::SortType;
use std::collections::VecDeque;

/// A maze from a picture: `#` is a wall, `S` the entry, `E` the exit, and
/// anything else is empty.
fn maze_of(picture: &[&str]) -> Maze {
    let cells: Vec<Vec<Cell>> = picture
        .iter()
        .map(|row| {
            row.chars()
                .map(|c| match c {
                    '#' => Cell::Wall,
                    'S' => Cell::Entry,
                    'E' => Cell::Exit,
                    _ => Cell::Empty,
                })
                .collect()
        })
        .collect();
    Maze { width: picture[0].len(), height: picture.len(), cells }
}

fn config(size: usize, seconds: i32, algorithm: &str) -> MazeConfigValues {
    MazeConfigValues {
        time_overall: seconds,
        current_algorithm_name: algorithm.to_string(),
        size,
        cell_type: Cell::Entry,
        current_step: 0,
    }
}

fn adjacent(a: (usize, usize), b: (usize, usize)) -> bool {
    a.0.abs_diff(b.0) + a.1.abs_diff(b.1) == 1
}

/// Checks that the cells lead from `from` to `to` by steps onto cells that
/// are no walls.
fn assert_walk(maze: &Maze, walk: &[(usize, usize)], from: (usize, usize), to: (usize, usize)) {
    assert_eq!(walk.first(), Some(&from));
    assert_eq!(walk.last(), Some(&to));
    for pair in walk.windows(2) {
        assert!(adjacent(pair[0], pair[1]), "{:?} is no step", pair);
        assert_ne!(maze.cells[pair[1].0][pair[1].1], Cell::Wall);
    }
}

/// The length of a shortest walk, by a search of its own.
fn shortest(maze: &Maze, from: (usize, usize), to: (usize, usize)) -> Option<usize> {
    let mut distance = vec![vec![usize::MAX; maze.width]; maze.height];
    let mut queue = VecDeque::new();
    distance[from.0][from.1] = 0;
    queue.push_back(from);
    while let Some((r, c)) = queue.pop_front() {
        if (r, c) == to {
            return Some(distance[r][c]);
        }
        let mut next = vec![(r + 1, c), (r, c + 1)];
        if r > 0 {
            next.push((r - 1, c));
        }
        if c > 0 {
            next.push((r, c - 1));
        }
        for (nr, nc) in next {
            if nr < maze.height
                && nc < maze.width
                && maze.cells[nr][nc] != Cell::Wall
                && distance[nr][nc] == usize::MAX
            {
                distance[nr][nc] = distance[r][c] + 1;
                queue.push_back((nr, nc));
            }
        }
    }
    None
}

fn replay(initial: &[Vec<Cell>], log: &VecDeque<MazeStep>) -> Vec<Vec<Cell>> {
    let mut cells = initial.to_vec();
    for step in log.iter().rev() {
        let (x, y) = (step.coords.x, step.coords.y);
        if cells[y][x] != Cell::Entry && cells[y][x] != Cell::Exit {
            cells[y][x] = step.cell_type;
        }
    }
    cells
}

#[test]
fn test_maze_generation() {
    let width = 30;
    let height = 30;
    let maze = Maze::new(width, height);

    // Check that the maze has the correct dimensions
    assert_eq!(maze.cells.len(), height);
    for row in maze.cells.iter() {
        assert_eq!(row.len(), width);
    }

    // Check that there is a path from entry to exit
    let (_path, has_path, ..) = is_path_between(&maze, maze.entry(), maze.exit());
    assert!(has_path);
}

#[test]
fn a_new_maze_has_walls_on_its_border_and_an_entry_and_an_exit_inside() {
    for (width, height) in [(4, 4), (5, 6), (6, 5), (7, 7), (10, 21), (35, 35), (101, 101)] {
        let maze = Maze::new(width, height);
        assert!(maze.is_rectangular());
        assert_eq!((maze.width, maze.height), (width, height));
        for y in 0..height {
            for x in 0..width {
                let cell = maze.cells[y][x];
                if x == 0 || y == 0 || x == width - 1 || y == height - 1 {
                    assert_eq!(cell, Cell::Wall);
                }
                assert!(cell != Cell::Visited && cell != Cell::Path);
            }
        }
        assert_eq!(maze.cells[2][2], Cell::Entry);
        assert_eq!(maze.cells[height - 3][width - 3], Cell::Exit);
        let entry = maze.entry();
        let exit = maze.exit();
        assert_eq!((entry.x, entry.y), (2, 2));
        assert_eq!((exit.x, exit.y), (width - 3, height - 3));
        assert_only_markers(&maze, (2, 2), (width - 3, height - 3));
    }
}

fn assert_only_markers(maze: &Maze, entry: (usize, usize), exit: (usize, usize)) {
    for y in 0..maze.height {
        for x in 0..maze.width {
            let cell = maze.cells[y][x];
            if (x, y) == exit {
                assert_eq!(cell, Cell::Exit);
            } else if (x, y) == entry {
                assert_eq!(cell, Cell::Entry);
            } else {
                assert!(cell == Cell::Wall || cell == Cell::Empty);
            }
        }
    }
}

#[test]
fn a_new_maze_of_five_by_five_has_its_entry_beside_the_corner() {
    for _ in 0..20 {
        let maze = Maze::new(5, 5);
        let entry = maze.entry();
        let exit = maze.exit();
        assert_eq!((entry.x, entry.y), (1, 1));
        assert_eq!((exit.x, exit.y), (2, 2));
        assert_only_markers(&maze, (1, 1), (2, 2));
        for y in 0..5 {
            for x in 0..5 {
                if x == 0 || y == 0 || x == 4 || y == 4 {
                    assert_eq!(maze.cells[y][x], Cell::Wall);
                }
            }
        }
        let (path, found, _visited, _steps) = is_path_between(&maze, entry, exit);
        assert!(found);
        assert!(!path.is_empty());
        let mut maze_path = Vec::new();
        let mut steps = VecDeque::new();
        let (walk, dist) = dijkstra(&maze, entry, exit, &mut maze_path, &mut steps);
        assert!(walk.is_some());
        assert_eq!(dist, Some(2));
    }
}

/// The walls that recursive division builds in the chamber, or the reason
/// why the chamber is not one that it built.
fn built(maze: &Maze, x: usize, width: usize, y: usize, height: usize) -> Result<(), String> {
    let cell = |r: usize, c: usize| match maze.cells[r][c] {
        Cell::Wall => Cell::Wall,
        _ => Cell::Empty,
    };
    if width == 0 || height == 0 {
        return Ok(());
    }
    if width <= 2 && height <= 2 {
        for r in y..y + height {
            for c in x..x + width {
                if cell(r, c) != Cell::Empty {
                    return Err(format!("a wall in a small chamber at {},{}", c, r));
                }
            }
        }
        return Ok(());
    }
    if width <= height {
        for wall in (y + 1..y + height).filter(|w| w % 2 == 0) {
            let gaps: Vec<usize> = (x..x + width).filter(|&c| cell(wall, c) == Cell::Empty).collect();
            if gaps.len() == 1
                && gaps[0] % 2 == 1
                && built(maze, x, width, y, wall - y).is_ok()
                && built(maze, x, width, wall + 1, y + height - 1 - wall).is_ok()
            {
                return Ok(());
            }
        }
    }
    if height <= width {
        for wall in (x + 1..x + width).filter(|w| w % 2 == 0) {
            let gaps: Vec<usize> = (y..y + height).filter(|&r| cell(r, wall) == Cell::Empty).collect();
            if gaps.len() == 1
                && gaps[0] % 2 == 1
                && built(maze, x, wall - x, y, height).is_ok()
                && built(maze, wall + 1, x + width - 1 - wall, y, height).is_ok()
            {
                return Ok(());
            }
        }
    }
    Err(format!("no wall across the chamber at {},{} of {}x{}", x, y, width, height))
}

#[test]
fn a_new_maze_holds_the_walls_of_recursive_division() {
    for (width, height) in [(7, 7), (9, 9), (11, 15), (21, 21), (35, 35)] {
        for _ in 0..5 {
            let mut maze = Maze::new(width, height);
            // odd sizes: the entry and the exit may stand where a wall was
            let mut results = Vec::new();
            for entry in [Cell::Wall, Cell::Empty] {
                for exit in [Cell::Wall, Cell::Empty] {
                    maze.cells[2][2] = entry;
                    maze.cells[height - 3][width - 3] = exit;
                    results.push(built(&maze, 1, width - 2, 1, height - 2));
                }
            }
            assert!(results.iter().any(|r| r.is_ok()), "{:?}", results);
            let walls = maze.cells.iter().flatten().filter(|c| **c == Cell::Wall).count();
            assert!(walls > 2 * (width + height) - 4);
        }
    }
}

#[test]
fn the_walls_of_a_new_maze_lie_in_even_rows_and_columns() {
    for _ in 0..20 {
        let maze = Maze::new(21, 21);
        for y in (1..20).step_by(2) {
            for x in (1..20).step_by(2) {
                assert_ne!(maze.cells[y][x], Cell::Wall);
            }
        }
    }
}

#[test]
fn generated_mazes_have_a_walk_from_the_entry_to_the_exit() {
    let mut sizes: Vec<(usize, usize)> = Vec::new();
    for size in 6..=41 {
        sizes.push((size, size));
    }
    sizes.extend([(4, 4), (4, 9), (9, 4), (5, 6), (6, 5), (51, 51), (20, 61), (77, 34), (101, 101)]);
    for (width, height) in sizes {
        for _ in 0..3 {
            let maze = Maze::new(width, height);
            let entry = maze.entry();
            let exit = maze.exit();
            let from = (entry.y, entry.x);
            let to = (exit.y, exit.x);
            let least = shortest(&maze, from, to).expect("no walk");

            let (path, found, _visited, _steps) = is_path_between(&maze, entry, exit);
            assert!(found, "depth-first search in {}x{}", width, height);
            let mut walk: Vec<(usize, usize)> = path.iter().rev().cloned().collect();
            walk.push(to);
            assert_walk(&maze, &walk, from, to);
            assert!(walk.len() - 1 >= least);

            let mut maze_path = Vec::new();
            let mut steps = VecDeque::new();
            let (walk, dist) = dijkstra(&maze, entry, exit, &mut maze_path, &mut steps);
            let walk: Vec<(usize, usize)> =
                walk.expect("no walk").iter().map(|c| (c.y, c.x)).collect();
            assert_walk(&maze, &walk, from, to);
            assert_eq!(dist, Some(least as u32));
            assert_eq!(walk.len() - 1, least);
            let backwards: Vec<(usize, usize)> = walk.iter().rev().cloned().collect();
            assert_eq!(maze_path, backwards);
        }
    }
}

#[test]
fn the_depth_first_search_in_a_maze_of_five_by_five() {
    let maze = maze_of(&[
        "#####", //
        "S   #", //
        "# # #", //
        "#  E#", //
        "#####", //
    ]);
    let entry = maze.entry();
    let exit = maze.exit();
    assert_eq!((entry.x, entry.y), (0, 1));
    assert_eq!((exit.x, exit.y), (3, 3));
    let (path, found, visited, steps) = is_path_between(&maze, entry, exit);
    assert!(found);
    // the search looks right first, then left, down and up
    assert_eq!(path, vec![(2, 3), (1, 3), (1, 2), (1, 1), (1, 0)]);
    let mut walk: Vec<(usize, usize)> = path.iter().rev().cloned().collect();
    walk.push((3, 3));
    assert_walk(&maze, &walk, (1, 0), (3, 3));

    let shown = replay(&maze.cells, &steps);
    for y in 0..5 {
        for x in 0..5 {
            let expected = if maze.cells[y][x] == Cell::Entry || maze.cells[y][x] == Cell::Exit {
                maze.cells[y][x]
            } else if path.contains(&(y, x)) {
                Cell::Path
            } else if visited[y][x] {
                Cell::Visited
            } else {
                maze.cells[y][x]
            };
            assert_eq!(shown[y][x], expected, "cell {} of row {}", x, y);
        }
    }
    assert_eq!(shown[1][1], Cell::Path);
    assert_eq!(shown[1][0], Cell::Entry);
    assert!(!visited[3][3]);
    // one step for each cell that the search came to, one for each cell of the path
    let came_to = visited.iter().flatten().filter(|&&mark| mark).count();
    assert_eq!(steps.len(), came_to + path.len());
    assert_eq!(
        steps.front(),
        Some(&MazeStep { coords: Coords::from(0, 1), cell_type: Cell::Path })
    );
}

#[test]
fn the_depth_first_search_marks_a_dead_end_as_visited_only() {
    let maze = maze_of(&[
        "#######", //
        "#S    #", //
        "# ### #", //
        "#   #E#", //
        "#######", //
    ]);
    let (path, found, visited, steps) = is_path_between(&maze, maze.entry(), maze.exit());
    assert!(found);
    assert_eq!(path, vec![(2, 5), (1, 5), (1, 4), (1, 3), (1, 2), (1, 1)]);
    let shown = replay(&maze.cells, &steps);
    assert_eq!(shown[1][1], Cell::Entry);
    assert_eq!(shown[3][5], Cell::Exit);
    for x in 2..=5 {
        assert_eq!(shown[1][x], Cell::Path);
    }
    assert_eq!(shown[2][5], Cell::Path);
    // the way down on the left is never taken: the walk to the right is found first
    assert!(!visited[2][1]);
    assert_eq!(shown[2][1], Cell::Empty);

    // from the cell below the entry, the dead end is visited first
    let maze = maze_of(&[
        "#####", //
        "#  E#", //
        "#S###", //
        "#  ##", //
        "#####", //
    ]);
    let (path, found, visited, steps) = is_path_between(&maze, maze.entry(), maze.exit());
    assert!(found);
    assert_eq!(path, vec![(1, 2), (1, 1), (2, 1)]);
    assert!(visited[3][1] && visited[3][2]);
    let shown = replay(&maze.cells, &steps);
    assert_eq!(shown[3][1], Cell::Visited);
    assert_eq!(shown[3][2], Cell::Visited);
    assert_eq!(shown[1][1], Cell::Path);
    assert_eq!(shown[1][2], Cell::Path);
}

#[test]
fn the_steps_of_the_depth_first_search_come_in_the_order_of_the_search() {
    let maze = maze_of(&[
        "####", //
        "#SE#", //
        "####", //
    ]);
    let (path, steps) = solve_maze_by_dfs(&maze, maze.entry(), maze.exit());
    assert_eq!(path, vec![(1, 1)]);
    let chronological: Vec<MazeStep> = steps.iter().rev().cloned().collect();
    assert_eq!(
        chronological,
        vec![
            MazeStep { coords: Coords::from(1, 1), cell_type: Cell::Visited },
            MazeStep { coords: Coords::from(1, 1), cell_type: Cell::Path },
        ]
    );
}

#[test]
fn where_no_walk_leads_to_the_exit_the_solvers_find_none() {
    let maze = maze_of(&[
        "#####", //
        "#S#E#", //
        "#####", //
    ]);
    let (path, found, visited, steps) = is_path_between(&maze, maze.entry(), maze.exit());
    assert!(!found);
    assert!(path.is_empty());
    assert!(visited[1][1]);
    assert_eq!(steps.len(), 1);

    let mut maze_path = Vec::new();
    let mut steps = VecDeque::new();
    let result = dijkstra(&maze, maze.entry(), maze.exit(), &mut maze_path, &mut steps);
    assert_eq!(result, (None, None));
    assert!(maze_path.is_empty());
    assert_eq!(steps.len(), 1);
    let (path, _steps) = solve_maze_by_dijkstra(&maze, maze.entry(), maze.exit());
    assert!(path.is_empty());
}

#[test]
fn a_search_from_the_exit_itself_finds_it_at_once() {
    let maze = maze_of(&[
        "###", //
        "#E#", //
        "###", //
    ]);
    let at = Coords::from(1, 1);
    let (path, found, _visited, steps) = is_path_between(&maze, at, at);
    assert!(found);
    assert!(path.is_empty());
    assert!(steps.is_empty());
    let mut maze_path = Vec::new();
    let mut steps = VecDeque::new();
    let (walk, dist) = dijkstra(&maze, at, at, &mut maze_path, &mut steps);
    assert_eq!(walk, Some(vec![at]));
    assert_eq!(dist, Some(0));
    assert_eq!(maze_path, vec![(1, 1)]);
}

#[test]
fn a_search_may_start_on_a_wall() {
    let maze = maze_of(&[
        "####", //
        "# E#", //
        "####", //
    ]);
    let (path, found, ..) = is_path_between(&maze, Coords::from(0, 1), maze.exit());
    assert!(found);
    assert_eq!(path, vec![(1, 1), (1, 0)]);
}

#[test]
fn the_depth_first_search_goes_on_from_marks_that_it_is_given() {
    let maze = maze_of(&[
        "#####", //
        "#   #", //
        "#####", //
    ]);
    let mut visited = vec![vec![false; 5]; 3];
    visited[1][2] = true;
    let mut path = vec![(9, 9)];
    let mut steps = VecDeque::new();
    let found = dfs_path_exists(
        &maze,
        &mut visited,
        Coords::from(1, 1),
        Coords::from(3, 1),
        &mut path,
        &mut steps,
    );
    assert!(!found);
    assert_eq!(path, vec![(9, 9)]);
    assert!(visited[1][1]);
}

#[test]
fn dijkstra_finds_a_shortest_walk() {
    let maze = maze_of(&[
        "#########", //
        "#S      #", //
        "# ##### #", //
        "#   #   #", //
        "### # # #", //
        "#     #E#", //
        "#########", //
    ]);
    let entry = maze.entry();
    let exit = maze.exit();
    let mut maze_path = vec![(0, 0)];
    let mut steps = VecDeque::new();
    let (walk, dist) = dijkstra(&maze, entry, exit, &mut maze_path, &mut steps);
    let walk: Vec<(usize, usize)> = walk.unwrap().iter().map(|c| (c.y, c.x)).collect();
    assert_walk(&maze, &walk, (1, 1), (5, 7));
    assert_eq!(dist, Some(10));
    assert_eq!(walk.len(), 11);
    assert_eq!(shortest(&maze, (1, 1), (5, 7)), Some(10));
    assert_eq!(maze_path[0], (0, 0));
    let backwards: Vec<(usize, usize)> = walk.iter().rev().cloned().collect();
    assert_eq!(&maze_path[1..], &backwards[..]);

    // the first step marks the start, the last steps mark the walk from its end
    let chronological: Vec<MazeStep> = steps.iter().rev().cloned().collect();
    assert_eq!(chronological[0], MazeStep { coords: entry, cell_type: Cell::Visited });
    let visits = chronological.iter().filter(|s| s.cell_type == Cell::Visited).count();
    assert_eq!(visits + walk.len(), chronological.len());
    for (step, at) in chronological[visits..].iter().zip(backwards.iter()) {
        assert_eq!(step.cell_type, Cell::Path);
        assert_eq!((step.coords.y, step.coords.x), *at);
    }
    // no cell is visited twice
    for (k, step) in chronological[..visits].iter().enumerate() {
        assert!(!chronological[..k].contains(step));
    }
    let shown = replay(&maze.cells, &steps);
    for at in &walk[1..walk.len() - 1] {
        assert_eq!(shown[at.0][at.1], Cell::Path);
    }
    assert_eq!(shown[1][1], Cell::Entry);
    assert_eq!(shown[5][7], Cell::Exit);
}

#[test]
fn the_depth_first_walk_need_not_be_a_shortest_one() {
    let maze = maze_of(&[
        "#####", //
        "#S  #", //
        "#   #", //
        "#E  #", //
        "#####", //
    ]);
    let (path, found, ..) = is_path_between(&maze, maze.entry(), maze.exit());
    assert!(found);
    let (shortest_path, _) = solve_maze_by_dijkstra(&maze, maze.entry(), maze.exit());
    assert_eq!(shortest_path.len() - 1, 2);
    assert!(path.len() > 2);
}

#[test]
fn the_queue_hands_out_the_nearest_node_that_has_waited_longest() {
    let mut queue = MinQueue::new();
    assert!(queue.pop().is_none());
    for (x, distance) in [(0, 3), (1, 1), (2, 2), (3, 1), (4, 0)] {
        queue.push(DijkstraNode { coords: Coords::from(x, 0), distance });
    }
    let mut order = Vec::new();
    while let Some(node) = queue.pop() {
        order.push((node.coords.x, node.distance));
    }
    assert_eq!(order, vec![(4, 0), (1, 1), (3, 1), (2, 2), (0, 3)]);
}

#[test]
fn a_step_from_a_cell() {
    assert_eq!(step_from(3, 4, 0, 1), Some((3, 5)));
    assert_eq!(step_from(3, 4, 0, -1), Some((3, 3)));
    assert_eq!(step_from(3, 4, 1, 0), Some((4, 4)));
    assert_eq!(step_from(3, 4, -1, 0), Some((2, 4)));
    assert_eq!(step_from(0, 4, -1, 0), None);
    assert_eq!(step_from(3, 0, 0, -1), None);
    assert_eq!(step_from(usize::MAX, 0, 1, 0), None);
    assert_eq!(step_from(0, usize::MAX, 0, 1), None);
}

#[test]
fn the_kinds_of_cell() {
    assert_eq!(
        Cell::iterator(),
        vec![Cell::Visited, Cell::Path, Cell::Empty, Cell::Wall, Cell::Entry, Cell::Exit]
    );
    let names: Vec<&str> = Cell::iterator().iter().map(|cell| cell.as_name()).collect();
    assert_eq!(names, vec!["Visited", "Path", "Empty", "Wall", "Entry", "Exit"]);
    let colors: Vec<&str> = Cell::iterator().iter().map(|cell| cell.as_color()).collect();
    assert_eq!(
        colors,
        vec!["#ff9933", "#a0e6f2", "#f5f5f5", "#cc0000", "#ffd700", "#00ff00"]
    );
}

#[test]
fn a_step_weighs_one() {
    assert_eq!(Maze::new(4, 4).get_weight(), 1);
}

#[test]
fn a_click_toggles_a_wall() {
    let mut maze = maze_of(&[
        "####", //
        "#SE#", //
        "#  #", //
        "####", //
    ]);
    maze.create_wall_or_empty(Coords::from(1, 2));
    assert_eq!(maze.cells[2][1], Cell::Wall);
    maze.create_wall_or_empty(Coords::from(1, 2));
    assert_eq!(maze.cells[2][1], Cell::Empty);
    maze.create_wall_or_empty(Coords::from(0, 0));
    assert_eq!(maze.cells[0][0], Cell::Empty);
    maze.cells[2][2] = Cell::Visited;
    maze.create_wall_or_empty(Coords::from(2, 2));
    assert_eq!(maze.cells[2][2], Cell::Wall);
    // the entry and the exit are left as they are
    maze.create_wall_or_empty(Coords::from(1, 1));
    maze.create_wall_or_empty(Coords::from(2, 1));
    assert_eq!(maze.cells[1][1], Cell::Entry);
    assert_eq!(maze.cells[1][2], Cell::Exit);
}

#[test]
fn the_entry_moves_and_leaves_its_place_empty() {
    let mut maze = maze_of(&[
        "####", //
        "#SE#", //
        "#  #", //
        "####", //
    ]);
    maze.change_entry(Coords::from(1, 2));
    assert_eq!(maze.cells[2][1], Cell::Entry);
    assert_eq!(maze.cells[1][1], Cell::Empty);
    assert_eq!(maze.cells[1][2], Cell::Exit);
    // onto a wall
    maze.change_entry(Coords::from(0, 0));
    assert_eq!(maze.cells[0][0], Cell::Entry);
    assert_eq!(maze.cells[2][1], Cell::Empty);
    // onto itself
    maze.change_entry(Coords::from(0, 0));
    assert_eq!(maze.cells[0][0], Cell::Entry);
    maze.change_exit(Coords::from(2, 2));
    assert_eq!(maze.cells[2][2], Cell::Exit);
    assert_eq!(maze.cells[1][2], Cell::Empty);
}

#[test]
fn the_entry_and_the_exit_exchange_their_places() {
    let mut maze = maze_of(&[
        "####", //
        "#SE#", //
        "####", //
    ]);
    maze.change_entry(Coords::from(2, 1));
    assert_eq!(maze.cells[1][2], Cell::Entry);
    assert_eq!(maze.cells[1][1], Cell::Exit);
    maze.change_exit(Coords::from(2, 1));
    assert_eq!(maze.cells[1][2], Cell::Exit);
    assert_eq!(maze.cells[1][1], Cell::Entry);
    maze.swap_cells(Coords::from(0, 0), Coords::from(1, 1));
    assert_eq!(maze.cells[0][0], Cell::Entry);
    assert_eq!(maze.cells[1][1], Cell::Wall);
}

#[test]
fn a_marker_that_the_maze_does_not_hold_is_put_and_nothing_is_cleared() {
    let mut maze = maze_of(&[
        "####", //
        "#  #", //
        "####", //
    ]);
    maze.change_entry(Coords::from(1, 1));
    assert_eq!(maze.cells[1][1], Cell::Entry);
    assert_eq!(maze.cells[0][0], Cell::Wall);
    maze.change_exit(Coords::from(2, 1));
    assert_eq!(maze.cells[1][2], Cell::Exit);
    assert_eq!(maze.cells[0][0], Cell::Wall);
}

#[test]
fn the_first_entry_row_by_row_is_the_entry() {
    let maze = maze_of(&[
        "####", //
        "# S#", //
        "#SE#", //
        "####", //
    ]);
    assert_eq!((maze.entry().x, maze.entry().y), (2, 1));
    assert_eq!((maze.exit().x, maze.exit().y), (2, 2));
    let none = maze_of(&["##", "##"]);
    assert_eq!((none.entry().x, none.entry().y), (0, 0));
    assert_eq!((none.exit().x, none.exit().y), (0, 0));
}

#[test]
fn a_maze_is_reset_to_a_new_one_of_the_size_of_the_configuration() {
    let mut maze = Maze::new(4, 4);
    maze.reset(&config(9, 1, "dfs"));
    assert_eq!((maze.width, maze.height), (9, 9));
    assert!(maze.is_rectangular());
    assert_eq!(maze.cells[2][2], Cell::Entry);
    assert_eq!(maze.cells[6][6], Cell::Exit);
}

#[test]
fn a_grid_with_rows_of_different_lengths_is_not_rectangular() {
    let mut maze = maze_of(&["###", "###"]);
    assert!(maze.is_rectangular());
    maze.cells[1].push(Cell::Wall);
    assert!(!maze.is_rectangular());
    maze.cells[1].pop();
    maze.height = 3;
    assert!(!maze.is_rectangular());
}

#[test]
fn a_solver_is_found_by_its_name() {
    assert_eq!(
        MazeAlgorithmsEnum::from_string("dijkstra".to_string()),
        Ok(MazeAlgorithmsEnum::Dijkstra)
    );
    assert_eq!(MazeAlgorithmsEnum::from_string("dfs".to_string()), Ok(MazeAlgorithmsEnum::DFS));
    for name in ["", "DFS", "bfs", "dijkstra "] {
        assert_eq!(MazeAlgorithmsEnum::from_string(name.to_string()), Err("Invalid variant"));
    }
    assert_eq!(MazeAlgorithm::from(&config(5, 1, "dfs")), MazeAlgorithmsEnum::DFS);
    assert_eq!(MazeAlgorithm::from(&config(5, 1, "dijkstra")), MazeAlgorithmsEnum::Dijkstra);
    assert_eq!(MazeAlgorithm::from(&config(5, 1, "a star")), MazeAlgorithmsEnum::Dijkstra);
}

#[test]
fn the_registry_runs_the_solver_of_the_name() {
    let maze = maze_of(&[
        "#####", //
        "#S  #", //
        "#   #", //
        "#E  #", //
        "#####", //
    ]);
    let (entry, exit) = (maze.entry(), maze.exit());
    let (path, _) = MazeAlgorithm::run(&config(5, 1, "dijkstra"), &maze, entry, exit);
    assert_eq!(path, vec![(3, 1), (2, 1), (1, 1)]);
    let (path, _) = MazeAlgorithm::run(&config(5, 1, "no such solver"), &maze, entry, exit);
    assert_eq!(path, vec![(3, 1), (2, 1), (1, 1)]);
    let (path, _) = MazeAlgorithm::run(&config(5, 1, "dfs"), &maze, entry, exit);
    assert_eq!(path.last(), Some(&(1, 1)));
    assert!(path.len() > 2);
    let (path, _) = MazeAlgorithm::from_enum(MazeAlgorithmsEnum::DFS, &maze, entry, exit);
    assert!(path.len() > 2);
}

fn mazer_of(picture: &[&str], algorithm: &str) -> Mazer {
    let maze = maze_of(picture);
    let mut mazer = Mazer {
        width: maze.width,
        height: maze.height,
        initial_cells: maze.cells.clone(),
        maze,
        path: Vec::new(),
        steps: VecDeque::new(),
        steps_time: StepTime { millis: 0, steps: 0 },
        is_playing: false,
        active_step: 0,
    };
    mazer.solve(&config(picture.len(), 1, algorithm));
    mazer
}

const CORRIDOR: [&str; 3] = [
    "######", //
    "#S  E#", //
    "######", //
];

#[test]
fn a_new_mazer_has_a_maze_and_an_empty_log() {
    let mazer = Mazer::new(&config(11, 2, "dfs"));
    assert_eq!((mazer.width, mazer.height), (11, 11));
    assert_eq!((mazer.maze.width, mazer.maze.height), (11, 11));
    assert!(mazer.maze.is_rectangular());
    assert!(mazer.steps.is_empty());
    assert!(mazer.path.is_empty());
    assert_eq!(mazer.initial_cells, mazer.maze.cells);
    assert_eq!(mazer.active_step, 0);
    assert!(!mazer.is_playing);
    assert_eq!(mazer.get_final_step(), 0);
    assert_eq!(mazer.tick_time(), 0);
}

#[test]
fn solve_rests_at_the_final_step_with_the_whole_log_applied() {
    for algorithm in ["dfs", "dijkstra"] {
        let mut mazer = Mazer::new(&config(15, 2, algorithm));
        let generated = mazer.maze.cells.clone();
        mazer.solve(&config(15, 2, algorithm));
        assert_eq!(mazer.initial_cells, generated);
        assert!(!mazer.steps.is_empty());
        assert!(!mazer.path.is_empty());
        assert_eq!(mazer.get_final_step() as usize, mazer.steps.len());
        assert_eq!(mazer.active_step as usize, mazer.steps.len());
        assert_eq!(mazer.get_steps_len_string(), mazer.steps.len().to_string());
        assert_eq!(mazer.get_active_step_string(), mazer.steps.len().to_string());
        assert!(mazer.show_path_line());
        assert_eq!((mazer.width, mazer.height), (15, 15));
        assert_eq!(mazer.maze.cells, replay(&generated, &mazer.steps));
        assert_eq!(mazer.maze.cells[2][2], Cell::Entry);
        assert_eq!(mazer.maze.cells[12][12], Cell::Exit);
        for &(row, col) in mazer.path.iter() {
            let cell = mazer.maze.cells[row][col];
            assert!(cell == Cell::Path || cell == Cell::Entry || cell == Cell::Exit);
        }
    }
}

#[test]
fn the_replay_of_a_mazer_leaves_the_entry_and_the_exit_as_they_are() {
    let mut mazer = mazer_of(&CORRIDOR, "dijkstra");
    assert_eq!(mazer.path, vec![(1, 4), (1, 3), (1, 2), (1, 1)]);
    assert_eq!(mazer.steps.len(), 8);
    assert_eq!(mazer.active_step, 8);
    let row = |mazer: &Mazer| mazer.maze.cells[1][1..5].to_vec();
    assert_eq!(row(&mazer), vec![Cell::Entry, Cell::Path, Cell::Path, Cell::Exit]);
    mazer.set_step(0);
    assert_eq!(row(&mazer), vec![Cell::Entry, Cell::Empty, Cell::Empty, Cell::Exit]);
    mazer.set_step(2);
    assert_eq!(row(&mazer), vec![Cell::Entry, Cell::Visited, Cell::Empty, Cell::Exit]);
    mazer.set_step(4);
    assert_eq!(row(&mazer), vec![Cell::Entry, Cell::Visited, Cell::Visited, Cell::Exit]);
    mazer.set_step(6);
    assert_eq!(row(&mazer), vec![Cell::Entry, Cell::Visited, Cell::Path, Cell::Exit]);
    mazer.set_step(100);
    assert_eq!(mazer.active_step, 8);
    assert_eq!(row(&mazer), vec![Cell::Entry, Cell::Path, Cell::Path, Cell::Exit]);
    let output = mazer.get_output_by_step(3);
    assert_eq!(output[1][1..5], [Cell::Entry, Cell::Visited, Cell::Visited, Cell::Exit]);
    assert_eq!(mazer.active_step, 8);
    mazer.set_step(3);
    assert_eq!(mazer.maze.cells, output);
    assert_eq!(mazer.get_output_by_step(3), output);
}

#[test]
fn the_active_item_of_a_mazer_is_the_step_at_the_place_of_the_cursor() {
    let mut mazer = mazer_of(&CORRIDOR, "dijkstra");
    mazer.set_step(0);
    assert_eq!(
        mazer.get_active_step_item(),
        MazeStep { coords: Coords::from(1, 1), cell_type: Cell::Path }
    );
    mazer.set_step(7);
    assert_eq!(
        mazer.get_active_step_item(),
        MazeStep { coords: Coords::from(1, 1), cell_type: Cell::Visited }
    );
}

#[test]
fn a_mazer_plays_from_the_first_step_to_the_end_of_its_log() {
    let mut mazer = mazer_of(&CORRIDOR, "dijkstra");
    assert!(mazer.show_path_line());
    mazer.play(&config(3, 1, "dijkstra"));
    assert!(mazer.is_playing);
    assert!(!mazer.show_path_line());
    assert_eq!(mazer.active_step, 0);
    assert_eq!(mazer.maze.cells[1][2], Cell::Empty);
    assert_eq!(mazer.steps_time, StepTime { millis: 1000, steps: 8 });
    assert_eq!(mazer.tick_time(), 125);
    for step in 1..8 {
        mazer.tick();
        assert_eq!(mazer.active_step, step);
        assert!(mazer.is_playing);
    }
    mazer.tick();
    assert!(!mazer.is_playing);
    assert_eq!(mazer.active_step, 8);
    assert_eq!(mazer.steps_time, StepTime { millis: 0, steps: 0 });
    assert!(mazer.show_path_line());
    assert_eq!(mazer.maze.cells[1][2], Cell::Path);
    let rested = mazer.clone();
    for _ in 0..3 {
        mazer.tick();
        assert_eq!(mazer, rested);
    }
}

#[test]
fn tick_at_the_end_of_the_log_brings_the_mazer_to_rest_where_it_stands() {
    let mut mazer = mazer_of(&CORRIDOR, "dijkstra");
    mazer.set_step(8);
    mazer.is_playing = true;
    let cells = mazer.maze.cells.clone();
    mazer.tick();
    assert!(!mazer.is_playing);
    assert_eq!(mazer.active_step, 8);
    assert_eq!(mazer.maze.cells, cells);
    let rested = mazer.clone();
    mazer.tick();
    assert_eq!(mazer, rested);
}

#[test]
fn tick_of_a_mazer_that_does_not_play_changes_nothing() {
    let mut mazer = mazer_of(&CORRIDOR, "dijkstra");
    for step in [8, 7, 3, 0] {
        mazer.set_step(step);
        let before = mazer.clone();
        mazer.tick();
        assert_eq!(mazer, before);
    }
}

#[test]
fn where_no_walk_leads_to_the_exit_the_mazer_shows_the_last_visit_too() {
    let mut mazer = mazer_of(&["#####", "#S.#E", "#####"], "dijkstra");
    assert!(mazer.path.is_empty());
    assert_eq!(mazer.steps.len(), 2);
    assert_eq!(mazer.active_step, 2);
    assert_eq!(mazer.maze.cells[1][2], Cell::Visited);
}

#[test]
fn play_of_a_mazer_at_the_end_starts_again_even_where_it_plays() {
    let mut mazer = mazer_of(&CORRIDOR, "dijkstra");
    mazer.play(&config(3, 1, "dijkstra"));
    mazer.set_step(8);
    assert!(mazer.is_playing);
    mazer.play(&config(3, 2, "dijkstra"));
    assert!(mazer.is_playing);
    assert_eq!(mazer.active_step, 0);
    assert_eq!(mazer.steps_time, StepTime { millis: 2000, steps: 8 });
    assert_eq!(mazer.maze.cells, maze_of(&CORRIDOR).cells);
}

#[test]
fn play_or_pause_stops_a_mazer_that_plays_and_plays_one_that_does_not() {
    let mut mazer = mazer_of(&CORRIDOR, "dfs");
    mazer.play_or_pause(&config(3, 1, "dfs"));
    assert!(mazer.is_playing);
    mazer.tick();
    mazer.play_or_pause(&config(3, 1, "dfs"));
    assert!(!mazer.is_playing);
    assert_eq!(mazer.active_step, 1);
    assert_eq!(mazer.tick_time(), 0);
    mazer.play_or_pause(&config(3, 1, "dfs"));
    assert!(mazer.is_playing);
    assert_eq!(mazer.active_step, 1);
    mazer.stop();
    assert!(!mazer.is_playing);
}

#[test]
fn reset_brings_a_mazer_to_the_end_of_its_log() {
    let mut mazer = mazer_of(&CORRIDOR, "dijkstra");
    mazer.play(&config(3, 1, "dijkstra"));
    mazer.tick();
    mazer.reset(&config(3, 4, "dijkstra"));
    assert!(!mazer.is_playing);
    assert_eq!(mazer.active_step, 8);
    assert_eq!(mazer.maze.cells[1][2], Cell::Path);
    assert_eq!(mazer.steps_time, StepTime { millis: 4000, steps: 0 });
    assert_eq!(mazer.tick_time(), 0);
    mazer.set_step(6);
    mazer.calculate_time(&config(3, 2, "dijkstra"));
    assert_eq!(mazer.steps_time, StepTime { millis: 2000, steps: 2 });
}

#[test]
fn drop_cells_shows_the_cells_as_they_were_before_the_first_step() {
    let mut mazer = mazer_of(&CORRIDOR, "dijkstra");
    assert_eq!(mazer.maze.cells[1][2], Cell::Path);
    mazer.drop_cells();
    assert_eq!(mazer.maze.cells, maze_of(&CORRIDOR).cells);
    mazer.maze.create_wall_or_empty(Coords::from(2, 1));
    mazer.solve(&config(3, 1, "dijkstra"));
    assert!(mazer.path.is_empty());
    assert_eq!(mazer.initial_cells[1][2], Cell::Wall);
    assert_eq!(mazer.steps.len(), 1);
}

#[test]
fn a_new_maze_drops_the_log_of_the_old_one() {
    let mut mazer = mazer_of(&CORRIDOR, "dijkstra");
    mazer.play(&config(3, 1, "dijkstra"));
    mazer.generate_new_maze(&config(9, 1, "dijkstra"));
    assert_eq!((mazer.width, mazer.height), (9, 9));
    assert_eq!((mazer.maze.width, mazer.maze.height), (9, 9));
    assert!(mazer.steps.is_empty());
    assert!(mazer.path.is_empty());
    assert!(!mazer.is_playing);
    assert_eq!(mazer.active_step, 0);
    assert_eq!(mazer.initial_cells, mazer.maze.cells);
    let before = mazer.clone();
    mazer.tick();
    mazer.play(&config(9, 1, "dijkstra"));
    assert_eq!(mazer, before);
}

#[test]
fn a_maze_that_is_no_grid_gets_an_empty_log() {
    let mut mazer = mazer_of(&CORRIDOR, "dijkstra");
    mazer.maze.cells[1].pop();
    mazer.solve(&config(3, 1, "dijkstra"));
    assert!(mazer.steps.is_empty());
    assert!(mazer.path.is_empty());
    assert_eq!(mazer.active_step, 0);
}

#[test]
fn a_click_puts_the_kind_that_was_chosen() {
    let mut maze = maze_of(&[
        "####", //
        "#SE#", //
        "#  #", //
        "####", //
    ]);
    maze.put_cell_type(Cell::Wall, Coords::from(1, 2));
    assert_eq!(maze.cells[2][1], Cell::Wall);
    maze.put_cell_type(Cell::Empty, Coords::from(1, 2));
    assert_eq!(maze.cells[2][1], Cell::Empty);
    maze.put_cell_type(Cell::Empty, Coords::from(2, 2));
    assert_eq!(maze.cells[2][2], Cell::Wall);
    maze.put_cell_type(Cell::Entry, Coords::from(1, 2));
    assert_eq!(maze.cells[2][1], Cell::Entry);
    assert_eq!(maze.cells[1][1], Cell::Empty);
    maze.put_cell_type(Cell::Exit, Coords::from(1, 2));
    assert_eq!(maze.cells[2][1], Cell::Exit);
    assert_eq!(maze.cells[1][2], Cell::Entry);
}

#[test]
fn new_mazes_differ_by_chance() {
    let first = Maze::new(21, 21);
    let mut differs = false;
    for _ in 0..20 {
        if Maze::new(21, 21) != first {
            differs = true;
        }
    }
    assert!(differs);
    // walls lie in rows and columns behind the first of a chamber
    let mut later_wall = false;
    for _ in 0..20 {
        let maze = Maze::new(21, 21);
        for y in 3..19 {
            if (1..20).all(|x| maze.cells[y][x] == Cell::Wall || x % 2 == 1) && y % 2 == 0 {
                later_wall = later_wall || y > 2;
            }
        }
    }
    assert!(later_wall);
}

#[test]
fn the_log_of_merge_sort_is_that_of_its_halves_and_of_their_merge() {
    fn expected(items: &[i32], start: usize) -> Vec<SortType<i32>> {
        if items.len() <= 1 {
            return vec![];
        }
        let mid = items.len() / 2;
        let mut log = expected(&items[..mid], start);
        log.extend(expected(&items[mid..], start + mid));
        let mut sorted = items.to_vec();
        sorted.sort();
        for (k, value) in sorted.iter().enumerate() {
            log.push(SortType::Assign(start + k, *value));
        }
        log
    }
    for input in [vec![3, 1, 2], vec![5, 4, 3, 2, 1, 0], vec![2, 2, 1], vec![1, 2, 3, 4, 5, 6, 7]] {
        let mut items = input.clone();
        let mut steps = VecDeque::new();
        merge_sort(&mut items, &mut steps);
        let chronological: Vec<SortType<i32>> = steps.iter().rev().cloned().collect();
        assert_eq!(chronological, expected(&input, 0));
    }
}

/// Checks the order and the counts of the steps of a log: first visits,
/// one of each cell at most and none of a wall but the start, then the
/// cells of the path, each of which was visited, as the path holds them.
fn assert_log(maze: &Maze, log: &VecDeque<MazeStep>, path: &[(usize, usize)], start: (usize, usize)) {
    let steps: Vec<MazeStep> = log.iter().rev().cloned().collect();
    assert!(steps.len() >= path.len());
    let visits = &steps[..steps.len() - path.len()];
    let marks = &steps[steps.len() - path.len()..];
    let mut seen = vec![vec![false; maze.width]; maze.height];
    for step in visits {
        let at = (step.coords.y, step.coords.x);
        assert_eq!(step.cell_type, Cell::Visited);
        assert!(!seen[at.0][at.1], "{:?} was visited twice", at);
        seen[at.0][at.1] = true;
        assert!(maze.cells[at.0][at.1] != Cell::Wall || at == start);
    }
    let mut on_path = vec![vec![false; maze.width]; maze.height];
    for (step, cell) in marks.iter().zip(path) {
        assert_eq!(step.cell_type, Cell::Path);
        assert_eq!((step.coords.y, step.coords.x), *cell);
        assert!(seen[cell.0][cell.1], "{:?} is on the path and was not visited", cell);
        assert!(!on_path[cell.0][cell.1], "{:?} is twice on the path", cell);
        on_path[cell.0][cell.1] = true;
    }
    if let Some(first) = steps.first() {
        assert_eq!((first.coords.y, first.coords.x), start);
        assert_eq!(first.cell_type, Cell::Visited);
    }
}

#[test]
fn a_log_holds_one_visit_of_each_cell_and_then_the_path() {
    for (width, height) in [(5, 5), (7, 9), (15, 15), (21, 21), (34, 17)] {
        for _ in 0..5 {
            let maze = Maze::new(width, height);
            let entry = maze.entry();
            let exit = maze.exit();
            let (path, found, visited, steps) = is_path_between(&maze, entry, exit);
            assert!(found);
            assert_log(&maze, &steps, &path, (entry.y, entry.x));
            assert!(steps.len() <= 2 * width * height);
            let came_to = visited.iter().flatten().filter(|v| **v).count();
            assert_eq!(steps.len(), came_to + path.len());

            let (path, steps) = solve_maze_by_dijkstra(&maze, entry, exit);
            assert_log(&maze, &steps, &path, (entry.y, entry.x));
            assert_eq!(path.first(), Some(&(exit.y, exit.x)));
            assert_eq!(path.last(), Some(&(entry.y, entry.x)));
        }
    }
}

#[test]
fn behind_a_wall_the_search_by_distance_visits_the_start_only() {
    let maze = Maze { width: 3, height: 1, cells: vec![vec![Cell::Empty, Cell::Wall, Cell::Empty]] };
    let mut maze_path = Vec::new();
    let mut steps = VecDeque::new();
    let result = dijkstra(&maze, Coords::from(0, 0), Coords::from(2, 0), &mut maze_path, &mut steps);
    assert!(result.0.is_none() && result.1.is_none());
    assert!(maze_path.is_empty());
    assert_eq!(steps.len(), 1);
    assert_eq!(steps[0], MazeStep { coords: Coords::from(0, 0), cell_type: Cell::Visited });
}

#[test]
fn where_no_walk_leads_to_the_end_every_cell_in_reach_is_visited_once() {
    let maze = maze_of(&["S..#.", ".#.#.", "...#E"]);
    let (path, steps) = solve_maze_by_dijkstra(&maze, Coords::from(0, 0), Coords::from(4, 2));
    assert!(path.is_empty());
    assert_log(&maze, &steps, &path, (0, 0));
    assert_eq!(steps.len(), 8);
}

/// Whether the cells inside the border that are no walls form a tree: they
/// are one more than the pairs of neighbours among them.
fn is_tree(maze: &Maze) -> bool {
    let open = |r: usize, c: usize| maze.cells[r][c] != Cell::Wall;
    let mut cells = 0;
    let mut pairs = 0;
    for r in 1..maze.height - 1 {
        for c in 1..maze.width - 1 {
            if open(r, c) {
                cells += 1;
                if r + 1 < maze.height - 1 && open(r + 1, c) {
                    pairs += 1;
                }
                if c + 1 < maze.width - 1 && open(r, c + 1) {
                    pairs += 1;
                }
            }
        }
    }
    cells == pairs + 1
}

#[test]
fn what_recursive_division_builds_is_a_perfect_maze() {
    for (width, height) in [(5, 5), (7, 7), (9, 13), (21, 21), (35, 35)] {
        for _ in 0..5 {
            let mut maze = Maze::new(width, height);
            let entry = maze.entry();
            let exit = maze.exit();
            // the entry and the exit may stand where a wall was
            let mut perfect = false;
            for under_entry in [Cell::Wall, Cell::Empty] {
                for under_exit in [Cell::Wall, Cell::Empty] {
                    maze.cells[entry.y][entry.x] = under_entry;
                    maze.cells[exit.y][exit.x] = under_exit;
                    if built(&maze, 1, width - 2, 1, height - 2).is_ok() {
                        assert!(is_tree(&maze));
                        assert!(shortest(&maze, (1, 1), (height - 2, width - 2)).is_some());
                        perfect = true;
                    }
                }
            }
            assert!(perfect);
        }
    }
}
