//! Why a maze of recursive division is a perfect maze: between any two of
//! its cells there is one walk that comes to no cell twice, and no other.
//!
//! A wall with one passage parts a chamber in two. A walk that comes to no
//! cell twice can go through the passage once at most, so it stays on one
//! side of the wall, or it goes to the passage on one side and on from it
//! on the other. What holds of the walks on either side therefore holds of
//! the walks in the chamber.

use crate::grid::adjacent;
use crate::grid::passable;
use crate::services::chambers::carved;
use crate::services::chambers::divided;
use crate::services::chambers::joined;
use crate::services::chambers::linked;
use crate::services::chambers::on_grid;
use crate::services::chambers::walk_inside;
use crate::services::chambers::walled_column;
use crate::services::chambers::walled_row;
use crate::services::chambers::Chamber;
use crate::services::maze_generator::Cell;
use vstd::prelude::*;

verus! {

/// The walk stays in the chamber and on cells that are no walls, and comes
/// to no cell twice.
pub open spec fn simple_inside(grid: Seq<Seq<Cell>>, chamber: Chamber, walk: Seq<(int, int)>) -> bool {
    walk_inside(grid, chamber, walk) && walk.no_duplicates()
}

/// Between any two cells of the chamber, at most one walk inside the
/// chamber comes to no cell twice.
pub open spec fn single_walks(grid: Seq<Seq<Cell>>, chamber: Chamber) -> bool {
    forall|one: Seq<(int, int)>, other: Seq<(int, int)>|
        #![trigger simple_inside(grid, chamber, one), simple_inside(grid, chamber, other)]
        simple_inside(grid, chamber, one) && simple_inside(grid, chamber, other) && one[0]
            == other[0] && one.last() == other.last() ==> one == other
}

/// The part `side` of the chamber is left only through the cell `gap`, and
/// only from its cell `door`.
#[verifier::opaque]
pub open spec fn left_by(
    grid: Seq<Seq<Cell>>,
    chamber: Chamber,
    side: Chamber,
    gap: (int, int),
    door: (int, int),
) -> bool {
    forall|x: (int, int), y: (int, int)|
        #![trigger side.holds(x), adjacent(x, y)]
        side.holds(x) && adjacent(x, y) && chamber.holds(y) && passable(grid, y) && !side.holds(y)
            ==> y == gap && x == door
}

/// The chamber is parted in two sides and the cell `gap` between them:
/// every cell of the chamber that is no wall lies in one of the sides or
/// is the gap, which is no wall, and each side is left only through the
/// gap, from its door.
#[verifier::opaque]
pub open spec fn parted(
    grid: Seq<Seq<Cell>>,
    chamber: Chamber,
    first: Chamber,
    second: Chamber,
    gap: (int, int),
    first_door: (int, int),
    second_door: (int, int),
) -> bool {
    &&& chamber.holds(gap)
    &&& passable(grid, gap)
    &&& !first.holds(gap)
    &&& !second.holds(gap)
    &&& forall|x: (int, int)| !(#[trigger] first.holds(x) && second.holds(x))
    &&& forall|x: (int, int)|
        #[trigger] chamber.holds(x) && passable(grid, x) ==> first.holds(x) || second.holds(x) || x
            == gap
    &&& left_by(grid, chamber, first, gap, first_door)
    &&& left_by(grid, chamber, second, gap, second_door)
}

/// A walk that starts in a side and does not come to the gap stays in the
/// side.
proof fn lemma_stays(
    grid: Seq<Seq<Cell>>,
    chamber: Chamber,
    side: Chamber,
    gap: (int, int),
    door: (int, int),
    walk: Seq<(int, int)>,
    k: int,
)
    requires
        walk_inside(grid, chamber, walk),
        left_by(grid, chamber, side, gap, door),
        side.holds(walk[0]),
        0 <= k < walk.len(),
        forall|j: int| 0 <= j <= k ==> walk[j] != gap,
    ensures
        side.holds(walk[k]),
    decreases k,
{
    reveal(left_by);
    if k > 0 {
        lemma_stays(grid, chamber, side, gap, door, walk, k - 1);
        let x = walk[k - 1];
        let y = walk[k];
        assert(adjacent(x, y));
        assert(chamber.holds(y) && passable(grid, y));
        assert(side.holds(x));
    }
}

/// A part of a walk that lies in a side is a walk inside the side, and
/// comes to no cell twice where the walk does not.
proof fn lemma_part_inside(
    grid: Seq<Seq<Cell>>,
    chamber: Chamber,
    side: Chamber,
    walk: Seq<(int, int)>,
    from: int,
    to: int,
)
    requires
        simple_inside(grid, chamber, walk),
        0 <= from < to <= walk.len(),
        forall|j: int| from <= j < to ==> side.holds(walk[j]),
    ensures
        simple_inside(grid, side, walk.subrange(from, to)),
{
    let part = walk.subrange(from, to);
    assert forall|k: int| 0 <= k < part.len() implies side.holds(#[trigger] part[k]) && passable(
        grid,
        part[k],
    ) by {
        assert(part[k] == walk[from + k]);
        assert(chamber.holds(walk[from + k]));
    }
    assert forall|k: int| 1 <= k < part.len() implies adjacent(part[k - 1], #[trigger] part[k]) by {
        assert(part[k] == walk[from + k]);
        assert(part[k - 1] == walk[from + k - 1]);
    }
    assert forall|i: int, j: int| 0 <= i < part.len() && 0 <= j < part.len() && i != j implies part[i]
        != part[j] by {
        assert(part[i] == walk[from + i]);
        assert(part[j] == walk[from + j]);
    }
}

/// A walk that starts in a side and does not come to the gap is a walk
/// inside the side.
proof fn lemma_no_gap(
    grid: Seq<Seq<Cell>>,
    chamber: Chamber,
    side: Chamber,
    gap: (int, int),
    door: (int, int),
    walk: Seq<(int, int)>,
)
    requires
        simple_inside(grid, chamber, walk),
        left_by(grid, chamber, side, gap, door),
        side.holds(walk[0]),
        !walk.contains(gap),
    ensures
        simple_inside(grid, side, walk),
{
    assert forall|j: int| 0 <= j < walk.len() implies side.holds(walk[j]) by {
        assert forall|m: int| 0 <= m <= j implies walk[m] != gap by {
            assert(walk.contains(walk[m]));
        }
        lemma_stays(grid, chamber, side, gap, door, walk, j);
    }
    lemma_part_inside(grid, chamber, side, walk, 0, walk.len() as int);
    assert(walk.subrange(0, walk.len() as int) =~= walk);
}

/// What a walk that starts in a side does before it comes to the gap: it
/// walks inside the side to the door.
proof fn lemma_before_gap(
    grid: Seq<Seq<Cell>>,
    chamber: Chamber,
    side: Chamber,
    gap: (int, int),
    door: (int, int),
    walk: Seq<(int, int)>,
    i: int,
)
    requires
        simple_inside(grid, chamber, walk),
        left_by(grid, chamber, side, gap, door),
        chamber.holds(gap),
        passable(grid, gap),
        !side.holds(gap),
        0 < i < walk.len(),
        walk[i] == gap,
        side.holds(walk[0]),
    ensures
        simple_inside(grid, side, walk.subrange(0, i)),
        walk[i - 1] == door,
{
    assert forall|j: int| 0 <= j < i implies side.holds(walk[j]) by {
        assert forall|m: int| 0 <= m <= j implies walk[m] != gap by {}
        lemma_stays(grid, chamber, side, gap, door, walk, j);
    }
    lemma_part_inside(grid, chamber, side, walk, 0, i);
    assert(adjacent(walk[i - 1], walk[i]));
    assert(side.holds(walk[i - 1]));
    reveal(left_by);
}

/// What a walk that ends in a side does after it has come to the gap: it
/// walks inside the side from the door.
proof fn lemma_after_gap(
    grid: Seq<Seq<Cell>>,
    chamber: Chamber,
    side: Chamber,
    other: Chamber,
    gap: (int, int),
    door: (int, int),
    other_door: (int, int),
    walk: Seq<(int, int)>,
    i: int,
)
    requires
        simple_inside(grid, chamber, walk),
        parted(grid, chamber, side, other, gap, door, other_door),
        0 <= i < walk.len() - 1,
        walk[i] == gap,
        side.holds(walk.last()),
    ensures
        simple_inside(grid, side, walk.subrange(i + 1, walk.len() as int)),
        walk[i + 1] == door,
{
    reveal(parted);
    let len = walk.len() as int;
    assert forall|j: int| i + 1 <= j < len implies chamber.holds(walk[j]) by {}
    lemma_part_inside(grid, chamber, chamber, walk, i + 1, len);
    let rest = walk.subrange(i + 1, len);
    assert(rest[0] == walk[i + 1]);
    assert(rest.last() == walk[len - 1]);
    assert forall|m: int| 0 <= m < rest.len() implies rest[m] != gap by {
        assert(rest[m] == walk[i + 1 + m]);
    }
    assert(adjacent(walk[i], walk[i + 1]));
    assert(adjacent(walk[i + 1], walk[i]));
    assert(chamber.holds(walk[i + 1]) && passable(grid, walk[i + 1]));
    if other.holds(rest[0]) {
        lemma_stays(grid, chamber, other, gap, other_door, rest, rest.len() - 1);
        assert(other.holds(walk.last()) && side.holds(walk.last()));
    }
    assert(side.holds(rest[0]) && rest[0] == door) by {
        reveal(left_by);
    }
    assert forall|j: int| i + 1 <= j < len implies side.holds(walk[j]) by {
        lemma_stays(grid, chamber, side, gap, door, rest, j - i - 1);
        assert(rest[j - i - 1] == walk[j]);
    }
    lemma_part_inside(grid, chamber, side, walk, i + 1, len);
}

/// The sides of a parted chamber may change their places.
proof fn lemma_parted_other_way(
    grid: Seq<Seq<Cell>>,
    chamber: Chamber,
    first: Chamber,
    second: Chamber,
    gap: (int, int),
    first_door: (int, int),
    second_door: (int, int),
)
    requires
        parted(grid, chamber, first, second, gap, first_door, second_door),
    ensures
        parted(grid, chamber, second, first, gap, second_door, first_door),
        left_by(grid, chamber, first, gap, first_door),
        left_by(grid, chamber, second, gap, second_door),
        chamber.holds(gap),
        passable(grid, gap),
        !first.holds(gap),
        !second.holds(gap),
{
    reveal(parted);
}

/// A cell of a parted chamber that is no wall lies in one of the sides or
/// is the gap, and only one of the three.
proof fn lemma_parted_where(
    grid: Seq<Seq<Cell>>,
    chamber: Chamber,
    first: Chamber,
    second: Chamber,
    gap: (int, int),
    first_door: (int, int),
    second_door: (int, int),
    x: (int, int),
)
    requires
        parted(grid, chamber, first, second, gap, first_door, second_door),
        chamber.holds(x),
        passable(grid, x),
    ensures
        first.holds(x) || second.holds(x) || x == gap,
        !(first.holds(x) && second.holds(x)),
        x == gap ==> !first.holds(x) && !second.holds(x),
{
    reveal(parted);
}

/// A walk from a side to the same side that comes to no cell twice does
/// not come to the gap: it would have to come to the door twice.
proof fn lemma_avoids_gap(
    grid: Seq<Seq<Cell>>,
    chamber: Chamber,
    side: Chamber,
    other: Chamber,
    gap: (int, int),
    door: (int, int),
    other_door: (int, int),
    walk: Seq<(int, int)>,
)
    requires
        parted(grid, chamber, side, other, gap, door, other_door),
        simple_inside(grid, chamber, walk),
        side.holds(walk[0]),
        side.holds(walk.last()),
    ensures
        simple_inside(grid, side, walk),
{
    lemma_parted_other_way(grid, chamber, side, other, gap, door, other_door);
    if walk.contains(gap) {
        let i = walk.index_of(gap);
        assert(walk[i] == gap);
        assert(0 < i < walk.len() - 1);
        lemma_before_gap(grid, chamber, side, gap, door, walk, i);
        lemma_after_gap(grid, chamber, side, other, gap, door, other_door, walk, i);
        assert(walk[i - 1] == walk[i + 1]);
    }
    lemma_no_gap(grid, chamber, side, gap, door, walk);
}

/// A walk from a side to the gap: a walk inside the side to the door, and
/// then the gap.
proof fn lemma_to_the_gap(
    grid: Seq<Seq<Cell>>,
    chamber: Chamber,
    side: Chamber,
    other: Chamber,
    gap: (int, int),
    door: (int, int),
    other_door: (int, int),
    walk: Seq<(int, int)>,
)
    requires
        parted(grid, chamber, side, other, gap, door, other_door),
        simple_inside(grid, chamber, walk),
        side.holds(walk[0]),
        walk.last() == gap,
    ensures
        walk.len() > 1,
        simple_inside(grid, side, walk.drop_last()),
        walk.drop_last().last() == door,
{
    lemma_parted_other_way(grid, chamber, side, other, gap, door, other_door);
    let n = walk.len() as int;
    assert(walk[n - 1] == gap);
    lemma_before_gap(grid, chamber, side, gap, door, walk, n - 1);
    assert(walk.subrange(0, n - 1) =~= walk.drop_last());
}

/// A walk from the gap into a side: the gap, and then a walk inside the
/// side from the door.
proof fn lemma_from_the_gap(
    grid: Seq<Seq<Cell>>,
    chamber: Chamber,
    side: Chamber,
    other: Chamber,
    gap: (int, int),
    door: (int, int),
    other_door: (int, int),
    walk: Seq<(int, int)>,
)
    requires
        parted(grid, chamber, side, other, gap, door, other_door),
        simple_inside(grid, chamber, walk),
        walk[0] == gap,
        side.holds(walk.last()),
    ensures
        walk.len() > 1,
        simple_inside(grid, side, walk.skip(1)),
        walk.skip(1)[0] == door,
        walk.skip(1).last() == walk.last(),
{
    lemma_parted_other_way(grid, chamber, side, other, gap, door, other_door);
    let n = walk.len() as int;
    assert(walk[n - 1] != gap);
    lemma_after_gap(grid, chamber, side, other, gap, door, other_door, walk, 0);
    assert(walk.subrange(1, n) =~= walk.skip(1));
}

/// A walk from one side to the other: a walk inside the one to its door,
/// the gap, and a walk inside the other from its door. Returns the place of
/// the gap in the walk.
proof fn lemma_through_the_gap(
    grid: Seq<Seq<Cell>>,
    chamber: Chamber,
    side: Chamber,
    other: Chamber,
    gap: (int, int),
    door: (int, int),
    other_door: (int, int),
    walk: Seq<(int, int)>,
) -> (i: int)
    requires
        parted(grid, chamber, side, other, gap, door, other_door),
        simple_inside(grid, chamber, walk),
        side.holds(walk[0]),
        other.holds(walk.last()),
    ensures
        0 < i < walk.len() - 1,
        walk[i] == gap,
        simple_inside(grid, side, walk.take(i)),
        walk.take(i)[0] == walk[0],
        walk.take(i).last() == door,
        simple_inside(grid, other, walk.skip(i + 1)),
        walk.skip(i + 1)[0] == other_door,
        walk.skip(i + 1).last() == walk.last(),
        walk == walk.take(i).push(gap) + walk.skip(i + 1),
{
    lemma_parted_other_way(grid, chamber, side, other, gap, door, other_door);
    let n = walk.len() as int;
    assert(chamber.holds(walk[n - 1]) && passable(grid, walk[n - 1]));
    lemma_parted_where(grid, chamber, side, other, gap, door, other_door, walk[n - 1]);
    if !walk.contains(gap) {
        lemma_no_gap(grid, chamber, side, gap, door, walk);
        assert(side.holds(walk[n - 1]));
    }
    let i = walk.index_of(gap);
    assert(walk[i] == gap);
    assert(0 < i < n - 1);
    lemma_before_gap(grid, chamber, side, gap, door, walk, i);
    lemma_after_gap(grid, chamber, other, side, gap, other_door, door, walk, i);
    assert(walk.subrange(0, i) =~= walk.take(i));
    assert(walk.subrange(i + 1, n) =~= walk.skip(i + 1));
    assert(walk =~= walk.take(i).push(gap) + walk.skip(i + 1));
    i
}

/// Two walks of a parted chamber from one cell to another, neither of
/// which comes to a cell twice, are one walk: here for walks that start in
/// the first side.
proof fn lemma_same_walk_from_a_side(
    grid: Seq<Seq<Cell>>,
    chamber: Chamber,
    first: Chamber,
    second: Chamber,
    gap: (int, int),
    first_door: (int, int),
    second_door: (int, int),
    one: Seq<(int, int)>,
    other: Seq<(int, int)>,
)
    requires
        single_walks(grid, first),
        single_walks(grid, second),
        parted(grid, chamber, first, second, gap, first_door, second_door),
        simple_inside(grid, chamber, one),
        simple_inside(grid, chamber, other),
        one[0] == other[0],
        one.last() == other.last(),
        first.holds(one[0]),
    ensures
        one == other,
{
    let b = one.last();
    assert(chamber.holds(one[one.len() - 1]) && passable(grid, b));
    lemma_parted_where(grid, chamber, first, second, gap, first_door, second_door, b);
    if first.holds(b) {
        lemma_avoids_gap(grid, chamber, first, second, gap, first_door, second_door, one);
        lemma_avoids_gap(grid, chamber, first, second, gap, first_door, second_door, other);
    } else if b == gap {
        lemma_to_the_gap(grid, chamber, first, second, gap, first_door, second_door, one);
        lemma_to_the_gap(grid, chamber, first, second, gap, first_door, second_door, other);
        let l1 = one.drop_last();
        let l2 = other.drop_last();
        assert(l1[0] == one[0] && l2[0] == other[0]);
        assert(simple_inside(grid, first, l1) && simple_inside(grid, first, l2));
        assert(l1 == l2);
        assert(one =~= l1.push(gap));
        assert(other =~= l2.push(gap));
    } else {
        let i1 = lemma_through_the_gap(
            grid,
            chamber,
            first,
            second,
            gap,
            first_door,
            second_door,
            one,
        );
        let i2 = lemma_through_the_gap(
            grid,
            chamber,
            first,
            second,
            gap,
            first_door,
            second_door,
            other,
        );
        let l1 = one.take(i1);
        let l2 = other.take(i2);
        let r1 = one.skip(i1 + 1);
        let r2 = other.skip(i2 + 1);
        assert(simple_inside(grid, first, l1) && simple_inside(grid, first, l2));
        assert(l1 == l2);
        assert(simple_inside(grid, second, r1) && simple_inside(grid, second, r2));
        assert(r1 == r2);
    }
}

/// Two walks of a parted chamber from the gap to a cell, neither of which
/// comes to a cell twice, are one walk: here for walks that do not end in
/// the second side.
proof fn lemma_same_walk_from_the_gap(
    grid: Seq<Seq<Cell>>,
    chamber: Chamber,
    first: Chamber,
    second: Chamber,
    gap: (int, int),
    first_door: (int, int),
    second_door: (int, int),
    one: Seq<(int, int)>,
    other: Seq<(int, int)>,
)
    requires
        single_walks(grid, first),
        parted(grid, chamber, first, second, gap, first_door, second_door),
        simple_inside(grid, chamber, one),
        simple_inside(grid, chamber, other),
        one[0] == other[0],
        one.last() == other.last(),
        one[0] == gap,
        !second.holds(one.last()),
    ensures
        one == other,
{
    let b = one.last();
    let n1 = one.len() as int;
    let n2 = other.len() as int;
    assert(chamber.holds(one[n1 - 1]) && passable(grid, b));
    lemma_parted_where(grid, chamber, first, second, gap, first_door, second_door, b);
    if b == gap {
        if n1 > 1 {
            assert(one[0] == one[n1 - 1]);
        }
        if n2 > 1 {
            assert(other[0] == other[n2 - 1]);
        }
        assert(one =~= other);
    } else {
        lemma_from_the_gap(grid, chamber, first, second, gap, first_door, second_door, one);
        lemma_from_the_gap(grid, chamber, first, second, gap, first_door, second_door, other);
        let r1 = one.skip(1);
        let r2 = other.skip(1);
        assert(simple_inside(grid, first, r1) && simple_inside(grid, first, r2));
        assert(r1 == r2);
        assert(one =~= seq![gap] + r1);
        assert(other =~= seq![gap] + r2);
    }
}

/// In a chamber that is parted in two sides in each of which at most one
/// walk between two cells comes to no cell twice, at most one walk between
/// two cells comes to no cell twice.
pub proof fn lemma_parted_single_walks(
    grid: Seq<Seq<Cell>>,
    chamber: Chamber,
    first: Chamber,
    second: Chamber,
    gap: (int, int),
    first_door: (int, int),
    second_door: (int, int),
)
    requires
        single_walks(grid, first),
        single_walks(grid, second),
        parted(grid, chamber, first, second, gap, first_door, second_door),
    ensures
        single_walks(grid, chamber),
{
    lemma_parted_other_way(grid, chamber, first, second, gap, first_door, second_door);
    assert forall|one: Seq<(int, int)>, other: Seq<(int, int)>|
        #![trigger simple_inside(grid, chamber, one), simple_inside(grid, chamber, other)]
        simple_inside(grid, chamber, one) && simple_inside(grid, chamber, other) && one[0]
            == other[0] && one.last() == other.last() implies one == other by {
        let a = one[0];
        let b = one.last();
        assert(chamber.holds(a) && passable(grid, a));
        assert(chamber.holds(one[one.len() - 1]) && passable(grid, b));
        lemma_parted_where(grid, chamber, first, second, gap, first_door, second_door, a);
        lemma_parted_where(grid, chamber, first, second, gap, first_door, second_door, b);
        if first.holds(a) {
            lemma_same_walk_from_a_side(
                grid,
                chamber,
                first,
                second,
                gap,
                first_door,
                second_door,
                one,
                other,
            );
        } else if second.holds(a) {
            lemma_same_walk_from_a_side(
                grid,
                chamber,
                second,
                first,
                gap,
                second_door,
                first_door,
                one,
                other,
            );
        } else if !second.holds(b) {
            lemma_same_walk_from_the_gap(
                grid,
                chamber,
                first,
                second,
                gap,
                first_door,
                second_door,
                one,
                other,
            );
        } else {
            lemma_same_walk_from_the_gap(
                grid,
                chamber,
                second,
                first,
                gap,
                second_door,
                first_door,
                one,
                other,
            );
        }
    }
}

/// A wall along a row, with one passage, parts the chamber in what lies
/// above the wall and what lies below it, and the passage between them.
proof fn lemma_row_parts(grid: Seq<Seq<Cell>>, chamber: Chamber, wall: int, passage: int)
    requires
        on_grid(grid, chamber),
        walled_row(grid, chamber, wall, passage),
    ensures
        parted(
            grid,
            chamber,
            chamber.above(wall),
            chamber.below(wall),
            (wall, passage),
            (wall - 1, passage),
            (wall + 1, passage),
        ),
{
    reveal(parted);
    reveal(left_by);
    let gap = (wall, passage);
    assert(chamber.holds(gap));
    assert(grid[wall][passage] == Cell::Empty);
    assert forall|x: (int, int)| #[trigger] chamber.holds(x) && passable(grid, x) implies chamber.above(
        wall,
    ).holds(x) || chamber.below(wall).holds(x) || x == gap by {
        if x.0 == wall {
            assert(grid[wall][x.1] != Cell::Wall);
        }
    }
    assert forall|x: (int, int), y: (int, int)|
        #![trigger chamber.above(wall).holds(x), adjacent(x, y)]
        chamber.above(wall).holds(x) && adjacent(x, y) && chamber.holds(y) && passable(grid, y)
            && !chamber.above(wall).holds(y) implies y == gap && x == (wall - 1, passage) by {
        assert(grid[wall][y.1] != Cell::Wall);
    }
    assert forall|x: (int, int), y: (int, int)|
        #![trigger chamber.below(wall).holds(x), adjacent(x, y)]
        chamber.below(wall).holds(x) && adjacent(x, y) && chamber.holds(y) && passable(grid, y)
            && !chamber.below(wall).holds(y) implies y == gap && x == (wall + 1, passage) by {
        assert(grid[wall][y.1] != Cell::Wall);
    }
}

/// A wall along a column, with one passage, parts the chamber in what lies
/// left of the wall and what lies right of it, and the passage between
/// them.
proof fn lemma_column_parts(grid: Seq<Seq<Cell>>, chamber: Chamber, wall: int, passage: int)
    requires
        on_grid(grid, chamber),
        walled_column(grid, chamber, wall, passage),
    ensures
        parted(
            grid,
            chamber,
            chamber.left_of(wall),
            chamber.right_of(wall),
            (passage, wall),
            (passage, wall - 1),
            (passage, wall + 1),
        ),
{
    reveal(parted);
    reveal(left_by);
    let gap = (passage, wall);
    assert(chamber.holds(gap));
    assert(grid[passage][wall] == Cell::Empty);
    assert forall|x: (int, int)| #[trigger] chamber.holds(x) && passable(grid, x) implies chamber.left_of(
        wall,
    ).holds(x) || chamber.right_of(wall).holds(x) || x == gap by {
        if x.1 == wall {
            assert(grid[x.0][wall] != Cell::Wall);
        }
    }
    assert forall|x: (int, int), y: (int, int)|
        #![trigger chamber.left_of(wall).holds(x), adjacent(x, y)]
        chamber.left_of(wall).holds(x) && adjacent(x, y) && chamber.holds(y) && passable(grid, y)
            && !chamber.left_of(wall).holds(y) implies y == gap && x == (passage, wall - 1) by {
        assert(grid[y.0][wall] != Cell::Wall);
    }
    assert forall|x: (int, int), y: (int, int)|
        #![trigger chamber.right_of(wall).holds(x), adjacent(x, y)]
        chamber.right_of(wall).holds(x) && adjacent(x, y) && chamber.holds(y) && passable(grid, y)
            && !chamber.right_of(wall).holds(y) implies y == gap && x == (passage, wall + 1) by {
        assert(grid[y.0][wall] != Cell::Wall);
    }
}

/// The chamber starts in a row and a column of odd numbers and has an odd
/// number of rows and of columns: recursive division leaves it no room of
/// two rows and two columns.
pub open spec fn odd_sized(chamber: Chamber) -> bool {
    &&& chamber.x >= 1
    &&& chamber.y >= 1
    &&& chamber.width >= 1
    &&& chamber.height >= 1
    &&& chamber.x % 2 == 1
    &&& chamber.y % 2 == 1
    &&& chamber.width % 2 == 1
    &&& chamber.height % 2 == 1
}

/// In a chamber of one cell, the only walk is the cell.
proof fn lemma_one_cell(grid: Seq<Seq<Cell>>, chamber: Chamber)
    requires
        chamber.width == 1,
        chamber.height == 1,
    ensures
        single_walks(grid, chamber),
{
    assert forall|one: Seq<(int, int)>, other: Seq<(int, int)>|
        #![trigger simple_inside(grid, chamber, one), simple_inside(grid, chamber, other)]
        simple_inside(grid, chamber, one) && simple_inside(grid, chamber, other) && one[0]
            == other[0] && one.last() == other.last() implies one == other by {
        if one.len() > 1 {
            assert(chamber.holds(one[0]) && chamber.holds(one[1]));
            assert(one[0] == one[1]);
        }
        if other.len() > 1 {
            assert(chamber.holds(other[0]) && chamber.holds(other[1]));
            assert(other[0] == other[1]);
        }
        assert(one =~= other);
    }
}

/// What lies on either side of a wall of recursive division in a chamber
/// of odd size is of odd size, and lies in the chamber.
proof fn lemma_odd_sides(grid: Seq<Seq<Cell>>, chamber: Chamber, wall: int)
    requires
        on_grid(grid, chamber),
        odd_sized(chamber),
        wall % 2 == 0,
    ensures
        chamber.y < wall <= chamber.end_y() ==> odd_sized(chamber.above(wall)) && odd_sized(
            chamber.below(wall),
        ) && on_grid(grid, chamber.above(wall)) && on_grid(grid, chamber.below(wall)),
        chamber.x < wall <= chamber.end_x() ==> odd_sized(chamber.left_of(wall)) && odd_sized(
            chamber.right_of(wall),
        ) && on_grid(grid, chamber.left_of(wall)) && on_grid(grid, chamber.right_of(wall)),
{
    if chamber.y < wall <= chamber.end_y() {
        assert forall|at: (int, int)| #[trigger] chamber.above(wall).holds(at) implies chamber.holds(
            at,
        ) by {}
        assert forall|at: (int, int)| #[trigger] chamber.below(wall).holds(at) implies chamber.holds(
            at,
        ) by {}
    }
    if chamber.x < wall <= chamber.end_x() {
        assert forall|at: (int, int)| #[trigger] chamber.left_of(wall).holds(
            at,
        ) implies chamber.holds(at) by {}
        assert forall|at: (int, int)| #[trigger] chamber.right_of(wall).holds(
            at,
        ) implies chamber.holds(at) by {}
    }
}

/// What recursive division builds in a chamber of odd size is a perfect
/// maze: between any two of its cells, at most one walk inside the chamber
/// comes to no cell twice.
pub proof fn lemma_carved_single_walks(grid: Seq<Seq<Cell>>, chamber: Chamber)
    requires
        carved(grid, chamber),
        on_grid(grid, chamber),
        odd_sized(chamber),
    ensures
        single_walks(grid, chamber),
    decreases chamber.width + chamber.height,
{
    if chamber.width <= 2 && chamber.height <= 2 {
        lemma_one_cell(grid, chamber);
    } else if chamber.width <= chamber.height && exists|wall: int, passage: int|
        #[trigger] walled_row(grid, chamber, wall, passage) && carved(grid, chamber.above(wall))
            && carved(grid, chamber.below(wall)) {
        let (wall, passage) = choose|wall: int, passage: int|
            #[trigger] walled_row(grid, chamber, wall, passage) && carved(
                grid,
                chamber.above(wall),
            ) && carved(grid, chamber.below(wall));
        lemma_odd_sides(grid, chamber, wall);
        lemma_carved_single_walks(grid, chamber.above(wall));
        lemma_carved_single_walks(grid, chamber.below(wall));
        lemma_row_parts(grid, chamber, wall, passage);
        lemma_parted_single_walks(
            grid,
            chamber,
            chamber.above(wall),
            chamber.below(wall),
            (wall, passage),
            (wall - 1, passage),
            (wall + 1, passage),
        );
    } else {
        let (wall, passage) = choose|wall: int, passage: int|
            #[trigger] walled_column(grid, chamber, wall, passage) && carved(
                grid,
                chamber.left_of(wall),
            ) && carved(grid, chamber.right_of(wall));
        lemma_odd_sides(grid, chamber, wall);
        lemma_carved_single_walks(grid, chamber.left_of(wall));
        lemma_carved_single_walks(grid, chamber.right_of(wall));
        lemma_column_parts(grid, chamber, wall, passage);
        lemma_parted_single_walks(
            grid,
            chamber,
            chamber.left_of(wall),
            chamber.right_of(wall),
            (passage, wall),
            (passage, wall - 1),
            (passage, wall + 1),
        );
    }
}

/// A walk inside a chamber can be shortened to one that comes to no cell
/// twice.
pub proof fn lemma_shorten(grid: Seq<Seq<Cell>>, chamber: Chamber, walk: Seq<(int, int)>) -> (simple:
    Seq<(int, int)>)
    requires
        walk_inside(grid, chamber, walk),
    ensures
        simple_inside(grid, chamber, simple),
        simple[0] == walk[0],
        simple.last() == walk.last(),
    decreases walk.len(),
{
    if walk.no_duplicates() {
        walk
    } else {
        let (i, j) = choose|i: int, j: int|
            0 <= i < walk.len() && 0 <= j < walk.len() && i < j && walk[i] == walk[j];
        assert(0 <= i < j < walk.len() && walk[i] == walk[j]) by {
            let (a, b) = choose|a: int, b: int|
                0 <= a < walk.len() && 0 <= b < walk.len() && a != b && walk[a] == walk[b];
            if a < b {
                assert(0 <= a < walk.len() && 0 <= b < walk.len() && a < b && walk[a] == walk[b]);
            } else {
                assert(0 <= b < walk.len() && 0 <= a < walk.len() && b < a && walk[b] == walk[a]);
            }
        }
        let shorter = walk.take(i + 1) + walk.skip(j + 1);
        assert forall|k: int| 0 <= k < shorter.len() implies chamber.holds(#[trigger] shorter[k])
            && passable(grid, shorter[k]) by {
            if k <= i {
                assert(shorter[k] == walk[k]);
            } else {
                assert(shorter[k] == walk[k - i + j]);
            }
        }
        assert forall|k: int| 1 <= k < shorter.len() implies adjacent(
            shorter[k - 1],
            #[trigger] shorter[k],
        ) by {
            if k <= i {
                assert(shorter[k] == walk[k] && shorter[k - 1] == walk[k - 1]);
            } else if k == i + 1 {
                assert(shorter[k] == walk[j + 1] && shorter[k - 1] == walk[i]);
                assert(adjacent(walk[j], walk[j + 1]));
            } else {
                assert(shorter[k] == walk[k - i + j] && shorter[k - 1] == walk[k - 1 - i + j]);
            }
        }
        assert(shorter[0] == walk[0]);
        assert(shorter.last() == walk.last()) by {
            if j + 1 < walk.len() {
                assert(shorter[shorter.len() - 1] == walk[shorter.len() - 1 - i + j]);
            } else {
                assert(shorter[shorter.len() - 1] == walk[i]);
            }
        }
        lemma_shorten(grid, chamber, shorter)
    }
}

/// Between any two cells of the chamber that are no walls, one walk inside
/// the chamber comes to no cell twice, and no other.
pub open spec fn perfect(grid: Seq<Seq<Cell>>, chamber: Chamber) -> bool {
    &&& single_walks(grid, chamber)
    &&& forall|a: (int, int), b: (int, int)|
        #![trigger chamber.holds(a), chamber.holds(b)]
        chamber.holds(a) && chamber.holds(b) && passable(grid, a) && passable(grid, b)
            ==> exists|walk: Seq<(int, int)>| #[trigger]
            simple_inside(grid, chamber, walk) && walk[0] == a && walk.last() == b
}

/// What recursive division makes of an empty chamber of odd size is a
/// perfect maze.
pub proof fn lemma_division_is_perfect(grid: Seq<Seq<Cell>>, chamber: Chamber)
    requires
        carved(grid, chamber),
        divided(grid, chamber),
        on_grid(grid, chamber),
        odd_sized(chamber),
    ensures
        perfect(grid, chamber),
{
    assert(joined(grid, chamber)) by {
        reveal(divided);
    }
    lemma_carved_single_walks(grid, chamber);
    assert forall|a: (int, int), b: (int, int)|
        #![trigger chamber.holds(a), chamber.holds(b)]
        chamber.holds(a) && chamber.holds(b) && passable(grid, a) && passable(
            grid,
            b,
        ) implies exists|walk: Seq<(int, int)>| #[trigger]
        simple_inside(grid, chamber, walk) && walk[0] == a && walk.last() == b by {
        assert(linked(grid, chamber, a, b));
        let walk = choose|walk: Seq<(int, int)>|
            #[trigger] walk_inside(grid, chamber, walk) && walk[0] == a && walk.last() == b;
        let simple = lemma_shorten(grid, chamber, walk);
        assert(simple_inside(grid, chamber, simple) && simple[0] == a && simple.last() == b);
    }
}

} // verus!
