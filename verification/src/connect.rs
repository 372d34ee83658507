//! Walks through a maze, and what it means that a maze is connected.

use vstd::prelude::*;
use crate::carve::{between_taken, carved_out};
use crate::corridor::{
    cell_open, corridor, extends, maze_frame, reached, straight_at, tile_ok, unit_step,
};
use crate::grid::{at, Grid, in_grid, interior, is_room, odd_cell};

verus! {

/// The cell lies in the maze and can be walked on.
pub open spec fn cell_passable(g: Grid, w: int, h: int, c: (usize, usize)) -> bool {
    in_grid(w, h, c.0 as int, c.1 as int) && at(g, c.0 as int, c.1 as int).tile_type.passable()
}

/// The two cells lie side by side.
pub open spec fn adjacent(a: (usize, usize), b: (usize, usize)) -> bool {
    unit_step(b.0 - a.0, b.1 - a.1)
}

/// The cell at place `i` of the path and the next one lie side by side.
pub open spec fn step_at(p: Seq<(usize, usize)>, i: int) -> bool {
    adjacent(p[i], p[i + 1])
}

/// `p` is a walk through the maze: each of its cells can be walked on and lies
/// beside the one before it.
pub open spec fn is_walk(g: Grid, w: int, h: int, p: Seq<(usize, usize)>) -> bool {
    &&& p.len() > 0
    &&& forall|i: int| 0 <= i < p.len() ==> cell_passable(g, w, h, #[trigger] p[i])
    &&& forall|i: int| 0 <= i < p.len() - 1 ==> #[trigger] step_at(p, i)
}

/// A walk leads from (`sx`, `sy`) to (`x`, `y`).
pub open spec fn connected(g: Grid, w: int, h: int, sx: int, sy: int, x: int, y: int) -> bool {
    exists|p: Seq<(usize, usize)>|
        #[trigger] is_walk(g, w, h, p) && p[0].0 == sx && p[0].1 == sy && p.last().0 == x
            && p.last().1 == y
}

/// A walk leads from (`sx`, `sy`) to every cell that can be walked on, that is to
/// every cell that is neither border nor wall.
pub open spec fn fully_connected(g: Grid, w: int, h: int, sx: int, sy: int) -> bool {
    forall|x: int, y: int|
        in_grid(w, h, x, y) && at(g, x, y).tile_type.passable() ==> #[trigger] connected(
            g,
            w,
            h,
            sx,
            sy,
            x,
            y,
        )
}

/// A corridor is a walk.
pub proof fn lemma_corridor_is_walk(g: Grid, w: int, h: int, p: Seq<(usize, usize)>)
    requires
        corridor(g, w, h, p),
    ensures
        is_walk(g, w, h, p),
{
    assert forall|i: int| 0 <= i < p.len() implies cell_passable(g, w, h, #[trigger] p[i]) by {
        assert(cell_open(g, w, h, p[i]));
    }
    assert forall|i: int| 0 <= i < p.len() - 1 implies #[trigger] step_at(p, i) by {
        if i % 2 == 0 {
            assert(straight_at(p, i + 1));
        } else {
            assert(straight_at(p, i));
        }
    }
}

/// A walk stays one when cells are opened or taken.
pub proof fn lemma_walk_extends(g: Grid, g2: Grid, w: int, h: int, p: Seq<(usize, usize)>)
    requires
        is_walk(g, w, h, p),
        extends(g, g2, w, h),
    ensures
        is_walk(g2, w, h, p),
{
    assert forall|i: int| 0 <= i < p.len() implies cell_passable(g2, w, h, #[trigger] p[i]) by {
        assert(cell_passable(g, w, h, p[i]));
        assert(at(g2, p[i].0 as int, p[i].1 as int).tile_type.passable());
    }
    assert forall|i: int| 0 <= i < p.len() - 1 implies #[trigger] step_at(p, i) by {
        assert(step_at(p, i));
    }
}

/// What is connected stays so when cells are opened or taken.
pub proof fn lemma_connected_extends(
    g: Grid,
    g2: Grid,
    w: int,
    h: int,
    sx: int,
    sy: int,
    x: int,
    y: int,
)
    requires
        connected(g, w, h, sx, sy, x, y),
        extends(g, g2, w, h),
    ensures
        connected(g2, w, h, sx, sy, x, y),
{
    let p = choose|p: Seq<(usize, usize)>|
        #[trigger] is_walk(g, w, h, p) && p[0].0 == sx && p[0].1 == sy && p.last().0 == x
            && p.last().1 == y;
    lemma_walk_extends(g, g2, w, h, p);
}

/// A cell that can be walked on and lies beside a connected cell is connected.
pub proof fn lemma_connected_one_more(
    g: Grid,
    w: int,
    h: int,
    sx: int,
    sy: int,
    x: int,
    y: int,
    c: (usize, usize),
)
    requires
        connected(g, w, h, sx, sy, x, y),
        cell_passable(g, w, h, c),
        unit_step(c.0 - x, c.1 - y),
    ensures
        connected(g, w, h, sx, sy, c.0 as int, c.1 as int),
{
    let p = choose|p: Seq<(usize, usize)>|
        #[trigger] is_walk(g, w, h, p) && p[0].0 == sx && p[0].1 == sy && p.last().0 == x
            && p.last().1 == y;
    let q = p.push(c);
    assert forall|i: int| 0 <= i < q.len() implies cell_passable(g, w, h, #[trigger] q[i]) by {
        if i < p.len() {
            assert(q[i] == p[i]);
            assert(cell_passable(g, w, h, p[i]));
        }
    }
    assert forall|i: int| 0 <= i < q.len() - 1 implies #[trigger] step_at(q, i) by {
        if i < p.len() - 1 {
            assert(step_at(p, i));
            assert(q[i] == p[i]);
            assert(q[i + 1] == p[i + 1]);
        } else {
            assert(q[i] == p.last());
        }
    }
    assert(q[0] == p[0]);
    assert(q.last() == c);
    assert(is_walk(g, w, h, q));
}

/// A room that a corridor reaches is connected.
pub proof fn lemma_reached_is_connected(
    g: Grid,
    w: int,
    h: int,
    sx: int,
    sy: int,
    x: int,
    y: int,
    bound: int,
)
    requires
        reached(g, w, h, sx, sy, x, y, bound),
    ensures
        connected(g, w, h, sx, sy, x, y),
{
    let p = choose|p: Seq<(usize, usize)>|
        #[trigger] corridor(g, w, h, p) && p[0].0 == sx && p[0].1 == sy && p.last().0 == x
            && p.last().1 == y && p.len() <= bound;
    lemma_corridor_is_walk(g, w, h, p);
}

/// When the walk has ended, a walk leads from the start to every cell that can
/// be walked on.
pub proof fn lemma_carved_is_connected(
    g: Grid,
    w: int,
    h: int,
    sx: int,
    sy: int,
    best: Seq<(usize, usize)>,
)
    requires
        carved_out(g, w, h, sx, sy, best),
        w <= usize::MAX,
        h <= usize::MAX,
    ensures
        fully_connected(g, w, h, sx, sy),
{
    reveal(maze_frame);
    assert forall|x: int, y: int|
        in_grid(w, h, x, y) && at(g, x, y).tile_type.passable() implies #[trigger] connected(
        g,
        w,
        h,
        sx,
        sy,
        x,
        y,
    ) by {
        assert(tile_ok(w, h, x, y, at(g, x, y)));
        if is_room(w, h, x, y) {
            assert(reached(g, w, h, sx, sy, x, y, best.len() as int));
            lemma_reached_is_connected(g, w, h, sx, sy, x, y, best.len() as int);
        } else {
            assert(interior(w, h, x, y) && !odd_cell(x, y));
            assert(between_taken(g, x, y));
            let c = (x as usize, y as usize);
            if x % 2 == 0 {
                assert(is_room(w, h, x - 1, y));
                assert(reached(g, w, h, sx, sy, x - 1, y, best.len() as int));
                lemma_reached_is_connected(g, w, h, sx, sy, x - 1, y, best.len() as int);
                lemma_connected_one_more(g, w, h, sx, sy, x - 1, y, c);
            } else {
                assert(is_room(w, h, x, y - 1));
                assert(reached(g, w, h, sx, sy, x, y - 1, best.len() as int));
                lemma_reached_is_connected(g, w, h, sx, sy, x, y - 1, best.len() as int);
                lemma_connected_one_more(g, w, h, sx, sy, x, y - 1, c);
            }
        }
    }
}

/// A maze stays fully connected when none of its cells changes between what can
/// and what cannot be walked on.
pub proof fn lemma_fully_connected_extends(g: Grid, g2: Grid, w: int, h: int, sx: int, sy: int)
    requires
        fully_connected(g, w, h, sx, sy),
        extends(g, g2, w, h),
        forall|x: int, y: int|
            in_grid(w, h, x, y) && (#[trigger] at(g2, x, y)).tile_type.passable() ==> at(
                g,
                x,
                y,
            ).tile_type.passable(),
    ensures
        fully_connected(g2, w, h, sx, sy),
{
    assert forall|x: int, y: int|
        in_grid(w, h, x, y) && at(g2, x, y).tile_type.passable() implies #[trigger] connected(
        g2,
        w,
        h,
        sx,
        sy,
        x,
        y,
    ) by {
        assert(connected(g, w, h, sx, sy, x, y));
        lemma_connected_extends(g, g2, w, h, sx, sy, x, y);
    }
}

} // verus!
