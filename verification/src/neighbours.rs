//! What each cell last saw of its four neighbours.
//!
//! A cell never reads a neighbour's element from the grid. It reads what the
//! neighbour pushed to it when the neighbour last changed, so within a tick
//! every rule sees the grid as the previous tick left it.

use vstd::prelude::*;
use crate::element::Element;
use crate::tilemap::Tilemap;
use crate::tilemap::column;
use crate::tilemap::flat;
use crate::tilemap::in_bounds;
use crate::tilemap::lemma_around;
use crate::tilemap::lemma_flat;
use crate::tilemap::lemma_unflat;
use crate::tilemap::row;

verus! {

/// The tile seen at `x - 1`.
#[derive(Debug, Clone, Copy)]
pub struct LeftNeighbour<T>(pub T);

/// The tile seen at `x + 1`.
#[derive(Debug, Clone, Copy)]
pub struct RightNeighbour<T>(pub T);

/// The tile seen at `y + 1`.
#[derive(Debug, Clone, Copy)]
pub struct UpNeighbour<T>(pub T);

/// The tile seen at `y - 1`.
#[derive(Debug, Clone, Copy)]
pub struct DownNeighbour<T>(pub T);

/// One of the four sides of a cell.
#[derive(Debug, Clone, Copy, PartialEq, Eq, Structural)]
pub enum Side {
    Up,
    Down,
    Left,
    Right,
}

/// What one cell has seen on each side. A side that no neighbour ever pushed
/// to, as at the edge of the grid, holds nothing; that differs from seeing air.
#[derive(Debug, Clone, Copy)]
pub struct Neighbours {
    pub up: Option<UpNeighbour<Element>>,
    pub down: Option<DownNeighbour<Element>>,
    pub left: Option<LeftNeighbour<Element>>,
    pub right: Option<RightNeighbour<Element>>,
}

impl Neighbours {
    /// The element seen on `side`, if any.
    pub open spec fn seen(self, side: Side) -> Option<Element> {
        match side {
            Side::Up => match self.up {
                Some(UpNeighbour(element)) => Some(element),
                None => None,
            },
            Side::Down => match self.down {
                Some(DownNeighbour(element)) => Some(element),
                None => None,
            },
            Side::Left => match self.left {
                Some(LeftNeighbour(element)) => Some(element),
                None => None,
            },
            Side::Right => match self.right {
                Some(RightNeighbour(element)) => Some(element),
                None => None,
            },
        }
    }

    /// These observations with `tile` recorded on `side`.
    pub open spec fn marked(self, side: Side, tile: Element) -> Neighbours {
        match side {
            Side::Up => Neighbours { up: Some(UpNeighbour(tile)), ..self },
            Side::Down => Neighbours { down: Some(DownNeighbour(tile)), ..self },
            Side::Left => Neighbours { left: Some(LeftNeighbour(tile)), ..self },
            Side::Right => Neighbours { right: Some(RightNeighbour(tile)), ..self },
        }
    }

    /// Observations of a cell that has seen nothing yet.
    pub fn none() -> (blank: Neighbours)
        ensures
            forall|side: Side| blank.seen(side) is None,
    {
        Neighbours { up: None, down: None, left: None, right: None }
    }

    /// The element seen on `side`, if any.
    pub fn look(&self, side: Side) -> (element: Option<Element>)
        ensures
            element == self.seen(side),
    {
        match side {
            Side::Up => match self.up {
                Some(UpNeighbour(element)) => Some(element),
                None => None,
            },
            Side::Down => match self.down {
                Some(DownNeighbour(element)) => Some(element),
                None => None,
            },
            Side::Left => match self.left {
                Some(LeftNeighbour(element)) => Some(element),
                None => None,
            },
            Side::Right => match self.right {
                Some(RightNeighbour(element)) => Some(element),
                None => None,
            },
        }
    }
}

/// Whether the cell stored at place `i` has a neighbour on `side`.
pub open spec fn has_side(w: int, h: int, i: int, side: Side) -> bool {
    match side {
        Side::Up => row(w, i) + 1 < h,
        Side::Down => 1 <= row(w, i),
        Side::Left => 1 <= column(w, i),
        Side::Right => column(w, i) + 1 < w,
    }
}

/// Place of the neighbour that the cell at place `i` sees on `side`: up is
/// `y + 1`, down is `y - 1`, left is `x - 1`, right is `x + 1`.
pub open spec fn beside(w: int, i: int, side: Side) -> int {
    match side {
        Side::Up => i + w,
        Side::Down => i - w,
        Side::Left => i - 1,
        Side::Right => i + 1,
    }
}

/// What the cell at place `i` sees on `side` when it looks at `cells`.
pub open spec fn sight(cells: Seq<Element>, w: int, h: int, i: int, side: Side) -> Option<Element> {
    if has_side(w, h, i, side) {
        Some(cells[beside(w, i, side)])
    } else {
        None
    }
}

/// Whether `snapshot` holds, for every cell, exactly what the cell sees in
/// `cells`.
pub open spec fn in_sync(snapshot: Seq<Neighbours>, cells: Seq<Element>, w: int, h: int) -> bool {
    &&& snapshot.len() == cells.len()
    &&& forall|i: int, side: Side|
        0 <= i < cells.len() ==> #[trigger] snapshot[i].seen(side) == sight(cells, w, h, i, side)
}

/// Whether `snapshot` is right about every neighbour but those flagged in
/// `changed`, and holds nothing where the grid ends.
pub open spec fn stale_where(
    snapshot: Seq<Neighbours>,
    cells: Seq<Element>,
    w: int,
    h: int,
    changed: Seq<bool>,
) -> bool {
    &&& snapshot.len() == cells.len()
    &&& changed.len() == cells.len()
    &&& forall|i: int, side: Side|
        0 <= i < cells.len() ==> {
            let saw = #[trigger] snapshot[i].seen(side);
            if has_side(w, h, i, side) {
                changed[beside(w, i, side)] || saw == Some(cells[beside(w, i, side)])
            } else {
                saw is None
            }
        }
}

/// Whether `snapshot` is right about what the cell at place `i` sees on
/// `side`, unless the neighbour there changed and is stored at place `k` or
/// later.
pub open spec fn pushed_at(
    snapshot: Seq<Neighbours>,
    cells: Seq<Element>,
    w: int,
    h: int,
    changed: Seq<bool>,
    k: int,
    i: int,
    side: Side,
) -> bool {
    if has_side(w, h, i, side) {
        (changed[beside(w, i, side)] && k <= beside(w, i, side)) || snapshot[i].seen(side) == Some(
            cells[beside(w, i, side)],
        )
    } else {
        snapshot[i].seen(side) is None
    }
}

/// [`stale_where`], with the cells stored before place `k` no longer stale.
pub open spec fn pushed(
    snapshot: Seq<Neighbours>,
    cells: Seq<Element>,
    w: int,
    h: int,
    changed: Seq<bool>,
    k: int,
) -> bool {
    &&& snapshot.len() == cells.len()
    &&& changed.len() == cells.len()
    &&& forall|i: int, side: Side|
        0 <= i < cells.len() ==> #[trigger] pushed_at(snapshot, cells, w, h, changed, k, i, side)
}

/// The side from which a neighbour looks back.
pub open spec fn opposite(side: Side) -> Side {
    match side {
        Side::Up => Side::Down,
        Side::Down => Side::Up,
        Side::Left => Side::Right,
        Side::Right => Side::Left,
    }
}

/// A neighbour that a cell has lies in the grid, and sees the cell on the
/// opposite side.
pub proof fn lemma_beside(w: int, h: int, i: int, side: Side)
    requires
        0 < w,
        0 <= i < w * h,
        has_side(w, h, i, side),
    ensures
        0 <= beside(w, i, side) < w * h,
        has_side(w, h, beside(w, i, side), opposite(side)),
        beside(w, beside(w, i, side), opposite(side)) == i,
{
    let x = column(w, i);
    let y = row(w, i);
    lemma_unflat(w, h, i);
    lemma_around(w, h, x, y);
    match side {
        Side::Up => lemma_flat(w, h, x, y + 1),
        Side::Down => lemma_flat(w, h, x, y - 1),
        Side::Left => lemma_flat(w, h, x - 1, y),
        Side::Right => lemma_flat(w, h, x + 1, y),
    }
}

/// `snapshot` after the cell at `(x, y)` was told that it sees `tile` on
/// `side`. Outside the grid there is no cell to tell.
pub open spec fn told(
    snapshot: Seq<Neighbours>,
    w: int,
    h: int,
    x: int,
    y: int,
    side: Side,
    tile: Element,
) -> Seq<Neighbours> {
    if in_bounds(w, h, x, y) {
        snapshot.update(flat(w, x, y), snapshot[flat(w, x, y)].marked(side, tile))
    } else {
        snapshot
    }
}

/// `snapshot` after the cell at `(x, y)` pushed `tile` to the four cells
/// around it.
pub open spec fn spread(
    snapshot: Seq<Neighbours>,
    w: int,
    h: int,
    x: int,
    y: int,
    tile: Element,
) -> Seq<Neighbours> {
    let below = told(snapshot, w, h, x, y - 1, Side::Up, tile);
    let above = told(below, w, h, x, y + 1, Side::Down, tile);
    let right = told(above, w, h, x + 1, y, Side::Left, tile);
    told(right, w, h, x - 1, y, Side::Right, tile)
}

/// One step of the propagation: once the cell at `(x, y)` has pushed its
/// element if it changed, the snapshot is right about it.
pub proof fn lemma_spread(
    before: Seq<Neighbours>,
    after: Seq<Neighbours>,
    cells: Seq<Element>,
    w: int,
    h: int,
    changed: Seq<bool>,
    x: int,
    y: int,
)
    requires
        in_bounds(w, h, x, y),
        cells.len() == w * h,
        pushed(before, cells, w, h, changed, flat(w, x, y)),
        after == if changed[flat(w, x, y)] {
            spread(before, w, h, x, y, cells[flat(w, x, y)])
        } else {
            before
        },
    ensures
        pushed(after, cells, w, h, changed, flat(w, x, y) + 1),
{
    let k = flat(w, x, y);
    let tile = cells[k];
    lemma_flat(w, h, x, y);
    lemma_around(w, h, x, y);
    let below = told(before, w, h, x, y - 1, Side::Up, tile);
    let above = told(below, w, h, x, y + 1, Side::Down, tile);
    let right = told(above, w, h, x + 1, y, Side::Left, tile);
    let left = told(right, w, h, x - 1, y, Side::Right, tile);
    if 1 <= y {
        lemma_flat(w, h, x, y - 1);
    }
    if y + 1 < h {
        lemma_flat(w, h, x, y + 1);
    }
    if x + 1 < w {
        lemma_flat(w, h, x + 1, y);
    }
    if 1 <= x {
        lemma_flat(w, h, x - 1, y);
    }
    assert forall|i: int, side: Side| 0 <= i < cells.len() implies #[trigger] pushed_at(
        after,
        cells,
        w,
        h,
        changed,
        k + 1,
        i,
        side,
    ) by {
        assert(pushed_at(before, cells, w, h, changed, k, i, side));
        lemma_unflat(w, h, i);
        lemma_around(w, h, column(w, i), row(w, i));
        if has_side(w, h, i, side) {
            lemma_beside(w, h, i, side);
        }
        if changed[k] {
            let told_here = beside(w, i, side) == k && has_side(w, h, i, side);
            assert(below[i].seen(side) == if told_here && side == Side::Up {
                Some(tile)
            } else {
                before[i].seen(side)
            });
            assert(above[i].seen(side) == if told_here && side == Side::Down {
                Some(tile)
            } else {
                below[i].seen(side)
            });
            assert(right[i].seen(side) == if told_here && side == Side::Left {
                Some(tile)
            } else {
                above[i].seen(side)
            });
            assert(left[i].seen(side) == if told_here && side == Side::Right {
                Some(tile)
            } else {
                right[i].seen(side)
            });
        }
    }
}

/// Records `tile` as what the cell at `(x, y)` sees on `side`. Outside the
/// grid there is no cell to tell, and nothing changes.
pub fn mark_neighbour(
    snapshot: &mut Vec<Neighbours>,
    tilemap: &Tilemap,
    tile: Element,
    x: isize,
    y: isize,
    side: Side,
)
    requires
        old(snapshot)@.len() == tilemap@.len(),
    ensures
        final(snapshot)@.len() == old(snapshot)@.len(),
        final(snapshot)@ == told(
            old(snapshot)@,
            tilemap.cols(),
            tilemap.rows(),
            x as int,
            y as int,
            side,
            tile,
        ),
{
    if let Some(i) = tilemap.place(x, y) {
        let seen = snapshot[i];
        let next = match side {
            Side::Up => Neighbours { up: Some(UpNeighbour(tile)), ..seen },
            Side::Down => Neighbours { down: Some(DownNeighbour(tile)), ..seen },
            Side::Left => Neighbours { left: Some(LeftNeighbour(tile)), ..seen },
            Side::Right => Neighbours { right: Some(RightNeighbour(tile)), ..seen },
        };
        snapshot.set(i, next);
    }
}

/// Pushes every changed cell's element to the four cells around it: the cell
/// below sees it above, the cell above sees it below, the cell to the right
/// sees it on its left, and the cell to the left sees it on its right.
///
/// Cells that did not change push nothing. Where the snapshot was right about
/// them before, it is right about every cell afterwards.
pub fn neighbours(snapshot: &mut Vec<Neighbours>, tilemap: &Tilemap, changed: &Vec<bool>)
    requires
        stale_where(old(snapshot)@, tilemap@, tilemap.cols(), tilemap.rows(), changed@),
    ensures
        in_sync(final(snapshot)@, tilemap@, tilemap.cols(), tilemap.rows()),
{
    let width = tilemap.width();
    let height = tilemap.height();
    let ghost w = tilemap.cols();
    let ghost h = tilemap.rows();
    let ghost cells = tilemap@;
    let mut k: usize = 0;
    let mut y: isize = 0;
    proof {
        assert(0 * w == 0) by (nonlinear_arith);
        assert forall|i: int, side: Side| 0 <= i < cells.len() implies #[trigger] pushed_at(
            snapshot@,
            cells,
            w,
            h,
            changed@,
            0,
            i,
            side,
        ) by {
            let saw = snapshot@[i].seen(side);
            if has_side(w, h, i, side) {
                lemma_beside(w, h, i, side);
            }
        }
    }
    while y < height
        invariant
            tilemap.wf(),
            w == tilemap.cols(),
            h == tilemap.rows(),
            cells == tilemap@,
            width == w,
            height == h,
            0 <= y <= h,
            k == y * w,
            pushed(snapshot@, cells, w, h, changed@, k as int),
        decreases h - y,
    {
        let mut x: isize = 0;
        while x < width
            invariant
                tilemap.wf(),
                w == tilemap.cols(),
                h == tilemap.rows(),
                cells == tilemap@,
                width == w,
                height == h,
                0 <= y < h,
                0 <= x <= w,
                k == y * w + x,
                pushed(snapshot@, cells, w, h, changed@, k as int),
            decreases w - x,
        {
            let ghost before = snapshot@;
            proof {
                lemma_flat(w, h, x as int, y as int);
                lemma_around(w, h, x as int, y as int);
            }
            if changed[k] {
                if let Some(tile) = tilemap.get(x, y) {
                    mark_neighbour(snapshot, tilemap, tile, x, y - 1, Side::Up);
                    mark_neighbour(snapshot, tilemap, tile, x, y + 1, Side::Down);
                    mark_neighbour(snapshot, tilemap, tile, x + 1, y, Side::Left);
                    mark_neighbour(snapshot, tilemap, tile, x - 1, y, Side::Right);
                }
            }
            proof {
                lemma_spread(before, snapshot@, cells, w, h, changed@, x as int, y as int);
            }
            k = k + 1;
            x = x + 1;
        }
        assert((y + 1) * w == y * w + w) by (nonlinear_arith);
        y = y + 1;
    }
    proof {
        assert(h * w == w * h) by (nonlinear_arith);
        assert forall|i: int, side: Side| 0 <= i < cells.len() implies #[trigger] snapshot@[i].seen(
            side,
        ) == sight(cells, w, h, i, side) by {
            assert(pushed_at(snapshot@, cells, w, h, changed@, k as int, i, side));
            if has_side(w, h, i, side) {
                lemma_beside(w, h, i, side);
            }
        }
    }
}

} // verus!
