//! What holds of every tick, whatever is drawn.

use vstd::prelude::*;
use vstd::seq_lib::to_multiset_update;
use crate::brush::lemma_painted;
use crate::brush::painted;
use crate::brush::Stroke;
use crate::element::is_open;
use crate::element::Element;
use crate::element::THRESHOLD;
use crate::neighbours::beside;
use crate::neighbours::has_side;
use crate::neighbours::in_sync;
use crate::neighbours::lemma_beside;
use crate::neighbours::sight;
use crate::neighbours::Neighbours;
use crate::neighbours::Side;
use crate::random::may_step;
use crate::rules::fair;
use crate::rules::held;
use crate::rules::lemma_sweep_len;
use crate::rules::may_slide;
use crate::rules::sweep;
use crate::rules::target;
use crate::rules::verdict;
use crate::rules::visit;
use crate::rules::Sweep;
use crate::rules::Verdict;
use crate::scheduler::tick;
use crate::tilemap::column;
use crate::tilemap::flat;
use crate::tilemap::in_bounds;
use crate::tilemap::lemma_around;
use crate::tilemap::lemma_flat;
use crate::tilemap::lemma_unflat;
use crate::tilemap::row;

verus! {

/// Whether no grain of sand in `cells` has gathered the threshold.
pub open spec fn compact(cells: Seq<Element>) -> bool {
    forall|i: int|
        0 <= i < cells.len() ==> (#[trigger] cells[i] matches Element::Sand(compaction)
            ==> compaction < THRESHOLD)
}

/// Whether no stroke lays sand that has gathered the threshold.
pub open spec fn loose(strokes: Seq<Stroke>) -> bool {
    forall|s: int|
        0 <= s < strokes.len() ==> ((#[trigger] strokes[s]).paint matches Element::Sand(
            compaction,
        ) ==> compaction < THRESHOLD)
}

/// A tick neither adds nor removes a cell: the grid holds one element for
/// every coordinate before it and after it.
pub proof fn conservation(
    cells: Seq<Element>,
    snapshot: Seq<Neighbours>,
    strokes: Seq<Stroke>,
    w: int,
    h: int,
    offsets: Seq<int>,
)
    requires
        0 < w,
        cells.len() == w * h,
    ensures
        tick(cells, snapshot, strokes, w, h, offsets).len() == w * h,
{
    let calm = Seq::new(cells.len(), |i: int| false);
    lemma_painted(cells, calm, w, strokes);
    lemma_sweep_len(
        painted(cells, w, strokes),
        crate::brush::flagged(calm, w, strokes),
        snapshot,
        w,
        h,
        offsets,
        cells.len(),
    );
}

/// A sideways step is -1, 0 or 1. It is 0 where neither side shows air or
/// water, never to the left where the left side is shut, and never to the
/// right where the right side is shut.
pub proof fn step_bounds(
    left: Option<Element>,
    right: Option<Element>,
    eagerness: int,
    offset: int,
)
    requires
        0 <= eagerness,
        may_step(left, right, eagerness, offset),
    ensures
        -1 <= offset <= 1,
        !is_open(left) ==> 0 <= offset,
        !is_open(right) ==> offset <= 0,
        !is_open(left) && !is_open(right) ==> offset == 0,
{
}

/// Water that saw air below heads there, whatever lies beside it and whatever
/// would have been drawn.
pub proof fn water_seeks_air_below(seen: Neighbours, x: int, y: int, offset: int)
    requires
        seen.seen(Side::Down) == Some(Element::Air),
    ensures
        verdict(Element::Water, seen) == Verdict::Fall(Element::Water),
        target(verdict(Element::Water, seen), x, y, offset) == Some((x, y - 1, Element::Water)),
{
}

/// No rule leaves a grain of sand with the threshold gathered: where a pile
/// reaches it, the grain is loose again in the same evaluation.
pub proof fn compaction_bound(element: Element, seen: Neighbours)
    ensures
        match verdict(element, seen) {
            Verdict::Idle => true,
            Verdict::Settle(becomes) | Verdict::Fall(becomes) | Verdict::Slide(becomes, _) => (
            becomes matches Element::Sand(compaction) ==> compaction < THRESHOLD),
        },
{
}

/// Sand that saw rock below, or the edge, rests where it is, loose. Judged
/// again where it rests, it rests again.
pub proof fn sand_settles(compaction: u8, seen: Neighbours, x: int, y: int, offset: int)
    requires
        seen.seen(Side::Down) == Some(Element::Rock) || seen.seen(Side::Down) is None,
    ensures
        target(verdict(Element::Sand(compaction), seen), x, y, offset) == Some(
            (x, y, Element::Sand(0)),
        ),
        verdict(Element::Sand(0), seen) == verdict(Element::Sand(compaction), seen),
{
}

/// Whether a cell that holds `element` and saw `seen` may move to the cell on
/// its `side`: down where it falls, left or right where it slides and that
/// side showed air or water. Nothing moves up.
pub open spec fn bound_for(element: Element, seen: Neighbours, side: Side) -> bool {
    match side {
        Side::Up => false,
        Side::Down => verdict(element, seen) is Fall,
        Side::Left => verdict(element, seen) is Slide && is_open(seen.seen(Side::Left)),
        Side::Right => verdict(element, seen) is Slide && is_open(seen.seen(Side::Right)),
    }
}

/// Whether nothing beside the cell at place `c` is bound for it when the pass
/// begins: not the cell above, not the cell to its left, not the cell to its
/// right.
pub open spec fn sheltered(
    cells: Seq<Element>,
    snapshot: Seq<Neighbours>,
    w: int,
    h: int,
    c: int,
) -> bool {
    &&& has_side(w, h, c, Side::Up) ==> !bound_for(
        cells[beside(w, c, Side::Up)],
        snapshot[beside(w, c, Side::Up)],
        Side::Down,
    )
    &&& has_side(w, h, c, Side::Left) ==> !bound_for(
        cells[beside(w, c, Side::Left)],
        snapshot[beside(w, c, Side::Left)],
        Side::Right,
    )
    &&& has_side(w, h, c, Side::Right) ==> !bound_for(
        cells[beside(w, c, Side::Right)],
        snapshot[beside(w, c, Side::Right)],
        Side::Left,
    )
}

/// Where every cell has seen the grid as it is, nothing is bound for a cell
/// that holds rock or sand.
pub proof fn lemma_in_sync_shelters(
    cells: Seq<Element>,
    snapshot: Seq<Neighbours>,
    w: int,
    h: int,
    c: int,
)
    requires
        0 < w,
        cells.len() == w * h,
        in_sync(snapshot, cells, w, h),
        0 <= c < cells.len(),
        !is_open(Some(cells[c])),
    ensures
        sheltered(cells, snapshot, w, h, c),
{
    if has_side(w, h, c, Side::Up) {
        let n = beside(w, c, Side::Up);
        lemma_beside(w, h, c, Side::Up);
        assert(snapshot[n].seen(Side::Down) == sight(cells, w, h, n, Side::Down));
    }
    if has_side(w, h, c, Side::Left) {
        let n = beside(w, c, Side::Left);
        lemma_beside(w, h, c, Side::Left);
        assert(snapshot[n].seen(Side::Right) == sight(cells, w, h, n, Side::Right));
    }
    if has_side(w, h, c, Side::Right) {
        let n = beside(w, c, Side::Right);
        lemma_beside(w, h, c, Side::Right);
        assert(snapshot[n].seen(Side::Left) == sight(cells, w, h, n, Side::Left));
    }
}

/// The visit of one cell changes another cell, its marker or its flag only by
/// moving into it: the cell below where the visited cell falls, or the cell
/// beside it in the same row where it slides. The cell moved into is then
/// taken.
pub proof fn lemma_frame(
    state: Sweep,
    snapshot: Seq<Neighbours>,
    w: int,
    h: int,
    i: int,
    offset: int,
    j: int,
)
    requires
        0 < w,
        state.cells.len() == w * h,
        state.taken.len() == w * h,
        state.changed.len() == w * h,
        0 <= i < w * h,
        0 <= j < w * h,
        i != j,
        -1 <= offset <= 1,
    ensures
        ({
            let after = visit(state, snapshot, w, h, i, offset);
            let decided = verdict(state.cells[i], snapshot[i]);
            ||| {
                &&& after.cells[j] == state.cells[j]
                &&& after.taken[j] == state.taken[j]
                &&& after.changed[j] == state.changed[j]
            }
            ||| {
                &&& !state.taken[i]
                &&& after.taken[j]
                &&& after.cells[j] == state.cells[i]
                &&& {
                    ||| j == i - w && decided is Fall
                    ||| j == i + offset && row(w, j) == row(w, i) && decided is Slide
                }
            }
        }),
{
    let x = column(w, i);
    let y = row(w, i);
    lemma_unflat(w, h, i);
    lemma_around(w, h, x, y);
    if !state.taken[i] {
        let sent = target(verdict(state.cells[i], snapshot[i]), x, y, offset);
        if let Some((to_x, to_y, becomes)) = sent {
            if !(to_x == x && to_y == y) && in_bounds(w, h, to_x, to_y) {
                lemma_flat(w, h, to_x, to_y);
            }
        }
    }
}

/// Until its turn comes, a cell holds what it held when the pass began, and
/// its flag is as it was, unless something has moved into it.
pub proof fn lemma_waiting(
    cells: Seq<Element>,
    changed: Seq<bool>,
    snapshot: Seq<Neighbours>,
    w: int,
    h: int,
    offsets: Seq<int>,
    c: int,
    k: nat,
)
    requires
        0 < w,
        cells.len() == w * h,
        changed.len() == cells.len(),
        snapshot.len() == cells.len(),
        fair(offsets, snapshot),
        0 <= c < cells.len(),
        k <= c,
    ensures
        ({
            let state = sweep(cells, changed, snapshot, w, h, offsets, k);
            state.taken[c] || (state.cells[c] == cells[c] && state.changed[c] == changed[c])
        }),
    decreases k,
{
    if k > 0 {
        let before = sweep(cells, changed, snapshot, w, h, offsets, (k - 1) as nat);
        lemma_waiting(cells, changed, snapshot, w, h, offsets, c, (k - 1) as nat);
        lemma_sweep_len(cells, changed, snapshot, w, h, offsets, (k - 1) as nat);
        assert(may_slide(snapshot[k - 1], offsets[k - 1]));
        lemma_frame(before, snapshot, w, h, k - 1, offsets[k - 1], c);
    }
}

/// The visit of a cell beside a sheltered cell leaves the sheltered cell, its
/// marker and its flag as they were.
proof fn lemma_bystander(
    cells: Seq<Element>,
    changed: Seq<bool>,
    snapshot: Seq<Neighbours>,
    w: int,
    h: int,
    offsets: Seq<int>,
    c: int,
    i: int,
)
    requires
        0 < w,
        cells.len() == w * h,
        changed.len() == cells.len(),
        snapshot.len() == cells.len(),
        fair(offsets, snapshot),
        0 <= c < cells.len(),
        0 <= i < cells.len(),
        i != c,
        sheltered(cells, snapshot, w, h, c),
    ensures
        ({
            let before = sweep(cells, changed, snapshot, w, h, offsets, i as nat);
            let after = sweep(cells, changed, snapshot, w, h, offsets, (i + 1) as nat);
            &&& after.cells[c] == before.cells[c]
            &&& after.taken[c] == before.taken[c]
            &&& after.changed[c] == before.changed[c]
        }),
{
    let before = sweep(cells, changed, snapshot, w, h, offsets, i as nat);
    lemma_sweep_len(cells, changed, snapshot, w, h, offsets, i as nat);
    lemma_waiting(cells, changed, snapshot, w, h, offsets, i, i as nat);
    assert(may_slide(snapshot[i], offsets[i]));
    lemma_frame(before, snapshot, w, h, i, offsets[i], c);
    lemma_unflat(w, h, i);
    lemma_unflat(w, h, c);
    lemma_around(w, h, column(w, c), row(w, c));
    lemma_around(w, h, column(w, i), row(w, i));
}

/// The pass leaves a sheltered cell alone until its own turn, and again after
/// it.
pub proof fn lemma_sheltered(
    cells: Seq<Element>,
    changed: Seq<bool>,
    snapshot: Seq<Neighbours>,
    w: int,
    h: int,
    offsets: Seq<int>,
    c: int,
    k: nat,
)
    requires
        0 < w,
        cells.len() == w * h,
        changed.len() == cells.len(),
        snapshot.len() == cells.len(),
        fair(offsets, snapshot),
        0 <= c < cells.len(),
        sheltered(cells, snapshot, w, h, c),
        k <= cells.len(),
    ensures
        ({
            let state = sweep(cells, changed, snapshot, w, h, offsets, k);
            let turned = sweep(cells, changed, snapshot, w, h, offsets, (c + 1) as nat);
            &&& !state.taken[c]
            &&& k <= c ==> state.cells[c] == cells[c] && state.changed[c] == changed[c]
            &&& k > c ==> state.cells[c] == turned.cells[c] && state.changed[c]
                == turned.changed[c]
        }),
    decreases k,
{
    if k > 0 {
        lemma_sheltered(cells, changed, snapshot, w, h, offsets, c, (k - 1) as nat);
        lemma_sweep_len(cells, changed, snapshot, w, h, offsets, (k - 1) as nat);
        if k - 1 != c {
            lemma_bystander(cells, changed, snapshot, w, h, offsets, c, k - 1);
        } else {
            let before = sweep(cells, changed, snapshot, w, h, offsets, c as nat);
            let x = column(w, c);
            let y = row(w, c);
            lemma_unflat(w, h, c);
            let sent = target(verdict(before.cells[c], snapshot[c]), x, y, offsets[c]);
            if let Some((to_x, to_y, becomes)) = sent {
                if !(to_x == x && to_y == y) && in_bounds(w, h, to_x, to_y) {
                    lemma_flat(w, h, to_x, to_y);
                }
            }
        }
    }
}

/// A rock in a pass. Where nothing beside it is bound for it, the rock is
/// judged as it stands when the pass begins: if it saw rock or the edge on all
/// four sides, its turn changes nothing and it is rock after the pass, its
/// flag as it was; otherwise its turn writes loose sand in its place and
/// raises its flag, and it is loose sand after the pass. Its turn touches no
/// other cell.
pub proof fn rock_in_pass(
    cells: Seq<Element>,
    changed: Seq<bool>,
    snapshot: Seq<Neighbours>,
    w: int,
    h: int,
    offsets: Seq<int>,
    x: int,
    y: int,
)
    requires
        0 < w,
        cells.len() == w * h,
        changed.len() == cells.len(),
        snapshot.len() == cells.len(),
        fair(offsets, snapshot),
        in_bounds(w, h, x, y),
        cells[flat(w, x, y)] == Element::Rock,
        sheltered(cells, snapshot, w, h, flat(w, x, y)),
    ensures
        ({
            let c = flat(w, x, y);
            let before = sweep(cells, changed, snapshot, w, h, offsets, c as nat);
            let after = sweep(cells, changed, snapshot, w, h, offsets, (c + 1) as nat);
            let swept = sweep(cells, changed, snapshot, w, h, offsets, cells.len());
            &&& after.taken == before.taken
            &&& held(snapshot[c]) ==> {
                &&& after.cells == before.cells
                &&& swept.cells[c] == Element::Rock
                &&& swept.changed[c] == changed[c]
            }
            &&& !held(snapshot[c]) ==> {
                &&& after.cells == before.cells.update(c, Element::Sand(0))
                &&& swept.cells[c] == Element::Sand(0)
                &&& swept.changed[c]
            }
        }),
{
    let c = flat(w, x, y);
    lemma_flat(w, h, x, y);
    lemma_sheltered(cells, changed, snapshot, w, h, offsets, c, cells.len());
    lemma_sheltered(cells, changed, snapshot, w, h, offsets, c, c as nat);
    lemma_sweep_len(cells, changed, snapshot, w, h, offsets, c as nat);
    let before = sweep(cells, changed, snapshot, w, h, offsets, c as nat);
    let after = sweep(cells, changed, snapshot, w, h, offsets, (c + 1) as nat);
    if held(snapshot[c]) {
        assert(after.cells =~= before.cells);
    } else {
        assert(after.cells =~= before.cells.update(c, Element::Sand(0)));
    }
}

/// Sand in a pass. Where nothing beside it is bound for it, sand that saw
/// rock below, or the edge, is judged as it stands when the pass begins: its
/// turn writes loose sand in its place and touches no other cell, so it is
/// loose sand in the same cell after the pass. Its flag is raised only if it
/// was not loose before: sand that rests loose is not written again.
pub proof fn sand_in_pass(
    cells: Seq<Element>,
    changed: Seq<bool>,
    snapshot: Seq<Neighbours>,
    w: int,
    h: int,
    offsets: Seq<int>,
    x: int,
    y: int,
)
    requires
        0 < w,
        cells.len() == w * h,
        changed.len() == cells.len(),
        snapshot.len() == cells.len(),
        fair(offsets, snapshot),
        in_bounds(w, h, x, y),
        cells[flat(w, x, y)] is Sand,
        snapshot[flat(w, x, y)].seen(Side::Down) == Some(Element::Rock) || snapshot[flat(
            w,
            x,
            y,
        )].seen(Side::Down) is None,
        sheltered(cells, snapshot, w, h, flat(w, x, y)),
    ensures
        ({
            let c = flat(w, x, y);
            let before = sweep(cells, changed, snapshot, w, h, offsets, c as nat);
            let after = sweep(cells, changed, snapshot, w, h, offsets, (c + 1) as nat);
            let swept = sweep(cells, changed, snapshot, w, h, offsets, cells.len());
            &&& after.taken == before.taken
            &&& after.cells == before.cells.update(c, Element::Sand(0))
            &&& swept.cells[c] == Element::Sand(0)
            &&& swept.changed[c] == (changed[c] || cells[c] != Element::Sand(0))
        }),
{
    let c = flat(w, x, y);
    lemma_flat(w, h, x, y);
    lemma_sheltered(cells, changed, snapshot, w, h, offsets, c, cells.len());
    lemma_sheltered(cells, changed, snapshot, w, h, offsets, c, c as nat);
    lemma_sweep_len(cells, changed, snapshot, w, h, offsets, c as nat);
    let before = sweep(cells, changed, snapshot, w, h, offsets, c as nat);
    let after = sweep(cells, changed, snapshot, w, h, offsets, (c + 1) as nat);
    assert(after.cells =~= before.cells.update(c, Element::Sand(0)));
}

/// Water that saw air below is not moved aside before its turn, provided the
/// cell to its left is not bound for it.
proof fn lemma_water_waits(
    cells: Seq<Element>,
    changed: Seq<bool>,
    snapshot: Seq<Neighbours>,
    w: int,
    h: int,
    offsets: Seq<int>,
    x: int,
    y: int,
    k: nat,
)
    requires
        0 < w,
        cells.len() == w * h,
        changed.len() == cells.len(),
        snapshot.len() == cells.len(),
        fair(offsets, snapshot),
        in_bounds(w, h, x, y),
        x == 0 || !bound_for(cells[flat(w, x - 1, y)], snapshot[flat(w, x - 1, y)], Side::Right),
        k <= flat(w, x, y),
    ensures
        !sweep(cells, changed, snapshot, w, h, offsets, k).taken[flat(w, x, y)],
        sweep(cells, changed, snapshot, w, h, offsets, k).cells[flat(w, x, y)] == cells[flat(
            w,
            x,
            y,
        )],
    decreases k,
{
    let c = flat(w, x, y);
    lemma_flat(w, h, x, y);
    lemma_around(w, h, x, y);
    if k > 0 {
        let i = k - 1;
        let before = sweep(cells, changed, snapshot, w, h, offsets, i as nat);
        lemma_water_waits(cells, changed, snapshot, w, h, offsets, x, y, i as nat);
        lemma_sweep_len(cells, changed, snapshot, w, h, offsets, i as nat);
        assert(may_slide(snapshot[i], offsets[i]));
        lemma_frame(before, snapshot, w, h, i, offsets[i], c);
        if i == c - 1 {
            lemma_waiting(cells, changed, snapshot, w, h, offsets, i, i as nat);
            lemma_unflat(w, h, i);
            if 1 <= x {
                lemma_flat(w, h, x - 1, y);
            }
        }
    }
}

/// Once the turn of the cell above it has passed, nothing moves into a cell
/// for the rest of the pass.
proof fn lemma_left_behind(
    cells: Seq<Element>,
    changed: Seq<bool>,
    snapshot: Seq<Neighbours>,
    w: int,
    h: int,
    offsets: Seq<int>,
    x: int,
    y: int,
    k: nat,
)
    requires
        0 < w,
        cells.len() == w * h,
        changed.len() == cells.len(),
        snapshot.len() == cells.len(),
        fair(offsets, snapshot),
        in_bounds(w, h, x, y),
        1 <= y,
        flat(w, x, y) < k <= cells.len(),
    ensures
        sweep(cells, changed, snapshot, w, h, offsets, k).cells[flat(w, x, y - 1)] == sweep(
            cells,
            changed,
            snapshot,
            w,
            h,
            offsets,
            (flat(w, x, y) + 1) as nat,
        ).cells[flat(w, x, y - 1)],
    decreases k,
{
    let c = flat(w, x, y);
    let d = flat(w, x, y - 1);
    lemma_flat(w, h, x, y);
    lemma_flat(w, h, x, y - 1);
    lemma_around(w, h, x, y);
    if k > c + 1 {
        let i = k - 1;
        let before = sweep(cells, changed, snapshot, w, h, offsets, i as nat);
        lemma_left_behind(cells, changed, snapshot, w, h, offsets, x, y, i as nat);
        lemma_sweep_len(cells, changed, snapshot, w, h, offsets, i as nat);
        assert(may_slide(snapshot[i], offsets[i]));
        lemma_frame(before, snapshot, w, h, i, offsets[i], d);
        lemma_unflat(w, h, i);
    }
}

/// Water in a pass. Water that saw air below, with a cell below it in the
/// grid, waits untouched for its turn wherever the cell to its left is not
/// bound for it. Its turn trades it with the cell below, in the same column,
/// whatever it saw beside it and whatever is drawn: the cell below takes the
/// water and is taken, the cell it left takes what the cell below held at
/// that moment. Nothing moves into the cell below for the rest of the pass,
/// so it holds water after the pass.
pub proof fn water_in_pass(
    cells: Seq<Element>,
    changed: Seq<bool>,
    snapshot: Seq<Neighbours>,
    w: int,
    h: int,
    offsets: Seq<int>,
    x: int,
    y: int,
)
    requires
        0 < w,
        cells.len() == w * h,
        changed.len() == cells.len(),
        snapshot.len() == cells.len(),
        fair(offsets, snapshot),
        in_bounds(w, h, x, y),
        1 <= y,
        cells[flat(w, x, y)] == Element::Water,
        snapshot[flat(w, x, y)].seen(Side::Down) == Some(Element::Air),
        x == 0 || !bound_for(cells[flat(w, x - 1, y)], snapshot[flat(w, x - 1, y)], Side::Right),
    ensures
        ({
            let c = flat(w, x, y);
            let d = flat(w, x, y - 1);
            let before = sweep(cells, changed, snapshot, w, h, offsets, c as nat);
            let after = sweep(cells, changed, snapshot, w, h, offsets, (c + 1) as nat);
            let swept = sweep(cells, changed, snapshot, w, h, offsets, cells.len());
            &&& !before.taken[c]
            &&& before.cells[c] == Element::Water
            &&& after.cells == before.cells.update(c, before.cells[d]).update(d, Element::Water)
            &&& after.taken == before.taken.update(d, true)
            &&& swept.cells[d] == Element::Water
        }),
{
    let c = flat(w, x, y);
    let d = flat(w, x, y - 1);
    lemma_flat(w, h, x, y);
    lemma_flat(w, h, x, y - 1);
    lemma_around(w, h, x, y);
    lemma_water_waits(cells, changed, snapshot, w, h, offsets, x, y, c as nat);
    lemma_sweep_len(cells, changed, snapshot, w, h, offsets, c as nat);
    let before = sweep(cells, changed, snapshot, w, h, offsets, c as nat);
    let after = sweep(cells, changed, snapshot, w, h, offsets, (c + 1) as nat);
    assert(after.cells =~= before.cells.update(c, before.cells[d]).update(d, Element::Water));
    assert(after.taken =~= before.taken.update(d, true));
    if c + 1 < cells.len() {
        lemma_left_behind(cells, changed, snapshot, w, h, offsets, x, y, cells.len());
    }
}

/// In a tick without strokes, water that saw air below is in the cell below
/// after the tick, provided the cell to its left holds nothing that could
/// slide into its place first: the water is at the left edge, or that cell
/// holds air or rock.
pub proof fn water_lands_below(
    cells: Seq<Element>,
    snapshot: Seq<Neighbours>,
    w: int,
    h: int,
    offsets: Seq<int>,
    x: int,
    y: int,
)
    requires
        0 < w,
        cells.len() == w * h,
        in_sync(snapshot, cells, w, h),
        fair(offsets, snapshot),
        in_bounds(w, h, x, y),
        cells[flat(w, x, y)] == Element::Water,
        snapshot[flat(w, x, y)].seen(Side::Down) == Some(Element::Air),
        x == 0 || cells[flat(w, x - 1, y)] == Element::Air || cells[flat(w, x - 1, y)]
            == Element::Rock,
    ensures
        1 <= y,
        tick(cells, snapshot, Seq::empty(), w, h, offsets)[flat(w, x, y - 1)] == Element::Water,
{
    let c = flat(w, x, y);
    let calm = Seq::new(cells.len(), |i: int| false);
    lemma_flat(w, h, x, y);
    lemma_around(w, h, x, y);
    assert(snapshot[c].seen(Side::Down) == sight(cells, w, h, c, Side::Down));
    water_in_pass(cells, calm, snapshot, w, h, offsets, x, y);
}

/// In a tick without strokes, a rock that saw rock or the edge on all four
/// sides is rock after the tick, and any other rock is loose sand after it.
pub proof fn rock_stability(
    cells: Seq<Element>,
    snapshot: Seq<Neighbours>,
    w: int,
    h: int,
    offsets: Seq<int>,
    x: int,
    y: int,
)
    requires
        0 < w,
        cells.len() == w * h,
        in_sync(snapshot, cells, w, h),
        fair(offsets, snapshot),
        in_bounds(w, h, x, y),
        cells[flat(w, x, y)] == Element::Rock,
    ensures
        tick(cells, snapshot, Seq::empty(), w, h, offsets)[flat(w, x, y)] == if held(
            snapshot[flat(w, x, y)],
        ) {
            Element::Rock
        } else {
            Element::Sand(0)
        },
{
    let calm = Seq::new(cells.len(), |i: int| false);
    lemma_flat(w, h, x, y);
    lemma_in_sync_shelters(cells, snapshot, w, h, flat(w, x, y));
    rock_in_pass(cells, calm, snapshot, w, h, offsets, x, y);
}

/// In a tick without strokes, sand that saw rock below, or the edge, is in
/// the same cell after the tick, loose.
pub proof fn sand_rests(
    cells: Seq<Element>,
    snapshot: Seq<Neighbours>,
    w: int,
    h: int,
    offsets: Seq<int>,
    x: int,
    y: int,
)
    requires
        0 < w,
        cells.len() == w * h,
        in_sync(snapshot, cells, w, h),
        fair(offsets, snapshot),
        in_bounds(w, h, x, y),
        cells[flat(w, x, y)] is Sand,
        snapshot[flat(w, x, y)].seen(Side::Down) == Some(Element::Rock) || snapshot[flat(
            w,
            x,
            y,
        )].seen(Side::Down) is None,
    ensures
        tick(cells, snapshot, Seq::empty(), w, h, offsets)[flat(w, x, y)] == Element::Sand(0),
{
    let calm = Seq::new(cells.len(), |i: int| false);
    lemma_flat(w, h, x, y);
    lemma_in_sync_shelters(cells, snapshot, w, h, flat(w, x, y));
    sand_in_pass(cells, calm, snapshot, w, h, offsets, x, y);
}

/// A grid of nothing but rock is the same after a tick without strokes.
pub proof fn rock_is_a_fixed_point(
    cells: Seq<Element>,
    snapshot: Seq<Neighbours>,
    w: int,
    h: int,
    offsets: Seq<int>,
)
    requires
        0 < w,
        cells.len() == w * h,
        in_sync(snapshot, cells, w, h),
        fair(offsets, snapshot),
        forall|i: int| 0 <= i < cells.len() ==> cells[i] == Element::Rock,
    ensures
        tick(cells, snapshot, Seq::empty(), w, h, offsets) == cells,
{
    conservation(cells, snapshot, Seq::empty(), w, h, offsets);
    assert forall|i: int| 0 <= i < cells.len() implies tick(
        cells,
        snapshot,
        Seq::empty(),
        w,
        h,
        offsets,
    )[i] == cells[i] by {
        lemma_unflat(w, h, i);
        assert(snapshot[i].seen(Side::Up) == sight(cells, w, h, i, Side::Up));
        assert(snapshot[i].seen(Side::Down) == sight(cells, w, h, i, Side::Down));
        assert(snapshot[i].seen(Side::Left) == sight(cells, w, h, i, Side::Left));
        assert(snapshot[i].seen(Side::Right) == sight(cells, w, h, i, Side::Right));
        if has_side(w, h, i, Side::Up) {
            lemma_beside(w, h, i, Side::Up);
        }
        if has_side(w, h, i, Side::Down) {
            lemma_beside(w, h, i, Side::Down);
        }
        if has_side(w, h, i, Side::Left) {
            lemma_beside(w, h, i, Side::Left);
        }
        if has_side(w, h, i, Side::Right) {
            lemma_beside(w, h, i, Side::Right);
        }
        rock_stability(cells, snapshot, w, h, offsets, column(w, i), row(w, i));
    }
    assert(tick(cells, snapshot, Seq::empty(), w, h, offsets) =~= cells);
}

/// How many cells hold exactly `element`.
pub open spec fn amount(cells: Seq<Element>, element: Element) -> nat {
    cells.to_multiset().count(element)
}

/// Writing over one cell takes one of what the cell held and adds one of
/// what was written.
proof fn lemma_amount_update(cells: Seq<Element>, i: int, written: Element, element: Element)
    requires
        0 <= i < cells.len(),
    ensures
        amount(cells.update(i, written), element) == amount(cells, element) + (if written
            == element {
            1int
        } else {
            0int
        }) - (if cells[i] == element {
            1int
        } else {
            0int
        }),
{
    broadcast use vstd::multiset::group_multiset_axioms;

    to_multiset_update(cells, i, written);
    cells.to_multiset_ensures();
    assert(cells.contains(cells[i]));
}

/// The visit of a cell keeps the amounts of air and of water.
proof fn lemma_visit_keeps(
    state: Sweep,
    snapshot: Seq<Neighbours>,
    w: int,
    h: int,
    i: int,
    offset: int,
    element: Element,
)
    requires
        0 < w,
        state.cells.len() == w * h,
        0 <= i < w * h,
        element == Element::Air || element == Element::Water,
    ensures
        amount(visit(state, snapshot, w, h, i, offset).cells, element) == amount(
            state.cells,
            element,
        ),
{
    let x = column(w, i);
    let y = row(w, i);
    if !state.taken[i] {
        let sent = target(verdict(state.cells[i], snapshot[i]), x, y, offset);
        if let Some((to_x, to_y, becomes)) = sent {
            if to_x == x && to_y == y {
                lemma_amount_update(state.cells, i, becomes, element);
            } else if in_bounds(w, h, to_x, to_y) {
                let j = flat(w, to_x, to_y);
                lemma_flat(w, h, to_x, to_y);
                lemma_amount_update(state.cells, i, state.cells[j], element);
                lemma_amount_update(
                    state.cells.update(i, state.cells[j]),
                    j,
                    state.cells[i],
                    element,
                );
            }
        }
    }
}

/// A pass keeps the amounts of air and of water.
proof fn lemma_sweep_keeps(
    cells: Seq<Element>,
    changed: Seq<bool>,
    snapshot: Seq<Neighbours>,
    w: int,
    h: int,
    offsets: Seq<int>,
    k: nat,
    element: Element,
)
    requires
        0 < w,
        cells.len() == w * h,
        changed.len() == cells.len(),
        k <= cells.len(),
        element == Element::Air || element == Element::Water,
    ensures
        amount(sweep(cells, changed, snapshot, w, h, offsets, k).cells, element) == amount(
            cells,
            element,
        ),
    decreases k,
{
    if k > 0 {
        lemma_sweep_keeps(cells, changed, snapshot, w, h, offsets, (k - 1) as nat, element);
        lemma_sweep_len(cells, changed, snapshot, w, h, offsets, (k - 1) as nat);
        lemma_visit_keeps(
            sweep(cells, changed, snapshot, w, h, offsets, (k - 1) as nat),
            snapshot,
            w,
            h,
            k - 1,
            offsets[k - 1],
            element,
        );
    }
}

/// A tick without strokes makes and loses nothing. Cells trade places, rock
/// turns to sand and sand changes its compaction, so the grid holds as much
/// air and as much water after the tick as before it, whatever the cells saw
/// and whatever was drawn.
pub proof fn air_and_water_are_kept(
    cells: Seq<Element>,
    snapshot: Seq<Neighbours>,
    w: int,
    h: int,
    offsets: Seq<int>,
)
    requires
        0 < w,
        cells.len() == w * h,
    ensures
        amount(tick(cells, snapshot, Seq::empty(), w, h, offsets), Element::Air) == amount(
            cells,
            Element::Air,
        ),
        amount(tick(cells, snapshot, Seq::empty(), w, h, offsets), Element::Water) == amount(
            cells,
            Element::Water,
        ),
{
    let calm = Seq::new(cells.len(), |i: int| false);
    lemma_sweep_keeps(cells, calm, snapshot, w, h, offsets, cells.len(), Element::Air);
    lemma_sweep_keeps(cells, calm, snapshot, w, h, offsets, cells.len(), Element::Water);
}

/// Where no sand has gathered the threshold before a pass, none has after
/// any part of it.
pub proof fn lemma_compact_sweep(
    cells: Seq<Element>,
    changed: Seq<bool>,
    snapshot: Seq<Neighbours>,
    w: int,
    h: int,
    offsets: Seq<int>,
    k: nat,
)
    requires
        0 < w,
        cells.len() == w * h,
        changed.len() == cells.len(),
        k <= cells.len(),
        compact(cells),
    ensures
        compact(sweep(cells, changed, snapshot, w, h, offsets, k).cells),
    decreases k,
{
    if k > 0 {
        let before = sweep(cells, changed, snapshot, w, h, offsets, (k - 1) as nat);
        lemma_compact_sweep(cells, changed, snapshot, w, h, offsets, (k - 1) as nat);
        lemma_sweep_len(cells, changed, snapshot, w, h, offsets, (k - 1) as nat);
        lemma_sweep_len(cells, changed, snapshot, w, h, offsets, k);
        let i = k - 1;
        let after = sweep(cells, changed, snapshot, w, h, offsets, k);
        let sent = target(
            verdict(before.cells[i], snapshot[i]),
            column(w, i),
            row(w, i),
            offsets[i],
        );
        compaction_bound(before.cells[i], snapshot[i]);
        if let Some((to_x, to_y, becomes)) = sent {
            if in_bounds(w, h, to_x, to_y) {
                lemma_flat(w, h, to_x, to_y);
            }
        }
        assert forall|j: int| 0 <= j < after.cells.len() implies (
        #[trigger] after.cells[j] matches Element::Sand(compaction) ==> compaction
            < THRESHOLD) by {
            assert(before.cells[j] matches Element::Sand(compaction) ==> compaction < THRESHOLD);
            assert(before.cells[i] matches Element::Sand(compaction) ==> compaction < THRESHOLD);
            if let Some((to_x, to_y, becomes)) = sent {
                if in_bounds(w, h, to_x, to_y) {
                    let t = flat(w, to_x, to_y);
                    assert(before.cells[t] matches Element::Sand(compaction) ==> compaction
                        < THRESHOLD);
                }
            }
        }
    }
}

/// Where no sand in the grid has gathered the threshold and no stroke lays
/// such sand, no sand has gathered it after the tick.
pub proof fn compaction_kept(
    cells: Seq<Element>,
    snapshot: Seq<Neighbours>,
    strokes: Seq<Stroke>,
    w: int,
    h: int,
    offsets: Seq<int>,
)
    requires
        0 < w,
        cells.len() == w * h,
        compact(cells),
        loose(strokes),
    ensures
        compact(tick(cells, snapshot, strokes, w, h, offsets)),
{
    let calm = Seq::new(cells.len(), |i: int| false);
    lemma_compact_painted(cells, w, strokes);
    lemma_painted(cells, calm, w, strokes);
    lemma_compact_sweep(
        painted(cells, w, strokes),
        crate::brush::flagged(calm, w, strokes),
        snapshot,
        w,
        h,
        offsets,
        cells.len(),
    );
}

/// Strokes that lay no sand at the threshold leave none in the grid.
proof fn lemma_compact_painted(cells: Seq<Element>, w: int, strokes: Seq<Stroke>)
    requires
        compact(cells),
        loose(strokes),
    ensures
        compact(painted(cells, w, strokes)),
    decreases strokes.len(),
{
    if strokes.len() > 0 {
        let earlier = strokes.drop_last();
        assert forall|s: int| 0 <= s < earlier.len() implies ((#[trigger] earlier[s]).paint matches Element::Sand(
            compaction,
        ) ==> compaction < THRESHOLD) by {
            assert(earlier[s] == strokes[s]);
        }
        lemma_compact_painted(cells, w, earlier);
        let last = strokes.last();
        assert(last == strokes[strokes.len() - 1]);
        let under = painted(cells, w, earlier);
        let over = painted(cells, w, strokes);
        assert forall|i: int| 0 <= i < over.len() implies (#[trigger] over[i] matches Element::Sand(
            compaction,
        ) ==> compaction < THRESHOLD) by {
            assert(under[i] matches Element::Sand(compaction) ==> compaction < THRESHOLD);
        }
    }
}

} // verus!
