//! The rules: what each element does, given what it last saw around it.

use vstd::prelude::*;
use crate::element::firm;
use crate::element::is_firm;
use crate::element::is_open;
use crate::element::support;
use crate::element::support_strength;
use crate::element::Element;
use crate::element::THRESHOLD;
use crate::neighbours::Neighbours;
use crate::neighbours::Side;
use crate::tilemap::column;
use crate::tilemap::flat;
use crate::tilemap::in_bounds;
use crate::tilemap::lemma_flat;
use crate::tilemap::row;
use crate::tilemap::TilePosition;
use crate::tilemap::Tilemap;
use crate::random::destabilize_offset;
use crate::random::may_step;
use crate::random::RandomSource;
use crate::random::SAND_EAGERNESS;
use crate::random::WATER_EAGERNESS;

verus! {

/// What a rule decides for one cell before anything is drawn.
#[derive(Debug, Clone, Copy, PartialEq, Eq, Structural)]
pub enum Verdict {
    /// Nothing happens: the cell is air, or a rock that is held in place.
    Idle,
    /// The cell stays where it is and becomes this element.
    Settle(Element),
    /// The cell heads for the cell below it, `(x, y - 1)`, as this element.
    Fall(Element),
    /// The cell heads sideways as this element, with this reach in
    /// thousandths of a cell.
    Slide(Element, i32),
}

/// Whether a rock that saw `seen` is held in place: every side shows rock or
/// the edge of the grid.
pub open spec fn held(seen: Neighbours) -> bool {
    &&& is_firm(seen.seen(Side::Up))
    &&& is_firm(seen.seen(Side::Down))
    &&& is_firm(seen.seen(Side::Left))
    &&& is_firm(seen.seen(Side::Right))
}

/// The compaction that a grain of sand gathers on top of sand of compaction
/// `distance`, with `left` and `right` beside it.
pub open spec fn strength(distance: u8, left: Option<Element>, right: Option<Element>) -> int {
    distance + support(left) + support(right) + 1
}

/// The rule of each element.
///
/// - Air does nothing.
/// - Rock stays rock while it is held, and crumbles to loose sand otherwise.
/// - Water falls where it saw air below, and spreads sideways otherwise.
/// - Sand falls where it saw air or water below. On rock or on the edge it
///   rests, loose. On sand it gathers compaction: below the threshold it stays
///   and keeps what it gathered; at the threshold the pile gives way, and the
///   grain turns loose and slides.
pub open spec fn verdict(element: Element, seen: Neighbours) -> Verdict {
    match element {
        Element::Air => Verdict::Idle,
        Element::Rock => if held(seen) {
            Verdict::Idle
        } else {
            Verdict::Settle(Element::Sand(0))
        },
        Element::Water => if seen.seen(Side::Down) == Some(Element::Air) {
            Verdict::Fall(Element::Water)
        } else {
            Verdict::Slide(Element::Water, WATER_EAGERNESS)
        },
        Element::Sand(_) => match seen.seen(Side::Down) {
            Some(Element::Air) | Some(Element::Water) => Verdict::Fall(Element::Sand(0)),
            Some(Element::Rock) | None => Verdict::Settle(Element::Sand(0)),
            Some(Element::Sand(distance)) => {
                let gathered = strength(distance, seen.seen(Side::Left), seen.seen(Side::Right));
                if gathered < THRESHOLD {
                    Verdict::Settle(Element::Sand(gathered as u8))
                } else {
                    Verdict::Slide(Element::Sand(0), SAND_EAGERNESS)
                }
            },
        },
    }
}

/// Where a verdict sends the cell at `(x, y)`, and as what, once the sideways
/// step is known. An idle cell is sent nowhere.
pub open spec fn target(verdict: Verdict, x: int, y: int, offset: int) -> Option<
    (int, int, Element),
> {
    match verdict {
        Verdict::Idle => None,
        Verdict::Settle(element) => Some((x, y, element)),
        Verdict::Fall(element) => Some((x, y - 1, element)),
        Verdict::Slide(element, _) => Some((x + offset, y, element)),
    }
}

/// Applies the rule of `element` to what it saw.
pub fn decide(element: Element, seen: &Neighbours) -> (decided: Verdict)
    ensures
        decided == verdict(element, *seen),
        decided matches Verdict::Settle(Element::Sand(compaction)) ==> compaction < THRESHOLD,
{
    let up = seen.look(Side::Up);
    let down = seen.look(Side::Down);
    let left = seen.look(Side::Left);
    let right = seen.look(Side::Right);
    match element {
        Element::Air => Verdict::Idle,
        Element::Rock => {
            if firm(up) && firm(down) && firm(left) && firm(right) {
                Verdict::Idle
            } else {
                Verdict::Settle(Element::Sand(0))
            }
        },
        Element::Water => match down {
            Some(Element::Air) => Verdict::Fall(Element::Water),
            _ => Verdict::Slide(Element::Water, WATER_EAGERNESS),
        },
        Element::Sand(_) => match down {
            Some(Element::Air) => Verdict::Fall(Element::Sand(0)),
            Some(Element::Water) => Verdict::Fall(Element::Sand(0)),
            Some(Element::Rock) => Verdict::Settle(Element::Sand(0)),
            None => Verdict::Settle(Element::Sand(0)),
            Some(Element::Sand(distance)) => {
                let gathered: u16 = distance as u16 + support_strength(left) as u16
                    + support_strength(right) as u16 + 1;
                if gathered < THRESHOLD as u16 {
                    Verdict::Settle(Element::Sand(gathered as u8))
                } else {
                    Verdict::Slide(Element::Sand(0), SAND_EAGERNESS)
                }
            },
        },
    }
}

/// Whether `offset` is a sideways step that a cell which saw `seen` may take:
/// at most one cell, and only towards a side that showed air or water.
pub open spec fn may_slide(seen: Neighbours, offset: int) -> bool {
    &&& -1 <= offset <= 1
    &&& offset == -1 ==> is_open(seen.seen(Side::Left))
    &&& offset == 1 ==> is_open(seen.seen(Side::Right))
}

/// Evaluates the cell at `(x, y)`: where it is sent and as what, or `None`
/// where it is idle. A sideways step is drawn only for a cell that slides.
pub fn evaluate(
    element: Element,
    seen: &Neighbours,
    x: isize,
    y: isize,
    source: &mut RandomSource,
) -> (sent: Option<(isize, isize, Element)>)
    requires
        isize::MIN < x < isize::MAX,
        isize::MIN < y,
    ensures
        final(source).absent() == old(source).absent(),
        match verdict(element, *seen) {
            Verdict::Slide(becomes, eagerness) => {
                &&& sent matches Some((to_x, to_y, as_element))
                &&& to_y == y
                &&& as_element == becomes
                &&& may_slide(*seen, to_x - x)
                &&& may_step(
                    seen.seen(Side::Left),
                    seen.seen(Side::Right),
                    eagerness as int,
                    to_x - x,
                )
                &&& old(source).absent() ==> to_x == x
            },
            Verdict::Fall(becomes) => sent == Some((x, (y - 1) as isize, becomes)),
            Verdict::Settle(becomes) => sent == Some((x, y, becomes)),
            Verdict::Idle => sent is None,
        },
{
    match decide(element, seen) {
        Verdict::Idle => None,
        Verdict::Settle(becomes) => Some((x, y, becomes)),
        Verdict::Fall(becomes) => Some((x, y - 1, becomes)),
        Verdict::Slide(becomes, eagerness) => {
            let offset = destabilize_offset(
                seen.look(Side::Left),
                seen.look(Side::Right),
                eagerness,
                source,
            );
            Some((x + offset, y, becomes))
        },
    }
}

/// The grid in the middle of a pass.
pub struct Sweep {
    /// The cells, in row-major order.
    pub cells: Seq<Element>,
    /// The cells that something was swapped into during this pass. They are
    /// not evaluated again.
    pub taken: Seq<bool>,
    /// The cells whose element was written since their neighbours were last
    /// told.
    pub changed: Seq<bool>,
}

/// The cells at places `i` and `j` trade elements. `j`, the cell moved into,
/// is taken.
pub open spec fn exchange(state: Sweep, i: int, j: int) -> Sweep {
    Sweep {
        cells: state.cells.update(i, state.cells[j]).update(j, state.cells[i]),
        taken: state.taken.update(j, true),
        changed: state.changed.update(i, true).update(j, true),
    }
}

/// Carries out where the cell at place `i` was sent. A cell sent to its own
/// place takes the new element. A cell sent elsewhere trades elements with the
/// cell there, if the grid has one; the element it was to become is dropped.
pub open spec fn commit(
    state: Sweep,
    w: int,
    h: int,
    i: int,
    sent: Option<(int, int, Element)>,
) -> Sweep {
    match sent {
        None => state,
        Some((to_x, to_y, becomes)) => if to_x == column(w, i) && to_y == row(w, i) {
            Sweep {
                cells: state.cells.update(i, becomes),
                taken: state.taken,
                changed: state.changed.update(i, state.changed[i] || becomes != state.cells[i]),
            }
        } else if in_bounds(w, h, to_x, to_y) {
            exchange(state, i, flat(w, to_x, to_y))
        } else {
            state
        },
    }
}

/// The pass reaches the cell at place `i`: unless the cell is taken, its
/// element is evaluated against what the cell saw, with `offset` as the
/// sideways step should it slide.
pub open spec fn visit(
    state: Sweep,
    snapshot: Seq<Neighbours>,
    w: int,
    h: int,
    i: int,
    offset: int,
) -> Sweep {
    if state.taken[i] {
        state
    } else {
        commit(
            state,
            w,
            h,
            i,
            target(verdict(state.cells[i], snapshot[i]), column(w, i), row(w, i), offset),
        )
    }
}

/// The pass after the first `k` cells in row-major order, with `offsets[i]`
/// as the sideways step of the cell at place `i`.
pub open spec fn sweep(
    cells: Seq<Element>,
    changed: Seq<bool>,
    snapshot: Seq<Neighbours>,
    w: int,
    h: int,
    offsets: Seq<int>,
    k: nat,
) -> Sweep
    decreases k,
{
    if k == 0 {
        Sweep { cells, taken: Seq::new(cells.len(), |i: int| false), changed }
    } else {
        visit(
            sweep(cells, changed, snapshot, w, h, offsets, (k - 1) as nat),
            snapshot,
            w,
            h,
            k - 1,
            offsets[k - 1],
        )
    }
}

/// Whether every step in `offsets` is one that the cell at its place may take.
pub open spec fn fair(offsets: Seq<int>, snapshot: Seq<Neighbours>) -> bool {
    &&& offsets.len() == snapshot.len()
    &&& forall|i: int| 0 <= i < offsets.len() ==> may_slide(snapshot[i], #[trigger] offsets[i])
}

/// Whether every step in `offsets` is 0.
pub open spec fn still(offsets: Seq<int>) -> bool {
    forall|i: int| 0 <= i < offsets.len() ==> #[trigger] offsets[i] == 0
}

/// The first `k` cells of a pass depend on the first `k` steps only.
pub proof fn lemma_sweep_prefix(
    cells: Seq<Element>,
    changed: Seq<bool>,
    snapshot: Seq<Neighbours>,
    w: int,
    h: int,
    first: Seq<int>,
    second: Seq<int>,
    k: nat,
)
    requires
        k <= first.len(),
        k <= second.len(),
        forall|i: int| 0 <= i < k ==> first[i] == second[i],
    ensures
        sweep(cells, changed, snapshot, w, h, first, k) == sweep(
            cells,
            changed,
            snapshot,
            w,
            h,
            second,
            k,
        ),
    decreases k,
{
    if k > 0 {
        lemma_sweep_prefix(cells, changed, snapshot, w, h, first, second, (k - 1) as nat);
    }
}

/// A pass keeps the number of cells, of markers and of flags.
pub proof fn lemma_sweep_len(
    cells: Seq<Element>,
    changed: Seq<bool>,
    snapshot: Seq<Neighbours>,
    w: int,
    h: int,
    offsets: Seq<int>,
    k: nat,
)
    requires
        0 < w,
        cells.len() == w * h,
        changed.len() == cells.len(),
        k <= cells.len(),
    ensures
        sweep(cells, changed, snapshot, w, h, offsets, k).cells.len() == cells.len(),
        sweep(cells, changed, snapshot, w, h, offsets, k).taken.len() == cells.len(),
        sweep(cells, changed, snapshot, w, h, offsets, k).changed.len() == cells.len(),
    decreases k,
{
    if k > 0 {
        lemma_sweep_len(cells, changed, snapshot, w, h, offsets, (k - 1) as nat);
        let before = sweep(cells, changed, snapshot, w, h, offsets, (k - 1) as nat);
        let sent = target(
            verdict(before.cells[k - 1], snapshot[k - 1]),
            column(w, k - 1),
            row(w, k - 1),
            offsets[k - 1],
        );
        if let Some((to_x, to_y, becomes)) = sent {
            if in_bounds(w, h, to_x, to_y) {
                lemma_flat(w, h, to_x, to_y);
            }
        }
    }
}

/// A pass flags every cell that it changes, and lowers no flag.
pub proof fn lemma_sweep_flags(
    cells: Seq<Element>,
    changed: Seq<bool>,
    snapshot: Seq<Neighbours>,
    w: int,
    h: int,
    offsets: Seq<int>,
    k: nat,
)
    requires
        0 < w,
        cells.len() == w * h,
        changed.len() == cells.len(),
        k <= cells.len(),
    ensures
        forall|i: int|
            0 <= i < cells.len() ==> {
                &&& changed[i] ==> #[trigger] sweep(
                    cells,
                    changed,
                    snapshot,
                    w,
                    h,
                    offsets,
                    k,
                ).changed[i]
                &&& sweep(cells, changed, snapshot, w, h, offsets, k).changed[i] || sweep(
                    cells,
                    changed,
                    snapshot,
                    w,
                    h,
                    offsets,
                    k,
                ).cells[i] == cells[i]
            },
    decreases k,
{
    if k > 0 {
        lemma_sweep_flags(cells, changed, snapshot, w, h, offsets, (k - 1) as nat);
        lemma_sweep_len(cells, changed, snapshot, w, h, offsets, (k - 1) as nat);
        let before = sweep(cells, changed, snapshot, w, h, offsets, (k - 1) as nat);
        let sent = target(
            verdict(before.cells[k - 1], snapshot[k - 1]),
            column(w, k - 1),
            row(w, k - 1),
            offsets[k - 1],
        );
        if let Some((to_x, to_y, becomes)) = sent {
            if in_bounds(w, h, to_x, to_y) {
                lemma_flat(w, h, to_x, to_y);
            }
        }
        let after = sweep(cells, changed, snapshot, w, h, offsets, k);
        assert forall|i: int| 0 <= i < cells.len() implies {
            &&& changed[i] ==> #[trigger] after.changed[i]
            &&& after.changed[i] || after.cells[i] == cells[i]
        } by {
            assert(changed[i] ==> before.changed[i]);
        }
    }
}

/// One pass of the rules over the grid, row by row from `y == 0`, each row
/// from `x == 0`.
///
/// Every cell is evaluated once, from its own element and from what
/// `snapshot` says it saw, unless something was swapped into it earlier in the
/// pass. A cell that is sent to its own place is rewritten if the element
/// differs. A cell that is sent elsewhere trades elements with the cell
/// there; where the grid has no such cell, it stays as it is. `changed` gains
/// a flag at every cell that was written.
pub fn rules(
    tilemap: &mut Tilemap,
    snapshot: &Vec<Neighbours>,
    changed: &mut Vec<bool>,
    source: &mut RandomSource,
)
    requires
        snapshot@.len() == old(tilemap)@.len(),
        old(changed)@.len() == old(tilemap)@.len(),
    ensures
        final(tilemap).wf(),
        final(tilemap).cols() == old(tilemap).cols(),
        final(tilemap).rows() == old(tilemap).rows(),
        final(source).absent() == old(source).absent(),
        exists|offsets: Seq<int>|
            {
                let swept = #[trigger] sweep(
                    old(tilemap)@,
                    old(changed)@,
                    snapshot@,
                    old(tilemap).cols(),
                    old(tilemap).rows(),
                    offsets,
                    old(tilemap)@.len(),
                );
                &&& fair(offsets, snapshot@)
                &&& old(source).absent() ==> still(offsets)
                &&& final(tilemap)@ == swept.cells
                &&& final(changed)@ == swept.changed
            },
{
    let width = tilemap.width();
    let height = tilemap.height();
    let ghost w = tilemap.cols();
    let ghost h = tilemap.rows();
    let ghost cells = tilemap@;
    let ghost flags = changed@;
    let ghost absent = source.absent();
    let ghost mut offsets: Seq<int> = Seq::empty();
    let mut taken: Vec<bool> = Vec::new();
    let mut filled: usize = 0;
    while filled < changed.len()
        invariant
            filled <= changed@.len(),
            taken@ == Seq::new(filled as nat, |i: int| false),
        decreases changed@.len() - filled,
    {
        taken.push(false);
        filled = filled + 1;
    }
    let mut k: usize = 0;
    let mut y: isize = 0;
    assert(0 * w == 0) by (nonlinear_arith);
    while y < height
        invariant
            tilemap.wf(),
            w == tilemap.cols(),
            h == tilemap.rows(),
            width == w,
            height == h,
            0 < w,
            cells.len() == w * h,
            flags.len() == cells.len(),
            snapshot@.len() == cells.len(),
            source.absent() == absent,
            0 <= y <= h,
            k == y * w,
            offsets.len() == k,
            forall|i: int| 0 <= i < k ==> may_slide(snapshot@[i], #[trigger] offsets[i]),
            absent ==> still(offsets),
            (Sweep { cells: tilemap@, taken: taken@, changed: changed@ }) == sweep(
                cells,
                flags,
                snapshot@,
                w,
                h,
                offsets,
                k as nat,
            ),
        decreases h - y,
    {
        let mut x: isize = 0;
        while x < width
            invariant
                tilemap.wf(),
                w == tilemap.cols(),
                h == tilemap.rows(),
                width == w,
                height == h,
                0 < w,
                cells.len() == w * h,
                flags.len() == cells.len(),
                snapshot@.len() == cells.len(),
                source.absent() == absent,
                0 <= y < h,
                0 <= x <= w,
                k == y * w + x,
                offsets.len() == k,
                forall|i: int| 0 <= i < k ==> may_slide(snapshot@[i], #[trigger] offsets[i]),
                absent ==> still(offsets),
                (Sweep { cells: tilemap@, taken: taken@, changed: changed@ }) == sweep(
                    cells,
                    flags,
                    snapshot@,
                    w,
                    h,
                    offsets,
                    k as nat,
                ),
            decreases w - x,
        {
            let ghost before = Sweep { cells: tilemap@, taken: taken@, changed: changed@ };
            let ghost earlier = offsets;
            let ghost mut offset: int = 0;
            proof {
                lemma_flat(w, h, x as int, y as int);
                lemma_sweep_len(cells, flags, snapshot@, w, h, offsets, k as nat);
            }
            if !taken[k] {
                if let Some(element) = tilemap.get(x, y) {
                    let seen = snapshot[k];
                    let sent = evaluate(element, &seen, x, y, source);
                    proof {
                        if let Verdict::Slide(_, _) = verdict(element, seen) {
                            if let Some((to_x, _, _)) = sent {
                                offset = to_x - x;
                            }
                        }
                    }
                    if let Some((to_x, to_y, becomes)) = sent {
                        if to_x == x && to_y == y {
                            if element != becomes {
                                tilemap.set(x, y, becomes);
                                changed.set(k, true);
                            }
                        } else if let Some(j) = tilemap.place(to_x, to_y) {
                            tilemap.swap(TilePosition(x, y), TilePosition(to_x, to_y));
                            taken.set(j, true);
                            changed.set(k, true);
                            changed.set(j, true);
                        }
                    }
                }
            }
            proof {
                offsets = earlier.push(offset);
                lemma_sweep_prefix(cells, flags, snapshot@, w, h, earlier, offsets, k as nat);
                let after = Sweep { cells: tilemap@, taken: taken@, changed: changed@ };
                assert(after.cells =~= visit(before, snapshot@, w, h, k as int, offset).cells);
                assert(after.taken =~= visit(before, snapshot@, w, h, k as int, offset).taken);
                assert(after.changed =~= visit(before, snapshot@, w, h, k as int, offset).changed);
            }
            k = k + 1;
            x = x + 1;
        }
        assert((y + 1) * w == y * w + w) by (nonlinear_arith);
        y = y + 1;
    }
    proof {
        assert(h * w == w * h) by (nonlinear_arith);
        assert(fair(offsets, snapshot@));
        assert(tilemap@ == sweep(cells, flags, snapshot@, w, h, offsets, cells.len()).cells);
    }
}

} // verus!
