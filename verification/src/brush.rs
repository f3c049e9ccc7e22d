//! The brush: queued strokes that paint squares of cells.

use vstd::prelude::*;
use crate::element::Element;
use crate::tilemap::column;
use crate::tilemap::flat;
use crate::tilemap::in_bounds;
use crate::tilemap::lemma_flat;
use crate::tilemap::lemma_unflat;
use crate::tilemap::row;
use crate::tilemap::Tilemap;

verus! {

/// The smallest brush: a single cell.
pub const BRUSH_MIN: usize = 0;

/// The largest brush: four cells to each side of the centre.
pub const BRUSH_MAX: usize = 4;

/// A mouse button, as far as painting tells them apart.
#[derive(Debug, Clone, Copy, PartialEq, Eq, Structural)]
pub enum Button {
    Left,
    Right,
    Other,
}

/// The brush in hand: how far it reaches from its centre, and what it lays.
#[derive(Debug, Clone, Copy, PartialEq, Eq, Structural)]
pub struct Brush {
    pub size: usize,
    pub paint: Element,
}

/// One touch of a brush: every cell within `size` of `(x, y)` along both axes
/// becomes `paint`.
#[derive(Debug, Clone, Copy, PartialEq, Eq, Structural)]
pub struct Stroke {
    pub x: isize,
    pub y: isize,
    pub size: usize,
    pub paint: Element,
}

/// The size after the wheel turned one notch down.
pub open spec fn shrunk(size: int) -> int {
    if size <= BRUSH_MIN + 1 {
        BRUSH_MIN as int
    } else {
        size - 1
    }
}

/// The size after the wheel turned one notch up.
pub open spec fn grown(size: int) -> int {
    if size + 1 >= BRUSH_MAX {
        BRUSH_MAX as int
    } else {
        size + 1
    }
}

/// What the pressed buttons ask a brush that lays `paint` to lay: the left
/// button alone lays the paint, the right button alone lays air, and anything
/// else lays nothing.
pub open spec fn asked(paint: Element, pressed: Seq<Button>) -> Option<Element> {
    if pressed.len() != 1 {
        None
    } else {
        match pressed[0] {
            Button::Left => Some(paint),
            Button::Right => Some(Element::Air),
            Button::Other => None,
        }
    }
}

impl Brush {
    /// A brush that reaches one cell to each side and lays `paint`.
    pub fn new(paint: Element) -> (brush: Brush)
        ensures
            brush == (Brush { size: 1, paint }),
    {
        Brush { size: 1, paint }
    }

    /// Picks another element to lay.
    pub fn select(&mut self, paint: Element)
        ensures
            *final(self) == (Brush { size: old(self).size, paint }),
    {
        self.paint = paint;
    }

    /// One notch smaller, down to the smallest brush.
    pub fn shrink(&mut self)
        ensures
            final(self).paint == old(self).paint,
            final(self).size == shrunk(old(self).size as int),
    {
        self.size = if self.size <= BRUSH_MIN + 1 {
            BRUSH_MIN
        } else {
            self.size - 1
        };
    }

    /// One notch larger, up to the largest brush.
    pub fn grow(&mut self)
        ensures
            final(self).paint == old(self).paint,
            final(self).size == grown(old(self).size as int),
    {
        self.size = if self.size >= BRUSH_MAX - 1 {
            BRUSH_MAX
        } else {
            self.size + 1
        };
    }

    /// What the pressed buttons ask this brush to lay, if anything.
    pub fn target(&self, pressed: &Vec<Button>) -> (laid: Option<Element>)
        ensures
            laid == asked(self.paint, pressed@),
    {
        if pressed.len() != 1 {
            return None;
        }
        match pressed[0] {
            Button::Left => Some(self.paint),
            Button::Right => Some(Element::Air),
            Button::Other => None,
        }
    }

    /// The stroke of this brush centred on `(x, y)` that lays `paint`.
    pub fn stroke(&self, x: isize, y: isize, paint: Element) -> (stroke: Stroke)
        ensures
            stroke == (Stroke { x, y, size: self.size, paint }),
    {
        Stroke { x, y, size: self.size, paint }
    }
}

/// Whether a brush of `size` centred on `center` reaches `c` along one axis.
pub open spec fn reaches(center: int, size: int, c: int) -> bool {
    center - size <= c <= center + size
}

/// Whether `stroke` reaches the cell at `(x, y)`.
pub open spec fn covers(stroke: Stroke, x: int, y: int) -> bool {
    &&& reaches(stroke.x as int, stroke.size as int, x)
    &&& reaches(stroke.y as int, stroke.size as int, y)
}

/// The cells after `stroke`: what it reaches holds its paint.
pub open spec fn daubed(cells: Seq<Element>, w: int, stroke: Stroke) -> Seq<Element> {
    Seq::new(
        cells.len(),
        |i: int|
            if covers(stroke, column(w, i), row(w, i)) {
                stroke.paint
            } else {
                cells[i]
            },
    )
}

/// The flags after `stroke`: what it reaches is flagged, whether or not the
/// element there is a new one.
pub open spec fn smudged(changed: Seq<bool>, w: int, stroke: Stroke) -> Seq<bool> {
    Seq::new(changed.len(), |i: int| changed[i] || covers(stroke, column(w, i), row(w, i)))
}

/// The cells after all of `strokes`, the first one first.
pub open spec fn painted(cells: Seq<Element>, w: int, strokes: Seq<Stroke>) -> Seq<Element>
    decreases strokes.len(),
{
    if strokes.len() == 0 {
        cells
    } else {
        daubed(painted(cells, w, strokes.drop_last()), w, strokes.last())
    }
}

/// The flags after all of `strokes`.
pub open spec fn flagged(changed: Seq<bool>, w: int, strokes: Seq<Stroke>) -> Seq<bool>
    decreases strokes.len(),
{
    if strokes.len() == 0 {
        changed
    } else {
        smudged(flagged(changed, w, strokes.drop_last()), w, strokes.last())
    }
}

/// Strokes keep the number of cells and of flags, and flag every cell that
/// they change.
pub proof fn lemma_painted(
    cells: Seq<Element>,
    changed: Seq<bool>,
    w: int,
    strokes: Seq<Stroke>,
)
    requires
        changed.len() == cells.len(),
    ensures
        painted(cells, w, strokes).len() == cells.len(),
        flagged(changed, w, strokes).len() == cells.len(),
        forall|i: int|
            0 <= i < cells.len() ==> #[trigger] flagged(changed, w, strokes)[i] || painted(
                cells,
                w,
                strokes,
            )[i] == cells[i],
        forall|i: int|
            0 <= i < cells.len() && changed[i] ==> #[trigger] flagged(changed, w, strokes)[i],
    decreases strokes.len(),
{
    if strokes.len() > 0 {
        lemma_painted(cells, changed, w, strokes.drop_last());
    }
}

/// The coordinates from 0 up to `limit` that a brush of `size` centred on
/// `center` reaches: those from `span.0` up to `span.1`.
fn span(center: isize, size: usize, limit: isize) -> (span: (isize, isize))
    requires
        0 <= limit,
    ensures
        0 <= span.0 <= limit,
        0 <= span.1 <= limit,
        forall|c: int|
            0 <= c < limit ==> (#[trigger] reaches(center as int, size as int, c) <==> span.0 <= c
                < span.1),
{
    let low: i128 = center as i128 - size as i128;
    let high: i128 = center as i128 + size as i128 + 1;
    let from: isize = if low <= 0 {
        0
    } else if low >= limit as i128 {
        limit
    } else {
        low as isize
    };
    let to: isize = if high <= 0 {
        0
    } else if high >= limit as i128 {
        limit
    } else {
        high as isize
    };
    (from, to)
}

/// Whether the painting of a stroke, row by row, has come past the cell at
/// `(x, y)` when it stands at `(at_x, at_y)`.
pub open spec fn passed(x: int, y: int, at_x: int, at_y: int) -> bool {
    y < at_y || (y == at_y && x < at_x)
}

/// The cells while `stroke` is being laid and the painting stands at
/// `(at_x, at_y)`.
pub open spec fn daubed_until(
    cells: Seq<Element>,
    w: int,
    stroke: Stroke,
    at_x: int,
    at_y: int,
) -> Seq<Element> {
    Seq::new(
        cells.len(),
        |i: int|
            if covers(stroke, column(w, i), row(w, i)) && passed(
                column(w, i),
                row(w, i),
                at_x,
                at_y,
            ) {
                stroke.paint
            } else {
                cells[i]
            },
    )
}

/// The flags while `stroke` is being laid and the painting stands at
/// `(at_x, at_y)`.
pub open spec fn smudged_until(
    changed: Seq<bool>,
    w: int,
    stroke: Stroke,
    at_x: int,
    at_y: int,
) -> Seq<bool> {
    Seq::new(
        changed.len(),
        |i: int|
            changed[i] || (covers(stroke, column(w, i), row(w, i)) && passed(
                column(w, i),
                row(w, i),
                at_x,
                at_y,
            )),
    )
}

/// Two stands of the painting between which the stroke reaches no cell leave
/// the same cells and flags.
proof fn lemma_same_stand(
    cells: Seq<Element>,
    changed: Seq<bool>,
    w: int,
    h: int,
    stroke: Stroke,
    from: (int, int),
    to: (int, int),
)
    requires
        0 < w,
        cells.len() == w * h,
        changed.len() == cells.len(),
        forall|x: int, y: int|
            in_bounds(w, h, x, y) && #[trigger] covers(stroke, x, y) ==> passed(
                x,
                y,
                from.0,
                from.1,
            ) == passed(x, y, to.0, to.1),
    ensures
        daubed_until(cells, w, stroke, from.0, from.1) == daubed_until(
            cells,
            w,
            stroke,
            to.0,
            to.1,
        ),
        smudged_until(changed, w, stroke, from.0, from.1) == smudged_until(
            changed,
            w,
            stroke,
            to.0,
            to.1,
        ),
{
    assert forall|i: int| 0 <= i < cells.len() implies in_bounds(
        w,
        h,
        #[trigger] column(w, i),
        row(w, i),
    ) by {
        lemma_unflat(w, h, i);
    }
    assert(daubed_until(cells, w, stroke, from.0, from.1) =~= daubed_until(
        cells,
        w,
        stroke,
        to.0,
        to.1,
    ));
    assert(smudged_until(changed, w, stroke, from.0, from.1) =~= smudged_until(
        changed,
        w,
        stroke,
        to.0,
        to.1,
    ));
}

/// Painting the cell at `(x, y)`, which the stroke reaches, moves the stand
/// of the painting one cell on.
proof fn lemma_next_stand(
    cells: Seq<Element>,
    changed: Seq<bool>,
    w: int,
    h: int,
    stroke: Stroke,
    x: int,
    y: int,
)
    requires
        in_bounds(w, h, x, y),
        cells.len() == w * h,
        changed.len() == cells.len(),
        covers(stroke, x, y),
    ensures
        daubed_until(cells, w, stroke, x, y).update(flat(w, x, y), stroke.paint) == daubed_until(
            cells,
            w,
            stroke,
            x + 1,
            y,
        ),
        smudged_until(changed, w, stroke, x, y).update(flat(w, x, y), true) == smudged_until(
            changed,
            w,
            stroke,
            x + 1,
            y,
        ),
{
    lemma_flat(w, h, x, y);
    assert forall|i: int| 0 <= i < cells.len() implies flat(
        w,
        #[trigger] column(w, i),
        row(w, i),
    ) == i by {
        lemma_unflat(w, h, i);
    }
    assert(daubed_until(cells, w, stroke, x, y).update(flat(w, x, y), stroke.paint)
        =~= daubed_until(cells, w, stroke, x + 1, y));
    assert(smudged_until(changed, w, stroke, x, y).update(flat(w, x, y), true) =~= smudged_until(
        changed,
        w,
        stroke,
        x + 1,
        y,
    ));
}

/// Lays one stroke on the grid: every cell of the grid that the stroke
/// reaches takes its paint and is flagged.
pub fn daub(tilemap: &mut Tilemap, changed: &mut Vec<bool>, stroke: &Stroke)
    requires
        old(changed)@.len() == old(tilemap)@.len(),
    ensures
        final(tilemap).wf(),
        final(tilemap).cols() == old(tilemap).cols(),
        final(tilemap).rows() == old(tilemap).rows(),
        final(tilemap)@ == daubed(old(tilemap)@, old(tilemap).cols(), *stroke),
        final(changed)@ == smudged(old(changed)@, old(tilemap).cols(), *stroke),
{
    let width = tilemap.width();
    let height = tilemap.height();
    let ghost w = tilemap.cols();
    let ghost h = tilemap.rows();
    let ghost cells = tilemap@;
    let ghost flags = changed@;
    let (from_x, to_x) = span(stroke.x, stroke.size, width);
    let (from_y, to_y) = span(stroke.y, stroke.size, height);
    let mut y: isize = from_y;
    proof {
        lemma_same_stand(cells, flags, w, h, *stroke, (0, 0), (0, y as int));
        assert(tilemap@ =~= daubed_until(cells, w, *stroke, 0, 0));
        assert(changed@ =~= smudged_until(flags, w, *stroke, 0, 0));
    }
    while y < to_y
        invariant
            tilemap.wf(),
            w == tilemap.cols(),
            h == tilemap.rows(),
            width == w,
            height == h,
            cells.len() == w * h,
            flags.len() == cells.len(),
            0 <= from_x <= w,
            0 <= to_x <= w,
            0 <= from_y <= y,
            0 <= to_y <= h,
            forall|c: int|
                0 <= c < w ==> (#[trigger] reaches(stroke.x as int, stroke.size as int, c)
                    <==> from_x <= c < to_x),
            forall|c: int|
                0 <= c < h ==> (#[trigger] reaches(stroke.y as int, stroke.size as int, c)
                    <==> from_y <= c < to_y),
            tilemap@ == daubed_until(cells, w, *stroke, 0, y as int),
            changed@ == smudged_until(flags, w, *stroke, 0, y as int),
        decreases to_y - y,
    {
        let mut x: isize = from_x;
        proof {
            lemma_same_stand(cells, flags, w, h, *stroke, (0, y as int), (x as int, y as int));
        }
        while x < to_x
            invariant
                tilemap.wf(),
                w == tilemap.cols(),
                h == tilemap.rows(),
                width == w,
                height == h,
                cells.len() == w * h,
                flags.len() == cells.len(),
                0 <= from_x <= x,
                0 <= to_x <= w,
                0 <= from_y <= y < to_y,
                0 <= to_y <= h,
                forall|c: int|
                    0 <= c < w ==> (#[trigger] reaches(stroke.x as int, stroke.size as int, c)
                        <==> from_x <= c < to_x),
                forall|c: int|
                    0 <= c < h ==> (#[trigger] reaches(stroke.y as int, stroke.size as int, c)
                        <==> from_y <= c < to_y),
                tilemap@ == daubed_until(cells, w, *stroke, x as int, y as int),
                changed@ == smudged_until(flags, w, *stroke, x as int, y as int),
            decreases to_x - x,
        {
            proof {
                lemma_next_stand(cells, flags, w, h, *stroke, x as int, y as int);
            }
            if let Some(i) = tilemap.place(x, y) {
                tilemap.set(x, y, stroke.paint);
                changed.set(i, true);
            }
            x = x + 1;
        }
        proof {
            lemma_same_stand(cells, flags, w, h, *stroke, (x as int, y as int), (0, y + 1));
        }
        y = y + 1;
    }
    proof {
        assert forall|i: int| 0 <= i < cells.len() implies in_bounds(
            w,
            h,
            #[trigger] column(w, i),
            row(w, i),
        ) by {
            lemma_unflat(w, h, i);
        }
        assert(tilemap@ =~= daubed(cells, w, *stroke));
        assert(changed@ =~= smudged(flags, w, *stroke));
    }
}

} // verus!
