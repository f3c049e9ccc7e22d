//! The scheduler: one tick at a time.

use vstd::prelude::*;
use crate::brush::daub;
use crate::brush::flagged;
use crate::brush::lemma_painted;
use crate::brush::painted;
use crate::brush::Stroke;
use crate::element::Element;
use crate::neighbours::in_sync;
use crate::neighbours::lemma_beside;
use crate::neighbours::neighbours;
use crate::neighbours::has_side;
use crate::neighbours::sight;
use crate::neighbours::beside;
use crate::neighbours::Neighbours;
use crate::neighbours::Side;
use crate::random::RandomSource;
use crate::rules::fair;
use crate::rules::lemma_sweep_flags;
use crate::rules::lemma_sweep_len;
use crate::rules::rules;
use crate::rules::still;
use crate::rules::sweep;
use crate::tilemap::flat;
use crate::tilemap::SizeError;
use crate::tilemap::Tilemap;

verus! {

/// The cells after one tick: the queued strokes are laid, then the rules pass
/// over the grid once, every cell judging by `snapshot` and sliding by its
/// step in `offsets`.
pub open spec fn tick(
    cells: Seq<Element>,
    snapshot: Seq<Neighbours>,
    strokes: Seq<Stroke>,
    w: int,
    h: int,
    offsets: Seq<int>,
) -> Seq<Element> {
    sweep(
        painted(cells, w, strokes),
        flagged(Seq::new(cells.len(), |i: int| false), w, strokes),
        snapshot,
        w,
        h,
        offsets,
        cells.len(),
    ).cells
}

/// What a simulation is made from: the size of the grid and the element that
/// fills it.
pub struct TilemapPlugin {
    width: usize,
    height: usize,
    template: Element,
}

/// A grid, what every cell saw at the end of the last tick, and the strokes
/// that wait for the next one.
pub struct TickScheduler {
    tilemap: Tilemap,
    snapshot: Vec<Neighbours>,
    strokes: Vec<Stroke>,
}

impl TilemapPlugin {
    /// Number of columns asked for.
    pub closed spec fn cols(&self) -> int {
        self.width as int
    }

    /// Number of rows asked for.
    pub closed spec fn rows(&self) -> int {
        self.height as int
    }

    /// The element that fills the grid at the start.
    pub closed spec fn fill(&self) -> Element {
        self.template
    }

    /// Asks for a grid of `width` by `height` cells of `template`.
    pub fn new(width: usize, height: usize, template: Element) -> (plugin: TilemapPlugin)
        ensures
            plugin.cols() == width,
            plugin.rows() == height,
            plugin.fill() == template,
    {
        TilemapPlugin { width, height, template }
    }

    /// Makes the simulation. A grid without cells, or with more cells than
    /// the machine can index, is refused.
    pub fn build(&self) -> (built: Result<TickScheduler, SizeError>)
        ensures
            match built {
                Ok(scheduler) => {
                    &&& 0 < self.cols()
                    &&& 0 < self.rows()
                    &&& scheduler.wf()
                    &&& scheduler.grid().cols() == self.cols()
                    &&& scheduler.grid().rows() == self.rows()
                    &&& scheduler.grid()@ == Seq::new(
                        (self.cols() * self.rows()) as nat,
                        |i: int| self.fill(),
                    )
                    &&& scheduler.queue().len() == 0
                },
                Err(SizeError::Empty) => self.cols() == 0 || self.rows() == 0,
                Err(SizeError::TooLarge) => 0 < self.cols() && 0 < self.rows() && self.cols()
                    * self.rows() > isize::MAX,
            },
    {
        match Tilemap::new(self.width, self.height, self.template) {
            Ok(tilemap) => Ok(TickScheduler::new(tilemap)),
            Err(error) => Err(error),
        }
    }
}

impl TickScheduler {
    /// The grid.
    pub closed spec fn grid(&self) -> Tilemap {
        self.tilemap
    }

    /// What each cell saw at the end of the last tick, in row-major order.
    pub closed spec fn sights(&self) -> Seq<Neighbours> {
        self.snapshot@
    }

    /// The strokes that wait for the next tick, the oldest first.
    pub closed spec fn queue(&self) -> Seq<Stroke> {
        self.strokes@
    }

    /// Between ticks every cell has seen its neighbours as the grid holds them.
    pub open spec fn wf(&self) -> bool {
        &&& self.grid().wf()
        &&& in_sync(self.sights(), self.grid()@, self.grid().cols(), self.grid().rows())
    }

    /// A simulation of `tilemap` in which every cell has seen its neighbours
    /// and no stroke waits.
    pub fn new(tilemap: Tilemap) -> (scheduler: TickScheduler)
        ensures
            scheduler.wf(),
            scheduler.grid() == tilemap,
            scheduler.queue().len() == 0,
    {
        let cells: usize = tilemap.len();
        let ghost w = tilemap.cols();
        let ghost h = tilemap.rows();
        let mut snapshot: Vec<Neighbours> = Vec::new();
        let mut changed: Vec<bool> = Vec::new();
        let mut filled: usize = 0;
        proof {
            use_type_invariant(&tilemap);
        }
        while filled < cells
            invariant
                filled <= cells,
                snapshot@.len() == filled,
                changed@.len() == filled,
                forall|i: int, side: Side|
                    0 <= i < filled ==> (#[trigger] snapshot@[i].seen(side)) is None,
                forall|i: int| 0 <= i < filled ==> #[trigger] changed@[i],
            decreases cells - filled,
        {
            snapshot.push(Neighbours::none());
            changed.push(true);
            filled = filled + 1;
        }
        proof {
            assert forall|i: int, side: Side| 0 <= i < cells && has_side(w, h, i, side) implies
                changed@[#[trigger] beside(w, i, side)] by {
                lemma_beside(w, h, i, side);
            }
        }
        neighbours(&mut snapshot, &tilemap, &changed);
        TickScheduler { tilemap, snapshot, strokes: Vec::new() }
    }

    /// The grid.
    pub fn tilemap(&self) -> (tilemap: &Tilemap)
        ensures
            *tilemap == self.grid(),
    {
        &self.tilemap
    }

    /// What the cell at `(x, y)` saw at the end of the last tick, or `None`
    /// where the grid has no such cell.
    pub fn seen(&self, x: isize, y: isize) -> (found: Option<Neighbours>)
        requires
            self.wf(),
        ensures
            found == if self.grid().contains(x as int, y as int) {
                Some(self.sights()[flat(self.grid().cols(), x as int, y as int)])
            } else {
                None
            },
    {
        match self.tilemap.place(x, y) {
            Some(i) => Some(self.snapshot[i]),
            None => None,
        }
    }

    /// Number of strokes that wait for the next tick.
    pub fn pending(&self) -> (count: usize)
        ensures
            count == self.queue().len(),
    {
        self.strokes.len()
    }

    /// Queues a stroke. It is laid when the next tick begins.
    pub fn paint(&mut self, stroke: Stroke)
        ensures
            final(self).grid() == old(self).grid(),
            final(self).sights() == old(self).sights(),
            final(self).queue() == old(self).queue().push(stroke),
    {
        self.strokes.push(stroke);
    }

    /// One tick. The queued strokes are laid on the grid, the oldest first.
    /// Then the rules pass over the grid once, every cell judging by what it
    /// saw at the end of the last tick. Then every cell that was written
    /// pushes its element to the cells around it, for the next tick.
    pub fn step(&mut self, source: &mut RandomSource)
        requires
            old(self).wf(),
        ensures
            final(self).wf(),
            final(self).grid().cols() == old(self).grid().cols(),
            final(self).grid().rows() == old(self).grid().rows(),
            final(self).queue().len() == 0,
            final(source).absent() == old(source).absent(),
            exists|offsets: Seq<int>|
                {
                    &&& #[trigger] fair(offsets, old(self).sights())
                    &&& old(source).absent() ==> still(offsets)
                    &&& final(self).grid()@ == tick(
                        old(self).grid()@,
                        old(self).sights(),
                        old(self).queue(),
                        old(self).grid().cols(),
                        old(self).grid().rows(),
                        offsets,
                    )
                },
    {
        let ghost w = self.tilemap.cols();
        let ghost h = self.tilemap.rows();
        let ghost cells = self.tilemap@;
        let ghost sights = self.snapshot@;
        let ghost strokes = self.strokes@;
        let ghost calm = Seq::new(cells.len(), |i: int| false);
        let mut changed: Vec<bool> = Vec::new();
        let mut filled: usize = 0;
        while filled < self.snapshot.len()
            invariant
                filled <= self.snapshot@.len(),
                self.snapshot@ == sights,
                self.tilemap@ == cells,
                self.strokes@ == strokes,
                w == self.tilemap.cols(),
                h == self.tilemap.rows(),
                changed@ == Seq::new(filled as nat, |i: int| false),
            decreases self.snapshot@.len() - filled,
        {
            changed.push(false);
            filled = filled + 1;
        }
        let mut laid: usize = 0;
        while laid < self.strokes.len()
            invariant
                laid <= strokes.len(),
                self.snapshot@ == sights,
                self.strokes@ == strokes,
                self.tilemap.wf(),
                sights.len() == cells.len(),
                calm.len() == cells.len(),
                w == self.tilemap.cols(),
                h == self.tilemap.rows(),
                self.tilemap@ == painted(cells, w, strokes.take(laid as int)),
                changed@ == flagged(calm, w, strokes.take(laid as int)),
            decreases strokes.len() - laid,
        {
            let stroke = self.strokes[laid];
            proof {
                lemma_painted(cells, calm, w, strokes.take(laid as int));
                assert(strokes.take(laid + 1).drop_last() =~= strokes.take(laid as int));
            }
            daub(&mut self.tilemap, &mut changed, &stroke);
            laid = laid + 1;
        }
        self.strokes.clear();
        let ghost begun = self.tilemap@;
        let ghost flags = changed@;
        proof {
            assert(strokes.take(laid as int) =~= strokes);
            lemma_painted(cells, calm, w, strokes);
        }
        rules(&mut self.tilemap, &self.snapshot, &mut changed, source);
        proof {
            let offsets = choose|offsets: Seq<int>|
                {
                    let swept = #[trigger] sweep(begun, flags, sights, w, h, offsets, begun.len());
                    &&& fair(offsets, sights)
                    &&& old(source).absent() ==> still(offsets)
                    &&& self.tilemap@ == swept.cells
                    &&& changed@ == swept.changed
                };
            lemma_sweep_flags(begun, flags, sights, w, h, offsets, begun.len());
            assert(self.tilemap@ == tick(cells, sights, strokes, w, h, offsets));
            lemma_sweep_len(begun, flags, sights, w, h, offsets, begun.len());
            assert forall|i: int, side: Side| 0 <= i < cells.len() implies {
                let saw = #[trigger] sights[i].seen(side);
                if has_side(w, h, i, side) {
                    changed@[beside(w, i, side)] || saw == Some(
                        self.tilemap@[beside(w, i, side)],
                    )
                } else {
                    saw is None
                }
            } by {
                assert(sights[i].seen(side) == sight(cells, w, h, i, side));
                if has_side(w, h, i, side) {
                    lemma_beside(w, h, i, side);
                }
            }
        }
        neighbours(&mut self.snapshot, &self.tilemap, &changed);
    }
}

} // verus!
