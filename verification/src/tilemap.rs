//! The grid: a fixed rectangle of cells stored row by row.

use vstd::prelude::*;
use vstd::arithmetic::div_mod::lemma_fundamental_div_mod;
use vstd::arithmetic::div_mod::lemma_fundamental_div_mod_converse;
use crate::element::Element;

verus! {

/// Coordinates of a cell: column, then row.
#[derive(Debug, Clone, Copy, PartialEq, Eq, Structural)]
pub struct TilePosition(pub isize, pub isize);

/// Why a grid could not be made.
#[derive(Debug, Clone, Copy, PartialEq, Eq, Structural)]
pub enum SizeError {
    /// The width or the height is zero.
    Empty,
    /// The number of cells does not fit the machine's signed index.
    TooLarge,
}

/// Whether `(x, y)` names a cell of a grid `w` wide and `h` high.
pub open spec fn in_bounds(w: int, h: int, x: int, y: int) -> bool {
    0 <= x < w && 0 <= y < h
}

/// Place of cell `(x, y)` in row-major order.
pub open spec fn flat(w: int, x: int, y: int) -> int {
    y * w + x
}

/// Column of the cell stored at place `i`.
pub open spec fn column(w: int, i: int) -> int {
    i % w
}

/// Row of the cell stored at place `i`.
pub open spec fn row(w: int, i: int) -> int {
    i / w
}

/// A cell's place lies inside the storage and gives the cell's column and row
/// back.
pub proof fn lemma_flat(w: int, h: int, x: int, y: int)
    requires
        in_bounds(w, h, x, y),
    ensures
        0 <= flat(w, x, y) < w * h,
        column(w, flat(w, x, y)) == x,
        row(w, flat(w, x, y)) == y,
{
    assert(0 <= y * w && y * w + w <= h * w && h * w == w * h) by (nonlinear_arith)
        requires
            0 <= y < h,
            0 < w,
    ;
    lemma_fundamental_div_mod_converse(y * w + x, w, y, x);
}

/// Every place in the storage is the place of exactly one cell of the grid.
pub proof fn lemma_unflat(w: int, h: int, i: int)
    requires
        0 < w,
        0 <= i < w * h,
    ensures
        in_bounds(w, h, column(w, i), row(w, i)),
        flat(w, column(w, i), row(w, i)) == i,
{
    lemma_fundamental_div_mod(i, w);
    let q = i / w;
    let r = i % w;
    assert(w * q == q * w) by (nonlinear_arith);
    assert(0 <= q) by (nonlinear_arith)
        requires
            0 < w,
            0 <= r < w,
            0 <= q * w + r,
    ;
    assert(q < h) by (nonlinear_arith)
        requires
            0 < w,
            0 <= r,
            q * w + r < w * h,
    ;
}

/// Where the four neighbours of an in-range cell lie in the storage, and
/// which of them the grid has.
pub proof fn lemma_around(w: int, h: int, x: int, y: int)
    requires
        in_bounds(w, h, x, y),
    ensures
        x + 1 < w ==> flat(w, x, y) + 1 == flat(w, x + 1, y),
        x + 1 == w ==> column(w, flat(w, x, y) + 1) == 0 || flat(w, x, y) + 1 == w * h,
        1 <= x ==> flat(w, x, y) - 1 == flat(w, x - 1, y),
        x == 0 ==> flat(w, x, y) == 0 || column(w, flat(w, x, y) - 1) == w - 1,
        y + 1 < h ==> flat(w, x, y) + w == flat(w, x, y + 1),
        y + 1 == h ==> flat(w, x, y) + w >= w * h,
        1 <= y ==> flat(w, x, y) - w == flat(w, x, y - 1),
        y == 0 ==> flat(w, x, y) - w < 0,
{
    assert((y + 1) * w == y * w + w && (y - 1) * w == y * w - w && h * w == w * h)
        by (nonlinear_arith);
    lemma_flat(w, h, x, y);
    if x + 1 == w && y + 1 < h {
        lemma_flat(w, h, 0, y + 1);
    }
    if x == 0 && 1 <= y {
        lemma_flat(w, h, w - 1, y - 1);
    }
}

/// A fixed rectangle of cells, each holding one element.
pub struct Tilemap {
    width: isize,
    height: isize,
    content: Vec<Element>,
}

impl View for Tilemap {
    type V = Seq<Element>;

    /// The cells in row-major order: rows from `y == 0` up, each from `x == 0`.
    closed spec fn view(&self) -> Seq<Element> {
        self.content@
    }
}

impl Tilemap {
    /// Number of columns.
    pub closed spec fn cols(&self) -> int {
        self.width as int
    }

    /// Number of rows.
    pub closed spec fn rows(&self) -> int {
        self.height as int
    }

    /// The grid is not empty and holds exactly one element for every
    /// coordinate in range.
    #[verifier::type_invariant]
    pub open spec fn wf(&self) -> bool {
        &&& 0 < self.cols()
        &&& 0 < self.rows()
        &&& self.cols() * self.rows() <= isize::MAX
        &&& self@.len() == self.cols() * self.rows()
    }

    /// Whether `(x, y)` is a coordinate of this grid.
    pub open spec fn contains(&self, x: int, y: int) -> bool {
        in_bounds(self.cols(), self.rows(), x, y)
    }

    /// The element at `(x, y)`.
    pub open spec fn at(&self, x: int, y: int) -> Element
        recommends
            self.contains(x, y),
    {
        self@[flat(self.cols(), x, y)]
    }

    /// A grid of `width` by `height` cells that all hold `template`.
    pub fn new(width: usize, height: usize, template: Element) -> (made: Result<Tilemap, SizeError>)
        ensures
            match made {
                Ok(tilemap) => {
                    &&& 0 < width
                    &&& 0 < height
                    &&& tilemap.wf()
                    &&& tilemap.cols() == width
                    &&& tilemap.rows() == height
                    &&& tilemap@ == Seq::new((width * height) as nat, |i: int| template)
                },
                Err(SizeError::Empty) => width == 0 || height == 0,
                Err(SizeError::TooLarge) => 0 < width && 0 < height && width * height > isize::MAX,
            },
    {
        if width == 0 || height == 0 {
            return Err(SizeError::Empty);
        }
        let cells: usize = match width.checked_mul(height) {
            Some(cells) => cells,
            None => {
                return Err(SizeError::TooLarge);
            },
        };
        if cells > isize::MAX as usize {
            return Err(SizeError::TooLarge);
        }
        assert(width <= cells && height <= cells) by (nonlinear_arith)
            requires
                0 < width,
                0 < height,
                cells == width * height,
        ;
        let mut content: Vec<Element> = Vec::new();
        let mut filled: usize = 0;
        while filled < cells
            invariant
                filled <= cells,
                content@ == Seq::new(filled as nat, |i: int| template),
            decreases cells - filled,
        {
            content.push(template);
            filled = filled + 1;
        }
        Ok(Tilemap { width: width as isize, height: height as isize, content })
    }

    /// Number of columns.
    pub fn width(&self) -> (width: isize)
        ensures
            width == self.cols(),
            self.wf(),
    {
        proof {
            use_type_invariant(self);
        }
        self.width
    }

    /// Number of rows.
    pub fn height(&self) -> (height: isize)
        ensures
            height == self.rows(),
            self.wf(),
    {
        proof {
            use_type_invariant(self);
        }
        self.height
    }

    /// Number of cells.
    pub fn len(&self) -> (cells: usize)
        ensures
            cells == self@.len(),
            cells == self.cols() * self.rows(),
    {
        proof {
            use_type_invariant(self);
        }
        self.content.len()
    }

    /// Place of an in-range cell in the storage.
    fn index(&self, x: isize, y: isize) -> (i: usize)
        requires
            self.contains(x as int, y as int),
        ensures
            i == flat(self.cols(), x as int, y as int),
            i < self@.len(),
    {
        proof {
            use_type_invariant(self);
            lemma_flat(self.cols(), self.rows(), x as int, y as int);
        }
        (y * self.width + x) as usize
    }

    /// Place of `(x, y)` in row-major order, or `None` outside the grid.
    pub fn place(&self, x: isize, y: isize) -> (found: Option<usize>)
        ensures
            found is Some == self.contains(x as int, y as int),
            found matches Some(i) ==> i == flat(self.cols(), x as int, y as int) && i < self@.len(),
    {
        if self.holds(x, y) {
            Some(self.index(x, y))
        } else {
            None
        }
    }

    /// Whether `(x, y)` is a coordinate of this grid.
    pub fn holds(&self, x: isize, y: isize) -> (inside: bool)
        ensures
            inside == self.contains(x as int, y as int),
    {
        0 <= x && 0 <= y && x < self.width && y < self.height
    }

    /// The element at `(x, y)`, or `None` where the grid has no such cell.
    pub fn get(&self, x: isize, y: isize) -> (found: Option<Element>)
        ensures
            found == if self.contains(x as int, y as int) {
                Some(self.at(x as int, y as int))
            } else {
                None
            },
    {
        if x < 0 || y < 0 || x >= self.width || y >= self.height {
            return None;
        }
        let i = self.index(x, y);
        Some(self.content[i])
    }

    /// Replaces the element at `(x, y)`. Outside the grid nothing changes, and
    /// the result says so.
    pub fn set(&mut self, x: isize, y: isize, element: Element) -> (done: bool)
        ensures
            done == old(self).contains(x as int, y as int),
            final(self).cols() == old(self).cols(),
            final(self).rows() == old(self).rows(),
            final(self).wf(),
            final(self)@ == if done {
                old(self)@.update(flat(old(self).cols(), x as int, y as int), element)
            } else {
                old(self)@
            },
    {
        proof {
            use_type_invariant(&*self);
        }
        if !self.holds(x, y) {
            return false;
        }
        let i = self.index(x, y);
        self.content[i] = element;
        true
    }

    /// Exchanges the elements of two cells. Unless both lie in the grid,
    /// nothing changes, and the result says so.
    pub fn swap(&mut self, a: TilePosition, b: TilePosition) -> (done: bool)
        ensures
            done == (old(self).contains(a.0 as int, a.1 as int) && old(self).contains(
                b.0 as int,
                b.1 as int,
            )),
            final(self).cols() == old(self).cols(),
            final(self).rows() == old(self).rows(),
            final(self).wf(),
            final(self)@ == if done {
                old(self)@.update(
                    flat(old(self).cols(), a.0 as int, a.1 as int),
                    old(self).at(b.0 as int, b.1 as int),
                ).update(
                    flat(old(self).cols(), b.0 as int, b.1 as int),
                    old(self).at(a.0 as int, a.1 as int),
                )
            } else {
                old(self)@
            },
    {
        proof {
            use_type_invariant(&*self);
        }
        if !self.holds(a.0, a.1) || !self.holds(b.0, b.1) {
            return false;
        }
        let i = self.index(a.0, a.1);
        let j = self.index(b.0, b.1);
        let first = self.content[i];
        let second = self.content[j];
        self.content[i] = second;
        self.content[j] = first;
        true
    }

    /// Every coordinate of the grid, row by row from `y == 0`, each row from
    /// `x == 0`.
    pub fn iter(&self) -> (cells: Vec<(isize, isize)>)
        ensures
            cells@.len() == self.cols() * self.rows(),
            forall|i: int|
                0 <= i < cells@.len() ==> (#[trigger] cells@[i]).0 == column(self.cols(), i)
                    && cells@[i].1 == row(self.cols(), i),
    {
        proof {
            use_type_invariant(self);
        }
        let mut cells: Vec<(isize, isize)> = Vec::new();
        let mut y: isize = 0;
        while y < self.height
            invariant
                self.wf(),
                0 <= y <= self.rows(),
                self.height == self.rows(),
                self.width == self.cols(),
                cells@.len() == y * self.cols(),
                forall|i: int|
                    0 <= i < cells@.len() ==> (#[trigger] cells@[i]).0 == column(self.cols(), i)
                        && cells@[i].1 == row(self.cols(), i),
            decreases self.rows() - y,
        {
            let mut x: isize = 0;
            while x < self.width
                invariant
                    self.wf(),
                    0 <= y < self.rows(),
                    0 <= x <= self.cols(),
                    self.width == self.cols(),
                    cells@.len() == y * self.cols() + x,
                    forall|i: int|
                        0 <= i < cells@.len() ==> (#[trigger] cells@[i]).0 == column(
                            self.cols(),
                            i,
                        ) && cells@[i].1 == row(self.cols(), i),
                decreases self.cols() - x,
            {
                proof {
                    lemma_flat(self.cols(), self.rows(), x as int, y as int);
                }
                cells.push((x, y));
                x = x + 1;
            }
            assert((y + 1) * self.cols() == y * self.cols() + self.cols()) by (nonlinear_arith);
            y = y + 1;
        }
        assert(self.rows() * self.cols() == self.cols() * self.rows()) by (nonlinear_arith);
        cells
    }
}

} // verus!
