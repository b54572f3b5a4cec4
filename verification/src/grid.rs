//! The grid of per-pixel counters that every rendering accumulates into.

use crate::iterate::Outcome;
use vstd::arithmetic::div_mod::lemma_fundamental_div_mod;
use vstd::arithmetic::div_mod::lemma_fundamental_div_mod_converse;
use vstd::multiset::Multiset;
use vstd::prelude::*;
use vstd::seq_lib::lemma_multiset_commutative;
use vstd::seq_lib::to_multiset_build;

verus! {

/// Why the grid refused an update.
#[derive(Clone, Copy, Debug, PartialEq, Eq, Structural)]
pub enum GridError {
    /// The location lies outside the grid's extent.
    OutOfGrid,
    /// The cell's counter already holds the largest value a counter can hold.
    Saturated,
}

/// A cell by column and row. Any pair of numbers is a cell; a grid holds those
/// whose column and row lie within its extent.
#[derive(Clone, Copy, Debug, PartialEq, Eq, Structural)]
pub struct Cell {
    pub col: i64,
    pub row: i64,
}

/// The cell at linear index `c` of a row-major grid of `cols` columns.
pub open spec fn cell_at(cols: nat, c: int) -> Cell {
    Cell { col: (c % cols as int) as i64, row: (c / cols as int) as i64 }
}

/// The cells after the escape-time result `outcome` arrived for the pixel `loc`:
/// divergence writes its iteration number, anything else leaves the cell alone.
pub open spec fn written(cells: Seq<u32>, loc: int, outcome: Outcome) -> Seq<u32> {
    match outcome {
        Outcome::Diverged(n) => cells.update(loc, n),
        Outcome::Bounded => cells,
    }
}

/// The cells after the escape-time results `results` arrived in this order.
pub open spec fn merged(cells: Seq<u32>, results: Seq<(usize, Outcome)>) -> Seq<u32>
    decreases results.len(),
{
    if results.len() == 0 {
        cells
    } else {
        written(merged(cells, results.drop_last()), results.last().0 as int, results.last().1)
    }
}

/// The cells that an orbit charges, in the order in which they are charged: for
/// each point its own cell, then the cell of its conjugate.
pub open spec fn trail(orbit: Seq<(Cell, Cell)>) -> Seq<Cell> {
    Seq::new(
        2 * orbit.len(),
        |k: int|
            if k % 2 == 0 {
                orbit[k / 2].0
            } else {
                orbit[k / 2].1
            },
    )
}

/// The cells after each counter went up by the number of times that `visited`
/// holds its cell.
pub open spec fn charged(cells: Seq<u32>, cols: nat, visited: Seq<Cell>) -> Seq<u32> {
    Seq::new(
        cells.len(),
        |c: int| (cells[c] + visited.to_multiset().count(cell_at(cols, c))) as u32,
    )
}

/// The cells of the points of an orbit, in order.
pub open spec fn own_cells(orbit: Seq<(Cell, Cell)>) -> Seq<Cell> {
    Seq::new(orbit.len(), |i: int| orbit[i].0)
}

/// The cells of the conjugates of the points of an orbit, in order.
pub open spec fn conj_cells(orbit: Seq<(Cell, Cell)>) -> Seq<Cell> {
    Seq::new(orbit.len(), |i: int| orbit[i].1)
}

/// The sum of all counters.
pub open spec fn total(cells: Seq<u32>) -> nat
    decreases cells.len(),
{
    if cells.len() == 0 {
        0
    } else {
        total(cells.drop_last()) + cells.last() as nat
    }
}

/// The largest value among `s`, and 0 for the empty sequence.
pub open spec fn peak(s: Seq<u32>) -> u32
    decreases s.len(),
{
    if s.len() == 0 {
        0
    } else if s.last() > peak(s.drop_last()) {
        s.last()
    } else {
        peak(s.drop_last())
    }
}

/// `peak(s)` bounds every element of `s` and, unless `s` is empty, is one of them.
pub proof fn lemma_peak_is_maximum(s: Seq<u32>)
    ensures
        forall|i: int| 0 <= i < s.len() ==> s[i] <= peak(s),
        s.len() == 0 ==> peak(s) == 0,
        s.len() > 0 ==> exists|i: int| 0 <= i < s.len() && s[i] == peak(s),
    decreases s.len(),
{
    if s.len() > 0 {
        let t = s.drop_last();
        lemma_peak_is_maximum(t);
        assert forall|i: int| 0 <= i < s.len() implies s[i] <= peak(s) by {
            if i < t.len() {
                assert(t[i] == s[i]);
            }
        }
        if s.last() > peak(t) {
            assert(s[s.len() - 1] == peak(s));
        } else if t.len() > 0 {
            let i = choose|i: int| 0 <= i < t.len() && t[i] == peak(t);
            assert(s[i] == peak(s));
        } else {
            assert(s[0] == peak(s));
        }
    }
}

/// The cell in column `x` of row `y` lies inside a grid of `w` by `h` cells, at
/// linear index `y * w + x`.
pub proof fn lemma_cell_inside(x: int, y: int, w: int, h: int)
    by (nonlinear_arith)
    requires
        0 <= x < w,
        0 <= y < h,
    ensures
        0 <= y * w + x < w * h,
{
}

/// Each row of a row-major grid starts `w` cells after the row before it; the rows
/// of a grid of `w` by `h` cells end at cell `w * h`.
pub proof fn lemma_row_step(y: int, w: int, h: int)
    by (nonlinear_arith)
    ensures
        (y + 1) * w == y * w + w,
        h * w == w * h,
{
}

/// Linear indices and cells of a row-major grid correspond one to one: the cell at
/// index `c` lies inside the grid and has index `c`, and the cell in column `x` of
/// row `y` is the cell at index `y * w + x`.
pub proof fn lemma_index_cell_round_trip(w: nat, h: nat, c: int, x: int, y: int)
    requires
        w <= u32::MAX,
        h <= u32::MAX,
    ensures
        0 <= c < w * h ==> {
            &&& 0 <= cell_at(w, c).col < w
            &&& 0 <= cell_at(w, c).row < h
            &&& cell_at(w, c).row * w + cell_at(w, c).col == c
        },
        0 <= x < w && 0 <= y < h ==> cell_at(w, y * w + x) == (Cell { col: x as i64, row: y as i64 }),
{
    if 0 <= c < w * h {
        assert(w > 0) by (nonlinear_arith)
            requires
                0 <= c < w * h,
        ;
        lemma_fundamental_div_mod(c, w as int);
        let q = c / (w as int);
        let r = c % (w as int);
        assert(0 <= q < h) by (nonlinear_arith)
            requires
                c == w * q + r,
                0 <= r < w,
                0 <= c < w * h,
        ;
        assert(q * w == w * q) by (nonlinear_arith);
    }
    if 0 <= x < w && 0 <= y < h {
        lemma_cell_inside(x, y, w as int, h as int);
        lemma_fundamental_div_mod_converse(y * w + x, w as int, y, x);
    }
}

/// The pixel that sample `i` stands for, in a picture of `width` by `height` pixels
/// whose samples are numbered row by row: column `i mod width`, row `i div width`.
/// `None` where the picture has no pixel `i`.
pub fn get_loc(i: usize, width: u32, height: u32) -> (out: Option<Cell>)
    ensures
        out == if i < width * height {
            Some(cell_at(width as nat, i as int))
        } else {
            None
        },
        out matches Some(cell) ==> 0 <= cell.col < width && 0 <= cell.row < height && cell.row
            * width + cell.col == i,
{
    assert(width * height <= 0xffff_ffff * 0xffff_ffff) by (nonlinear_arith)
        requires
            0 <= width <= 0xffff_ffff,
            0 <= height <= 0xffff_ffff,
    ;
    let area: u64 = (width as u64) * (height as u64);
    if (i as u64) < area {
        proof {
            lemma_index_cell_round_trip(width as nat, height as nat, i as int, 0, 0);
        }
        let w: usize = width as usize;
        Some(Cell { col: (i % w) as i64, row: (i / w) as i64 })
    } else {
        None
    }
}

/// A row-major grid of counters, one per pixel.
pub struct PixelGrid {
    width: u32,
    height: u32,
    cells: Vec<u32>,
}

impl View for PixelGrid {
    type V = Seq<u32>;

    closed spec fn view(&self) -> Seq<u32> {
        self.cells@
    }
}

impl PixelGrid {
    /// The number of columns.
    pub closed spec fn cols(&self) -> nat {
        self.width as nat
    }

    /// The number of rows.
    pub closed spec fn rows(&self) -> nat {
        self.height as nat
    }

    /// The grid holds one counter per pixel, and the four samples per pixel of its
    /// picture can be counted in `usize`, for one row and for all of them.
    pub open spec fn wf(&self) -> bool {
        &&& self.cols() <= u32::MAX
        &&& self.rows() <= u32::MAX
        &&& self@.len() == self.cols() * self.rows()
        &&& 4 * self.cols() <= usize::MAX
        &&& 4 * (self.cols() * self.rows()) <= usize::MAX
    }

    /// A zero-filled grid of `width` by `height` counters, or `None` where the four
    /// samples per pixel of one row, or of the whole picture, cannot be counted in
    /// `usize`.
    pub fn new(width: u32, height: u32) -> (out: Option<PixelGrid>)
        ensures
            out is Some <==> 4 * width <= usize::MAX && 4 * (width * height) <= usize::MAX,
            out matches Some(g) ==> {
                &&& g.wf()
                &&& g.cols() == width
                &&& g.rows() == height
                &&& forall|i: int| 0 <= i < g@.len() ==> g@[i] == 0
            },
    {
        assert(width * height <= 0xffff_ffff * 0xffff_ffff) by (nonlinear_arith)
            requires
                0 <= width <= 0xffff_ffff,
                0 <= height <= 0xffff_ffff,
        ;
        let area: u64 = (width as u64) * (height as u64);
        if width as u64 > (usize::MAX / 4) as u64 || area > (usize::MAX / 4) as u64 {
            return None;
        }
        let cells: Vec<u32> = vec![0u32; area as usize];
        Some(PixelGrid { width, height, cells })
    }

    /// The number of columns.
    pub fn width(&self) -> (w: u32)
        ensures
            w == self.cols(),
    {
        self.width
    }

    /// The number of rows.
    pub fn height(&self) -> (h: u32)
        ensures
            h == self.rows(),
    {
        self.height
    }

    /// The number of cells.
    pub fn len(&self) -> (n: usize)
        ensures
            n == self@.len(),
    {
        self.cells.len()
    }

    /// The counters, row by row.
    pub fn cells(&self) -> (cells: &Vec<u32>)
        ensures
            cells@ == self@,
    {
        &self.cells
    }

    /// The counter at linear index `loc`, or `None` outside the grid.
    pub fn get(&self, loc: usize) -> (out: Option<u32>)
        ensures
            out == if loc < self@.len() { Some(self@[loc as int]) } else { None },
    {
        if loc < self.cells.len() {
            Some(self.cells[loc])
        } else {
            None
        }
    }

    /// The grid holds the cell: its column and row lie within the extent.
    pub open spec fn holds(&self, cell: Cell) -> bool {
        0 <= cell.col < self.cols() && 0 <= cell.row < self.rows()
    }

    /// The linear index of a cell that the grid holds.
    pub open spec fn index_of(&self, cell: Cell) -> int {
        cell.row * self.cols() + cell.col
    }

    /// The grid holds every cell of `visited`.
    pub open spec fn holds_all(&self, visited: Seq<Cell>) -> bool {
        forall|k: int| 0 <= k < visited.len() ==> self.holds(#[trigger] visited[k])
    }

    /// The counter of `cell` cannot go higher.
    pub open spec fn full(&self, cell: Cell) -> bool {
        self@[self.index_of(cell)] == u32::MAX
    }

    /// The counter of `visited[k]` cannot go higher once the `k` cells before it
    /// have been charged.
    pub open spec fn full_at(&self, visited: Seq<Cell>, k: int) -> bool {
        self@[self.index_of(visited[k])] + visited.take(k).to_multiset().count(visited[k])
            >= u32::MAX
    }

    /// The first `n` cells of `visited` can be charged one after the other.
    pub open spec fn clean(&self, visited: Seq<Cell>, n: int) -> bool {
        forall|k: int| 0 <= k < n ==> !(#[trigger] self.full_at(visited, k))
    }

    /// No counter would pass its limit if all cells of `visited` were charged.
    pub open spec fn admits(&self, visited: Seq<Cell>) -> bool {
        forall|c: int|
            0 <= c < self@.len() ==> self@[c] + visited.to_multiset().count(
                #[trigger] cell_at(self.cols(), c),
            ) <= u32::MAX
    }

    /// The linear index of `cell`, or `None` where the grid does not hold it.
    pub fn locate(&self, cell: Cell) -> (out: Option<usize>)
        requires
            self.wf(),
        ensures
            out == if self.holds(cell) {
                Some(self.index_of(cell) as usize)
            } else {
                None
            },
            self.holds(cell) ==> 0 <= self.index_of(cell) < self@.len(),
    {
        if 0 <= cell.col && cell.col < self.width as i64 && 0 <= cell.row && cell.row
            < self.height as i64 {
            proof {
                lemma_cell_inside(
                    cell.col as int,
                    cell.row as int,
                    self.width as int,
                    self.height as int,
                );
                assert(0 <= cell.row * self.width <= cell.row * self.width + cell.col)
                    by (nonlinear_arith)
                    requires
                        0 <= cell.row,
                        0 <= self.width,
                        0 <= cell.col,
                ;
            }
            Some((cell.row as usize) * (self.width as usize) + (cell.col as usize))
        } else {
            None
        }
    }

    /// The cell of the pixel with linear index `loc`: column `loc mod width`, row
    /// `loc div width`; `None` where the grid has no such pixel.
    pub fn cell_of(&self, loc: usize) -> (out: Option<Cell>)
        requires
            self.wf(),
        ensures
            out == if loc < self@.len() {
                Some(cell_at(self.cols(), loc as int))
            } else {
                None
            },
            out matches Some(cell) ==> self.holds(cell) && self.index_of(cell) == loc,
    {
        proof {
            if loc < self@.len() {
                lemma_index_cell_round_trip(self.cols(), self.rows(), loc as int, 0, 0);
            }
        }
        get_loc(loc, self.width, self.height)
    }

    /// Takes the escape-time result of the pixel `loc`: a divergence writes its
    /// iteration number into the cell, anything else leaves the cell as it is. A
    /// location outside the grid is refused and changes nothing.
    pub fn record(&mut self, loc: usize, outcome: Outcome) -> (out: Result<(), GridError>)
        requires
            old(self).wf(),
        ensures
            final(self).wf(),
            final(self).cols() == old(self).cols(),
            final(self).rows() == old(self).rows(),
            loc < old(self)@.len() ==> out == Ok::<(), GridError>(()) && final(self)@ == written(
                old(self)@,
                loc as int,
                outcome,
            ),
            loc >= old(self)@.len() ==> out == Err::<(), GridError>(GridError::OutOfGrid)
                && final(self)@ == old(self)@,
    {
        if loc >= self.cells.len() {
            return Err(GridError::OutOfGrid);
        }
        match outcome {
            Outcome::Diverged(n) => {
                self.cells[loc] = n;
            },
            Outcome::Bounded => {},
        }
        Ok(())
    }

    /// Takes a batch of escape-time results, in the order of arrival. Where any of
    /// them aims outside the grid, the batch is refused as a whole and the grid is
    /// left as it was.
    pub fn merge(&mut self, results: &Vec<(usize, Outcome)>) -> (out: Result<(), GridError>)
        requires
            old(self).wf(),
        ensures
            final(self).wf(),
            final(self).cols() == old(self).cols(),
            final(self).rows() == old(self).rows(),
            out is Err <==> exists|i: int|
                0 <= i < results@.len() && (#[trigger] results@[i]).0 >= old(self)@.len(),
            out is Err ==> out == Err::<(), GridError>(GridError::OutOfGrid) && final(self)@
                == old(self)@,
            out is Ok ==> final(self)@ == merged(old(self)@, results@),
    {
        let mut i: usize = 0;
        while i < results.len()
            invariant
                i <= results@.len(),
                *self == *old(self),
                self.wf(),
                forall|j: int| 0 <= j < i ==> (#[trigger] results@[j]).0 < self@.len(),
            decreases results@.len() - i,
        {
            if results[i].0 >= self.cells.len() {
                return Err(GridError::OutOfGrid);
            }
            i = i + 1;
        }
        let mut i: usize = 0;
        while i < results.len()
            invariant
                i <= results@.len(),
                self.wf(),
                self.cols() == old(self).cols(),
                self.rows() == old(self).rows(),
                self@.len() == old(self)@.len(),
                forall|j: int| 0 <= j < results@.len() ==> (#[trigger] results@[j]).0 < self@.len(),
                self@ == merged(old(self)@, results@.take(i as int)),
            decreases results@.len() - i,
        {
            assert(results@.take(i + 1).drop_last() == results@.take(i as int));
            let (loc, outcome) = results[i];
            match outcome {
                Outcome::Diverged(n) => {
                    self.cells[loc] = n;
                },
                Outcome::Bounded => {},
            }
            i = i + 1;
        }
        assert(results@.take(i as int) == results@);
        Ok(())
    }

    /// Whether the grid holds every cell of the orbit, the cells of the points and
    /// those of their conjugates.
    pub fn holds_orbit(&self, orbit: &Vec<(Cell, Cell)>) -> (out: bool)
        requires
            self.wf(),
        ensures
            out == self.holds_all(trail(orbit@)),
    {
        let mut i: usize = 0;
        while i < orbit.len()
            invariant
                i <= orbit@.len(),
                self.wf(),
                forall|k: int| 0 <= k < 2 * i ==> self.holds(#[trigger] trail(orbit@)[k]),
            decreases orbit@.len() - i,
        {
            let (point, mirror) = orbit[i];
            assert(trail(orbit@)[2 * i] == point && trail(orbit@)[2 * i + 1] == mirror);
            if self.locate(point).is_none() || self.locate(mirror).is_none() {
                return false;
            }
            i = i + 1;
        }
        true
    }

    /// Charges one cell of the grid: its counter goes up by 1. A counter that
    /// cannot go higher is refused, and the refusal changes nothing. The cell lies
    /// inside the grid: a point outside it is the caller's fault, which `locate`
    /// finds before the call.
    pub fn add_point(&mut self, cell: Cell) -> (out: Result<(), GridError>)
        requires
            old(self).wf(),
            old(self).holds(cell),
        ensures
            final(self).wf(),
            final(self).cols() == old(self).cols(),
            final(self).rows() == old(self).rows(),
            old(self).full(cell) ==> {
                &&& out == Err::<(), GridError>(GridError::Saturated)
                &&& final(self)@ == old(self)@
            },
            !old(self).full(cell) ==> {
                &&& out == Ok::<(), GridError>(())
                &&& final(self)@ == old(self)@.update(
                    old(self).index_of(cell),
                    (old(self)@[old(self).index_of(cell)] + 1) as u32,
                )
            },
    {
        proof {
            lemma_cell_inside(
                cell.col as int,
                cell.row as int,
                self.cols() as int,
                self.rows() as int,
            );
            assert(0 <= cell.row * self.width <= cell.row * self.width + cell.col)
                by (nonlinear_arith)
                requires
                    0 <= cell.row,
                    0 <= self.width,
                    0 <= cell.col,
            ;
        }
        let loc: usize = (cell.row as usize) * (self.width as usize) + (cell.col as usize);
        let count: u32 = self.cells[loc];
        if count == u32::MAX {
            Err(GridError::Saturated)
        } else {
            self.cells[loc] = count + 1;
            Ok(())
        }
    }

    /// Charges an orbit: for each of its points, in order, the cell of the point
    /// and then the cell of its conjugate, each by 1. All these cells lie inside
    /// the grid, which `holds_orbit` finds before the call. The call succeeds
    /// exactly where no counter would pass its limit; else the first counter that
    /// cannot go higher ends it, and the cells before it stay charged.
    pub fn add_orbit(&mut self, orbit: &Vec<(Cell, Cell)>) -> (out: Result<(), GridError>)
        requires
            old(self).wf(),
            old(self).holds_all(trail(orbit@)),
        ensures
            final(self).wf(),
            final(self).cols() == old(self).cols(),
            final(self).rows() == old(self).rows(),
            out is Ok <==> old(self).admits(trail(orbit@)),
            out is Ok <==> old(self).clean(trail(orbit@), trail(orbit@).len() as int),
            out is Ok ==> final(self)@ == charged(old(self)@, old(self).cols(), trail(orbit@)),
            out is Err ==> out == Err::<(), GridError>(GridError::Saturated) && exists|k: int|
                {
                    &&& 0 <= k < trail(orbit@).len()
                    &&& old(self).clean(trail(orbit@), k)
                    &&& #[trigger] old(self).full_at(trail(orbit@), k)
                    &&& final(self)@ == charged(
                        old(self)@,
                        old(self).cols(),
                        trail(orbit@).take(k),
                    )
                },
    {
        let ghost visited = trail(orbit@);
        let mut i: usize = 0;
        proof {
            lemma_clean_is_capacity(*old(self), visited);
            assert(visited.take(0) == Seq::<Cell>::empty());
            assert(visited.take(0).to_multiset() =~= Multiset::<Cell>::empty()) by {
                broadcast use vstd::seq_lib::group_to_multiset_ensures;

            }
        }
        while i < orbit.len()
            invariant
                i <= orbit@.len(),
                visited == trail(orbit@),
                old(self).wf(),
                old(self).holds_all(visited),
                self.wf(),
                self.cols() == old(self).cols(),
                self.rows() == old(self).rows(),
                self@.len() == old(self)@.len(),
                old(self).clean(visited, 2 * i),
                old(self).clean(visited, visited.len() as int) <==> old(self).admits(visited),
                forall|c: int|
                    0 <= c < self@.len() ==> self@[c] == old(self)@[c] + visited.take(
                        2 * i,
                    ).to_multiset().count(cell_at(self.cols(), c)),
            decreases orbit@.len() - i,
        {
            let (point, mirror) = orbit[i];
            assert(visited[2 * i] == point && visited[2 * i + 1] == mirror);
            proof {
                self.lemma_charge_step(*old(self), visited, 2 * i);
            }
            match self.add_point(point) {
                Err(e) => {
                    assert(self@ =~= charged(old(self)@, old(self).cols(), visited.take(2 * i)));
                    return Err(e);
                },
                Ok(()) => {},
            }
            proof {
                self.lemma_charge_step(*old(self), visited, 2 * i + 1);
            }
            match self.add_point(mirror) {
                Err(e) => {
                    assert(self@ =~= charged(
                        old(self)@,
                        old(self).cols(),
                        visited.take(2 * i + 1),
                    ));
                    return Err(e);
                },
                Ok(()) => {},
            }
            i = i + 1;
        }
        assert(visited.take(2 * i) == visited);
        assert(self@ =~= charged(old(self)@, old(self).cols(), visited));
        Ok(())
    }

    /// Where `self` is `origin` after the first `k` cells of `visited` were
    /// charged, the counter of `visited[k]` is full exactly where it would be in
    /// turn from `origin`, and where it is not, the grid after the charge is
    /// `origin` after the first `k + 1` cells were charged.
    proof fn lemma_charge_step(&self, origin: PixelGrid, visited: Seq<Cell>, k: int)
        requires
            self.wf(),
            origin.wf(),
            self.cols() == origin.cols(),
            self.rows() == origin.rows(),
            self@.len() == origin@.len(),
            0 <= k < visited.len(),
            self.holds(visited[k]),
            forall|c: int|
                0 <= c < self@.len() ==> self@[c] == origin@[c] + visited.take(
                    k,
                ).to_multiset().count(cell_at(self.cols(), c)),
        ensures
            self.full(visited[k]) == origin.full_at(visited, k),
            !self.full(visited[k]) ==> forall|c: int|
                0 <= c < self@.len() ==> self@.update(
                    self.index_of(visited[k]),
                    (self@[self.index_of(visited[k])] + 1) as u32,
                )[c] == origin@[c] + visited.take(k + 1).to_multiset().count(
                    cell_at(self.cols(), c),
                ),
            origin.clean(visited, k) && !self.full(visited[k]) ==> origin.clean(visited, k + 1),
    {
        let cell = visited[k];
        assert(visited.take(k + 1) == visited.take(k).push(cell));
        to_multiset_build(visited.take(k), cell);
        let idx = self.index_of(cell);
        lemma_index_cell_round_trip(self.cols(), self.rows(), 0, cell.col as int, cell.row as int);
        lemma_cell_inside(cell.col as int, cell.row as int, self.cols() as int, self.rows() as int);
        assert(cell_at(self.cols(), idx) == cell);
        if !self.full(cell) {
            assert forall|c: int| 0 <= c < self@.len() implies self@.update(
                idx,
                (self@[idx] + 1) as u32,
            )[c] == origin@[c] + visited.take(k + 1).to_multiset().count(
                cell_at(self.cols(), c),
            ) by {
                if c != idx {
                    lemma_index_cell_round_trip(self.cols(), self.rows(), c, 0, 0);
                    assert(cell_at(self.cols(), c) != cell);
                }
            }
        }
    }

    /// The largest counter of the grid, 0 for a grid without cells.
    pub fn maximum(&self) -> (m: u32)
        ensures
            m == peak(self@),
            forall|i: int| 0 <= i < self@.len() ==> self@[i] <= m,
            self@.len() == 0 ==> m == 0,
            self@.len() > 0 ==> exists|i: int| 0 <= i < self@.len() && self@[i] == m,
    {
        proof {
            lemma_peak_is_maximum(self@);
        }
        let mut m: u32 = 0;
        let mut i: usize = 0;
        while i < self.cells.len()
            invariant
                i <= self.cells@.len(),
                m == peak(self.cells@.take(i as int)),
            decreases self.cells@.len() - i,
        {
            assert(self.cells@.take(i + 1).drop_last() == self.cells@.take(i as int));
            if self.cells[i] > m {
                m = self.cells[i];
            }
            i = i + 1;
        }
        assert(self.cells@.take(i as int) == self.cells@);
        m
    }
}

/// The trail of an orbit grows by two cells with each point: the point's own cell,
/// then that of its conjugate.
pub proof fn lemma_trail_push(orbit: Seq<(Cell, Cell)>, point: (Cell, Cell))
    ensures
        trail(orbit.push(point)) == trail(orbit).push(point.0).push(point.1),
{
    assert(trail(orbit.push(point)) =~= trail(orbit).push(point.0).push(point.1));
}

/// Symmetry: where the cell of each point's conjugate is the mirror image of the
/// point's own cell, under a mirroring of the cells that undoes itself, an orbit
/// charges every cell exactly as often as its mirror image.
pub proof fn lemma_orbit_symmetric(
    orbit: Seq<(Cell, Cell)>,
    mirror: spec_fn(Cell) -> Cell,
    cell: Cell,
)
    requires
        forall|c: Cell| mirror(#[trigger] mirror(c)) == c,
        forall|i: int| 0 <= i < orbit.len() ==> (#[trigger] orbit[i]).1 == mirror(orbit[i].0),
    ensures
        trail(orbit).to_multiset().count(cell) == trail(orbit).to_multiset().count(mirror(cell)),
    decreases orbit.len(),
{
    broadcast use vstd::seq_lib::group_to_multiset_ensures;

    if orbit.len() == 0 {
        assert(trail(orbit) =~= Seq::<Cell>::empty());
    } else {
        let front = orbit.drop_last();
        let point = orbit.last();
        assert(point == orbit[orbit.len() - 1]);
        assert forall|i: int| 0 <= i < front.len() implies (#[trigger] front[i]).1 == mirror(
            front[i].0,
        ) by {
            assert(front[i] == orbit[i]);
        }
        lemma_orbit_symmetric(front, mirror, cell);
        assert(orbit == front.push(point));
        lemma_trail_push(front, point);
        to_multiset_build(trail(front), point.0);
        to_multiset_build(trail(front).push(point.0), point.1);
        assert(mirror(mirror(cell)) == cell);
        assert(mirror(mirror(point.0)) == point.0);
    }
}

/// Symmetry of the grid: after an orbit as above has been charged, and no counter
/// has reached its limit, the counter of every cell of the grid has grown by as
/// much as that of its mirror image.
pub proof fn lemma_charged_symmetric(
    cells: Seq<u32>,
    cols: nat,
    rows: nat,
    orbit: Seq<(Cell, Cell)>,
    mirror: spec_fn(Cell) -> Cell,
    c: int,
    d: int,
)
    requires
        cols <= u32::MAX,
        rows <= u32::MAX,
        cells.len() == cols * rows,
        forall|c: Cell| mirror(#[trigger] mirror(c)) == c,
        forall|i: int| 0 <= i < orbit.len() ==> (#[trigger] orbit[i]).1 == mirror(orbit[i].0),
        0 <= c < cells.len(),
        0 <= d < cells.len(),
        cell_at(cols, d) == mirror(cell_at(cols, c)),
        cells[c] + trail(orbit).to_multiset().count(cell_at(cols, c)) <= u32::MAX,
        cells[d] + trail(orbit).to_multiset().count(cell_at(cols, d)) <= u32::MAX,
    ensures
        charged(cells, cols, trail(orbit))[c] - cells[c] == charged(cells, cols, trail(orbit))[d]
            - cells[d],
{
    lemma_orbit_symmetric(orbit, mirror, cell_at(cols, c));
}

/// Charging one more cell raises the count of that cell by 1 and no other.
proof fn lemma_count_prefix(visited: Seq<Cell>, n: int, cell: Cell)
    requires
        0 <= n < visited.len(),
    ensures
        visited.take(n + 1).to_multiset().count(cell) == visited.take(n).to_multiset().count(cell)
            + if visited[n] == cell {
            1nat
        } else {
            0nat
        },
{
    assert(visited.take(n + 1) == visited.take(n).push(visited[n]));
    to_multiset_build(visited.take(n), visited[n]);
}

/// A longer prefix holds a cell at least as often as a shorter one.
proof fn lemma_count_monotone(visited: Seq<Cell>, n: int, m: int, cell: Cell)
    requires
        0 <= n <= m <= visited.len(),
    ensures
        visited.take(n).to_multiset().count(cell) <= visited.take(m).to_multiset().count(cell),
    decreases m - n,
{
    if n < m {
        lemma_count_monotone(visited, n, m - 1, cell);
        lemma_count_prefix(visited, m - 1, cell);
    }
}

/// While the cells of a prefix can be charged one after the other, no counter
/// passes its limit.
proof fn lemma_clean_prefix_capacity(grid: PixelGrid, visited: Seq<Cell>, n: int, c: int)
    requires
        grid.wf(),
        0 <= n <= visited.len(),
        grid.clean(visited, n),
        0 <= c < grid@.len(),
    ensures
        grid@[c] + visited.take(n).to_multiset().count(cell_at(grid.cols(), c)) <= u32::MAX,
    decreases n,
{
    broadcast use vstd::seq_lib::group_to_multiset_ensures;

    if n == 0 {
        assert(visited.take(0) =~= Seq::<Cell>::empty());
    } else {
        assert(grid.clean(visited, n - 1));
        lemma_clean_prefix_capacity(grid, visited, n - 1, c);
        lemma_count_prefix(visited, n - 1, cell_at(grid.cols(), c));
        if visited[n - 1] == cell_at(grid.cols(), c) {
            assert(!grid.full_at(visited, n - 1));
            lemma_index_cell_round_trip(grid.cols(), grid.rows(), c, 0, 0);
        }
    }
}

/// The cells `visited` of a grid can be charged one after the other exactly where
/// no counter would pass its limit: whether an orbit can be charged does not
/// depend on the order of its cells.
pub proof fn lemma_clean_is_capacity(grid: PixelGrid, visited: Seq<Cell>)
    requires
        grid.wf(),
        grid.holds_all(visited),
    ensures
        grid.clean(visited, visited.len() as int) <==> grid.admits(visited),
{
    let n = visited.len() as int;
    assert(visited.take(n) == visited);
    if grid.clean(visited, n) {
        assert forall|c: int| 0 <= c < grid@.len() implies grid@[c]
            + visited.to_multiset().count(#[trigger] cell_at(grid.cols(), c)) <= u32::MAX by {
            lemma_clean_prefix_capacity(grid, visited, n, c);
        }
    }
    if grid.admits(visited) {
        assert forall|k: int| 0 <= k < n implies !(#[trigger] grid.full_at(visited, k)) by {
            let cell = visited[k];
            assert(grid.holds(cell));
            let idx = grid.index_of(cell);
            lemma_cell_inside(
                cell.col as int,
                cell.row as int,
                grid.cols() as int,
                grid.rows() as int,
            );
            lemma_index_cell_round_trip(
                grid.cols(),
                grid.rows(),
                0,
                cell.col as int,
                cell.row as int,
            );
            assert(cell_at(grid.cols(), idx) == cell);
            lemma_count_prefix(visited, k, cell);
            lemma_count_monotone(visited, k + 1, n, cell);
        }
    }
}

/// Order independence of the counts: two trails that hold the same cells equally
/// often leave the same grid.
pub proof fn lemma_charged_order_independent(
    cells: Seq<u32>,
    cols: nat,
    first: Seq<Cell>,
    second: Seq<Cell>,
)
    requires
        first.to_multiset() == second.to_multiset(),
    ensures
        charged(cells, cols, first) == charged(cells, cols, second),
{
}

/// Writing one counter changes the sum by the difference of the two values.
proof fn lemma_total_update(s: Seq<u32>, i: int, v: u32)
    requires
        0 <= i < s.len(),
    ensures
        total(s.update(i, v)) == total(s) - s[i] + v,
    decreases s.len(),
{
    let t = s.update(i, v);
    if i == s.len() - 1 {
        assert(t.drop_last() =~= s.drop_last());
    } else {
        assert(t.drop_last() =~= s.drop_last().update(i, v));
        lemma_total_update(s.drop_last(), i, v);
    }
}

/// Every charge is counted once: where the grid holds all cells of `visited` and
/// no counter passes its limit, the sum of the counters grows by the number of
/// cells charged.
pub proof fn lemma_charged_total(grid: PixelGrid, visited: Seq<Cell>)
    requires
        grid.wf(),
        grid.holds_all(visited),
        grid.admits(visited),
    ensures
        total(charged(grid@, grid.cols(), visited)) == total(grid@) + visited.len(),
    decreases visited.len(),
{
    broadcast use vstd::seq_lib::group_to_multiset_ensures;

    let cols = grid.cols();
    if visited.len() == 0 {
        assert(charged(grid@, cols, visited) =~= grid@);
    } else {
        let front = visited.drop_last();
        let cell = visited.last();
        assert(visited == front.push(cell));
        to_multiset_build(front, cell);
        assert(grid.holds(visited[visited.len() - 1]));
        assert forall|k: int| 0 <= k < front.len() implies grid.holds(#[trigger] front[k]) by {
            assert(front[k] == visited[k]);
        }
        assert forall|c: int| 0 <= c < grid@.len() implies grid@[c] + front.to_multiset().count(
            #[trigger] cell_at(cols, c),
        ) <= u32::MAX by {
            assert(grid@[c] + visited.to_multiset().count(cell_at(cols, c)) <= u32::MAX);
        }
        lemma_charged_total(grid, front);
        let idx = grid.index_of(cell);
        lemma_cell_inside(cell.col as int, cell.row as int, cols as int, grid.rows() as int);
        lemma_index_cell_round_trip(cols, grid.rows(), 0, cell.col as int, cell.row as int);
        assert(cell_at(cols, idx) == cell);
        let before = charged(grid@, cols, front);
        let after = charged(grid@, cols, visited);
        assert(grid@[idx] + visited.to_multiset().count(cell_at(cols, idx)) <= u32::MAX);
        assert(after =~= before.update(idx, (before[idx] + 1) as u32)) by {
            assert forall|c: int| 0 <= c < grid@.len() implies after[c] == before.update(
                idx,
                (before[idx] + 1) as u32,
            )[c] by {
                assert(grid@[c] + visited.to_multiset().count(cell_at(cols, c)) <= u32::MAX);
                if c != idx {
                    lemma_index_cell_round_trip(cols, grid.rows(), c, 0, 0);
                    assert(cell_at(cols, c) != cell);
                }
            }
        }
        lemma_total_update(before, idx, (before[idx] + 1) as u32);
    }
}

/// The trail of an orbit holds the cells of its points and those of their
/// conjugates, each as often as the orbit does.
pub proof fn lemma_trail_split(orbit: Seq<(Cell, Cell)>)
    ensures
        trail(orbit).to_multiset() == own_cells(orbit).to_multiset().add(
            conj_cells(orbit).to_multiset(),
        ),
    decreases orbit.len(),
{
    broadcast use vstd::seq_lib::group_to_multiset_ensures;

    if orbit.len() == 0 {
        assert(trail(orbit) =~= Seq::<Cell>::empty());
        assert(own_cells(orbit) =~= Seq::<Cell>::empty());
        assert(conj_cells(orbit) =~= Seq::<Cell>::empty());
        assert(trail(orbit).to_multiset() =~= own_cells(orbit).to_multiset().add(
            conj_cells(orbit).to_multiset(),
        ));
    } else {
        let front = orbit.drop_last();
        let point = orbit.last();
        assert(orbit == front.push(point));
        lemma_trail_split(front);
        lemma_trail_push(front, point);
        assert(own_cells(orbit) =~= own_cells(front).push(point.0));
        assert(conj_cells(orbit) =~= conj_cells(front).push(point.1));
        to_multiset_build(trail(front), point.0);
        to_multiset_build(trail(front).push(point.0), point.1);
        to_multiset_build(own_cells(front), point.0);
        to_multiset_build(conj_cells(front), point.1);
        assert(trail(orbit).to_multiset() =~= own_cells(orbit).to_multiset().add(
            conj_cells(orbit).to_multiset(),
        ));
    }
}

/// The totals of an orbit: where the grid holds all its cells and no counter passes
/// its limit, the cells of the points are credited with as many increments as the
/// orbit has points, the cells of the conjugates with as many again, and the sum of
/// all counters grows by twice the number of points.
pub proof fn lemma_orbit_totals(grid: PixelGrid, orbit: Seq<(Cell, Cell)>)
    requires
        grid.wf(),
        grid.holds_all(trail(orbit)),
        grid.admits(trail(orbit)),
    ensures
        total(charged(grid@, grid.cols(), own_cells(orbit))) == total(grid@) + orbit.len(),
        total(charged(grid@, grid.cols(), conj_cells(orbit))) == total(grid@) + orbit.len(),
        total(charged(grid@, grid.cols(), trail(orbit))) == total(grid@) + 2 * orbit.len(),
{
    let own = own_cells(orbit);
    let conj = conj_cells(orbit);
    lemma_trail_split(orbit);
    assert forall|k: int| 0 <= k < own.len() implies grid.holds(#[trigger] own[k]) by {
        assert(trail(orbit)[2 * k] == own[k]);
    }
    assert forall|k: int| 0 <= k < conj.len() implies grid.holds(#[trigger] conj[k]) by {
        assert(trail(orbit)[2 * k + 1] == conj[k]);
    }
    assert forall|c: int| 0 <= c < grid@.len() implies grid@[c] + own.to_multiset().count(
        #[trigger] cell_at(grid.cols(), c),
    ) <= u32::MAX by {
        assert(grid@[c] + trail(orbit).to_multiset().count(cell_at(grid.cols(), c)) <= u32::MAX);
    }
    assert forall|c: int| 0 <= c < grid@.len() implies grid@[c] + conj.to_multiset().count(
        #[trigger] cell_at(grid.cols(), c),
    ) <= u32::MAX by {
        assert(grid@[c] + trail(orbit).to_multiset().count(cell_at(grid.cols(), c)) <= u32::MAX);
    }
    lemma_charged_total(grid, own);
    lemma_charged_total(grid, conj);
    lemma_charged_total(grid, trail(orbit));
}

/// A whole run: orbits charged one after the other leave the grid that one orbit
/// of all their points leaves, as long as no counter passes its limit. What holds
/// of one orbit, the totals and the symmetry, so holds of a run of any number of
/// them.
pub proof fn lemma_orbits_in_succession(
    cells: Seq<u32>,
    cols: nat,
    first: Seq<(Cell, Cell)>,
    second: Seq<(Cell, Cell)>,
)
    requires
        forall|c: int|
            0 <= c < cells.len() ==> cells[c] + trail(first + second).to_multiset().count(
                #[trigger] cell_at(cols, c),
            ) <= u32::MAX,
    ensures
        trail(first + second) == trail(first) + trail(second),
        charged(charged(cells, cols, trail(first)), cols, trail(second)) == charged(
            cells,
            cols,
            trail(first + second),
        ),
{
    assert(trail(first + second) =~= trail(first) + trail(second));
    lemma_multiset_commutative(trail(first), trail(second));
    let a = charged(charged(cells, cols, trail(first)), cols, trail(second));
    let b = charged(cells, cols, trail(first + second));
    assert forall|c: int| 0 <= c < cells.len() implies a[c] == b[c] by {
        assert(cells[c] + trail(first + second).to_multiset().count(cell_at(cols, c))
            <= u32::MAX);
    }
    assert(a =~= b);
}

} // verus!
