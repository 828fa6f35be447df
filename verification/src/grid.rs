//! The map: a rectangle of cells, each holding one feature vector.

use vstd::prelude::*;
use crate::error::SomError;
use crate::fixed::Fixed;
use crate::fixed::lemma_neutral;
use crate::fixed::lemma_zero;
use crate::fixed::SCALE;
use crate::kernel::NeighbourhoodKernel;
use crate::metric::lemma_sq_euclidean_zero;
use crate::metric::DistanceMetric;
use crate::metric::SquaredEuclidean;
use crate::random::RandomSource;

verus! {

/// The size of a rectangular map, in cells.
#[derive(Clone, Copy, Debug, PartialEq, Eq, Structural)]
pub struct RectSomDefn {
    pub width: usize,
    pub height: usize,
}

/// A rectangular map of `width` by `height` cells. The cell at `(x, y)` is
/// the one at index `x + width * y` of the row-major sequence of cells.
/// Every map that this module hands out is well formed (`Grid::wf`), and
/// its methods keep it so.
#[derive(Clone, Debug)]
pub struct RectSom {
    width: usize,
    height: usize,
    fields: Vec<Vec<Fixed>>,
}

/// What a map is, to a contract: its size and the vectors of its cells in
/// the order of their indices.
pub struct Grid {
    pub width: int,
    pub height: int,
    pub cells: Seq<Seq<Fixed>>,
}

/// The offset `to - from` of two coordinates, as far as an `isize` can
/// hold it: beyond that, the nearest `isize`.
pub open spec fn offset(from: int, to: int) -> int {
    if to - from > isize::MAX {
        isize::MAX as int
    } else if to - from < isize::MIN {
        isize::MIN as int
    } else {
        to - from
    }
}

/// Computes `offset(from, to)`.
fn offset_of(from: usize, to: usize) -> (d: isize)
    ensures
        d == offset(from as int, to as int),
{
    if to >= from {
        let gap: usize = to - from;
        if gap > isize::MAX as usize {
            isize::MAX
        } else {
            gap as isize
        }
    } else {
        let gap: usize = from - to;
        if gap > isize::MAX as usize {
            isize::MIN
        } else {
            -(gap as isize)
        }
    }
}

/// A component `current` moved toward `target`:
/// `target * scale * rate + current * (1 - scale * rate)`.
pub open spec fn blend(current: Fixed, target: Fixed, scale: Fixed, rate: Fixed) -> Fixed {
    target.product(scale).product(rate).sum(
        current.product(Fixed::one().difference(scale.product(rate))),
    )
}

/// A cell's vector with each component moved toward `target`.
pub open spec fn nudged_cell(cell: Seq<Fixed>, target: Seq<Fixed>, scale: Fixed, rate: Fixed) -> Seq<Fixed> {
    Seq::new(cell.len(), |j: int| blend(cell[j], target[j], scale, rate))
}

/// The sum, over the first `n` components of a cell, of the square of what
/// the move toward `target` takes from the component.
pub open spec fn squared_shift(cell: Seq<Fixed>, target: Seq<Fixed>, scale: Fixed, rate: Fixed, n: int) -> Fixed
    decreases n,
{
    if n <= 0 {
        Fixed::zero()
    } else {
        let d = cell[n - 1].difference(blend(cell[n - 1], target[n - 1], scale, rate));
        squared_shift(cell, target, scale, rate, n - 1).sum(d.product(d))
    }
}

/// How far the move toward `target` takes a cell: the Euclidean norm of the
/// change of its vector, divided by the number of components of `target`.
pub open spec fn cell_shift(cell: Seq<Fixed>, target: Seq<Fixed>, scale: Fixed, rate: Fixed) -> Fixed {
    squared_shift(cell, target, scale, rate, cell.len() as int).root().shared_among(
        target.len() as int,
    )
}

impl Grid {
    /// The weight that `kernel` gives the cell at index `idx`, by its offset
    /// from `at`.
    pub open spec fn scale_at<K: NeighbourhoodKernel>(self, kernel: K, at: (int, int), radius: Fixed, idx: int) -> Fixed {
        kernel.weight(
            offset(at.0, self.coordinate_of(idx).0),
            offset(at.1, self.coordinate_of(idx).1),
            radius,
        )
    }

    /// The grid with every cell moved toward `target`, each by the weight
    /// of its offset from `at`.
    pub open spec fn nudged<K: NeighbourhoodKernel>(self, kernel: K, at: (int, int), radius: Fixed, target: Seq<Fixed>, rate: Fixed) -> Grid {
        Grid {
            width: self.width,
            height: self.height,
            cells: Seq::new(
                self.cells.len(),
                |i: int| nudged_cell(self.cells[i], target, self.scale_at(kernel, at, radius, i), rate),
            ),
        }
    }

    /// The sum of the shifts of the first `n` cells under that move.
    pub open spec fn total_shift<K: NeighbourhoodKernel>(self, kernel: K, at: (int, int), radius: Fixed, target: Seq<Fixed>, rate: Fixed, n: int) -> Fixed
        decreases n,
    {
        if n <= 0 {
            Fixed::zero()
        } else {
            self.total_shift(kernel, at, radius, target, rate, n - 1).sum(
                cell_shift(self.cells[n - 1], target, self.scale_at(kernel, at, radius, n - 1), rate),
            )
        }
    }

    /// The mean of the shifts of all cells under that move.
    pub open spec fn mean_shift<K: NeighbourhoodKernel>(self, kernel: K, at: (int, int), radius: Fixed, target: Seq<Fixed>, rate: Fixed) -> Fixed {
        self.total_shift(kernel, at, radius, target, rate, self.cells.len() as int).shared_among(
            self.cells.len() as int,
        )
    }

    /// The cell at index `idx` is the first among those nearest to `target`:
    /// every cell before it is farther, and none after it is nearer.
    pub open spec fn is_best_match<M: DistanceMetric>(self, metric: M, target: Seq<Fixed>, idx: int) -> bool {
        &&& 0 <= idx < self.cells.len()
        &&& forall|j: int| 0 <= j < idx ==> metric.distance(#[trigger] self.cells[j], target)
                > metric.distance(self.cells[idx], target)
        &&& forall|j: int| idx <= j < self.cells.len() ==> metric.distance(#[trigger] self.cells[j], target)
                >= metric.distance(self.cells[idx], target)
    }

    /// The index of the first among the cells nearest to `target`.
    pub open spec fn best_match<M: DistanceMetric>(self, metric: M, target: Seq<Fixed>) -> int {
        choose|i: int| self.is_best_match(metric, target, i)
    }

    /// Every component of every cell lies in its interval of `bounds`:
    /// from the first number of the pair up to, and without, the second.
    pub open spec fn within(self, bounds: Seq<(Fixed, Fixed)>) -> bool {
        forall|i: int, j: int| 0 <= i < self.cells.len() && 0 <= j < bounds.len() ==>
            bounds[j].0.raw <= (#[trigger] self.cells[i][j]).raw < bounds[j].1.raw
    }

    /// The number of components of each cell's vector.
    pub open spec fn dim(self) -> int {
        self.cells[0].len() as int
    }

    /// The grid has at least one cell, one vector for each cell, and
    /// vectors of one length, which is at least one.
    pub open spec fn wf(self) -> bool {
        &&& 1 <= self.width
        &&& 1 <= self.height
        &&& self.cells.len() == self.width * self.height
        &&& 1 <= self.dim()
        &&& forall|i: int| 0 <= i < self.cells.len() ==> (#[trigger] self.cells[i]).len() == self.dim()
    }

    /// The index of the cell at `(x, y)`.
    pub open spec fn linear_index_of(self, x: int, y: int) -> int {
        x + self.width * y
    }

    /// The coordinate of the cell at index `idx`.
    pub open spec fn coordinate_of(self, idx: int) -> (int, int) {
        (idx % self.width, idx / self.width)
    }

    /// `(x, y)` is a coordinate of the grid.
    pub open spec fn has_coordinate(self, x: int, y: int) -> bool {
        0 <= x < self.width && 0 <= y < self.height
    }
}

/// A move toward a vector of the grid's dimension keeps the grid well
/// formed, with its size and dimension.
pub proof fn lemma_nudged_wf<K: NeighbourhoodKernel>(g: Grid, kernel: K, at: (int, int), radius: Fixed, target: Seq<Fixed>, rate: Fixed)
    requires
        g.wf(),
    ensures
        g.nudged(kernel, at, radius, target, rate).wf(),
        g.nudged(kernel, at, radius, target, rate).dim() == g.dim(),
        g.nudged(kernel, at, radius, target, rate).width == g.width,
        g.nudged(kernel, at, radius, target, rate).height == g.height,
{
    lemma_grid_has_cell(g);
}

/// A grid has one best match for a target.
pub proof fn lemma_best_match_unique<M: DistanceMetric>(g: Grid, metric: M, target: Seq<Fixed>, i: int, j: int)
    requires
        g.is_best_match(metric, target, i),
        g.is_best_match(metric, target, j),
    ensures
        i == j,
{
    if i < j {
        assert(metric.distance(g.cells[i], target) > metric.distance(g.cells[j], target));
        assert(metric.distance(g.cells[j], target) >= metric.distance(g.cells[i], target));
    } else if j < i {
        assert(metric.distance(g.cells[j], target) > metric.distance(g.cells[i], target));
        assert(metric.distance(g.cells[i], target) >= metric.distance(g.cells[j], target));
    }
}

/// Where a cell is at distance zero from the target and every cell before
/// it is not, that cell is the best match.
pub proof fn lemma_first_zero_is_best<M: DistanceMetric>(g: Grid, metric: M, target: Seq<Fixed>, idx: int)
    requires
        0 <= idx < g.cells.len(),
        metric.distance(g.cells[idx], target) == 0,
        forall|j: int| 0 <= j < idx ==> metric.distance(#[trigger] g.cells[j], target) != 0,
    ensures
        g.is_best_match(metric, target, idx),
        g.best_match(metric, target) == idx,
{
    assert(g.is_best_match(metric, target, idx));
    lemma_best_match_unique(g, metric, target, idx, g.best_match(metric, target));
}

/// Where the target is a cell's vector and no earlier cell holds the same
/// vector, the best match by squared Euclidean distance is that cell, at
/// distance zero.
pub proof fn lemma_exact_match_is_best(g: Grid, target: Seq<Fixed>, idx: int)
    requires
        g.wf(),
        0 <= idx < g.cells.len(),
        g.cells[idx] == target,
        forall|j: int| 0 <= j < idx ==> #[trigger] g.cells[j] != target,
    ensures
        g.is_best_match(SquaredEuclidean {}, target, idx),
        g.best_match(SquaredEuclidean {}, target) == idx,
        (SquaredEuclidean {}).distance(g.cells[idx], target) == 0,
{
    let metric = SquaredEuclidean {};
    lemma_sq_euclidean_zero(g.cells[idx], target);
    assert forall|j: int| 0 <= j < idx implies metric.distance(#[trigger] g.cells[j], target) != 0 by {
        lemma_sq_euclidean_zero(g.cells[j], target);
    }
    lemma_first_zero_is_best(g, metric, target, idx);
}

/// Over a cell that the move toward `target` leaves as it is, the sum of
/// the squares is zero.
proof fn lemma_still_squares(cell: Seq<Fixed>, target: Seq<Fixed>, scale: Fixed, rate: Fixed, n: int)
    requires
        0 <= n <= cell.len(),
        forall|j: int| 0 <= j < cell.len() ==> blend(#[trigger] cell[j], target[j], scale, rate) == cell[j],
    ensures
        squared_shift(cell, target, scale, rate, n) == Fixed::zero(),
    decreases n,
{
    if n > 0 {
        lemma_still_squares(cell, target, scale, rate, n - 1);
        lemma_zero(cell[n - 1], 0);
        lemma_zero(Fixed::zero(), 0);
        lemma_neutral(Fixed::zero());
    }
}

/// A cell that the move toward `target` leaves as it is has the shift
/// zero.
pub proof fn lemma_still_cell(cell: Seq<Fixed>, target: Seq<Fixed>, scale: Fixed, rate: Fixed)
    requires
        forall|j: int| 0 <= j < cell.len() ==> blend(#[trigger] cell[j], target[j], scale, rate) == cell[j],
    ensures
        cell_shift(cell, target, scale, rate) == Fixed::zero(),
        nudged_cell(cell, target, scale, rate) == cell,
{
    lemma_still_squares(cell, target, scale, rate, cell.len() as int);
    lemma_zero(Fixed::zero(), target.len() as int);
    assert(nudged_cell(cell, target, scale, rate) =~= cell);
}

/// A move that leaves every cell as it is leaves the grid as it is, and
/// the sum and the mean of the shifts are zero.
pub proof fn lemma_still_grid<K: NeighbourhoodKernel>(g: Grid, kernel: K, at: (int, int), radius: Fixed, target: Seq<Fixed>, rate: Fixed, n: int)
    requires
        0 <= n <= g.cells.len(),
        forall|i: int, j: int| 0 <= i < g.cells.len() && 0 <= j < g.cells[i].len() ==> blend(
            #[trigger] g.cells[i][j],
            target[j],
            g.scale_at(kernel, at, radius, i),
            rate,
        ) == g.cells[i][j],
    ensures
        g.total_shift(kernel, at, radius, target, rate, n) == Fixed::zero(),
        n == g.cells.len() ==> g.mean_shift(kernel, at, radius, target, rate) == Fixed::zero()
            && g.nudged(kernel, at, radius, target, rate) == g,
    decreases n,
{
    if n > 0 {
        lemma_still_grid(g, kernel, at, radius, target, rate, n - 1);
        lemma_still_cell(g.cells[n - 1], target, g.scale_at(kernel, at, radius, n - 1), rate);
        lemma_neutral(Fixed::zero());
    }
    if n == g.cells.len() {
        lemma_zero(Fixed::zero(), n);
        assert forall|i: int| 0 <= i < g.cells.len() implies nudged_cell(
            g.cells[i],
            target,
            g.scale_at(kernel, at, radius, i),
            rate,
        ) == g.cells[i] by {
            lemma_still_cell(g.cells[i], target, g.scale_at(kernel, at, radius, i), rate);
        }
        assert(g.nudged(kernel, at, radius, target, rate).cells =~= g.cells);
    }
}

/// With the rate zero a move leaves every cell as it is, and the mean of
/// the shifts is zero.
pub proof fn lemma_rate_zero_is_still<K: NeighbourhoodKernel>(g: Grid, kernel: K, at: (int, int), radius: Fixed, target: Seq<Fixed>)
    ensures
        g.nudged(kernel, at, radius, target, Fixed::zero()) == g,
        g.mean_shift(kernel, at, radius, target, Fixed::zero()) == Fixed::zero(),
{
    let rate = Fixed::zero();
    assert forall|i: int, j: int| 0 <= i < g.cells.len() && 0 <= j < g.cells[i].len() implies blend(
        #[trigger] g.cells[i][j],
        target[j],
        g.scale_at(kernel, at, radius, i),
        rate,
    ) == g.cells[i][j] by {
        let scale = g.scale_at(kernel, at, radius, i);
        lemma_zero(target[j].product(scale), 0);
        lemma_zero(scale, 0);
        lemma_neutral(Fixed::one());
        lemma_neutral(g.cells[i][j]);
    }
    lemma_still_grid(g, kernel, at, radius, target, rate, g.cells.len() as int);
}

/// With a kernel that is one at every offset and the rate one, a move
/// sets every cell to the target; a second such move leaves the grid as it
/// is, and the mean of its shifts is zero.
pub proof fn lemma_full_move_reaches_target<K: NeighbourhoodKernel>(g: Grid, kernel: K, at: (int, int), radius: Fixed, target: Seq<Fixed>, again_at: (int, int), again_radius: Fixed)
    requires
        g.wf(),
        target.len() == g.dim(),
        forall|dx: int, dy: int, r: Fixed| #[trigger] kernel.weight(dx, dy, r) == Fixed::one(),
    ensures
        forall|i: int| 0 <= i < g.cells.len() ==> #[trigger] g.nudged(kernel, at, radius, target, Fixed::one()).cells[i] == target,
        g.nudged(kernel, at, radius, target, Fixed::one()).nudged(
            kernel,
            again_at,
            again_radius,
            target,
            Fixed::one(),
        ) == g.nudged(kernel, at, radius, target, Fixed::one()),
        g.nudged(kernel, at, radius, target, Fixed::one()).mean_shift(
            kernel,
            again_at,
            again_radius,
            target,
            Fixed::one(),
        ) == Fixed::zero(),
{
    let one = Fixed::one();
    let moved = g.nudged(kernel, at, radius, target, one);
    assert forall|c: Fixed, t: Fixed| #[trigger] blend(c, t, one, one) == t by {
        lemma_neutral(t);
        lemma_neutral(one);
        lemma_zero(one, 0);
        lemma_zero(c, 0);
    }
    assert forall|i: int| 0 <= i < g.cells.len() implies #[trigger] moved.cells[i] == target by {
        assert(g.cells[i].len() == g.dim());
        assert(moved.cells[i] =~= target);
    }
    assert forall|i: int, j: int| 0 <= i < moved.cells.len() && 0 <= j < moved.cells[i].len() implies blend(
        #[trigger] moved.cells[i][j],
        target[j],
        moved.scale_at(kernel, again_at, again_radius, i),
        one,
    ) == moved.cells[i][j] by {
        assert(moved.cells[i] == target);
    }
    lemma_still_grid(moved, kernel, again_at, again_radius, target, one, moved.cells.len() as int);
}

/// A well-formed grid has a cell.
pub proof fn lemma_grid_has_cell(g: Grid)
    requires
        g.wf(),
    ensures
        g.cells.len() >= 1,
{
    assert(g.width * g.height >= 1) by (nonlinear_arith)
        requires
            g.width >= 1,
            g.height >= 1,
    ;
}

/// Indices and coordinates correspond one to one: the coordinate of a cell's
/// index lies on the grid and has that index again, and the index of a
/// coordinate of the grid is the index of a cell and has that coordinate
/// again.
pub proof fn lemma_index_coordinate_inverse(g: Grid, idx: int, x: int, y: int)
    requires
        g.wf(),
    ensures
        0 <= idx < g.cells.len() ==> {
            let c = g.coordinate_of(idx);
            g.has_coordinate(c.0, c.1) && g.linear_index_of(c.0, c.1) == idx
        },
        g.has_coordinate(x, y) ==> 0 <= g.linear_index_of(x, y) < g.cells.len()
            && g.coordinate_of(g.linear_index_of(x, y)) == (x, y),
{
    let w = g.width;
    let h = g.height;
    if 0 <= idx < g.cells.len() {
        assert(0 <= idx % w < w && 0 <= idx / w < h && idx % w + w * (idx / w) == idx)
            by (nonlinear_arith)
            requires
                1 <= w,
                0 <= idx < w * h,
        ;
    }
    if g.has_coordinate(x, y) {
        assert(0 <= x + w * y < w * h && (x + w * y) % w == x && (x + w * y) / w == y)
            by (nonlinear_arith)
            requires
                0 <= x < w,
                0 <= y < h,
        ;
    }
}

/// Moves each component of `cell` toward `target` and returns the cell's
/// shift.
fn nudge_cell(cell: &mut Vec<Fixed>, target: &[Fixed], scale: Fixed, rate: Fixed) -> (shift: Fixed)
    requires
        old(cell)@.len() == target@.len(),
    ensures
        final(cell)@ == nudged_cell(old(cell)@, target@, scale, rate),
        shift == cell_shift(old(cell)@, target@, scale, rate),
{
    let d: usize = target.len();
    let keep: Fixed = Fixed { raw: SCALE }.sat_sub(scale.sat_mul(rate));
    let mut squares: Fixed = Fixed { raw: 0 };
    let mut jt: usize = 0;
    while jt < d
        invariant
            0 <= jt <= d,
            d == target@.len(),
            cell@.len() == d,
            keep == Fixed::one().difference(scale.product(rate)),
            squares == squared_shift(old(cell)@, target@, scale, rate, jt as int),
            forall|j: int| 0 <= j < jt ==> #[trigger] cell@[j] == blend(old(cell)@[j], target@[j], scale, rate),
            forall|j: int| jt <= j < d ==> #[trigger] cell@[j] == old(cell)@[j],
        decreases d - jt,
    {
        let w: Fixed = cell[jt];
        let new_w: Fixed = target[jt].sat_mul(scale).sat_mul(rate).sat_add(w.sat_mul(keep));
        let diff: Fixed = w.sat_sub(new_w);
        squares = squares.sat_add(diff.sat_mul(diff));
        cell[jt] = new_w;
        jt = jt + 1;
    }
    assert(cell@ =~= nudged_cell(old(cell)@, target@, scale, rate));
    squares.sqrt().div_count(d)
}

/// The grid of `width` by `height` cells whose vectors are `fields`.
spec fn grid_of(width: usize, height: usize, fields: Seq<Vec<Fixed>>) -> Grid {
    Grid {
        width: width as int,
        height: height as int,
        cells: Seq::new(fields.len(), |i: int| fields[i]@),
    }
}

/// Moves every cell of `fields` toward `target` and returns the sum of the
/// cells' shifts.
fn nudge_cells<K: NeighbourhoodKernel>(
    fields: &mut Vec<Vec<Fixed>>,
    width: usize,
    height: usize,
    at: (usize, usize),
    radius: Fixed,
    target: &[Fixed],
    kernel: &K,
    rate: Fixed,
) -> (total: Fixed)
    requires
        grid_of(width, height, old(fields)@).wf(),
        target@.len() == grid_of(width, height, old(fields)@).dim(),
    ensures
        grid_of(width, height, final(fields)@) == grid_of(width, height, old(fields)@).nudged(
            *kernel,
            (at.0 as int, at.1 as int),
            radius,
            target@,
            rate,
        ),
        total == grid_of(width, height, old(fields)@).total_shift(
            *kernel,
            (at.0 as int, at.1 as int),
            radius,
            target@,
            rate,
            old(fields)@.len() as int,
        ),
{
    let ghost before: Grid = grid_of(width, height, fields@);
    let ghost spot: (int, int) = (at.0 as int, at.1 as int);
    let n: usize = fields.len();
    let mut total: Fixed = Fixed { raw: 0 };
    let mut it: usize = 0;
    while it < n
        invariant
            0 <= it <= n,
            before.wf(),
            before == grid_of(width, height, old(fields)@),
            n == before.cells.len(),
            n == fields@.len(),
            target@.len() == before.dim(),
            spot == (at.0 as int, at.1 as int),
            total == before.total_shift(*kernel, spot, radius, target@, rate, it as int),
            forall|i: int| 0 <= i < it ==> (#[trigger] fields@[i])@ == nudged_cell(before.cells[i], target@, before.scale_at(*kernel, spot, radius, i), rate),
            forall|i: int| it <= i < n ==> (#[trigger] fields@[i])@ == before.cells[i],
        decreases n - it,
    {
        proof {
            lemma_index_coordinate_inverse(before, it as int, 0, 0);
        }
        let x: usize = it % width;
        let y: usize = it / width;
        let scale: Fixed = kernel.scale(offset_of(at.0, x), offset_of(at.1, y), radius);
        let shift: Fixed = nudge_cell(&mut fields[it], target, scale, rate);
        total = total.sat_add(shift);
        it = it + 1;
    }
    assert(grid_of(width, height, fields@).cells =~= before.nudged(*kernel, spot, radius, target@, rate).cells);
    total
}

/// A vector with one number drawn for each interval of `bounding_box`.
fn random_cell<R: RandomSource>(bounding_box: &[(Fixed, Fixed)], rng: &mut R) -> (cell: Vec<Fixed>)
    requires
        forall|j: int| 0 <= j < bounding_box@.len() ==> (#[trigger] bounding_box@[j]).0.raw < bounding_box@[j].1.raw,
    ensures
        cell@.len() == bounding_box@.len(),
        forall|j: int| 0 <= j < bounding_box@.len() ==>
            bounding_box@[j].0.raw <= (#[trigger] cell@[j]).raw < bounding_box@[j].1.raw,
{
    let d: usize = bounding_box.len();
    let mut cell: Vec<Fixed> = Vec::new();
    let mut jt: usize = 0;
    while jt < d
        invariant
            0 <= jt <= d,
            d == bounding_box@.len(),
            cell@.len() == jt,
            forall|j: int| 0 <= j < bounding_box@.len() ==> (#[trigger] bounding_box@[j]).0.raw < bounding_box@[j].1.raw,
            forall|j: int| 0 <= j < jt ==>
                bounding_box@[j].0.raw <= (#[trigger] cell@[j]).raw < bounding_box@[j].1.raw,
        decreases d - jt,
    {
        let bounds: (Fixed, Fixed) = bounding_box[jt];
        let drawn: Fixed = rng.uniform(bounds.0, bounds.1);
        cell.push(drawn);
        jt = jt + 1;
    }
    cell
}

impl View for RectSom {
    type V = Grid;

    closed spec fn view(&self) -> Grid {
        grid_of(self.width, self.height, self.fields@)
    }
}

impl RectSom {
    /// A map of `width` by `height` cells whose vectors have one component
    /// for each pair of `bounding_box`, each drawn from `rng` within its
    /// pair: at least the first number, below the second. `Configuration`
    /// where `width` or `height` is zero or `bounding_box` is empty.
    pub fn new_random<R: RandomSource>(
        width: usize,
        height: usize,
        bounding_box: &[(Fixed, Fixed)],
        rng: &mut R,
    ) -> (r: Result<RectSom, SomError>)
        requires
            width * height <= usize::MAX,
            forall|j: int| 0 <= j < bounding_box@.len() ==> (#[trigger] bounding_box@[j]).0.raw < bounding_box@[j].1.raw,
        ensures
            match r {
                Ok(som) => {
                    &&& width >= 1 && height >= 1 && bounding_box@.len() >= 1
                    &&& som@.wf()
                    &&& som@.width == width
                    &&& som@.height == height
                    &&& som@.cells.len() == width * height
                    &&& som@.dim() == bounding_box@.len()
                    &&& som@.within(bounding_box@)
                },
                Err(e) => e == SomError::Configuration && (width == 0 || height == 0
                    || bounding_box@.len() == 0),
            },
    {
        if width == 0 || height == 0 || bounding_box.len() == 0 {
            return Err(SomError::Configuration);
        }
        assert(width * height >= 1) by (nonlinear_arith)
            requires
                width >= 1,
                height >= 1,
        ;
        let n: usize = width * height;
        let mut fields: Vec<Vec<Fixed>> = Vec::new();
        let mut it: usize = 0;
        while it < n
            invariant
                0 <= it <= n,
                fields@.len() == it,
                forall|j: int| 0 <= j < bounding_box@.len() ==> (#[trigger] bounding_box@[j]).0.raw < bounding_box@[j].1.raw,
                forall|i: int| 0 <= i < it ==> (#[trigger] fields@[i])@.len() == bounding_box@.len(),
                forall|i: int, j: int| 0 <= i < it && 0 <= j < bounding_box@.len() ==>
                    bounding_box@[j].0.raw <= (#[trigger] fields@[i]@[j]).raw < bounding_box@[j].1.raw,
            decreases n - it,
        {
            let cell: Vec<Fixed> = random_cell(bounding_box, rng);
            fields.push(cell);
            it = it + 1;
        }
        let som = RectSom { width, height, fields };
        assert(som@.within(bounding_box@)) by {
            assert forall|i: int, j: int| 0 <= i < som@.cells.len() && 0 <= j < bounding_box@.len() implies bounding_box@[j].0.raw <= (#[trigger] som@.cells[i][j]).raw < bounding_box@[j].1.raw by {
                assert(som@.cells[i][j] == som.fields@[i]@[j]);
            }
        }
        Ok(som)
    }

    /// The map of `width` by `height` cells whose vectors are `fields`, in
    /// the order of their indices. `Configuration` where `width` or
    /// `height` is zero, `fields` has not `width * height` vectors, or the
    /// first vector is empty; else `DimensionMismatch` where a vector has
    /// not the length of the first.
    pub fn from_fields(width: usize, height: usize, fields: Vec<Vec<Fixed>>) -> (r: Result<RectSom, SomError>)
        ensures
            match r {
                Ok(som) => {
                    &&& som@.wf()
                    &&& som@.width == width
                    &&& som@.height == height
                    &&& som@.cells == Seq::new(fields@.len(), |i: int| fields@[i]@)
                },
                Err(e) => {
                    let misfit = width == 0 || height == 0 || fields@.len() != width * height
                        || fields@[0]@.len() == 0;
                    &&& e == SomError::Configuration <==> misfit
                    &&& e == SomError::DimensionMismatch <==> !misfit
                    &&& !misfit ==> exists|i: int| 0 <= i < fields@.len()
                        && (#[trigger] fields@[i])@.len() != fields@[0]@.len()
                },
            },
            (width >= 1 && height >= 1 && fields@.len() == width * height
                && fields@[0]@.len() >= 1 && forall|i: int| 0 <= i < fields@.len() ==>
                (#[trigger] fields@[i])@.len() == fields@[0]@.len()) ==> r is Ok,
    {
        let n: usize = fields.len();
        if width == 0 || height == 0 || n == 0 {
            assert(width * height >= 1 || width == 0 || height == 0) by (nonlinear_arith)
                requires
                    width >= 0,
                    height >= 0,
            ;
            return Err(SomError::Configuration);
        }
        if n / width != height || n % width != 0 {
            assert(fields@.len() != width * height) by (nonlinear_arith)
                requires
                    n == fields@.len(),
                    width >= 1,
                    n / width != height || n % width != 0,
            ;
            return Err(SomError::Configuration);
        }
        assert(n == width * height) by (nonlinear_arith)
            requires
                width >= 1,
                n / width == height,
                n % width == 0,
        ;
        let d: usize = fields[0].len();
        if d == 0 {
            return Err(SomError::Configuration);
        }
        let mut it: usize = 1;
        while it < n
            invariant
                1 <= it <= n,
                n == fields@.len(),
                n == width * height,
                width >= 1,
                height >= 1,
                d >= 1,
                d == fields@[0]@.len(),
                forall|i: int| 0 <= i < it ==> (#[trigger] fields@[i])@.len() == d,
            decreases n - it,
        {
            if fields[it].len() != d {
                assert(fields@[it as int]@.len() != fields@[0]@.len());
                return Err(SomError::DimensionMismatch);
            }
            it = it + 1;
        }
        let ghost cells = Seq::new(fields@.len(), |i: int| fields@[i]@);
        let som = RectSom { width, height, fields };
        assert(som@.cells =~= cells);
        Ok(som)
    }

    /// The vectors of the cells, in the order of their indices.
    pub fn fields(&self) -> (r: &Vec<Vec<Fixed>>)
        ensures
            self@.cells == Seq::new(r@.len(), |i: int| r@[i]@),
    {
        &self.fields
    }

    /// The coordinate of the cell nearest to `target` by `metric`, the first
    /// in the order of the indices where several are equally near; or
    /// `DimensionMismatch` where `target` has not the map's number of
    /// components.
    pub fn best_fitting_unit<M: DistanceMetric>(&self, target: &[Fixed], metric: &M) -> (r: Result<(usize, usize), SomError>)
        requires
            self@.wf(),
        ensures
            match r {
                Ok(c) => {
                    &&& target@.len() == self@.dim()
                    &&& self@.has_coordinate(c.0 as int, c.1 as int)
                    &&& self@.is_best_match(*metric, target@, self@.linear_index_of(c.0 as int, c.1 as int))
                },
                Err(e) => e == SomError::DimensionMismatch && target@.len() != self@.dim(),
            },
    {
        proof {
            lemma_grid_has_cell(self@);
        }
        let n: usize = self.fields.len();
        if target.len() != self.fields[0].len() {
            return Err(SomError::DimensionMismatch);
        }
        let mut min_idx: usize = 0;
        let mut min_dist: u128 = metric.measure(self.fields[0].as_slice(), target);
        let mut it: usize = 1;
        while it < n
            invariant
                1 <= it <= n,
                n == self.fields@.len(),
                n == self@.cells.len(),
                self@.wf(),
                target@.len() == self@.dim(),
                0 <= min_idx < it,
                min_dist == metric.distance(self@.cells[min_idx as int], target@),
                forall|j: int| 0 <= j < min_idx ==> metric.distance(#[trigger] self@.cells[j], target@) > min_dist,
                forall|j: int| min_idx <= j < it ==> metric.distance(#[trigger] self@.cells[j], target@) >= min_dist,
            decreases n - it,
        {
            assert(self@.cells[it as int].len() == self@.dim());
            let d: u128 = metric.measure(self.fields[it].as_slice(), target);
            if d < min_dist {
                min_idx = it;
                min_dist = d;
            }
            it = it + 1;
        }
        proof {
            lemma_index_coordinate_inverse(self@, min_idx as int, 0, 0);
        }
        Ok(self.delinearize_coord(min_idx))
    }

    /// The number of cells in a row.
    pub fn width(&self) -> (w: usize)
        requires
            self@.wf(),
        ensures
            w == self@.width,
    {
        self.width
    }

    /// The number of rows.
    pub fn height(&self) -> (h: usize)
        requires
            self@.wf(),
        ensures
            h == self@.height,
    {
        self.height
    }

    /// The number of components of each cell's vector.
    pub fn dim(&self) -> (d: usize)
        requires
            self@.wf(),
        ensures
            d == self@.dim(),
    {
        proof {
            lemma_grid_has_cell(self@);
        }
        self.fields[0].len()
    }

    /// The coordinate of the cell at index `idx`: the inverse of
    /// `linearize_coord`.
    pub fn delinearize_coord(&self, idx: usize) -> (c: (usize, usize))
        requires
            self@.wf(),
        ensures
            (c.0 as int, c.1 as int) == self@.coordinate_of(idx as int),
    {
        (idx % self.width, idx / self.width)
    }

    /// The index of the cell at `(x, y)`, or `Index` where `(x, y)` lies
    /// outside the grid.
    pub fn linearize_coord(&self, x: usize, y: usize) -> (r: Result<usize, SomError>)
        requires
            self@.wf(),
        ensures
            match r {
                Ok(idx) => self@.has_coordinate(x as int, y as int) && idx
                    == self@.linear_index_of(x as int, y as int),
                Err(e) => e == SomError::Index && !self@.has_coordinate(x as int, y as int),
            },
    {
        proof {
            lemma_index_coordinate_inverse(self@, 0, x as int, y as int);
        }
        if x >= self.width || y >= self.height {
            return Err(SomError::Index);
        }
        let n: usize = self.fields.len();
        assert(0 <= self.width * y && x + self.width * y < n) by {
            assert(self@.cells.len() == self.fields@.len());
            assert(0 <= self.width * y) by (nonlinear_arith)
                requires
                    self.width >= 0,
                    y >= 0,
            ;
        }
        Ok(x + self.width * y)
    }

    /// The vector of the cell at `(x, y)`, or `Index` where `(x, y)` lies
    /// outside the grid.
    pub fn field(&self, x: usize, y: usize) -> (r: Result<&[Fixed], SomError>)
        requires
            self@.wf(),
        ensures
            match r {
                Ok(v) => self@.has_coordinate(x as int, y as int) && v@
                    == self@.cells[self@.linear_index_of(x as int, y as int)],
                Err(e) => e == SomError::Index && !self@.has_coordinate(x as int, y as int),
            },
    {
        match self.linearize_coord(x, y) {
            Ok(idx) => {
                proof {
                            lemma_index_coordinate_inverse(self@, 0, x as int, y as int);
                }
                Ok(self.fields[idx].as_slice())
            },
            Err(e) => Err(e),
        }
    }

    /// Moves every cell toward `target`: the cell at `(x, y)` by the weight
    /// that `kernel` gives the offset `(x - at.0, y - at.1)` for `radius`,
    /// times `rate`. Returns the mean over the cells of how far each moved,
    /// or `DimensionMismatch`, with the map unchanged, where `target` has
    /// not the map's number of components.
    pub fn nudge_weights<K: NeighbourhoodKernel>(
        &mut self,
        at: (usize, usize),
        radius: Fixed,
        target: &[Fixed],
        kernel: &K,
        rate: Fixed,
    ) -> (r: Result<Fixed, SomError>)
        requires
            old(self)@.wf(),
        ensures
            final(self)@.wf(),
            match r {
                Ok(m) => target@.len() == old(self)@.dim() && final(self)@ == old(self)@.nudged(
                    *kernel,
                    (at.0 as int, at.1 as int),
                    radius,
                    target@,
                    rate,
                ) && m == old(self)@.mean_shift(
                    *kernel,
                    (at.0 as int, at.1 as int),
                    radius,
                    target@,
                    rate,
                ),
                Err(e) => e == SomError::DimensionMismatch && target@.len() != old(self)@.dim()
                    && final(self)@ == old(self)@,
            },
    {
        proof {
            lemma_grid_has_cell(self@);
        }
        let n: usize = self.fields.len();
        if target.len() != self.fields[0].len() {
            return Err(SomError::DimensionMismatch);
        }
        proof {
            lemma_nudged_wf(self@, *kernel, (at.0 as int, at.1 as int), radius, target@, rate);
        }
        let total: Fixed = nudge_cells(
            &mut self.fields,
            self.width,
            self.height,
            at,
            radius,
            target,
            kernel,
            rate,
        );
        Ok(total.div_count(n))
    }
}

} // verus!
