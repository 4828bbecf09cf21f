//! The in-memory raster model: a rectangular grid of scalar cells with
//! georeferencing and a nodata sentinel, addressed by `(row, column)` with
//! row increasing southward.

use vstd::prelude::*;

verus! {

use vstd::arithmetic::div_mod::lemma_fundamental_div_mod;
use vstd::arithmetic::div_mod::lemma_fundamental_div_mod_converse;

/// Ceiling of `num / den` for a non-negative numerator and positive
/// denominator.
pub open spec fn spec_ceil_div(num: int, den: int) -> int {
    (num + den - 1) / den
}

/// The mathematical value of one cell: `None` is the nodata sentinel.
pub open spec fn as_model(c: Option<i64>) -> Option<int> {
    match c {
        None => None,
        Some(v) => Some(v as int),
    }
}

/// A row-major index is within the grid's cell count.
pub proof fn lemma_index_bound(r: int, c: int, rows: int, cols: int)
    by (nonlinear_arith)
    requires
        0 <= r < rows,
        0 <= c < cols,
    ensures
        0 <= r * cols + c < rows * cols,
{
}

/// Row-major indexing is injective over in-range coordinates.
pub proof fn lemma_index_injective(r1: int, c1: int, r2: int, c2: int, cols: int)
    by (nonlinear_arith)
    requires
        0 <= c1 < cols,
        0 <= c2 < cols,
        r1 * cols + c1 == r2 * cols + c2,
    ensures
        r1 == r2 && c1 == c2,
{
}

/// A dense rectangular scalar field. Cells are stored row-major; a `None`
/// cell is nodata. Scalars are fixed-point integers in units chosen by the
/// caller; the georeferencing fields are in the same units.
pub struct Grid {
    pub rows: usize,
    pub columns: usize,
    pub cells: Vec<Option<i64>>,
    pub north: i64,
    pub south: i64,
    pub east: i64,
    pub west: i64,
    pub resolution_x: i64,
    pub resolution_y: i64,
}

impl Grid {
    /// The cell matrix as a sequence of mathematical values.
    pub open spec fn data(self) -> Seq<Option<int>> {
        self.cells@.map_values(|c: Option<i64>| as_model(c))
    }

    /// Row-major index of `(r, c)`.
    pub open spec fn idx(self, r: int, c: int) -> int {
        r * self.columns + c
    }

    pub open spec fn in_bounds(self, r: int, c: int) -> bool {
        0 <= r < self.rows && 0 <= c < self.columns
    }

    pub open spec fn cell(self, r: int, c: int) -> Option<int> {
        self.data()[self.idx(r, c)]
    }

    /// Well-formedness: the cell matrix matches the declared shape, and the
    /// shape matches the georeferenced extent at the declared resolution.
    pub open spec fn wf(self) -> bool {
        &&& self.cells@.len() == self.rows * self.columns
        &&& self.resolution_x >= 1
        &&& self.resolution_y >= 1
        &&& self.south <= self.north
        &&& self.west <= self.east
        &&& self.rows == spec_ceil_div(self.north - self.south, self.resolution_y as int)
        &&& self.columns == spec_ceil_div(self.east - self.west, self.resolution_x as int)
    }

    /// Two grids cover the same extent with the same shape.
    pub open spec fn same_frame(self, other: Grid) -> bool {
        &&& self.rows == other.rows
        &&& self.columns == other.columns
        &&& self.north == other.north
        &&& self.south == other.south
        &&& self.east == other.east
        &&& self.west == other.west
        &&& self.resolution_x == other.resolution_x
        &&& self.resolution_y == other.resolution_y
    }

    /// Allocates a nodata-filled grid of the given shape anchored at the
    /// north-west corner; the south and east edges are derived from the
    /// shape and resolution.
    pub fn nodata_filled(
        north: i64,
        west: i64,
        resolution_x: i64,
        resolution_y: i64,
        rows: usize,
        columns: usize,
    ) -> (g: Grid)
        requires
            resolution_x >= 1,
            resolution_y >= 1,
            rows * columns <= usize::MAX,
            rows * resolution_y <= i64::MAX,
            columns * resolution_x <= i64::MAX,
            north - rows * resolution_y >= i64::MIN,
            west + columns * resolution_x <= i64::MAX,
        ensures
            g.wf(),
            g.rows == rows,
            g.columns == columns,
            g.north == north,
            g.west == west,
            g.south == north - rows * resolution_y,
            g.east == west + columns * resolution_x,
            g.resolution_x == resolution_x,
            g.resolution_y == resolution_y,
            g.data().len() == rows * columns,
            forall|i: int| 0 <= i < rows * columns ==> g.data()[i] is None,
    {
        proof {
            assert(rows * resolution_y >= rows) by (nonlinear_arith)
                requires
                    resolution_y >= 1,
                    rows >= 0,
            ;
            assert(columns * resolution_x >= columns) by (nonlinear_arith)
                requires
                    resolution_x >= 1,
                    columns >= 0,
            ;
        }
        let span_y: i64 = (rows as i64) * resolution_y;
        let span_x: i64 = (columns as i64) * resolution_x;
        let south = north - span_y;
        let east = west + span_x;
        let total = rows * columns;
        let mut cells: Vec<Option<i64>> = Vec::new();
        while cells.len() < total
            invariant
                cells@.len() <= total,
                forall|i: int| 0 <= i < cells@.len() ==> cells@[i] is None,
            decreases total - cells@.len(),
        {
            cells.push(None);
        }
        proof {
            lemma_ceil_div_exact(rows as int, resolution_y as int);
            lemma_ceil_div_exact(columns as int, resolution_x as int);
        }
        Grid {
            rows,
            columns,
            cells,
            north,
            south,
            east,
            west,
            resolution_x,
            resolution_y,
        }
    }

    /// Allocates a nodata-filled grid covering the same frame as `other`.
    pub fn nodata_like(other: &Grid) -> (g: Grid)
        requires
            other.wf(),
        ensures
            g.wf(),
            g.same_frame(*other),
            g.data().len() == other.rows * other.columns,
            forall|i: int| 0 <= i < g.data().len() ==> g.data()[i] is None,
    {
        let total = other.cells.len();
        let mut cells: Vec<Option<i64>> = Vec::new();
        while cells.len() < total
            invariant
                cells@.len() <= total,
                forall|i: int| 0 <= i < cells@.len() ==> cells@[i] is None,
            decreases total - cells@.len(),
        {
            cells.push(None);
        }
        Grid {
            rows: other.rows,
            columns: other.columns,
            cells,
            north: other.north,
            south: other.south,
            east: other.east,
            west: other.west,
            resolution_x: other.resolution_x,
            resolution_y: other.resolution_y,
        }
    }

    /// Reads one cell.
    pub fn get(&self, r: usize, c: usize) -> (v: Option<i64>)
        requires
            self.wf(),
            self.in_bounds(r as int, c as int),
        ensures
            as_model(v) == self.cell(r as int, c as int),
    {
        let n = self.cells.len();
        proof {
            lemma_index_bound(r as int, c as int, self.rows as int, self.columns as int);
        }
        let i = r * self.columns + c;
        self.cells[i]
    }

    /// Overwrites one cell; every other cell and the frame are unchanged.
    pub fn set(&mut self, r: usize, c: usize, v: Option<i64>)
        requires
            old(self).wf(),
            old(self).in_bounds(r as int, c as int),
        ensures
            final(self).wf(),
            final(self).same_frame(*old(self)),
            final(self).data() == old(self).data().update(
                old(self).idx(r as int, c as int),
                as_model(v),
            ),
            final(self).cell(r as int, c as int) == as_model(v),
            forall|r2: int, c2: int|
                old(self).in_bounds(r2, c2) && (r2 != r || c2 != c) ==> final(self).cell(r2, c2)
                    == old(self).cell(r2, c2),
    {
        let n = self.cells.len();
        proof {
            lemma_index_bound(r as int, c as int, self.rows as int, self.columns as int);
        }
        let i = r * self.columns + c;
        self.cells.set(i, v);
        proof {
            let k = old(self).idx(r as int, c as int);
            assert(self.data() =~= old(self).data().update(k, as_model(v)));
            assert forall|r2: int, c2: int|
                old(self).in_bounds(r2, c2) && (r2 != r || c2 != c) implies self.cell(r2, c2)
                == old(self).cell(r2, c2) by {
                lemma_index_bound(r2, c2, self.rows as int, self.columns as int);
                if self.idx(r2, c2) == k {
                    lemma_index_injective(r2, c2, r as int, c as int, self.columns as int);
                }
            }
        }
    }

    /// Adds `amount` to one cell, treating nodata as the identity element:
    /// incrementing a nodata cell sets it to `amount` itself.
    pub fn increment(&mut self, r: usize, c: usize, amount: i64)
        requires
            old(self).wf(),
            old(self).in_bounds(r as int, c as int),
            match old(self).cell(r as int, c as int) {
                Some(v) => i64::MIN <= v + amount <= i64::MAX,
                None => true,
            },
        ensures
            final(self).wf(),
            final(self).same_frame(*old(self)),
            final(self).data() == old(self).data().update(
                old(self).idx(r as int, c as int),
                bumped(old(self).cell(r as int, c as int), amount as int),
            ),
            final(self).cell(r as int, c as int) == bumped(
                old(self).cell(r as int, c as int),
                amount as int,
            ),
            forall|r2: int, c2: int|
                old(self).in_bounds(r2, c2) && (r2 != r || c2 != c) ==> final(self).cell(r2, c2)
                    == old(self).cell(r2, c2),
    {
        let cur = self.get(r, c);
        let next: i64 = match cur {
            None => amount,
            Some(v) => v + amount,
        };
        self.set(r, c, Some(next));
    }
}

/// The value of a cell after adding `amount` with nodata as identity.
pub open spec fn bumped(cur: Option<int>, amount: int) -> Option<int> {
    match cur {
        None => Some(amount),
        Some(v) => Some(v + amount),
    }
}

/// `ceil((n * d) / d) == n` for positive `d`.
proof fn lemma_ceil_div_exact(n: int, d: int)
    requires
        n >= 0,
        d >= 1,
    ensures
        spec_ceil_div(n * d, d) == n,
{
    lemma_fundamental_div_mod_converse(n * d + d - 1, d, n, d - 1);
}

/// Ceiling division computed from truncating division.
pub fn ceil_div(num: i64, den: i64) -> (q: i64)
    requires
        num >= 0,
        den >= 1,
    ensures
        q == spec_ceil_div(num as int, den as int),
        0 <= q <= num,
        num > 0 ==> q >= 1,
{
    let d = num / den;
    let m = num % den;
    proof {
        lemma_fundamental_div_mod(num as int, den as int);
        assert(m == 0 ==> d <= num) by (nonlinear_arith)
            requires
                num == den * d + m,
                den >= 1,
                0 <= m < den,
                0 <= d,
        ;
        assert(m == 0 && num > 0 ==> d >= 1) by (nonlinear_arith)
            requires
                num == den * d + m,
                den >= 1,
                0 <= d,
        ;
        assert(m != 0 ==> d < num) by (nonlinear_arith)
            requires
                num == den * d + m,
                den >= 1,
                0 <= m < den,
                0 <= d,
        ;
    }
    let q = if m != 0 {
        d + 1
    } else {
        d
    };
    proof {
        if m != 0 {
            assert((d as int + 1) * den as int == d as int * den as int + den as int)
                by (nonlinear_arith);
            lemma_fundamental_div_mod_converse(
                num as int + den as int - 1,
                den as int,
                d as int + 1,
                m as int - 1,
            );
        } else {
            lemma_fundamental_div_mod_converse(
                num as int + den as int - 1,
                den as int,
                d as int,
                den as int - 1,
            );
        }
    }
    q
}

} // verus!
