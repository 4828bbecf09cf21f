//! The sequential phases of the inverse-distance-weighted interpolator:
//! binning points into the spatial index and the attribute array, deriving
//! the output grid frame from the cloud bounds, and deciding each output
//! cell from the points a radius query found.
//!
//! The weighting arithmetic itself divides by real distances raised to a
//! configured exponent; it operates on the exact `(attribute, squared
//! distance)` samples this module hands over.

use vstd::prelude::*;

verus! {

use vstd::arithmetic::div_mod::lemma_fundamental_div_mod;
use vstd::arithmetic::div_mod::lemma_mod_bound;
use vstd::arithmetic::mul::lemma_mul_inequality;
use crate::grid::Grid;
use crate::grid::spec_ceil_div;
use crate::grid::ceil_div;
use crate::points::PointRecord;
use crate::points::FilterConfig;
use crate::points::AttributeKind;
use crate::points::spec_qualifies;
use crate::points::spec_attribute;
use crate::points::qualifies;
use crate::points::attribute_of;
use crate::spatial::SpatialIndex;
use crate::spatial::ConfigError;
use crate::spatial::COORD_LIMIT;
use crate::spatial::coord_in_range;
use crate::spatial::query_filter;
use crate::spatial::query_result;

/// The index entries binning produces from a point sequence: one entry per
/// qualifying point, in ordinal order, holding its position and ordinal.
pub open spec fn bin_entries(pts: Seq<PointRecord>, cfg: FilterConfig) -> Seq<(i64, i64, usize)>
    decreases pts.len(),
{
    if pts.len() == 0 {
        Seq::empty()
    } else {
        let prev = bin_entries(pts.drop_last(), cfg);
        if spec_qualifies(pts.last(), cfg) {
            prev.push((pts.last().x, pts.last().y, (pts.len() - 1) as usize))
        } else {
            prev
        }
    }
}

/// Law of the binning pass, soundness half: every entry of the index stems
/// from a qualifying point, carries that point's position, and its
/// identifier is the point's ordinal. In particular a point failing the
/// inclusion filter is never inserted.
pub proof fn lemma_bin_entries_qualify(pts: Seq<PointRecord>, cfg: FilterConfig, k: int)
    requires
        pts.len() <= usize::MAX,
        0 <= k < bin_entries(pts, cfg).len(),
    ensures
        ({
            let e = bin_entries(pts, cfg)[k];
            &&& (e.2 as int) < pts.len()
            &&& spec_qualifies(pts[e.2 as int], cfg)
            &&& e.0 == pts[e.2 as int].x
            &&& e.1 == pts[e.2 as int].y
        }),
    decreases pts.len(),
{
    if pts.len() > 0 {
        let prev = bin_entries(pts.drop_last(), cfg);
        if k < prev.len() {
            lemma_bin_entries_qualify(pts.drop_last(), cfg, k);
            assert(pts.drop_last()[prev[k].2 as int] == pts[prev[k].2 as int]);
        }
    }
}

/// Law of the binning pass, completeness half: every qualifying point has
/// its entry in the index, under its own ordinal.
pub proof fn lemma_bin_entries_complete(pts: Seq<PointRecord>, cfg: FilterConfig, i: int)
    requires
        pts.len() <= usize::MAX,
        0 <= i < pts.len(),
        spec_qualifies(pts[i], cfg),
    ensures
        exists|k: int|
            0 <= k < bin_entries(pts, cfg).len() && #[trigger] bin_entries(pts, cfg)[k] == (
            pts[i].x,
            pts[i].y,
            i as usize,
            ),
    decreases pts.len(),
{
    let entries = bin_entries(pts, cfg);
    let prev = bin_entries(pts.drop_last(), cfg);
    if i == pts.len() - 1 {
        assert(entries[prev.len() as int] == (pts[i].x, pts[i].y, i as usize));
    } else {
        assert(pts.drop_last()[i] == pts[i]);
        lemma_bin_entries_complete(pts.drop_last(), cfg, i);
        let k = choose|k: int|
            0 <= k < prev.len() && #[trigger] prev[k] == (pts[i].x, pts[i].y, i as usize);
        assert(entries[k] == (pts[i].x, pts[i].y, i as usize));
    }
}

/// Every identifier the index can hand back resolves in the attribute
/// array binning filled alongside it: the array is index-aligned with the
/// point sequence whether or not a point qualified.
pub proof fn lemma_binned_ids_resolve(pts: Seq<PointRecord>, cfg: FilterConfig)
    requires
        pts.len() <= usize::MAX,
    ensures
        forall|k: int|
            0 <= k < bin_entries(pts, cfg).len() ==> (#[trigger] bin_entries(pts, cfg)[k]).2
                < pts.len(),
{
    assert forall|k: int| 0 <= k < bin_entries(pts, cfg).len() implies (#[trigger] bin_entries(
        pts,
        cfg,
    )[k]).2 < pts.len() by {
        lemma_bin_entries_qualify(pts, cfg, k);
    }
}

/// Law of filter exclusion: a point failing the inclusion filter is never
/// among the results of a radius query on the index binning built, whatever
/// the query point and radius.
pub proof fn lemma_filtered_never_returned(
    pts: Seq<PointRecord>,
    cfg: FilterConfig,
    i: int,
    qx: int,
    qy: int,
    radius: int,
)
    requires
        pts.len() <= usize::MAX,
        0 <= i < pts.len(),
        !spec_qualifies(pts[i], cfg),
    ensures
        ({
            let res = bin_entries(pts, cfg).filter(query_filter(qx, qy, radius)).map_values(
                query_result(qx, qy),
            );
            forall|k: int| 0 <= k < res.len() ==> (#[trigger] res[k]).0 != i as usize
        }),
{
    let entries = bin_entries(pts, cfg);
    let kept = entries.filter(query_filter(qx, qy, radius));
    let res = kept.map_values(query_result(qx, qy));
    assert forall|k: int| 0 <= k < res.len() implies (#[trigger] res[k]).0 != i as usize by {
        let e = kept[k];
        assert(kept.contains(e));
        entries.lemma_filter_contains_rev(query_filter(qx, qy, radius), e);
        let j = choose|j: int| 0 <= j < entries.len() && entries[j] == e;
        lemma_bin_entries_qualify(pts, cfg, j);
        assert(res[k] == query_result(qx, qy)(e));
        if e.2 == i as usize {
            assert(spec_qualifies(pts[i], cfg));
        }
    }
}

/// Phase one of the interpolator: one pass over the points. Every
/// qualifying point is inserted into a fresh spatial index under its
/// ordinal; the selected attribute of every point, qualifying or not, is
/// recorded at its ordinal, so identifiers the index hands back always
/// resolve.
pub fn bin_points(
    points: &Vec<PointRecord>,
    kind: AttributeKind,
    cfg: &FilterConfig,
    radius: i64,
) -> (r: Result<(SpatialIndex, Vec<i64>), ConfigError>)
    requires
        cfg.wf(),
        radius <= COORD_LIMIT,
        forall|i: int|
            0 <= i < points@.len() ==> coord_in_range(
                (#[trigger] points@[i]).x as int,
                points@[i].y as int,
            ),
    ensures
        r is Ok <==> radius >= 1,
        radius < 1 <==> r == Err::<(SpatialIndex, Vec<i64>), ConfigError>(
            ConfigError::NonPositiveRadius,
        ),
        r matches Ok(p) ==> {
            &&& p.0.wf()
            &&& p.0.radius == radius
            &&& p.0.entries@ == bin_entries(points@, *cfg)
            &&& p.1@.len() == points@.len()
            &&& forall|i: int|
                0 <= i < points@.len() ==> p.1@[i] as int == spec_attribute(
                    #[trigger] points@[i],
                    kind,
                )
        },
{
    let mut index = match SpatialIndex::new(radius) {
        Ok(s) => s,
        Err(e) => {
            return Err(e);
        },
    };
    let mut attrs: Vec<i64> = Vec::new();
    let mut i: usize = 0;
    proof {
        assert(points@.take(0) =~= Seq::<PointRecord>::empty());
    }
    while i < points.len()
        invariant
            cfg.wf(),
            i <= points@.len(),
            index.wf(),
            index.radius == radius,
            forall|j: int|
                0 <= j < points@.len() ==> coord_in_range(
                    (#[trigger] points@[j]).x as int,
                    points@[j].y as int,
                ),
            index.entries@ == bin_entries(points@.take(i as int), *cfg),
            attrs@.len() == i,
            forall|j: int|
                0 <= j < i ==> attrs@[j] as int == spec_attribute(#[trigger] points@[j], kind),
        decreases points@.len() - i,
    {
        let p = points[i];
        if qualifies(&p, cfg) {
            index.insert(p.x, p.y, i);
        }
        attrs.push(attribute_of(&p, kind));
        proof {
            let taken = points@.take(i as int);
            let grown = points@.take(i as int + 1);
            assert(grown.drop_last() =~= taken);
            assert(grown.last() == p);
        }
        i = i + 1;
    }
    proof {
        assert(points@.take(points@.len() as int) =~= points@);
    }
    Ok((index, attrs))
}

/// What one output cell holds, as decided from the points a radius query
/// found around the cell centre.
#[derive(Clone, PartialEq, Eq, Debug)]
pub enum CellValue {
    /// The query found no point: the cell stays nodata.
    NoData,
    /// Some found point sits exactly on the cell centre: its attribute is
    /// assigned directly, bypassing weighting.
    Exact(i64),
    /// The `(attribute, squared distance)` samples, in query order, over
    /// which the inverse-distance weighting runs; every distance is
    /// positive.
    Weighted(Vec<(i64, u64)>),
}

/// The weighting sample a found `(identifier, squared distance)` pair
/// contributes: the identified point's recorded attribute with the
/// distance.
pub open spec fn sample_of(attrs: Seq<i64>) -> spec_fn((usize, u64)) -> (i64, u64) {
    |r: (usize, u64)| (attrs[r.0 as int], r.1)
}

/// How a cell's value follows from what a radius query found. An empty
/// result leaves the cell nodata; otherwise, if some result lies at
/// distance zero, the first such point's attribute is taken exactly;
/// otherwise every found sample feeds the weighting, in query order.
pub open spec fn decides_cell(found: Seq<(usize, u64)>, attrs: Seq<i64>, v: CellValue) -> bool {
    &&& (v is NoData <==> found.len() == 0)
    &&& (v is Exact <==> exists|j: int| 0 <= j < found.len() && (#[trigger] found[j]).1 == 0)
    &&& forall|j: int|
        (0 <= j < found.len() && (#[trigger] found[j]).1 == 0 && (forall|l: int|
            0 <= l < j ==> (#[trigger] found[l]).1 != 0)) ==> v == CellValue::Exact(
            attrs[found[j].0 as int],
        )
    &&& (v matches CellValue::Weighted(pairs) ==> pairs@ == found.map_values(sample_of(attrs)))
}

/// Decides one output cell from the results of a radius query, exactly per
/// [`decides_cell`].
pub fn evaluate_cell(found: &Vec<(usize, u64)>, attrs: &Vec<i64>) -> (v: CellValue)
    requires
        forall|j: int| 0 <= j < found@.len() ==> (#[trigger] found@[j]).0 < attrs@.len(),
    ensures
        decides_cell(found@, attrs@, v),
{
    let mut j: usize = 0;
    while j < found.len()
        invariant
            j <= found@.len(),
            forall|j2: int| 0 <= j2 < found@.len() ==> (#[trigger] found@[j2]).0 < attrs@.len(),
            forall|l: int| 0 <= l < j ==> (#[trigger] found@[l]).1 != 0,
        decreases found@.len() - j,
    {
        let (id, d_sq) = found[j];
        if d_sq == 0 {
            return CellValue::Exact(attrs[id]);
        }
        j = j + 1;
    }
    if found.len() == 0 {
        return CellValue::NoData;
    }
    let mut pairs: Vec<(i64, u64)> = Vec::new();
    let mut k: usize = 0;
    proof {
        assert(found@.take(0).map_values(sample_of(attrs@)) =~= Seq::<(i64, u64)>::empty());
    }
    while k < found.len()
        invariant
            k <= found@.len(),
            found@.len() > 0,
            forall|j2: int| 0 <= j2 < found@.len() ==> (#[trigger] found@[j2]).0 < attrs@.len(),
            forall|l: int| 0 <= l < found@.len() ==> (#[trigger] found@[l]).1 != 0,
            pairs@ == found@.take(k as int).map_values(sample_of(attrs@)),
        decreases found@.len() - k,
    {
        let (id, d_sq) = found[k];
        pairs.push((attrs[id], d_sq));
        proof {
            assert(found@.take(k as int + 1) =~= found@.take(k as int).push(found@[k as int]));
            assert(found@.take(k as int + 1).map_values(sample_of(attrs@)) =~= found@.take(
                k as int,
            ).map_values(sample_of(attrs@)).push(sample_of(attrs@)(found@[k as int])));
        }
        k = k + 1;
    }
    proof {
        assert(found@.take(found@.len() as int) =~= found@);
    }
    CellValue::Weighted(pairs)
}

/// The results the index reports for a query at `center`.
pub open spec fn found_at(index: SpatialIndex, center: (int, int)) -> Seq<(usize, u64)> {
    index.entries@.filter(query_filter(center.0, center.1, index.radius as int)).map_values(
        query_result(center.0, center.1),
    )
}

/// The centre of cell `(row, col)` of an output frame: half a cell in from
/// the cell's north-west corner.
pub open spec fn spec_cell_center(frame: Grid, row: int, col: int) -> (int, int) {
    (
        frame.west + col * frame.resolution_x + frame.resolution_x / 2,
        frame.north - row * frame.resolution_y - frame.resolution_y / 2,
    )
}

/// A cell offset within an extent of `n == ceil(extent / d)` cells of size
/// `d` stays inside the extent.
proof fn lemma_cell_offset_bound(extent: int, d: int, n: int, i: int)
    requires
        d >= 1,
        extent >= 0,
        n == spec_ceil_div(extent, d),
        0 <= i < n,
    ensures
        0 <= i * d <= extent - 1,
{
    lemma_fundamental_div_mod(extent + d - 1, d);
    lemma_mod_bound(extent + d - 1, d);
    lemma_mul_inequality(i + 1, n, d);
    assert(n * d == d * n) by (nonlinear_arith);
    assert((i + 1) * d == i * d + d) by (nonlinear_arith);
    assert(0 <= i * d) by (nonlinear_arith)
        requires
            i >= 0,
            d >= 1,
    ;
}

/// Computes the centre of cell `(row, col)`, exactly per
/// [`spec_cell_center`]; it lies in coordinate range whenever the frame,
/// padded by one cell size, does.
pub fn cell_center(frame: &Grid, row: usize, col: usize) -> (c: (i64, i64))
    requires
        frame.wf(),
        frame.in_bounds(row as int, col as int),
        coord_in_range(frame.west as int, frame.north as int),
        frame.east + frame.resolution_x <= COORD_LIMIT,
        frame.south - frame.resolution_y >= -COORD_LIMIT,
    ensures
        (c.0 as int, c.1 as int) == spec_cell_center(*frame, row as int, col as int),
        coord_in_range(c.0 as int, c.1 as int),
{
    proof {
        lemma_cell_offset_bound(
            frame.east - frame.west,
            frame.resolution_x as int,
            frame.columns as int,
            col as int,
        );
        lemma_cell_offset_bound(
            frame.north - frame.south,
            frame.resolution_y as int,
            frame.rows as int,
            row as int,
        );
        assert(col <= col * frame.resolution_x) by (nonlinear_arith)
            requires
                frame.resolution_x >= 1,
                col >= 0,
        ;
        assert(row <= row * frame.resolution_y) by (nonlinear_arith)
            requires
                frame.resolution_y >= 1,
                row >= 0,
        ;
    }
    let cx = frame.west + (col as i64) * frame.resolution_x + frame.resolution_x / 2;
    let cy = frame.north - (row as i64) * frame.resolution_y - frame.resolution_y / 2;
    (cx, cy)
}

/// Computes one row of cell decisions: for every column in order, the
/// radius query at the cell's centre decides the cell per [`decides_cell`].
/// This is the work one parallel worker performs per row; it only reads the
/// index and the attribute array, so workers may share both.
pub fn fill_row(index: &SpatialIndex, attrs: &Vec<i64>, frame: &Grid, row: usize) -> (cells: Vec<
    CellValue,
>)
    requires
        index.wf(),
        forall|j: int|
            0 <= j < index.entries@.len() ==> (#[trigger] index.entries@[j]).2 < attrs@.len(),
        frame.wf(),
        row < frame.rows,
        coord_in_range(frame.west as int, frame.north as int),
        frame.east + frame.resolution_x <= COORD_LIMIT,
        frame.south - frame.resolution_y >= -COORD_LIMIT,
    ensures
        cells@.len() == frame.columns,
        forall|c: int|
            0 <= c < frame.columns ==> decides_cell(
                found_at(*index, spec_cell_center(*frame, row as int, c)),
                attrs@,
                #[trigger] cells@[c],
            ),
{
    let mut cells: Vec<CellValue> = Vec::new();
    let mut col: usize = 0;
    while col < frame.columns
        invariant
            index.wf(),
            forall|l: int|
                0 <= l < index.entries@.len() ==> (#[trigger] index.entries@[l]).2 < attrs@.len(),
            frame.wf(),
            row < frame.rows,
            coord_in_range(frame.west as int, frame.north as int),
            frame.east + frame.resolution_x <= COORD_LIMIT,
            frame.south - frame.resolution_y >= -COORD_LIMIT,
            col <= frame.columns,
            cells@.len() == col,
            forall|l: int|
                0 <= l < col ==> decides_cell(
                    found_at(*index, spec_cell_center(*frame, row as int, l)),
                    attrs@,
                    #[trigger] cells@[l],
                ),
        decreases frame.columns - col,
    {
        let center = cell_center(frame, row, col);
        let (cx, cy) = center;
        let found = index.search(cx, cy);
        proof {
            let pred = query_filter(cx as int, cy as int, index.radius as int);
            assert forall|l: int| 0 <= l < found@.len() implies (#[trigger] found@[l]).0
                < attrs@.len() by {
                let kept = index.entries@.filter(pred);
                let e = kept[l];
                assert(kept.contains(e));
                index.entries@.lemma_filter_contains_rev(pred, e);
                let m = choose|m: int| 0 <= m < index.entries@.len() && index.entries@[m] == e;
                assert(found@[l] == query_result(cx as int, cy as int)(e));
            }
        }
        let v = evaluate_cell(&found, attrs);
        cells.push(v);
        col = col + 1;
    }
    cells
}

/// Derives the output grid frame from the point cloud's bounds and the
/// requested resolution: the grid is anchored at the north-west corner
/// `(max_y, min_x)`, spans `ceil((max_y - min_y) / resolution)` rows and
/// `ceil((max_x - min_x) / resolution)` columns, and starts nodata-filled.
/// A non-positive resolution is rejected as a configuration error.
pub fn derive_grid(min_x: i64, max_x: i64, min_y: i64, max_y: i64, resolution: i64) -> (r: Result<
    Grid,
    ConfigError,
>)
    requires
        min_x <= max_x,
        min_y <= max_y,
        coord_in_range(min_x as int, min_y as int),
        coord_in_range(max_x as int, max_y as int),
        resolution <= COORD_LIMIT,
        spec_ceil_div(max_y - min_y, resolution as int) * spec_ceil_div(
            max_x - min_x,
            resolution as int,
        ) <= usize::MAX,
    ensures
        r is Ok <==> resolution >= 1,
        resolution < 1 <==> r == Err::<Grid, ConfigError>(ConfigError::NonPositiveResolution),
        r matches Ok(g) ==> {
            &&& g.wf()
            &&& g.north == max_y
            &&& g.west == min_x
            &&& g.resolution_x == resolution
            &&& g.resolution_y == resolution
            &&& g.rows == spec_ceil_div(max_y - min_y, resolution as int)
            &&& g.columns == spec_ceil_div(max_x - min_x, resolution as int)
            &&& g.south == max_y - g.rows * resolution
            &&& g.east == min_x + g.columns * resolution
            &&& forall|i: int| 0 <= i < g.data().len() ==> g.data()[i] is None
        },
{
    if resolution < 1 {
        return Err(ConfigError::NonPositiveResolution);
    }
    let rows64 = ceil_div(max_y - min_y, resolution);
    let columns64 = ceil_div(max_x - min_x, resolution);
    proof {
        assert(rows64 * resolution <= i64::MAX && max_y - rows64 * resolution >= i64::MIN)
            by (nonlinear_arith)
            requires
                0 <= rows64 <= 2 * COORD_LIMIT,
                1 <= resolution <= COORD_LIMIT,
                -COORD_LIMIT <= max_y <= COORD_LIMIT,
        ;
        assert(columns64 * resolution <= i64::MAX && min_x + columns64 * resolution <= i64::MAX)
            by (nonlinear_arith)
            requires
                0 <= columns64 <= 2 * COORD_LIMIT,
                1 <= resolution <= COORD_LIMIT,
                -COORD_LIMIT <= min_x <= COORD_LIMIT,
        ;
    }
    let rows = rows64 as usize;
    let columns = columns64 as usize;
    let g = Grid::nodata_filled(max_y, min_x, resolution, resolution, rows, columns);
    Ok(g)
}

} // verus!
