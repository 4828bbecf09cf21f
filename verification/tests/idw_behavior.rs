use geokernels::idw::{bin_points, cell_center, derive_grid, evaluate_cell, fill_row, CellValue};
use geokernels::points::{AttributeKind, FilterConfig, PointRecord, ReturnMode};
use geokernels::spatial::{ConfigError, SpatialIndex};

fn point(x: i64, y: i64, z: i64, classification: u8) -> PointRecord {
    PointRecord {
        x,
        y,
        z,
        intensity: 0,
        classification,
        scan_angle: 0,
        user_data: 0,
        is_early_return: false,
        is_late_return: false,
        withheld: false,
    }
}

fn open_filter() -> FilterConfig {
    FilterConfig {
        return_mode: ReturnMode::All,
        excluded: vec![false; 256],
        min_z: i64::MIN,
        max_z: i64::MAX,
    }
}

#[test]
fn idw_exact_match_bypasses_weighting() {
    // A point exactly on the query centre decides the cell by itself.
    let mut index = SpatialIndex::new(5).unwrap();
    index.insert(10, 10, 0);
    index.insert(12, 10, 1);
    let attrs = vec![42, 7];
    let found = index.search(10, 10);
    assert!(found.contains(&(0, 0)));
    let v = evaluate_cell(&found, &attrs);
    assert_eq!(v, CellValue::Exact(42));
}

#[test]
fn idw_symmetric_mean() {
    // Two points equidistant from the cell, exponent one: the weighted
    // value is the plain mean of the two attributes.
    let mut index = SpatialIndex::new(5).unwrap();
    index.insert(0, 0, 0);
    index.insert(4, 0, 1);
    let attrs = vec![10, 20];
    let found = index.search(2, 0);
    let v = evaluate_cell(&found, &attrs);
    match v {
        CellValue::Weighted(pairs) => {
            assert_eq!(pairs, vec![(10, 4), (20, 4)]);
            let exponent = 1.0f64;
            let mut val = 0.0f64;
            let mut sum_weights = 0.0f64;
            for (attr, d_sq) in pairs {
                let dist = (d_sq as f64).sqrt();
                val += attr as f64 / dist.powf(exponent);
                sum_weights += 1.0 / dist.powf(exponent);
            }
            assert_eq!(val / sum_weights, (10.0 + 20.0) / 2.0);
        }
        other => panic!("expected weighted samples, got {:?}", other),
    }
}

#[test]
fn idw_empty_query_leaves_nodata() {
    let index = SpatialIndex::new(2).unwrap();
    let attrs: Vec<i64> = Vec::new();
    let found = index.search(0, 0);
    assert_eq!(evaluate_cell(&found, &attrs), CellValue::NoData);
}

#[test]
fn idw_first_zero_distance_wins() {
    let mut index = SpatialIndex::new(5).unwrap();
    index.insert(0, 0, 0);
    index.insert(0, 0, 1);
    let attrs = vec![5, 6];
    let found = index.search(0, 0);
    assert_eq!(evaluate_cell(&found, &attrs), CellValue::Exact(5));
}

#[test]
fn filter_exclusion_ignores_nearest_point() {
    // The nearest point carries an excluded classification: it is never
    // inserted, and the farther, non-excluded point decides the cell.
    let mut cfg = open_filter();
    cfg.excluded[7] = true;
    let points = vec![point(0, 0, 100, 7), point(3, 0, 200, 1)];
    let (index, attrs) = bin_points(&points, AttributeKind::Elevation, &cfg, 5).unwrap();
    let found = index.search(0, 0);
    assert!(found.iter().all(|&(id, _)| id != 0));
    assert_eq!(found, vec![(1, 9)]);
    let v = evaluate_cell(&found, &attrs);
    assert_eq!(v, CellValue::Weighted(vec![(200, 9)]));
}

#[test]
fn binning_records_attributes_for_every_point() {
    // Withheld and excluded points stay out of the index, but their
    // attributes are still recorded at their ordinals.
    let mut cfg = open_filter();
    cfg.excluded[3] = true;
    let mut withheld = point(1, 1, 30, 0);
    withheld.withheld = true;
    let points = vec![point(0, 0, 10, 0), withheld, point(2, 2, 50, 3)];
    let (index, attrs) = bin_points(&points, AttributeKind::Elevation, &cfg, 4).unwrap();
    assert_eq!(attrs, vec![10, 30, 50]);
    let found = index.search(1, 1);
    assert_eq!(found, vec![(0, 2)]);
}

#[test]
fn binning_return_mode_and_band_filter() {
    let mut early = point(0, 0, 10, 0);
    early.is_early_return = true;
    let mut late = point(1, 0, 20, 0);
    late.is_late_return = true;
    let low = point(2, 0, -100, 0);
    let points = vec![early, late, low];

    let mut cfg = open_filter();
    cfg.return_mode = ReturnMode::First;
    cfg.min_z = 0;
    let (index, _) = bin_points(&points, AttributeKind::Elevation, &cfg, 10).unwrap();
    let found = index.search(0, 0);
    assert_eq!(found, vec![(0, 0)]);

    cfg.return_mode = ReturnMode::Last;
    let (index, _) = bin_points(&points, AttributeKind::Elevation, &cfg, 10).unwrap();
    let found = index.search(0, 0);
    assert_eq!(found, vec![(1, 1)]);
}

#[test]
fn binning_selects_the_configured_attribute() {
    let mut p = point(0, 0, -7, 2);
    p.intensity = 900;
    p.scan_angle = -15;
    p.user_data = 77;
    let points = vec![p];
    let cfg = open_filter();
    let select = |kind| bin_points(&points, kind, &cfg, 1).unwrap().1;
    assert_eq!(select(AttributeKind::Elevation), vec![-7]);
    assert_eq!(select(AttributeKind::Intensity), vec![900]);
    assert_eq!(select(AttributeKind::Classification), vec![2]);
    assert_eq!(select(AttributeKind::ScanAngle), vec![-15]);
    assert_eq!(select(AttributeKind::UserData), vec![77]);
}

#[test]
fn non_positive_radius_is_rejected() {
    assert_eq!(
        SpatialIndex::new(0).err(),
        Some(ConfigError::NonPositiveRadius)
    );
    let points = vec![point(0, 0, 1, 0)];
    assert_eq!(
        bin_points(&points, AttributeKind::Elevation, &open_filter(), -3).err(),
        Some(ConfigError::NonPositiveRadius)
    );
}

#[test]
fn search_radius_boundary_is_inclusive() {
    let mut index = SpatialIndex::new(2).unwrap();
    index.insert(2, 0, 0); // squared distance 4 == radius squared
    index.insert(3, 0, 1); // squared distance 9, outside
    let found = index.search(0, 0);
    assert_eq!(found, vec![(0, 4)]);
}

#[test]
fn bounding_box_derivation() {
    // Cloud bounds 0..10 in both axes at resolution 2: a 5 by 5 grid.
    let g = derive_grid(0, 10, 0, 10, 2).unwrap();
    assert_eq!(g.rows, 5);
    assert_eq!(g.columns, 5);
    assert_eq!(g.north, 10);
    assert_eq!(g.west, 0);
    assert_eq!(g.south, 0);
    assert_eq!(g.east, 10);
    assert_eq!(g.get(0, 0), None);
}

#[test]
fn bounding_box_rounds_up_partial_cells() {
    let g = derive_grid(0, 9, 0, 7, 2).unwrap();
    assert_eq!(g.rows, 4);
    assert_eq!(g.columns, 5);
}

#[test]
fn non_positive_resolution_is_rejected() {
    assert_eq!(
        derive_grid(0, 10, 0, 10, 0).err(),
        Some(ConfigError::NonPositiveResolution)
    );
}

#[test]
fn cell_centres_follow_the_frame() {
    // even resolution: the centre sits half a cell in from the corner
    let frame = derive_grid(0, 10, 0, 10, 2).unwrap();
    assert_eq!(cell_center(&frame, 0, 0), (1, 9));
    assert_eq!(cell_center(&frame, 4, 4), (9, 1));
    // odd resolution: the half-cell offset rounds down
    let frame = derive_grid(0, 9, 0, 9, 3).unwrap();
    assert_eq!(cell_center(&frame, 0, 1), (4, 8));
}

#[test]
fn fill_row_decides_each_cell_from_its_centre() {
    // one row of three cells at resolution 2: centres (1,1), (3,1), (5,1)
    let frame = derive_grid(0, 6, 0, 2, 2).unwrap();
    let mut index = SpatialIndex::new(1).unwrap();
    index.insert(1, 1, 0); // exactly on the first centre
    index.insert(3, 2, 1); // one unit above the second centre
    let attrs = vec![10, 20];
    let row = fill_row(&index, &attrs, &frame, 0);
    assert_eq!(
        row,
        vec![
            CellValue::Exact(10),
            CellValue::Weighted(vec![(20, 1)]),
            CellValue::NoData
        ]
    );
}
