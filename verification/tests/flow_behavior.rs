use geokernels::flow::{accumulate, FlowError};
use geokernels::grid::Grid;

fn grid_1x3() -> Grid {
    Grid::nodata_filled(1, 0, 1, 1, 1, 3)
}

#[test]
fn flow_straight_chain() {
    // A single walk over a 1x3 grid: the origin cell points east twice and
    // the final cell is terminal, so the walk visits columns 0, 1, 2 once
    // each.
    let mut dest = grid_1x3();
    dest.set(0, 0, Some(1));
    let mut backlink = grid_1x3();
    backlink.set(0, 0, Some(2)); // east
    backlink.set(0, 1, Some(2)); // east
    backlink.set(0, 2, Some(0)); // terminal
    let out = accumulate(&dest, &backlink).unwrap();
    assert_eq!(out.get(0, 0), Some(1));
    assert_eq!(out.get(0, 1), Some(1));
    assert_eq!(out.get(0, 2), Some(1));
}

#[test]
fn flow_confluence() {
    // Two independent walks merge: the shared cells count both chains.
    let mut dest = Grid::nodata_filled(3, 0, 1, 1, 3, 3);
    dest.set(0, 0, Some(1));
    dest.set(2, 0, Some(1));
    let mut backlink = Grid::nodata_filled(3, 0, 1, 1, 3, 3);
    backlink.set(0, 0, Some(4)); // south-east, toward (1,1)
    backlink.set(2, 0, Some(1)); // north-east, toward (1,1)
    backlink.set(1, 1, Some(2)); // east, toward (1,2)
    backlink.set(1, 2, Some(0)); // terminal
    let out = accumulate(&dest, &backlink).unwrap();
    assert_eq!(out.get(0, 0), Some(1));
    assert_eq!(out.get(2, 0), Some(1));
    assert_eq!(out.get(1, 1), Some(2));
    assert_eq!(out.get(1, 2), Some(2));
    // cells no walk touched stay nodata
    assert_eq!(out.get(0, 1), None);
    assert_eq!(out.get(2, 2), None);
}

#[test]
fn flow_terminal_origin_counts_itself() {
    // An origin whose backlink cell holds a non-positive code walks only
    // itself.
    let mut dest = grid_1x3();
    dest.set(0, 1, Some(3));
    let mut backlink = grid_1x3();
    backlink.set(0, 1, Some(-5));
    let out = accumulate(&dest, &backlink).unwrap();
    assert_eq!(out.get(0, 0), None);
    assert_eq!(out.get(0, 1), Some(1));
    assert_eq!(out.get(0, 2), None);
}

#[test]
fn flow_nodata_backlink_starts_no_walk() {
    // A destination cell whose backlink cell is nodata starts no walk.
    let mut dest = grid_1x3();
    dest.set(0, 1, Some(3));
    let backlink = grid_1x3();
    let out = accumulate(&dest, &backlink).unwrap();
    assert_eq!(out.get(0, 0), None);
    assert_eq!(out.get(0, 1), None);
    assert_eq!(out.get(0, 2), None);
}

#[test]
fn flow_walk_stops_at_grid_edge() {
    // A backlink pointing off the grid terminates the walk at the border.
    let mut dest = grid_1x3();
    dest.set(0, 2, Some(1));
    let mut backlink = grid_1x3();
    backlink.set(0, 2, Some(2)); // east, off the grid
    let out = accumulate(&dest, &backlink).unwrap();
    assert_eq!(out.get(0, 2), Some(1));
}

#[test]
fn flow_shape_mismatch_is_rejected() {
    let dest = grid_1x3();
    let backlink = Grid::nodata_filled(1, 0, 1, 1, 1, 2);
    assert_eq!(accumulate(&dest, &backlink).err(), Some(FlowError::ShapeMismatch));
}

#[test]
fn flow_cycle_is_detected() {
    // Two cells pointing at each other: the walk cannot terminate.
    let mut dest = Grid::nodata_filled(1, 0, 1, 1, 1, 2);
    dest.set(0, 0, Some(1));
    let mut backlink = Grid::nodata_filled(1, 0, 1, 1, 1, 2);
    backlink.set(0, 0, Some(2)); // east
    backlink.set(0, 1, Some(32)); // west
    assert_eq!(accumulate(&dest, &backlink).err(), Some(FlowError::CycleDetected));
}

#[test]
fn flow_unlisted_positive_code_is_terminal() {
    // Only the eight listed power-of-two codes name a direction.
    let mut dest = grid_1x3();
    dest.set(0, 0, Some(1));
    let mut backlink = grid_1x3();
    backlink.set(0, 0, Some(3));
    let out = accumulate(&dest, &backlink).unwrap();
    assert_eq!(out.get(0, 0), Some(1));
    assert_eq!(out.get(0, 1), None);
}
