use geokernels::assemble::RowAssembler;
use geokernels::direction::{decode, offset, Direction};
use geokernels::grid::{ceil_div, Grid};
use geokernels::partition::partition_rows;
use geokernels::workers::available_workers;

#[test]
fn direction_code_table_is_exact() {
    let expected = [
        (1, Direction::NorthEast, (1, -1)),
        (2, Direction::East, (1, 0)),
        (4, Direction::SouthEast, (1, 1)),
        (8, Direction::South, (0, 1)),
        (16, Direction::SouthWest, (-1, 1)),
        (32, Direction::West, (-1, 0)),
        (64, Direction::NorthWest, (-1, -1)),
        (128, Direction::North, (0, -1)),
    ];
    for (code, dir, delta) in expected {
        assert_eq!(decode(code), Some(dir));
        assert_eq!(offset(dir), delta);
    }
}

#[test]
fn unlisted_codes_decode_to_none() {
    for code in [-1, 0, 3, 5, 127, 129, 256] {
        assert_eq!(decode(code), None);
    }
}

#[test]
fn grid_set_get_and_nodata_increment() {
    let mut g = Grid::nodata_filled(2, 0, 1, 1, 2, 2);
    assert_eq!(g.get(1, 1), None);
    g.set(1, 1, Some(5));
    assert_eq!(g.get(1, 1), Some(5));
    // incrementing a nodata cell sets it to the amount itself
    g.increment(0, 0, 3);
    assert_eq!(g.get(0, 0), Some(3));
    // incrementing a live cell adds
    g.increment(1, 1, 4);
    assert_eq!(g.get(1, 1), Some(9));
    // the frame derives from shape and resolution
    assert_eq!(g.south, 0);
    assert_eq!(g.east, 2);
}

#[test]
fn ceil_div_exact_values() {
    assert_eq!(ceil_div(10, 2), 5);
    assert_eq!(ceil_div(9, 2), 5);
    assert_eq!(ceil_div(0, 3), 0);
    assert_eq!(ceil_div(1, 100), 1);
}

fn assert_exact_cover(rows: usize, workers: usize) {
    let blocks = partition_rows(rows, workers);
    assert_eq!(blocks.len(), workers);
    let mut seen = vec![0usize; rows];
    for &(start, end) in &blocks {
        assert!(start <= end && end <= rows);
        for r in start..end {
            seen[r] += 1;
        }
    }
    for (r, count) in seen.iter().enumerate() {
        assert_eq!(*count, 1, "row {} covered {} times", r, count);
    }
}

#[test]
fn row_partition_completeness() {
    for rows in [1usize, 7, 100] {
        for workers in [1usize, 3, 8] {
            assert_exact_cover(rows, workers);
        }
    }
}

#[test]
fn row_partition_block_sizes() {
    let blocks = partition_rows(10, 3);
    assert_eq!(blocks, vec![(0, 3), (3, 6), (6, 10)]);
}

#[test]
fn assembler_tolerates_out_of_order_rows() {
    let template = Grid::nodata_filled(2, 0, 1, 1, 2, 2);
    let mut assembler = RowAssembler::new(2, 2);
    assert!(!assembler.is_complete());
    assembler.place_row(1, vec![Some(3), Some(4)]);
    assert!(!assembler.is_complete());
    assembler.place_row(0, vec![Some(1), None]);
    assert!(assembler.is_complete());
    assert_eq!(assembler.row_cells(1), &vec![Some(3), Some(4)]);
    let g = assembler.into_grid(&template);
    assert_eq!(g.get(0, 0), Some(1));
    assert_eq!(g.get(0, 1), None);
    assert_eq!(g.get(1, 0), Some(3));
    assert_eq!(g.get(1, 1), Some(4));
}

#[test]
fn assembler_missing_rows_stay_nodata() {
    let template = Grid::nodata_filled(2, 0, 1, 1, 2, 1);
    let mut assembler = RowAssembler::new(2, 1);
    assembler.place_row(0, vec![Some(8)]);
    let g = assembler.into_grid(&template);
    assert_eq!(g.get(0, 0), Some(8));
    assert_eq!(g.get(1, 0), None);
}

#[test]
fn worker_count_is_at_least_one() {
    assert!(available_workers() >= 1);
}
