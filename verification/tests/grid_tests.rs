use prominence::grid::decode_elevations;
use prominence::Cell;
use prominence::ElevationGrid;
use prominence::ProminenceError;

#[test]
fn cell_new_computes_flat_index() {
    let c = Cell::new(12, 3, 4, 10);
    assert_eq!(c.elevation, 12);
    assert_eq!(c.row, 3);
    assert_eq!(c.col, 4);
    assert_eq!(c.index, 34);
}

#[test]
fn new_rejects_empty_grid() {
    let r = ElevationGrid::new(vec![]);
    assert!(matches!(r, Err(ProminenceError::InvalidDimensions)));
}

#[test]
fn new_rejects_empty_rows() {
    let r = ElevationGrid::new(vec![vec![], vec![]]);
    assert!(matches!(r, Err(ProminenceError::InvalidDimensions)));
}

#[test]
fn new_rejects_ragged_rows() {
    let r = ElevationGrid::new(vec![vec![1, 2], vec![3]]);
    assert!(matches!(r, Err(ProminenceError::InvalidDimensions)));
}

#[test]
fn new_accepts_rectangular_grid() {
    let g = ElevationGrid::new(vec![vec![1, 2, 3], vec![4, 5, 6]]).unwrap();
    assert_eq!(g.height, 2);
    assert_eq!(g.width, 3);
}

#[test]
fn get_elevation_in_and_out_of_range() {
    let g = ElevationGrid::new(vec![vec![1, 2, 3], vec![4, 5, 6]]).unwrap();
    assert_eq!(g.get_elevation(0, 0), Some(1));
    assert_eq!(g.get_elevation(1, 2), Some(6));
    assert_eq!(g.get_elevation(2, 0), None);
    assert_eq!(g.get_elevation(0, 3), None);
}

#[test]
fn boundary_classification_is_exact() {
    // For a grid of height H and width W, is_on_boundary holds exactly for
    // row 0, row H-1, col 0, or col W-1.
    let g = ElevationGrid::new(vec![vec![0i16; 4]; 3]).unwrap();
    for row in 0..3usize {
        for col in 0..4usize {
            let expected = row == 0 || row == 2 || col == 0 || col == 3;
            assert_eq!(g.is_on_boundary(row, col), expected);
        }
    }
}

#[test]
fn neighbor_counts_by_position() {
    let g = ElevationGrid::new(vec![vec![0i16; 4]; 3]).unwrap();
    assert_eq!(g.get_neighbor_indices(0, 0).len(), 3);
    assert_eq!(g.get_neighbor_indices(0, 1).len(), 5);
    assert_eq!(g.get_neighbor_indices(1, 1).len(), 8);
    assert_eq!(g.get_neighbor_indices(2, 3).len(), 3);
}

#[test]
fn neighbor_indices_of_center_cell() {
    let g = ElevationGrid::new(vec![vec![0i16; 3]; 3]).unwrap();
    let n = g.get_neighbor_indices(1, 1);
    assert_eq!(n, vec![0, 1, 2, 3, 5, 6, 7, 8]);
}

#[test]
fn flat_plateau_is_not_a_peak() {
    // A cell all of whose 8 neighbors share its exact elevation is never a
    // local maximum.
    let g = ElevationGrid::new(vec![vec![7i16; 3]; 3]).unwrap();
    assert!(!g.is_peak(1, 1));
}

#[test]
fn strict_summit_is_a_peak() {
    let mut rows = vec![vec![1i16; 3]; 3];
    rows[1][1] = 9;
    let g = ElevationGrid::new(rows).unwrap();
    assert!(g.is_peak(1, 1));
    assert!(!g.is_peak(0, 0));
}

#[test]
fn equal_neighbor_allowed_if_some_lower() {
    // No neighbor strictly higher, and at least one strictly lower: a peak,
    // even with an equal-elevation neighbor alongside.
    let mut rows = vec![vec![1i16; 3]; 3];
    rows[1][1] = 9;
    rows[1][2] = 9;
    let g = ElevationGrid::new(rows).unwrap();
    assert!(g.is_peak(1, 1));
}

#[test]
fn is_peak_out_of_range_is_false() {
    let g = ElevationGrid::new(vec![vec![0i16; 3]; 3]).unwrap();
    assert!(!g.is_peak(5, 5));
}

#[test]
fn get_all_cells_filters_and_sorts() {
    let g = ElevationGrid::new(vec![vec![5, 1, 3], vec![2, 4, 0]]).unwrap();
    let cells = g.get_all_cells(2);
    let elevations: Vec<i16> = cells.iter().map(|c| c.elevation).collect();
    assert_eq!(elevations, vec![2, 3, 4, 5]);
    for c in &cells {
        assert_eq!(g.get_elevation(c.row, c.col), Some(c.elevation));
        assert_eq!(c.index, c.row * g.width + c.col);
    }
}

#[test]
fn get_all_cells_includes_everything_at_low_threshold() {
    let g = ElevationGrid::new(vec![vec![5, 1, 3], vec![2, 4, 0]]).unwrap();
    let cells = g.get_all_cells(i16::MIN);
    assert_eq!(cells.len(), 6);
}

#[test]
fn index_to_coords_roundtrip() {
    let g = ElevationGrid::new(vec![vec![0i16; 4]; 3]).unwrap();
    assert_eq!(g.index_to_coords(0), (0, 0));
    assert_eq!(g.index_to_coords(5), (1, 1));
    assert_eq!(g.index_to_coords(11), (2, 3));
}

#[test]
fn decode_reads_little_endian_samples() {
    // 1, 258, -1 (clamped to 0), 32767
    let buffer = vec![0x01, 0x00, 0x02, 0x01, 0xff, 0xff, 0xff, 0x7f];
    let grid = decode_elevations(&buffer, 2, 2);
    assert_eq!(grid, vec![vec![1, 258], vec![0, 32767]]);
}

#[test]
fn decode_clamps_negative_samples_to_zero() {
    // -32768 and -2 both clamp to sea level.
    let buffer = vec![0x00, 0x80, 0xfe, 0xff];
    let grid = decode_elevations(&buffer, 2, 1);
    assert_eq!(grid, vec![vec![0, 0]]);
}

#[test]
fn decode_pads_missing_samples_with_zero() {
    // Only one full sample for a 2x2 grid; the rest stays 0.  A trailing
    // half sample is ignored.
    let buffer = vec![0x07, 0x00, 0x09];
    let grid = decode_elevations(&buffer, 2, 2);
    assert_eq!(grid, vec![vec![7, 0], vec![0, 0]]);
}
