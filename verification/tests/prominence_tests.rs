use prominence::ElevationGrid;
use prominence::ProminenceCalculator;

fn create_test_grid() -> ElevationGrid {
    let grid = vec![
        vec![0, 0, 0, 0, 0],
        vec![0, 2, 1, 2, 0],
        vec![0, 1, 5, 1, 0],
        vec![0, 2, 1, 2, 0],
        vec![0, 0, 0, 0, 0],
    ];
    ElevationGrid::new(grid).unwrap()
}

#[test]
fn test_prominence_calculation() {
    let grid = create_test_grid();
    let calculator = ProminenceCalculator::new(&grid);
    // Use min_elevation=0 to include boundary cells
    let peaks = calculator.calculate_prominence(0, 1).unwrap();

    println!("Found {} peaks", peaks.len());
    for peak in &peaks {
        println!(
            "Peak at ({}, {}) elevation={} prominence={}",
            peak.row, peak.col, peak.elevation, peak.prominence
        );
    }

    // Should find some peaks
    assert!(!peaks.is_empty(), "Should find at least one peak");

    // Central peak should have prominence = 5 (drains to boundary at 0)
    let central_peak = peaks.iter().find(|p| p.elevation == 5);
    if let Some(peak) = central_peak {
        assert_eq!(peak.prominence, 5);
    } else {
        panic!("Should find central peak with elevation 5");
    }

    // In this simple test case, only the central peak should be detected
    // Corner peaks with elevation 2 are not local maxima due to the adjacent central peak
    assert_eq!(peaks.len(), 1, "Should find exactly one peak");
    assert_eq!(peaks[0].elevation, 5);
    assert_eq!(peaks[0].prominence, 5);
}

#[test]
fn test_boundary_peaks() {
    let grid = create_test_grid();
    let calculator = ProminenceCalculator::new(&grid);
    let peaks = calculator.calculate_prominence(0, 1).unwrap();

    // All peaks in this test case should drain to boundary
    for peak in &peaks {
        if peak.elevation >= 2 {
            // Should have no col information (drains to boundary)
            assert!(peak.col_row.is_none());
        }
    }
}

#[test]
fn interior_saddle_reported() {
    // Two summits (3 and 4) joined by a ridge cell of elevation 2; with
    // min_elevation = 1 the surrounding zeros are not eligible, so the
    // component never reaches the boundary and the saddle defines the
    // prominence of the surviving (higher) summit.
    let mut rows = vec![vec![0i16; 5]; 5];
    rows[2][1] = 3;
    rows[2][2] = 2;
    rows[2][3] = 4;
    let grid = ElevationGrid::new(rows).unwrap();
    let calculator = ProminenceCalculator::new(&grid);
    let peaks = calculator.calculate_prominence(1, 1).unwrap();

    assert_eq!(peaks.len(), 1, "the lower summit is absorbed");
    let p = &peaks[0];
    assert_eq!((p.row, p.col), (2, 3));
    assert_eq!(p.elevation, 4);
    assert_eq!(p.prominence, 2);
    assert_eq!(p.col_row, Some(2));
    assert_eq!(p.col_col, Some(2));
    assert_eq!(p.col_elevation, Some(2));
}

#[test]
fn min_prominence_filters_entries() {
    // Same terrain as above, but a threshold above the saddle-defined
    // prominence of 2 leaves nothing.
    let mut rows = vec![vec![0i16; 5]; 5];
    rows[2][1] = 3;
    rows[2][2] = 2;
    rows[2][3] = 4;
    let grid = ElevationGrid::new(rows).unwrap();
    let calculator = ProminenceCalculator::new(&grid);
    let peaks = calculator.calculate_prominence(1, 3).unwrap();
    assert!(peaks.is_empty());
}

#[test]
fn peaks_sorted_by_descending_prominence() {
    // Two separate boundary-draining hills of different heights; with
    // min_elevation = 1 the sea of zeros between them stays out, so the two
    // summits remain distinct components, each on the grid border.
    let mut rows = vec![vec![0i16; 7]; 5];
    rows[0][1] = 6;
    rows[0][5] = 3;
    let grid = ElevationGrid::new(rows).unwrap();
    let calculator = ProminenceCalculator::new(&grid);
    let peaks = calculator.calculate_prominence(1, 1).unwrap();

    assert_eq!(peaks.len(), 2);
    assert!(peaks[0].prominence >= peaks[1].prominence);
    assert_eq!(peaks[0].elevation, 6);
    assert_eq!(peaks[0].prominence, 6);
    assert_eq!(peaks[1].elevation, 3);
    assert_eq!(peaks[1].prominence, 3);
}

#[test]
fn flat_grid_has_no_peaks() {
    let grid = ElevationGrid::new(vec![vec![4i16; 4]; 4]).unwrap();
    let calculator = ProminenceCalculator::new(&grid);
    let peaks = calculator.calculate_prominence(0, 1).unwrap();
    assert!(peaks.is_empty());
}

#[test]
fn single_cell_grid_has_no_peaks() {
    // A lone cell has no neighbors at all, so it has no strictly lower
    // neighbor and is not a local maximum.
    let grid = ElevationGrid::new(vec![vec![9i16]]).unwrap();
    assert!(!grid.is_peak(0, 0));
    let calculator = ProminenceCalculator::new(&grid);
    let peaks = calculator.calculate_prominence(0, 1).unwrap();
    assert!(peaks.is_empty());
}

#[test]
fn single_row_grid() {
    // One row: every cell is on the boundary, so the lone summit drains to
    // sea level and its prominence is its elevation.
    let grid = ElevationGrid::new(vec![vec![0, 3, 8, 2, 0]]).unwrap();
    let calculator = ProminenceCalculator::new(&grid);
    let peaks = calculator.calculate_prominence(0, 1).unwrap();
    assert_eq!(peaks.len(), 1);
    assert_eq!((peaks[0].row, peaks[0].col), (0, 2));
    assert_eq!(peaks[0].elevation, 8);
    assert_eq!(peaks[0].prominence, 8);
    assert!(peaks[0].col_row.is_none());
}

#[test]
fn prominence_never_nonpositive() {
    // Even with a prominence threshold that would admit zero or negative
    // values, no such entry is returned.
    let mut rows = vec![vec![0i16; 5]; 5];
    rows[1][1] = 2;
    rows[3][3] = 7;
    let grid = ElevationGrid::new(rows).unwrap();
    let calculator = ProminenceCalculator::new(&grid);
    let peaks = calculator.calculate_prominence(0, -10).unwrap();
    assert!(!peaks.is_empty());
    for p in &peaks {
        assert!(p.prominence > 0);
    }
}
