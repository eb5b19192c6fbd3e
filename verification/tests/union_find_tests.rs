use prominence::peak::Peak;
use prominence::union_find::UnionFind;

#[test]
fn new_forest_is_all_singletons() {
    let mut uf = UnionFind::new(3, 2);
    for i in 0..6usize {
        assert_eq!(uf.find(i), i);
    }
}

#[test]
fn find_is_idempotent_after_compression() {
    // Chain several unions, then check that repeated find calls return the
    // same root and that the root is self-parented.
    let mut uf = UnionFind::new(4, 4);
    uf.union(0, 1, 10, 0);
    uf.union(1, 2, 9, 1);
    uf.union(2, 3, 8, 2);
    uf.union(8, 9, 7, 8);
    uf.union(3, 9, 6, 3);
    for i in [0usize, 1, 2, 3, 8, 9] {
        let r1 = uf.find(i);
        let r2 = uf.find(i);
        assert_eq!(r1, r2);
        assert_eq!(uf.find(r1), r1);
        assert_eq!(uf.parent[r1], r1);
    }
}

#[test]
fn union_joins_components() {
    let mut uf = UnionFind::new(3, 3);
    assert_ne!(uf.find(0), uf.find(5));
    uf.union(0, 5, 3, 0);
    assert_eq!(uf.find(0), uf.find(5));
    // A repeated union of the same pair changes nothing.
    let root = uf.find(0);
    uf.union(5, 0, 2, 5);
    assert_eq!(uf.find(0), root);
    assert_eq!(uf.find(5), root);
}

#[test]
fn drainage_is_monotonic_across_merges() {
    // Once any cell of a component is boundary-marked, the merged component
    // keeps draining through every later union.
    let mut uf = UnionFind::new(4, 1);
    uf.mark_boundary(0);
    let r0 = uf.find(0);
    assert!(uf.drains_to_boundary[r0]);

    uf.union(0, 1, 5, 0);
    let r1 = uf.find(1);
    assert!(uf.drains_to_boundary[r1]);

    uf.union(2, 3, 4, 2);
    uf.union(1, 3, 3, 1);
    let r3 = uf.find(3);
    assert!(uf.drains_to_boundary[r3]);
}

#[test]
fn peak_retention_keeps_the_maximum() {
    // After merging two components, the surviving peak elevation equals the
    // maximum of the two recorded peak elevations.
    let mut uf = UnionFind::new(4, 1);
    uf.mark_as_peak(0, 30);
    uf.mark_as_peak(2, 50);
    uf.union(0, 2, 10, 0);
    let r = uf.find(0);
    let m = uf.peak[r].unwrap();
    assert_eq!(m.elevation, 50);
    assert_eq!(m.index, 2);
}

#[test]
fn peak_adopted_from_only_recorded_side() {
    let mut uf = UnionFind::new(4, 1);
    uf.mark_as_peak(3, 12);
    uf.union(0, 3, 5, 0);
    let r = uf.find(0);
    let m = uf.peak[r].unwrap();
    assert_eq!(m.elevation, 12);
    assert_eq!(m.index, 3);
}

#[test]
fn mark_as_peak_keeps_higher_record() {
    let mut uf = UnionFind::new(2, 1);
    uf.mark_as_peak(0, 40);
    uf.mark_as_peak(0, 20);
    let r = uf.find(0);
    let m = uf.peak[r].unwrap();
    assert_eq!(m.elevation, 40);
    uf.mark_as_peak(0, 60);
    let r = uf.find(0);
    let m = uf.peak[r].unwrap();
    assert_eq!(m.elevation, 60);
}

#[test]
fn saddle_keeps_lowest_escape_route() {
    // Successive merges of an interior component keep the lowest event
    // elevation as the key saddle.
    let mut uf = UnionFind::new(4, 1);
    uf.union(0, 1, 9, 0);
    uf.union(1, 2, 4, 1);
    uf.union(2, 3, 7, 2);
    let r = uf.find(0);
    let s = uf.saddle[r].unwrap();
    assert_eq!(s.elevation, 4);
    assert_eq!(s.index, 1);
}

#[test]
fn boundary_component_keeps_no_saddle() {
    // A component that drains to the boundary measures prominence against
    // sea level; merge events do not update its saddle.
    let mut uf = UnionFind::new(4, 1);
    uf.mark_boundary(0);
    uf.union(0, 1, 9, 0);
    let r = uf.find(0);
    assert!(uf.saddle[r].is_none());
}

#[test]
fn collect_peaks_never_returns_nonpositive_prominence() {
    // Regardless of min_prominence, no entry with prominence <= 0 appears.
    let mut uf = UnionFind::new(3, 3);
    uf.mark_as_peak(4, 100);
    uf.mark_boundary(0);
    uf.union(4, 0, 20, 4);
    // This component has a peak but zero prominence: no saddle, no drainage.
    uf.mark_as_peak(8, 0);
    let peaks = uf.collect_peaks(i16::MIN);
    for p in &peaks {
        assert!(p.prominence > 0);
    }
    assert_eq!(peaks.len(), 1);
    assert_eq!(peaks[0].elevation, 100);
    assert_eq!(peaks[0].prominence, 100);
}

#[test]
fn collect_peaks_emits_one_record_per_component() {
    let mut uf = UnionFind::new(3, 3);
    uf.mark_as_peak(0, 10);
    uf.mark_as_peak(8, 20);
    uf.mark_boundary(0);
    uf.mark_boundary(8);
    let peaks = uf.collect_peaks(1);
    assert_eq!(peaks.len(), 2);
    assert_eq!(peaks[0].prominence, 20);
    assert_eq!(peaks[1].prominence, 10);
}

#[test]
fn collect_peaks_reports_saddle_for_interior_component() {
    let mut uf = UnionFind::new(5, 1);
    uf.mark_as_peak(2, 9);
    uf.union(2, 3, 6, 3);
    let peaks = uf.collect_peaks(1);
    assert_eq!(peaks.len(), 1);
    let p = &peaks[0];
    assert_eq!(p.elevation, 9);
    assert_eq!(p.prominence, 3);
    assert_eq!((p.row, p.col), (0, 2));
    assert_eq!(p.col_row, Some(0));
    assert_eq!(p.col_col, Some(3));
    assert_eq!(p.col_elevation, Some(6));
}

#[test]
fn peak_builders_fill_fields() {
    let p = Peak::new(2, 3, 40);
    assert_eq!((p.row, p.col, p.elevation, p.prominence), (2, 3, 40, 0));
    assert!(p.col_row.is_none() && p.col_col.is_none() && p.col_elevation.is_none());
    let p = p.with_prominence(15).with_col(1, 2, 25);
    assert_eq!(p.prominence, 15);
    assert_eq!(p.col_row, Some(1));
    assert_eq!(p.col_col, Some(2));
    assert_eq!(p.col_elevation, Some(25));
}
