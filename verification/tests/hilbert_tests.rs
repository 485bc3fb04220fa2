use ais_parquet_optimizer::cells::{
    cell_interval_2d, hilbert_intervals_for_box, hilbert_skip_row_group, visit_hilbert_cell_2d,
    HILBERT_MAX_INTERVALS,
};
use ais_parquet_optimizer::hilbert::{
    axes_to_hilbert_transpose_2d, hilbert_index_2d, HILBERT_BITS, HILBERT_MAX_AXIS,
};
use ais_parquet_optimizer::intervals::{merge_intervals, sort_pairs};

#[test]
fn hilbert_uses_31_bits_per_axis() {
    assert_eq!(HILBERT_BITS, 31);
    assert_eq!(HILBERT_MAX_AXIS, (1u32 << 31) - 1);
}

#[test]
fn hilbert_index_of_unit_square_corners() {
    assert_eq!(hilbert_index_2d([0, 0]), 0);
    assert_eq!(hilbert_index_2d([0, 1]), 1);
    assert_eq!(hilbert_index_2d([1, 1]), 2);
    assert_eq!(hilbert_index_2d([1, 0]), 3);
}

#[test]
fn hilbert_index_exact_values() {
    assert_eq!(hilbert_index_2d([HILBERT_MAX_AXIS, HILBERT_MAX_AXIS]), 3074457345618258602);
    assert_eq!(hilbert_index_2d([HILBERT_MAX_AXIS, 0]), 3458764513820540928);
    assert_eq!(hilbert_index_2d([0, HILBERT_MAX_AXIS]), 1921535841011411626);
    assert_eq!(hilbert_index_2d([123456789, 987654321]), 878081802465951678);
}

#[test]
fn hilbert_index_stays_below_two_to_the_62() {
    for &(x, y) in &[(0u32, 0u32), (HILBERT_MAX_AXIS, 0), (HILBERT_MAX_AXIS, HILBERT_MAX_AXIS), (7, 99999)] {
        assert!(hilbert_index_2d([x, y]) < (1u64 << 62));
    }
}

#[test]
fn transpose_examples() {
    let mut axes = [5u64, 3u64];
    axes_to_hilbert_transpose_2d(&mut axes, 3);
    assert_eq!(axes, [7, 5]);
    let mut axes = [1u64, 0u64];
    axes_to_hilbert_transpose_2d(&mut axes, 1);
    assert_eq!(axes, [1, 1]);
    let mut axes = [0b1011u64, 0b0110u64];
    axes_to_hilbert_transpose_2d(&mut axes, 4);
    assert_eq!(axes, [14, 11]);
}

#[test]
fn cell_intervals() {
    assert_eq!(cell_interval_2d(0, 0, 0), (0, 0));
    assert_eq!(cell_interval_2d(4, 8, 2), (224, 239));
    assert_eq!(cell_interval_2d(0, 0, 31), (0, (1u64 << 62) - 1));
    assert_eq!(cell_interval_2d(0, 0, 32), (0, u64::MAX));
}

#[test]
fn cell_interval_contains_its_points() {
    let (start, end) = cell_interval_2d(4, 8, 2);
    for x in 4..8u32 {
        for y in 8..12u32 {
            let h = hilbert_index_2d([x, y]);
            assert!(start <= h && h <= end);
        }
    }
}

#[test]
fn whole_space_is_one_interval() {
    let mut intervals = Vec::new();
    visit_hilbert_cell_2d(0, 0, 31, &[(0, HILBERT_MAX_AXIS), (0, HILBERT_MAX_AXIS)], &mut intervals);
    assert_eq!(intervals, vec![(0, (1u64 << 62) - 1)]);
}

#[test]
fn descent_stops_splitting_at_the_cap() {
    let mut intervals = Vec::new();
    visit_hilbert_cell_2d(0, 0, 31, &[(1000, 2000), (3000, 3500)], &mut intervals);
    assert_eq!(intervals.len(), 523);
    assert!(HILBERT_MAX_INTERVALS == 512);
}

#[test]
fn box_intervals_cover_points_in_box() {
    let query = [(1000u32, 2000u32), (3000u32, 3500u32)];
    let intervals = hilbert_intervals_for_box(&query);
    assert_eq!(intervals.len(), 230);
    assert_eq!(intervals[0], (13194368, 13195007));
    for &(x, y) in &[(1500u32, 3200u32), (1000, 3000), (2000, 3500), (1000, 3500)] {
        let h = hilbert_index_2d([x, y]);
        assert!(intervals.iter().any(|&(s, e)| s <= h && h <= e));
    }
    for w in intervals.windows(2) {
        assert!(w[0].1 + 1 < w[1].0);
    }
}

#[test]
fn merge_joins_overlapping_and_adjacent() {
    assert_eq!(
        merge_intervals(vec![(10, 20), (21, 30), (5, 7), (40, 50), (45, 60)]),
        vec![(5, 7), (10, 30), (40, 60)]
    );
    assert_eq!(merge_intervals(vec![(0, u64::MAX), (5, 6)]), vec![(0, u64::MAX)]);
    assert_eq!(merge_intervals(Vec::new()), Vec::<(u64, u64)>::new());
}

#[test]
fn sort_pairs_orders_lexicographically() {
    assert_eq!(sort_pairs(&vec![(3, 1), (1, 9), (3, 0), (1, 2)]), vec![(1, 2), (1, 9), (3, 0), (3, 1)]);
}

#[test]
fn hilbert_row_group_pruning() {
    let intervals = vec![(10u64, 20u64), (40, 50)];
    assert!(!hilbert_skip_row_group(None, &intervals));
    assert!(hilbert_skip_row_group(Some((21, 39)), &intervals));
    assert!(!hilbert_skip_row_group(Some((15, 30)), &intervals));
    assert!(!hilbert_skip_row_group(Some((0, 10)), &intervals));
    assert!(hilbert_skip_row_group(Some((51, 60)), &intervals));
}

#[test]
fn nearby_points_share_index_prefix() {
    // Points that agree above bit 10 of each coordinate agree above bit 20 of the index.
    let a = [0x1234_5400u32 & HILBERT_MAX_AXIS, 0x0bcd_e800u32];
    let b = [a[0] | 0x3ff, a[1] | 0x155];
    let ha = hilbert_index_2d(a);
    let hb = hilbert_index_2d(b);
    assert_eq!(ha >> 20, hb >> 20);
}

#[test]
fn row_group_holding_an_in_box_point_is_kept() {
    let query = [(1000u32, 2000u32), (3000u32, 3500u32)];
    let intervals = hilbert_intervals_for_box(&query);
    let h = hilbert_index_2d([1234, 3333]);
    assert!(!hilbert_skip_row_group(Some((h, h)), &intervals));
    assert!(!hilbert_skip_row_group(Some((h.saturating_sub(5), h + 5)), &intervals));
}

#[test]
fn box_intervals_hold_exactly_the_box() {
    let query = [(5u32, 12u32), (3u32, 9u32)];
    let mut raw = Vec::new();
    visit_hilbert_cell_2d(0, 0, 31, &query, &mut raw);
    assert!(raw.len() <= HILBERT_MAX_INTERVALS);
    let intervals = hilbert_intervals_for_box(&query);
    let total: u64 = intervals.iter().map(|&(s, e)| e - s + 1).sum();
    assert_eq!(total, 8 * 7);
    let mut indexes = Vec::new();
    for x in 5u32..=12 {
        for y in 3u32..=9 {
            let h = hilbert_index_2d([x, y]);
            assert!(intervals.iter().any(|&(s, e)| s <= h && h <= e));
            indexes.push(h);
        }
    }
    indexes.sort();
    indexes.dedup();
    assert_eq!(indexes.len(), 8 * 7);
}

#[test]
fn single_descent_is_ordered_and_exact() {
    let query = [(5u32, 12u32), (3u32, 9u32)];
    let mut raw = Vec::new();
    visit_hilbert_cell_2d(0, 0, 31, &query, &mut raw);
    for w in raw.windows(2) {
        assert!(w[0].0 <= w[0].1 && w[0].1 < w[1].0);
    }
    let total: u64 = raw.iter().map(|&(s, e)| e - s + 1).sum();
    assert_eq!(total, 8 * 7);
}

#[test]
fn cell_interval_holds_exactly_its_cell() {
    let (s, e) = cell_interval_2d(8, 4, 2);
    assert_eq!(s % 16, 0);
    assert_eq!(e, s + 15);
    let mut indexes: Vec<u64> = Vec::new();
    for x in 8u32..12 {
        for y in 4u32..8 {
            indexes.push(hilbert_index_2d([x, y]));
        }
    }
    indexes.sort();
    assert_eq!(indexes, (s..=e).collect::<Vec<u64>>());
}

#[test]
fn merging_ignores_order_and_is_idempotent() {
    let a = vec![(10u64, 20u64), (1, 5), (6, 8), (30, 40)];
    let b = vec![(30u64, 40u64), (6, 8), (10, 20), (1, 5)];
    let merged = merge_intervals(a);
    assert_eq!(merged, vec![(1, 8), (10, 20), (30, 40)]);
    assert_eq!(merge_intervals(b), merged);
    assert_eq!(merge_intervals(merged.clone()), merged);
    assert_eq!(merge_intervals(Vec::new()), Vec::new());
}
