use ais_parquet_optimizer::layout::{
    column_index, kept_column_indexes, max_rows_per_staging_file, staging_file_name,
    staging_table_name, writer_action, StagingRotation, WriterAction,
};
use ais_parquet_optimizer::partition::{
    date_literal, parse_partition_key, partition_runs, partition_select_sql, partition_skips,
    PartitionKey, TimeRange,
};

fn key(year: i32, month: i32, day: i32) -> PartitionKey {
    PartitionKey { year, month, day }
}

fn strings(items: &[&str]) -> Vec<String> {
    items.iter().map(|s| s.to_string()).collect()
}

#[test]
fn partition_label() {
    assert_eq!(key(2024, 10, 5).label(), "year=2024/month=10/day=5");
    assert_eq!(key(-3, 1, 1).label(), "year=-3/month=1/day=1");
}

#[test]
fn date_literals_are_zero_padded() {
    assert_eq!(date_literal(2024, 3, 7), "2024-03-07T00:00:00Z");
    assert_eq!(date_literal(999, 12, 31), "0999-12-31T00:00:00Z");
}

#[test]
fn select_sql_spans_day_before_to_day_after_next() {
    let expected = "SELECT *, CAST(EXTRACT(YEAR FROM \"BaseDateTime\") AS INT) AS year, CAST(EXTRACT(MONTH FROM \"BaseDateTime\") AS INT) AS month, CAST(EXTRACT(DAY FROM \"BaseDateTime\") AS INT) AS day FROM ais WHERE \"BaseDateTime\" >= '2024-12-30T00:00:00Z' AND \"BaseDateTime\" < '2025-01-02T00:00:00Z' AND CAST(EXTRACT(YEAR FROM \"BaseDateTime\") AS INT) = 2024 AND CAST(EXTRACT(MONTH FROM \"BaseDateTime\") AS INT) = 12 AND CAST(EXTRACT(DAY FROM \"BaseDateTime\") AS INT) = 31 ORDER BY \"BaseDateTime\"";
    assert_eq!(partition_select_sql(key(2024, 12, 31), "\"BaseDateTime\""), expected);
}

#[test]
fn runs_of_equal_keys() {
    let keys = vec![key(2024, 1, 1), key(2024, 1, 1), key(2024, 1, 2), key(2024, 1, 1)];
    assert_eq!(partition_runs(&keys), vec![(0, 2), (2, 3), (3, 4)]);
    assert_eq!(partition_runs(&Vec::new()), Vec::<(usize, usize)>::new());
    assert_eq!(partition_runs(&vec![key(1, 1, 1)]), vec![(0, 1)]);
}

#[test]
fn partition_key_from_path_components() {
    let parts = strings(&["partition_parquet", "year=2024", "month=10", "day=20", "part-00000.parquet"]);
    assert_eq!(parse_partition_key(&parts), Some(key(2024, 10, 20)));
    let missing = strings(&["root", "year=2024", "month=10", "x.parquet"]);
    assert_eq!(parse_partition_key(&missing), None);
    let later_wins = strings(&["year=2023", "month=1", "day=2", "year=2024"]);
    assert_eq!(parse_partition_key(&later_wins), Some(key(2024, 1, 2)));
    let cleared = strings(&["year=2024", "month=1", "day=2", "year=abc"]);
    assert_eq!(parse_partition_key(&cleared), None);
}

#[test]
fn partition_time_pruning() {
    let day = key(2024, 10, 20);
    let start = 20016i64 * 86_400_000_000;
    let inside = TimeRange { start_us: start + 1, end_us: start + 2 };
    let before = TimeRange { start_us: start - 10, end_us: start };
    let after = TimeRange { start_us: start + 86_400_000_000, end_us: start + 2 * 86_400_000_000 };
    assert!(!partition_skips(Some(day), Some(inside)));
    assert!(partition_skips(Some(day), Some(before)));
    assert!(partition_skips(Some(day), Some(after)));
    assert!(!partition_skips(None, Some(before)));
    assert!(!partition_skips(Some(day), None));
}

#[test]
fn column_positions() {
    let names = strings(&["MMSI", "LAT", "year", "LAT"]);
    assert_eq!(column_index(&names, "LAT"), Some(1));
    assert_eq!(column_index(&names, "LON"), None);
}

#[test]
fn partition_columns_are_stripped() {
    let names = strings(&["MMSI", "year", "LAT", "month", "day", "hilbert_index"]);
    assert_eq!(kept_column_indexes(&names, false), vec![0, 2]);
    assert_eq!(kept_column_indexes(&names, true), vec![0, 2, 5]);
}

#[test]
fn writer_switches_on_new_partition() {
    assert_eq!(writer_action(None, key(2024, 1, 1)), WriterAction::Reopen);
    assert_eq!(writer_action(Some(key(2024, 1, 1)), key(2024, 1, 1)), WriterAction::Append);
    assert_eq!(writer_action(Some(key(2024, 1, 1)), key(2024, 1, 2)), WriterAction::Reopen);
}

#[test]
fn staging_names() {
    assert_eq!(staging_table_name(key(2024, 10, 20)), "hilbert_staging_2024_10_20");
    assert_eq!(staging_file_name(3), "part-00003.parquet");
    assert_eq!(staging_file_name(123456), "part-123456.parquet");
    assert_eq!(max_rows_per_staging_file(1_000_000), 10_000_000);
}

#[test]
fn staging_files_rotate_after_the_row_limit() {
    let mut rotation = StagingRotation::new();
    assert_eq!(rotation.before_batch(10), Some(0));
    rotation.after_batch(6);
    assert_eq!(rotation.before_batch(10), None);
    rotation.after_batch(6);
    assert_eq!(rotation.before_batch(10), Some(1));
    rotation.after_batch(3);
    assert_eq!(rotation.rows_in_file, 3);
    assert_eq!(rotation.next_file, 2);
}

#[test]
fn label_reads_back_through_path_components() {
    let k = key(2024, 2, 29);
    let mut components = strings(&["/", "data", "year=1999"]);
    components.extend(k.label().split('/').map(str::to_string));
    components.push("part-00000.parquet".to_string());
    assert_eq!(parse_partition_key(&components), Some(k));
    let negative = key(-44, 3, 15);
    let mut components: Vec<String> = negative.label().split('/').map(str::to_string).collect();
    components.push("data.parquet".to_string());
    assert_eq!(parse_partition_key(&components), Some(negative));
}

#[test]
fn staging_file_numbers_beyond_five_digits() {
    assert_eq!(staging_file_name(0), "part-00000.parquet");
    assert_eq!(staging_file_name(usize::MAX), format!("part-{}.parquet", usize::MAX));
}
