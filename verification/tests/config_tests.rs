use ais_parquet_optimizer::config::{
    bloom_column_list, effective_row_group_size, jobs_or, ndv_for_column, parse_bloom_ndv_per_column,
    plain_writer_plan, resolve_jobs, source_writer_plan, writer_plan, NdvOverrideError,
};
use ais_parquet_optimizer::durations::{mean_duration, median_duration, sort_nanos};

#[test]
fn ndv_overrides_parse() {
    assert_eq!(parse_bloom_ndv_per_column("MMSI=50000"), Ok(("MMSI".to_string(), 50000)));
    assert_eq!(parse_bloom_ndv_per_column("VesselType=+100"), Ok(("VesselType".to_string(), 100)));
    assert_eq!(parse_bloom_ndv_per_column("Név=7"), Ok(("Név".to_string(), 7)));
    assert_eq!(parse_bloom_ndv_per_column("=7"), Ok((String::new(), 7)));
}

#[test]
fn ndv_override_errors() {
    assert_eq!(parse_bloom_ndv_per_column("MMSI"), Err(NdvOverrideError::Format));
    assert_eq!(parse_bloom_ndv_per_column("A=1=2"), Err(NdvOverrideError::Format));
    assert_eq!(parse_bloom_ndv_per_column("MMSI=lots"), Err(NdvOverrideError::Value));
    assert_eq!(parse_bloom_ndv_per_column("MMSI=-5"), Err(NdvOverrideError::Value));
    assert_eq!(parse_bloom_ndv_per_column("MMSI="), Err(NdvOverrideError::Value));
}

#[test]
fn ndv_lookup_last_override_wins() {
    let overrides = vec![("MMSI".to_string(), 1u64), ("IMO".to_string(), 2), ("MMSI".to_string(), 3)];
    assert_eq!(ndv_for_column("MMSI", &overrides, 1_000_000), 3);
    assert_eq!(ndv_for_column("IMO", &overrides, 1_000_000), 2);
    assert_eq!(ndv_for_column("CallSign", &overrides, 1_000_000), 1_000_000);
}

#[test]
fn bloom_columns_include_defaults_once() {
    let cols = bloom_column_list(&vec!["CallSign".to_string(), "MMSI".to_string(), "CallSign".to_string()]);
    assert_eq!(cols, vec!["CallSign".to_string(), "MMSI".to_string(), "IMO".to_string()]);
    let defaults = bloom_column_list(&Vec::new());
    assert_eq!(defaults, vec!["MMSI".to_string(), "IMO".to_string()]);
}

#[test]
fn writer_plans() {
    let plan = source_writer_plan(1_000_000, 0);
    assert_eq!(plan.zstd_level, 22);
    assert_eq!(plan.max_row_group_size, 1_000_000);
    assert_eq!(plan.data_page_size_limit, None);
    assert!(plan.bloom_columns.is_empty());
    assert_eq!(plan.created_by, "ais-parquet-optimizer");
    assert_eq!(plain_writer_plan(10, 0, 0).zstd_level, 1);
    assert_eq!(plain_writer_plan(10, 23, 0).zstd_level, 1);
    assert_eq!(plain_writer_plan(10, 6, 4096).zstd_level, 6);
    assert_eq!(plain_writer_plan(10, 6, 4096).data_page_size_limit, Some(4096));
    let overrides = vec![("MMSI".to_string(), 50000u64)];
    let columns = vec!["MMSI".to_string(), "IMO".to_string()];
    let bloom = writer_plan(true, &columns, 200_000, 6, 1 << 20, 1_000_000, &overrides);
    assert_eq!(bloom.zstd_level, 6);
    assert_eq!(bloom.data_page_size_limit, Some(1 << 20));
    assert_eq!(bloom.bloom_columns, vec![("MMSI".to_string(), 50000), ("IMO".to_string(), 1_000_000)]);
    let plain = writer_plan(false, &columns, 200_000, 6, 0, 1_000_000, &overrides);
    assert!(plain.bloom_columns.is_empty());
}

#[test]
fn smart_row_group_size_is_a_fifth_of_the_daily_average() {
    assert_eq!(effective_row_group_size(5_000_000, 93_000_000, 93), 200_000);
    assert_eq!(effective_row_group_size(100_000, 93_000_000, 93), 100_000);
    assert_eq!(effective_row_group_size(5_000_000, 1_000, 0), 200);
}

#[test]
fn job_counts() {
    assert_eq!(jobs_or(Some(4), 16), 4);
    assert_eq!(jobs_or(Some(0), 16), 1);
    assert_eq!(jobs_or(None, 16), 16);
    assert_eq!(jobs_or(None, 0), 1);
    assert_eq!(resolve_jobs(Some(3)), 3);
    assert!(resolve_jobs(None) >= 1);
}

#[test]
fn median_of_run_times() {
    assert_eq!(median_duration(&Vec::new()), 0);
    assert_eq!(median_duration(&vec![5]), 5);
    assert_eq!(median_duration(&vec![30, 10, 20]), 20);
    assert_eq!(median_duration(&vec![40, 10, 30, 20]), 30);
    assert_eq!(sort_nanos(&vec![3, 1, 2, 1]), vec![1, 1, 2, 3]);
}

#[test]
fn mean_of_run_times() {
    assert_eq!(mean_duration(&Vec::new()), 0);
    assert_eq!(mean_duration(&vec![1, 2]), 1);
    assert_eq!(mean_duration(&vec![10, 20, 30]), 20);
    assert_eq!(mean_duration(&vec![u128::MAX, u128::MAX]), u128::MAX);
    assert_eq!(mean_duration(&vec![u128::MAX, 1]), u128::MAX / 2 + 1);
}
