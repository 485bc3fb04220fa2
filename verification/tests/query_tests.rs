use ais_parquet_optimizer::matching::{day_of_micros, row_matches, QueryTally, RowCells};
use ais_parquet_optimizer::pruning::{stats_skip_row_group, ColumnStats};
use ais_parquet_optimizer::partition::TimeRange;
use ais_parquet_optimizer::query::{
    benchmark_query_defs, projection_columns, q, query_has_no_row_filter, Operation, StringMatchKind,
};

fn int_stats(path: &str, min: i64, max: i64) -> ColumnStats {
    ColumnStats { path: path.to_string(), int64: Some((min, max)), bytes: None }
}

fn byte_stats(path: &str, min: &str, max: &str) -> ColumnStats {
    ColumnStats {
        path: path.to_string(),
        int64: None,
        bytes: Some((min.as_bytes().to_vec(), max.as_bytes().to_vec())),
    }
}

fn empty_cells() -> RowCells {
    RowCells {
        equality_values: Vec::new(),
        in_values: Vec::new(),
        equality_i64_values: Vec::new(),
        in_i64_values: Vec::new(),
        timestamp: None,
        match_value: None,
    }
}

#[test]
fn builders_record_filters() {
    let query = q("MMSI + time range", "Combined Queries", Operation::Rows)
        .eq_i64("MMSI", 563073700)
        .time("2024-10-01 00", "2024-11-01 00");
    assert_eq!(query.name, "MMSI + time range");
    assert_eq!(query.category, "Combined Queries");
    assert_eq!(query.equalities_i64, vec![("MMSI".to_string(), 563073700)]);
    let range = query.time_range.unwrap();
    assert_eq!(range.end_us - range.start_us, 31 * 86_400_000_000);
    let prefix = q("p", "c", Operation::Count).string_prefix("VesselName", "MAERSK");
    let m = prefix.string_match.unwrap();
    assert_eq!(m.kind, StringMatchKind::Prefix);
    assert_eq!(m.pattern, "MAERSK");
}

#[test]
fn no_row_filter() {
    assert!(query_has_no_row_filter(&q("COUNT all rows", "Aggregations", Operation::Count)));
    assert!(query_has_no_row_filter(&q("by day", "Aggregations", Operation::CountByDay)));
    assert!(!query_has_no_row_filter(&q("b", "c", Operation::Count).range("LAT")));
    assert!(!query_has_no_row_filter(&q("b", "c", Operation::Count).eq("CallSign", "WDK6270")));
}

#[test]
fn time_statistics_prune() {
    let query = q("t", "c", Operation::Count).time("2024-10-20 00", "2024-10-21 00");
    let start = query.time_range.unwrap().start_us;
    let end = query.time_range.unwrap().end_us;
    assert!(stats_skip_row_group(&vec![int_stats("BaseDateTime", 0, start - 1)], &query, false));
    assert!(stats_skip_row_group(&vec![int_stats("BaseDateTime", end, end + 5)], &query, false));
    assert!(!stats_skip_row_group(&vec![int_stats("BaseDateTime", start - 1, start)], &query, false));
    assert!(!stats_skip_row_group(&vec![], &query, false));
    assert!(stats_skip_row_group(&vec![], &query, true));
}

#[test]
fn string_statistics_prune_lexicographically() {
    let query = q("n", "c", Operation::Rows).eq("VesselName", "MAERSK MEMPHIS");
    assert!(!stats_skip_row_group(&vec![byte_stats("VesselName", "A", "Z")], &query, false));
    assert!(stats_skip_row_group(&vec![byte_stats("VesselName", "MAERSK N", "ZULU")], &query, false));
    assert!(stats_skip_row_group(&vec![byte_stats("VesselName", "A", "MAERSK")], &query, false));
    assert!(!stats_skip_row_group(&vec![byte_stats("VesselName", "MAERSK MEMPHIS", "MAERSK MEMPHIS")], &query, false));
    let with_in = q("n", "c", Operation::Count).isin("CallSign", vec!["AAA".to_string(), "ZZZ".to_string()]);
    assert!(stats_skip_row_group(&vec![byte_stats("CallSign", "B", "Y")], &with_in, false));
    assert!(!stats_skip_row_group(&vec![byte_stats("CallSign", "A", "Y")], &with_in, false));
}

#[test]
fn int_statistics_prune() {
    let query = q("m", "c", Operation::Rows).eq_i64("MMSI", 563073700);
    assert!(stats_skip_row_group(&vec![int_stats("MMSI", 1, 100)], &query, false));
    assert!(!stats_skip_row_group(&vec![int_stats("MMSI", 1, 600000000)], &query, false));
    let multi = q("m", "c", Operation::Count).isin_i64("MMSI", vec![5, 500]);
    assert!(stats_skip_row_group(&vec![int_stats("MMSI", 6, 499)], &multi, false));
    assert!(!stats_skip_row_group(&vec![int_stats("MMSI", 6, 500)], &multi, false));
    let later = vec![int_stats("MMSI", 1, 600000000), int_stats("MMSI", 1, 2)];
    assert!(stats_skip_row_group(&later, &query, false));
}

#[test]
fn row_matching() {
    let query = q("v", "c", Operation::Rows)
        .eq("VesselType", "70")
        .time("2024-10-20 04", "2024-10-20 05")
        .string_substring("VesselName", "SPIRIT");
    let start = query.time_range.unwrap().start_us;
    let mut cells = empty_cells();
    cells.equality_values = vec![Some("70".to_string())];
    cells.timestamp = Some(start);
    cells.match_value = Some("OCEAN SPIRIT II".to_string());
    assert!(row_matches(&query, &cells, true));
    assert!(!row_matches(&query, &cells, false));
    cells.match_value = Some("SPIRT".to_string());
    assert!(!row_matches(&query, &cells, true));
    cells.match_value = Some("SPIRIT".to_string());
    cells.timestamp = Some(start + 3_600_000_000);
    assert!(!row_matches(&query, &cells, true));
    cells.timestamp = Some(start);
    cells.equality_values = vec![None];
    assert!(!row_matches(&query, &cells, true));
}

#[test]
fn prefix_and_in_matching() {
    let query = q("p", "c", Operation::Count)
        .isin_i64("IMO", vec![9348651, 9199323])
        .string_prefix("CallSign", "WDK");
    let mut cells = empty_cells();
    cells.in_i64_values = vec![Some(9199323)];
    cells.match_value = Some("WDK6270".to_string());
    assert!(row_matches(&query, &cells, true));
    cells.match_value = Some("XWDK".to_string());
    assert!(!row_matches(&query, &cells, true));
    cells.match_value = Some("WDK".to_string());
    cells.in_i64_values = vec![Some(1)];
    assert!(!row_matches(&query, &cells, true));
}

#[test]
fn projected_columns() {
    let query = q("b", "c", Operation::CountByDay).range("LAT").range("LON").range("LAT");
    let cols = projection_columns(&query);
    assert_eq!(cols, vec!["LAT".to_string(), "LON".to_string(), "BaseDateTime".to_string()]);
    assert!(projection_columns(&q("all", "c", Operation::Count)).is_empty());
    let distinct = projection_columns(&q("d", "c", Operation::DistinctMmsi).eq_i64("MMSI", 1));
    assert_eq!(distinct, vec!["MMSI".to_string()]);
}

#[test]
fn days_round_down() {
    assert_eq!(day_of_micros(0), 0);
    assert_eq!(day_of_micros(86_400_000_000 - 1), 0);
    assert_eq!(day_of_micros(86_400_000_000), 1);
    assert_eq!(day_of_micros(-1), -1);
    assert_eq!(day_of_micros(-86_400_000_000), -1);
    assert_eq!(day_of_micros(-86_400_000_001), -2);
}

#[test]
fn tallies() {
    let mut tally = QueryTally::new();
    tally.record(Operation::GroupByVesselType, Some("70"), None, None);
    tally.record(Operation::GroupByVesselType, Some("70"), None, None);
    tally.record(Operation::GroupByVesselType, Some("80"), None, None);
    tally.record(Operation::GroupByVesselType, None, None, None);
    assert_eq!(tally.count(Operation::GroupByVesselType), 2);
    tally.record(Operation::CountByDay, None, Some(5), None);
    tally.record(Operation::CountByDay, None, Some(86_400_000_000 + 5), None);
    tally.record(Operation::CountByDay, None, Some(10), None);
    assert_eq!(tally.count(Operation::CountByDay), 2);
    tally.record(Operation::DistinctMmsi, None, None, Some(1));
    tally.record(Operation::DistinctMmsi, None, None, Some(1));
    assert_eq!(tally.count(Operation::DistinctMmsi), 1);
    tally.record(Operation::Count, None, None, None);
    tally.record(Operation::Rows, None, None, None);
    assert_eq!(tally.count(Operation::Count), 2);
}

#[test]
fn matching_row_inside_statistics_keeps_its_row_group() {
    let query = q("n", "c", Operation::Rows)
        .eq("CallSign", "WDK6270")
        .eq_i64("MMSI", 367481310)
        .time("2024-10-20 00", "2024-10-21 00");
    let ts = query.time_range.unwrap().start_us + 5;
    let stats = vec![
        byte_stats("CallSign", "WDA", "WDZ"),
        int_stats("MMSI", 367000000, 368000000),
        int_stats("BaseDateTime", ts - 1, ts + 1),
    ];
    let mut cells = empty_cells();
    cells.equality_values = vec![Some("WDK6270".to_string())];
    cells.equality_i64_values = vec![Some(367481310)];
    cells.timestamp = Some(ts);
    assert!(row_matches(&query, &cells, true));
    assert!(!stats_skip_row_group(&stats, &query, false));
}

#[test]
fn benchmark_query_table() {
    let defs = benchmark_query_defs();
    assert_eq!(defs.len(), 31);
    assert_eq!(defs[0].name, "MMSI exact lookup");
    assert_eq!(defs[0].equalities_i64, vec![("MMSI".to_string(), 563073700)]);
    assert_eq!(defs[1].in_filters_i64[0].1, vec![563073700, 248669000, 367481310, 367776660, 319194000]);
    assert_eq!(defs[7].category, "Time Range");
    assert_eq!(defs[7].time_range, Some(TimeRange { start_us: 1_729_382_400_000_000, end_us: 1_729_468_800_000_000 }));
    assert_eq!(defs[10].time_range, Some(TimeRange { start_us: 1_729_396_800_000_000, end_us: 1_729_400_400_000_000 }));
    assert_eq!(defs[11].range_columns, vec!["LAT".to_string(), "LON".to_string()]);
    assert!(defs[11].time_range.is_none());
    assert_eq!(defs[22].operation, Operation::DistinctMmsi);
    let last = defs[30].string_match.as_ref().unwrap();
    assert_eq!((last.column.as_str(), last.pattern.as_str(), last.kind), ("VesselName", "SPIRIT", StringMatchKind::Substring));
    let with_time = defs.iter().filter(|d| d.time_range.is_some()).count();
    assert_eq!(with_time, 7);
}
