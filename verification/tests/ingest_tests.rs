use ais_parquet_optimizer::bench::{
    count_from_metadata, counts_consistent, rank_by_time, row_group_fate, Metrics, RowGroupFate,
};
use ais_parquet_optimizer::ingest::{
    csv_line_is_record, field_present, is_class_b, parse_imo_field, parse_int_field, CsvIngest,
    LineOutcome,
};
use ais_parquet_optimizer::query::{q, Operation};

const RECORD: &str = "367481310,2024-01-01T00:00:00,29.1,-94.8,0.0,200.1,511,NAME,IMO9348651,WDK6270,70,0,100,20,5.0,70,A";

#[test]
fn record_lines() {
    assert!(csv_line_is_record(RECORD));
    let trailing = format!("{RECORD},");
    assert!(csv_line_is_record(&trailing));
    assert!(!csv_line_is_record("MMSI,BaseDateTime,LAT,LON,SOG,COG,Heading,VesselName,IMO,CallSign,VesselType,Status,Length,Width,Draft,Cargo,TransceiverClass"));
    assert!(!csv_line_is_record("1,2,3"));
    assert!(!csv_line_is_record(""));
}

#[test]
fn ingest_counters() {
    let mut ingest = CsvIngest::new();
    ingest.start_file();
    assert_eq!(ingest.on_line(RECORD), LineOutcome::Buffered);
    for _ in 0..5 {
        assert_eq!(ingest.on_line("bad"), LineOutcome::Skipped { report: true });
    }
    assert_eq!(ingest.on_line("bad"), LineOutcome::Skipped { report: false });
    assert_eq!(ingest.file_bad, 6);
    assert!(ingest.batch_ready(1));
    assert!(!ingest.batch_ready(2));
    assert!(ingest.final_flush_needed(None));
    ingest.on_rows_written(1);
    ingest.on_buffer_flushed();
    assert_eq!(ingest.total_rows, 1);
    assert!(!ingest.final_flush_needed(None));
    assert!(ingest.limit_reached(Some(1)));
    assert!(!ingest.limit_reached(Some(2)));
    assert!(!ingest.limit_reached(None));
    ingest.start_file();
    assert_eq!((ingest.file_rows, ingest.file_bad, ingest.total_rows), (0, 0, 1));
}

#[test]
fn field_parsing() {
    assert_eq!(parse_int_field("367481310"), Some(367481310));
    assert_eq!(parse_int_field("3.5"), None);
    assert_eq!(parse_imo_field("IMO9348651"), Some(9348651));
    assert_eq!(parse_imo_field("9348651"), Some(9348651));
    assert_eq!(parse_imo_field("IMO"), None);
    assert!(is_class_b("B"));
    assert!(!is_class_b("A"));
    assert!(!is_class_b("BB"));
    assert!(field_present("x"));
    assert!(!field_present(""));
}

#[test]
fn row_group_fates_follow_pruning_order() {
    assert_eq!(row_group_fate(true, true, true), RowGroupFate::StatsSkipped);
    assert_eq!(row_group_fate(false, true, true), RowGroupFate::HilbertSkipped);
    assert_eq!(row_group_fate(false, false, true), RowGroupFate::BloomSkipped);
    assert_eq!(row_group_fate(false, false, false), RowGroupFate::Decoded);
}

#[test]
fn metrics_count() {
    let mut m = Metrics::new();
    m.record_file(true);
    m.record_file(false);
    m.record_row_group(RowGroupFate::StatsSkipped);
    m.record_row_group(RowGroupFate::Decoded);
    m.record_rows_decoded(10);
    assert_eq!((m.files_total, m.files_skipped_partition, m.files_scanned), (2, 1, 1));
    assert_eq!((m.row_groups_total, m.row_groups_skipped_stats, m.row_groups_decoded), (2, 1, 1));
    assert_eq!(m.rows_decoded, 10);
}

#[test]
fn metadata_counts_only_for_unfiltered_counts() {
    assert!(count_from_metadata(&q("COUNT all rows", "Aggregations", Operation::Count)));
    assert!(!count_from_metadata(&q("by day", "Aggregations", Operation::CountByDay)));
    assert!(!count_from_metadata(&q("x", "y", Operation::Count).eq_i64("IMO", 1)));
}

#[test]
fn consistency_and_ranking() {
    assert!(counts_consistent(&vec![3, 3, 3]));
    assert!(!counts_consistent(&vec![3, 4, 3]));
    assert!(!counts_consistent(&Vec::new()));
    assert_eq!(rank_by_time(&vec![30, 10, 20, 10]), vec![1, 3, 2, 0]);
}

#[test]
fn row_limit_counts_buffered_records() {
    let max_rows = Some(1);
    let lines = [RECORD, RECORD];
    let mut ingest = CsvIngest::new();
    ingest.start_file();
    let mut taken = 0;
    for line in lines {
        if ingest.limit_reached(max_rows) {
            break;
        }
        ingest.on_line(line);
        taken += 1;
        if ingest.batch_ready(8192) {
            ingest.on_rows_written(ingest.rows_in_buf);
            ingest.on_buffer_flushed();
        }
    }
    assert_eq!(taken, 1);
    assert!(ingest.final_flush_needed(max_rows));
    ingest.on_rows_written(ingest.rows_in_buf);
    ingest.on_buffer_flushed();
    assert_eq!(ingest.total_rows, 1);
    assert!(ingest.limit_reached(max_rows));
}
