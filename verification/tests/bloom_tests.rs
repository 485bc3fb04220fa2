use ais_parquet_optimizer::bloom::{
    bloom_probe, bloom_skip_row_group, BloomColumn, BloomColumnKind, BloomProbe, BloomProbeError,
};
use ais_parquet_optimizer::query::{q, Operation};
use bytes::Bytes;
use parquet::data_type::Int64Type;
use parquet::file::properties::{ReaderProperties, WriterProperties};
use parquet::file::reader::{FileReader, RowGroupReader};
use parquet::file::serialized_reader::{ReadOptionsBuilder, SerializedFileReader};
use parquet::file::writer::SerializedFileWriter;
use parquet::schema::parser::parse_message_type;
use std::sync::Arc;

#[test]
fn probes_follow_the_column_type() {
    assert!(matches!(bloom_probe(BloomColumnKind::Int64, "9348651"), Ok(BloomProbe::Int64(9348651))));
    assert!(matches!(bloom_probe(BloomColumnKind::Int32, "-7"), Ok(BloomProbe::Int32(-7))));
    assert!(matches!(bloom_probe(BloomColumnKind::ByteArray, "WDK6270"), Ok(BloomProbe::Text(ref s)) if s == "WDK6270"));
    assert!(matches!(bloom_probe(BloomColumnKind::Int32, "3000000000"), Err(BloomProbeError::NotANumber)));
    assert!(matches!(bloom_probe(BloomColumnKind::Int64, "WDK"), Err(BloomProbeError::NotANumber)));
    assert!(matches!(bloom_probe(BloomColumnKind::Other, "1"), Err(BloomProbeError::UnsupportedType)));
}

#[test]
fn no_filter_no_skip() {
    let columns = vec![
        BloomColumn { path: "MMSI".to_string(), kind: BloomColumnKind::Int64, filter: None },
        BloomColumn { path: "CallSign".to_string(), kind: BloomColumnKind::ByteArray, filter: None },
    ];
    let point = q("c", "Bloom", Operation::Count).eq("CallSign", "ZZZZZZZZ").eq_i64("MMSI", 1);
    assert_eq!(bloom_skip_row_group(&columns, &point), Ok(false));
    let empty_in = q("c", "Bloom", Operation::Count).isin("CallSign", Vec::new());
    assert_eq!(bloom_skip_row_group(&columns, &empty_in), Ok(false));
    let ranges_only = q("b", "Bounding Box", Operation::Count).range("LAT");
    assert_eq!(bloom_skip_row_group(&Vec::new(), &ranges_only), Ok(false));
}

fn file_with_mmsi_filter(values: &[i64]) -> Vec<u8> {
    let schema = Arc::new(parse_message_type("message ais { REQUIRED INT64 MMSI; }").unwrap());
    let props = Arc::new(WriterProperties::builder().set_bloom_filter_enabled(true).build());
    let mut out: Vec<u8> = Vec::new();
    let mut writer = SerializedFileWriter::new(&mut out, schema, props).unwrap();
    let mut row_group = writer.next_row_group().unwrap();
    let mut column = row_group.next_column().unwrap().unwrap();
    column.typed::<Int64Type>().write_batch(values, None, None).unwrap();
    column.close().unwrap();
    row_group.close().unwrap();
    writer.close().unwrap();
    out
}

#[test]
fn filter_rules_out_values_never_written() {
    let options = ReadOptionsBuilder::new()
        .with_reader_properties(ReaderProperties::builder().set_read_bloom_filter(true).build())
        .build();
    let bytes = Bytes::from(file_with_mmsi_filter(&[563073700, 248669000]));
    let reader = SerializedFileReader::new_with_options(bytes, options).unwrap();
    let row_group = reader.get_row_group(0).unwrap();
    let filter = row_group.get_column_bloom_filter(0);
    assert!(filter.is_some());
    let columns = vec![BloomColumn { path: "MMSI".to_string(), kind: BloomColumnKind::Int64, filter }];
    let present = q("m", "Bloom", Operation::Rows).eq_i64("MMSI", 563073700);
    assert_eq!(bloom_skip_row_group(&columns, &present), Ok(false));
    let absent = q("m", "Bloom", Operation::Rows).eq_i64("MMSI", 123456789);
    assert_eq!(bloom_skip_row_group(&columns, &absent), Ok(true));
    let some_present = q("m", "Bloom", Operation::Count).isin_i64("MMSI", vec![123456789, 248669000]);
    assert_eq!(bloom_skip_row_group(&columns, &some_present), Ok(false));
    let none_present = q("m", "Bloom", Operation::Count).isin_i64("MMSI", vec![123456789, 987654321]);
    assert_eq!(bloom_skip_row_group(&columns, &none_present), Ok(true));
    let as_text = q("m", "Bloom", Operation::Rows).eq("MMSI", "563073700");
    assert_eq!(bloom_skip_row_group(&columns, &as_text), Ok(false));
    let not_a_number = q("m", "Bloom", Operation::Rows).eq("MMSI", "WDK6270");
    assert_eq!(bloom_skip_row_group(&columns, &not_a_number), Err(BloomProbeError::NotANumber));
}
