//! End-to-end checks: document text in, encoded columnar file out, read
//! back with the standard reader.

use umbra::run_pipeline;
use umbra::Error;
use umbra::record::MetadataJson;

use arrow::array::{Array, Float64Array, RecordBatch, StringArray};
use bytes::Bytes;
use parquet::arrow::arrow_reader::ParquetRecordBatchReaderBuilder;

fn chars(s: &str) -> Vec<char> {
    s.chars().collect()
}

fn read_rows(bytes: Vec<u8>) -> Vec<RecordBatch> {
    let reader = ParquetRecordBatchReaderBuilder::try_new(Bytes::from(bytes))
        .unwrap()
        .build()
        .unwrap();
    reader.collect::<Result<Vec<_>, _>>().unwrap()
}

fn text_col(batch: &RecordBatch, i: usize) -> Option<String> {
    let col = batch
        .column(i)
        .as_any()
        .downcast_ref::<StringArray>()
        .unwrap();
    if col.is_null(0) {
        None
    } else {
        Some(col.value(0).to_string())
    }
}

fn float_col(batch: &RecordBatch, i: usize) -> Option<f64> {
    let col = batch
        .column(i)
        .as_any()
        .downcast_ref::<Float64Array>()
        .unwrap();
    if col.is_null(0) {
        None
    } else {
        Some(col.value(0))
    }
}

#[test]
fn empty_document_gives_one_all_null_row() {
    let bytes = run_pipeline(&chars("{}")).unwrap();
    let batches = read_rows(bytes);
    let total: usize = batches.iter().map(|b| b.num_rows()).sum();
    assert_eq!(total, 1);
    let b = &batches[0];
    assert_eq!(b.num_columns(), 10);
    let file_schema = b.schema();
    let declared = MetadataJson::schema();
    for (f, d) in file_schema.fields().iter().zip(declared.fields().iter()) {
        assert_eq!(f.name(), d.name());
        assert_eq!(f.data_type(), d.data_type());
    }
    for i in [0usize, 1, 2, 3, 4, 7, 8, 9] {
        assert_eq!(text_col(b, i), None);
    }
    assert_eq!(float_col(b, 5), None);
    assert_eq!(float_col(b, 6), None);
}

#[test]
fn version_and_base_ipr_scenario() {
    let bytes = run_pipeline(&chars("{\"version\":\"1.0\",\"baseIpr\":0.5}")).unwrap();
    let batches = read_rows(bytes);
    let total: usize = batches.iter().map(|b| b.num_rows()).sum();
    assert_eq!(total, 1);
    let b = &batches[0];
    assert_eq!(text_col(b, 0), Some("1.0".to_string()));
    assert_eq!(float_col(b, 5), Some(0.5));
    assert_eq!(text_col(b, 1), None);
    assert_eq!(text_col(b, 2), None);
    assert_eq!(text_col(b, 3), None);
    assert_eq!(text_col(b, 4), None);
    assert_eq!(float_col(b, 6), None);
    assert_eq!(text_col(b, 7), None);
    assert_eq!(text_col(b, 8), None);
    assert_eq!(text_col(b, 9), None);
}

#[test]
fn schema_called_twice_is_identical() {
    let s1 = MetadataJson::schema();
    let s2 = MetadataJson::schema();
    assert_eq!(s1, s2);
    let names: Vec<&str> = s1.fields().iter().map(|f| f.name().as_str()).collect();
    assert_eq!(
        names,
        vec![
            "version",
            "vendor",
            "imaging_mode",
            "order_type",
            "product_sku",
            "base_ipr",
            "target_ipr",
            "umbra_satellite_name",
            "collects",
            "derived_products",
        ]
    );
    for f in s1.fields() {
        assert!(f.is_nullable());
    }
    assert_eq!(
        *s1.field(5).data_type(),
        arrow::datatypes::DataType::Float64
    );
    assert_eq!(*s1.field(0).data_type(), arrow::datatypes::DataType::Utf8);
}

#[test]
fn collects_column_holds_canonical_serialization() {
    let doc = "{\"collects\":[{\"id\":\"a\"},{\"id\":\"b\"}]}";
    let bytes = run_pipeline(&chars(doc)).unwrap();
    let batches = read_rows(bytes);
    let b = &batches[0];
    let col = text_col(b, 8).unwrap();
    assert_eq!(col, "[{\"id\":\"a\"},{\"id\":\"b\"}]");
    let back = umbra::json::parse_text(&chars(&col)).unwrap();
    let orig = umbra::json::parse_text(&chars("[{\"id\":\"a\"},{\"id\":\"b\"}]")).unwrap();
    assert_eq!(back, orig);
}

#[test]
fn derived_products_column_round_trips() {
    let doc = "{\"derivedProducts\":{\"ortho\":{\"res\":1.5},\"flag\":true}}";
    let bytes = run_pipeline(&chars(doc)).unwrap();
    let batches = read_rows(bytes);
    let col = text_col(&batches[0], 9).unwrap();
    let back = umbra::json::parse_text(&chars(&col)).unwrap();
    let orig =
        umbra::json::parse_text(&chars("{\"ortho\":{\"res\":1.5},\"flag\":true}")).unwrap();
    assert_eq!(back, orig);
}

#[test]
fn malformed_document_is_a_parse_error() {
    let r = run_pipeline(&chars("{\"version\":"));
    assert!(matches!(r, Err(Error::Parse)));
    let r = run_pipeline(&chars("not json"));
    assert!(matches!(r, Err(Error::Parse)));
    let r = run_pipeline(&chars(""));
    assert!(matches!(r, Err(Error::Parse)));
}

#[test]
fn mistyped_field_is_a_parse_error() {
    let r = run_pipeline(&chars("{\"version\":3}"));
    assert!(matches!(r, Err(Error::Parse)));
    let r = run_pipeline(&chars("{\"baseIpr\":\"0.5\"}"));
    assert!(matches!(r, Err(Error::Parse)));
    let r = run_pipeline(&chars("{\"collects\":[1]}"));
    assert!(matches!(r, Err(Error::Parse)));
    let r = run_pipeline(&chars("{\"derivedProducts\":[]}"));
    assert!(matches!(r, Err(Error::Parse)));
}

#[test]
fn null_fields_stay_absent() {
    let bytes = run_pipeline(&chars("{\"version\":null,\"baseIpr\":null}")).unwrap();
    let batches = read_rows(bytes);
    let b = &batches[0];
    assert_eq!(text_col(b, 0), None);
    assert_eq!(float_col(b, 5), None);
}

#[test]
fn unknown_fields_are_ignored() {
    let bytes = run_pipeline(&chars("{\"unknown\":42,\"vendor\":\"umbra\"}")).unwrap();
    let batches = read_rows(bytes);
    assert_eq!(text_col(&batches[0], 1), Some("umbra".to_string()));
}

#[test]
fn control_characters_round_trip_in_columns() {
    let doc = "{\"collects\":[{\"k\":\"a\\nb\"}]}";
    let bytes = run_pipeline(&chars(doc)).unwrap();
    let batches = read_rows(bytes);
    let col = text_col(&batches[0], 8).unwrap();
    assert_eq!(col, "[{\"k\":\"a\\u000ab\"}]");
    let back = umbra::json::parse_text(&chars(&col)).unwrap();
    let orig = umbra::json::parse_text(&chars("[{\"k\":\"a\\nb\"}]")).unwrap();
    assert_eq!(back, orig);
}

#[test]
fn duplicate_known_field_is_a_parse_error() {
    let r = run_pipeline(&chars("{\"version\":\"a\",\"version\":\"b\"}"));
    assert!(matches!(r, Err(Error::Parse)));
    let bytes = run_pipeline(&chars("{\"x\":1,\"x\":2,\"vendor\":\"u\"}")).unwrap();
    let batches = read_rows(bytes);
    assert_eq!(text_col(&batches[0], 1), Some("u".to_string()));
}

#[test]
fn bad_number_literal_is_a_serialization_error() {
    let rec = MetadataJson {
        version: None,
        vendor: None,
        imaging_mode: None,
        order_type: None,
        product_sku: None,
        base_ipr: Some("nope".chars().collect()),
        target_ipr: None,
        umbra_satellite_name: None,
        collects: None,
        derived_products: None,
    };
    let r = rec.to_batch();
    assert!(matches!(r, Err(Error::Serialization)));
}
