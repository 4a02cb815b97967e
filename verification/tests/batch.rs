use arrow::array::{ArrayRef, BinaryArray, Int64Array, StringArray};
use arrow::datatypes::{DataType, Field, Schema};
use arrow::record_batch::RecordBatch;
use flooglyflup::batch::{self, Batch, BatchError, RowError};
use flooglyflup::records::PageRecord;
use std::sync::Arc;

fn record(url: &str, links: &[&str]) -> PageRecord {
    PageRecord {
        url: url.to_string(),
        content_type: "text/html".to_string(),
        retrieval_date: "2024-01-01T00:00:00+00:00".to_string(),
        crawl_time_ms: -7,
        content_hash: format!("hash of {url}"),
        body: vec![0, 255, 7],
        outbound_links: links.iter().map(|l| l.to_string()).collect(),
    }
}

#[test]
fn the_schema_is_that_of_a_page_file() {
    let schema = batch::parquet_schema();
    let fields: Vec<(String, DataType, bool)> =
        schema.fields().iter().map(|f| (f.name().clone(), f.data_type().clone(), f.is_nullable())).collect();
    let expected = |name: &str, data_type: DataType| (name.to_string(), data_type, false);
    assert_eq!(
        fields,
        vec![
            expected("url", DataType::Utf8),
            expected("content_type", DataType::Utf8),
            expected("retrieval_date", DataType::Utf8),
            expected("crawl_time_ms", DataType::Int64),
            expected("content_hash", DataType::Utf8),
            expected("body", DataType::Binary),
            expected("outbound_links", DataType::Utf8),
        ]
    );
}

#[test]
fn records_are_read_back() {
    let rows = vec![record("https://a.org", &["https://b.org", "https://c.org"]), record("https://ä.org", &[])];
    assert!(batch::records_fit(&rows));
    let made = batch::records_to_batch(&batch::parquet_schema(), &rows).unwrap();
    assert_eq!(made.table.num_rows(), 2);
    assert_eq!(made.table.num_columns(), 7);
    let links = made.table.column(6).as_any().downcast_ref::<StringArray>().unwrap();
    assert_eq!(links.value(0), "https://b.org\nhttps://c.org");
    assert_eq!(links.value(1), "");
    let back = batch::records_from_batch(&made).unwrap();
    assert_eq!(format!("{back:?}"), format!("{rows:?}"));
    let for_index = batch::rows_from_batch(&made).unwrap();
    assert_eq!(for_index.len(), 2);
    assert_eq!(for_index[0].url, "https://a.org");
    assert_eq!(for_index[0].body, vec![0, 255, 7]);
    assert_eq!(for_index[0].outbound_links, vec!["https://b.org", "https://c.org"]);
    assert!(for_index[1].outbound_links.is_empty());
}

#[test]
fn a_link_with_a_line_feed_is_not_read_back() {
    let rows = vec![record("u", &["a\nb"])];
    let made = batch::records_to_batch(&batch::parquet_schema(), &rows).unwrap();
    assert_eq!(batch::records_from_batch(&made).unwrap()[0].outbound_links, vec!["a", "b"]);
}

#[test]
fn no_records_make_an_empty_batch() {
    let made = batch::records_to_batch(&batch::parquet_schema(), &vec![]).unwrap();
    assert_eq!(made.table.num_rows(), 0);
    assert!(batch::records_from_batch(&made).unwrap().is_empty());
}

#[test]
fn another_schema_is_refused() {
    let rows = vec![record("u", &[])];
    let other = Arc::new(Schema::new(vec![Field::new("url", DataType::Utf8, false)]));
    assert!(matches!(batch::records_to_batch(&other, &rows), Err(BatchError::SchemaMismatch)));
    let swapped = Arc::new(Schema::new(vec![
        Field::new("url", DataType::Utf8, false),
        Field::new("content_type", DataType::Utf8, false),
        Field::new("retrieval_date", DataType::Utf8, false),
        Field::new("crawl_time_ms", DataType::Utf8, false),
        Field::new("content_hash", DataType::Utf8, false),
        Field::new("body", DataType::Binary, false),
        Field::new("outbound_links", DataType::Utf8, false),
    ]));
    assert!(matches!(batch::records_to_batch(&swapped, &rows), Err(BatchError::SchemaMismatch)));
}

fn table(columns: Vec<(&str, ArrayRef)>) -> Batch {
    Batch { table: RecordBatch::try_from_iter(columns).unwrap() }
}

fn texts(values: &[&str]) -> ArrayRef {
    Arc::new(StringArray::from(values.to_vec()))
}

fn blobs(values: &[&[u8]]) -> ArrayRef {
    Arc::new(BinaryArray::from(values.to_vec()))
}

#[test]
fn a_file_without_links_has_rows_without_links() {
    let old = table(vec![
        ("url", texts(&["u"])),
        ("content_type", texts(&["t"])),
        ("retrieval_date", texts(&["d"])),
        ("crawl_time_ms", Arc::new(Int64Array::from(vec![3]))),
        ("content_hash", texts(&["h"])),
        ("body", blobs(&[b"x"])),
    ]);
    let back = batch::records_from_batch(&old).unwrap();
    assert_eq!(back.len(), 1);
    assert_eq!(back[0].crawl_time_ms, 3);
    assert_eq!(back[0].content_hash, "h");
    assert!(back[0].outbound_links.is_empty());
    assert!(batch::rows_from_batch(&old).unwrap()[0].outbound_links.is_empty());
}

#[test]
fn rows_are_found_by_the_names_of_their_columns() {
    let mixed = table(vec![
        ("body", blobs(&[b"x", b"y"])),
        ("outbound_links", texts(&["a\r\nb\n", ""])),
        ("url", texts(&["u", "v"])),
    ]);
    let rows = batch::rows_from_batch(&mixed).unwrap();
    assert_eq!(rows[0].url, "u");
    assert_eq!(rows[0].outbound_links, vec!["a", "b"]);
    assert_eq!(rows[1].body, b"y");
    assert!(batch::records_from_batch(&mixed).is_none());
}

#[test]
fn missing_columns_and_wrong_types_are_told_apart() {
    let no_body = table(vec![("url", texts(&["u"]))]);
    assert!(matches!(batch::rows_from_batch(&no_body), Err(RowError::MissingColumn)));
    let no_url = table(vec![("body", blobs(&[b"x"]))]);
    assert!(matches!(batch::rows_from_batch(&no_url), Err(RowError::MissingColumn)));
    let wrong_body = table(vec![("url", texts(&["u"])), ("body", texts(&["x"]))]);
    assert!(matches!(batch::rows_from_batch(&wrong_body), Err(RowError::WrongType)));
    let wrong_links =
        table(vec![("url", texts(&["u"])), ("body", blobs(&[b"x"])), ("outbound_links", blobs(&[b"x"]))]);
    assert!(matches!(batch::rows_from_batch(&wrong_links), Err(RowError::WrongType)));
}
