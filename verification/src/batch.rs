//! Columnar batches: the tables that page files are made of.

use arrow::array::{Array, ArrayRef, BinaryArray, Int64Array, StringArray};
use arrow::datatypes::{DataType, Field, Schema};
use arrow::error::ArrowError;
use arrow::record_batch::RecordBatch;
use crate::records::PageRecord;
use crate::records;
use crate::text;
use std::sync::Arc;
use vstd::prelude::*;
use vstd::string::*;
use vstd::utf8::*;

verus! {

/// Arrow's table of equally long columns. What it holds is named by `batch_columns` and
/// `batch_rows`.
#[verifier::external_body]
pub struct Batch {
    pub table: RecordBatch,
}

/// Arrow's description of a table's columns. What it lists is named by `schema_fields`.
#[verifier::external_type_specification]
#[verifier::external_body]
pub struct ExSchema(Schema);

/// Arrow's error.
#[verifier::external_type_specification]
#[verifier::external_body]
pub struct ExArrowError(ArrowError);

/// What the values of a column are: Arrow's `Utf8`, `Int64`, `Binary`, or any other of its types.
#[derive(Clone, Copy, Debug, PartialEq, Eq, Structural)]
pub enum ColumnType {
    Text,
    Integer,
    Binary,
    Other,
}

/// One column as mathematics: its values from the first row to the last.
pub enum ColumnValues {
    Text(Seq<Seq<char>>),
    Integer(Seq<i64>),
    Binary(Seq<Seq<u8>>),
    Other,
}

/// One column of values.
pub enum ColumnData {
    Text(Vec<String>),
    Integer(Vec<i64>),
    Binary(Vec<Vec<u8>>),
}

impl View for ColumnData {
    type V = ColumnValues;

    open spec fn view(&self) -> ColumnValues {
        match self {
            ColumnData::Text(v) => ColumnValues::Text(v.deep_view()),
            ColumnData::Integer(v) => ColumnValues::Integer(v@),
            ColumnData::Binary(v) => ColumnValues::Binary(v.deep_view()),
        }
    }
}

impl ColumnValues {
    pub open spec fn column_type(self) -> ColumnType {
        match self {
            ColumnValues::Text(_) => ColumnType::Text,
            ColumnValues::Integer(_) => ColumnType::Integer,
            ColumnValues::Binary(_) => ColumnType::Binary,
            ColumnValues::Other => ColumnType::Other,
        }
    }

    /// The number of values, where they are known.
    pub open spec fn rows(self) -> nat {
        match self {
            ColumnValues::Text(v) => v.len(),
            ColumnValues::Integer(v) => v.len(),
            ColumnValues::Binary(v) => v.len(),
            ColumnValues::Other => 0,
        }
    }
}

/// The fields of a schema in order: name, type, and whether a value may be missing.
pub uninterp spec fn schema_fields(schema: Schema) -> Seq<(Seq<char>, ColumnType, bool)>;

/// The columns of a batch in order: name and values. A missing value counts as the value that the
/// column hands out in its place.
pub uninterp spec fn batch_columns(batch: Batch) -> Seq<(Seq<char>, ColumnValues)>;

/// The number of rows of a batch.
pub uninterp spec fn batch_rows(batch: Batch) -> nat;

/// The views of a sequence of columns.
pub open spec fn column_views(columns: Seq<ColumnData>) -> Seq<ColumnValues> {
    columns.map_values(|c: ColumnData| c@)
}

/// The views of a sequence of field descriptions.
pub open spec fn field_views(fields: Seq<(&str, ColumnType, bool)>) -> Seq<(
    Seq<char>,
    ColumnType,
    bool,
)> {
    fields.map_values(|f: (&str, ColumnType, bool)| (f.0@, f.1, f.2))
}

/// The number of bytes of the texts of `texts`.
pub open spec fn text_bytes(texts: Seq<Seq<char>>) -> nat
    decreases texts.len(),
{
    if texts.len() == 0 {
        0
    } else {
        text_bytes(texts.drop_last()) + encode_utf8(texts.last()).len()
    }
}

/// The number of bytes of the byte strings of `blobs`.
pub open spec fn blob_bytes(blobs: Seq<Seq<u8>>) -> nat
    decreases blobs.len(),
{
    if blobs.len() == 0 {
        0
    } else {
        blob_bytes(blobs.drop_last()) + blobs.last().len()
    }
}

impl ColumnValues {
    /// A column counts its bytes in 32 bits.
    pub open spec fn countable(self) -> bool {
        match self {
            ColumnValues::Text(v) => text_bytes(v) <= i32::MAX,
            ColumnValues::Binary(v) => blob_bytes(v) <= i32::MAX,
            _ => true,
        }
    }
}

/// `columns` can make a batch with the fields `fields`: there is a column, there are as many columns
/// as fields, each of the type of its field, and all are of the same length.
pub open spec fn columns_fit(
    fields: Seq<(Seq<char>, ColumnType, bool)>,
    columns: Seq<ColumnValues>,
) -> bool {
    &&& 0 < columns.len() == fields.len()
    &&& forall|i: int|
        0 <= i < columns.len() ==> (#[trigger] columns[i]).column_type() == fields[i].1
            && columns[i].rows() == columns[0].rows()
}

/// `columns` under the names of `fields`.
pub open spec fn named_columns(
    fields: Seq<(Seq<char>, ColumnType, bool)>,
    columns: Seq<ColumnValues>,
) -> Seq<(Seq<char>, ColumnValues)> {
    Seq::new(columns.len(), |i: int| (fields[i].0, columns[i]))
}

/// The place of the first column called `name`.
pub open spec fn column_named(columns: Seq<(Seq<char>, ColumnValues)>, name: Seq<char>) -> Option<int>
    decreases columns.len(),
{
    if columns.len() == 0 {
        None
    } else if columns[0].0 == name {
        Some(0)
    } else {
        match column_named(columns.drop_first(), name) {
            Some(i) => Some(i + 1),
            None => None,
        }
    }
}

/// `Schema::new` with `Field::new` makes the schema with the given fields, in the given order.
#[verifier::external_body]
fn new_schema(fields: &Vec<(&str, ColumnType, bool)>) -> (r: Schema)
    ensures
        schema_fields(r) == field_views(fields@),
{
    let field = |f: &(&str, ColumnType, bool)| {
        let data_type = match f.1 {
            ColumnType::Text => DataType::Utf8,
            ColumnType::Integer => DataType::Int64,
            ColumnType::Binary => DataType::Binary,
            ColumnType::Other => DataType::Null,
        };
        Field::new(f.0, data_type, f.2)
    };
    Schema::new(fields.iter().map(field).collect::<Vec<_>>())
}

/// `RecordBatch::try_new` makes a batch of columns that fit the schema, and of no others; it holds
/// them as they are. The columns are made by `StringArray::from`, `Int64Array::from` and
/// `BinaryArray::from_iter_values`, which panic on more bytes than 32 bits can count.
#[verifier::external_body]
fn new_batch(schema: &Arc<Schema>, columns: Vec<ColumnData>) -> (r: Result<Batch, ArrowError>)
    requires
        forall|i: int| 0 <= i < columns.len() ==> (#[trigger] columns@[i])@.countable(),
    ensures
        r is Ok <==> columns_fit(schema_fields(**schema), column_views(columns@)),
        r matches Ok(batch) ==> batch_columns(batch) == named_columns(
            schema_fields(**schema),
            column_views(columns@),
        ) && batch_rows(batch) == columns@[0]@.rows(),
{
    let array = |c: ColumnData| match c {
        ColumnData::Text(v) => Arc::new(StringArray::from(v)) as ArrayRef,
        ColumnData::Integer(v) => Arc::new(Int64Array::from(v)) as ArrayRef,
        ColumnData::Binary(v) => Arc::new(BinaryArray::from_iter_values(v)) as ArrayRef,
    };
    let table = RecordBatch::try_new(schema.clone(), columns.into_iter().map(array).collect())?;
    Ok(Batch { table })
}

/// `RecordBatch::num_columns` counts the columns.
#[verifier::external_body]
fn column_count(batch: &Batch) -> (n: usize)
    ensures
        n == batch_columns(*batch).len(),
{
    batch.table.num_columns()
}

/// `RecordBatch::num_rows` counts the rows.
#[verifier::external_body]
fn row_count(batch: &Batch) -> (n: usize)
    ensures
        n == batch_rows(*batch),
{
    batch.table.num_rows()
}

/// `Schema::index_of` on the schema of the batch finds the first column of a name.
#[verifier::external_body]
fn column_index(batch: &Batch, name: &str) -> (r: Option<usize>)
    ensures
        r matches Some(i) ==> i < batch_columns(*batch).len() && column_named(
            batch_columns(*batch),
            name@,
        ) == Some(i as int),
        r is None ==> column_named(batch_columns(*batch), name@) is None,
{
    batch.table.schema_ref().index_of(name).ok()
}

/// `RecordBatch::column` gives a column; it is a `StringArray`, an `Int64Array`, a `BinaryArray` or
/// an array of another type, and of the length of every column of the batch. `value` reads it.
#[verifier::external_body]
fn column_data(batch: &Batch, index: usize) -> (r: Option<ColumnData>)
    requires
        index < batch_columns(*batch).len(),
    ensures
        r is None <==> batch_columns(*batch)[index as int].1 is Other,
        r matches Some(data) ==> data@ == batch_columns(*batch)[index as int].1 && data@.rows()
            == batch_rows(*batch),
{
    let array = batch.table.column(index).as_any();
    if let Some(a) = array.downcast_ref::<StringArray>() {
        Some(ColumnData::Text((0..a.len()).map(|i| a.value(i).to_string()).collect()))
    } else if let Some(a) = array.downcast_ref::<Int64Array>() {
        Some(ColumnData::Integer((0..a.len()).map(|i| a.value(i)).collect()))
    } else {
        let a = array.downcast_ref::<BinaryArray>()?;
        Some(ColumnData::Binary((0..a.len()).map(|i| a.value(i).to_vec()).collect()))
    }
}

/// The fields of a page file.
pub open spec fn page_fields() -> Seq<(Seq<char>, ColumnType, bool)> {
    seq![
        ("url"@, ColumnType::Text, false),
        ("content_type"@, ColumnType::Text, false),
        ("retrieval_date"@, ColumnType::Text, false),
        ("crawl_time_ms"@, ColumnType::Integer, false),
        ("content_hash"@, ColumnType::Text, false),
        ("body"@, ColumnType::Binary, false),
        ("outbound_links"@, ColumnType::Text, false),
    ]
}

/// The schema of a page file.
pub fn parquet_schema() -> (r: Arc<Schema>)
    ensures
        schema_fields(*r) == page_fields(),
{
    let fields: Vec<(&str, ColumnType, bool)> = vec![
        ("url", ColumnType::Text, false),
        ("content_type", ColumnType::Text, false),
        ("retrieval_date", ColumnType::Text, false),
        ("crawl_time_ms", ColumnType::Integer, false),
        ("content_hash", ColumnType::Text, false),
        ("body", ColumnType::Binary, false),
        ("outbound_links", ColumnType::Text, false),
    ];
    assert(field_views(fields@) == page_fields());
    Arc::new(new_schema(&fields))
}

/// The links of a page as a page file holds them: one on each line.
pub open spec fn link_text(links: Seq<Seq<char>>) -> Seq<char> {
    text::joined(links, "\n"@)
}

/// The columns of a file that holds `rows`.
pub open spec fn page_columns(rows: Seq<records::RecordView>) -> Seq<ColumnValues> {
    seq![
        ColumnValues::Text(Seq::new(rows.len(), |i: int| rows[i].url)),
        ColumnValues::Text(Seq::new(rows.len(), |i: int| rows[i].content_type)),
        ColumnValues::Text(Seq::new(rows.len(), |i: int| rows[i].retrieval_date)),
        ColumnValues::Integer(Seq::new(rows.len(), |i: int| rows[i].crawl_time_ms)),
        ColumnValues::Text(Seq::new(rows.len(), |i: int| rows[i].content_hash)),
        ColumnValues::Binary(Seq::new(rows.len(), |i: int| rows[i].body)),
        ColumnValues::Text(Seq::new(rows.len(), |i: int| link_text(rows[i].outbound_links))),
    ]
}

/// Each column of a file that holds `rows` can count its bytes.
pub open spec fn rows_countable(rows: Seq<records::RecordView>) -> bool {
    forall|i: int| 0 <= i < 7 ==> (#[trigger] page_columns(rows)[i]).countable()
}

/// Why records make no batch.
#[derive(Clone, Copy, Debug, PartialEq, Eq, Structural)]
pub enum BatchError {
    /// The schema is not that of a page file.
    SchemaMismatch,
}

fn make_columns(rows: &Vec<PageRecord>) -> (r: Vec<ColumnData>)
    ensures
        column_views(r@) == page_columns(records::record_views(rows@)),
{
    let ghost views = records::record_views(rows@);
    let mut urls: Vec<String> = Vec::new();
    let mut content_types: Vec<String> = Vec::new();
    let mut retrieval_dates: Vec<String> = Vec::new();
    let mut crawl_times: Vec<i64> = Vec::new();
    let mut content_hashes: Vec<String> = Vec::new();
    let mut bodies: Vec<Vec<u8>> = Vec::new();
    let mut outbound_links: Vec<String> = Vec::new();
    let mut i: usize = 0;
    while i < rows.len()
        invariant
            i <= rows.len(),
            views == records::record_views(rows@),
            urls.deep_view() == Seq::new(i as nat, |k: int| views[k].url),
            content_types.deep_view() == Seq::new(i as nat, |k: int| views[k].content_type),
            retrieval_dates.deep_view() == Seq::new(i as nat, |k: int| views[k].retrieval_date),
            crawl_times@ == Seq::new(i as nat, |k: int| views[k].crawl_time_ms),
            content_hashes.deep_view() == Seq::new(i as nat, |k: int| views[k].content_hash),
            bodies.deep_view() == Seq::new(i as nat, |k: int| views[k].body),
            outbound_links.deep_view() == Seq::new(
                i as nat,
                |k: int| link_text(views[k].outbound_links),
            ),
        decreases rows.len() - i,
    {
        let row = &rows[i];
        assert(views[i as int] == row@);
        let ghost urls_before = urls.deep_view();
        let ghost types_before = content_types.deep_view();
        let ghost dates_before = retrieval_dates.deep_view();
        let ghost hashes_before = content_hashes.deep_view();
        let ghost bodies_before = bodies.deep_view();
        let ghost links_before = outbound_links.deep_view();
        urls.push(row.url.clone());
        content_types.push(row.content_type.clone());
        retrieval_dates.push(row.retrieval_date.clone());
        crawl_times.push(row.crawl_time_ms);
        content_hashes.push(row.content_hash.clone());
        let body = row.body.clone();
        assert(body.deep_view() == row.body@);
        bodies.push(body);
        outbound_links.push(text::join(&row.outbound_links, "\n"));
        assert(urls.deep_view() == urls_before.push(row.url@));
        assert(content_types.deep_view() == types_before.push(row.content_type@));
        assert(retrieval_dates.deep_view() == dates_before.push(row.retrieval_date@));
        assert(content_hashes.deep_view() == hashes_before.push(row.content_hash@));
        assert(bodies.deep_view() == bodies_before.push(row.body@));
        assert(outbound_links.deep_view() == links_before.push(
            link_text(row.outbound_links.deep_view()),
        ));
        i = i + 1;
    }
    let r: Vec<ColumnData> = vec![
        ColumnData::Text(urls),
        ColumnData::Text(content_types),
        ColumnData::Text(retrieval_dates),
        ColumnData::Integer(crawl_times),
        ColumnData::Text(content_hashes),
        ColumnData::Binary(bodies),
        ColumnData::Text(outbound_links),
    ];
    assert(column_views(r@) == page_columns(views));
    r
}

/// The batch that holds `rows`: one column for each field of a page file. It is refused where
/// `schema` is not that of a page file.
pub fn records_to_batch(schema: &Arc<Schema>, rows: &Vec<PageRecord>) -> (r: Result<
    Batch,
    BatchError,
>)
    requires
        rows_countable(records::record_views(rows@)),
    ensures
        r is Ok <==> columns_fit(
            schema_fields(**schema),
            page_columns(records::record_views(rows@)),
        ),
        r matches Ok(batch) ==> batch_columns(batch) == named_columns(
            schema_fields(**schema),
            page_columns(records::record_views(rows@)),
        ) && batch_rows(batch) == rows.len(),
        r matches Err(e) ==> e == BatchError::SchemaMismatch,
{
    let columns = make_columns(rows);
    let ghost views = column_views(columns@);
    assert(columns.len() == views.len() == page_columns(records::record_views(rows@)).len() == 7);
    assert forall|i: int| 0 <= i < columns.len() implies (#[trigger] columns@[i])@.countable() by {
        assert(views[i] == columns@[i]@);
        assert(page_columns(records::record_views(rows@))[i].countable());
    }
    assert(views[0] == columns@[0]@);
    match new_batch(schema, columns) {
        Ok(batch) => Ok(batch),
        Err(_) => Err(BatchError::SchemaMismatch),
    }
}

proof fn lemma_text_bytes_prefix(texts: Seq<Seq<char>>, n: int)
    requires
        0 <= n <= texts.len(),
    ensures
        text_bytes(texts.take(n)) <= text_bytes(texts),
    decreases texts.len(),
{
    if n < texts.len() {
        assert(texts.drop_last().take(n) == texts.take(n));
        lemma_text_bytes_prefix(texts.drop_last(), n);
    } else {
        assert(texts.take(n) == texts);
    }
}

proof fn lemma_blob_bytes_prefix(blobs: Seq<Seq<u8>>, n: int)
    requires
        0 <= n <= blobs.len(),
    ensures
        blob_bytes(blobs.take(n)) <= blob_bytes(blobs),
    decreases blobs.len(),
{
    if n < blobs.len() {
        assert(blobs.drop_last().take(n) == blobs.take(n));
        lemma_blob_bytes_prefix(blobs.drop_last(), n);
    } else {
        assert(blobs.take(n) == blobs);
    }
}

fn texts_countable(texts: &Vec<String>) -> (r: bool)
    ensures
        r == (text_bytes(texts.deep_view()) <= i32::MAX),
{
    let ghost views = texts.deep_view();
    let limit: usize = 0x7fff_ffff;
    let mut total: usize = 0;
    let mut i: usize = 0;
    while i < texts.len()
        invariant
            i <= texts.len(),
            views == texts.deep_view(),
            total <= limit == i32::MAX,
            total == text_bytes(views.take(i as int)),
        decreases texts.len() - i,
    {
        assert(views.take(i + 1).drop_last() == views.take(i as int));
        assert(views.take(i + 1).last() == texts@[i as int]@);
        let n = texts[i].as_str().as_bytes().len();
        if n > limit - total {
            proof {
                lemma_text_bytes_prefix(views, i + 1);
            }
            return false;
        }
        total = total + n;
        i = i + 1;
    }
    assert(views.take(texts.len() as int) == views);
    true
}

fn blobs_countable(blobs: &Vec<Vec<u8>>) -> (r: bool)
    ensures
        r == (blob_bytes(blobs.deep_view()) <= i32::MAX),
{
    let ghost views = blobs.deep_view();
    let limit: usize = 0x7fff_ffff;
    let mut total: usize = 0;
    let mut i: usize = 0;
    while i < blobs.len()
        invariant
            i <= blobs.len(),
            views == blobs.deep_view(),
            total <= limit == i32::MAX,
            total == blob_bytes(views.take(i as int)),
        decreases blobs.len() - i,
    {
        assert(views.take(i + 1).drop_last() == views.take(i as int));
        assert(views.take(i + 1).last().len() == blobs@[i as int].len());
        let n = blobs[i].len();
        if n > limit - total {
            proof {
                lemma_blob_bytes_prefix(views, i + 1);
            }
            return false;
        }
        total = total + n;
        i = i + 1;
    }
    assert(views.take(blobs.len() as int) == views);
    true
}

/// Whether each column of a file that holds `rows` can count its bytes.
pub fn records_fit(rows: &Vec<PageRecord>) -> (r: bool)
    ensures
        r == rows_countable(records::record_views(rows@)),
{
    let columns = make_columns(rows);
    let ghost views = column_views(columns@);
    assert(views == page_columns(records::record_views(rows@)));
    assert(columns.len() == views.len() == 7);
    let mut i: usize = 0;
    while i < columns.len()
        invariant
            i <= columns.len() == 7,
            views == column_views(columns@),
            views == page_columns(records::record_views(rows@)),
            forall|k: int| 0 <= k < i ==> (#[trigger] views[k]).countable(),
        decreases columns.len() - i,
    {
        assert(views[i as int] == columns@[i as int]@);
        let countable = match &columns[i] {
            ColumnData::Text(texts) => texts_countable(texts),
            ColumnData::Integer(_) => true,
            ColumnData::Binary(blobs) => blobs_countable(blobs),
        };
        if !countable {
            assert(!views[i as int].countable());
            return false;
        }
        i = i + 1;
    }
    true
}

/// The texts of a column of texts.
pub open spec fn texts_in(column: ColumnValues) -> Seq<Seq<char>> {
    match column {
        ColumnValues::Text(v) => v,
        _ => seq![],
    }
}

/// The integers of a column of integers.
pub open spec fn integers_in(column: ColumnValues) -> Seq<i64> {
    match column {
        ColumnValues::Integer(v) => v,
        _ => seq![],
    }
}

/// The byte strings of a column of byte strings.
pub open spec fn blobs_in(column: ColumnValues) -> Seq<Seq<u8>> {
    match column {
        ColumnValues::Binary(v) => v,
        _ => seq![],
    }
}

/// The column of links can be read: there is none, or it is one of texts.
pub open spec fn links_readable(columns: Seq<(Seq<char>, ColumnValues)>) -> bool {
    match column_named(columns, "outbound_links"@) {
        Some(i) => columns[i].1 is Text,
        None => true,
    }
}

/// The links of the page in row `row`: one on each line; none where there is no column of links.
pub open spec fn links_in_row(columns: Seq<(Seq<char>, ColumnValues)>, row: int) -> Seq<Seq<char>> {
    match column_named(columns, "outbound_links"@) {
        Some(i) => text::lines_of(texts_in(columns[i].1)[row]),
        None => seq![],
    }
}

/// The first six columns are of the types of a page file, and the column of links can be read.
pub open spec fn holds_records(columns: Seq<(Seq<char>, ColumnValues)>) -> bool {
    &&& columns.len() >= 6
    &&& columns[0].1 is Text
    &&& columns[1].1 is Text
    &&& columns[2].1 is Text
    &&& columns[3].1 is Integer
    &&& columns[4].1 is Text
    &&& columns[5].1 is Binary
    &&& links_readable(columns)
}

/// The record in row `row`.
pub open spec fn record_in_row(columns: Seq<(Seq<char>, ColumnValues)>, row: int) -> records::RecordView {
    records::RecordView {
        url: texts_in(columns[0].1)[row],
        content_type: texts_in(columns[1].1)[row],
        retrieval_date: texts_in(columns[2].1)[row],
        crawl_time_ms: integers_in(columns[3].1)[row],
        content_hash: texts_in(columns[4].1)[row],
        body: blobs_in(columns[5].1)[row],
        outbound_links: links_in_row(columns, row),
    }
}

/// The records of a batch.
pub open spec fn records_in(columns: Seq<(Seq<char>, ColumnValues)>, rows: nat) -> Seq<records::RecordView> {
    Seq::new(rows, |i: int| record_in_row(columns, i))
}

fn texts_of(batch: &Batch, index: usize) -> (r: Option<Vec<String>>)
    requires
        index < batch_columns(*batch).len(),
    ensures
        r is Some <==> batch_columns(*batch)[index as int].1 is Text,
        r matches Some(v) ==> v.deep_view() == texts_in(batch_columns(*batch)[index as int].1)
            && v.len() == batch_rows(*batch),
{
    match column_data(batch, index) {
        Some(ColumnData::Text(v)) => Some(v),
        _ => None,
    }
}

fn integers_of(batch: &Batch, index: usize) -> (r: Option<Vec<i64>>)
    requires
        index < batch_columns(*batch).len(),
    ensures
        r is Some <==> batch_columns(*batch)[index as int].1 is Integer,
        r matches Some(v) ==> v@ == integers_in(batch_columns(*batch)[index as int].1) && v.len()
            == batch_rows(*batch),
{
    match column_data(batch, index) {
        Some(ColumnData::Integer(v)) => Some(v),
        _ => None,
    }
}

fn blobs_of(batch: &Batch, index: usize) -> (r: Option<Vec<Vec<u8>>>)
    requires
        index < batch_columns(*batch).len(),
    ensures
        r is Some <==> batch_columns(*batch)[index as int].1 is Binary,
        r matches Some(v) ==> v.deep_view() == blobs_in(batch_columns(*batch)[index as int].1)
            && v.len() == batch_rows(*batch),
{
    match column_data(batch, index) {
        Some(ColumnData::Binary(v)) => Some(v),
        _ => None,
    }
}

/// The lines of the links of each row; nothing where the column of links cannot be read.
fn links_of(batch: &Batch) -> (r: Option<Vec<Vec<String>>>)
    ensures
        r is Some <==> links_readable(batch_columns(*batch)),
        r matches Some(v) ==> v.len() == batch_rows(*batch) && forall|i: int|
            0 <= i < v.len() ==> (#[trigger] v@[i]).deep_view() == links_in_row(
                batch_columns(*batch),
                i,
            ),
{
    let ghost columns = batch_columns(*batch);
    let mut r: Vec<Vec<String>> = Vec::new();
    match column_index(batch, "outbound_links") {
        Some(index) => match texts_of(batch, index) {
            Some(texts) => {
                let mut i: usize = 0;
                while i < texts.len()
                    invariant
                        i <= texts.len(),
                        r.len() == i,
                        columns == batch_columns(*batch),
                        index < columns.len(),
                        column_named(columns, "outbound_links"@) == Some(index as int),
                        texts.deep_view() == texts_in(columns[index as int].1),
                        forall|k: int|
                            0 <= k < r.len() ==> (#[trigger] r@[k]).deep_view() == links_in_row(
                                columns,
                                k,
                            ),
                    decreases texts.len() - i,
                {
                    assert(texts.deep_view()[i as int] == texts@[i as int]@);
                    r.push(text::lines(texts[i].as_str()));
                    i = i + 1;
                }
                Some(r)
            },
            None => None,
        },
        None => {
            let rows: usize = row_count(batch);
            let mut i: usize = 0;
            while i < rows
                invariant
                    i <= rows == batch_rows(*batch),
                    r.len() == i,
                    columns == batch_columns(*batch),
                    column_named(columns, "outbound_links"@) is None,
                    forall|k: int|
                        0 <= k < r.len() ==> (#[trigger] r@[k]).deep_view() == links_in_row(
                            columns,
                            k,
                        ),
                decreases rows - i,
            {
                let none: Vec<String> = Vec::new();
                assert(none.deep_view() == Seq::<Seq<char>>::empty());
                r.push(none);
                i = i + 1;
            }
            Some(r)
        },
    }
}

/// The records that a batch of a page file holds; nothing where it is no batch of a page file.
pub fn records_from_batch(batch: &Batch) -> (r: Option<Vec<PageRecord>>)
    ensures
        r is Some <==> holds_records(batch_columns(*batch)),
        r matches Some(rows) ==> records::record_views(rows@) == records_in(
            batch_columns(*batch),
            batch_rows(*batch),
        ),
{
    let ghost columns = batch_columns(*batch);
    if column_count(batch) < 6 {
        return None;
    }
    match (
        texts_of(batch, 0),
        texts_of(batch, 1),
        texts_of(batch, 2),
        integers_of(batch, 3),
        texts_of(batch, 4),
        blobs_of(batch, 5),
        links_of(batch),
    ) {
        (
            Some(urls),
            Some(content_types),
            Some(retrieval_dates),
            Some(crawl_times),
            Some(content_hashes),
            Some(bodies),
            Some(links),
        ) => {
            let mut rows: Vec<PageRecord> = Vec::new();
            for outbound_links in it: links
                invariant
                    it.seq() == links@,
                    columns == batch_columns(*batch),
                    links.len() == batch_rows(*batch),
                    urls.len() == content_types.len() == retrieval_dates.len() == crawl_times.len()
                        == content_hashes.len() == bodies.len() == links.len(),
                    urls.deep_view() == texts_in(columns[0].1),
                    content_types.deep_view() == texts_in(columns[1].1),
                    retrieval_dates.deep_view() == texts_in(columns[2].1),
                    crawl_times@ == integers_in(columns[3].1),
                    content_hashes.deep_view() == texts_in(columns[4].1),
                    bodies.deep_view() == blobs_in(columns[5].1),
                    forall|i: int|
                        0 <= i < links.len() ==> (#[trigger] links@[i]).deep_view() == links_in_row(
                            columns,
                            i,
                        ),
                    rows.len() == it.index(),
                    forall|k: int|
                        0 <= k < rows.len() ==> (#[trigger] rows@[k])@ == record_in_row(columns, k),
            {
                let i: usize = rows.len();
                let body = bodies[i].clone();
                assert(body@ == bodies@[i as int]@);
                assert(bodies.deep_view()[i as int] == body@);
                let row = PageRecord {
                    url: urls[i].clone(),
                    content_type: content_types[i].clone(),
                    retrieval_date: retrieval_dates[i].clone(),
                    crawl_time_ms: crawl_times[i],
                    content_hash: content_hashes[i].clone(),
                    body,
                    outbound_links,
                };
                assert(row@ == record_in_row(columns, i as int));
                rows.push(row);
            }
            assert(records::record_views(rows@) == records_in(columns, batch_rows(*batch)));
            Some(rows)
        },
        _ => None,
    }
}

/// What the index is made of: a page and where it leads.
pub struct ParquetRow {
    pub url: String,
    pub body: Vec<u8>,
    pub outbound_links: Vec<String>,
}

/// A row as mathematics.
#[verifier::ext_equal]
pub struct RowView {
    pub url: Seq<char>,
    pub body: Seq<u8>,
    pub outbound_links: Seq<Seq<char>>,
}

impl View for ParquetRow {
    type V = RowView;

    open spec fn view(&self) -> RowView {
        RowView {
            url: self.url@,
            body: self.body@,
            outbound_links: self.outbound_links.deep_view(),
        }
    }
}

/// The views of a sequence of rows.
pub open spec fn row_views(rows: Seq<ParquetRow>) -> Seq<RowView> {
    rows.map_values(|r: ParquetRow| r@)
}

/// Why a batch gives no rows.
#[derive(Clone, Copy, Debug, PartialEq, Eq, Structural)]
pub enum RowError {
    /// There is no column `url` or no column `body`.
    MissingColumn,
    /// A column of addresses or links holds no texts, or the one of bodies no bytes.
    WrongType,
}

/// There is a column `url` and a column `body`.
pub open spec fn has_row_columns(columns: Seq<(Seq<char>, ColumnValues)>) -> bool {
    column_named(columns, "url"@) is Some && column_named(columns, "body"@) is Some
}

/// The columns that rows are read from are of the right types.
pub open spec fn rows_readable(columns: Seq<(Seq<char>, ColumnValues)>) -> bool {
    &&& columns[column_named(columns, "url"@)->0].1 is Text
    &&& columns[column_named(columns, "body"@)->0].1 is Binary
    &&& links_readable(columns)
}

/// The row `row`.
pub open spec fn row_in(columns: Seq<(Seq<char>, ColumnValues)>, row: int) -> RowView {
    RowView {
        url: texts_in(columns[column_named(columns, "url"@)->0].1)[row],
        body: blobs_in(columns[column_named(columns, "body"@)->0].1)[row],
        outbound_links: links_in_row(columns, row),
    }
}

/// The rows of a batch. They are found by the names of their columns, wherever those stand.
pub fn rows_from_batch(batch: &Batch) -> (r: Result<Vec<ParquetRow>, RowError>)
    ensures
        r matches Ok(rows) ==> row_views(rows@) == Seq::new(
            batch_rows(*batch),
            |i: int| row_in(batch_columns(*batch), i),
        ),
        r is Ok <==> has_row_columns(batch_columns(*batch)) && rows_readable(
            batch_columns(*batch),
        ),
        r matches Err(e) ==> e == if has_row_columns(batch_columns(*batch)) {
            RowError::WrongType
        } else {
            RowError::MissingColumn
        },
{
    let ghost columns = batch_columns(*batch);
    let url_index = match column_index(batch, "url") {
        Some(i) => i,
        None => {
            return Err(RowError::MissingColumn);
        },
    };
    let body_index = match column_index(batch, "body") {
        Some(i) => i,
        None => {
            return Err(RowError::MissingColumn);
        },
    };
    match (texts_of(batch, url_index), blobs_of(batch, body_index), links_of(batch)) {
        (Some(urls), Some(bodies), Some(links)) => {
            let mut rows: Vec<ParquetRow> = Vec::new();
            for outbound_links in it: links
                invariant
                    it.seq() == links@,
                    columns == batch_columns(*batch),
                    urls.len() == bodies.len() == links.len() == batch_rows(*batch),
                    column_named(columns, "url"@) == Some(url_index as int),
                    column_named(columns, "body"@) == Some(body_index as int),
                    urls.deep_view() == texts_in(columns[url_index as int].1),
                    bodies.deep_view() == blobs_in(columns[body_index as int].1),
                    forall|i: int|
                        0 <= i < links.len() ==> (#[trigger] links@[i]).deep_view() == links_in_row(
                            columns,
                            i,
                        ),
                    rows.len() == it.index(),
                    forall|k: int| 0 <= k < rows.len() ==> (#[trigger] rows@[k])@ == row_in(columns, k),
            {
                let i: usize = rows.len();
                let body = bodies[i].clone();
                assert(body@ == bodies@[i as int]@);
                assert(bodies.deep_view()[i as int] == body@);
                let row = ParquetRow { url: urls[i].clone(), body, outbound_links };
                assert(row@ == row_in(columns, i as int));
                rows.push(row);
            }
            assert(row_views(rows@) == Seq::new(
                batch_rows(*batch),
                |i: int| row_in(columns, i),
            ));
            Ok(rows)
        },
        _ => Err(RowError::WrongType),
    }
}

/// The links of each of `rows` can be told apart in a page file.
pub open spec fn links_separable(rows: Seq<records::RecordView>) -> bool {
    forall|i: int|
        0 <= i < rows.len() ==> text::separate_lines((#[trigger] rows[i]).outbound_links)
}

proof fn lemma_page_column_names(columns: Seq<ColumnValues>)
    requires
        columns.len() == 7,
    ensures
        column_named(named_columns(page_fields(), columns), "url"@) == Some(0int),
        column_named(named_columns(page_fields(), columns), "body"@) == Some(5int),
        column_named(named_columns(page_fields(), columns), "outbound_links"@) == Some(6int),
{
    reveal_strlit("url");
    reveal_strlit("content_type");
    reveal_strlit("retrieval_date");
    reveal_strlit("crawl_time_ms");
    reveal_strlit("content_hash");
    reveal_strlit("body");
    reveal_strlit("outbound_links");
    reveal_with_fuel(column_named, 8);
    let all = named_columns(page_fields(), columns);
    assert(all[0].0.len() == 3 && all[5].0 == "body"@);
    assert("body"@.len() == 4);
    assert(all[1].0.len() == 12 && all[2].0.len() == 14 && all[3].0.len() == 13 && all[4].0.len()
        == 12);
    assert(all[2].0[0] == 'r' && all[6].0[0] == 'o');
}

/// Records that are put into a batch of a page file are read back from it as they were, and the
/// index reads the same addresses, bodies and links.
pub proof fn lemma_records_are_read_back(rows: Seq<records::RecordView>)
    requires
        links_separable(rows),
    ensures
        columns_fit(page_fields(), page_columns(rows)),
        holds_records(named_columns(page_fields(), page_columns(rows))),
        records_in(named_columns(page_fields(), page_columns(rows)), rows.len()) == rows,
        has_row_columns(named_columns(page_fields(), page_columns(rows))),
        rows_readable(named_columns(page_fields(), page_columns(rows))),
        forall|i: int|
            0 <= i < rows.len() ==> #[trigger] row_in(
                named_columns(page_fields(), page_columns(rows)),
                i,
            ) == (RowView {
                url: rows[i].url,
                body: rows[i].body,
                outbound_links: rows[i].outbound_links,
            }),
{
    let columns = page_columns(rows);
    let all = named_columns(page_fields(), columns);
    lemma_page_column_names(columns);
    assert forall|i: int| 0 <= i < rows.len() implies links_in_row(all, i)
        == rows[i].outbound_links by {
        text::lemma_lines_of_joined(rows[i].outbound_links);
    }
    assert forall|i: int| 0 <= i < rows.len() implies record_in_row(all, i) == rows[i] by {}
    assert(records_in(all, rows.len()) == rows);
}

/// A column is found by its name: the first one of that name, and none where no column has it.
pub proof fn lemma_column_named(columns: Seq<(Seq<char>, ColumnValues)>, name: Seq<char>)
    ensures
        forall|i: int|
            #![trigger columns[i]]
            0 <= i < columns.len() && columns[i].0 == name && (forall|j: int|
                0 <= j < i ==> (#[trigger] columns[j]).0 != name) ==> column_named(columns, name)
                == Some(i),
        (forall|i: int| 0 <= i < columns.len() ==> (#[trigger] columns[i]).0 != name)
            ==> column_named(columns, name) is None,
    decreases columns.len(),
{
    if columns.len() > 0 {
        let rest = columns.drop_first();
        lemma_column_named(rest, name);
        assert forall|i: int|
            #![trigger columns[i]]
            0 <= i < columns.len() && columns[i].0 == name && (forall|j: int|
                0 <= j < i ==> (#[trigger] columns[j]).0 != name) implies column_named(columns, name)
            == Some(i) by {
            if i > 0 {
                assert(columns[0].0 != name);
                assert(rest[i - 1] == columns[i]);
                assert forall|j: int| 0 <= j < i - 1 implies (#[trigger] rest[j]).0 != name by {
                    assert(rest[j] == columns[j + 1]);
                }
            }
        }
        if forall|i: int| 0 <= i < columns.len() ==> (#[trigger] columns[i]).0 != name {
            assert(columns[0].0 != name);
            assert forall|i: int| 0 <= i < rest.len() implies (#[trigger] rest[i]).0 != name by {
                assert(rest[i] == columns[i + 1]);
            }
        }
    }
}

/// What a page file holds: seven columns, none of which may miss a value, and in the row of each
/// record its address, type, date, time, digest, body and links, the links one on each line.
pub proof fn lemma_page_file(rows: Seq<records::RecordView>, i: int)
    requires
        0 <= i < rows.len(),
    ensures
        page_fields().map_values(|f: (Seq<char>, ColumnType, bool)| f.0) == seq![
            "url"@,
            "content_type"@,
            "retrieval_date"@,
            "crawl_time_ms"@,
            "content_hash"@,
            "body"@,
            "outbound_links"@,
        ],
        forall|k: int| 0 <= k < page_fields().len() ==> !(#[trigger] page_fields()[k]).2,
        columns_fit(page_fields(), page_columns(rows)),
        forall|k: int| 0 <= k < 7 ==> (#[trigger] page_columns(rows)[k]).rows() == rows.len(),
        page_columns(rows)[0] matches ColumnValues::Text(v) && v[i] == rows[i].url,
        page_columns(rows)[1] matches ColumnValues::Text(v) && v[i] == rows[i].content_type,
        page_columns(rows)[2] matches ColumnValues::Text(v) && v[i] == rows[i].retrieval_date,
        page_columns(rows)[3] matches ColumnValues::Integer(v) && v[i] == rows[i].crawl_time_ms,
        page_columns(rows)[4] matches ColumnValues::Text(v) && v[i] == rows[i].content_hash,
        page_columns(rows)[5] matches ColumnValues::Binary(v) && v[i] == rows[i].body,
        page_columns(rows)[6] matches ColumnValues::Text(v) && v[i] == text::joined(
            rows[i].outbound_links,
            seq!['\n'],
        ),
{
    reveal_strlit("\n");
    assert("\n"@ == seq!['\n']);
}

/// The records of a batch are read from its first six columns, and their links from the column of
/// that name, wherever it stands; without such a column a page has no links.
pub proof fn lemma_record_in_row(columns: Seq<(Seq<char>, ColumnValues)>, row: int)
    requires
        holds_records(columns),
    ensures
        columns.len() >= 6,
        columns[0].1 matches ColumnValues::Text(v) && record_in_row(columns, row).url == v[row],
        columns[1].1 matches ColumnValues::Text(v) && record_in_row(columns, row).content_type
            == v[row],
        columns[2].1 matches ColumnValues::Text(v) && record_in_row(columns, row).retrieval_date
            == v[row],
        columns[3].1 matches ColumnValues::Integer(v) && record_in_row(columns, row).crawl_time_ms
            == v[row],
        columns[4].1 matches ColumnValues::Text(v) && record_in_row(columns, row).content_hash
            == v[row],
        columns[5].1 matches ColumnValues::Binary(v) && record_in_row(columns, row).body == v[row],
        column_named(columns, "outbound_links"@) matches Some(k) ==> (
        columns[k].1 matches ColumnValues::Text(v) && record_in_row(columns, row).outbound_links
            == text::lines_of(v[row])),
        column_named(columns, "outbound_links"@) is None ==> record_in_row(
            columns,
            row,
        ).outbound_links.len() == 0,
{
}

/// A batch holds records where its first six columns are of the types of a page file and a column
/// of links, where there is one, holds texts.
pub proof fn lemma_holds_records(columns: Seq<(Seq<char>, ColumnValues)>)
    ensures
        holds_records(columns) <==> {
            &&& columns.len() >= 6
            &&& forall|k: int|
                0 <= k < 6 ==> (#[trigger] columns[k]).1.column_type() == page_fields()[k].1
            &&& column_named(columns, "outbound_links"@) matches Some(k) ==> columns[k].1 is Text
        },
{
    if holds_records(columns) {
        assert forall|k: int| 0 <= k < 6 implies (#[trigger] columns[k]).1.column_type()
            == page_fields()[k].1 by {}
    }
    if columns.len() >= 6 && forall|k: int|
        0 <= k < 6 ==> (#[trigger] columns[k]).1.column_type() == page_fields()[k].1 {
        assert(columns[0].1.column_type() == ColumnType::Text);
        assert(columns[1].1.column_type() == ColumnType::Text);
        assert(columns[2].1.column_type() == ColumnType::Text);
        assert(columns[3].1.column_type() == ColumnType::Integer);
        assert(columns[4].1.column_type() == ColumnType::Text);
        assert(columns[5].1.column_type() == ColumnType::Binary);
    }
}

/// The rows that the index is made of are read by the names of their columns alone: the address from
/// the column of addresses, the body from that of bodies, and the links, one on each line, from that
/// of links, without which a page has none.
pub proof fn lemma_row_in(columns: Seq<(Seq<char>, ColumnValues)>, row: int)
    requires
        has_row_columns(columns),
        rows_readable(columns),
    ensures
        column_named(columns, "url"@) matches Some(k) && columns[k].1 matches ColumnValues::Text(v)
            && row_in(columns, row).url == v[row],
        column_named(columns, "body"@) matches Some(k)
            && columns[k].1 matches ColumnValues::Binary(v) && row_in(columns, row).body == v[row],
        column_named(columns, "outbound_links"@) matches Some(k) ==> (
        columns[k].1 matches ColumnValues::Text(v) && row_in(columns, row).outbound_links
            == text::lines_of(v[row])),
        column_named(columns, "outbound_links"@) is None ==> row_in(
            columns,
            row,
        ).outbound_links.len() == 0,
{
}

/// Rows can be read where there are columns of addresses and of bodies of the right types, and no
/// column of links of another type than text.
pub proof fn lemma_rows_readable(columns: Seq<(Seq<char>, ColumnValues)>)
    ensures
        has_row_columns(columns) && rows_readable(columns) <==> {
            &&& column_named(columns, "url"@) matches Some(k) && columns[k].1 is Text
            &&& column_named(columns, "body"@) matches Some(k) && columns[k].1 is Binary
            &&& column_named(columns, "outbound_links"@) matches Some(k) ==> columns[k].1 is Text
        },
        has_row_columns(columns) <==> column_named(columns, "url"@) is Some && column_named(
            columns,
            "body"@,
        ) is Some,
{
}

/// A column counts all bytes of all its values.
pub proof fn lemma_column_bytes(texts: Seq<Seq<char>>, blobs: Seq<Seq<u8>>)
    ensures
        text_bytes(texts) == texts.map_values(|t: Seq<char>| encode_utf8(t)).flatten().len(),
        blob_bytes(blobs) == blobs.flatten().len(),
        ColumnValues::Text(texts).countable() <==> text_bytes(texts) < 0x8000_0000,
        ColumnValues::Binary(blobs).countable() <==> blob_bytes(blobs) < 0x8000_0000,
    decreases texts.len() + blobs.len(),
{
    let bytes = |t: Seq<char>| encode_utf8(t);
    if texts.len() > 0 {
        let front = texts.drop_last();
        lemma_column_bytes(front, blobs);
        front.map_values(bytes).lemma_flatten_push(bytes(texts.last()));
        assert(texts.map_values(bytes) == front.map_values(bytes).push(bytes(texts.last())));
    } else if blobs.len() > 0 {
        let front = blobs.drop_last();
        lemma_column_bytes(texts, front);
        front.lemma_flatten_push(blobs.last());
        assert(blobs == front.push(blobs.last()));
    }
}

/// A row is seen with everything that it holds.
pub proof fn lemma_row_views(rows: Seq<ParquetRow>, i: int)
    requires
        0 <= i < rows.len(),
    ensures
        row_views(rows).len() == rows.len(),
        row_views(rows)[i].url == rows[i].url@,
        row_views(rows)[i].body == rows[i].body@,
        row_views(rows)[i].outbound_links == rows[i].outbound_links.deep_view(),
{
}

/// The values of a column are seen in their order.
pub proof fn lemma_column_views(columns: Seq<ColumnData>, i: int)
    requires
        0 <= i < columns.len(),
    ensures
        column_views(columns).len() == columns.len(),
        columns[i] matches ColumnData::Text(v) ==> column_views(columns)[i] == ColumnValues::Text(
            v.deep_view(),
        ),
        columns[i] matches ColumnData::Integer(v) ==> column_views(columns)[i]
            == ColumnValues::Integer(v@),
        columns[i] matches ColumnData::Binary(v) ==> column_views(columns)[i]
            == ColumnValues::Binary(v.deep_view()),
{
}

/// Records fit into a page file where each of its columns can count its bytes.
pub proof fn lemma_rows_countable(rows: Seq<records::RecordView>)
    ensures
        rows_countable(rows) <==> {
            &&& page_columns(rows)[0].countable() && page_columns(rows)[1].countable()
            &&& page_columns(rows)[2].countable() && page_columns(rows)[3].countable()
            &&& page_columns(rows)[4].countable() && page_columns(rows)[5].countable()
            &&& page_columns(rows)[6].countable()
        },
{
}

} // verus!
