use arrow::array::{
    Array, ArrayRef, Decimal128Array, Decimal256Array, DictionaryArray, Int32Array, RecordBatch,
    RunArray, StringArray, StructArray, TimestampMillisecondArray, TimestampSecondArray,
};
use arrow::datatypes::{i256, DataType, Field, Fields, Int32Type, Schema};
use gpfdist_rs::df_engine::{
    batch_to_csv, create_frame, is_writable, next_chunk, report_written, BatchOutcome, DFEngine, DFRequest,
    DirEntry, OldStream, SourcePlan, Stage, TableType, Transform,
};
use gpfdist_rs::order::{not_after, sort_texts};
use gpfdist_rs::outside::Batch;
use std::sync::Arc;

fn texts(items: &[&str]) -> Vec<String> {
    items.iter().map(|s| s.to_string()).collect()
}

fn request() -> DFRequest {
    DFRequest {
        table_type: TableType::Parquet,
        uri: "/data".to_string(),
        file_list: None,
        projection: None,
        filter: None,
        limit: None,
        segment_id: None,
        segment_count: None,
        gp_proto: 1,
        table_name: None,
    }
}

fn entry(path: &str, is_file: bool) -> DirEntry {
    DirEntry { path: Some(path.to_string()), is_file }
}

#[test]
fn sql_is_built() {
    let engine = DFEngine::new();
    assert_eq!(engine.build_sql("t", None, None, None), "SELECT * FROM t");
    let cols = texts(&["id", "name"]);
    assert_eq!(
        engine.build_sql("t", Some(&cols), Some("id > 10"), Some(100)),
        "SELECT id, name FROM t WHERE id > 10 LIMIT 100"
    );
    assert_eq!(DFEngine::default().build_sql("t", Some(&[]), None, Some(0)), "SELECT  FROM t LIMIT 0");
}

#[test]
fn segments_share_the_files() {
    let engine = DFEngine::new();
    let files = texts(&["f0", "f1", "f2", "f3", "f4"]);
    assert_eq!(engine.apply_segmentation(&files, Some(0), Some(2)), texts(&["f0", "f2", "f4"]));
    assert_eq!(engine.apply_segmentation(&files, Some(1), Some(2)), texts(&["f1", "f3"]));
    assert_eq!(engine.apply_segmentation(&files, Some(2), Some(2)), texts(&[]));
    assert_eq!(engine.apply_segmentation(&files, None, Some(2)), files);
    assert_eq!(engine.apply_segmentation(&files, Some(1), None), files);
    assert_eq!(engine.apply_segmentation(&files, Some(0), Some(0)), files);
    let mut union = Vec::new();
    for id in 0..3 {
        let mine = engine.apply_segmentation(&files, Some(id), Some(3));
        for (k, file) in mine.iter().enumerate() {
            assert_eq!(file, &files[id + 3 * k]);
        }
        union.extend(mine);
    }
    union.sort();
    assert_eq!(union, files);
}

#[test]
fn texts_are_sorted() {
    assert!(not_after("a", "a"));
    assert!(not_after("a", "ab"));
    assert!(!not_after("ab", "a"));
    let names = texts(&["b", "\u{ff5e}", "a/2", "a/10", "", "\u{1f600}", "\u{e9}", "Z", "b", "a"]);
    let mut expected = names.clone();
    expected.sort();
    assert_eq!(sort_texts(names), expected);
}

#[test]
fn a_directory_is_read_in_order() {
    let engine = DFEngine::new();
    let mut q = request();
    assert!(engine.needs_listing(&q));
    let listing = || {
        vec![
            entry("/data/c.parquet", true),
            entry("/data/a.parquet", true),
            entry("/data/d.parquet", false),
            entry("/data/b.csv", true),
            DirEntry { path: None, is_file: true },
            entry("/data/b.parquet", true),
        ]
    };
    let all = texts(&["/data/a.parquet", "/data/b.parquet", "/data/c.parquet"]);
    assert!(matches!(engine.plan_source(&q, Ok(listing())), Ok(SourcePlan::Files(f)) if f == all));
    let mut reversed = listing();
    reversed.reverse();
    assert!(matches!(engine.plan_source(&q, Ok(reversed)), Ok(SourcePlan::Files(f)) if f == all));
    q.segment_id = Some(1);
    q.segment_count = Some(2);
    assert!(
        matches!(engine.plan_source(&q, Ok(listing())), Ok(SourcePlan::Files(f)) if f == all[1..2])
    );
    q.segment_id = Some(3);
    q.segment_count = Some(4);
    assert!(
        matches!(engine.plan_source(&q, Ok(listing())), Ok(SourcePlan::SchemaOf(f)) if f == all[0])
    );
}

#[test]
fn sources_that_cannot_be_read() {
    let engine = DFEngine::new();
    let mut q = request();
    assert_eq!(
        engine.plan_source(&q, Err("gone".to_string())).unwrap_err(),
        "Failed to read directory /data: gone"
    );
    assert_eq!(
        engine.plan_source(&q, Ok(vec![entry("/data/x.csv", true)])).unwrap_err(),
        "No parquet files found in directory: /data"
    );
    q.file_list = Some(vec![]);
    assert!(!engine.needs_listing(&q));
    assert_eq!(
        engine.plan_source(&q, Ok(vec![])).unwrap_err(),
        "No files available to infer schema"
    );
    q.table_type = TableType::Iceberg;
    assert_eq!(
        engine.plan_source(&q, Ok(vec![])).unwrap_err(),
        "Iceberg support is not fully implemented yet"
    );
}

#[test]
fn delta_tables_are_registered() {
    let engine = DFEngine::new();
    let mut q = request();
    q.table_type = TableType::Delta;
    assert!(!engine.needs_listing(&q));
    assert!(matches!(
        engine.plan_source(&q, Ok(vec![])),
        Ok(SourcePlan::Table { name, uri }) if name == "delta_table" && uri == "/data"
    ));
    q.table_name = Some("delta_seg0_7".to_string());
    assert!(matches!(
        engine.plan_source(&q, Ok(vec![])),
        Ok(SourcePlan::Table { name, .. }) if name == "delta_seg0_7"
    ));
}

fn show(steps: &[Transform]) -> Vec<String> {
    steps
        .iter()
        .map(|s| match s {
            Transform::Select(cols) => format!("select {}", cols.join("|")),
            Transform::Filter { view, sql } => format!("{}: {}", view, sql),
            Transform::Limit(n) => format!("limit {}", n),
        })
        .collect()
}

#[test]
fn steps_of_a_query() {
    let mut engine = DFEngine::new();
    let mut q = request();
    assert!(engine.plan_transformations(&q).is_empty());
    q.limit = Some(5);
    assert_eq!(show(&engine.plan_transformations(&q)), texts(&["limit 5"]));
    q.projection = Some(texts(&["a", "b"]));
    assert_eq!(show(&engine.plan_transformations(&q)), texts(&["select a|b", "limit 5"]));
    q.filter = Some("a > 1".to_string());
    assert_eq!(
        show(&engine.plan_transformations(&q)),
        texts(&[
            "select a|b",
            "temp_filtered_0: SELECT a, b FROM temp_filtered_0 WHERE a > 1 LIMIT 5"
        ])
    );
    q.projection = None;
    q.limit = None;
    assert_eq!(
        show(&engine.plan_transformations(&q)),
        texts(&["temp_filtered_1: SELECT * FROM temp_filtered_1 WHERE a > 1"])
    );
}

#[test]
fn every_filtered_query_has_a_view_of_its_own() {
    let mut engine = DFEngine::new();
    let mut q = request();
    q.filter = Some("a > 1".to_string());
    let mut names = Vec::new();
    for _ in 0..12 {
        engine.plan_transformations(&request());
        for step in engine.plan_transformations(&q) {
            if let Transform::Filter { view, .. } = step {
                assert!(!names.contains(&view));
                names.push(view);
            }
        }
    }
    assert_eq!(names.len(), 12);
    assert_eq!(names[11], "temp_filtered_11");
    assert!(engine.has_names());
    engine.views = u64::MAX;
    assert!(!engine.has_names());
}

#[test]
fn failures_name_their_stage() {
    let expected = [
        (Stage::ReadSchemaFile, "Failed to read file for schema inference: x"),
        (Stage::EmptyDataframe, "Failed to create empty dataframe: x"),
        (Stage::FilesDataframe, "Failed to create dataframe from files: x"),
        (Stage::RegisterDelta, "Failed to register delta table: x"),
        (Stage::GetTable, "Failed to get table: x"),
        (Stage::Projection, "Failed to apply projection: x"),
        (Stage::RegisterTempTable, "Failed to register temp table: x"),
        (Stage::FilterSql, "Failed to execute filter SQL: x"),
        (Stage::Limit, "Failed to apply limit: x"),
        (Stage::Execute, "Failed to execute query: x"),
        (Stage::GetBatch, "Failed to get batch: x"),
        (Stage::SpawnTask, "Failed to spawn blocking task: x"),
        (Stage::ConvertBatch, "Failed to convert batch to CSV: x"),
    ];
    for (stage, text) in expected {
        assert_eq!(stage.failure("x"), text);
    }
}

fn people() -> RecordBatch {
    let schema = Arc::new(Schema::new(vec![
        Field::new("id", DataType::Int32, false),
        Field::new("name", DataType::Utf8, false),
    ]));
    let ids: ArrayRef = Arc::new(Int32Array::from(vec![1, 2, 3]));
    let names: ArrayRef = Arc::new(StringArray::from(vec!["Alice", "Bob", "Charlie, C."]));
    RecordBatch::try_new(schema, vec![ids, names]).unwrap()
}

#[test]
fn batches_are_written_without_a_header() {
    let csv = batch_to_csv(&Batch { rows: people() }).unwrap();
    assert_eq!(String::from_utf8(csv).unwrap(), "1,Alice\n2,Bob\n3,\"Charlie, C.\"\n");
    let none = people().slice(0, 0);
    assert_eq!(batch_to_csv(&Batch { rows: none }).unwrap(), Vec::<u8>::new());
}

#[test]
fn a_batch_that_is_no_csv_is_reported() {
    let inner = Field::new("x", DataType::Int32, false);
    let values: ArrayRef = Arc::new(Int32Array::from(vec![1]));
    let column: ArrayRef = Arc::new(StructArray::from(vec![(Arc::new(inner.clone()), values)]));
    let schema = Arc::new(Schema::new(vec![Field::new(
        "s",
        DataType::Struct(Fields::from(vec![inner])),
        false,
    )]));
    let rows = RecordBatch::try_new(schema, vec![column]).unwrap();
    let error = batch_to_csv(&Batch { rows }).unwrap_err();
    assert!(error.starts_with("Failed to write CSV: "), "{}", error);
    assert!(error.len() > "Failed to write CSV: ".len());
    assert_eq!(report_written(Err("x".to_string())), Err("Failed to write CSV: x".to_string()));
    assert_eq!(report_written(Ok(vec![1])), Ok(vec![1]));
}

fn one_column(column: ArrayRef) -> Batch {
    let field = Field::new("c", column.data_type().clone(), true);
    let schema = Arc::new(Schema::new(vec![field]));
    Batch { rows: RecordBatch::try_new(schema, vec![column]).unwrap() }
}

fn csv(column: ArrayRef) -> Result<String, String> {
    let batch = one_column(column);
    let r = batch_to_csv(&batch);
    if !is_writable(&batch) {
        assert_eq!(r, Err("Failed to write CSV: a value has no text form".to_string()));
    }
    r.map(|bytes| String::from_utf8(bytes).unwrap())
}

const LAST_SECOND: i64 = 8210266876799;
const FIRST_SECOND: i64 = -8334601228800;

fn seconds(values: Vec<Option<i64>>, zone: &str) -> TimestampSecondArray {
    TimestampSecondArray::from(values).with_timezone(zone)
}

#[test]
fn timestamps_without_a_local_time_are_reported() {
    let unwritable = Err("Failed to write CSV: a value has no text form".to_string());
    let at = |v: i64, zone: &str| csv(Arc::new(seconds(vec![Some(0), None, Some(v)], zone)));
    assert_eq!(
        at(LAST_SECOND, "+00:00").unwrap(),
        "1970-01-01T00:00:00Z\n\"\"\n+262142-12-31T23:59:59Z\n"
    );
    assert_eq!(
        at(FIRST_SECOND, "+00:00").unwrap(),
        "1970-01-01T00:00:00Z\n\"\"\n-262143-01-01T00:00:00Z\n"
    );
    assert_eq!(
        at(LAST_SECOND - 3600, "+01:00").unwrap(),
        "1970-01-01T01:00:00+01:00\n\"\"\n+262142-12-31T23:59:59+01:00\n"
    );
    assert_eq!(at(LAST_SECOND - 3599, "+01:00"), unwritable);
    assert_eq!(at(LAST_SECOND, "+01:00"), unwritable);
    assert!(at(LAST_SECOND, "-01:00").is_ok());
    assert_eq!(at(FIRST_SECOND, "-01:00"), unwritable);
    assert!(at(FIRST_SECOND + 3600, "-01:00").is_ok());
    let millis = TimestampMillisecondArray::from(vec![LAST_SECOND * 1000]).with_timezone("+23:59");
    assert_eq!(csv(Arc::new(millis)), unwritable);
    let plain = TimestampSecondArray::from(vec![LAST_SECOND]);
    assert!(csv(Arc::new(plain)).is_ok());
}

#[test]
fn values_that_are_no_time_are_reported_by_the_writer() {
    let beyond = csv(Arc::new(seconds(vec![Some(LAST_SECOND + 1)], "+01:00"))).unwrap_err();
    assert!(beyond.contains("Failed to convert 8210266876800 to datetime"), "{}", beyond);
    let unknown = csv(Arc::new(seconds(vec![Some(LAST_SECOND)], "nowhere"))).unwrap_err();
    assert!(unknown.contains("nowhere"), "{}", unknown);
}

#[test]
fn encoded_timestamps_are_looked_through() {
    let values = seconds(vec![Some(0), Some(LAST_SECOND)], "+01:00");
    let used = DictionaryArray::<Int32Type>::new(Int32Array::from(vec![0, 1]), Arc::new(values));
    assert!(csv(Arc::new(used)).is_err());
    let values = seconds(vec![Some(0), Some(LAST_SECOND)], "+01:00");
    let unused = DictionaryArray::<Int32Type>::new(Int32Array::from(vec![0, 0]), Arc::new(values));
    assert_eq!(
        csv(Arc::new(unused)).unwrap(),
        "1970-01-01T01:00:00+01:00\n1970-01-01T01:00:00+01:00\n"
    );
    let values = seconds(vec![Some(0), Some(LAST_SECOND)], "+01:00");
    let runs = RunArray::<Int32Type>::try_new(&Int32Array::from(vec![2, 3]), &values).unwrap();
    assert!(csv(Arc::new(runs.slice(0, 2))).is_ok());
    assert!(csv(Arc::new(runs)).is_err());
    // A text that looks like a year is a text.
    assert_eq!(csv(Arc::new(StringArray::from(vec!["+262143"]))).unwrap(), "+262143\n");
}

#[test]
fn decimals_that_have_no_text_are_reported() {
    let good = Decimal128Array::from(vec![123456]).with_data_type(DataType::Decimal128(6, 5));
    assert_eq!(csv(Arc::new(good)).unwrap(), "1.23456\n");
    let bad = Decimal128Array::from(vec![123456]).with_data_type(DataType::Decimal128(1, 5));
    assert!(csv(Arc::new(bad)).is_err());
    let wide = Decimal256Array::from(vec![i256::from(123456)])
        .with_data_type(DataType::Decimal256(1, 5));
    assert!(csv(Arc::new(wide)).is_err());
    let whole = Decimal128Array::from(vec![7]).with_data_type(DataType::Decimal128(3, -2));
    assert_eq!(csv(Arc::new(whole)).unwrap(), "700\n");
}

#[test]
fn chunks_of_a_stream() {
    assert_eq!(next_chunk(BatchOutcome::Written(Ok(b"1\n".to_vec()))), Ok(Some(b"1\n".to_vec())));
    assert_eq!(next_chunk(BatchOutcome::Written(Ok(vec![]))), Ok(None));
    assert_eq!(
        next_chunk(BatchOutcome::Written(Err("x".to_string()))),
        Err("Failed to convert batch to CSV: x".to_string())
    );
    assert_eq!(
        next_chunk(BatchOutcome::Undelivered("x".to_string())),
        Err("Failed to get batch: x".to_string())
    );
    assert_eq!(
        next_chunk(BatchOutcome::TaskFailed("x".to_string())),
        Err("Failed to spawn blocking task: x".to_string())
    );
}

#[test]
fn older_frames() {
    assert_eq!(create_frame(b'D', 30, 258), vec![b'D', 0, 0, 1, 2, 0, 0, 0, 30]);
    let mut stream = OldStream::new(1);
    assert!(stream.has_room());
    let first = stream.frame_chunk(b"a,b".to_vec()).unwrap();
    assert_eq!(
        first,
        vec![
            create_frame(b'F', 0, 0),
            create_frame(b'O', 0, 0),
            create_frame(b'L', 1, 0),
            b"D\x00\x00\x00\x03\x00\x00\x00\x03a,b".to_vec(),
        ]
    );
    assert_eq!(stream.frame_chunk(vec![]).unwrap(), Vec::<Vec<u8>>::new());
    let second = stream.frame_chunk(b"\nc\n".to_vec()).unwrap();
    assert_eq!(
        second,
        vec![
            create_frame(b'O', 3, 0),
            create_frame(b'L', 1, 0),
            b"D\x00\x00\x00\x03\x00\x00\x00\x03\nc\n".to_vec(),
        ]
    );
    assert_eq!((stream.byte_offset, stream.line_number), (6, 3));
    assert_eq!(stream.finish(), vec![b"D\x00\x00\x00\x00\x00\x00\x00\x00".to_vec()]);
}

#[test]
fn an_older_stream_without_data_has_its_header() {
    let expected = vec![
        b"F\x00\x00\x00\x00\x00\x00\x00\x00".to_vec(),
        b"D\x00\x00\x00\x00\x00\x00\x00\x00".to_vec(),
    ];
    assert_eq!(OldStream::new(1).finish(), expected);
    let mut stream = OldStream::new(1);
    assert!(stream.frame_chunk(vec![]).unwrap().is_empty());
    assert_eq!(stream.finish(), expected);
}

#[test]
fn older_protocols() {
    let mut raw = OldStream::new(0);
    assert_eq!(raw.frame_chunk(b"a\n".to_vec()).unwrap(), vec![b"a\n".to_vec()]);
    assert_eq!(raw.finish(), Vec::<Vec<u8>>::new());
    let mut other = OldStream::new(2);
    assert_eq!(other.frame_chunk(vec![]).unwrap(), Vec::<Vec<u8>>::new());
    assert_eq!(other.frame_chunk(b"a\n".to_vec()).unwrap_err(), "Unsupported gp_proto: 2");
}
