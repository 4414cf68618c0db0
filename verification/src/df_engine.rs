//! Queries over tables: which files a request reads, in which steps the query engine is to
//! answer it, and what becomes of the batches that it returns.

use crate::frame::{big_endian, put, u32_bytes, LETTER_D, LETTER_F, LETTER_L, LETTER_O};
use crate::number::{decimal, decimal_text, law_decimal_injective, push_decimal};
use crate::order::{law_sorting_forgets_the_order, law_sorting_keeps_the_texts, sort_texts, sorted};
use crate::outside::{
    column_count, column_kind, column_writable, columns_of, count_bytes, count_of, csv_of,
    has_dates, local_years, writable, write_csv, Batch, ColumnKind, ColumnView,
};
use crate::stream::{lemma_count_bound, lemma_count_concat, NEWLINE};
use crate::text::{
    chars_of, copy_texts, ends_with, is_text, join, join_strings, joined, opt_text, opt_texts,
    texts,
};
use vstd::multiset::Multiset;
use vstd::prelude::*;
use vstd::string::*;

verus! {

// ---------------------------------------------------------------- requests

/// The kind of a table.
#[derive(Debug, Clone, Copy, PartialEq, Eq, Structural)]
pub enum TableType {
    Parquet,
    Delta,
    Iceberg,
}

/// A query over a table.
#[derive(Debug, Clone)]
pub struct DFRequest {
    pub table_type: TableType,
    /// The directory or location of the table.
    pub uri: String,
    /// The files to read, where they are listed one by one.
    pub file_list: Option<Vec<String>>,
    /// The columns to return (`None`: all of them).
    pub projection: Option<Vec<String>>,
    /// The condition that a row has to meet, in SQL.
    pub filter: Option<String>,
    /// How many rows to return at most.
    pub limit: Option<usize>,
    pub segment_id: Option<usize>,
    pub segment_count: Option<usize>,
    pub gp_proto: u8,
    /// The name to register the table by.
    pub table_name: Option<String>,
}

/// A query over a table, as a value.
pub struct QueryView {
    pub table_type: TableType,
    pub uri: Seq<char>,
    pub file_list: Option<Seq<Seq<char>>>,
    pub projection: Option<Seq<Seq<char>>>,
    pub filter: Option<Seq<char>>,
    pub limit: Option<usize>,
    pub segment_id: Option<usize>,
    pub segment_count: Option<usize>,
    pub gp_proto: u8,
    pub table_name: Option<Seq<char>>,
}

impl View for DFRequest {
    type V = QueryView;

    open spec fn view(&self) -> QueryView {
        QueryView {
            table_type: self.table_type,
            uri: self.uri@,
            file_list: opt_texts(self.file_list),
            projection: opt_texts(self.projection),
            filter: opt_text(self.filter),
            limit: self.limit,
            segment_id: self.segment_id,
            segment_count: self.segment_count,
            gp_proto: self.gp_proto,
            table_name: opt_text(self.table_name),
        }
    }
}

// ---------------------------------------------------------------- SQL

/// The query for some columns of a table, with a condition and a limit.
pub open spec fn sql_text(
    table_name: Seq<char>,
    projection: Option<Seq<Seq<char>>>,
    filter: Option<Seq<char>>,
    limit: Option<usize>,
) -> Seq<char> {
    "SELECT "@ + (match projection {
        Some(cols) => join(cols, ", "@),
        None => "*"@,
    }) + " FROM "@ + table_name + (match filter {
        Some(condition) => " WHERE "@ + condition,
        None => Seq::empty(),
    }) + (match limit {
        Some(n) => " LIMIT "@ + decimal(n as nat),
        None => Seq::empty(),
    })
}

/// The texts in an optional slice of strings.
pub open spec fn opt_slice(s: Option<&[String]>) -> Option<Seq<Seq<char>>> {
    match s {
        Some(t) => Some(texts(t@)),
        None => None,
    }
}

/// The text in an optional string slice.
pub open spec fn opt_str(s: Option<&str>) -> Option<Seq<char>> {
    match s {
        Some(t) => Some(t@),
        None => None,
    }
}

// ---------------------------------------------------------------- segments

/// The files that a segment reads of those listed: the ones whose index leaves the segment's
/// number when it is divided by the number of segments.
pub open spec fn segment(files: Seq<Seq<char>>, id: int, count: int) -> Seq<Seq<char>>
    decreases files.len(),
{
    if files.len() == 0 {
        Seq::empty()
    } else if (files.len() - 1) % count == id {
        segment(files.drop_last(), id, count).push(files.last())
    } else {
        segment(files.drop_last(), id, count)
    }
}

/// The files to read: those of the segment, where one is given, or else all.
pub open spec fn segmented(
    files: Seq<Seq<char>>,
    segment_id: Option<usize>,
    segment_count: Option<usize>,
) -> Seq<Seq<char>> {
    match (segment_id, segment_count) {
        (Some(id), Some(count)) => if count > 0 {
            segment(files, id as int, count as int)
        } else {
            files
        },
        _ => files,
    }
}

// ---------------------------------------------------------------- where the rows come from

/// An entry of a directory.
#[derive(Debug)]
pub struct DirEntry {
    /// The path of the entry, where it is valid text.
    pub path: Option<String>,
    pub is_file: bool,
}

/// An entry of a directory, as a value.
pub struct EntryView {
    pub path: Option<Seq<char>>,
    pub is_file: bool,
}

impl View for DirEntry {
    type V = EntryView;

    open spec fn view(&self) -> EntryView {
        EntryView { path: opt_text(self.path), is_file: self.is_file }
    }
}

/// The entries of a directory, as values.
pub open spec fn entries_view(entries: Seq<DirEntry>) -> Seq<EntryView> {
    Seq::new(entries.len(), |i: int| entries[i]@)
}

/// Whether a directory entry is a parquet file.
pub open spec fn is_parquet(entry: EntryView) -> bool {
    entry.is_file && entry.path is Some && ".parquet"@.is_suffix_of(entry.path->0)
}

/// The parquet files among some directory entries, in the order of the entries.
pub open spec fn parquet_files(entries: Seq<EntryView>) -> Seq<Seq<char>>
    decreases entries.len(),
{
    if entries.len() == 0 {
        Seq::empty()
    } else if is_parquet(entries.last()) {
        parquet_files(entries.drop_last()).push(entries.last().path->0)
    } else {
        parquet_files(entries.drop_last())
    }
}

/// Where the rows of a query come from.
#[derive(Debug)]
pub enum SourcePlan {
    /// From these parquet files.
    Files(Vec<String>),
    /// From nowhere: there are no rows, and the columns are those of this parquet file.
    SchemaOf(String),
    /// From the Delta table at `uri`, registered by `name`.
    Table { name: String, uri: String },
}

/// Where the rows of a query come from, as a value.
pub enum SourceView {
    Files(Seq<Seq<char>>),
    SchemaOf(Seq<char>),
    Table { name: Seq<char>, uri: Seq<char> },
}

impl View for SourcePlan {
    type V = SourceView;

    open spec fn view(&self) -> SourceView {
        match self {
            SourcePlan::Files(files) => SourceView::Files(texts(files@)),
            SourcePlan::SchemaOf(file) => SourceView::SchemaOf(file@),
            SourcePlan::Table { name, uri } => SourceView::Table { name: name@, uri: uri@ },
        }
    }
}

/// Whether the directory of a query has to be listed before it is known which files to read.
pub open spec fn wants_listing(q: QueryView) -> bool {
    q.table_type == TableType::Parquet && q.file_list is None
}

/// All files of a query over parquet files: those that it lists, or those in its directory in
/// order. An unreadable directory and one without parquet files are errors.
pub open spec fn all_files(
    q: QueryView,
    listing: Result<Seq<EntryView>, Seq<char>>,
) -> Result<Seq<Seq<char>>, Seq<char>> {
    match q.file_list {
        Some(files) => Ok(files),
        None => match listing {
            Err(e) => Err("Failed to read directory "@ + q.uri + ": "@ + e),
            Ok(entries) => if parquet_files(entries).len() == 0 {
                Err("No parquet files found in directory: "@ + q.uri)
            } else {
                Ok(sorted(parquet_files(entries)))
            },
        },
    }
}

/// Where the rows of a query come from, given what listing its directory gave.
pub open spec fn source_of(
    q: QueryView,
    listing: Result<Seq<EntryView>, Seq<char>>,
) -> Result<SourceView, Seq<char>> {
    match q.table_type {
        TableType::Parquet => match all_files(q, listing) {
            Err(e) => Err(e),
            Ok(files) => {
                let mine = segmented(files, q.segment_id, q.segment_count);
                if mine.len() > 0 {
                    Ok(SourceView::Files(mine))
                } else if files.len() > 0 {
                    Ok(SourceView::SchemaOf(files[0]))
                } else {
                    Err("No files available to infer schema"@)
                }
            },
        },
        TableType::Delta => Ok(
            SourceView::Table {
                name: match q.table_name {
                    Some(name) => name,
                    None => "delta_table"@,
                },
                uri: q.uri,
            },
        ),
        TableType::Iceberg => Err("Iceberg support is not fully implemented yet"@),
    }
}

/// The outcome of listing a directory, as a value.
pub open spec fn listing_view(listing: Result<Vec<DirEntry>, String>) -> Result<
    Seq<EntryView>,
    Seq<char>,
> {
    match listing {
        Ok(entries) => Ok(entries_view(entries@)),
        Err(e) => Err(e@),
    }
}

/// A plan or the text of an error, as a value.
pub open spec fn plan_view(plan: Result<SourcePlan, String>) -> Result<SourceView, Seq<char>> {
    match plan {
        Ok(p) => Ok(p@),
        Err(e) => Err(e@),
    }
}

fn list_parquet_files(entries: &Vec<DirEntry>) -> (r: Vec<String>)
    ensures
        texts(r@) == parquet_files(entries_view(entries@)),
{
    let mut files: Vec<String> = Vec::new();
    let ghost all = entries_view(entries@);
    assert(texts(files@) =~= Seq::empty());
    for i in 0..entries.len()
        invariant
            all == entries_view(entries@),
            texts(files@) == parquet_files(all.take(i as int)),
    {
        proof {
            assert(all.take(i + 1).drop_last() =~= all.take(i as int));
            assert(all.take(i + 1).last() == entries@[i as int]@);
        }
        let ghost before = files@;
        if entries[i].is_file {
            if let Some(path) = &entries[i].path {
                let chars = chars_of(path.as_str());
                if ends_with(chars.as_slice(), ".parquet") {
                    files.push(path.clone());
                    assert(texts(files@) =~= texts(before).push(path@));
                }
            }
        }
    }
    assert(all.take(all.len() as int) =~= all);
    files
}

// ---------------------------------------------------------------- the steps of a query

/// The name of the view that a query with a condition reads; the number tells it from those of
/// all other queries.
pub open spec fn view_name(number: u64) -> Seq<char> {
    "temp_filtered_"@ + decimal(number as nat)
}

/// A step that the query engine takes on the rows.
#[derive(Debug)]
pub enum Transform {
    /// Keep these columns.
    Select(Vec<String>),
    /// Register the rows as the view `view`, run `sql` in place of them, and remove the view.
    Filter { view: String, sql: String },
    /// Keep this many rows.
    Limit(usize),
}

/// A step that the query engine takes on the rows, as a value.
pub enum TransformView {
    Select(Seq<Seq<char>>),
    Filter { view: Seq<char>, sql: Seq<char> },
    Limit(usize),
}

impl View for Transform {
    type V = TransformView;

    open spec fn view(&self) -> TransformView {
        match self {
            Transform::Select(cols) => TransformView::Select(texts(cols@)),
            Transform::Filter { view, sql } => TransformView::Filter { view: view@, sql: sql@ },
            Transform::Limit(n) => TransformView::Limit(*n),
        }
    }
}

/// Steps as values.
pub open spec fn transforms_view(steps: Seq<Transform>) -> Seq<TransformView> {
    Seq::new(steps.len(), |i: int| steps[i]@)
}

/// The steps that a query takes when its view has the given name: first the columns are
/// selected; then a condition is applied, together with the limit, by a query over a view of
/// the rows; without a condition the limit is a step of its own.
pub open spec fn steps_with(q: QueryView, view: Seq<char>) -> Seq<TransformView> {
    (match q.projection {
        Some(cols) => seq![TransformView::Select(cols)],
        None => Seq::empty(),
    }) + (match q.filter {
        Some(condition) => seq![
            TransformView::Filter {
                view,
                sql: sql_text(view, q.projection, Some(condition), q.limit),
            },
        ],
        None => match q.limit {
            Some(n) => seq![TransformView::Limit(n)],
            None => Seq::empty(),
        },
    })
}

/// The steps that a query takes on an engine that has given out `number` view names.
pub open spec fn steps_of(q: QueryView, number: u64) -> Seq<TransformView> {
    steps_with(q, view_name(number))
}

/// How many view names a query takes: one where it has a condition.
pub open spec fn names_taken(q: QueryView) -> int {
    if q.filter is Some {
        1
    } else {
        0
    }
}

// ---------------------------------------------------------------- failures

/// What can fail in the query engine.
#[derive(Debug, Clone, Copy, PartialEq, Eq, Structural)]
pub enum Stage {
    ReadSchemaFile,
    EmptyDataframe,
    FilesDataframe,
    RegisterDelta,
    GetTable,
    Projection,
    RegisterTempTable,
    FilterSql,
    Limit,
    Execute,
    GetBatch,
    SpawnTask,
    ConvertBatch,
}

impl Stage {
    /// What the report of a failure begins with.
    pub open spec fn label(self) -> Seq<char> {
        match self {
            Stage::ReadSchemaFile => "Failed to read file for schema inference: "@,
            Stage::EmptyDataframe => "Failed to create empty dataframe: "@,
            Stage::FilesDataframe => "Failed to create dataframe from files: "@,
            Stage::RegisterDelta => "Failed to register delta table: "@,
            Stage::GetTable => "Failed to get table: "@,
            Stage::Projection => "Failed to apply projection: "@,
            Stage::RegisterTempTable => "Failed to register temp table: "@,
            Stage::FilterSql => "Failed to execute filter SQL: "@,
            Stage::Limit => "Failed to apply limit: "@,
            Stage::Execute => "Failed to execute query: "@,
            Stage::GetBatch => "Failed to get batch: "@,
            Stage::SpawnTask => "Failed to spawn blocking task: "@,
            Stage::ConvertBatch => "Failed to convert batch to CSV: "@,
        }
    }

    /// The report of a failure at this stage.
    pub fn failure(&self, error: &str) -> (r: String)
        ensures
            r@ == self.label() + error@,
    {
        let label = match self {
            Stage::ReadSchemaFile => "Failed to read file for schema inference: ",
            Stage::EmptyDataframe => "Failed to create empty dataframe: ",
            Stage::FilesDataframe => "Failed to create dataframe from files: ",
            Stage::RegisterDelta => "Failed to register delta table: ",
            Stage::GetTable => "Failed to get table: ",
            Stage::Projection => "Failed to apply projection: ",
            Stage::RegisterTempTable => "Failed to register temp table: ",
            Stage::FilterSql => "Failed to execute filter SQL: ",
            Stage::Limit => "Failed to apply limit: ",
            Stage::Execute => "Failed to execute query: ",
            Stage::GetBatch => "Failed to get batch: ",
            Stage::SpawnTask => "Failed to spawn blocking task: ",
            Stage::ConvertBatch => "Failed to convert batch to CSV: ",
        };
        joined(label, error)
    }
}

// ---------------------------------------------------------------- engine

/// Plans queries.
pub struct DFEngine {
    /// How many names of views were given out.
    pub views: u64,
}

impl DFEngine {
    /// A planner.
    pub fn new() -> (r: Self)
        ensures
            r == (DFEngine { views: 0 }),
    {
        DFEngine { views: 0 }
    }

    /// Writes a query for some columns of a table, with a condition and a limit.
    pub fn build_sql(
        &self,
        table_name: &str,
        projection: Option<&[String]>,
        filter: Option<&str>,
        limit: Option<usize>,
    ) -> (r: String)
        ensures
            r@ == sql_text(table_name@, opt_slice(projection), opt_str(filter), limit),
    {
        let mut sql = String::from_str("SELECT ");
        match projection {
            Some(cols) => {
                sql.append(join_strings(cols, ", ").as_str());
            },
            None => {
                sql.append("*");
            },
        }
        sql.append(" FROM ");
        sql.append(table_name);
        let ghost head = sql@;
        if let Some(condition) = filter {
            sql.append(" WHERE ");
            sql.append(condition);
            assert(sql@ =~= head + (" WHERE "@ + condition@));
        }
        let ghost middle = sql@;
        if let Some(n) = limit {
            sql.append(" LIMIT ");
            push_decimal(&mut sql, n as u128);
            assert(sql@ =~= middle + (" LIMIT "@ + decimal(n as nat)));
        }
        assert(sql@ =~= sql_text(table_name@, opt_slice(projection), opt_str(filter), limit));
        sql
    }

    /// Picks the files that a segment reads.
    pub fn apply_segmentation(
        &self,
        files: &[String],
        segment_id: Option<usize>,
        segment_count: Option<usize>,
    ) -> (r: Vec<String>)
        ensures
            texts(r@) == segmented(texts(files@), segment_id, segment_count),
    {
        match (segment_id, segment_count) {
            (Some(id), Some(count)) => {
                if count > 0 {
                    let mut mine: Vec<String> = Vec::new();
                    let ghost all = texts(files@);
                    assert(texts(mine@) =~= Seq::empty());
                    for i in 0..files.len()
                        invariant
                            count > 0,
                            all == texts(files@),
                            texts(mine@) == segment(all.take(i as int), id as int, count as int),
                    {
                        let ghost before = mine@;
                        proof {
                            assert(all.take(i + 1).drop_last() =~= all.take(i as int));
                            assert(all.take(i + 1).last() == files@[i as int]@);
                        }
                        if i % count == id {
                            mine.push(files[i].clone());
                            assert(texts(mine@) =~= texts(before).push(files@[i as int]@));
                        }
                    }
                    assert(all.take(all.len() as int) =~= all);
                    mine
                } else {
                    copy_texts(files)
                }
            },
            _ => copy_texts(files),
        }
    }

    /// Whether the directory of a query has to be listed before `plan_source` can plan it.
    pub fn needs_listing(&self, request: &DFRequest) -> (r: bool)
        ensures
            r == wants_listing(request@),
    {
        request.table_type == TableType::Parquet && request.file_list.is_none()
    }

    /// Decides where the rows of a query come from. `listing` is what listing the directory
    /// gave, where the query has one to list.
    pub fn plan_source(
        &self,
        request: &DFRequest,
        listing: Result<Vec<DirEntry>, String>,
    ) -> (r: Result<SourcePlan, String>)
        ensures
            plan_view(r) == source_of(request@, listing_view(listing)),
    {
        match request.table_type {
            TableType::Parquet => {
                let files: Vec<String> = match &request.file_list {
                    Some(files) => copy_texts(files.as_slice()),
                    None => match listing {
                        Err(e) => {
                            let mut msg = String::from_str("Failed to read directory ");
                            msg.append(request.uri.as_str());
                            msg.append(": ");
                            msg.append(e.as_str());
                            return Err(msg);
                        },
                        Ok(entries) => {
                            let found = list_parquet_files(&entries);
                            assert(found@.len() == texts(found@).len());
                            if found.len() == 0 {
                                return Err(
                                    joined(
                                        "No parquet files found in directory: ",
                                        request.uri.as_str(),
                                    ),
                                );
                            }
                            sort_texts(found)
                        },
                    },
                };
                let mine = self.apply_segmentation(
                    files.as_slice(),
                    request.segment_id,
                    request.segment_count,
                );
                assert(mine@.len() == texts(mine@).len());
                assert(files@.len() == texts(files@).len());
                if mine.len() > 0 {
                    Ok(SourcePlan::Files(mine))
                } else if files.len() > 0 {
                    Ok(SourcePlan::SchemaOf(files[0].clone()))
                } else {
                    Err(String::from_str("No files available to infer schema"))
                }
            },
            TableType::Delta => {
                let name = match &request.table_name {
                    Some(name) => name.clone(),
                    None => String::from_str("delta_table"),
                };
                Ok(SourcePlan::Table { name, uri: request.uri.clone() })
            },
            TableType::Iceberg => Err(
                String::from_str("Iceberg support is not fully implemented yet"),
            ),
        }
    }

    /// Whether there are names of views left to give out.
    pub fn has_names(&self) -> (r: bool)
        ensures
            r == (self.views < u64::MAX),
    {
        self.views < u64::MAX
    }

    /// Lists the steps that a query takes.
    pub fn plan_transformations(&mut self, request: &DFRequest) -> (r: Vec<Transform>)
        requires
            old(self).views < u64::MAX,
        ensures
            transforms_view(r@) == steps_of(request@, old(self).views),
            final(self).views == old(self).views + names_taken(request@),
    {
        let mut steps: Vec<Transform> = Vec::new();
        if let Some(cols) = &request.projection {
            steps.push(Transform::Select(copy_texts(cols.as_slice())));
        }
        match &request.filter {
            Some(condition) => {
                let mut view = String::from_str("temp_filtered_");
                push_decimal(&mut view, self.views as u128);
                let projection = match &request.projection {
                    Some(cols) => Some(cols.as_slice()),
                    None => None,
                };
                let sql = self.build_sql(
                    view.as_str(),
                    projection,
                    Some(condition.as_str()),
                    request.limit,
                );
                steps.push(Transform::Filter { view, sql });
                self.views = self.views + 1;
            },
            None => {
                if let Some(n) = request.limit {
                    steps.push(Transform::Limit(n));
                }
            },
        }
        assert(transforms_view(steps@) =~= steps_of(request@, old(self).views));
        steps
    }
}

impl Default for DFEngine {
    fn default() -> (r: Self)
        ensures
            r == (DFEngine { views: 0 }),
    {
        DFEngine::new()
    }
}

// ---------------------------------------------------------------- batches

/// Bytes or the text of an error, as a value.
pub open spec fn bytes_view(r: Result<Vec<u8>, String>) -> Result<Seq<u8>, Seq<char>> {
    match r {
        Ok(bytes) => Ok(bytes@),
        Err(e) => Err(e@),
    }
}

/// What the CSV writer gave, with its error reported as this library does.
pub open spec fn written(outcome: Result<Seq<u8>, Seq<char>>) -> Result<Seq<u8>, Seq<char>> {
    match outcome {
        Ok(bytes) => Ok(bytes),
        Err(e) => Err("Failed to write CSV: "@ + e),
    }
}

/// Reports what the CSV writer gave.
pub fn report_written(outcome: Result<Vec<u8>, String>) -> (r: Result<Vec<u8>, String>)
    ensures
        bytes_view(r) == written(bytes_view(outcome)),
{
    match outcome {
        Ok(bytes) => Ok(bytes),
        Err(e) => Err(joined("Failed to write CSV: ", e.as_str())),
    }
}

/// Whether a column of a batch can be written as CSV.
fn is_column_writable(batch: &Batch, i: usize) -> (r: bool)
    requires
        i < columns_of(*batch).len(),
    ensures
        r == column_writable(columns_of(*batch)[i as int]),
{
    match column_kind(batch, i) {
        ColumnKind::Decimal { precision, scale } => scale as i16 <= precision as i16,
        ColumnKind::Other => true,
        ColumnKind::Zoned => {
            let years = local_years(batch, i);
            let ghost seen = columns_of(*batch)[i as int].years;
            for k in 0..years.len()
                invariant
                    seen == Seq::new(years@.len(), |j: int| opt_text(years@[j])),
                    columns_of(*batch)[i as int].kind == ColumnKind::Zoned,
                    columns_of(*batch)[i as int].years == seen,
                    forall|j: int| 0 <= j < k ==> has_dates(#[trigger] seen[j]),
            {
                assert(seen[k as int] == opt_text(years@[k as int]));
                if let Some(year) = &years[k] {
                    let chars = chars_of(year.as_str());
                    if is_text(chars.as_slice(), "-262144")
                        || is_text(chars.as_slice(), "+262143") {
                        assert(!has_dates(seen[k as int]));
                        return false;
                    }
                }
            }
            true
        },
    }
}

/// Whether all columns of a batch can be written as CSV.
pub fn is_writable(batch: &Batch) -> (r: bool)
    ensures
        r == writable(columns_of(*batch)),
{
    let count: usize = column_count(batch);
    for i in 0..count
        invariant
            count == columns_of(*batch).len(),
            forall|j: int| 0 <= j < i ==> column_writable(#[trigger] columns_of(*batch)[j]),
    {
        if !is_column_writable(batch, i) {
            return false;
        }
    }
    true
}

/// The report of a batch with a value that cannot be written.
pub open spec fn unwritable() -> Seq<char> {
    "Failed to write CSV: a value has no text form"@
}

/// Writes a batch of rows as CSV, without a line of column names: the batches of a query follow
/// each other in one stream. A batch with a value that cannot be written is an error.
pub fn batch_to_csv(batch: &Batch) -> (r: Result<Vec<u8>, String>)
    ensures
        bytes_view(r) == if writable(columns_of(*batch)) {
            written(csv_of(*batch, false))
        } else {
            Err(unwritable())
        },
{
    if is_writable(batch) {
        report_written(write_csv(batch, false))
    } else {
        Err(String::from_str("Failed to write CSV: a value has no text form"))
    }
}

/// What became of a batch of rows on its way to CSV.
#[derive(Debug)]
pub enum BatchOutcome {
    /// The query engine failed to deliver it.
    Undelivered(String),
    /// The task that was to write it failed.
    TaskFailed(String),
    /// It was written, or writing it failed.
    Written(Result<Vec<u8>, String>),
}

/// What a batch adds to a stream: a chunk, nothing where it has no rows, or an error that ends
/// the stream.
pub open spec fn chunk_of(outcome: BatchOutcome) -> Result<Option<Seq<u8>>, Seq<char>> {
    match outcome {
        BatchOutcome::Undelivered(e) => Err(Stage::GetBatch.label() + e@),
        BatchOutcome::TaskFailed(e) => Err(Stage::SpawnTask.label() + e@),
        BatchOutcome::Written(r) => match bytes_view(r) {
            Err(e) => Err(Stage::ConvertBatch.label() + e),
            Ok(csv) => if csv.len() == 0 {
                Ok(None)
            } else {
                Ok(Some(csv))
            },
        },
    }
}

/// A chunk, or none, or the text of an error, as a value.
pub open spec fn chunk_view(r: Result<Option<Vec<u8>>, String>) -> Result<
    Option<Seq<u8>>,
    Seq<char>,
> {
    match r {
        Ok(Some(csv)) => Ok(Some(csv@)),
        Ok(None) => Ok(None),
        Err(e) => Err(e@),
    }
}

/// Decides what a batch adds to a stream.
pub fn next_chunk(outcome: BatchOutcome) -> (r: Result<Option<Vec<u8>>, String>)
    ensures
        chunk_view(r) == chunk_of(outcome),
{
    match outcome {
        BatchOutcome::Undelivered(e) => Err(Stage::GetBatch.failure(e.as_str())),
        BatchOutcome::TaskFailed(e) => Err(Stage::SpawnTask.failure(e.as_str())),
        BatchOutcome::Written(Err(e)) => Err(Stage::ConvertBatch.failure(e.as_str())),
        BatchOutcome::Written(Ok(csv)) => {
            if csv.len() == 0 {
                Ok(None)
            } else {
                Ok(Some(csv))
            }
        },
    }
}

// ---------------------------------------------------------------- the older framing

/// A frame of the older framing: its letter, the length of its data, and a line number or an
/// offset, each number in four bytes. The data follows.
pub open spec fn old_frame(letter: u8, line_or_offset: u32, length: u32) -> Seq<u8> {
    seq![letter] + big_endian(length as nat, 4) + big_endian(line_or_offset as nat, 4)
}

/// Writes a frame of the older framing, without its data.
pub fn create_frame(frame_type: u8, line_or_offset: u32, length: u32) -> (r: Vec<u8>)
    ensures
        r@ == old_frame(frame_type, line_or_offset, length),
{
    let mut out: Vec<u8> = Vec::new();
    out.push(frame_type);
    put(&mut out, &u32_bytes(length));
    put(&mut out, &u32_bytes(line_or_offset));
    assert(out@ =~= old_frame(frame_type, line_or_offset, length));
    out
}

/// The last 32 bits of a number.
pub open spec fn low_bits(n: nat) -> u32 {
    (n % 0x1_0000_0000) as u32
}

fn low_half(n: u64) -> (r: u32)
    ensures
        r == low_bits(n as nat),
{
    (n % 0x1_0000_0000) as u32
}

/// A stream in the older framing. Protocol 0 is CSV without frames; in protocol 1 one F frame
/// stands at the start, every chunk has an O, an L and a D frame, and a D frame without data
/// ends the stream.
#[derive(Clone, Copy)]
pub struct OldStream {
    pub gp_proto: u8,
    pub line_number: u64,
    pub byte_offset: u64,
    pub started: bool,
}

/// Pieces of output, as values.
pub open spec fn pieces(out: Seq<Vec<u8>>) -> Seq<Seq<u8>> {
    Seq::new(out.len(), |i: int| out[i]@)
}

/// Pieces of output or the text of an error, as a value.
pub open spec fn pieces_view(r: Result<Vec<Vec<u8>>, String>) -> Result<Seq<Seq<u8>>, Seq<char>> {
    match r {
        Ok(out) => Ok(pieces(out@)),
        Err(e) => Err(e@),
    }
}

impl OldStream {
    /// A stream before its first chunk.
    pub open spec fn at_start(gp_proto: u8) -> Self {
        OldStream { gp_proto, line_number: 1, byte_offset: 0, started: false }
    }

    /// Whether the counters have room for another chunk, whatever its length.
    pub open spec fn room(self) -> bool {
        self.line_number <= u64::MAX - u32::MAX && self.byte_offset <= u64::MAX - u32::MAX
    }

    /// What a chunk adds to the output.
    pub open spec fn output(self, csv: Seq<u8>) -> Result<Seq<Seq<u8>>, Seq<char>> {
        if csv.len() == 0 {
            Ok(Seq::empty())
        } else if self.gp_proto == 0 {
            Ok(seq![csv])
        } else if self.gp_proto == 1 {
            Ok(
                (if self.started {
                    Seq::empty()
                } else {
                    seq![old_frame(LETTER_F, 0, 0)]
                }) + seq![
                    old_frame(LETTER_O, low_bits(self.byte_offset as nat), 0),
                    old_frame(LETTER_L, low_bits(self.line_number as nat), 0),
                    old_frame(LETTER_D, low_bits(csv.len()), low_bits(csv.len())) + csv,
                ],
            )
        } else {
            Err("Unsupported gp_proto: "@ + decimal(self.gp_proto as nat))
        }
    }

    /// What the end of the data adds to the output. A stream without data has its F frame there.
    pub open spec fn ending(self) -> Seq<Seq<u8>> {
        if self.gp_proto == 1 {
            (if self.started {
                Seq::empty()
            } else {
                seq![old_frame(LETTER_F, 0, 0)]
            }) + seq![old_frame(LETTER_D, 0, 0)]
        } else {
            Seq::empty()
        }
    }

    /// The stream after a chunk.
    pub open spec fn after(self, csv: Seq<u8>) -> Self {
        if csv.len() == 0 || self.gp_proto != 1 {
            self
        } else {
            OldStream {
                line_number: (self.line_number + low_bits(count_of(csv, NEWLINE))) as u64,
                byte_offset: (self.byte_offset + low_bits(csv.len())) as u64,
                started: true,
                ..self
            }
        }
    }

    /// A stream before its first chunk.
    pub fn new(gp_proto: u8) -> (r: Self)
        ensures
            r == Self::at_start(gp_proto),
            r.room(),
    {
        OldStream { gp_proto, line_number: 1, byte_offset: 0, started: false }
    }

    /// Whether the counters have room for another chunk.
    pub fn has_room(&self) -> (r: bool)
        ensures
            r == self.room(),
    {
        self.line_number <= u64::MAX - 0xffff_ffff && self.byte_offset <= u64::MAX - 0xffff_ffff
    }

    /// Frames a chunk.
    pub fn frame_chunk(&mut self, csv: Vec<u8>) -> (r: Result<Vec<Vec<u8>>, String>)
        requires
            old(self).room(),
        ensures
            pieces_view(r) == old(self).output(csv@),
            *final(self) == old(self).after(csv@),
    {
        let mut out: Vec<Vec<u8>> = Vec::new();
        if csv.len() == 0 {
            assert(pieces(out@) =~= Seq::empty());
            return Ok(out);
        }
        if self.gp_proto == 0 {
            out.push(csv);
            assert(pieces(out@) =~= seq![csv@]);
            Ok(out)
        } else if self.gp_proto == 1 {
            let num_lines: u32 = low_half(count_bytes(csv.as_slice(), NEWLINE) as u64);
            let data_len: u32 = low_half(csv.len() as u64);
            if !self.started {
                out.push(create_frame(LETTER_F, 0, 0));
            }
            out.push(create_frame(LETTER_O, low_half(self.byte_offset), 0));
            out.push(create_frame(LETTER_L, low_half(self.line_number), 0));
            let mut d_frame = create_frame(LETTER_D, data_len, data_len);
            put(&mut d_frame, csv.as_slice());
            out.push(d_frame);
            assert(pieces(out@) =~= old(self).output(csv@)->Ok_0);
            self.line_number = self.line_number + num_lines as u64;
            self.byte_offset = self.byte_offset + data_len as u64;
            self.started = true;
            Ok(out)
        } else {
            Err(
                joined(
                    "Unsupported gp_proto: ",
                    decimal_text(self.gp_proto as u128).as_str(),
                ),
            )
        }
    }

    /// What the end of the data adds to the output.
    pub fn finish(&self) -> (r: Vec<Vec<u8>>)
        ensures
            pieces(r@) == self.ending(),
    {
        let mut out: Vec<Vec<u8>> = Vec::new();
        if self.gp_proto == 1 {
            if !self.started {
                out.push(create_frame(LETTER_F, 0, 0));
            }
            out.push(create_frame(LETTER_D, 0, 0));
        }
        assert(pieces(out@) =~= self.ending());
        out
    }
}

/// All pieces of a stream in protocol 1 from some state on: those of the chunks, then those of
/// the end.
pub open spec fn old_pieces(st: OldStream, chunks: Seq<Seq<u8>>) -> Seq<Seq<u8>>
    recommends
        st.gp_proto == 1,
    decreases chunks.len(),
{
    if chunks.len() == 0 {
        st.ending()
    } else {
        st.output(chunks[0])->Ok_0 + old_pieces(st.after(chunks[0]), chunks.skip(1))
    }
}

proof fn lemma_old_pieces(st: OldStream, chunks: Seq<Seq<u8>>)
    requires
        st.gp_proto == 1,
    ensures
        old_pieces(st, chunks).len() > 0,
        !st.started ==> old_pieces(st, chunks)[0] == old_frame(LETTER_F, 0, 0),
        forall|i: int|
            (if st.started {
                0int
            } else {
                1
            }) <= i < old_pieces(st, chunks).len() ==> (#[trigger] old_pieces(st, chunks)[i])[0]
                != LETTER_F,
    decreases chunks.len(),
{
    let all = old_pieces(st, chunks);
    let from: int = if st.started {
        0
    } else {
        1
    };
    if chunks.len() > 0 {
        let next = st.after(chunks[0]);
        let head = st.output(chunks[0])->Ok_0;
        let rest = old_pieces(next, chunks.skip(1));
        lemma_old_pieces(next, chunks.skip(1));
        assert(all == head + rest);
        assert forall|i: int| from <= i < all.len() implies (#[trigger] all[i])[0] != LETTER_F by {
            if i < head.len() {
                assert(all[i] == head[i]);
            } else {
                assert(all[i] == rest[i - head.len()]);
            }
        }
    }
}

/// Every stream of the older framing in protocol 1 begins with an F frame, whatever its chunks
/// are and also where there are none, and has no other F frame.
pub proof fn law_old_stream_begins_with_its_header(chunks: Seq<Seq<u8>>)
    ensures
        old_pieces(OldStream::at_start(1), chunks).len() > 0,
        old_pieces(OldStream::at_start(1), chunks)[0] == old_frame(LETTER_F, 0, 0),
        forall|i: int|
            1 <= i < old_pieces(OldStream::at_start(1), chunks).len() ==> (
            #[trigger] old_pieces(OldStream::at_start(1), chunks)[i])[0] != LETTER_F,
{
    lemma_old_pieces(OldStream::at_start(1), chunks);
}

// ---------------------------------------------------------------- laws of segments

/// The files that the segments `0` to `upto - 1` read, put together.
pub open spec fn read_by_segments(files: Seq<Seq<char>>, count: int, upto: nat) -> Multiset<
    Seq<char>,
>
    decreases upto,
{
    if upto == 0 {
        Multiset::empty()
    } else {
        read_by_segments(files, count, (upto - 1) as nat).add(
            segment(files, upto - 1, count).to_multiset(),
        )
    }
}

proof fn lemma_one_more_file(files: Seq<Seq<char>>, count: int, upto: nat)
    requires
        count > 0,
        upto <= count,
        files.len() > 0,
    ensures
        read_by_segments(files, count, upto) == if (files.len() - 1) % count < upto {
            read_by_segments(files.drop_last(), count, upto).insert(files.last())
        } else {
            read_by_segments(files.drop_last(), count, upto)
        },
    decreases upto,
{
    broadcast use vstd::seq_lib::group_to_multiset_ensures;
    broadcast use vstd::multiset::group_multiset_axioms;

    if upto > 0 {
        lemma_one_more_file(files, count, (upto - 1) as nat);
        let id = upto - 1;
        if (files.len() - 1) % count == id {
            assert(segment(files, id, count).to_multiset() =~= segment(
                files.drop_last(),
                id,
                count,
            ).to_multiset().insert(files.last()));
        }
        assert(read_by_segments(files, count, upto) =~= if (files.len() - 1) % count < upto {
            read_by_segments(files.drop_last(), count, upto).insert(files.last())
        } else {
            read_by_segments(files.drop_last(), count, upto)
        });
    }
}

proof fn lemma_no_files(count: int, upto: nat)
    ensures
        read_by_segments(Seq::empty(), count, upto) == Multiset::<Seq<char>>::empty(),
    decreases upto,
{
    broadcast use vstd::seq_lib::group_to_multiset_ensures;
    broadcast use vstd::multiset::group_multiset_axioms;

    if upto > 0 {
        lemma_no_files(count, (upto - 1) as nat);
        assert(segment(Seq::empty(), upto - 1, count).to_multiset() =~= Multiset::<
            Seq<char>,
        >::empty());
        assert(read_by_segments(Seq::empty(), count, upto) =~= Multiset::<Seq<char>>::empty());
    }
}

/// Together the segments read every file, and each file exactly as often as it is listed.
pub proof fn law_segments_cover_all_files(files: Seq<Seq<char>>, count: int)
    requires
        count > 0,
    ensures
        read_by_segments(files, count, count as nat) == files.to_multiset(),
    decreases files.len(),
{
    broadcast use vstd::seq_lib::group_to_multiset_ensures;
    broadcast use vstd::multiset::group_multiset_axioms;

    if files.len() == 0 {
        lemma_no_files(count, count as nat);
        assert(files =~= Seq::empty());
        assert(files.to_multiset() =~= Multiset::<Seq<char>>::empty());
    } else {
        law_segments_cover_all_files(files.drop_last(), count);
        lemma_one_more_file(files, count, count as nat);
        assert((files.len() - 1) % count < count);
        assert(files.drop_last().push(files.last()) =~= files);
        assert(files.to_multiset() =~= files.drop_last().to_multiset().insert(files.last()));
    }
}

/// Whether the file that a segment reads at place `k` of its own is the one at place
/// `id + k * count` of the list.
pub open spec fn is_place(files: Seq<Seq<char>>, id: int, count: int, k: int) -> bool {
    id + k * count < files.len() && segment(files, id, count)[k] == files[id + k * count]
}

/// A segment reads the file at its own number and from there on one out of every `count`; no
/// other segment reads a file at any of these places.
pub proof fn law_segment_places(files: Seq<Seq<char>>, id: int, count: int)
    requires
        0 <= id < count,
    ensures
        forall|k: int|
            0 <= k < segment(files, id, count).len() ==> #[trigger] is_place(files, id, count, k),
        id + segment(files, id, count).len() * count >= files.len(),
    decreases files.len(),
{
    if files.len() > 0 {
        let before = files.drop_last();
        let last = files.len() - 1;
        let s = segment(before, id, count);
        let n = s.len() as int;
        law_segment_places(before, id, count);
        if n > 0 {
            assert(is_place(before, id, count, n - 1));
            assert(id + (n - 1) * count < last);
        }
        assert((n - 1) * count == n * count - count) by (nonlinear_arith);
        if last % count == id {
            // The next place of this segment is the last file.
            let q = last / count;
            assert(last == q * count + id) by (nonlinear_arith)
                requires
                    last % count == id,
                    q == last / count,
                    count > 0,
            ;
            assert(n == q) by (nonlinear_arith)
                requires
                    id + n * count >= last,
                    last == q * count + id,
                    n == 0 || id + n * count - count < last,
                    count > 0,
                    n >= 0,
                    q >= 0,
            ;
            assert((n + 1) * count == n * count + count) by (nonlinear_arith);
            assert forall|k: int|
                0 <= k < segment(files, id, count).len() implies #[trigger] is_place(
                files,
                id,
                count,
                k,
            ) by {
                if k < n {
                    assert(is_place(before, id, count, k));
                    assert(id + k * count >= 0) by (nonlinear_arith)
                        requires
                            id >= 0,
                            k >= 0,
                            count > 0,
                    ;
                }
            }
        } else {
            assert(id + n * count != last) by (nonlinear_arith)
                requires
                    last % count != id,
                    0 <= id < count,
                    n >= 0,
            {
                if id + n * count == last {
                    assert(last == n * count + id);
                    vstd::arithmetic::div_mod::lemma_fundamental_div_mod_converse(
                        last,
                        count,
                        n,
                        id,
                    );
                }
            }
            assert(segment(files, id, count) == s);
            assert forall|k: int|
                0 <= k < segment(files, id, count).len() implies #[trigger] is_place(
                files,
                id,
                count,
                k,
            ) by {
                assert(is_place(before, id, count, k));
                assert(id + k * count >= 0) by (nonlinear_arith)
                    requires
                        id >= 0,
                        k >= 0,
                        count > 0,
                ;
            }
        }
    }
}

/// Two different segments never read the same place of the list.
pub proof fn law_segments_are_disjoint(a: int, b: int, count: int, j: int, k: int)
    requires
        0 <= a < count,
        0 <= b < count,
        a != b,
        0 <= j,
        0 <= k,
    ensures
        a + j * count != b + k * count,
{
    vstd::arithmetic::div_mod::lemma_fundamental_div_mod_converse(a + j * count, count, j, a);
    vstd::arithmetic::div_mod::lemma_fundamental_div_mod_converse(b + k * count, count, k, b);
}

// ---------------------------------------------------------------- law of listings

proof fn lemma_parquet_remove(entries: Seq<EntryView>, i: int)
    requires
        0 <= i < entries.len(),
    ensures
        parquet_files(entries).to_multiset() == if is_parquet(entries[i]) {
            parquet_files(entries.remove(i)).to_multiset().insert(entries[i].path->0)
        } else {
            parquet_files(entries.remove(i)).to_multiset()
        },
    decreases entries.len(),
{
    broadcast use vstd::seq_lib::group_to_multiset_ensures;
    broadcast use vstd::multiset::group_multiset_axioms;

    let front = entries.drop_last();
    if i == entries.len() - 1 {
        assert(entries.remove(i) =~= front);
    } else {
        lemma_parquet_remove(front, i);
        let less = entries.remove(i);
        assert(less.drop_last() =~= front.remove(i));
        assert(less.last() == entries.last());
        let x = entries.last().path->0;
        let y = entries[i].path->0;
        if is_parquet(entries.last()) && is_parquet(entries[i]) {
            let m = parquet_files(front.remove(i)).to_multiset();
            assert(m.insert(y).insert(x) =~= m.insert(x).insert(y));
        }
    }
}

proof fn lemma_parquet_multiset(a: Seq<EntryView>, b: Seq<EntryView>)
    requires
        a.to_multiset() == b.to_multiset(),
    ensures
        parquet_files(a).to_multiset() == parquet_files(b).to_multiset(),
    decreases a.len(),
{
    broadcast use vstd::seq_lib::group_to_multiset_ensures;
    broadcast use vstd::multiset::group_multiset_axioms;

    assert(a.len() == a.to_multiset().len());
    assert(b.len() == b.to_multiset().len());
    if a.len() > 0 {
        let last = a.len() - 1;
        assert(a.contains(a[last]));
        assert(a.to_multiset().count(a[last]) > 0);
        assert(b.contains(a[last]));
        let i = choose|i: int| 0 <= i < b.len() && b[i] == a[last];
        lemma_parquet_remove(a, last);
        lemma_parquet_remove(b, i);
        assert(a.remove(last).to_multiset() =~= b.remove(i).to_multiset());
        lemma_parquet_multiset(a.remove(last), b.remove(i));
    } else {
        assert(a =~= b);
    }
}

/// The order in which a directory is listed does not matter: all servers that see the same
/// entries read the same files for a segment.
pub proof fn law_listing_order_does_not_matter(
    q: QueryView,
    a: Seq<EntryView>,
    b: Seq<EntryView>,
)
    requires
        a.to_multiset() == b.to_multiset(),
    ensures
        source_of(q, Ok(a)) == source_of(q, Ok(b)),
{
    broadcast use vstd::seq_lib::group_to_multiset_ensures;

    lemma_parquet_multiset(a, b);
    law_sorting_forgets_the_order(parquet_files(a), parquet_files(b));
    assert(parquet_files(a).len() == parquet_files(a).to_multiset().len());
    assert(parquet_files(b).len() == parquet_files(b).to_multiset().len());
}

/// A query for one of a number of segments.
pub open spec fn for_segment(q: QueryView, id: usize, count: usize) -> QueryView {
    QueryView { segment_id: Some(id), segment_count: Some(count), ..q }
}

/// A query over a directory reads, over all of its segments, every parquet file in it exactly
/// once. A segment that has no file gets the columns of the first one and no rows.
pub proof fn law_directory_is_read_once(
    q: QueryView,
    entries: Seq<EntryView>,
    id: usize,
    count: usize,
)
    requires
        q.table_type == TableType::Parquet,
        q.file_list is None,
        parquet_files(entries).len() > 0,
        id < count,
    ensures
        all_files(q, Ok(entries)) is Ok,
        read_by_segments(all_files(q, Ok(entries))->Ok_0, count as int, count as nat)
            == parquet_files(entries).to_multiset(),
        source_of(for_segment(q, id, count), Ok(entries)) == {
            let files = all_files(q, Ok(entries))->Ok_0;
            let mine = segment(files, id as int, count as int);
            Ok::<SourceView, Seq<char>>(
                if mine.len() > 0 {
                    SourceView::Files(mine)
                } else {
                    SourceView::SchemaOf(files[0])
                },
            )
        },
{
    let files = sorted(parquet_files(entries));
    law_sorting_keeps_the_texts(parquet_files(entries));
    law_segments_cover_all_files(files, count as int);
    assert(all_files(q, Ok(entries)) == Ok::<Seq<Seq<char>>, Seq<char>>(files));
    assert(all_files(for_segment(q, id, count), Ok(entries)) == Ok::<Seq<Seq<char>>, Seq<char>>(
        files,
    ));
}

// ---------------------------------------------------------------- law of views

/// How many view names an engine has given out after some queries.
pub open spec fn names_given(queries: Seq<QueryView>) -> int
    decreases queries.len(),
{
    if queries.len() == 0 {
        0
    } else {
        names_given(queries.drop_last()) + names_taken(queries.last())
    }
}

/// Whether an engine registered a view by a name for one of some queries, one after the other.
pub open spec fn registered(queries: Seq<QueryView>, name: Seq<char>) -> bool {
    exists|i: int|
        0 <= i < queries.len() && #[trigger] registers(
            steps_of(queries[i], names_given(queries.take(i)) as u64),
            name,
        )
}

/// Whether one of some steps registers a view by a name.
pub open spec fn registers(steps: Seq<TransformView>, name: Seq<char>) -> bool {
    exists|k: int|
        0 <= k < steps.len() && #[trigger] steps[k] is Filter && steps[k]->view == name
}

proof fn lemma_names_given(queries: Seq<QueryView>, i: int)
    requires
        0 <= i <= queries.len(),
    ensures
        0 <= names_given(queries.take(i)) <= i,
        i < queries.len() ==> names_given(queries.take(i)) + names_taken(queries[i])
            <= names_given(queries),
    decreases queries.len(),
{
    let all = queries.take(queries.len() as int);
    assert(all =~= queries);
    if i < queries.len() {
        let before = queries.drop_last();
        lemma_names_given(before, i);
        assert(before.take(i) =~= queries.take(i));
        if i == queries.len() - 1 {
            assert(queries.take(i) =~= before);
        }
    } else if i > 0 {
        let before = queries.drop_last();
        lemma_names_given(before, i - 1);
        assert(before.take(i - 1) =~= before);
    }
}

/// Whether two texts are the same but for a name: where one has `from`, the other has `to`.
pub open spec fn same_but_name(
    a: Seq<char>,
    b: Seq<char>,
    from: Seq<char>,
    to: Seq<char>,
) -> bool {
    exists|head: Seq<char>, tail: Seq<char>|
        a == #[trigger] (head + from + tail) && b == head + to + tail
}

/// Whether two steps are the same but for the name of a view: where one has `from`, the other
/// has `to`.
pub open spec fn same_but_view(
    a: TransformView,
    b: TransformView,
    from: Seq<char>,
    to: Seq<char>,
) -> bool {
    match (a, b) {
        (
            TransformView::Filter { view, sql },
            TransformView::Filter { view: other_view, sql: other_sql },
        ) => view == from && other_view == to && same_but_name(sql, other_sql, from, to),
        _ => a == b,
    }
}

proof fn lemma_same_sql(q: QueryView, from: Seq<char>, to: Seq<char>)
    ensures
        same_but_name(
            sql_text(from, q.projection, q.filter, q.limit),
            sql_text(to, q.projection, q.filter, q.limit),
            from,
            to,
        ),
{
    let head = "SELECT "@ + (match q.projection {
        Some(cols) => join(cols, ", "@),
        None => "*"@,
    }) + " FROM "@;
    let condition: Seq<char> = match q.filter {
        Some(condition) => " WHERE "@ + condition,
        None => Seq::empty(),
    };
    let limit: Seq<char> = match q.limit {
        Some(n) => " LIMIT "@ + decimal(n as nat),
        None => Seq::empty(),
    };
    let tail = condition + limit;
    assert(sql_text(from, q.projection, q.filter, q.limit) =~= head + from + tail);
    assert(sql_text(to, q.projection, q.filter, q.limit) =~= head + to + tail);
}

/// A query is not affected by the queries that the engine served before it, whether or not
/// their views are still there: its view has a name that none of them used, and its steps are
/// those that it takes on a new engine, with that name in place of the first one. Nor can the
/// view have the name of a table, where no table is named like a view.
pub proof fn law_earlier_queries_do_not_matter(
    queries: Seq<QueryView>,
    q: QueryView,
    tables: Set<Seq<char>>,
)
    requires
        queries.len() < u64::MAX,
        forall|t: Seq<char>| #[trigger]
            tables.contains(t) ==> !"temp_filtered_"@.is_prefix_of(t),
    ensures
        0 <= names_given(queries) < u64::MAX,
        ({
            let number = names_given(queries) as u64;
            &&& steps_of(q, number).len() == steps_of(q, 0).len()
            &&& forall|k: int|
                0 <= k < steps_of(q, 0).len() ==> same_but_view(
                    #[trigger] steps_of(q, 0)[k],
                    steps_of(q, number)[k],
                    view_name(0),
                    view_name(number),
                )
            &&& forall|name: Seq<char>| #[trigger]
                registers(steps_of(q, number), name) ==> !registered(queries, name)
                    && !tables.contains(name)
        }),
{
    lemma_names_given(queries, queries.len() as int);
    assert(queries.take(queries.len() as int) =~= queries);
    let number = names_given(queries) as u64;
    lemma_same_sql(q, view_name(0), view_name(number));
    assert forall|name: Seq<char>| #[trigger] registers(
        steps_of(q, number),
        name,
    ) implies !registered(queries, name) && !tables.contains(name) by {
        assert(name == view_name(number));
        assert("temp_filtered_"@.is_prefix_of(name));
        if registered(queries, name) {
            let i = choose|i: int|
                0 <= i < queries.len() && #[trigger] registers(
                    steps_of(queries[i], names_given(queries.take(i)) as u64),
                    name,
                );
            let earlier = names_given(queries.take(i)) as u64;
            lemma_names_given(queries, i);
            assert(name == view_name(earlier));
            assert(earlier < number);
            let n = "temp_filtered_"@.len() as int;
            assert(decimal(earlier as nat) =~= view_name(earlier).skip(n));
            assert(decimal(number as nat) =~= view_name(number).skip(n));
            law_decimal_injective(earlier as nat, number as nat);
        }
    }
}

// ---------------------------------------------------------------- laws of queries

/// The query text is made of clauses that do not depend on each other. Without columns it asks
/// for all of them, and otherwise for those given; a condition adds its clause, and a limit adds
/// its own clause at the end, whatever the others are.
pub proof fn law_clauses_of_a_query(
    table: Seq<char>,
    columns: Seq<Seq<char>>,
    projection: Option<Seq<Seq<char>>>,
    condition: Seq<char>,
    filter: Option<Seq<char>>,
    n: usize,
)
    ensures
        sql_text(table, None, None, None) == "SELECT * FROM "@ + table,
        sql_text(table, Some(columns), None, None) == "SELECT "@ + join(columns, ", "@)
            + " FROM "@ + table,
        sql_text(table, projection, Some(condition), None) == sql_text(
            table,
            projection,
            None,
            None,
        ) + " WHERE "@ + condition,
        sql_text(table, projection, filter, Some(n)) == sql_text(table, projection, filter, None)
            + " LIMIT "@ + decimal(n as nat),
{
    reveal_strlit("SELECT * FROM ");
    reveal_strlit("SELECT ");
    reveal_strlit("*");
    reveal_strlit(" FROM ");
    assert(sql_text(table, None, None, None) =~= "SELECT * FROM "@ + table);
    assert(sql_text(table, Some(columns), None, None) =~= "SELECT "@ + join(columns, ", "@)
        + " FROM "@ + table);
    assert(sql_text(table, projection, Some(condition), None) =~= sql_text(
        table,
        projection,
        None,
        None,
    ) + " WHERE "@ + condition);
    assert(sql_text(table, projection, filter, Some(n)) =~= sql_text(
        table,
        projection,
        filter,
        None,
    ) + " LIMIT "@ + decimal(n as nat));
}

/// Everything that a query asks of its rows is done in its steps, and nothing else: the columns
/// are selected first; a condition and a limit come last, the two of them in one query text
/// over the view, and a limit alone as a step of its own.
pub proof fn law_steps_do_what_is_asked(q: QueryView, number: u64)
    ensures
        q.projection is Some ==> steps_of(q, number).len() > 0 && steps_of(q, number)[0]
            == TransformView::Select(q.projection->0),
        q.filter is Some ==> {
            let last = steps_of(q, number).last();
            &&& last is Filter
            &&& last->view == "temp_filtered_"@ + decimal(number as nat)
            &&& last->sql == sql_text(last->view, q.projection, q.filter, q.limit)
            &&& q.limit is Some ==> (" LIMIT "@ + decimal(q.limit->0 as nat)).is_suffix_of(
                last->sql,
            )
        },
        q.filter is None && q.limit is Some ==> steps_of(q, number).last() == TransformView::Limit(
            q.limit->0,
        ),
        steps_of(q, number).len() == (if q.projection is Some {
            1int
        } else {
            0
        }) + (if q.filter is Some || q.limit is Some {
            1int
        } else {
            0
        }),
{
    let steps = steps_of(q, number);
    if q.filter is Some {
        assert(steps.last() is Filter);
        if q.limit is Some {
            let view = view_name(number);
            let clause = " LIMIT "@ + decimal(q.limit->0 as nat);
            let front = sql_text(view, q.projection, q.filter, None);
            law_clauses_of_a_query(
                view,
                Seq::empty(),
                q.projection,
                Seq::empty(),
                q.filter,
                q.limit->0,
            );
            let sql = sql_text(view, q.projection, q.filter, q.limit);
            assert(sql =~= front + clause);
            assert(sql.subrange(sql.len() - clause.len(), sql.len() as int) =~= clause);
        }
    }
}

// ---------------------------------------------------------------- laws of sources

/// Whether a file stands at a place of a list.
pub open spec fn stands_at(file: Seq<char>, files: Seq<Seq<char>>, at: int) -> bool {
    0 <= at < files.len() && file == files[at]
}

/// Whether a query of one of a number of segments reads its share of some files: from the one
/// at the segment's number on, one out of every `count`, and none but those. Where that is no
/// file at all, it gets the columns of the first one.
pub open spec fn reads_its_share(
    source: Result<SourceView, Seq<char>>,
    files: Seq<Seq<char>>,
    id: int,
    count: int,
) -> bool {
    match source {
        Ok(SourceView::Files(mine)) => {
            &&& mine.len() > 0
            &&& forall|k: int|
                0 <= k < mine.len() ==> #[trigger] stands_at(mine[k], files, id + k * count)
            &&& id + mine.len() * count >= files.len()
        },
        Ok(SourceView::SchemaOf(file)) => id >= files.len() && file == files[0],
        _ => false,
    }
}

proof fn lemma_share(files: Seq<Seq<char>>, id: int, count: int)
    requires
        files.len() > 0,
        0 <= id < count,
    ensures
        reads_its_share(
            Ok::<SourceView, Seq<char>>(
                if segment(files, id, count).len() > 0 {
                    SourceView::Files(segment(files, id, count))
                } else {
                    SourceView::SchemaOf(files[0])
                },
            ),
            files,
            id,
            count,
        ),
{
    law_segment_places(files, id, count);
    let mine = segment(files, id, count);
    if mine.len() > 0 {
        assert forall|k: int| 0 <= k < mine.len() implies #[trigger] stands_at(
            mine[k],
            files,
            id + k * count,
        ) by {
            assert(is_place(files, id, count, k));
            assert(id + k * count >= 0) by (nonlinear_arith)
                requires
                    id >= 0,
                    k >= 0,
                    count > 0,
            ;
        }
    } else {
        let n = mine.len() as int;
        assert(n * count == 0) by (nonlinear_arith)
            requires
                n == 0,
        ;
    }
}

/// A query that lists its files shares them among its segments: each one reads every `count`-th
/// file from its own number on, and together they read each file as often as it is listed.
pub proof fn law_listed_files_are_shared(
    q: QueryView,
    files: Seq<Seq<char>>,
    listing: Result<Seq<EntryView>, Seq<char>>,
    id: usize,
    count: usize,
)
    requires
        q.table_type == TableType::Parquet,
        q.file_list == Some(files),
        files.len() > 0,
        id < count,
    ensures
        reads_its_share(
            source_of(for_segment(q, id, count), listing),
            files,
            id as int,
            count as int,
        ),
        source_of(for_segment(q, id, count), listing) == Ok::<SourceView, Seq<char>>(
            if segment(files, id as int, count as int).len() > 0 {
                SourceView::Files(segment(files, id as int, count as int))
            } else {
                SourceView::SchemaOf(files[0])
            },
        ),
        read_by_segments(files, count as int, count as nat) == files.to_multiset(),
{
    lemma_share(files, id as int, count as int);
    law_segments_cover_all_files(files, count as int);
}

/// A query over a directory shares its parquet files, in order, in the same way.
pub proof fn law_directory_files_are_shared(
    q: QueryView,
    entries: Seq<EntryView>,
    id: usize,
    count: usize,
)
    requires
        q.table_type == TableType::Parquet,
        q.file_list is None,
        parquet_files(entries).len() > 0,
        id < count,
    ensures
        reads_its_share(
            source_of(for_segment(q, id, count), Ok(entries)),
            sorted(parquet_files(entries)),
            id as int,
            count as int,
        ),
{
    law_sorting_keeps_the_texts(parquet_files(entries));
    lemma_share(sorted(parquet_files(entries)), id as int, count as int);
}

proof fn lemma_no_share(files: Seq<Seq<char>>, id: int, count: int)
    requires
        0 < count <= id,
    ensures
        segment(files, id, count).len() == 0,
    decreases files.len(),
{
    if files.len() > 0 {
        lemma_no_share(files.drop_last(), id, count);
        assert((files.len() - 1) % count < count);
    }
}

/// A segment whose number is beyond the number of segments reads no file, and gets the columns
/// of the first one.
pub proof fn law_segments_out_of_range(
    q: QueryView,
    listing: Result<Seq<EntryView>, Seq<char>>,
    id: usize,
    count: usize,
)
    requires
        q.table_type == TableType::Parquet,
        0 < count <= id,
        q.file_list is Some && q.file_list->0.len() > 0 || q.file_list is None && listing is Ok
            && parquet_files(listing->Ok_0).len() > 0,
    ensures
        source_of(for_segment(q, id, count), listing) == Ok::<SourceView, Seq<char>>(
            SourceView::SchemaOf(
                if q.file_list is Some {
                    q.file_list->0[0]
                } else {
                    sorted(parquet_files(listing->Ok_0))[0]
                },
            ),
        ),
{
    if q.file_list is Some {
        lemma_no_share(q.file_list->0, id as int, count as int);
    } else {
        law_sorting_keeps_the_texts(parquet_files(listing->Ok_0));
        lemma_no_share(sorted(parquet_files(listing->Ok_0)), id as int, count as int);
    }
}

/// What the report of each stage begins with.
pub proof fn law_reports_of_stages()
    ensures
        Stage::ReadSchemaFile.label() == "Failed to read file for schema inference: "@,
        Stage::EmptyDataframe.label() == "Failed to create empty dataframe: "@,
        Stage::FilesDataframe.label() == "Failed to create dataframe from files: "@,
        Stage::RegisterDelta.label() == "Failed to register delta table: "@,
        Stage::GetTable.label() == "Failed to get table: "@,
        Stage::Projection.label() == "Failed to apply projection: "@,
        Stage::RegisterTempTable.label() == "Failed to register temp table: "@,
        Stage::FilterSql.label() == "Failed to execute filter SQL: "@,
        Stage::Limit.label() == "Failed to apply limit: "@,
        Stage::Execute.label() == "Failed to execute query: "@,
{
}

/// Without the number of the segment, or of all segments, a query reads all files: those that
/// it lists as they are listed, or those of its directory in order.
pub proof fn law_without_segments_all_files_are_read(
    q: QueryView,
    listing: Result<Seq<EntryView>, Seq<char>>,
)
    requires
        q.table_type == TableType::Parquet,
        q.segment_id is None || q.segment_count is None || q.segment_count == Some(0usize),
    ensures
        q.file_list is Some && q.file_list->0.len() > 0 ==> source_of(q, listing) == Ok::<
            SourceView,
            Seq<char>,
        >(SourceView::Files(q.file_list->0)),
        q.file_list is None && listing is Ok && parquet_files(listing->Ok_0).len() > 0
            ==> source_of(q, listing) == Ok::<SourceView, Seq<char>>(
            SourceView::Files(sorted(parquet_files(listing->Ok_0))),
        ),
{
    if q.file_list is None && listing is Ok {
        law_sorting_keeps_the_texts(parquet_files(listing->Ok_0));
    }
}

/// When a query has no source: where its directory cannot be read or has no parquet file, where
/// it lists no file, and where it asks for an Iceberg table. A Delta table is registered by its
/// own name or by a fixed one, whatever its segments are.
pub proof fn law_sources_that_fail(q: QueryView, listing: Result<Seq<EntryView>, Seq<char>>)
    ensures
        q.table_type == TableType::Parquet && q.file_list is None && listing is Err ==> source_of(
            q,
            listing,
        ) == Err::<SourceView, Seq<char>>(
            "Failed to read directory "@ + q.uri + ": "@ + listing->Err_0,
        ),
        q.table_type == TableType::Parquet && q.file_list is None && listing is Ok
            && parquet_files(listing->Ok_0).len() == 0 ==> source_of(q, listing) == Err::<
            SourceView,
            Seq<char>,
        >("No parquet files found in directory: "@ + q.uri),
        q.table_type == TableType::Parquet && q.file_list is Some && q.file_list->0.len() == 0
            ==> source_of(q, listing) == Err::<SourceView, Seq<char>>(
            "No files available to infer schema"@,
        ),
        q.table_type == TableType::Iceberg ==> source_of(q, listing) == Err::<
            SourceView,
            Seq<char>,
        >("Iceberg support is not fully implemented yet"@),
        q.table_type == TableType::Delta && q.table_name is Some ==> source_of(q, listing) == Ok::<
            SourceView,
            Seq<char>,
        >(SourceView::Table { name: q.table_name->0, uri: q.uri }),
        q.table_type == TableType::Delta && q.table_name is None ==> source_of(q, listing) == Ok::<
            SourceView,
            Seq<char>,
        >(SourceView::Table { name: "delta_table"@, uri: q.uri }),
        wants_listing(q) <==> q.table_type == TableType::Parquet && q.file_list is None,
{
    if q.table_type == TableType::Parquet && q.file_list is Some && q.file_list->0.len() == 0 {
        let files = q.file_list->0;
        assert(segmented(files, q.segment_id, q.segment_count).len() == 0);
    }
}

/// The parquet files of a directory are its entries that are files and whose path is valid text
/// that ends with `.parquet`: all of them, in the order of the entries.
pub proof fn law_parquet_files(entries: Seq<EntryView>)
    ensures
        parquet_files(entries) == entries.filter(
            |e: EntryView| e.is_file && e.path is Some && ".parquet"@.is_suffix_of(e.path->0),
        ).map_values(|e: EntryView| e.path->0),
    decreases entries.len(),
{
    let p = |e: EntryView| e.is_file && e.path is Some && ".parquet"@.is_suffix_of(e.path->0);
    let f = |e: EntryView| e.path->0;
    reveal(Seq::filter);
    if entries.len() == 0 {
        assert(parquet_files(entries) =~= entries.filter(p).map_values(f));
    } else {
        law_parquet_files(entries.drop_last());
        assert(parquet_files(entries) =~= entries.filter(p).map_values(f));
    }
}

// ---------------------------------------------------------------- laws of batches

/// The chunks that the batches of a query give, one after the other, up to the first error.
pub open spec fn chunks_of(outcomes: Seq<BatchOutcome>) -> Seq<Seq<u8>>
    decreases outcomes.len(),
{
    if outcomes.len() == 0 {
        Seq::empty()
    } else {
        match chunk_of(outcomes[0]) {
            Err(_) => Seq::empty(),
            Ok(None) => chunks_of(outcomes.skip(1)),
            Ok(Some(csv)) => seq![csv] + chunks_of(outcomes.skip(1)),
        }
    }
}

/// The CSV that was written of a batch.
pub open spec fn csv_written(outcome: BatchOutcome) -> Seq<u8> {
    outcome->Written_0->Ok_0@
}

/// What is written of a batch is its chunk, byte for byte, and nothing is a chunk where there is
/// nothing. A batch that was not delivered or not written is an error that says so.
pub proof fn law_a_chunk_is_what_was_written(csv: Vec<u8>, e: String)
    ensures
        csv@.len() > 0 ==> chunk_of(BatchOutcome::Written(Ok(csv))) == Ok::<
            Option<Seq<u8>>,
            Seq<char>,
        >(Some(csv@)),
        csv@.len() == 0 ==> chunk_of(BatchOutcome::Written(Ok(csv))) == Ok::<
            Option<Seq<u8>>,
            Seq<char>,
        >(None),
        chunk_of(BatchOutcome::Written(Err(e))) == Err::<Option<Seq<u8>>, Seq<char>>(
            "Failed to convert batch to CSV: "@ + e@,
        ),
        chunk_of(BatchOutcome::Undelivered(e)) == Err::<Option<Seq<u8>>, Seq<char>>(
            "Failed to get batch: "@ + e@,
        ),
        chunk_of(BatchOutcome::TaskFailed(e)) == Err::<Option<Seq<u8>>, Seq<char>>(
            "Failed to spawn blocking task: "@ + e@,
        ),
{
}

/// What the CSV writer gives is passed on as it is; its error is passed on with a word of what
/// failed.
pub proof fn law_written_bytes_are_kept(bytes: Seq<u8>, e: Seq<char>)
    ensures
        written(Ok(bytes)) == Ok::<Seq<u8>, Seq<char>>(bytes),
        written(Err(e)) == Err::<Seq<u8>, Seq<char>>("Failed to write CSV: "@ + e),
{
}

/// No row is lost or added: where all batches of a query were written, its chunks put together
/// are what was written of the batches put together. No chunk is empty.
pub proof fn law_no_row_is_lost(outcomes: Seq<BatchOutcome>)
    requires
        forall|i: int|
            0 <= i < outcomes.len() ==> #[trigger] outcomes[i] is Written
                && outcomes[i]->Written_0 is Ok,
    ensures
        chunks_of(outcomes).flatten() == outcomes.map_values(
            |o: BatchOutcome| csv_written(o),
        ).flatten(),
        forall|k: int|
            0 <= k < chunks_of(outcomes).len() ==> (#[trigger] chunks_of(outcomes)[k]).len() > 0,
    decreases outcomes.len(),
{
    let f = |o: BatchOutcome| csv_written(o);
    let all = outcomes.map_values(f);
    if outcomes.len() == 0 {
        assert(all =~= Seq::empty());
    } else {
        let rest = outcomes.skip(1);
        assert forall|i: int| 0 <= i < rest.len() implies #[trigger] rest[i] is Written
            && rest[i]->Written_0 is Ok by {
            assert(rest[i] == outcomes[i + 1]);
        }
        law_no_row_is_lost(rest);
        assert(outcomes[0] is Written && outcomes[0]->Written_0 is Ok);
        let csv = csv_written(outcomes[0]);
        assert(all.first() == csv);
        assert(all.drop_first() =~= rest.map_values(f));
        let more = chunks_of(rest);
        let chunks = chunks_of(outcomes);
        if csv.len() == 0 {
            assert(chunks == more);
            assert(csv + all.drop_first().flatten() =~= all.drop_first().flatten());
        } else {
            assert(chunks == seq![csv] + more);
            assert(chunks.drop_first() =~= more);
            assert(chunks.first() == csv);
            assert forall|k: int| 0 <= k < chunks.len() implies (#[trigger] chunks[k]).len()
                > 0 by {
                if k > 0 {
                    assert(chunks[k] == more[k - 1]);
                }
            }
        }
    }
}

// ---------------------------------------------------------------- laws of the older framing

/// A chunk in the older framing is, in protocol 1, a frame with the offset, one with the line
/// number, and one with the chunk itself; in protocol 0 it is the chunk alone. Other protocols
/// are refused. Each frame is its letter, a length and a number, in four bytes each.
pub proof fn law_old_pieces_of_a_chunk(st: OldStream, csv: Seq<u8>)
    requires
        csv.len() > 0,
    ensures
        st.gp_proto == 0 ==> st.output(csv) == Ok::<Seq<Seq<u8>>, Seq<char>>(seq![csv]),
        st.gp_proto > 1 ==> st.output(csv) == Err::<Seq<Seq<u8>>, Seq<char>>(
            "Unsupported gp_proto: "@ + decimal(st.gp_proto as nat),
        ),
        st.gp_proto == 1 ==> {
            let out = st.output(csv)->Ok_0;
            let n = out.len();
            &&& st.output(csv) is Ok
            &&& n == if st.started { 3nat } else { 4 }
            &&& !st.started ==> out[0] == seq![0x46u8] + big_endian(0, 4) + big_endian(0, 4)
            &&& out[n - 3] == seq![0x4fu8] + big_endian(0, 4) + big_endian(
                st.byte_offset as nat % 0x1_0000_0000,
                4,
            )
            &&& out[n - 2] == seq![0x4cu8] + big_endian(0, 4) + big_endian(
                st.line_number as nat % 0x1_0000_0000,
                4,
            )
            &&& out[n - 1] == seq![0x44u8] + big_endian(csv.len() % 0x1_0000_0000, 4)
                + big_endian(csv.len() % 0x1_0000_0000, 4) + csv
        },
        st.output(Seq::empty()) == Ok::<Seq<Seq<u8>>, Seq<char>>(Seq::empty()),
{
}

/// The older stream after some chunks.
pub open spec fn old_reached(st: OldStream, chunks: Seq<Seq<u8>>) -> OldStream
    decreases chunks.len(),
{
    if chunks.len() == 0 {
        st
    } else {
        old_reached(st, chunks.drop_last()).after(chunks.last())
    }
}

/// In the older framing the offset is the number of bytes sent, and the line number is one more
/// than the number of line feeds sent, as long as no chunk is longer than a frame can say.
pub proof fn law_old_stream_position(chunks: Seq<Seq<u8>>)
    requires
        chunks.flatten().len() < u64::MAX,
        forall|i: int| 0 <= i < chunks.len() ==> (#[trigger] chunks[i]).len() < 0x1_0000_0000,
    ensures
        old_reached(OldStream::at_start(1), chunks).gp_proto == 1,
        old_reached(OldStream::at_start(1), chunks).byte_offset == chunks.flatten().len(),
        old_reached(OldStream::at_start(1), chunks).line_number == 1 + count_of(
            chunks.flatten(),
            NEWLINE,
        ),
    decreases chunks.len(),
{
    if chunks.len() > 0 {
        let before = chunks.drop_last();
        let c = chunks.last();
        assert(chunks[chunks.len() - 1].len() < 0x1_0000_0000);
        assert forall|i: int| 0 <= i < before.len() implies (#[trigger] before[i]).len()
            < 0x1_0000_0000 by {
            assert(before[i] == chunks[i]);
        }
        before.lemma_flatten_push(c);
        assert(before.push(c) =~= chunks);
        assert(chunks.flatten() == before.flatten() + c);
        law_old_stream_position(before);
        lemma_count_concat(before.flatten(), c, NEWLINE);
        lemma_count_bound(c, NEWLINE);
        lemma_count_bound(chunks.flatten(), NEWLINE);
        if c.len() == 0 {
            assert(chunks.flatten() =~= before.flatten());
        }
    }
}

/// A stream in the older framing ends, in protocol 1, with a D frame without data, behind
/// whatever was sent; in other protocols it just ends, and nothing is counted.
pub proof fn law_old_stream_ends(st: OldStream, csv: Seq<u8>)
    ensures
        st.gp_proto == 1 ==> st.ending().len() == (if st.started { 1nat } else { 2 })
            && st.ending().last() == seq![0x44u8] + big_endian(0, 4) + big_endian(0, 4),
        st.gp_proto != 1 ==> st.ending().len() == 0 && st.after(csv) == st,
        csv.len() == 0 ==> st.after(csv) == st,
        st.room() <==> st.line_number <= u64::MAX - u32::MAX && st.byte_offset <= u64::MAX
            - u32::MAX,
{
}

/// Which batches can be written: all but those with a decimal column that has more digits behind
/// the point than digits, or a timestamp whose local time is before or behind all dates.
pub proof fn law_what_can_be_written(columns: Seq<ColumnView>)
    ensures
        writable(columns) <==> forall|i: int|
            0 <= i < columns.len() ==> match (#[trigger] columns[i]).kind {
                ColumnKind::Other => true,
                ColumnKind::Decimal { precision, scale } => scale <= precision,
                ColumnKind::Zoned => forall|k: int|
                    0 <= k < columns[i].years.len() ==> #[trigger] columns[i].years[k] != Some(
                        "-262144"@,
                    ) && columns[i].years[k] != Some("+262143"@),
            },
{
    if writable(columns) {
        assert forall|i: int| 0 <= i < columns.len() implies match (#[trigger] columns[i]).kind {
            ColumnKind::Other => true,
            ColumnKind::Decimal { precision, scale } => scale <= precision,
            ColumnKind::Zoned => forall|k: int|
                0 <= k < columns[i].years.len() ==> #[trigger] columns[i].years[k] != Some(
                    "-262144"@,
                ) && columns[i].years[k] != Some("+262143"@),
        } by {
            assert(column_writable(columns[i]));
            if columns[i].kind is Zoned {
                assert forall|k: int| 0 <= k < columns[i].years.len() implies
                    #[trigger] columns[i].years[k] != Some("-262144"@) && columns[i].years[k]
                    != Some("+262143"@) by {
                    assert(has_dates(columns[i].years[k]));
                }
            }
        }
    } else {
        let i = choose|i: int| 0 <= i < columns.len() && !column_writable(#[trigger] columns[i]);
        if columns[i].kind is Zoned {
            let years = columns[i].years;
            let k = choose|k: int| 0 <= k < years.len() && !has_dates(#[trigger] years[k]);
            assert(!(columns[i].years[k] != Some("-262144"@) && columns[i].years[k] != Some(
                "+262143"@,
            )));
        }
    }
}

} // verus!
