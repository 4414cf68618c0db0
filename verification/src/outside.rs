//! The outside functions that the library calls, each with the contract it relies on.

use crate::text::opt_text;
use arrow::array::RecordBatch;
use arrow::datatypes::DataType;
use arrow::util::display::{ArrayFormatter, FormatOptions};
use bytes::BytesMut;
use vstd::prelude::*;
use vstd::utf8::{decode_utf8, is_ascii_chars, valid_utf8};

verus! {

/// Whether `needle` stands in `haystack` at position `at`.
pub open spec fn occurs_at(haystack: Seq<u8>, needle: Seq<u8>, at: int) -> bool {
    &&& 0 <= at
    &&& at + needle.len() <= haystack.len()
    &&& haystack.subrange(at, at + needle.len()) == needle
}

/// Calls `memchr::memmem::find`: the position of the first occurrence of `needle` in
/// `haystack`, or `None` where there is none.
#[verifier::external_body]
pub(crate) fn find_bytes(haystack: &[u8], needle: &[u8]) -> (r: Option<usize>)
    ensures
        match r {
            Some(at) => occurs_at(haystack@, needle@, at as int) && forall|k: int|
                0 <= k < at ==> !occurs_at(haystack@, needle@, k),
            None => forall|k: int| !occurs_at(haystack@, needle@, k),
        },
{
    memchr::memmem::find(haystack, needle)
}

/// How often the byte `b` occurs in `s`.
pub open spec fn count_of(s: Seq<u8>, b: u8) -> nat
    decreases s.len(),
{
    if s.len() == 0 {
        0
    } else {
        count_of(s.drop_last(), b) + if s.last() == b {
            1nat
        } else {
            0nat
        }
    }
}

/// Calls `bytecount::count`: how often `needle` occurs in `haystack`.
#[verifier::external_body]
pub(crate) fn count_bytes(haystack: &[u8], needle: u8) -> (r: usize)
    ensures
        r == count_of(haystack@, needle),
{
    bytecount::count(haystack, needle)
}

/// The growable byte buffer of the `bytes` crate, carried as an opaque value; what it holds is
/// `buffered`.
#[verifier::external_type_specification]
#[verifier::external_body]
pub struct ExBytesMut(BytesMut);

/// The bytes that a buffer holds.
pub uninterp spec fn buffered(b: BytesMut) -> Seq<u8>;

/// Calls `BytesMut::with_capacity`: a buffer that holds nothing yet.
#[verifier::external_body]
pub(crate) fn buffer_with_capacity(capacity: usize) -> (r: BytesMut)
    requires
        capacity <= isize::MAX,
    ensures
        buffered(r) == Seq::<u8>::empty(),
{
    BytesMut::with_capacity(capacity)
}

/// Calls `BytesMut::extend_from_slice`: appends bytes to what the buffer holds.
#[verifier::external_body]
pub(crate) fn buffer_extend(b: &mut BytesMut, extend: &[u8])
    requires
        buffered(*old(b)).len() + extend@.len() <= isize::MAX,
    ensures
        buffered(*final(b)) == buffered(*old(b)) + extend@,
{
    b.extend_from_slice(extend);
}

/// Calls `BytesMut::as_ref`: the bytes that the buffer holds.
#[verifier::external_body]
pub(crate) fn buffer_bytes(b: &BytesMut) -> (r: &[u8])
    ensures
        r@ == buffered(*b),
{
    b.as_ref()
}

/// A batch of rows: a `RecordBatch` of the `arrow` crate, carried as an opaque value. What it
/// holds is seen only through `columns_of` and `csv_of`.
#[verifier::external_body]
pub struct Batch {
    pub rows: RecordBatch,
}

/// What there is to know of a column before it is written as CSV. A column that is encoded as a
/// dictionary or by runs is what its values are.
#[derive(Debug, Clone, Copy, PartialEq, Eq, Structural)]
pub enum ColumnKind {
    /// Decimal numbers.
    Decimal { precision: u8, scale: i8 },
    /// Timestamps with a time zone.
    Zoned,
    /// Anything else.
    Other,
}

/// A column of a batch: its kind and, for timestamps with a time zone, the local year of each
/// row. A row without a value has an empty text; one whose value is no time at all has none.
pub struct ColumnView {
    pub kind: ColumnKind,
    pub years: Seq<Option<Seq<char>>>,
}

/// The columns of a batch.
pub uninterp spec fn columns_of(batch: Batch) -> Seq<ColumnView>;

/// Calls `RecordBatch::num_columns`: how many columns a batch has.
#[verifier::external_body]
pub(crate) fn column_count(batch: &Batch) -> (r: usize)
    ensures
        r == columns_of(*batch).len(),
{
    batch.rows.num_columns()
}

/// Calls `Array::data_type` on a column of a batch, and takes the type apart: decimals of either
/// width with their precision and scale, timestamps with a time zone, and all other types. The
/// type of an encoded column is that of its values, however often it is encoded.
#[verifier::external_body]
pub(crate) fn column_kind(batch: &Batch, i: usize) -> (r: ColumnKind)
    requires
        i < columns_of(*batch).len(),
    ensures
        r == columns_of(*batch)[i as int].kind,
{
    let mut t = batch.rows.column(i).data_type();
    loop {
        match t {
            DataType::Dictionary(_, values) => t = values,
            DataType::RunEndEncoded(_, values) => t = values.data_type(),
            DataType::Decimal128(precision, scale) | DataType::Decimal256(precision, scale) => {
                return ColumnKind::Decimal { precision: *precision, scale: *scale };
            },
            DataType::Timestamp(_, Some(_)) => return ColumnKind::Zoned,
            _ => return ColumnKind::Other,
        }
    }
}

/// Calls `ValueFormatter::try_to_string` on each row of a column of timestamps with a time zone,
/// through an `ArrayFormatter` that formats such a timestamp as its local year. The local year
/// of a time next to the end of the range of dates may lie one year beyond it. A column whose
/// time zone is not known has no rows here.
#[verifier::external_body]
pub(crate) fn local_years(batch: &Batch, i: usize) -> (r: Vec<Option<String>>)
    requires
        i < columns_of(*batch).len(),
        columns_of(*batch)[i as int].kind == ColumnKind::Zoned,
    ensures
        columns_of(*batch)[i as int].years == Seq::new(r@.len(), |k: int| opt_text(r@[k])),
{
    let options = FormatOptions::default().with_timestamp_tz_format(Some("%Y"));
    let column = batch.rows.column(i);
    match ArrayFormatter::try_new(column.as_ref(), &options) {
        Ok(f) => (0..column.len()).map(|row| f.value(row).try_to_string().ok()).collect(),
        Err(_) => Vec::new(),
    }
}

/// Whether a local year, as `local_years` gives it, is one in which there are dates: these run
/// from the year -262143 to the year 262142.
pub open spec fn has_dates(year: Option<Seq<char>>) -> bool {
    year != Some("-262144"@) && year != Some("+262143"@)
}

/// Whether a column can be written as CSV: a decimal has no more digits behind the point than
/// digits, and a timestamp with a time zone has a local time.
pub open spec fn column_writable(c: ColumnView) -> bool {
    match c.kind {
        ColumnKind::Decimal { precision, scale } => scale <= precision,
        ColumnKind::Zoned => forall|k: int|
            0 <= k < c.years.len() ==> has_dates(#[trigger] c.years[k]),
        ColumnKind::Other => true,
    }
}

/// Whether all columns of a batch can be written as CSV.
pub open spec fn writable(columns: Seq<ColumnView>) -> bool {
    forall|i: int| 0 <= i < columns.len() ==> column_writable(#[trigger] columns[i])
}

/// What arrow's CSV writer makes of a batch of rows, with a line of column names in front or
/// without: the bytes, or the text of the error.
pub uninterp spec fn csv_of(batch: Batch, header: bool) -> Result<Seq<u8>, Seq<char>>;

/// Calls `arrow_csv::Writer::write` on a writer made by `arrow_csv::WriterBuilder`, with all
/// settings but the header left at their defaults. The outcome is a function of the batch and
/// of the header setting; nothing else is claimed of it. A batch that is not `writable` is left
/// out: the writer panics on a timestamp whose local time is beyond the range of dates, and on
/// decimals with more digits behind the point than digits.
#[verifier::external_body]
pub(crate) fn write_csv(batch: &Batch, header: bool) -> (r: Result<Vec<u8>, String>)
    requires
        writable(columns_of(*batch)),
    ensures
        match r {
            Ok(bytes) => csv_of(*batch, header) == Ok::<Seq<u8>, Seq<char>>(bytes@),
            Err(e) => csv_of(*batch, header) == Err::<Seq<u8>, Seq<char>>(e@),
        },
{
    let mut buf = Vec::new();
    {
        let mut writer = arrow_csv::WriterBuilder::new().with_header(header).build(&mut buf);
        writer.write(&batch.rows).map_err(|e| format!("{}", e))?;
    }
    Ok(buf)
}

/// Whether a character is an ASCII letter or digit.
pub open spec fn ascii_alphanumeric(c: char) -> bool {
    ('0' <= c && c <= '9') || ('a' <= c && c <= 'z') || ('A' <= c && c <= 'Z')
}

/// Whether Unicode counts a character as alphabetic or numeric.
pub uninterp spec fn alphanumeric(c: char) -> bool;

/// `char::is_alphanumeric`: a property that Unicode gives by tables. Among the ASCII
/// characters it holds of the letters and the digits.
pub assume_specification[ char::is_alphanumeric ](c: char) -> (r: bool)
    ensures
        r == alphanumeric(c),
        (c as u32) < 128 ==> r == ascii_alphanumeric(c),
;

/// An ASCII character with a capital letter made small.
pub open spec fn small_letter(c: char) -> char {
    if 'A' <= c && c <= 'Z' {
        (c as u32 + 32) as char
    } else {
        c
    }
}

/// A text in small letters, as Unicode defines them.
pub uninterp spec fn lowercase(s: Seq<char>) -> Seq<char>;

/// Calls `str::to_lowercase`: the mapping that Unicode gives by tables. In an ASCII text it
/// makes each capital letter small and changes nothing else.
#[verifier::external_body]
pub(crate) fn to_lowercase(s: &str) -> (r: String)
    ensures
        r@ == lowercase(s@),
        is_ascii_chars(s@) ==> r@ == s@.map_values(|c: char| small_letter(c)),
{
    s.to_lowercase()
}

/// The text that bytes stand for, with a replacement character for what is no UTF-8.
pub uninterp spec fn lossy_text(bytes: Seq<u8>) -> Seq<char>;

/// Calls `String::from_utf8_lossy`: valid UTF-8 gives the text that it encodes. What stands for
/// bytes that are no valid UTF-8 is a function of the bytes, and nothing else is claimed of it.
#[verifier::external_body]
pub(crate) fn text_from_utf8_lossy(bytes: &[u8]) -> (r: String)
    ensures
        r@ == lossy_text(bytes@),
        valid_utf8(bytes@) ==> r@ == decode_utf8(bytes@),
{
    String::from_utf8_lossy(bytes).into_owned()
}

} // verus!
