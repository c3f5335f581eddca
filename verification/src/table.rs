//! Reading CSV text with the `csv` crate: the header row and the records.

use vstd::prelude::*;

verus! {

/// `csv::Error`, carried through opaque.
#[verifier::external_type_specification]
#[verifier::external_body]
pub struct ExCsvError(csv::Error);

/// `std::io::Error`, carried through opaque.
#[verifier::external_type_specification]
#[verifier::external_body]
pub struct ExIoError(std::io::Error);

/// The header row that `csv` reads from `bytes` (first row of the data),
/// with `flexible` set as given; `None` when reading it fails.
pub uninterp spec fn csv_headers(bytes: Seq<u8>, flexible: bool) -> Option<Seq<Seq<char>>>;

/// The records after the header row that `csv` reads from `bytes`, with
/// `flexible` set as given; `None` when reading any of them fails.
pub uninterp spec fn csv_records(bytes: Seq<u8>, flexible: bool) -> Option<Seq<Seq<Seq<char>>>>;

/// The fields of `rows` that lie in column `c`, row by row (rows too short
/// to reach column `c` give nothing, and a negative `c` gives nothing at all).
pub open spec fn column_values(rows: Seq<Seq<Seq<char>>>, c: int) -> Seq<Seq<char>>
    decreases rows.len(),
{
    if rows.len() == 0 {
        Seq::empty()
    } else if 0 <= c < rows.last().len() {
        column_values(rows.drop_last(), c).push(rows.last()[c])
    } else {
        column_values(rows.drop_last(), c)
    }
}

/// Total UTF-8 length of the strings in `vs`.
pub open spec fn total_bytes(vs: Seq<Seq<char>>) -> nat
    decreases vs.len(),
{
    if vs.len() == 0 {
        0
    } else {
        total_bytes(vs.drop_last()) + crate::text::byte_len(vs.last())
    }
}

/// The rows of the table as strings.
pub open spec fn rows_view(rows: Seq<Vec<String>>) -> Seq<Seq<Seq<char>>> {
    rows.map_values(|r: Vec<String>| r@.map_values(|f: String| f@))
}

/// The strings as character sequences.
pub open spec fn strings_view(v: Seq<String>) -> Seq<Seq<char>> {
    v.map_values(|f: String| f@)
}

/// Reads the header row of the CSV text `bytes` with `csv::Reader::headers`
/// (headers on, `flexible` as given). The result is the name `csv_headers`
/// of the bytes and the flag; the error is whatever `csv` reports.
#[verifier::external_body]
pub(crate) fn read_headers(bytes: &[u8], flexible: bool) -> (r: Result<Vec<String>, csv::Error>)
    ensures
        r is Ok <==> csv_headers(bytes@, flexible) is Some,
        r matches Ok(h) ==> strings_view(h@) == csv_headers(bytes@, flexible).unwrap(),
{
    let mut rdr = csv::ReaderBuilder::new().flexible(flexible).from_reader(bytes);
    let mut out: Vec<String> = Vec::new();
    for field in rdr.headers()?.iter() {
        out.push(field.to_string());
    }
    Ok(out)
}

/// Reads all records after the header row of `bytes` with
/// `csv::Reader::records` (headers on, `flexible` as given), stopping at the
/// first error. The result is the name `csv_records` of the bytes and the
/// flag. It also states that the fields of any one column (numbered from
/// zero) hold no more bytes in all than the input does: `csv` copies field bytes out of the input,
/// dropping delimiters, quotes and line ends, and never adds any. And when
/// not `flexible`, `csv` refuses a record whose length differs from the
/// header row's, so every record read has the header row's length.
#[verifier::external_body]
pub(crate) fn read_records(bytes: &[u8], flexible: bool) -> (r: Result<Vec<Vec<String>>, csv::Error>)
    ensures
        r is Ok <==> csv_records(bytes@, flexible) is Some,
        r matches Ok(rs) ==> rows_view(rs@) == csv_records(bytes@, flexible).unwrap(),
        r matches Ok(rs) ==> forall|c: int|
            #![auto]
            0 <= c ==> total_bytes(column_values(rows_view(rs@), c)) <= bytes@.len(),
        !flexible ==> (r matches Ok(rs) ==> (csv_headers(bytes@, false) matches Some(h) ==> forall|i: int|
            0 <= i < rs@.len() ==> (#[trigger] rs@[i])@.len() == h.len())),
{
    let mut rdr = csv::ReaderBuilder::new().flexible(flexible).from_reader(bytes);
    let mut out: Vec<Vec<String>> = Vec::new();
    for rec in rdr.records() {
        let mut row: Vec<String> = Vec::new();
        for field in rec?.iter() {
            row.push(field.to_string());
        }
        out.push(row);
    }
    Ok(out)
}

/// When every row reaches column `c`, the column has a field per row.
pub proof fn lemma_column_values_full(rows: Seq<Seq<Seq<char>>>, c: int)
    requires
        0 <= c,
        forall|i: int| 0 <= i < rows.len() ==> c < (#[trigger] rows[i]).len(),
    ensures
        column_values(rows, c).len() == rows.len(),
    decreases rows.len(),
{
    if rows.len() > 0 {
        assert(c < rows[rows.len() - 1].len());
        lemma_column_values_full(rows.drop_last(), c);
    }
}

pub(crate) proof fn lemma_column_values_len(rows: Seq<Seq<Seq<char>>>, c: int)
    ensures
        column_values(rows, c).len() <= rows.len(),
    decreases rows.len(),
{
    if rows.len() > 0 {
        lemma_column_values_len(rows.drop_last(), c);
    }
}

} // verus!
