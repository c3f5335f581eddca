//! Per-column statistics over streamed values: how many values, how many
//! blank, whether the column is integer, float or text, and how often each
//! text value occurs.

use vstd::prelude::*;
use vstd::std_specs::convert::FromSpecImpl;

use crate::freq::{
    bump, count_in, count_total, is_top, lemma_count_le_total, lemma_count_total_bump,
    lemma_count_total_empty, trimmed_counts, FreqTable,
};
use crate::table::{column_values, read_headers, read_records, rows_view, strings_view, total_bytes};
use crate::table::{csv_headers, csv_records};
use crate::text::{
    byte_len, float_literal, int_literal, is_float, law_trimmed_idempotent, parse_int, trim, trimmed,
};

verus! {

/// The kind of values a column holds.
#[derive(Debug, Clone, Copy, PartialEq, Eq, Structural)]
pub enum ColumnType {
    Integer,
    Float,
    Text,
}

/// What an analyzer has gathered, as mathematical values.
pub struct ColumnStats {
    /// Values fed.
    pub count: nat,
    /// Values that were blank after trimming.
    pub nulls: nat,
    pub col_type: ColumnType,
    /// The trimmed numeric values, in the order fed.
    pub numbers: Seq<Seq<char>>,
    /// How often each trimmed text value occurred.
    pub text: Map<Seq<char>, nat>,
    /// Number of text values fed.
    pub text_total: nat,
    /// UTF-8 bytes of all non-blank trimmed values.
    pub total_len: nat,
}

/// The statistics of an analyzer that has seen nothing.
pub open spec fn empty_stats() -> ColumnStats {
    ColumnStats {
        count: 0,
        nulls: 0,
        col_type: ColumnType::Integer,
        numbers: Seq::empty(),
        text: Map::empty(),
        text_total: 0,
        total_len: 0,
    }
}

/// The statistics after one more value: blank values only count; values
/// that read as `i64` are numbers and leave the type alone; other values
/// that read as `f64` are numbers and make the column `Float`; anything else
/// is text and makes the column `Text`.
pub open spec fn feed_spec(s: ColumnStats, value: Seq<char>) -> ColumnStats {
    let t = trimmed(value);
    if t.len() == 0 {
        ColumnStats { count: s.count + 1, nulls: s.nulls + 1, ..s }
    } else if int_literal(t) is Some {
        ColumnStats {
            count: s.count + 1,
            numbers: s.numbers.push(t),
            total_len: s.total_len + byte_len(t),
            ..s
        }
    } else if float_literal(t) {
        ColumnStats {
            count: s.count + 1,
            col_type: ColumnType::Float,
            numbers: s.numbers.push(t),
            total_len: s.total_len + byte_len(t),
            ..s
        }
    } else {
        ColumnStats {
            count: s.count + 1,
            col_type: ColumnType::Text,
            text: bump(s.text, t),
            text_total: s.text_total + 1,
            total_len: s.total_len + byte_len(t),
            ..s
        }
    }
}

/// The statistics after feeding `values` in order.
pub open spec fn feed_all(s: ColumnStats, values: Seq<Seq<char>>) -> ColumnStats
    decreases values.len(),
{
    if values.len() == 0 {
        s
    } else {
        feed_spec(feed_all(s, values.drop_last()), values.last())
    }
}

/// Something that takes a column's values one at a time and reports on them.
pub trait ColumnAnalyzer: Sized {
    /// Whether `value` can be fed without any counter overflowing.
    spec fn accepts(&self, value: Seq<char>) -> bool;

    /// Takes in one value of the column.
    fn feed(&mut self, value: &str)
        requires
            old(self).accepts(value@),
    ;

    /// Whether the counters are consistent enough to report on.
    spec fn reportable(&self) -> bool;

    /// What there is to say about the column, under the name `col_name`.
    fn report(&self, col_name: &str) -> ColumnReport
        requires
            self.reportable(),
    ;
}

/// Statistics of one column.
pub struct StatsAnalyzer {
    pub count: usize,
    pub null_count: usize,
    pub col_type: ColumnType,
    /// The trimmed numeric values (integers and floats), in the order fed.
    pub numbers: Vec<String>,
    pub text_freq: FreqTable,
    pub total_len: usize,
}

impl View for StatsAnalyzer {
    type V = ColumnStats;

    open spec fn view(&self) -> ColumnStats {
        ColumnStats {
            count: self.count as nat,
            nulls: self.null_count as nat,
            col_type: self.col_type,
            numbers: strings_view(self.numbers@),
            text: self.text_freq@,
            text_total: self.text_freq.total(),
            total_len: self.total_len as nat,
        }
    }
}

impl StatsAnalyzer {
    /// An analyzer that has seen nothing; its type starts as `Integer`.
    pub fn new() -> (a: Self)
        ensures
            a@ == empty_stats(),
    {
        let a = StatsAnalyzer {
            count: 0,
            null_count: 0,
            col_type: ColumnType::Integer,
            numbers: Vec::new(),
            text_freq: FreqTable::new(),
            total_len: 0,
        };
        assert(strings_view(a.numbers@) =~= Seq::<Seq<char>>::empty());
        a
    }
}

impl ColumnAnalyzer for StatsAnalyzer {
    open spec fn accepts(&self, value: Seq<char>) -> bool {
        &&& self.count < usize::MAX
        &&& self.null_count < usize::MAX
        &&& self.total_len + byte_len(trimmed(value)) <= usize::MAX
        &&& count_in(self.text_freq@, trimmed(value)) < usize::MAX
    }

    open spec fn reportable(&self) -> bool {
        self.null_count <= self.count
    }

    fn feed(&mut self, value: &str)
        ensures
            final(self)@ == feed_spec(old(self)@, value@),
    {
        self.count = self.count + 1;
        let t: &str = trim(value);
        if t.is_empty() {
            self.null_count = self.null_count + 1;
            return;
        }
        self.total_len = self.total_len + t.len();
        if parse_int(t).is_some() {
            self.numbers.push(t.to_owned());
            assert(strings_view(self.numbers@) =~= strings_view(old(self).numbers@).push(t@));
        } else if is_float(t) {
            self.col_type = ColumnType::Float;
            self.numbers.push(t.to_owned());
            assert(strings_view(self.numbers@) =~= strings_view(old(self).numbers@).push(t@));
        } else {
            self.col_type = ColumnType::Text;
            self.text_freq.add(t);
        }
    }

    fn report(&self, col_name: &str) -> (r: ColumnReport)
        ensures
            r.name@ == col_name@,
            r.col_type == self.col_type,
            r.count == self.count,
            r.nulls == self.null_count,
            match r.detail {
                ReportDetail::Text { unique, total_len, non_null, top } => {
                    &&& self.col_type == ColumnType::Text
                    &&& unique == self.text_freq@.dom().len()
                    &&& total_len == self.total_len
                    &&& non_null == self.count - self.null_count
                    &&& is_top(top@, self.text_freq@, 3)
                },
                ReportDetail::Numbers { values } => {
                    &&& self.col_type != ColumnType::Text
                    &&& values@ == self.numbers@
                },
            },
    {
        let detail = match self.col_type {
            ColumnType::Text => ReportDetail::Text {
                unique: self.text_freq.len(),
                total_len: self.total_len,
                non_null: self.count - self.null_count,
                top: self.text_freq.top(3),
            },
            _ => ReportDetail::Numbers { values: self.numbers.clone() },
        };
        ColumnReport {
            name: col_name.to_owned(),
            col_type: self.col_type,
            count: self.count,
            nulls: self.null_count,
            detail,
        }
    }
}

/// The report of a column: its type and counts, then either the text
/// summary or the numeric values.
pub struct ColumnReport {
    pub name: String,
    pub col_type: ColumnType,
    pub count: usize,
    pub nulls: usize,
    pub detail: ReportDetail,
}

/// The type-dependent part of a report.
pub enum ReportDetail {
    /// A text column: distinct values, bytes and number of non-blank values
    /// (their ratio is the average length), and the three most frequent values.
    Text { unique: usize, total_len: usize, non_null: usize, top: Vec<(String, usize)> },
    /// A numeric column: its numeric values as written, trimmed.
    Numbers { values: Vec<String> },
}

/// Every non-blank value fed to an analyzer is an integer literal.
pub open spec fn only_integers(values: Seq<Seq<char>>) -> bool {
    forall|i: int|
        0 <= i < values.len() && trimmed(#[trigger] values[i]).len() > 0 ==> int_literal(
            trimmed(values[i]),
        ) is Some
}

/// Feeding values one at a time: every value is counted once, and lands in
/// exactly one of blank, numeric or text; no text value is counted more
/// often than text values were fed; the recorded length is at most the
/// bytes fed; and the column stays `Integer` exactly when every non-blank
/// value is an integer literal.
pub proof fn law_feed_all(values: Seq<Seq<char>>)
    ensures
        feed_all(empty_stats(), values).count == values.len(),
        feed_all(empty_stats(), values).nulls + feed_all(empty_stats(), values).numbers.len()
            + feed_all(empty_stats(), values).text_total == values.len(),
        forall|k: Seq<char>|
            count_in(#[trigger] feed_all(empty_stats(), values).text, k) <= feed_all(
                empty_stats(),
                values,
            ).text_total,
        feed_all(empty_stats(), values).total_len <= total_bytes(values),
        (feed_all(empty_stats(), values).col_type == ColumnType::Integer) <==> only_integers(
            values,
        ),
    decreases values.len(),
{
    if values.len() > 0 {
        let prev = values.drop_last();
        law_feed_all(prev);
        let s = feed_all(empty_stats(), prev);
        let v = values.last();
        crate::text::lemma_byte_len_trimmed(v);
        assert forall|k: Seq<char>| count_in(#[trigger] feed_all(empty_stats(), values).text, k)
            <= feed_all(empty_stats(), values).text_total by {
            assert(count_in(s.text, k) <= s.text_total);
        }
        if only_integers(values) {
            assert forall|i: int|
                0 <= i < prev.len() && trimmed(#[trigger] prev[i]).len() > 0 implies int_literal(
                trimmed(prev[i]),
            ) is Some by {
                assert(prev[i] == values[i]);
            }
            assert(values[values.len() - 1] == v);
        } else {
            let i = choose|i: int|
                0 <= i < values.len() && trimmed(#[trigger] values[i]).len() > 0
                    && !(int_literal(trimmed(values[i])) is Some);
            if i < prev.len() {
                assert(prev[i] == values[i]);
            }
        }
        if only_integers(prev) && !only_integers(values) {
            let i = choose|i: int|
                0 <= i < values.len() && trimmed(#[trigger] values[i]).len() > 0
                    && !(int_literal(trimmed(values[i])) is Some);
            if i < prev.len() {
                assert(prev[i] == values[i]);
            }
            assert(i == values.len() - 1);
        }
    }
}

/// The counters of `s` agree: every value fed was blank, numeric or text;
/// the text total is the sum of the text counts; and every counted text
/// value is non-blank, trimmed and counted at least once.
pub open spec fn stats_consistent(s: ColumnStats) -> bool {
    &&& s.nulls + s.numbers.len() + count_total(s.text) == s.count
    &&& s.text_total == count_total(s.text)
    &&& trimmed_counts(s.text)
}

/// An analyzer that has seen nothing has consistent counters.
pub proof fn law_empty_stats_consistent()
    ensures
        stats_consistent(empty_stats()),
{
    lemma_count_total_empty();
}

/// Feeding one more value keeps the counters consistent, whatever the
/// analyzer had seen before.
pub proof fn law_feed_keeps_consistent(s: ColumnStats, value: Seq<char>)
    requires
        stats_consistent(s),
    ensures
        stats_consistent(feed_spec(s, value)),
{
    let t = trimmed(value);
    law_trimmed_idempotent(value);
    if t.len() > 0 && !(int_literal(t) is Some) && !float_literal(t) {
        lemma_count_total_bump(s.text, t);
        let n = feed_spec(s, value).text;
        assert forall|k: Seq<char>| #[trigger] n.contains_key(k) implies k.len() > 0 && trimmed(k)
            == k && n[k] >= 1 by {
            if k != t {
                assert(s.text.contains_key(k));
            }
        }
    }
}

/// Feeding values one at a time from any analyzer with consistent counters
/// leaves them consistent.
pub proof fn law_feed_all_consistent(s: ColumnStats, values: Seq<Seq<char>>)
    requires
        stats_consistent(s),
    ensures
        stats_consistent(feed_all(s, values)),
    decreases values.len(),
{
    if values.len() > 0 {
        law_feed_all_consistent(s, values.drop_last());
        law_feed_keeps_consistent(feed_all(s, values.drop_last()), values.last());
    }
}

/// An analyzer with consistent counters takes any value whose trimmed bytes
/// still fit in its byte total, as long as its value count has room: the
/// blank and text counts are never larger than the value count.
pub proof fn law_consistent_accepts(a: &StatsAnalyzer, value: Seq<char>)
    requires
        stats_consistent(a@),
        a.count < usize::MAX,
        a.total_len + byte_len(trimmed(value)) <= usize::MAX,
    ensures
        a.accepts(value),
{
    lemma_count_le_total(a.text_freq@, trimmed(value));
}

/// A non-blank value that reads as a float but not as an `i64` makes the
/// column `Float` and is kept, trimmed, among the numbers.
pub proof fn law_feed_float(s: ColumnStats, value: Seq<char>)
    requires
        trimmed(value).len() > 0,
        float_literal(trimmed(value)),
        int_literal(trimmed(value)) is None,
    ensures
        feed_spec(s, value).col_type == ColumnType::Float,
        feed_spec(s, value).numbers == s.numbers.push(trimmed(value)),
{
}

/// The column becomes `Text` only through a non-blank value that reads
/// neither as an `i64` nor as a float; such a value is counted as text and
/// never among the numbers.
pub proof fn law_feed_text(s: ColumnStats, value: Seq<char>)
    ensures
        (feed_spec(s, value).col_type == ColumnType::Text && s.col_type != ColumnType::Text)
            ==> (trimmed(value).len() > 0 && int_literal(trimmed(value)) is None && !float_literal(
            trimmed(value),
        )),
        (trimmed(value).len() > 0 && int_literal(trimmed(value)) is None && !float_literal(
            trimmed(value),
        )) ==> (feed_spec(s, value).col_type == ColumnType::Text && feed_spec(s, value).numbers
            == s.numbers && feed_spec(s, value).text_total == s.text_total + 1),
{
}

/// After one more value the column is `Integer` exactly when it was before
/// and the value is blank or an integer literal; so a column that has left
/// `Integer` never comes back to it.
pub proof fn law_feed_integer(s: ColumnStats, value: Seq<char>)
    ensures
        (feed_spec(s, value).col_type == ColumnType::Integer) <==> (s.col_type == ColumnType::Integer
            && (trimmed(value).len() == 0 || int_literal(trimmed(value)) is Some)),
{
}

/// `cols` pairs each header with the analyzer of its column: fed, in order,
/// the field in that column of every row long enough to have one.
pub open spec fn profiles(
    cols: Seq<(String, StatsAnalyzer)>,
    headers: Seq<Seq<char>>,
    rows: Seq<Seq<Seq<char>>>,
) -> bool {
    &&& cols.len() == headers.len()
    &&& forall|c: int|
        0 <= c < cols.len() ==> (#[trigger] cols[c]).0@ == headers[c] && cols[c].1@ == feed_all(
            empty_stats(),
            column_values(rows, c),
        )
}

/// Profiles each column of `records` under its header: analyzer `c` is fed,
/// in order, the field in column `c` of every record long enough to have one.
pub fn profile_table(headers: &Vec<String>, records: &Vec<Vec<String>>) -> (r: Vec<
    (String, StatsAnalyzer),
>)
    requires
        forall|c: int|
            #![auto]
            0 <= c < headers@.len() ==> total_bytes(column_values(rows_view(records@), c)) <= usize::MAX,
    ensures
        profiles(r@, strings_view(headers@), rows_view(records@)),
{
    let ghost rows = rows_view(records@);
    let mut out: Vec<(String, StatsAnalyzer)> = Vec::new();
    let ncols: usize = headers.len();
    let nrows: usize = records.len();
    let mut c: usize = 0;
    while c < ncols
        invariant
            c <= ncols,
            ncols == headers@.len(),
            nrows == records@.len(),
            rows == rows_view(records@),
            forall|k: int|
                #![auto]
                0 <= k < ncols ==> total_bytes(column_values(rows, k)) <= usize::MAX,
            out@.len() == c,
            forall|k: int|
                0 <= k < c ==> (#[trigger] out@[k]).0@ == headers@[k]@ && out@[k].1@ == feed_all(
                    empty_stats(),
                    column_values(rows, k),
                ),
        decreases ncols - c,
    {
        let mut a: StatsAnalyzer = StatsAnalyzer::new();
        let mut ri: usize = 0;
        assert(rows.take(0) =~= Seq::<Seq<Seq<char>>>::empty());
        while ri < nrows
            invariant
                ri <= nrows,
                c < ncols,
                nrows == records@.len(),
                rows == rows_view(records@),
                forall|k: int|
                #![auto]
                0 <= k < ncols ==> total_bytes(column_values(rows, k)) <= usize::MAX,
                a@ == feed_all(empty_stats(), column_values(rows.take(ri as int), c as int)),
            decreases nrows - ri,
        {
            let ghost before = column_values(rows.take(ri as int), c as int);
            assert(rows.take(ri + 1).drop_last() =~= rows.take(ri as int));
            assert(rows[ri as int] == records@[ri as int]@.map_values(|f: String| f@));
            if c < records[ri].len() {
                let field: &str = records[ri][c].as_str();
                proof {
                    assert(column_values(rows.take(ri + 1), c as int) == before.push(field@));
                    law_feed_all(before);
                    law_feed_all(before.push(field@));
                    crate::table::lemma_column_values_len(rows.take(ri as int), c as int);
                    lemma_column_bytes_prefix(rows, ri + 1, c as int);
                    assert(rows.take(rows.len() as int) =~= rows);
                    assert(before.push(field@).drop_last() =~= before);
                    assert(feed_all(empty_stats(), before.push(field@)) == feed_spec(
                        feed_all(empty_stats(), before), field@));
                    crate::text::lemma_byte_len_trimmed(field@);
                    assert(total_bytes(before.push(field@)) == total_bytes(before) + byte_len(field@));
                    assert(count_in(a.text_freq@, trimmed(field@)) <= a.text_freq.total());
                }
                a.feed(field);
            } else {
                assert(column_values(rows.take(ri + 1), c as int) == before);
            }
            ri = ri + 1;
        }
        assert(rows.take(nrows as int) =~= rows);
        let name: String = headers[c].clone();
        out.push((name, a));
        c = c + 1;
    }
    assert forall|k: int| 0 <= k < out@.len() implies (#[trigger] out@[k]).0@ == strings_view(headers@)[k] by {}
    out
}

proof fn lemma_column_bytes_prefix(rows: Seq<Seq<Seq<char>>>, k: int, c: int)
    requires
        0 <= k <= rows.len(),
    ensures
        total_bytes(column_values(rows.take(k), c)) <= total_bytes(column_values(rows, c)),
    decreases rows.len(),
{
    if k < rows.len() {
        lemma_column_bytes_prefix(rows.drop_last(), k, c);
        assert(rows.drop_last().take(k) =~= rows.take(k));
        let cv = column_values(rows.drop_last(), c);
        if c < rows.last().len() {
            assert(cv.push(rows.last()[c]).drop_last() =~= cv);
            assert(total_bytes(cv.push(rows.last()[c])) == total_bytes(cv) + byte_len(rows.last()[c]));
        }
    } else {
        assert(rows.take(k) =~= rows);
    }
}

/// Errors of reading and profiling a CSV file.
pub enum CsvProfError {
    Io(std::io::Error),
    Csv(csv::Error),
    EmptyFile,
}


impl From<std::io::Error> for CsvProfError {
    fn from(e: std::io::Error) -> (r: Self) {
        CsvProfError::Io(e)
    }
}

impl FromSpecImpl<std::io::Error> for CsvProfError {
    open spec fn obeys_from_spec() -> bool {
        true
    }

    open spec fn from_spec(e: std::io::Error) -> CsvProfError {
        CsvProfError::Io(e)
    }
}

impl From<csv::Error> for CsvProfError {
    fn from(e: csv::Error) -> (r: Self) {
        CsvProfError::Csv(e)
    }
}

impl FromSpecImpl<csv::Error> for CsvProfError {
    open spec fn obeys_from_spec() -> bool {
        true
    }

    open spec fn from_spec(e: csv::Error) -> CsvProfError {
        CsvProfError::Csv(e)
    }
}

/// Profiles every column of the CSV text `data` (header row first, every
/// record as long as the header): the header names with an analyzer each,
/// fed that column's fields in order. A header row that cannot be read, or
/// any record that cannot, gives the `csv` error; an empty header row gives
/// `EmptyFile` (and the records are then not read).
pub fn stream_csv(data: &[u8]) -> (r: Result<Vec<(String, StatsAnalyzer)>, CsvProfError>)
    ensures
        csv_headers(data@, false) is None ==> r matches Err(CsvProfError::Csv(_)),
        csv_headers(data@, false) matches Some(h) ==> (h.len() == 0 ==> r matches Err(
            CsvProfError::EmptyFile,
        )),
        csv_headers(data@, false) matches Some(h) ==> (h.len() > 0 ==> (csv_records(data@, false)
            is None ==> r matches Err(CsvProfError::Csv(_)))),
        csv_headers(data@, false) matches Some(h) ==> (h.len() > 0 ==> (csv_records(data@, false)
            matches Some(rows) ==> (r matches Ok(cols) && profiles(cols@, h, rows)))),
        csv_headers(data@, false) matches Some(h) ==> (h.len() > 0 ==> (csv_records(data@, false)
            matches Some(rows) ==> (r matches Ok(cols) && forall|c: int|
            0 <= c < cols@.len() ==> (#[trigger] cols@[c]).1.count == rows.len()))),
{
    let headers: Vec<String> = match read_headers(data, false) {
        Ok(h) => h,
        Err(e) => return Err(CsvProfError::Csv(e)),
    };
    if headers.len() == 0 {
        return Err(CsvProfError::EmptyFile);
    }
    let records: Vec<Vec<String>> = match read_records(data, false) {
        Ok(rs) => rs,
        Err(e) => return Err(CsvProfError::Csv(e)),
    };
    assert forall|c: int|
        #![auto]
        0 <= c < headers@.len() implies total_bytes(column_values(rows_view(records@), c)) <= usize::MAX by {
        assert(total_bytes(column_values(rows_view(records@), c)) <= data@.len());
        assert(data@.len() == data.len());
    }
    let cols = profile_table(&headers, &records);
    proof {
        assert forall|c: int| 0 <= c < cols@.len() implies (#[trigger] cols@[c]).1.count == records@.len() by {
            let rows = rows_view(records@);
            assert forall|i: int| 0 <= i < rows.len() implies c < (#[trigger] rows[i]).len() by {
                assert(records@[i]@.len() == headers@.len());
            }
            crate::table::lemma_column_values_full(rows, c);
            law_feed_all(column_values(rows, c));
        }
    }
    Ok(cols)
}

} // verus!
