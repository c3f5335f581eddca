//! A column profiler that infers one of six column types (integer, float,
//! boolean, date, categorical, text) from all of a column's values.

use vstd::prelude::*;
use vstd::string::*;

use crate::analyzer::{feed_spec, ColumnStats};
use crate::freq::{
    bump, count_in, count_total, is_top, lemma_count_le_total, lemma_count_total_bump,
    lemma_count_total_empty, lemma_top_prefix, lists_exactly, trimmed_counts, FreqTable,
};
use crate::table::{column_values, csv_headers, csv_records, read_headers, read_records, rows_view, strings_view};
use crate::text::{
    byte_len, chars_of, contains_char, float_literal, int_literal, is_float, law_trimmed_idempotent,
    lowercase, parse_int, to_lowercase, trim, trimmed,
};

verus! {

/// The type inferred for a column.
#[derive(Debug, Clone, Copy, PartialEq, Eq, Structural)]
pub enum ColumnType {
    Integer,
    Float,
    Boolean,
    Date,
    Categorical,
    Text,
}

/// What a profiler has gathered, as mathematical values.
pub struct ProfileStats {
    pub col_type: ColumnType,
    /// Values seen.
    pub total: nat,
    /// Values that were blank after trimming.
    pub nulls: nat,
    /// How often each non-blank trimmed value occurred.
    pub values: Map<Seq<char>, nat>,
    /// The non-blank trimmed values that read as `i64` or `f64`, in order.
    pub nums: Seq<Seq<char>>,
    /// UTF-8 length of each non-blank trimmed value, in order.
    pub lengths: Seq<usize>,
}

/// A profiler that has seen nothing; its type starts as `Text`.
pub open spec fn empty_profile() -> ProfileStats {
    ProfileStats {
        col_type: ColumnType::Text,
        total: 0,
        nulls: 0,
        values: Map::empty(),
        nums: Seq::empty(),
        lengths: Seq::empty(),
    }
}

/// The statistics after one more value.
pub open spec fn update_spec(s: ProfileStats, value: Seq<char>) -> ProfileStats {
    let t = trimmed(value);
    if t.len() == 0 {
        ProfileStats { total: s.total + 1, nulls: s.nulls + 1, ..s }
    } else {
        ProfileStats {
            total: s.total + 1,
            values: bump(s.values, t),
            lengths: s.lengths.push(byte_len(t) as usize),
            nums: if int_literal(t) is Some || float_literal(t) {
                s.nums.push(t)
            } else {
                s.nums
            },
            ..s
        }
    }
}

/// The statistics after `values`, in order.
pub open spec fn update_all(s: ProfileStats, values: Seq<Seq<char>>) -> ProfileStats
    decreases values.len(),
{
    if values.len() == 0 {
        s
    } else {
        update_spec(update_all(s, values.drop_last()), values.last())
    }
}

/// One of `true`, `false`, `yes`, `no`, `1`, `0`, `t`, `f`.
pub open spec fn bool_word(s: Seq<char>) -> bool {
    ||| s == seq!['t', 'r', 'u', 'e']
    ||| s == seq!['f', 'a', 'l', 's', 'e']
    ||| s == seq!['y', 'e', 's']
    ||| s == seq!['n', 'o']
    ||| s == seq!['1']
    ||| s == seq!['0']
    ||| s == seq!['t']
    ||| s == seq!['f']
}

/// Trimmed, at least six bytes long and holding a `-` or a `/`.
pub open spec fn date_like(k: Seq<char>) -> bool {
    byte_len(trimmed(k)) >= 6 && (trimmed(k).contains('-') || trimmed(k).contains('/'))
}

/// Every distinct value, lower-cased, is a boolean word.
pub open spec fn all_bool_words(values: Map<Seq<char>, nat>) -> bool {
    forall|k: Seq<char>| #[trigger] values.contains_key(k) ==> bool_word(lowercase(k))
}

/// The number of distinct values that look like dates.
pub open spec fn date_like_count(values: Map<Seq<char>, nat>) -> nat {
    values.dom().filter(|k: Seq<char>| date_like(k)).len()
}

/// The type that `infer_type` settles on; `all_integral` says whether every
/// numeric value, read as `f64`, has no fractional part. With no non-blank
/// value the type is left as it is; otherwise, in order: at most two
/// distinct values, all boolean words, give `Boolean`; all non-blank values
/// numeric give `Integer` or `Float`; as many date-like distinct values as
/// non-blank values give `Date`; at most twenty distinct values give
/// `Categorical`; and anything else `Text`.
pub open spec fn inferred_type(s: ProfileStats, all_integral: bool) -> ColumnType {
    let non_null = s.total - s.nulls;
    if non_null == 0 {
        s.col_type
    } else if all_bool_words(s.values) && s.values.dom().len() <= 2 {
        ColumnType::Boolean
    } else if s.nums.len() == non_null && s.nums.len() > 0 {
        if all_integral {
            ColumnType::Integer
        } else {
            ColumnType::Float
        }
    } else if date_like_count(s.values) == non_null {
        ColumnType::Date
    } else if s.values.dom().len() <= 20 {
        ColumnType::Categorical
    } else {
        ColumnType::Text
    }
}

/// The profile of one column.
pub struct ColumnProfiler {
    pub col_type: ColumnType,
    pub total: usize,
    pub nulls: usize,
    pub values: FreqTable,
    /// The trimmed numeric values, as written.
    pub nums: Vec<String>,
    pub lengths: Vec<usize>,
}

impl View for ColumnProfiler {
    type V = ProfileStats;

    open spec fn view(&self) -> ProfileStats {
        ProfileStats {
            col_type: self.col_type,
            total: self.total as nat,
            nulls: self.nulls as nat,
            values: self.values@,
            nums: strings_view(self.nums@),
            lengths: self.lengths@,
        }
    }
}

impl ColumnProfiler {
    /// A profiler that has seen nothing.
    pub fn new() -> (p: Self)
        ensures
            p@ == empty_profile(),
    {
        let p = ColumnProfiler {
            col_type: ColumnType::Text,
            total: 0,
            nulls: 0,
            values: FreqTable::new(),
            nums: Vec::new(),
            lengths: Vec::new(),
        };
        assert(strings_view(p.nums@) =~= Seq::<Seq<char>>::empty());
        p
    }
}


/// Whether `v` holds exactly the characters `w`.
fn same_chars(v: &Vec<char>, w: &[char]) -> (r: bool)
    ensures
        r == (v@ == w@),
{
    if v.len() != w.len() {
        return false;
    }
    let mut i: usize = 0;
    while i < w.len()
        invariant
            i <= w@.len(),
            v@.len() == w@.len(),
            forall|j: int| 0 <= j < i ==> v@[j] == w@[j],
        decreases w@.len() - i,
    {
        if v[i] != w[i] {
            return false;
        }
        i = i + 1;
    }
    assert(v@ =~= w@);
    true
}

/// Whether `s` is a boolean word.
fn is_bool_word(s: &str) -> (r: bool)
    ensures
        r == bool_word(s@),
{
    let v: Vec<char> = chars_of(s);
    let w1: [char; 4] = ['t', 'r', 'u', 'e'];
    let w2: [char; 5] = ['f', 'a', 'l', 's', 'e'];
    let w3: [char; 3] = ['y', 'e', 's'];
    let w4: [char; 2] = ['n', 'o'];
    let w5: [char; 1] = ['1'];
    let w6: [char; 1] = ['0'];
    let w7: [char; 1] = ['t'];
    let w8: [char; 1] = ['f'];
    assert(w1@ =~= seq!['t', 'r', 'u', 'e']);
    assert(w2@ =~= seq!['f', 'a', 'l', 's', 'e']);
    assert(w3@ =~= seq!['y', 'e', 's']);
    assert(w4@ =~= seq!['n', 'o']);
    assert(w5@ =~= seq!['1']);
    assert(w6@ =~= seq!['0']);
    assert(w7@ =~= seq!['t']);
    assert(w8@ =~= seq!['f']);
    same_chars(&v, &w1) || same_chars(&v, &w2) || same_chars(&v, &w3) || same_chars(&v, &w4)
        || same_chars(&v, &w5) || same_chars(&v, &w6) || same_chars(&v, &w7) || same_chars(&v, &w8)
}

/// Whether `k` looks like a date.
fn is_date_like(k: &str) -> (r: bool)
    ensures
        r == date_like(k@),
{
    let s: &str = trim(k);
    let len: usize = s.as_bytes().len();
    let dash: bool = contains_char(s, '-');
    let slash: bool = contains_char(s, '/');
    len >= 6 && (dash || slash)
}

/// Whether every listed value, lower-cased, is a boolean word.
fn all_bool(entries: &Vec<(String, usize)>, Ghost(m): Ghost<Map<Seq<char>, nat>>) -> (r: bool)
    requires
        lists_exactly(entries@, m),
    ensures
        r == all_bool_words(m),
{
    let n: usize = entries.len();
    let mut i: usize = 0;
    while i < n
        invariant
            i <= n,
            n == entries@.len(),
            lists_exactly(entries@, m),
            forall|j: int| 0 <= j < i ==> bool_word(lowercase(#[trigger] entries@[j].0@)),
        decreases n - i,
    {
        let l: String = to_lowercase(entries[i].0.as_str());
        if !is_bool_word(l.as_str()) {
            assert(m.contains_key(entries@[i as int].0@));
            return false;
        }
        i = i + 1;
    }
    assert forall|k: Seq<char>| #[trigger] m.contains_key(k) implies bool_word(lowercase(k)) by {
        let j = choose|j: int| 0 <= j < entries@.len() && #[trigger] entries@[j].0@ == k;
    }
    true
}

/// How many listed values look like dates.
fn count_date_like(entries: &Vec<(String, usize)>, Ghost(m): Ghost<Map<Seq<char>, nat>>) -> (r: usize)
    requires
        lists_exactly(entries@, m),
    ensures
        r == date_like_count(m),
{
    let n: usize = entries.len();
    let mut cnt: usize = 0;
    let ghost mut matched: Seq<Seq<char>> = Seq::empty();
    let ghost mut src: Seq<int> = Seq::empty();
    let mut i: usize = 0;
    while i < n
        invariant
            i <= n,
            n == entries@.len(),
            lists_exactly(entries@, m),
            cnt == matched.len(),
            cnt <= i,
            src.len() == matched.len(),
            forall|q: int|
                0 <= q < src.len() ==> 0 <= #[trigger] src[q] < i && matched[q] == entries@[src[q]].0@
                    && date_like(matched[q]),
            forall|q: int, r: int| 0 <= q < r < src.len() ==> src[q] < src[r],
            forall|j: int|
                0 <= j < i && date_like(#[trigger] entries@[j].0@) ==> exists|q: int|
                    0 <= q < src.len() && src[q] == j,
        decreases n - i,
    {
        if is_date_like(entries[i].0.as_str()) {
            let ghost prev_src = src;
            proof {
                matched = matched.push(entries@[i as int].0@);
                src = src.push(i as int);
                assert forall|j: int|
                    0 <= j < i + 1 && date_like(#[trigger] entries@[j].0@) implies exists|q: int|
                        0 <= q < src.len() && src[q] == j by {
                    if j == i {
                        assert(src[src.len() - 1] == j);
                    } else {
                        let q = choose|q: int| 0 <= q < prev_src.len() && prev_src[q] == j;
                        assert(src[q] == j);
                    }
                }
                assert forall|q: int, r: int| 0 <= q < r < src.len() implies src[q] < src[r] by {
                    if r == src.len() - 1 {
                        assert(src[q] == prev_src[q]);
                    } else {
                        assert(src[q] == prev_src[q] && src[r] == prev_src[r]);
                    }
                }
            }
            cnt = cnt + 1;
        }
        i = i + 1;
    }
    proof {
        let p = |k: Seq<char>| date_like(k);
        assert(matched.no_duplicates()) by {
            assert forall|q: int, r: int| 0 <= q < matched.len() && 0 <= r < matched.len() && q != r implies matched[q] != matched[r] by {
                if q < r {
                    assert(src[q] < src[r]);
                    assert(entries@[src[q]].0@ != entries@[src[r]].0@);
                } else {
                    assert(src[r] < src[q]);
                    assert(entries@[src[r]].0@ != entries@[src[q]].0@);
                }
            }
        }
        assert(matched.to_set() =~= m.dom().filter(p)) by {
            assert forall|k: Seq<char>| matched.to_set().contains(k) implies m.dom().filter(p).contains(k) by {
                let q = choose|q: int| 0 <= q < matched.len() && matched[q] == k;
                assert(matched[q] == entries@[src[q]].0@);
                assert(m.contains_key(entries@[src[q]].0@));
            }
            assert forall|k: Seq<char>| m.dom().filter(p).contains(k) implies matched.to_set().contains(k) by {
                let j = choose|j: int| 0 <= j < entries@.len() && #[trigger] entries@[j].0@ == k;
                let q = choose|q: int| 0 <= q < src.len() && src[q] == j;
                assert(src[q] == j);
                assert(matched[q] == k);
            }
        }
        matched.unique_seq_to_set();
    }
    cnt
}


/// Something that takes a column's values, then settles its type, then
/// summarises it.
pub trait Profiler: Sized {
    /// Whether `value` can be taken without any counter overflowing.
    spec fn accepts(&self, value: Seq<char>) -> bool;

    /// Whether the counters are consistent enough to infer a type.
    spec fn inferable(&self) -> bool;

    /// Takes in one value of the column.
    fn update(&mut self, value: &str)
        requires
            old(self).accepts(value@),
    ;

    /// Settles the column type from everything seen; `all_integral` says
    /// whether every numeric value, read as `f64`, has no fractional part.
    fn infer_type(&mut self, all_integral: bool)
        requires
            old(self).inferable(),
    ;

    /// The summary of the column under the name `name`.
    fn report(&self, name: &str, show_percentiles: bool, show_histogram: bool) -> ProfileSummary;
}

/// A column summary: everything but the floating-point statistics.
pub struct ProfileSummary {
    pub name: String,
    pub col_type: ColumnType,
    pub rows: usize,
    pub nulls: usize,
    pub unique: usize,
    /// One distinct value over more than one row.
    pub constant: bool,
    /// The column is `Integer` or `Float` and has numeric values.
    pub numeric: bool,
    /// Percentiles are to be shown (asked for, and the column is numeric).
    pub percentiles: bool,
    /// Shortest and longest value length, if there are values.
    pub length_range: Option<(usize, usize)>,
    /// The five most frequent values.
    pub top: Vec<(String, usize)>,
    /// The ten most frequent values, for a histogram of a categorical or
    /// boolean column when asked for; empty otherwise.
    pub histogram: Vec<(String, usize)>,
    /// The largest count of any value (one when there are none).
    pub max_count: usize,
}

/// `r` holds the least and greatest of `s`, or nothing when `s` is empty.
pub open spec fn is_range(s: Seq<usize>, r: Option<(usize, usize)>) -> bool {
    match r {
        None => s.len() == 0,
        Some((lo, hi)) => {
            &&& s.contains(lo)
            &&& s.contains(hi)
            &&& forall|i: int| 0 <= i < s.len() ==> lo <= #[trigger] s[i] <= hi
        },
    }
}

/// Least and greatest element of `s`.
fn min_max(s: &Vec<usize>) -> (r: Option<(usize, usize)>)
    ensures
        is_range(s@, r),
{
    let n: usize = s.len();
    if n == 0 {
        return None;
    }
    let mut lo: usize = s[0];
    let mut hi: usize = s[0];
    let mut i: usize = 1;
    assert(s@.subrange(0, 1)[0] == s@[0]);
    while i < n
        invariant
            1 <= i <= n,
            n == s@.len(),
            s@.subrange(0, i as int).contains(lo),
            s@.subrange(0, i as int).contains(hi),
            forall|j: int| 0 <= j < i ==> lo <= #[trigger] s@[j] <= hi,
        decreases n - i,
    {
        let ghost pre = s@.subrange(0, i as int);
        assert(pre =~= s@.subrange(0, i + 1).drop_last());
        if s[i] < lo {
            lo = s[i];
        }
        if s[i] > hi {
            hi = s[i];
        }
        proof {
            let next = s@.subrange(0, i + 1);
            assert(next[i as int] == s@[i as int]);
            if lo != s@[i as int] {
                let a = choose|a: int| 0 <= a < pre.len() && pre[a] == lo;
                assert(next[a] == lo);
            }
            if hi != s@[i as int] {
                let a = choose|a: int| 0 <= a < pre.len() && pre[a] == hi;
                assert(next[a] == hi);
            }
        }
        i = i + 1;
    }
    assert(s@.subrange(0, n as int) =~= s@);
    Some((lo, hi))
}

impl Profiler for ColumnProfiler {
    open spec fn accepts(&self, value: Seq<char>) -> bool {
        &&& self.total < usize::MAX
        &&& self.nulls < usize::MAX
        &&& count_in(self.values@, trimmed(value)) < usize::MAX
    }

    open spec fn inferable(&self) -> bool {
        self.nulls <= self.total
    }

    fn update(&mut self, value: &str)
        ensures
            final(self)@ == update_spec(old(self)@, value@),
    {
        self.total = self.total + 1;
        let t: &str = trim(value);
        if t.is_empty() {
            self.nulls = self.nulls + 1;
            return;
        }
        self.values.add(t);
        self.lengths.push(t.len());
        if parse_int(t).is_some() || is_float(t) {
            self.nums.push(t.to_owned());
            assert(strings_view(self.nums@) =~= strings_view(old(self).nums@).push(t@));
        }
    }

    fn infer_type(&mut self, all_integral: bool)
        ensures
            final(self)@ == (ProfileStats { col_type: inferred_type(old(self)@, all_integral), ..old(self)@ }),
    {
        let non_null: usize = self.total - self.nulls;
        if non_null == 0 {
            return;
        }
        let entries: Vec<(String, usize)> = self.values.ranked();
        let unique: usize = self.values.len();
        if all_bool(&entries, Ghost(self.values@)) && unique <= 2 {
            self.col_type = ColumnType::Boolean;
            return;
        }
        if self.nums.len() == non_null && self.nums.len() > 0 {
            self.col_type = if all_integral {
                ColumnType::Integer
            } else {
                ColumnType::Float
            };
            return;
        }
        let dates: usize = count_date_like(&entries, Ghost(self.values@));
        if dates == non_null {
            self.col_type = ColumnType::Date;
            return;
        }
        if unique <= 20 {
            self.col_type = ColumnType::Categorical;
        } else {
            self.col_type = ColumnType::Text;
        }
    }

    fn report(&self, name: &str, show_percentiles: bool, show_histogram: bool) -> (r: ProfileSummary)
        ensures
            r.name@ == name@,
            r.col_type == self.col_type,
            r.rows == self.total,
            r.nulls == self.nulls,
            r.unique == self.values@.dom().len(),
            r.constant == (self.values@.dom().len() == 1 && self.total > 1),
            r.numeric == ((self.col_type == ColumnType::Integer || self.col_type == ColumnType::Float)
                && self.nums@.len() > 0),
            r.percentiles == (show_percentiles && r.numeric),
            is_range(self.lengths@, r.length_range),
            is_top(r.top@, self.values@, 5),
            forall|i: int, j: int|
                0 <= i < j < r.top@.len() && r.top@[i].1 == r.top@[j].1 ==> self.values.keys().index_of(
                    r.top@[i].0@,
                ) < self.values.keys().index_of(r.top@[j].0@),
            (show_histogram && (self.col_type == ColumnType::Categorical || self.col_type
                == ColumnType::Boolean)) ==> {
                &&& is_top(r.histogram@, self.values@, 10)
                &&& forall|i: int, j: int|
                    0 <= i < j < r.histogram@.len() && r.histogram@[i].1 == r.histogram@[j].1
                        ==> self.values.keys().index_of(r.histogram@[i].0@)
                        < self.values.keys().index_of(r.histogram@[j].0@)
                &&& forall|i: int| #![trigger r.top@[i]]
                    0 <= i < r.top@.len() ==> r.histogram@[i].0@ == r.top@[i].0@
                        && r.histogram@[i].1 == r.top@[i].1
            },
            !(show_histogram && (self.col_type == ColumnType::Categorical || self.col_type
                == ColumnType::Boolean)) ==> r.histogram@.len() == 0,
            self.values@.dom().len() == 0 ==> r.max_count == 1,
            self.values@.dom().len() > 0 ==> exists|k: Seq<char>|
                #[trigger] self.values@.contains_key(k) && self.values@[k] == r.max_count,
            forall|k: Seq<char>| #[trigger] self.values@.contains_key(k) ==> self.values@[k] <= r.max_count,
    {
        let unique: usize = self.values.len();
        let numeric: bool = (self.col_type == ColumnType::Integer || self.col_type == ColumnType::Float)
            && self.nums.len() > 0;
        let ranked: Vec<(String, usize)> = self.values.top(10);
        let n5: usize = if ranked.len() < 5 {
            ranked.len()
        } else {
            5
        };
        let mut top: Vec<(String, usize)> = Vec::new();
        let mut i: usize = 0;
        while i < n5
            invariant
                i <= n5,
                n5 <= ranked@.len(),
                top@.len() == i,
                forall|q: int| 0 <= q < i ==> (#[trigger] top@[q]).0@ == ranked@[q].0@ && top@[q].1
                    == ranked@[q].1,
            decreases n5 - i,
        {
            top.push((ranked[i].0.clone(), ranked[i].1));
            i = i + 1;
        }
        proof {
            lemma_top_prefix(ranked@, top@, self.values@, 10, 5);
            assert forall|a: int, b: int|
                0 <= a < b < top@.len() && top@[a].1 == top@[b].1 implies self.values.keys().index_of(
                    top@[a].0@,
                ) < self.values.keys().index_of(top@[b].0@) by {
                assert(top@[a].0@ == ranked@[a].0@ && top@[b].0@ == ranked@[b].0@);
            }
        }
        let histogram: Vec<(String, usize)> = if show_histogram && (self.col_type
            == ColumnType::Categorical || self.col_type == ColumnType::Boolean) {
            ranked
        } else {
            Vec::new()
        };
        let first: Vec<(String, usize)> = self.values.top(1);
        let max_count: usize = if first.len() > 0 {
            first[0].1
        } else {
            1
        };
        proof {
            if first@.len() == 0 {
                self.values@.dom().lemma_len0_is_empty();
                assert forall|k: Seq<char>| #[trigger] self.values@.contains_key(k) implies false by {
                    assert(self.values@.dom().contains(k));
                }
            } else {
                assert(self.values@.contains_key(first@[0].0@));
            }
            assert forall|k: Seq<char>| #[trigger] self.values@.contains_key(k) implies self.values@[k] <= max_count by {
                if first@.len() > 0 && k != first@[0].0@ {
                    assert(forall|j: int| 0 <= j < first@.len() ==> first@[j].0@ != k);
                    assert(self.values@[k] <= first@[0].1);
                }
            }
        }
        ProfileSummary {
            name: name.to_owned(),
            col_type: self.col_type,
            rows: self.total,
            nulls: self.nulls,
            unique,
            constant: unique == 1 && self.total > 1,
            numeric,
            percentiles: show_percentiles && numeric,
            length_range: min_max(&self.lengths),
            top,
            histogram,
            max_count,
        }
    }
}


/// Taking values one at a time: every value is counted once, as blank or
/// with its length recorded; only non-blank values are numbers; and no
/// value is counted more often than non-blank values were seen.
pub proof fn law_update_all(values: Seq<Seq<char>>)
    ensures
        update_all(empty_profile(), values).total == values.len(),
        update_all(empty_profile(), values).nulls + update_all(empty_profile(), values).lengths.len()
            == values.len(),
        update_all(empty_profile(), values).nums.len() <= update_all(
            empty_profile(),
            values,
        ).lengths.len(),
        forall|k: Seq<char>|
            count_in(#[trigger] update_all(empty_profile(), values).values, k) <= update_all(
                empty_profile(),
                values,
            ).lengths.len(),
        update_all(empty_profile(), values).col_type == ColumnType::Text,
    decreases values.len(),
{
    if values.len() > 0 {
        law_update_all(values.drop_last());
        let s = update_all(empty_profile(), values.drop_last());
        assert forall|k: Seq<char>|
            count_in(#[trigger] update_all(empty_profile(), values).values, k) <= update_all(
                empty_profile(),
                values,
            ).lengths.len() by {
            assert(count_in(s.values, k) <= s.lengths.len());
        }
    }
}

/// The counters of `s` agree: every value seen was blank or counted among
/// the values, each counted value has its length recorded, only counted
/// values are numbers, and every counted value is non-blank, trimmed and
/// counted at least once.
pub open spec fn profile_consistent(s: ProfileStats) -> bool {
    &&& s.nulls + count_total(s.values) == s.total
    &&& s.nulls + s.lengths.len() == s.total
    &&& s.nums.len() <= s.lengths.len()
    &&& trimmed_counts(s.values)
}

/// A profiler that has seen nothing has consistent counters.
pub proof fn law_empty_profile_consistent()
    ensures
        profile_consistent(empty_profile()),
{
    lemma_count_total_empty();
}

/// Taking one more value keeps the counters consistent, whatever the
/// profiler had seen before.
pub proof fn law_update_keeps_consistent(s: ProfileStats, value: Seq<char>)
    requires
        profile_consistent(s),
    ensures
        profile_consistent(update_spec(s, value)),
{
    let t = trimmed(value);
    law_trimmed_idempotent(value);
    if t.len() > 0 {
        lemma_count_total_bump(s.values, t);
        let n = update_spec(s, value).values;
        assert forall|k: Seq<char>| #[trigger] n.contains_key(k) implies k.len() > 0 && trimmed(k)
            == k && n[k] >= 1 by {
            if k != t {
                assert(s.values.contains_key(k));
            }
        }
    }
}

/// Taking values one at a time from any profiler with consistent counters
/// leaves them consistent.
pub proof fn law_update_all_consistent(s: ProfileStats, values: Seq<Seq<char>>)
    requires
        profile_consistent(s),
    ensures
        profile_consistent(update_all(s, values)),
    decreases values.len(),
{
    if values.len() > 0 {
        law_update_all_consistent(s, values.drop_last());
        law_update_keeps_consistent(update_all(s, values.drop_last()), values.last());
    }
}

/// A profiler with consistent counters takes any value as long as its
/// total has room: the blank count and every value count are never larger.
pub proof fn law_consistent_accepts(p: &ColumnProfiler, value: Seq<char>)
    requires
        profile_consistent(p@),
        p.total < usize::MAX,
    ensures
        p.accepts(value),
{
    lemma_count_le_total(p.values@, trimmed(value));
}

/// Two values taken in either order leave the same type, total, blank
/// count and value counts, and the same numbers and lengths up to order.
pub proof fn law_update_commutes(s: ProfileStats, a: Seq<char>, b: Seq<char>)
    ensures
        update_spec(update_spec(s, a), b).col_type == update_spec(update_spec(s, b), a).col_type,
        update_spec(update_spec(s, a), b).total == update_spec(update_spec(s, b), a).total,
        update_spec(update_spec(s, a), b).nulls == update_spec(update_spec(s, b), a).nulls,
        update_spec(update_spec(s, a), b).values == update_spec(update_spec(s, b), a).values,
        update_spec(update_spec(s, a), b).nums.to_multiset() == update_spec(
            update_spec(s, b),
            a,
        ).nums.to_multiset(),
        update_spec(update_spec(s, a), b).lengths.to_multiset() == update_spec(
            update_spec(s, b),
            a,
        ).lengths.to_multiset(),
{
    broadcast use vstd::seq_lib::group_to_multiset_ensures;
    broadcast use vstd::multiset::group_multiset_axioms;

    let ta = trimmed(a);
    let tb = trimmed(b);
    let p = update_spec(update_spec(s, a), b);
    let q = update_spec(update_spec(s, b), a);
    if ta.len() > 0 && tb.len() > 0 {
        assert(p.values =~= q.values);
        assert(p.lengths.to_multiset() =~= q.lengths.to_multiset());
        assert(p.nums.to_multiset() =~= q.nums.to_multiset());
    } else {
        assert(p.values =~= q.values);
        assert(p.lengths =~= q.lengths);
        assert(p.nums =~= q.nums);
    }
}

/// Each of the words `true`, `false`, `yes`, `no`, `1`, `0`, `t` and `f` is a
/// boolean word.
pub proof fn law_bool_words(w: Seq<char>)
    requires
        w == seq!['t', 'r', 'u', 'e'] || w == seq!['f', 'a', 'l', 's', 'e'] || w == seq![
            'y',
            'e',
            's',
        ] || w == seq!['n', 'o'] || w == seq!['1'] || w == seq!['0'] || w == seq!['t'] || w
            == seq!['f'],
    ensures
        bool_word(w),
{
}

/// A column with a non-blank value whose distinct values are at most two,
/// each of which lower-cases to one of `true`, `false`, `yes`, `no`, `1`,
/// `0`, `t`, `f`, is inferred `Boolean`, whether or not those values are
/// also numbers.
pub proof fn law_infer_boolean(s: ProfileStats, all_integral: bool)
    requires
        s.nulls < s.total,
        s.values.dom().len() <= 2,
        forall|k: Seq<char>|
            #[trigger] s.values.contains_key(k) ==> {
                let w = lowercase(k);
                ||| w == seq!['t', 'r', 'u', 'e']
                ||| w == seq!['f', 'a', 'l', 's', 'e']
                ||| w == seq!['y', 'e', 's']
                ||| w == seq!['n', 'o']
                ||| w == seq!['1']
                ||| w == seq!['0']
                ||| w == seq!['t']
                ||| w == seq!['f']
            },
    ensures
        inferred_type(s, all_integral) == ColumnType::Boolean,
{
    assert forall|k: Seq<char>| #[trigger] s.values.contains_key(k) implies bool_word(lowercase(k)) by {
        law_bool_words(lowercase(k));
    }
}

/// Taking a value depends only on its trimmed form.
pub proof fn law_update_trimmed(s: ProfileStats, value: Seq<char>)
    ensures
        update_spec(s, value) == update_spec(s, trimmed(value)),
{
    law_trimmed_idempotent(value);
}

/// The profiler counts a value among its numbers exactly when the analyzer
/// does, and both record the same trimmed text for it.
pub proof fn law_numbers_agree(a: ColumnStats, p: ProfileStats, value: Seq<char>)
    ensures
        (feed_spec(a, value).numbers.len() == a.numbers.len() + 1) <==> (update_spec(p, value).nums.len()
            == p.nums.len() + 1),
        feed_spec(a, value).numbers.len() == a.numbers.len() + 1 ==> feed_spec(a, value).numbers.last()
            == update_spec(p, value).nums.last(),
        feed_spec(a, value).numbers.len() == a.numbers.len() + 1 ==> update_spec(p, value).nums.last()
            == trimmed(value),
{
}

/// Profiles each column of `records` under `headers`: profiler `c` takes,
/// in order, the field in column `c` of every record long enough to have one.
pub fn profile_columns(headers: &Vec<String>, records: &Vec<Vec<String>>) -> (r: Vec<ColumnProfiler>)
    ensures
        r@.len() == headers@.len(),
        forall|c: int|
            0 <= c < r@.len() ==> (#[trigger] r@[c])@ == update_all(
                empty_profile(),
                column_values(rows_view(records@), c),
            ),
{
    let ghost rows = rows_view(records@);
    let mut out: Vec<ColumnProfiler> = Vec::new();
    let ncols: usize = headers.len();
    let nrows: usize = records.len();
    let mut c: usize = 0;
    while c < ncols
        invariant
            c <= ncols,
            ncols == headers@.len(),
            nrows == records@.len(),
            rows == rows_view(records@),
            out@.len() == c,
            forall|k: int|
                0 <= k < c ==> (#[trigger] out@[k])@ == update_all(empty_profile(), column_values(rows, k)),
        decreases ncols - c,
    {
        let mut p: ColumnProfiler = ColumnProfiler::new();
        let mut ri: usize = 0;
        assert(rows.take(0) =~= Seq::<Seq<Seq<char>>>::empty());
        while ri < nrows
            invariant
                ri <= nrows,
                c < ncols,
                nrows == records@.len(),
                rows == rows_view(records@),
                p@ == update_all(empty_profile(), column_values(rows.take(ri as int), c as int)),
            decreases nrows - ri,
        {
            let ghost before = column_values(rows.take(ri as int), c as int);
            assert(rows.take(ri + 1).drop_last() =~= rows.take(ri as int));
            assert(rows[ri as int] == records@[ri as int]@.map_values(|f: String| f@));
            if c < records[ri].len() {
                let field: &str = records[ri][c].as_str();
                proof {
                    assert(column_values(rows.take(ri + 1), c as int) == before.push(field@));
                    assert(before.push(field@).drop_last() =~= before);
                    law_update_all(before);
                    crate::table::lemma_column_values_len(rows.take(ri as int), c as int);
                    assert(count_in(update_all(empty_profile(), before).values, trimmed(field@))
                        <= update_all(empty_profile(), before).lengths.len());
                    assert(p@.values == p.values@);
                }
                p.update(field);
            } else {
                assert(column_values(rows.take(ri + 1), c as int) == before);
            }
            ri = ri + 1;
        }
        assert(rows.take(nrows as int) =~= rows);
        out.push(p);
        c = c + 1;
    }
    out
}

/// Reads the CSV text `data` (header row first, records of any length) and
/// profiles every column: the headers and a profiler for each. An error of
/// `csv` on the header row or on any record is passed on.
pub fn profile_data(data: &[u8]) -> (r: Result<(Vec<String>, Vec<ColumnProfiler>), csv::Error>)
    ensures
        r is Ok <==> (csv_headers(data@, true) is Some && csv_records(data@, true) is Some),
        r matches Ok((h, ps)) ==> {
            &&& strings_view(h@) == csv_headers(data@, true).unwrap()
            &&& ps@.len() == h@.len()
            &&& forall|c: int|
                0 <= c < ps@.len() ==> (#[trigger] ps@[c])@ == update_all(
                    empty_profile(),
                    column_values(csv_records(data@, true).unwrap(), c),
                )
        },
{
    let headers: Vec<String> = read_headers(data, true)?;
    let records: Vec<Vec<String>> = read_records(data, true)?;
    let profilers: Vec<ColumnProfiler> = profile_columns(&headers, &records);
    Ok((headers, profilers))
}

} // verus!
