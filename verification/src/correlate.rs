//! Counting the values of a named column and joining two such counts on
//! their common values.

use vstd::prelude::*;

use crate::freq::{bump, count_in, is_permutation, rank_desc, ranks_by_desc, FreqTable};
use crate::table::{column_values, csv_headers, csv_records, read_headers, read_records, rows_view, strings_view};
use crate::text::{lowercase, to_lowercase, trim, trimmed};

verus! {

/// How often each non-blank trimmed value occurs in `values`.
pub open spec fn tally(values: Seq<Seq<char>>) -> Map<Seq<char>, nat>
    decreases values.len(),
{
    if values.len() == 0 {
        Map::empty()
    } else if trimmed(values.last()).len() == 0 {
        tally(values.drop_last())
    } else {
        bump(tally(values.drop_last()), trimmed(values.last()))
    }
}

/// A header matches `col` when, trimmed and lower-cased, it equals `col`
/// lower-cased.
pub open spec fn header_matches(header: Seq<char>, col: Seq<char>) -> bool {
    lowercase(trimmed(header)) == lowercase(col)
}

/// A header matches a column name exactly when, trimmed and lower-cased, it
/// is equal in full to the name lower-cased; in particular the two lower-cased
/// forms have the same length.
pub proof fn law_header_match(header: Seq<char>, col: Seq<char>)
    ensures
        header_matches(header, col) <==> lowercase(trimmed(header)) == lowercase(col),
        header_matches(header, col) ==> lowercase(trimmed(header)).len() == lowercase(col).len(),
{
}

/// The position of the first header that matches `col`.
pub open spec fn first_match(headers: Seq<Seq<char>>, col: Seq<char>, i: int) -> bool {
    &&& 0 <= i < headers.len()
    &&& header_matches(headers[i], col)
    &&& forall|j: int| 0 <= j < i ==> !header_matches(#[trigger] headers[j], col)
}

/// Finds the column named `col`, ignoring surrounding whitespace in the
/// headers and letter case on both sides.
pub fn col_index(headers: &Vec<String>, col: &str) -> (r: Option<usize>)
    ensures
        r matches Some(i) ==> lowercase(trimmed(headers@[i as int]@)) == lowercase(col@),
        r matches Some(i) ==> forall|j: int|
            0 <= j < i ==> lowercase(trimmed((#[trigger] headers@[j])@)) != lowercase(col@),
        r is None ==> forall|j: int|
            0 <= j < headers@.len() ==> lowercase(trimmed((#[trigger] headers@[j])@)) != lowercase(
                col@,
            ),
        match r {
            Some(i) => first_match(strings_view(headers@), col@, i as int),
            None => forall|j: int|
                0 <= j < headers@.len() ==> !header_matches(#[trigger] strings_view(headers@)[j], col@),
        },
{
    let want: String = to_lowercase(col);
    let n: usize = headers.len();
    let mut i: usize = 0;
    while i < n
        invariant
            i <= n,
            n == headers@.len(),
            want@ == lowercase(col@),
            forall|j: int| 0 <= j < i ==> !header_matches(#[trigger] strings_view(headers@)[j], col@),
            forall|j: int|
                0 <= j < i ==> lowercase(trimmed((#[trigger] headers@[j])@)) != lowercase(col@),
        decreases n - i,
    {
        let h: String = to_lowercase(trim(headers[i].as_str()));
        assert(strings_view(headers@)[i as int] == headers@[i as int]@);
        if h == want {
            return Some(i);
        }
        i = i + 1;
    }
    None
}

proof fn lemma_tally_bound(values: Seq<Seq<char>>, k: Seq<char>)
    ensures
        count_in(tally(values), k) <= values.len(),
    decreases values.len(),
{
    if values.len() > 0 {
        lemma_tally_bound(values.drop_last(), k);
    }
}

/// Counts the non-blank trimmed values in column `idx` of `records`
/// (records too short to have that column are skipped).
pub fn count_column(records: &Vec<Vec<String>>, idx: usize) -> (t: FreqTable)
    ensures
        t@ == tally(column_values(rows_view(records@), idx as int)),
{
    let ghost rows = rows_view(records@);
    let mut t: FreqTable = FreqTable::new();
    let n: usize = records.len();
    let mut ri: usize = 0;
    assert(rows.take(0) =~= Seq::<Seq<Seq<char>>>::empty());
    assert(tally(Seq::<Seq<char>>::empty()) =~= Map::<Seq<char>, nat>::empty());
    while ri < n
        invariant
            ri <= n,
            n == records@.len(),
            rows == rows_view(records@),
            t@ == tally(column_values(rows.take(ri as int), idx as int)),
        decreases n - ri,
    {
        let ghost before = column_values(rows.take(ri as int), idx as int);
        assert(rows.take(ri + 1).drop_last() =~= rows.take(ri as int));
        assert(rows[ri as int] == records@[ri as int]@.map_values(|f: String| f@));
        if idx < records[ri].len() {
            let field: &str = records[ri][idx].as_str();
            assert(column_values(rows.take(ri + 1), idx as int) == before.push(field@));
            assert(before.push(field@).drop_last() =~= before);
            let k: &str = trim(field);
            if !k.is_empty() {
                proof {
                    lemma_tally_bound(before, k@);
                    crate::table::lemma_column_values_len(rows.take(ri as int), idx as int);
                }
                t.add(k);
            }
        } else {
            assert(column_values(rows.take(ri + 1), idx as int) == before);
        }
        ri = ri + 1;
    }
    assert(rows.take(n as int) =~= rows);
    t
}

/// Why a column could not be counted.
pub enum CountError {
    /// The CSV text could not be read.
    Csv(csv::Error),
    /// No header matches the column name.
    ColumnNotFound,
}

/// Counts the values of the column named `col` in the CSV text `data`: the
/// header row is read first and searched for `col`, then the records are
/// read and that column's non-blank trimmed values counted.
pub fn count_by(data: &[u8], col: &str) -> (r: Result<FreqTable, CountError>)
    ensures
        csv_headers(data@, false) is None ==> r matches Err(CountError::Csv(_)),
        csv_headers(data@, false) matches Some(h) ==> ((forall|j: int|
            0 <= j < h.len() ==> !header_matches(#[trigger] h[j], col@)) ==> r matches Err(
            CountError::ColumnNotFound,
        )),
        csv_headers(data@, false) matches Some(h) ==> (forall|i: int|
            #[trigger] first_match(h, col@, i) ==> (csv_records(data@, false) is None ==> r matches Err(
                CountError::Csv(_),
            ))),
        csv_headers(data@, false) matches Some(h) ==> (forall|i: int|
            #[trigger] first_match(h, col@, i) ==> (csv_records(data@, false) matches Some(rows)
                ==> (r matches Ok(t) && t@ == tally(column_values(rows, i))))),
{
    let headers: Vec<String> = match read_headers(data, false) {
        Ok(h) => h,
        Err(e) => return Err(CountError::Csv(e)),
    };
    let idx: usize = match col_index(&headers, col) {
        Some(i) => i,
        None => return Err(CountError::ColumnNotFound),
    };
    let records: Vec<Vec<String>> = match read_records(data, false) {
        Ok(rs) => rs,
        Err(e) => return Err(CountError::Csv(e)),
    };
    Ok(count_column(&records, idx))
}


/// `v` lists each value counted in both `a` and `b`, once, with its count
/// in `a` then its count in `b`.
pub open spec fn joins(v: Seq<(String, usize, usize)>, a: Map<Seq<char>, nat>, b: Map<Seq<char>, nat>) -> bool {
    &&& forall|i: int|
        0 <= i < v.len() ==> {
            &&& a.contains_key(#[trigger] v[i].0@)
            &&& b.contains_key(v[i].0@)
            &&& a[v[i].0@] == v[i].1
            &&& b[v[i].0@] == v[i].2
        }
    &&& forall|i: int, j: int| 0 <= i < j < v.len() ==> v[i].0@ != v[j].0@
    &&& forall|k: Seq<char>|
        a.contains_key(k) && b.contains_key(k) ==> exists|i: int|
            0 <= i < v.len() && #[trigger] v[i].0@ == k
}

/// The entries of `pairs` whose value is also counted in `second`, in the
/// order of `pairs`, each with its count in `second` added.
fn common_entries(pairs: &Vec<(String, usize)>, second: &FreqTable) -> (res: (
    Vec<(String, usize, usize)>,
    Ghost<Seq<int>>,
))
    requires
        forall|i: int, j: int| 0 <= i < j < pairs@.len() ==> pairs@[i].0@ != pairs@[j].0@,
    ensures
        ({
            let (both, src) = res;
            &&& src@.len() == both@.len()
            &&& forall|q: int| 0 <= q < both@.len() ==> {
                &&& second@.contains_key(#[trigger] both@[q].0@)
                &&& second@[both@[q].0@] == both@[q].2
                &&& 0 <= src@[q] < pairs@.len()
                &&& pairs@[src@[q]] == (both@[q].0, both@[q].1)
            }
            &&& forall|q: int, r: int| 0 <= q < r < both@.len() ==> both@[q].0@ != both@[r].0@
            &&& forall|j: int|
                0 <= j < pairs@.len() && second@.contains_key(#[trigger] pairs@[j].0@) ==> exists|q: int|
                    0 <= q < both@.len() && both@[q].0@ == pairs@[j].0@
        }),
{
    let mut both: Vec<(String, usize, usize)> = Vec::new();
    let ghost mut src: Seq<int> = Seq::empty();
    let n: usize = pairs.len();
    let mut i: usize = 0;
    while i < n
        invariant
            i <= n,
            n == pairs@.len(),
            forall|a: int, b: int| 0 <= a < b < pairs@.len() ==> pairs@[a].0@ != pairs@[b].0@,
            src.len() == both@.len(),
            forall|q: int|
                #![trigger both@[q]]
                #![trigger src[q]]
                0 <= q < both@.len() ==> {
                    &&& 0 <= src[q] < i
                    &&& pairs@[src[q]] == (both@[q].0, both@[q].1)
                    &&& second@.contains_key(both@[q].0@)
                    &&& second@[both@[q].0@] == both@[q].2
                },
            forall|q: int, r: int| 0 <= q < r < src.len() ==> src[q] < src[r],
            forall|j: int|
                0 <= j < i && second@.contains_key(#[trigger] pairs@[j].0@) ==> exists|q: int|
                    0 <= q < src.len() && src[q] == j,
        decreases n - i,
    {
        let name: &String = &pairs[i].0;
        if second.contains(name) {
            let c: usize = second.get(name);
            let ghost prev = both@;
            let ghost prev_src = src;
            proof {
                src = src.push(i as int);
            }
            both.push((name.clone(), pairs[i].1, c));
            proof {
                assert forall|q: int|
                    #![trigger both@[q]]
                    0 <= q < both@.len() implies {
                        &&& 0 <= src[q] < i + 1
                        &&& pairs@[src[q]] == (both@[q].0, both@[q].1)
                        &&& second@.contains_key(both@[q].0@)
                        &&& second@[both@[q].0@] == both@[q].2
                    } by {
                    if q < prev.len() {
                        assert(both@[q] == prev[q]);
                        assert(src[q] == prev_src[q]);
                    } else {
                        assert(both@[q] == (pairs@[i as int].0, pairs@[i as int].1, c));
                        assert(src[q] == i);
                    }
                }
                assert forall|q: int, r: int| 0 <= q < r < src.len() implies src[q] < src[r] by {
                    if r == src.len() - 1 {
                        assert(src[q] == prev_src[q]);
                    } else {
                        assert(src[q] == prev_src[q] && src[r] == prev_src[r]);
                    }
                }
                assert forall|j: int|
                    0 <= j < i + 1 && second@.contains_key(#[trigger] pairs@[j].0@) implies exists|q: int|
                        0 <= q < src.len() && src[q] == j by {
                    if j == i {
                        assert(src[src.len() - 1] == j);
                    } else {
                        let q = choose|q: int| 0 <= q < prev_src.len() && prev_src[q] == j;
                        assert(src[q] == j);
                    }
                }
            }
        }
        i = i + 1;
    }
    proof {
        assert forall|q: int, r: int| 0 <= q < r < both@.len() implies both@[q].0@ != both@[r].0@ by {
            assert(src[q] < src[r]);
            assert(pairs@[src[q]].0@ != pairs@[src[r]].0@);
        }
        assert forall|j: int|
            0 <= j < pairs@.len() && second@.contains_key(#[trigger] pairs@[j].0@) implies exists|q: int|
                0 <= q < both@.len() && both@[q].0@ == pairs@[j].0@ by {
            let q = choose|q: int| 0 <= q < src.len() && src[q] == j;
            assert(pairs@[src[q]].0 == both@[q].0);
        }
    }
    (both, Ghost(src))
}

/// The values counted in both tables with their two counts, the largest
/// count in `second` first.
pub fn join_counts(first: &FreqTable, second: &FreqTable) -> (v: Vec<(String, usize, usize)>)
    ensures
        joins(v@, first@, second@),
        forall|i: int, j: int| 0 <= i < j < v@.len() ==> v@[i].2 >= v@[j].2,
{
    let pairs: Vec<(String, usize)> = first.ranked();
    let (both, src) = common_entries(&pairs, second);
    let m: usize = both.len();
    let mut key: Vec<usize> = Vec::new();
    let mut i: usize = 0;
    while i < m
        invariant
            i <= m,
            m == both@.len(),
            key@.len() == i,
            forall|q: int| 0 <= q < i ==> key@[q] == (#[trigger] both@[q]).2,
        decreases m - i,
    {
        key.push(both[i].2);
        i = i + 1;
    }
    let p: Vec<usize> = rank_desc(&key);
    let mut v: Vec<(String, usize, usize)> = Vec::new();
    let mut q: usize = 0;
    while q < m
        invariant
            q <= m,
            m == both@.len(),
            key@.len() == m,
            forall|j: int| 0 <= j < m ==> key@[j] == (#[trigger] both@[j]).2,
            is_permutation(p@, m as nat),
            ranks_by_desc(p@, key@),
            v@.len() == q,
            forall|j: int| 0 <= j < q ==> #[trigger] v@[j] == both@[p@[j] as int],
        decreases m - q,
    {
        let idx: usize = p[q];
        let e: &(String, usize, usize) = &both[idx];
        v.push((e.0.clone(), e.1, e.2));
        q = q + 1;
    }
    proof {
        assert forall|i: int| 0 <= i < v@.len() implies {
            &&& first@.contains_key(#[trigger] v@[i].0@)
            &&& second@.contains_key(v@[i].0@)
            &&& first@[v@[i].0@] == v@[i].1
            &&& second@[v@[i].0@] == v@[i].2
        } by {
            let b = both@[p@[i] as int];
            assert(v@[i] == b);
            assert(second@.contains_key(b.0@));
            let j = src@[p@[i] as int];
            assert(pairs@[j] == (b.0, b.1));
            assert(first@.contains_key(pairs@[j].0@));
        }
        assert forall|a: int, b: int| 0 <= a < b < v@.len() implies v@[a].0@ != v@[b].0@ by {
            assert(v@[a] == both@[p@[a] as int]);
            assert(v@[b] == both@[p@[b] as int]);
            assert(p@[a] != p@[b]);
            if p@[a] < p@[b] {
                assert(both@[p@[a] as int].0@ != both@[p@[b] as int].0@);
            } else {
                assert(both@[p@[b] as int].0@ != both@[p@[a] as int].0@);
            }
        }
        assert forall|k: Seq<char>| first@.contains_key(k) && second@.contains_key(k) implies exists|i: int|
            0 <= i < v@.len() && #[trigger] v@[i].0@ == k by {
            let j = choose|j: int| 0 <= j < pairs@.len() && #[trigger] pairs@[j].0@ == k;
            let q = choose|q: int| 0 <= q < both@.len() && both@[q].0@ == pairs@[j].0@;
            assert(p@.contains(q as usize));
            let t = choose|t: int| 0 <= t < p@.len() && p@[t] == q as usize;
            assert(v@[t].0@ == k);
        }
        assert forall|a: int, b: int| 0 <= a < b < v@.len() implies v@[a].2 >= v@[b].2 by {
            assert(key@[p@[a] as int] == v@[a].2);
            assert(key@[p@[b] as int] == v@[b].2);
        }
    }
    v
}

} // verus!
