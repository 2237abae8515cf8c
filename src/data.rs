//! The feature index: a dense per-document feature matrix and, for every
//! feature, the documents sorted ascending by that feature's value.
use vstd::prelude::*;

verus! {

/// One input document: a label in {0, 1} and sparse `(feature id, value)` pairs.
pub struct Row {
    pub label: u8,
    pub features: Vec<(usize, i64)>,
}

/// One entry of a sorted feature column.
#[derive(Clone, Copy, Debug, PartialEq, Eq)]
pub struct SortedEntry {
    pub doc_id: usize,
    pub value: i64,
}

/// Why rows could not be loaded.
#[derive(Clone, Copy, Debug, PartialEq, Eq)]
pub enum FormatError {
    /// The number of rows differs from the declared document count.
    RowCount { expected: usize, found: usize },
    /// The row's label is neither 0 nor 1.
    BadLabel { row: usize },
    /// The row names a feature id outside `[0, fea_num)`.
    FeatureOutOfRange { row: usize, feature: usize },
}

/// The loaded dataset.
pub struct Data {
    /// `values[d][f]`: the value of feature `f` in document `d`, 0 when absent.
    pub values: Vec<Vec<i64>>,
    /// Ground truth of each document, `2 * label - 1`.
    pub labels: Vec<i64>,
    /// `sorted[f]`: every document with its value of feature `f`, ascending.
    pub sorted: Vec<Vec<SortedEntry>>,
    pub doc_num: usize,
    pub fea_num: usize,
}

/// Every feature id of the row is below `fea_num`.
pub open spec fn features_in_range(fs: Seq<(usize, i64)>, fea_num: int) -> bool {
    forall|i: int| 0 <= i < fs.len() ==> #[trigger] fs[i].0 < fea_num
}

/// The row has a label in {0, 1} and only feature ids below `fea_num`.
pub open spec fn row_valid(r: Row, fea_num: int) -> bool {
    r.label <= 1 && features_in_range(r.features@, fea_num)
}

/// The value a row gives feature `f`: its last pair for `f`, or 0 when it has none.
pub open spec fn dense_value(fs: Seq<(usize, i64)>, f: int) -> i64
    decreases fs.len(),
{
    if fs.len() == 0 {
        0
    } else if fs.last().0 == f {
        fs.last().1
    } else {
        dense_value(fs.drop_last(), f)
    }
}

/// Order of sorted entries: by value, ties by document id.
pub open spec fn entry_le(a: SortedEntry, b: SortedEntry) -> bool {
    a.value < b.value || (a.value == b.value && a.doc_id <= b.doc_id)
}

/// Lexicographic order of `(value, document id)` pairs.
pub open spec fn pair_le(a: (i64, usize), b: (i64, usize)) -> bool {
    a.0 < b.0 || (a.0 == b.0 && a.1 <= b.1)
}

/// Some entry of `col` belongs to document `d`.
pub open spec fn column_has(col: Seq<SortedEntry>, d: int) -> bool {
    exists|i: int| 0 <= i < col.len() && #[trigger] col[i].doc_id == d
}

/// `col` lists every document of `values` with its value of feature `f`,
/// ascending by value, ties in document order.
pub open spec fn is_sorted_column(col: Seq<SortedEntry>, values: Seq<Vec<i64>>, f: int) -> bool {
    &&& col.len() == values.len()
    &&& forall|i: int|
        #![trigger col[i]]
        0 <= i < col.len() ==> col[i].doc_id < values.len() && col[i].value
            == values[col[i].doc_id as int]@[f]
    &&& forall|i: int, j: int| 0 <= i < j < col.len() ==> entry_le(#[trigger] col[i], #[trigger] col[j])
    &&& forall|i: int, j: int| 0 <= i < j < col.len() ==> (#[trigger] col[i]).doc_id != (#[trigger] col[j]).doc_id
    &&& forall|d: int|
        #![trigger column_has(col, d)]
        0 <= d < col.len() ==> column_has(col, d)
}

impl Data {
    /// The dataset's shape and its sorted columns are consistent.
    pub open spec fn wf(&self) -> bool {
        &&& self.values.len() == self.doc_num
        &&& self.labels.len() == self.doc_num
        &&& self.sorted.len() == self.fea_num
        &&& forall|d: int| 0 <= d < self.doc_num ==> (#[trigger] self.values@[d]).len() == self.fea_num
        &&& forall|f: int|
            0 <= f < self.fea_num ==> is_sorted_column(#[trigger] self.sorted@[f]@, self.values@, f)
    }
}

proof fn lemma_count_le_one(s: Seq<(i64, usize)>)
    requires
        forall|i: int, j: int| 0 <= i < j < s.len() ==> (#[trigger] s[i]).1 != (#[trigger] s[j]).1,
    ensures
        forall|x: (i64, usize)| #[trigger] s.to_multiset().count(x) <= 1,
    decreases s.len(),
{
    broadcast use vstd::seq_lib::group_to_multiset_ensures;

    if s.len() > 0 {
        let dl = s.drop_last();
        assert forall|i: int, j: int| 0 <= i < j < dl.len() implies (#[trigger] dl[i]).1 != (#[trigger] dl[j]).1 by {
            assert(s[i].1 != s[j].1);
        }
        lemma_count_le_one(dl);
        assert(dl.push(s.last()) =~= s);
        assert(!dl.contains(s.last())) by {
            if dl.contains(s.last()) {
                let k = choose|k: int| 0 <= k < dl.len() && dl[k] == s.last();
                assert(s[k].1 != s[s.len() - 1].1);
            }
        }
        assert forall|x: (i64, usize)| #[trigger] s.to_multiset().count(x) <= 1 by {
            assert(s.to_multiset() =~= dl.to_multiset().insert(s.last()));
        }
    }
}

proof fn lemma_two_equal(s: Seq<(i64, usize)>, i: int, j: int)
    requires
        0 <= i < j < s.len(),
        s[i] == s[j],
    ensures
        s.to_multiset().count(s[i]) >= 2,
    decreases s.len(),
{
    broadcast use vstd::seq_lib::group_to_multiset_ensures;

    let dl = s.drop_last();
    assert(dl.push(s.last()) =~= s);
    assert(s.to_multiset() =~= dl.to_multiset().insert(s.last()));
    if j == s.len() - 1 {
        assert(dl[i] == s[i]);
        assert(dl.contains(s[i]));
    } else {
        assert(dl[i] == s[i] && dl[j] == s[j]);
        lemma_two_equal(dl, i, j);
    }
}

/// Relies on slice::sort: it sorts ascending, tuples compare lexicographically,
/// and it keeps every element.
#[verifier::external_body]
fn sort_pairs(v: &mut Vec<(i64, usize)>)
    ensures
        final(v)@.to_multiset() == old(v)@.to_multiset(),
        forall|i: int, j: int|
            0 <= i < j < final(v)@.len() ==> pair_le(#[trigger] final(v)@[i], #[trigger] final(v)@[j]),
{
    v.sort();
}

/// The dense row of a document: `fea_num` values, each `dense_value` of its pairs;
/// or the first feature id that is out of range.
fn dense_row(fs: &Vec<(usize, i64)>, fea_num: usize) -> (r: Result<Vec<i64>, usize>)
    ensures
        r is Ok <==> features_in_range(fs@, fea_num as int),
        r matches Ok(v) ==> v@.len() == fea_num && forall|f: int|
            0 <= f < fea_num ==> #[trigger] v@[f] == dense_value(fs@, f),
        r matches Err(bad) ==> bad >= fea_num && exists|i: int|
            0 <= i < fs@.len() && #[trigger] fs@[i].0 == bad,
{
    let mut v: Vec<i64> = Vec::new();
    let mut f: usize = 0;
    while f < fea_num
        invariant
            f <= fea_num,
            v@.len() == f,
            forall|j: int| 0 <= j < f ==> #[trigger] v@[j] == 0,
        decreases fea_num - f,
    {
        v.push(0);
        f += 1;
    }
    let mut k: usize = 0;
    while k < fs.len()
        invariant
            k <= fs@.len(),
            v@.len() == fea_num,
            features_in_range(fs@.take(k as int), fea_num as int),
            forall|j: int| 0 <= j < fea_num ==> #[trigger] v@[j] == dense_value(fs@.take(k as int), j),
        decreases fs@.len() - k,
    {
        let (fid, val) = fs[k];
        if fid >= fea_num {
            return Err(fid);
        }
        v.set(fid, val);
        assert(fs@.take(k as int + 1).drop_last() =~= fs@.take(k as int));
        k += 1;
    }
    assert(fs@.take(k as int) =~= fs@);
    Ok(v)
}

impl Data {
    /// Loads `doc_num` rows over features `[0, fea_num)` and sorts every
    /// feature column.
    pub fn new(rows: &Vec<Row>, doc_num: usize, fea_num: usize) -> (r: Result<Data, FormatError>)
        ensures
            r is Ok <==> rows@.len() == doc_num && forall|i: int|
                0 <= i < rows@.len() ==> row_valid(#[trigger] rows@[i], fea_num as int),
            rows@.len() != doc_num ==> r == Err::<Data, FormatError>(
                FormatError::RowCount { expected: doc_num, found: rows@.len() as usize },
            ),
            r matches Err(FormatError::BadLabel { row }) ==> row < rows@.len() && rows@[row as int].label
                > 1 && forall|i: int| 0 <= i < row ==> row_valid(#[trigger] rows@[i], fea_num as int),
            r matches Err(FormatError::FeatureOutOfRange { row, feature }) ==> row < rows@.len()
                && feature >= fea_num && rows@[row as int].label <= 1 && (exists|k: int|
                0 <= k < rows@[row as int].features@.len()
                    && #[trigger] rows@[row as int].features@[k].0 == feature) && forall|i: int|
                0 <= i < row ==> row_valid(#[trigger] rows@[i], fea_num as int),
            r matches Ok(data) ==> {
                &&& data.wf()
                &&& data.doc_num == doc_num
                &&& data.fea_num == fea_num
                &&& forall|d: int, f: int|
                    0 <= d < doc_num && 0 <= f < fea_num ==> #[trigger] data.values@[d]@[f]
                        == dense_value(rows@[d].features@, f)
                &&& forall|d: int|
                    0 <= d < doc_num ==> #[trigger] data.labels@[d] == 2 * rows@[d].label - 1
            },
    {
        if rows.len() != doc_num {
            return Err(FormatError::RowCount { expected: doc_num, found: rows.len() });
        }
        let mut values: Vec<Vec<i64>> = Vec::new();
        let mut labels: Vec<i64> = Vec::new();
        let mut d: usize = 0;
        while d < doc_num
            invariant
                d <= doc_num,
                rows@.len() == doc_num,
                values@.len() == d,
                labels@.len() == d,
                forall|i: int| 0 <= i < d ==> row_valid(#[trigger] rows@[i], fea_num as int),
                forall|i: int| 0 <= i < d ==> (#[trigger] values@[i])@.len() == fea_num,
                forall|i: int, f: int|
                    0 <= i < d && 0 <= f < fea_num ==> #[trigger] values@[i]@[f] == dense_value(
                        rows@[i].features@,
                        f,
                    ),
                forall|i: int| 0 <= i < d ==> #[trigger] labels@[i] == 2 * rows@[i].label - 1,
            decreases doc_num - d,
        {
            let row = &rows[d];
            if row.label > 1 {
                return Err(FormatError::BadLabel { row: d });
            }
            match dense_row(&row.features, fea_num) {
                Ok(v) => {
                    values.push(v);
                    labels.push(2 * (row.label as i64) - 1);
                },
                Err(feature) => {
                    return Err(FormatError::FeatureOutOfRange { row: d, feature });
                },
            }
            d += 1;
        }
        let mut sorted: Vec<Vec<SortedEntry>> = Vec::new();
        let mut f: usize = 0;
        while f < fea_num
            invariant
                f <= fea_num,
                values@.len() == doc_num,
                forall|i: int| 0 <= i < doc_num ==> (#[trigger] values@[i])@.len() == fea_num,
                sorted@.len() == f,
                forall|j: int| 0 <= j < f ==> is_sorted_column(#[trigger] sorted@[j]@, values@, j),
            decreases fea_num - f,
        {
            let col = sorted_column(&values, f);
            sorted.push(col);
            f += 1;
        }
        Ok(Data { values, labels, sorted, doc_num, fea_num })
    }
}

/// Feature `f` of every document, sorted ascending by value, ties in document order.
fn sorted_column(values: &Vec<Vec<i64>>, f: usize) -> (r: Vec<SortedEntry>)
    requires
        forall|i: int| 0 <= i < values@.len() ==> f < (#[trigger] values@[i])@.len(),
    ensures
        is_sorted_column(r@, values@, f as int),
{
    let n = values.len();
    let mut pairs: Vec<(i64, usize)> = Vec::new();
    let mut d: usize = 0;
    while d < n
        invariant
            n == values@.len(),
            d <= n,
            pairs@.len() == d,
            forall|i: int| 0 <= i < values@.len() ==> f < (#[trigger] values@[i])@.len(),
            forall|i: int| 0 <= i < d ==> #[trigger] pairs@[i] == (values@[i]@[f as int], i as usize),
        decreases n - d,
    {
        pairs.push((values[d][f], d));
        d += 1;
    }
    let ghost before = pairs@;
    sort_pairs(&mut pairs);
    proof {
        broadcast use vstd::seq_lib::group_to_multiset_ensures;

        assert(pairs@.to_multiset().len() == before.to_multiset().len());
        assert(pairs@.len() == n);
        assert forall|i: int| 0 <= i < n implies pairs@[i].1 < n && pairs@[i].0
            == values@[pairs@[i].1 as int]@[f as int] by {
            assert(pairs@.to_multiset().count(pairs@[i]) > 0);
            assert(before.contains(pairs@[i]));
        }
        assert forall|i: int| 0 <= i < n implies pairs@.contains(before[i]) by {
            assert(before.to_multiset().count(before[i]) > 0);
        }
        lemma_count_le_one(before);
        assert forall|i: int, j: int| 0 <= i < j < n implies (#[trigger] pairs@[i]).1 != (#[trigger] pairs@[j]).1 by {
            if pairs@[i].1 == pairs@[j].1 {
                assert(pairs@[i] == pairs@[j]);
                lemma_two_equal(pairs@, i, j);
                assert(before.to_multiset().count(pairs@[i]) <= 1);
            }
        }
    }
    let mut col: Vec<SortedEntry> = Vec::new();
    let mut k: usize = 0;
    while k < n
        invariant
            n == values@.len(),
            pairs@.len() == n,
            k <= n,
            col@.len() == k,
            forall|i: int| 0 <= i < k ==> #[trigger] col@[i] == (SortedEntry { doc_id: pairs@[i].1, value: pairs@[i].0 }),
        decreases n - k,
    {
        col.push(SortedEntry { doc_id: pairs[k].1, value: pairs[k].0 });
        k += 1;
    }
    proof {
        assert forall|dd: int| 0 <= dd < n implies column_has(col@, dd) by {
            assert(pairs@.contains(before[dd]));
            let i = choose|i: int| 0 <= i < n && pairs@[i] == before[dd];
            assert(col@[i].doc_id == dd);
        }
        assert forall|i: int, j: int| 0 <= i < j < n implies entry_le(#[trigger] col@[i], #[trigger] col@[j]) by {
            assert(pair_le(pairs@[i], pairs@[j]));
        }
        assert forall|i: int, j: int| 0 <= i < j < n implies (#[trigger] col@[i]).doc_id != (#[trigger] col@[j]).doc_id by {
            assert(pairs@[i].1 != pairs@[j].1);
        }
    }
    col
}

} // verus!
