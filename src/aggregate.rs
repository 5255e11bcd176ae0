use vstd::prelude::*;
use vstd::arithmetic::div_mod::{
    lemma_fundamental_div_mod, lemma_mod_bound, lemma_mod_pos_bound, lemma_div_is_ordered, lemma_div_multiples_vanish, lemma_fundamental_div_mod_converse,
};
use crate::row::{max_time, recent, rows_view, Row, RowView, CHANNEL_COUNT};
use crate::table::{copy_recent, row_fits, Table, TableView};

verus! {

/// The bucket a timestamp falls in: buckets are `width` nanoseconds wide and
/// aligned to time zero, so bucket `k` holds `[k * width, (k + 1) * width)`.
pub open spec fn bucket_of(time: int, width: int) -> int {
    time / width
}

/// Whether a row falls in bucket `key`.
pub open spec fn in_bucket(r: RowView, width: int, key: int) -> bool {
    bucket_of(r.time as int, width) == key
}

/// Number of rows in bucket `key`.
pub open spec fn bucket_len(rows: Seq<RowView>, width: int, key: int) -> nat
    decreases rows.len(),
{
    if rows.len() == 0 {
        0
    } else {
        bucket_len(rows.drop_last(), width, key) + if in_bucket(rows.last(), width, key) {
            1nat
        } else {
            0nat
        }
    }
}

/// Sum of the timestamps of the rows in bucket `key`.
pub open spec fn bucket_time_sum(rows: Seq<RowView>, width: int, key: int) -> int
    decreases rows.len(),
{
    if rows.len() == 0 {
        0
    } else {
        bucket_time_sum(rows.drop_last(), width, key) + if in_bucket(rows.last(), width, key) {
            rows.last().time as int
        } else {
            0
        }
    }
}

/// Whether a row has a value in channel `c` and falls in bucket `key`.
pub open spec fn counts_cell(r: RowView, width: int, key: int, c: int) -> bool {
    in_bucket(r, width, key) && r.cells[c] is Some
}

/// Number of rows of bucket `key` with a value in channel `c`.
pub open spec fn bucket_cell_count(rows: Seq<RowView>, width: int, key: int, c: int) -> nat
    decreases rows.len(),
{
    if rows.len() == 0 {
        0
    } else {
        bucket_cell_count(rows.drop_last(), width, key, c) + if counts_cell(
            rows.last(),
            width,
            key,
            c,
        ) {
            1nat
        } else {
            0nat
        }
    }
}

/// Sum of the values in channel `c` of the rows of bucket `key`.
pub open spec fn bucket_cell_sum(rows: Seq<RowView>, width: int, key: int, c: int) -> int
    decreases rows.len(),
{
    if rows.len() == 0 {
        0
    } else {
        bucket_cell_sum(rows.drop_last(), width, key, c) + if counts_cell(
            rows.last(),
            width,
            key,
            c,
        ) {
            rows.last().cells[c].unwrap() as int
        } else {
            0
        }
    }
}

/// The mean row of bucket `key`: the floor of the mean timestamp, and in
/// each channel the floor of the mean of the values present (`None` where no
/// row of the bucket has one).
pub open spec fn bucket_mean_row(rows: Seq<RowView>, width: int, key: int) -> RowView {
    RowView {
        time: (bucket_time_sum(rows, width, key) / bucket_len(rows, width, key) as int) as i64,
        cells: Seq::new(
            CHANNEL_COUNT as nat,
            |c: int|
                if bucket_cell_count(rows, width, key, c) > 0 {
                    Some(
                        (bucket_cell_sum(rows, width, key, c) / bucket_cell_count(
                            rows,
                            width,
                            key,
                            c,
                        ) as int) as i64,
                    )
                } else {
                    None
                },
        ),
    }
}

/// `keys` lists each bucket that some row falls in, once, in increasing order.
pub open spec fn bucket_order(rows: Seq<RowView>, width: int, keys: Seq<int>) -> bool {
    &&& forall|i: int, j: int| 0 <= i < j < keys.len() ==> keys[i] < keys[j]
    &&& forall|k: int|
        keys.contains(k) <==> exists|i: int|
            0 <= i < rows.len() && bucket_of(rows[i].time as int, width) == k
}

/// The mean rows of the buckets `keys`, in that order.
pub open spec fn bucket_means(rows: Seq<RowView>, width: int, keys: Seq<int>) -> Seq<RowView> {
    keys.map_values(|k: int| bucket_mean_row(rows, width, k))
}

/// `out` is the bucketed view of `rows`: one mean row per non-empty bucket
/// of `width`, in time order, restricted to those within `lookback` of the
/// latest of them.
pub open spec fn aggregated(rows: Seq<RowView>, width: int, lookback: int, out: Seq<RowView>) -> bool {
    exists|keys: Seq<int>|
        #[trigger] bucket_order(rows, width, keys) && out == recent(
            bucket_means(rows, width, keys),
            lookback,
        )
}

/// What `aggregate` gives for a table with contents `data`: the same column
/// set, and no rows for an empty table; otherwise the rows within `lookback`
/// of the latest (no bucket width) or the bucketed view (a positive width);
/// refused exactly for a non-empty table and a width of zero or less.
pub open spec fn aggregate_outcome(
    data: TableView,
    bucket_width: Option<i64>,
    lookback: i64,
    r: Result<TableView, AggregateError>,
) -> bool {
    match r {
        Ok(t) => t.columns == data.columns && if data.rows.len() == 0 {
            t.rows.len() == 0
        } else {
            match bucket_width {
                None => t.rows == recent(data.rows, lookback as int),
                Some(w) => w > 0 && aggregated(data.rows, w as int, lookback as int, t.rows),
            }
        },
        Err(e) => e == AggregateError::InvalidBucketWidth && data.rows.len() > 0 && (
        bucket_width matches Some(w) && w <= 0),
    }
}

/// The contents of a table result.
pub open spec fn table_result<E>(r: Result<Table, E>) -> Result<TableView, E> {
    match r {
        Ok(t) => Ok(t@),
        Err(e) => Err(e),
    }
}

/// Why an aggregation was refused.
#[derive(PartialEq, Eq, Structural, Clone, Copy, Debug)]
pub enum AggregateError {
    /// The bucket width is zero or negative.
    InvalidBucketWidth,
}

/// Floor of `a / b`.
fn floor_div(a: i128, b: i128) -> (q: i128)
    requires
        b > 0,
        a > i128::MIN,
    ensures
        q == a / b,
{
    if a >= 0 {
        let q = (a as u128 / b as u128) as i128;
        q
    } else {
        let na: u128 = (-a) as u128;
        let bu: u128 = b as u128;
        assert(na + bu - 1 <= u128::MAX);
        let c: u128 = (na + bu - 1) / bu;
        proof {
            let x = na as int + bu as int - 1;
            let d = bu as int;
            let ci = c as int;
            lemma_fundamental_div_mod(x, d);
            lemma_mod_pos_bound(x, d);
            assert(x == d * ci + x % d);
            let r = d - 1 - x % d;
            assert(0 <= r < d);
            assert(a as int == (-ci) * d + r) by (nonlinear_arith)
                requires
                    x == d * ci + x % d,
                    x == na as int + d - 1,
                    a as int == -(na as int),
                    r == d - 1 - x % d,
            ;
            lemma_fundamental_div_mod_converse(a as int, d, -ci, r);
            assert(ci * d <= d - 1 + na) by (nonlinear_arith)
                requires
                    x == d * ci + x % d,
                    x == na as int + d - 1,
                    x % d >= 0,
            ;
            assert(ci <= na) by (nonlinear_arith)
                requires
                    ci >= 0,
                    d >= 1,
                    na >= 1,
                    ci * d <= d - 1 + na,
            ;
        }
        -(c as i128)
    }
}

/// A mean of `n` values of the timestamp type is of that type too.
proof fn lemma_mean_fits(s: int, n: int)
    requires
        n > 0,
        i64::MIN * n <= s <= i64::MAX * n,
    ensures
        i64::MIN <= s / n <= i64::MAX,
{
    lemma_div_is_ordered(i64::MIN * n, s, n);
    lemma_div_is_ordered(s, i64::MAX * n, n);
    lemma_div_multiples_vanish(i64::MIN as int, n);
    lemma_div_multiples_vanish(i64::MAX as int, n);
    assert(i64::MIN * n == n * i64::MIN) by (nonlinear_arith);
    assert(i64::MAX * n == n * i64::MAX) by (nonlinear_arith);
}

/// Position of the first key not below `k`, in strictly increasing `keys`.
fn lower_bound(keys: &Vec<i64>, k: i64) -> (pos: usize)
    requires
        forall|i: int, j: int| 0 <= i < j < keys.len() ==> keys[i] < keys[j],
    ensures
        pos <= keys.len(),
        forall|j: int| 0 <= j < pos ==> keys[j] < k,
        forall|j: int| pos <= j < keys.len() ==> keys[j] >= k,
{
    let mut lo: usize = 0;
    let mut hi: usize = keys.len();
    while lo < hi
        invariant
            lo <= hi <= keys.len(),
            forall|i: int, j: int| 0 <= i < j < keys.len() ==> keys[i] < keys[j],
            forall|j: int| 0 <= j < lo ==> keys[j] < k,
            forall|j: int| hi <= j < keys.len() ==> keys[j] >= k,
        decreases hi - lo,
    {
        let mid = lo + (hi - lo) / 2;
        if keys[mid] < k {
            lo = mid + 1;
        } else {
            hi = mid;
        }
    }
    lo
}

/// A bucket has rows exactly when some row falls in it, and no more rows
/// than there are.
pub proof fn lemma_bucket_len(rows: Seq<RowView>, width: int, key: int)
    ensures
        bucket_len(rows, width, key) > 0 <==> exists|i: int|
            0 <= i < rows.len() && bucket_of(rows[i].time as int, width) == key,
        bucket_len(rows, width, key) <= rows.len(),
    decreases rows.len(),
{
    if rows.len() > 0 {
        let init = rows.drop_last();
        lemma_bucket_len(init, width, key);
        if bucket_len(init, width, key) > 0 {
            let i = choose|i: int|
                0 <= i < init.len() && bucket_of(init[i].time as int, width) == key;
            assert(rows[i] == init[i]);
        }
        if exists|i: int| 0 <= i < rows.len() && bucket_of(rows[i].time as int, width) == key {
            let i = choose|i: int|
                0 <= i < rows.len() && bucket_of(rows[i].time as int, width) == key;
            if i < rows.len() - 1 {
                assert(init[i] == rows[i]);
            }
        }
    }
}

/// The timestamp sum of a bucket lies between its size times the least and
/// the greatest timestamp.
proof fn lemma_time_sum_bounds(rows: Seq<RowView>, width: int, key: int)
    ensures
        i64::MIN * bucket_len(rows, width, key) <= bucket_time_sum(rows, width, key) <= i64::MAX
            * bucket_len(rows, width, key),
    decreases rows.len(),
{
    if rows.len() > 0 {
        lemma_time_sum_bounds(rows.drop_last(), width, key);
    }
}

/// A channel's value count in a bucket is at most the number of rows.
proof fn lemma_cell_count_bound(rows: Seq<RowView>, width: int, key: int, c: int)
    ensures
        bucket_cell_count(rows, width, key, c) <= rows.len(),
    decreases rows.len(),
{
    if rows.len() > 0 {
        lemma_cell_count_bound(rows.drop_last(), width, key, c);
    }
}

/// A channel's value sum in a bucket lies between its value count times the
/// least and the greatest value.
proof fn lemma_cell_sum_bounds(rows: Seq<RowView>, width: int, key: int, c: int)
    ensures
        i64::MIN * bucket_cell_count(rows, width, key, c) <= bucket_cell_sum(rows, width, key, c)
            <= i64::MAX * bucket_cell_count(rows, width, key, c),
    decreases rows.len(),
{
    if rows.len() > 0 {
        lemma_cell_sum_bounds(rows.drop_last(), width, key, c);
    }
}

/// Where every row fits a column set, a channel with values in some bucket
/// is one of its columns.
proof fn lemma_cell_count_in_columns(
    rows: Seq<RowView>,
    columns: Set<int>,
    width: int,
    key: int,
    c: int,
)
    requires
        0 <= c < CHANNEL_COUNT,
        forall|i: int| 0 <= i < rows.len() ==> row_fits(columns, #[trigger] rows[i]),
        bucket_cell_count(rows, width, key, c) > 0,
    ensures
        columns.contains(c),
    decreases rows.len(),
{
    let init = rows.drop_last();
    if counts_cell(rows.last(), width, key, c) {
        assert(row_fits(columns, rows[rows.len() - 1]));
    } else {
        assert forall|i: int| 0 <= i < init.len() implies row_fits(columns, #[trigger] init[i]) by {
            assert(init[i] == rows[i]);
        }
        lemma_cell_count_in_columns(init, columns, width, key, c);
    }
}

/// Whether `keys` lists bucket `key`.
pub open spec fn has_key(keys: Seq<i64>, key: int) -> bool {
    exists|j: int| 0 <= j < keys.len() && keys[j] == key
}

/// The bucket of a timestamp.
fn bucket_key(time: i64, width: i64) -> (k: i64)
    requires
        width > 0,
    ensures
        k == bucket_of(time as int, width as int),
{
    let q = floor_div(time as i128, width as i128);
    proof {
        let t = time as int;
        let w = width as int;
        lemma_fundamental_div_mod(t, w);
        lemma_mod_bound(t, w);
        if t >= 0 {
            lemma_div_is_ordered(0, t, w);
            assert(t / w <= t) by (nonlinear_arith)
                requires
                    t >= 0,
                    w >= 1,
                    t / w >= 0,
                    t == w * (t / w) + t % w,
                    t % w >= 0,
            {}
        } else {
            lemma_div_is_ordered(t, 0, w);
            assert(t / w >= t) by (nonlinear_arith)
                requires
                    t < 0,
                    w >= 1,
                    t / w <= 0,
                    t == w * (t / w) + t % w,
                    t % w < w,
            {}
        }
    }
    q as i64
}

/// For each bucket that a row of `rows` falls in, in increasing order: its
/// key, its number of rows and the sum of their timestamps.
fn bucket_keys(rows: &Vec<Row>, width: i64) -> (r: (Vec<i64>, Vec<usize>, Vec<i128>))
    requires
        width > 0,
    ensures
        r.0.len() == r.1.len() == r.2.len(),
        forall|i: int, j: int| 0 <= i < j < r.0.len() ==> r.0[i] < r.0[j],
        forall|i: int|
            0 <= i < rows.len() ==> has_key(r.0@, bucket_of(#[trigger] rows@[i].time as int, width as int)),
        forall|j: int|
            0 <= j < r.0.len() ==> #[trigger] r.1[j] == bucket_len(
                rows_view(rows@),
                width as int,
                r.0[j] as int,
            ),
        forall|j: int| 0 <= j < r.0.len() ==> #[trigger] r.1[j] > 0,
        forall|j: int|
            0 <= j < r.0.len() ==> #[trigger] r.2[j] == bucket_time_sum(
                rows_view(rows@),
                width as int,
                r.0[j] as int,
            ),
{
    let ghost v = rows_view(rows@);
    let ghost w = width as int;
    let mut keys: Vec<i64> = Vec::new();
    let mut lens: Vec<usize> = Vec::new();
    let mut sums: Vec<i128> = Vec::new();
    let mut i: usize = 0;
    while i < rows.len()
        invariant
            i <= rows.len(),
            width > 0,
            w == width as int,
            v == rows_view(rows@),
            keys.len() == lens.len() == sums.len(),
            forall|a: int, b: int| 0 <= a < b < keys.len() ==> keys[a] < keys[b],
            forall|a: int| 0 <= a < i ==> has_key(keys@, bucket_of(#[trigger] rows@[a].time as int, w)),
            forall|j: int|
                0 <= j < keys.len() ==> #[trigger] lens[j] == bucket_len(
                    v.take(i as int),
                    w,
                    keys[j] as int,
                ),
            forall|j: int|
                0 <= j < keys.len() ==> #[trigger] sums[j] == bucket_time_sum(
                    v.take(i as int),
                    w,
                    keys[j] as int,
                ),
            forall|j: int| 0 <= j < keys.len() ==> #[trigger] lens[j] > 0,
        decreases rows.len() - i,
    {
        let t = rows[i].time;
        let k = bucket_key(t, width);
        let pos = lower_bound(&keys, k);
        let ghost seen = v.take(i as int);
        let ghost grown = v.take(i + 1);
        let ghost old_keys = keys@;
        let ghost old_lens = lens@;
        let ghost old_sums = sums@;
        proof {
            assert(grown.drop_last() == seen);
            assert(grown.last() == v[i as int]);
            assert(v[i as int] == rows@[i as int]@);
            lemma_bucket_len(grown, w, k as int);
            lemma_time_sum_bounds(grown, w, k as int);
            assert(grown.len() <= usize::MAX);
            assert forall|j: int|
                0 <= j < keys.len() && keys[j] != k implies bucket_len(grown, w, keys[j] as int)
                == bucket_len(seen, w, keys[j] as int) && bucket_time_sum(grown, w, keys[j] as int)
                == bucket_time_sum(seen, w, keys[j] as int) by {}
        }
        if pos < keys.len() && keys[pos] == k {
            proof {
                assert(lens[pos as int] == bucket_len(seen, w, k as int));
                assert(sums[pos as int] == bucket_time_sum(seen, w, k as int));
            }
            let n = lens[pos] + 1;
            let total = sums[pos] + t as i128;
            lens.set(pos, n);
            sums.set(pos, total);
            proof {
                assert forall|a: int| 0 <= a < i + 1 implies has_key(
                    keys@,
                    bucket_of(#[trigger] rows@[a].time as int, w),
                ) by {
                    if a == i {
                        assert(keys[pos as int] == bucket_of(rows@[a].time as int, w));
                    }
                }
            }
        } else {
            proof {
                assert forall|a: int| 0 <= a < i implies bucket_of(
                    #[trigger] rows@[a].time as int,
                    w,
                ) != k by {
                    let j = choose|j: int|
                        0 <= j < keys.len() && keys[j] == bucket_of(rows@[a].time as int, w);
                    if j < pos {
                    } else {
                    }
                }
                lemma_bucket_len(seen, w, k as int);
                if bucket_len(seen, w, k as int) > 0 {
                    let a = choose|a: int|
                        0 <= a < seen.len() && bucket_of(seen[a].time as int, w) == k;
                    assert(seen[a] == rows@[a]@);
                }
            }
            keys.insert(pos, k);
            lens.insert(pos, 1);
            sums.insert(pos, t as i128);
            proof {
                assert forall|a: int, b: int| 0 <= a < b < keys.len() implies keys[a] < keys[b] by {
                    if a < pos && b > pos {
                        assert(keys[a] == old_keys[a]);
                        assert(keys[b] == old_keys[b - 1]);
                    }
                }
                assert forall|a: int| 0 <= a < i + 1 implies has_key(
                    keys@,
                    bucket_of(#[trigger] rows@[a].time as int, w),
                ) by {
                    if a == i {
                        assert(keys[pos as int] == bucket_of(rows@[a].time as int, w));
                    } else {
                        let j = choose|j: int|
                            0 <= j < old_keys.len() && old_keys[j] == bucket_of(
                                rows@[a].time as int,
                                w,
                            );
                        if j < pos {
                            assert(keys[j] == old_keys[j]);
                        } else {
                            assert(keys[j + 1] == old_keys[j]);
                        }
                    }
                }
                assert(bucket_len(seen, w, k as int) == 0);
                lemma_time_sum_bounds(seen, w, k as int);
                assert forall|j: int| 0 <= j < keys.len() implies lens[j] == bucket_len(
                    grown,
                    w,
                    keys[j] as int,
                ) && sums[j] == bucket_time_sum(grown, w, keys[j] as int) by {
                    if j < pos {
                        assert(keys[j] == old_keys[j] && lens[j] == old_lens[j] && sums[j]
                            == old_sums[j]);
                        assert(old_keys[j] != k);
                        assert(old_lens[j] == bucket_len(seen, w, old_keys[j] as int));
                        assert(old_sums[j] == bucket_time_sum(seen, w, old_keys[j] as int));
                    } else if j > pos {
                        assert(keys[j] == old_keys[j - 1] && lens[j] == old_lens[j - 1]
                            && sums[j] == old_sums[j - 1]);
                        assert(old_keys[pos as int] > k);
                        assert(old_keys[j - 1] != k);
                        assert(old_lens[j - 1] == bucket_len(seen, w, old_keys[j - 1] as int));
                        assert(old_sums[j - 1] == bucket_time_sum(seen, w, old_keys[j - 1] as int));
                    }
                }
                assert forall|j: int| 0 <= j < keys.len() implies #[trigger] lens[j] > 0 by {
                    if j < pos {
                        assert(lens[j] == old_lens[j]);
                    } else if j > pos {
                        assert(lens[j] == old_lens[j - 1]);
                    }
                }
            }
        }
        i += 1;
    }
    assert(v.take(rows.len() as int) == v);
    assert forall|j: int| 0 <= j < keys.len() implies #[trigger] lens[j] == bucket_len(
        v,
        w,
        keys[j] as int,
    ) && sums[j] == bucket_time_sum(v, w, keys[j] as int) by {
        assert(lens[j] == bucket_len(v.take(rows.len() as int), w, keys[j] as int));
        assert(sums[j] == bucket_time_sum(v.take(rows.len() as int), w, keys[j] as int));
    }
    (keys, lens, sums)
}

/// For each bucket of `keys`, the number of rows with a value in channel `c`
/// and the sum of those values.
fn channel_sums(rows: &Vec<Row>, width: i64, keys: &Vec<i64>, c: usize) -> (r: (
    Vec<usize>,
    Vec<i128>,
))
    requires
        width > 0,
        c < CHANNEL_COUNT,
        forall|i: int, j: int| 0 <= i < j < keys.len() ==> keys[i] < keys[j],
        forall|i: int|
            0 <= i < rows.len() ==> has_key(
                keys@,
                bucket_of(#[trigger] rows@[i].time as int, width as int),
            ),
        forall|i: int| 0 <= i < rows.len() ==> (#[trigger] rows@[i]).cells.len() == CHANNEL_COUNT,
    ensures
        r.0.len() == keys.len(),
        r.1.len() == keys.len(),
        forall|j: int|
            0 <= j < keys.len() ==> #[trigger] r.0[j] == bucket_cell_count(
                rows_view(rows@),
                width as int,
                keys[j] as int,
                c as int,
            ),
        forall|j: int|
            0 <= j < keys.len() ==> #[trigger] r.1[j] == bucket_cell_sum(
                rows_view(rows@),
                width as int,
                keys[j] as int,
                c as int,
            ),
{
    let ghost v = rows_view(rows@);
    let ghost w = width as int;
    let ghost ci = c as int;
    let mut counts: Vec<usize> = Vec::new();
    let mut sums: Vec<i128> = Vec::new();
    let mut j: usize = 0;
    while j < keys.len()
        invariant
            j <= keys.len(),
            counts.len() == j,
            sums.len() == j,
            forall|a: int| 0 <= a < j ==> #[trigger] counts[a] == 0,
            forall|a: int| 0 <= a < j ==> #[trigger] sums[a] == 0,
        decreases keys.len() - j,
    {
        counts.push(0);
        sums.push(0);
        j += 1;
    }
    assert(v.take(0) == Seq::<RowView>::empty());
    let mut i: usize = 0;
    while i < rows.len()
        invariant
            i <= rows.len(),
            width > 0,
            w == width as int,
            ci == c as int,
            c < CHANNEL_COUNT,
            v == rows_view(rows@),
            counts.len() == keys.len(),
            sums.len() == keys.len(),
            forall|a: int, b: int| 0 <= a < b < keys.len() ==> keys[a] < keys[b],
            forall|a: int|
                0 <= a < rows.len() ==> has_key(keys@, bucket_of(#[trigger] rows@[a].time as int, w)),
            forall|a: int| 0 <= a < rows.len() ==> (#[trigger] rows@[a]).cells.len() == CHANNEL_COUNT,
            forall|j: int|
                0 <= j < keys.len() ==> #[trigger] counts[j] == bucket_cell_count(
                    v.take(i as int),
                    w,
                    keys[j] as int,
                    ci,
                ),
            forall|j: int|
                0 <= j < keys.len() ==> #[trigger] sums[j] == bucket_cell_sum(
                    v.take(i as int),
                    w,
                    keys[j] as int,
                    ci,
                ),
        decreases rows.len() - i,
    {
        let ghost seen = v.take(i as int);
        let ghost grown = v.take(i + 1);
        let ghost old_counts = counts@;
        let ghost old_sums = sums@;
        proof {
            assert(grown.drop_last() == seen);
            assert(grown.last() == v[i as int]);
            assert(v[i as int] == rows@[i as int]@);
        }
        let t = rows[i].time;
        match rows[i].cells[c] {
            Some(val) => {
                let k = bucket_key(t, width);
                let pos = lower_bound(keys, k);
                proof {
                    assert(has_key(keys@, bucket_of(rows@[i as int].time as int, w)));
                    let jj = choose|jj: int| 0 <= jj < keys.len() && keys[jj] == k;
                    assert(jj >= pos);
                    if jj > pos {
                        assert(keys[pos as int] < keys[jj]);
                    }
                    assert(keys[pos as int] == k);
                    lemma_cell_count_bound(grown, w, k as int, ci);
                    lemma_cell_sum_bounds(grown, w, k as int, ci);
                    assert(counts[pos as int] == bucket_cell_count(seen, w, k as int, ci));
                    assert(sums[pos as int] == bucket_cell_sum(seen, w, k as int, ci));
                    assert(grown.len() <= usize::MAX);
                }
                let n = counts[pos] + 1;
                let total = sums[pos] + val as i128;
                counts.set(pos, n);
                sums.set(pos, total);
                proof {
                    assert forall|j: int| 0 <= j < keys.len() && j != pos implies counts[j]
                        == bucket_cell_count(grown, w, keys[j] as int, ci) && sums[j]
                        == bucket_cell_sum(grown, w, keys[j] as int, ci) by {
                        assert(counts[j] == old_counts[j]);
                        assert(sums[j] == old_sums[j]);
                        assert(keys[j] != k);
                    }
                }
            },
            None => {
                proof {
                    assert forall|j: int| 0 <= j < keys.len() implies counts[j]
                        == bucket_cell_count(grown, w, keys[j] as int, ci) && sums[j]
                        == bucket_cell_sum(grown, w, keys[j] as int, ci) by {
                        assert(counts[j] == bucket_cell_count(seen, w, keys[j] as int, ci));
                        assert(sums[j] == bucket_cell_sum(seen, w, keys[j] as int, ci));
                    }
                }
            },
        }
        i += 1;
    }
    assert(v.take(rows.len() as int) == v);
    (counts, sums)
}

/// One mean row per bucket that a row of `rows` falls in, in bucket order.
fn bucket_mean_rows(rows: &Vec<Row>, width: i64) -> (out: Vec<Row>)
    requires
        width > 0,
        forall|i: int| 0 <= i < rows.len() ==> (#[trigger] rows@[i]).cells.len() == CHANNEL_COUNT,
    ensures
        exists|keys: Seq<int>|
            #[trigger] bucket_order(rows_view(rows@), width as int, keys) && rows_view(out@)
                == bucket_means(rows_view(rows@), width as int, keys),
{
    let ghost v = rows_view(rows@);
    let ghost w = width as int;
    let (keys, lens, tsums) = bucket_keys(rows, width);
    let mut counts: Vec<Vec<usize>> = Vec::new();
    let mut sums: Vec<Vec<i128>> = Vec::new();
    let mut c: usize = 0;
    while c < CHANNEL_COUNT
        invariant
            c <= CHANNEL_COUNT,
            width > 0,
            w == width as int,
            v == rows_view(rows@),
            forall|i: int, j: int| 0 <= i < j < keys.len() ==> keys[i] < keys[j],
            forall|i: int|
                0 <= i < rows.len() ==> has_key(keys@, bucket_of(#[trigger] rows@[i].time as int, w)),
            forall|i: int| 0 <= i < rows.len() ==> (#[trigger] rows@[i]).cells.len() == CHANNEL_COUNT,
            counts.len() == c,
            sums.len() == c,
            forall|d: int| 0 <= d < c ==> (#[trigger] counts@[d]).len() == keys.len(),
            forall|d: int| 0 <= d < c ==> (#[trigger] sums@[d]).len() == keys.len(),
            forall|d: int, j: int|
                0 <= d < c && 0 <= j < keys.len() ==> #[trigger] counts@[d]@[j] == bucket_cell_count(
                    v,
                    w,
                    keys[j] as int,
                    d,
                ),
            forall|d: int, j: int|
                0 <= d < c && 0 <= j < keys.len() ==> #[trigger] sums@[d]@[j] == bucket_cell_sum(
                    v,
                    w,
                    keys[j] as int,
                    d,
                ),
        decreases CHANNEL_COUNT - c,
    {
        let (cc, ss) = channel_sums(rows, width, &keys, c);
        counts.push(cc);
        sums.push(ss);
        c += 1;
    }
    let mut out: Vec<Row> = Vec::new();
    let mut j: usize = 0;
    while j < keys.len()
        invariant
            j <= keys.len(),
            w == width as int,
            v == rows_view(rows@),
            keys.len() == lens.len() == tsums.len(),
            counts.len() == CHANNEL_COUNT,
            sums.len() == CHANNEL_COUNT,
            forall|d: int| 0 <= d < CHANNEL_COUNT ==> (#[trigger] counts@[d]).len() == keys.len(),
            forall|d: int| 0 <= d < CHANNEL_COUNT ==> (#[trigger] sums@[d]).len() == keys.len(),
            forall|d: int, i: int|
                0 <= d < CHANNEL_COUNT && 0 <= i < keys.len() ==> #[trigger] counts@[d]@[i]
                    == bucket_cell_count(v, w, keys[i] as int, d),
            forall|d: int, i: int|
                0 <= d < CHANNEL_COUNT && 0 <= i < keys.len() ==> #[trigger] sums@[d]@[i]
                    == bucket_cell_sum(v, w, keys[i] as int, d),
            forall|i: int|
                0 <= i < keys.len() ==> #[trigger] lens[i] == bucket_len(v, w, keys[i] as int),
            forall|i: int|
                0 <= i < keys.len() ==> #[trigger] tsums[i] == bucket_time_sum(
                    v,
                    w,
                    keys[i] as int,
                ),
            forall|i: int| 0 <= i < keys.len() ==> #[trigger] lens[i] > 0,
            out.len() == j,
            forall|i: int|
                0 <= i < j ==> (#[trigger] out@[i])@ == bucket_mean_row(v, w, keys[i] as int),
        decreases keys.len() - j,
    {
        let ghost key = keys[j as int] as int;
        let n = lens[j];
        proof {
            assert(lens[j as int] == bucket_len(v, w, key));
            assert(tsums[j as int] == bucket_time_sum(v, w, key));
            assert(lens[j as int] > 0);
            lemma_time_sum_bounds(v, w, key);
            lemma_mean_fits(tsums[j as int] as int, n as int);
        }
        let time = floor_div(tsums[j], n as i128) as i64;
        let mut cells: Vec<Option<i64>> = Vec::new();
        let mut d: usize = 0;
        while d < CHANNEL_COUNT
            invariant
                d <= CHANNEL_COUNT,
                j < keys.len(),
                key == keys[j as int] as int,
                counts.len() == CHANNEL_COUNT,
                sums.len() == CHANNEL_COUNT,
                forall|e: int| 0 <= e < CHANNEL_COUNT ==> (#[trigger] counts@[e]).len() == keys.len(),
                forall|e: int| 0 <= e < CHANNEL_COUNT ==> (#[trigger] sums@[e]).len() == keys.len(),
                forall|e: int, i: int|
                    0 <= e < CHANNEL_COUNT && 0 <= i < keys.len() ==> #[trigger] counts@[e]@[i]
                        == bucket_cell_count(v, w, keys[i] as int, e),
                forall|e: int, i: int|
                    0 <= e < CHANNEL_COUNT && 0 <= i < keys.len() ==> #[trigger] sums@[e]@[i]
                        == bucket_cell_sum(v, w, keys[i] as int, e),
                cells.len() == d,
                forall|e: int|
                    0 <= e < d ==> #[trigger] cells@[e] == bucket_mean_row(v, w, key).cells[e],
            decreases CHANNEL_COUNT - d,
        {
            let cnt = counts[d][j];
            proof {
                assert(counts@[d as int]@[j as int] == bucket_cell_count(v, w, key, d as int));
                assert(sums@[d as int]@[j as int] == bucket_cell_sum(v, w, key, d as int));
            }
            if cnt > 0 {
                proof {
                    lemma_cell_sum_bounds(v, w, key, d as int);
                    lemma_mean_fits(sums@[d as int]@[j as int] as int, cnt as int);
                }
                let mean = floor_div(sums[d][j], cnt as i128) as i64;
                cells.push(Some(mean));
            } else {
                cells.push(None);
            }
            d += 1;
        }
        proof {
            assert(cells@ =~= bucket_mean_row(v, w, key).cells);
        }
        out.push(Row { time, cells });
        j += 1;
    }
    let ghost ks = keys@.map_values(|k: i64| k as int);
    proof {
        assert forall|k: int|
            ks.contains(k) <==> exists|i: int|
                0 <= i < v.len() && bucket_of(v[i].time as int, w) == k by {
            if ks.contains(k) {
                let jj = choose|jj: int| 0 <= jj < ks.len() && ks[jj] == k;
                assert(lens[jj] > 0);
                lemma_bucket_len(v, w, k);
            }
            if exists|i: int| 0 <= i < v.len() && bucket_of(v[i].time as int, w) == k {
                let i = choose|i: int| 0 <= i < v.len() && bucket_of(v[i].time as int, w) == k;
                assert(v[i] == rows@[i]@);
                assert(has_key(keys@, bucket_of(rows@[i].time as int, w)));
                let jj = choose|jj: int| 0 <= jj < keys.len() && keys[jj] == k;
                assert(ks[jj] == k);
            }
        }
        assert(bucket_order(v, w, ks));
        assert(rows_view(out@) =~= bucket_means(v, w, ks));
    }
    out
}

/// The aggregation view of a table: with a bucket width, one mean row per
/// non-empty bucket, in time order; without one, the rows as they are. Either
/// way only the rows within `lookback` nanoseconds of the latest remain. An
/// empty table gives an empty result for any width; a width of zero or less
/// is refused otherwise.
pub fn aggregate(snapshot: &Table, bucket_width: Option<i64>, lookback: i64) -> (r: Result<
    Table,
    AggregateError,
>)
    requires
        snapshot.wf(),
    ensures
        r matches Ok(t) ==> t.wf(),
        aggregate_outcome(snapshot@, bucket_width, lookback, table_result(r)),
{
    let rows = snapshot.rows();
    let ghost v = snapshot@.rows;
    let columns = snapshot.column_mask();
    if rows.len() == 0 {
        let empty: Vec<Row> = Vec::new();
        proof {
            assert(rows_view(empty@) =~= Seq::<RowView>::empty());
        }
        return Ok(Table::assemble(columns, empty));
    }
    match bucket_width {
        None => {
            let kept = copy_recent(rows, lookback);
            proof {
                let pred = |r: RowView| r.time >= max_time(v) - lookback;
                assert(rows_view(kept@) == v.filter(pred));
                assert forall|i: int| 0 <= i < rows_view(kept@).len() implies row_fits(
                    snapshot@.columns,
                    #[trigger] rows_view(kept@)[i],
                ) by {
                    assert(v.filter(pred).contains(rows_view(kept@)[i]));
                    v.lemma_filter_contains_rev(pred, rows_view(kept@)[i]);
                }
            }
            Ok(Table::assemble(columns, kept))
        },
        Some(width) => {
            if width <= 0 {
                return Err(AggregateError::InvalidBucketWidth);
            }
            proof {
                assert forall|i: int| 0 <= i < rows.len() implies (#[trigger] rows@[i]).cells.len()
                    == CHANNEL_COUNT by {
                    assert(rows_view(rows@)[i] == rows@[i]@);
                    assert(row_fits(snapshot@.columns, v[i]));
                }
            }
            let means = bucket_mean_rows(rows, width);
            let kept = copy_recent(&means, lookback);
            proof {
                let w = width as int;
                let keys = choose|keys: Seq<int>|
                    #[trigger] bucket_order(v, w, keys) && rows_view(means@) == bucket_means(
                        v,
                        w,
                        keys,
                    );
                let mv = rows_view(means@);
                assert forall|j: int| 0 <= j < mv.len() implies row_fits(
                    snapshot@.columns,
                    #[trigger] mv[j],
                ) by {
                    assert(mv[j] == bucket_mean_row(v, w, keys[j]));
                    assert forall|c: int|
                        0 <= c < CHANNEL_COUNT && (#[trigger] mv[j].cells[c]) is Some implies snapshot@.columns.contains(
                        c,
                    ) by {
                        lemma_cell_count_in_columns(v, snapshot@.columns, w, keys[j], c);
                    }
                }
                let pred = |r: RowView| r.time >= max_time(mv) - lookback;
                assert(rows_view(kept@) == mv.filter(pred));
                assert forall|i: int| 0 <= i < rows_view(kept@).len() implies row_fits(
                    snapshot@.columns,
                    #[trigger] rows_view(kept@)[i],
                ) by {
                    assert(mv.filter(pred).contains(rows_view(kept@)[i]));
                    mv.lemma_filter_contains_rev(pred, rows_view(kept@)[i]);
                }
                assert(aggregated(v, w, lookback as int, rows_view(kept@)));
            }
            Ok(Table::assemble(columns, kept))
        },
    }
}

/// Buckets are fixed by the clock, not by the data: appending rows never
/// moves a row to another bucket, so each bucket only gains rows.
pub proof fn lemma_buckets_only_grow(rows: Seq<RowView>, more: Seq<RowView>, width: int, key: int)
    ensures
        bucket_len(rows + more, width, key) == bucket_len(rows, width, key) + bucket_len(
            more,
            width,
            key,
        ),
        bucket_len(rows + more, width, key) >= bucket_len(rows, width, key),
    decreases more.len(),
{
    if more.len() == 0 {
        assert(rows + more == rows);
    } else {
        lemma_buckets_only_grow(rows, more.drop_last(), width, key);
        assert((rows + more).drop_last() == rows + more.drop_last());
        assert((rows + more).last() == more.last());
    }
}

/// An empty table aggregates to an empty result, whatever the bucket width
/// and lookback.
pub proof fn lemma_aggregate_empty(
    data: TableView,
    bucket_width: Option<i64>,
    lookback: i64,
    r: Result<TableView, AggregateError>,
)
    requires
        data.rows.len() == 0,
        aggregate_outcome(data, bucket_width, lookback, r),
    ensures
        r matches Ok(t) && t.rows.len() == 0,
{
}

/// Without a bucket width the result has as many rows as the table has
/// within the lookback: those very rows.
pub proof fn lemma_raw_mode_rows(data: TableView, lookback: i64, t: TableView)
    requires
        aggregate_outcome(data, None, lookback, Ok(t)),
    ensures
        t.rows == recent(data.rows, lookback as int),
        t.rows.len() == recent(data.rows, lookback as int).len(),
{
    if data.rows.len() == 0 {
        let pred = |r: RowView| r.time >= max_time(data.rows) - lookback;
        assert(data.rows.filter(pred).len() <= data.rows.len()) by {
            data.rows.lemma_filter_len(pred);
        }
        assert(t.rows =~= recent(data.rows, lookback as int));
    }
}

/// Aggregating the same rows twice with the same bucket width and lookback
/// gives the same result: the bucketed view is a function of the rows.
pub proof fn lemma_aggregate_deterministic(
    rows: Seq<RowView>,
    width: int,
    lookback: int,
    first: Seq<RowView>,
    second: Seq<RowView>,
)
    requires
        aggregated(rows, width, lookback, first),
        aggregated(rows, width, lookback, second),
    ensures
        first == second,
{
    let k1 = choose|keys: Seq<int>|
        #[trigger] bucket_order(rows, width, keys) && first == recent(
            bucket_means(rows, width, keys),
            lookback,
        );
    let k2 = choose|keys: Seq<int>|
        #[trigger] bucket_order(rows, width, keys) && second == recent(
            bucket_means(rows, width, keys),
            lookback,
        );
    lemma_increasing_same_elements(k1, k2);
}

/// Two strictly increasing sequences with the same elements are equal.
proof fn lemma_increasing_same_elements(a: Seq<int>, b: Seq<int>)
    requires
        forall|i: int, j: int| 0 <= i < j < a.len() ==> a[i] < a[j],
        forall|i: int, j: int| 0 <= i < j < b.len() ==> b[i] < b[j],
        forall|k: int| a.contains(k) <==> b.contains(k),
    ensures
        a == b,
    decreases a.len(),
{
    if a.len() == 0 {
        if b.len() > 0 {
            assert(b.contains(b[0]));
        }
        assert(a =~= b);
    } else {
        assert(a.contains(a[0]));
        if b.len() == 0 {
            assert(b.contains(a[0]));
        }
        assert(b.contains(b[0]));
        let i = choose|i: int| 0 <= i < a.len() && a[i] == b[0];
        let j = choose|j: int| 0 <= j < b.len() && b[j] == a[0];
        if i > 0 {
            assert(a[0] < a[i]);
        }
        if j > 0 {
            assert(b[0] < b[j]);
        }
        assert(a[0] == b[0]);
        let a1 = a.drop_first();
        let b1 = b.drop_first();
        assert forall|k: int| a1.contains(k) <==> b1.contains(k) by {
            if a1.contains(k) {
                let x = choose|x: int| 0 <= x < a1.len() && a1[x] == k;
                assert(a[x + 1] == k);
                assert(a[0] < a[x + 1]);
                assert(a.contains(k));
                let y = choose|y: int| 0 <= y < b.len() && b[y] == k;
                assert(y != 0);
                assert(b1[y - 1] == k);
            }
            if b1.contains(k) {
                let x = choose|x: int| 0 <= x < b1.len() && b1[x] == k;
                assert(b[x + 1] == k);
                assert(b[0] < b[x + 1]);
                assert(b.contains(k));
                let y = choose|y: int| 0 <= y < a.len() && a[y] == k;
                assert(y != 0);
                assert(a1[y - 1] == k);
            }
        }
        lemma_increasing_same_elements(a1, b1);
        assert(a =~= b) by {
            assert forall|x: int| 0 <= x < a.len() implies a[x] == b[x] by {
                if x > 0 {
                    assert(a[x] == a1[x - 1]);
                    assert(b[x] == b1[x - 1]);
                }
            }
        }
    }
}

} // verus!
