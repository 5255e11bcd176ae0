use vstd::prelude::*;
use crate::row::{
    lemma_max_time, max_time, recent, rows_view, Row, RowView,
    CHANNEL_COUNT,
};

verus! {

/// What a `Table` holds: its set of column positions and its rows.
pub struct TableView {
    pub columns: Set<int>,
    pub rows: Seq<RowView>,
}

/// A row fits a column set when it has a cell for every channel and no
/// value outside the set.
pub open spec fn row_fits(columns: Set<int>, row: RowView) -> bool {
    &&& row.cells.len() == CHANNEL_COUNT
    &&& forall|c: int| 0 <= c < CHANNEL_COUNT && (#[trigger] row.cells[c]) is Some ==> columns.contains(c)
}

/// The shape every table keeps: column positions are channel positions, and
/// every row fits the column set.
pub open spec fn table_wf(v: TableView) -> bool {
    &&& forall|c: int| #[trigger] v.columns.contains(c) ==> 0 <= c < CHANNEL_COUNT
    &&& forall|i: int| 0 <= i < v.rows.len() ==> row_fits(v.columns, #[trigger] v.rows[i])
}

/// The column set that a mask of `CHANNEL_COUNT` flags names.
pub open spec fn mask_columns(mask: Seq<bool>) -> Set<int> {
    Set::new(|c: int| 0 <= c < CHANNEL_COUNT && mask[c])
}

/// The device buffer: a table with one row per reading and a column per
/// channel, grown by appending batches and bounded by trimming old rows.
/// Rows are kept in the order they were appended.
#[derive(Debug)]
pub struct Table {
    columns: Vec<bool>,
    rows: Vec<Row>,
}

/// Why a row was not taken into a table.
#[derive(PartialEq, Eq, Structural, Clone, Copy, Debug)]
pub enum ShapeError {
    /// The mask or the row does not have one entry per channel.
    WrongWidth,
    /// The row has a value in a channel that the table lacks.
    UnknownChannel,
}

impl View for Table {
    type V = TableView;

    closed spec fn view(&self) -> TableView {
        TableView {
            columns: mask_columns(self.columns@),
            rows: rows_view(self.rows@),
        }
    }
}

impl Table {
    /// The table's shape: one flag per channel, every row fitting.
    pub closed spec fn wf(&self) -> bool {
        &&& self.columns.len() == CHANNEL_COUNT
        &&& table_wf(self@)
    }

    /// The empty table: no columns, no rows.
    pub fn new() -> (t: Table)
        ensures
            t.wf(),
            t@.columns == Set::<int>::empty(),
            t@.rows == Seq::<RowView>::empty(),
    {
        let mut columns: Vec<bool> = Vec::new();
        let mut i: usize = 0;
        while i < CHANNEL_COUNT
            invariant
                i <= CHANNEL_COUNT,
                columns.len() == i,
                forall|c: int| 0 <= c < i ==> !columns@[c],
            decreases CHANNEL_COUNT - i,
        {
            columns.push(false);
            i += 1;
        }
        let t = Table { columns, rows: Vec::new() };
        assert(t@.columns =~= Set::<int>::empty());
        assert(t@.rows =~= Seq::<RowView>::empty());
        t
    }

    /// An empty table with the columns that `mask` flags (one flag per
    /// channel, in column order).
    pub fn with_channels(mask: &Vec<bool>) -> (r: Result<Table, ShapeError>)
        ensures
            r matches Ok(t) ==> t.wf(),
            mask.len() == CHANNEL_COUNT <==> r is Ok,
            !(r is Ok) ==> r == Err::<Table, ShapeError>(ShapeError::WrongWidth),
            r matches Ok(t) ==> t@.columns == mask_columns(mask@) && t@.rows == Seq::<
                RowView,
            >::empty(),
    {
        if mask.len() != CHANNEL_COUNT {
            return Err(ShapeError::WrongWidth);
        }
        let mut columns: Vec<bool> = Vec::new();
        let mut i: usize = 0;
        while i < CHANNEL_COUNT
            invariant
                i <= CHANNEL_COUNT,
                mask.len() == CHANNEL_COUNT,
                columns@ == mask@.take(i as int),
            decreases CHANNEL_COUNT - i,
        {
            columns.push(mask[i]);
            i += 1;
            assert(mask@.take(i as int) == mask@.take(i - 1).push(mask@[i - 1]));
        }
        assert(mask@.take(CHANNEL_COUNT as int) == mask@);
        let t = Table { columns, rows: Vec::new() };
        assert(t@.rows =~= Seq::<RowView>::empty());
        Ok(t)
    }

    /// An empty table with every channel as a column.
    pub fn with_all_channels() -> (t: Table)
        ensures
            t.wf(),
            t@.columns == Set::new(|c: int| 0 <= c < CHANNEL_COUNT),
            t@.rows == Seq::<RowView>::empty(),
    {
        let mut mask: Vec<bool> = Vec::new();
        let mut i: usize = 0;
        while i < CHANNEL_COUNT
            invariant
                i <= CHANNEL_COUNT,
                mask.len() == i,
                forall|c: int| 0 <= c < i ==> mask@[c],
            decreases CHANNEL_COUNT - i,
        {
            mask.push(true);
            i += 1;
        }
        let t = Table { columns: mask, rows: Vec::new() };
        assert(t@.columns =~= Set::new(|c: int| 0 <= c < CHANNEL_COUNT));
        assert(t@.rows =~= Seq::<RowView>::empty());
        t
    }

    /// Puts a table together from a column mask and rows that fit it.
    pub(crate) fn assemble(columns: Vec<bool>, rows: Vec<Row>) -> (t: Table)
        requires
            columns.len() == CHANNEL_COUNT,
            table_wf(TableView { columns: mask_columns(columns@), rows: rows_view(rows@) }),
        ensures
            t.wf(),
            t@ == (TableView { columns: mask_columns(columns@), rows: rows_view(rows@) }),
    {
        Table { columns, rows }
    }

    /// The column set as one flag per channel.
    pub fn column_mask(&self) -> (r: Vec<bool>)
        requires
            self.wf(),
        ensures
            r.len() == CHANNEL_COUNT,
            mask_columns(r@) == self@.columns,
    {
        let mut columns: Vec<bool> = Vec::new();
        let mut c: usize = 0;
        while c < CHANNEL_COUNT
            invariant
                c <= CHANNEL_COUNT,
                self.columns.len() == CHANNEL_COUNT,
                columns@ == self.columns@.take(c as int),
            decreases CHANNEL_COUNT - c,
        {
            columns.push(self.columns[c]);
            c += 1;
            assert(self.columns@.take(c as int) == self.columns@.take(c - 1).push(
                self.columns@[c - 1],
            ));
        }
        assert(self.columns@.take(CHANNEL_COUNT as int) == self.columns@);
        columns
    }

    /// The rows, in order.
    pub fn rows(&self) -> (r: &Vec<Row>)
        requires
            self.wf(),
        ensures
            rows_view(r@) == self@.rows,
            table_wf(self@),
    {
        &self.rows
    }

    /// Number of rows.
    pub fn len(&self) -> (r: usize)
        ensures
            r == self@.rows.len(),
    {
        self.rows.len()
    }

    /// Whether channel position `c` is a column.
    pub fn has_column(&self, c: usize) -> (r: bool)
        requires
            self.wf(),
        ensures
            r == self@.columns.contains(c as int),
    {
        c < CHANNEL_COUNT && self.columns[c]
    }

    /// Adds one row at the end, when it fits the column set.
    pub fn push_row(&mut self, row: Row) -> (r: Result<(), ShapeError>)
        requires
            old(self).wf(),
        ensures
            final(self).wf(),
            r is Ok <==> row_fits(old(self)@.columns, row@),
            r is Ok ==> final(self)@.rows == old(self)@.rows.push(row@),
            r is Ok ==> final(self)@.columns == old(self)@.columns,
            !(r is Ok) ==> final(self)@ == old(self)@,
            row.cells.len() != CHANNEL_COUNT ==> r == Err::<(), ShapeError>(
                ShapeError::WrongWidth,
            ),
            row.cells.len() == CHANNEL_COUNT && !(r is Ok) ==> r == Err::<(), ShapeError>(
                ShapeError::UnknownChannel,
            ),
    {
        if row.cells.len() != CHANNEL_COUNT {
            return Err(ShapeError::WrongWidth);
        }
        let mut c: usize = 0;
        while c < CHANNEL_COUNT
            invariant
                c <= CHANNEL_COUNT,
                row.cells.len() == CHANNEL_COUNT,
                self.wf(),
                *self == *old(self),
                forall|k: int|
                    0 <= k < c && (#[trigger] row.cells@[k]) is Some ==> self.columns@[k],
            decreases CHANNEL_COUNT - c,
        {
            if row.cells[c].is_some() && !self.columns[c] {
                proof {
                    assert(!mask_columns(self.columns@).contains(c as int));
                }
                return Err(ShapeError::UnknownChannel);
            }
            c += 1;
        }
        let ghost old_rows = self.rows@;
        proof {
            assert(row_fits(self@.columns, row@));
        }
        self.rows.push(row);
        proof {
            assert(rows_view(self.rows@) =~= rows_view(old_rows).push(row@));
            assert forall|i: int| 0 <= i < self@.rows.len() implies row_fits(
                self@.columns,
                #[trigger] self@.rows[i],
            ) by {
                if i < old_rows.len() {
                    assert(self@.rows[i] == old(self)@.rows[i]);
                }
            }
        }
        Ok(())
    }

    /// Appends a batch: its rows follow the existing ones, and the column
    /// set becomes the union of both (rows lacking a channel hold `None`).
    pub fn append(&mut self, batch: Table)
        requires
            old(self).wf(),
            batch.wf(),
        ensures
            final(self).wf(),
            final(self)@ == appended(old(self)@, batch@),
    {
        let ghost old_view = self@;
        let mut c: usize = 0;
        while c < CHANNEL_COUNT
            invariant
                c <= CHANNEL_COUNT,
                self.columns.len() == CHANNEL_COUNT,
                batch.columns.len() == CHANNEL_COUNT,
                self.rows == old(self).rows,
                forall|k: int|
                    0 <= k < c ==> #[trigger] self.columns@[k] == (old(self).columns@[k]
                        || batch.columns@[k]),
                forall|k: int| c <= k < CHANNEL_COUNT ==> #[trigger] self.columns@[k] == old(
                    self,
                ).columns@[k],
            decreases CHANNEL_COUNT - c,
        {
            let joined = self.columns[c] || batch.columns[c];
            self.columns.set(c, joined);
            c += 1;
        }
        let mut batch = batch;
        let ghost batch_view = batch@;
        self.rows.append(&mut batch.rows);
        proof {
            assert(self@.columns =~= old_view.columns.union(batch_view.columns));
            assert(rows_view(self.rows@) =~= old_view.rows + batch_view.rows);
            assert(self@ == appended(old_view, batch_view));
            assert forall|i: int| 0 <= i < self@.rows.len() implies row_fits(
                self@.columns,
                #[trigger] self@.rows[i],
            ) by {
                if i < old_view.rows.len() {
                    assert(self@.rows[i] == old_view.rows[i]);
                    assert(row_fits(old_view.columns, old_view.rows[i]));
                } else {
                    assert(self@.rows[i] == batch_view.rows[i - old_view.rows.len()]);
                    assert(row_fits(batch_view.columns, batch_view.rows[i - old_view.rows.len()]));
                }
            }
        }
    }

    /// The latest timestamp, `None` for an empty table.
    pub fn max_time(&self) -> (r: Option<i64>)
        requires
            self.wf(),
        ensures
            self@.rows.len() == 0 <==> r is None,
            r matches Some(t) ==> t == max_time(self@.rows),
    {
        latest(&self.rows)
    }

    /// Removes the rows strictly older than the latest timestamp minus
    /// `retention` (nanoseconds); the rest keep their order. Nothing changes
    /// on an empty table.
    pub fn trim_older_than(&mut self, retention: i64)
        requires
            old(self).wf(),
        ensures
            final(self).wf(),
            final(self)@.columns == old(self)@.columns,
            final(self)@.rows == recent(old(self)@.rows, retention as int),
    {
        let ghost old_view = self@;
        let kept = copy_recent(&self.rows, retention);
        self.rows = kept;
        proof {
            assert forall|i: int| 0 <= i < self@.rows.len() implies row_fits(
                self@.columns,
                #[trigger] self@.rows[i],
            ) by {
                let pred = |r: RowView| r.time >= max_time(old_view.rows) - retention;
                assert(self@.rows == old_view.rows.filter(pred));
                assert(old_view.rows.filter(pred).contains(self@.rows[i]));
                old_view.rows.lemma_filter_contains_rev(pred, self@.rows[i]);
                let j = choose|j: int|
                    0 <= j < old_view.rows.len() && old_view.rows[j] == self@.rows[i];
                assert(row_fits(old_view.columns, old_view.rows[j]));
            }
        }
    }

    /// A copy of the table, as it stands.
    pub fn snapshot(&self) -> (r: Table)
        requires
            self.wf(),
        ensures
            r.wf(),
            r@ == self@,
    {
        let columns = self.column_mask();
        let rows = copy_rows(&self.rows);
        Table { columns, rows }
    }

    /// Empties the table: no rows and no columns.
    pub fn clear(&mut self)
        requires
            old(self).wf(),
        ensures
            final(self).wf(),
            final(self)@.columns == Set::<int>::empty(),
            final(self)@.rows == Seq::<RowView>::empty(),
    {
        *self = Table::new();
    }
}

/// The contents after appending `batch` to `data`: the batch's rows follow,
/// and the column set is the union.
pub open spec fn appended(data: TableView, batch: TableView) -> TableView {
    TableView { columns: data.columns.union(batch.columns), rows: data.rows + batch.rows }
}

/// Appending never removes a column: the column set only grows, and a batch
/// whose channels the table already has leaves it as it was.
pub proof fn lemma_append_never_shrinks_columns(data: TableView, batch: TableView)
    ensures
        data.columns.subset_of(appended(data, batch).columns),
        batch.columns.subset_of(appended(data, batch).columns),
        batch.columns.subset_of(data.columns) ==> appended(data, batch).columns == data.columns,
{
    if batch.columns.subset_of(data.columns) {
        assert(appended(data, batch).columns =~= data.columns);
    }
}

/// Trimming keeps exactly the recent rows: every row left is no older than
/// the latest timestamp minus `span` and was in the input, and every input
/// row that is no older than that is left, as often as it occurred.
pub proof fn lemma_trim_keeps_exactly_recent(rows: Seq<RowView>, span: int)
    ensures
        forall|j: int|
            0 <= j < recent(rows, span).len() ==> (#[trigger] recent(rows, span)[j]).time
                >= max_time(rows) - span && rows.contains(recent(rows, span)[j]),
        forall|r: RowView|
            r.time >= max_time(rows) - span ==> recent(rows, span).to_multiset().count(r)
                == rows.to_multiset().count(r),
        forall|r: RowView|
            r.time < max_time(rows) - span ==> recent(rows, span).to_multiset().count(r) == 0,
{
    let pred = |r: RowView| r.time >= max_time(rows) - span;
    assert(recent(rows, span) == rows.filter(pred));
    #[allow(deprecated)]
    rows.filter_lemma(pred);
    assert forall|j: int| 0 <= j < recent(rows, span).len() implies rows.contains(
        #[trigger] recent(rows, span)[j],
    ) by {
        assert(rows.filter(pred).contains(rows.filter(pred)[j]));
        rows.lemma_filter_contains_rev(pred, rows.filter(pred)[j]);
    }
    lemma_filter_count(rows, pred);
}

/// Filtering keeps every element that passes as often as it occurs, and
/// none that fails.
proof fn lemma_filter_count(s: Seq<RowView>, pred: spec_fn(RowView) -> bool)
    ensures
        forall|r: RowView|
            #[trigger] s.filter(pred).to_multiset().count(r) == if pred(r) {
                s.to_multiset().count(r)
            } else {
                0
            },
    decreases s.len(),
{
    broadcast use vstd::seq_lib::group_to_multiset_ensures;

    if s.len() == 0 {
        assert(s.filter(pred) =~= Seq::<RowView>::empty());
    } else {
        let init = s.drop_last();
        let x = s.last();
        lemma_filter_count(init, pred);
        assert(s == init.push(x));
        init.lemma_filter_push(x, pred);
    }
}

/// The latest timestamp does not depend on the order of the rows.
pub proof fn lemma_max_time_same_rows(a: Seq<RowView>, b: Seq<RowView>)
    requires
        forall|r: RowView| a.contains(r) <==> b.contains(r),
    ensures
        max_time(a) == max_time(b),
{
    if a.len() > 0 && b.len() > 0 {
        lemma_max_time(a);
        lemma_max_time(b);
        let i = choose|i: int| 0 <= i < a.len() && a[i].time == max_time(a);
        let j = choose|j: int| 0 <= j < b.len() && b[j].time == max_time(b);
        assert(b.contains(a[i]));
        assert(a.contains(b[j]));
    } else if a.len() > 0 {
        assert(b.contains(a[0]));
    } else if b.len() > 0 {
        assert(a.contains(b[0]));
    }
}

/// Trimming what two batches left does not depend on the order in which
/// they arrived: the same rows remain, as often.
pub proof fn lemma_trim_order_independent(a: Seq<RowView>, b: Seq<RowView>, span: int)
    ensures
        recent(a + b, span).to_multiset() == recent(b + a, span).to_multiset(),
{
    broadcast use vstd::seq_lib::group_to_multiset_ensures;

    assert forall|r: RowView| (a + b).contains(r) <==> (b + a).contains(r) by {
        if (a + b).contains(r) {
            let i = choose|i: int| 0 <= i < (a + b).len() && (a + b)[i] == r;
            if i < a.len() {
                assert((b + a)[b.len() + i] == r);
            } else {
                assert((b + a)[i - a.len()] == r);
            }
        }
        if (b + a).contains(r) {
            let i = choose|i: int| 0 <= i < (b + a).len() && (b + a)[i] == r;
            if i < b.len() {
                assert((a + b)[a.len() + i] == r);
            } else {
                assert((a + b)[i - b.len()] == r);
            }
        }
    }
    lemma_max_time_same_rows(a + b, b + a);
    let pred = |r: RowView| r.time >= max_time(a + b) - span;
    assert(recent(a + b, span) == (a + b).filter(pred));
    assert(recent(b + a, span) == (b + a).filter(pred));
    lemma_filter_count(a + b, pred);
    lemma_filter_count(b + a, pred);
    vstd::seq_lib::lemma_multiset_commutative(a, b);
    vstd::seq_lib::lemma_multiset_commutative(b, a);
    assert forall|r: RowView| #[trigger] recent(a + b, span).to_multiset().count(r) == recent(
        b + a,
        span,
    ).to_multiset().count(r) by {}
    assert(recent(a + b, span).to_multiset() =~= recent(b + a, span).to_multiset());
}

/// Trimming twice with the same retention removes nothing more.
pub proof fn lemma_trim_idempotent(rows: Seq<RowView>, span: int)
    ensures
        recent(recent(rows, span), span) == recent(rows, span),
{
    let pred = |r: RowView| r.time >= max_time(rows) - span;
    let kept = recent(rows, span);
    assert(kept == rows.filter(pred));
    #[allow(deprecated)]
    rows.filter_lemma(pred);
    if kept.len() > 0 {
        lemma_max_time(rows);
        lemma_max_time(kept);
        let i = choose|i: int| 0 <= i < rows.len() && rows[i].time == max_time(rows);
        assert(pred(kept[0]));
        assert(rows.filter(pred).contains(kept[0]));
        rows.lemma_filter_contains_rev(pred, kept[0]);
        assert(pred(rows[i]));
        assert(kept.contains(rows[i]));
        let k = choose|k: int| 0 <= k < kept.len() && kept[k].time == max_time(kept);
        assert(rows.filter(pred).contains(kept[k]));
        rows.lemma_filter_contains_rev(pred, kept[k]);
        assert(max_time(kept) == max_time(rows));
        lemma_filter_all_pass(kept, pred);
    } else {
        assert(kept.filter(|r: RowView| r.time >= max_time(kept) - span) =~= kept);
    }
}

/// Filtering a sequence whose elements all pass leaves it as it is.
proof fn lemma_filter_all_pass(s: Seq<RowView>, pred: spec_fn(RowView) -> bool)
    requires
        forall|i: int| 0 <= i < s.len() ==> pred(#[trigger] s[i]),
    ensures
        s.filter(pred) == s,
    decreases s.len(),
{
    if s.len() == 0 {
        assert(s.filter(pred) =~= s);
    } else {
        let init = s.drop_last();
        assert forall|i: int| 0 <= i < init.len() implies pred(#[trigger] init[i]) by {
            assert(init[i] == s[i]);
        }
        lemma_filter_all_pass(init, pred);
        assert(s == init.push(s.last()));
        init.lemma_filter_push(s.last(), pred);
    }
}

/// The latest timestamp of `rows`, `None` where there are none.
pub fn latest(rows: &Vec<Row>) -> (r: Option<i64>)
    ensures
        rows.len() == 0 <==> r is None,
        r matches Some(t) ==> t == max_time(rows_view(rows@)),
{
    if rows.len() == 0 {
        return None;
    }
    let ghost v = rows_view(rows@);
    let mut m: i64 = rows[0].time;
    let mut i: usize = 1;
    proof {
        assert(v.take(1).drop_last() == Seq::<RowView>::empty());
    }
    while i < rows.len()
        invariant
            1 <= i <= rows.len(),
            v == rows_view(rows@),
            m == max_time(v.take(i as int)),
        decreases rows.len() - i,
    {
        let t = rows[i].time;
        proof {
            assert(v.take(i + 1).drop_last() == v.take(i as int));
            assert(v.take(i + 1).last() == v[i as int]);
        }
        if t > m {
            m = t;
        }
        i += 1;
    }
    assert(v.take(rows.len() as int) == v);
    Some(m)
}

/// Copies of the rows of `rows` that lie within `span` nanoseconds of the
/// latest timestamp, in order.
pub fn copy_recent(rows: &Vec<Row>, span: i64) -> (r: Vec<Row>)
    ensures
        rows_view(r@) == recent(rows_view(rows@), span as int),
{
    let ghost v = rows_view(rows@);
    let mut out: Vec<Row> = Vec::new();
    let latest_time = latest(rows);
    let threshold: i128 = match latest_time {
        Some(t) => t as i128 - span as i128,
        None => 0,
    };
    let ghost pred = |r: RowView| r.time >= max_time(v) - span;
    let mut i: usize = 0;
    while i < rows.len()
        invariant
            i <= rows.len(),
            v == rows_view(rows@),
            rows.len() > 0 ==> threshold == max_time(v) - span,
            pred == (|r: RowView| r.time >= max_time(v) - span),
            rows_view(out@) == v.take(i as int).filter(pred),
        decreases rows.len() - i,
    {
        proof {
            assert(v.take(i + 1) == v.take(i as int).push(v[i as int]));
            v.take(i as int).lemma_filter_push(v[i as int], pred);
            assert(v[i as int] == rows@[i as int]@);
        }
        let ghost before = out@;
        if rows[i].time as i128 >= threshold {
            let copy = rows[i].duplicate();
            out.push(copy);
            proof {
                assert(pred(v[i as int]));
                assert(rows_view(out@) =~= rows_view(before).push(v[i as int]));
            }
        } else {
            assert(!pred(v[i as int]));
        }
        i += 1;
    }
    assert(v.take(rows.len() as int) == v);
    assert(recent(v, span as int) == v.filter(pred));
    out
}

/// Copies of all rows, in order.
pub fn copy_rows(rows: &Vec<Row>) -> (r: Vec<Row>)
    ensures
        rows_view(r@) == rows_view(rows@),
{
    let ghost v = rows_view(rows@);
    let mut out: Vec<Row> = Vec::new();
    let mut i: usize = 0;
    while i < rows.len()
        invariant
            i <= rows.len(),
            v == rows_view(rows@),
            rows_view(out@) == v.take(i as int),
        decreases rows.len() - i,
    {
        let ghost before = out@;
        out.push(rows[i].duplicate());
        proof {
            assert(rows_view(out@) =~= rows_view(before).push(v[i as int]));
            assert(v.take(i + 1) == v.take(i as int).push(v[i as int]));
        }
        i += 1;
    }
    assert(v.take(rows.len() as int) == v);
    out
}

} // verus!
