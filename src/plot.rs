use vstd::prelude::*;
use crate::row::{rows_view, Channel, RowView, CHANNEL_COUNT};
use crate::table::Table;

verus! {

/// One point of a plotted series: a time (nanoseconds) and a channel value.
#[derive(PartialEq, Eq, Structural, Clone, Copy, Debug)]
pub struct DataPoint {
    pub x: i64,
    pub y: i64,
}

/// A channel's readings over time, ready to draw: `times[i]` (nanoseconds)
/// pairs with `values[i]`.
pub struct PlotData {
    pub name: String,
    pub times: Vec<i64>,
    pub values: Vec<i64>,
}

/// Whether a row has a value in channel `c`.
pub open spec fn has_value(r: RowView, c: int) -> bool {
    r.cells[c] is Some
}

/// The rows with a value in channel `c`, in order.
pub open spec fn rows_with_value(rows: Seq<RowView>, c: int) -> Seq<RowView> {
    rows.filter(|r: RowView| has_value(r, c))
}

impl PlotData {
    /// The series of channel `channel` of `frame`, named `name`: one point
    /// per row that has a value in it, in row order. `None` where the table
    /// has no such column.
    pub fn over_time(frame: &Table, channel: Channel, name: &str) -> (r: Option<PlotData>)
        requires
            frame.wf(),
        ensures
            r is Some <==> frame@.columns.contains(channel.spec_index()),
            r matches Some(p) ==> {
                let kept = rows_with_value(frame@.rows, channel.spec_index());
                &&& p.name@ == name@
                &&& p.times@ == kept.map_values(|r: RowView| r.time)
                &&& p.values@ == kept.map_values(
                    |r: RowView| r.cells[channel.spec_index()].unwrap(),
                )
            },
    {
        let c = channel.index();
        if !frame.has_column(c) {
            return None;
        }
        let rows = frame.rows();
        let ghost v = frame@.rows;
        let ghost ci = c as int;
        let ghost pred = |r: RowView| has_value(r, ci);
        let mut times: Vec<i64> = Vec::new();
        let mut values: Vec<i64> = Vec::new();
        let mut i: usize = 0;
        while i < rows.len()
            invariant
                i <= rows.len(),
                v == rows_view(rows@),
                ci == c as int,
                c < CHANNEL_COUNT,
                pred == (|r: RowView| has_value(r, ci)),
                forall|k: int| 0 <= k < rows.len() ==> (#[trigger] v[k]).cells.len() == CHANNEL_COUNT,
                times@ == v.take(i as int).filter(pred).map_values(|r: RowView| r.time),
                values@ == v.take(i as int).filter(pred).map_values(
                    |r: RowView| r.cells[ci].unwrap(),
                ),
            decreases rows.len() - i,
        {
            proof {
                assert(v.take(i + 1) == v.take(i as int).push(v[i as int]));
                v.take(i as int).lemma_filter_push(v[i as int], pred);
                assert(v[i as int] == rows@[i as int]@);
            }
            let ghost before_t = times@;
            let ghost before_v = values@;
            match rows[i].cells[c] {
                Some(x) => {
                    times.push(rows[i].time);
                    values.push(x);
                    proof {
                        let f = v.take(i as int).filter(pred);
                        assert(f.push(v[i as int]).map_values(|r: RowView| r.time) =~= f.map_values(
                            |r: RowView| r.time,
                        ).push(v[i as int].time));
                        assert(f.push(v[i as int]).map_values(|r: RowView| r.cells[ci].unwrap())
                            =~= f.map_values(|r: RowView| r.cells[ci].unwrap()).push(x));
                    }
                },
                None => {},
            }
            i += 1;
        }
        proof {
            assert(v.take(rows.len() as int) == v);
            assert(rows_with_value(v, ci) == v.filter(pred));
        }
        Some(PlotData { name: name.to_owned(), times, values })
    }

    /// The series as points, pairing times and values in order (as many as
    /// the shorter of the two lists).
    pub fn points(&self) -> (r: Vec<DataPoint>)
        ensures
            r.len() == if self.times.len() <= self.values.len() {
                self.times.len()
            } else {
                self.values.len()
            },
            forall|i: int|
                0 <= i < r.len() ==> #[trigger] r@[i] == (DataPoint {
                    x: self.times@[i],
                    y: self.values@[i],
                }),
    {
        let mut out: Vec<DataPoint> = Vec::new();
        let mut i: usize = 0;
        while i < self.times.len() && i < self.values.len()
            invariant
                i <= self.times.len(),
                i <= self.values.len(),
                out.len() == i,
                forall|k: int|
                    0 <= k < i ==> #[trigger] out@[k] == (DataPoint {
                        x: self.times@[k],
                        y: self.values@[k],
                    }),
            decreases self.times.len() - i,
        {
            out.push(DataPoint { x: self.times[i], y: self.values[i] });
            i += 1;
        }
        out
    }
}

} // verus!
