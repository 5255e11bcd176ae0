use vstd::prelude::*;

verus! {

/// Number of sensor channels: accelerometer, magnetometer and gyroscope,
/// three axes each.
pub const CHANNEL_COUNT: usize = 9;

/// Channel values are integers in millionths of the sensor's unit.
pub const VALUE_SCALE: i64 = 1_000_000;

/// The sensor channels, in column order.
#[derive(PartialEq, Eq, Structural, Clone, Copy, Debug)]
pub enum Channel {
    AccX,
    AccY,
    AccZ,
    MagX,
    MagY,
    MagZ,
    GyroX,
    GyroY,
    GyroZ,
}

impl Channel {
    /// Column position of the channel.
    pub open spec fn spec_index(self) -> int {
        match self {
            Channel::AccX => 0,
            Channel::AccY => 1,
            Channel::AccZ => 2,
            Channel::MagX => 3,
            Channel::MagY => 4,
            Channel::MagZ => 5,
            Channel::GyroX => 6,
            Channel::GyroY => 7,
            Channel::GyroZ => 8,
        }
    }

    pub fn index(&self) -> (r: usize)
        ensures
            r == self.spec_index(),
            r < CHANNEL_COUNT,
    {
        match self {
            Channel::AccX => 0,
            Channel::AccY => 1,
            Channel::AccZ => 2,
            Channel::MagX => 3,
            Channel::MagY => 4,
            Channel::MagZ => 5,
            Channel::GyroX => 6,
            Channel::GyroY => 7,
            Channel::GyroZ => 8,
        }
    }

    /// The channel at a column position.
    pub fn from_index(i: usize) -> (r: Option<Channel>)
        ensures
            i < CHANNEL_COUNT <==> r is Some,
            r matches Some(c) ==> c.spec_index() == i,
    {
        match i {
            0 => Some(Channel::AccX),
            1 => Some(Channel::AccY),
            2 => Some(Channel::AccZ),
            3 => Some(Channel::MagX),
            4 => Some(Channel::MagY),
            5 => Some(Channel::MagZ),
            6 => Some(Channel::GyroX),
            7 => Some(Channel::GyroY),
            8 => Some(Channel::GyroZ),
            _ => None,
        }
    }

    /// Column name of the channel.
    pub fn name(&self) -> (r: &'static str)
        ensures
            r@ == match self {
                Channel::AccX => "acc_x"@,
                Channel::AccY => "acc_y"@,
                Channel::AccZ => "acc_z"@,
                Channel::MagX => "mag_x"@,
                Channel::MagY => "mag_y"@,
                Channel::MagZ => "mag_z"@,
                Channel::GyroX => "gyro_x"@,
                Channel::GyroY => "gyro_y"@,
                Channel::GyroZ => "gyro_z"@,
            },
    {
        match self {
            Channel::AccX => "acc_x",
            Channel::AccY => "acc_y",
            Channel::AccZ => "acc_z",
            Channel::MagX => "mag_x",
            Channel::MagY => "mag_y",
            Channel::MagZ => "mag_z",
            Channel::GyroX => "gyro_x",
            Channel::GyroY => "gyro_y",
            Channel::GyroZ => "gyro_z",
        }
    }
}

/// One timestamped reading. `time` is in nanoseconds since the session's
/// epoch; `cells[c]` is the value of channel `c` in the sensor's fixed-point
/// unit, `None` where the reading has no value for it.
#[derive(Debug, PartialEq, Eq)]
pub struct Row {
    pub time: i64,
    pub cells: Vec<Option<i64>>,
}

/// What a `Row` holds.
pub struct RowView {
    pub time: i64,
    pub cells: Seq<Option<i64>>,
}

impl View for Row {
    type V = RowView;

    open spec fn view(&self) -> RowView {
        RowView { time: self.time, cells: self.cells@ }
    }
}

/// The views of a sequence of rows.
pub open spec fn rows_view(rows: Seq<Row>) -> Seq<RowView> {
    rows.map_values(|r: Row| r@)
}

impl Row {
    /// A reading with a value in every channel.
    pub fn complete(time: i64, values: &Vec<i64>) -> (r: Option<Row>)
        ensures
            values.len() == CHANNEL_COUNT <==> r is Some,
            r matches Some(row) ==> row@.time == time && row@.cells == values@.map_values(
                |v: i64| Some(v),
            ),
    {
        if values.len() != CHANNEL_COUNT {
            return None;
        }
        let mut cells: Vec<Option<i64>> = Vec::new();
        let mut i: usize = 0;
        while i < values.len()
            invariant
                i <= values.len(),
                cells@ == values@.take(i as int).map_values(|v: i64| Some(v)),
            decreases values.len() - i,
        {
            cells.push(Some(values[i]));
            i += 1;
            assert(values@.take(i as int) == values@.take(i - 1).push(values@[i - 1]));
        }
        assert(values@.take(values.len() as int) == values@);
        Some(Row { time, cells })
    }

    /// A copy of the row.
    pub fn duplicate(&self) -> (r: Row)
        ensures
            r@ == self@,
    {
        let mut cells: Vec<Option<i64>> = Vec::new();
        let mut i: usize = 0;
        while i < self.cells.len()
            invariant
                i <= self.cells.len(),
                cells@ == self.cells@.take(i as int),
            decreases self.cells.len() - i,
        {
            cells.push(self.cells[i]);
            i += 1;
            assert(self.cells@.take(i as int) == self.cells@.take(i - 1).push(self.cells@[i - 1]));
        }
        assert(self.cells@.take(self.cells.len() as int) == self.cells@);
        Row { time: self.time, cells }
    }
}

/// The latest timestamp among `rows` (0 where there are none).
pub open spec fn max_time(rows: Seq<RowView>) -> int
    decreases rows.len(),
{
    if rows.len() == 0 {
        0
    } else if rows.len() == 1 {
        rows[0].time as int
    } else {
        let m = max_time(rows.drop_last());
        let t = rows.last().time as int;
        if t > m {
            t
        } else {
            m
        }
    }
}

/// The rows of `rows` that lie within `span` of the latest timestamp, in
/// their order: those with `time >= max_time(rows) - span`.
pub open spec fn recent(rows: Seq<RowView>, span: int) -> Seq<RowView> {
    rows.filter(|r: RowView| r.time >= max_time(rows) - span)
}

/// The latest timestamp is that of one of the rows, and no row is later.
pub proof fn lemma_max_time(rows: Seq<RowView>)
    requires
        rows.len() > 0,
    ensures
        exists|i: int| 0 <= i < rows.len() && rows[i].time == max_time(rows),
        forall|i: int| 0 <= i < rows.len() ==> rows[i].time <= max_time(rows),
    decreases rows.len(),
{
    if rows.len() == 1 {
        assert(rows[0].time == max_time(rows));
    } else {
        let init = rows.drop_last();
        lemma_max_time(init);
        let i0 = choose|i: int| 0 <= i < init.len() && init[i].time == max_time(init);
        if rows.last().time > max_time(init) {
            assert(rows[rows.len() - 1].time == max_time(rows));
        } else {
            assert(rows[i0].time == max_time(rows));
        }
        assert forall|i: int| 0 <= i < rows.len() implies rows[i].time <= max_time(rows) by {
            if i < rows.len() - 1 {
                assert(rows[i] == init[i]);
            }
        }
    }
}

} // verus!
