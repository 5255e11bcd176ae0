use hecate::aggregate::{aggregate, AggregateError};
use hecate::row::{Row, CHANNEL_COUNT};
use hecate::table::Table;

const SEC: i64 = 1_000_000_000;
const UNIT: i64 = 1_000_000;

fn row_with_acc_x(time: i64, acc_x: i64) -> Row {
    let mut values = vec![0; CHANNEL_COUNT];
    values[0] = acc_x;
    Row::complete(time, &values).unwrap()
}

fn table(rows: Vec<Row>) -> Table {
    let mut t = Table::with_all_channels();
    for r in rows {
        t.push_row(r).unwrap();
    }
    t
}

#[test]
fn two_readings_in_one_bucket_average() {
    let t = table(vec![row_with_acc_x(0, 1 * UNIT), row_with_acc_x(SEC, 3 * UNIT)]);
    let out = aggregate(&t, Some(2 * SEC), 10 * SEC).unwrap();
    assert_eq!(out.len(), 1);
    assert_eq!(out.rows()[0].cells[0], Some(2 * UNIT));
    assert_eq!(out.rows()[0].time, SEC / 2);
}

#[test]
fn empty_buffer_aggregates_to_empty() {
    let t = Table::new();
    for width in [None, Some(SEC), Some(0), Some(-5)] {
        let out = aggregate(&t, width, 10 * SEC).unwrap();
        assert_eq!(out.len(), 0);
    }
}

#[test]
fn aggregate_twice_is_identical() {
    let t = table(vec![
        row_with_acc_x(3 * SEC, 5),
        row_with_acc_x(0, -7),
        row_with_acc_x(SEC / 2, 2),
        row_with_acc_x(7 * SEC, 11),
    ]);
    let a = aggregate(&t, Some(2 * SEC), 60 * SEC).unwrap();
    let b = aggregate(&t, Some(2 * SEC), 60 * SEC).unwrap();
    assert_eq!(a.rows(), b.rows());
    let times: Vec<i64> = a.rows().iter().map(|r| r.time).collect();
    assert_eq!(times, vec![SEC / 4, 3 * SEC, 7 * SEC]);
    assert_eq!(a.rows()[0].cells[0], Some(-3));
}

#[test]
fn raw_mode_returns_rows_within_lookback() {
    let t = table(vec![
        row_with_acc_x(0, 1),
        row_with_acc_x(50 * SEC, 2),
        row_with_acc_x(70 * SEC, 3),
        row_with_acc_x(10 * SEC, 4),
    ]);
    let out = aggregate(&t, None, 60 * SEC).unwrap();
    let times: Vec<i64> = out.rows().iter().map(|r| r.time).collect();
    assert_eq!(times, vec![50 * SEC, 70 * SEC, 10 * SEC]);
}

#[test]
fn lookback_drops_old_buckets() {
    let t = table(vec![row_with_acc_x(0, 1), row_with_acc_x(100 * SEC, 2)]);
    let out = aggregate(&t, Some(10 * SEC), 30 * SEC).unwrap();
    assert_eq!(out.len(), 1);
    assert_eq!(out.rows()[0].time, 100 * SEC);
}

#[test]
fn nonpositive_width_is_refused() {
    let t = table(vec![row_with_acc_x(0, 1)]);
    assert_eq!(aggregate(&t, Some(0), SEC).unwrap_err(), AggregateError::InvalidBucketWidth);
    assert_eq!(aggregate(&t, Some(-SEC), SEC).unwrap_err(), AggregateError::InvalidBucketWidth);
}

#[test]
fn missing_cells_skip_only_their_channel() {
    let mut t = Table::with_all_channels();
    t.push_row(Row { time: 0, cells: vec![Some(10); CHANNEL_COUNT] }).unwrap();
    let mut cells = vec![Some(20); CHANNEL_COUNT];
    cells[1] = None;
    t.push_row(Row { time: SEC, cells }).unwrap();
    let out = aggregate(&t, Some(5 * SEC), 60 * SEC).unwrap();
    assert_eq!(out.rows()[0].cells[0], Some(15));
    assert_eq!(out.rows()[0].cells[1], Some(10));
}

#[test]
fn negative_times_bucket_by_floor() {
    let t = table(vec![row_with_acc_x(-1, 4), row_with_acc_x(1, 8)]);
    let out = aggregate(&t, Some(10), 100).unwrap();
    assert_eq!(out.len(), 2);
    assert_eq!(out.rows()[0].time, -1);
    assert_eq!(out.rows()[1].time, 1);
}
