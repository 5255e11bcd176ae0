use hecate::row::{Channel, Row, CHANNEL_COUNT};
use hecate::table::{ShapeError, Table};

const SEC: i64 = 1_000_000_000;

fn reading(time: i64, value: i64) -> Row {
    Row::complete(time, &vec![value; CHANNEL_COUNT]).unwrap()
}

fn batch(times: &[i64]) -> Table {
    let mut t = Table::with_all_channels();
    for &time in times {
        t.push_row(reading(time, time / SEC)).unwrap();
    }
    t
}

fn times(t: &Table) -> Vec<i64> {
    t.rows().iter().map(|r| r.time).collect()
}

#[test]
fn trim_keeps_rows_at_and_after_threshold() {
    let mut t = batch(&[0, 100 * SEC, 200 * SEC, 400 * SEC]);
    t.trim_older_than(300 * SEC);
    assert_eq!(times(&t), vec![100 * SEC, 200 * SEC, 400 * SEC]);
}

#[test]
fn trim_result_independent_of_batch_order() {
    let a = [350 * SEC, 10 * SEC];
    let b = [400 * SEC, 50 * SEC, 200 * SEC];
    let mut first = batch(&a);
    first.append(batch(&b));
    first.trim_older_than(300 * SEC);
    let mut second = batch(&b);
    second.append(batch(&a));
    second.trim_older_than(300 * SEC);
    let mut x = times(&first);
    let mut y = times(&second);
    x.sort();
    y.sort();
    assert_eq!(x, vec![200 * SEC, 350 * SEC, 400 * SEC]);
    assert_eq!(x, y);
}

#[test]
fn trim_twice_changes_nothing_more() {
    let mut t = batch(&[5 * SEC, 0, 30 * SEC, 12 * SEC]);
    t.trim_older_than(20 * SEC);
    let once = times(&t);
    t.trim_older_than(20 * SEC);
    assert_eq!(once, vec![30 * SEC, 12 * SEC]);
    assert_eq!(times(&t), once);
}

#[test]
fn trim_on_empty_buffer_is_noop() {
    let mut t = Table::new();
    t.trim_older_than(SEC);
    assert_eq!(t.len(), 0);
}

#[test]
fn append_subset_keeps_column_set() {
    let mut t = batch(&[0]);
    let mut mask = vec![false; CHANNEL_COUNT];
    mask[Channel::AccX.index()] = true;
    let mut partial = Table::with_channels(&mask).unwrap();
    let mut cells = vec![None; CHANNEL_COUNT];
    cells[0] = Some(7);
    partial.push_row(Row { time: SEC, cells }).unwrap();
    t.append(partial);
    for c in 0..CHANNEL_COUNT {
        assert!(t.has_column(c));
    }
    assert_eq!(t.len(), 2);
    assert_eq!(t.rows()[1].cells[1], None);
    assert_eq!(t.rows()[1].cells[0], Some(7));
}

#[test]
fn append_to_empty_takes_batch_columns() {
    let mut t = Table::new();
    let mut mask = vec![false; CHANNEL_COUNT];
    mask[Channel::GyroZ.index()] = true;
    t.append(Table::with_channels(&mask).unwrap());
    assert!(t.has_column(Channel::GyroZ.index()));
    assert!(!t.has_column(Channel::AccX.index()));
    t.append(batch(&[SEC]));
    assert!(t.has_column(Channel::AccX.index()));
}

#[test]
fn push_row_rejects_wrong_width() {
    let mut t = Table::with_all_channels();
    let r = t.push_row(Row { time: 0, cells: vec![Some(1); 3] });
    assert_eq!(r, Err(ShapeError::WrongWidth));
    assert_eq!(t.len(), 0);
    assert!(Table::with_channels(&vec![true; 4]).is_err());
}

#[test]
fn push_row_rejects_value_outside_columns() {
    let mut t = Table::new();
    let r = t.push_row(reading(0, 1));
    assert_eq!(r, Err(ShapeError::UnknownChannel));
    let ok = t.push_row(Row { time: 0, cells: vec![None; CHANNEL_COUNT] });
    assert_eq!(ok, Ok(()));
}

#[test]
fn clear_empties_rows_and_columns() {
    let mut t = batch(&[0, SEC]);
    t.clear();
    assert_eq!(t.len(), 0);
    assert!(!t.has_column(0));
    assert_eq!(t.max_time(), None);
}

#[test]
fn snapshot_copies_contents() {
    let t = batch(&[3 * SEC, SEC]);
    let s = t.snapshot();
    assert_eq!(s.rows(), t.rows());
    assert_eq!(s.column_mask(), t.column_mask());
    assert_eq!(t.max_time(), Some(3 * SEC));
}

#[test]
fn complete_row_needs_every_channel() {
    assert!(Row::complete(0, &vec![1, 2]).is_none());
    let r = Row::complete(4, &vec![1, 2, 3, 4, 5, 6, 7, 8, 9]).unwrap();
    assert_eq!(r.cells[8], Some(9));
    assert_eq!(Channel::from_index(4), Some(Channel::MagY));
    assert_eq!(Channel::from_index(9), None);
    assert_eq!(Channel::GyroX.name(), "gyro_x");
}
