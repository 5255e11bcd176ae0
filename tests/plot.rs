use hecate::fetch::FetchError;
use hecate::plot::{DataPoint, PlotData};
use hecate::row::{Channel, Row, CHANNEL_COUNT};
use hecate::table::Table;

#[test]
fn series_skips_rows_without_value() {
    let mut t = Table::with_all_channels();
    t.push_row(Row::complete(1, &vec![5; CHANNEL_COUNT]).unwrap()).unwrap();
    let mut cells = vec![Some(6); CHANNEL_COUNT];
    cells[Channel::MagX.index()] = None;
    t.push_row(Row { time: 2, cells }).unwrap();
    t.push_row(Row::complete(3, &vec![7; CHANNEL_COUNT]).unwrap()).unwrap();
    let p = PlotData::over_time(&t, Channel::MagX, "Mag X").unwrap();
    assert_eq!(p.name, "Mag X");
    assert_eq!(p.times, vec![1, 3]);
    assert_eq!(p.values, vec![5, 7]);
}

#[test]
fn series_of_missing_column_is_none() {
    let t = Table::new();
    assert!(PlotData::over_time(&t, Channel::AccX, "Acc X").is_none());
    assert_eq!(FetchError, FetchError);
}

#[test]
fn points_pair_times_and_values() {
    let p = PlotData { name: String::from("x"), times: vec![1, 2, 3], values: vec![10, 20] };
    assert_eq!(p.points(), vec![DataPoint { x: 1, y: 10 }, DataPoint { x: 2, y: 20 }]);
}
