use hecate::aggregate::AggregateError;
use hecate::duration::{parse_duration, DurationError};
use hecate::handler::{Event, IngestionHandler, Reply, IDLE_TIMEOUT_SECS};
use hecate::registry::{Connections, QueryError, RETENTION_NS};
use hecate::row::{Row, CHANNEL_COUNT};
use hecate::table::Table;

const SEC: i64 = 1_000_000_000;

fn batch(times: &[i64]) -> Table {
    let mut t = Table::with_all_channels();
    for &time in times {
        t.push_row(Row::complete(time, &vec![1; CHANNEL_COUNT]).unwrap()).unwrap();
    }
    t
}

#[test]
fn idle_connection_is_closed_and_deactivated() {
    let mut registry = Connections::new();
    let mut handler = IngestionHandler::new(RETENTION_NS);
    let r = handler.handle(&mut registry, Event::Text(String::from("sensor-1")));
    assert_eq!(r, Reply { send_close: false, finished: false });
    assert_eq!(registry.is_active("sensor-1"), Some(true));
    let r = handler.handle(&mut registry, Event::Batch(batch(&[0, SEC])));
    assert_eq!(r, Reply { send_close: false, finished: false });
    assert_eq!(IDLE_TIMEOUT_SECS, 10);
    let r = handler.handle(&mut registry, Event::Timeout);
    assert_eq!(r, Reply { send_close: true, finished: true });
    assert_eq!(registry.is_active("sensor-1"), Some(false));
    assert_eq!(registry.get("sensor-1").unwrap().recent_data().len(), 2);
}

#[test]
fn first_message_must_be_text() {
    let mut registry = Connections::new();
    let mut handler = IngestionHandler::new(RETENTION_NS);
    let r = handler.handle(&mut registry, Event::Batch(batch(&[0])));
    assert_eq!(r, Reply { send_close: true, finished: true });
    assert!(registry.ids().is_empty());
    let r = handler.handle(&mut registry, Event::Text(String::from("late")));
    assert_eq!(r, Reply { send_close: false, finished: true });
    assert!(registry.ids().is_empty());
}

#[test]
fn peer_close_deactivates_without_reply() {
    let mut registry = Connections::new();
    let mut handler = IngestionHandler::new(RETENTION_NS);
    handler.handle(&mut registry, Event::Text(String::from("d")));
    let r = handler.handle(&mut registry, Event::Undecodable);
    assert_eq!(r, Reply { send_close: false, finished: false });
    let r = handler.handle(&mut registry, Event::Other);
    assert_eq!(r, Reply { send_close: false, finished: false });
    let r = handler.handle(&mut registry, Event::Close);
    assert_eq!(r, Reply { send_close: false, finished: true });
    assert_eq!(registry.is_active("d"), Some(false));
    registry.set_active("d", true);
    let r = handler.handle(&mut registry, Event::StreamEnd);
    assert_eq!(r, Reply { send_close: false, finished: true });
    assert_eq!(registry.is_active("d"), Some(true));
}

#[test]
fn stream_end_sends_close() {
    let mut registry = Connections::new();
    let mut handler = IngestionHandler::new(RETENTION_NS);
    handler.handle(&mut registry, Event::Text(String::from("d")));
    let r = handler.handle(&mut registry, Event::StreamEnd);
    assert_eq!(r, Reply { send_close: true, finished: true });
    assert_eq!(registry.is_active("d"), Some(false));
}

#[test]
fn ingestion_trims_to_retention() {
    let mut registry = Connections::new();
    let mut handler = IngestionHandler::new(10 * SEC);
    handler.handle(&mut registry, Event::Text(String::from("d")));
    handler.handle(&mut registry, Event::Batch(batch(&[0, 5 * SEC])));
    handler.handle(&mut registry, Event::Batch(batch(&[20 * SEC])));
    let data = registry.get("d").unwrap().recent_data();
    let times: Vec<i64> = data.rows().iter().map(|r| r.time).collect();
    assert_eq!(times, vec![20 * SEC]);
}

#[test]
fn unknown_device_query_is_not_found_and_creates_nothing() {
    let mut registry = Connections::new();
    registry.connect("known");
    let r = registry.sensor_data("ghost", None, None);
    assert_eq!(r.unwrap_err(), QueryError::NotFound);
    assert!(registry.get("ghost").is_none());
    assert_eq!(registry.is_active("ghost"), None);
    assert_eq!(registry.ids(), vec![String::from("known")]);
}

#[test]
fn reset_empties_buffer_keeps_id_and_activity() {
    let mut registry = Connections::new();
    registry.connect("a");
    registry.append_batch("a", batch(&[0, SEC]), RETENTION_NS);
    assert!(registry.reset("a"));
    assert_eq!(registry.get("a").unwrap().recent_data().len(), 0);
    assert_eq!(registry.ids(), vec![String::from("a")]);
    assert_eq!(registry.is_active("a"), Some(true));
    assert!(!registry.reset("b"));
}

#[test]
fn operations_on_one_device_leave_another_alone() {
    let mut registry = Connections::new();
    registry.connect("a");
    registry.append_batch("a", batch(&[0, SEC]), RETENTION_NS);
    registry.connect("b");
    registry.append_batch("b", batch(&[400 * SEC]), RETENTION_NS);
    registry.set_active("b", false);
    registry.reset("b");
    registry.append_batch("b", batch(&[900 * SEC]), RETENTION_NS);
    let a = registry.get("a").unwrap();
    assert!(a.is_active());
    let times: Vec<i64> = a.recent_data().rows().iter().map(|r| r.time).collect();
    assert_eq!(times, vec![0, SEC]);
    assert_eq!(registry.ids(), vec![String::from("a"), String::from("b")]);
    registry.connect("b");
    registry.connect("a");
    assert_eq!(registry.ids(), vec![String::from("a"), String::from("b")]);
}

#[test]
fn reconnect_keeps_data() {
    let mut registry = Connections::new();
    registry.connect("a");
    registry.append_batch("a", batch(&[0]), RETENTION_NS);
    registry.set_active("a", false);
    registry.connect("a");
    assert_eq!(registry.is_active("a"), Some(true));
    assert_eq!(registry.get("a").unwrap().recent_data().len(), 1);
    assert_eq!(registry.ids().len(), 1);
}

#[test]
fn query_parses_interval_and_duration() {
    let mut registry = Connections::new();
    registry.connect("a");
    registry.append_batch("a", batch(&[0, 100 * SEC, 130 * SEC, 131 * SEC]), RETENTION_NS);
    let raw = registry.sensor_data("a", None, None).unwrap();
    assert_eq!(raw.len(), 3);
    let bucketed = registry.sensor_data("a", Some("10s"), Some("1m")).unwrap();
    let times: Vec<i64> = bucketed.rows().iter().map(|r| r.time).collect();
    assert_eq!(times, vec![100 * SEC, 130 * SEC + SEC / 2]);
    let short = registry.sensor_data("a", None, Some("500ms")).unwrap();
    assert_eq!(short.len(), 1);
}

#[test]
fn query_errors_name_the_parameter() {
    let mut registry = Connections::new();
    registry.connect("a");
    registry.append_batch("a", batch(&[0]), RETENTION_NS);
    assert_eq!(
        registry.sensor_data("a", None, Some("soon")).unwrap_err(),
        QueryError::Duration(DurationError::Invalid)
    );
    assert_eq!(
        registry.sensor_data("a", Some("12345678ms"), None).unwrap_err(),
        QueryError::Interval(DurationError::TooLong)
    );
    assert_eq!(
        registry.sensor_data("a", Some("0s"), None).unwrap_err(),
        QueryError::Aggregate(AggregateError::InvalidBucketWidth)
    );
    assert_eq!(
        registry.sensor_data("a", Some("-2s"), None).unwrap_err(),
        QueryError::Aggregate(AggregateError::InvalidBucketWidth)
    );
    assert_eq!(
        registry.sensor_data("a", Some("1y"), None).unwrap_err(),
        QueryError::Interval(DurationError::Calendar)
    );
    assert_eq!(registry.sensor_data("a", Some("1d"), Some("1w")).unwrap().len(), 1);
}

#[test]
fn durations_read_as_nanoseconds() {
    assert_eq!(parse_duration("1m"), Ok(60 * SEC));
    assert_eq!(parse_duration("500ms"), Ok(SEC / 2));
    assert_eq!(parse_duration("1h30m"), Ok(5400 * SEC));
    assert_eq!(parse_duration("-2s"), Ok(-2 * SEC));
    assert_eq!(parse_duration("1d"), Ok(86_400 * SEC));
    assert_eq!(parse_duration("-1w2d"), Ok(-9 * 86_400 * SEC));
    assert_eq!(parse_duration("1mo"), Err(DurationError::Calendar));
    assert_eq!(parse_duration("999999w"), Err(DurationError::OutOfRange));
    assert_eq!(parse_duration("10x"), Err(DurationError::Invalid));
    assert_eq!(parse_duration("12345678"), Err(DurationError::TooLong));
}

#[test]
fn interleaved_devices_match_separate_runs() {
    let mut shared = Connections::new();
    let mut alone = Connections::new();
    shared.connect("a");
    alone.connect("a");
    shared.connect("b");
    shared.append_batch("a", batch(&[0, SEC]), RETENTION_NS);
    alone.append_batch("a", batch(&[0, SEC]), RETENTION_NS);
    shared.append_batch("b", batch(&[5 * SEC]), RETENTION_NS);
    shared.reset("b");
    shared.append_batch("a", batch(&[2 * SEC]), RETENTION_NS);
    alone.append_batch("a", batch(&[2 * SEC]), RETENTION_NS);
    shared.set_active("b", false);
    let x = shared.get("a").unwrap();
    let y = alone.get("a").unwrap();
    assert_eq!(x.is_active(), y.is_active());
    assert_eq!(x.recent_data().rows(), y.recent_data().rows());
    assert_eq!(x.recent_data().column_mask(), y.recent_data().column_mask());
}
