use std::io::Write;

use log_pipeline::fetch::{decode_archive, RetrievalError};
use log_pipeline::locate::{locate, ArchiveIdentifier, Date, HourRange};
use log_pipeline::orchestrate::{ArchiveStatus, RetrievalRun};

fn day() -> Date {
    Date { year: 2024, month: 3, day: 7 }
}

#[test]
fn locate_covers_range_without_gaps() {
    let ids = locate(day(), HourRange { start: 9, end: 17 });
    assert_eq!(ids.len(), 8);
    for (i, ident) in ids.iter().enumerate() {
        assert_eq!(ident.hour, 9 + i as u8);
        assert_eq!(ident.date, day());
    }
    for i in 0..ids.len() {
        for j in 0..ids.len() {
            if i != j {
                assert_ne!(ids[i].hour, ids[j].hour);
                assert_ne!(ids[i].key(), ids[j].key());
            }
        }
    }
}

#[test]
fn locate_empty_range() {
    let ids = locate(day(), HourRange { start: 5, end: 5 });
    assert_eq!(ids.len(), 0);
}

#[test]
fn key_is_zero_padded() {
    let ident = ArchiveIdentifier { date: Date { year: 2023, month: 1, day: 5 }, hour: 0 };
    assert_eq!(ident.key(), b"2023-01-05-00".to_vec());
    let ident = ArchiveIdentifier { date: day(), hour: 23 };
    assert_eq!(ident.key(), b"2024-03-07-23".to_vec());
}

fn gzip(payload: &[u8]) -> Vec<u8> {
    let mut enc = flate2::write::GzEncoder::new(Vec::new(), flate2::Compression::default());
    enc.write_all(payload).unwrap();
    enc.finish().unwrap()
}

#[test]
fn decode_archive_round_trips_gzip() {
    let payload = b"1\tfoo\n2\tbar\n3\tbaz\n".to_vec();
    let compressed = gzip(&payload);
    let decoded = decode_archive(&compressed).unwrap();
    assert_eq!(decoded, payload);
}

#[test]
fn decode_archive_rejects_garbage() {
    let garbage = vec![1u8, 2, 3, 4, 5];
    assert_eq!(decode_archive(&garbage), Err(RetrievalError::Decompress));
}

#[test]
fn decode_archive_round_trips_empty_payload() {
    let payload: Vec<u8> = Vec::new();
    let compressed = gzip(&payload);
    assert_eq!(decode_archive(&compressed).unwrap(), payload);
}

#[test]
fn one_failure_leaves_siblings_untouched() {
    let mut run = RetrievalRun::new(day(), HourRange { start: 9, end: 12 });
    assert_eq!(run.status.len(), 3);
    assert!(!run.all_attempted());

    run.begin_fetch(0);
    run.finish_fetch(0, Ok(()));
    run.begin_fetch(1);
    run.finish_fetch(1, Err(RetrievalError::Network));
    run.begin_fetch(2);
    run.finish_fetch(2, Ok(()));

    assert!(run.all_attempted());
    assert_eq!(run.status[0], ArchiveStatus::Stored);
    assert_eq!(run.status[1], ArchiveStatus::FetchFailed(RetrievalError::Network));
    assert_eq!(run.status[2], ArchiveStatus::Stored);
    assert_eq!(run.failed_hours(), vec![10u8]);
}

#[test]
fn run_not_done_while_fetching() {
    let mut run = RetrievalRun::new(day(), HourRange { start: 0, end: 2 });
    run.begin_fetch(0);
    run.finish_fetch(0, Ok(()));
    run.begin_fetch(1);
    assert!(!run.all_attempted());
    run.finish_fetch(1, Err(RetrievalError::Status));
    assert!(run.all_attempted());
    assert_eq!(run.failed_hours(), vec![1u8]);
}
