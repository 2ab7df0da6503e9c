use s3ar::chan_exec::Backlog;
use s3ar::error::Error;
use s3ar::extract::{
    ObjectDownload, PartDownloads, NO_CONTENT_LENGTH, NO_PARTS_COUNT, PART_OVERRUN, SIZE_MISMATCH,
};
use s3ar::file_entry::FileEntry;
use s3ar::utils::{capped_pow, RetryPolicy, RetryStep};

fn message<T: std::fmt::Debug>(r: Result<T, Error>) -> &'static str {
    match r {
        Err(Error::StaticStr(e)) => e.message(),
        other => panic!("unexpected {:?}", other),
    }
}

#[test]
fn download_of_three_parts() {
    let mut d = PartDownloads::new(10);
    assert_eq!(d.next_part_number(), Some(1));
    let c = d.accept(Some(3), Some(4)).unwrap();
    assert_eq!((c.offset(), c.len()), (0, 4));
    assert_eq!(d.next_part_number(), Some(2));
    let c = d.accept(None, Some(4)).unwrap();
    assert_eq!((c.offset(), c.len()), (4, 4));
    assert_eq!(d.next_part_number(), Some(3));
    let c = d.accept(None, Some(2)).unwrap();
    assert_eq!((c.offset(), c.len()), (8, 2));
    assert_eq!(d.next_part_number(), None);
    assert!(d.finish().is_ok());
}

#[test]
fn download_of_single_part_object() {
    let mut d = PartDownloads::new(5);
    d.accept(Some(1), Some(5)).unwrap();
    assert_eq!(d.next_part_number(), None);
    assert!(d.finish().is_ok());
}

#[test]
fn download_of_empty_file() {
    let mut d = PartDownloads::new(0);
    let c = d.accept(Some(1), Some(0)).unwrap();
    assert_eq!(c.len(), 0);
    assert!(d.finish().is_ok());
}

#[test]
fn download_without_parts_count_fails() {
    let mut d = PartDownloads::new(5);
    assert_eq!(message(d.accept(None, Some(5))), NO_PARTS_COUNT);
    assert_eq!(d.next_part_number(), Some(1));
}

#[test]
fn download_without_content_length_fails() {
    let mut d = PartDownloads::new(5);
    assert_eq!(message(d.accept(Some(1), None)), NO_CONTENT_LENGTH);
}

#[test]
fn download_part_past_end_fails() {
    let mut d = PartDownloads::new(5);
    assert_eq!(message(d.accept(Some(1), Some(6))), PART_OVERRUN);
    assert_eq!(message(d.accept(Some(1), Some(-1))), PART_OVERRUN);
}

#[test]
fn download_short_of_size_fails_at_finish() {
    let mut d = PartDownloads::new(5);
    d.accept(Some(1), Some(3)).unwrap();
    assert_eq!(message(d.finish()), SIZE_MISMATCH);
    let fresh = PartDownloads::new(0);
    assert_eq!(message(fresh.finish()), SIZE_MISMATCH);
}

#[test]
fn download_descriptor() {
    let entry = FileEntry::new("a/b/c.txt".to_string(), 3);
    let obj = ObjectDownload::for_entry("bkt".to_string(), "p/", &entry);
    assert_eq!(obj.source_bucket, "bkt");
    assert_eq!(obj.source_key, "p/data/a/b/c.txt");
}

#[test]
fn standard_retry_schedule() {
    let p = RetryPolicy::standard();
    assert_eq!((p.retry_max, p.wait_base, p.wait_max), (10, 1, 5));
    for retry in 0..10 {
        assert_eq!(p.after_failure(retry), RetryStep::Wait(1));
    }
    assert_eq!(p.after_failure(10), RetryStep::GiveUp);
}

#[test]
fn two_failures_wait_two_seconds() {
    let p = RetryPolicy::standard();
    let mut waited = 0;
    let mut retry = 0;
    let outcomes = [false, false, true];
    for ok in outcomes {
        if ok {
            break;
        }
        match p.after_failure(retry) {
            RetryStep::Wait(s) => waited += s,
            RetryStep::GiveUp => panic!("gave up"),
        }
        retry += 1;
    }
    assert_eq!(retry, 2);
    assert!(waited >= 2);
}

#[test]
fn exponential_schedule_is_capped() {
    let p = RetryPolicy { retry_max: 3, wait_base: 2, wait_max: 5 };
    assert_eq!(p.after_failure(0), RetryStep::Wait(2));
    assert_eq!(p.after_failure(1), RetryStep::Wait(4));
    assert_eq!(p.after_failure(2), RetryStep::Wait(5));
    assert_eq!(p.after_failure(3), RetryStep::GiveUp);
    let none = RetryPolicy { retry_max: 0, wait_base: 2, wait_max: 5 };
    assert_eq!(none.after_failure(0), RetryStep::GiveUp);
}

#[test]
fn capped_power_values() {
    assert_eq!(capped_pow(2, 3, 100), 8);
    assert_eq!(capped_pow(2, 3, 5), 5);
    assert_eq!(capped_pow(0, 0, 5), 1);
    assert_eq!(capped_pow(0, 3, 5), 0);
    assert_eq!(capped_pow(7, 0, 0), 0);
    assert_eq!(capped_pow(3, 40, u32::MAX), u32::MAX);
    assert_eq!(capped_pow(u32::MAX, 2, u32::MAX), u32::MAX);
}

#[test]
fn backlog_respects_every_bound() {
    let mut b = Backlog::new(2, 1, 3);
    assert!(b.submit());
    assert!(b.submit());
    assert!(b.submit());
    assert!(!b.submit());
    assert!(b.enqueue());
    assert!(b.enqueue());
    assert!(!b.enqueue());
    assert!(b.dispatch());
    assert!(!b.dispatch());
    assert!(b.enqueue());
    assert!(b.submit());
    assert_eq!(b.waiting + b.queued + b.running, 2 + 1 + 1);
    assert!(b.waiting + b.queued + b.running <= b.capacity + b.workers + b.inner);
    assert!(b.complete());
    assert!(!b.complete());
    assert!(b.dispatch());
}
