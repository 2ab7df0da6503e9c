use s3ar::create::{
    numbered_parts, sort_completed_parts, CompletedPart, MultipartUpload, MultipartUploadStart,
    ObjectUpload, PART_LIST_MISMATCH,
};
use s3ar::error::Error;
use s3ar::file_entry::FileEntry;
use s3ar::mmap::Chunker;

const MIB: usize = 1024 * 1024;

fn spans(part_size: usize, len: usize) -> Vec<(u64, usize, usize)> {
    numbered_parts(part_size, len).iter().map(|(n, c)| (*n, c.offset(), c.len())).collect()
}

fn part(n: u64, tag: &str) -> CompletedPart {
    CompletedPart { part_number: n, e_tag: Some(tag.to_string()) }
}

#[test]
fn small_file_is_one_part() {
    assert_eq!(spans(16 * MIB, 5), vec![(1, 0, 5)]);
}

#[test]
fn multi_part_boundary() {
    assert_eq!(
        spans(16 * MIB, 33 * MIB),
        vec![(1, 0, 16777216), (2, 16777216, 16777216), (3, 33554432, 1048576)]
    );
}

#[test]
fn exact_multiple_has_no_empty_tail() {
    assert_eq!(spans(4, 8), vec![(1, 0, 4), (2, 4, 4)]);
}

#[test]
fn empty_file_is_one_empty_part() {
    assert_eq!(spans(16 * MIB, 0), vec![(1, 0, 0)]);
}

#[test]
fn parts_cover_file_in_order() {
    let parts = spans(3, 10);
    assert_eq!(parts.len(), 4);
    let mut next = 0;
    for (i, (n, off, len)) in parts.iter().enumerate() {
        assert_eq!(*n as usize, i + 1);
        assert_eq!(*off, next);
        next += len;
    }
    assert_eq!(next, 10);
}

#[test]
fn part_bodies_iterate_then_stop() {
    let mut bodies = MultipartUpload::parts(4, 6);
    let a = bodies.next().unwrap();
    assert_eq!((a.offset(), a.len()), (0, 4));
    let b = bodies.next().unwrap();
    assert_eq!((b.offset(), b.len()), (4, 2));
    assert!(bodies.next().is_none());
    assert!(bodies.next().is_none());
}

#[test]
fn chunker_carves_sequentially() {
    let mut c = Chunker::new(10);
    assert_eq!(c.size(), 10);
    let a = c.take_chunk(3);
    let b = c.take_chunk(0);
    let d = c.take_chunk(7);
    assert_eq!((a.offset(), a.len()), (0, 3));
    assert_eq!((b.offset(), b.len()), (3, 0));
    assert_eq!((d.offset(), d.len()), (3, 7));
    assert_eq!(c.size(), 0);
}

#[test]
fn completed_parts_are_sorted() {
    let parts = vec![part(3, "c"), part(1, "a"), part(2, "b")];
    let sorted = sort_completed_parts(parts, 3).unwrap();
    let got: Vec<(u64, String)> =
        sorted.iter().map(|p| (p.part_number, p.e_tag.clone().unwrap())).collect();
    assert_eq!(got, vec![(1, "a".to_string()), (2, "b".to_string()), (3, "c".to_string())]);
}

#[test]
fn empty_part_list_for_zero_parts() {
    assert_eq!(sort_completed_parts(Vec::new(), 0).unwrap().len(), 0);
}

fn mismatch(r: Result<Vec<CompletedPart>, Error>) -> bool {
    matches!(r, Err(Error::StaticStr(e)) if e.message() == PART_LIST_MISMATCH)
}

#[test]
fn completed_parts_with_duplicate_fail() {
    assert!(mismatch(sort_completed_parts(vec![part(1, "a"), part(1, "b")], 2)));
}

#[test]
fn completed_parts_with_gap_fail() {
    assert!(mismatch(sort_completed_parts(vec![part(1, "a"), part(3, "c")], 3)));
}

#[test]
fn completed_parts_out_of_range_fail() {
    assert!(mismatch(sort_completed_parts(vec![part(0, "a")], 1)));
    assert!(mismatch(sort_completed_parts(vec![part(1, "a"), part(2, "b")], 1)));
}

#[test]
fn upload_descriptors() {
    let entry = FileEntry::new("a/e.txt".to_string(), 1);
    let obj = ObjectUpload::for_entry("bucket".to_string(), "pre/", &entry);
    assert_eq!(obj.target_bucket, "bucket");
    assert_eq!(obj.target_key, "pre/data/a/e.txt");
    let mp = MultipartUploadStart::new(obj).started("id-1".to_string());
    assert_eq!(mp.upload_id, "id-1");
    assert_eq!(mp.obj.target_key, "pre/data/a/e.txt");
}
