use duplicate_file_finder::digest::{content_key, ContentKey};
use duplicate_file_finder::group::{
    find_duplicate_groups, group_by_content, retain_duplicate_groups, sort_by_size_desc,
    total_wasted_bytes, DuplicateGroup,
};
use duplicate_file_finder::records::{group_by_size, size_candidates, FileRecord};
use duplicate_file_finder::report::render_report;
use duplicate_file_finder::sample::{assemble_sample, sample_of, tail_window_start};

fn record(size: u64, path: &str) -> FileRecord {
    FileRecord { size, path: path.to_string() }
}

fn paths_of(records: &[FileRecord]) -> Vec<String> {
    records.iter().map(|r| r.path.clone()).collect()
}

fn group(size: u64, digest: u128, paths: &[&str]) -> DuplicateGroup {
    DuplicateGroup {
        key: ContentKey { digest, size },
        paths: paths.iter().map(|p| p.to_string()).collect(),
    }
}

/// Bytes whose value depends on their offset, so that windows can be told apart.
fn synthetic(len: usize) -> Vec<u8> {
    (0..len).map(|i| (i % 251) as u8).collect()
}

/// Runs every stage on files held in memory, as the application does on disk.
fn scan(files: &[(&str, Vec<u8>)]) -> (Vec<FileRecord>, Vec<DuplicateGroup>, String) {
    let records: Vec<FileRecord> = files.iter().map(|(p, c)| record(c.len() as u64, p)).collect();
    let candidates = size_candidates(&records);
    let mut entries: Vec<(ContentKey, String)> = Vec::new();
    for c in &candidates {
        let contents = &files.iter().find(|(p, _)| *p == c.path).unwrap().1;
        entries.push((content_key(c.size, &sample_of(contents)), c.path.clone()));
    }
    let groups = find_duplicate_groups(&entries);
    let total = total_wasted_bytes(&groups).unwrap();
    let text = render_report(&groups, total);
    (candidates, groups, text)
}

#[test]
fn sample_of_small_file_is_whole_file() {
    let c = synthetic(500);
    assert_eq!(sample_of(&c), c);
}

#[test]
fn sample_of_mid_sized_file_reads_head_twice() {
    let c = synthetic(1500);
    let mut expected = c[..1024].to_vec();
    expected.extend_from_slice(&c[..1024]);
    assert_eq!(sample_of(&c), expected);
}

#[test]
fn sample_of_large_file_reads_head_and_tail() {
    let c = synthetic(3000);
    let mut expected = c[..1024].to_vec();
    expected.extend_from_slice(&c[1976..3000]);
    assert_eq!(sample_of(&c), expected);
}

#[test]
fn sample_window_edges() {
    assert_eq!(sample_of(&Vec::new()), Vec::<u8>::new());
    let c = synthetic(1024);
    assert_eq!(sample_of(&c), c);
    let c = synthetic(1025);
    assert_eq!(sample_of(&c).len(), 2048);
    let c = synthetic(2049);
    let mut expected = c[..1024].to_vec();
    expected.extend_from_slice(&c[1025..]);
    assert_eq!(sample_of(&c), expected);
}

#[test]
fn tail_window_start_policy() {
    assert_eq!(tail_window_start(0), None);
    assert_eq!(tail_window_start(500), None);
    assert_eq!(tail_window_start(1024), None);
    assert_eq!(tail_window_start(1025), Some(0));
    assert_eq!(tail_window_start(1500), Some(0));
    assert_eq!(tail_window_start(2048), Some(0));
    assert_eq!(tail_window_start(2049), Some(1025));
    assert_eq!(tail_window_start(3000), Some(1976));
}

#[test]
fn assemble_sample_keeps_only_bytes_read() {
    let head = vec![1u8, 2, 3, 4];
    let tail = vec![9u8, 8, 7];
    assert_eq!(assemble_sample(3000, &head, 2, &tail, 1), vec![1, 2, 9]);
    assert_eq!(assemble_sample(500, &head, 3, &tail, 3), vec![1, 2, 3]);
    assert_eq!(assemble_sample(3000, &head, 0, &tail, 0), Vec::<u8>::new());
}

#[test]
fn content_key_digests_the_sample() {
    let empty = content_key(0, &Vec::new());
    assert_eq!(empty.size, 0);
    assert_eq!(empty.digest, 0xd41d8cd98f00b204e9800998ecf8427e);
    let abc = content_key(7, &b"abc".to_vec());
    assert_eq!(abc, ContentKey { digest: 0x900150983cd24fb0d6963f7d28e17f72, size: 7 });
}

#[test]
fn group_by_size_buckets_in_first_appearance_order() {
    let files = vec![record(10, "a"), record(20, "b"), record(10, "c"), record(30, "d")];
    let buckets = group_by_size(&files);
    assert_eq!(buckets.len(), 3);
    assert_eq!(buckets[0].size, 10);
    assert_eq!(paths_of(&buckets[0].files), vec!["a", "c"]);
    assert_eq!(buckets[1].size, 20);
    assert_eq!(paths_of(&buckets[1].files), vec!["b"]);
    assert_eq!(buckets[2].size, 30);
    assert_eq!(paths_of(&buckets[2].files), vec!["d"]);
}

#[test]
fn size_candidates_drops_unique_sizes() {
    let files = vec![
        record(10, "a"),
        record(20, "b"),
        record(10, "c"),
        record(30, "d"),
        record(20, "e"),
        record(10, "f"),
    ];
    let kept = size_candidates(&files);
    assert_eq!(paths_of(&kept), vec!["a", "b", "c", "e", "f"]);
    assert!(size_candidates(&Vec::new()).is_empty());
    assert!(size_candidates(&vec![record(0, "only")]).is_empty());
}

#[test]
fn size_stage_is_idempotent() {
    let files = vec![record(5, "a"), record(6, "b"), record(5, "c"), record(7, "d"), record(7, "e")];
    let once = size_candidates(&files);
    let twice = size_candidates(&once);
    assert_eq!(paths_of(&once), paths_of(&twice));
    assert_eq!(paths_of(&once), vec!["a", "c", "d", "e"]);
}

#[test]
fn group_by_content_separates_keys_of_equal_size() {
    let k1 = ContentKey { digest: 1, size: 100 };
    let k2 = ContentKey { digest: 2, size: 100 };
    let k3 = ContentKey { digest: 1, size: 50 };
    let entries = vec![
        (k1, "a".to_string()),
        (k2, "b".to_string()),
        (k1, "c".to_string()),
        (k3, "d".to_string()),
    ];
    let groups = group_by_content(&entries);
    assert_eq!(groups.len(), 3);
    assert_eq!(groups[0].key, k1);
    assert_eq!(groups[0].paths, vec!["a", "c"]);
    assert_eq!(groups[1].key, k2);
    assert_eq!(groups[1].paths, vec!["b"]);
    assert_eq!(groups[2].key, k3);
    assert_eq!(groups[2].paths, vec!["d"]);
    let dups = retain_duplicate_groups(groups);
    assert_eq!(dups.len(), 1);
    assert_eq!(dups[0].paths, vec!["a", "c"]);
}

#[test]
fn sort_is_descending_and_stable() {
    let groups = vec![
        group(50, 1, &["a", "b"]),
        group(100, 2, &["c", "d"]),
        group(50, 3, &["e", "f"]),
        group(200, 4, &["g", "h"]),
        group(100, 5, &["i", "j"]),
    ];
    let sorted = sort_by_size_desc(groups);
    let digests: Vec<u128> = sorted.iter().map(|g| g.key.digest).collect();
    assert_eq!(digests, vec![4, 2, 5, 1, 3]);
}

#[test]
fn total_wasted_bytes_two_groups() {
    let groups = vec![group(100, 1, &["a", "b", "c"]), group(50, 2, &["d", "e"])];
    assert_eq!(total_wasted_bytes(&groups), Some(400));
    assert_eq!(total_wasted_bytes(&Vec::new()), Some(0));
}

#[test]
fn total_wasted_bytes_overflow_is_none() {
    let groups = vec![group(u64::MAX, 1, &["a", "b"])];
    assert_eq!(total_wasted_bytes(&groups), None);
    let groups = vec![group(u64::MAX / 2, 1, &["a", "b"]), group(1, 2, &["c", "d"])];
    assert_eq!(total_wasted_bytes(&groups), None);
    let groups = vec![group(u64::MAX / 2, 1, &["a", "b"])];
    assert_eq!(total_wasted_bytes(&groups), Some(u64::MAX - 1));
}

#[test]
fn report_lists_groups_with_formatted_sizes() {
    let groups = vec![group(1234567, 1, &["/x/a", "/x/b"]), group(100, 2, &["c", "d", "e"])];
    let text = render_report(&groups, 2469434);
    assert_eq!(
        text,
        "Dupes found totaling 2,469,434 bytes:\n\
         Duplicates of size 1,234,567\n\t/x/a\n\t/x/b\n\
         Duplicates of size 100\n\tc\n\td\n\te\n"
    );
}

#[test]
fn report_of_two_groups_totals_four_hundred() {
    let groups = vec![group(100, 1, &["a", "b", "c"]), group(50, 2, &["d", "e"])];
    let total = total_wasted_bytes(&groups).unwrap();
    let text = render_report(&groups, total);
    assert!(text.starts_with("Dupes found totaling 400 bytes:\n"));
}

#[test]
fn end_to_end_finds_identical_files_only() {
    let a = vec![0u8; 1000];
    let b = vec![0u8; 1000];
    let mut c = vec![0u8; 1000];
    c[999] = 1;
    let (candidates, groups, text) = scan(&[("A", a), ("B", b), ("C", c)]);
    assert_eq!(candidates.len(), 3);
    assert_eq!(groups.len(), 1);
    assert_eq!(groups[0].key.size, 1000);
    assert_eq!(groups[0].paths, vec!["A", "B"]);
    assert_eq!(text, "Dupes found totaling 2,000 bytes:\nDuplicates of size 1,000\n\tA\n\tB\n");
}

#[test]
fn end_to_end_unique_sizes_give_empty_report() {
    let (candidates, groups, text) =
        scan(&[("x", vec![1u8; 10]), ("y", vec![1u8; 20]), ("z", vec![1u8; 30])]);
    assert!(candidates.is_empty());
    assert!(groups.is_empty());
    assert_eq!(text, "Dupes found totaling 0 bytes:\n");
}

#[test]
fn stages_narrow_and_groups_are_valid() {
    let files: Vec<(&str, Vec<u8>)> = vec![
        ("p", vec![7u8; 3000]),
        ("q", vec![7u8; 3000]),
        ("r", vec![8u8; 3000]),
        ("s", vec![7u8; 10]),
        ("t", vec![7u8; 10]),
        ("u", vec![9u8; 11]),
    ];
    let (candidates, groups, _) = scan(&files);
    let reported: usize = groups.iter().map(|g| g.paths.len()).sum();
    assert!(reported <= candidates.len());
    assert!(candidates.len() <= files.len());
    assert_eq!(reported, 4);
    for g in &groups {
        assert!(g.paths.len() >= 2);
        for p in &g.paths {
            let contents = &files.iter().find(|(n, _)| n == p).unwrap().1;
            assert_eq!(content_key(contents.len() as u64, &sample_of(contents)), g.key);
        }
    }
    assert_eq!(groups[0].paths, vec!["p", "q"]);
    assert_eq!(groups[1].paths, vec!["s", "t"]);
}
