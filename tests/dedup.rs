use cleanup::action::{action_for, mode_from_flags, Action, Mode};
use cleanup::digest::content_digest;
use cleanup::entry::{creation_order, EntryMeta};
use cleanup::plan::plan_directory;
use cleanup::resolve::{BucketResolver, BucketScan};
use cleanup::tally::{join_all, ErrorPolicy, ScanError, Tally};

fn file(path: &str, len: u64, created: i128) -> EntryMeta {
    EntryMeta::new(path.to_string(), len, created, false, false)
}

fn dir(path: &str, created: i128) -> EntryMeta {
    EntryMeta::new(path.to_string(), 4096, created, true, false)
}

fn hex(bytes: &[u8]) -> String {
    bytes.iter().map(|b| format!("{:02x}", b)).collect()
}

#[test]
fn digest_of_abc_is_sha1() {
    assert_eq!(hex(&content_digest(b"abc")), "a9993e364706816aba3e25717850c26c9cd0d89d");
}

#[test]
fn digest_of_empty_is_sha1() {
    assert_eq!(hex(&content_digest(b"")), "da39a3ee5e6b4b0d3255bfef95601890afd80709");
}

#[test]
fn creation_order_oldest_first_ties_keep_listing_order() {
    let ls = vec![file("c", 1, 30), file("a", 1, 10), file("b", 1, 30), file("d", 1, -5)];
    assert_eq!(creation_order(&ls), vec![3, 1, 0, 2]);
}

#[test]
fn creation_order_empty_listing() {
    assert_eq!(creation_order(&Vec::new()), Vec::<usize>::new());
}

/// The scenario of a directory holding a.txt ("hi", oldest), b.txt ("hi") and c.txt ("bye").
#[test]
fn example_directory_reports_one_duplicate() {
    let ls = vec![file("D/c.txt", 3, 2), file("D/b.txt", 2, 1), file("D/a.txt", 2, 0)];
    let contents: Vec<&[u8]> = vec![b"bye", b"hi", b"hi"];
    let plan = plan_directory(&ls);
    assert_eq!(plan.order, vec![2, 1, 0]);
    assert!(plan.subdirs.is_empty());
    assert_eq!(plan.buckets.len(), 1);
    assert_eq!(plan.buckets[0].len, 2);
    assert_eq!(plan.buckets[0].members, vec![2, 1]);

    let mut tally = Tally::new();
    let mut removed = Vec::new();
    for bucket in &plan.buckets {
        let mut resolver = BucketResolver::new();
        for &i in &bucket.members {
            if let Some(j) = resolver.classify_content(contents[i]) {
                tally.record_duplicate();
                let canonical = ls[bucket.members[j]].path.clone();
                removed.push((ls[i].path.clone(), canonical));
            }
        }
    }
    assert_eq!(tally.duplicates, 1);
    assert_eq!(removed, vec![("D/b.txt".to_string(), "D/a.txt".to_string())]);
}

#[test]
fn plan_splits_subdirectories_and_skips_singletons() {
    let mut link = dir("link", 0);
    link.is_symlink = true;
    let ls = vec![
        dir("sub2", 5),
        file("x", 10, 1),
        dir("sub1", 2),
        file("y", 7, 3),
        link,
        file("z", 10, 0),
        file("w", 7, 4),
        file("v", 99, 6),
    ];
    let plan = plan_directory(&ls);
    assert_eq!(plan.subdirs, vec![2, 0]);
    let mut buckets: Vec<(u64, Vec<usize>)> =
        plan.buckets.iter().map(|b| (b.len, b.members.clone())).collect();
    buckets.sort();
    assert_eq!(buckets, vec![(7, vec![3, 6]), (10, vec![5, 1])]);
}

#[test]
fn plan_of_empty_directory() {
    let plan = plan_directory(&Vec::new());
    assert!(plan.order.is_empty());
    assert!(plan.subdirs.is_empty());
    assert!(plan.buckets.is_empty());
}

#[test]
fn unique_size_is_never_hashed() {
    let ls = vec![file("a", 1, 0), file("b", 2, 1), file("c", 3, 2)];
    let plan = plan_directory(&ls);
    assert!(plan.buckets.is_empty());
}

#[test]
fn equal_size_different_content_kept() {
    let mut r = BucketResolver::new();
    assert_eq!(r.classify_content(b"aaa"), None);
    assert_eq!(r.classify_content(b"bbb"), None);
    assert_eq!(r.classify_content(b"ccc"), None);
    assert_eq!(r.classified(), 3);
}

#[test]
fn all_but_oldest_of_equal_content_removed() {
    let mut r = BucketResolver::new();
    assert_eq!(r.classify_content(b"xy"), None);
    assert_eq!(r.classify_content(b"zz"), None);
    assert_eq!(r.classify_content(b"xy"), Some(0));
    assert_eq!(r.classify_content(b"zz"), Some(1));
    assert_eq!(r.classify_content(b"xy"), Some(0));
}

#[test]
fn classify_by_digest_points_at_first() {
    let mut r = BucketResolver::new();
    assert_eq!(r.classify(vec![1, 2]), None);
    assert_eq!(r.classify(vec![3]), None);
    assert_eq!(r.classify(vec![3]), Some(1));
    assert_eq!(r.classify(vec![1, 2]), Some(0));
    assert_eq!(r.classify(vec![]), None);
    assert_eq!(r.classify(vec![]), Some(4));
}

#[test]
fn dry_run_twice_gives_same_count_and_reports_only() {
    let ls = vec![file("a", 2, 0), file("b", 2, 1), file("c", 2, 2)];
    let contents: Vec<&[u8]> = vec![b"hi", b"hi", b"hi"];
    let run = || {
        let plan = plan_directory(&ls);
        let mut tally = Tally::new();
        let mut mutated = false;
        for bucket in &plan.buckets {
            let mut resolver = BucketResolver::new();
            for &i in &bucket.members {
                if let Some(j) = resolver.classify_content(contents[i]) {
                    tally.record_duplicate();
                    let a = action_for(
                        Mode::DryRun,
                        ls[i].path.clone(),
                        ls[bucket.members[j]].path.clone(),
                    );
                    mutated |= a.mutates();
                }
            }
        }
        (tally.duplicates, mutated)
    };
    assert_eq!(run(), (2, false));
    assert_eq!(run(), (2, false));
}

#[test]
fn link_action_targets_canonical() {
    match action_for(Mode::Link, "d/b".to_string(), "d/a".to_string()) {
        Action::DeleteAndLink { path, target } => {
            assert_eq!(path, "d/b");
            assert_eq!(target, "d/a");
        }
        _ => panic!("expected a link"),
    }
    assert!(matches!(
        action_for(Mode::Delete, "p".to_string(), "q".to_string()),
        Action::Delete { path } if path == "p"
    ));
    let report = action_for(Mode::DryRun, "p".to_string(), "q".to_string());
    assert!(!report.mutates());
}

#[test]
fn mode_from_flags_cases() {
    assert!(matches!(mode_from_flags(true, true, false), Ok(Mode::DryRun)));
    assert!(matches!(mode_from_flags(true, false, true), Ok(Mode::DryRun)));
    assert!(matches!(mode_from_flags(false, false, false), Ok(Mode::Delete)));
    assert!(matches!(mode_from_flags(false, true, true), Ok(Mode::Link)));
    assert!(matches!(mode_from_flags(false, true, false), Err(ScanError::LinksUnsupported)));
}

#[test]
fn tallies_join_in_any_order() {
    let mk = |n: u64| Tally { duplicates: n, error: None };
    let a = join_all(vec![mk(1), mk(4), mk(0), mk(2)]);
    let b = join_all(vec![mk(2), mk(0), mk(1), mk(4)]);
    assert_eq!(a.duplicates, 7);
    assert_eq!(b.duplicates, 7);
    assert_eq!(join_all(Vec::new()).duplicates, 0);
}

#[test]
fn tally_saturates_at_max() {
    let mut t = Tally { duplicates: u64::MAX, error: None };
    t.record_duplicate();
    assert_eq!(t.duplicates, u64::MAX);
    let j = Tally { duplicates: u64::MAX - 1, error: None }.join(Tally { duplicates: 5, error: None });
    assert_eq!(j.duplicates, u64::MAX);
}

#[test]
fn first_error_is_kept() {
    let err = |p: &str| ScanError::DeleteFailed { path: p.to_string(), cause: "denied".to_string() };
    let mut t = Tally::new();
    assert!(t.may_start_work(ErrorPolicy::FailFast));
    t.record_error(err("first"));
    t.record_error(err("second"));
    assert!(!t.may_start_work(ErrorPolicy::FailFast));
    assert!(t.may_start_work(ErrorPolicy::BestEffort));
    let joined = Tally::new().join(t).join(Tally {
        duplicates: 1,
        error: Some(ScanError::LinkFailed { path: "x".to_string(), cause: "c".to_string() }),
    });
    assert_eq!(joined.duplicates, 1);
    assert!(matches!(joined.error, Some(ScanError::DeleteFailed { ref path, .. }) if path == "first"));
}

#[test]
fn each_error_variant_constructs() {
    let p = || "p".to_string();
    let c = || "c".to_string();
    let all = vec![
        ScanError::DirectoryUnreadable { path: p(), cause: c() },
        ScanError::MetadataUnavailable { path: p(), cause: c() },
        ScanError::TimestampUnsupported { path: p(), cause: c() },
        ScanError::FileReadFailed { path: p(), cause: c() },
        ScanError::DeleteFailed { path: p(), cause: c() },
        ScanError::LinkFailed { path: p(), cause: c() },
        ScanError::LinksUnsupported,
    ];
    let mut t = Tally::new();
    for e in all {
        t.record_error(e);
    }
    assert!(matches!(t.error, Some(ScanError::DirectoryUnreadable { .. })));
}

#[test]
fn bucket_scan_names_files_and_canonical_positions() {
    let mut scan = BucketScan::new(vec![7, 3, 5]);
    let contents: [&[u8]; 3] = [b"same", b"diff", b"same"];
    let mut seen = Vec::new();
    let mut k = 0;
    while let Some(i) = scan.next_file() {
        seen.push((i, scan.on_content(contents[k])));
        k += 1;
    }
    assert_eq!(seen, vec![(7, None), (3, None), (5, Some(7))]);
    assert_eq!(scan.next_file(), None);
}
