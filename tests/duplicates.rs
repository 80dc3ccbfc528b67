use booru_core::{
    build_report, compute_fuzzy_hash, finish_batch, fingerprint_indices_ok, group_duplicates,
    hash_from_row, pack_bits, same_parent, plan_batch, stored_row, unpack_bits, FileFingerprint, FuzzyHash,
    FuzzyHashAlgorithm, HashCache,
};

fn hash(bits: &[u8]) -> FuzzyHash {
    FuzzyHash { algo: FuzzyHashAlgorithm::AHash, bits: bits.iter().map(|b| *b == 1).collect() }
}

fn flip(base: &FuzzyHash, count: usize) -> FuzzyHash {
    let mut bits = base.bits.clone();
    for b in bits.iter_mut().take(count) {
        *b = !*b;
    }
    FuzzyHash { algo: base.algo, bits }
}

fn paths(items: &[&str]) -> Vec<String> {
    items.iter().map(|s| s.to_string()).collect()
}

fn png_bytes(shade: impl Fn(u32, u32) -> u8) -> Vec<u8> {
    let img = image::GrayImage::from_fn(16, 16, |x, y| image::Luma([shade(x, y)]));
    let mut out = std::io::Cursor::new(Vec::new());
    image::DynamicImage::ImageLuma8(img)
        .write_to(&mut out, image::ImageOutputFormat::Png)
        .expect("encode");
    out.into_inner()
}

#[test]
fn distance_is_symmetric() {
    let a = hash(&[1, 0, 1, 1, 0]);
    let b = hash(&[0, 0, 1, 0]);
    assert_eq!(a.distance(&b), b.distance(&a));
    assert_eq!(a.distance(&b), 3);
}

#[test]
fn distance_to_self_is_zero() {
    let a = hash(&[1, 0, 1, 1, 0, 1, 1, 1]);
    assert_eq!(a.distance(&a), 0);
    assert_eq!(hash(&[]).distance(&hash(&[])), 0);
}

#[test]
fn distance_counts_length_difference() {
    let a = hash(&[1, 0, 1]);
    let b = hash(&[1, 0, 1, 1, 1, 0]);
    assert_eq!(a.distance(&b), 3);
    assert_eq!(a.wide_distance(&b), 3);
    assert!(hash(&[0, 0]).distance(&hash(&[1, 1, 1, 1])) >= 2);
}

#[test]
fn packing_round_trips() {
    let bits: Vec<bool> = (0..13).map(|i| i % 3 == 0).collect();
    let packed = pack_bits(&bits);
    assert_eq!(packed, vec![0b0100_1001, 0b0001_0010]);
    assert_eq!(unpack_bits(&packed, bits.len()), bits);
    assert_eq!(unpack_bits(&packed, 16)[13..], [false, false, false]);
    assert!(pack_bits(&Vec::new()).is_empty());
}

#[test]
fn row_lookup_requires_same_stamp() {
    let stamp = FileFingerprint { mtime: 10, size: 100 };
    let h = hash(&[1, 1, 0, 1, 0, 0, 0, 1, 1]);
    let row = stored_row(&stamp, &h);
    let back = hash_from_row(&row, FuzzyHashAlgorithm::AHash, &stamp).expect("valid row");
    assert_eq!(back.bits, h.bits);
    let other = FileFingerprint { mtime: 10, size: 101 };
    assert!(hash_from_row(&row, FuzzyHashAlgorithm::AHash, &other).is_none());
}

#[test]
fn cache_round_trip_in_memory() {
    let cache = HashCache::open(":memory:").expect("open cache");
    let stamp = FileFingerprint { mtime: 1_700_000_000, size: 4096 };
    let h = hash(&[1, 0, 0, 1, 1, 0, 1, 0, 1, 1]);
    cache.store("/img/a.png", FuzzyHashAlgorithm::DHash, &stamp, &h).expect("store");
    let found = cache
        .lookup("/img/a.png", FuzzyHashAlgorithm::DHash, &stamp)
        
        .expect("hit");
    assert_eq!(found.bits, h.bits);
    assert!(cache.lookup("/img/a.png", FuzzyHashAlgorithm::AHash, &stamp).is_none());
    assert!(cache.lookup("/img/b.png", FuzzyHashAlgorithm::DHash, &stamp).is_none());
    assert_eq!(cache.path(), ":memory:");
}

#[test]
fn stale_stamp_forces_recomputation() {
    let cache = HashCache::open(":memory:").expect("open cache");
    let old_stamp = FileFingerprint { mtime: 5, size: 100 };
    let h = hash(&[1, 0, 1, 0]);
    cache.store("/img/a.png", FuzzyHashAlgorithm::AHash, &old_stamp, &h).expect("store");
    let new_stamp = FileFingerprint { mtime: 5, size: 101 };
    assert!(cache.lookup("/img/a.png", FuzzyHashAlgorithm::AHash, &new_stamp).is_none());
    let plan = plan_batch(&paths(&["/img/a.png"]), &vec![Ok(new_stamp)], FuzzyHashAlgorithm::AHash, Some(&cache));
    assert_eq!(plan.hashes.len(), 0);
    assert_eq!(plan.pending.len(), 1);
    assert_eq!(plan.pending[0].stamp, Some(new_stamp));
}

#[test]
fn cache_store_replaces_row() {
    let cache = HashCache::open(":memory:").expect("open cache");
    let stamp = FileFingerprint { mtime: 1, size: 2 };
    cache.store("/x", FuzzyHashAlgorithm::PHash, &stamp, &hash(&[1, 1])).expect("store");
    cache.store("/x", FuzzyHashAlgorithm::PHash, &stamp, &hash(&[0, 1, 0])).expect("store");
    let found = cache.lookup("/x", FuzzyHashAlgorithm::PHash, &stamp).expect("hit");
    assert_eq!(found.bits, vec![false, true, false]);
}

#[test]
fn three_items_at_threshold_five() {
    let base = hash(&[0; 16]);
    let a = base.clone();
    let b = flip(&base, 3);
    let c = FuzzyHash {
        algo: base.algo,
        bits: (0..16).map(|i| (3..12).contains(&i)).collect(),
    };
    assert_eq!(a.distance(&b), 3);
    assert_eq!(b.distance(&c), 12);
    assert_eq!(a.distance(&c), 9);
    let items = paths(&["/a/1.png", "/b/2.png", "/c/3.png"]);
    let groups = group_duplicates(&items, &vec![(0, a), (1, b), (2, c)], 5, true);
    assert_eq!(groups.len(), 1);
    assert_eq!(groups[0].items, vec![0, 1]);
}

#[test]
fn same_directory_pairs_are_skipped() {
    let a = hash(&[1, 0, 1, 1]);
    let items = paths(&["/photos/x.png", "/photos/y.png"]);
    let hashes = vec![(0, a.clone()), (1, a.clone())];
    assert!(group_duplicates(&items, &hashes, 0, true).is_empty());
    let groups = group_duplicates(&items, &hashes, 0, false);
    assert_eq!(groups.len(), 1);
    assert_eq!(groups[0].items, vec![0, 1]);
}

#[test]
fn groups_sorted_by_size_and_never_singletons() {
    let z = hash(&[0, 0, 0, 0, 0, 0, 0, 0]);
    let o = hash(&[1, 1, 1, 1, 1, 1, 1, 1]);
    let items = paths(&["/1", "/2", "/3", "/4", "/5", "/6"]);
    let hashes = vec![(0, o.clone()), (1, z.clone()), (2, o.clone()), (3, z.clone()), (4, z.clone()), (5, hash(&[1, 1, 1, 1, 0, 0, 0, 0]))];
    let groups = group_duplicates(&items, &hashes, 0, false);
    assert_eq!(groups.len(), 2);
    assert_eq!(groups[0].items, vec![1, 3, 4]);
    assert_eq!(groups[1].items, vec![0, 2]);
    assert!(groups.iter().all(|g| g.items.len() >= 2));
    assert!(group_duplicates(&items, &Vec::new(), 3, false).is_empty());
    assert!(group_duplicates(&items, &vec![(0, z.clone())], 3, false).is_empty());
}

#[test]
fn raising_threshold_keeps_groups() {
    let base = hash(&[0; 12]);
    let items = paths(&["/1", "/2", "/3"]);
    let hashes = vec![(0, base.clone()), (1, flip(&base, 2)), (2, flip(&base, 6))];
    let low = group_duplicates(&items, &hashes, 2, false);
    let high = group_duplicates(&items, &hashes, 4, false);
    assert_eq!(low.len(), 1);
    assert_eq!(low[0].items, vec![0, 1]);
    assert_eq!(high.len(), 1);
    assert_eq!(high[0].items, vec![0, 1, 2]);
}

#[test]
fn clustering_is_deterministic_under_reordering() {
    let base = hash(&[0; 8]);
    let items = paths(&["/1", "/2", "/3", "/4"]);
    let forward = vec![(0, base.clone()), (1, flip(&base, 1)), (2, flip(&base, 7)), (3, flip(&base, 8))];
    let backward: Vec<(usize, FuzzyHash)> = forward.iter().rev().cloned().collect();
    let mut a: Vec<Vec<usize>> = group_duplicates(&items, &forward, 1, false).into_iter().map(|g| { let mut v = g.items; v.sort(); v }).collect();
    let mut b: Vec<Vec<usize>> = group_duplicates(&items, &backward, 1, false).into_iter().map(|g| { let mut v = g.items; v.sort(); v }).collect();
    a.sort();
    b.sort();
    assert_eq!(a, b);
    assert_eq!(a, vec![vec![0, 1], vec![2, 3]]);
}

#[test]
fn batch_with_one_decode_failure() {
    let items = paths(&["/d/1.png", "/d/2.png", "/d/3.png", "/d/4.png", "/d/5.png"]);
    let plan = plan_batch(&items, &Vec::new(), FuzzyHashAlgorithm::AHash, None);
    assert_eq!(plan.pending.len(), 5);
    let base = hash(&[0; 8]);
    let results: Vec<Result<FuzzyHash, String>> = plan
        .pending
        .iter()
        .map(|p| if p.index == 2 { Err("corrupt".to_string()) } else { Ok(flip(&base, p.index % 2)) })
        .collect();
    let computation = finish_batch(plan, results, items.len(), None);
    assert_eq!(computation.hashes.len() + computation.warnings.len(), 5);
    assert_eq!(computation.warnings.len(), 1);
    assert_eq!(computation.warnings[0].index, 2);
    assert_eq!(computation.warnings[0].path, "/d/3.png");
    assert_eq!(computation.warnings[0].message, "corrupt");
    assert!(computation.hashes.iter().all(|(i, _)| *i != 2));
    assert!(fingerprint_indices_ok(&computation.hashes, items.len()));
    let report = build_report(&items, computation, 0, false);
    assert_eq!(report.warnings.len(), 1);
    let mut members: Vec<Vec<usize>> = report.groups.iter().map(|g| { let mut v = g.items.clone(); v.sort(); v }).collect();
    members.sort();
    assert_eq!(members, vec![vec![0, 4], vec![1, 3]]);
}

#[test]
fn stamp_failure_becomes_warning() {
    let cache = HashCache::open(":memory:").expect("open cache");
    let stamp = FileFingerprint { mtime: 3, size: 9 };
    let h = hash(&[1, 0, 1]);
    cache.store("/k/1.png", FuzzyHashAlgorithm::AHash, &stamp, &h).expect("store");
    let items = paths(&["/k/1.png", "/k/2.png", "/k/3.png"]);
    let stamps = vec![Ok(stamp), Err("gone".to_string()), Ok(stamp)];
    let plan = plan_batch(&items, &stamps, FuzzyHashAlgorithm::AHash, Some(&cache));
    assert_eq!(plan.hashes.len(), 1);
    assert_eq!(plan.hashes[0].0, 0);
    assert_eq!(plan.warnings.len(), 1);
    assert_eq!(plan.warnings[0].index, 1);
    assert_eq!(plan.warnings[0].message, "gone");
    assert_eq!(plan.pending.len(), 1);
    assert_eq!(plan.pending[0].index, 2);
    let computation = finish_batch(plan, vec![Ok(hash(&[0, 0, 1]))], 3, Some(&cache));
    assert_eq!(computation.hashes.len(), 2);
    assert_eq!(computation.warnings.len(), 1);
    let stored = cache.lookup("/k/3.png", FuzzyHashAlgorithm::AHash, &stamp).expect("stored");
    assert_eq!(stored.bits, vec![false, false, true]);
}

#[test]
fn index_check_rejects_bad_fingerprints() {
    let h = hash(&[1]);
    assert!(fingerprint_indices_ok(&vec![(0, h.clone()), (1, h.clone())], 2));
    assert!(!fingerprint_indices_ok(&vec![(0, h.clone()), (0, h.clone())], 2));
    assert!(!fingerprint_indices_ok(&vec![(2, h.clone())], 2));
}

#[test]
fn image_fingerprints_have_sixty_four_bits() {
    let bytes = png_bytes(|x, _| if x < 8 { 0 } else { 255 });
    for algo in [FuzzyHashAlgorithm::AHash, FuzzyHashAlgorithm::DHash, FuzzyHashAlgorithm::PHash] {
        let h = compute_fuzzy_hash("/img/x.png", &bytes, algo).expect("decodes");
        assert_eq!(h.bits.len(), 64);
        assert_eq!(h.algo, algo);
    }
    let a = compute_fuzzy_hash("/img/x.png", &bytes, FuzzyHashAlgorithm::AHash).expect("decodes");
    let same = compute_fuzzy_hash("/img/x.png", &bytes, FuzzyHashAlgorithm::AHash).expect("decodes");
    assert_eq!(a.distance(&same), 0);
    assert!(a.bits.iter().any(|b| *b));
    let inverted = compute_fuzzy_hash("/img/y.png", &png_bytes(|x, _| if x < 8 { 255 } else { 0 }), FuzzyHashAlgorithm::AHash).expect("decodes");
    assert!(a.distance(&inverted) > 0);
}

#[test]
fn undecodable_bytes_fail() {
    assert!(compute_fuzzy_hash("/img/z.png", b"not an image", FuzzyHashAlgorithm::DHash).is_err());
}

#[test]
fn cache_open_failure_reports_database_error() {
    let err = HashCache::open("/nonexistent-directory-for-cache/sub/cache.sqlite").err().expect("must fail");
    match err {
        booru_core::CacheError::Database { path, .. } => {
            assert_eq!(path, "/nonexistent-directory-for-cache/sub/cache.sqlite")
        }
    }
}

#[test]
fn format_follows_the_extension() {
    let bytes = png_bytes(|x, y| ((x + y) * 8) as u8);
    assert!(compute_fuzzy_hash("/img/a.png", &bytes, FuzzyHashAlgorithm::AHash).is_ok());
    assert!(compute_fuzzy_hash("/img/a.jpg", &bytes, FuzzyHashAlgorithm::AHash).is_err());
    assert!(compute_fuzzy_hash("/img/no_extension", &bytes, FuzzyHashAlgorithm::AHash).is_err());
}

#[test]
fn same_parent_is_symmetric() {
    assert!(same_parent("/a/x.png", "/a//y.png"));
    assert!(same_parent("/a//y.png", "/a/x.png"));
    assert!(!same_parent("/a/x.png", "/b/x.png"));
    assert!(!same_parent("/", "/a"));
}

#[test]
fn counts_follow_results() {
    let items = paths(&["/e/1.png", "/e/2.png", "/e/3.png"]);
    let plan = plan_batch(&items, &Vec::new(), FuzzyHashAlgorithm::PHash, None);
    let results = vec![Err("bad".to_string()), Err("worse".to_string()), Ok(hash(&[1]))];
    let computation = finish_batch(plan, results, 3, None);
    assert_eq!(computation.hashes.len(), 1);
    assert_eq!(computation.warnings.len(), 2);
    assert!(computation.cache_warnings.is_empty());
}
