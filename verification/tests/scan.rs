use wrinkle::fingerprint::TextBinSeq;
use wrinkle::scan::{find_first_match, is_image_file, scan_candidates, Candidate};

fn fp(bin: Vec<u8>) -> TextBinSeq {
    TextBinSeq { texts: vec![], bin }
}

fn candidate(path: &str, bin: Vec<u8>) -> Candidate {
    Candidate { path: path.to_string(), fp: fp(bin) }
}

#[test]
fn short_candidate_produces_no_report() {
    let cand: Vec<u8> = vec![2; 15];
    let sample: Vec<u8> = vec![2; 5];
    assert_eq!(find_first_match(&cand, &sample), None);
}

#[test]
fn candidate_shorter_than_sample_produces_no_report() {
    let cand: Vec<u8> = vec![2; 20];
    let sample: Vec<u8> = vec![2; 21];
    assert_eq!(find_first_match(&cand, &sample), None);
}

#[test]
fn first_qualifying_offset_wins_over_better_later_offset() {
    // Offset 0 is at distance 4 (four substitutions), offset 4 would be at
    // distance 0; the first qualifying offset is reported.
    let mut cand: Vec<u8> = vec![3, 3, 3, 3];
    cand.extend(std::iter::repeat(2).take(16));
    let sample: Vec<u8> = vec![2; 16];
    assert_eq!(find_first_match(&cand, &sample), Some((0, 4)));
}

#[test]
fn distance_at_threshold_is_not_a_match() {
    // Every window sits at distance exactly 5; only strictly smaller
    // distances qualify.
    let mut cand: Vec<u8> = vec![3; 5];
    cand.extend(std::iter::repeat(2).take(11));
    cand.extend(std::iter::repeat(3).take(4));
    let sample: Vec<u8> = vec![2; 16];
    assert_eq!(find_first_match(&cand, &sample), None);
}

#[test]
fn far_candidate_produces_no_report() {
    let cand: Vec<u8> = vec![0; 20];
    let sample: Vec<u8> = vec![4; 16];
    assert_eq!(find_first_match(&cand, &sample), None);
}

#[test]
fn empty_sample_scans_nothing() {
    let sample = fp(vec![]);
    let cands = vec![candidate("a.jpg", vec![2; 30]), candidate("b.jpg", vec![0; 30])];
    let reports = scan_candidates(&sample, &cands);
    assert!(reports.is_empty());
}

#[test]
fn scan_reports_exact_match_at_start() {
    let body: Vec<u8> = vec![0, 2, 2, 0, 1, 3, 3, 0, 4, 4, 4, 0, 2, 2, 0, 1, 3, 3, 0, 4];
    let sample = fp(body.clone());
    let mut cand_bin = body.clone();
    cand_bin.extend(std::iter::repeat(1).take(10));
    let cands = vec![candidate("hit.png", cand_bin)];
    let reports = scan_candidates(&sample, &cands);
    assert_eq!(reports.len(), 1);
    assert_eq!(reports[0].path, "hit.png");
    assert_eq!(reports[0].offset, 0);
    assert_eq!(reports[0].distance, 0);
}

#[test]
fn scan_with_embedded_sample_reports_first_offset_below_threshold() {
    // The sample sits exactly at offset 7; sliding windows that already
    // overlap most of it fall below the distance threshold a little
    // earlier, and the first such offset is the one reported.
    let sample_bin: Vec<u8> = vec![0, 2, 2, 0, 1, 3, 3, 0, 4, 4, 4];
    let mut cand_bin: Vec<u8> = vec![1; 7];
    cand_bin.extend(sample_bin.iter().copied());
    cand_bin.extend(std::iter::repeat(1).take(12));
    assert_eq!(cand_bin.len(), 30);
    let sample = fp(sample_bin);
    let cands = vec![candidate("embedded.jpg", cand_bin)];
    let reports = scan_candidates(&sample, &cands);
    assert_eq!(reports.len(), 1);
    assert_eq!(reports[0].path, "embedded.jpg");
    assert_eq!(reports[0].offset, 5);
    assert_eq!(reports[0].distance, 4);
}

#[test]
fn scan_skips_non_matching_candidates() {
    let sample = fp(vec![4; 16]);
    let mut good: Vec<u8> = vec![4; 16];
    good.extend(std::iter::repeat(0).take(5));
    let cands = vec![
        candidate("miss.jpg", vec![0; 30]),
        candidate("hit.jpg", good),
        candidate("short.jpg", vec![4; 10]),
    ];
    let reports = scan_candidates(&sample, &cands);
    assert_eq!(reports.len(), 1);
    assert_eq!(reports[0].path, "hit.jpg");
    assert_eq!(reports[0].offset, 0);
    assert_eq!(reports[0].distance, 0);
}

#[test]
fn image_extensions_are_recognized() {
    assert!(is_image_file("photo.jpg"));
    assert!(is_image_file("dir/photo.jpeg"));
    assert!(is_image_file("a/b/c/photo.png"));
    assert!(is_image_file("pic.x.jpg"));
}

#[test]
fn trailing_separators_are_ignored() {
    assert!(is_image_file("a.jpg/"));
    assert!(is_image_file("dir/photo.png//"));
    assert!(!is_image_file("dir/"));
    assert!(!is_image_file("//"));
    assert!(!is_image_file("/"));
}

#[test]
fn non_image_paths_are_rejected() {
    assert!(!is_image_file("notes.txt"));
    assert!(!is_image_file("noextension"));
    assert!(!is_image_file(".png"));
    assert!(!is_image_file("dir.jpg/file"));
    assert!(!is_image_file("photo.PNG"));
    assert!(!is_image_file("archive.tar.gz"));
    assert!(!is_image_file(""));
}
