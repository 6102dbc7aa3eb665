use framepack::diff::Diff;

#[test]
fn diff_round_trip() {
    let original = vec![1u8, 0, 3, 4, 0, 0, 7];
    let altered = vec![1u8, 2, 3, 9, 9, 0, 8];
    let diff = Diff::from_original_and_altered(&original, &altered);
    assert_eq!(diff.reconstruct_frame(&original), altered);
}

#[test]
fn equal_buffers_give_empty_diff() {
    let buffer = vec![5u8, 0, 5];
    let diff = Diff::from_original_and_altered(&buffer, &buffer);
    assert_eq!(diff.flattened_regions(), Vec::<usize>::new());
    assert_eq!(diff.diff_bytes(), &Vec::<u8>::new());
    assert_eq!(diff.reconstruct_frame(&buffer), buffer);
}

#[test]
fn adjacent_differing_indices_merge() {
    // One range [1, 3) with values [2, 2] — not two single-index ranges.
    let diff = Diff::from_original_and_altered(&[1, 1, 1, 1], &[1, 2, 2, 1]);
    assert_eq!(diff.flattened_regions(), vec![1, 3]);
    assert_eq!(diff.diff_bytes(), &vec![2, 2]);
}

#[test]
fn separated_differing_indices_stay_apart() {
    let diff = Diff::from_original_and_altered(&[0, 0, 0, 0, 0], &[9, 0, 8, 8, 0]);
    assert_eq!(diff.flattened_regions(), vec![0, 1, 2, 4]);
    assert_eq!(diff.diff_bytes(), &vec![9, 8, 8]);
}

#[test]
fn index_differs_matches_regions() {
    let diff = Diff::from_original_and_altered(&[0, 0, 0, 0, 0], &[9, 0, 8, 8, 0]);
    assert!(diff.index_differs(0));
    assert!(!diff.index_differs(1));
    assert!(diff.index_differs(2));
    assert!(diff.index_differs(3));
    assert!(!diff.index_differs(4));
    assert!(!diff.index_differs(5));
}

#[test]
fn rebuilt_from_regions_and_diff() {
    let diff = Diff::from_regions_and_diff(&[0, 2, 5, 6], &[9, 8, 7]);
    assert_eq!(diff.flattened_regions(), vec![0, 2, 5, 6]);
    assert_eq!(diff.diff_bytes(), &vec![9, 8, 7]);
    assert_eq!(diff.reconstruct_frame(&[0, 0, 0, 0, 0, 0]), vec![9, 8, 0, 0, 0, 7]);
}

#[test]
fn flattening_survives_a_rebuild() {
    let original = vec![0u8, 1, 2, 3, 4, 5];
    let altered = vec![0u8, 1, 9, 9, 4, 6];
    let diff = Diff::from_original_and_altered(&original, &altered);
    let rebuilt = Diff::from_regions_and_diff(&diff.flattened_regions(), diff.diff_bytes());
    assert_eq!(rebuilt.flattened_regions(), diff.flattened_regions());
    assert_eq!(rebuilt.reconstruct_frame(&original), altered);
}
