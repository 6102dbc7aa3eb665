use framepack::pack::CompactAnimation;
use framepack::pack::compress_frames;

#[test]
fn empty_frame_is_all_zero() {
    assert_eq!(CompactAnimation::construct_empty_frame(4), vec![0, 0, 0, 0]);
    assert_eq!(CompactAnimation::construct_empty_frame(0), Vec::<u8>::new());
}

#[test]
fn all_zero_frame_packs_to_boundary_overhead_only() {
    // The base diff of an all-zero frame has zero ranges and zero diff
    // bytes; the total size reflects only the boundary tables.
    let packed = compress_frames(&[vec![0u8; 10]]);
    assert_eq!(packed.differing_regions(), Vec::<usize>::new());
    assert_eq!(packed.differing_bytes(), Vec::<u8>::new());
    assert_eq!(packed.differing_regions_boundaries(), vec![0, 0]);
    assert_eq!(packed.differing_bytes_boundaries(), vec![0, 0]);
    assert_eq!(packed.total_size(), 8);
}

#[test]
fn base_frame_reconstructs_from_zero_buffer() {
    let first = vec![0u8, 7, 0, 0, 3];
    let packed = compress_frames(&[first.clone()]);
    assert_eq!(packed.original_frame(), first);
}

#[test]
fn three_frames_pack_against_the_base() {
    let f0 = vec![1u8, 0, 0, 0];
    let f1 = vec![1u8, 5, 0, 0];
    let f2 = vec![1u8, 0, 0, 9];
    let packed = compress_frames(&[f0, f1, f2]);
    // Base diff: region [0, 1) with value 1; frame 0 diffs to nothing;
    // frame 1 alters index 1; frame 2 alters index 3.
    assert_eq!(packed.differing_regions(), vec![0, 1, 1, 2, 3, 4]);
    assert_eq!(packed.differing_regions_boundaries(), vec![2, 2, 4, 6]);
    assert_eq!(packed.differing_bytes(), vec![1, 5, 9]);
    assert_eq!(packed.differing_bytes_boundaries(), vec![1, 1, 2, 3]);
    assert_eq!(packed.total_size(), 3 + 2 * (4 + 6 + 4));
}

#[test]
fn frame_diff_ignores_other_frames() {
    // Frame diffs are taken against the reconstructed base frame, never
    // against the previous frame: a frame's stored diff is the same whether
    // or not other frames sit between it and the base.
    let f0 = vec![0u8, 0, 0, 0];
    let f1 = vec![0u8, 9, 0, 0];
    let f2 = vec![0u8, 0, 0, 7];
    let with_middle = compress_frames(&[f0.clone(), f1, f2.clone()]);
    let without_middle = compress_frames(&[f0, f2]);

    let wb = with_middle.differing_regions_boundaries();
    let wr = with_middle.differing_regions();
    let ob = without_middle.differing_regions_boundaries();
    let or = without_middle.differing_regions();
    // Frame 2 of the first pack and frame 1 of the second are the same frame.
    assert_eq!(&wr[wb[2]..wb[3]], &or[ob[1]..ob[2]]);

    let wbb = with_middle.differing_bytes_boundaries();
    let wby = with_middle.differing_bytes();
    let obb = without_middle.differing_bytes_boundaries();
    let oby = without_middle.differing_bytes();
    assert_eq!(&wby[wbb[2]..wbb[3]], &oby[obb[1]..obb[2]]);

    assert_eq!(&wr[wb[2]..wb[3]], &[3, 4]);
    assert_eq!(&wby[wbb[2]..wbb[3]], &[7]);
}

#[test]
fn first_frame_always_diffs_to_nothing() {
    let f0 = vec![3u8, 0, 1];
    let f1 = vec![3u8, 2, 1];
    let packed = compress_frames(&[f0, f1]);
    let bounds = packed.differing_regions_boundaries();
    // The base diff contributes one region; frame 0 contributes none.
    assert_eq!(bounds[0], bounds[1]);
}
