use framepack::codec::CompressedBytes;

fn round_trip(buffer: &[u8]) -> Vec<u8> {
    CompressedBytes::from_uncompressed(buffer)
        .to_uncompressed()
        .expect("encoded stream must decode")
}

#[test]
fn empty_buffer_round_trips() {
    let encoded = CompressedBytes::from_uncompressed(&[]);
    assert_eq!(encoded.bytes().len(), 0);
    assert_eq!(round_trip(&[]), Vec::<u8>::new());
}

#[test]
fn literals_copied_verbatim() {
    let encoded = CompressedBytes::from_uncompressed(&[1, 2, 3]);
    assert_eq!(encoded.bytes(), &vec![1, 2, 3]);
}

#[test]
fn zero_runs_are_paired() {
    let encoded = CompressedBytes::from_uncompressed(&[7, 0, 0, 0, 9]);
    assert_eq!(encoded.bytes(), &vec![7, 0, 3, 9]);
}

#[test]
fn trailing_run_is_flushed() {
    let encoded = CompressedBytes::from_uncompressed(&[1, 0, 0]);
    assert_eq!(encoded.bytes(), &vec![1, 0, 2]);
}

#[test]
fn run_overflow_flushes_at_255() {
    // Encoding 300 consecutive zero bytes produces [0, 255, 0, 45].
    let zeros = vec![0u8; 300];
    let encoded = CompressedBytes::from_uncompressed(&zeros);
    assert_eq!(encoded.bytes(), &vec![0, 255, 0, 45]);
    // Decoding that sequence reproduces the 300 zero bytes.
    let decoded = CompressedBytes::from_compressed(&[0, 255, 0, 45])
        .to_uncompressed()
        .expect("well-formed stream");
    assert_eq!(decoded, zeros);
}

#[test]
fn run_of_exactly_255_zeros() {
    let zeros = vec![0u8; 255];
    let encoded = CompressedBytes::from_uncompressed(&zeros);
    assert_eq!(encoded.bytes(), &vec![0, 255]);
    assert_eq!(round_trip(&zeros), zeros);
}

#[test]
fn run_of_256_zeros() {
    let zeros = vec![0u8; 256];
    let encoded = CompressedBytes::from_uncompressed(&zeros);
    assert_eq!(encoded.bytes(), &vec![0, 255, 0, 1]);
    assert_eq!(round_trip(&zeros), zeros);
}

#[test]
fn malformed_stream_rejected() {
    // A marker immediately following a count, with no literal between.
    let stream = CompressedBytes::from_compressed(&[1, 0, 0, 5]);
    assert!(stream.to_uncompressed().is_err());
}

#[test]
fn truncated_marker_rejected() {
    let stream = CompressedBytes::from_compressed(&[5, 0]);
    assert!(stream.to_uncompressed().is_err());
}

#[test]
fn mixed_buffer_round_trips() {
    let buffer = vec![0, 2, 126, 126, 24, 0, 0, 0, 60, 102, 66, 0];
    assert_eq!(round_trip(&buffer), buffer);
}

#[test]
fn long_buffer_round_trips() {
    let mut buffer = Vec::new();
    for i in 0..2000usize {
        if i % 7 == 0 {
            buffer.push((i % 251 + 1) as u8);
        } else {
            buffer.push(0);
        }
    }
    assert_eq!(round_trip(&buffer), buffer);
}
