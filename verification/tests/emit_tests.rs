use framepack::emit::as_c_array_string;
use framepack::emit::emit_animation;
use framepack::emit::fmt_as_c_array;
use framepack::emit::fmt_as_rust_array;
use framepack::pack::compress_frames;

#[test]
fn c_array_body_uses_braces() {
    assert_eq!(as_c_array_string(&[]), "{}");
    assert_eq!(as_c_array_string(&[4]), "{4}");
    assert_eq!(as_c_array_string(&[1, 22, 333]), "{1, 22, 333}");
}

#[test]
fn rust_array_declaration() {
    assert_eq!(
        fmt_as_rust_array("DIFF_BYTES", "u8", &[1, 22, 333]),
        "const DIFF_BYTES: [u8; 3] = [1, 22, 333];"
    );
    assert_eq!(fmt_as_rust_array("EMPTY", "usize", &[]), "const EMPTY: [usize; 0] = [];");
}

#[test]
fn c_array_declaration() {
    assert_eq!(
        fmt_as_c_array("diff_bytes", "uint16_t", &[0, 10]),
        "static const uint16_t PROGMEM diff_bytes[2] = {0, 10};"
    );
}

#[test]
fn report_for_a_single_blank_frame() {
    let packed = compress_frames(&[vec![0u8; 10]]);
    let expected = "#### Rust ####\n\
                    ```\n\
                    const FRAME_SIZE: usize = 10;\n\
                    const DIFF_REGIONS_BOUNDARIES: [usize; 2] = [0, 0];\n\
                    const DIFF_REGIONS: [usize; 0] = [];\n\
                    const DIFF_BYTES_BOUNDARIES: [usize; 2] = [0, 0];\n\
                    const DIFF_BYTES: [u8; 0] = [];\n\
                    ```\n\
                    #### C ####\n\
                    ```\n\
                    #define FRAME_SIZE 10\n\
                    static const uint16_t PROGMEM diff_regions_boundaries[2] = {0, 0};\n\
                    static const uint16_t PROGMEM diff_regions[0] = {};\n\
                    static const uint16_t PROGMEM diff_bytes_boundaries[2] = {0, 0};\n\
                    static const char PROGMEM diff_bytes[0] = {};\n\
                    ```\n\
                    Total size in bytes: 8\n";
    assert_eq!(emit_animation(&packed), expected);
}

#[test]
fn report_for_two_frames() {
    let f0 = vec![1u8, 0, 0, 0];
    let f1 = vec![1u8, 0, 200, 0];
    let packed = compress_frames(&[f0, f1]);
    let expected = "#### Rust ####\n\
                    ```\n\
                    const FRAME_SIZE: usize = 4;\n\
                    const DIFF_REGIONS_BOUNDARIES: [usize; 3] = [2, 2, 4];\n\
                    const DIFF_REGIONS: [usize; 4] = [0, 1, 2, 3];\n\
                    const DIFF_BYTES_BOUNDARIES: [usize; 3] = [1, 1, 2];\n\
                    const DIFF_BYTES: [u8; 2] = [1, 200];\n\
                    ```\n\
                    #### C ####\n\
                    ```\n\
                    #define FRAME_SIZE 4\n\
                    static const uint16_t PROGMEM diff_regions_boundaries[3] = {2, 2, 4};\n\
                    static const uint16_t PROGMEM diff_regions[4] = {0, 1, 2, 3};\n\
                    static const uint16_t PROGMEM diff_bytes_boundaries[3] = {1, 1, 2};\n\
                    static const char PROGMEM diff_bytes[2] = {1, 200};\n\
                    ```\n\
                    Total size in bytes: 22\n";
    assert_eq!(emit_animation(&packed), expected);
}
