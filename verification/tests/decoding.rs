use rust_lzss::{decompress, decompress_lzss10, decompress_lzss11, LzssError};

#[test]
fn decompresses() {
    let lzss10: [u8; 11] = [
        0x10, 0x14, 0x00, 0x00, 0x08, 0x61, 0x62, 0x63, 0x64, 0xD0, 0x03,
    ];
    let lzss11: [u8; 11] = [
        0x11, 0x14, 0x00, 0x00, 0x08, 0x61, 0x62, 0x63, 0x64, 0xF0, 0x03,
    ];

    let mut result_lzss10: Vec<u8> = Vec::new();
    let mut result_lzss11: Vec<u8> = Vec::new();
    for _ in 0..5 {
        result_lzss10.push(0x61);
        result_lzss10.push(0x62);
        result_lzss10.push(0x63);
        result_lzss10.push(0x64);

        result_lzss11.push(0x61);
        result_lzss11.push(0x62);
        result_lzss11.push(0x63);
        result_lzss11.push(0x64);
    }

    assert_eq!(result_lzss10, decompress(&lzss10).unwrap());
    assert_eq!(result_lzss11, decompress(&lzss11).unwrap());
}

#[test]
fn decompresses_lzss10() {
    let test1: [u8; 1] = [0x00];
    let test2: [u8; 9] = [0x00, 0x61, 0x62, 0x63, 0x64, 0x65, 0x66, 0x67, 0x68];
    let test3: [u8; 7] = [0x08, 0x61, 0x62, 0x63, 0x64, 0xD0, 0x03];
    let mut result3: Vec<u8> = Vec::new();
    for _ in 0..5 {
        result3.push(0x61);
        result3.push(0x62);
        result3.push(0x63);
        result3.push(0x64);
    }
    assert_eq!(0, decompress_lzss10(&test1, 0).unwrap().len());
    assert_eq!(
        &[0x61, 0x62, 0x63, 0x64, 0x65, 0x66, 0x67, 0x68],
        decompress_lzss10(&test2, 8).unwrap().as_slice()
    );
    assert_eq!(result3, decompress_lzss10(&test3, 20).unwrap());
}

#[test]
fn decompresses_lzss11() {
    let test1: [u8; 1] = [0x00];
    let test2: [u8; 9] = [0x00, 0x61, 0x62, 0x63, 0x64, 0x65, 0x66, 0x67, 0x68];
    let test3: [u8; 7] = [0x08, 0x61, 0x62, 0x63, 0x64, 0xF0, 0x03];
    let test4: [u8; 8] = [0x08, 0x61, 0x62, 0x63, 0x64, 0x01, 0x30, 0x03];
    let test5: [u8; 9] = [0x08, 0x61, 0x62, 0x63, 0x64, 0x10, 0x07, 0xB0, 0x03];
    let mut result3: Vec<u8> = Vec::new();
    let mut result4: Vec<u8> = Vec::new();
    let mut result5: Vec<u8> = Vec::new();

    for _ in 0..5 {
        result3.push(0x61);
        result3.push(0x62);
        result3.push(0x63);
        result3.push(0x64);
    }
    for _ in 0..10 {
        result4.push(0x61);
        result4.push(0x62);
        result4.push(0x63);
        result4.push(0x64);
    }
    for _ in 0..100 {
        result5.push(0x61);
        result5.push(0x62);
        result5.push(0x63);
        result5.push(0x64);
    }

    assert_eq!(0, decompress_lzss11(&test1, 0).unwrap().len());
    assert_eq!(
        &[0x61, 0x62, 0x63, 0x64, 0x65, 0x66, 0x67, 0x68],
        decompress_lzss11(&test2, 8).unwrap().as_slice()
    );
    assert_eq!(result3, decompress_lzss11(&test3, 20).unwrap());
    assert_eq!(result4, decompress_lzss11(&test4, 40).unwrap());
    assert_eq!(result5, decompress_lzss11(&test5, 400).unwrap());
}

#[test]
fn output_length_matches_header_size() {
    let lzss10: [u8; 11] = [
        0x10, 0x14, 0x00, 0x00, 0x08, 0x61, 0x62, 0x63, 0x64, 0xD0, 0x03,
    ];
    assert_eq!(0x14, decompress(&lzss10).unwrap().len());
    let lzss11: [u8; 11] = [
        0x11, 0x14, 0x00, 0x00, 0x08, 0x61, 0x62, 0x63, 0x64, 0xF0, 0x03,
    ];
    assert_eq!(0x14, decompress(&lzss11).unwrap().len());
}

#[test]
fn decoding_twice_gives_identical_buffers() {
    let stream: [u8; 11] = [
        0x11, 0x14, 0x00, 0x00, 0x08, 0x61, 0x62, 0x63, 0x64, 0xF0, 0x03,
    ];
    let copy = stream;
    let first = decompress(&stream).unwrap();
    let second = decompress(&copy).unwrap();
    assert_eq!(first, second);
}

#[test]
fn overlapping_copy_repeats_pattern() {
    // One literal `a`, then a back-reference of length 4 at distance 1:
    // the copy reads bytes it has itself just written.
    let stream: [u8; 8] = [0x10, 0x05, 0x00, 0x00, 0x40, 0x61, 0x10, 0x00];
    assert_eq!(vec![0x61, 0x61, 0x61, 0x61, 0x61], decompress(&stream).unwrap());
}

#[test]
fn overlapping_copy_distance_two() {
    // Literals `a` `b`, then length 6 at distance 2: "abababab".
    let stream: [u8; 9] = [0x10, 0x08, 0x00, 0x00, 0x20, 0x61, 0x62, 0x30, 0x01];
    assert_eq!(
        vec![0x61, 0x62, 0x61, 0x62, 0x61, 0x62, 0x61, 0x62],
        decompress(&stream).unwrap()
    );
}

#[test]
fn zero_size_gives_empty_output() {
    let lzss10: [u8; 4] = [0x10, 0x00, 0x00, 0x00];
    let lzss11: [u8; 4] = [0x11, 0x00, 0x00, 0x00];
    assert_eq!(0, decompress(&lzss10).unwrap().len());
    assert_eq!(0, decompress(&lzss11).unwrap().len());
    // Token bytes after the header are never read when the size is zero.
    let with_garbage: [u8; 6] = [0x10, 0x00, 0x00, 0x00, 0xFF, 0xFF];
    assert_eq!(0, decompress(&with_garbage).unwrap().len());
}

#[test]
fn all_literals_reproduced_unchanged() {
    // Twelve literals need two control bytes, both zero.
    let stream: [u8; 18] = [
        0x11, 0x0C, 0x00, 0x00, 0x00, 1, 2, 3, 4, 5, 6, 7, 8, 0x00, 9, 10, 11, 12,
    ];
    assert_eq!(
        vec![1, 2, 3, 4, 5, 6, 7, 8, 9, 10, 11, 12],
        decompress(&stream).unwrap()
    );
}

#[test]
fn size_field_is_little_endian() {
    // 0x000102 little-endian = 258 bytes, all literals of 0x55.
    let mut stream: Vec<u8> = vec![0x10, 0x02, 0x01, 0x00];
    let mut left = 258;
    while left > 0 {
        stream.push(0x00);
        let chunk = if left < 8 { left } else { 8 };
        for _ in 0..chunk {
            stream.push(0x55);
        }
        left -= chunk;
    }
    let out = decompress(&stream).unwrap();
    assert_eq!(258, out.len());
    assert!(out.iter().all(|&b| b == 0x55));
}

#[test]
fn malformed_header_is_rejected() {
    let one_byte: [u8; 1] = [0x00];
    assert_eq!(LzssError::MalformedHeader, decompress(&one_byte).unwrap_err());
    let empty: [u8; 0] = [];
    assert_eq!(LzssError::MalformedHeader, decompress(&empty).unwrap_err());
    let three_bytes: [u8; 3] = [0x10, 0x04, 0x00];
    assert_eq!(LzssError::MalformedHeader, decompress(&three_bytes).unwrap_err());
}

#[test]
fn unknown_format_tag_is_rejected() {
    let stream: [u8; 5] = [0x42, 0x01, 0x00, 0x00, 0x61];
    assert_eq!(LzssError::UnsupportedFormat, decompress(&stream).unwrap_err());
}

#[test]
fn truncated_token_stream_is_rejected() {
    // The header promises five bytes but no token bytes follow.
    let no_tokens: [u8; 4] = [0x10, 0x05, 0x00, 0x00];
    assert_eq!(LzssError::TruncatedStream, decompress(&no_tokens).unwrap_err());
    // A control byte announces a back-reference but only one of its two
    // bytes is present.
    let half_token: [u8; 6] = [0x10, 0x05, 0x00, 0x00, 0x80, 0xD0];
    assert_eq!(LzssError::TruncatedStream, decompress(&half_token).unwrap_err());
    // Literals run out mid-group.
    let short_literals: [u8; 7] = [0x11, 0x05, 0x00, 0x00, 0x00, 0x61, 0x62];
    assert_eq!(
        LzssError::TruncatedStream,
        decompress(&short_literals).unwrap_err()
    );
    // The long LZSS11 form needs four token bytes; only two are present.
    let short_long_form: [u8; 7] = [0x11, 0x05, 0x00, 0x00, 0x80, 0x10, 0x07];
    assert_eq!(
        LzssError::TruncatedStream,
        decompress(&short_long_form).unwrap_err()
    );
}

#[test]
fn back_reference_before_start_is_rejected() {
    // The very first token is a back-reference: there is nothing to copy.
    let stream: [u8; 7] = [0x10, 0x01, 0x00, 0x00, 0x80, 0x00, 0x00];
    assert_eq!(
        LzssError::InvalidBackReference,
        decompress(&stream).unwrap_err()
    );
    // Distance 5 with only four bytes of output so far.
    let too_far: [u8; 11] = [
        0x11, 0x14, 0x00, 0x00, 0x08, 0x61, 0x62, 0x63, 0x64, 0xF0, 0x04,
    ];
    assert_eq!(
        LzssError::InvalidBackReference,
        decompress(&too_far).unwrap_err()
    );
}

#[test]
fn copy_stops_exactly_at_target_size() {
    // The back-reference could produce 16 bytes but only 14 are wanted:
    // the copy stops at the target, and the size still matches exactly.
    let stream: [u8; 11] = [
        0x10, 0x12, 0x00, 0x00, 0x08, 0x61, 0x62, 0x63, 0x64, 0xD0, 0x03,
    ];
    let expected: Vec<u8> = vec![
        0x61, 0x62, 0x63, 0x64, 0x61, 0x62, 0x63, 0x64, 0x61, 0x62, 0x63, 0x64, 0x61, 0x62,
        0x63, 0x64, 0x61, 0x62,
    ];
    assert_eq!(expected, decompress(&stream).unwrap());
}

#[test]
fn lzss11_short_form_lengths() {
    // Indicator 2 gives the shortest back-reference, three bytes long.
    let stream: [u8; 10] = [0x11, 0x06, 0x00, 0x00, 0x10, 0x61, 0x62, 0x63, 0x20, 0x02];
    assert_eq!(
        vec![0x61, 0x62, 0x63, 0x61, 0x62, 0x63],
        decompress(&stream).unwrap()
    );
}
