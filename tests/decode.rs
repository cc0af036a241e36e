use kknd2_unpack::{decompress, decompress_block, decompress_data, decompress_part, Error};

fn le32(v: u32) -> Vec<u8> {
    v.to_le_bytes().to_vec()
}

fn be32(v: u32) -> Vec<u8> {
    v.to_be_bytes().to_vec()
}

fn chunk(uncompressed: u32, body: &[u8]) -> Vec<u8> {
    let mut out = le32(uncompressed);
    out.extend(le32(body.len() as u32));
    out.extend_from_slice(body);
    out
}

#[test]
fn pass_through_chunk_is_unchanged() {
    let input = vec![1u8, 0, 0xff, 7];
    assert_eq!(decompress_block(4, &input), Ok(vec![1u8, 0, 0xff, 7]));
}

#[test]
fn literals_only() {
    let input = vec![0u8, 0, b'a', b'b', b'c'];
    assert_eq!(decompress_block(3, &input), Ok(b"abc".to_vec()));
}

#[test]
fn literals_then_back_reference() {
    // 'a', 'b', then a run of four at distance two
    let input = vec![0x04u8, 0x00, b'a', b'b', 0x03, 0x02];
    assert_eq!(decompress_data(&input, 6), Ok(b"ababab".to_vec()));
}

#[test]
fn overlapping_run_repeats_itself() {
    // 'a', then a run of eight at distance one
    let input = vec![0x02u8, 0x00, b'a', 0x07, 0x01];
    assert_eq!(decompress_block(9, &input), Ok(b"aaaaaaaaa".to_vec()));
}

#[test]
fn distance_uses_high_nibble_of_first_byte() {
    // 300 literals of 0..=255 repeated, then a run of three at distance 0x12c
    let literals: Vec<u8> = (0..300u32).map(|i| (i % 251) as u8).collect();
    let mut input = Vec::new();
    let mut expected = Vec::new();
    let mut k = 0;
    while k < literals.len() {
        let group = &literals[k..(k + 16).min(literals.len())];
        let full = group.len() == 16;
        let end = k + group.len() == literals.len();
        if end && !full {
            // the reference shares the last control word
            let word: u16 = 1 << group.len();
            input.extend(word.to_le_bytes());
            input.extend_from_slice(group);
            input.extend([0x12u8, 0x2c]);
        } else {
            input.extend([0u8, 0]);
            input.extend_from_slice(group);
        }
        expected.extend_from_slice(group);
        k += group.len();
    }
    expected.extend([literals[0], literals[1], literals[2]]);
    assert_eq!(decompress_data(&input, 303), Ok(expected));
}

#[test]
fn seventeen_literals_take_two_control_words() {
    let mut input = vec![0u8, 0];
    input.extend(1u8..=16);
    input.extend([0u8, 0, 17]);
    let expected: Vec<u8> = (1u8..=17).collect();
    assert_eq!(decompress_data(&input, 17), Ok(expected));
}

#[test]
fn zero_distance_writes_zeros() {
    let input = vec![0x02u8, 0x00, b'x', 0x01, 0x00];
    assert_eq!(decompress_data(&input, 3), Ok(vec![b'x', 0, 0]));
}

#[test]
fn back_reference_before_start_fails() {
    let input = vec![0x01u8, 0x00, 0x00, 0x01];
    assert_eq!(decompress_data(&input, 5), Err(Error::InvalidBackReference));
}

#[test]
fn back_reference_past_current_position_fails() {
    // two literals, then a reference at distance three
    let input = vec![0x04u8, 0x00, b'a', b'b', 0x00, 0x03];
    assert_eq!(decompress_data(&input, 4), Err(Error::InvalidBackReference));
}

#[test]
fn run_past_output_size_fails() {
    let input = vec![0x02u8, 0x00, b'a', 0x0f, 0x01];
    assert_eq!(decompress_data(&input, 4), Err(Error::OutOfBounds));
}

#[test]
fn literal_into_full_output_fails() {
    let input = vec![0u8, 0, b'a', b'b'];
    assert_eq!(decompress_data(&input, 1), Err(Error::TruncatedInput));
}

#[test]
fn lone_control_byte_fails() {
    assert_eq!(decompress_data(&[0u8], 1), Err(Error::TruncatedInput));
}

#[test]
fn reference_cut_short_fails() {
    assert_eq!(decompress_data(&[1u8, 0, 5], 2), Err(Error::TruncatedInput));
}

#[test]
fn short_output_is_a_size_mismatch() {
    let input = vec![0u8, 0, b'a'];
    assert_eq!(decompress_data(&input, 2), Err(Error::SizeMismatch));
}

#[test]
fn empty_stream_gives_empty_output() {
    assert_eq!(decompress_data(&[], 0), Ok(vec![]));
}

fn sample_archive() -> Vec<u8> {
    let mut file = vec![0x4bu8, 0x4b, 0x4e, 0x44, 0, 0, 0, 0];
    file.extend(be32(6));
    file.extend([0u8; 4]);
    file.extend(chunk(3, b"abc"));
    file.extend(chunk(3, &[0, 0, b'd', b'e', b'f']));
    file.extend(le32(2));
    file.extend([0u8; 4]);
    file.extend(chunk(2, b"xy"));
    file
}

#[test]
fn archive_has_two_regions() {
    let file = decompress(&sample_archive()).unwrap();
    assert_eq!(file.archive, b"abcdef".to_vec());
    assert_eq!(file.metadata, b"xy".to_vec());
}

#[test]
fn region_reports_where_it_ends() {
    let file = sample_archive();
    let (archive, end) = decompress_part(&file, 8, true).unwrap();
    assert_eq!(archive, b"abcdef".to_vec());
    assert_eq!(end, 8 + 8 + 11 + 13);
    let (metadata, end) = decompress_part(&file, end, false).unwrap();
    assert_eq!(metadata, b"xy".to_vec());
    assert_eq!(end, file.len());
}

#[test]
fn region_length_is_the_sum_of_chunk_sizes() {
    // declares two bytes, but its one chunk holds three
    let mut data = le32(2);
    data.extend([0u8; 4]);
    data.extend(chunk(3, b"pqr"));
    let (region, end) = decompress_part(&data, 0, false).unwrap();
    assert_eq!(region, b"pqr".to_vec());
    assert_eq!(end, data.len());
}

#[test]
fn empty_region_reads_no_chunk() {
    let mut data = be32(0);
    data.extend([0u8; 4]);
    assert_eq!(decompress_part(&data, 0, true), Ok((vec![], 8)));
}

#[test]
fn truncated_chunk_body_fails() {
    let mut data = le32(4);
    data.extend([0u8; 4]);
    data.extend(le32(4));
    data.extend(le32(4));
    data.extend([1u8, 2]);
    assert_eq!(decompress_part(&data, 0, false), Err(Error::TruncatedStream));
}

#[test]
fn missing_chunk_header_fails() {
    let mut data = le32(4);
    data.extend([0u8; 4]);
    data.extend(le32(4));
    assert_eq!(decompress_part(&data, 0, false), Err(Error::TruncatedStream));
}

#[test]
fn chunk_error_ends_the_region() {
    let mut data = le32(2);
    data.extend([0u8; 4]);
    data.extend(chunk(2, &[0, 0, b'a']));
    assert_eq!(decompress_part(&data, 0, false), Err(Error::SizeMismatch));
}

#[test]
fn short_file_fails() {
    assert!(matches!(decompress(&[1u8, 2, 3]), Err(Error::TruncatedStream)));
}

#[test]
fn missing_metadata_region_fails() {
    let mut file = sample_archive();
    file.truncate(8 + 8 + 11 + 13 + 2);
    assert!(matches!(decompress(&file), Err(Error::TruncatedStream)));
}
