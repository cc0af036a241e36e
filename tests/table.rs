use kknd2_unpack::{extract_file, kind_to_string, unpack, Error, FileEntry};

const AAAA: u32 = 0x4141_4141;
const BBBB: u32 = 0x4242_4242;

fn put32(data: &mut Vec<u8>, at: usize, v: u32) {
    data[at..at + 4].copy_from_slice(&v.to_le_bytes());
}

fn entry(kind: u32, offset: u32, size: u32) -> FileEntry {
    FileEntry { kind, offset, size }
}

#[test]
fn sizes_follow_from_offsets() {
    let mut data = vec![0u8; 0x260];
    put32(&mut data, 0, 0x250);
    put32(&mut data, 0x240, 0x100);
    put32(&mut data, 0x244, 0x180);
    put32(&mut data, 0x248, 0x1f0);
    put32(&mut data, 0x250, AAAA);
    put32(&mut data, 0x254, 0x240);
    let files = unpack(&data).unwrap();
    assert_eq!(
        files,
        vec![entry(AAAA, 0x100, 0x80), entry(AAAA, 0x180, 0x70), entry(AAAA, 0x1f0, 0x60)]
    );
}

#[test]
fn zero_slot_ends_the_sub_table() {
    let mut data = vec![0u8; 0x50];
    put32(&mut data, 0, 0x40);
    put32(&mut data, 0x30, 0x10);
    put32(&mut data, 0x34, 0x20);
    put32(&mut data, 0x38, 0);
    put32(&mut data, 0x3c, 0x30);
    put32(&mut data, 0x40, AAAA);
    put32(&mut data, 0x44, 0x30);
    let files = unpack(&data).unwrap();
    assert_eq!(files, vec![entry(AAAA, 0x10, 0x10), entry(AAAA, 0x20, 0x20)]);
}

#[test]
fn zero_kind_ends_the_groups() {
    let mut data = vec![0u8; 0x60];
    put32(&mut data, 0, 0x40);
    put32(&mut data, 0x30, 0x10);
    put32(&mut data, 0x38, 0x20);
    put32(&mut data, 0x40, AAAA);
    put32(&mut data, 0x44, 0x30);
    put32(&mut data, 0x48, 0);
    put32(&mut data, 0x4c, 0);
    put32(&mut data, 0x50, BBBB);
    put32(&mut data, 0x54, 0x38);
    let files = unpack(&data).unwrap();
    assert_eq!(files, vec![entry(AAAA, 0x10, 0x30)]);
}

#[test]
fn groups_follow_one_another() {
    let mut data = vec![0u8; 0x60];
    put32(&mut data, 0, 0x40);
    put32(&mut data, 0x30, 0x08);
    put32(&mut data, 0x34, 0x10);
    put32(&mut data, 0x38, 0x20);
    put32(&mut data, 0x40, AAAA);
    put32(&mut data, 0x44, 0x30);
    put32(&mut data, 0x48, BBBB);
    put32(&mut data, 0x4c, 0x38);
    let files = unpack(&data).unwrap();
    assert_eq!(
        files,
        vec![entry(AAAA, 0x08, 0x08), entry(AAAA, 0x10, 0x10), entry(BBBB, 0x20, 0x20)]
    );
}

#[test]
fn empty_table_lists_nothing() {
    let mut data = vec![0u8; 0x10];
    put32(&mut data, 0, 0x08);
    assert_eq!(unpack(&data), Ok(vec![]));
}

#[test]
fn short_region_is_malformed() {
    assert_eq!(unpack(&vec![1u8, 0, 0]), Err(Error::MalformedTableEntry));
}

#[test]
fn root_past_region_is_out_of_bounds() {
    let mut data = vec![0u8; 0x10];
    put32(&mut data, 0, 0x20);
    assert_eq!(unpack(&data), Err(Error::OutOfBounds));
}

#[test]
fn cut_descriptor_is_malformed() {
    let mut data = vec![0u8; 0x10];
    put32(&mut data, 0, 0x0c);
    assert_eq!(unpack(&data), Err(Error::MalformedTableEntry));
}

#[test]
fn decreasing_offsets_are_out_of_bounds() {
    let mut data = vec![0u8; 0x50];
    put32(&mut data, 0, 0x40);
    put32(&mut data, 0x30, 0x20);
    put32(&mut data, 0x34, 0x10);
    put32(&mut data, 0x40, AAAA);
    put32(&mut data, 0x44, 0x30);
    assert_eq!(unpack(&data), Err(Error::OutOfBounds));
}

#[test]
fn sub_table_past_its_end_is_out_of_bounds() {
    let mut data = vec![0u8; 0x50];
    put32(&mut data, 0, 0x40);
    put32(&mut data, 0x40, AAAA);
    put32(&mut data, 0x44, 0x44);
    assert_eq!(unpack(&data), Err(Error::OutOfBounds));
}

#[test]
fn sub_table_running_off_the_region_is_truncated() {
    let mut data = vec![0u8; 0x50];
    put32(&mut data, 0, 0x10);
    put32(&mut data, 0x10, AAAA);
    put32(&mut data, 0x14, 0x20);
    put32(&mut data, 0x1c, 0x60);
    for at in (0x20..0x50).step_by(4) {
        put32(&mut data, at, 0x04);
    }
    assert_eq!(unpack(&data), Err(Error::TruncatedStream));
}

#[test]
fn extraction_is_exact() {
    let data: Vec<u8> = (0u8..20).collect();
    let bytes = extract_file(&data, &entry(AAAA, 10, 5)).unwrap();
    assert_eq!(bytes, vec![10u8, 11, 12, 13, 14]);
}

#[test]
fn extraction_past_region_fails() {
    let data: Vec<u8> = (0u8..20).collect();
    assert_eq!(extract_file(&data, &entry(AAAA, 18, 5)), Err(Error::OutOfBounds));
}

#[test]
fn extraction_to_the_last_byte() {
    let data: Vec<u8> = (0u8..20).collect();
    assert_eq!(extract_file(&data, &entry(AAAA, 15, 5)), Ok(vec![15u8, 16, 17, 18, 19]));
}

#[test]
fn kind_reads_as_little_endian_text() {
    assert_eq!(kind_to_string(0x4443_4241), Some("ABCD".to_string()));
}

#[test]
fn kind_that_is_not_text_has_no_tag() {
    assert_eq!(kind_to_string(0xffff_ffff), None);
}

#[test]
fn only_seven_groups_are_read() {
    let mut data = vec![0u8; 0x80];
    put32(&mut data, 0, 0x40);
    for g in 0..8u32 {
        let table = 0x10 + 4 * g;
        put32(&mut data, table as usize, g + 1);
        put32(&mut data, (0x40 + 8 * g) as usize, AAAA);
        put32(&mut data, (0x44 + 8 * g) as usize, table);
    }
    let files = unpack(&data).unwrap();
    let mut expected: Vec<FileEntry> = (1..7u32).map(|o| entry(AAAA, o, 1)).collect();
    expected.push(entry(AAAA, 7, 0x39));
    assert_eq!(files, expected);
}
