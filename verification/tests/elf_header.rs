use gaffrie::format_explorer::{ElfDecodeError, ElfFormat, FormatExplorer};

fn little_endian_64_bit_header() -> Vec<u8> {
    let mut h: Vec<u8> = Vec::new();
    h.extend_from_slice(&[0x7f, 0x45, 0x4c, 0x46]); // magic
    h.push(2); // class: 64-bit
    h.push(1); // data: little endian
    h.push(1); // header version
    h.push(0); // os/abi
    h.push(0); // abi version
    h.extend_from_slice(&[0; 7]); // padding
    h.extend_from_slice(&[0x02, 0x00]); // object type
    h.extend_from_slice(&[0x3e, 0x00]); // machine
    h.extend_from_slice(&[0x01, 0x00, 0x00, 0x00]); // file version
    h.extend_from_slice(&[0x00, 0x10, 0x40, 0x00, 0x00, 0x00, 0x00, 0x00]); // entry
    h.extend_from_slice(&[0x40, 0x00, 0x00, 0x00, 0x00, 0x00, 0x00, 0x00]); // ph offset
    h.extend_from_slice(&[0x34, 0x12, 0x00, 0x00, 0x00, 0x00, 0x00, 0x00]); // sh offset
    h.extend_from_slice(&[0x05, 0x00, 0x00, 0x00]); // flags
    h.extend_from_slice(&[0x40, 0x00]); // header size
    h.extend_from_slice(&[0x38, 0x00]); // ph entry size
    h.extend_from_slice(&[0x02, 0x00]); // ph entry count
    h.extend_from_slice(&[0x40, 0x00]); // sh entry size
    h.extend_from_slice(&[0x03, 0x00]); // sh entry count
    h.extend_from_slice(&[0x01, 0x00]); // sh string table index
    assert_eq!(h.len(), 64);
    h
}

#[test]
fn decodes_a_little_endian_64_bit_header() {
    let bytes = little_endian_64_bit_header();
    let h = ElfFormat::parse(&bytes).unwrap();
    assert_eq!(h.mag, [0x7f, 0x45, 0x4c, 0x46]);
    assert_eq!(h.class, 2);
    assert_eq!(h.data, 1);
    assert_eq!(h.ei_version, 1);
    assert_eq!(h.os_abi, 0);
    assert_eq!(h.abi_version, 0);
    assert_eq!(h.pad, [0; 7]);
    assert_eq!(h.type_, 2);
    assert_eq!(h.machine, 0x3e);
    assert_eq!(h.e_version, 1);
    assert_eq!(h.entry, 0x401000);
    assert_eq!(h.ph_offset, 0x40);
    assert_eq!(h.sh_offset, 0x1234);
    assert_eq!(h.flags, 5);
    assert_eq!(h.eh_size, 0x40);
    assert_eq!(h.ph_entry_size, 0x38);
    assert_eq!(h.ph_entry_num, 2);
    assert_eq!(h.sh_entry_size, 0x40);
    assert_eq!(h.sh_entry_num, 3);
    assert_eq!(h.sh_str_offset, 1);
}

#[test]
fn round_trips_a_64_byte_little_endian_header() {
    let bytes = little_endian_64_bit_header();
    let h = ElfFormat::parse(&bytes).unwrap();
    let encoded = h.encode();
    assert_eq!(encoded, bytes);
}

#[test]
fn round_trips_a_big_endian_32_bit_header() {
    let mut bytes: Vec<u8> = Vec::new();
    bytes.extend_from_slice(&[0x7f, 0x45, 0x4c, 0x46]);
    bytes.push(1); // class: 32-bit
    bytes.push(2); // data: big endian
    bytes.push(1);
    bytes.push(3);
    bytes.push(9);
    bytes.extend_from_slice(&[1, 2, 3, 4, 5, 6, 7]); // padding, kept as read
    bytes.extend_from_slice(&[0x00, 0x02]); // object type
    bytes.extend_from_slice(&[0x00, 0x14]); // machine
    bytes.extend_from_slice(&[0x00, 0x00, 0x00, 0x01]); // file version
    bytes.extend_from_slice(&[0x00, 0x01, 0x00, 0x00]); // entry
    bytes.extend_from_slice(&[0x00, 0x00, 0x00, 0x34]); // ph offset
    bytes.extend_from_slice(&[0x00, 0x00, 0x12, 0x00]); // sh offset
    bytes.extend_from_slice(&[0x00, 0x00, 0x00, 0x07]); // flags
    bytes.extend_from_slice(&[0x00, 0x34]); // header size
    bytes.extend_from_slice(&[0x00, 0x20]); // ph entry size
    bytes.extend_from_slice(&[0x00, 0x01]); // ph entry count
    bytes.extend_from_slice(&[0x00, 0x28]); // sh entry size
    bytes.extend_from_slice(&[0x00, 0x04]); // sh entry count
    bytes.extend_from_slice(&[0x00, 0x03]); // sh string table index
    assert_eq!(bytes.len(), 52);
    let h = ElfFormat::parse(&bytes).unwrap();
    assert_eq!(h.class, 1);
    assert_eq!(h.data, 2);
    assert_eq!(h.entry, 0x10000);
    assert_eq!(h.ph_offset, 0x34);
    assert_eq!(h.sh_offset, 0x1200);
    assert_eq!(h.machine, 0x14);
    assert_eq!(h.pad, [1, 2, 3, 4, 5, 6, 7]);
    let encoded = h.encode();
    assert_eq!(encoded, bytes);
}

#[test]
fn trailing_bytes_are_ignored() {
    let mut bytes = little_endian_64_bit_header();
    bytes.extend_from_slice(&[0xde, 0xad, 0xbe, 0xef]);
    let h = ElfFormat::parse(&bytes).unwrap();
    assert_eq!(h.entry, 0x401000);
}

#[test]
fn a_ten_byte_buffer_fails_in_the_preamble_stage() {
    let bytes = &little_endian_64_bit_header()[..10];
    let e = ElfFormat::parse(bytes).unwrap_err();
    assert_eq!(e, ElfDecodeError::TruncatedPreamble);
}

#[test]
fn an_unknown_data_encoding_is_an_error_not_a_default() {
    let mut bytes = little_endian_64_bit_header();
    bytes[5] = 3;
    let e = ElfFormat::parse(&bytes).unwrap_err();
    assert_eq!(e, ElfDecodeError::UnsupportedEncoding { value: 3 });
}

#[test]
fn an_unknown_class_is_an_error_not_a_default() {
    let mut bytes = little_endian_64_bit_header();
    bytes[4] = 7;
    let e = ElfFormat::parse(&bytes).unwrap_err();
    assert_eq!(e, ElfDecodeError::UnsupportedClass { value: 7 });
}

#[test]
fn each_truncation_stage_is_identified() {
    let full = little_endian_64_bit_header();
    let e = ElfFormat::parse(&full[..16]).unwrap_err();
    assert_eq!(e, ElfDecodeError::TruncatedFixedFields);
    let e = ElfFormat::parse(&full[..30]).unwrap_err();
    assert_eq!(e, ElfDecodeError::TruncatedAddressFields);
    let e = ElfFormat::parse(&full[..50]).unwrap_err();
    assert_eq!(e, ElfDecodeError::TruncatedTailFields);
    assert!(ElfFormat::parse(&full[..63]).is_err());
    assert!(ElfFormat::parse(&full).is_ok());
}

#[test]
fn explorer_keeps_the_decode_result_and_the_fallback_error() {
    let bytes = little_endian_64_bit_header();
    let mut explorer = FormatExplorer::new(&bytes);
    assert!(explorer.parsed.is_ok());
    assert_eq!(explorer.title(), "Format Explorer");
    explorer.notify(gaffrie::Event::FileChanged, b"too short");
    // the error is kept for the unparsed fallback presentation
    assert_eq!(
        explorer.parsed.unwrap_err(),
        ElfDecodeError::TruncatedPreamble
    );
}
