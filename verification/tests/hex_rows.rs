use gaffrie::hex_viewer::{render_rows, total_rows, HexViewer};

#[test]
fn row_count_is_the_ceiling_of_length_over_sixteen() {
    assert_eq!(total_rows(0), 0);
    assert_eq!(total_rows(1), 1);
    assert_eq!(total_rows(15), 1);
    assert_eq!(total_rows(16), 1);
    assert_eq!(total_rows(17), 2);
    assert_eq!(total_rows(20), 2);
    assert_eq!(total_rows(32), 2);
    assert_eq!(total_rows(33), 3);
}

#[test]
fn first_row_of_a_twenty_byte_buffer_holds_sixteen_bytes() {
    let buffer = b"0123456789abcdefghij";
    assert_eq!(total_rows(buffer.len()), 2);
    let rows = render_rows(buffer, 0, 1);
    assert_eq!(rows.len(), 1);
    assert_eq!(rows[0].offset, 0);
    assert_eq!(rows[0].offset_text, "00000000");
    assert_eq!(
        rows[0].hex_text,
        "30 31 32 33 34 35 36 37 38 39 61 62 63 64 65 66"
    );
    assert_eq!(rows[0].ascii_text, "0123456789abcdef");
}

#[test]
fn second_row_of_a_twenty_byte_buffer_holds_the_remaining_four() {
    let buffer = b"0123456789abcdefghij";
    let rows = render_rows(buffer, 1, 2);
    assert_eq!(rows.len(), 1);
    assert_eq!(rows[0].offset, 16);
    assert_eq!(rows[0].offset_text, "00000010");
    assert_eq!(rows[0].hex_text, "67 68 69 6a");
    assert_eq!(rows[0].ascii_text, "ghij");
}

#[test]
fn non_graphic_bytes_show_as_dots() {
    let buffer: &[u8] = &[0x00, 0x41, 0x09, 0x7f, 0x80, 0xff, 0x20, 0x7e];
    let rows = render_rows(buffer, 0, 1);
    assert_eq!(rows.len(), 1);
    assert_eq!(rows[0].hex_text, "00 41 09 7f 80 ff 20 7e");
    assert_eq!(rows[0].ascii_text, ".A.... ~");
}

#[test]
fn rendering_a_window_reads_only_those_rows() {
    let mut buffer = vec![0u8; 16 * 100];
    for (i, b) in buffer.iter_mut().enumerate() {
        *b = (i % 256) as u8;
    }
    let rows = render_rows(&buffer, 50, 53);
    assert_eq!(rows.len(), 3);
    assert_eq!(rows[0].offset, 800);
    assert_eq!(rows[0].offset_text, "00000320");
    assert_eq!(rows[1].offset, 816);
    assert_eq!(rows[2].offset, 832);
    assert_eq!(
        rows[0].hex_text,
        "20 21 22 23 24 25 26 27 28 29 2a 2b 2c 2d 2e 2f"
    );
    assert_eq!(rows[0].ascii_text, " !\"#$%&'()*+,-./");
}

#[test]
fn empty_range_renders_no_rows() {
    let rows = render_rows(b"abc", 1, 1);
    assert_eq!(rows.len(), 0);
}

#[test]
fn viewer_carries_no_state() {
    let mut viewer = HexViewer::new(b"abc");
    assert_eq!(viewer.title(), "Hex Viewer");
    viewer.notify(gaffrie::Event::FileChanged, b"other");
}
