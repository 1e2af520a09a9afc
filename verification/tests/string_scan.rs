use gaffrie::string_finder::{
    scan, sort_found_strings, FoundString, StringFinder, StringsSorting,
};

#[test]
fn scenario_min_length_five_finds_only_the_long_run() {
    let buffer = b"AAAA\x00BBBBB\x00C";
    let found = scan(buffer, 5);
    assert_eq!(found.len(), 1);
    assert_eq!(found[0].address, 5);
    assert_eq!(found[0].length, 5);
    assert_eq!(found[0].string, "BBBBB");
}

#[test]
fn scenario_min_length_four_also_finds_the_leading_run() {
    let buffer = b"AAAA\x00BBBBB\x00C";
    let found = scan(buffer, 4);
    assert_eq!(found.len(), 2);
    assert_eq!(found[0].address, 0);
    assert_eq!(found[0].length, 4);
    assert_eq!(found[0].string, "AAAA");
    assert_eq!(found[1].address, 5);
    assert_eq!(found[1].length, 5);
    assert_eq!(found[1].string, "BBBBB");
}

#[test]
fn a_run_reaching_the_end_of_the_buffer_closes_and_is_reported() {
    let found = scan(b"\x00hello", 5);
    assert_eq!(found.len(), 1);
    assert_eq!(found[0].address, 1);
    assert_eq!(found[0].length, 5);
    assert_eq!(found[0].string, "hello");
}

#[test]
fn empty_buffer_yields_no_strings() {
    let found = scan(b"", 1);
    assert_eq!(found.len(), 0);
}

#[test]
fn non_printable_buffer_yields_no_strings() {
    let found = scan(&[0u8, 1, 2, 3, 255, 254, 7, 8], 1);
    assert_eq!(found.len(), 0);
}

#[test]
fn whitespace_counts_as_printable() {
    let found = scan(b"\x01a b\tc\x02", 5);
    assert_eq!(found.len(), 1);
    assert_eq!(found[0].address, 1);
    assert_eq!(found[0].length, 5);
    assert_eq!(found[0].string, "a b\tc");
}

#[test]
fn every_found_string_is_maximal_and_long_enough() {
    let buffer = b"ab\x00cdef\x01ghi\x02jklmn";
    let found = scan(buffer, 3);
    for f in &found {
        assert!(f.length >= 3);
        assert!(f.address + f.length <= buffer.len());
        for j in f.address..f.address + f.length {
            let b = buffer[j];
            assert!(b.is_ascii_graphic() || b.is_ascii_whitespace());
        }
        if f.address > 0 {
            let b = buffer[f.address - 1];
            assert!(!(b.is_ascii_graphic() || b.is_ascii_whitespace()));
        }
        if f.address + f.length < buffer.len() {
            let b = buffer[f.address + f.length];
            assert!(!(b.is_ascii_graphic() || b.is_ascii_whitespace()));
        }
    }
    assert_eq!(found.len(), 3);
    assert_eq!(found[0].string, "cdef");
    assert_eq!(found[1].string, "ghi");
    assert_eq!(found[2].string, "jklmn");
}

fn sample(address: usize, length: usize, text: &str) -> FoundString {
    FoundString { address, length, string: String::from(text) }
}

#[test]
fn address_sort_orders_reverse_each_other_without_ties() {
    let make = || {
        vec![
            sample(30, 2, "aa"),
            sample(10, 3, "bbb"),
            sample(20, 1, "c"),
        ]
    };
    let mut asc = make();
    sort_found_strings(&mut asc, StringsSorting::AddressAsc);
    let mut desc = make();
    sort_found_strings(&mut desc, StringsSorting::AddressDesc);
    let asc_addresses: Vec<usize> = asc.iter().map(|f| f.address).collect();
    let mut desc_addresses: Vec<usize> = desc.iter().map(|f| f.address).collect();
    desc_addresses.reverse();
    assert_eq!(asc_addresses, vec![10, 20, 30]);
    assert_eq!(asc_addresses, desc_addresses);
}

#[test]
fn length_sort_keeps_the_original_order_of_ties() {
    let mut v = vec![
        sample(0, 2, "xy"),
        sample(5, 1, "a"),
        sample(9, 2, "pq"),
        sample(3, 2, "mn"),
    ];
    sort_found_strings(&mut v, StringsSorting::LengthAsc);
    assert_eq!(v[0].string, "a");
    // the three two-byte ties stay in scan order
    assert_eq!(v[1].string, "xy");
    assert_eq!(v[2].string, "pq");
    assert_eq!(v[3].string, "mn");
}

#[test]
fn finder_scans_on_creation_with_default_minimum_five() {
    let finder = StringFinder::new(b"tiny\x00longer words");
    assert_eq!(finder.string_min_length, 5);
    assert_eq!(finder.strings.len(), 1);
    assert_eq!(finder.strings[0].string, "longer words");
    assert_eq!(finder.title(), "Strings");
}

#[test]
fn toggling_the_address_column_flips_between_ascending_and_descending() {
    let buffer = b"one11\x00two22\x00three";
    let mut finder = StringFinder::new(buffer);
    assert!(matches!(finder.current_sorting, StringsSorting::AddressAsc));
    finder.toggle_address_sorting();
    assert!(matches!(finder.current_sorting, StringsSorting::AddressDesc));
    let addresses: Vec<usize> = finder.strings.iter().map(|f| f.address).collect();
    assert_eq!(addresses, vec![12, 6, 0]);
    finder.toggle_address_sorting();
    assert!(matches!(finder.current_sorting, StringsSorting::AddressAsc));
    let addresses: Vec<usize> = finder.strings.iter().map(|f| f.address).collect();
    assert_eq!(addresses, vec![0, 6, 12]);
}

#[test]
fn toggling_the_length_column_sorts_by_length() {
    let buffer = b"sixsix\x00ten_chars_\x00short";
    let mut finder = StringFinder::new(buffer);
    finder.toggle_length_sorting();
    assert!(matches!(finder.current_sorting, StringsSorting::LengthAsc));
    let lengths: Vec<usize> = finder.strings.iter().map(|f| f.length).collect();
    assert_eq!(lengths, vec![5, 6, 10]);
    finder.toggle_length_sorting();
    assert!(matches!(finder.current_sorting, StringsSorting::LengthDesc));
    let lengths: Vec<usize> = finder.strings.iter().map(|f| f.length).collect();
    assert_eq!(lengths, vec![10, 6, 5]);
}

#[test]
fn lowering_the_minimum_length_admits_shorter_runs() {
    let buffer = b"abc\x00defgh";
    let mut finder = StringFinder::new(buffer);
    assert_eq!(finder.strings.len(), 1);
    finder.set_min_length(buffer, 3);
    assert_eq!(finder.string_min_length, 3);
    assert_eq!(finder.strings.len(), 2);
    assert_eq!(finder.strings[0].string, "abc");
    assert_eq!(finder.strings[1].string, "defgh");
}

#[test]
fn notify_rescans_against_the_new_buffer() {
    let mut finder = StringFinder::new(b"first buffer text");
    assert_eq!(finder.strings.len(), 1);
    finder.notify_event(gaffrie::Event::FileChanged, b"\x00\x01\x02");
    assert_eq!(finder.strings.len(), 0);
}
