use gpio_signalmap::decode::{collect_records, gpio, GpioDesc};
use gpio_signalmap::extract::{extract_signalmap, ExtractError};
use gpio_signalmap::order::sort_by_gpio;
use gpio_signalmap::render::{render_line, render_lines};
use gpio_signalmap::scan::find_aligned_str;

fn put(buf: &mut Vec<u8>, at: usize, bytes: &[u8]) {
    for (k, b) in bytes.iter().enumerate() {
        buf[at + k] = *b;
    }
}

#[test]
fn scan_short_buffers_yield_nothing() {
    for len in 0..4 {
        let v: Vec<u8> = vec![b'G'; len];
        let mut sc = find_aligned_str(&v, "GPIO");
        assert_eq!(sc.next(), None);
    }
}

#[test]
fn scan_yields_aligned_matching_offsets() {
    let mut v: Vec<u8> = vec![1u8; 20];
    put(&mut v, 0, b"GPIO");
    put(&mut v, 6, b"GPIO"); // unaligned: must not be yielded
    put(&mut v, 12, b"GPIO");
    let mut sc = find_aligned_str(&v, "GPIO");
    let mut offsets = Vec::new();
    while let Some(p) = sc.next() {
        offsets.push(p);
    }
    assert_eq!(offsets, vec![0, 12]);
    for p in offsets {
        assert_eq!(p % 4, 0);
        assert_eq!(&v[p..p + 4], b"GPIO");
    }
}

#[test]
fn scan_window_may_end_at_buffer_end() {
    let mut v: Vec<u8> = vec![1u8; 8];
    put(&mut v, 4, b"GPIO");
    let mut sc = find_aligned_str(&v, "GPIO");
    assert_eq!(sc.next(), Some(4));
    assert_eq!(sc.next(), None);
}

#[test]
fn scan_unaligned_only_yields_nothing() {
    let mut v: Vec<u8> = vec![1u8; 24];
    put(&mut v, 1, b"GPIO");
    put(&mut v, 7, b"GPIO");
    put(&mut v, 14, b"GPIO");
    let mut sc = find_aligned_str(&v, "GPIO");
    assert_eq!(sc.next(), None);
}

/// A well-formed two-record table starting at offset 0, ended by a
/// `'>'` byte in the lookahead slot of the third record.
fn two_record_table() -> Vec<u8> {
    let mut v: Vec<u8> = vec![1u8; 32];
    v[0] = 2;
    put(&mut v, 4, b"AB\0");
    v[8] = 1;
    put(&mut v, 12, b"Z\0");
    v[28] = 0x3e;
    v
}

#[test]
fn decode_reads_records_in_buffer_order() {
    let v = two_record_table();
    let recs = collect_records(&v, 0);
    assert_eq!(recs.len(), 2);
    assert_eq!(recs[0].gpio, 2);
    assert_eq!(recs[0].desc, "AB");
    assert_eq!(recs[1].gpio, 1);
    assert_eq!(recs[1].desc, "Z");
}

#[test]
fn decode_twice_yields_identical_sequences() {
    let v = two_record_table();
    let first = collect_records(&v, 0);
    let second = collect_records(&v, 0);
    assert_eq!(first, second);
}

#[test]
fn decode_stops_on_end_tag() {
    let mut v: Vec<u8> = vec![1u8; 20];
    v[12] = 0x3e;
    let mut it = gpio(&v, 0);
    assert!(it.next().is_none());
}

#[test]
fn decode_does_not_stop_on_0x38() {
    // Only the '>' byte ends the table; 0x38 ('8') is an ordinary byte.
    let mut v: Vec<u8> = vec![1u8; 20];
    v[0] = 4;
    v[12] = 0x38;
    put(&mut v, 4, b"OK\0");
    let mut it = gpio(&v, 0);
    let g = it.next().unwrap();
    assert_eq!(g.gpio, 4);
    assert_eq!(g.desc, "OK");
}

#[test]
fn decode_stops_when_no_terminator_in_window() {
    let mut v: Vec<u8> = vec![b'A'; 44];
    v[0] = 9;
    // bytes 4..36 hold no zero: the 32-byte scan window has no terminator
    let mut it = gpio(&v, 0);
    assert!(it.next().is_none());
}

#[test]
fn terminator_at_last_window_index_is_found() {
    let mut v: Vec<u8> = vec![b'a'; 40];
    v[0] = 1;
    v[35] = 0; // scan index 31, the last one the window reaches
    let mut it = gpio(&v, 0);
    let g = it.next().unwrap();
    assert_eq!(g.gpio, 1);
    assert_eq!(g.desc.len(), 31);
    assert_eq!(it.position(), 4 + 32);
}

#[test]
fn decode_stops_when_description_leaves_buffer() {
    let mut v: Vec<u8> = vec![b'A'; 20];
    v[0] = 9;
    // no zero byte anywhere before the buffer ends
    let mut it = gpio(&v, 0);
    assert!(it.next().is_none());
}

#[test]
fn cursor_advances_by_padded_description_length() {
    // description of scanned length 5: the cursor advance past the gpio
    // slot is 8, the next multiple of 4
    let mut v: Vec<u8> = vec![1u8; 16];
    v[0] = 3;
    put(&mut v, 4, b"HELLO\0");
    let mut it = gpio(&v, 0);
    let g = it.next().unwrap();
    assert_eq!(g.gpio, 3);
    assert_eq!(g.desc, "HELLO");
    assert_eq!(it.position(), 4 + 8);
}

#[test]
fn cursor_advance_multiple_of_4_for_each_length() {
    for len in 0..9usize {
        let mut v: Vec<u8> = vec![1u8; 24];
        v[0] = 3;
        for k in 0..len {
            v[4 + k] = b'a';
        }
        v[4 + len] = 0;
        let mut it = gpio(&v, 0);
        match it.next() {
            Some(_) => {
                let adv = it.position() - 4;
                assert_eq!(adv % 4, 0);
                assert_eq!(adv, 4 * ((len + 3) / 4));
            }
            None => panic!("record expected for length {}", len),
        }
    }
}

#[test]
fn empty_description_advances_only_past_gpio_slot() {
    let mut v: Vec<u8> = vec![1u8; 16];
    v[0] = 8;
    v[4] = 0;
    let mut it = gpio(&v, 0);
    let g = it.next().unwrap();
    assert_eq!(g.gpio, 8);
    assert_eq!(g.desc, "");
    assert_eq!(it.position(), 4);
}

#[test]
fn descriptions_are_trimmed() {
    let mut v: Vec<u8> = vec![1u8; 16];
    v[0] = 6;
    put(&mut v, 4, b" SPC \0");
    let mut it = gpio(&v, 0);
    let g = it.next().unwrap();
    assert_eq!(g.desc, "SPC");
}

#[test]
fn invalid_utf8_is_replaced_not_kept() {
    let mut v: Vec<u8> = vec![1u8; 16];
    v[0] = 6;
    put(&mut v, 4, &[0xFF, b'A', 0]);
    let mut it = gpio(&v, 0);
    let g = it.next().unwrap();
    assert_eq!(g.desc, "\u{FFFD}A");
    // the replacement character is 3 bytes, so the decoded length is 4
    // and the advance past the gpio slot stays 4
    assert_eq!(it.position(), 8);
}

#[test]
fn sort_orders_by_gpio_and_keeps_records() {
    let mut recs = vec![
        GpioDesc { gpio: 7, desc: String::from("a") },
        GpioDesc { gpio: 3, desc: String::from("b") },
        GpioDesc { gpio: 200, desc: String::from("c") },
        GpioDesc { gpio: 3, desc: String::from("d") },
        GpioDesc { gpio: 0, desc: String::from("e") },
    ];
    sort_by_gpio(&mut recs);
    for w in recs.windows(2) {
        assert!(w[0].gpio <= w[1].gpio);
    }
    assert_eq!(recs.len(), 5);
    let mut descs: Vec<&str> = recs.iter().map(|g| g.desc.as_str()).collect();
    descs.sort();
    assert_eq!(descs, vec!["a", "b", "c", "d", "e"]);
    assert_eq!(recs.iter().filter(|g| g.gpio == 3).count(), 2);
}

#[test]
fn render_line_formats_each_field() {
    let line = render_line(&GpioDesc { gpio: 255, desc: String::from("X") });
    assert_eq!(line, "255\tgpios = <&gpio7 31 GPIO_ACTIVE_X>;\t/* gpio_255 X */");
    let line = render_line(&GpioDesc { gpio: 0, desc: String::from("X") });
    assert_eq!(line, "000\tgpios = <&gpio0 0 GPIO_ACTIVE_X>;\t/* gpio_0   X */");
    let line = render_line(&GpioDesc { gpio: 42, desc: String::from("X") });
    assert_eq!(line, "042\tgpios = <&gpio1 10 GPIO_ACTIVE_X>;\t/* gpio_42  X */");
}

/// The worked end-to-end case: tag at 8 and 40, table at 60 with one
/// record, end tag at the lookahead slot of the second record.
fn example_blob() -> Vec<u8> {
    let mut v: Vec<u8> = vec![1u8; 92];
    put(&mut v, 8, b"GPIO");
    put(&mut v, 40, b"GPIO");
    v[60] = 5;
    put(&mut v, 64, b"VOLUME_UP\0");
    v[88] = 0x3e;
    v
}

#[test]
fn end_to_end_single_record() {
    let v = example_blob();
    let recs = extract_signalmap(&v).unwrap();
    assert_eq!(recs.len(), 1);
    assert_eq!(recs[0].gpio, 5);
    assert_eq!(recs[0].desc, "VOLUME_UP");
    let lines = render_lines(&recs);
    assert_eq!(lines.len(), 1);
    assert_eq!(lines[0], "005\tgpios = <&gpio0 5 GPIO_ACTIVE_X>;\t/* gpio_5   VOLUME_UP */");
}

#[test]
fn single_tag_occurrence_is_an_error() {
    let mut v: Vec<u8> = vec![1u8; 92];
    put(&mut v, 8, b"GPIO");
    assert_eq!(extract_signalmap(&v), Err(ExtractError::TagNotFound));
}

#[test]
fn no_tag_occurrence_is_an_error() {
    let v: Vec<u8> = vec![1u8; 92];
    assert_eq!(extract_signalmap(&v), Err(ExtractError::TagNotFound));
}

#[test]
fn table_starting_past_buffer_end_is_empty() {
    let mut v: Vec<u8> = vec![1u8; 8];
    put(&mut v, 0, b"GPIO");
    put(&mut v, 4, b"GPIO");
    let recs = extract_signalmap(&v).unwrap();
    assert!(recs.is_empty());
}

#[test]
fn extract_sorts_decoded_records() {
    let mut v: Vec<u8> = vec![1u8; 64];
    put(&mut v, 0, b"GPIO");
    put(&mut v, 4, b"GPIO");
    // table at 4 + 20 = 24
    v[24] = 9;
    put(&mut v, 28, b"HI\0");
    v[32] = 2;
    put(&mut v, 36, b"LO\0");
    v[52] = 0x3e;
    let recs = extract_signalmap(&v).unwrap();
    assert_eq!(recs.len(), 2);
    assert_eq!(recs[0].gpio, 2);
    assert_eq!(recs[0].desc, "LO");
    assert_eq!(recs[1].gpio, 9);
    assert_eq!(recs[1].desc, "HI");
}
