use libc_strftime::output::{decode_output, OUTPUT_CAPACITY};

fn buffer_with(text: &[u8], fill: u8) -> [u8; OUTPUT_CAPACITY] {
    let mut buf = [fill; OUTPUT_CAPACITY];
    buf[..text.len()].copy_from_slice(text);
    buf
}

#[test]
fn capacity_is_one_hundred_bytes() {
    assert_eq!(OUTPUT_CAPACITY, 100);
}

#[test]
fn reported_bytes_become_the_text() {
    let written = b"Wed 07 Aug 2019 04:19:56 AM GMT";
    let buf = buffer_with(written, 0);
    assert_eq!(decode_output(&buf, written.len()), "Wed 07 Aug 2019 04:19:56 AM GMT");
}

#[test]
fn bytes_behind_the_count_never_show() {
    let written = b"Wed Aug  7 06:19:56 2019";
    let zeroed = buffer_with(written, 0);
    let dirty = buffer_with(written, b'#');
    let broken = buffer_with(written, 0xff);
    assert_eq!(decode_output(&zeroed, written.len()), "Wed Aug  7 06:19:56 2019");
    assert_eq!(decode_output(&dirty, written.len()), "Wed Aug  7 06:19:56 2019");
    assert_eq!(decode_output(&broken, written.len()), "Wed Aug  7 06:19:56 2019");
}

#[test]
fn count_cuts_the_text_short() {
    let buf = buffer_with(b"2019-08-07", b'?');
    assert_eq!(decode_output(&buf, 4), "2019");
    assert_eq!(decode_output(&buf, 7), "2019-08");
}

#[test]
fn zero_count_gives_empty_text() {
    let buf = buffer_with(b"leftover", b'x');
    assert_eq!(decode_output(&buf, 0), "");
    assert_eq!(decode_output(&[], 0), "");
}

#[test]
fn whole_buffer_may_be_reported() {
    let buf = [b'a'; OUTPUT_CAPACITY];
    assert_eq!(decode_output(&buf, OUTPUT_CAPACITY), "a".repeat(100));
}

#[test]
fn utf8_names_are_decoded() {
    let written = "mer 07 aoû 2019 06:19:56 CEST".as_bytes();
    let buf = buffer_with(written, 0);
    assert_eq!(written.len(), 30);
    assert_eq!(decode_output(&buf, written.len()), "mer 07 aoû 2019 06:19:56 CEST");
}

#[test]
fn ill_formed_bytes_are_replaced_not_refused() {
    assert_eq!(decode_output(&[b'a', 0xff, b'b'], 3), "a\u{fffd}b");
    assert_eq!(decode_output(&[0xc3], 1), "\u{fffd}");
    assert_eq!(decode_output(&[0xed, 0xa0, 0x80], 3), "\u{fffd}\u{fffd}\u{fffd}");
}

#[test]
fn latin1_month_name_is_replaced_where_it_is_not_utf8() {
    let written = [b'a', b'o', 0xfb, b' ', b'2', b'0', b'1', b'9'];
    assert_eq!(decode_output(&written, 8), "ao\u{fffd} 2019");
}

#[test]
fn count_that_splits_a_character_leaves_a_replacement() {
    let buf = buffer_with("aoû".as_bytes(), 0);
    assert_eq!(decode_output(&buf, 3), "ao\u{fffd}");
    assert_eq!(decode_output(&buf, 4), "aoû");
}

#[test]
fn nul_inside_the_count_is_kept() {
    assert_eq!(decode_output(&[b'a', 0, b'b'], 3), "a\0b");
}
