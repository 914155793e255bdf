use hexfmt::format::format_bytes;
use hexfmt::format::Config;

#[test]
fn default_three_bytes() {
    let input: Vec<u8> = vec![0x00, 0x01, 0x02];
    let cfg = Config::default();
    assert_eq!(format_bytes(&input, &cfg), b"000102\n".to_vec());
}

#[test]
fn default_concatenates_all_bytes() {
    let input: Vec<u8> = vec![0x00, 0x01, 0x02, 0x03, 0x04, 0x05, 0xde, 0xad];
    let cfg = Config::default();
    assert_eq!(format_bytes(&input, &cfg), b"000102030405dead\n".to_vec());
}

#[test]
fn empty_input_single_newline() {
    let input: Vec<u8> = Vec::new();
    let cfg = Config::default();
    assert_eq!(format_bytes(&input, &cfg), b"\n".to_vec());
}

#[test]
fn empty_input_grouped_single_newline() {
    let input: Vec<u8> = Vec::new();
    let mut cfg = Config::default();
    cfg.group = Some(4);
    assert_eq!(format_bytes(&input, &cfg), b"\n".to_vec());
}

#[test]
fn offset_past_end_single_newline() {
    let input: Vec<u8> = vec![1, 2, 3];
    let mut cfg = Config::default();
    cfg.offset = 5;
    assert_eq!(format_bytes(&input, &cfg), b"\n".to_vec());
}

#[test]
fn offset_past_end_grouped_single_newline() {
    let input: Vec<u8> = vec![1, 2, 3];
    let mut cfg = Config::default();
    cfg.offset = 5;
    cfg.group = Some(2);
    assert_eq!(format_bytes(&input, &cfg), b"\n".to_vec());
}

#[test]
fn grouped_pairs() {
    let input: Vec<u8> = vec![0xab, 0xcd, 0xef, 0x01];
    let mut cfg = Config::default();
    cfg.group = Some(2);
    assert_eq!(format_bytes(&input, &cfg), b"abcd\nef01\n".to_vec());
}

#[test]
fn offset_skips_bytes() {
    let input: Vec<u8> = vec![0, 1, 2, 3, 4];
    let mut cfg = Config::default();
    cfg.offset = 2;
    assert_eq!(format_bytes(&input, &cfg), b"020304\n".to_vec());
}

#[test]
fn prefix_and_postfix_wrap_each_byte() {
    let input: Vec<u8> = vec![0x10];
    let mut cfg = Config::default();
    cfg.prefix = b"0x".to_vec();
    cfg.postfix = b",".to_vec();
    assert_eq!(format_bytes(&input, &cfg), b"0x10,\n".to_vec());
}

#[test]
fn prefix_and_postfix_on_every_byte() {
    let input: Vec<u8> = vec![0x10, 0x20];
    let mut cfg = Config::default();
    cfg.prefix = b"<".to_vec();
    cfg.postfix = b">".to_vec();
    assert_eq!(format_bytes(&input, &cfg), b"<10><20>\n".to_vec());
}

#[test]
fn single_column_rows_of_group_size() {
    let input: Vec<u8> = vec![0, 1, 2, 3, 4, 5, 6];
    let mut cfg = Config::default();
    cfg.group = Some(3);
    assert_eq!(format_bytes(&input, &cfg), b"000102\n030405\n06\n".to_vec());
}

#[test]
fn columns_break_after_full_row() {
    let input: Vec<u8> = vec![0, 1, 2, 3, 4, 5, 6, 7];
    let mut cfg = Config::default();
    cfg.group = Some(2);
    cfg.columns = 2;
    assert_eq!(format_bytes(&input, &cfg), b"0001 0203\n0405 0607\n".to_vec());
}

#[test]
fn row_breaks_follow_absolute_position() {
    let input: Vec<u8> = vec![0, 1, 2, 3, 4, 5, 6, 7];
    let mut cfg = Config::default();
    cfg.group = Some(2);
    cfg.columns = 2;
    cfg.offset = 2;
    assert_eq!(format_bytes(&input, &cfg), b"0203\n0405 0607\n".to_vec());
}

#[test]
fn length_beyond_buffer_is_clamped() {
    let input: Vec<u8> = vec![1, 2, 3];
    let mut with_length = Config::default();
    with_length.length = Some(100);
    let unset = Config::default();
    assert_eq!(
        format_bytes(&input, &with_length),
        format_bytes(&input, &unset)
    );
}

#[test]
fn length_beyond_buffer_is_clamped_grouped() {
    let input: Vec<u8> = vec![1, 2, 3, 4, 5];
    let mut with_length = Config::default();
    with_length.group = Some(2);
    with_length.length = Some(9999);
    let mut unset = Config::default();
    unset.group = Some(2);
    assert_eq!(
        format_bytes(&input, &with_length),
        format_bytes(&input, &unset)
    );
}

#[test]
fn length_cuts_the_window() {
    let input: Vec<u8> = vec![0x10, 0x20, 0x30];
    let mut cfg = Config::default();
    cfg.length = Some(2);
    assert_eq!(format_bytes(&input, &cfg), b"1020\n".to_vec());
}

#[test]
fn group_larger_than_buffer() {
    let input: Vec<u8> = vec![1, 2];
    let mut cfg = Config::default();
    cfg.group = Some(5);
    assert_eq!(format_bytes(&input, &cfg), b"0102\n".to_vec());
}

#[test]
fn decoration_inside_groups() {
    let input: Vec<u8> = vec![1, 2, 3];
    let mut cfg = Config::default();
    cfg.group = Some(2);
    cfg.prefix = b"p".to_vec();
    assert_eq!(format_bytes(&input, &cfg), b"p01p02\np03\n".to_vec());
}

#[test]
fn offset_length_and_group_together() {
    let input: Vec<u8> = vec![0, 1, 2, 3, 4, 5, 6, 7, 8, 9];
    let mut cfg = Config::default();
    cfg.offset = 3;
    cfg.length = Some(8);
    cfg.group = Some(3);
    assert_eq!(format_bytes(&input, &cfg), b"030405\n0607\n".to_vec());
}

#[test]
fn hex_digits_are_lowercase_and_padded() {
    let input: Vec<u8> = vec![0x00, 0x0f, 0xff, 0xa0];
    let cfg = Config::default();
    assert_eq!(format_bytes(&input, &cfg), b"000fffa0\n".to_vec());
}
