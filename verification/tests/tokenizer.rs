use vcd_words::tokenizer::{is_ascii_space, split_words};

#[test]
fn splits_on_single_spaces() {
    assert_eq!(split_words(b"a b c"), vec![b"a".to_vec(), b"b".to_vec(), b"c".to_vec()]);
}

#[test]
fn drops_empty_pieces_between_separators() {
    assert_eq!(
        split_words(b"  $var \t wire   8 \r\n"),
        vec![b"$var".to_vec(), b"wire".to_vec(), b"8".to_vec()]
    );
}

#[test]
fn empty_line_has_no_words() {
    assert_eq!(split_words(b""), Vec::<Vec<u8>>::new());
}

#[test]
fn whitespace_line_has_no_words() {
    assert_eq!(split_words(b" \t\r\x0c\n"), Vec::<Vec<u8>>::new());
}

#[test]
fn word_without_separator_is_whole_line() {
    assert_eq!(split_words(b"$end"), vec![b"$end".to_vec()]);
}

#[test]
fn form_feed_separates_but_vertical_tab_does_not() {
    assert_eq!(split_words(b"a\x0cb"), vec![b"a".to_vec(), b"b".to_vec()]);
    assert_eq!(split_words(b"a\x0bb"), vec![b"a\x0bb".to_vec()]);
}

#[test]
fn bytes_above_ascii_belong_to_words() {
    let line = "né x\u{a0}y".as_bytes();
    assert_eq!(split_words(line), vec!["né".as_bytes().to_vec(), "x\u{a0}y".as_bytes().to_vec()]);
}

#[test]
fn split_agrees_with_std_on_ascii_text() {
    let line = "  #100 b1010 !  1\" \t0#  \n";
    let expected: Vec<Vec<u8>> =
        line.split_ascii_whitespace().map(|w| w.as_bytes().to_vec()).collect();
    assert_eq!(split_words(line.as_bytes()), expected);
}

#[test]
fn whitespace_bytes_are_the_five_ascii_ones() {
    for b in 0u8..=255 {
        assert_eq!(is_ascii_space(b), b.is_ascii_whitespace(), "byte {}", b);
    }
}
