use vcd_words::diagnostics::{require_current, require_next, word_text, WordError};
use vcd_words::position::{Cursor, Line, Word};
use vcd_words::text::TextReader;

fn at(line: usize, word: usize) -> Cursor {
    Cursor(Line(line), Word(word))
}

fn all_words(text: &[u8], calls: usize) -> Vec<Option<(Vec<u8>, Cursor)>> {
    let mut r = TextReader::new(text.to_vec());
    let mut out = Vec::new();
    for _ in 0..calls {
        out.push(r.next_word());
    }
    out
}

#[test]
fn two_lines_three_words() {
    let mut r = TextReader::new(b"a b\nc\n".to_vec());
    assert_eq!(r.next_word(), Some((b"a".to_vec(), at(1, 1))));
    assert_eq!(r.next_word(), Some((b"b".to_vec(), at(1, 2))));
    assert_eq!(r.next_word(), Some((b"c".to_vec(), at(2, 1))));
    for _ in 0..5 {
        assert_eq!(r.next_word(), None);
    }
}

#[test]
fn two_blank_lines_give_none() {
    let mut r = TextReader::new(b"\n\n".to_vec());
    assert_eq!(r.next_word(), None);
    assert_eq!(r.next_word(), None);
    assert_eq!(r.curr_word(), None);
}

#[test]
fn empty_text_gives_none() {
    let mut r = TextReader::new(Vec::new());
    assert_eq!(r.next_word(), None);
    assert_eq!(r.next_word(), None);
}

#[test]
fn twenty_five_lines_cross_three_refills() {
    let mut text = Vec::new();
    for n in 1..=25 {
        text.extend_from_slice(format!("word{}\n", n).as_bytes());
    }
    let mut r = TextReader::new(text);
    for n in 1..=25 {
        assert_eq!(r.next_word(), Some((format!("word{}", n).into_bytes(), at(n, 1))));
    }
    assert_eq!(r.next_word(), None);
    assert_eq!(r.next_word(), None);
}

#[test]
fn as_many_words_as_tokens_then_none() {
    let text = "$scope module top $end\n\n  $var wire 1 ! clk $end\n#0\n1!\n#5 0!";
    let expected: Vec<&str> = text.split_ascii_whitespace().collect();
    assert_eq!(expected.len(), 14);
    let got = all_words(text.as_bytes(), expected.len() + 3);
    for (i, w) in expected.iter().enumerate() {
        assert_eq!(got[i].as_ref().map(|e| e.0.clone()), Some(w.as_bytes().to_vec()));
    }
    assert_eq!(&got[expected.len()..], &[None, None, None]);
}

#[test]
fn lines_never_go_back_and_index_restarts_at_one() {
    let got = all_words(b"a b c\n\n d\n e f \n\n\ng", 7);
    let cursors: Vec<Cursor> = got.iter().map(|w| w.as_ref().unwrap().1).collect();
    assert_eq!(
        cursors,
        vec![at(1, 1), at(1, 2), at(1, 3), at(3, 1), at(4, 1), at(4, 2), at(7, 1)]
    );
}

#[test]
fn blank_line_takes_a_line_number() {
    let mut r = TextReader::new(b"first\n \t \nthird\n".to_vec());
    assert_eq!(r.next_word(), Some((b"first".to_vec(), at(1, 1))));
    assert_eq!(r.next_word(), Some((b"third".to_vec(), at(3, 1))));
    assert_eq!(r.next_word(), None);
}

#[test]
fn last_line_may_lack_its_line_feed() {
    let mut r = TextReader::new(b"a\nb c".to_vec());
    assert_eq!(r.next_word(), Some((b"a".to_vec(), at(1, 1))));
    assert_eq!(r.next_word(), Some((b"b".to_vec(), at(2, 1))));
    assert_eq!(r.next_word(), Some((b"c".to_vec(), at(2, 2))));
    assert_eq!(r.next_word(), None);
}

#[test]
fn carriage_return_is_no_part_of_a_word() {
    let mut r = TextReader::new(b"a\r\nb\r\n".to_vec());
    assert_eq!(r.next_word(), Some((b"a".to_vec(), at(1, 1))));
    assert_eq!(r.next_word(), Some((b"b".to_vec(), at(2, 1))));
    assert_eq!(r.next_word(), None);
}

#[test]
fn ten_wordless_lines_give_one_none_before_the_next_word() {
    let mut text = vec![b'\n'; 10];
    text.extend_from_slice(b"late\n");
    let mut r = TextReader::new(text);
    assert_eq!(r.next_word(), None);
    assert_eq!(r.next_word(), Some((b"late".to_vec(), at(11, 1))));
    assert_eq!(r.next_word(), None);
    assert_eq!(r.next_word(), None);
}

#[test]
fn nine_wordless_lines_hide_no_word() {
    let mut text = vec![b'\n'; 9];
    text.extend_from_slice(b"tenth\n");
    let mut r = TextReader::new(text);
    assert_eq!(r.next_word(), Some((b"tenth".to_vec(), at(10, 1))));
    assert_eq!(r.next_word(), None);
}

#[test]
fn current_word_repeats_until_the_next_request() {
    let mut r = TextReader::new(b"x y\n".to_vec());
    assert_eq!(r.curr_word(), None);
    let first = r.next_word();
    assert_eq!(first, Some((b"x".to_vec(), at(1, 1))));
    assert_eq!(r.curr_word(), first);
    assert_eq!(r.curr_word(), first);
    let second = r.next_word();
    assert_eq!(second, Some((b"y".to_vec(), at(1, 2))));
    assert_eq!(r.curr_word(), second);
    assert_eq!(r.next_word(), None);
    assert_eq!(r.curr_word(), second);
}

#[test]
fn required_next_word_reports_the_end_of_input() {
    let mut r = TextReader::new(b"only\n".to_vec());
    assert_eq!(r.require_next_word("header"), Ok((b"only".to_vec(), at(1, 1))));
    assert_eq!(
        r.require_next_word("scope name"),
        Err(WordError::UnexpectedEndOfFile("scope name".to_string()))
    );
}

#[test]
fn required_current_word_reports_a_broken_order() {
    let mut r = TextReader::new(b"only\n".to_vec());
    assert_eq!(
        r.require_curr_word("timescale"),
        Err(WordError::ContractViolation("timescale".to_string()))
    );
    assert_eq!(r.next_word(), Some((b"only".to_vec(), at(1, 1))));
    assert_eq!(r.require_curr_word("timescale"), Ok((b"only".to_vec(), at(1, 1))));
}

#[test]
fn the_two_failures_differ() {
    let end = require_next(None, "rule");
    let order = require_current(None, "rule");
    assert_ne!(end, order);
    assert_eq!(end, Err(WordError::UnexpectedEndOfFile("rule".to_string())));
    assert_eq!(order, Err(WordError::ContractViolation("rule".to_string())));
}

#[test]
fn a_found_word_passes_through() {
    let w = (b"#10".to_vec(), at(4, 1));
    assert_eq!(require_next(Some(w.clone()), "time"), Ok(w.clone()));
    assert_eq!(require_current(Some(w.clone()), "time"), Ok(w));
}

#[test]
fn valid_bytes_become_text() {
    let word = ("n\u{e9}$".as_bytes().to_vec(), at(2, 3));
    assert_eq!(word_text(word), Ok(("n\u{e9}$".to_string(), at(2, 3))));
    assert_eq!(word_text((Vec::new(), at(1, 1))), Ok((String::new(), at(1, 1))));
}

#[test]
fn invalid_bytes_name_their_position() {
    assert_eq!(word_text((vec![b'a', 0xff], at(7, 2))), Err(WordError::InvalidText(at(7, 2))));
    assert_eq!(word_text((vec![0xc3], at(1, 1))), Err(WordError::InvalidText(at(1, 1))));
    assert_eq!(
        word_text((vec![0xed, 0xa0, 0x80], at(1, 4))),
        Err(WordError::InvalidText(at(1, 4)))
    );
}

#[test]
fn words_of_a_text_become_text() {
    let mut r = TextReader::new("$date caf\u{e9}\n".as_bytes().to_vec());
    let first = r.next_word().unwrap();
    let second = r.next_word().unwrap();
    assert_eq!(word_text(first), Ok(("$date".to_string(), at(1, 1))));
    assert_eq!(word_text(second), Ok(("caf\u{e9}".to_string(), at(1, 2))));
}
