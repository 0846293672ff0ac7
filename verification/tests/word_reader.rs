use vcd_words::position::{Cursor, Line, Word};
use vcd_words::reader::{Step, WordReader, BATCH_LINES};

fn at(line: usize, word: usize) -> Cursor {
    Cursor(Line(line), Word(word))
}

fn is_need_line(step: &Step) -> bool {
    matches!(step, Step::NeedLine)
}

fn is_end(step: &Step) -> bool {
    matches!(step, Step::End)
}

fn word(step: Step) -> (Vec<u8>, Cursor) {
    match step {
        Step::Word(text, cursor) => (text, cursor),
        other => panic!("expected a word, got {:?}", other),
    }
}

#[test]
fn batch_is_ten_lines() {
    assert_eq!(BATCH_LINES, 10);
}

#[test]
fn new_reader_asks_for_a_line() {
    let mut r = WordReader::new();
    assert_eq!(r.lines_read(), 0);
    assert!(!r.needs_line());
    assert!(!r.at_end());
    assert!(is_need_line(&r.next_word()));
    assert!(r.needs_line());
}

#[test]
fn reader_goes_on_asking_during_a_refill() {
    let mut r = WordReader::new();
    assert!(is_need_line(&r.next_word()));
    assert!(is_need_line(&r.next_word()));
    assert!(is_need_line(&r.supply_line(b"a\n")));
    assert!(is_need_line(&r.next_word()));
    assert_eq!(r.lines_read(), 1);
}

#[test]
fn words_wait_until_the_batch_is_full() {
    let mut r = WordReader::new();
    assert!(is_need_line(&r.next_word()));
    for n in 1..BATCH_LINES {
        let step = r.supply_line(format!("w{}\n", n).as_bytes());
        assert!(is_need_line(&step), "line {}", n);
    }
    let step = r.supply_line(b"w10 x\n");
    assert_eq!(word(step), (b"w1".to_vec(), at(1, 1)));
    assert_eq!(r.lines_read(), 10);
    assert!(!r.needs_line());
    for n in 2..BATCH_LINES {
        assert_eq!(word(r.next_word()), (format!("w{}", n).into_bytes(), at(n, 1)));
    }
    assert_eq!(word(r.next_word()), (b"w10".to_vec(), at(10, 1)));
    assert_eq!(word(r.next_word()), (b"x".to_vec(), at(10, 2)));
    assert!(is_need_line(&r.next_word()));
}

#[test]
fn empty_line_ends_the_stream() {
    let mut r = WordReader::new();
    assert!(is_need_line(&r.next_word()));
    assert!(is_need_line(&r.supply_line(b"a b\n")));
    let step = r.supply_line(b"");
    assert_eq!(word(step), (b"a".to_vec(), at(1, 1)));
    assert!(r.at_end());
    assert_eq!(r.lines_read(), 1);
    assert_eq!(word(r.next_word()), (b"b".to_vec(), at(1, 2)));
    assert!(is_end(&r.next_word()));
    assert!(is_end(&r.next_word()));
    assert!(!r.needs_line());
}

#[test]
fn end_of_stream_at_once_gives_end() {
    let mut r = WordReader::new();
    assert!(is_need_line(&r.next_word()));
    assert!(is_end(&r.supply_line(b"")));
    assert!(is_end(&r.next_word()));
    assert_eq!(r.curr_word(), None);
    assert_eq!(r.lines_read(), 0);
}

#[test]
fn wordless_batch_gives_end_without_end_of_stream() {
    let mut r = WordReader::new();
    assert!(is_need_line(&r.next_word()));
    for _ in 1..BATCH_LINES {
        assert!(is_need_line(&r.supply_line(b"\n")));
    }
    assert!(is_end(&r.supply_line(b"  \n")));
    assert!(!r.at_end());
    assert!(is_need_line(&r.next_word()));
    assert!(is_need_line(&r.supply_line(b"late\n")));
    assert_eq!(word(r.supply_line(b"")), (b"late".to_vec(), at(11, 1)));
}

#[test]
fn current_word_is_the_one_handed_out_last() {
    let mut r = WordReader::new();
    assert_eq!(r.curr_word(), None);
    assert!(is_need_line(&r.next_word()));
    assert_eq!(r.curr_word(), None);
    assert!(is_need_line(&r.supply_line(b"x y\n")));
    assert_eq!(r.curr_word(), None);
    let first = word(r.supply_line(b""));
    assert_eq!(r.curr_word(), Some(first.clone()));
    assert_eq!(r.curr_word(), Some(first));
    let second = word(r.next_word());
    assert_eq!(second, (b"y".to_vec(), at(1, 2)));
    assert_eq!(r.curr_word(), Some(second.clone()));
    assert!(is_end(&r.next_word()));
    assert_eq!(r.curr_word(), Some(second));
}
