//! Reading words from a text held in memory.
//!
//! A [`TextReader`] owns the bytes of a whole text and a [`WordReader`]. It
//! cuts the text into physical lines, each ending with its line feed, and
//! feeds them to the word reader whenever that asks for one.

use crate::diagnostics::{require_current, require_next, WordError};
use crate::position::{follows, Cursor};
use crate::reader::{
    cursor_of, found_view, initial_state, line_entries, take_front, well_formed, Outcome,
    ReaderState, Step, WordReader, BATCH_LINES,
};
use crate::tokenizer::words;
use vstd::prelude::*;
use vstd::slice::slice_subrange;

verus! {

/// The length of the first physical line of `s`, its line feed included; the
/// last line of a text may lack the line feed.
pub open spec fn line_len(s: Seq<u8>) -> nat
    decreases s.len(),
{
    if s.len() == 0 {
        0
    } else if s[0] == 0x0a {
        1
    } else {
        1 + line_len(s.skip(1))
    }
}

/// The first line of a text that is not empty holds at least one byte, and no
/// more than the text.
pub proof fn lemma_line_len_bound(s: Seq<u8>)
    ensures
        line_len(s) <= s.len(),
        s.len() > 0 ==> line_len(s) >= 1,
    decreases s.len(),
{
    if s.len() > 0 && s[0] != 0x0a {
        lemma_line_len_bound(s.skip(1));
    }
}

/// Every word of `text` with its position, in file order, where the first
/// line of `text` has the number `first`.
pub open spec fn text_entries(text: Seq<u8>, first: nat) -> Seq<(Seq<u8>, Cursor)>
    decreases text.len(),
    via text_entries_terminates
{
    if text.len() == 0 {
        Seq::empty()
    } else {
        let n = line_len(text) as int;
        line_entries(text.take(n), first) + text_entries(text.skip(n), first + 1)
    }
}

#[via_fn]
proof fn text_entries_terminates(text: Seq<u8>, first: nat) {
    lemma_line_len_bound(text);
}

/// The bytes of each word of a sequence of words with positions.
pub open spec fn entry_texts(e: Seq<(Seq<u8>, Cursor)>) -> Seq<Seq<u8>> {
    Seq::new(e.len(), |i: int| e[i].0)
}

/// The first line of a text ends with a line feed or with the text.
pub proof fn lemma_line_ends(s: Seq<u8>)
    requires
        s.len() > 0,
    ensures
        1 <= line_len(s) <= s.len(),
        line_len(s) == s.len() || s[line_len(s) - 1] == 0x0a,
    decreases s.len(),
{
    let t = s.skip(1);
    if s[0] != 0x0a {
        if t.len() > 0 {
            lemma_line_ends(t);
            assert(t[line_len(t) - 1] == s[line_len(s) - 1]);
        } else {
            assert(line_len(t) == 0);
        }
    }
}

/// Cutting a text into lines loses no word and makes none: the words of its
/// lines, in order, are the words of the text as a whole.
pub proof fn lemma_lines_keep_words(text: Seq<u8>, first: nat)
    ensures
        entry_texts(text_entries(text, first)) == words(text),
    decreases text.len(),
{
    if text.len() == 0 {
        assert(entry_texts(text_entries(text, first)) =~= words(text));
    } else {
        lemma_line_ends(text);
        let n = line_len(text) as int;
        let line = text.take(n);
        let rest = text.skip(n);
        lemma_lines_keep_words(rest, first + 1);
        assert(text =~= line + rest);
        assert(entry_texts(line_entries(line, first)) =~= words(line));
        if n == text.len() {
            assert(text =~= line);
            assert(words(rest) =~= Seq::empty());
            assert(words(line) + words(rest) =~= words(text));
        } else {
            assert(line[n - 1] == text[n - 1]);
            crate::tokenizer::lemma_words_concat(line, rest);
        }
        assert(entry_texts(text_entries(text, first)) =~= entry_texts(line_entries(line, first))
            + entry_texts(text_entries(rest, first + 1)));
    }
}

/// How many bytes the first `k` lines of `text` take; all of them where the
/// text has fewer lines.
pub open spec fn first_lines_len(text: Seq<u8>, k: nat) -> nat
    decreases k,
{
    if k == 0 || text.len() == 0 {
        0
    } else {
        let n = line_len(text);
        n + first_lines_len(text.skip(n as int), (k - 1) as nat)
    }
}

/// How many lines `text` has, counted up to `k`.
pub open spec fn lines_in(text: Seq<u8>, k: nat) -> nat
    decreases k,
{
    if k == 0 || text.len() == 0 {
        0
    } else {
        1 + lines_in(text.skip(line_len(text) as int), (k - 1) as nat)
    }
}

/// The words of the first `k` lines of `text` with their positions, where the
/// first line has the number `first`.
pub open spec fn first_lines_entries(text: Seq<u8>, first: nat, k: nat) -> Seq<(Seq<u8>, Cursor)>
    decreases k,
{
    if k == 0 || text.len() == 0 {
        Seq::empty()
    } else {
        let n = line_len(text) as int;
        line_entries(text.take(n), first) + first_lines_entries(
            text.skip(n),
            first + 1,
            (k - 1) as nat,
        )
    }
}

/// A text reader, as contracts speak of it.
pub struct TextState {
    /// The whole text.
    pub text: Seq<u8>,
    /// How many bytes of it were cut into lines so far.
    pub pos: nat,
    /// The word reader that the lines were fed to.
    pub reader: ReaderState,
}

/// What holds of every text reader between two calls.
pub open spec fn text_well_formed(s: TextState) -> bool {
    &&& well_formed(s.reader)
    &&& s.reader.wanted == 0
    &&& s.reader.lines <= s.pos <= s.text.len() <= usize::MAX
    &&& s.reader.ended ==> s.pos == s.text.len()
}

/// The words still to come: those read ahead, then those of the lines not yet
/// cut from the text.
pub open spec fn remaining(s: TextState) -> Seq<(Seq<u8>, Cursor)> {
    s.reader.pending + text_entries(s.text.skip(s.pos as int), s.reader.lines + 1)
}

/// The word that an answer holds, if it holds one.
pub open spec fn word_of(o: Outcome) -> Option<(Seq<u8>, Cursor)> {
    match o {
        Outcome::Word(text, cursor) => Some((text, cursor)),
        _ => None,
    }
}

/// One request for the next word. A word read ahead is handed out. With none
/// read ahead, one batch of lines is cut from the text and split, and the
/// first of its words is handed out; where the batch holds no word, or the
/// text has ended, there is none.
pub open spec fn text_step(s: TextState) -> (TextState, Option<(Seq<u8>, Cursor)>) {
    let r = s.reader;
    if r.pending.len() > 0 || r.ended {
        (TextState { reader: take_front(r).0, ..s }, word_of(take_front(r).1))
    } else {
        let rest = s.text.skip(s.pos as int);
        let count = lines_in(rest, BATCH_LINES as nat);
        let filled = ReaderState {
            pending: first_lines_entries(rest, r.lines + 1, BATCH_LINES as nat),
            current: r.current,
            ended: count < BATCH_LINES,
            lines: r.lines + count,
            wanted: 0,
        };
        (
            TextState {
                text: s.text,
                pos: s.pos + first_lines_len(rest, BATCH_LINES as nat),
                reader: take_front(filled).0,
            },
            word_of(take_front(filled).1),
        )
    }
}

/// The words of a text are those of its first `k` lines, then those of the
/// lines after them.
pub proof fn lemma_batch_split(text: Seq<u8>, first: nat, k: nat)
    ensures
        first_lines_len(text, k) <= text.len(),
        lines_in(text, k) <= k,
        lines_in(text, k) <= first_lines_len(text, k),
        lines_in(text, k) < k ==> first_lines_len(text, k) == text.len(),
        text_entries(text, first) == first_lines_entries(text, first, k) + text_entries(
            text.skip(first_lines_len(text, k) as int),
            first + lines_in(text, k),
        ),
    decreases k,
{
    if k == 0 || text.len() == 0 {
        assert(text.skip(0) =~= text);
        assert(text_entries(text, first) =~= Seq::empty() + text_entries(text, first));
    } else {
        lemma_line_len_bound(text);
        let n = line_len(text) as int;
        let tail = text.skip(n);
        lemma_batch_split(tail, first + 1, (k - 1) as nat);
        let m = first_lines_len(tail, (k - 1) as nat) as int;
        assert(tail.skip(m) =~= text.skip(n + m));
        assert(text_entries(text, first) =~= first_lines_entries(text, first, k) + text_entries(
            text.skip(first_lines_len(text, k) as int),
            first + lines_in(text, k),
        ));
    }
}

/// Words come out in file order and none is lost: a request that gives a word
/// gives the first of those still to come and leaves the others; one that
/// gives none leaves them all. It gives none only when no word is left, or
/// when the batch that it read was `BATCH_LINES` lines without a word.
pub proof fn lemma_words_in_order(s: TextState)
    requires
        text_well_formed(s),
    ensures
        text_well_formed(text_step(s).0),
        match text_step(s).1 {
            Some(w) => {
                &&& remaining(s).len() > 0
                &&& w == remaining(s)[0]
                &&& remaining(text_step(s).0) == remaining(s).skip(1)
                &&& text_step(s).0.reader.current == Some(w)
                &&& follows(cursor_of(s.reader.current), w.1)
            },
            None => {
                &&& remaining(text_step(s).0) == remaining(s)
                &&& text_step(s).0.reader.current == s.reader.current
                &&& remaining(s).len() == 0 || {
                    &&& s.reader.pending.len() == 0
                    &&& text_step(s).0.reader.lines == s.reader.lines + BATCH_LINES
                    &&& text_step(s).0.pos >= s.pos + BATCH_LINES
                }
            },
        },
{
    let r = s.reader;
    let rest = s.text.skip(s.pos as int);
    let after = text_step(s).0;
    if r.pending.len() > 0 || r.ended {
        crate::reader::lemma_take_front(r);
        if r.pending.len() > 0 {
            assert(remaining(after) =~= remaining(s).skip(1));
        } else {
            assert(rest.len() == 0);
        }
    } else {
        let k = BATCH_LINES as nat;
        lemma_batch_split(rest, r.lines + 1, k);
        let count = lines_in(rest, k);
        let used = first_lines_len(rest, k) as int;
        let filled = ReaderState {
            pending: first_lines_entries(rest, r.lines + 1, k),
            current: r.current,
            ended: count < k,
            lines: r.lines + count,
            wanted: 0,
        };
        lemma_first_lines_well_formed(r, rest, k);
        crate::reader::lemma_take_front(filled);
        assert(rest.skip(used) =~= s.text.skip(s.pos + used));
        assert(remaining(s) =~= filled.pending + text_entries(
            s.text.skip(s.pos + used),
            filled.lines + 1,
        ));
        if filled.pending.len() > 0 {
            assert(remaining(after) =~= remaining(s).skip(1));
        } else {
            assert(remaining(after) =~= remaining(s));
            if count < k {
                assert(s.text.skip(s.pos + used).len() == 0);
            }
        }
    }
}

/// Once no word is left, every further request gives none, and none is left
/// after it.
pub proof fn lemma_none_forever(s: TextState)
    requires
        text_well_formed(s),
        remaining(s).len() == 0,
    ensures
        text_step(s).1 is None,
        text_well_formed(text_step(s).0),
        remaining(text_step(s).0).len() == 0,
        s.reader.ended ==> text_step(s).0 == s,
{
    lemma_words_in_order(s);
}

/// The state of a text reader after `n` requests for the next word.
pub open spec fn after_requests(s: TextState, n: nat) -> TextState
    decreases n,
{
    if n == 0 {
        s
    } else {
        after_requests(text_step(s).0, (n - 1) as nat)
    }
}

/// The answer to request number `n`, counted from 0.
pub open spec fn answer(s: TextState, n: nat) -> Option<(Seq<u8>, Cursor)> {
    text_step(after_requests(s, n)).1
}

/// Whether no refill of `text` meets a batch without a word while a word is
/// still to come. Refills cut the text into batches of `BATCH_LINES` lines
/// from its start; `first` is the number of its first line.
pub open spec fn no_wordless_batch(text: Seq<u8>, first: nat) -> bool
    decreases text.len(),
    via no_wordless_batch_terminates
{
    text_entries(text, first).len() == 0 || {
        &&& first_lines_entries(text, first, BATCH_LINES as nat).len() > 0
        &&& no_wordless_batch(
            text.skip(first_lines_len(text, BATCH_LINES as nat) as int),
            first + lines_in(text, BATCH_LINES as nat),
        )
    }
}

#[via_fn]
proof fn no_wordless_batch_terminates(text: Seq<u8>, first: nat) {
    if text.len() > 0 {
        lemma_line_len_bound(text);
        lemma_batch_split(text, first, BATCH_LINES as nat);
    }
}

/// A text with `N` words answers the first `N` requests with its words, in
/// file order, and every later request with `None`, unless a refill meets a
/// batch of lines without a word while words are still to come.
pub proof fn lemma_n_words_then_none(s: TextState, i: nat)
    requires
        text_well_formed(s),
        no_wordless_batch(s.text.skip(s.pos as int), s.reader.lines + 1),
    ensures
        i < remaining(s).len() ==> answer(s, i) == Some(remaining(s)[i as int]),
        i >= remaining(s).len() ==> answer(s, i) is None,
    decreases i,
{
    let rest = s.text.skip(s.pos as int);
    let batch = BATCH_LINES as nat;
    let next = text_step(s).0;
    lemma_words_in_order(s);
    if s.reader.pending.len() == 0 && !s.reader.ended {
        lemma_batch_split(rest, s.reader.lines + 1, batch);
        assert(rest.skip(first_lines_len(rest, batch) as int) =~= next.text.skip(next.pos as int));
        assert(remaining(s) =~= text_entries(rest, s.reader.lines + 1));
        assert(no_wordless_batch(next.text.skip(next.pos as int), next.reader.lines + 1));
    } else {
        assert(next.text.skip(next.pos as int) == rest);
    }
    if i > 0 {
        lemma_n_words_then_none(next, (i - 1) as nat);
        assert(after_requests(s, i) == after_requests(next, (i - 1) as nat));
    } else {
        assert(after_requests(s, 0) == s);
    }
}

/// A reader made on a text with `N` whitespace-separated words, of which no
/// refill meets a batch without a word while words are still to come, answers
/// its first `N` requests with those words, in file order, and all the others
/// with `None`.
pub proof fn lemma_fresh_reader_gives_all_words(text: Seq<u8>, i: nat)
    requires
        text.len() <= usize::MAX,
        no_wordless_batch(text, 1),
    ensures
        ({
            let s = TextState { text, pos: 0, reader: initial_state() };
            let all = text_entries(text, 1);
            &&& all.len() == words(text).len()
            &&& i < all.len() ==> answer(s, i) == Some(all[i as int]) && all[i as int].0 == words(
                text,
            )[i as int]
            &&& i >= all.len() ==> answer(s, i) is None
        }),
{
    let s = TextState { text, pos: 0, reader: initial_state() };
    assert(text.skip(0) =~= text);
    assert(remaining(s) =~= text_entries(text, 1));
    lemma_n_words_then_none(s, i);
    lemma_lines_keep_words(text, 1);
    let all = text_entries(text, 1);
    assert(entry_texts(all).len() == all.len());
    if i < all.len() {
        assert(entry_texts(all)[i as int] == all[i as int].0);
    }
}

/// Taking in the first `k` lines of `text` keeps a word reader well formed.
pub proof fn lemma_first_lines_well_formed(r: ReaderState, text: Seq<u8>, k: nat)
    requires
        well_formed(r),
        r.lines + text.len() <= usize::MAX,
    ensures
        well_formed(
            ReaderState {
                pending: r.pending + first_lines_entries(text, r.lines + 1, k),
                current: r.current,
                ended: r.ended,
                lines: r.lines + lines_in(text, k),
                wanted: 0,
            },
        ),
    decreases k,
{
    if k == 0 || text.len() == 0 {
        assert(r.pending + first_lines_entries(text, r.lines + 1, k) =~= r.pending);
    } else {
        lemma_line_len_bound(text);
        let n = line_len(text) as int;
        let line = text.take(n);
        let ready = ReaderState { wanted: 1, ended: false, ..r };
        crate::reader::lemma_entries_follow(ready, line);
        let t = ReaderState {
            pending: r.pending + line_entries(line, r.lines + 1),
            lines: r.lines + 1,
            wanted: 0,
            ended: false,
            current: r.current,
        };
        lemma_first_lines_well_formed(t, text.skip(n), (k - 1) as nat);
        assert(t.pending + first_lines_entries(text.skip(n), t.lines + 1, (k - 1) as nat)
            =~= r.pending + first_lines_entries(text, r.lines + 1, k));
    }
}

/// A word reader over a text held in memory.
pub struct TextReader {
    data: Vec<u8>,
    pos: usize,
    words: WordReader,
}

impl View for TextReader {
    type V = TextState;

    closed spec fn view(&self) -> TextState {
        TextState { text: self.data@, pos: self.pos as nat, reader: self.words@ }
    }
}

/// The index just after the physical line of `data` that starts at `start`.
fn line_end(data: &[u8], start: usize) -> (end: usize)
    requires
        start <= data@.len(),
    ensures
        end == start + line_len(data@.skip(start as int)),
        end <= data@.len(),
{
    let mut i: usize = start;
    proof {
        lemma_line_len_bound(data@.skip(start as int));
    }
    while i < data.len() && data[i] != 0x0a
        invariant
            start <= i <= data@.len(),
            line_len(data@.skip(start as int)) == (i - start) + line_len(data@.skip(i as int)),
        decreases data@.len() - i,
    {
        assert(data@.skip(i as int).skip(1) =~= data@.skip(i + 1));
        i += 1;
    }
    if i < data.len() {
        i += 1;
    }
    i
}

impl TextReader {
    /// A reader at the start of `text`, with no word handed out yet.
    pub fn new(text: Vec<u8>) -> (r: TextReader)
        ensures
            r@ == (TextState { text: text@, pos: 0, reader: initial_state() }),
            text_well_formed(r@),
            remaining(r@) == text_entries(text@, 1),
    {
        let len: usize = text.len();
        let r = TextReader { data: text, pos: 0, words: WordReader::new() };
        assert(r@.text.len() == len);
        assert(r@.text.skip(0) =~= r@.text);
        assert(remaining(r@) =~= text_entries(r@.text, 1));
        r
    }

    /// The next word of the text with its position, or `None`.
    ///
    /// Words come out in file order, each exactly once. `None` comes when no
    /// word is left, and from then on for ever; it also comes, once, for each
    /// batch of lines read that holds no word at all.
    pub fn next_word(&mut self) -> (w: Option<(Vec<u8>, Cursor)>)
        requires
            text_well_formed(old(self)@),
        ensures
            (final(self)@, found_view(w)) == text_step(old(self)@),
            text_well_formed(final(self)@),
            match found_view(w) {
                Some(e) => {
                    &&& remaining(old(self)@).len() > 0
                    &&& e == remaining(old(self)@)[0]
                    &&& remaining(final(self)@) == remaining(old(self)@).skip(1)
                    &&& final(self)@.reader.current == Some(e)
                    &&& follows(cursor_of(old(self)@.reader.current), e.1)
                },
                None => {
                    &&& remaining(final(self)@) == remaining(old(self)@)
                    &&& final(self)@.reader.current == old(self)@.reader.current
                },
            },
    {
        let ghost s0 = self@;
        let ghost rest0 = s0.text.skip(s0.pos as int);
        let ghost first = s0.reader.lines;
        let ghost batch = BATCH_LINES as nat;
        let mut step = self.words.next_word();
        proof {
            assert(rest0 =~= self.data@.skip(self.pos as int));
            assert(self.words@.pending =~= self.words@.pending + Seq::empty());
        }
        while matches!(step, Step::NeedLine)
            invariant
                text_well_formed(s0),
                rest0 == s0.text.skip(s0.pos as int),
                first == s0.reader.lines,
                batch == BATCH_LINES as nat,
                self.data@ == s0.text,
                s0.pos <= self.pos <= self.data@.len(),
                well_formed(self.words@),
                step@ is NeedLine ==> {
                    &&& s0.reader.pending.len() == 0
                    &&& !s0.reader.ended
                    &&& !self.words@.ended
                    &&& 0 < self.words@.wanted <= batch
                    &&& self.words@.current == s0.reader.current
                    &&& self.words@.lines == first + (batch - self.words@.wanted)
                    &&& self.words@.lines <= self.pos
                    &&& first_lines_entries(rest0, first + 1, batch) == self.words@.pending
                        + first_lines_entries(
                        self.data@.skip(self.pos as int),
                        self.words@.lines + 1,
                        self.words@.wanted,
                    )
                    &&& first_lines_len(rest0, batch) == (self.pos - s0.pos) + first_lines_len(
                        self.data@.skip(self.pos as int),
                        self.words@.wanted,
                    )
                    &&& lines_in(rest0, batch) == (self.words@.lines - first) + lines_in(
                        self.data@.skip(self.pos as int),
                        self.words@.wanted,
                    )
                },
                !(step@ is NeedLine) ==> (self@, word_of(step@)) == text_step(s0),
            decreases
                    (if step@ is NeedLine {
                        self.words@.wanted
                    } else {
                        0
                    }),
        {
            let ghost before = self.words@;
            let ghost rest = self.data@.skip(self.pos as int);
            let end = line_end(self.data.as_slice(), self.pos);
            let line = slice_subrange(self.data.as_slice(), self.pos, end);
            proof {
                lemma_line_len_bound(rest);
                assert(line@ =~= rest.take(line_len(rest) as int));
                assert(rest.skip(line_len(rest) as int) =~= self.data@.skip(end as int));
            }
            step = self.words.supply_line(line);
            self.pos = end;
            proof {
                let tail = self.data@.skip(end as int);
                let k = (before.wanted - 1) as nat;
                if line@.len() == 0 {
                    assert(rest.len() == 0);
                    assert(lines_in(rest, before.wanted) == 0);
                    assert(first_lines_len(rest, before.wanted) == 0);
                    assert(before.pending =~= first_lines_entries(rest0, first + 1, batch));
                } else {
                    let added = line_entries(line@, before.lines + 1);
                    assert(lines_in(rest, before.wanted) == 1 + lines_in(tail, k));
                    assert(first_lines_len(rest, before.wanted) == line_len(rest)
                        + first_lines_len(tail, k));
                    assert(first_lines_entries(rest, before.lines + 1, before.wanted) == added
                        + first_lines_entries(tail, before.lines + 2, k));
                    if k == 0 {
                        assert(lines_in(tail, k) == 0);
                        assert(first_lines_len(tail, k) == 0);
                        assert(first_lines_entries(tail, before.lines + 2, k) =~= Seq::empty());
                    }
                    assert(first_lines_entries(rest0, first + 1, batch) =~= (before.pending
                        + added) + first_lines_entries(tail, before.lines + 2, k));
                    if k == 0 {
                        assert(before.pending + added =~= first_lines_entries(
                            rest0,
                            first + 1,
                            batch,
                        ));
                    }
                }
            }
        }
        proof {
            lemma_words_in_order(s0);
        }
        match step {
            Step::Word(text, cursor) => Some((text, cursor)),
            _ => None,
        }
    }

    /// The word handed out last, unchanged; `None` until a word was handed out.
    pub fn curr_word(&self) -> (w: Option<(Vec<u8>, Cursor)>)
        ensures
            found_view(w) == self@.reader.current,
    {
        self.words.curr_word()
    }

    /// The next word, for a caller that cannot go on without one: where
    /// `next_word` gives none, the error says that the input ended while
    /// `rule` expected a word.
    pub fn require_next_word(&mut self, rule: &str) -> (r: Result<(Vec<u8>, Cursor), WordError>)
        requires
            text_well_formed(old(self)@),
        ensures
            text_well_formed(final(self)@),
            match r {
                Ok(w) => (final(self)@, Some(crate::reader::word_view(w))) == text_step(
                    old(self)@,
                ),
                Err(e) => {
                    &&& (final(self)@, None::<(Seq<u8>, Cursor)>) == text_step(old(self)@)
                    &&& e matches WordError::UnexpectedEndOfFile(label) && label@ == rule@
                },
            },
    {
        let found = self.next_word();
        require_next(found, rule)
    }

    /// The current word, for a caller that cannot go on without one: where no
    /// word was handed out yet, the error says that `rule` broke this order.
    pub fn require_curr_word(&self, rule: &str) -> (r: Result<(Vec<u8>, Cursor), WordError>)
        ensures
            match r {
                Ok(w) => self@.reader.current == Some(crate::reader::word_view(w)),
                Err(e) => {
                    &&& self@.reader.current is None
                    &&& e matches WordError::ContractViolation(label) && label@ == rule@
                },
            },
    {
        let found = self.curr_word();
        require_current(found, rule)
    }
}

} // verus!
