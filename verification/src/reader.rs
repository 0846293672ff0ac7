//! The word reader: a queue of words read ahead, the word handed out last, and
//! the rules by which lines are asked for in batches.
//!
//! The reader does no input of its own. When its queue is empty it asks for a
//! line ([`Step::NeedLine`]); the caller reads one physical line and hands it
//! over with [`WordReader::supply_line`]. An empty line (no byte at all, not
//! even a line feed) stands for the end of the stream.

use crate::position::{follows, Cursor, Line, Word};
use crate::tokenizer::{is_space, lemma_blank_has_no_words, split_words, texts, words};
use std::collections::VecDeque;
use vstd::prelude::*;

verus! {

/// How many physical lines one refill asks for at most.
pub const BATCH_LINES: usize = 10;

/// What a reader holds, as contracts speak of it.
pub struct ReaderState {
    /// Words read ahead and not yet handed out, in file order.
    pub pending: Seq<(Seq<u8>, Cursor)>,
    /// The word handed out last, if any.
    pub current: Option<(Seq<u8>, Cursor)>,
    /// Whether the end of the stream was seen.
    pub ended: bool,
    /// How many physical lines were taken in so far.
    pub lines: nat,
    /// How many more lines the refill under way asks for; 0 between refills.
    pub wanted: nat,
}

/// The answer of a reader, as contracts speak of it.
pub enum Outcome {
    Word(Seq<u8>, Cursor),
    NeedLine,
    End,
}

/// The answer of a reader to a request for the next word.
#[derive(Debug)]
pub enum Step {
    /// The next word and its position.
    Word(Vec<u8>, Cursor),
    /// The queue is empty: read one line and hand it to `supply_line`.
    NeedLine,
    /// No word is available.
    End,
}

impl View for Step {
    type V = Outcome;

    open spec fn view(&self) -> Outcome {
        match *self {
            Step::Word(text, cursor) => Outcome::Word(text@, cursor),
            Step::NeedLine => Outcome::NeedLine,
            Step::End => Outcome::End,
        }
    }
}

/// The position of a word, if there is one.
pub open spec fn cursor_of(w: Option<(Seq<u8>, Cursor)>) -> Option<Cursor> {
    match w {
        Some(e) => Some(e.1),
        None => None,
    }
}

/// A word with its position, by the bytes it holds.
pub open spec fn word_view(w: (Vec<u8>, Cursor)) -> (Seq<u8>, Cursor) {
    (w.0@, w.1)
}

/// An optional word with its position, by the bytes it holds.
pub open spec fn found_view(w: Option<(Vec<u8>, Cursor)>) -> Option<(Seq<u8>, Cursor)> {
    match w {
        Some(e) => Some(word_view(e)),
        None => None,
    }
}

/// The words of physical line number `number`, each with its position: the
/// word index starts at 1 and grows by one per word.
pub open spec fn line_entries(line: Seq<u8>, number: nat) -> Seq<(Seq<u8>, Cursor)> {
    Seq::new(
        words(line).len(),
        |j: int| (words(line)[j], Cursor(Line(number as usize), Word((j + 1) as usize))),
    )
}

/// The state a reader is made in.
pub open spec fn initial_state() -> ReaderState {
    ReaderState { pending: Seq::empty(), current: None, ended: false, lines: 0, wanted: 0 }
}

/// What holds of every reader: the words read ahead stand in file order, each
/// directly after the one before it, and none on a line not yet taken in.
pub open spec fn well_formed(s: ReaderState) -> bool {
    &&& s.wanted <= BATCH_LINES
    &&& s.ended ==> s.wanted == 0
    &&& s.lines <= usize::MAX
    &&& (s.current matches Some(c) ==> 1 <= c.1.line() <= s.lines)
    &&& forall|i: int|
        0 <= i < s.pending.len() ==> 1 <= (#[trigger] s.pending[i]).1.line() <= s.lines
    &&& s.pending.len() > 0 ==> follows(cursor_of(s.current), s.pending[0].1)
    &&& forall|i: int|
        0 < i < s.pending.len() ==> follows(Some(s.pending[i - 1].1), (#[trigger] s.pending[i]).1)
}

/// Hands out the front of the queue, which becomes the current word; with an
/// empty queue there is no word, and nothing changes.
pub open spec fn take_front(s: ReaderState) -> (ReaderState, Outcome) {
    if s.pending.len() > 0 {
        (
            ReaderState { pending: s.pending.skip(1), current: Some(s.pending[0]), ..s },
            Outcome::Word(s.pending[0].0, s.pending[0].1),
        )
    } else {
        (s, Outcome::End)
    }
}

/// A request for the next word. A queued word is handed out. With an empty
/// queue, after the end of the stream there is no word; before it, a refill
/// of `BATCH_LINES` lines begins. While a refill is under way the reader goes
/// on asking for a line.
pub open spec fn poll(s: ReaderState) -> (ReaderState, Outcome) {
    if s.wanted > 0 {
        (s, Outcome::NeedLine)
    } else if s.pending.len() > 0 {
        take_front(s)
    } else if s.ended {
        (s, Outcome::End)
    } else {
        (ReaderState { wanted: BATCH_LINES as nat, ..s }, Outcome::NeedLine)
    }
}

/// One physical line arrives during a refill. An empty line is the end of the
/// stream: it gets no line number and ends the refill. Any other line is
/// counted, and its words join the queue. When the refill has ended, the front
/// of the queue is handed out, or there is no word.
pub open spec fn accept_line(s: ReaderState, line: Seq<u8>) -> (ReaderState, Outcome) {
    if line.len() == 0 {
        take_front(ReaderState { ended: true, wanted: 0, ..s })
    } else {
        let t = ReaderState {
            pending: s.pending + line_entries(line, s.lines + 1),
            lines: s.lines + 1,
            wanted: (s.wanted - 1) as nat,
            ..s
        };
        if t.wanted == 0 {
            take_front(t)
        } else {
            (t, Outcome::NeedLine)
        }
    }
}

/// A pull-based source of words with their positions.
pub struct WordReader {
    eof: bool,
    curr_line: usize,
    wanted: usize,
    pending: VecDeque<(Vec<u8>, Cursor)>,
    current: Option<(Vec<u8>, Cursor)>,
}

impl View for WordReader {
    type V = ReaderState;

    closed spec fn view(&self) -> ReaderState {
        ReaderState {
            pending: Seq::new(self.pending@.len(), |i: int| word_view(self.pending@[i])),
            current: found_view(self.current),
            ended: self.eof,
            lines: self.curr_line as nat,
            wanted: self.wanted as nat,
        }
    }
}

impl WordReader {
    /// A reader that has taken in nothing yet.
    pub fn new() -> (r: WordReader)
        ensures
            r@ == initial_state(),
            well_formed(r@),
    {
        let r = WordReader {
            eof: false,
            curr_line: 0,
            wanted: 0,
            pending: VecDeque::new(),
            current: None,
        };
        assert(r@.pending =~= Seq::empty());
        r
    }

    /// Pops the front of the queue and records it as the current word.
    fn pop(&mut self) -> (step: Step)
        requires
            well_formed(old(self)@),
        ensures
            (final(self)@, step@) == take_front(old(self)@),
            well_formed(final(self)@),
            step@ matches Outcome::Word(_, c) ==> follows(cursor_of(old(self)@.current), c),
    {
        let ghost before = self@;
        match self.pending.pop_front() {
            Some((text, cursor)) => {
                let copy = text.clone();
                assert(copy@ =~= text@);
                self.current = Some((copy, cursor));
                assert(self@.pending =~= before.pending.skip(1));
                assert(word_view((text, cursor)) == before.pending[0]);
                proof {
                    lemma_take_front(before);
                }
                Step::Word(text, cursor)
            },
            None => {
                assert(self@.pending =~= before.pending);
                Step::End
            },
        }
    }

    /// Asks for the next word.
    ///
    /// A queued word is handed out and becomes the current word. With an empty
    /// queue the answer is `End` once the end of the stream was seen, and
    /// `NeedLine` before that: the caller then supplies lines until the answer
    /// is no longer `NeedLine`.
    pub fn next_word(&mut self) -> (step: Step)
        requires
            well_formed(old(self)@),
        ensures
            (final(self)@, step@) == poll(old(self)@),
            well_formed(final(self)@),
            step@ matches Outcome::Word(_, c) ==> follows(cursor_of(old(self)@.current), c),
    {
        if self.wanted > 0 {
            Step::NeedLine
        } else if self.pending.len() > 0 {
            self.pop()
        } else if self.eof {
            Step::End
        } else {
            self.wanted = BATCH_LINES;
            Step::NeedLine
        }
    }

    /// Takes in one physical line that the reader asked for. The empty line
    /// stands for the end of the stream.
    ///
    /// The line is counted and split, and its words join the queue. While the
    /// refill goes on the answer is `NeedLine`; after its last line, or at the
    /// end of the stream, the answer is the next word, or `End` where the
    /// refill brought none.
    pub fn supply_line(&mut self, line: &[u8]) -> (step: Step)
        requires
            well_formed(old(self)@),
            old(self)@.wanted > 0,
            line@.len() > 0 ==> old(self)@.lines < usize::MAX,
        ensures
            (final(self)@, step@) == accept_line(old(self)@, line@),
            well_formed(final(self)@),
            step@ matches Outcome::Word(_, c) ==> follows(cursor_of(old(self)@.current), c),
    {
        if line.len() == 0 {
            self.eof = true;
            self.wanted = 0;
            return self.pop();
        }
        let ghost before = self@;
        self.curr_line = self.curr_line + 1;
        self.wanted = self.wanted - 1;
        let number: usize = self.curr_line;
        let mut found = split_words(line);
        let count: usize = found.len();
        let ghost all = texts(found@);
        let mut j: usize = found.len();
        // The words are moved out of `found` from the back, so they are put in
        // place with their positions in a second queue, front first.
        let mut fresh: VecDeque<(Vec<u8>, Cursor)> = VecDeque::new();
        while j > 0
            invariant
                j <= count,
                found@.len() == j,
                texts(found@) == all.take(j as int),
                all == words(line@),
                count == all.len(),
                fresh@.len() == count - j,
                forall|k: int|
                    0 <= k < fresh@.len() ==> word_view(#[trigger] fresh@[k]) == (
                        all[j + k],
                        Cursor(Line(number), Word((j + k + 1) as usize)),
                    ),
            decreases j,
        {
            let ghost old_fresh = fresh@;
            let ghost old_found = found@;
            match found.pop() {
                Some(text) => {
                    assert(text@ == texts(old_found)[j - 1]);
                    fresh.push_front((text, Cursor(Line(number), Word(j))));
                    j = j - 1;
                    assert(texts(found@) =~= all.take(j as int));
                    assert forall|k: int| 0 <= k < fresh@.len() implies word_view(
                        #[trigger] fresh@[k],
                    ) == (all[j + k], Cursor(Line(number), Word((j + k + 1) as usize))) by {
                        if k > 0 {
                            assert(fresh@[k] == old_fresh[k - 1]);
                        }
                    }
                },
                None => {},
            }
        }
        let ghost entries = line_entries(line@, before.lines + 1);
        assert(Seq::new(fresh@.len(), |i: int| word_view(fresh@[i])) =~= entries);
        let ghost queued = self.pending@;
        self.pending.append(&mut fresh);
        assert(self@.pending =~= before.pending + entries) by {
            assert(self.pending@.len() == queued.len() + entries.len());
        }
        proof {
            lemma_entries_follow(before, line@);
        }
        if self.wanted == 0 {
            self.pop()
        } else {
            Step::NeedLine
        }
    }

    /// How many physical lines were taken in so far.
    pub fn lines_read(&self) -> (n: usize)
        ensures
            n == self@.lines,
    {
        self.curr_line
    }

    /// Whether the reader is waiting for a line.
    pub fn needs_line(&self) -> (b: bool)
        ensures
            b == (self@.wanted > 0),
    {
        self.wanted > 0
    }

    /// Whether the end of the stream was seen.
    pub fn at_end(&self) -> (b: bool)
        ensures
            b == self@.ended,
    {
        self.eof
    }

    /// The word handed out last, unchanged; `None` until a word was handed out.
    pub fn curr_word(&self) -> (w: Option<(Vec<u8>, Cursor)>)
        ensures
            found_view(w) == self@.current,
    {
        match &self.current {
            Some((text, cursor)) => {
                let copy = text.clone();
                assert(copy@ =~= text@);
                Some((copy, *cursor))
            },
            None => None,
        }
    }
}

/// Handing out the front of the queue keeps a reader well formed, and the
/// word handed out stands directly after the one handed out before it.
pub proof fn lemma_take_front(s: ReaderState)
    requires
        well_formed(s),
    ensures
        well_formed(take_front(s).0),
        take_front(s).1 matches Outcome::Word(_, c) ==> follows(cursor_of(s.current), c),
{
    let t = take_front(s).0;
    if s.pending.len() > 0 {
        assert forall|i: int| 0 <= i < t.pending.len() implies 1 <= (#[trigger] t.pending[i]).1.line()
            <= t.lines by {
            assert(t.pending[i] == s.pending[i + 1]);
        }
        assert forall|i: int| 0 < i < t.pending.len() implies follows(
            Some(t.pending[i - 1].1),
            (#[trigger] t.pending[i]).1,
        ) by {
            assert(t.pending[i] == s.pending[i + 1]);
        }
        assert(t.pending.len() > 0 ==> t.pending[0] == s.pending[1]);
    }
}

/// Once the end of the stream was seen and the queue is empty, every further
/// request finds no word and changes nothing.
pub proof fn lemma_end_is_final(s: ReaderState)
    requires
        s.ended,
        s.pending.len() == 0,
        s.wanted == 0,
    ensures
        poll(s) == (s, Outcome::End),
{
}

/// The current word is the word handed out last: an answer that holds a word
/// makes it the current word, and any other answer leaves the current word as
/// it was.
pub proof fn lemma_current_is_last_word(s: ReaderState, line: Seq<u8>)
    ensures
        match poll(s).1 {
            Outcome::Word(text, cursor) => poll(s).0.current == Some((text, cursor)),
            _ => poll(s).0.current == s.current,
        },
        match accept_line(s, line).1 {
            Outcome::Word(text, cursor) => accept_line(s, line).0.current == Some((text, cursor)),
            _ => accept_line(s, line).0.current == s.current,
        },
{
}

/// A line of whitespace alone is counted like any other line and adds no
/// word: the words of the line after it stand on the line number one greater.
pub proof fn lemma_blank_line_is_counted(s: ReaderState, line: Seq<u8>)
    requires
        s.wanted > 1,
        line.len() > 0,
        forall|i: int| 0 <= i < line.len() ==> is_space(#[trigger] line[i]),
    ensures
        accept_line(s, line) == (
            ReaderState { lines: s.lines + 1, wanted: (s.wanted - 1) as nat, ..s },
            Outcome::NeedLine,
        ),
{
    lemma_blank_has_no_words(line);
    assert(s.pending + line_entries(line, s.lines + 1) =~= s.pending);
}

/// Taking in a line keeps a reader well formed: the new words stand on a line
/// after every word known so far, and are numbered from 1.
pub proof fn lemma_entries_follow(s: ReaderState, line: Seq<u8>)
    requires
        well_formed(s),
        s.wanted > 0,
        s.lines < usize::MAX,
        0 < line.len() <= usize::MAX,
    ensures
        well_formed(
            ReaderState {
                pending: s.pending + line_entries(line, s.lines + 1),
                lines: s.lines + 1,
                wanted: (s.wanted - 1) as nat,
                ..s
            },
        ),
{
    let e = line_entries(line, s.lines + 1);
    let t = ReaderState {
        pending: s.pending + e,
        lines: s.lines + 1,
        wanted: (s.wanted - 1) as nat,
        ..s
    };
    crate::tokenizer::lemma_words_count(line);
    assert forall|i: int| 0 <= i < t.pending.len() implies 1 <= (#[trigger] t.pending[i]).1.line()
        <= t.lines by {
        if i < s.pending.len() {
            assert(t.pending[i] == s.pending[i]);
        } else {
            assert(t.pending[i] == e[i - s.pending.len()]);
        }
    }
    assert forall|i: int| 0 < i < t.pending.len() implies follows(
        Some(t.pending[i - 1].1),
        (#[trigger] t.pending[i]).1,
    ) by {
        let n = s.pending.len() as int;
        if i < n {
            assert(t.pending[i] == s.pending[i]);
            assert(t.pending[i - 1] == s.pending[i - 1]);
        } else if i == n {
            assert(t.pending[i] == e[0]);
            assert(t.pending[i - 1] == s.pending[i - 1]);
        } else {
            assert(t.pending[i] == e[i - n]);
            assert(t.pending[i - 1] == e[i - 1 - n]);
        }
    }
    if t.pending.len() > 0 {
        if s.pending.len() > 0 {
            assert(t.pending[0] == s.pending[0]);
        } else {
            assert(t.pending[0] == e[0]);
        }
    }
}

} // verus!
