//! Splitting one line into whitespace-delimited words.

use vstd::prelude::*;

verus! {

/// ASCII whitespace: space, horizontal tab, line feed, form feed, carriage return.
pub open spec fn is_space(b: u8) -> bool {
    b == 0x20 || b == 0x09 || b == 0x0a || b == 0x0c || b == 0x0d
}

/// The length of the longest prefix of `s` that holds no whitespace.
pub open spec fn word_len(s: Seq<u8>) -> nat
    decreases s.len(),
{
    if s.len() == 0 || is_space(s[0]) {
        0
    } else {
        1 + word_len(s.skip(1))
    }
}

/// The words of `s`: its maximal runs of bytes that are not whitespace, in order.
pub open spec fn words(s: Seq<u8>) -> Seq<Seq<u8>>
    decreases s.len(),
    via words_terminates
{
    if s.len() == 0 {
        Seq::empty()
    } else if is_space(s[0]) {
        words(s.skip(1))
    } else {
        let n = word_len(s);
        seq![s.take(n as int)] + words(s.skip(n as int))
    }
}

#[via_fn]
proof fn words_terminates(s: Seq<u8>) {
    lemma_word_len_bound(s);
}

/// The byte sequences that a vector of words holds.
pub open spec fn texts(v: Seq<Vec<u8>>) -> Seq<Seq<u8>> {
    Seq::new(v.len(), |i: int| v[i]@)
}

/// A word is never longer than what it is cut from.
pub proof fn lemma_word_len_bound(s: Seq<u8>)
    ensures
        word_len(s) <= s.len(),
        word_len(s) < s.len() ==> is_space(s[word_len(s) as int]),
        forall|k: int| 0 <= k < word_len(s) ==> !is_space(#[trigger] s[k]),
    decreases s.len(),
{
    if s.len() == 0 || is_space(s[0]) {
    } else {
        let t = s.skip(1);
        lemma_word_len_bound(t);
        assert forall|k: int| 0 <= k < word_len(s) implies !is_space(#[trigger] s[k]) by {
            if k > 0 {
                assert(s[k] == t[k - 1]);
            }
        }
        if word_len(s) < s.len() {
            assert(s[word_len(s) as int] == t[word_len(t) as int]);
        }
    }
}

/// Every word takes at least one byte of what it is cut from, so there are
/// no more words than bytes.
pub proof fn lemma_words_count(s: Seq<u8>)
    ensures
        words(s).len() <= s.len(),
    decreases s.len(),
{
    if s.len() == 0 {
    } else if is_space(s[0]) {
        lemma_words_count(s.skip(1));
    } else {
        lemma_word_len_bound(s);
        lemma_words_count(s.skip(word_len(s) as int));
    }
}

/// A line of whitespace alone holds no word.
pub proof fn lemma_blank_has_no_words(s: Seq<u8>)
    requires
        forall|i: int| 0 <= i < s.len() ==> is_space(#[trigger] s[i]),
    ensures
        words(s).len() == 0,
    decreases s.len(),
{
    if s.len() > 0 {
        let t = s.skip(1);
        assert forall|i: int| 0 <= i < t.len() implies is_space(#[trigger] t[i]) by {
            assert(t[i] == s[i + 1]);
        }
        lemma_blank_has_no_words(t);
    }
}

/// Each word holds at least one byte and no whitespace.
pub proof fn lemma_words_are_solid(s: Seq<u8>, j: int)
    requires
        0 <= j < words(s).len(),
    ensures
        words(s)[j].len() > 0,
        forall|k: int| 0 <= k < words(s)[j].len() ==> !is_space(#[trigger] words(s)[j][k]),
    decreases s.len(),
{
    if s.len() == 0 {
    } else if is_space(s[0]) {
        lemma_words_are_solid(s.skip(1), j);
    } else {
        lemma_word_len_bound(s);
        if j > 0 {
            lemma_words_are_solid(s.skip(word_len(s) as int), j - 1);
        }
    }
}

/// A word that ends before the end of `a` is not changed by what follows `a`.
pub proof fn lemma_word_len_prefix(a: Seq<u8>, b: Seq<u8>)
    requires
        word_len(a) < a.len(),
    ensures
        word_len(a + b) == word_len(a),
    decreases a.len(),
{
    if a.len() > 0 {
        assert((a + b)[0] == a[0]);
        if !is_space(a[0]) {
            assert((a + b).skip(1) =~= a.skip(1) + b);
            lemma_word_len_prefix(a.skip(1), b);
        }
    }
}

/// Where `a` ends in whitespace, the words of `a` followed by `b` are those
/// of `a`, then those of `b`: no word reaches across the seam.
pub proof fn lemma_words_concat(a: Seq<u8>, b: Seq<u8>)
    requires
        a.len() > 0,
        is_space(a[a.len() - 1]),
    ensures
        words(a + b) == words(a) + words(b),
    decreases a.len(),
{
    let ab = a + b;
    assert(ab[0] == a[0]);
    if is_space(a[0]) {
        if a.len() == 1 {
            assert(ab.skip(1) =~= b);
            assert(words(a.skip(1)) =~= Seq::empty());
            assert(words(a) + words(b) =~= words(b));
        } else {
            let t = a.skip(1);
            assert(ab.skip(1) =~= t + b);
            assert(t[t.len() - 1] == a[a.len() - 1]);
            lemma_words_concat(t, b);
        }
    } else {
        lemma_word_len_bound(a);
        let n = word_len(a) as int;
        assert(n < a.len()) by {
            if n == a.len() {
                assert(!is_space(a[a.len() - 1]));
            }
        }
        lemma_word_len_prefix(a, b);
        assert(ab.take(n) =~= a.take(n));
        let t = a.skip(n);
        assert(ab.skip(n) =~= t + b);
        assert(t[t.len() - 1] == a[a.len() - 1]);
        lemma_words_concat(t, b);
        assert(words(ab) =~= words(a) + words(b));
    }
}

/// Whether `b` is ASCII whitespace.
pub fn is_ascii_space(b: u8) -> (r: bool)
    ensures
        r == is_space(b),
{
    b == 0x20 || b == 0x09 || b == 0x0a || b == 0x0c || b == 0x0d
}

/// Splits a line on runs of ASCII whitespace. Empty pieces are dropped, so a
/// line of whitespace alone gives no word.
pub fn split_words(line: &[u8]) -> (out: Vec<Vec<u8>>)
    ensures
        texts(out@) == words(line@),
{
    let mut out: Vec<Vec<u8>> = Vec::new();
    let mut i: usize = 0;
    assert(line@.skip(0) =~= line@);
    assert(texts(out@) =~= Seq::<Seq<u8>>::empty());
    while i < line.len()
        invariant
            i <= line.len(),
            words(line@) == texts(out@) + words(line@.skip(i as int)),
        decreases line.len() - i,
    {
        let ghost rest = line@.skip(i as int);
        if is_ascii_space(line[i]) {
            assert(rest.skip(1) =~= line@.skip(i + 1));
            i += 1;
        } else {
            let start: usize = i;
            let mut word: Vec<u8> = Vec::new();
            assert(word@ =~= line@.subrange(start as int, i as int));
            while i < line.len() && !is_ascii_space(line[i])
                invariant
                    start <= i <= line.len(),
                    word@ == line@.subrange(start as int, i as int),
                    word_len(rest) == (i - start) + word_len(line@.skip(i as int)),
                    rest == line@.skip(start as int),
                decreases line.len() - i,
            {
                assert(line@.skip(i as int).skip(1) =~= line@.skip(i + 1));
                word.push(line[i]);
                i += 1;
                assert(word@ =~= line@.subrange(start as int, i as int));
            }
            assert(word_len(rest) == i - start);
            assert(rest.take((i - start) as int) =~= word@);
            assert(rest.skip((i - start) as int) =~= line@.skip(i as int));
            let ghost before = texts(out@);
            out.push(word);
            assert(texts(out@) =~= before + seq![word@]);
            assert(words(rest) == seq![word@] + words(line@.skip(i as int)));
        }
    }
    assert(line@.skip(i as int).len() == 0);
    out
}

} // verus!
