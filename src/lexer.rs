//! Splits a message into its words.
use vstd::prelude::*;

use std::collections::VecDeque;

verus! {

/// ASCII whitespace: space, tab, line feed, form feed and carriage return.
pub open spec fn is_space(b: u8) -> bool {
    b == 32 || b == 9 || b == 10 || b == 12 || b == 13
}

/// After reading `text` from the left: the words completed so far, and the
/// word in progress.
pub open spec fn lex_state(text: Seq<u8>) -> (Seq<Seq<u8>>, Seq<u8>)
    decreases text.len(),
{
    if text.len() == 0 {
        (Seq::empty(), Seq::empty())
    } else {
        let (done, current) = lex_state(text.drop_last());
        if !is_space(text.last()) {
            (done, current.push(text.last()))
        } else if current.len() > 0 {
            (done.push(current), Seq::empty())
        } else {
            (done, current)
        }
    }
}

/// The words of `text`: its maximal runs of non-space bytes, left to right.
pub open spec fn words_of(text: Seq<u8>) -> Seq<Seq<u8>> {
    let (done, current) = lex_state(text);
    if current.len() > 0 {
        done.push(current)
    } else {
        done
    }
}

/// The words a queue holds, each as a sequence of bytes.
pub open spec fn queue_words(q: VecDeque<Vec<u8>>) -> Seq<Seq<u8>> {
    Seq::new(q@.len(), |i: int| q@[i]@)
}

/// Splits `text` on ASCII whitespace into its words, in order.
pub fn split_words(text: &[u8]) -> (r: VecDeque<Vec<u8>>)
    ensures
        queue_words(r) == words_of(text@),
{
    let mut done: VecDeque<Vec<u8>> = VecDeque::new();
    let mut current: Vec<u8> = Vec::new();
    let mut i: usize = 0;
    assert(text@.take(0) =~= Seq::<u8>::empty());
    assert(queue_words(done) =~= Seq::<Seq<u8>>::empty());
    while i < text.len()
        invariant
            0 <= i <= text@.len(),
            lex_state(text@.take(i as int)) == (queue_words(done), current@),
        decreases text@.len() - i,
    {
        let b = text[i];
        assert(text@.take(i + 1).drop_last() =~= text@.take(i as int));
        assert(text@.take(i + 1).last() == b);
        if !(b == 32 || b == 9 || b == 10 || b == 12 || b == 13) {
            current.push(b);
        } else if current.len() > 0 {
            let ghost before = done@;
            let word = current;
            let ghost w = word@;
            current = Vec::new();
            done.push_back(word);
            assert(done@ == before.push(word));
            assert(queue_words(done) =~= Seq::new(before.len(), |j: int| before[j]@).push(w));
            assert(current@ =~= Seq::<u8>::empty());
        }
        i = i + 1;
    }
    assert(text@.take(text@.len() as int) =~= text@);
    if current.len() > 0 {
        let ghost before = done@;
        let ghost last = current@;
        done.push_back(current);
        assert(queue_words(done) =~= Seq::new(before.len(), |j: int| before[j]@).push(last));
    }
    done
}

} // verus!
