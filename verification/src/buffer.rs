//! Word buffer.

use crate::arch::word::Word;
use crate::magnitude::{is_trimmed, lemma_trim, trim, words_value};
use vstd::prelude::*;
use vstd::std_specs::cmp::PartialEqSpecImpl;

verus! {

/// An owned, growable sequence of words, least significant first.
///
/// A buffer may hold most-significant zero words; [`Buffer::pop_leading_zeros`]
/// brings it to its trimmed form, in which zero is the empty buffer.
#[derive(Debug)]
pub struct Buffer {
    words: Vec<Word>,
}

impl View for Buffer {
    type V = Seq<Word>;

    closed spec fn view(&self) -> Seq<Word> {
        self.words@
    }
}

impl Clone for Buffer {
    fn clone(&self) -> (copy: Self)
        ensures
            copy@ == self@,
    {
        Buffer { words: self.words.clone() }
    }
}

impl PartialEqSpecImpl for Buffer {
    open spec fn obeys_eq_spec() -> bool {
        true
    }

    open spec fn eq_spec(&self, other: &Buffer) -> bool {
        self@ == other@
    }
}

impl PartialEq for Buffer {
    /// Whether both buffers hold the same words. Two buffers that stand for
    /// the same number differ when one has more most-significant zero words
    /// than the other.
    fn eq(&self, other: &Buffer) -> (equal: bool) {
        let len = self.words.len();
        if other.words.len() != len {
            return false;
        }
        let mut i: usize = 0;
        while i < len
            invariant
                i <= len,
                len == self@.len(),
                len == other@.len(),
                self@.take(i as int) == other@.take(i as int),
            decreases len - i,
        {
            if self.words[i] != other.words[i] {
                return false;
            }
            i += 1;
            assert(self@.take(i as int) =~= self@.take(i - 1).push(self@[i - 1]));
            assert(other@.take(i as int) =~= other@.take(i - 1).push(other@[i - 1]));
        }
        assert(self@ =~= self@.take(len as int));
        assert(other@ =~= other@.take(len as int));
        true
    }
}

impl Eq for Buffer {

}

impl Buffer {
    /// The number that the buffer stands for.
    pub open spec fn value(&self) -> nat {
        words_value(self@)
    }

    /// An empty buffer with room for `num_words` words.
    pub fn allocate(num_words: usize) -> (buffer: Buffer)
        ensures
            buffer@ == Seq::<Word>::empty(),
    {
        Buffer { words: Vec::with_capacity(num_words) }
    }

    /// A buffer holding a copy of `words`.
    pub fn from_words(words: &[Word]) -> (buffer: Buffer)
        ensures
            buffer@ == words@,
    {
        let mut buffer = Buffer::allocate(words.len());
        let mut i: usize = 0;
        while i < words.len()
            invariant
                i <= words.len(),
                buffer@ == words@.take(i as int),
            decreases words.len() - i,
        {
            buffer.push(words[i]);
            i += 1;
            assert(buffer@ =~= words@.take(i as int));
        }
        assert(words@.take(words.len() as int) =~= words@);
        buffer
    }

    /// The number of words.
    pub fn len(&self) -> (len: usize)
        ensures
            len == self@.len(),
    {
        self.words.len()
    }

    /// The words as a slice.
    pub fn as_slice(&self) -> (words: &[Word])
        ensures
            words@ == self@,
    {
        self.words.as_slice()
    }

    /// The word at `index`.
    pub fn get(&self, index: usize) -> (word: Word)
        requires
            index < self@.len(),
        ensures
            word == self@[index as int],
    {
        self.words[index]
    }

    /// Replaces the word at `index`.
    pub fn set(&mut self, index: usize, word: Word)
        requires
            index < old(self)@.len(),
        ensures
            final(self)@ == old(self)@.update(index as int, word),
    {
        self.words[index] = word;
    }

    /// Appends `word` as the new most-significant word.
    pub fn push(&mut self, word: Word)
        ensures
            final(self)@ == old(self)@.push(word),
    {
        self.words.push(word);
    }

    /// Keeps the `len` least-significant words; a shorter buffer is left as
    /// it is.
    pub fn truncate(&mut self, len: usize)
        ensures
            len <= old(self)@.len() ==> final(self)@ == old(self)@.take(len as int),
            len > old(self)@.len() ==> final(self)@ == old(self)@,
    {
        self.words.truncate(len);
    }

    /// Removes the most-significant zero words.
    pub fn pop_leading_zeros(&mut self)
        ensures
            final(self)@ == trim(old(self)@),
            is_trimmed(final(self)@),
            final(self).value() == old(self).value(),
    {
        proof {
            lemma_trim(self@);
        }
        while self.words.len() > 0 && self.words[self.words.len() - 1] == 0
            invariant
                trim(self@) == trim(old(self)@),
            decreases self@.len(),
        {
            self.words.pop();
        }
    }
}

} // verus!
