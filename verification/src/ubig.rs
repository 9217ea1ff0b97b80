//! Unsigned big integer.

use crate::arch::word::Word;
use crate::buffer::Buffer;
use crate::magnitude::{
    lemma_trimmed_unique, lemma_value_lower_bound, lemma_value_single, lemma_word_base,
    lemma_word_weight_monotonic, trim, word_base, words_value,
};
use vstd::prelude::*;
use vstd::std_specs::cmp::PartialEqSpecImpl;
use vstd::std_specs::convert::FromSpecImpl;

verus! {

/// How a value is stored: inline in one word, or in a buffer.
#[derive(Debug)]
pub enum Repr {
    /// A value that fits in one word.
    Small(Word),
    /// A value of two or more words.
    Large(Buffer),
}

/// What a [`Repr`] holds, with the buffer as a sequence of words.
pub enum ReprView {
    /// The word that is stored inline.
    Small(Word),
    /// The words of the buffer, least significant first.
    Large(Seq<Word>),
}

impl ReprView {
    /// The number that is stored.
    pub open spec fn value(self) -> nat {
        match self {
            ReprView::Small(word) => word as nat,
            ReprView::Large(words) => words_value(words),
        }
    }

    /// Whether the number is stored in its one canonical form: inline
    /// whenever it fits in one word, and otherwise without a most-significant
    /// zero word.
    pub open spec fn is_canonical(self) -> bool {
        match self {
            ReprView::Small(_) => true,
            ReprView::Large(words) => words.len() >= 2 && words.last() != 0,
        }
    }
}

impl View for Repr {
    type V = ReprView;

    open spec fn view(&self) -> ReprView {
        match self {
            Repr::Small(word) => ReprView::Small(*word),
            Repr::Large(buffer) => ReprView::Large(buffer@),
        }
    }
}

impl Clone for Repr {
    fn clone(&self) -> (copy: Repr)
        ensures
            copy@ == self@,
    {
        match self {
            Repr::Small(word) => Repr::Small(*word),
            Repr::Large(buffer) => Repr::Large(buffer.clone()),
        }
    }
}

/// A canonical form is inline exactly when the number is below the radix.
pub proof fn lemma_canonical_small(repr: ReprView)
    requires
        repr.is_canonical(),
    ensures
        repr is Small <==> repr.value() < word_base(),
{
    lemma_word_base();
    match repr {
        ReprView::Small(_) => {},
        ReprView::Large(words) => {
            lemma_value_lower_bound(words);
            lemma_word_weight_monotonic(1, (words.len() - 1) as nat);
        },
    }
}

/// A number has exactly one canonical form.
pub proof fn lemma_canonical_unique(a: ReprView, b: ReprView)
    requires
        a.is_canonical(),
        b.is_canonical(),
        a.value() == b.value(),
    ensures
        a == b,
{
    lemma_canonical_small(a);
    lemma_canonical_small(b);
    match (a, b) {
        (ReprView::Large(x), ReprView::Large(y)) => {
            lemma_trimmed_unique(x, y);
        },
        _ => {},
    }
}

/// Unsigned big integer: an arbitrarily large natural number.
///
/// Its view is the number itself. Every value is held in canonical form.
#[derive(Debug)]
pub struct UBig(Repr);

impl View for UBig {
    type V = nat;

    open spec fn view(&self) -> nat {
        self.representation().value()
    }
}

impl UBig {
    #[verifier::type_invariant]
    spec fn canonical(&self) -> bool {
        self.0@.is_canonical()
    }

    /// How the value is stored.
    pub closed spec fn representation(&self) -> ReprView {
        self.0@
    }

    /// The integer `word`.
    pub fn from_word(word: Word) -> (value: UBig)
        ensures
            value@ == word,
            value.representation() == ReprView::Small(word),
    {
        UBig(Repr::Small(word))
    }

    /// The stored form of the value.
    pub fn repr(&self) -> (repr: &Repr)
        ensures
            repr@ == self.representation(),
            repr@.is_canonical(),
    {
        proof {
            use_type_invariant(self);
        }
        &self.0
    }

    /// Gives up the value for its stored form.
    pub fn into_repr(self) -> (repr: Repr)
        ensures
            repr@ == self.representation(),
            repr@.is_canonical(),
    {
        proof {
            use_type_invariant(&self);
        }
        self.0
    }
}

impl Clone for UBig {
    fn clone(&self) -> (copy: UBig)
        ensures
            copy@ == self@,
            copy.representation() == self.representation(),
    {
        proof {
            use_type_invariant(self);
        }
        UBig(self.0.clone())
    }
}

impl PartialEqSpecImpl for UBig {
    open spec fn obeys_eq_spec() -> bool {
        true
    }

    open spec fn eq_spec(&self, other: &UBig) -> bool {
        self@ == other@
    }
}

impl PartialEq for UBig {
    /// Whether both are the same number. As every value is canonical, this
    /// is so exactly when both are stored alike.
    fn eq(&self, other: &UBig) -> (equal: bool) {
        proof {
            use_type_invariant(self);
            use_type_invariant(other);
            lemma_canonical_small(self.0@);
            lemma_canonical_small(other.0@);
        }
        match (&self.0, &other.0) {
            (Repr::Small(a), Repr::Small(b)) => *a == *b,
            (Repr::Large(a), Repr::Large(b)) => {
                proof {
                    if a.value() == b.value() {
                        lemma_trimmed_unique(a@, b@);
                    }
                }
                *a == *b
            },
            _ => false,
        }
    }
}

impl Eq for UBig {

}

/// No function of a buffer gives the big integer made from it: a contract
/// cannot build a buffer from words. What `from` returns is stated by its own
/// `ensures`, over views.
impl FromSpecImpl<Buffer> for UBig {
    open spec fn obeys_from_spec() -> bool {
        false
    }

    open spec fn from_spec(buffer: Buffer) -> UBig {
        arbitrary()
    }
}

impl From<Buffer> for UBig {
    /// The integer that `buffer` stands for. The buffer need not be trimmed.
    fn from(buffer: Buffer) -> (value: UBig)
        ensures
            value@ == buffer.value(),
            value.representation().is_canonical(),
            value.representation() == (if trim(buffer@).len() == 0 {
                ReprView::Small(0)
            } else if trim(buffer@).len() == 1 {
                ReprView::Small(trim(buffer@)[0])
            } else {
                ReprView::Large(trim(buffer@))
            }),
    {
        let mut buffer = buffer;
        buffer.pop_leading_zeros();
        let len = buffer.len();
        if len == 0 {
            UBig(Repr::Small(0))
        } else if len == 1 {
            let word = buffer.get(0);
            proof {
                assert(buffer@ =~= seq![word]);
                lemma_value_single(word);
            }
            UBig(Repr::Small(word))
        } else {
            UBig(Repr::Large(buffer))
        }
    }
}

} // verus!
