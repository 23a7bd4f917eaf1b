//! Random words from the generator of the thread.
//!
//! A [`RandomWord`] cannot be made, copied or changed but by drawing it, and a [`RandomSource`]
//! keeps every word that has been drawn from it. So whoever has to show which words of a source
//! some result comes of has drawn them.
use vstd::prelude::*;

verus! {

/// A 32-bit word that was drawn at random.
pub struct RandomWord {
    bits: u32,
}

impl View for RandomWord {
    type V = u32;

    closed spec fn view(&self) -> u32 {
        self.bits
    }
}

impl RandomWord {
    /// The word.
    pub fn bits(&self) -> (r: u32)
        ensures
            r == self@,
    {
        self.bits
    }
}

/// `rand::Rng::random` of a 32-bit word from `rand::rng`, the generator of the thread. Any word may
/// come.
#[verifier::external_body]
fn random_word() -> RandomWord {
    RandomWord { bits: rand::Rng::random(&mut rand::rng()) }
}

/// The words that have been drawn, one after the other.
pub struct RandomSource {
    words: Vec<RandomWord>,
}

impl View for RandomSource {
    type V = Seq<u32>;

    closed spec fn view(&self) -> Seq<u32> {
        self.words@.map_values(|w: RandomWord| w@)
    }
}

impl RandomSource {
    /// Whether the words came of the generator, each by a draw of its own. They did: there is no
    /// other way to make a source. Other modules do not see the definition, so they know it only of
    /// the sources that they have drawn from.
    pub closed spec fn is_drawn(self) -> bool {
        true
    }

    /// The words that have been drawn.
    pub closed spec fn words(self) -> Seq<RandomWord> {
        self.words@
    }

    /// A source from which nothing has been drawn.
    pub fn new() -> (r: RandomSource)
        ensures
            r.is_drawn(),
            r@ == Seq::<u32>::empty(),
    {
        let r = RandomSource { words: Vec::new() };
        assert(r@ =~= Seq::<u32>::empty());
        r
    }

    /// Draws a word.
    pub fn next(&mut self) -> (r: u32)
        ensures
            final(self).is_drawn(),
            final(self)@ == old(self)@.push(r),
    {
        let word = random_word();
        let r = word.bits();
        self.words.push(word);
        assert(self@ =~= old(self)@.push(r));
        r
    }

    /// Adds the words that were drawn from another source behind its own.
    pub fn append(&mut self, other: RandomSource)
        ensures
            final(self).is_drawn(),
            final(self)@ == old(self)@ + other@,
    {
        let mut words = other.words;
        self.words.append(&mut words);
        assert(self@ =~= old(self)@ + other@);
    }
}

/// A source holds its words whole, in the order in which they were drawn.
pub proof fn lemma_source_holds_its_words(source: RandomSource, i: int)
    requires
        0 <= i < source.words().len(),
    ensures
        source@.len() == source.words().len(),
        source@[i] == source.words()[i]@,
{
}

/// Every 32-bit word may come.
pub proof fn lemma_every_word_may_come(bits: u32) -> (w: RandomWord)
    ensures
        w@ == bits,
{
    RandomWord { bits }
}

/// A word tells its draw apart from those of other words.
pub proof fn lemma_words_are_told_apart(a: RandomWord, b: RandomWord)
    ensures
        a@ == b@ <==> a == b,
{
}

} // verus!
