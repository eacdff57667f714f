//! The seeded generator by which a block author picks what fits in a block.

use rand::seq::SliceRandom;
use rand::SeedableRng;
use vstd::prelude::*;

verus! {

/// A ChaCha generator, as the seed it was made of and the number of 32-bit words
/// that were drawn from it: these two determine all that it draws from then on.
#[derive(Clone, Copy, Debug, PartialEq, Eq)]
pub struct SelectionRng {
    /// The seed.
    pub seed: [u8; 32],
    /// How many words were drawn.
    pub word_pos: u128,
}

/// The order in which shuffling leaves the given items, for a ChaCha generator of
/// the given seed and position, and the position of the generator afterwards.
pub uninterp spec fn shuffle_outcome(seed: Seq<u8>, word_pos: u128, items: Seq<usize>) -> (
    Seq<usize>,
    u128,
);

/// Trusted: `shuffle` of `rand`'s `SliceRandom`, by a `ChaChaRng` of `rand_chacha`
/// that is made of the seed and set to the position. The outcome depends on
/// nothing but seed, position and items, and the items are only reordered.
#[verifier::external_body]
fn shuffle_at(items: Vec<usize>, seed: [u8; 32], word_pos: u128) -> (r: (Vec<usize>, u128))
    ensures
        (r.0@, r.1) == shuffle_outcome(seed@, word_pos, items@),
        r.0@.to_multiset() == items@.to_multiset(),
{
    let mut items = items;
    let mut rng = rand_chacha::ChaChaRng::from_seed(seed);
    rng.set_word_pos(word_pos);
    items.shuffle(&mut rng);
    (items, rng.get_word_pos())
}

impl SelectionRng {
    pub open spec fn spec_from_seed(seed: [u8; 32]) -> SelectionRng {
        SelectionRng { seed, word_pos: 0 }
    }

    /// A fresh generator.
    #[verifier::when_used_as_spec(spec_from_seed)]
    pub fn from_seed(seed: [u8; 32]) -> (r: SelectionRng)
        ensures
            r == SelectionRng::spec_from_seed(seed),
            r.seed == seed && r.word_pos == 0,
    {
        SelectionRng { seed, word_pos: 0 }
    }

    /// The items in the order that shuffling leaves them in.
    pub open spec fn shuffled(self, items: Seq<usize>) -> Seq<usize> {
        shuffle_outcome(self.seed@, self.word_pos, items).0
    }

    /// The generator after shuffling the items.
    pub open spec fn after_shuffle(self, items: Seq<usize>) -> SelectionRng {
        SelectionRng {
            seed: self.seed,
            word_pos: shuffle_outcome(self.seed@, self.word_pos, items).1,
        }
    }

    /// Brings the items into a random order.
    pub fn shuffle(&mut self, items: Vec<usize>) -> (r: Vec<usize>)
        ensures
            r@ == old(self).shuffled(items@),
            *final(self) == old(self).after_shuffle(items@),
            (r@, final(self).word_pos) == shuffle_outcome(
                old(self).seed@,
                old(self).word_pos,
                items@,
            ),
            final(self).seed == old(self).seed,
            r@.to_multiset() == items@.to_multiset(),
    {
        let (r, word_pos) = shuffle_at(items, self.seed, self.word_pos);
        self.word_pos = word_pos;
        r
    }
}

/// A shuffle depends on the seed, the position and the items alone, moves the position on
/// as the generator says, and keeps the seed. A fresh generator has the given seed and has
/// drawn nothing.
pub proof fn shuffles_follow_the_generator(rng: SelectionRng, items: Seq<usize>, seed: [u8; 32])
    ensures
        rng.shuffled(items) == shuffle_outcome(rng.seed@, rng.word_pos, items).0,
        rng.after_shuffle(items).word_pos == shuffle_outcome(rng.seed@, rng.word_pos, items).1,
        rng.after_shuffle(items).seed == rng.seed,
        SelectionRng::from_seed(seed).seed == seed,
        SelectionRng::from_seed(seed).word_pos == 0,
{
}

} // verus!
