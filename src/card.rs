//! Rarity of the game cards that drive a client.

use vstd::prelude::*;

verus! {

#[derive(Clone, Copy, Debug, PartialEq, Eq, Structural)]
pub enum Rarity {
    Common,
    Rare,
    Quacking,
}

impl Rarity {
    /// Weight of a card of this rarity when drawing: common cards are the
    /// likeliest.
    pub fn to_prob_value(self) -> (r: u32)
        ensures
            r == (match self {
                Rarity::Common => 3u32,
                Rarity::Rare => 2u32,
                Rarity::Quacking => 1u32,
            }),
    {
        match self {
            Rarity::Common => 3,
            Rarity::Rare => 2,
            Rarity::Quacking => 1,
        }
    }
}

} // verus!
