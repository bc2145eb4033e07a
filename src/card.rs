use vstd::prelude::*;

verus! {

/// The two sides of a duel.
#[derive(PartialEq, Eq, Structural, Clone, Copy, Debug)]
pub enum Player {
    Computer,
    Person,
}

/// One dealt card: who must play it, and its rank.
#[derive(PartialEq, Eq, Structural, Clone, Copy, Debug)]
pub struct Card {
    pub player: Player,
    pub number: u8,
}

impl Card {
    pub fn new(player: Player, number: u8) -> (r: Card)
        ensures
            r == (Card { player, number }),
    {
        Card { player, number }
    }
}

} // verus!
