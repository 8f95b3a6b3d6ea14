use vstd::prelude::*;

verus! {

/// The rule sets a game can be played with.
#[derive(Debug, Clone, Copy, PartialEq, Eq, Structural)]
pub enum Expansions {
    Base,
    Seafarers,
    CitiesAndKnights,
}

/// A game session and the rule set it plays.
pub struct Settlers {
    pub scene: Expansions,
}

impl Settlers {
    /// A session of the base game.
    pub fn new() -> (r: Self)
        ensures
            r.scene == Expansions::Base,
    {
        Settlers { scene: Expansions::Base }
    }
}

} // verus!
