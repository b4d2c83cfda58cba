use vstd::prelude::*;

verus! {

/// The two sides of a game, named by who moves first.
#[derive(Clone, Copy, PartialEq, Eq, Debug, Structural)]
pub enum PlayerOrder {
    First,
    Second,
}

impl PlayerOrder {
    pub open spec fn spec_flip(&self) -> PlayerOrder {
        match self {
            PlayerOrder::First => PlayerOrder::Second,
            PlayerOrder::Second => PlayerOrder::First,
        }
    }

    /// The other side.
    #[verifier::when_used_as_spec(spec_flip)]
    pub fn flip(&self) -> (r: Self)
        ensures
            r == self.spec_flip(),
    {
        match self {
            PlayerOrder::First => PlayerOrder::Second,
            PlayerOrder::Second => PlayerOrder::First,
        }
    }
}

/// A set of players.
#[derive(Clone, Copy, PartialEq, Eq, Structural)]
pub enum PlayerSet {
    Neither,
    First,
    Second,
    All,
}

impl PlayerSet {
    pub open spec fn spec_includes(&self, player: PlayerOrder) -> bool {
        match self {
            PlayerSet::Neither => false,
            PlayerSet::First => player == PlayerOrder::First,
            PlayerSet::Second => player == PlayerOrder::Second,
            PlayerSet::All => true,
        }
    }

    /// Whether `player` belongs to the set.
    #[verifier::when_used_as_spec(spec_includes)]
    pub fn includes(&self, player: PlayerOrder) -> (r: bool)
        ensures
            r == self.spec_includes(player),
    {
        match self {
            PlayerSet::Neither => false,
            PlayerSet::First => player == PlayerOrder::First,
            PlayerSet::Second => player == PlayerOrder::Second,
            PlayerSet::All => true,
        }
    }
}

/// Flipping twice gives the player back.
pub proof fn lemma_flip_involution(p: PlayerOrder)
    ensures
        p.flip().flip() == p,
        p.flip() != p,
{
}

} // verus!
