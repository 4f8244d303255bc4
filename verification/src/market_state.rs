//! The state of the market that gates order entry.

use vstd::prelude::*;

verus! {

/// Market state. When not Open, order submission is rejected by the adapters.
#[derive(Clone, Copy, Debug, PartialEq, Eq, Structural)]
pub enum MarketState {
    Open,
    Halted,
    Closed,
}

impl MarketState {
    /// The name of the state.
    pub open spec fn name(self) -> Seq<char> {
        match self {
            MarketState::Open => "Open"@,
            MarketState::Halted => "Halted"@,
            MarketState::Closed => "Closed"@,
        }
    }

    /// The state with the given name, if there is one.
    pub open spec fn named(text: Seq<char>) -> Option<MarketState> {
        if text == "Open"@ {
            Some(MarketState::Open)
        } else if text == "Halted"@ {
            Some(MarketState::Halted)
        } else if text == "Closed"@ {
            Some(MarketState::Closed)
        } else {
            None
        }
    }

    pub fn as_str(&self) -> (r: &'static str)
        ensures
            r@ == self.name(),
    {
        match self {
            MarketState::Open => "Open",
            MarketState::Halted => "Halted",
            MarketState::Closed => "Closed",
        }
    }

    /// The state with exactly this name: `Open`, `Halted` or `Closed`.
    pub fn from_str(s: &str) -> (r: Option<MarketState>)
        ensures
            r == MarketState::named(s@),
    {
        let text = s.to_owned();
        if text == "Open".to_owned() {
            Some(MarketState::Open)
        } else if text == "Halted".to_owned() {
            Some(MarketState::Halted)
        } else if text == "Closed".to_owned() {
            Some(MarketState::Closed)
        } else {
            None
        }
    }

    /// Every state is found again by its name.
    pub proof fn lemma_name_round_trip(state: MarketState)
        ensures
            MarketState::named(state.name()) == Some(state),
    {
        reveal_strlit("Open");
        reveal_strlit("Halted");
        reveal_strlit("Closed");
        assert("Open"@.len() == 4);
        assert("Halted"@.len() == 6);
        assert("Closed"@.len() == 6);
        assert("Halted"@[0] != "Closed"@[0]);
    }
}

} // verus!
