//! Cards, the board, the rules of play and the display skins.
pub mod board;
pub mod counts;
pub mod game;
pub mod skin;

pub use board::{AnimationAct, Board, BoardModel, BoardPos, DepotRole, MoveModel, NUM_DEPOTS};
pub use counts::{Dangers, SuitCount, SuitCounts};
pub use game::{ActionRecord, AnimationKey, GameModel, GameState, GameStatus, ScreenState};
pub use skin::{ColorMode, ColorSkin, RankSkin, Skin, SuitSkin};

use vstd::prelude::*;

verus! {

/// The three suits of the deck.  Foxes eat rabbits and rabbits eat carrots.
#[derive(Clone, Copy, Debug, PartialEq, Eq, Hash, Structural)]
pub enum Suit {
    Fox,
    Rabbit,
    Carrot,
}

/// A playing card: a rank from 1 to 13 and a suit.
#[derive(Clone, Copy, Debug, PartialEq, Eq, Structural)]
pub struct Card {
    pub rank: u8,
    pub suit: Suit,
}

/// Number of suits in the deck.
pub const NUM_SUITS: usize = 3;

/// Number of ranks in each suit.
pub const NUM_RANKS: usize = 13;

/// Number of cards in the deck.
pub const DECK_SIZE: usize = NUM_RANKS * NUM_SUITS;

/// The ranks of a suit, in increasing order.
pub const RANKS: [u8; NUM_RANKS] = [1, 2, 3, 4, 5, 6, 7, 8, 9, 10, 11, 12, 13];

impl Suit {
    /// Position of the suit in the order `Fox`, `Rabbit`, `Carrot`.
    pub open spec fn index(self) -> int {
        match self {
            Suit::Fox => 0,
            Suit::Rabbit => 1,
            Suit::Carrot => 2,
        }
    }

    /// The suit at position `i` (taken modulo three) of that order.
    pub open spec fn at(i: int) -> Suit {
        if i % 3 == 0 {
            Suit::Fox
        } else if i % 3 == 1 {
            Suit::Rabbit
        } else {
            Suit::Carrot
        }
    }

    /// All suits, in declaration order.
    pub fn all() -> (res: [Suit; NUM_SUITS])
        ensures
            forall|i: int| 0 <= i < 3 ==> #[trigger] res@[i] == Suit::at(i),
    {
        [Suit::Fox, Suit::Rabbit, Suit::Carrot]
    }
}

/// The deck before shuffling: for each rank in increasing order, one card of
/// each suit in the order `Fox`, `Rabbit`, `Carrot`.
pub open spec fn standard_deck() -> Seq<Card> {
    Seq::new(DECK_SIZE as nat, |k: int| Card { rank: (k / 3 + 1) as u8, suit: Suit::at(k) })
}

/// The settings a player can change: whether undo is allowed, and the skin.
#[derive(Clone, Copy, Debug, PartialEq, Eq, Structural)]
pub struct SettingsState {
    pub allow_undo: bool,
    pub skin: Skin,
}

} // verus!
