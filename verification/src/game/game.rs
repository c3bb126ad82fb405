//! The rules of play: selecting and moving stacks of cards, losing and winning,
//! showing moves, undoing them and starting over.
use rand::rngs::ThreadRng;
use rand::seq::SliceRandom;
use vstd::prelude::*;

use crate::game::board::{
    apply_acts, depot_role, Board, BoardModel, BoardPos, DepotRole, MoveModel, NUM_DEPOTS,
};
use crate::game::board::{lemma_advanced_keeps_cards, lemma_moved_keeps_cards};
use crate::game::counts::{
    actual_counts_fit, any_card, count_where, depot_sum, first_danger, lemma_count_all, lemma_count_le_len, lemma_count_none, lemma_count_push, lemma_count_zero,
    lemma_depot_sum_split, of_suit, role_count,
};
use crate::game::{
    standard_deck, Card, SettingsState, Skin, Suit, DECK_SIZE, NUM_RANKS, NUM_SUITS, RANKS,
};

verus! {

#[verifier::external_type_specification]
#[verifier::external_body]
pub struct ExThreadRng(ThreadRng);

/// The key that identifies the moves being shown, so that a late report of a
/// finished animation is told apart from a current one.
pub type AnimationKey = u16;

/// A move that was made: the stack that started at `pos1` went to `pos2`.
#[derive(Clone, Copy, Debug, PartialEq, Eq, Structural)]
pub struct ActionRecord {
    pub pos1: BoardPos,
    pub pos2: BoardPos,
}

/// The screen that is shown.
#[derive(Clone, Copy, Debug, PartialEq, Eq, Structural)]
pub enum ScreenState {
    Game,
    Settings,
    Help,
}

impl Default for ScreenState {
    fn default() -> (res: Self)
        ensures
            res == ScreenState::Game,
    {
        ScreenState::Game
    }
}

/// Whether the game goes on, is won, or is lost because of a suit in danger.
#[derive(Clone, Copy, Debug, PartialEq, Eq, Structural)]
pub enum GameStatus {
    Ongoing,
    Won,
    Lost { danger: Suit },
}

impl Default for GameStatus {
    fn default() -> (res: Self)
        ensures
            res == GameStatus::Ongoing,
    {
        GameStatus::Ongoing
    }
}

/// The whole state of a game.
#[derive(Clone, Debug, PartialEq, Eq)]
pub struct GameState {
    pub board: Board,
    pub deal: Vec<Card>,
    pub animation_key: AnimationKey,
    pub history: Vec<ActionRecord>,
    pub undo_stack: Vec<usize>,
    pub already_won: bool,
    pub num_wins: i32,
    pub screen_state: ScreenState,
    pub allow_undo: bool,
    pub skin: Skin,
}

/// The state of a game as values.  `history` lists the moves made since the
/// deal; each entry of `undo_stack` is the length the history had before one
/// move of the player, so that undo takes the history back to it.
#[verifier::ext_equal]
pub struct GameModel {
    pub board: BoardModel,
    pub deal: Seq<Card>,
    pub animation_key: AnimationKey,
    pub history: Seq<ActionRecord>,
    pub undo_stack: Seq<usize>,
    pub already_won: bool,
    pub num_wins: i32,
    pub screen_state: ScreenState,
    pub allow_undo: bool,
    pub skin: Skin,
}

impl View for GameState {
    type V = GameModel;

    open spec fn view(&self) -> GameModel {
        GameModel {
            board: self.board@,
            deal: self.deal@,
            animation_key: self.animation_key,
            history: self.history@,
            undo_stack: self.undo_stack@,
            already_won: self.already_won,
            num_wins: self.num_wins,
            screen_state: self.screen_state,
            allow_undo: self.allow_undo,
            skin: self.skin,
        }
    }
}

/// Whether `front` may lie on `back`: the suits differ and the rank of `front`
/// is lower (gaps are allowed).
pub open spec fn can_stack_spec(back: Card, front: Card) -> bool {
    back.suit != front.suit && front.rank < back.rank
}

/// Whether `cards`, from bottom to top, form a stack: each card may lie on the
/// one below it.
pub open spec fn stackable(cards: Seq<Card>) -> bool {
    forall|i: int| 0 <= i < cards.len() - 1 ==> can_stack_spec(#[trigger] cards[i], cards[i + 1])
}

/// The most cards of suit `suit` one side may hold for the danger rules to be
/// evaluated in bytes: prey counts are compared after adding two.
pub open spec fn suit_limit(suit: Suit) -> nat {
    if suit == Suit::Fox {
        255
    } else {
        253
    }
}

/// Whether the counts of both sides stay within `suit_limit`.
pub open spec fn counts_within_limits(depots: Seq<Seq<Card>>) -> bool {
    forall|r: DepotRole, s: Suit| #[trigger] role_count(depots, r, s) <= suit_limit(s)
}

/// Whether the danger rules can be evaluated in bytes on `depots`: every count
/// fits in a byte, the prey counts of the left side fit after adding two, and
/// so do those of the right side when the left side is not in danger (only
/// then are they compared).
pub open spec fn danger_in_range(depots: Seq<Seq<Card>>) -> bool {
    &&& forall|r: DepotRole, s: Suit| #[trigger] role_count(depots, r, s) <= 255
    &&& role_count(depots, DepotRole::Left, Suit::Rabbit) <= 253
    &&& role_count(depots, DepotRole::Left, Suit::Carrot) <= 253
    &&& first_danger(
        role_count(depots, DepotRole::Left, Suit::Fox) as int,
        role_count(depots, DepotRole::Left, Suit::Rabbit) as int,
        role_count(depots, DepotRole::Left, Suit::Carrot) as int,
    ) is None ==> role_count(depots, DepotRole::Right, Suit::Rabbit) <= 253 && role_count(
        depots,
        DepotRole::Right,
        Suit::Carrot,
    ) <= 253
}

/// The first suit in danger on the board: the left side before the right side,
/// and on each side rabbits before carrots.
pub open spec fn danger_of(depots: Seq<Seq<Card>>) -> Option<Suit> {
    let left = first_danger(
        role_count(depots, DepotRole::Left, Suit::Fox) as int,
        role_count(depots, DepotRole::Left, Suit::Rabbit) as int,
        role_count(depots, DepotRole::Left, Suit::Carrot) as int,
    );
    match left {
        Some(s) => Some(s),
        None => first_danger(
            role_count(depots, DepotRole::Right, Suit::Fox) as int,
            role_count(depots, DepotRole::Right, Suit::Rabbit) as int,
            role_count(depots, DepotRole::Right, Suit::Carrot) as int,
        ),
    }
}

/// Whether each depot of the right side holds a full suit's worth of cards.
pub open spec fn right_side_full(depots: Seq<Seq<Card>>) -> bool {
    forall|i: int| NUM_SUITS <= i < NUM_DEPOTS ==> #[trigger] depots[i].len() == NUM_RANKS
}

/// What computing the status of board `b` needs: unless moves are pending, six
/// depots, and unless the right side is full, counts on which the danger rules
/// can be evaluated.
pub open spec fn status_in_range(b: BoardModel) -> bool {
    b.acts.len() == 0 ==> b.depots.len() >= NUM_DEPOTS && (!right_side_full(b.depots)
        ==> danger_in_range(b.depots))
}

/// The status of a board: the game goes on while moves are pending; it is won
/// when every depot on the right holds a full suit's worth of cards; it is lost
/// when a prey is in danger on a side; otherwise it goes on.
pub open spec fn status_of(b: BoardModel) -> GameStatus {
    if b.acts.len() > 0 {
        GameStatus::Ongoing
    } else if right_side_full(b.depots) {
        GameStatus::Won
    } else {
        match danger_of(b.depots) {
            Some(d) => GameStatus::Lost { danger: d },
            None => GameStatus::Ongoing,
        }
    }
}

/// `i + 1` on `usize`, wrapping around at the top.
pub open spec fn next_index(i: usize) -> usize {
    if i == usize::MAX {
        0
    } else {
        (i + 1) as usize
    }
}

impl GameModel {
    /// Whether moves are still to be shown.
    pub open spec fn busy(self) -> bool {
        self.board.acts.len() > 0
    }

    /// The status of the game.
    pub open spec fn status(self) -> GameStatus {
        status_of(self.board)
    }

    /// Whether the game is won or lost.
    pub open spec fn over(self) -> bool {
        self.status() != GameStatus::Ongoing
    }

    /// Whether the stack from `pos` to the top of its depot may be picked up:
    /// the depot is on the boat's side, `pos` holds a card, and the cards from
    /// `pos` upwards form a stack.
    pub open spec fn can_select(self, pos: BoardPos) -> bool {
        match depot_role(pos.depot_index as int) {
            None => false,
            Some(role) => {
                &&& role == self.board.boat_pos
                &&& pos.card_index < self.board.depots[pos.depot_index as int].len()
                &&& stackable(
                    self.board.depots[pos.depot_index as int].skip(pos.card_index as int),
                )
            },
        }
    }

    /// Whether the stack starting at `pos1` may go to `pos2`: another depot,
    /// `pos2` just above its top, and either that depot is empty or the bottom
    /// card of the stack may lie on its top card.
    pub open spec fn can_move(self, pos1: BoardPos, pos2: BoardPos) -> bool {
        let depot1 = self.board.depots[pos1.depot_index as int];
        let depot2 = self.board.depots[pos2.depot_index as int];
        &&& pos1.depot_index != pos2.depot_index
        &&& pos2.card_index == depot2.len()
        &&& (depot2.len() == 0 || can_stack_spec(depot2.last(), depot1[pos1.card_index as int]))
    }

    /// Whether a move can be undone: undo is allowed and a move was made.
    pub open spec fn undo_possible(self) -> bool {
        self.allow_undo && self.undo_stack.len() > 0
    }

    /// The game with `pos` selected.
    pub open spec fn with_selection(self, pos: Option<BoardPos>) -> GameModel {
        GameModel { board: BoardModel { selected: pos, ..self.board }, ..self }
    }

    /// The game after a click on `pos`.  Nothing happens while moves are shown
    /// or once the game is over.  With nothing selected, the click selects
    /// `pos` if it may be picked up.  With `src` selected, a click on `src`
    /// clears the selection, a click on another card of the same depot that
    /// may be picked up selects it instead, and any other click asks to move
    /// the selected stack just above `pos`; if that move is allowed it is made
    /// and recorded, and undo returns to the history as it was.
    pub open spec fn clicked(self, pos: BoardPos) -> GameModel {
        if self.busy() || self.over() {
            self
        } else {
            match self.board.selected {
                Some(src) => {
                    if pos == src {
                        self.with_selection(None)
                    } else if src.depot_index == pos.depot_index && self.can_select(pos) {
                        self.with_selection(Some(pos))
                    } else {
                        let dest = BoardPos {
                            depot_index: pos.depot_index,
                            card_index: next_index(pos.card_index),
                        };
                        if !self.can_move(src, dest) {
                            self
                        } else {
                            GameModel {
                                board: self.board.moved(src, dest),
                                history: self.history.push(ActionRecord { pos1: src, pos2: dest }),
                                undo_stack: self.undo_stack.push(self.history.len() as usize),
                                ..self
                            }
                        }
                    }
                },
                None => {
                    if self.can_select(pos) {
                        self.with_selection(Some(pos))
                    } else {
                        self
                    }
                },
            }
        }
    }
}

/// Whether the moves of `hist` can be taken back one by one, the last first,
/// starting from the settled board `b`: each time the cards from `pos2`
/// upwards go back to the depot of `pos1`.
pub open spec fn reversible(b: BoardModel, hist: Seq<ActionRecord>) -> bool
    decreases hist.len(),
{
    if hist.len() == 0 {
        true
    } else {
        let r = hist.last();
        &&& b.move_in_range(r.pos2, r.pos1)
        &&& r.pos1.depot_index < b.depots.len()
        &&& reversible(b.moved(r.pos2, r.pos1).advanced(), hist.drop_last())
    }
}

/// The board once the moves of `hist` past the first `target` have been taken
/// back, the last first, each landing at once.
pub open spec fn unwind(b: BoardModel, hist: Seq<ActionRecord>, target: int) -> BoardModel
    decreases hist.len(),
{
    if hist.len() == 0 || hist.len() <= target {
        b
    } else {
        let r = hist.last();
        unwind(b.moved(r.pos2, r.pos1).advanced(), hist.drop_last(), target)
    }
}

/// Whether the moves of `hist` past the first `target` can be taken back, the
/// last first, starting from the settled board `b`.
pub open spec fn undo_safe(b: BoardModel, hist: Seq<ActionRecord>, target: int) -> bool
    decreases hist.len(),
{
    if hist.len() == 0 || hist.len() <= target {
        true
    } else {
        let r = hist.last();
        &&& b.move_in_range(r.pos2, r.pos1)
        &&& r.pos1.depot_index < b.depots.len()
        &&& undo_safe(b.moved(r.pos2, r.pos1).advanced(), hist.drop_last(), target)
    }
}

impl GameModel {
    /// The invariant of a game in play: six depots; pending moves go to
    /// depots and only exist while nothing is selected; a selection lies on
    /// the boat's side and holds a card; no suit outgrows `suit_limit`; the
    /// history can be taken back from the settled board; the deal is a deck.
    pub open spec fn wf(self) -> bool {
        let b = self.board;
        &&& b.depots.len() == NUM_DEPOTS
        &&& forall|i: int| 0 <= i < b.acts.len() ==> (#[trigger] b.acts[i]).to.depot_index < NUM_DEPOTS
        &&& (b.acts.len() > 0 ==> b.selected is None)
        &&& (b.selected matches Some(p) ==> depot_role(p.depot_index as int) == Some(b.boat_pos)
            && p.card_index < b.depots[p.depot_index as int].len())
        &&& forall|s: Suit| #[trigger] b.card_count(of_suit(s)) <= suit_limit(s)
        &&& reversible(b.advanced(), self.history)
        &&& self.deal.len() == DECK_SIZE
    }

    /// The game once the moves shown under `key` have finished: with a stale
    /// key nothing happens; otherwise the key moves on, the pending moves land,
    /// and a first win is counted.
    pub open spec fn animated(self, key: AnimationKey) -> GameModel {
        if key != self.animation_key {
            self
        } else {
            let b = self.board.advanced();
            let won = status_of(b) == GameStatus::Won;
            GameModel {
                animation_key: (if key == u16::MAX {
                    0
                } else {
                    key + 1
                }) as u16,
                board: b,
                num_wins: if won && !self.already_won {
                    (self.num_wins + 1) as i32
                } else {
                    self.num_wins
                },
                already_won: self.already_won || won,
                ..self
            }
        }
    }

    /// The game after undo: unless moves are shown or undo is not possible, the
    /// moves of the last player move are taken back and the history returns
    /// to the length it had before that move.
    pub open spec fn undone(self) -> GameModel {
        if self.busy() || !self.undo_possible() {
            self
        } else {
            let target = self.undo_stack.last() as int;
            GameModel {
                board: unwind(self.board, self.history, target),
                history: if target < self.history.len() {
                    self.history.take(target)
                } else {
                    self.history
                },
                undo_stack: self.undo_stack.drop_last(),
                ..self
            }
        }
    }

    /// The game after a restart: unless no move was made or undo is not
    /// possible, the board is dealt again from the same deal and the history
    /// is forgotten.
    pub open spec fn restarted(self) -> GameModel {
        if self.history.len() == 0 || !self.undo_possible() {
            self
        } else {
            GameModel {
                board: BoardModel::dealt(self.deal),
                history: Seq::empty(),
                undo_stack: Seq::empty(),
                ..self
            }
        }
    }

    /// What a click on `pos` needs to run: while nothing is pending, six
    /// depots and a status that can be computed (`status_in_range`); and,
    /// when the click asks to move the selected stack to another depot, both
    /// depots exist, the stack's bottom card exists when the click names the
    /// top of the destination, and an allowed move goes to a depot.
    pub open spec fn click_in_range(self, pos: BoardPos) -> bool {
        &&& status_in_range(self.board)
        &&& !self.busy() ==> self.board.depots.len() >= NUM_DEPOTS
        &&& (self.board.selected is Some && !self.busy() && !self.over()
            && self.board.selected->0.depot_index != pos.depot_index) ==> {
            let src = self.board.selected->0;
            let dest = BoardPos {
                depot_index: pos.depot_index,
                card_index: next_index(pos.card_index),
            };
            &&& src.depot_index < self.board.depots.len()
            &&& pos.depot_index < self.board.depots.len()
            &&& dest.card_index == self.board.depots[pos.depot_index as int].len()
                ==> src.card_index < self.board.depots[src.depot_index as int].len()
            &&& self.can_move(src, dest) ==> pos.depot_index < NUM_DEPOTS
        }
    }

    /// What finishing the moves shown under `key` needs to run: with the
    /// current key, pending moves that go to depots, six depots, a status of
    /// the settled board that can be computed, and room to count a first win.
    pub open spec fn animation_in_range(self, key: AnimationKey) -> bool {
        key == self.animation_key ==> {
            &&& self.board.acts_in_range()
            &&& self.board.depots.len() >= NUM_DEPOTS
            &&& status_in_range(self.board.advanced())
            &&& (status_of(self.board.advanced()) == GameStatus::Won && !self.already_won
                ==> self.num_wins < i32::MAX)
        }
    }

    /// What undo needs to run: the moves it takes back can be taken back.
    pub open spec fn undo_in_range(self) -> bool {
        !self.busy() && self.undo_possible() ==> undo_safe(
            self.board,
            self.history,
            self.undo_stack.last() as int,
        )
    }

    /// Whether the selection, if any, may be picked up and nothing is pending
    /// meanwhile.
    pub open spec fn selection_ok(self) -> bool {
        self.board.selected matches Some(p) ==> self.can_select(p) && self.board.acts.len() == 0
    }

    /// Whether the undo marks are sound: strictly increasing, each below the
    /// length of the history, and present exactly when there is history.
    pub open spec fn undo_marks_ok(self) -> bool {
        &&& forall|i: int, j: int|
            0 <= i < j < self.undo_stack.len() ==> self.undo_stack[i] < self.undo_stack[j]
        &&& forall|i: int| 0 <= i < self.undo_stack.len() ==> self.undo_stack[i] < self.history.len()
        &&& (self.undo_stack.len() == 0 <==> self.history.len() == 0)
    }

    /// Whether the first undo mark, if any, is the empty history.
    pub open spec fn marks_start_at_zero(self) -> bool {
        self.undo_stack.len() > 0 ==> self.undo_stack[0] == 0
    }

    /// A freshly dealt game from `deal`, keeping the wins, the screen and the
    /// settings.
    pub open spec fn redealt(self, deal: Seq<Card>) -> GameModel {
        GameModel {
            board: BoardModel::dealt(deal),
            deal,
            history: Seq::empty(),
            undo_stack: Seq::empty(),
            already_won: false,
            ..self
        }
    }
}

impl GameState {
    /// Whether moves are still to be shown.
    pub fn is_busy(&self) -> (res: bool)
        ensures
            res == self@.busy(),
    {
        self.is_acting()
    }

    /// Whether moves are still to be shown.
    pub fn is_acting(&self) -> (res: bool)
        ensures
            res == self@.busy(),
    {
        !self.board.animation_acts.is_empty()
    }

    /// Whether `front` may lie on `back`.
    pub fn can_stack(&self, back: Card, front: Card) -> (res: bool)
        ensures
            res == can_stack_spec(back, front),
    {
        back.suit != front.suit && front.rank < back.rank
    }

    /// Whether the stack from `pos` to the top of its depot may be picked up.
    pub fn can_select(&self, pos: BoardPos) -> (res: bool)
        requires
            depot_role(pos.depot_index as int) == Some(self@.board.boat_pos) ==> pos.depot_index
                < self@.board.depots.len(),
        ensures
            res == self@.can_select(pos),
    {
        let depot = pos.depot_index;
        let ord = pos.card_index;
        let role = match DepotRole::role(depot) {
            Some(role) => role,
            None => return false,
        };
        if role != self.board.boat_pos {
            return false;
        }
        if ord >= self.board.depots[depot].len() {
            return false;
        }
        let cards = &self.board.depots[depot];
        let ghost slice = cards@.skip(ord as int);
        assert(self@.board.depots[depot as int] == cards@);
        let mut k: usize = ord;
        while k < cards.len() - 1
            invariant
                ord <= k < cards@.len(),
                depot == pos.depot_index,
                ord == pos.card_index,
                depot_role(depot as int) == Some(self@.board.boat_pos),
                self@.board.depots[depot as int] == cards@,
                slice == cards@.skip(ord as int),
                forall|i: int| 0 <= i < k - ord ==> can_stack_spec(#[trigger] slice[i], slice[i + 1]),
            decreases cards@.len() - k,
        {
            if !self.can_stack(cards[k], cards[k + 1]) {
                assert(!can_stack_spec(slice[k - ord], slice[k - ord + 1]));
                return false;
            }
            k = k + 1;
        }
        true
    }

    /// Whether the stack starting at `pos1` may go to `pos2`.
    pub fn can_move(&self, pos1: BoardPos, pos2: BoardPos) -> (res: bool)
        requires
            pos1.depot_index != pos2.depot_index ==> {
                &&& pos1.depot_index < self@.board.depots.len()
                &&& pos2.depot_index < self@.board.depots.len()
                &&& pos2.card_index == self@.board.depots[pos2.depot_index as int].len()
                    ==> pos1.card_index < self@.board.depots[pos1.depot_index as int].len()
            },
        ensures
            res == self@.can_move(pos1, pos2),
            res == (pos1.depot_index != pos2.depot_index && pos2.card_index
                == self@.board.depots[pos2.depot_index as int].len() && (
            self@.board.depots[pos2.depot_index as int].len() == 0 || ({
                let top = self@.board.depots[pos2.depot_index as int].last();
                let bottom = self@.board.depots[pos1.depot_index as int][pos1.card_index as int];
                top.suit != bottom.suit && bottom.rank < top.rank
            }))),
    {
        if pos1.depot_index == pos2.depot_index {
            return false;
        }
        let depot1 = &self.board.depots[pos1.depot_index];
        let depot2 = &self.board.depots[pos2.depot_index];
        assert(self@.board.depots[pos1.depot_index as int] == depot1@);
        assert(self@.board.depots[pos2.depot_index as int] == depot2@);
        if pos2.card_index != depot2.len() {
            return false;
        }
        let card = depot1[pos1.card_index];
        if depot2.len() == 0 {
            true
        } else {
            self.can_stack(depot2[depot2.len() - 1], card)
        }
    }

    /// Whether a move can be undone: undo is allowed and a move was made.
    pub fn undo_possible(&self) -> (res: bool)
        ensures
            res == self@.undo_possible(),
    {
        self.allow_undo && !self.undo_stack.is_empty()
    }

    /// The status of the game.
    pub fn game_status(&self) -> (res: GameStatus)
        requires
            status_in_range(self@.board),
        ensures
            res == self@.status(),
    {
        if self.is_busy() {
            return GameStatus::Ongoing;
        }
        let range = DepotRole::Right.range();
        let mut i: usize = range.start;
        let mut full = true;
        while i < range.end
            invariant
                range.start == NUM_SUITS,
                range.end == NUM_DEPOTS,
                NUM_SUITS <= i <= NUM_DEPOTS,
                self@.board.depots.len() >= NUM_DEPOTS,
                full == forall|k: int| NUM_SUITS <= k < i ==> #[trigger] self@.board.depots[k].len() == NUM_RANKS,
            decreases range.end - i,
        {
            assert(self@.board.depots[i as int] == self.board.depots@[i as int]@);
            if self.board.depots[i].len() != NUM_RANKS {
                full = false;
            }
            i = i + 1;
        }
        if full {
            return GameStatus::Won;
        }
        assert(danger_in_range(self@.board.depots));
        assert(actual_counts_fit(self@.board.depots));
        let counts = self.board.actual_suit_counts();
        assert(counts.at(DepotRole::Left, Suit::Rabbit) == role_count(self@.board.depots, DepotRole::Left, Suit::Rabbit));
        assert(counts.at(DepotRole::Left, Suit::Carrot) == role_count(self@.board.depots, DepotRole::Left, Suit::Carrot));
        assert(counts.at(DepotRole::Left, Suit::Fox) == role_count(self@.board.depots, DepotRole::Left, Suit::Fox));
        assert(counts.at(DepotRole::Right, Suit::Rabbit) == role_count(self@.board.depots, DepotRole::Right, Suit::Rabbit));
        assert(counts.at(DepotRole::Right, Suit::Carrot) == role_count(self@.board.depots, DepotRole::Right, Suit::Carrot));
        assert(counts.at(DepotRole::Right, Suit::Fox) == role_count(self@.board.depots, DepotRole::Right, Suit::Fox));
        match counts.find_first_danger() {
            Some(danger) => GameStatus::Lost { danger },
            None => GameStatus::Ongoing,
        }
    }

    /// Whether the game is won.
    pub fn is_won(&self) -> (res: bool)
        requires
            status_in_range(self@.board),
        ensures
            res == (self@.status() == GameStatus::Won),
    {
        self.game_status() == GameStatus::Won
    }

    /// Whether the game is won or lost.
    pub fn is_over(&self) -> (res: bool)
        requires
            status_in_range(self@.board),
        ensures
            res == self@.over(),
    {
        self.game_status() != GameStatus::Ongoing
    }

    /// The settings as they stand.
    pub fn new_settings_state(&self) -> (res: SettingsState)
        ensures
            res == (SettingsState { allow_undo: self.allow_undo, skin: self.skin }),
    {
        SettingsState { allow_undo: self.allow_undo, skin: self.skin }
    }

    /// Takes over the settings `settings`; the caller stores the game.
    pub fn apply_settings(&mut self, settings: &SettingsState)
        ensures
            final(self)@ == (GameModel {
                allow_undo: settings.allow_undo,
                skin: settings.skin,
                ..old(self)@
            }),
    {
        self.allow_undo = settings.allow_undo;
        self.skin = settings.skin;
    }
}

/// Whether the history can be taken back depends only on the depots, the
/// pending moves and the side of the boat.
pub proof fn lemma_reversible_ignores_marks(b1: BoardModel, b2: BoardModel, hist: Seq<ActionRecord>)
    requires
        b1.depots == b2.depots,
        b1.acts == b2.acts,
        b1.boat_pos == b2.boat_pos,
    ensures
        reversible(b1, hist) == reversible(b2, hist),
{
    if hist.len() > 0 {
        let r = hist.last();
        assert(b1.moved(r.pos2, r.pos1).advanced() =~= b2.moved(r.pos2, r.pos1).advanced());
    }
}

/// Under the invariant, both the settled board and, when nothing is pending,
/// the board itself keep their suit counts within `suit_limit`.
pub proof fn lemma_wf_counts(g: GameModel)
    requires
        g.wf(),
    ensures
        g.board.advanced().depots.len() == NUM_DEPOTS,
        counts_within_limits(g.board.advanced().depots),
        !g.busy() ==> g.board.advanced().depots == g.board.depots,
{
    let b = g.board;
    let a = b.advanced();
    assert forall|r: DepotRole, s: Suit| #[trigger] role_count(a.depots, r, s) <= suit_limit(s) by {
        lemma_advanced_keeps_cards(b, of_suit(s));
        assert(b.card_count(of_suit(s)) <= suit_limit(s));
        lemma_depot_sum_split(a.depots, 0, NUM_SUITS as int, NUM_DEPOTS as int, of_suit(s));
    }
    lemma_advanced_keeps_cards(b, of_suit(Suit::Fox));
}

/// A board dealt from a full deck holds no more cards of any kind than the
/// deck.
pub proof fn lemma_dealt_counts(deal: Seq<Card>, p: spec_fn(Card) -> bool)
    requires
        deal.len() == DECK_SIZE,
    ensures
        BoardModel::dealt(deal).card_count(p) <= DECK_SIZE,
{
    let b = BoardModel::dealt(deal);
    reveal_with_fuel(depot_sum, 7);
    assert forall|d: int| 0 <= d < NUM_DEPOTS implies #[trigger] count_where(b.depots[d], p) <= (
    if d < NUM_SUITS {
        NUM_RANKS as int
    } else {
        0
    }) by {
        lemma_count_le_len(b.depots[d], p);
    }
    assert(count_where(b.depots[0], p) <= NUM_RANKS);
    assert(count_where(b.depots[1], p) <= NUM_RANKS);
    assert(count_where(b.depots[2], p) <= NUM_RANKS);
    assert(count_where(b.depots[3], p) <= 0);
    assert(count_where(b.depots[4], p) <= 0);
    assert(count_where(b.depots[5], p) <= 0);
}

/// A move followed by its reverse, each landing at once, puts every card back
/// where it was and the boat back on its side; only the selection and the boat
/// animation are cleared.
pub proof fn lemma_move_then_back(b: BoardModel, src: BoardPos, dest: BoardPos)
    requires
        b.acts.len() == 0,
        b.depots.len() >= NUM_DEPOTS,
        src.depot_index < NUM_DEPOTS,
        dest.depot_index < NUM_DEPOTS,
        src.depot_index != dest.depot_index,
        src.card_index <= b.depots[src.depot_index as int].len(),
        dest.card_index == b.depots[dest.depot_index as int].len(),
        depot_role(src.depot_index as int) == Some(b.boat_pos),
    ensures
        b.moved(src, dest).advanced().move_in_range(dest, src),
        b.moved(src, dest).advanced().moved(dest, src).acts_in_range(),
        b.moved(src, dest).advanced().moved(dest, src).advanced() == (BoardModel {
            selected: None,
            animate_boat: false,
            ..b
        }),
{
    let s = src.depot_index as int;
    let t = dest.depot_index as int;
    let m = b.moved(src, dest);
    assert(m.acts.drop_last() =~= Seq::<MoveModel>::empty());
    assert(apply_acts(m.depots, m.acts.drop_last()) == m.depots);
    let a = m.advanced();
    let cards = b.depots[s].skip(src.card_index as int);
    assert(m.acts.last() == (MoveModel { cards, from: src, to: dest }));
    assert(a.depots == m.depots.update(t, m.depots[t] + cards));
    assert(a.depots[t] == b.depots[t] + cards);
    assert(a.depots[s] == b.depots[s].take(src.card_index as int));
    let n = a.moved(dest, src);
    assert(n.acts.drop_last() =~= Seq::<MoveModel>::empty());
    assert(apply_acts(n.depots, n.acts.drop_last()) == n.depots);
    let back = n.advanced();
    let back_cards = a.depots[t].skip(dest.card_index as int);
    assert(n.acts.last() == (MoveModel { cards: back_cards, from: dest, to: src }));
    assert(back.depots == n.depots.update(s, n.depots[s] + back_cards));
    assert((b.depots[t] + cards).take(dest.card_index as int) =~= b.depots[t]);
    assert((b.depots[t] + cards).skip(dest.card_index as int) =~= cards);
    assert(b.depots[s].take(src.card_index as int) + cards =~= b.depots[s]);
    assert(back.depots =~= b.depots);
    assert(back =~= BoardModel { selected: None, animate_boat: false, ..b });
}

/// A click keeps the invariant of a game in play.
pub proof fn lemma_clicked_wf(g: GameModel, pos: BoardPos)
    requires
        g.wf(),
        g.board.selected is Some && !g.over() ==> pos.depot_index < NUM_DEPOTS,
    ensures
        g.clicked(pos).wf(),
{
    let b = g.board;
    let g1 = g.clicked(pos);
    assert forall|s: Suit| #[trigger] g1.board.card_count(of_suit(s)) <= suit_limit(s) by {
        if g1.board.depots == b.depots && g1.board.acts == b.acts {
            assert(b.card_count(of_suit(s)) <= suit_limit(s));
        } else {
            let src = b.selected->0;
            let dest = BoardPos {
                depot_index: pos.depot_index,
                card_index: next_index(pos.card_index),
            };
            lemma_clicked_move_wf(g, src, dest);
        }
    }
    if g.busy() || g.over() {
    } else {
        match b.selected {
            Some(src) => {
                if pos == src {
                    lemma_reversible_ignores_marks(b.advanced(), g1.board.advanced(), g.history);
                } else if src.depot_index == pos.depot_index && g.can_select(pos) {
                    lemma_reversible_ignores_marks(b.advanced(), g1.board.advanced(), g.history);
                } else {
                    let dest = BoardPos {
                        depot_index: pos.depot_index,
                        card_index: next_index(pos.card_index),
                    };
                    if g.can_move(src, dest) {
                        lemma_clicked_move_wf(g, src, dest);
                    }
                }
            },
            None => {
                if g.can_select(pos) {
                    lemma_reversible_ignores_marks(b.advanced(), g1.board.advanced(), g.history);
                }
            },
        }
    }
}

/// Making an allowed move keeps the invariant of a game in play.
proof fn lemma_clicked_move_wf(g: GameModel, src: BoardPos, dest: BoardPos)
    requires
        g.wf(),
        !g.busy(),
        g.board.selected == Some(src),
        dest.depot_index < NUM_DEPOTS,
        g.can_move(src, dest),
    ensures
        (GameModel {
            board: g.board.moved(src, dest),
            history: g.history.push(ActionRecord { pos1: src, pos2: dest }),
            undo_stack: g.undo_stack.push(g.history.len() as usize),
            ..g
        }).wf(),
{
    let b = g.board;
    let rec = ActionRecord { pos1: src, pos2: dest };
    let g1 = GameModel {
        board: b.moved(src, dest),
        history: g.history.push(rec),
        undo_stack: g.undo_stack.push(g.history.len() as usize),
        ..g
    };
    assert forall|s: Suit| #[trigger] g1.board.card_count(of_suit(s)) <= suit_limit(s) by {
        lemma_moved_keeps_cards(b, src, dest, of_suit(s));
    }
    lemma_move_then_back(b, src, dest);
    let back = BoardModel { selected: None, animate_boat: false, ..b };
    assert(b.advanced().depots == b.depots);
    lemma_reversible_ignores_marks(b.advanced(), back, g.history);
    assert(g1.history.drop_last() =~= g.history);
    assert(g1.history.last() == rec);
    assert forall|i: int| 0 <= i < g1.board.acts.len() implies (#[trigger] g1.board.acts[i]).to.depot_index
        < NUM_DEPOTS by {
        assert(g1.board.acts[i] == g1.board.acts.last());
    }
}

/// Finishing the shown moves keeps the invariant of a game in play.
pub proof fn lemma_animated_wf(g: GameModel, key: AnimationKey)
    requires
        g.wf(),
    ensures
        g.animated(key).wf(),
{
    if key == g.animation_key {
        let b = g.board;
        let a = b.advanced();
        assert forall|s: Suit| #[trigger] a.card_count(of_suit(s)) <= suit_limit(s) by {
            lemma_advanced_keeps_cards(b, of_suit(s));
        }
        lemma_advanced_keeps_cards(b, of_suit(Suit::Fox));
        assert(apply_acts(a.depots, a.acts) == a.depots);
        assert(a.advanced() =~= a);
    }
}

/// Undo takes back a move: when a click on a depot moves a stack, the move is
/// shown and then undone, every card is back in its depot, the boat is back on
/// its side, and the history and the undo stack are as before the click; only
/// the selection and the boat animation are cleared.  It needs no more than a
/// board of six depots and a selection that may be picked up.
pub proof fn lemma_undo_after_move(g: GameModel, pos: BoardPos)
    requires
        g.board.depots.len() >= NUM_DEPOTS,
        g.selection_ok(),
        pos.depot_index < NUM_DEPOTS,
        g.history.len() < usize::MAX,
        g.allow_undo,
        g.clicked(pos).history.len() > g.history.len(),
    ensures
        ({
            let g1 = g.clicked(pos);
            let g3 = g1.animated(g1.animation_key).undone();
            &&& g3.board == (BoardModel { selected: None, animate_boat: false, ..g.board })
            &&& g3.history == g.history
            &&& g3.undo_stack == g.undo_stack
        }),
{
    let b = g.board;
    let src = b.selected->0;
    let dest = BoardPos { depot_index: pos.depot_index, card_index: next_index(pos.card_index) };
    let rec = ActionRecord { pos1: src, pos2: dest };
    let g1 = g.clicked(pos);
    assert(g1.board == b.moved(src, dest));
    assert(g1.history == g.history.push(rec));
    assert(g1.undo_stack == g.undo_stack.push(g.history.len() as usize));
    let g2 = g1.animated(g1.animation_key);
    lemma_move_then_back(b, src, dest);
    let a = b.moved(src, dest).advanced();
    assert(g2.board == a);
    assert(!g2.busy());
    assert(g2.undo_possible());
    let t = g.history.len() as int;
    assert(g2.undo_stack.last() as int == t);
    assert(g2.history.drop_last() =~= g.history);
    assert(unwind(a, g2.history, t) == unwind(a.moved(dest, src).advanced(), g.history, t));
    assert(g2.history.take(t) =~= g.history);
    assert(g2.undo_stack.drop_last() =~= g.undo_stack);
}

/// Taking moves back keeps every card on the board.
pub proof fn lemma_unwind_keeps_cards(
    b: BoardModel,
    hist: Seq<ActionRecord>,
    target: int,
    p: spec_fn(Card) -> bool,
)
    requires
        b.acts.len() == 0,
        reversible(b, hist),
    ensures
        unwind(b, hist, target).card_count(p) == b.card_count(p),
    decreases hist.len(),
{
    if hist.len() > 0 && hist.len() > target {
        let r = hist.last();
        let m = b.moved(r.pos2, r.pos1);
        assert forall|i: int| 0 <= i < m.acts.len() implies (#[trigger] m.acts[i]).to.depot_index
            < m.depots.len() by {
            assert(m.acts[i] == m.acts.last());
        }
        lemma_moved_keeps_cards(b, r.pos2, r.pos1, p);
        lemma_advanced_keeps_cards(m, p);
        lemma_unwind_keeps_cards(m.advanced(), hist.drop_last(), target, p);
    }
}

/// No card ever leaves the board or joins it: clicking, showing moves and
/// undoing keep the number of cards of every kind, counting cards in flight.
pub proof fn lemma_play_keeps_cards(g: GameModel, pos: BoardPos, key: AnimationKey, p: spec_fn(Card) -> bool)
    requires
        g.wf(),
        g.board.selected is Some && !g.over() ==> pos.depot_index < NUM_DEPOTS,
    ensures
        g.clicked(pos).board.card_count(p) == g.board.card_count(p),
        g.animated(key).board.card_count(p) == g.board.card_count(p),
        g.undone().board.card_count(p) == g.board.card_count(p),
{
    let b = g.board;
    let g1 = g.clicked(pos);
    if g1.board.depots != b.depots || g1.board.acts != b.acts {
        let src = b.selected->0;
        let dest = BoardPos { depot_index: pos.depot_index, card_index: next_index(pos.card_index) };
        lemma_moved_keeps_cards(b, src, dest, p);
    }
    lemma_advanced_keeps_cards(b, p);
    if !g.busy() && g.undo_possible() {
        assert(b.advanced().acts =~= b.acts);
        lemma_reversible_ignores_marks(b.advanced(), b, g.history);
        lemma_unwind_keeps_cards(b, g.history, g.undo_stack.last() as int, p);
    }
}

/// Cards `d`, `d + 3`, ..., of the first `n` rounds of a deal.
pub open spec fn deal_column(deal: Seq<Card>, d: int, n: int) -> Seq<Card> {
    Seq::new(n as nat, |j: int| deal[NUM_SUITS * j + d])
}

/// The first `n` rounds of a deal hold exactly the cards of its three columns.
proof fn lemma_deal_rounds(deal: Seq<Card>, n: int, p: spec_fn(Card) -> bool)
    requires
        0 <= n <= NUM_RANKS,
        deal.len() == DECK_SIZE,
    ensures
        count_where(deal.take(NUM_SUITS * n), p) == count_where(deal_column(deal, 0, n), p)
            + count_where(deal_column(deal, 1, n), p) + count_where(deal_column(deal, 2, n), p),
    decreases n,
{
    if n == 0 {
        assert(deal.take(0) =~= Seq::<Card>::empty());
        assert(deal_column(deal, 0, 0) =~= Seq::<Card>::empty());
        assert(deal_column(deal, 1, 0) =~= Seq::<Card>::empty());
        assert(deal_column(deal, 2, 0) =~= Seq::<Card>::empty());
    } else {
        lemma_deal_rounds(deal, n - 1, p);
        let k = NUM_SUITS * (n - 1);
        let s0 = deal.take(k);
        assert(deal.take(k + 1) =~= s0.push(deal[k]));
        assert(deal.take(k + 2) =~= deal.take(k + 1).push(deal[k + 1]));
        assert(deal.take(NUM_SUITS * n) =~= deal.take(k + 2).push(deal[k + 2]));
        lemma_count_push(s0, deal[k], p);
        lemma_count_push(deal.take(k + 1), deal[k + 1], p);
        lemma_count_push(deal.take(k + 2), deal[k + 2], p);
        assert(deal_column(deal, 0, n) =~= deal_column(deal, 0, n - 1).push(deal[k]));
        assert(deal_column(deal, 1, n) =~= deal_column(deal, 1, n - 1).push(deal[k + 1]));
        assert(deal_column(deal, 2, n) =~= deal_column(deal, 2, n - 1).push(deal[k + 2]));
        lemma_count_push(deal_column(deal, 0, n - 1), deal[k], p);
        lemma_count_push(deal_column(deal, 1, n - 1), deal[k + 1], p);
        lemma_count_push(deal_column(deal, 2, n - 1), deal[k + 2], p);
    }
}

/// Dealing loses no card and adds none: the dealt board holds exactly the
/// cards of the deal.
pub proof fn lemma_dealt_holds_deal(deal: Seq<Card>, p: spec_fn(Card) -> bool)
    requires
        deal.len() == DECK_SIZE,
    ensures
        BoardModel::dealt(deal).card_count(p) == count_where(deal, p),
{
    let b = BoardModel::dealt(deal);
    lemma_deal_rounds(deal, NUM_RANKS as int, p);
    assert(deal.take(DECK_SIZE as int) =~= deal);
    assert(b.depots[0] =~= deal_column(deal, 0, NUM_RANKS as int));
    assert(b.depots[1] =~= deal_column(deal, 1, NUM_RANKS as int));
    assert(b.depots[2] =~= deal_column(deal, 2, NUM_RANKS as int));
    assert(count_where(b.depots[3], p) == 0);
    assert(count_where(b.depots[4], p) == 0);
    assert(count_where(b.depots[5], p) == 0);
    reveal_with_fuel(depot_sum, 7);
}

/// A history that can be taken back entirely can be taken back down to any
/// length.
pub proof fn lemma_reversible_undo_safe(b: BoardModel, hist: Seq<ActionRecord>, target: int)
    requires
        reversible(b, hist),
    ensures
        undo_safe(b, hist, target),
    decreases hist.len(),
{
    if hist.len() > 0 && hist.len() > target {
        let r = hist.last();
        lemma_reversible_undo_safe(b.moved(r.pos2, r.pos1).advanced(), hist.drop_last(), target);
    }
}

/// The invariant of a game in play is all that the operations of the game
/// need: a click on a depot, finishing shown moves (while a first win can
/// still be counted) and undo can always run, and so can a restart.
pub proof fn lemma_wf_enables_play(g: GameModel, pos: BoardPos, key: AnimationKey)
    requires
        g.wf(),
    ensures
        (g.board.selected is Some && !g.over() ==> pos.depot_index < NUM_DEPOTS) ==> g.click_in_range(pos),
        g.num_wins < i32::MAX ==> g.animation_in_range(key),
        g.undo_in_range(),
        g.history.len() > 0 && g.undo_possible() ==> g.deal.len() == DECK_SIZE,
{
    lemma_wf_counts(g);
    if !g.busy() && g.undo_possible() {
        assert(g.board.advanced().acts =~= g.board.acts);
        lemma_reversible_ignores_marks(g.board.advanced(), g.board, g.history);
        lemma_reversible_undo_safe(g.board, g.history, g.undo_stack.last() as int);
    }
}

/// A win is counted once: however the shown moves are finished twice in a
/// row, the number of wins grows by at most one.
pub proof fn lemma_win_counted_once(g: GameModel, k1: AnimationKey, k2: AnimationKey)
    requires
        g.num_wins < i32::MAX,
    ensures
        g.animated(k1).animated(k2).num_wins <= g.num_wins + 1,
        g.already_won ==> g.animated(k1).num_wins == g.num_wins,
{
}

/// A click on the top card of a depot, or on the frame of an empty depot (card
/// index `usize::MAX`, as `Board::last_pos` gives it), asks to move the
/// selected stack to just above the top of that depot, the position that
/// `Board::top_pos` gives.
pub proof fn lemma_last_pos_targets_top(len: nat)
    requires
        len <= usize::MAX,
    ensures
        next_index(
            (if len == 0 {
                usize::MAX as int
            } else {
                len - 1
            }) as usize,
        ) == len,
{
}

/// The predicate "the card's rank is not one of the deck's ranks".
pub open spec fn off_rank() -> spec_fn(Card) -> bool {
    |c: Card| c.rank < 1 || c.rank > NUM_RANKS
}

/// Down a stack, each card is at least one rank lower than the one below it.
proof fn lemma_stack_ranks(s: Seq<Card>, i: int)
    requires
        stackable(s),
        0 <= i < s.len(),
    ensures
        s[i].rank + i <= s[0].rank,
    decreases i,
{
    if i > 0 {
        lemma_stack_ranks(s, i - 1);
        assert(can_stack_spec(s[i - 1], s[i]));
    }
}

/// A stack of cards of the deck's ranks holds at most one card per rank.
proof fn lemma_stack_height(s: Seq<Card>)
    requires
        stackable(s),
        forall|i: int| 0 <= i < s.len() ==> 1 <= (#[trigger] s[i]).rank <= NUM_RANKS,
    ensures
        s.len() <= NUM_RANKS,
{
    if s.len() > 0 {
        lemma_stack_ranks(s, s.len() - 1);
    }
}

/// The game is won exactly when every card is on the right side: on a
/// settled board holding the 39 cards of the deck's ranks, whose right depots
/// are stacks (as play keeps them), the status is `Won` exactly when the
/// left depots are empty.
pub proof fn lemma_won_iff_left_empty(b: BoardModel)
    requires
        b.acts.len() == 0,
        b.depots.len() == NUM_DEPOTS,
        b.card_count(any_card()) == DECK_SIZE,
        b.card_count(off_rank()) == 0,
        forall|d: int| NUM_SUITS <= d < NUM_DEPOTS ==> stackable(#[trigger] b.depots[d]),
    ensures
        (status_of(b) == GameStatus::Won) <==> (forall|d: int|
            0 <= d < NUM_SUITS ==> #[trigger] b.depots[d].len() == 0),
{
    reveal_with_fuel(depot_sum, 7);
    assert forall|d: int| 0 <= d < NUM_DEPOTS implies count_where(#[trigger] b.depots[d], any_card())
        == b.depots[d].len() && count_where(b.depots[d], off_rank()) == 0 by {
        lemma_count_all(b.depots[d]);
    }
    assert forall|d: int| NUM_SUITS <= d < NUM_DEPOTS implies #[trigger] b.depots[d].len()
        <= NUM_RANKS by {
        lemma_count_zero(b.depots[d], off_rank());
        assert forall|i: int| 0 <= i < b.depots[d].len() implies 1 <= (
        #[trigger] b.depots[d][i]).rank <= NUM_RANKS by {
            assert(!off_rank()(b.depots[d][i]));
        }
        lemma_stack_height(b.depots[d]);
    }
    assert(b.depots[3].len() <= NUM_RANKS);
    assert(b.depots[4].len() <= NUM_RANKS);
    assert(b.depots[5].len() <= NUM_RANKS);
    assert(count_where(b.depots[0], any_card()) == b.depots[0].len());
    assert(count_where(b.depots[1], any_card()) == b.depots[1].len());
    assert(count_where(b.depots[2], any_card()) == b.depots[2].len());
    assert(count_where(b.depots[3], any_card()) == b.depots[3].len());
    assert(count_where(b.depots[4], any_card()) == b.depots[4].len());
    assert(count_where(b.depots[5], any_card()) == b.depots[5].len());
    if forall|d: int| 0 <= d < NUM_SUITS ==> #[trigger] b.depots[d].len() == 0 {
        assert(b.depots[0].len() == 0 && b.depots[1].len() == 0 && b.depots[2].len() == 0);
    }
}

/// A click keeps the undo marks sound and the selection valid, grows the
/// history by at most one move, and changes the history exactly when it
/// changes the undo marks.
pub proof fn lemma_click_keeps_marks(g: GameModel, pos: BoardPos)
    requires
        g.undo_marks_ok(),
        g.selection_ok(),
        g.history.len() < usize::MAX,
    ensures
        ({
            let n = g.clicked(pos);
            &&& n.undo_marks_ok()
            &&& n.selection_ok()
            &&& n.history.len() == g.history.len() || n.history.len() == g.history.len() + 1
            &&& (n.history != g.history <==> n.undo_stack != g.undo_stack)
            &&& g.marks_start_at_zero() ==> n.marks_start_at_zero()
        }),
{
    let n = g.clicked(pos);
    if n.history.len() != g.history.len() {
        let src = g.board.selected->0;
        let dest = BoardPos { depot_index: pos.depot_index, card_index: next_index(pos.card_index) };
        assert(n.history == g.history.push(ActionRecord { pos1: src, pos2: dest }));
        assert(n.undo_stack == g.undo_stack.push(g.history.len() as usize));
        assert(n.undo_stack.len() != g.undo_stack.len());
        assert forall|i: int, j: int| 0 <= i < j < n.undo_stack.len() implies n.undo_stack[i]
            < n.undo_stack[j] by {
            if j == g.undo_stack.len() {
                assert(g.undo_stack[i] < g.history.len());
            }
        }
        if g.undo_stack.len() > 0 {
            assert(n.undo_stack[0] == g.undo_stack[0]);
        }
    } else {
        assert(n.history == g.history);
        assert(n.undo_stack == g.undo_stack);
    }
}

/// Undo keeps the undo marks sound when the first mark is the empty history.
pub proof fn lemma_undo_keeps_marks(g: GameModel)
    requires
        g.undo_marks_ok(),
        g.marks_start_at_zero(),
    ensures
        g.undone().undo_marks_ok(),
        g.undone().marks_start_at_zero(),
{
    let n = g.undone();
    if !g.busy() && g.undo_possible() {
        let k = g.undo_stack.len() - 1;
        let t = g.undo_stack[k] as int;
        assert(t < g.history.len());
        assert(n.history == g.history.take(t));
        assert(n.undo_stack =~= g.undo_stack.take(k));
        assert forall|i: int| 0 <= i < n.undo_stack.len() implies n.undo_stack[i] < n.history.len() by {
            assert(g.undo_stack[i] < g.undo_stack[k]);
        }
        if n.undo_stack.len() == 0 {
            assert(k == 0);
        } else {
            assert(g.undo_stack[0] < g.undo_stack[k]);
        }
    }
}

/// Whether every depot on the right side is a stack.
pub open spec fn right_stacks(depots: Seq<Seq<Card>>) -> bool {
    forall|d: int| NUM_SUITS <= d < NUM_DEPOTS ==> stackable(#[trigger] depots[d])
}

/// Whether taking back the moves of `hist` one by one, from the settled board
/// `b`, leaves the right depots stacks after every step.
pub open spec fn stacks_stay(b: BoardModel, hist: Seq<ActionRecord>) -> bool
    decreases hist.len(),
{
    if hist.len() == 0 {
        true
    } else {
        let r = hist.last();
        let n = b.moved(r.pos2, r.pos1).advanced();
        &&& right_stacks(n.depots)
        &&& stacks_stay(n, hist.drop_last())
    }
}

impl GameModel {
    /// The invariant of a game dealt from the deck and played by its rules: the
    /// invariant `wf`; a selection that may be picked up; a deal that is a
    /// shuffle of the deck; the 39 cards of the deck's ranks on the board; the
    /// right depots stacks once the pending moves land, and still stacks after
    /// each move that undo can take back.
    pub open spec fn in_play(self) -> bool {
        &&& self.wf()
        &&& self.selection_ok()
        &&& self.deal.to_multiset() == standard_deck().to_multiset()
        &&& self.board.card_count(any_card()) == DECK_SIZE
        &&& self.board.card_count(off_rank()) == 0
        &&& right_stacks(self.board.advanced().depots)
        &&& stacks_stay(self.board.advanced(), self.history)
    }
}

/// A prefix of a stack is a stack.
proof fn lemma_stackable_take(s: Seq<Card>, k: int)
    requires
        stackable(s),
        0 <= k <= s.len(),
    ensures
        stackable(s.take(k)),
{
    assert forall|i: int| 0 <= i < s.take(k).len() - 1 implies can_stack_spec(
        #[trigger] s.take(k)[i],
        s.take(k)[i + 1],
    ) by {
        assert(s.take(k)[i] == s[i] && s.take(k)[i + 1] == s[i + 1]);
    }
}

/// A stack put on a stack whose top card it may lie on is a stack.
proof fn lemma_stackable_concat(a: Seq<Card>, b: Seq<Card>)
    requires
        stackable(a),
        stackable(b),
        a.len() == 0 || b.len() == 0 || can_stack_spec(a.last(), b[0]),
    ensures
        stackable(a + b),
{
    let c = a + b;
    assert forall|i: int| 0 <= i < c.len() - 1 implies can_stack_spec(#[trigger] c[i], c[i + 1]) by {
        if i < a.len() - 1 {
            assert(c[i] == a[i] && c[i + 1] == a[i + 1]);
        } else if i == a.len() - 1 {
            assert(c[i] == a.last() && c[i + 1] == b[0]);
        } else {
            assert(c[i] == b[i - a.len()] && c[i + 1] == b[i - a.len() + 1]);
        }
    }
}

/// Whether the stacks stay right depends only on the depots, the pending moves
/// and the side of the boat.
proof fn lemma_stacks_stay_ignores_marks(b1: BoardModel, b2: BoardModel, hist: Seq<ActionRecord>)
    requires
        b1.depots == b2.depots,
        b1.acts == b2.acts,
        b1.boat_pos == b2.boat_pos,
    ensures
        stacks_stay(b1, hist) == stacks_stay(b2, hist),
{
    if hist.len() > 0 {
        let r = hist.last();
        assert(b1.moved(r.pos2, r.pos1).advanced() =~= b2.moved(r.pos2, r.pos1).advanced());
    }
}

/// A move on a settled board lands its stack on top of the destination and
/// leaves the rest of the source depot.
proof fn lemma_move_lands(b: BoardModel, src: BoardPos, dest: BoardPos)
    requires
        b.acts.len() == 0,
        src.depot_index < b.depots.len(),
        dest.depot_index < b.depots.len(),
        src.depot_index != dest.depot_index,
        src.card_index <= b.depots[src.depot_index as int].len(),
    ensures
        b.moved(src, dest).advanced().depots == b.depots.update(
            src.depot_index as int,
            b.depots[src.depot_index as int].take(src.card_index as int),
        ).update(
            dest.depot_index as int,
            b.depots[dest.depot_index as int] + b.depots[src.depot_index as int].skip(
                src.card_index as int,
            ),
        ),
        b.moved(src, dest).advanced().acts.len() == 0,
{
    let m = b.moved(src, dest);
    assert(m.acts.drop_last() =~= Seq::<MoveModel>::empty());
    assert(apply_acts(m.depots, m.acts.drop_last()) == m.depots);
}

/// Taking moves back keeps the invariant parts that hold of the settled
/// board: six depots, nothing pending, a history that can still be taken back,
/// right depots that are stacks; the selection is cleared by any step.
proof fn lemma_unwind_play(b: BoardModel, hist: Seq<ActionRecord>, target: int)
    requires
        b.acts.len() == 0,
        b.depots.len() == NUM_DEPOTS,
        reversible(b, hist),
        stacks_stay(b, hist),
        right_stacks(b.depots),
        target >= 0,
    ensures
        ({
            let u = unwind(b, hist, target);
            let h = if target < hist.len() {
                hist.take(target)
            } else {
                hist
            };
            &&& u.acts.len() == 0
            &&& u.depots.len() == NUM_DEPOTS
            &&& reversible(u, h)
            &&& stacks_stay(u, h)
            &&& right_stacks(u.depots)
            &&& (u == b || u.selected is None)
        }),
    decreases hist.len(),
{
    if hist.len() > 0 && hist.len() > target {
        let r = hist.last();
        let m = b.moved(r.pos2, r.pos1);
        let n = m.advanced();
        assert forall|i: int| 0 <= i < m.acts.len() implies (#[trigger] m.acts[i]).to.depot_index
            < m.depots.len() by {
            assert(m.acts[i] == m.acts.last());
        }
        lemma_moved_keeps_cards(b, r.pos2, r.pos1, any_card());
        lemma_advanced_keeps_cards(m, any_card());
        let rest = hist.drop_last();
        lemma_unwind_play(n, rest, target);
        if target < rest.len() {
            assert(rest.take(target) =~= hist.take(target));
        } else {
            assert(rest =~= hist.take(target));
        }
    }
}

/// A board dealt from a shuffle of the deck holds the 39 cards of the deck's
/// ranks, within `suit_limit`, with empty (so stacked) right depots.
proof fn lemma_dealt_play(deal: Seq<Card>)
    requires
        deal.to_multiset() == standard_deck().to_multiset(),
    ensures
        deal.len() == DECK_SIZE,
        BoardModel::dealt(deal).card_count(any_card()) == DECK_SIZE,
        BoardModel::dealt(deal).card_count(off_rank()) == 0,
        right_stacks(BoardModel::dealt(deal).depots),
        forall|s: Suit| #[trigger] BoardModel::dealt(deal).card_count(of_suit(s)) <= suit_limit(s),
{
    deal.to_multiset_ensures();
    standard_deck().to_multiset_ensures();
    assert forall|i: int| 0 <= i < deal.len() implies !off_rank()(#[trigger] deal[i]) by {
        assert(deal.contains(deal[i]));
        assert(standard_deck().to_multiset().count(deal[i]) > 0);
        assert(standard_deck().contains(deal[i]));
        let k = choose|k: int| 0 <= k < standard_deck().len() && standard_deck()[k] == deal[i];
        assert(standard_deck()[k].rank == (k / 3 + 1) as u8);
    }
    lemma_count_none(deal, off_rank());
    lemma_dealt_holds_deal(deal, off_rank());
    lemma_dealt_holds_deal(deal, any_card());
    lemma_count_all(deal);
    assert forall|s: Suit| #[trigger] BoardModel::dealt(deal).card_count(of_suit(s)) <= suit_limit(s) by {
        lemma_dealt_counts(deal, of_suit(s));
    }
    let b = BoardModel::dealt(deal);
    assert forall|d: int| NUM_SUITS <= d < NUM_DEPOTS implies stackable(#[trigger] b.depots[d]) by {
        assert(b.depots[d].len() == 0);
    }
}

/// A new deal from a shuffle of the deck is a game in play.
pub proof fn lemma_redealt_in_play(g: GameModel, deal: Seq<Card>)
    requires
        deal.to_multiset() == standard_deck().to_multiset(),
    ensures
        g.redealt(deal).in_play(),
{
    lemma_dealt_play(deal);
}

/// A restart keeps a game in play.
pub proof fn lemma_restarted_in_play(g: GameModel)
    requires
        g.in_play(),
    ensures
        g.restarted().in_play(),
{
    lemma_dealt_play(g.deal);
}

/// Finishing the shown moves keeps a game in play.
pub proof fn lemma_animated_in_play(g: GameModel, key: AnimationKey)
    requires
        g.in_play(),
    ensures
        g.animated(key).in_play(),
{
    lemma_animated_wf(g, key);
    if key == g.animation_key {
        let b = g.board;
        let a = b.advanced();
        lemma_advanced_keeps_cards(b, any_card());
        lemma_advanced_keeps_cards(b, off_rank());
        assert(apply_acts(a.depots, a.acts) == a.depots);
        assert(a.advanced() =~= a);
        if b.acts.len() == 0 {
            assert(apply_acts(b.depots, b.acts) == b.depots);
        }
    }
}

/// A click keeps the selection one that may be picked up.
proof fn lemma_click_keeps_selection(g: GameModel, pos: BoardPos)
    requires
        g.selection_ok(),
    ensures
        g.clicked(pos).selection_ok(),
{
}

/// A click keeps a game in play.
pub proof fn lemma_clicked_in_play(g: GameModel, pos: BoardPos)
    requires
        g.in_play(),
        g.board.selected is Some && !g.over() ==> pos.depot_index < NUM_DEPOTS,
    ensures
        g.clicked(pos).in_play(),
{
    let b = g.board;
    let n = g.clicked(pos);
    lemma_clicked_wf(g, pos);
    lemma_click_keeps_selection(g, pos);
    lemma_play_keeps_cards(g, pos, g.animation_key, any_card());
    lemma_play_keeps_cards(g, pos, g.animation_key, off_rank());
    if n.board.depots == b.depots && n.board.acts == b.acts && n.history == g.history {
        assert(n.board.boat_pos == b.boat_pos);
        assert(n.board.advanced().depots == b.advanced().depots);
        lemma_stacks_stay_ignores_marks(n.board.advanced(), b.advanced(), g.history);
    } else {
        let src = b.selected->0;
        let dest = BoardPos { depot_index: pos.depot_index, card_index: next_index(pos.card_index) };
        let rec = ActionRecord { pos1: src, pos2: dest };
        assert(!g.busy() && !g.over());
        assert(g.can_select(src));
        assert(g.can_move(src, dest));
        assert(n.board == b.moved(src, dest));
        assert(n.history == g.history.push(rec));
        assert(apply_acts(b.depots, b.acts) == b.depots);
        let a = b.moved(src, dest).advanced();
        lemma_move_lands(b, src, dest);
        assert(apply_acts(a.depots, a.acts) == a.depots);
        assert(a.advanced() =~= a);
        let sd = src.depot_index as int;
        let td = dest.depot_index as int;
        let source = b.depots[sd];
        assert forall|d: int| NUM_SUITS <= d < NUM_DEPOTS implies stackable(#[trigger] a.depots[d]) by {
            if d == td {
                lemma_stackable_concat(b.depots[td], source.skip(src.card_index as int));
                assert(source.skip(src.card_index as int)[0] == source[src.card_index as int]);
            } else if d == sd {
                lemma_stackable_take(source, src.card_index as int);
            } else {
                assert(a.depots[d] == b.depots[d]);
            }
        }
        lemma_move_then_back(b, src, dest);
        let back = BoardModel { selected: None, animate_boat: false, ..b };
        assert(n.history.drop_last() =~= g.history);
        assert(n.history.last() == rec);
        assert(a.moved(dest, src).advanced() == back);
        lemma_stacks_stay_ignores_marks(back, b.advanced(), g.history);
        assert(stacks_stay(a, n.history));
    }
}

/// Undo keeps a game in play.
pub proof fn lemma_undone_in_play(g: GameModel)
    requires
        g.in_play(),
    ensures
        g.undone().in_play(),
{
    lemma_play_keeps_cards(g, BoardPos { depot_index: 0, card_index: 0 }, g.animation_key, any_card());
    lemma_play_keeps_cards(g, BoardPos { depot_index: 0, card_index: 0 }, g.animation_key, off_rank());
    if !g.busy() && g.undo_possible() {
        let b = g.board;
        let t = g.undo_stack.last() as int;
        assert(b.advanced().acts =~= b.acts);
        assert(apply_acts(b.depots, b.acts) == b.depots);
        lemma_reversible_ignores_marks(b.advanced(), b, g.history);
        lemma_stacks_stay_ignores_marks(b.advanced(), b, g.history);
        lemma_unwind_play(b, g.history, t);
        let u = unwind(b, g.history, t);
        assert forall|s: Suit| #[trigger] u.card_count(of_suit(s)) <= suit_limit(s) by {
            lemma_unwind_keeps_cards(b, g.history, t, of_suit(s));
        }
        let h = g.undone().history;
        assert(u.advanced().acts =~= u.acts);
        assert(apply_acts(u.depots, u.acts) == u.depots);
        lemma_reversible_ignores_marks(u.advanced(), u, h);
        lemma_stacks_stay_ignores_marks(u.advanced(), u, h);
    }
}

/// The game is won exactly when every card is on the right side: in a game in
/// play with nothing pending, the status is `Won` exactly when the left depots
/// are empty.
pub proof fn lemma_in_play_won(g: GameModel)
    requires
        g.in_play(),
        !g.busy(),
    ensures
        (g.status() == GameStatus::Won) <==> (forall|d: int|
            0 <= d < NUM_SUITS ==> #[trigger] g.board.depots[d].len() == 0),
{
    assert(apply_acts(g.board.depots, g.board.acts) == g.board.depots);
    lemma_won_iff_left_empty(g.board);
}

/// The stacking rule: a card may lie on another exactly when their suits
/// differ and its rank is lower.
pub proof fn lemma_stack_rule(back: Card, front: Card)
    ensures
        can_stack_spec(back, front) <==> (back.suit != front.suit && front.rank < back.rank),
{
}

/// The move rule, on either side of the river: a stack may go to `pos2`
/// exactly when `pos2` is another depot's top and that depot is empty or its
/// top card has another suit and a higher rank than the stack's bottom card.
pub proof fn lemma_move_rule(g: GameModel, pos1: BoardPos, pos2: BoardPos)
    ensures
        g.can_move(pos1, pos2) <==> (pos1.depot_index != pos2.depot_index && pos2.card_index
            == g.board.depots[pos2.depot_index as int].len() && (
        g.board.depots[pos2.depot_index as int].len() == 0 || ({
            let top = g.board.depots[pos2.depot_index as int].last();
            let bottom = g.board.depots[pos1.depot_index as int][pos1.card_index as int];
            top.suit != bottom.suit && bottom.rank < top.rank
        }))),
{
}

/// A click on another depot with a stack selected (nothing pending, game not
/// over) makes the move exactly when the move rule allows it: the stack goes
/// just above the clicked card, the move is recorded and undo returns to the
/// history before it; when the rule refuses, nothing changes.
pub proof fn lemma_click_moves(g: GameModel, pos: BoardPos)
    requires
        !g.busy(),
        !g.over(),
        g.board.selected is Some,
        g.board.selected->0.depot_index != pos.depot_index,
    ensures
        ({
            let src = g.board.selected->0;
            let dest = BoardPos {
                depot_index: pos.depot_index,
                card_index: if pos.card_index == usize::MAX {
                    0
                } else {
                    (pos.card_index + 1) as usize
                },
            };
            let depot2 = g.board.depots[pos.depot_index as int];
            let bottom = g.board.depots[src.depot_index as int][src.card_index as int];
            let allowed = dest.card_index == depot2.len() && (depot2.len() == 0 || (
            depot2.last().suit != bottom.suit && bottom.rank < depot2.last().rank));
            let n = g.clicked(pos);
            &&& allowed ==> {
                &&& n.board == g.board.moved(src, dest)
                &&& n.history == g.history.push(ActionRecord { pos1: src, pos2: dest })
                &&& n.undo_stack == g.undo_stack.push(g.history.len() as usize)
                &&& n.deal == g.deal && n.animation_key == g.animation_key
                &&& n.num_wins == g.num_wins && n.already_won == g.already_won
            }
            &&& !allowed ==> n == g
        }),
{
}

/// Finishing the moves shown under the current key lands every pending move;
/// the win is judged on the landed board: when it is won and no win was
/// counted yet, one win is counted and the game is marked won; otherwise the
/// count is kept.
pub proof fn lemma_animation_counts_win(g: GameModel)
    requires
        g.num_wins < i32::MAX,
    ensures
        ({
            let n = g.animated(g.animation_key);
            let won = n.board.acts.len() == 0 && (forall|i: int|
                NUM_SUITS <= i < NUM_DEPOTS ==> #[trigger] n.board.depots[i].len() == NUM_RANKS);
            &&& n.board == g.board.advanced()
            &&& n.board.acts.len() == 0
            &&& (won && !g.already_won ==> n.num_wins == g.num_wins + 1 && n.already_won)
            &&& (!won || g.already_won ==> n.num_wins == g.num_wins)
            &&& n.already_won == (g.already_won || won)
            &&& n.deal == g.deal && n.history == g.history && n.undo_stack == g.undo_stack
        }),
{
    let n = g.animated(g.animation_key);
    let a = g.board.advanced();
    assert(a.acts.len() == 0);
    assert((status_of(a) == GameStatus::Won) == right_side_full(a.depots));
    assert(n.board == a);
}

/// The status rule, stated on the counts: with moves pending the game goes
/// on; otherwise it is won when each right depot holds 13 cards; otherwise it
/// is lost when, on the left and then on the right, there is a rabbit and at
/// least two more foxes than rabbits (rabbits in danger) or a carrot and at
/// least two more rabbits than carrots (carrots in danger); otherwise it goes
/// on.
pub proof fn lemma_status_rule(b: BoardModel)
    ensures
        ({
            let lf = role_count(b.depots, DepotRole::Left, Suit::Fox) as int;
            let lr = role_count(b.depots, DepotRole::Left, Suit::Rabbit) as int;
            let lc = role_count(b.depots, DepotRole::Left, Suit::Carrot) as int;
            let rf = role_count(b.depots, DepotRole::Right, Suit::Fox) as int;
            let rr = role_count(b.depots, DepotRole::Right, Suit::Rabbit) as int;
            let rc = role_count(b.depots, DepotRole::Right, Suit::Carrot) as int;
            let full = forall|i: int|
                NUM_SUITS <= i < NUM_DEPOTS ==> #[trigger] b.depots[i].len() == NUM_RANKS;
            status_of(b) == if b.acts.len() > 0 {
                GameStatus::Ongoing
            } else if full {
                GameStatus::Won
            } else if lr >= 1 && lf - lr >= 2 {
                GameStatus::Lost { danger: Suit::Rabbit }
            } else if lc >= 1 && lr - lc >= 2 {
                GameStatus::Lost { danger: Suit::Carrot }
            } else if rr >= 1 && rf - rr >= 2 {
                GameStatus::Lost { danger: Suit::Rabbit }
            } else if rc >= 1 && rr - rc >= 2 {
                GameStatus::Lost { danger: Suit::Carrot }
            } else {
                GameStatus::Ongoing
            }
        }),
{
}

/// The pick-up rule: a stack may be picked up at `pos` exactly when `pos` is a
/// card of a depot on the boat's side (depots 0 to 2 on the left, 3 to 5 on
/// the right) and, from `pos` to the top, each card has another suit and a
/// lower rank than the card below it.
pub proof fn lemma_select_rule(g: GameModel, pos: BoardPos)
    ensures
        g.can_select(pos) <==> ({
            let d = pos.depot_index as int;
            let c = pos.card_index as int;
            let depot = g.board.depots[d];
            &&& d < NUM_DEPOTS
            &&& (d < NUM_SUITS) == (g.board.boat_pos == DepotRole::Left)
            &&& c < depot.len()
            &&& forall|i: int|
                c <= i < depot.len() - 1 ==> (#[trigger] depot[i]).suit != depot[i + 1].suit
                    && depot[i + 1].rank < depot[i].rank
        }),
{
    let d = pos.depot_index as int;
    let c = pos.card_index as int;
    let depot = g.board.depots[d];
    if 0 <= c < depot.len() {
        let s = depot.skip(c);
        assert forall|i: int| c <= i < depot.len() - 1 implies #[trigger] depot[i] == s[i - c]
            && depot[i + 1] == s[i - c + 1] by {}
        assert forall|i: int| 0 <= i < s.len() - 1 implies #[trigger] s[i] == depot[i + c] && s[i
            + 1] == depot[i + c + 1] by {}
    }
}

/// The effect of starting a move from `from` to depot `to`: the cards from
/// `from` upwards leave their depot and are in flight to `to`, the selection
/// is cleared, the boat goes to the side of `to` and is shown crossing when
/// that side changed; no other depot changes.
pub proof fn lemma_move_effect(b: BoardModel, from: BoardPos, to: BoardPos)
    requires
        b.move_in_range(from, to),
    ensures
        ({
            let m = b.moved(from, to);
            let source = b.depots[from.depot_index as int];
            let side = if to.depot_index < NUM_SUITS {
                DepotRole::Left
            } else {
                DepotRole::Right
            };
            &&& m.depots[from.depot_index as int] == source.take(from.card_index as int)
            &&& forall|d: int| 0 <= d < b.depots.len() && d != from.depot_index ==> #[trigger] m.depots[d] == b.depots[d]
            &&& m.depots.len() == b.depots.len()
            &&& m.acts == b.acts.push(MoveModel { cards: source.skip(from.card_index as int), from, to })
            &&& m.selected is None
            &&& m.boat_pos == side
            &&& m.animate_boat == (b.animate_boat || side != b.boat_pos)
        }),
{
}

/// A restart (a move made, undo possible) deals the same deal again: left
/// depot `d` holds cards `d`, `d + 3`, ..., `d + 36` of the deal from bottom
/// to top, the right depots are empty, the boat is on the left and the
/// history is empty; otherwise nothing changes.
pub proof fn lemma_restart_rule(g: GameModel)
    ensures
        g.history.len() > 0 && g.undo_possible() ==> {
            let n = g.restarted();
            &&& n.board.depots.len() == NUM_DEPOTS
            &&& forall|d: int, j: int|
                0 <= d < NUM_SUITS && 0 <= j < NUM_RANKS ==> #[trigger] n.board.depots[d][j]
                    == g.deal[3 * j + d]
            &&& forall|d: int| 0 <= d < NUM_SUITS ==> #[trigger] n.board.depots[d].len() == NUM_RANKS
            &&& forall|d: int| NUM_SUITS <= d < NUM_DEPOTS ==> #[trigger] n.board.depots[d].len() == 0
            &&& n.board.boat_pos == DepotRole::Left && n.board.selected is None
            &&& n.board.acts.len() == 0
            &&& n.history.len() == 0 && n.undo_stack.len() == 0
            &&& n.deal == g.deal
        },
        !(g.history.len() > 0 && g.undo_possible()) ==> g.restarted() == g,
{
}

/// Calls `rand::rng`, which hands out the thread's random number generator
/// (it panics only if the operating system's random source cannot be opened
/// the first time).  Nothing is claimed of the generator.
#[verifier::external_body]
fn thread_rng() -> ThreadRng {
    rand::rng()
}

/// Calls `SliceRandom::shuffle` of rand on the cards.  Claimed: the cards
/// afterwards are a permutation of the cards before (the method only swaps
/// elements).  Which permutation comes out is left open: it depends on the
/// generator.
#[verifier::external_body]
fn shuffle_cards(cards: &mut Vec<Card>, rng: &mut ThreadRng)
    ensures
        final(cards)@.len() == old(cards)@.len(),
        final(cards)@.to_multiset() == old(cards)@.to_multiset(),
{
    cards.shuffle(rng);
}

impl GameState {
    /// A shuffled deck: every card of `standard_deck`, in a random order.
    pub fn new_deal(rng: &mut ThreadRng) -> (res: Vec<Card>)
        ensures
            res@.len() == DECK_SIZE,
            res@.to_multiset() == standard_deck().to_multiset(),
    {
        let mut deck: Vec<Card> = Vec::with_capacity(DECK_SIZE);
        let suits = Suit::all();
        let mut r: usize = 0;
        while r < NUM_RANKS
            invariant
                0 <= r <= NUM_RANKS,
                forall|k: int| 0 <= k < 3 ==> #[trigger] suits@[k] == Suit::at(k),
                deck@ =~= standard_deck().take(NUM_SUITS * r),
            decreases NUM_RANKS - r,
        {
            let rank = RANKS[r];
            assert(RANKS@[r as int] == r + 1);
            let mut k: usize = 0;
            while k < NUM_SUITS
                invariant
                    0 <= r < NUM_RANKS,
                    0 <= k <= NUM_SUITS,
                    rank == r + 1,
                    forall|k: int| 0 <= k < 3 ==> #[trigger] suits@[k] == Suit::at(k),
                    deck@ =~= standard_deck().take(NUM_SUITS * r + k),
                decreases NUM_SUITS - k,
            {
                let card = Card { rank, suit: suits[k] };
                assert(standard_deck()[NUM_SUITS * r + k] == card);
                deck.push(card);
                k = k + 1;
            }
            r = r + 1;
        }
        assert(standard_deck().take(DECK_SIZE as int) =~= standard_deck());
        shuffle_cards(&mut deck, rng);
        deck
    }

    /// Deals a new game from a freshly shuffled deck, keeping the wins, the
    /// screen and the settings; the caller stores the game.
    pub fn new_game(&mut self)
        ensures
            final(self)@ == old(self)@.redealt(final(self)@.deal),
            final(self)@.deal.to_multiset() == standard_deck().to_multiset(),
            final(self)@.wf(),
            final(self)@.in_play(),
    {
        let mut rng = thread_rng();
        let deal = Self::new_deal(&mut rng);
        self.board = Board::from_deal(deal.as_slice());
        self.deal = deal;
        self.history.clear();
        self.undo_stack.clear();
        self.already_won = false;
        proof {
            assert forall|s: Suit| #[trigger] self@.board.card_count(of_suit(s)) <= suit_limit(s) by {
                lemma_dealt_counts(self@.deal, of_suit(s));
            }
            assert(self@ =~= old(self)@.redealt(self@.deal));
            lemma_redealt_in_play(old(self)@, self@.deal);
        }
    }

    /// A new game: freshly dealt, no win yet, the game screen, undo allowed
    /// and the default skin; the caller stores the game.
    pub fn init() -> (res: Self)
        ensures
            res@ == (GameModel {
                board: BoardModel::dealt(res@.deal),
                deal: res@.deal,
                animation_key: 0,
                history: Seq::empty(),
                undo_stack: Seq::empty(),
                already_won: false,
                num_wins: 0,
                screen_state: ScreenState::Game,
                allow_undo: true,
                skin: Skin::default_spec(),
            }),
            res@.deal.to_multiset() == standard_deck().to_multiset(),
            res@.wf(),
            res@.in_play(),
    {
        let mut res = Self {
            board: Board::empty(),
            deal: Vec::new(),
            animation_key: 0,
            history: Vec::new(),
            undo_stack: Vec::new(),
            already_won: false,
            num_wins: 0,
            screen_state: ScreenState::Game,
            allow_undo: true,
            skin: Skin::default(),
        };
        res.new_game();
        res
    }

    /// Finishes the moves shown under `key`: a stale key changes nothing;
    /// otherwise the pending moves land and a first win is counted.  Returns
    /// whether the game is to be stored.
    pub fn advance_animations(&mut self, key: AnimationKey) -> (save: bool)
        requires
            old(self)@.animation_in_range(key),
        ensures
            final(self)@ == old(self)@.animated(key),
            save == (key == old(self)@.animation_key),
            key == old(self)@.animation_key ==> {
                &&& final(self)@.board == old(self)@.board.advanced()
                &&& final(self)@.already_won == (old(self)@.already_won || status_of(
                    final(self)@.board,
                ) == GameStatus::Won)
                &&& final(self)@.num_wins == old(self)@.num_wins + if status_of(final(self)@.board)
                    == GameStatus::Won && !old(self)@.already_won {
                    1int
                } else {
                    0int
                }
            },
            old(self)@.wf() ==> final(self)@.wf(),
            old(self)@.in_play() ==> final(self)@.in_play(),
    {
        proof {
            if old(self)@.wf() {
                lemma_animated_wf(self@, key);
            }
            if old(self)@.in_play() {
                lemma_animated_in_play(self@, key);
            }
            if key == self.animation_key {
                lemma_advanced_keeps_cards(self@.board, of_suit(Suit::Fox));
            }
        }
        if key != self.animation_key {
            return false;
        }
        self.animation_key = self.animation_key.wrapping_add(1);
        self.board.advance_actions();
        if self.is_won() {
            if !self.already_won {
                self.num_wins = self.num_wins + 1;
                self.already_won = true;
            }
        }
        proof {
            assert(self@ =~= old(self)@.animated(key));
        }
        !self.is_busy()
    }

    /// Handles a click on `pos`.
    pub fn onclick(&mut self, pos: BoardPos)
        requires
            old(self)@.click_in_range(pos),
        ensures
            final(self)@ == old(self)@.clicked(pos),
            old(self)@.wf() && (old(self)@.board.selected is Some && !old(self)@.over()
                ==> pos.depot_index < NUM_DEPOTS) ==> final(self)@.wf(),
            old(self)@.in_play() && (old(self)@.board.selected is Some && !old(self)@.over()
                ==> pos.depot_index < NUM_DEPOTS) ==> final(self)@.in_play(),
    {
        proof {
            if old(self)@.wf() && (old(self)@.board.selected is Some && !old(self)@.over()
                ==> pos.depot_index < NUM_DEPOTS) {
                lemma_clicked_wf(self@, pos);
            }
            if old(self)@.in_play() && (old(self)@.board.selected is Some && !old(self)@.over()
                ==> pos.depot_index < NUM_DEPOTS) {
                lemma_clicked_in_play(self@, pos);
            }
        }
        if self.is_busy() {
            return;
        }
        if self.is_over() {
            return;
        }
        match self.board.selected {
            Some(src) => {
                if pos == src {
                    self.board.selected = None;
                    assert(self@ =~= old(self)@.with_selection(None));
                    return;
                }
                if src.depot_index == pos.depot_index && self.can_select(pos) {
                    self.board.selected = Some(pos);
                    assert(self@ =~= old(self)@.with_selection(Some(pos)));
                    return;
                }
                let dest = BoardPos::new(pos.depot_index, pos.card_index.wrapping_add(1));
                assert(dest.card_index == next_index(pos.card_index));
                if !self.can_move(src, dest) {
                    return;
                }
                let len = self.history.len();
                self.undo_stack.push(len);
                self.do_move_raw(src, dest);
                assert(self@ =~= old(self)@.clicked(pos));
            },
            None => {
                if self.can_select(pos) {
                    self.board.selected = Some(pos);
                    assert(self@ =~= old(self)@.with_selection(Some(pos)));
                }
            },
        }
    }

    /// Takes back the last move of the player, landing each reversed move at
    /// once.  Returns whether anything was undone, and so whether the game is
    /// to be stored.
    pub fn undo(&mut self) -> (changed: bool)
        requires
            old(self)@.undo_in_range(),
        ensures
            final(self)@ == old(self)@.undone(),
            changed == (!old(self)@.busy() && old(self)@.undo_possible()),
            old(self)@.wf() ==> final(self)@.wf(),
            old(self)@.in_play() ==> final(self)@.in_play(),
    {
        proof {
            if old(self)@.in_play() {
                lemma_undone_in_play(old(self)@);
            }
        }
        if self.is_busy() || !self.undo_possible() {
            return false;
        }
        let target_len = match self.undo_stack.pop() {
            Some(t) => t,
            None => return false,
        };
        let ghost w = old(self)@.wf();
        let ghost b0 = self.board@;
        let ghost h0 = self.history@;
        let ghost t = target_len as int;
        proof {
            assert(old(self)@.undo_stack.last() == target_len);
            if w {
                lemma_wf_counts(old(self)@);
                assert(b0.advanced().acts =~= b0.acts);
                lemma_reversible_ignores_marks(b0.advanced(), b0, h0);
            }
        }
        while self.history.len() > target_len
            invariant
                unwind(self.board@, self.history@, t) == unwind(b0, h0, t),
                undo_safe(self.board@, self.history@, t),
                self.board@.acts.len() == 0,
                self.board@.depots.len() == b0.depots.len(),
                self.history@ == h0.take(self.history@.len() as int),
                self.history@.len() <= h0.len(),
                h0.len() > t ==> self.history@.len() >= t,
                h0.len() <= t ==> self.history@.len() == h0.len(),
                t == target_len,
                w == old(self)@.wf(),
                w ==> {
                    &&& reversible(self.board@, self.history@)
                    &&& self.board@.depots.len() == NUM_DEPOTS
                    &&& forall|s: Suit| #[trigger] self.board@.card_count(of_suit(s)) <= suit_limit(s)
                    &&& self.board@.selected matches Some(p) ==> depot_role(p.depot_index as int)
                        == Some(self.board@.boat_pos) && p.card_index
                        < self.board@.depots[p.depot_index as int].len()
                },
                self.deal@ == old(self)@.deal,
                self.animation_key == old(self)@.animation_key,
                self.undo_stack@ == old(self)@.undo_stack.drop_last(),
                self.already_won == old(self)@.already_won,
                self.num_wins == old(self)@.num_wins,
                self.screen_state == old(self)@.screen_state,
                self.allow_undo == old(self)@.allow_undo,
                self.skin == old(self)@.skin,
            decreases self.history@.len(),
        {
            let ghost b = self.board@;
            let ghost h = self.history@;
            let rec = self.history.pop().unwrap();
            assert(rec == h.last());
            assert(self.history@ == h.drop_last());
            self.board.do_move(rec.pos2, rec.pos1);
            proof {
                let m = b.moved(rec.pos2, rec.pos1);
                assert forall|i: int| 0 <= i < m.acts.len() implies (#[trigger] m.acts[i]).to.depot_index
                    < m.depots.len() by {
                    assert(m.acts[i] == m.acts.last());
                }
                assert forall|s: Suit| #[trigger] m.advanced().card_count(of_suit(s)) == b.card_count(
                    of_suit(s),
                ) by {
                    lemma_moved_keeps_cards(b, rec.pos2, rec.pos1, of_suit(s));
                    lemma_advanced_keeps_cards(m, of_suit(s));
                }
                lemma_advanced_keeps_cards(m, of_suit(Suit::Fox));
                assert(h.drop_last() =~= h0.take(h.len() - 1));
            }
            self.board.advance_actions();
        }
        proof {
            assert(h0.take(h0.len() as int) =~= h0);
            assert(unwind(self.board@, self.history@, t) == self.board@);
            assert(b0 == old(self)@.board);
            assert(h0 == old(self)@.history);
            assert(self@ =~= old(self)@.undone());
            if w {
                assert(self.board@.advanced().acts =~= self.board@.acts);
                lemma_reversible_ignores_marks(self.board@.advanced(), self.board@, self.history@);
                assert(apply_acts(self.board@.depots, self.board@.acts) == self.board@.depots);
            }
        }
        true
    }

    /// Deals the board again from the same deal, unless no move was made or
    /// undo is not possible.  Returns whether the board was dealt again, and
    /// so whether the game is to be stored.
    pub fn restart(&mut self) -> (changed: bool)
        requires
            old(self)@.history.len() > 0 && old(self)@.undo_possible() ==> old(self)@.deal.len()
                == DECK_SIZE,
        ensures
            final(self)@ == old(self)@.restarted(),
            changed == (old(self)@.history.len() > 0 && old(self)@.undo_possible()),
            old(self)@.wf() ==> final(self)@.wf(),
            old(self)@.in_play() ==> final(self)@.in_play(),
    {
        proof {
            if old(self)@.in_play() {
                lemma_restarted_in_play(old(self)@);
            }
        }
        if self.history.is_empty() || !self.undo_possible() {
            return false;
        }
        self.board = Board::from_deal(self.deal.as_slice());
        self.history.clear();
        self.undo_stack.clear();
        proof {
            assert forall|s: Suit| #[trigger] self@.board.card_count(of_suit(s)) <= suit_limit(s) by {
                lemma_dealt_counts(self@.deal, of_suit(s));
            }
            assert(self@ =~= old(self)@.restarted());
        }
        !self.is_busy()
    }

    /// Makes the move from `pos1` to `pos2` and records it.
    fn do_move_raw(&mut self, pos1: BoardPos, pos2: BoardPos)
        requires
            old(self)@.board.move_in_range(pos1, pos2),
        ensures
            final(self)@ == (GameModel {
                board: old(self)@.board.moved(pos1, pos2),
                history: old(self)@.history.push(ActionRecord { pos1, pos2 }),
                ..old(self)@
            }),
    {
        self.board.do_move(pos1, pos2);
        self.history.push(ActionRecord { pos1, pos2 });
        assert(self@ =~= (GameModel {
            board: old(self)@.board.moved(pos1, pos2),
            history: old(self)@.history.push(ActionRecord { pos1, pos2 }),
            ..old(self)@
        }));
    }
}

} // verus!
