//! The board: six depots of cards, three on each side of the river, the boat
//! that marks the side the player is on, and the card moves still to be shown.
use std::ops::{Not, Range};

use vstd::prelude::*;

use crate::game::counts::{
    count_where, depot_sum, lemma_count_concat, lemma_count_split, lemma_depot_sum_update,
};
use crate::game::{Card, DECK_SIZE, NUM_RANKS, NUM_SUITS};

verus! {

/// The two sides of the river.
#[derive(Clone, Copy, Debug, PartialEq, Eq, Structural)]
pub enum DepotRole {
    Left,
    Right,
}

/// Number of depots on the board: one per suit on each side of the river.
pub const NUM_DEPOTS: usize = NUM_SUITS + NUM_SUITS;

/// The side of depot `i`: depots 0 to 2 lie on the left, 3 to 5 on the right,
/// and no other index is a depot.
pub open spec fn depot_role(i: int) -> Option<DepotRole> {
    if 0 <= i < NUM_SUITS {
        Some(DepotRole::Left)
    } else if NUM_SUITS <= i < NUM_DEPOTS {
        Some(DepotRole::Right)
    } else {
        None
    }
}

impl DepotRole {
    /// Position of the side in the order `Left`, `Right`.
    pub open spec fn index(self) -> int {
        match self {
            DepotRole::Left => 0,
            DepotRole::Right => 1,
        }
    }

    /// Index of the first depot of the side.
    pub open spec fn first_depot(self) -> int {
        self.index() * NUM_SUITS
    }

    /// The other side of the river.
    pub open spec fn other(self) -> DepotRole {
        match self {
            DepotRole::Left => DepotRole::Right,
            DepotRole::Right => DepotRole::Left,
        }
    }

    /// The side and the position within it of depot `i`, if `i` is a depot.
    pub open spec fn locate(i: int) -> Option<(DepotRole, int)> {
        match depot_role(i) {
            Some(role) => Some((role, i - role.first_depot())),
            None => None,
        }
    }

    /// Number of depots on one side.
    pub fn number_of(&self) -> (res: usize)
        ensures
            res == NUM_SUITS,
    {
        NUM_SUITS
    }

    /// Index of the first depot of the side: the depots of the sides before it
    /// come first.
    pub fn offset(self) -> (res: usize)
        ensures
            res == self.first_depot(),
    {
        let variants: [DepotRole; 2] = [DepotRole::Left, DepotRole::Right];
        let target: usize = match self {
            DepotRole::Left => 0,
            DepotRole::Right => 1,
        };
        let mut sum: usize = 0;
        let mut index: usize = 0;
        while index < target
            invariant
                0 <= index <= target <= 1,
                sum == index * NUM_SUITS,
                target == self.index(),
            decreases target - index,
        {
            sum = sum + variants[index].number_of();
            index = index + 1;
        }
        sum
    }

    /// The indices of the depots of the side.
    pub fn range(self) -> (res: Range<usize>)
        ensures
            res.start == self.first_depot(),
            res.end == self.first_depot() + NUM_SUITS,
    {
        self.offset()..self.offset() + self.number_of()
    }

    /// The side of depot `i` and the position of `i` within that side, or
    /// `None` when `i` is not a depot.
    pub fn role_and_subindex(i: usize) -> (res: Option<(DepotRole, usize)>)
        ensures
            match res {
                Some((role, sub)) => DepotRole::locate(i as int) == Some((role, sub as int)),
                None => DepotRole::locate(i as int) is None,
            },
    {
        let roles: [DepotRole; 2] = [DepotRole::Left, DepotRole::Right];
        let mut k: usize = 0;
        while k < 2
            invariant
                0 <= k <= 2,
                roles@ == seq![DepotRole::Left, DepotRole::Right],
                k >= 1 ==> i >= NUM_SUITS,
                k >= 2 ==> i >= NUM_DEPOTS,
            decreases 2 - k,
        {
            let role = roles[k];
            let range = role.range();
            if range.start <= i && i < range.end {
                return Some((role, i - role.offset()));
            }
            k = k + 1;
        }
        None
    }

    /// The side of depot `i`, or `None` when `i` is not a depot.
    pub fn role(i: usize) -> (res: Option<DepotRole>)
        ensures
            res == depot_role(i as int),
    {
        match DepotRole::role_and_subindex(i) {
            Some(x) => Some(x.0),
            None => None,
        }
    }

    /// Index of the `i`-th depot of the side.
    pub fn id(self, i: usize) -> (res: usize)
        requires
            self.first_depot() + i <= usize::MAX,
        ensures
            res == self.first_depot() + i,
    {
        self.offset() + i
    }
}

/// `id` and `role_and_subindex` undo each other: the `i`-th depot of a side
/// lies on that side at position `i`, and a depot is the `i`-th of its side for
/// the position found for it; the depots of a side are exactly its range.
pub proof fn lemma_id_locate(role: DepotRole, i: int, d: int)
    ensures
        0 <= i < NUM_SUITS ==> DepotRole::locate(role.first_depot() + i) == Some((role, i)),
        DepotRole::locate(d) == Some((role, i)) ==> role.first_depot() + i == d && 0 <= i
            < NUM_SUITS,
        depot_role(d) == Some(role) <==> role.first_depot() <= d < role.first_depot() + NUM_SUITS,
{
}

impl Not for DepotRole {
    type Output = Self;

    fn not(self) -> (res: Self)
        ensures
            res == self.other(),
    {
        match self {
            DepotRole::Left => DepotRole::Right,
            DepotRole::Right => DepotRole::Left,
        }
    }
}

impl vstd::std_specs::ops::NotSpecImpl for DepotRole {
    open spec fn obeys_not_spec() -> bool {
        true
    }

    open spec fn not_req(self) -> bool {
        true
    }

    open spec fn not_spec(self) -> Self {
        self.other()
    }
}


/// A position on the board: a depot and a card index within it.
#[derive(Clone, Copy, Debug, PartialEq, Eq, Structural)]
pub struct BoardPos {
    pub depot_index: usize,
    pub card_index: usize,
}

impl BoardPos {
    pub fn new(depot_index: usize, card_index: usize) -> (res: Self)
        ensures
            res == (BoardPos { depot_index, card_index }),
    {
        Self { depot_index, card_index }
    }
}

/// A move of cards that has been made but not yet shown: the cards leave their
/// depot at once and land on the destination depot when the move is shown.
#[derive(Clone, Debug, PartialEq, Eq)]
pub enum AnimationAct {
    Move(Vec<Card>, BoardPos, BoardPos),
}

/// What a pending move is: the cards in flight, where they come from and where
/// they go.
#[verifier::ext_equal]
pub struct MoveModel {
    pub cards: Seq<Card>,
    pub from: BoardPos,
    pub to: BoardPos,
}

impl AnimationAct {
    pub open spec fn model(self) -> MoveModel {
        match self {
            AnimationAct::Move(cards, from, to) => MoveModel { cards: cards@, from, to },
        }
    }
}

/// The state of the board as values: the cards of each depot from bottom to
/// top, the selected position, the side of the boat, whether the boat is to be
/// shown crossing, and the pending moves in the order they were made.
#[verifier::ext_equal]
pub struct BoardModel {
    pub depots: Seq<Seq<Card>>,
    pub selected: Option<BoardPos>,
    pub boat_pos: DepotRole,
    pub animate_boat: bool,
    pub acts: Seq<MoveModel>,
}

/// The depots after the pending moves `acts` land, in order: each move puts
/// its cards on top of its destination depot.
pub open spec fn apply_acts(depots: Seq<Seq<Card>>, acts: Seq<MoveModel>) -> Seq<Seq<Card>>
    decreases acts.len(),
{
    if acts.len() == 0 {
        depots
    } else {
        let prev = apply_acts(depots, acts.drop_last());
        let act = acts.last();
        prev.update(act.to.depot_index as int, prev[act.to.depot_index as int] + act.cards)
    }
}

impl BoardModel {
    /// The empty board: six empty depots, nothing selected, the boat on the
    /// left and no pending move.
    pub open spec fn empty() -> BoardModel {
        BoardModel {
            depots: Seq::new(NUM_DEPOTS as nat, |d: int| Seq::<Card>::empty()),
            selected: None,
            boat_pos: DepotRole::Left,
            animate_boat: false,
            acts: Seq::empty(),
        }
    }

    /// The board dealt from `deal`: card `k` of the deal goes on depot `k % 3`
    /// of the left side, so that left depot `d` holds cards `d`, `d + 3`, ...,
    /// `d + 36` from bottom to top; the right side is empty.
    pub open spec fn dealt(deal: Seq<Card>) -> BoardModel {
        BoardModel {
            depots: Seq::new(
                NUM_DEPOTS as nat,
                |d: int|
                    if d < NUM_SUITS {
                        Seq::new(NUM_RANKS as nat, |j: int| deal[NUM_SUITS * j + d])
                    } else {
                        Seq::<Card>::empty()
                    },
            ),
            ..BoardModel::empty()
        }
    }

    /// Whether a move from `from` to `to` can be started: `from` lies within an
    /// existing depot (its top included) and `to` names a depot.
    pub open spec fn move_in_range(self, from: BoardPos, to: BoardPos) -> bool {
        &&& from.depot_index < self.depots.len()
        &&& from.card_index <= self.depots[from.depot_index as int].len()
        &&& to.depot_index < NUM_DEPOTS
    }

    /// The board once the cards from `from` upwards have left their depot for
    /// `to`: the selection is cleared, the move is pending, and the boat goes
    /// to the side of `to` (to be shown crossing if that is the other side).
    pub open spec fn moved(self, from: BoardPos, to: BoardPos) -> BoardModel {
        let source = self.depots[from.depot_index as int];
        let dest_role = depot_role(to.depot_index as int)->0;
        BoardModel {
            depots: self.depots.update(from.depot_index as int, source.take(from.card_index as int)),
            selected: None,
            boat_pos: dest_role,
            animate_boat: if dest_role != self.boat_pos {
                true
            } else {
                self.animate_boat
            },
            acts: self.acts.push(MoveModel { cards: source.skip(from.card_index as int), from, to }),
        }
    }

    /// Whether every pending move goes to an existing depot.
    pub open spec fn acts_in_range(self) -> bool {
        forall|i: int|
            0 <= i < self.acts.len() ==> (#[trigger] self.acts[i]).to.depot_index < self.depots.len()
    }

    /// The board once every pending move has landed and the boat has crossed.
    pub open spec fn advanced(self) -> BoardModel {
        BoardModel {
            depots: apply_acts(self.depots, self.acts),
            animate_boat: false,
            acts: Seq::empty(),
            ..self
        }
    }
}

/// The game board.
#[derive(Clone, Debug, PartialEq, Eq)]
pub struct Board {
    pub depots: Vec<Vec<Card>>,
    pub selected: Option<BoardPos>,
    pub boat_pos: DepotRole,
    pub animate_boat: bool,
    pub animation_acts: Vec<AnimationAct>,
}

impl View for Board {
    type V = BoardModel;

    open spec fn view(&self) -> BoardModel {
        BoardModel {
            depots: self.depots@.map_values(|d: Vec<Card>| d@),
            selected: self.selected,
            boat_pos: self.boat_pos,
            animate_boat: self.animate_boat,
            acts: self.animation_acts@.map_values(|a: AnimationAct| a.model()),
        }
    }
}

impl Board {
    /// The empty board.
    pub fn empty() -> (res: Self)
        ensures
            res@ == BoardModel::empty(),
    {
        let mut depots: Vec<Vec<Card>> = Vec::new();
        let mut i: usize = 0;
        while i < NUM_DEPOTS
            invariant
                0 <= i <= NUM_DEPOTS,
                depots@.len() == i,
                forall|k: int| 0 <= k < i ==> (#[trigger] depots@[k])@ == Seq::<Card>::empty(),
            decreases NUM_DEPOTS - i,
        {
            depots.push(Vec::new());
            i = i + 1;
        }
        let res = Self {
            depots,
            selected: None,
            boat_pos: DepotRole::Left,
            animate_boat: false,
            animation_acts: Vec::new(),
        };
        assert(res@.depots =~= BoardModel::empty().depots);
        assert(res@.acts =~= BoardModel::empty().acts);
        res
    }

    /// Deals the cards of `deal` over the three depots of the left side.
    pub fn from_deal(deal: &[Card]) -> (res: Self)
        requires
            deal@.len() == DECK_SIZE,
        ensures
            res@ == BoardModel::dealt(deal@),
    {
        let mut res = Self::empty();
        let range = DepotRole::Left.range();
        let mut j: usize = 0;
        while j < NUM_RANKS
            invariant
                0 <= j <= NUM_RANKS,
                deal@.len() == DECK_SIZE,
                range.start == 0 && range.end == NUM_SUITS,
                res@ == (BoardModel { depots: res@.depots, ..BoardModel::empty() }),
                res@.depots.len() == NUM_DEPOTS,
                forall|e: int|
                    0 <= e < NUM_SUITS ==> #[trigger] res@.depots[e] =~= Seq::new(
                        j as nat,
                        |t: int| deal@[NUM_SUITS * t + e],
                    ),
                forall|e: int| NUM_SUITS <= e < NUM_DEPOTS ==> #[trigger] res@.depots[e].len() == 0,
            decreases NUM_RANKS - j,
        {
            let mut d: usize = range.start;
            while d < range.end
                invariant
                    0 <= j < NUM_RANKS,
                    0 <= d <= NUM_SUITS,
                    deal@.len() == DECK_SIZE,
                    range.start == 0 && range.end == NUM_SUITS,
                    res@ == (BoardModel { depots: res@.depots, ..BoardModel::empty() }),
                    res@.depots.len() == NUM_DEPOTS,
                    forall|e: int|
                        0 <= e < NUM_SUITS ==> #[trigger] res@.depots[e] =~= Seq::new(
                            (if e < d {
                                j + 1
                            } else {
                                j as int
                            }) as nat,
                            |t: int| deal@[NUM_SUITS * t + e],
                        ),
                    forall|e: int|
                        NUM_SUITS <= e < NUM_DEPOTS ==> #[trigger] res@.depots[e].len() == 0,
                decreases range.end - d,
            {
                let card = deal[NUM_SUITS * j + d];
                let ghost before = res@;
                res.depots[d].push(card);
                proof {
                    assert(res@.depots =~= before.depots.update(
                        d as int,
                        before.depots[d as int].push(card),
                    ));
                    assert(res@.acts =~= before.acts);
                }
                d = d + 1;
            }
            j = j + 1;
        }
        proof {
            let dealt = BoardModel::dealt(deal@);
            assert forall|e: int| 0 <= e < NUM_DEPOTS implies #[trigger] res@.depots[e] =~= dealt.depots[e] by {
                if e >= NUM_SUITS {
                    assert(res@.depots[e].len() == 0);
                }
            }
            assert(res@.depots =~= dealt.depots);
        }
        res
    }

    /// Starts moving the cards from `pos1` upwards to the depot of `pos2`.
    pub fn do_move(&mut self, pos1: BoardPos, pos2: BoardPos)
        requires
            old(self)@.move_in_range(pos1, pos2),
        ensures
            final(self)@ == old(self)@.moved(pos1, pos2),
    {
        let ghost before = self@;
        self.selected = None;
        let cards = self.depots[pos1.depot_index].split_off(pos1.card_index);
        self.animation_acts.push(AnimationAct::Move(cards, pos1, pos2));
        let dest_role = DepotRole::role(pos2.depot_index).unwrap();
        if dest_role != self.boat_pos {
            self.boat_pos = dest_role;
            self.animate_boat = true;
        }
        proof {
            let after = before.moved(pos1, pos2);
            assert(self@.depots =~= after.depots);
            assert(self@.acts =~= after.acts);
        }
    }

    /// Lands every pending move, in the order the moves were made.
    pub fn advance_actions(&mut self)
        requires
            old(self)@.acts_in_range(),
        ensures
            final(self)@ == old(self)@.advanced(),
    {
        let ghost start = self@;
        let mut acts: Vec<AnimationAct> = Vec::new();
        std::mem::swap(&mut acts, &mut self.animation_acts);
        let ghost all = acts@.map_values(|a: AnimationAct| a.model());
        let ghost mut done: int = 0;
        assert(apply_acts(start.depots, all.take(0)) == start.depots);
        while acts.len() > 0
            invariant
                0 <= done <= all.len(),
                all == start.acts,
                start.acts_in_range(),
                acts@.map_values(|a: AnimationAct| a.model()) =~= all.skip(done),
                self@.depots == apply_acts(start.depots, all.take(done)),
                self@.depots.len() == start.depots.len(),
                self@.acts == Seq::<MoveModel>::empty(),
                self.selected == start.selected,
                self.boat_pos == start.boat_pos,
                self.animate_boat == start.animate_boat,
            decreases acts.len(),
        {
            let ghost before = self@;
            let ghost pending = acts@;
            proof {
                assert(pending.map_values(|a: AnimationAct| a.model()).len() == pending.len());
                assert(pending.map_values(|a: AnimationAct| a.model())[0] == all.skip(done)[0]);
            }
            let act = acts.remove(0);
            let ghost m = act.model();
            assert(m == all[done]);
            assert(m.to.depot_index < self@.depots.len());
            match act {
                AnimationAct::Move(mut cards, _pos1, pos2) => {
                    self.depots[pos2.depot_index].append(&mut cards);
                },
            }
            proof {
                assert(all.take(done + 1).drop_last() =~= all.take(done));
                assert(self@.depots =~= before.depots.update(
                    m.to.depot_index as int,
                    before.depots[m.to.depot_index as int] + m.cards,
                ));
                let pm = pending.map_values(|a: AnimationAct| a.model());
                assert(acts@ =~= pending.skip(1));
                assert forall|k: int| 0 <= k < acts@.len() implies #[trigger] acts@[k].model() == all[done
                    + 1 + k] by {
                    assert(acts@[k] == pending[k + 1]);
                    assert(pm[k + 1] == all.skip(done)[k + 1]);
                }
                done = done + 1;
                assert(acts@.map_values(|a: AnimationAct| a.model()) =~= all.skip(done));
            }
        }
        self.animate_boat = false;
        proof {
            assert(all.take(done) =~= all);
        }
    }

    /// The position just above the top card of depot `depot`.
    pub fn top_pos(&self, depot: usize) -> (res: BoardPos)
        requires
            depot < self@.depots.len(),
        ensures
            res == (BoardPos { depot_index: depot, card_index: self@.depots[depot as int].len() as usize }),
    {
        BoardPos::new(depot, self.depots[depot].len())
    }

    /// The position of the top card of depot `depot`; for an empty depot the
    /// card index wraps around to `usize::MAX`.
    pub fn last_pos(&self, depot: usize) -> (res: BoardPos)
        requires
            depot < self@.depots.len(),
        ensures
            res.depot_index == depot,
            res.card_index == if self@.depots[depot as int].len() == 0 {
                usize::MAX as int
            } else {
                self@.depots[depot as int].len() - 1
            },
    {
        BoardPos::new(depot, self.depots[depot].len().wrapping_sub(1))
    }
}

/// Number of cards satisfying `p` carried by the pending moves `acts`.
pub open spec fn acts_count(acts: Seq<MoveModel>, p: spec_fn(Card) -> bool) -> nat
    decreases acts.len(),
{
    if acts.len() == 0 {
        0
    } else {
        acts_count(acts.drop_last(), p) + count_where(acts.last().cards, p)
    }
}

impl BoardModel {
    /// Number of cards satisfying `p` on the board: in the depots and in flight.
    pub open spec fn card_count(self, p: spec_fn(Card) -> bool) -> nat {
        depot_sum(self.depots, 0, self.depots.len() as int, p) + acts_count(self.acts, p)
    }
}

/// Landing pending moves on depots adds their cards to the depots and keeps
/// the number of depots.
pub proof fn lemma_apply_acts_count(
    depots: Seq<Seq<Card>>,
    acts: Seq<MoveModel>,
    p: spec_fn(Card) -> bool,
)
    requires
        forall|i: int| 0 <= i < acts.len() ==> (#[trigger] acts[i]).to.depot_index < depots.len(),
    ensures
        apply_acts(depots, acts).len() == depots.len(),
        depot_sum(apply_acts(depots, acts), 0, depots.len() as int, p) == depot_sum(
            depots,
            0,
            depots.len() as int,
            p,
        ) + acts_count(acts, p),
    decreases acts.len(),
{
    if acts.len() > 0 {
        let rest = acts.drop_last();
        assert forall|i: int| 0 <= i < rest.len() implies (#[trigger] rest[i]).to.depot_index
            < depots.len() by {
            assert(rest[i] == acts[i]);
        }
        lemma_apply_acts_count(depots, rest, p);
        let prev = apply_acts(depots, rest);
        let a = acts.last();
        assert(a == acts[acts.len() - 1]);
        let d = a.to.depot_index as int;
        lemma_depot_sum_update(prev, d, prev[d] + a.cards, 0, depots.len() as int, p);
        lemma_count_concat(prev[d], a.cards, p);
    }
}

/// Starting a move keeps every card on the board: the cards that leave their
/// depot are in flight.
pub proof fn lemma_moved_keeps_cards(
    b: BoardModel,
    from: BoardPos,
    to: BoardPos,
    p: spec_fn(Card) -> bool,
)
    requires
        b.move_in_range(from, to),
    ensures
        b.moved(from, to).card_count(p) == b.card_count(p),
        b.moved(from, to).depots.len() == b.depots.len(),
{
    let d = from.depot_index as int;
    let c = from.card_index as int;
    let src = b.depots[d];
    lemma_depot_sum_update(b.depots, d, src.take(c), 0, b.depots.len() as int, p);
    lemma_count_split(src, c, p);
    let m = b.moved(from, to);
    assert(m.acts.drop_last() =~= b.acts);
}

/// Landing the pending moves keeps every card on the board.
pub proof fn lemma_advanced_keeps_cards(b: BoardModel, p: spec_fn(Card) -> bool)
    requires
        b.acts_in_range(),
    ensures
        b.advanced().card_count(p) == b.card_count(p),
        b.advanced().depots.len() == b.depots.len(),
{
    lemma_apply_acts_count(b.depots, b.acts, p);
}

} // verus!
