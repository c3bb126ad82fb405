//! Counting cards: how many cards of each suit lie on each side of the river,
//! and which prey is in danger there.
use std::ops::Not;

use vstd::prelude::*;

use crate::game::board::{
    apply_acts, depot_role, AnimationAct, Board, BoardModel, BoardPos, DepotRole, MoveModel,
    NUM_DEPOTS,
};
use crate::game::{Card, Suit, NUM_SUITS};

verus! {

/// Number of cards of `s` that satisfy `p`.
pub open spec fn count_where(s: Seq<Card>, p: spec_fn(Card) -> bool) -> nat
    decreases s.len(),
{
    if s.len() == 0 {
        0
    } else {
        count_where(s.drop_last(), p) + if p(s.last()) {
            1nat
        } else {
            0nat
        }
    }
}

/// The predicate "the card is of suit `suit`".
pub open spec fn of_suit(suit: Suit) -> spec_fn(Card) -> bool {
    |c: Card| c.suit == suit
}

/// Number of cards of suit `suit` in `s`.
pub open spec fn suit_count(s: Seq<Card>, suit: Suit) -> nat {
    count_where(s, of_suit(suit))
}

/// The predicate that holds of every card.
pub open spec fn any_card() -> spec_fn(Card) -> bool {
    |c: Card| true
}

/// Counting every card gives the length.
pub proof fn lemma_count_all(s: Seq<Card>)
    ensures
        count_where(s, any_card()) == s.len(),
    decreases s.len(),
{
    if s.len() > 0 {
        lemma_count_all(s.drop_last());
    }
}

/// When no card of `s` is counted, no card of `s` satisfies `p`.
pub proof fn lemma_count_zero(s: Seq<Card>, p: spec_fn(Card) -> bool)
    requires
        count_where(s, p) == 0,
    ensures
        forall|i: int| 0 <= i < s.len() ==> !p(#[trigger] s[i]),
    decreases s.len(),
{
    if s.len() > 0 {
        lemma_count_zero(s.drop_last(), p);
        assert forall|i: int| 0 <= i < s.len() implies !p(#[trigger] s[i]) by {
            if i < s.len() - 1 {
                assert(s[i] == s.drop_last()[i]);
            }
        }
    }
}

/// When no card of `s` satisfies `p`, none is counted.
pub proof fn lemma_count_none(s: Seq<Card>, p: spec_fn(Card) -> bool)
    requires
        forall|i: int| 0 <= i < s.len() ==> !p(#[trigger] s[i]),
    ensures
        count_where(s, p) == 0,
    decreases s.len(),
{
    if s.len() > 0 {
        let r = s.drop_last();
        assert forall|i: int| 0 <= i < r.len() implies !p(#[trigger] r[i]) by {
            assert(r[i] == s[i]);
        }
        lemma_count_none(r, p);
        assert(!p(s[s.len() - 1]));
    }
}

/// Counting is additive over concatenation.
pub proof fn lemma_count_concat(a: Seq<Card>, b: Seq<Card>, p: spec_fn(Card) -> bool)
    ensures
        count_where(a + b, p) == count_where(a, p) + count_where(b, p),
    decreases b.len(),
{
    if b.len() == 0 {
        assert(a + b =~= a);
    } else {
        lemma_count_concat(a, b.drop_last(), p);
        assert((a + b).drop_last() =~= a + b.drop_last());
    }
}

/// The count of a sequence splits between its first `k` cards and the rest.
pub proof fn lemma_count_split(s: Seq<Card>, k: int, p: spec_fn(Card) -> bool)
    requires
        0 <= k <= s.len(),
    ensures
        count_where(s, p) == count_where(s.take(k), p) + count_where(s.skip(k), p),
{
    lemma_count_concat(s.take(k), s.skip(k), p);
    assert(s.take(k) + s.skip(k) =~= s);
}

/// Appending one card adds one to the count exactly when the card satisfies `p`.
pub proof fn lemma_count_push(s: Seq<Card>, c: Card, p: spec_fn(Card) -> bool)
    ensures
        count_where(s.push(c), p) == count_where(s, p) + if p(c) {
            1nat
        } else {
            0nat
        },
{
    assert(s.push(c).drop_last() =~= s);
}

/// A count never exceeds the length of the sequence.
pub proof fn lemma_count_le_len(s: Seq<Card>, p: spec_fn(Card) -> bool)
    ensures
        count_where(s, p) <= s.len(),
    decreases s.len(),
{
    if s.len() > 0 {
        lemma_count_le_len(s.drop_last(), p);
    }
}

/// `prey` is in danger from `predator` on one side of the river: there is at
/// least one prey, and at least two more predators than prey.
pub open spec fn in_danger(predator: int, prey: int) -> bool {
    prey >= 1 && predator >= prey + 2
}

/// The danger rule: a prey is in danger exactly when there is at least one of
/// it and at least two more predators than prey, whatever the counts; and the
/// first suit in danger on a side is the rabbit when rabbits are in danger
/// from foxes, else the carrot when carrots are in danger from rabbits.
pub proof fn lemma_danger_rule(fox: int, rabbit: int, carrot: int)
    ensures
        in_danger(fox, rabbit) <==> (rabbit >= 1 && fox - rabbit >= 2),
        in_danger(rabbit, carrot) <==> (carrot >= 1 && rabbit - carrot >= 2),
        first_danger(fox, rabbit, carrot) == (if rabbit >= 1 && fox - rabbit >= 2 {
            Some(Suit::Rabbit)
        } else if carrot >= 1 && rabbit - carrot >= 2 {
            Some(Suit::Carrot)
        } else {
            None
        }),
{
}

/// The first suit in danger, given the numbers of foxes, rabbits and carrots on
/// one side: rabbits (eaten by foxes) before carrots (eaten by rabbits).
pub open spec fn first_danger(fox: int, rabbit: int, carrot: int) -> Option<Suit> {
    if in_danger(fox, rabbit) {
        Some(Suit::Rabbit)
    } else if in_danger(rabbit, carrot) {
        Some(Suit::Carrot)
    } else {
        None
    }
}

/// The set of suits in danger on one side of the river.
#[derive(Clone, Copy, Debug, PartialEq, Eq, Structural)]
pub struct Dangers {
    pub fox: bool,
    pub rabbit: bool,
    pub carrot: bool,
}

impl Dangers {
    /// Whether `suit` belongs to the set.
    pub open spec fn has(self, suit: Suit) -> bool {
        match suit {
            Suit::Fox => self.fox,
            Suit::Rabbit => self.rabbit,
            Suit::Carrot => self.carrot,
        }
    }

    /// Whether `suit` belongs to the set.
    pub fn contains(&self, suit: Suit) -> (res: bool)
        ensures
            res == self.has(suit),
    {
        match suit {
            Suit::Fox => self.fox,
            Suit::Rabbit => self.rabbit,
            Suit::Carrot => self.carrot,
        }
    }

    /// Whether no suit is in the set.
    pub fn is_empty(&self) -> (res: bool)
        ensures
            res == (!self.fox && !self.rabbit && !self.carrot),
    {
        !self.fox && !self.rabbit && !self.carrot
    }
}

/// The number of cards of each suit on one side of the river.
#[derive(Clone, Copy, Debug, PartialEq, Eq, Structural)]
pub struct SuitCount {
    pub fox: u8,
    pub rabbit: u8,
    pub carrot: u8,
}

impl Default for SuitCount {
    fn default() -> (res: Self)
        ensures
            res == (SuitCount { fox: 0, rabbit: 0, carrot: 0 }),
    {
        SuitCount { fox: 0, rabbit: 0, carrot: 0 }
    }
}

impl SuitCount {
    /// The number of cards of suit `suit`.
    pub open spec fn at(self, suit: Suit) -> u8 {
        match suit {
            Suit::Fox => self.fox,
            Suit::Rabbit => self.rabbit,
            Suit::Carrot => self.carrot,
        }
    }

    /// The number of cards of suit `suit`.
    pub fn get(&self, suit: Suit) -> (res: u8)
        ensures
            res == self.at(suit),
    {
        match suit {
            Suit::Fox => self.fox,
            Suit::Rabbit => self.rabbit,
            Suit::Carrot => self.carrot,
        }
    }

    /// Adds one card of suit `suit`.
    pub fn increment(&mut self, suit: Suit)
        requires
            old(self).at(suit) < 255,
        ensures
            forall|s: Suit|
                #[trigger] final(self).at(s) == if s == suit {
                    old(self).at(s) + 1
                } else {
                    old(self).at(s) as int
                },
    {
        match suit {
            Suit::Fox => self.fox = self.fox + 1,
            Suit::Rabbit => self.rabbit = self.rabbit + 1,
            Suit::Carrot => self.carrot = self.carrot + 1,
        }
    }

    /// Removes one card of suit `suit`.
    pub fn decrement(&mut self, suit: Suit)
        requires
            old(self).at(suit) > 0,
        ensures
            forall|s: Suit|
                #[trigger] final(self).at(s) == if s == suit {
                    old(self).at(s) - 1
                } else {
                    old(self).at(s) as int
                },
    {
        match suit {
            Suit::Fox => self.fox = self.fox - 1,
            Suit::Rabbit => self.rabbit = self.rabbit - 1,
            Suit::Carrot => self.carrot = self.carrot - 1,
        }
    }

    /// The suits in danger: rabbits when there is a rabbit and at least two
    /// more foxes than rabbits, carrots when there is a carrot and at least two
    /// more rabbits than carrots.  Foxes are never in danger.
    pub fn find_dangers(self) -> (res: Dangers)
        requires
            self.rabbit <= 253,
            self.carrot <= 253,
        ensures
            res == (Dangers {
                fox: false,
                rabbit: in_danger(self.fox as int, self.rabbit as int),
                carrot: in_danger(self.rabbit as int, self.carrot as int),
            }),
            !res.fox,
            res.rabbit <==> (self.rabbit >= 1 && self.fox >= self.rabbit + 2),
            res.carrot <==> (self.carrot >= 1 && self.rabbit >= self.carrot + 2),
    {
        let pairs: [(Suit, Suit); 2] = [(Suit::Fox, Suit::Rabbit), (Suit::Rabbit, Suit::Carrot)];
        let mut res = Dangers { fox: false, rabbit: false, carrot: false };
        let mut i: usize = 0;
        while i < 2
            invariant
                0 <= i <= 2,
                self.rabbit <= 253,
                self.carrot <= 253,
                pairs@ == seq![(Suit::Fox, Suit::Rabbit), (Suit::Rabbit, Suit::Carrot)],
                !res.fox,
                res.rabbit == (i >= 1 && in_danger(self.fox as int, self.rabbit as int)),
                res.carrot == (i >= 2 && in_danger(self.rabbit as int, self.carrot as int)),
            decreases 2 - i,
        {
            let (pred, prey) = pairs[i];
            let prey_count = self.get(prey);
            if prey_count > 0 && self.get(pred) >= prey_count + 2 {
                match prey {
                    Suit::Fox => res.fox = true,
                    Suit::Rabbit => res.rabbit = true,
                    Suit::Carrot => res.carrot = true,
                }
            }
            i = i + 1;
        }
        res
    }

    /// The first suit in danger, in the order rabbits, carrots.
    pub open spec fn first_danger(self) -> Option<Suit> {
        first_danger(self.fox as int, self.rabbit as int, self.carrot as int)
    }
}

/// The suit counts of both sides of the river.
#[derive(Clone, Copy, Debug, PartialEq, Eq, Structural)]
pub struct SuitCounts {
    pub left: SuitCount,
    pub right: SuitCount,
}

impl SuitCounts {
    /// The counts of side `role`.
    pub open spec fn side(self, role: DepotRole) -> SuitCount {
        match role {
            DepotRole::Left => self.left,
            DepotRole::Right => self.right,
        }
    }

    /// The number of cards of suit `suit` on side `role`.
    pub open spec fn at(self, role: DepotRole, suit: Suit) -> u8 {
        self.side(role).at(suit)
    }

    /// The counts of side `role`.
    pub fn get(&self, role: DepotRole) -> (res: SuitCount)
        ensures
            res == self.side(role),
    {
        match role {
            DepotRole::Left => self.left,
            DepotRole::Right => self.right,
        }
    }

    /// Adds one card of suit `suit` to side `role`.
    pub fn increment(&mut self, role: DepotRole, suit: Suit)
        requires
            old(self).at(role, suit) < 255,
        ensures
            forall|r: DepotRole, s: Suit|
                #[trigger] final(self).at(r, s) == if r == role && s == suit {
                    old(self).at(r, s) + 1
                } else {
                    old(self).at(r, s) as int
                },
    {
        match role {
            DepotRole::Left => self.left.increment(suit),
            DepotRole::Right => self.right.increment(suit),
        }
    }

    /// Removes one card of suit `suit` from side `role`.
    pub fn decrement(&mut self, role: DepotRole, suit: Suit)
        requires
            old(self).at(role, suit) > 0,
        ensures
            forall|r: DepotRole, s: Suit|
                #[trigger] final(self).at(r, s) == if r == role && s == suit {
                    old(self).at(r, s) - 1
                } else {
                    old(self).at(r, s) as int
                },
    {
        match role {
            DepotRole::Left => self.left.decrement(suit),
            DepotRole::Right => self.right.decrement(suit),
        }
    }

    /// The first suit in danger: the left side before the right side, and on
    /// each side rabbits before carrots.
    pub open spec fn first_danger(self) -> Option<Suit> {
        match self.left.first_danger() {
            Some(s) => Some(s),
            None => self.right.first_danger(),
        }
    }

    /// The first suit in danger: the left side before the right side, and on
    /// each side rabbits before carrots.
    pub fn find_first_danger(self) -> (res: Option<Suit>)
        requires
            self.left.rabbit <= 253,
            self.left.carrot <= 253,
            self.left.first_danger() is None ==> self.right.rabbit <= 253 && self.right.carrot
                <= 253,
        ensures
            res == self.first_danger(),
    {
        let sides: [SuitCount; 2] = [self.left, self.right];
        let suits = Suit::all();
        let mut i: usize = 0;
        while i < 2
            invariant
                0 <= i <= 2,
                sides@ == seq![self.left, self.right],
                forall|k: int| 0 <= k < 3 ==> #[trigger] suits@[k] == Suit::at(k),
                sides@[0].rabbit <= 253 && sides@[0].carrot <= 253,
                sides@[0].first_danger() is None ==> sides@[1].rabbit <= 253 && sides@[1].carrot
                    <= 253,
                forall|k: int| 0 <= k < i ==> (#[trigger] sides@[k]).first_danger() is None,
            decreases 2 - i,
        {
            assert(i == 1 ==> sides@[0].first_danger() is None);
            let dangers = sides[i].find_dangers();
            let mut j: usize = 0;
            while j < 3
                invariant
                    0 <= j <= 3,
                    0 <= i < 2,
                    sides@ == seq![self.left, self.right],
                    forall|k: int| 0 <= k < i ==> (#[trigger] sides@[k]).first_danger() is None,
                    dangers == (Dangers {
                        fox: false,
                        rabbit: in_danger(sides@[i as int].fox as int, sides@[i as int].rabbit as int),
                        carrot: in_danger(sides@[i as int].rabbit as int, sides@[i as int].carrot as int),
                    }),
                    forall|k: int| 0 <= k < 3 ==> #[trigger] suits@[k] == Suit::at(k),
                    forall|k: int| 0 <= k < j ==> !dangers.has(#[trigger] Suit::at(k)),
                decreases 3 - j,
            {
                let suit = suits[j];
                if dangers.contains(suit) {
                    proof {
                        assert(suit == Suit::at(j as int));
                        if j >= 2 {
                            assert(!dangers.has(Suit::at(1)));
                        }
                        assert(sides@[i as int].first_danger() == Some(suit));
                        if i == 1 {
                            assert(sides@[0].first_danger() is None);
                        }
                    }
                    return Some(suit);
                }
                j = j + 1;
            }
            assert(!dangers.has(Suit::at(1)) && !dangers.has(Suit::at(2)));
            i = i + 1;
        }
        None
    }
}


/// Number of cards satisfying `p` in depots `lo` to `hi - 1`.
pub open spec fn depot_sum(depots: Seq<Seq<Card>>, lo: int, hi: int, p: spec_fn(Card) -> bool) -> nat
    decreases hi - lo,
{
    if hi <= lo {
        0
    } else {
        depot_sum(depots, lo, hi - 1, p) + count_where(depots[hi - 1], p)
    }
}

/// Number of cards of suit `suit` in depots `lo` to `hi - 1`.
pub open spec fn range_count(depots: Seq<Seq<Card>>, lo: int, hi: int, suit: Suit) -> nat {
    depot_sum(depots, lo, hi, of_suit(suit))
}

/// The counting rule: no cards count nothing, and one more card counts one
/// more exactly when it is of the suit; a side counts its three depots.
pub proof fn lemma_suit_count_rule(s: Seq<Card>, c: Card, suit: Suit, depots: Seq<Seq<Card>>, role: DepotRole)
    ensures
        suit_count(Seq::empty(), suit) == 0,
        suit_count(s.push(c), suit) == suit_count(s, suit) + if c.suit == suit {
            1int
        } else {
            0int
        },
        role_count(depots, role, suit) == suit_count(depots[role.index() * 3], suit)
            + suit_count(depots[role.index() * 3 + 1], suit) + suit_count(
            depots[role.index() * 3 + 2],
            suit,
        ),
{
    lemma_count_push(s, c, of_suit(suit));
    reveal_with_fuel(depot_sum, 4);
}

/// Number of cards of suit `suit` in the depots of side `role`.
pub open spec fn role_count(depots: Seq<Seq<Card>>, role: DepotRole, suit: Suit) -> nat {
    range_count(depots, role.first_depot(), role.first_depot() + NUM_SUITS, suit)
}

/// Number of cards of suit `suit` carried by the pending moves `acts` that go
/// to side `role`.
pub open spec fn acts_into(acts: Seq<MoveModel>, role: DepotRole, suit: Suit) -> nat
    decreases acts.len(),
{
    if acts.len() == 0 {
        0
    } else {
        acts_into(acts.drop_last(), role, suit) + if depot_role(acts.last().to.depot_index as int)
            == Some(role) {
            suit_count(acts.last().cards, suit)
        } else {
            0
        }
    }
}

/// The cards that are selected: those from the selected position to the top of
/// its depot.
pub open spec fn selected_cards(b: BoardModel) -> Seq<Card> {
    match b.selected {
        Some(p) => b.depots[p.depot_index as int].skip(p.card_index as int),
        None => Seq::empty(),
    }
}

/// The side the selected cards are on.
pub open spec fn selected_role(b: BoardModel) -> DepotRole {
    depot_role(b.selected->0.depot_index as int)->0
}

/// The change that crossing the selected cards to the other side makes to the
/// count of suit `suit` on side `role`.
pub open spec fn selection_delta(b: BoardModel, role: DepotRole, suit: Suit) -> int {
    let moved = suit_count(selected_cards(b), suit) as int;
    if b.selected is None {
        0
    } else if role == selected_role(b) {
        -moved
    } else {
        moved
    }
}

/// The count of suit `suit` that side `role` will have once the selected cards
/// have crossed to the other side and every pending move has landed.
pub open spec fn predicted_count(b: BoardModel, role: DepotRole, suit: Suit) -> int {
    role_count(b.depots, role, suit) + selection_delta(b, role, suit) + acts_into(b.acts, role, suit)
}

/// Whether every count of both sides fits in a byte.
pub open spec fn actual_counts_fit(depots: Seq<Seq<Card>>) -> bool {
    forall|role: DepotRole, suit: Suit| #[trigger] role_count(depots, role, suit) <= 255
}

/// The count of a prefix of `acts` never exceeds the count of all of `acts`.
pub proof fn lemma_acts_into_prefix(acts: Seq<MoveModel>, i: int, role: DepotRole, suit: Suit)
    requires
        0 <= i <= acts.len(),
    ensures
        acts_into(acts.take(i), role, suit) <= acts_into(acts, role, suit),
    decreases acts.len() - i,
{
    if i < acts.len() {
        lemma_acts_into_prefix(acts, i + 1, role, suit);
        assert(acts.take(i + 1).drop_last() =~= acts.take(i));
    } else {
        assert(acts.take(i) =~= acts);
    }
}

/// The count of one depot of a side never exceeds the count of the side.
pub proof fn lemma_depot_le_role(depots: Seq<Seq<Card>>, d: int, suit: Suit)
    requires
        0 <= d < NUM_DEPOTS,
    ensures
        suit_count(depots[d], suit) <= role_count(depots, depot_role(d)->0, suit),
{
    reveal_with_fuel(depot_sum, 4);
}

/// Adds every card of `cards` to the counts of side `role`.
fn count_cards_into(counts: &mut SuitCounts, role: DepotRole, cards: &Vec<Card>)
    requires
        forall|s: Suit| #[trigger] old(counts).at(role, s) + suit_count(cards@, s) <= 255,
    ensures
        forall|r: DepotRole, s: Suit|
            #[trigger] final(counts).at(r, s) == old(counts).at(r, s) + if r == role {
                suit_count(cards@, s)
            } else {
                0
            },
{
    let ghost start = *counts;
    let mut k: usize = 0;
    while k < cards.len()
        invariant
            0 <= k <= cards@.len(),
            forall|s: Suit| #[trigger] start.at(role, s) + suit_count(cards@, s) <= 255,
            forall|r: DepotRole, s: Suit|
                #[trigger] counts.at(r, s) == start.at(r, s) + if r == role {
                    suit_count(cards@.take(k as int), s)
                } else {
                    0
                },
        decreases cards@.len() - k,
    {
        let card = cards[k];
        proof {
            assert(cards@.take(k + 1) =~= cards@.take(k as int).push(card));
            lemma_count_push(cards@.take(k as int), card, of_suit(card.suit));
            lemma_count_split(cards@, k + 1, of_suit(card.suit));
            assert(counts.at(role, card.suit) == start.at(role, card.suit) + suit_count(cards@.take(k as int), card.suit));
        }
        counts.increment(role, card.suit);
        proof {
            assert forall|s: Suit| s != card.suit implies suit_count(cards@.take(k + 1), s)
                == suit_count(cards@.take(k as int), s) by {
                lemma_count_push(cards@.take(k as int), card, of_suit(s));
            }
        }
        k = k + 1;
    }
    assert(cards@.take(cards@.len() as int) =~= cards@);
}

impl Board {
    /// The number of cards of each suit on each side of the river, as the
    /// depots hold them now.
    pub fn actual_suit_counts(&self) -> (res: SuitCounts)
        requires
            self@.depots.len() >= NUM_DEPOTS,
            actual_counts_fit(self@.depots),
        ensures
            forall|r: DepotRole, s: Suit| #[trigger] res.at(r, s) == role_count(self@.depots, r, s),
    {
        let mut counts = SuitCounts { left: SuitCount::default(), right: SuitCount::default() };
        let roles: [DepotRole; 2] = [DepotRole::Left, DepotRole::Right];
        let mut k: usize = 0;
        while k < 2
            invariant
                0 <= k <= 2,
                roles@ == seq![DepotRole::Left, DepotRole::Right],
                self@.depots.len() >= NUM_DEPOTS,
                actual_counts_fit(self@.depots),
                forall|r: DepotRole, s: Suit|
                    #[trigger] counts.at(r, s) == if r.index() < k {
                        role_count(self@.depots, r, s)
                    } else {
                        0
                    },
            decreases 2 - k,
        {
            let role = roles[k];
            let range = role.range();
            let mut i: usize = range.start;
            while i < range.end
                invariant
                    0 <= k < 2,
                    role == roles@[k as int],
                    role.index() == k,
                    range.start == role.first_depot(),
                    range.end == role.first_depot() + NUM_SUITS,
                    range.start <= i <= range.end,
                    self@.depots.len() >= NUM_DEPOTS,
                    actual_counts_fit(self@.depots),
                    forall|r: DepotRole, s: Suit|
                        #[trigger] counts.at(r, s) == if r.index() < k {
                            role_count(self@.depots, r, s)
                        } else if r == role {
                            range_count(self@.depots, range.start as int, i as int, s)
                        } else {
                            0
                        },
                decreases range.end - i,
            {
                proof {
                    assert forall|s: Suit| #[trigger] counts.at(role, s) + suit_count(self.depots@[i as int]@, s) <= 255 by {
                        assert(self@.depots[i as int] == self.depots@[i as int]@);
                        assert(range_count(self@.depots, range.start as int, i + 1, s)
                            == counts.at(role, s) + suit_count(self@.depots[i as int], s));
                        lemma_range_count_mono(self@.depots, range.start as int, i + 1, range.end as int, s);
                        assert(role_count(self@.depots, role, s) <= 255);
                    }
                }
                count_cards_into(&mut counts, role, &self.depots[i]);
                proof {
                    assert forall|s: Suit| #[trigger] counts.at(role, s) == range_count(self@.depots, range.start as int, i + 1, s) by {
                        assert(self@.depots[i as int] == self.depots@[i as int]@);
                    }
                }
                i = i + 1;
            }
            k = k + 1;
        }
        counts
    }

    /// The number of cards of each suit that each side will have once the
    /// selected cards have crossed the river and every pending move has
    /// landed.
    pub fn predicted_suit_counts(&self) -> (res: SuitCounts)
        requires
            self@.depots.len() >= NUM_DEPOTS,
            actual_counts_fit(self@.depots),
            self@.selected matches Some(p) ==> p.depot_index < NUM_DEPOTS && p.card_index
                <= self@.depots[p.depot_index as int].len(),
            forall|i: int|
                0 <= i < self@.acts.len() ==> (#[trigger] self@.acts[i]).to.depot_index < NUM_DEPOTS,
            forall|r: DepotRole, s: Suit| #[trigger] predicted_count(self@, r, s) <= 255,
        ensures
            forall|r: DepotRole, s: Suit| #[trigger] res.at(r, s) == predicted_count(self@, r, s),
    {
        let ghost b = self@;
        let mut counts = self.actual_suit_counts();
        if let Some(pos) = self.selected {
            let depot_index = pos.depot_index;
            let role = DepotRole::role(depot_index).unwrap();
            let card_index = pos.card_index;
            let depot = &self.depots[depot_index];
            let ghost sel = depot@.skip(card_index as int);
            assert(sel == selected_cards(b));
            assert(role == selected_role(b));
            let mut k: usize = card_index;
            while k < depot.len()
                invariant
                    card_index <= k <= depot@.len(),
                    depot_index < NUM_DEPOTS,
                    depot@ == b.depots[depot_index as int],
                    role == depot_role(depot_index as int)->0,
                    sel == depot@.skip(card_index as int),
                    b == self@,
                    b.selected is Some,
                    role == selected_role(b),
                    sel == selected_cards(b),
                    forall|r: DepotRole, s: Suit| #[trigger] predicted_count(b, r, s) <= 255,
                    forall|r: DepotRole, s: Suit|
                        #[trigger] counts.at(r, s) == role_count(b.depots, r, s) + if r == role {
                            -suit_count(sel.take(k - card_index), s)
                        } else {
                            suit_count(sel.take(k - card_index), s) as int
                        },
                decreases depot@.len() - k,
            {
                let card = depot[k];
                let ghost j = k - card_index;
                proof {
                    let p = of_suit(card.suit);
                    assert(sel[j] == card);
                    assert(sel.take(j + 1) =~= sel.take(j).push(card));
                    lemma_count_push(sel.take(j), card, p);
                    lemma_count_split(sel, j + 1, p);
                    lemma_count_split(depot@, card_index as int, p);
                    lemma_depot_le_role(b.depots, depot_index as int, card.suit);
                    assert(acts_into(b.acts, role.other(), card.suit) >= 0);
                    assert(predicted_count(b, role.other(), card.suit) <= 255);
                }
                counts.decrement(role, card.suit);
                counts.increment(role.not(), card.suit);
                proof {
                    assert forall|s: Suit| s != card.suit implies suit_count(sel.take(j + 1), s)
                        == suit_count(sel.take(j), s) by {
                        lemma_count_push(sel.take(j), card, of_suit(s));
                    }
                }
                k = k + 1;
            }
            proof {
                assert(sel.take(k - card_index) =~= sel);
            }
        }
        let mut i: usize = 0;
        while i < self.animation_acts.len()
            invariant
                0 <= i <= b.acts.len(),
                b == self@,
                b.acts.len() == self.animation_acts@.len(),
                forall|i: int|
                    0 <= i < b.acts.len() ==> (#[trigger] b.acts[i]).to.depot_index < NUM_DEPOTS,
                forall|r: DepotRole, s: Suit| #[trigger] predicted_count(b, r, s) <= 255,
                forall|r: DepotRole, s: Suit|
                    #[trigger] counts.at(r, s) == role_count(b.depots, r, s) + selection_delta(b, r, s)
                        + acts_into(b.acts.take(i as int), r, s),
            decreases b.acts.len() - i,
        {
            proof {
                assert(b.acts[i as int] == self.animation_acts@[i as int].model());
                assert(b.acts.take(i + 1).drop_last() =~= b.acts.take(i as int));
            }
            match &self.animation_acts[i] {
                AnimationAct::Move(cards, _pos1, pos2) => {
                    let role = DepotRole::role(pos2.depot_index).unwrap();
                    proof {
                        assert forall|s: Suit| #[trigger] counts.at(role, s) + suit_count(cards@, s) <= 255 by {
                            lemma_acts_into_prefix(b.acts, i + 1, role, s);
                            assert(predicted_count(b, role, s) <= 255);
                        }
                    }
                    count_cards_into(&mut counts, role, cards);
                },
            }
            i = i + 1;
        }
        proof {
            assert(b.acts.take(b.acts.len() as int) =~= b.acts);
        }
        counts
    }
}

/// Counts over a range of depots grow with the range.
pub proof fn lemma_range_count_mono(depots: Seq<Seq<Card>>, lo: int, mid: int, hi: int, suit: Suit)
    requires
        lo <= mid <= hi,
    ensures
        range_count(depots, lo, mid, suit) <= range_count(depots, lo, hi, suit),
    decreases hi - mid,
{
    lemma_depot_sum_split(depots, lo, mid, hi, of_suit(suit));
}

/// A sum over depots splits at any depot in between.
pub proof fn lemma_depot_sum_split(
    depots: Seq<Seq<Card>>,
    lo: int,
    mid: int,
    hi: int,
    p: spec_fn(Card) -> bool,
)
    requires
        lo <= mid <= hi,
    ensures
        depot_sum(depots, lo, hi, p) == depot_sum(depots, lo, mid, p) + depot_sum(depots, mid, hi, p),
    decreases hi - mid,
{
    if mid < hi {
        lemma_depot_sum_split(depots, lo, mid, hi - 1, p);
    }
}

/// A sum over depots only depends on the depots in its range.
pub proof fn lemma_depot_sum_same(
    a: Seq<Seq<Card>>,
    b: Seq<Seq<Card>>,
    lo: int,
    hi: int,
    p: spec_fn(Card) -> bool,
)
    requires
        forall|i: int| lo <= i < hi ==> a[i] == b[i],
    ensures
        depot_sum(a, lo, hi, p) == depot_sum(b, lo, hi, p),
    decreases hi - lo,
{
    if lo < hi {
        lemma_depot_sum_same(a, b, lo, hi - 1, p);
    }
}

/// Replacing depot `i` by `x` changes a sum that covers `i` by the counts of
/// the old and the new depot.
pub proof fn lemma_depot_sum_update(
    depots: Seq<Seq<Card>>,
    i: int,
    x: Seq<Card>,
    lo: int,
    hi: int,
    p: spec_fn(Card) -> bool,
)
    requires
        0 <= lo <= i < hi <= depots.len(),
    ensures
        depot_sum(depots.update(i, x), lo, hi, p) + count_where(depots[i], p) == depot_sum(
            depots,
            lo,
            hi,
            p,
        ) + count_where(x, p),
{
    let u = depots.update(i, x);
    lemma_depot_sum_split(depots, lo, i, hi, p);
    lemma_depot_sum_split(u, lo, i, hi, p);
    lemma_depot_sum_same(depots, u, lo, i, p);
    lemma_depot_sum_same(depots, u, i + 1, hi, p);
    lemma_depot_sum_split(depots, i, i + 1, hi, p);
    lemma_depot_sum_split(u, i, i + 1, hi, p);
    assert(depot_sum(u, i, i, p) == 0);
    assert(depot_sum(depots, i, i, p) == 0);
    assert(u[i] == x);
    assert(depot_sum(u, i, i + 1, p) == count_where(x, p));
    assert(depot_sum(depots, i, i + 1, p) == count_where(depots[i], p));
}

/// Landing pending moves on depots adds their cards to the counts of the sides
/// they go to.
pub proof fn lemma_apply_acts_role_count(
    depots: Seq<Seq<Card>>,
    acts: Seq<MoveModel>,
    role: DepotRole,
    suit: Suit,
)
    requires
        depots.len() >= NUM_DEPOTS,
        forall|i: int| 0 <= i < acts.len() ==> (#[trigger] acts[i]).to.depot_index < NUM_DEPOTS,
    ensures
        apply_acts(depots, acts).len() == depots.len(),
        role_count(apply_acts(depots, acts), role, suit) == role_count(depots, role, suit)
            + acts_into(acts, role, suit),
    decreases acts.len(),
{
    if acts.len() > 0 {
        let rest = acts.drop_last();
        assert forall|i: int| 0 <= i < rest.len() implies (#[trigger] rest[i]).to.depot_index
            < NUM_DEPOTS by {
            assert(rest[i] == acts[i]);
        }
        lemma_apply_acts_role_count(depots, rest, role, suit);
        let prev = apply_acts(depots, rest);
        let a = acts.last();
        assert(a == acts[acts.len() - 1]);
        let d = a.to.depot_index as int;
        let x = prev[d] + a.cards;
        let lo = role.first_depot();
        let hi = lo + NUM_SUITS;
        lemma_count_concat(prev[d], a.cards, of_suit(suit));
        if lo <= d < hi {
            lemma_depot_sum_update(prev, d, x, lo, hi, of_suit(suit));
        } else {
            lemma_depot_sum_same(prev, prev.update(d, x), lo, hi, of_suit(suit));
        }
    }
}

/// The predicted counts are the counts of the board once the selected stack
/// has crossed to a depot `q` on the other side and every move has landed
/// (with nothing selected: once every pending move has landed).
pub proof fn lemma_predicted_counts(b: BoardModel, q: BoardPos, role: DepotRole, suit: Suit)
    requires
        b.depots.len() >= NUM_DEPOTS,
        forall|i: int| 0 <= i < b.acts.len() ==> (#[trigger] b.acts[i]).to.depot_index < NUM_DEPOTS,
        b.selected is Some ==> {
            let p = b.selected->0;
            &&& p.depot_index < NUM_DEPOTS
            &&& p.card_index <= b.depots[p.depot_index as int].len()
            &&& q.depot_index < NUM_DEPOTS
            &&& depot_role(q.depot_index as int) == Some(selected_role(b).other())
        },
    ensures
        predicted_count(b, role, suit) == role_count(
            (if b.selected is Some {
                b.moved(b.selected->0, q)
            } else {
                b
            }).advanced().depots,
            role,
            suit,
        ),
{
    if b.selected is None {
        lemma_apply_acts_role_count(b.depots, b.acts, role, suit);
    } else {
        let p = b.selected->0;
        let m = b.moved(p, q);
        let d = p.depot_index as int;
        let src = b.depots[d];
        let cards = src.skip(p.card_index as int);
        assert(cards == selected_cards(b));
        assert forall|i: int| 0 <= i < m.acts.len() implies (#[trigger] m.acts[i]).to.depot_index
            < NUM_DEPOTS by {
            if i < b.acts.len() {
                assert(m.acts[i] == b.acts[i]);
            }
        }
        lemma_apply_acts_role_count(m.depots, m.acts, role, suit);
        assert(m.acts.drop_last() =~= b.acts);
        lemma_count_split(src, p.card_index as int, of_suit(suit));
        let lo = role.first_depot();
        let hi = lo + NUM_SUITS;
        if lo <= d < hi {
            lemma_depot_sum_update(b.depots, d, src.take(p.card_index as int), lo, hi, of_suit(suit));
        } else {
            lemma_depot_sum_same(b.depots, m.depots, lo, hi, of_suit(suit));
        }
    }
}

} // verus!
