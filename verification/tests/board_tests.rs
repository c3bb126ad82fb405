use river_crossing::game::board::{AnimationAct, Board, BoardPos, DepotRole, NUM_DEPOTS};
use river_crossing::game::counts::{SuitCount, SuitCounts};
use river_crossing::game::{Card, Suit, DECK_SIZE, NUM_RANKS, NUM_SUITS, RANKS};

fn card(rank: u8, suit: Suit) -> Card {
    Card { rank, suit }
}

fn standard_deck() -> Vec<Card> {
    let mut deck = Vec::new();
    for rank in RANKS {
        for suit in [Suit::Fox, Suit::Rabbit, Suit::Carrot] {
            deck.push(card(rank, suit));
        }
    }
    deck
}

#[test]
fn constants_describe_the_deck() {
    assert_eq!(NUM_SUITS, 3);
    assert_eq!(NUM_RANKS, 13);
    assert_eq!(DECK_SIZE, 39);
    assert_eq!(NUM_DEPOTS, 6);
    assert_eq!(RANKS, [1, 2, 3, 4, 5, 6, 7, 8, 9, 10, 11, 12, 13]);
}

#[test]
fn depot_roles_split_the_depots_in_halves() {
    assert_eq!(DepotRole::Left.number_of(), 3);
    assert_eq!(DepotRole::Right.number_of(), 3);
    assert_eq!(DepotRole::Left.offset(), 0);
    assert_eq!(DepotRole::Right.offset(), 3);
    assert_eq!(DepotRole::Left.range(), 0..3);
    assert_eq!(DepotRole::Right.range(), 3..6);
    assert_eq!(DepotRole::Right.id(1), 4);
    assert_eq!(DepotRole::Left.id(2), 2);
    for i in 0..3 {
        assert_eq!(DepotRole::role(i), Some(DepotRole::Left));
        assert_eq!(DepotRole::role_and_subindex(i), Some((DepotRole::Left, i)));
    }
    for i in 3..6 {
        assert_eq!(DepotRole::role(i), Some(DepotRole::Right));
        assert_eq!(DepotRole::role_and_subindex(i), Some((DepotRole::Right, i - 3)));
    }
    assert_eq!(DepotRole::role(6), None);
    assert_eq!(DepotRole::role_and_subindex(usize::MAX), None);
}

#[test]
fn not_crosses_the_river() {
    assert_eq!(!DepotRole::Left, DepotRole::Right);
    assert_eq!(!DepotRole::Right, DepotRole::Left);
    assert_eq!(!!DepotRole::Left, DepotRole::Left);
}

#[test]
fn empty_board_has_six_empty_depots() {
    let b = Board::empty();
    assert_eq!(b.depots.len(), 6);
    assert!(b.depots.iter().all(|d| d.is_empty()));
    assert_eq!(b.selected, None);
    assert_eq!(b.boat_pos, DepotRole::Left);
    assert!(!b.animate_boat);
    assert!(b.animation_acts.is_empty());
}

#[test]
fn deal_goes_round_the_left_depots() {
    let deck = standard_deck();
    let b = Board::from_deal(&deck);
    for d in 0..3 {
        assert_eq!(b.depots[d].len(), 13);
        for j in 0..13 {
            assert_eq!(b.depots[d][j], deck[3 * j + d]);
        }
    }
    for d in 3..6 {
        assert!(b.depots[d].is_empty());
    }
    assert_eq!(b.depots[0][0], card(1, Suit::Fox));
    assert_eq!(b.depots[1][12], card(13, Suit::Rabbit));
    assert_eq!(b.boat_pos, DepotRole::Left);
}

#[test]
fn positions_at_the_top_of_a_depot() {
    let mut b = Board::empty();
    assert_eq!(b.top_pos(4), BoardPos::new(4, 0));
    assert_eq!(b.last_pos(4), BoardPos::new(4, usize::MAX));
    b.depots[4].push(card(3, Suit::Carrot));
    b.depots[4].push(card(2, Suit::Fox));
    assert_eq!(b.top_pos(4), BoardPos { depot_index: 4, card_index: 2 });
    assert_eq!(b.last_pos(4), BoardPos { depot_index: 4, card_index: 1 });
}

#[test]
fn a_move_lifts_the_stack_and_lands_later() {
    let mut b = Board::empty();
    b.depots[0] = vec![card(12, Suit::Fox), card(11, Suit::Rabbit), card(7, Suit::Fox)];
    b.depots[4] = vec![card(13, Suit::Carrot)];
    b.selected = Some(BoardPos::new(0, 1));
    b.do_move(BoardPos::new(0, 1), BoardPos::new(4, 1));
    assert_eq!(b.selected, None);
    assert_eq!(b.depots[0], vec![card(12, Suit::Fox)]);
    assert_eq!(b.depots[4], vec![card(13, Suit::Carrot)]);
    assert_eq!(b.boat_pos, DepotRole::Right);
    assert!(b.animate_boat);
    assert_eq!(
        b.animation_acts,
        vec![AnimationAct::Move(
            vec![card(11, Suit::Rabbit), card(7, Suit::Fox)],
            BoardPos::new(0, 1),
            BoardPos::new(4, 1)
        )]
    );
    b.advance_actions();
    assert!(b.animation_acts.is_empty());
    assert!(!b.animate_boat);
    assert_eq!(
        b.depots[4],
        vec![card(13, Suit::Carrot), card(11, Suit::Rabbit), card(7, Suit::Fox)]
    );
}

#[test]
fn a_move_on_the_same_side_keeps_the_boat_still() {
    let mut b = Board::empty();
    b.depots[0] = vec![card(5, Suit::Rabbit)];
    b.do_move(BoardPos::new(0, 0), BoardPos::new(2, 0));
    assert_eq!(b.boat_pos, DepotRole::Left);
    assert!(!b.animate_boat);
}

#[test]
fn pending_moves_land_in_order() {
    let mut b = Board::empty();
    b.depots[0] = vec![card(9, Suit::Fox)];
    b.depots[1] = vec![card(8, Suit::Rabbit)];
    b.do_move(BoardPos::new(0, 0), BoardPos::new(3, 0));
    b.do_move(BoardPos::new(1, 0), BoardPos::new(3, 1));
    b.advance_actions();
    assert_eq!(b.depots[3], vec![card(9, Suit::Fox), card(8, Suit::Rabbit)]);
    assert!(b.depots[0].is_empty() && b.depots[1].is_empty());
}

#[test]
fn moves_keep_every_card_on_the_board() {
    let deck = standard_deck();
    let mut b = Board::from_deal(&deck);
    b.do_move(BoardPos::new(0, 10), BoardPos::new(5, 0));
    b.do_move(BoardPos::new(2, 4), BoardPos::new(3, 0));
    let mut all: Vec<Card> = b.depots.iter().flatten().copied().collect();
    for act in &b.animation_acts {
        let AnimationAct::Move(cards, _, _) = act;
        all.extend(cards.iter().copied());
    }
    assert_eq!(all.len(), 39);
    b.advance_actions();
    let after: Vec<Card> = b.depots.iter().flatten().copied().collect();
    assert_eq!(after.len(), 39);
    for c in &deck {
        assert_eq!(after.iter().filter(|x| *x == c).count(), 1);
    }
}

#[test]
fn dangers_follow_the_food_chain() {
    let calm = SuitCount { fox: 2, rabbit: 1, carrot: 0 };
    let d = calm.find_dangers();
    assert!(d.is_empty());
    let rabbits = SuitCount { fox: 3, rabbit: 1, carrot: 5 };
    let d = rabbits.find_dangers();
    assert!(d.contains(Suit::Rabbit));
    assert!(!d.contains(Suit::Carrot));
    assert!(!d.contains(Suit::Fox));
    let carrots = SuitCount { fox: 0, rabbit: 4, carrot: 2 };
    let d = carrots.find_dangers();
    assert!(d.contains(Suit::Carrot) && !d.contains(Suit::Rabbit));
    let no_prey = SuitCount { fox: 13, rabbit: 0, carrot: 0 };
    assert!(no_prey.find_dangers().is_empty());
    let both = SuitCount { fox: 5, rabbit: 3, carrot: 1 };
    let d = both.find_dangers();
    assert!(d.contains(Suit::Rabbit) && d.contains(Suit::Carrot));
}

#[test]
fn first_danger_looks_left_then_rabbits() {
    let quiet = SuitCount::default();
    assert_eq!(quiet, SuitCount { fox: 0, rabbit: 0, carrot: 0 });
    let both = SuitCount { fox: 5, rabbit: 3, carrot: 1 };
    let carrots = SuitCount { fox: 0, rabbit: 4, carrot: 2 };
    let counts = SuitCounts { left: quiet, right: quiet };
    assert_eq!(counts.find_first_danger(), None);
    let counts = SuitCounts { left: carrots, right: both };
    assert_eq!(counts.find_first_danger(), Some(Suit::Carrot));
    let counts = SuitCounts { left: quiet, right: both };
    assert_eq!(counts.find_first_danger(), Some(Suit::Rabbit));
    assert_eq!(counts.get(DepotRole::Right).get(Suit::Fox), 5);
}

#[test]
fn suit_counts_of_both_sides() {
    let mut b = Board::empty();
    b.depots[0] = vec![card(12, Suit::Fox), card(11, Suit::Rabbit), card(7, Suit::Fox)];
    b.depots[2] = vec![card(3, Suit::Carrot)];
    b.depots[5] = vec![card(1, Suit::Rabbit)];
    let counts = b.actual_suit_counts();
    assert_eq!(counts.left, SuitCount { fox: 2, rabbit: 1, carrot: 1 });
    assert_eq!(counts.right, SuitCount { fox: 0, rabbit: 1, carrot: 0 });
}

#[test]
fn predicted_counts_cross_the_selection_and_land_moves() {
    let mut b = Board::empty();
    b.depots[0] = vec![card(12, Suit::Fox), card(11, Suit::Rabbit), card(7, Suit::Fox)];
    b.depots[2] = vec![card(3, Suit::Carrot)];
    b.depots[5] = vec![card(1, Suit::Rabbit)];
    b.selected = Some(BoardPos::new(0, 1));
    let counts = b.predicted_suit_counts();
    assert_eq!(counts.left, SuitCount { fox: 1, rabbit: 0, carrot: 1 });
    assert_eq!(counts.right, SuitCount { fox: 1, rabbit: 2, carrot: 0 });

    let mut b2 = Board::empty();
    b2.depots[2] = vec![card(3, Suit::Carrot), card(2, Suit::Fox)];
    b2.do_move(BoardPos::new(2, 1), BoardPos::new(4, 0));
    let counts = b2.predicted_suit_counts();
    assert_eq!(counts.left, SuitCount { fox: 0, rabbit: 0, carrot: 1 });
    assert_eq!(counts.right, SuitCount { fox: 1, rabbit: 0, carrot: 0 });
    assert_eq!(b2.actual_suit_counts().right, SuitCount { fox: 0, rabbit: 0, carrot: 0 });
}

#[test]
fn predicted_counts_are_the_counts_after_landing() {
    let deck = standard_deck();
    let mut b = Board::from_deal(&deck);
    b.do_move(BoardPos::new(0, 9), BoardPos::new(3, 0));
    b.do_move(BoardPos::new(1, 11), BoardPos::new(4, 0));
    let predicted = b.predicted_suit_counts();
    let mut landed = b.clone();
    landed.advance_actions();
    assert_eq!(predicted, landed.actual_suit_counts());

    landed.selected = Some(BoardPos::new(2, 8));
    let predicted = landed.predicted_suit_counts();
    let mut crossed = landed.clone();
    crossed.do_move(BoardPos::new(2, 8), BoardPos::new(5, 0));
    crossed.advance_actions();
    assert_eq!(predicted, crossed.actual_suit_counts());
}

#[test]
fn a_click_on_the_last_card_targets_the_top() {
    let mut b = Board::empty();
    let empty_last = b.last_pos(3);
    assert_eq!(empty_last.card_index.wrapping_add(1), b.top_pos(3).card_index);
    b.depots[3] = vec![card(9, Suit::Fox), card(8, Suit::Carrot)];
    let last = b.last_pos(3);
    assert_eq!(last.card_index.wrapping_add(1), b.top_pos(3).card_index);
    for role in [DepotRole::Left, DepotRole::Right] {
        for i in 0..3 {
            assert_eq!(DepotRole::role_and_subindex(role.id(i)), Some((role, i)));
        }
    }
}
