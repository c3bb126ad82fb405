use river_crossing::game::board::{Board, BoardPos, DepotRole};
use river_crossing::game::game::{ActionRecord, GameState, GameStatus, ScreenState};
use river_crossing::game::skin::Skin;
use river_crossing::game::{Card, SettingsState, Suit, RANKS};

fn card(rank: u8, suit: Suit) -> Card {
    Card { rank, suit }
}

fn standard_deck() -> Vec<Card> {
    let mut deck = Vec::new();
    for rank in RANKS {
        for suit in [Suit::Fox, Suit::Rabbit, Suit::Carrot] {
            deck.push(card(rank, suit));
        }
    }
    deck
}

fn game_with(board: Board) -> GameState {
    GameState {
        board,
        deal: standard_deck(),
        animation_key: 0,
        history: vec![],
        undo_stack: vec![],
        already_won: false,
        num_wins: 0,
        screen_state: ScreenState::Game,
        allow_undo: true,
        skin: Skin::default(),
    }
}

/// Left: a fox-rabbit stack and a carrot; right: empty.
fn small_game() -> GameState {
    let mut b = Board::empty();
    b.depots[0] = vec![card(12, Suit::Fox), card(11, Suit::Rabbit)];
    b.depots[1] = vec![card(4, Suit::Carrot)];
    game_with(b)
}

fn sorted(mut cards: Vec<Card>) -> Vec<(u8, u8)> {
    let mut keys: Vec<(u8, u8)> = cards
        .drain(..)
        .map(|c| {
            let s = match c.suit {
                Suit::Fox => 0,
                Suit::Rabbit => 1,
                Suit::Carrot => 2,
            };
            (c.rank, s)
        })
        .collect();
    keys.sort();
    keys
}

#[test]
fn new_deal_is_a_shuffled_full_deck() {
    let deal = GameState::new_deal(&mut rand::rng());
    assert_eq!(deal.len(), 39);
    assert_eq!(sorted(deal.clone()), sorted(standard_deck()));
    let other = GameState::new_deal(&mut rand::rng());
    // Two shuffles agreeing with each other and with the sorted deck is all
    // but impossible.
    assert!(deal != standard_deck() || other != standard_deck());
}

#[test]
fn init_deals_thirteen_cards_to_each_left_depot() {
    let g = GameState::init();
    for d in 0..3 {
        assert_eq!(g.board.depots[d].len(), 13);
    }
    for d in 3..6 {
        assert!(g.board.depots[d].is_empty());
    }
    assert_eq!(g.deal.len(), 39);
    assert_eq!(g.board, Board::from_deal(&g.deal));
    assert_eq!(g.animation_key, 0);
    assert!(g.history.is_empty() && g.undo_stack.is_empty());
    assert!(!g.already_won);
    assert_eq!(g.num_wins, 0);
    assert_eq!(g.screen_state, ScreenState::Game);
    assert!(g.allow_undo);
    assert_eq!(g.skin, Skin::default());
}

#[test]
fn new_game_keeps_wins_and_settings() {
    let mut g = small_game();
    g.num_wins = 4;
    g.allow_undo = false;
    g.already_won = true;
    g.history.push(ActionRecord { pos1: BoardPos::new(0, 0), pos2: BoardPos::new(3, 0) });
    g.new_game();
    assert_eq!(g.num_wins, 4);
    assert!(!g.allow_undo);
    assert!(!g.already_won);
    assert!(g.history.is_empty());
    assert_eq!(g.board, Board::from_deal(&g.deal));
    assert_eq!(sorted(g.deal.clone()), sorted(standard_deck()));
}

#[test]
fn stacking_needs_unlike_suit_and_lower_rank() {
    let g = small_game();
    assert!(g.can_stack(card(12, Suit::Fox), card(11, Suit::Rabbit)));
    assert!(g.can_stack(card(12, Suit::Fox), card(2, Suit::Carrot)));
    assert!(!g.can_stack(card(12, Suit::Fox), card(11, Suit::Fox)));
    assert!(!g.can_stack(card(5, Suit::Fox), card(5, Suit::Rabbit)));
    assert!(!g.can_stack(card(5, Suit::Fox), card(6, Suit::Rabbit)));
}

#[test]
fn help_example_stack_can_be_picked_up() {
    let mut b = Board::empty();
    b.depots[2] = vec![
        card(11, Suit::Rabbit),
        card(7, Suit::Fox),
        card(5, Suit::Rabbit),
        card(4, Suit::Carrot),
    ];
    b.depots[4] = vec![card(12, Suit::Fox)];
    let g = game_with(b);
    assert!(g.can_select(BoardPos::new(2, 0)));
    assert!(g.can_move(BoardPos::new(2, 0), BoardPos::new(4, 1)));
    let mut g = g;
    g.onclick(BoardPos::new(2, 0));
    g.onclick(BoardPos::new(4, 0));
    assert!(g.advance_animations(0));
    assert_eq!(g.board.depots[4].len(), 5);
    assert!(g.board.depots[2].is_empty());
}

#[test]
fn selection_rules() {
    let mut g = small_game();
    g.board.depots[0].push(card(11, Suit::Carrot));
    assert!(g.can_select(BoardPos::new(0, 2)));
    assert!(!g.can_select(BoardPos::new(0, 1)));
    assert!(!g.can_select(BoardPos::new(0, 3)));
    assert!(!g.can_select(BoardPos::new(9, 0)));
    g.board.depots[3] = vec![card(1, Suit::Fox)];
    assert!(!g.can_select(BoardPos::new(3, 0)));
    g.board.boat_pos = DepotRole::Right;
    assert!(g.can_select(BoardPos::new(3, 0)));
    assert!(!g.can_select(BoardPos::new(0, 2)));
}

#[test]
fn move_rules() {
    let g = small_game();
    assert!(g.can_move(BoardPos::new(0, 0), BoardPos::new(3, 0)));
    assert!(!g.can_move(BoardPos::new(0, 0), BoardPos::new(3, 1)));
    assert!(!g.can_move(BoardPos::new(0, 0), BoardPos::new(0, 2)));
    assert!(g.can_move(BoardPos::new(1, 0), BoardPos::new(0, 2)));
    assert!(!g.can_move(BoardPos::new(0, 1), BoardPos::new(1, 1)));
    assert!(g.can_move(BoardPos::new(0, 0), BoardPos::new(2, 0)));
}

#[test]
fn clicks_select_deselect_and_reselect() {
    let mut g = small_game();
    g.onclick(BoardPos::new(0, 1));
    assert_eq!(g.board.selected, Some(BoardPos::new(0, 1)));
    g.onclick(BoardPos::new(0, 0));
    assert_eq!(g.board.selected, Some(BoardPos::new(0, 0)));
    g.onclick(BoardPos::new(0, 0));
    assert_eq!(g.board.selected, None);
    g.onclick(BoardPos::new(4, 0));
    assert_eq!(g.board.selected, None);
}

#[test]
fn a_disallowed_move_changes_nothing() {
    let mut g = small_game();
    g.onclick(BoardPos::new(1, 0));
    let before = g.clone();
    // Depot 3 is empty, so a click on its fifth card does not name its top.
    g.onclick(BoardPos::new(3, 4));
    assert_eq!(g, before);
}

#[test]
fn move_show_and_undo_restores_the_board() {
    let mut g = small_game();
    let start = g.board.clone();
    g.onclick(BoardPos::new(0, 0));
    g.onclick(BoardPos::new(3, usize::MAX));
    assert!(g.is_busy() && g.is_acting());
    assert_eq!(g.history, vec![ActionRecord { pos1: BoardPos::new(0, 0), pos2: BoardPos::new(3, 0) }]);
    assert_eq!(g.undo_stack, vec![0]);
    assert_eq!(g.board.boat_pos, DepotRole::Right);
    assert_eq!(g.game_status(), GameStatus::Ongoing);
    // clicks are ignored while busy
    let busy = g.clone();
    g.onclick(BoardPos::new(1, 0));
    assert_eq!(g, busy);
    assert!(g.advance_animations(0));
    assert_eq!(g.animation_key, 1);
    assert!(!g.is_busy());
    assert_eq!(g.board.depots[3], vec![card(12, Suit::Fox), card(11, Suit::Rabbit)]);
    assert!(g.undo_possible());
    assert!(g.undo());
    assert_eq!(g.board.depots, start.depots);
    assert_eq!(g.board.boat_pos, start.boat_pos);
    assert!(g.history.is_empty() && g.undo_stack.is_empty());
    assert!(!g.undo_possible());
    assert!(!g.undo());
}

#[test]
fn stale_animation_key_is_ignored() {
    let mut g = small_game();
    g.onclick(BoardPos::new(0, 0));
    g.onclick(BoardPos::new(3, usize::MAX));
    let before = g.clone();
    assert!(!g.advance_animations(7));
    assert_eq!(g, before);
}

#[test]
fn animation_key_wraps_around() {
    let mut g = small_game();
    g.animation_key = u16::MAX;
    assert!(g.advance_animations(u16::MAX));
    assert_eq!(g.animation_key, 0);
}

#[test]
fn undo_needs_permission() {
    let mut g = small_game();
    g.allow_undo = false;
    g.onclick(BoardPos::new(0, 0));
    g.onclick(BoardPos::new(3, usize::MAX));
    g.advance_animations(0);
    assert!(!g.undo_possible());
    assert!(!g.undo());
    assert_eq!(g.history.len(), 1);
    assert!(!g.restart());
}

#[test]
fn restart_deals_the_same_deal_again() {
    let mut g = GameState::init();
    assert!(!g.restart());
    let deal = g.deal.clone();
    // move a top card of depot 0 to an empty right depot
    g.onclick(BoardPos::new(0, 12));
    g.onclick(BoardPos::new(4, usize::MAX));
    assert_eq!(g.history.len(), 1);
    assert!(g.restart());
    assert_eq!(g.board, Board::from_deal(&deal));
    assert!(g.history.is_empty() && g.undo_stack.is_empty());
    assert_eq!(g.deal, deal);
}

#[test]
fn too_many_foxes_lose_the_rabbits() {
    let mut b = Board::empty();
    b.depots[0] = vec![card(3, Suit::Fox), card(2, Suit::Fox)];
    b.depots[1] = vec![card(4, Suit::Fox)];
    b.depots[2] = vec![card(5, Suit::Rabbit)];
    let mut g = game_with(b);
    assert_eq!(g.game_status(), GameStatus::Lost { danger: Suit::Rabbit });
    assert!(g.is_over());
    assert!(!g.is_won());
    let before = g.clone();
    g.onclick(BoardPos::new(0, 1));
    assert_eq!(g, before);
}

#[test]
fn too_many_rabbits_lose_the_carrots_on_the_right() {
    let mut b = Board::empty();
    b.depots[3] = vec![card(3, Suit::Rabbit), card(2, Suit::Rabbit), card(1, Suit::Rabbit)];
    b.depots[5] = vec![card(4, Suit::Carrot)];
    let g = game_with(b);
    assert_eq!(g.game_status(), GameStatus::Lost { danger: Suit::Carrot });
}

#[test]
fn equal_predators_are_safe() {
    let mut b = Board::empty();
    b.depots[0] = vec![card(3, Suit::Fox), card(2, Suit::Rabbit), card(1, Suit::Carrot)];
    let g = game_with(b);
    assert_eq!(g.game_status(), GameStatus::Ongoing);
    assert!(!g.is_over());
    assert_eq!(GameStatus::default(), GameStatus::Ongoing);
    assert_eq!(ScreenState::default(), ScreenState::Game);
}

#[test]
fn full_right_side_wins_and_counts_once() {
    let deck = standard_deck();
    let mut b = Board::empty();
    for d in 0..3 {
        b.depots[3 + d] = (0..13).map(|j| deck[3 * j + d]).collect();
    }
    let mut g = game_with(b);
    assert_eq!(g.game_status(), GameStatus::Won);
    assert!(g.is_won() && g.is_over());
    assert!(g.advance_animations(0));
    assert!(g.already_won);
    assert_eq!(g.num_wins, 1);
    assert!(g.advance_animations(1));
    assert_eq!(g.num_wins, 1);
}

#[test]
fn settings_round_trip() {
    let mut g = small_game();
    let s = g.new_settings_state();
    assert_eq!(s, SettingsState { allow_undo: true, skin: Skin::default() });
    g.apply_settings(&SettingsState { allow_undo: false, skin: s.skin });
    assert!(!g.allow_undo);
    assert_eq!(g.new_settings_state().allow_undo, false);
}

#[test]
fn a_win_is_counted_once() {
    let deck = standard_deck();
    let mut b = Board::empty();
    for d in 0..3 {
        b.depots[3 + d] = (0..13).map(|j| deck[3 * j + d]).collect();
    }
    let mut g = game_with(b);
    g.num_wins = 7;
    g.already_won = true;
    assert!(g.advance_animations(0));
    assert_eq!(g.num_wins, 7);
}

#[test]
fn clicking_a_stale_selection_only_clears_it() {
    let mut g = small_game();
    g.board.selected = Some(BoardPos::new(9, 4));
    let mut expected = g.clone();
    expected.board.selected = None;
    g.onclick(BoardPos::new(9, 4));
    assert_eq!(g, expected);
}

#[test]
fn undo_marks_follow_the_moves() {
    let mut g = small_game();
    g.onclick(BoardPos::new(0, 0));
    g.onclick(BoardPos::new(3, usize::MAX));
    g.advance_animations(0);
    g.onclick(BoardPos::new(3, 0));
    g.onclick(BoardPos::new(3, 0));
    assert_eq!(g.history.len(), 1);
    g.onclick(BoardPos::new(3, 1));
    g.onclick(BoardPos::new(4, usize::MAX));
    assert_eq!(g.history.len(), 2);
    assert_eq!(g.undo_stack, vec![0, 1]);
    g.advance_animations(1);
    assert!(g.undo());
    assert_eq!(g.history.len(), 1);
    assert_eq!(g.undo_stack, vec![0]);
    assert_eq!(g.board.depots[3], vec![card(12, Suit::Fox), card(11, Suit::Rabbit)]);
}

fn suit_at(i: usize) -> Suit {
    [Suit::Fox, Suit::Rabbit, Suit::Carrot][i % 3]
}

#[test]
fn won_exactly_when_the_left_side_is_empty() {
    let mut b = Board::empty();
    for d in 0..3 {
        b.depots[3 + d] = (1..=13u8).rev().map(|r| card(r, suit_at(r as usize + d))).collect();
    }
    b.boat_pos = DepotRole::Right;
    let mut g = game_with(b);
    for d in 3..6 {
        assert!(g.can_select(BoardPos::new(d, 0)));
    }
    assert_eq!(g.game_status(), GameStatus::Won);
    let top = g.board.depots[3].pop().unwrap();
    g.board.depots[0].push(top);
    assert_ne!(g.game_status(), GameStatus::Won);
}

#[test]
fn play_keeps_right_depots_stacks_and_all_cards() {
    let mut g = GameState::init();
    let mut key = 0;
    for d in 0..3 {
        let top = g.board.depots[d].len() - 1;
        if !g.is_over() && g.can_select(BoardPos::new(d, top)) {
            g.onclick(BoardPos::new(d, top));
            g.onclick(BoardPos::new(3 + d, usize::MAX));
            g.advance_animations(key);
            key = key.wrapping_add(1);
            // move back so the boat returns to the left side
            let back = g.board.depots[3 + d].len() - 1;
            g.onclick(BoardPos::new(3 + d, back));
            g.onclick(BoardPos::new(d, g.board.depots[d].len().wrapping_sub(1)));
            g.advance_animations(key);
            key = key.wrapping_add(1);
        }
    }
    let total: usize = g.board.depots.iter().map(|d| d.len()).sum();
    assert_eq!(total, 39);
    for d in 3..6 {
        let depot = &g.board.depots[d];
        for w in depot.windows(2) {
            assert!(g.can_stack(w[0], w[1]));
        }
    }
}
