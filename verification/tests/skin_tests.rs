use river_crossing::game::skin::{ColorMode, ColorSkin, RankSkin, Skin, SuitSkin};
use river_crossing::game::Suit;

#[test]
fn numbers_write_ranks_in_decimal() {
    assert_eq!(RankSkin::Numbers.rank_text(1), "1");
    assert_eq!(RankSkin::Numbers.rank_text(9), "9");
    assert_eq!(RankSkin::Numbers.rank_text(10), "10");
    assert_eq!(RankSkin::Numbers.rank_text(13), "13");
    assert_eq!(RankSkin::Numbers.rank_text(0), "0");
    assert_eq!(RankSkin::Numbers.rank_text(255), "255");
    assert_eq!(RankSkin::Numbers.rank_text(100), "100");
}

#[test]
fn traditional_ranks_use_letters_for_court_cards() {
    assert_eq!(RankSkin::Traditional.rank_text(1), "A");
    assert_eq!(RankSkin::Traditional.rank_text(11), "J");
    assert_eq!(RankSkin::Traditional.rank_text(12), "Q");
    assert_eq!(RankSkin::Traditional.rank_text(13), "K");
    assert_eq!(RankSkin::Traditional.rank_text(7), "7");
    assert_eq!(RankSkin::Traditional.rank_text(10), "10");
}

#[test]
fn animal_symbols_and_font() {
    assert_eq!(SuitSkin::Animals.suit_symbol(Suit::Fox), "🦊");
    assert_eq!(SuitSkin::Animals.suit_symbol(Suit::Rabbit), "🐰");
    assert_eq!(SuitSkin::Animals.suit_symbol(Suit::Carrot), "🥕");
    assert_eq!(SuitSkin::Animals.font(), "'Noto Color Emoji'");
}

#[test]
fn three_colors_in_two_modes() {
    let c = ColorSkin::ThreeColor;
    assert_eq!(c.color(Suit::Fox, ColorMode::Dark), "#f00");
    assert_eq!(c.color(Suit::Fox, ColorMode::Light), "#ff8888");
    assert_eq!(c.color(Suit::Rabbit, ColorMode::Dark), "#00d");
    assert_eq!(c.color(Suit::Rabbit, ColorMode::Light), "#aaaaff");
    assert_eq!(c.color(Suit::Carrot, ColorMode::Dark), "#062");
    assert_eq!(c.color(Suit::Carrot, ColorMode::Light), "#00ff55");
}

#[test]
fn default_skin() {
    let s = Skin::default();
    assert_eq!(s.ranks, RankSkin::Numbers);
    assert_eq!(s.suits, SuitSkin::Animals);
    assert_eq!(s.colors, ColorSkin::ThreeColor);
    assert_eq!(ColorMode::default(), ColorMode::Dark);
}
