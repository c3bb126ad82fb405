//! How cards are drawn: the text of a rank, the symbol, font and color of a suit.
use vstd::prelude::*;

use crate::game::Suit;

verus! {

/// How ranks are written.
#[derive(Clone, Copy, PartialEq, Eq, Hash, Debug, Structural)]
pub enum RankSkin {
    Numbers,
    Traditional,
}

impl Default for RankSkin {
    fn default() -> (res: Self)
        ensures
            res == RankSkin::Numbers,
    {
        RankSkin::Numbers
    }
}

/// The character of the decimal digit `d` (for `d < 10`).
pub open spec fn digit_char(d: nat) -> char {
    (48 + d) as char
}

/// The decimal notation of `n`, without leading zeros.
pub open spec fn decimal(n: nat) -> Seq<char>
    decreases n,
{
    if n < 10 {
        seq![digit_char(n)]
    } else {
        decimal(n / 10) + seq![digit_char(n % 10)]
    }
}

/// The text written for `rank` under `skin`: its decimal notation, except that
/// traditional ranks write 1, 11, 12 and 13 as `A`, `J`, `Q` and `K`.
pub open spec fn rank_text_spec(skin: RankSkin, rank: u8) -> Seq<char> {
    match skin {
        RankSkin::Numbers => decimal(rank as nat),
        RankSkin::Traditional => {
            if rank == 1 {
                seq!['A']
            } else if rank == 11 {
                seq!['J']
            } else if rank == 12 {
                seq!['Q']
            } else if rank == 13 {
                seq!['K']
            } else {
                decimal(rank as nat)
            }
        },
    }
}

/// Ranks are written in decimal, so 1 to 9 as one digit and 10 to 13 as `1`
/// and a digit; traditionally 1, 11, 12 and 13 are `A`, `J`, `Q` and `K`
/// instead.
pub proof fn lemma_rank_text_rule(rank: u8)
    requires
        1 <= rank <= 13,
    ensures
        rank < 10 ==> rank_text_spec(RankSkin::Numbers, rank) == seq![(48 + rank) as char],
        rank >= 10 ==> rank_text_spec(RankSkin::Numbers, rank) == seq![
            '1',
            (48 + rank - 10) as char,
        ],
        rank_text_spec(RankSkin::Traditional, rank) == if rank == 1 {
            seq!['A']
        } else if rank == 11 {
            seq!['J']
        } else if rank == 12 {
            seq!['Q']
        } else if rank == 13 {
            seq!['K']
        } else {
            rank_text_spec(RankSkin::Numbers, rank)
        },
{
    reveal_with_fuel(decimal, 2);
}

/// A one-character string holding the decimal digit `d`.
fn digit_string(d: u8) -> (res: String)
    requires
        d < 10,
    ensures
        res@ == seq![digit_char(d as nat)],
{
    let s = match d {
        0 => "0",
        1 => "1",
        2 => "2",
        3 => "3",
        4 => "4",
        5 => "5",
        6 => "6",
        7 => "7",
        8 => "8",
        _ => "9",
    };
    proof {
        reveal_strlit("0");
        reveal_strlit("1");
        reveal_strlit("2");
        reveal_strlit("3");
        reveal_strlit("4");
        reveal_strlit("5");
        reveal_strlit("6");
        reveal_strlit("7");
        reveal_strlit("8");
        reveal_strlit("9");
    }
    String::from_str(s)
}

/// The decimal notation of `n`.
fn decimal_string(n: u8) -> (res: String)
    ensures
        res@ == decimal(n as nat),
{
    if n < 10 {
        digit_string(n)
    } else if n < 100 {
        let mut s = digit_string(n / 10);
        let last = digit_string(n % 10);
        s.append(last.as_str());
        assert(decimal((n / 10) as nat) == seq![digit_char((n / 10) as nat)]);
        s
    } else {
        let mut s = digit_string(n / 100);
        let mid = digit_string((n / 10) % 10);
        let last = digit_string(n % 10);
        s.append(mid.as_str());
        s.append(last.as_str());
        assert(((n / 10) as nat) / 10 == (n / 100) as nat);
        assert(decimal((n / 100) as nat) == seq![digit_char((n / 100) as nat)]);
        assert(decimal((n / 10) as nat) == decimal((n / 100) as nat) + seq![
            digit_char(((n / 10) % 10) as nat),
        ]);
        s
    }
}

impl RankSkin {
    /// The text written for a card of rank `rank`.
    pub fn rank_text(self, rank: u8) -> (res: String)
        ensures
            res@ == rank_text_spec(self, rank),
    {
        match self {
            RankSkin::Numbers => decimal_string(rank),
            RankSkin::Traditional => {
                proof {
                    reveal_strlit("A");
                    reveal_strlit("J");
                    reveal_strlit("Q");
                    reveal_strlit("K");
                }
                match rank {
                    1 => String::from_str("A"),
                    11 => String::from_str("J"),
                    12 => String::from_str("Q"),
                    13 => String::from_str("K"),
                    _ => decimal_string(rank),
                }
            },
        }
    }
}

/// How suits are drawn.
#[derive(Clone, Copy, PartialEq, Eq, Hash, Debug, Structural)]
pub enum SuitSkin {
    Animals,
}

impl Default for SuitSkin {
    fn default() -> (res: Self)
        ensures
            res == SuitSkin::Animals,
    {
        SuitSkin::Animals
    }
}

impl SuitSkin {
    /// The symbol drawn for `suit`: the fox, rabbit and carrot emoji.
    pub fn suit_symbol(self, suit: Suit) -> (res: &'static str)
        ensures
            res@ == match suit {
                Suit::Fox => "\u{1F98A}"@,
                Suit::Rabbit => "\u{1F430}"@,
                Suit::Carrot => "\u{1F955}"@,
            },
    {
        match self {
            SuitSkin::Animals => {
                match suit {
                    Suit::Fox => "\u{1F98A}",
                    Suit::Rabbit => "\u{1F430}",
                    Suit::Carrot => "\u{1F955}",
                }
            },
        }
    }

    /// The font in which the symbols are drawn.
    pub fn font(self) -> (res: &'static str)
        ensures
            res@ == "'Noto Color Emoji'"@,
    {
        match self {
            SuitSkin::Animals => "'Noto Color Emoji'",
        }
    }
}

/// Dark or light background.
#[derive(Clone, Copy, PartialEq, Eq, Hash, Debug, Structural)]
pub enum ColorMode {
    Dark,
    Light,
}

impl Default for ColorMode {
    fn default() -> (res: Self)
        ensures
            res == ColorMode::Dark,
    {
        ColorMode::Dark
    }
}

/// How suits are colored.
#[derive(Clone, Copy, PartialEq, Eq, Hash, Debug, Structural)]
pub enum ColorSkin {
    ThreeColor,
}

impl Default for ColorSkin {
    fn default() -> (res: Self)
        ensures
            res == ColorSkin::ThreeColor,
    {
        ColorSkin::ThreeColor
    }
}

/// The color of `suit` under the three-color skin: foxes red, rabbits blue and
/// carrots green, each in a dark-mode and a light-mode shade.
pub open spec fn color_spec(suit: Suit, mode: ColorMode) -> Seq<char> {
    match (suit, mode) {
        (Suit::Fox, ColorMode::Dark) => "#f00"@,
        (Suit::Fox, ColorMode::Light) => "#ff8888"@,
        (Suit::Rabbit, ColorMode::Dark) => "#00d"@,
        (Suit::Rabbit, ColorMode::Light) => "#aaaaff"@,
        (Suit::Carrot, ColorMode::Dark) => "#062"@,
        (Suit::Carrot, ColorMode::Light) => "#00ff55"@,
    }
}

impl ColorSkin {
    /// The CSS color of a card of `suit` drawn in `mode`.
    pub fn color(self, suit: Suit, mode: ColorMode) -> (res: &'static str)
        ensures
            res@ == color_spec(suit, mode),
    {
        let shades: (&'static str, &'static str) = match self {
            ColorSkin::ThreeColor => {
                match suit {
                    Suit::Fox => ("#f00", "#ff8888"),
                    Suit::Rabbit => ("#00d", "#aaaaff"),
                    Suit::Carrot => ("#062", "#00ff55"),
                }
            },
        };
        match mode {
            ColorMode::Dark => shades.0,
            ColorMode::Light => shades.1,
        }
    }
}

/// The complete look of the cards.
#[derive(Clone, Copy, PartialEq, Eq, Hash, Debug, Structural)]
pub struct Skin {
    pub ranks: RankSkin,
    pub suits: SuitSkin,
    pub colors: ColorSkin,
}

impl Skin {
    /// The default skin: numbered ranks, animal suits, three colors.
    pub open spec fn default_spec() -> Skin {
        Skin { ranks: RankSkin::Numbers, suits: SuitSkin::Animals, colors: ColorSkin::ThreeColor }
    }
}

impl Default for Skin {
    fn default() -> (res: Self)
        ensures
            res == Skin::default_spec(),
    {
        Skin { ranks: RankSkin::default(), suits: SuitSkin::default(), colors: ColorSkin::default() }
    }
}

} // verus!
