use vstd::prelude::*;

verus! {

/// A card rank, listed from the weakest to the strongest.
///
/// The strength order is not the order of face values: `Two` beats `Ace`,
/// and the two jokers beat everything else.
#[derive(Debug, Clone, Copy, PartialEq, Eq, Ord, Structural)]
pub enum Rank {
    Three,
    Four,
    Five,
    Six,
    Seven,
    Eight,
    Nine,
    Ten,
    Jack,
    Queen,
    King,
    Ace,
    Two,
    BlackJoker,
    RedJoker,
}

impl Rank {
    /// Position of the rank in the strength order, from 0 (`Three`) to 14
    /// (`RedJoker`).
    pub open spec fn ord(self) -> int {
        match self {
            Rank::Three => 0,
            Rank::Four => 1,
            Rank::Five => 2,
            Rank::Six => 3,
            Rank::Seven => 4,
            Rank::Eight => 5,
            Rank::Nine => 6,
            Rank::Ten => 7,
            Rank::Jack => 8,
            Rank::Queen => 9,
            Rank::King => 10,
            Rank::Ace => 11,
            Rank::Two => 12,
            Rank::BlackJoker => 13,
            Rank::RedJoker => 14,
        }
    }

    /// The rank at position `i` of the strength order. Positions past the
    /// last one all give `RedJoker`.
    pub open spec fn of_ord(i: int) -> Rank {
        if i <= 0 {
            Rank::Three
        } else if i == 1 {
            Rank::Four
        } else if i == 2 {
            Rank::Five
        } else if i == 3 {
            Rank::Six
        } else if i == 4 {
            Rank::Seven
        } else if i == 5 {
            Rank::Eight
        } else if i == 6 {
            Rank::Nine
        } else if i == 7 {
            Rank::Ten
        } else if i == 8 {
            Rank::Jack
        } else if i == 9 {
            Rank::Queen
        } else if i == 10 {
            Rank::King
        } else if i == 11 {
            Rank::Ace
        } else if i == 12 {
            Rank::Two
        } else if i == 13 {
            Rank::BlackJoker
        } else {
            Rank::RedJoker
        }
    }

    /// Whether the rank is one of the two jokers.
    pub open spec fn is_joker(self) -> bool {
        self.ord() >= 13
    }

    /// Whether the rank may take part in a run of consecutive ranks: `Two`
    /// and the jokers may not.
    pub open spec fn chains(self) -> bool {
        self.ord() < 12
    }

    /// The name of the rank as text.
    pub open spec fn name_text(self) -> Seq<char> {
        match self {
            Rank::Three => "Three"@,
            Rank::Four => "Four"@,
            Rank::Five => "Five"@,
            Rank::Six => "Six"@,
            Rank::Seven => "Seven"@,
            Rank::Eight => "Eight"@,
            Rank::Nine => "Nine"@,
            Rank::Ten => "Ten"@,
            Rank::Jack => "Jack"@,
            Rank::Queen => "Queen"@,
            Rank::King => "King"@,
            Rank::Ace => "Ace"@,
            Rank::Two => "Two"@,
            Rank::BlackJoker => "BlackJoker"@,
            Rank::RedJoker => "RedJoker"@,
        }
    }

    /// The name of the rank.
    pub fn name(self) -> (name: &'static str)
        ensures
            name@ == self.name_text(),
    {
        match self {
            Rank::Three => "Three",
            Rank::Four => "Four",
            Rank::Five => "Five",
            Rank::Six => "Six",
            Rank::Seven => "Seven",
            Rank::Eight => "Eight",
            Rank::Nine => "Nine",
            Rank::Ten => "Ten",
            Rank::Jack => "Jack",
            Rank::Queen => "Queen",
            Rank::King => "King",
            Rank::Ace => "Ace",
            Rank::Two => "Two",
            Rank::BlackJoker => "BlackJoker",
            Rank::RedJoker => "RedJoker",
        }
    }

    /// Position of the rank in the strength order.
    pub fn ordinal(self) -> (i: u8)
        ensures
            i == self.ord(),
            i < 15,
    {
        match self {
            Rank::Three => 0,
            Rank::Four => 1,
            Rank::Five => 2,
            Rank::Six => 3,
            Rank::Seven => 4,
            Rank::Eight => 5,
            Rank::Nine => 6,
            Rank::Ten => 7,
            Rank::Jack => 8,
            Rank::Queen => 9,
            Rank::King => 10,
            Rank::Ace => 11,
            Rank::Two => 12,
            Rank::BlackJoker => 13,
            Rank::RedJoker => 14,
        }
    }

    /// The rank at position `i` of the strength order, if there is one.
    pub fn from_ordinal(i: u8) -> (r: Option<Rank>)
        ensures
            r == (if i < 15 { Some(Rank::of_ord(i as int)) } else { None }),
    {
        if i < 15 {
            Some(Rank::at(i))
        } else {
            None
        }
    }

    /// The rank at position `i` of the strength order.
    pub(crate) fn at(i: u8) -> (r: Rank)
        requires
            i < 15,
        ensures
            r == Rank::of_ord(i as int),
            r.ord() == i,
    {
        match i {
            0 => Rank::Three,
            1 => Rank::Four,
            2 => Rank::Five,
            3 => Rank::Six,
            4 => Rank::Seven,
            5 => Rank::Eight,
            6 => Rank::Nine,
            7 => Rank::Ten,
            8 => Rank::Jack,
            9 => Rank::Queen,
            10 => Rank::King,
            11 => Rank::Ace,
            12 => Rank::Two,
            13 => Rank::BlackJoker,
            _ => Rank::RedJoker,
        }
    }
}

/// Every rank has a position below 15, and `of_ord` undoes `ord`.
pub proof fn lemma_ord_round_trip(r: Rank)
    ensures
        0 <= r.ord() < 15,
        Rank::of_ord(r.ord()) == r,
{
}

/// `ord` undoes `of_ord` on the positions of the strength order.
pub proof fn lemma_of_ord_round_trip(i: int)
    requires
        0 <= i < 15,
    ensures
        Rank::of_ord(i).ord() == i,
{
}

} // verus!
