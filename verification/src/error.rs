//! What can be wrong with a list of counts that is to be a hand.

use crate::rank::Rank;
use vstd::prelude::*;
use vstd::string::StringExecFns;

verus! {

/// Why a list of counts is not a hand.
#[derive(Debug, Clone, Copy, PartialEq, Eq, Structural)]
pub enum HandError {
    /// More cards of `rank` were asked for than a deck holds.
    InvalidCount { rank: Rank },
    /// The list has `len` entries instead of 15.
    WrongLength { len: usize },
}

/// The decimal digit `d` as text.
pub open spec fn digit_text(d: int) -> Seq<char> {
    if d == 0 {
        "0"@
    } else if d == 1 {
        "1"@
    } else if d == 2 {
        "2"@
    } else if d == 3 {
        "3"@
    } else if d == 4 {
        "4"@
    } else if d == 5 {
        "5"@
    } else if d == 6 {
        "6"@
    } else if d == 7 {
        "7"@
    } else if d == 8 {
        "8"@
    } else {
        "9"@
    }
}

/// The number `n` in decimal digits.
pub open spec fn decimal_text(n: nat) -> Seq<char>
    decreases n,
{
    if n < 10 {
        digit_text(n as int)
    } else {
        decimal_text(n / 10) + digit_text((n % 10) as int)
    }
}

/// The decimal digit `d`.
fn digit(d: usize) -> (text: &'static str)
    requires
        d < 10,
    ensures
        text@ == digit_text(d as int),
{
    if d == 0 {
        "0"
    } else if d == 1 {
        "1"
    } else if d == 2 {
        "2"
    } else if d == 3 {
        "3"
    } else if d == 4 {
        "4"
    } else if d == 5 {
        "5"
    } else if d == 6 {
        "6"
    } else if d == 7 {
        "7"
    } else if d == 8 {
        "8"
    } else {
        "9"
    }
}

/// The number `n` in decimal digits.
fn decimal(n: usize) -> (text: String)
    ensures
        text@ == decimal_text(n as nat),
    decreases n,
{
    if n < 10 {
        String::from_str(digit(n))
    } else {
        decimal(n / 10).concat(digit(n % 10))
    }
}

impl HandError {
    /// What the error says, as text.
    pub open spec fn message_text(self) -> Seq<char> {
        match self {
            HandError::InvalidCount { rank } => if rank.is_joker() {
                "more than one `"@ + rank.name_text() + "` is specified"@
            } else {
                "more than four `"@ + rank.name_text() + "`s are specified"@
            },
            HandError::WrongLength { len } => "invalid slice length: expected 15, got "@
                + decimal_text(len as nat),
        }
    }

    /// What the error says.
    pub fn message(&self) -> (text: String)
        ensures
            text@ == self.message_text(),
    {
        match self {
            HandError::InvalidCount { rank } => {
                if rank.ordinal() >= 13 {
                    String::from_str("more than one `").concat(rank.name()).concat(
                        "` is specified",
                    )
                } else {
                    String::from_str("more than four `").concat(rank.name()).concat(
                        "`s are specified",
                    )
                }
            },
            HandError::WrongLength { len } => {
                let digits = decimal(*len);
                String::from_str("invalid slice length: expected 15, got ").concat(
                    digits.as_str(),
                )
            },
        }
    }
}

} // verus!
