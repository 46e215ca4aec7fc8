use crate::engine::guard::Guard;
use crate::hand::Hand;
use crate::play::Play;
use vstd::prelude::*;

verus! {

/// Closes the extension traits of this crate to other types.
pub trait Sealed {

}

impl Sealed for Hand {

}

/// Closes the right-hand operands of the arithmetic traits to other types.
pub trait SealedRhs {

}

impl SealedRhs for Hand {

}

impl SealedRhs for &Guard<Play> {

}

} // verus!
