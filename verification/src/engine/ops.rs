//! Arithmetic on hands: putting the cards of a hand or of a play into a
//! hand, and taking them out of it.
//!
//! The operators `+` and `-` check the result and give `None` where it
//! would not be a hand. The methods of the two traits skip the check and
//! leave it to the caller to show beforehand that the result is a hand.

use crate::engine::guard::Guard;
use crate::engine::private::{Sealed, SealedRhs};
use crate::hand::{limit, valid_counts, Hand};
use crate::play::Play;
use std::ops::{Add, Sub};
use vstd::prelude::*;
use vstd::std_specs::ops::{AddSpecImpl, SubSpecImpl};

verus! {

/// Whether one deck can supply the cards of `a` and of `b` together.
pub open spec fn sum_fits(a: Seq<u8>, b: Seq<u8>) -> bool {
    forall|i: int| 0 <= i < 15 ==> (#[trigger] a[i]) + b[i] <= limit(i)
}

/// The counts of the cards of `a` and of `b` together.
pub open spec fn sum_counts(a: Seq<u8>, b: Seq<u8>) -> Seq<u8> {
    Seq::new(15, |i: int| (a[i] + b[i]) as u8)
}

/// Whether `a` holds every card of `b`.
pub open spec fn holds_all(a: Seq<u8>, b: Seq<u8>) -> bool {
    forall|i: int| 0 <= i < 15 ==> (#[trigger] b[i]) <= a[i]
}

/// The counts of what is left of `a` when the cards of `b` are taken out.
pub open spec fn difference_counts(a: Seq<u8>, b: Seq<u8>) -> Seq<u8> {
    Seq::new(15, |i: int| (a[i] - b[i]) as u8)
}

/// The counts of `a` and `b` together, if one deck can supply them.
pub open spec fn checked_sum(a: Seq<u8>, b: Seq<u8>) -> Option<Seq<u8>> {
    if sum_fits(a, b) {
        Some(sum_counts(a, b))
    } else {
        None
    }
}

/// The counts of `a` without the cards of `b`, if `a` holds them all.
pub open spec fn checked_difference(a: Seq<u8>, b: Seq<u8>) -> Option<Seq<u8>> {
    if holds_all(a, b) {
        Some(difference_counts(a, b))
    } else {
        None
    }
}

/// The counts of an optional hand.
pub open spec fn counts_of(hand: Option<Hand>) -> Option<Seq<u8>> {
    match hand {
        Some(hand) => Some(hand@),
        None => None,
    }
}

/// The hand that holds optional counts.
pub open spec fn hand_of(counts: Option<Seq<u8>>) -> Option<Hand> {
    match counts {
        Some(counts) => Some(Hand::holding(counts)),
        None => None,
    }
}

/// The sum of optional counts and counts.
pub open spec fn lifted_sum(a: Option<Seq<u8>>, b: Seq<u8>) -> Option<Seq<u8>> {
    match a {
        Some(a) => checked_sum(a, b),
        None => None,
    }
}

/// The sum of counts and optional counts.
pub open spec fn sum_lifted(a: Seq<u8>, b: Option<Seq<u8>>) -> Option<Seq<u8>> {
    match b {
        Some(b) => checked_sum(a, b),
        None => None,
    }
}

/// What is left of optional counts without the cards of `b`.
pub open spec fn lifted_difference(a: Option<Seq<u8>>, b: Seq<u8>) -> Option<Seq<u8>> {
    match a {
        Some(a) => checked_difference(a, b),
        None => None,
    }
}

/// What is left of `a` without the cards of optional counts.
pub open spec fn difference_lifted(a: Seq<u8>, b: Option<Seq<u8>>) -> Option<Seq<u8>> {
    match b {
        Some(b) => checked_difference(a, b),
        None => None,
    }
}

/// An optional hand is the hand that holds its counts.
pub proof fn lemma_hand_of_counts(hand: Option<Hand>)
    ensures
        hand_of(counts_of(hand)) == hand,
{
    if let Some(h) = hand {
        h.lemma_holding();
    }
}

/// The sum of two valid counts fits in one deck exactly if it is valid.
pub proof fn lemma_sum_valid(a: Seq<u8>, b: Seq<u8>)
    requires
        valid_counts(a),
        valid_counts(b),
    ensures
        valid_counts(sum_counts(a, b)) <==> sum_fits(a, b),
{
    let s = sum_counts(a, b);
    assert forall|i: int| 0 <= i < 15 implies s[i] == a[i] + b[i] by {
        assert(a[i] <= limit(i));
        assert(b[i] <= limit(i));
    }
    if valid_counts(s) {
        assert forall|i: int| 0 <= i < 15 implies (#[trigger] a[i]) + b[i] <= limit(i) by {
            assert(s[i] <= limit(i));
        }
    }
    if sum_fits(a, b) {
        assert forall|i: int| 0 <= i < 15 implies #[trigger] s[i] <= limit(i) by {
            assert(a[i] + b[i] <= limit(i));
        }
    }
}

/// What is left of a hand after taking out cards that it holds is a hand.
pub proof fn lemma_difference_valid(a: Seq<u8>, b: Seq<u8>)
    requires
        valid_counts(a),
        b.len() == 15,
        holds_all(a, b),
    ensures
        valid_counts(difference_counts(a, b)),
{
    let d = difference_counts(a, b);
    assert forall|i: int| 0 <= i < 15 implies #[trigger] d[i] <= limit(i) by {
        assert(b[i] <= a[i]);
        assert(a[i] <= limit(i));
    }
}

/// Adds two lists of counts rank by rank.
fn add_counts(a: [u8; 15], b: [u8; 15]) -> (sum: [u8; 15])
    requires
        valid_counts(a@),
        valid_counts(b@),
    ensures
        sum@ == sum_counts(a@, b@),
{
    let mut sum = a;
    let mut i: usize = 0;
    while i < 15
        invariant
            0 <= i <= 15,
            valid_counts(a@),
            valid_counts(b@),
            forall|j: int| 0 <= j < i ==> sum@[j] == a@[j] + b@[j],
            forall|j: int| i <= j < 15 ==> sum@[j] == a@[j],
        decreases 15 - i,
    {
        assert(a@[i as int] <= limit(i as int));
        assert(b@[i as int] <= limit(i as int));
        sum[i] = sum[i] + b[i];
        i += 1;
    }
    assert(sum@ =~= sum_counts(a@, b@));
    sum
}

/// Subtracts two lists of counts rank by rank. A count that would fall
/// below zero wraps around to a large number instead.
fn sub_counts(a: [u8; 15], b: [u8; 15]) -> (difference: [u8; 15])
    requires
        valid_counts(a@),
        valid_counts(b@),
    ensures
        holds_all(a@, b@) ==> difference@ == difference_counts(a@, b@),
        holds_all(a@, b@) <==> valid_counts(difference@),
{
    let mut difference = a;
    let mut i: usize = 0;
    while i < 15
        invariant
            0 <= i <= 15,
            valid_counts(a@),
            valid_counts(b@),
            forall|j: int|
                0 <= j < i ==> difference@[j] == vstd::wrapping::u8_specs::wrapping_sub(
                    a@[j],
                    b@[j],
                ),
            forall|j: int| i <= j < 15 ==> difference@[j] == a@[j],
        decreases 15 - i,
    {
        difference[i] = difference[i].wrapping_sub(b[i]);
        i += 1;
    }
    proof {
        let d = difference@;
        if holds_all(a@, b@) {
            assert forall|j: int| 0 <= j < 15 implies d[j] == a@[j] - b@[j] by {
                assert(b@[j] <= a@[j]);
            }
            assert(d =~= difference_counts(a@, b@));
            lemma_difference_valid(a@, b@);
        }
        if valid_counts(d) {
            assert forall|j: int| 0 <= j < 15 implies (#[trigger] b@[j]) <= a@[j] by {
                assert(d[j] <= limit(j));
                assert(a@[j] <= limit(j));
                assert(b@[j] <= limit(j));
            }
        }
    }
    difference
}

/// The two hands together, or `None` if one deck cannot supply them.
fn checked_add(a: Hand, b: Hand) -> (sum: Option<Hand>)
    ensures
        counts_of(sum) == checked_sum(a@, b@),
        sum == hand_of(checked_sum(a@, b@)),
{
    let counts = add_counts(a.to_array(), b.to_array());
    proof {
        lemma_sum_valid(a@, b@);
    }
    let sum = match Hand::try_from(counts) {
        Ok(hand) => Some(hand),
        Err(_) => None,
    };
    proof {
        lemma_hand_of_counts(sum);
    }
    sum
}

/// The hand `a` without the cards of `b`, or `None` if it lacks any.
fn checked_sub(a: Hand, b: Hand) -> (difference: Option<Hand>)
    ensures
        counts_of(difference) == checked_difference(a@, b@),
        difference == hand_of(checked_difference(a@, b@)),
{
    let counts = sub_counts(a.to_array(), b.to_array());
    let difference = match Hand::try_from(counts) {
        Ok(hand) => Some(hand),
        Err(_) => None,
    };
    proof {
        lemma_hand_of_counts(difference);
    }
    difference
}

/// Addition that leaves the check of the result to the caller.
pub trait UncheckedAddExt<Rhs = Self>: Sealed + Sized where Rhs: SealedRhs {
    type Output;

    /// Whether one deck can supply the cards of both operands.
    spec fn add_fits(self, rhs: Rhs) -> bool;

    /// The sum of the operands, where it fits.
    spec fn added(self, rhs: Rhs) -> Self::Output;

    /// Puts the cards of `rhs` into the hand.
    fn unchecked_add(self, rhs: Rhs) -> (sum: Self::Output)
        requires
            self.add_fits(rhs),
        ensures
            sum == self.added(rhs),
    ;
}

/// Subtraction that leaves the check of the result to the caller.
pub trait UncheckedSubExt<Rhs = Self>: Sealed + Sized where Rhs: SealedRhs {
    type Output;

    /// Whether the left operand holds every card of the right one.
    spec fn sub_fits(self, rhs: Rhs) -> bool;

    /// The difference of the operands, where it fits.
    spec fn subtracted(self, rhs: Rhs) -> Self::Output;

    /// Takes the cards of `rhs` out of the hand.
    fn unchecked_sub(self, rhs: Rhs) -> (difference: Self::Output)
        requires
            self.sub_fits(rhs),
        ensures
            difference == self.subtracted(rhs),
    ;
}

impl UncheckedAddExt for Hand {
    type Output = Hand;

    open spec fn add_fits(self, rhs: Hand) -> bool {
        sum_fits(self@, rhs@)
    }

    open spec fn added(self, rhs: Hand) -> Hand {
        Hand::holding(sum_counts(self@, rhs@))
    }

    fn unchecked_add(self, rhs: Hand) -> (sum: Hand)
        ensures
            sum@ == sum_counts(self@, rhs@),
    {
        let counts = add_counts(self.to_array(), rhs.to_array());
        proof {
            lemma_sum_valid(self@, rhs@);
        }
        let sum = Hand::from_counts(counts);
        proof {
            sum.lemma_holding();
        }
        sum
    }
}

impl UncheckedSubExt for Hand {
    type Output = Hand;

    open spec fn sub_fits(self, rhs: Hand) -> bool {
        holds_all(self@, rhs@)
    }

    open spec fn subtracted(self, rhs: Hand) -> Hand {
        Hand::holding(difference_counts(self@, rhs@))
    }

    fn unchecked_sub(self, rhs: Hand) -> (difference: Hand)
        ensures
            difference@ == difference_counts(self@, rhs@),
    {
        let counts = sub_counts(self.to_array(), rhs.to_array());
        let difference = Hand::from_counts(counts);
        proof {
            difference.lemma_holding();
        }
        difference
    }
}

impl UncheckedAddExt<&Guard<Play>> for Hand {
    type Output = Hand;

    open spec fn add_fits(self, rhs: &Guard<Play>) -> bool {
        sum_fits(self@, rhs@@.counts())
    }

    open spec fn added(self, rhs: &Guard<Play>) -> Hand {
        Hand::holding(sum_counts(self@, rhs@@.counts()))
    }

    fn unchecked_add(self, rhs: &Guard<Play>) -> (sum: Hand)
        ensures
            sum@ == sum_counts(self@, rhs@@.counts()),
    {
        self.unchecked_add(rhs.to_hand())
    }
}

impl UncheckedSubExt<&Guard<Play>> for Hand {
    type Output = Hand;

    open spec fn sub_fits(self, rhs: &Guard<Play>) -> bool {
        holds_all(self@, rhs@@.counts())
    }

    open spec fn subtracted(self, rhs: &Guard<Play>) -> Hand {
        Hand::holding(difference_counts(self@, rhs@@.counts()))
    }

    fn unchecked_sub(self, rhs: &Guard<Play>) -> (difference: Hand)
        ensures
            difference@ == difference_counts(self@, rhs@@.counts()),
    {
        self.unchecked_sub(rhs.to_hand())
    }
}

impl Add for Hand {
    type Output = Option<Hand>;

    /// The two hands together, or `None` if one deck cannot supply them.
    fn add(self, rhs: Hand) -> (sum: Option<Hand>)
        ensures
            counts_of(sum) == checked_sum(self@, rhs@),
    {
        checked_add(self, rhs)
    }
}

impl AddSpecImpl for Hand {
    open spec fn obeys_add_spec() -> bool {
        true
    }

    open spec fn add_req(self, rhs: Hand) -> bool {
        true
    }

    open spec fn add_spec(self, rhs: Hand) -> Option<Hand> {
        hand_of(checked_sum(self@, rhs@))
    }
}

impl Sub for Hand {
    type Output = Option<Hand>;

    /// The hand without the cards of `rhs`, or `None` if it lacks any.
    fn sub(self, rhs: Hand) -> (difference: Option<Hand>)
        ensures
            counts_of(difference) == checked_difference(self@, rhs@),
    {
        checked_sub(self, rhs)
    }
}

impl SubSpecImpl for Hand {
    open spec fn obeys_sub_spec() -> bool {
        true
    }

    open spec fn sub_req(self, rhs: Hand) -> bool {
        true
    }

    open spec fn sub_spec(self, rhs: Hand) -> Option<Hand> {
        hand_of(checked_difference(self@, rhs@))
    }
}

impl Add<&Guard<Play>> for Hand {
    type Output = Option<Hand>;

    /// The hand with the cards of the play, or `None` if one deck cannot
    /// supply them.
    fn add(self, rhs: &Guard<Play>) -> (sum: Option<Hand>)
        ensures
            counts_of(sum) == checked_sum(self@, rhs@@.counts()),
    {
        checked_add(self, rhs.to_hand())
    }
}

impl AddSpecImpl<&Guard<Play>> for Hand {
    open spec fn obeys_add_spec() -> bool {
        true
    }

    open spec fn add_req(self, rhs: &Guard<Play>) -> bool {
        true
    }

    open spec fn add_spec(self, rhs: &Guard<Play>) -> Option<Hand> {
        hand_of(checked_sum(self@, rhs@@.counts()))
    }
}

impl Add<Hand> for &Guard<Play> {
    type Output = Option<Hand>;

    /// The hand with the cards of the play, or `None` if one deck cannot
    /// supply them.
    fn add(self, rhs: Hand) -> (sum: Option<Hand>)
        ensures
            counts_of(sum) == checked_sum(rhs@, self@@.counts()),
    {
        checked_add(rhs, self.to_hand())
    }
}

impl AddSpecImpl<Hand> for &Guard<Play> {
    open spec fn obeys_add_spec() -> bool {
        true
    }

    open spec fn add_req(self, rhs: Hand) -> bool {
        true
    }

    open spec fn add_spec(self, rhs: Hand) -> Option<Hand> {
        hand_of(checked_sum(rhs@, self@@.counts()))
    }
}

impl Add<Option<Hand>> for Hand {
    type Output = Option<Hand>;

    /// The two hands together, or `None` if there is no second hand or one
    /// deck cannot supply them.
    fn add(self, rhs: Option<Hand>) -> (sum: Option<Hand>)
        ensures
            counts_of(sum) == sum_lifted(self@, counts_of(rhs)),
    {
        match rhs {
            Some(hand) => checked_add(self, hand),
            None => None,
        }
    }
}

impl AddSpecImpl<Option<Hand>> for Hand {
    open spec fn obeys_add_spec() -> bool {
        true
    }

    open spec fn add_req(self, rhs: Option<Hand>) -> bool {
        true
    }

    open spec fn add_spec(self, rhs: Option<Hand>) -> Option<Hand> {
        hand_of(sum_lifted(self@, counts_of(rhs)))
    }
}

impl Add<Hand> for Option<Hand> {
    type Output = Option<Hand>;

    /// The two hands together, or `None` if there is no first hand or one
    /// deck cannot supply them.
    fn add(self, rhs: Hand) -> (sum: Option<Hand>)
        ensures
            counts_of(sum) == sum_lifted(rhs@, counts_of(self)),
    {
        match self {
            Some(hand) => checked_add(rhs, hand),
            None => None,
        }
    }
}

impl AddSpecImpl<Hand> for Option<Hand> {
    open spec fn obeys_add_spec() -> bool {
        true
    }

    open spec fn add_req(self, rhs: Hand) -> bool {
        true
    }

    open spec fn add_spec(self, rhs: Hand) -> Option<Hand> {
        hand_of(sum_lifted(rhs@, counts_of(self)))
    }
}

impl Add<&Guard<Play>> for Option<Hand> {
    type Output = Option<Hand>;

    /// The hand with the cards of the play, or `None` if there is no hand
    /// or one deck cannot supply them.
    fn add(self, rhs: &Guard<Play>) -> (sum: Option<Hand>)
        ensures
            counts_of(sum) == lifted_sum(counts_of(self), rhs@@.counts()),
    {
        match self {
            Some(hand) => checked_add(hand, rhs.to_hand()),
            None => None,
        }
    }
}

impl AddSpecImpl<&Guard<Play>> for Option<Hand> {
    open spec fn obeys_add_spec() -> bool {
        true
    }

    open spec fn add_req(self, rhs: &Guard<Play>) -> bool {
        true
    }

    open spec fn add_spec(self, rhs: &Guard<Play>) -> Option<Hand> {
        hand_of(lifted_sum(counts_of(self), rhs@@.counts()))
    }
}

impl Add<Option<Hand>> for &Guard<Play> {
    type Output = Option<Hand>;

    /// The hand with the cards of the play, or `None` if there is no hand
    /// or one deck cannot supply them.
    fn add(self, rhs: Option<Hand>) -> (sum: Option<Hand>)
        ensures
            counts_of(sum) == lifted_sum(counts_of(rhs), self@@.counts()),
    {
        match rhs {
            Some(hand) => checked_add(hand, self.to_hand()),
            None => None,
        }
    }
}

impl AddSpecImpl<Option<Hand>> for &Guard<Play> {
    open spec fn obeys_add_spec() -> bool {
        true
    }

    open spec fn add_req(self, rhs: Option<Hand>) -> bool {
        true
    }

    open spec fn add_spec(self, rhs: Option<Hand>) -> Option<Hand> {
        hand_of(lifted_sum(counts_of(rhs), self@@.counts()))
    }
}

impl Sub<&Guard<Play>> for Hand {
    type Output = Option<Hand>;

    /// The hand without the cards of the play, or `None` if it lacks any.
    fn sub(self, rhs: &Guard<Play>) -> (difference: Option<Hand>)
        ensures
            counts_of(difference) == checked_difference(self@, rhs@@.counts()),
    {
        checked_sub(self, rhs.to_hand())
    }
}

impl SubSpecImpl<&Guard<Play>> for Hand {
    open spec fn obeys_sub_spec() -> bool {
        true
    }

    open spec fn sub_req(self, rhs: &Guard<Play>) -> bool {
        true
    }

    open spec fn sub_spec(self, rhs: &Guard<Play>) -> Option<Hand> {
        hand_of(checked_difference(self@, rhs@@.counts()))
    }
}

impl Sub<Hand> for &Guard<Play> {
    type Output = Option<Hand>;

    /// The cards of the play without those of the hand, or `None` if the
    /// play lacks any of them.
    fn sub(self, rhs: Hand) -> (difference: Option<Hand>)
        ensures
            counts_of(difference) == checked_difference(self@@.counts(), rhs@),
    {
        checked_sub(self.to_hand(), rhs)
    }
}

impl SubSpecImpl<Hand> for &Guard<Play> {
    open spec fn obeys_sub_spec() -> bool {
        true
    }

    open spec fn sub_req(self, rhs: Hand) -> bool {
        true
    }

    open spec fn sub_spec(self, rhs: Hand) -> Option<Hand> {
        hand_of(checked_difference(self@@.counts(), rhs@))
    }
}

impl Sub<Option<Hand>> for Hand {
    type Output = Option<Hand>;

    /// The hand without the cards of `rhs`, or `None` if there is no `rhs`
    /// or the hand lacks any of them.
    fn sub(self, rhs: Option<Hand>) -> (difference: Option<Hand>)
        ensures
            counts_of(difference) == difference_lifted(self@, counts_of(rhs)),
    {
        match rhs {
            Some(hand) => checked_sub(self, hand),
            None => None,
        }
    }
}

impl SubSpecImpl<Option<Hand>> for Hand {
    open spec fn obeys_sub_spec() -> bool {
        true
    }

    open spec fn sub_req(self, rhs: Option<Hand>) -> bool {
        true
    }

    open spec fn sub_spec(self, rhs: Option<Hand>) -> Option<Hand> {
        hand_of(difference_lifted(self@, counts_of(rhs)))
    }
}

impl Sub<Hand> for Option<Hand> {
    type Output = Option<Hand>;

    /// The hand without the cards of `rhs`, or `None` if there is no hand
    /// or it lacks any of them.
    fn sub(self, rhs: Hand) -> (difference: Option<Hand>)
        ensures
            counts_of(difference) == lifted_difference(counts_of(self), rhs@),
    {
        match self {
            Some(hand) => checked_sub(hand, rhs),
            None => None,
        }
    }
}

impl SubSpecImpl<Hand> for Option<Hand> {
    open spec fn obeys_sub_spec() -> bool {
        true
    }

    open spec fn sub_req(self, rhs: Hand) -> bool {
        true
    }

    open spec fn sub_spec(self, rhs: Hand) -> Option<Hand> {
        hand_of(lifted_difference(counts_of(self), rhs@))
    }
}

impl Sub<&Guard<Play>> for Option<Hand> {
    type Output = Option<Hand>;

    /// The hand without the cards of the play, or `None` if there is no
    /// hand or it lacks any of them.
    fn sub(self, rhs: &Guard<Play>) -> (difference: Option<Hand>)
        ensures
            counts_of(difference) == lifted_difference(counts_of(self), rhs@@.counts()),
    {
        match self {
            Some(hand) => checked_sub(hand, rhs.to_hand()),
            None => None,
        }
    }
}

impl SubSpecImpl<&Guard<Play>> for Option<Hand> {
    open spec fn obeys_sub_spec() -> bool {
        true
    }

    open spec fn sub_req(self, rhs: &Guard<Play>) -> bool {
        true
    }

    open spec fn sub_spec(self, rhs: &Guard<Play>) -> Option<Hand> {
        hand_of(lifted_difference(counts_of(self), rhs@@.counts()))
    }
}

impl Sub<Option<Hand>> for &Guard<Play> {
    type Output = Option<Hand>;

    /// The cards of the play without those of the hand, or `None` if there
    /// is no hand or the play lacks any of them.
    fn sub(self, rhs: Option<Hand>) -> (difference: Option<Hand>)
        ensures
            counts_of(difference) == difference_lifted(self@@.counts(), counts_of(rhs)),
    {
        match rhs {
            Some(hand) => checked_sub(self.to_hand(), hand),
            None => None,
        }
    }
}

impl SubSpecImpl<Option<Hand>> for &Guard<Play> {
    open spec fn obeys_sub_spec() -> bool {
        true
    }

    open spec fn sub_req(self, rhs: Option<Hand>) -> bool {
        true
    }

    open spec fn sub_spec(self, rhs: Option<Hand>) -> Option<Hand> {
        hand_of(difference_lifted(self@@.counts(), counts_of(rhs)))
    }
}

} // verus!
