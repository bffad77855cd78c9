//! The rotation of hands: which hand a seat holds in which turn.
//!
//! Hands never move. Each stays in the slot it was dealt to, and a view with
//! a shift says which slot a seat reads in the current turn.

use vstd::prelude::*;
use vstd::arithmetic::div_mod::{lemma_fundamental_div_mod, lemma_fundamental_div_mod_converse};
use crate::card_set::CardSet;

verus! {

/// The slot that `idx` wraps to among `size` slots: the floored remainder,
/// which lies in `0..size` for negative `idx` too.
pub open spec fn wrapped_index(idx: int, size: int) -> int {
    idx % size
}

/// The slot of the hand that `seat` holds when the hands have been passed on
/// `shift` times, among `seats` seats.
pub open spec fn hand_slot(shift: int, seat: int, seats: int) -> int {
    wrapped_index(shift + seat, seats)
}

/// A wrapped index is a slot, and indices that differ by a multiple of the
/// size wrap to the same slot.
pub proof fn lemma_wrapped_index(idx: int, size: int)
    requires
        size > 0,
    ensures
        0 <= wrapped_index(idx, size) < size,
        0 <= idx < size ==> wrapped_index(idx, size) == idx,
        wrapped_index(idx + size, size) == wrapped_index(idx, size),
        wrapped_index(idx - size, size) == wrapped_index(idx, size),
{
    lemma_fundamental_div_mod(idx, size);
    let q = idx / size;
    let r = idx % size;
    assert(idx + size == (q + 1) * size + r) by (nonlinear_arith)
        requires
            idx == size * q + r,
    ;
    assert(idx - size == (q - 1) * size + r) by (nonlinear_arith)
        requires
            idx == size * q + r,
    ;
    lemma_fundamental_div_mod_converse(idx + size, size, q + 1, r);
    lemma_fundamental_div_mod_converse(idx - size, size, q - 1, r);
    if 0 <= idx < size {
        assert(idx == 0 * size + idx);
        lemma_fundamental_div_mod_converse(idx, size, 0, idx);
    }
}

/// Two indices wrap to the same slot exactly if they differ by a multiple of
/// the size; so two that are less than the size apart wrap to different slots.
pub proof fn lemma_wrapped_apart(a: int, b: int, size: int)
    requires
        size > 0,
        a < b < a + size,
    ensures
        wrapped_index(a, size) != wrapped_index(b, size),
{
    lemma_fundamental_div_mod(a, size);
    lemma_fundamental_div_mod(b, size);
    let qa = a / size;
    let qb = b / size;
    if a % size == b % size {
        assert(b - a == size * (qb - qa)) by (nonlinear_arith)
            requires
                a == size * qa + a % size,
                b == size * qb + b % size,
                a % size == b % size,
        ;
        assert(false) by (nonlinear_arith)
            requires
                0 < b - a < size,
                b - a == size * (qb - qa),
        ;
    }
}

/// In one turn the seats hold different hands, and every hand is held: the
/// rotation by `shift` maps the seats one-to-one onto the slots.
pub proof fn lemma_rotation_bijection(shift: int, seats: int)
    requires
        seats > 0,
    ensures
        forall|seat: int| 0 <= seat < seats ==> 0 <= #[trigger] hand_slot(shift, seat, seats) < seats,
        forall|a: int, b: int|
            0 <= a < b < seats ==> #[trigger] hand_slot(shift, a, seats) != #[trigger] hand_slot(
                shift,
                b,
                seats,
            ),
        forall|slot: int|
            0 <= slot < seats ==> 0 <= #[trigger] seat_at(shift, slot, seats) < seats && hand_slot(
                shift,
                seat_at(shift, slot, seats),
                seats,
            ) == slot,
{
    assert forall|seat: int| 0 <= seat < seats implies 0 <= #[trigger] hand_slot(
        shift,
        seat,
        seats,
    ) < seats by {
        lemma_wrapped_index(shift + seat, seats);
    }
    assert forall|a: int, b: int| 0 <= a < b < seats implies #[trigger] hand_slot(shift, a, seats)
        != #[trigger] hand_slot(shift, b, seats) by {
        lemma_wrapped_apart(shift + a, shift + b, seats);
    }
    assert forall|slot: int| 0 <= slot < seats implies 0 <= #[trigger] seat_at(shift, slot, seats)
        < seats && hand_slot(shift, seat_at(shift, slot, seats), seats) == slot by {
        lemma_seat_at(shift, slot, seats);
    }
}

/// The seat that holds the hand of `slot` when the hands have been passed on
/// `shift` times.
pub open spec fn seat_at(shift: int, slot: int, seats: int) -> int {
    wrapped_index(slot - shift, seats)
}

/// `seat_at` undoes `hand_slot`.
pub proof fn lemma_seat_at(shift: int, slot: int, seats: int)
    requires
        seats > 0,
        0 <= slot < seats,
    ensures
        0 <= seat_at(shift, slot, seats) < seats,
        hand_slot(shift, seat_at(shift, slot, seats), seats) == slot,
{
    let seat = (slot - shift) % seats;
    let q = (slot - shift) / seats;
    lemma_fundamental_div_mod(slot - shift, seats);
    lemma_wrapped_index(slot - shift, seats);
    assert(shift + seat == (-q) * seats + slot) by (nonlinear_arith)
        requires
            slot - shift == seats * q + seat,
    ;
    lemma_fundamental_div_mod_converse(shift + seat, seats, -q, slot);
}

/// `hand_slot` undoes `seat_at`: the seat that holds the hand of a seat is
/// that seat.
pub proof fn lemma_slot_seat(shift: int, seat: int, seats: int)
    requires
        seats > 0,
        0 <= seat < seats,
    ensures
        0 <= hand_slot(shift, seat, seats) < seats,
        seat_at(shift, hand_slot(shift, seat, seats), seats) == seat,
{
    lemma_wrapped_index(shift + seat, seats);
    let slot = hand_slot(shift, seat, seats);
    lemma_seat_at(shift, slot, seats);
    let holder = seat_at(shift, slot, seats);
    if holder < seat {
        lemma_wrapped_apart(shift + holder, shift + seat, seats);
    } else if seat < holder {
        lemma_wrapped_apart(shift + seat, shift + holder, seats);
    }
}

/// Over as many turns as there are seats, one seat holds every hand once:
/// for a fixed seat, the turns `0..seats` map one-to-one onto the slots.
pub proof fn lemma_seat_visits_every_hand(seat: int, seats: int)
    requires
        seats > 0,
    ensures
        forall|a: int, b: int|
            0 <= a < b < seats ==> #[trigger] hand_slot(a, seat, seats) != #[trigger] hand_slot(
                b,
                seat,
                seats,
            ),
        forall|slot: int|
            0 <= slot < seats ==> 0 <= #[trigger] seat_at(seat, slot, seats) < seats && hand_slot(
                seat_at(seat, slot, seats),
                seat,
                seats,
            ) == slot,
{
    lemma_rotation_bijection(seat, seats);
    assert forall|a: int, b: int| 0 <= a < b < seats implies #[trigger] hand_slot(a, seat, seats)
        != #[trigger] hand_slot(b, seat, seats) by {
        assert(hand_slot(a, seat, seats) == hand_slot(seat, a, seats));
        assert(hand_slot(b, seat, seats) == hand_slot(seat, b, seats));
    }
    assert forall|slot: int| 0 <= slot < seats implies 0 <= #[trigger] seat_at(seat, slot, seats)
        < seats && hand_slot(seat_at(seat, slot, seats), seat, seats) == slot by {
        let turn = seat_at(seat, slot, seats);
        assert(hand_slot(turn, seat, seats) == hand_slot(seat, turn, seats));
    }
}

/// The slot that `idx` wraps to among `size` slots.
fn wrap(idx: isize, size: isize) -> (slot: usize)
    requires
        size > 0,
    ensures
        slot == wrapped_index(idx as int, size as int),
        slot < size,
{
    let rem = idx % size;
    proof {
        if idx < 0 {
            let m = (-(idx as int)) % (size as int);
            let q = (-(idx as int)) / (size as int);
            lemma_fundamental_div_mod(-(idx as int), size as int);
            if m == 0 {
                assert(idx as int == (-q) * size + 0) by (nonlinear_arith)
                    requires
                        -(idx as int) == size * q + m,
                        m == 0,
                ;
                lemma_fundamental_div_mod_converse(idx as int, size as int, -q, 0);
            } else {
                assert(idx as int == (-q - 1) * size + (size - m)) by (nonlinear_arith)
                    requires
                        -(idx as int) == size * q + m,
                ;
                lemma_fundamental_div_mod_converse(idx as int, size as int, -q - 1, size - m);
            }
        }
    }
    if rem < 0 {
        (rem + size) as usize
    } else {
        rem as usize
    }
}

/// The hands of a round as the seats see them in one turn: seat `i` holds
/// the hand in slot `(shift + i) mod seats`.
pub struct HandsView<'a> {
    hands: &'a [CardSet],
    hands_shift: isize,
}

impl<'a> HandsView<'a> {
    /// The hands, slot by slot.
    pub closed spec fn hands(&self) -> Seq<CardSet> {
        self.hands@
    }

    /// How often the hands have been passed on.
    pub closed spec fn shift(&self) -> int {
        self.hands_shift as int
    }

    /// The hand that `seat` holds.
    pub open spec fn hand_of(&self, seat: int) -> CardSet {
        self.hands()[hand_slot(self.shift(), seat, self.hands().len() as int)]
    }

    pub fn new(hands: &'a [CardSet], hands_shift: isize) -> (view: Self)
        ensures
            view.hands() == hands@,
            view.shift() == hands_shift,
    {
        HandsView { hands, hands_shift }
    }

    /// Number of hands in the view.
    pub fn count(&self) -> (n: usize)
        ensures
            n == self.hands().len(),
    {
        self.hands.len()
    }

    /// The item of `slice` at the slot that `idx` wraps to.
    pub fn get_wrapped<T>(slice: &[T], idx: isize) -> (item: &T)
        requires
            0 < slice@.len() <= isize::MAX,
        ensures
            *item == slice@[wrapped_index(idx as int, slice@.len() as int)],
    {
        let size = slice.len() as isize;
        let wrapped_idx = wrap(idx, size);
        &slice[wrapped_idx]
    }

    /// The item of `slice` at the slot that `idx` wraps to, for writing:
    /// the same slot that `get_wrapped` reads.
    pub fn get_wrapped_mut<T>(slice: &mut [T], idx: isize) -> (item: &mut T)
        requires
            0 < old(slice)@.len() <= isize::MAX,
        ensures
            *item == old(slice)@[wrapped_index(idx as int, old(slice)@.len() as int)],
            final(slice)@ == old(slice)@.update(
                wrapped_index(idx as int, old(slice)@.len() as int),
                *final(item),
            ),
    {
        let size = slice.len() as isize;
        let wrapped_idx = wrap(idx, size);
        &mut slice[wrapped_idx]
    }

    /// The hand that seat `idx` holds.
    pub fn get_hand(&'a self, idx: usize) -> (hand: &'a CardSet)
        requires
            0 < self.hands().len() <= isize::MAX,
            idx <= isize::MAX,
            self.shift() + idx <= isize::MAX,
        ensures
            *hand == self.hand_of(idx as int),
    {
        HandsView::get_wrapped(self.hands, self.hands_shift + idx as isize)
    }

    /// The hand that seat `idx` holds after `hands_shift` passes, for
    /// writing: the same slot that `get_hand` reads.
    pub fn get_hand_mut(set: &'a mut [CardSet], hands_shift: isize, idx: usize) -> (hand:
        &'a mut CardSet)
        requires
            0 < old(set)@.len() <= isize::MAX,
            idx <= isize::MAX,
            hands_shift + idx <= isize::MAX,
        ensures
            *hand == old(set)@[hand_slot(hands_shift as int, idx as int, old(set)@.len() as int)],
            final(set)@ == old(set)@.update(
                hand_slot(hands_shift as int, idx as int, old(set)@.len() as int),
                *final(hand),
            ),
    {
        HandsView::get_wrapped_mut(set, hands_shift + idx as isize)
    }
}

} // verus!
