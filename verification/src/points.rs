//! The point calculator: from what the seats have played to what they score.

use vstd::prelude::*;
use crate::cards::Card;
use crate::card_set::CardVec;
use crate::error::GameError;
use crate::menu::{has_fruit, menu_has_fruit, Menu};
use crate::tally::{
    all_tabled, countable_into, tabled, tally_after, tally_after_all, PointCalculatorPlayerState,
    Tally,
};

verus! {

/// The highest of `scores`; 0 where there is none.
pub open spec fn highest(scores: Seq<nat>) -> nat
    decreases scores.len(),
{
    if scores.len() == 0 {
        0
    } else if scores.last() > highest(scores.drop_last()) {
        scores.last()
    } else {
        highest(scores.drop_last())
    }
}

/// The lowest of `scores`; 0 where there is none.
pub open spec fn lowest(scores: Seq<nat>) -> nat
    decreases scores.len(),
{
    if scores.len() == 0 {
        0
    } else if scores.len() == 1 || scores.last() < lowest(scores.drop_last()) {
        scores.last()
    } else {
        lowest(scores.drop_last())
    }
}

/// The highest of those of `scores` that are below `limit`; 0 where there is
/// none.
pub open spec fn highest_below(scores: Seq<nat>, limit: nat) -> nat
    decreases scores.len(),
{
    if scores.len() == 0 {
        0
    } else if scores.last() < limit && scores.last() > highest_below(scores.drop_last(), limit) {
        scores.last()
    } else {
        highest_below(scores.drop_last(), limit)
    }
}

/// `highest` is a score that no score exceeds.
pub proof fn lemma_highest(scores: Seq<nat>)
    ensures
        forall|i: int| 0 <= i < scores.len() ==> #[trigger] scores[i] <= highest(scores),
        scores.len() > 0 ==> exists|i: int| 0 <= i < scores.len() && scores[i] == highest(scores),
    decreases scores.len(),
{
    if scores.len() > 0 {
        let front = scores.drop_last();
        lemma_highest(front);
        assert forall|i: int| 0 <= i < scores.len() implies #[trigger] scores[i] <= highest(
            scores,
        ) by {
            if i < front.len() {
                assert(front[i] == scores[i]);
            }
        }
        if highest(scores) == scores.last() {
            assert(scores[scores.len() - 1] == highest(scores));
        } else {
            let i = choose|i: int| 0 <= i < front.len() && front[i] == highest(front);
            assert(scores[i] == highest(scores));
        }
    }
}

/// `lowest` is a score that no score falls below.
pub proof fn lemma_lowest(scores: Seq<nat>)
    ensures
        forall|i: int| 0 <= i < scores.len() ==> #[trigger] scores[i] >= lowest(scores),
        scores.len() > 0 ==> exists|i: int| 0 <= i < scores.len() && scores[i] == lowest(scores),
    decreases scores.len(),
{
    if scores.len() > 0 {
        let front = scores.drop_last();
        lemma_lowest(front);
        assert forall|i: int| 0 <= i < scores.len() implies #[trigger] scores[i] >= lowest(
            scores,
        ) by {
            if i < front.len() {
                assert(front[i] == scores[i]);
            }
        }
        if lowest(scores) == scores.last() {
            assert(scores[scores.len() - 1] == lowest(scores));
        } else {
            let i = choose|i: int| 0 <= i < front.len() && front[i] == lowest(front);
            assert(scores[i] == lowest(scores));
        }
    }
}

/// `highest_below` is a score below the limit that no score below the limit
/// exceeds; it is 0 where no score is below the limit.
pub proof fn lemma_highest_below(scores: Seq<nat>, limit: nat)
    ensures
        forall|i: int|
            0 <= i < scores.len() && #[trigger] scores[i] < limit ==> scores[i] <= highest_below(
                scores,
                limit,
            ),
        (exists|i: int| 0 <= i < scores.len() && scores[i] < limit) ==> highest_below(
            scores,
            limit,
        ) < limit && exists|i: int|
            0 <= i < scores.len() && scores[i] == highest_below(scores, limit),
        (forall|i: int| 0 <= i < scores.len() ==> #[trigger] scores[i] >= limit) ==> highest_below(
            scores,
            limit,
        ) == 0,
    decreases scores.len(),
{
    if scores.len() > 0 {
        let front = scores.drop_last();
        lemma_highest_below(front, limit);
        assert forall|i: int| 0 <= i < scores.len() && #[trigger] scores[i] < limit implies scores[i]
            <= highest_below(scores, limit) by {
            if i < front.len() {
                assert(front[i] == scores[i]);
            }
        }
        if exists|i: int| 0 <= i < scores.len() && scores[i] < limit {
            let i = choose|i: int| 0 <= i < scores.len() && scores[i] < limit;
            if scores.last() < limit && scores.last() > highest_below(front, limit) {
                assert(scores[scores.len() - 1] == highest_below(scores, limit));
            } else {
                if i < front.len() {
                    assert(front[i] == scores[i]);
                } else {
                    assert(scores.last() <= highest_below(front, limit));
                    if forall|k: int| 0 <= k < front.len() ==> #[trigger] front[k] >= limit {
                        assert(highest_below(front, limit) == 0);
                        assert(scores[scores.len() - 1] == highest_below(scores, limit));
                    }
                }
                if exists|k: int| 0 <= k < front.len() && front[k] < limit {
                    let k = choose|k: int|
                        0 <= k < front.len() && front[k] == highest_below(front, limit);
                    assert(scores[k] == highest_below(scores, limit));
                }
            }
        }
        if forall|i: int| 0 <= i < scores.len() ==> #[trigger] scores[i] >= limit {
            assert forall|i: int| 0 <= i < front.len() implies #[trigger] front[i] >= limit by {
                assert(front[i] == scores[i]);
            }
        }
    }
}

/// The maki totals of the seats.
pub open spec fn maki_scores(tallies: Seq<Tally>) -> Seq<nat> {
    Seq::new(tallies.len(), |i: int| tallies[i].maki_score)
}

/// The temaki counts of the seats.
pub open spec fn temaki_counts(tallies: Seq<Tally>) -> Seq<nat> {
    Seq::new(tallies.len(), |i: int| tallies[i].temaki_count)
}

/// The pudding counts of the seats.
pub open spec fn pudding_counts(tallies: Seq<Tally>) -> Seq<nat> {
    Seq::new(tallies.len(), |i: int| tallies[i].pudding_count)
}

/// What the highest, the second and the third maki total pay, for a number
/// of seats. There is a table for up to five seats and one for more; as the
/// rules stand, they pay the same.
pub open spec fn maki_tiers(seats: int) -> (int, int, int) {
    if seats <= 5 {
        (6, 3, 0)
    } else {
        (6, 3, 0)
    }
}

/// Maki: the three highest totals that differ pay by tier, each to every
/// seat that has it; a seat without maki scores nothing.
pub open spec fn maki_points(tallies: Seq<Tally>, seat: int) -> int {
    let scores = maki_scores(tallies);
    let own = scores[seat];
    let first = highest(scores);
    let second = highest_below(scores, first);
    let third = highest_below(scores, second);
    let tiers = maki_tiers(tallies.len() as int);
    if own == 0 {
        0
    } else if own == first {
        tiers.0
    } else if own == second {
        tiers.1
    } else if own == third {
        tiers.2
    } else {
        0
    }
}

/// Most and fewest: what a seat gets where every seat with the highest count
/// gets `for_most`, every other seat with the lowest count `for_fewest`, and
/// the rest nothing.
pub open spec fn most_fewest_points(counts: Seq<nat>, seat: int, for_most: int, for_fewest: int)
    -> int {
    if counts[seat] == highest(counts) {
        for_most
    } else if counts[seat] == lowest(counts) {
        for_fewest
    } else {
        0
    }
}

/// Maki pay 6, 3 or nothing; 6 to every seat at the top, however many share
/// it; nothing to a seat without maki, also where no seat has any; less than
/// 6 below the top; and never less for a higher total than for a lower one.
pub proof fn lemma_maki_points(tallies: Seq<Tally>, seat: int, other: int)
    requires
        0 <= seat < tallies.len(),
        0 <= other < tallies.len(),
    ensures
        maki_points(tallies, seat) == 6 || maki_points(tallies, seat) == 3 || maki_points(
            tallies,
            seat,
        ) == 0,
        tallies[seat].maki_score == 0 ==> maki_points(tallies, seat) == 0,
        tallies[seat].maki_score > 0 && tallies[seat].maki_score == highest(maki_scores(tallies))
            ==> maki_points(tallies, seat) == 6,
        tallies[seat].maki_score < highest(maki_scores(tallies)) ==> maki_points(tallies, seat)
            < 6,
        tallies[seat].maki_score >= tallies[other].maki_score ==> maki_points(tallies, seat)
            >= maki_points(tallies, other),
{
    let scores = maki_scores(tallies);
    let first = highest(scores);
    let second = highest_below(scores, first);
    lemma_highest(scores);
    lemma_highest_below(scores, first);
    lemma_highest_below(scores, second);
    assert(scores[seat] <= first);
    assert(scores[other] <= first);
    if scores[seat] < first {
        assert(scores[seat] <= second);
    }
    if scores[other] < first {
        assert(scores[other] <= second);
    }
}

/// Most and fewest: a seat with the highest count gets `for_most`; a seat
/// with the lowest count, where that is not the highest too, gets
/// `for_fewest`; every other seat gets nothing. Seats that share a count
/// share what it pays, and where all seats are level all get `for_most`.
pub proof fn lemma_most_fewest_points(counts: Seq<nat>, seat: int, for_most: int, for_fewest: int)
    requires
        0 <= seat < counts.len(),
    ensures
        lowest(counts) <= counts[seat] <= highest(counts),
        counts[seat] == highest(counts) ==> most_fewest_points(counts, seat, for_most, for_fewest)
            == for_most,
        counts[seat] == lowest(counts) && lowest(counts) != highest(counts)
            ==> most_fewest_points(counts, seat, for_most, for_fewest) == for_fewest,
        lowest(counts) < counts[seat] < highest(counts) ==> most_fewest_points(
            counts,
            seat,
            for_most,
            for_fewest,
        ) == 0,
        (forall|i: int| 0 <= i < counts.len() ==> #[trigger] counts[i] == counts[seat])
            ==> most_fewest_points(counts, seat, for_most, for_fewest) == for_most,
{
    lemma_highest(counts);
    lemma_lowest(counts);
    assert(counts[seat] <= highest(counts));
    assert(counts[seat] >= lowest(counts));
}

/// What most and fewest temaki pay, for a number of seats.
pub open spec fn temaki_pair(seats: int) -> (int, int) {
    if seats == 2 {
        (4, 0)
    } else {
        (4, -4)
    }
}

/// What most and fewest pudding pay, for a number of seats.
pub open spec fn pudding_pair(seats: int) -> (int, int) {
    if seats == 2 {
        (6, 0)
    } else {
        (6, -6)
    }
}

pub open spec fn temaki_points(tallies: Seq<Tally>, seat: int) -> int {
    let pair = temaki_pair(tallies.len() as int);
    most_fewest_points(temaki_counts(tallies), seat, pair.0, pair.1)
}

pub open spec fn pudding_points(tallies: Seq<Tally>, seat: int) -> int {
    let pair = pudding_pair(tallies.len() as int);
    most_fewest_points(pudding_counts(tallies), seat, pair.0, pair.1)
}

pub open spec fn dumpling_points(count: nat) -> int {
    if count == 0 {
        0
    } else if count == 1 {
        1
    } else if count == 2 {
        3
    } else if count == 3 {
        6
    } else if count == 4 {
        10
    } else {
        15
    }
}

pub open spec fn eel_points(count: nat) -> int {
    if count == 0 {
        0
    } else if count == 1 {
        -3
    } else {
        7
    }
}

/// Onigiri pay by the number of different shapes, of which there are four.
pub open spec fn onigiri_points(shapes: nat) -> int
    recommends
        shapes <= 4,
{
    if shapes == 0 {
        0
    } else if shapes == 1 {
        1
    } else if shapes == 2 {
        4
    } else if shapes == 3 {
        9
    } else {
        16
    }
}

/// Tofu: one pays 2, two pay 6, three or more nothing.
pub open spec fn tofu_points(count: nat) -> int {
    if count == 1 {
        2
    } else if count == 2 {
        6
    } else {
        0
    }
}

/// What one kind of fruit pays, by how many of it a seat has.
pub open spec fn points_for_fruit_count(count: nat) -> int {
    if count == 0 {
        -2
    } else if count == 1 {
        0
    } else if count == 2 {
        1
    } else if count == 3 {
        3
    } else if count == 4 {
        6
    } else {
        10
    }
}

pub open spec fn fruit_points(tally: Tally) -> int {
    points_for_fruit_count(tally.fruits_counts.0) + points_for_fruit_count(tally.fruits_counts.1)
        + points_for_fruit_count(tally.fruits_counts.2)
}

/// Number of seats that have played edamame.
pub open spec fn seats_with_edamame(tallies: Seq<Tally>) -> nat
    decreases tallies.len(),
{
    if tallies.len() == 0 {
        0
    } else {
        seats_with_edamame(tallies.drop_last()) + if tallies.last().edamame_count > 0 {
            1nat
        } else {
            0nat
        }
    }
}

/// What each edamame pays: 4 where five seats or more have some, else one
/// for each other seat that has some.
pub open spec fn points_per_edamame(tallies: Seq<Tally>) -> int {
    if seats_with_edamame(tallies) >= 5 {
        4
    } else {
        seats_with_edamame(tallies) - 1
    }
}

pub open spec fn edamame_points(tallies: Seq<Tally>, seat: int) -> int {
    tallies[seat].edamame_count * points_per_edamame(tallies)
}

/// Number of seats whose uramaki reach the score that counts: 10.
pub open spec fn seats_with_uramaki(tallies: Seq<Tally>) -> nat
    decreases tallies.len(),
{
    if tallies.len() == 0 {
        0
    } else {
        seats_with_uramaki(tallies.drop_last()) + if tallies.last().uramaki_score >= 10 {
            1nat
        } else {
            0nat
        }
    }
}

/// What a seat scores for its own cards alone, whatever the menu and the
/// other seats.
pub open spec fn own_points(tally: Tally) -> int {
    tally.nigiri_points + dumpling_points(tally.dumpling_count) + eel_points(tally.eel_count)
        + onigiri_points(tally.onigiri_shapes()) + tally.miso_count * 3 + tally.sashimi_count / 3
        * 10 + tally.tempura_count / 2 * 5 + tofu_points(tally.tofu_count) + tally.taken_out_count
        * 2 + tally.ice_cream_count / 4 * 12
}

/// What `seat` scores in a pass over `tallies` under `menu`. Temaki, pudding
/// and fruit count only where the menu has them; uramaki, soy sauce and tea
/// pay nothing.
pub open spec fn seat_points(tallies: Seq<Tally>, menu: Set<Card>, seat: int) -> int {
    own_points(tallies[seat]) + maki_points(tallies, seat) + edamame_points(tallies, seat) + (
    if menu.contains(Card::Temaki) {
        temaki_points(tallies, seat)
    } else {
        0
    }) + (if menu.contains(Card::Pudding) {
        pudding_points(tallies, seat)
    } else {
        0
    }) + (if menu_has_fruit(menu) {
        fruit_points(tallies[seat])
    } else {
        0
    })
}

/// Where no seat has played edamame, no seat has an edamame counted.
pub proof fn lemma_no_edamame(tallies: Seq<Tally>)
    requires
        seats_with_edamame(tallies) == 0,
    ensures
        forall|seat: int| 0 <= seat < tallies.len() ==> (#[trigger] tallies[seat]).edamame_count == 0,
    decreases tallies.len(),
{
    if tallies.len() > 0 {
        let front = tallies.drop_last();
        lemma_no_edamame(front);
        assert forall|seat: int| 0 <= seat < tallies.len() implies (
        #[trigger] tallies[seat]).edamame_count == 0 by {
            if seat < front.len() {
                assert(front[seat] == tallies[seat]);
            }
        }
    }
}

/// What a seat scores is bounded by its counters: with no counter above
/// `limit`, it gets at most `20 * limit + 100` points and loses at most 19.
pub proof fn lemma_points_within(tallies: Seq<Tally>, menu: Set<Card>, seat: int, limit: nat)
    requires
        0 <= seat < tallies.len(),
        tallies[seat].within(limit),
    ensures
        -19 <= seat_points(tallies, menu, seat) <= 20 * limit + 100,
{
    let tally = tallies[seat];
    let each = points_per_edamame(tallies);
    assert(0 <= edamame_points(tallies, seat) <= 4 * limit) by {
        if seats_with_edamame(tallies) == 0 {
            lemma_no_edamame(tallies);
            assert(tally.edamame_count * each == 0) by (nonlinear_arith)
                requires
                    tally.edamame_count == 0,
            ;
        } else {
            assert(0 <= tally.edamame_count * each <= 4 * limit) by (nonlinear_arith)
                requires
                    0 <= each <= 4,
                    0 <= tally.edamame_count <= limit,
            ;
        }
    }
    assert(0 <= tally.onigiri_shapes() <= 4);
}

/// Whether what every seat scores can be held in an `isize`.
pub open spec fn points_fit(tallies: Seq<Tally>, menu: Set<Card>) -> bool {
    forall|seat: int|
        0 <= seat < tallies.len() ==> isize::MIN <= #[trigger] seat_points(tallies, menu, seat)
            <= isize::MAX
}

/// The most that one rule adds to or takes from what a seat scores.
const STEP: i128 = 0x1000_0000_0000_0000_0000;

/// How far a sum of points may be from 0 for a rule to be added to it.
const ROOM: i128 = 0x1_0000_0000_0000_0000_0000_0000;

/// Whether every one of `points` is within `bound` of 0.
spec fn bounded(points: Seq<i128>, bound: int) -> bool {
    forall|i: int| 0 <= i < points.len() ==> -bound <= #[trigger] points[i] <= bound
}

/// The counter by which the seats are ranked.
#[derive(Clone, Copy)]
enum Ranked {
    Maki,
    Temaki,
    Pudding,
}

spec fn ranked_count(which: Ranked, tally: Tally) -> nat {
    match which {
        Ranked::Maki => tally.maki_score,
        Ranked::Temaki => tally.temaki_count,
        Ranked::Pudding => tally.pudding_count,
    }
}

spec fn ranked_counts(which: Ranked, tallies: Seq<Tally>) -> Seq<nat> {
    Seq::new(tallies.len(), |i: int| ranked_count(which, tallies[i]))
}

/// A rule that pays a seat by its own cards.
#[derive(Clone, Copy)]
enum SimpleRule {
    Dumpling,
    /// Edamame, with what each of them pays in this pass.
    Edamame(i128),
    Eel,
    Onigiri,
    Miso,
    Sashimi,
    Tempura,
    Tofu,
    TakeoutBox,
    IceCream,
    Fruit,
}

spec fn rule_points(rule: SimpleRule, tally: Tally) -> int {
    match rule {
        SimpleRule::Dumpling => dumpling_points(tally.dumpling_count),
        SimpleRule::Edamame(each) => tally.edamame_count * each,
        SimpleRule::Eel => eel_points(tally.eel_count),
        SimpleRule::Onigiri => onigiri_points(tally.onigiri_shapes()),
        SimpleRule::Miso => (tally.miso_count * 3) as int,
        SimpleRule::Sashimi => (tally.sashimi_count / 3 * 10) as int,
        SimpleRule::Tempura => (tally.tempura_count / 2 * 5) as int,
        SimpleRule::Tofu => tofu_points(tally.tofu_count),
        SimpleRule::TakeoutBox => (tally.taken_out_count * 2) as int,
        SimpleRule::IceCream => (tally.ice_cream_count / 4 * 12) as int,
        SimpleRule::Fruit => fruit_points(tally),
    }
}

/// Goes through what the seats have played and says what each scores.
/// One calculator serves one pass: a round, or the desserts at the end.
#[derive(Clone, Debug)]
pub struct PointCalculator {
    states: Vec<PointCalculatorPlayerState>,
    uramaki_position: usize,
}

impl View for PointCalculator {
    type V = Seq<Tally>;

    closed spec fn view(&self) -> Seq<Tally> {
        Seq::new(self.states@.len(), |i: int| self.states@[i]@)
    }
}

impl PointCalculator {
    /// Every seat's counters are well-formed.
    pub closed spec fn wf(&self) -> bool {
        forall|i: int| 0 <= i < self.states@.len() ==> (#[trigger] self.states@[i]).wf()
    }

    /// How many seats had reached the uramaki score when the pass before
    /// this one ended.
    pub closed spec fn uramaki_position(&self) -> nat {
        self.uramaki_position as nat
    }

    /// A calculator for `capacity` seats that have played nothing yet.
    pub fn with_capacity(capacity: usize, uramaki_position: usize) -> (calculator: Self)
        ensures
            calculator.wf(),
            calculator@.len() == capacity,
            forall|seat: int| 0 <= seat < capacity ==> #[trigger] calculator@[seat] == Tally::empty(),
            calculator.uramaki_position() == uramaki_position,
    {
        let mut states: Vec<PointCalculatorPlayerState> = Vec::with_capacity(capacity);
        let mut i: usize = 0;
        while i < capacity
            invariant
                i <= capacity,
                states@.len() == i,
                forall|k: int| 0 <= k < i ==> (#[trigger] states@[k]).wf() && states@[k]@ == Tally::empty(),
            decreases capacity - i,
        {
            states.push(PointCalculatorPlayerState::new());
            i += 1;
        }
        PointCalculator { states, uramaki_position }
    }

    /// Number of seats.
    pub fn seats(&self) -> (n: usize)
        ensures
            n == self@.len(),
    {
        self.states.len()
    }

    /// Counts in what each seat has played: `played_cards[i]` for seat `i`,
    /// as far as there is both a seat and a list. Refuses all of it, and
    /// changes nothing, where any of these cards may not lie on the table.
    pub fn apply_cards(&mut self, played_cards: &[CardVec]) -> (done: Result<(), GameError>)
        requires
            old(self).wf(),
            forall|seat: int|
                0 <= seat < old(self)@.len() && seat < played_cards@.len() && all_tabled(
                    played_cards@[seat]@,
                ) ==> countable_into(#[trigger] old(self)@[seat], played_cards@[seat]@),
        ensures
            final(self).wf(),
            final(self)@.len() == old(self)@.len(),
            final(self).uramaki_position() == old(self).uramaki_position(),
            done is Ok <==> forall|seat: int|
                0 <= seat < old(self)@.len() && seat < played_cards@.len() ==> all_tabled(
                    #[trigger] played_cards@[seat]@,
                ),
            done is Ok ==> forall|seat: int|
                0 <= seat < old(self)@.len() ==> #[trigger] final(self)@[seat] == if seat
                    < played_cards@.len() {
                    tally_after_all(old(self)@[seat], played_cards@[seat]@)
                } else {
                    old(self)@[seat]
                },
            done matches Err(e) ==> e == GameError::InternalInvariantViolation && final(self)@
                == old(self)@,
    {
        let pairs = if self.states.len() < played_cards.len() {
            self.states.len()
        } else {
            played_cards.len()
        };
        let mut seat: usize = 0;
        while seat < pairs
            invariant
                seat <= pairs,
                pairs <= played_cards@.len(),
                pairs <= self.states@.len(),
                *self == *old(self),
                self.wf(),
                forall|k: int| 0 <= k < seat ==> all_tabled(#[trigger] played_cards@[k]@),
            decreases pairs - seat,
        {
            let cards = &played_cards[seat];
            let mut k: usize = 0;
            while k < cards.len()
                invariant
                    k <= cards@.len(),
                    seat < pairs,
                    pairs <= played_cards@.len(),
                    pairs <= self.states@.len(),
                    *cards == played_cards@[seat as int],
                    *self == *old(self),
                    self.wf(),
                    forall|j: int| 0 <= j < k ==> tabled(#[trigger] cards@[j]),
                decreases cards@.len() - k,
            {
                match cards[k] {
                    Card::Menu(_) | Card::SpecialOrder => {
                        assert(!tabled(played_cards@[seat as int]@[k as int]));
                        assert(!all_tabled(played_cards@[seat as int]@));
                        return Err(GameError::InternalInvariantViolation);
                    },
                    _ => {},
                }
                k += 1;
            }
            seat += 1;
        }
        let ghost before = self@;
        let mut seat: usize = 0;
        while seat < pairs
            invariant
                seat <= pairs,
                pairs <= played_cards@.len(),
                pairs <= self.states@.len(),
                pairs == self.states@.len() || pairs == played_cards@.len(),
                self.wf(),
                self@.len() == before.len(),
                before == old(self)@,
                self.uramaki_position == old(self).uramaki_position,
                forall|k: int| 0 <= k < pairs ==> all_tabled(#[trigger] played_cards@[k]@),
                forall|k: int|
                    0 <= k < pairs ==> countable_into(#[trigger] before[k], played_cards@[k]@),
                forall|k: int|
                    0 <= k < seat ==> #[trigger] self@[k] == tally_after_all(
                        before[k],
                        played_cards@[k]@,
                    ),
                forall|k: int| seat <= k < before.len() ==> #[trigger] self@[k] == before[k],
            decreases pairs - seat,
        {
            let ghost states_before = self.states@;
            let ghost view_before = self@;
            assert(view_before[seat as int] == before[seat as int]);
            let _ = self.states[seat].apply_cards(&played_cards[seat]);
            proof {
                assert forall|k: int| 0 <= k < self.states@.len() implies (
                #[trigger] self.states@[k]).wf() by {
                    if k != seat {
                        assert(self.states@[k] == states_before[k]);
                    }
                }
                assert forall|k: int| 0 <= k < seat + 1 implies #[trigger] self@[k]
                    == tally_after_all(before[k], played_cards@[k]@) by {
                    if k != seat {
                        assert(self.states@[k] == states_before[k]);
                        assert(self@[k] == view_before[k]);
                    } else {
                        assert(states_before[k]@ == view_before[k]);
                    }
                }
                assert forall|k: int| seat + 1 <= k < before.len() implies #[trigger] self@[k]
                    == before[k] by {
                    assert(self.states@[k] == states_before[k]);
                    assert(self@[k] == view_before[k]);
                }
            }
            seat += 1;
        }
        Ok(())
    }

    /// Counts `card` in for seat `idx`; refuses a card that may not lie on
    /// the table and then changes nothing.
    pub fn apply_card(&mut self, idx: usize, card: Card) -> (done: Result<(), GameError>)
        requires
            old(self).wf(),
            idx < old(self)@.len(),
            tally_after(old(self)@[idx as int], card).fits(),
        ensures
            final(self).wf(),
            final(self)@ == old(self)@.update(idx as int, tally_after(old(self)@[idx as int], card)),
            final(self).uramaki_position() == old(self).uramaki_position(),
            done is Ok <==> tabled(card),
            done matches Err(e) ==> e == GameError::InternalInvariantViolation,
    {
        let ghost states_before = self.states@;
        let done = self.states[idx].apply_card(card);
        proof {
            assert forall|k: int| 0 <= k < self.states@.len() implies (#[trigger] self.states@[k]).wf() by {
                if k != idx {
                    assert(self.states@[k] == states_before[k]);
                }
            }
            assert(self@ =~= old(self)@.update(
                idx as int,
                tally_after(old(self)@[idx as int], card),
            ));
        }
        done
    }

    /// The counter of `seat` that `which` names.
    fn ranked(&self, seat: usize, which: Ranked) -> (n: usize)
        requires
            seat < self@.len(),
        ensures
            n == ranked_counts(which, self@)[seat as int],
    {
        match which {
            Ranked::Maki => self.states[seat].maki_score(),
            Ranked::Temaki => self.states[seat].temaki_count(),
            Ranked::Pudding => self.states[seat].pudding_count(),
        }
    }

    fn highest_ranked(&self, which: Ranked) -> (best: usize)
        ensures
            best == highest(ranked_counts(which, self@)),
    {
        let ghost counts = ranked_counts(which, self@);
        let mut best: usize = 0;
        let mut i: usize = 0;
        while i < self.states.len()
            invariant
                i <= self.states@.len(),
                counts == ranked_counts(which, self@),
                counts.len() == self.states@.len(),
                best == highest(counts.take(i as int)),
            decreases self.states@.len() - i,
        {
            let n = self.ranked(i, which);
            assert(counts.take(i + 1).drop_last() =~= counts.take(i as int));
            if n > best {
                best = n;
            }
            i += 1;
        }
        assert(counts.take(i as int) =~= counts);
        best
    }

    fn lowest_ranked(&self, which: Ranked) -> (best: usize)
        ensures
            best == lowest(ranked_counts(which, self@)),
    {
        let ghost counts = ranked_counts(which, self@);
        let mut best: usize = 0;
        let mut i: usize = 0;
        while i < self.states.len()
            invariant
                i <= self.states@.len(),
                counts == ranked_counts(which, self@),
                counts.len() == self.states@.len(),
                best == lowest(counts.take(i as int)),
            decreases self.states@.len() - i,
        {
            let n = self.ranked(i, which);
            assert(counts.take(i + 1).drop_last() =~= counts.take(i as int));
            if i == 0 || n < best {
                best = n;
            }
            i += 1;
        }
        assert(counts.take(i as int) =~= counts);
        best
    }

    fn highest_ranked_below(&self, which: Ranked, limit: usize) -> (best: usize)
        ensures
            best == highest_below(ranked_counts(which, self@), limit as nat),
    {
        let ghost counts = ranked_counts(which, self@);
        let mut best: usize = 0;
        let mut i: usize = 0;
        while i < self.states.len()
            invariant
                i <= self.states@.len(),
                counts == ranked_counts(which, self@),
                counts.len() == self.states@.len(),
                best == highest_below(counts.take(i as int), limit as nat),
            decreases self.states@.len() - i,
        {
            let n = self.ranked(i, which);
            assert(counts.take(i + 1).drop_last() =~= counts.take(i as int));
            if n < limit && n > best {
                best = n;
            }
            i += 1;
        }
        assert(counts.take(i as int) =~= counts);
        best
    }

    fn add_nigiri_points(&self, points: &mut Vec<i128>, Ghost(bound): Ghost<int>)
        requires
            old(points)@.len() == self@.len(),
            bounded(old(points)@, bound),
            0 <= bound <= ROOM,
        ensures
            final(points)@.len() == self@.len(),
            forall|seat: int|
                0 <= seat < self@.len() ==> #[trigger] final(points)@[seat] == old(points)@[seat]
                    + self@[seat].nigiri_points,
            bounded(final(points)@, bound + STEP),
    {
        let ghost before = points@;
        let mut i: usize = 0;
        while i < self.states.len()
            invariant
                i <= self.states@.len(),
                points@.len() == self.states@.len(),
                before.len() == self.states@.len(),
                bounded(before, bound),
                0 <= bound <= ROOM,
                forall|k: int|
                    0 <= k < i ==> #[trigger] points@[k] == before[k] + self@[k].nigiri_points
                        && self@[k].nigiri_points <= STEP,
                forall|k: int| i <= k < before.len() ==> #[trigger] points@[k] == before[k],
            decreases self.states@.len() - i,
        {
            let gained = self.states[i].nigiri_points() as i128;
            points[i] = points[i] + gained;
            i += 1;
        }
    }

    /// What the highest, the second and the third maki total pay.
    fn maki_tiers_for(seats: usize) -> (tiers: (i128, i128, i128))
        ensures
            tiers.0 == maki_tiers(seats as int).0,
            tiers.1 == maki_tiers(seats as int).1,
            tiers.2 == maki_tiers(seats as int).2,
    {
        if seats <= 5 {
            (6, 3, 0)
        } else {
            (6, 3, 0)
        }
    }

    fn add_maki_points(&self, points: &mut Vec<i128>, Ghost(bound): Ghost<int>)
        requires
            old(points)@.len() == self@.len(),
            bounded(old(points)@, bound),
            0 <= bound <= ROOM,
        ensures
            final(points)@.len() == self@.len(),
            forall|seat: int|
                0 <= seat < self@.len() ==> #[trigger] final(points)@[seat] == old(points)@[seat]
                    + maki_points(self@, seat),
            bounded(final(points)@, bound + STEP),
    {
        let ghost before = points@;
        let ghost scores = ranked_counts(Ranked::Maki, self@);
        assert(scores =~= maki_scores(self@));
        let max_score = self.highest_ranked(Ranked::Maki);
        if max_score == 0 {
            proof {
                lemma_highest(scores);
                assert forall|seat: int| 0 <= seat < self@.len() implies maki_points(self@, seat)
                    == 0 by {
                    assert(scores[seat] <= highest(scores));
                }
            }
            return ;
        }
        let tiers = Self::maki_tiers_for(self.states.len());
        let second_score = self.highest_ranked_below(Ranked::Maki, max_score);
        let third_score = self.highest_ranked_below(Ranked::Maki, second_score);
        let mut i: usize = 0;
        while i < self.states.len()
            invariant
                i <= self.states@.len(),
                points@.len() == self.states@.len(),
                before.len() == self.states@.len(),
                bounded(before, bound),
                0 <= bound <= ROOM,
                scores == maki_scores(self@),
                scores == ranked_counts(Ranked::Maki, self@),
                max_score == highest(scores),
                second_score == highest_below(scores, max_score as nat),
                third_score == highest_below(scores, second_score as nat),
                tiers.0 == maki_tiers(self@.len() as int).0,
                tiers.1 == maki_tiers(self@.len() as int).1,
                tiers.2 == maki_tiers(self@.len() as int).2,
                forall|k: int|
                    0 <= k < i ==> #[trigger] points@[k] == before[k] + maki_points(self@, k),
                forall|k: int| i <= k < before.len() ==> #[trigger] points@[k] == before[k],
            decreases self.states@.len() - i,
        {
            let own = self.ranked(i, Ranked::Maki);
            let gained: i128 = if own == 0 {
                0
            } else if own == max_score {
                tiers.0
            } else if own == second_score {
                tiers.1
            } else if own == third_score {
                tiers.2
            } else {
                0
            };
            points[i] = points[i] + gained;
            i += 1;
        }
    }

    fn add_temaki_points(&self, points: &mut Vec<i128>, Ghost(bound): Ghost<int>)
        requires
            old(points)@.len() == self@.len(),
            bounded(old(points)@, bound),
            0 <= bound <= ROOM,
        ensures
            final(points)@.len() == self@.len(),
            forall|seat: int|
                0 <= seat < self@.len() ==> #[trigger] final(points)@[seat] == old(points)@[seat]
                    + temaki_points(self@, seat),
            bounded(final(points)@, bound + STEP),
    {
        let pair: (i128, i128) = if self.states.len() == 2 {
            (4, 0)
        } else {
            (4, -4)
        };
        assert(ranked_counts(Ranked::Temaki, self@) =~= temaki_counts(self@));
        self.add_most_fewest_points(points, pair, Ranked::Temaki, Ghost(bound));
    }

    /// Uramaki pay nothing yet.
    fn add_uramaki_points(&self, end_of_round: bool, points: &mut Vec<i128>)
        ensures
            final(points)@ == old(points)@,
    {
    }

    fn add_dumpling_points(&self, points: &mut Vec<i128>, Ghost(bound): Ghost<int>)
        requires
            self.wf(),
            old(points)@.len() == self@.len(),
            bounded(old(points)@, bound),
            0 <= bound <= ROOM,
        ensures
            final(points)@.len() == self@.len(),
            forall|seat: int|
                0 <= seat < self@.len() ==> #[trigger] final(points)@[seat] == old(points)@[seat]
                    + dumpling_points(self@[seat].dumpling_count),
            bounded(final(points)@, bound + STEP),
    {
        self.add_simple_points(points, SimpleRule::Dumpling, Ghost(bound));
    }

    /// Number of seats that have played edamame.
    fn players_with_edamame(&self) -> (n: usize)
        ensures
            n == seats_with_edamame(self@),
    {
        let mut n: usize = 0;
        let mut i: usize = 0;
        while i < self.states.len()
            invariant
                i <= self.states@.len(),
                n <= i,
                n == seats_with_edamame(self@.take(i as int)),
            decreases self.states@.len() - i,
        {
            assert(self@.take(i + 1).drop_last() =~= self@.take(i as int));
            if self.states[i].edamame_count() > 0 {
                n += 1;
            }
            i += 1;
        }
        assert(self@.take(i as int) =~= self@);
        n
    }

    fn add_edamame_points(&self, points: &mut Vec<i128>, Ghost(bound): Ghost<int>)
        requires
            self.wf(),
            old(points)@.len() == self@.len(),
            bounded(old(points)@, bound),
            0 <= bound <= ROOM,
        ensures
            final(points)@.len() == self@.len(),
            forall|seat: int|
                0 <= seat < self@.len() ==> #[trigger] final(points)@[seat] == old(points)@[seat]
                    + edamame_points(self@, seat),
            bounded(final(points)@, bound + STEP),
    {
        let players_with_edamame = self.players_with_edamame();
        let points_per_edamame: i128 = if players_with_edamame >= 5 {
            4
        } else {
            players_with_edamame as i128 - 1
        };
        self.add_simple_points(points, SimpleRule::Edamame(points_per_edamame), Ghost(bound));
    }

    fn add_eel_points(&self, points: &mut Vec<i128>, Ghost(bound): Ghost<int>)
        requires
            self.wf(),
            old(points)@.len() == self@.len(),
            bounded(old(points)@, bound),
            0 <= bound <= ROOM,
        ensures
            final(points)@.len() == self@.len(),
            forall|seat: int|
                0 <= seat < self@.len() ==> #[trigger] final(points)@[seat] == old(points)@[seat]
                    + eel_points(self@[seat].eel_count),
            bounded(final(points)@, bound + STEP),
    {
        self.add_simple_points(points, SimpleRule::Eel, Ghost(bound));
    }

    fn add_onigiri_points(&self, points: &mut Vec<i128>, Ghost(bound): Ghost<int>)
        requires
            self.wf(),
            old(points)@.len() == self@.len(),
            bounded(old(points)@, bound),
            0 <= bound <= ROOM,
        ensures
            final(points)@.len() == self@.len(),
            forall|seat: int|
                0 <= seat < self@.len() ==> #[trigger] final(points)@[seat] == old(points)@[seat]
                    + onigiri_points(self@[seat].onigiri_shapes()),
            bounded(final(points)@, bound + STEP),
    {
        self.add_simple_points(points, SimpleRule::Onigiri, Ghost(bound));
    }

    fn add_tofu_points(&self, points: &mut Vec<i128>, Ghost(bound): Ghost<int>)
        requires
            self.wf(),
            old(points)@.len() == self@.len(),
            bounded(old(points)@, bound),
            0 <= bound <= ROOM,
        ensures
            final(points)@.len() == self@.len(),
            forall|seat: int|
                0 <= seat < self@.len() ==> #[trigger] final(points)@[seat] == old(points)@[seat]
                    + tofu_points(self@[seat].tofu_count),
            bounded(final(points)@, bound + STEP),
    {
        self.add_simple_points(points, SimpleRule::Tofu, Ghost(bound));
    }

    /// Soy sauce pays nothing yet.
    fn add_soy_sauce_points(&self, points: &mut Vec<i128>)
        ensures
            final(points)@ == old(points)@,
    {
    }

    /// Tea pays nothing yet.
    fn add_tea_points(&self, points: &mut Vec<i128>)
        ensures
            final(points)@ == old(points)@,
    {
    }

    fn add_pudding_points(&self, points: &mut Vec<i128>, Ghost(bound): Ghost<int>)
        requires
            old(points)@.len() == self@.len(),
            bounded(old(points)@, bound),
            0 <= bound <= ROOM,
        ensures
            final(points)@.len() == self@.len(),
            forall|seat: int|
                0 <= seat < self@.len() ==> #[trigger] final(points)@[seat] == old(points)@[seat]
                    + pudding_points(self@, seat),
            bounded(final(points)@, bound + STEP),
    {
        let pair: (i128, i128) = if self.states.len() == 2 {
            (6, 0)
        } else {
            (6, -6)
        };
        assert(ranked_counts(Ranked::Pudding, self@) =~= pudding_counts(self@));
        self.add_most_fewest_points(points, pair, Ranked::Pudding, Ghost(bound));
    }

    fn get_points_for_fruit_count(count: usize) -> (gained: i128)
        ensures
            gained == points_for_fruit_count(count as nat),
    {
        match count {
            0 => -2,
            1 => 0,
            2 => 1,
            3 => 3,
            4 => 6,
            _ => 10,
        }
    }

    fn add_fruit_points(&self, points: &mut Vec<i128>, Ghost(bound): Ghost<int>)
        requires
            self.wf(),
            old(points)@.len() == self@.len(),
            bounded(old(points)@, bound),
            0 <= bound <= ROOM,
        ensures
            final(points)@.len() == self@.len(),
            forall|seat: int|
                0 <= seat < self@.len() ==> #[trigger] final(points)@[seat] == old(points)@[seat]
                    + fruit_points(self@[seat]),
            bounded(final(points)@, bound + STEP),
    {
        self.add_simple_points(points, SimpleRule::Fruit, Ghost(bound));
    }

    /// What `rule` pays the seat with the counters `state`.
    fn points_by_rule(state: &PointCalculatorPlayerState, rule: SimpleRule) -> (gained: i128)
        requires
            state.wf(),
            rule matches SimpleRule::Edamame(each) ==> -1 <= each <= 4,
        ensures
            gained == rule_points(rule, state@),
            -STEP <= gained <= STEP,
    {
        match rule {
            SimpleRule::Dumpling => match state.dumpling_count() {
                0 => 0,
                1 => 1,
                2 => 3,
                3 => 6,
                4 => 10,
                _ => 15,
            },
            SimpleRule::Edamame(each) => {
                let count = state.edamame_count() as i128;
                assert(-STEP <= count * each <= STEP) by (nonlinear_arith)
                    requires
                        0 <= count <= 0xffff_ffff_ffff_ffff,
                        -1 <= each <= 4,
                ;
                count * each
            },
            SimpleRule::Eel => match state.eel_count() {
                0 => 0,
                1 => -3,
                _ => 7,
            },
            SimpleRule::Onigiri => match state.onigiri_shapes() {
                0 => 0,
                1 => 1,
                2 => 4,
                3 => 9,
                _ => 16,
            },
            SimpleRule::Miso => (state.miso_count() as i128) * 3,
            SimpleRule::Sashimi => (state.sashimi_count() as i128) / 3 * 10,
            SimpleRule::Tempura => (state.tempura_count() as i128) / 2 * 5,
            SimpleRule::Tofu => match state.tofu_count() {
                1 => 2,
                2 => 6,
                _ => 0,
            },
            SimpleRule::TakeoutBox => (state.taken_out_count() as i128) * 2,
            SimpleRule::IceCream => (state.ice_cream_count() as i128) / 4 * 12,
            SimpleRule::Fruit => {
                let (a, b, c) = state.fruits_counts();
                Self::get_points_for_fruit_count(a) + Self::get_points_for_fruit_count(b)
                    + Self::get_points_for_fruit_count(c)
            },
        }
    }

    /// Adds to each seat's points what `rule` pays it.
    fn add_simple_points(&self, points: &mut Vec<i128>, rule: SimpleRule, Ghost(bound): Ghost<int>)
        requires
            self.wf(),
            old(points)@.len() == self@.len(),
            bounded(old(points)@, bound),
            0 <= bound <= ROOM,
            rule matches SimpleRule::Edamame(each) ==> -1 <= each <= 4,
        ensures
            final(points)@.len() == self@.len(),
            forall|seat: int|
                0 <= seat < self@.len() ==> #[trigger] final(points)@[seat] == old(points)@[seat]
                    + rule_points(rule, self@[seat]),
            bounded(final(points)@, bound + STEP),
    {
        let ghost before = points@;
        let mut i: usize = 0;
        while i < self.states.len()
            invariant
                i <= self.states@.len(),
                self.wf(),
                points@.len() == self.states@.len(),
                before.len() == self.states@.len(),
                bounded(before, bound),
                0 <= bound <= ROOM,
                rule matches SimpleRule::Edamame(each) ==> -1 <= each <= 4,
                forall|k: int|
                    0 <= k < i ==> #[trigger] points@[k] == before[k] + rule_points(rule, self@[k]),
                forall|k: int|
                    0 <= k < i ==> -STEP <= rule_points(rule, #[trigger] self@[k]) <= STEP,
                forall|k: int| i <= k < before.len() ==> #[trigger] points@[k] == before[k],
            decreases self.states@.len() - i,
        {
            let gained = Self::points_by_rule(&self.states[i], rule);
            assert(self@[i as int] == self.states@[i as int]@);
            points[i] = points[i] + gained;
            i += 1;
        }
    }

    /// Adds `pair.0` for every seat with the highest count and `pair.1` for
    /// every other seat with the lowest.
    fn add_most_fewest_points(
        &self,
        points: &mut Vec<i128>,
        pair: (i128, i128),
        which: Ranked,
        Ghost(bound): Ghost<int>,
    )
        requires
            old(points)@.len() == self@.len(),
            bounded(old(points)@, bound),
            0 <= bound <= ROOM,
            -6 <= pair.0 <= 6,
            -6 <= pair.1 <= 6,
        ensures
            final(points)@.len() == self@.len(),
            forall|seat: int|
                0 <= seat < self@.len() ==> #[trigger] final(points)@[seat] == old(points)@[seat]
                    + most_fewest_points(
                    ranked_counts(which, self@),
                    seat,
                    pair.0 as int,
                    pair.1 as int,
                ),
            bounded(final(points)@, bound + STEP),
    {
        let ghost before = points@;
        let ghost counts = ranked_counts(which, self@);
        let max_count = self.highest_ranked(which);
        let min_count = self.lowest_ranked(which);
        let mut i: usize = 0;
        while i < self.states.len()
            invariant
                i <= self.states@.len(),
                points@.len() == self.states@.len(),
                before.len() == self.states@.len(),
                bounded(before, bound),
                0 <= bound <= ROOM,
                -6 <= pair.0 <= 6,
                -6 <= pair.1 <= 6,
                counts == ranked_counts(which, self@),
                max_count == highest(counts),
                min_count == lowest(counts),
                forall|k: int|
                    0 <= k < i ==> #[trigger] points@[k] == before[k] + most_fewest_points(
                        counts,
                        k,
                        pair.0 as int,
                        pair.1 as int,
                    ),
                forall|k: int| i <= k < before.len() ==> #[trigger] points@[k] == before[k],
            decreases self.states@.len() - i,
        {
            let own = self.ranked(i, which);
            let gained: i128 = if own == max_count {
                pair.0
            } else if own == min_count {
                pair.1
            } else {
                0
            };
            points[i] = points[i] + gained;
            i += 1;
        }
    }

    /// What each seat scores in this pass, under the rules that `menu` puts
    /// in force.
    pub fn calculate_points(&self, menu: &Menu, end_of_round: bool) -> (points: Vec<isize>)
        requires
            self.wf(),
            points_fit(self@, menu@),
        ensures
            points@.len() == self@.len(),
            forall|seat: int|
                0 <= seat < self@.len() ==> #[trigger] points@[seat] == seat_points(
                    self@,
                    menu@,
                    seat,
                ),
    {
        let seats = self.states.len();
        let mut sums: Vec<i128> = Vec::new();
        let mut i: usize = 0;
        while i < seats
            invariant
                i <= seats,
                sums@.len() == i,
                forall|k: int| 0 <= k < i ==> #[trigger] sums@[k] == 0,
            decreases seats - i,
        {
            sums.push(0);
            i += 1;
        }
        let ghost s0 = sums@;
        self.add_nigiri_points(&mut sums, Ghost(0));
        let ghost s1 = sums@;
        self.add_maki_points(&mut sums, Ghost(1 * STEP));
        let ghost s2 = sums@;
        if menu.contains(&Card::Temaki) {
            self.add_temaki_points(&mut sums, Ghost(2 * STEP));
        }
        let ghost s3 = sums@;
        assert(bounded(s3, 3 * STEP));
        self.add_uramaki_points(end_of_round, &mut sums);
        self.add_dumpling_points(&mut sums, Ghost(3 * STEP));
        let ghost s4 = sums@;
        self.add_edamame_points(&mut sums, Ghost(4 * STEP));
        let ghost s5 = sums@;
        self.add_eel_points(&mut sums, Ghost(5 * STEP));
        let ghost s6 = sums@;
        self.add_onigiri_points(&mut sums, Ghost(6 * STEP));
        let ghost s7 = sums@;
        self.add_simple_points(&mut sums, SimpleRule::Miso, Ghost(7 * STEP));
        let ghost s8 = sums@;
        self.add_simple_points(&mut sums, SimpleRule::Sashimi, Ghost(8 * STEP));
        let ghost s9 = sums@;
        self.add_simple_points(&mut sums, SimpleRule::Tempura, Ghost(9 * STEP));
        let ghost s10 = sums@;
        self.add_tofu_points(&mut sums, Ghost(10 * STEP));
        let ghost s11 = sums@;
        self.add_soy_sauce_points(&mut sums);
        self.add_simple_points(&mut sums, SimpleRule::TakeoutBox, Ghost(11 * STEP));
        let ghost s12 = sums@;
        self.add_tea_points(&mut sums);
        self.add_simple_points(&mut sums, SimpleRule::IceCream, Ghost(12 * STEP));
        let ghost s13 = sums@;
        if menu.contains(&Card::Pudding) {
            self.add_pudding_points(&mut sums, Ghost(13 * STEP));
        }
        let ghost s14 = sums@;
        assert(bounded(s14, 14 * STEP));
        if has_fruit(menu) {
            self.add_fruit_points(&mut sums, Ghost(14 * STEP));
        }
        let ghost s15 = sums@;
        proof {
            assert forall|seat: int| 0 <= seat < self@.len() implies #[trigger] s15[seat]
                == seat_points(self@, menu@, seat) by {
                assert(s0[seat] == 0);
                assert(s1[seat] == s0[seat] + self@[seat].nigiri_points);
                assert(s2[seat] == s1[seat] + maki_points(self@, seat));
                assert(s3[seat] == s2[seat] + if menu@.contains(Card::Temaki) {
                    temaki_points(self@, seat)
                } else {
                    0
                });
                assert(s4[seat] == s3[seat] + dumpling_points(self@[seat].dumpling_count));
                assert(s5[seat] == s4[seat] + edamame_points(self@, seat));
                assert(s6[seat] == s5[seat] + eel_points(self@[seat].eel_count));
                assert(s7[seat] == s6[seat] + onigiri_points(self@[seat].onigiri_shapes()));
                assert(s8[seat] == s7[seat] + self@[seat].miso_count * 3);
                assert(s9[seat] == s8[seat] + self@[seat].sashimi_count / 3 * 10);
                assert(s10[seat] == s9[seat] + self@[seat].tempura_count / 2 * 5);
                assert(s11[seat] == s10[seat] + tofu_points(self@[seat].tofu_count));
                assert(s12[seat] == s11[seat] + self@[seat].taken_out_count * 2);
                assert(s13[seat] == s12[seat] + self@[seat].ice_cream_count / 4 * 12);
                assert(s14[seat] == s13[seat] + if menu@.contains(Card::Pudding) {
                    pudding_points(self@, seat)
                } else {
                    0
                });
                assert(s15[seat] == s14[seat] + if menu_has_fruit(menu@) {
                    fruit_points(self@[seat])
                } else {
                    0
                });
            }
        }
        let mut points: Vec<isize> = Vec::new();
        let mut seat: usize = 0;
        while seat < seats
            invariant
                seat <= seats,
                seats == self@.len(),
                sums@.len() == seats,
                points@.len() == seat,
                points_fit(self@, menu@),
                forall|k: int|
                    0 <= k < seats ==> #[trigger] sums@[k] == seat_points(self@, menu@, k),
                forall|k: int|
                    0 <= k < seat ==> #[trigger] points@[k] == seat_points(self@, menu@, k),
            decreases seats - seat,
        {
            let total = sums[seat];
            assert(isize::MIN <= seat_points(self@, menu@, seat as int) <= isize::MAX);
            points.push(total as isize);
            seat += 1;
        }
        points
    }

    /// Number of seats whose uramaki reach the score that counts.
    pub fn has_uramaki_scores(&self) -> (n: usize)
        ensures
            n == seats_with_uramaki(self@),
    {
        let mut n: usize = 0;
        let mut i: usize = 0;
        while i < self.states.len()
            invariant
                i <= self.states@.len(),
                n <= i,
                n == seats_with_uramaki(self@.take(i as int)),
            decreases self.states@.len() - i,
        {
            assert(self@.take(i + 1).drop_last() =~= self@.take(i as int));
            if self.states[i].has_uramaki_score() {
                n += 1;
            }
            i += 1;
        }
        assert(self@.take(i as int) =~= self@);
        n
    }
}

} // verus!
