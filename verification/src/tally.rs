//! What one seat has put on the table, counted by category.

use vstd::prelude::*;
use crate::cards::{Card, CardColor};
use crate::card_set::CardVec;
use crate::error::GameError;

verus! {

/// The counters kept for one seat while its played cards are gone through.
pub struct Tally {
    /// Points of the nigiri played, each tripled where a wasabi was waiting.
    pub nigiri_points: nat,
    /// Wasabi played and not yet used up by a nigiri.
    pub wasabi_stack: nat,
    pub maki_score: nat,
    pub temaki_count: nat,
    pub uramaki_score: nat,
    pub dumpling_count: nat,
    pub edamame_count: nat,
    pub eel_count: nat,
    /// The onigiri shapes played, each once however often it was played.
    pub onigiri_present: Set<(bool, bool)>,
    pub miso_count: nat,
    pub sashimi_count: nat,
    pub tempura_count: nat,
    pub tofu_count: nat,
    pub soy_sauce_count: nat,
    pub taken_out_count: nat,
    pub tea_count: nat,
    /// Cards played of each colour; a colour not played has no entry.
    pub color_counts: Map<CardColor, nat>,
    pub ice_cream_count: nat,
    pub pudding_count: nat,
    /// The sum, for each of the three fruits, of what the fruit cards show.
    pub fruits_counts: (nat, nat, nat),
}

impl Tally {
    /// The tally of a seat that has played nothing.
    pub open spec fn empty() -> Tally {
        Tally {
            nigiri_points: 0,
            wasabi_stack: 0,
            maki_score: 0,
            temaki_count: 0,
            uramaki_score: 0,
            dumpling_count: 0,
            edamame_count: 0,
            eel_count: 0,
            onigiri_present: Set::empty(),
            miso_count: 0,
            sashimi_count: 0,
            tempura_count: 0,
            tofu_count: 0,
            soy_sauce_count: 0,
            taken_out_count: 0,
            tea_count: 0,
            color_counts: Map::empty(),
            ice_cream_count: 0,
            pudding_count: 0,
            fruits_counts: (0, 0, 0),
        }
    }

    /// Cards of `color` counted so far.
    pub open spec fn color_count(self, color: CardColor) -> nat {
        if self.color_counts.contains_key(color) {
            self.color_counts[color]
        } else {
            0
        }
    }

    /// Number of different onigiri shapes counted so far.
    pub open spec fn onigiri_shapes(self) -> nat {
        let one = |shape: (bool, bool)|
            if self.onigiri_present.contains(shape) {
                1nat
            } else {
                0nat
            };
        one((false, false)) + one((false, true)) + one((true, false)) + one((true, true))
    }

    /// No counter is above `limit`.
    pub open spec fn within(self, limit: nat) -> bool {
        &&& self.nigiri_points <= limit
        &&& self.wasabi_stack <= limit
        &&& self.maki_score <= limit
        &&& self.temaki_count <= limit
        &&& self.uramaki_score <= limit
        &&& self.dumpling_count <= limit
        &&& self.edamame_count <= limit
        &&& self.eel_count <= limit
        &&& self.miso_count <= limit
        &&& self.sashimi_count <= limit
        &&& self.tempura_count <= limit
        &&& self.tofu_count <= limit
        &&& self.soy_sauce_count <= limit
        &&& self.taken_out_count <= limit
        &&& self.tea_count <= limit
        &&& self.ice_cream_count <= limit
        &&& self.pudding_count <= limit
        &&& self.fruits_counts.0 <= limit
        &&& self.fruits_counts.1 <= limit
        &&& self.fruits_counts.2 <= limit
        &&& forall|color: CardColor| #[trigger] self.color_count(color) <= limit
    }

    /// Every counter can be held in a `usize`.
    pub open spec fn fits(self) -> bool {
        self.within(usize::MAX as nat)
    }
}

/// Whether the catalog prints `card`, so that it can be dealt: it has a
/// count, and the count is not zero.
pub open spec fn dealable(card: Card) -> bool {
    card.priced() && !(card is Fruit)
}

/// The most that one card that can be dealt adds to a counter: a squid
/// nigiri on wasabi.
pub const CARD_WEIGHT: usize = 9;

/// Counting cards that can be dealt into a tally raises no counter by more
/// than `CARD_WEIGHT` for each card.
pub proof fn lemma_tally_within(tally: Tally, cards: Seq<Card>, limit: nat)
    requires
        tally.within(limit),
        forall|k: int| 0 <= k < cards.len() ==> dealable(#[trigger] cards[k]),
    ensures
        tally_after_all(tally, cards).within(limit + CARD_WEIGHT as nat * cards.len()),
    decreases cards.len(),
{
    if cards.len() > 0 {
        let front = cards.drop_last();
        assert forall|k: int| 0 <= k < front.len() implies dealable(#[trigger] front[k]) by {
            assert(front[k] == cards[k]);
        }
        lemma_tally_within(tally, front, limit);
        let before = tally_after_all(tally, front);
        let reached = limit + CARD_WEIGHT as nat * front.len();
        assert(dealable(cards[cards.len() - 1]));
        let after = tally_after(before, cards.last());
        assert(after.within(reached + CARD_WEIGHT as nat)) by {
            assert forall|color: CardColor| #[trigger]
                after.color_count(color) <= reached + CARD_WEIGHT as nat by {
                assert(before.color_count(color) <= reached);
            }
        }
    }
}

/// A list of cards that can be dealt can be counted in from nothing as long
/// as `CARD_WEIGHT` times its length fits a `usize`.
pub proof fn lemma_countable(cards: Seq<Card>)
    requires
        forall|k: int| 0 <= k < cards.len() ==> dealable(#[trigger] cards[k]),
        CARD_WEIGHT * cards.len() <= usize::MAX,
    ensures
        countable_into(Tally::empty(), cards),
        tally_of(cards).within(CARD_WEIGHT as nat * cards.len()),
{
    assert(Tally::empty().within(0)) by {
        assert forall|color: CardColor| #[trigger] Tally::empty().color_count(color) <= 0 by {}
    }
    assert forall|k: int| 0 <= k <= cards.len() implies (#[trigger] tally_after_all(
        Tally::empty(),
        cards.take(k),
    )).fits() by {
        lemma_tally_within(Tally::empty(), cards.take(k), 0);
        let reached = tally_after_all(Tally::empty(), cards.take(k));
        assert(reached.within(CARD_WEIGHT as nat * k as nat));
        assert forall|color: CardColor| #[trigger] reached.color_count(color) <= usize::MAX by {
            assert(reached.color_count(color) <= CARD_WEIGHT as nat * k as nat);
        }
    }
    lemma_tally_within(Tally::empty(), cards, 0);
}

/// Whether `card` may lie on the table. A menu card and a special order
/// stand for a choice and are never played themselves.
pub open spec fn tabled(card: Card) -> bool {
    !(card is Menu) && !(card is SpecialOrder)
}

/// The tally once `card` has been counted in. A card that may not lie on the
/// table leaves the tally as it is.
pub open spec fn tally_after(tally: Tally, card: Card) -> Tally {
    if !tabled(card) {
        tally
    } else {
        let seen = Tally {
            color_counts: tally.color_counts.insert(
                card.color(),
                tally.color_count(card.color()) + 1,
            ),
            ..tally
        };
        match card {
            Card::Nigiri(rank) => if seen.wasabi_stack > 0 {
                Tally {
                    nigiri_points: seen.nigiri_points + (rank * 3) as nat,
                    wasabi_stack: (seen.wasabi_stack - 1) as nat,
                    ..seen
                }
            } else {
                Tally { nigiri_points: seen.nigiri_points + rank as nat, ..seen }
            },
            Card::Wasabi => Tally { wasabi_stack: seen.wasabi_stack + 1, ..seen },
            Card::Maki(rolls) => Tally { maki_score: seen.maki_score + rolls as nat, ..seen },
            Card::Temaki => Tally { temaki_count: seen.temaki_count + 1, ..seen },
            Card::Uramaki(rolls) => Tally {
                uramaki_score: seen.uramaki_score + rolls as nat,
                ..seen
            },
            Card::Dumpling => Tally { dumpling_count: seen.dumpling_count + 1, ..seen },
            Card::Edamame => Tally { edamame_count: seen.edamame_count + 1, ..seen },
            Card::Eel => Tally { eel_count: seen.eel_count + 1, ..seen },
            Card::Onigiri(a, b) => Tally {
                onigiri_present: seen.onigiri_present.insert((a, b)),
                ..seen
            },
            Card::MisoSoup => Tally { miso_count: seen.miso_count + 1, ..seen },
            Card::Sashimi => Tally { sashimi_count: seen.sashimi_count + 1, ..seen },
            Card::Tempura => Tally { tempura_count: seen.tempura_count + 1, ..seen },
            Card::Tofu => Tally { tofu_count: seen.tofu_count + 1, ..seen },
            Card::SoySauce => Tally { soy_sauce_count: seen.soy_sauce_count + 1, ..seen },
            Card::TakeoutBox(_) => Tally { taken_out_count: seen.taken_out_count + 1, ..seen },
            Card::Tea => Tally { tea_count: seen.tea_count + 1, ..seen },
            Card::GreenTeaIceCream => Tally {
                ice_cream_count: seen.ice_cream_count + 1,
                ..seen
            },
            Card::Pudding => Tally { pudding_count: seen.pudding_count + 1, ..seen },
            Card::Fruit(a, b, c) => Tally {
                fruits_counts: (
                    seen.fruits_counts.0 + a as nat,
                    seen.fruits_counts.1 + b as nat,
                    seen.fruits_counts.2 + c as nat,
                ),
                ..seen
            },
            Card::Chopsticks(_) | Card::Spoon(_) => seen,
            Card::Menu(_) | Card::SpecialOrder => tally,
        }
    }
}

/// The tally once `cards` have been counted in, first to last.
pub open spec fn tally_after_all(tally: Tally, cards: Seq<Card>) -> Tally
    decreases cards.len(),
{
    if cards.len() == 0 {
        tally
    } else {
        tally_after(tally_after_all(tally, cards.drop_last()), cards.last())
    }
}

/// The tally of a seat that has played `cards`, first to last.
pub open spec fn tally_of(cards: Seq<Card>) -> Tally {
    tally_after_all(Tally::empty(), cards)
}

/// Whether every card of `cards` may lie on the table.
pub open spec fn all_tabled(cards: Seq<Card>) -> bool {
    forall|k: int| 0 <= k < cards.len() ==> tabled(#[trigger] cards[k])
}

/// Whether `cards` can be counted into `tally` one by one without a counter
/// outgrowing a `usize` on the way.
pub open spec fn countable_into(tally: Tally, cards: Seq<Card>) -> bool {
    forall|k: int| 0 <= k <= cards.len() ==> (#[trigger] tally_after_all(tally, cards.take(k))).fits()
}

/// The place of a colour in the list of colours.
pub open spec fn color_slot(color: CardColor) -> int {
    match color {
        CardColor::NigiriYellow => 0,
        CardColor::MakiRed => 1,
        CardColor::TemakiPurple => 2,
        CardColor::UramakiGreen => 3,
        CardColor::DumplingBlue => 4,
        CardColor::EdamamePurple => 5,
        CardColor::EelPurple => 6,
        CardColor::OnigiriPink => 7,
        CardColor::MisoGreen => 8,
        CardColor::SashimiGreen => 9,
        CardColor::TempuraPurple => 10,
        CardColor::TofuGreen => 11,
        CardColor::ChopsticksBlue => 12,
        CardColor::MenuYellow => 13,
        CardColor::SoySauceOrange => 14,
        CardColor::SpoonGrey => 15,
        CardColor::SpecialOrderRainbow => 16,
        CardColor::TakeoutBoxBrown => 17,
        CardColor::TeaBrown => 18,
        CardColor::IceCreamBlue => 19,
        CardColor::FruitPink => 20,
        CardColor::PuddingPink => 21,
    }
}

/// Number of colours.
pub const COLORS: usize = 22;

fn color_place(color: CardColor) -> (slot: usize)
    ensures
        slot == color_slot(color),
        slot < COLORS,
{
    match color {
        CardColor::NigiriYellow => 0,
        CardColor::MakiRed => 1,
        CardColor::TemakiPurple => 2,
        CardColor::UramakiGreen => 3,
        CardColor::DumplingBlue => 4,
        CardColor::EdamamePurple => 5,
        CardColor::EelPurple => 6,
        CardColor::OnigiriPink => 7,
        CardColor::MisoGreen => 8,
        CardColor::SashimiGreen => 9,
        CardColor::TempuraPurple => 10,
        CardColor::TofuGreen => 11,
        CardColor::ChopsticksBlue => 12,
        CardColor::MenuYellow => 13,
        CardColor::SoySauceOrange => 14,
        CardColor::SpoonGrey => 15,
        CardColor::SpecialOrderRainbow => 16,
        CardColor::TakeoutBoxBrown => 17,
        CardColor::TeaBrown => 18,
        CardColor::IceCreamBlue => 19,
        CardColor::FruitPink => 20,
        CardColor::PuddingPink => 21,
    }
}

/// The histogram that a list of counts, one per colour, stands for.
pub open spec fn histogram(counts: Seq<usize>) -> Map<CardColor, nat> {
    Map::new(
        |color: CardColor| counts[color_slot(color)] > 0,
        |color: CardColor| counts[color_slot(color)] as nat,
    )
}

/// The counters of one seat, as the calculator keeps them.
#[derive(Clone, Debug)]
pub struct PointCalculatorPlayerState {
    nigiri_points: usize,
    wasabi_stack: usize,
    maki_score: usize,
    temaki_count: usize,
    uramaki_score: usize,
    dumpling_count: usize,
    edamame_count: usize,
    eel_count: usize,
    onigiri_plain: bool,
    onigiri_second: bool,
    onigiri_first: bool,
    onigiri_both: bool,
    miso_count: usize,
    sashimi_count: usize,
    tempura_count: usize,
    tofu_count: usize,
    soy_sauce_count: usize,
    taken_out_count: usize,
    tea_count: usize,
    color_counts: Vec<usize>,
    ice_cream_count: usize,
    pudding_count: usize,
    first_fruit: usize,
    second_fruit: usize,
    third_fruit: usize,
}

impl View for PointCalculatorPlayerState {
    type V = Tally;

    closed spec fn view(&self) -> Tally {
        Tally {
            nigiri_points: self.nigiri_points as nat,
            wasabi_stack: self.wasabi_stack as nat,
            maki_score: self.maki_score as nat,
            temaki_count: self.temaki_count as nat,
            uramaki_score: self.uramaki_score as nat,
            dumpling_count: self.dumpling_count as nat,
            edamame_count: self.edamame_count as nat,
            eel_count: self.eel_count as nat,
            onigiri_present: Set::new(|shape: (bool, bool)| self.has_shape(shape)),
            miso_count: self.miso_count as nat,
            sashimi_count: self.sashimi_count as nat,
            tempura_count: self.tempura_count as nat,
            tofu_count: self.tofu_count as nat,
            soy_sauce_count: self.soy_sauce_count as nat,
            taken_out_count: self.taken_out_count as nat,
            tea_count: self.tea_count as nat,
            color_counts: histogram(self.color_counts@),
            ice_cream_count: self.ice_cream_count as nat,
            pudding_count: self.pudding_count as nat,
            fruits_counts: (
                self.first_fruit as nat,
                self.second_fruit as nat,
                self.third_fruit as nat,
            ),
        }
    }
}

impl PointCalculatorPlayerState {
    /// Whether the flag for `shape` is set.
    closed spec fn has_shape(&self, shape: (bool, bool)) -> bool {
        if shape.0 {
            if shape.1 {
                self.onigiri_both
            } else {
                self.onigiri_first
            }
        } else {
            if shape.1 {
                self.onigiri_second
            } else {
                self.onigiri_plain
            }
        }
    }

    /// There is one colour count for each colour.
    pub closed spec fn wf(&self) -> bool {
        self.color_counts@.len() == COLORS
    }

    /// The state of a seat that has played nothing.
    pub fn new() -> (state: Self)
        ensures
            state.wf(),
            state@ == Tally::empty(),
    {
        let mut color_counts: Vec<usize> = Vec::new();
        let mut i: usize = 0;
        while i < COLORS
            invariant
                i <= COLORS,
                color_counts@.len() == i,
                forall|k: int| 0 <= k < i ==> color_counts@[k] == 0,
            decreases COLORS - i,
        {
            color_counts.push(0);
            i += 1;
        }
        let state = PointCalculatorPlayerState {
            nigiri_points: 0,
            wasabi_stack: 0,
            maki_score: 0,
            temaki_count: 0,
            uramaki_score: 0,
            dumpling_count: 0,
            edamame_count: 0,
            eel_count: 0,
            onigiri_plain: false,
            onigiri_second: false,
            onigiri_first: false,
            onigiri_both: false,
            miso_count: 0,
            sashimi_count: 0,
            tempura_count: 0,
            tofu_count: 0,
            soy_sauce_count: 0,
            taken_out_count: 0,
            tea_count: 0,
            color_counts,
            ice_cream_count: 0,
            pudding_count: 0,
            first_fruit: 0,
            second_fruit: 0,
            third_fruit: 0,
        };
        proof {
            assert(state@.onigiri_present =~= Set::<(bool, bool)>::empty());
            assert(state@.color_counts =~= Map::<CardColor, nat>::empty()) by {
                assert forall|color: CardColor| !histogram(state.color_counts@).contains_key(
                    color,
                ) by {
                    assert(0 <= color_slot(color) < COLORS);
                }
            }
        }
        state
    }

    pub fn nigiri_points(&self) -> (n: usize)
        ensures
            n == self@.nigiri_points,
    {
        self.nigiri_points
    }

    pub fn maki_score(&self) -> (n: usize)
        ensures
            n == self@.maki_score,
    {
        self.maki_score
    }

    pub fn temaki_count(&self) -> (n: usize)
        ensures
            n == self@.temaki_count,
    {
        self.temaki_count
    }

    pub fn dumpling_count(&self) -> (n: usize)
        ensures
            n == self@.dumpling_count,
    {
        self.dumpling_count
    }

    pub fn edamame_count(&self) -> (n: usize)
        ensures
            n == self@.edamame_count,
    {
        self.edamame_count
    }

    pub fn eel_count(&self) -> (n: usize)
        ensures
            n == self@.eel_count,
    {
        self.eel_count
    }

    /// Number of different onigiri shapes counted: at most four, as there
    /// are four shapes.
    pub fn onigiri_shapes(&self) -> (n: usize)
        ensures
            n == self@.onigiri_shapes(),
            n <= 4,
    {
        let mut n: usize = 0;
        if self.onigiri_plain {
            n += 1;
        }
        if self.onigiri_second {
            n += 1;
        }
        if self.onigiri_first {
            n += 1;
        }
        if self.onigiri_both {
            n += 1;
        }
        proof {
            assert(self@.onigiri_present.contains((false, false)) == self.has_shape((false, false)));
            assert(self@.onigiri_present.contains((false, true)) == self.has_shape((false, true)));
            assert(self@.onigiri_present.contains((true, false)) == self.has_shape((true, false)));
            assert(self@.onigiri_present.contains((true, true)) == self.has_shape((true, true)));
        }
        n
    }

    pub fn miso_count(&self) -> (n: usize)
        ensures
            n == self@.miso_count,
    {
        self.miso_count
    }

    pub fn sashimi_count(&self) -> (n: usize)
        ensures
            n == self@.sashimi_count,
    {
        self.sashimi_count
    }

    pub fn tempura_count(&self) -> (n: usize)
        ensures
            n == self@.tempura_count,
    {
        self.tempura_count
    }

    pub fn tofu_count(&self) -> (n: usize)
        ensures
            n == self@.tofu_count,
    {
        self.tofu_count
    }

    pub fn taken_out_count(&self) -> (n: usize)
        ensures
            n == self@.taken_out_count,
    {
        self.taken_out_count
    }

    pub fn ice_cream_count(&self) -> (n: usize)
        ensures
            n == self@.ice_cream_count,
    {
        self.ice_cream_count
    }

    pub fn pudding_count(&self) -> (n: usize)
        ensures
            n == self@.pudding_count,
    {
        self.pudding_count
    }

    pub fn fruits_counts(&self) -> (n: (usize, usize, usize))
        ensures
            n.0 == self@.fruits_counts.0,
            n.1 == self@.fruits_counts.1,
            n.2 == self@.fruits_counts.2,
    {
        (self.first_fruit, self.second_fruit, self.third_fruit)
    }

    /// Counts `card` in; refuses a card that may not lie on the table and
    /// then changes nothing.
    pub fn apply_card(&mut self, card: Card) -> (done: Result<(), GameError>)
        requires
            old(self).wf(),
            tally_after(old(self)@, card).fits(),
        ensures
            final(self).wf(),
            final(self)@ == tally_after(old(self)@, card),
            done is Ok <==> tabled(card),
            done matches Err(e) ==> e == GameError::InternalInvariantViolation,
    {
        let ghost before = *self;
        let ghost goal = tally_after(before@, card);
        match card {
            Card::Menu(_) | Card::SpecialOrder => {
                return Err(GameError::InternalInvariantViolation);
            },
            _ => {},
        }
        let slot = color_place(card.get_color());
        proof {
            assert(goal.color_count(card.color()) == before@.color_count(card.color()) + 1);
        }
        let seen = self.color_counts[slot];
        self.color_counts[slot] = seen + 1;
        match card {
            Card::Nigiri(rank) => {
                if self.wasabi_stack > 0 {
                    self.wasabi_stack -= 1;
                    self.nigiri_points += rank * 3;
                } else {
                    self.nigiri_points += rank;
                }
            },
            Card::Wasabi => {
                self.wasabi_stack += 1;
            },
            Card::Maki(rolls) => {
                self.maki_score += rolls;
            },
            Card::Temaki => {
                self.temaki_count += 1;
            },
            Card::Uramaki(rolls) => {
                self.uramaki_score += rolls;
            },
            Card::Dumpling => {
                self.dumpling_count += 1;
            },
            Card::Edamame => {
                self.edamame_count += 1;
            },
            Card::Eel => {
                self.eel_count += 1;
            },
            Card::Onigiri(a, b) => {
                if a {
                    if b {
                        self.onigiri_both = true;
                    } else {
                        self.onigiri_first = true;
                    }
                } else {
                    if b {
                        self.onigiri_second = true;
                    } else {
                        self.onigiri_plain = true;
                    }
                }
            },
            Card::MisoSoup => {
                self.miso_count += 1;
            },
            Card::Sashimi => {
                self.sashimi_count += 1;
            },
            Card::Tempura => {
                self.tempura_count += 1;
            },
            Card::Tofu => {
                self.tofu_count += 1;
            },
            Card::SoySauce => {
                self.soy_sauce_count += 1;
            },
            Card::TakeoutBox(_) => {
                self.taken_out_count += 1;
            },
            Card::Tea => {
                self.tea_count += 1;
            },
            Card::GreenTeaIceCream => {
                self.ice_cream_count += 1;
            },
            Card::Pudding => {
                self.pudding_count += 1;
            },
            Card::Fruit(a, b, c) => {
                self.first_fruit += a;
                self.second_fruit += b;
                self.third_fruit += c;
            },
            Card::Chopsticks(_) | Card::Spoon(_) => {},
            Card::Menu(_) | Card::SpecialOrder => {},
        }
        proof {
            assert(self@.color_counts =~= goal.color_counts) by {
                assert forall|color: CardColor|
                    histogram(self.color_counts@).contains_key(color)
                        == goal.color_counts.contains_key(color) && (histogram(
                        self.color_counts@,
                    ).contains_key(color) ==> histogram(self.color_counts@)[color]
                        == goal.color_counts[color]) by {
                    assert(0 <= color_slot(color) < COLORS);
                    assert(color_slot(color) == color_slot(card.color()) ==> color
                        == card.color());
                }
            }
            assert(self@.onigiri_present =~= goal.onigiri_present);
        }
        Ok(())
    }

    /// Counts `cards` in, first to last; refuses them all, and changes
    /// nothing, where one of them may not lie on the table.
    pub fn apply_cards(&mut self, played_cards: &CardVec) -> (done: Result<(), GameError>)
        requires
            old(self).wf(),
            all_tabled(played_cards@) ==> countable_into(old(self)@, played_cards@),
        ensures
            final(self).wf(),
            done is Ok <==> all_tabled(played_cards@),
            done is Ok ==> final(self)@ == tally_after_all(old(self)@, played_cards@),
            done matches Err(e) ==> e == GameError::InternalInvariantViolation && final(self)@
                == old(self)@,
    {
        let mut k: usize = 0;
        while k < played_cards.len()
            invariant
                k <= played_cards@.len(),
                *self == *old(self),
                self.wf(),
                forall|j: int| 0 <= j < k ==> tabled(#[trigger] played_cards@[j]),
            decreases played_cards@.len() - k,
        {
            match played_cards[k] {
                Card::Menu(_) | Card::SpecialOrder => {
                    return Err(GameError::InternalInvariantViolation);
                },
                _ => {},
            }
            k += 1;
        }
        let ghost before = self@;
        let mut i: usize = 0;
        assert(played_cards@.take(0) =~= Seq::<Card>::empty());
        while i < played_cards.len()
            invariant
                i <= played_cards@.len(),
                self.wf(),
                all_tabled(played_cards@),
                countable_into(before, played_cards@),
                self@ == tally_after_all(before, played_cards@.take(i as int)),
            decreases played_cards@.len() - i,
        {
            proof {
                assert(played_cards@.take(i + 1).drop_last() =~= played_cards@.take(i as int));
                assert(tally_after_all(before, played_cards@.take(i + 1)).fits());
            }
            let _ = self.apply_card(played_cards[i]);
            i += 1;
        }
        assert(played_cards@.take(i as int) =~= played_cards@);
        Ok(())
    }

    /// Whether the uramaki played so far reach the score that counts: 10.
    pub fn has_uramaki_score(&self) -> (reached: bool)
        ensures
            reached == (self@.uramaki_score >= 10),
    {
        self.uramaki_score >= 10
    }
}

} // verus!
