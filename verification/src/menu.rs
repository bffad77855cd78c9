//! The menu: the card kinds in play for a game.

use vstd::prelude::*;
use crate::cards::Card;

verus! {

/// The set of cards chosen for a game. It decides which cards are printed
/// into the deck and which of the optional scoring rules apply.
#[derive(Clone, Debug)]
pub struct Menu {
    cards: Vec<Card>,
}

impl View for Menu {
    type V = Set<Card>;

    closed spec fn view(&self) -> Set<Card> {
        self.cards@.to_set()
    }
}

impl Menu {
    /// No card is listed twice.
    pub closed spec fn wf(&self) -> bool {
        self.cards@.no_duplicates()
    }

    /// The cards in the order they were put on the menu.
    pub closed spec fn listing(&self) -> Seq<Card> {
        self.cards@
    }

    /// The listing holds each card of the menu once, and nothing else.
    pub proof fn lemma_listing(&self)
        ensures
            self.wf() ==> self.listing().no_duplicates(),
            forall|card: Card| self@.contains(card) <==> self.listing().contains(card),
    {
    }

    pub fn new() -> (menu: Menu)
        ensures
            menu.wf(),
            menu@ == Set::<Card>::empty(),
            menu.listing() == Seq::<Card>::empty(),
    {
        let menu = Menu { cards: Vec::new() };
        assert(menu.cards@.to_set() =~= Set::<Card>::empty());
        menu
    }

    /// The menu of the given cards; one named twice is listed once.
    pub fn from_cards(cards: &[Card]) -> (menu: Menu)
        ensures
            menu.wf(),
            menu@ == cards@.to_set(),
    {
        let mut menu = Menu::new();
        let mut i: usize = 0;
        while i < cards.len()
            invariant
                i <= cards@.len(),
                menu.wf(),
                menu@ == cards@.take(i as int).to_set(),
            decreases cards@.len() - i,
        {
            let _ = menu.insert(cards[i]);
            assert(cards@.take(i + 1).to_set() =~= cards@.take(i as int).to_set().insert(
                cards@[i as int],
            )) by {
                let prefix = cards@.take(i as int);
                let longer = cards@.take(i + 1);
                assert(longer =~= prefix.push(cards@[i as int]));
                assert forall|c: Card| longer.contains(c) <==> prefix.contains(c) || c
                    == cards@[i as int] by {
                    if prefix.contains(c) {
                        let k = choose|k: int| 0 <= k < prefix.len() && prefix[k] == c;
                        assert(longer[k] == c);
                    }
                    if c == cards@[i as int] {
                        assert(longer[i as int] == c);
                    }
                }
            }
            i += 1;
        }
        assert(cards@.take(i as int) =~= cards@);
        menu
    }

    pub fn len(&self) -> (n: usize)
        ensures
            n == self.listing().len(),
    {
        self.cards.len()
    }

    /// The card at place `index` of the listing.
    pub fn card(&self, index: usize) -> (card: Card)
        requires
            index < self.listing().len(),
        ensures
            card == self.listing()[index as int],
    {
        self.cards[index]
    }

    pub fn contains(&self, card: &Card) -> (found: bool)
        ensures
            found == self@.contains(*card),
    {
        let mut i: usize = 0;
        while i < self.cards.len()
            invariant
                i <= self.cards@.len(),
                forall|k: int| 0 <= k < i ==> self.cards@[k] != *card,
            decreases self.cards@.len() - i,
        {
            if self.cards[i] == *card {
                return true;
            }
            i += 1;
        }
        false
    }

    /// Puts `card` on the menu. Returns whether it was new.
    pub fn insert(&mut self, card: Card) -> (fresh: bool)
        requires
            old(self).wf(),
        ensures
            final(self).wf(),
            final(self)@ == old(self)@.insert(card),
            fresh == !old(self)@.contains(card),
            final(self).listing() == if fresh {
                old(self).listing().push(card)
            } else {
                old(self).listing()
            },
    {
        if self.contains(&card) {
            assert(self.cards@.to_set() =~= self.cards@.to_set().insert(card));
            false
        } else {
            let ghost before = self.cards@;
            self.cards.push(card);
            assert(self.cards@.to_set() =~= before.to_set().insert(card)) by {
                assert forall|c: Card| self.cards@.contains(c) <==> before.contains(c) || c
                    == card by {
                    if before.contains(c) {
                        let k = choose|k: int| 0 <= k < before.len() && before[k] == c;
                        assert(self.cards@[k] == c);
                    }
                    if c == card {
                        assert(self.cards@[before.len() as int] == c);
                    }
                }
            }
            true
        }
    }
}

/// Whether any fruit card is on the menu.
pub open spec fn menu_has_fruit(menu: Set<Card>) -> bool {
    exists|card: Card| menu.contains(card) && card is Fruit
}

pub fn has_fruit(menu: &Menu) -> (found: bool)
    ensures
        found == menu_has_fruit(menu@),
{
    let mut i: usize = 0;
    while i < menu.len()
        invariant
            i <= menu.listing().len(),
            forall|k: int| 0 <= k < i ==> !(menu.listing()[k] is Fruit),
        decreases menu.listing().len() - i,
    {
        match menu.card(i) {
            Card::Fruit(_, _, _) => {
                proof {
                    menu.lemma_listing();
                    assert(menu.listing().contains(menu.listing()[i as int]));
                }
                return true;
            },
            _ => {},
        }
        i += 1;
    }
    proof {
        menu.lemma_listing();
    }
    false
}

} // verus!
