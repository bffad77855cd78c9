//! The bag of cards: a hand, or the deck of a round.

use vstd::prelude::*;
use vstd::multiset::Multiset;
use crate::cards::{Card, valid_round, valid_seat_count};
use crate::error::GameError;
use crate::menu::Menu;
use crate::random::RandomSource;

verus! {

broadcast use vstd::multiset::group_multiset_axioms;

pub type CardVec = Vec<Card>;

/// The bag that holds `card` `n` times and nothing else.
pub open spec fn copies(card: Card, n: nat) -> Multiset<Card>
    decreases n,
{
    if n == 0 {
        Multiset::empty()
    } else {
        copies(card, (n - 1) as nat).insert(card)
    }
}

/// The bag that a list of (card, count) entries stands for.
pub open spec fn bag_of(entries: Seq<(Card, usize)>) -> Multiset<Card>
    decreases entries.len(),
{
    if entries.len() == 0 {
        Multiset::empty()
    } else {
        bag_of(entries.drop_last()).add(copies(entries.last().0, entries.last().1 as nat))
    }
}

/// The cards of a list of entries laid out one by one: each entry in turn,
/// its card as often as its count says.
pub open spec fn flat_of(entries: Seq<(Card, usize)>) -> Seq<Card>
    decreases entries.len(),
{
    if entries.len() == 0 {
        Seq::empty()
    } else {
        flat_of(entries.drop_last()) + Seq::new(
            entries.last().1 as nat,
            |i: int| entries.last().0,
        )
    }
}

/// The sum of the counts of a list of entries.
pub open spec fn entries_total(entries: Seq<(Card, usize)>) -> nat
    decreases entries.len(),
{
    if entries.len() == 0 {
        0
    } else {
        entries_total(entries.drop_last()) + entries.last().1 as nat
    }
}

/// Whether the catalog can say how many copies of `card` go into the deck
/// of `round` for `players` seats.
pub open spec fn countable(card: Card, players: int, round: int) -> bool {
    valid_seat_count(players) && valid_round(round) && card.priced()
}

/// Copies of `card` in the deck that `menu` gives for `players` seats in
/// `round`.
pub open spec fn deck_count(menu: Set<Card>, card: Card, players: int, round: int) -> int {
    if menu.contains(card) {
        card.print_count(players, round)
    } else {
        0
    }
}

/// Number of cards in the deck that the cards of `listing` give for
/// `players` seats in `round`.
pub open spec fn deck_size(listing: Seq<Card>, players: int, round: int) -> int
    decreases listing.len(),
{
    if listing.len() == 0 {
        0
    } else {
        deck_size(listing.drop_last(), players, round) + listing.last().print_count(
            players,
            round,
        )
    }
}

/// Every entry counts at least one card, and no card has two entries.
pub open spec fn entries_wf(entries: Seq<(Card, usize)>) -> bool {
    &&& forall|i: int| 0 <= i < entries.len() ==> (#[trigger] entries[i]).1 >= 1
    &&& forall|i: int, j: int|
        0 <= i < j < entries.len() ==> (#[trigger] entries[i]).0 != (#[trigger] entries[j]).0
}

/// `copies(card, n)` has `n` cards, all of them `card`.
pub proof fn lemma_copies(card: Card, n: nat)
    ensures
        copies(card, n).len() == n,
        copies(card, n).count(card) == n,
        forall|other: Card| other != card ==> copies(card, n).count(other) == 0,
    decreases n,
{
    if n > 0 {
        lemma_copies(card, (n - 1) as nat);
    }
}

/// A card without an entry is not in the bag; a card with an entry is in it
/// as often as the entry says.
pub proof fn lemma_bag_counts(entries: Seq<(Card, usize)>, card: Card)
    requires
        entries_wf(entries),
    ensures
        (forall|i: int| 0 <= i < entries.len() ==> (#[trigger] entries[i]).0 != card)
            ==> bag_of(entries).count(card) == 0,
        forall|i: int|
            0 <= i < entries.len() && (#[trigger] entries[i]).0 == card ==> bag_of(
                entries,
            ).count(card) == entries[i].1,
    decreases entries.len(),
{
    if entries.len() > 0 {
        let front = entries.drop_last();
        let last = entries.last();
        assert(entries_wf(front)) by {
            assert forall|i: int| 0 <= i < front.len() implies (#[trigger] front[i]).1 >= 1 by {
                assert(front[i] == entries[i]);
            }
        }
        lemma_bag_counts(front, card);
        lemma_copies(last.0, last.1 as nat);
        assert forall|i: int| 0 <= i < front.len() implies (#[trigger] front[i]).0 != last.0 by {
            assert(front[i] == entries[i]);
        }
        if last.0 == card {
            assert(bag_of(front).count(card) == 0);
        } else {
            assert forall|i: int|
                0 <= i < entries.len() && (#[trigger] entries[i]).0 == card implies bag_of(
                entries,
            ).count(card) == entries[i].1 by {
                assert(front[i] == entries[i]);
            }
        }
    }
}

/// A bag has as many cards as its entries count together.
pub proof fn lemma_bag_len(entries: Seq<(Card, usize)>)
    ensures
        bag_of(entries).len() == entries_total(entries),
    decreases entries.len(),
{
    if entries.len() > 0 {
        lemma_bag_len(entries.drop_last());
        lemma_copies(entries.last().0, entries.last().1 as nat);
    }
}

/// The flat layout of a list of entries has the cards of its bag, each as
/// often as the bag has it.
pub proof fn lemma_flat_is_bag(entries: Seq<(Card, usize)>)
    ensures
        flat_of(entries).to_multiset() == bag_of(entries),
        flat_of(entries).len() == bag_of(entries).len(),
    decreases entries.len(),
{
    if entries.len() == 0 {
        assert(flat_of(entries).to_multiset() =~= Multiset::<Card>::empty()) by {
            vstd::seq_lib::to_multiset_len(flat_of(entries));
            vstd::multiset::lemma_multiset_empty_len(flat_of(entries).to_multiset());
        }
    } else {
        let front = entries.drop_last();
        let last = entries.last();
        let run = Seq::new(last.1 as nat, |i: int| last.0);
        lemma_flat_is_bag(front);
        lemma_run_is_copies(last.0, last.1 as nat);
        vstd::seq_lib::lemma_multiset_commutative(flat_of(front), run);
        lemma_copies(last.0, last.1 as nat);
    }
}

/// A run of `n` times the same card has the bag `copies(card, n)`.
proof fn lemma_run_is_copies(card: Card, n: nat)
    ensures
        Seq::new(n, |i: int| card).to_multiset() == copies(card, n),
    decreases n,
{
    let run = Seq::new(n, |i: int| card);
    if n == 0 {
        assert(run.to_multiset() =~= Multiset::<Card>::empty()) by {
            vstd::seq_lib::to_multiset_len(run);
            vstd::multiset::lemma_multiset_empty_len(run.to_multiset());
        }
    } else {
        let shorter = Seq::new((n - 1) as nat, |i: int| card);
        lemma_run_is_copies(card, (n - 1) as nat);
        assert(run =~= shorter.push(card));
        vstd::seq_lib::to_multiset_build(shorter, card);
    }
}

/// As many places of a sequence hold a card as its bag has copies of it.
proof fn lemma_filter_counts(cards: Seq<Card>, card: Card)
    ensures
        cards.filter(|drawn: Card| drawn == card).len() == cards.to_multiset().count(card),
    decreases cards.len(),
{
    reveal(Seq::filter);
    let same = |drawn: Card| drawn == card;
    if cards.len() == 0 {
        vstd::seq_lib::to_multiset_len(cards);
        vstd::multiset::lemma_multiset_empty_len(cards.to_multiset());
    } else {
        let front = cards.drop_last();
        lemma_filter_counts(front, card);
        assert(cards =~= front.push(cards.last()));
        vstd::seq_lib::to_multiset_build(front, cards.last());
    }
}

/// Within the flat layout, the cards of entry `k` start where the layout of
/// the entries before it ends.
pub proof fn lemma_flat_index(entries: Seq<(Card, usize)>, k: int, offset: int)
    requires
        0 <= k < entries.len(),
        0 <= offset < entries[k].1,
    ensures
        flat_of(entries.take(k)).len() + offset < flat_of(entries).len(),
        flat_of(entries)[flat_of(entries.take(k)).len() + offset] == entries[k].0,
    decreases entries.len(),
{
    let front = entries.drop_last();
    if k == entries.len() - 1 {
        assert(entries.take(k) =~= front);
    } else {
        assert(front.take(k) =~= entries.take(k));
        lemma_flat_index(front, k, offset);
    }
}

/// A bag of cards: which cards it holds, and how many of each.
#[derive(Clone, Debug)]
pub struct CardSet {
    set: Vec<(Card, usize)>,
    count: usize,
}

impl View for CardSet {
    type V = Multiset<Card>;

    closed spec fn view(&self) -> Multiset<Card> {
        bag_of(self.set@)
    }
}

impl CardSet {
    /// The entries of the bag, one per card it holds, in the order in which
    /// the cards first came in.
    pub closed spec fn entries(&self) -> Seq<(Card, usize)> {
        self.set@
    }

    /// No entry is empty, no card has two entries, and the stored total is
    /// the number of cards held.
    pub closed spec fn wf(&self) -> bool {
        &&& entries_wf(self.set@)
        &&& self.count == bag_of(self.set@).len()
    }

    /// The cards one by one, in the order of the entries.
    pub open spec fn flat(&self) -> Seq<Card> {
        flat_of(self.entries())
    }

    /// What the entries of a well-formed bag say of it.
    pub proof fn lemma_entries(&self)
        requires
            self.wf(),
        ensures
            entries_wf(self.entries()),
            self@ == bag_of(self.entries()),
            self.flat().to_multiset() == self@,
            self.flat().len() == self@.len(),
            self@.len() == entries_total(self.entries()),
            self@.len() <= usize::MAX,
    {
        lemma_flat_is_bag(self.set@);
        lemma_bag_len(self.set@);
    }

    /// Whatever is put into a bag and taken out of it, its length is the sum
    /// of the counts of its entries, and every entry counts at least one card.
    pub proof fn lemma_len_is_sum_of_entries(&self)
        requires
            self.wf(),
        ensures
            self@.len() == entries_total(self.entries()),
            forall|i: int|
                0 <= i < self.entries().len() ==> (#[trigger] self.entries()[i]).1 >= 1
                    && self@.count(self.entries()[i].0) == self.entries()[i].1,
    {
        lemma_bag_len(self.set@);
        assert forall|i: int| 0 <= i < self.set@.len() implies (#[trigger] self.set@[i]).1 >= 1
            && bag_of(self.set@).count(self.set@[i].0) == self.set@[i].1 by {
            lemma_bag_counts(self.set@, self.set@[i].0);
        }
    }

    /// Once the last copy of a card has been taken out, the bag does not
    /// hold the card: where `after` is `before` less one `card`, of which
    /// `before` held one.
    pub proof fn lemma_last_copy_removed(before: &CardSet, after: &CardSet, card: Card)
        requires
            before@.count(card) == 1,
            after@ == before@.remove(card),
        ensures
            after@.count(card) == 0,
            after@.len() == before@.len() - 1,
            forall|other: Card| other != card ==> after@.count(other) == before@.count(other),
    {
    }

    /// A draw by ordinal is weighted by the copies: among the ordinals below
    /// the length of the bag, as many pick a card as the bag holds copies of
    /// it.
    pub proof fn lemma_draw_weights(&self, card: Card)
        requires
            self.wf(),
        ensures
            self.flat().len() == self@.len(),
            self.flat().filter(|drawn: Card| drawn == card).len() == self@.count(card),
    {
        lemma_flat_is_bag(self.set@);
        lemma_filter_counts(self.flat(), card);
    }

    pub fn new() -> (set: Self)
        ensures
            set.wf(),
            set@ == Multiset::<Card>::empty(),
            set.entries() == Seq::<(Card, usize)>::empty(),
    {
        CardSet { set: Vec::new(), count: 0 }
    }

    /// The deck of a round: for each card on the menu, as many copies as the
    /// catalog prints of it. Fails where the catalog has no count for a card
    /// of the menu.
    pub fn from_menu(menu: &Menu, players: usize, round: usize) -> (deck: Result<Self, GameError>)
        requires
            menu.wf(),
            menu.listing().len() * 12 <= usize::MAX,
        ensures
            deck is Ok <==> forall|card: Card|
                menu@.contains(card) ==> countable(card, players as int, round as int),
            deck matches Ok(set) ==> set.wf() && set@.len() == deck_size(
                menu.listing(),
                players as int,
                round as int,
            ) && forall|card: Card| #[trigger]
                set@.count(card) == deck_count(menu@, card, players as int, round as int),
            deck matches Err(e) ==> e == GameError::ConfigurationError,
    {
        let mut set = CardSet::new();
        let mut i: usize = 0;
        proof {
            menu.lemma_listing();
        }
        while i < menu.len()
            invariant
                i <= menu.listing().len(),
                menu.listing().len() * 12 <= usize::MAX,
                menu.listing().no_duplicates(),
                forall|card: Card| menu@.contains(card) <==> menu.listing().contains(card),
                set.wf(),
                set@.len() <= i * 12,
                set@.len() == deck_size(menu.listing().take(i as int), players as int, round as int),
                forall|k: int|
                    0 <= k < i ==> countable(
                        #[trigger] menu.listing()[k],
                        players as int,
                        round as int,
                    ),
                forall|card: Card| #[trigger]
                    set@.count(card) == if menu.listing().take(i as int).contains(card) {
                        card.print_count(players as int, round as int)
                    } else {
                        0
                    },
            decreases menu.listing().len() - i,
        {
            let card = menu.card(i);
            assert(menu.listing().contains(card));
            match card.get_count(players, round) {
                Ok(copies_printed) => {
                    let ghost before = set@;
                    let ghost listed = menu.listing().take(i as int);
                    let ghost longer = menu.listing().take(i + 1);
                    set.add_cards(card, copies_printed);
                    proof {
                        lemma_copies(card, copies_printed as nat);
                        assert(longer =~= listed.push(card));
                        assert(longer.drop_last() =~= listed);
                        assert(!listed.contains(card));
                        assert forall|c: Card| longer.contains(c) <==> listed.contains(c) || c
                            == card by {
                            if listed.contains(c) {
                                let k = choose|k: int| 0 <= k < listed.len() && listed[k] == c;
                                assert(longer[k] == c);
                            }
                            if c == card {
                                assert(longer[i as int] == c);
                            }
                        }
                    }
                },
                Err(e) => {
                    return Err(e);
                },
            }
            i += 1;
        }
        proof {
            assert(menu.listing().take(i as int) =~= menu.listing());
            assert forall|card: Card| menu@.contains(card) implies countable(
                card,
                players as int,
                round as int,
            ) by {
                let k = choose|k: int| 0 <= k < menu.listing().len() && menu.listing()[k] == card;
                assert(countable(menu.listing()[k], players as int, round as int));
            }
        }
        Ok(set)
    }

    pub fn len(&self) -> (n: usize)
        requires
            self.wf(),
        ensures
            n == self@.len(),
    {
        self.count
    }

    /// The place of the entry for `card`, if it has one.
    fn find(&self, card: Card) -> (place: Option<usize>)
        ensures
            match place {
                Some(j) => j < self.set@.len() && self.set@[j as int].0 == card,
                None => forall|i: int| 0 <= i < self.set@.len() ==> (#[trigger] self.set@[i]).0 != card,
            },
    {
        let mut i: usize = 0;
        while i < self.set.len()
            invariant
                i <= self.set@.len(),
                forall|k: int| 0 <= k < i ==> (#[trigger] self.set@[k]).0 != card,
            decreases self.set@.len() - i,
        {
            if self.set[i].0 == card {
                return Some(i);
            }
            i += 1;
        }
        None
    }

    pub fn contains_card(&self, card: Card) -> (held: bool)
        requires
            self.wf(),
        ensures
            held == (self@.count(card) > 0),
    {
        proof {
            lemma_bag_counts(self.set@, card);
        }
        self.find(card).is_some()
    }

    /// Number of copies of `card` in the bag.
    pub fn count_of(&self, card: Card) -> (copies: usize)
        requires
            self.wf(),
        ensures
            copies == self@.count(card),
    {
        proof {
            lemma_bag_counts(self.set@, card);
        }
        match self.find(card) {
            Some(j) => self.set[j].1,
            None => 0,
        }
    }

    /// Whether the two bags hold the same cards, each as often: equality of
    /// bags, whatever the order in which the cards came in.
    pub fn same_cards(&self, other: &CardSet) -> (same: bool)
        requires
            self.wf(),
            other.wf(),
        ensures
            same == (self@ == other@),
    {
        let mut i: usize = 0;
        while i < self.set.len()
            invariant
                i <= self.set@.len(),
                self.wf(),
                other.wf(),
                forall|k: int|
                    0 <= k < i ==> other@.count((#[trigger] self.set@[k]).0) == self.set@[k].1,
            decreases self.set@.len() - i,
        {
            let card = self.set[i].0;
            proof {
                lemma_bag_counts(self.set@, card);
            }
            if other.count_of(card) != self.set[i].1 {
                assert(self@.count(card) != other@.count(card));
                return false;
            }
            i += 1;
        }
        let mut j: usize = 0;
        while j < other.set.len()
            invariant
                j <= other.set@.len(),
                self.wf(),
                other.wf(),
                forall|k: int|
                    0 <= k < self.set@.len() ==> other@.count((#[trigger] self.set@[k]).0)
                        == self.set@[k].1,
                forall|k: int|
                    0 <= k < j ==> self@.count((#[trigger] other.set@[k]).0) == other.set@[k].1,
            decreases other.set@.len() - j,
        {
            let card = other.set[j].0;
            proof {
                lemma_bag_counts(other.set@, card);
            }
            if self.count_of(card) != other.set[j].1 {
                assert(self@.count(card) != other@.count(card));
                return false;
            }
            j += 1;
        }
        proof {
            assert forall|card: Card| self@.count(card) == other@.count(card) by {
                lemma_bag_counts(self.set@, card);
                lemma_bag_counts(other.set@, card);
                if exists|k: int| 0 <= k < self.set@.len() && self.set@[k].0 == card {
                    let k = choose|k: int| 0 <= k < self.set@.len() && self.set@[k].0 == card;
                    assert(other@.count(self.set@[k].0) == self.set@[k].1);
                } else if exists|k: int| 0 <= k < other.set@.len() && other.set@[k].0 == card {
                    let k = choose|k: int| 0 <= k < other.set@.len() && other.set@[k].0 == card;
                    assert(self@.count(other.set@[k].0) == other.set@[k].1);
                }
            }
            assert(self@ =~= other@);
        }
        true
    }

    /// Puts `count` copies of `card` into the bag.
    pub fn add_cards(&mut self, card: Card, count: usize) -> (set: &mut Self)
        requires
            old(self).wf(),
            old(self)@.len() + count <= usize::MAX,
        ensures
            set.wf(),
            set@ == old(self)@.add(copies(card, count as nat)),
            *final(self) == *final(set),
    {
        let ghost before = self.set@;
        proof {
            lemma_bag_counts(before, card);
            lemma_copies(card, count as nat);
        }
        if count > 0 {
            match self.find(card) {
                Some(j) => {
                    let held = self.set[j].1;
                    self.set[j] = (card, held + count);
                },
                None => {
                    self.set.push((card, count));
                    assert(self.set@.drop_last() =~= before);
                },
            }
            self.count = self.count + count;
        }
        proof {
            let after = self.set@;
            assert(entries_wf(after));
            assert forall|c: Card|
                bag_of(after).count(c) == bag_of(before).count(c) + copies(
                    card,
                    count as nat,
                ).count(c) by {
                lemma_bag_counts(before, c);
                lemma_bag_counts(after, c);
                if c != card && exists|i: int| 0 <= i < before.len() && before[i].0 == c {
                    let i = choose|i: int| 0 <= i < before.len() && before[i].0 == c;
                    assert(after[i] == before[i]);
                }
            }
            assert(bag_of(after) =~= bag_of(before).add(copies(card, count as nat)));
        }
        self
    }

    pub fn add_card(&mut self, card: Card) -> (set: &mut Self)
        requires
            old(self).wf(),
            old(self)@.len() < usize::MAX,
        ensures
            set.wf(),
            set@ == old(self)@.insert(card),
            *final(self) == *final(set),
    {
        proof {
            lemma_copies(card, 1);
            assert(copies(card, 1) =~= Multiset::singleton(card));
        }
        self.add_cards(card, 1)
    }

    /// The bag with `count` more copies of `card`.
    pub fn with_cards(self, card: Card, count: usize) -> (set: Self)
        requires
            self.wf(),
            self@.len() + count <= usize::MAX,
        ensures
            set.wf(),
            set@ == self@.add(copies(card, count as nat)),
    {
        let mut set = self;
        set.add_cards(card, count);
        set
    }

    /// Takes one copy of `card` out of the bag, which must hold one.
    pub fn remove_card(&mut self, card: Card)
        requires
            old(self).wf(),
            old(self)@.count(card) > 0,
        ensures
            final(self).wf(),
            final(self)@ == old(self)@.remove(card),
    {
        let ghost before = self.set@;
        proof {
            lemma_bag_counts(before, card);
        }
        match self.find(card) {
            Some(j) => {
                let held = self.set[j].1;
                if held == 1 {
                    self.set.remove(j);
                } else {
                    self.set[j] = (card, held - 1);
                }
                self.count = self.count - 1;
                proof {
                    let after = self.set@;
                    assert(entries_wf(after));
                    assert forall|c: Card|
                        bag_of(after).count(c) == bag_of(before).remove(card).count(c) by {
                        lemma_bag_counts(before, c);
                        lemma_bag_counts(after, c);
                        if c != card && exists|i: int| 0 <= i < before.len() && before[i].0 == c {
                            let i = choose|i: int| 0 <= i < before.len() && before[i].0 == c;
                            if held == 1 && i > j {
                                assert(after[i - 1] == before[i]);
                            } else {
                                assert(after[i] == before[i]);
                            }
                        }
                    }
                    assert(bag_of(after) =~= bag_of(before).remove(card));
                }
            },
            None => {},
        }
    }

    /// The entries of the bag: each card it holds, once, with the number of
    /// copies held.
    pub fn iter(&self) -> (entries: Vec<(Card, usize)>)
        ensures
            entries@ == self.entries(),
    {
        let mut entries: Vec<(Card, usize)> = Vec::new();
        let mut i: usize = 0;
        while i < self.set.len()
            invariant
                i <= self.set@.len(),
                entries@ == self.set@.take(i as int),
            decreases self.set@.len() - i,
        {
            entries.push((self.set[i].0, self.set[i].1));
            assert(self.set@.take(i + 1) =~= self.set@.take(i as int).push(self.set@[i as int]));
            i += 1;
        }
        assert(self.set@.take(i as int) =~= self.set@);
        entries
    }

    /// The cards one by one: for each entry in turn, its card as often as
    /// the bag holds it.
    pub fn flatten(&self) -> (cards: CardVec)
        requires
            self.wf(),
        ensures
            cards@ == self.flat(),
            cards@.to_multiset() == self@,
            cards@.len() == self@.len(),
    {
        let mut cards: Vec<Card> = Vec::new();
        let mut i: usize = 0;
        while i < self.set.len()
            invariant
                i <= self.set@.len(),
                cards@ == flat_of(self.set@.take(i as int)),
            decreases self.set@.len() - i,
        {
            let card = self.set[i].0;
            let copies = self.set[i].1;
            let ghost start = cards@;
            let mut k: usize = 0;
            while k < copies
                invariant
                    k <= copies,
                    cards@ == start + Seq::new(k as nat, |n: int| card),
                decreases copies - k,
            {
                cards.push(card);
                assert(Seq::new((k + 1) as nat, |n: int| card) =~= Seq::new(
                    k as nat,
                    |n: int| card,
                ).push(card));
                k += 1;
            }
            assert(self.set@.take(i + 1).drop_last() =~= self.set@.take(i as int));
            i += 1;
        }
        assert(self.set@.take(i as int) =~= self.set@);
        proof {
            lemma_flat_is_bag(self.set@);
        }
        cards
    }

    /// The card at place `ordinal` of the flat layout: walking the entries in
    /// order, the one whose span of copies `ordinal` falls into.
    pub fn card_at(&self, ordinal: usize) -> (card: Option<Card>)
        requires
            self.wf(),
        ensures
            card == if ordinal < self@.len() {
                Some(self.flat()[ordinal as int])
            } else {
                None
            },
    {
        proof {
            lemma_flat_is_bag(self.set@);
        }
        let mut rest: usize = ordinal;
        let mut i: usize = 0;
        while i < self.set.len()
            invariant
                i <= self.set@.len(),
                rest + flat_of(self.set@.take(i as int)).len() == ordinal,
                flat_of(self.set@.take(i as int)).len() <= flat_of(self.set@).len(),
                flat_of(self.set@).len() == bag_of(self.set@).len(),
                entries_wf(self.set@),
            decreases self.set@.len() - i,
        {
            let held = self.set[i].1;
            if rest < held {
                proof {
                    lemma_flat_index(self.set@, i as int, rest as int);
                }
                return Some(self.set[i].0);
            }
            proof {
                assert(self.set@.take(i + 1).drop_last() =~= self.set@.take(i as int));
                lemma_flat_index(self.set@, i as int, held - 1);
            }
            rest -= held;
            i += 1;
        }
        assert(self.set@.take(i as int) =~= self.set@);
        None
    }

    /// A card drawn at random, each with a chance in proportion to its copies
    /// in the bag; none only from an empty bag.
    pub fn random_card(&self, rng: &mut RandomSource) -> (card: Option<Card>)
        requires
            self.wf(),
        ensures
            card is None <==> self@.len() == 0,
            card matches Some(c) ==> self@.count(c) > 0,
    {
        if self.count == 0 {
            return None;
        }
        let ordinal = rng.next_ordinal() % self.count;
        let card = self.card_at(ordinal);
        proof {
            self.lemma_entries();
            vstd::seq_lib::to_multiset_contains(self.flat(), self.flat()[ordinal as int]);
            assert(self.flat().contains(self.flat()[ordinal as int]));
        }
        card
    }
}

} // verus!
