//! The standings over many games: what each seat has scored in all, and how
//! often it has finished in which place.

use vstd::prelude::*;

verus! {

/// Whether no score before place `at` of `points` equals the one at `at`.
pub open spec fn first_of_its_value(points: Seq<isize>, at: int) -> bool {
    forall|k: int| 0 <= k < at ==> points[k] != points[at]
}

/// Number of different scores above `score` among the first `upto` of
/// `points`.
pub open spec fn distinct_above(points: Seq<isize>, score: int, upto: int) -> nat
    decreases upto,
{
    if upto <= 0 {
        0
    } else {
        distinct_above(points, score, upto - 1) + if points[upto - 1] > score
            && first_of_its_value(points, upto - 1) {
            1nat
        } else {
            0nat
        }
    }
}

/// The place in which `seat` finishes a game with `points`: 0 with the
/// highest score, and one more for each different score above its own.
/// Seats with the same score share a place.
pub open spec fn place_of(points: Seq<isize>, seat: int) -> nat {
    distinct_above(points, points[seat] as int, points.len() as int)
}

/// Fewer different scores lie above a score than there are scores, once one
/// of them is that score itself.
pub proof fn lemma_distinct_above(points: Seq<isize>, seat: int, upto: int)
    requires
        0 <= seat < points.len(),
        0 <= upto <= points.len(),
    ensures
        distinct_above(points, points[seat] as int, upto) <= upto,
        upto > seat ==> distinct_above(points, points[seat] as int, upto) < upto,
    decreases upto,
{
    if upto > 0 {
        lemma_distinct_above(points, seat, upto - 1);
    }
}

/// A seat's place is one of as many places as there are seats.
pub proof fn lemma_place_in_range(points: Seq<isize>, seat: int)
    requires
        0 <= seat < points.len(),
    ensures
        place_of(points, seat) < points.len(),
{
    lemma_distinct_above(points, seat, points.len() as int);
}

/// The standings of a number of seats over the games recorded so far.
#[derive(Clone, Debug)]
pub struct Standings {
    final_scores: Vec<isize>,
    positions: Vec<Vec<usize>>,
    games: usize,
}

impl Standings {
    /// Number of seats.
    pub closed spec fn seats(&self) -> nat {
        self.final_scores@.len()
    }

    /// Number of games recorded.
    pub closed spec fn games(&self) -> nat {
        self.games as nat
    }

    /// What `seat` has scored over all games.
    pub closed spec fn total(&self, seat: int) -> int {
        self.final_scores@[seat] as int
    }

    /// How often `seat` has finished in `place`.
    pub closed spec fn times_placed(&self, seat: int, place: int) -> nat {
        self.positions@[seat]@[place] as nat
    }

    /// There is a total and a row of places for each seat, and a count for
    /// each place in each row.
    pub closed spec fn wf(&self) -> bool {
        &&& self.positions@.len() == self.final_scores@.len()
        &&& forall|seat: int|
            0 <= seat < self.positions@.len() ==> (#[trigger] self.positions@[seat])@.len()
                == self.final_scores@.len()
    }

    /// Whether a game with `points` can be recorded without a total or a
    /// count outgrowing its number type.
    pub open spec fn can_record(&self, points: Seq<isize>) -> bool {
        &&& points.len() == self.seats()
        &&& self.games() < usize::MAX
        &&& forall|seat: int|
            0 <= seat < points.len() ==> isize::MIN <= #[trigger] self.total(seat) + points[seat]
                <= isize::MAX
        &&& forall|seat: int|
            0 <= seat < points.len() ==> #[trigger] self.times_placed(
                seat,
                place_of(points, seat) as int,
            ) < usize::MAX
    }

    /// The standings of `seats` seats before the first game.
    pub fn new(seats: usize) -> (standings: Self)
        ensures
            standings.wf(),
            standings.seats() == seats,
            standings.games() == 0,
            forall|seat: int| 0 <= seat < seats ==> #[trigger] standings.total(seat) == 0,
            forall|seat: int, place: int|
                0 <= seat < seats && 0 <= place < seats ==> #[trigger] standings.times_placed(
                    seat,
                    place,
                ) == 0,
    {
        let mut final_scores: Vec<isize> = Vec::new();
        let mut positions: Vec<Vec<usize>> = Vec::new();
        let mut seat: usize = 0;
        while seat < seats
            invariant
                seat <= seats,
                final_scores@.len() == seat,
                positions@.len() == seat,
                forall|k: int| 0 <= k < seat ==> #[trigger] final_scores@[k] == 0,
                forall|k: int| 0 <= k < seat ==> (#[trigger] positions@[k])@.len() == seats,
                forall|k: int, place: int|
                    0 <= k < seat && 0 <= place < seats ==> #[trigger] positions@[k]@[place] == 0,
            decreases seats - seat,
        {
            let mut row: Vec<usize> = Vec::new();
            let mut place: usize = 0;
            while place < seats
                invariant
                    place <= seats,
                    row@.len() == place,
                    forall|k: int| 0 <= k < place ==> #[trigger] row@[k] == 0,
                decreases seats - place,
            {
                row.push(0);
                place += 1;
            }
            final_scores.push(0);
            positions.push(row);
            seat += 1;
        }
        Standings { final_scores, positions, games: 0 }
    }

    /// Whether no score before place `at` equals the one at `at`.
    fn is_first_of_its_value(points: &Vec<isize>, at: usize) -> (first: bool)
        requires
            at < points@.len(),
        ensures
            first == first_of_its_value(points@, at as int),
    {
        let mut k: usize = 0;
        while k < at
            invariant
                k <= at,
                at < points@.len(),
                forall|j: int| 0 <= j < k ==> points@[j] != points@[at as int],
            decreases at - k,
        {
            if points[k] == points[at] {
                return false;
            }
            k += 1;
        }
        true
    }

    /// The place in which `seat` finishes a game with `points`.
    pub fn place(points: &Vec<isize>, seat: usize) -> (place: usize)
        requires
            seat < points@.len(),
        ensures
            place == place_of(points@, seat as int),
            place < points@.len(),
    {
        let own = points[seat];
        let mut place: usize = 0;
        let mut j: usize = 0;
        while j < points.len()
            invariant
                j <= points@.len(),
                seat < points@.len(),
                own == points@[seat as int],
                place == distinct_above(points@, own as int, j as int),
                place <= j,
            decreases points@.len() - j,
        {
            proof {
                lemma_distinct_above(points@, seat as int, j + 1);
            }
            if points[j] > own && Self::is_first_of_its_value(points, j) {
                place += 1;
            }
            j += 1;
        }
        proof {
            lemma_place_in_range(points@, seat as int);
        }
        place
    }

    /// Records a game: adds what each seat has scored to its total and
    /// counts the place it has finished in.
    pub fn record(&mut self, points: &Vec<isize>)
        requires
            old(self).wf(),
            old(self).can_record(points@),
        ensures
            final(self).wf(),
            final(self).seats() == old(self).seats(),
            final(self).games() == old(self).games() + 1,
            forall|seat: int|
                0 <= seat < points@.len() ==> #[trigger] final(self).total(seat) == old(self).total(
                    seat,
                ) + points@[seat],
            forall|seat: int, place: int|
                0 <= seat < points@.len() && 0 <= place < points@.len() ==> #[trigger] final(self).times_placed(seat, place) == old(self).times_placed(seat, place) + if place
                    == place_of(points@, seat) {
                    1nat
                } else {
                    0nat
                },
    {
        let seats = points.len();
        let mut seat: usize = 0;
        while seat < seats
            invariant
                seat <= seats,
                seats == points@.len(),
                seats == self.final_scores@.len(),
                self.wf(),
                old(self).wf(),
                old(self).can_record(points@),
                self.games == old(self).games,
                forall|k: int|
                    0 <= k < seat ==> #[trigger] self.final_scores@[k] == old(self).final_scores@[k] + points@[k],
                forall|k: int|
                    seat <= k < seats ==> #[trigger] self.final_scores@[k] == old(self).final_scores@[k],
                forall|k: int| seat <= k < seats ==> #[trigger] self.positions@[k] == old(self).positions@[k],
                forall|k: int, place: int|
                    0 <= k < seat && 0 <= place < seats ==> #[trigger] self.positions@[k]@[place]
                        == old(self).positions@[k]@[place] + if place == place_of(points@, k) {
                        1nat
                    } else {
                        0nat
                    },
            decreases seats - seat,
        {
            let place = Self::place(points, seat);
            let ghost rows = self.positions@;
            assert(old(self).total(seat as int) == old(self).final_scores@[seat as int]);
            assert(old(self).times_placed(seat as int, place as int) == old(self).positions@[seat as int]@[place as int]);
            self.final_scores[seat] = self.final_scores[seat] + points[seat];
            let times = self.positions[seat][place];
            self.positions[seat][place] = times + 1;
            proof {
                assert forall|k: int| 0 <= k < self.positions@.len() implies (
                #[trigger] self.positions@[k])@.len() == self.final_scores@.len() by {
                    if k != seat {
                        assert(self.positions@[k] == rows[k]);
                    }
                }
                assert forall|k: int| seat + 1 <= k < seats implies #[trigger] self.positions@[k]
                    == old(self).positions@[k] by {
                    assert(self.positions@[k] == rows[k]);
                }
                assert forall|k: int, at: int|
                    0 <= k < seat + 1 && 0 <= at < seats implies #[trigger] self.positions@[k]@[at]
                    == old(self).positions@[k]@[at] + if at == place_of(points@, k) {
                    1nat
                } else {
                    0nat
                } by {
                    if k != seat {
                        assert(self.positions@[k] == rows[k]);
                    }
                }
            }
            seat += 1;
        }
        self.games = self.games + 1;
    }

    /// Number of games recorded.
    pub fn games_played(&self) -> (n: usize)
        ensures
            n == self.games(),
    {
        self.games
    }

    /// What `seat` has scored over all games.
    pub fn total_of(&self, seat: usize) -> (total: isize)
        requires
            seat < self.seats(),
        ensures
            total == self.total(seat as int),
    {
        self.final_scores[seat]
    }

    /// How often `seat` has finished in `place`.
    pub fn times_in_place(&self, seat: usize, place: usize) -> (times: usize)
        requires
            self.wf(),
            seat < self.seats(),
            place < self.seats(),
        ensures
            times == self.times_placed(seat as int, place as int),
    {
        self.positions[seat][place]
    }
}

} // verus!
