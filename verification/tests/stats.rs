use sushi_sim::stats::Standings;

#[test]
fn place_counts_the_different_scores_above() {
    let points = vec![10, 30, 20, 30, -5];
    assert_eq!(Standings::place(&points, 1), 0);
    assert_eq!(Standings::place(&points, 3), 0);
    assert_eq!(Standings::place(&points, 2), 1);
    assert_eq!(Standings::place(&points, 0), 2);
    assert_eq!(Standings::place(&points, 4), 3);
}

#[test]
fn level_seats_share_the_first_place() {
    let points = vec![7, 7, 7];
    for seat in 0..3 {
        assert_eq!(Standings::place(&points, seat), 0);
    }
    assert_eq!(Standings::place(&vec![-3], 0), 0);
}

#[test]
fn new_standings_are_empty() {
    let standings = Standings::new(3);
    assert_eq!(standings.games_played(), 0);
    for seat in 0..3 {
        assert_eq!(standings.total_of(seat), 0);
        for place in 0..3 {
            assert_eq!(standings.times_in_place(seat, place), 0);
        }
    }
}

#[test]
fn record_adds_scores_and_counts_places() {
    let mut standings = Standings::new(4);
    standings.record(&vec![12, 40, 12, -3]);
    standings.record(&vec![50, 40, 30, 20]);
    standings.record(&vec![0, 0, 0, 0]);
    assert_eq!(standings.games_played(), 3);
    let totals: Vec<isize> = (0..4).map(|seat| standings.total_of(seat)).collect();
    assert_eq!(totals, vec![62, 80, 42, 17]);
    let places: Vec<Vec<usize>> = (0..4)
        .map(|seat| (0..4).map(|place| standings.times_in_place(seat, place)).collect())
        .collect();
    assert_eq!(
        places,
        vec![vec![2, 1, 0, 0], vec![2, 1, 0, 0], vec![1, 1, 1, 0], vec![1, 0, 1, 1]]
    );
    for row in places.iter() {
        assert_eq!(row.iter().sum::<usize>(), 3);
    }
}
