use azul::bag::Bag;
use azul::state::State;
use azul::tiles::Tile;
use azul::Error;
use rand::SeedableRng;

/// Every colored tile in the system, counted once, the way the conservation
/// invariant counts them.
fn total_colored_tiles(s: &State) -> usize {
    let bag = (s.bag.blue + s.bag.yellow + s.bag.red + s.bag.black + s.bag.teal) as usize;
    let box_top = (s.box_top.blue + s.box_top.yellow + s.box_top.red + s.box_top.black
        + s.box_top.teal) as usize;
    let market = s.market.iter().filter(|t| **t != Tile::Start).count();
    let factories: usize = s.factories.iter().map(|f| f.len()).sum();
    let boards: usize = s
        .boards
        .iter()
        .map(|b| {
            let wall = b.wall.iter().filter(|c| **c).count();
            let patterns: usize = b.patterns.iter().map(|p| p.len()).sum();
            let floor = b.floor.iter().filter(|t| **t != Tile::Start).count();
            wall + patterns + floor
        })
        .sum();
    bag + box_top + market + factories + boards
}

#[test]
fn fresh_two_player_game() {
    let s = State::new(2).unwrap();
    assert_eq!(s.factories.len(), 5);
    assert!(s.factories.iter().all(|f| f.is_empty()));
    assert_eq!(s.bag.len(), 100);
    assert_eq!(s.bag.blue, 20);
    assert_eq!(s.bag.yellow, 20);
    assert_eq!(s.bag.red, 20);
    assert_eq!(s.bag.black, 20);
    assert_eq!(s.bag.teal, 20);
    assert_eq!(s.market, vec![Tile::Start]);
    assert_eq!(s.boards.len(), 2);
    assert_eq!(s.player, 0);
}

#[test]
fn factory_counts_per_player_count() {
    assert_eq!(State::new(3).unwrap().factories.len(), 7);
    assert_eq!(State::new(4).unwrap().factories.len(), 9);
    assert_eq!(State::new(1).unwrap_err(), Error::InvalidPlayerCount);
    assert_eq!(State::new(5).unwrap_err(), Error::InvalidPlayerCount);
}

#[test]
fn fill_draws_twenty_from_full_bag() {
    let mut s = State::new(2).unwrap();
    s.fill(rand::rngs::StdRng::seed_from_u64(42)).unwrap();
    let drawn: usize = s.factories.iter().map(|f| f.len()).sum();
    assert_eq!(drawn, 20);
    assert!(s.factories.iter().all(|f| f.len() == 4));
    assert_eq!(s.bag.len(), 80);
    assert_eq!(total_colored_tiles(&s), 100);
}

#[test]
fn fill_rejects_stocked_factories() {
    let mut g = azul::game::some_game().unwrap();
    let before_bag = g.state.bag;
    assert_eq!(
        g.state.fill(rand::rngs::StdRng::seed_from_u64(1)),
        Err(Error::AlreadyFull)
    );
    assert_eq!(g.state.bag, before_bag);
}

#[test]
fn fill_stops_when_bag_and_box_run_out() {
    let mut s = State::new(2).unwrap();
    // Move all but three tiles out of the bag onto a floor, keeping the
    // global count at one hundred.
    s.bag = Bag { blue: 3, yellow: 0, red: 0, black: 0, teal: 0 };
    s.boards[0].floor = vec![Tile::Yellow; 97];
    assert_eq!(total_colored_tiles(&s), 100);
    s.fill(rand::rngs::StdRng::seed_from_u64(9)).unwrap();
    let drawn: usize = s.factories.iter().map(|f| f.len()).sum();
    assert_eq!(drawn, 3);
    assert_eq!(s.bag.len(), 0);
    assert!(s.factories.iter().all(|f| f.iter().all(|t| *t == Tile::Blue)));
}

#[test]
fn fill_reshuffles_box_top_into_bag() {
    let mut s = State::new(2).unwrap();
    s.bag = Bag { blue: 0, yellow: 0, red: 0, black: 0, teal: 0 };
    s.box_top = Bag { blue: 0, yellow: 5, red: 0, black: 0, teal: 0 };
    s.boards[0].floor = vec![Tile::Red; 95];
    assert_eq!(total_colored_tiles(&s), 100);
    s.fill(rand::rngs::StdRng::seed_from_u64(3)).unwrap();
    let drawn: usize = s.factories.iter().map(|f| f.len()).sum();
    assert_eq!(drawn, 5);
    assert_eq!(s.box_top.len(), 0);
    assert_eq!(s.bag.len(), 0);
    assert!(s.factories.iter().all(|f| f.iter().all(|t| *t == Tile::Yellow)));
}

#[test]
fn fill_draws_only_available_colors() {
    let mut s = State::new(2).unwrap();
    s.bag = Bag { blue: 4, yellow: 0, red: 0, black: 0, teal: 0 };
    s.boards[0].floor = vec![Tile::Teal; 96];
    s.fill(rand::rngs::StdRng::seed_from_u64(11)).unwrap();
    for f in s.factories.iter() {
        for t in f.iter() {
            assert_eq!(*t, Tile::Blue);
        }
    }
}

#[test]
fn score_moves_full_line_to_wall() {
    let mut s = State::new(2).unwrap();
    s.boards[0].patterns[1] = vec![Tile::Red, Tile::Red];
    s.bag.red = 18;
    assert_eq!(total_colored_tiles(&s), 100);
    s.score().unwrap();
    // Red sits in row 1 at column (2 + 1) % 5 == 3.
    assert!(s.boards[0].wall[1 * 5 + 3]);
    assert_eq!(s.boards[0].score, 2);
    assert!(s.boards[0].patterns[1].is_empty());
    assert_eq!(s.box_top.red, 1);
    assert_eq!(total_colored_tiles(&s), 100);
}

#[test]
fn score_ignores_partial_lines() {
    let mut s = State::new(2).unwrap();
    s.boards[0].patterns[2] = vec![Tile::Blue, Tile::Blue];
    s.bag.blue = 18;
    s.score().unwrap();
    assert_eq!(s.boards[0].patterns[2], vec![Tile::Blue, Tile::Blue]);
    assert_eq!(s.boards[0].score, 0);
    assert!(s.boards[0].wall.iter().all(|c| !*c));
}

#[test]
fn score_clamps_at_zero_and_clears_floor() {
    let mut s = State::new(2).unwrap();
    s.boards[0].floor = vec![Tile::Blue, Tile::Blue, Tile::Blue];
    s.bag.blue = 17;
    assert_eq!(total_colored_tiles(&s), 100);
    s.score().unwrap();
    // A penalty of 4 on a score of 0 clamps at 0 instead of wrapping.
    assert_eq!(s.boards[0].score, 0);
    assert!(s.boards[0].floor.is_empty());
    assert_eq!(s.box_top.blue, 3);
    assert_eq!(total_colored_tiles(&s), 100);
}

#[test]
fn floor_penalty_table() {
    // One test per penalty step: floors of size 1, 2, 3, 4, 5, 6 and 7 cost
    // 1, 2, 4, 6, 8, 11 and 14.
    let penalties = [(1, 1), (2, 2), (3, 4), (4, 6), (5, 8), (6, 11), (7, 14)];
    for (floor_size, penalty) in penalties.iter() {
        let mut s = State::new(2).unwrap();
        s.boards[0].score = 20;
        s.boards[0].floor = vec![Tile::Blue; *floor_size];
        s.bag.blue = 20 - *floor_size as u8;
        s.score().unwrap();
        assert_eq!(s.boards[0].score as usize, 20 - penalty);
    }
}

#[test]
fn score_rejects_occupied_wall_cell() {
    let mut s = State::new(2).unwrap();
    s.boards[0].patterns[0] = vec![Tile::Blue];
    s.boards[0].wall[0] = true;
    s.bag.blue = 18;
    let before_score = s.boards[0].score;
    assert_eq!(s.score(), Err(Error::InvalidWallLookup));
    assert_eq!(s.boards[0].score, before_score);
    assert_eq!(s.boards[0].patterns[0], vec![Tile::Blue]);
}

#[test]
fn next_round_scores_resets_market_and_refills() {
    let mut s = State::new(2).unwrap();
    s.market.clear();
    s.boards[0].patterns[0] = vec![Tile::Blue];
    s.bag.blue = 19;
    assert!(s.round_over());
    s.next_round(rand::rngs::StdRng::seed_from_u64(5)).unwrap();
    assert!(s.boards[0].wall[0]);
    assert_eq!(s.boards[0].score, 2);
    assert_eq!(s.market, vec![Tile::Start]);
    let drawn: usize = s.factories.iter().map(|f| f.len()).sum();
    assert_eq!(drawn, 20);
    assert_eq!(total_colored_tiles(&s), 100);
}

#[test]
fn conservation_through_play() {
    let mut g = azul::game::some_game().unwrap();
    assert_eq!(total_colored_tiles(&g.state), 100);
    g.do_move(azul::moves::GameMove(2, Tile::Red, 3)).unwrap();
    assert_eq!(total_colored_tiles(&g.state), 100);
    g.do_move(azul::moves::GameMove(5, Tile::Yellow, 2)).unwrap();
    assert_eq!(total_colored_tiles(&g.state), 100);
    g.do_move(azul::moves::GameMove(3, Tile::Blue, 2)).unwrap();
    assert_eq!(total_colored_tiles(&g.state), 100);
    g.do_move(azul::moves::GameMove(0, Tile::Red, 1)).unwrap();
    assert_eq!(total_colored_tiles(&g.state), 100);
    g.state.score().unwrap();
    assert_eq!(total_colored_tiles(&g.state), 100);
}

#[test]
fn hash_digest_layout() {
    let mut s = State::new(2).unwrap();
    s.player = 1;
    s.box_top.red = 7;
    let h = s.hash();
    assert_eq!(h.len(), 11);
    assert_eq!(h[0], 1);
    assert_eq!(&h[1..6], &[0, 0, 7, 0, 0]);
    assert_eq!(&h[6..11], &[20, 20, 20, 20, 20]);
}
