use azul::game::Game;
use azul::search::count_options;
use azul::search::count_options_approx;
use azul::state::State;
use azul::tiles::Tile;
use rand::SeedableRng;

/// A position with a single stocked factory holding one Blue tile and only
/// the Start marker in the market: six legal moves, each ending the game.
fn one_tile_position() -> State {
    let mut s = State::new(2).unwrap();
    s.bag.blue = 19;
    s.factories[0] = vec![Tile::Blue];
    s
}

#[test]
fn count_of_a_leaf_is_one() {
    let mut s = State::new(2).unwrap();
    // No factory tiles and an empty market leave no legal move.
    s.market.clear();
    assert_eq!(count_options(&s, 1024), Some(1));
}

#[test]
fn count_of_one_tile_position() {
    // The lone Blue tile can go to the floor or to any of the five pattern
    // lines; each of those six moves empties the table.
    let s = one_tile_position();
    assert_eq!(count_options(&s, 1024), Some(6));
}

#[test]
fn count_survives_a_tiny_cache() {
    let s = one_tile_position();
    assert_eq!(count_options(&s, 0), Some(6));
    assert_eq!(count_options(&s, 1), Some(6));
}

#[test]
fn count_collapses_symmetric_states() {
    // The same single tile in a different factory slot is the same position.
    let mut a = State::new(2).unwrap();
    a.bag.blue = 19;
    a.factories[0] = vec![Tile::Blue];
    let mut b = State::new(2).unwrap();
    b.bag.blue = 19;
    b.factories[4] = vec![Tile::Blue];
    assert_eq!(count_options(&a, 1024), count_options(&b, 1024));
}

#[test]
fn approximate_count_multiplies_first_branch() {
    // The first legal move of the one-tile position leads to a leaf, so the
    // approximate mode reports 120 times a count of one: a deliberate
    // over-count of the exact six.
    let s = one_tile_position();
    assert_eq!(count_options_approx(&s, 1024), Some(120));
}

#[test]
fn approximate_count_of_a_leaf_is_one() {
    let mut s = State::new(2).unwrap();
    s.market.clear();
    assert_eq!(count_options_approx(&s, 1024), Some(1));
}

#[test]
fn count_options_deterministic_for_fixed_seed() {
    // Two games filled with the same seed are the same position tile for
    // tile, so the search sees the same move tree and returns the same count.
    let mut a = Game::new(2).unwrap();
    a.state.fill(rand::rngs::StdRng::seed_from_u64(42)).unwrap();
    let mut b = Game::new(2).unwrap();
    b.state.fill(rand::rngs::StdRng::seed_from_u64(42)).unwrap();
    assert_eq!(a.state.factories, b.state.factories);
    assert_eq!(a.state.bag, b.state.bag);

    // Shrink both positions identically so the exact search is small, then
    // count both: identical seeds give identical counts.
    let mut small_a = State::new(2).unwrap();
    small_a.bag = a.state.bag;
    small_a.factories[0] = a.state.factories[0].clone();
    small_a.boards[0].floor = vec![Tile::Teal; 16];
    let mut small_b = State::new(2).unwrap();
    small_b.bag = b.state.bag;
    small_b.factories[0] = b.state.factories[0].clone();
    small_b.boards[0].floor = vec![Tile::Teal; 16];
    let ca = count_options(&small_a, 4096);
    let cb = count_options(&small_b, 4096);
    assert_eq!(ca, cb);
    assert!(ca.unwrap() >= 1);
}

#[test]
fn sizes() {
    println!("size of azul game: {}", std::mem::size_of::<Game>());
}
