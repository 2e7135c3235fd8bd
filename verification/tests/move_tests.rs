use azul::game::some_game;
use azul::moves::GameMove;
use azul::moves::GameMoveIter;
use azul::state::State;
use azul::tiles::Tile;
use azul::Error;

#[test]
fn game_move_iter() {
    let i = GameMove::default();
    println!("Original: {:?}", i);
    assert_eq!(i.into_iter().next().unwrap(), GameMove(1, Tile::Blue, 1));
}

#[test]
fn game_move_iter_wraps_source_then_color() {
    let mut it = GameMoveIter::new(2);
    it.current = GameMove(5, Tile::Blue, 1);
    assert_eq!(it.next().unwrap(), GameMove(0, Tile::Yellow, 1));
    it.current = GameMove(5, Tile::Teal, 1);
    assert_eq!(it.next().unwrap(), GameMove(0, Tile::Blue, 2));
    it.current = GameMove(5, Tile::Teal, 0);
    assert_eq!(it.next(), None);
}

#[test]
fn tile_iter_walks_the_colors() {
    let mut it = Tile::Blue.into_iter();
    assert_eq!(it.next(), Some(Tile::Yellow));
    assert_eq!(it.next(), Some(Tile::Red));
    assert_eq!(it.next(), Some(Tile::Black));
    assert_eq!(it.next(), Some(Tile::Teal));
    assert_eq!(it.next(), None);
}

#[test]
fn taking_start_directly_is_illegal() {
    let mut g = some_game().unwrap();
    assert_eq!(g.do_move(GameMove(0, Tile::Start, 1)), Err(Error::IllegalColor));
    assert_eq!(g.do_move(GameMove(3, Tile::Start, 0)), Err(Error::IllegalColor));
}

#[test]
fn absent_color_leaves_state_unchanged() {
    let mut g = some_game().unwrap();
    let market_before = g.state.market.clone();
    let factories_before = g.state.factories.clone();
    let floor_before = g.state.boards[0].floor.clone();
    let player_before = g.state.player;

    // Factory 1 holds Blue, Blue, Yellow and Black: no Teal.
    assert_eq!(g.do_move(GameMove(1, Tile::Teal, 1)), Err(Error::TileNotAvailable));
    // The market holds only the Start marker: no Red either.
    assert_eq!(g.do_move(GameMove(0, Tile::Red, 1)), Err(Error::TileNotAvailable));

    assert_eq!(g.state.market, market_before);
    assert_eq!(g.state.factories, factories_before);
    assert_eq!(g.state.boards[0].floor, floor_before);
    assert_eq!(g.state.player, player_before);
}

#[test]
fn empty_market_is_reported() {
    let mut s = State::new(2).unwrap();
    s.market.clear();
    assert_eq!(s.do_move(GameMove(0, Tile::Blue, 1)), Err(Error::EmptyMarket));
}

#[test]
fn factory_index_out_of_bounds() {
    let mut g = some_game().unwrap();
    assert_eq!(g.do_move(GameMove(6, Tile::Blue, 1)), Err(Error::OutOfBounds));
}

#[test]
fn pattern_line_color_mismatch() {
    let mut g = some_game().unwrap();
    g.do_move(GameMove(1, Tile::Blue, 3)).unwrap();
    g.do_move(GameMove(2, Tile::Red, 3)).unwrap();
    // Player 0's third line already stages Blue; Teal may not join it.
    assert_eq!(g.do_move(GameMove(3, Tile::Teal, 3)), Err(Error::ColorMismatch));
}

#[test]
fn pattern_line_full() {
    let mut g = some_game().unwrap();
    g.do_move(GameMove(1, Tile::Blue, 1)).unwrap();
    g.do_move(GameMove(2, Tile::Red, 3)).unwrap();
    // Player 0's first line has capacity one and is already full.
    assert_eq!(g.do_move(GameMove(4, Tile::Blue, 1)), Err(Error::LineFull));
}

#[test]
fn invalid_destination_line() {
    let mut g = some_game().unwrap();
    assert_eq!(g.do_move(GameMove(1, Tile::Blue, 6)), Err(Error::InvalidDestination));
}

#[test]
fn factory_move_spills_leftovers_into_market() {
    let mut g = some_game().unwrap();
    // Factory 2 holds Blue, Red, Red, Red: taking Red leaves one Blue.
    g.do_move(GameMove(2, Tile::Red, 3)).unwrap();
    assert!(g.state.factories[1].is_empty());
    assert_eq!(g.state.boards[0].patterns[2], vec![Tile::Red, Tile::Red, Tile::Red]);
    assert!(g.state.market.contains(&Tile::Blue));
    assert!(g.state.market.contains(&Tile::Start));
    assert_eq!(g.state.player, 1);
    assert_eq!(g.turn, 1);
}

#[test]
fn market_move_takes_start_to_floor() {
    let mut g = some_game().unwrap();
    g.do_move(GameMove(2, Tile::Red, 3)).unwrap();
    // Player 1 draws the lone Blue from the market and the Start marker too.
    g.do_move(GameMove(0, Tile::Blue, 2)).unwrap();
    assert_eq!(g.state.boards[1].patterns[1], vec![Tile::Blue]);
    assert_eq!(g.state.boards[1].floor, vec![Tile::Start]);
    assert!(!g.state.market.contains(&Tile::Start));
    assert!(g.state.market.is_empty());
}

#[test]
fn surplus_tiles_overflow_to_floor() {
    let mut g = some_game().unwrap();
    // Factory 2 has three Reds but line one holds a single tile.
    g.do_move(GameMove(2, Tile::Red, 1)).unwrap();
    assert_eq!(g.state.boards[0].patterns[0], vec![Tile::Red]);
    assert_eq!(g.state.boards[0].floor, vec![Tile::Red, Tile::Red]);
}

#[test]
fn floor_destination_takes_everything() {
    let mut g = some_game().unwrap();
    g.do_move(GameMove(2, Tile::Red, 0)).unwrap();
    assert_eq!(g.state.boards[0].floor, vec![Tile::Red, Tile::Red, Tile::Red]);
    assert!(g.state.boards[0].patterns.iter().all(|p| p.is_empty()));
}
