use azul::game::complicated;
use azul::game::some_game;
use azul::game::Game;
use azul::moves::GameMove;
use azul::tiles::Tile;

#[test]
fn complicated_cycles_colors_and_charges_the_bag() {
    let g = complicated().unwrap();
    assert_eq!(g.turn, 0);
    assert_eq!(
        g.state.factories[0],
        vec![Tile::Blue, Tile::Yellow, Tile::Red, Tile::Black]
    );
    assert_eq!(
        g.state.factories[4],
        vec![Tile::Yellow, Tile::Red, Tile::Black, Tile::Teal]
    );
    assert_eq!(g.state.bag.blue, 16);
    assert_eq!(g.state.bag.yellow, 16);
    assert_eq!(g.state.bag.red, 16);
    assert_eq!(g.state.bag.black, 16);
    assert_eq!(g.state.bag.teal, 16);
    assert_eq!(g.state.bag.len(), 80);
}

#[test]
fn some_game_charges_the_bag_for_its_factories() {
    let g = some_game().unwrap();
    assert_eq!(g.state.bag.blue, 15);
    assert_eq!(g.state.bag.yellow, 17);
    assert_eq!(g.state.bag.red, 15);
    assert_eq!(g.state.bag.black, 16);
    assert_eq!(g.state.bag.teal, 17);
    assert_eq!(g.state.market, vec![Tile::Start]);
}

#[test]
fn turn_counter_advances_even_on_rejected_moves() {
    let mut g = Game::new(2).unwrap();
    assert_eq!(g.turn, 0);
    // The factories are empty, so this move is rejected; the attempt still
    // counts as a turn.
    assert!(g.do_move(GameMove(1, Tile::Blue, 1)).is_err());
    assert_eq!(g.turn, 1);
}

#[test]
fn cloned_games_evolve_independently() {
    let mut g = some_game().unwrap();
    let snapshot = g.clone();
    g.do_move(GameMove(2, Tile::Red, 3)).unwrap();
    assert!(g.state.factories[1].is_empty());
    assert_eq!(
        snapshot.state.factories[1],
        vec![Tile::Blue, Tile::Red, Tile::Red, Tile::Red]
    );
}
