//! The game handle: a state plus a turn counter, and two ready-made positions.

use vstd::prelude::*;
use vstd::pervasive::VecAdditionalExecFns;

use crate::bag::Bag;
use crate::moves::GameMove;
use crate::state::State;
use crate::state::StateV;
use crate::state::do_move_spec;
use crate::state::fresh_state;
use crate::tiles::Tile;
use crate::Error;

verus! {

/// A running game: the position and how many moves have been attempted.
#[derive(Debug)]
pub struct Game {
    pub state: State,
    pub turn: u32,
}

impl Game {
    /// A fresh game for 2, 3 or 4 players, at turn zero.
    pub fn new(players: u8) -> (r: Result<Game, Error>)
        ensures
            match r {
                Ok(g) => {
                    &&& g.state@ == fresh_state(players as int)
                    &&& g.state.wf()
                    &&& g.turn == 0
                },
                Err(e) => e == Error::InvalidPlayerCount && !(2 <= players <= 4),
            },
    {
        let state = State::new(players)?;
        Ok(Game { state, turn: 0 })
    }

    /// Applies a move to the underlying state; the turn counter advances
    /// whether or not the move was legal, saturating at its machine maximum.
    pub fn do_move(&mut self, game_move: GameMove) -> (r: Result<(), Error>)
        requires
            old(self).state.wf(),
        ensures
            final(self).state.wf(),
            final(self).turn == if old(self).turn == u32::MAX {
                u32::MAX as int
            } else {
                old(self).turn + 1
            },
            match r {
                Ok(()) => do_move_spec(old(self).state@, game_move) == Ok::<StateV, Error>(
                    final(self).state@,
                ),
                Err(e) => final(self).state == old(self).state && do_move_spec(
                    old(self).state@,
                    game_move,
                ) == Err::<StateV, Error>(e),
            },
    {
        let result = self.state.do_move(game_move);
        self.turn = if self.turn == u32::MAX {
            u32::MAX
        } else {
            self.turn + 1
        };
        result
    }
}

impl Clone for Game {
    /// A deep copy with the same position and turn.
    fn clone(&self) -> (r: Game)
        ensures
            r.state@ == self.state@,
            r.turn == self.turn,
    {
        Game { state: self.state.clone(), turn: self.turn }
    }
}

/// A two-player opening in which every factory holds one tile of four
/// consecutive colors, cycling through the palette: the round with the most
/// distinct legal moves. The bag gives up four tiles of each color for it.
pub fn complicated() -> (r: Result<Game, Error>)
    ensures
        match r {
            Ok(g) => {
                &&& g.state.wf()
                &&& g.turn == 0
                &&& g.state@.factories == seq![
                    seq![Tile::Blue, Tile::Yellow, Tile::Red, Tile::Black],
                    seq![Tile::Teal, Tile::Blue, Tile::Yellow, Tile::Red],
                    seq![Tile::Black, Tile::Teal, Tile::Blue, Tile::Yellow],
                    seq![Tile::Red, Tile::Black, Tile::Teal, Tile::Blue],
                    seq![Tile::Yellow, Tile::Red, Tile::Black, Tile::Teal],
                ]
                &&& g.state@.bag == (crate::bag::BagV {
                    blue: 16,
                    yellow: 16,
                    red: 16,
                    black: 16,
                    teal: 16,
                })
                &&& g.state@.boards == fresh_state(2).boards
                &&& g.state@.market == fresh_state(2).market
                &&& g.state@.player == 0
            },
            Err(e) => false,
        },
{
    let mut game = Game::new(2)?;

    let f0: Vec<Tile> = vec![Tile::Blue, Tile::Yellow, Tile::Red, Tile::Black];
    let f1: Vec<Tile> = vec![Tile::Teal, Tile::Blue, Tile::Yellow, Tile::Red];
    let f2: Vec<Tile> = vec![Tile::Black, Tile::Teal, Tile::Blue, Tile::Yellow];
    let f3: Vec<Tile> = vec![Tile::Red, Tile::Black, Tile::Teal, Tile::Blue];
    let f4: Vec<Tile> = vec![Tile::Yellow, Tile::Red, Tile::Black, Tile::Teal];
    game.state.factories.set(0, f0);
    game.state.factories.set(1, f1);
    game.state.factories.set(2, f2);
    game.state.factories.set(3, f3);
    game.state.factories.set(4, f4);
    game.state.bag = Bag { blue: 16, yellow: 16, red: 16, black: 16, teal: 16 };
    proof {
        assert forall|f: int| 0 <= f < 5 implies (#[trigger] game.state@.factories[f]).len()
            == 4 by {
            assert(game.state@.factories[f] == game.state.factories@[f]@);
        }
        crate::board::lemma_rows_total_uniform(game.state@.factories, 4);
        lemma_staged_game_wf(game.state@, 20);
    }
    Ok(game)
}

/// A small two-player opening with mixed factories, matching tiles taken out
/// of the bag.
pub fn some_game() -> (r: Result<Game, Error>)
    ensures
        match r {
            Ok(g) => {
                &&& g.state.wf()
                &&& g.turn == 0
                &&& g.state@.factories == seq![
                    seq![Tile::Blue, Tile::Blue, Tile::Yellow, Tile::Black],
                    seq![Tile::Blue, Tile::Red, Tile::Red, Tile::Red],
                    seq![Tile::Blue, Tile::Red, Tile::Black, Tile::Teal],
                    seq![Tile::Blue, Tile::Red, Tile::Black, Tile::Teal],
                    seq![Tile::Yellow, Tile::Yellow, Tile::Black, Tile::Teal],
                ]
                &&& g.state@.bag == (crate::bag::BagV {
                    blue: 15,
                    yellow: 17,
                    red: 15,
                    black: 16,
                    teal: 17,
                })
                &&& g.state@.boards == fresh_state(2).boards
                &&& g.state@.market == fresh_state(2).market
                &&& g.state@.player == 0
            },
            Err(e) => false,
        },
{
    let mut game = Game::new(2)?;

    let f0: Vec<Tile> = vec![Tile::Blue, Tile::Blue, Tile::Yellow, Tile::Black];
    let f1: Vec<Tile> = vec![Tile::Blue, Tile::Red, Tile::Red, Tile::Red];
    let f2: Vec<Tile> = vec![Tile::Blue, Tile::Red, Tile::Black, Tile::Teal];
    let f3: Vec<Tile> = vec![Tile::Blue, Tile::Red, Tile::Black, Tile::Teal];
    let f4: Vec<Tile> = vec![Tile::Yellow, Tile::Yellow, Tile::Black, Tile::Teal];
    game.state.factories.set(0, f0);
    game.state.factories.set(1, f1);
    game.state.factories.set(2, f2);
    game.state.factories.set(3, f3);
    game.state.factories.set(4, f4);
    game.state.bag = Bag { blue: 15, yellow: 17, red: 15, black: 16, teal: 17 };
    proof {
        assert forall|f: int| 0 <= f < 5 implies (#[trigger] game.state@.factories[f]).len()
            == 4 by {
            assert(game.state@.factories[f] == game.state.factories@[f]@);
        }
        crate::board::lemma_rows_total_uniform(game.state@.factories, 4);
        lemma_staged_game_wf(game.state@, 20);
    }
    Ok(game)
}

/// A fresh two-player game whose five factories were stocked by hand, with
/// the matching number of tiles taken from the bag, is still well-formed.
proof fn lemma_staged_game_wf(s: StateV, staged: int)
    requires
        s.boards == fresh_state(2).boards,
        s.market == fresh_state(2).market,
        s.player == 0,
        s.box_top == crate::bag::BagV::zero(),
        s.bag.wf(),
        s.factories.len() == 5,
        forall|f: int| 0 <= f < 5 ==> crate::state::wf_factory(#[trigger] s.factories[f]),
        crate::board::rows_total(s.factories) == staged,
        s.bag.total() == 100 - staged,
    ensures
        s.wf(),
{
    crate::state::lemma_fresh_state_wf(2);
    let fresh = fresh_state(2);
    assert(crate::vecs::colored_len(s.market) == crate::vecs::colored_len(fresh.market));
    assert(crate::vecs::count_eq(s.market, Tile::Start) == crate::vecs::count_eq(
        fresh.market,
        Tile::Start,
    ));
    assert(crate::state::boards_total(s.boards) == crate::state::boards_total(fresh.boards));
    assert(fresh.tile_total() == 100);
    assert(fresh.bag.total() == 100);
    assert(crate::state::boards_total(fresh.boards) == 0) by {
        crate::state::lemma_boards_total_fresh(fresh.boards);
    }
    assert(crate::vecs::colored_len(fresh.market) == 0 && crate::vecs::count_eq(
        fresh.market,
        Tile::Start,
    ) == 1) by {
        reveal_with_fuel(Seq::filter, 3);
        assert(fresh.market.drop_last() =~= Seq::<Tile>::empty());
        assert(fresh.market.last() == Tile::Start);
        assert(Seq::<Tile>::empty().filter(crate::vecs::nonstart_pred()) =~= Seq::<Tile>::empty());
        assert(Seq::<Tile>::empty().filter(crate::vecs::eq_pred(Tile::Start))
            =~= Seq::<Tile>::empty());
    }

}

} // verus!
