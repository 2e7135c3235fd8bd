//! Moves and the fixed enumeration order over candidate moves.

use vstd::prelude::*;

use crate::tiles::Tile;

verus! {

/// A move: the source (0 is the market, `k >= 1` is factory `k - 1`), the
/// color to draw, and the destination (0 is the floor, `k` in 1 to 5 is
/// pattern line `k - 1`).
#[derive(Debug, Clone, Copy, PartialEq, Eq, Structural)]
pub struct GameMove(pub usize, pub Tile, pub usize);

/// The first move in enumeration order: market would be next, Blue, line 1.
pub open spec fn first_move() -> GameMove {
    GameMove(0, Tile::Blue, 1)
}

impl Default for GameMove {
    fn default() -> (r: GameMove)
        ensures
            r == first_move(),
    {
        GameMove(0, Tile::Blue, 1)
    }
}

impl GameMove {
    /// Walks the moves that follow this one in a four-player game.
    pub fn into_iter(self) -> (it: GameMoveIter)
        ensures
            it.players == 4,
            it.current == self,
    {
        GameMoveIter { players: 4, current: self }
    }
}

/// Steps through candidate moves: the source index cycles fastest, then the
/// color, then the destination line (1 through 5, then the floor).
#[derive(Debug)]
pub struct GameMoveIter {
    pub players: u8,
    pub current: GameMove,
}

/// The color after `t` in rank order; Teal and the Start marker have none.
pub open spec fn next_color(t: Tile) -> Option<Tile> {
    match t {
        Tile::Blue => Some(Tile::Yellow),
        Tile::Yellow => Some(Tile::Red),
        Tile::Red => Some(Tile::Black),
        Tile::Black => Some(Tile::Teal),
        Tile::Teal => None,
        Tile::Start => None,
    }
}

/// The move after `cur` in enumeration order for a game of `players`, or
/// `None` when the enumeration is exhausted or the player count is invalid.
pub open spec fn iter_next_spec(players: u8, cur: GameMove) -> Option<GameMove> {
    if !(2 <= players <= 4) {
        None
    } else {
        let maxf = 2 * players as int + 1;
        if cur.0 == maxf && cur.1 == Tile::Teal && cur.2 == 0 {
            None
        } else if cur.0 == maxf && cur.1 == Tile::Teal {
            Some(GameMove(0, Tile::Blue, ((cur.2 + 1) % 6) as usize))
        } else if cur.0 == maxf {
            match next_color(cur.1) {
                Some(c) => Some(GameMove(0, c, cur.2)),
                None => None,
            }
        } else {
            Some(GameMove((cur.0 + 1) as usize, cur.1, cur.2))
        }
    }
}

impl GameMoveIter {
    /// An iterator over the moves of a game with `players` players, starting
    /// after the first move in enumeration order.
    pub fn new(players: u8) -> (it: GameMoveIter)
        ensures
            it.players == players,
            it.current == first_move(),
    {
        GameMoveIter { players, current: GameMove::default() }
    }

    /// The next candidate move, or `None` once all have been visited.
    pub fn next(&mut self) -> (r: Option<GameMove>)
        requires
            old(self).current.1 != Tile::Start,
            old(self).current.0 < usize::MAX,
            old(self).current.2 < usize::MAX,
        ensures
            r == iter_next_spec(old(self).players, old(self).current),
            final(self).players == old(self).players,
            final(self).current == match r {
                Some(m) => m,
                None => old(self).current,
            },
    {
        let factory = self.current.0;
        let tile = self.current.1;
        let pattern = self.current.2;

        let max_factories = match crate::state::get_n_factories(self.players) {
            Ok(n) => n as usize,
            Err(_) => {
                return None;
            },
        };

        if factory == max_factories && matches!(tile, Tile::Teal) && pattern == 0 {
            None
        } else if factory == max_factories && matches!(tile, Tile::Teal) {
            let next = GameMove(0, Tile::Blue, (pattern + 1) % 6);
            self.current = next;
            Some(next)
        } else if factory == max_factories {
            let stepped = match tile {
                Tile::Blue => Tile::Yellow,
                Tile::Yellow => Tile::Red,
                Tile::Red => Tile::Black,
                Tile::Black => Tile::Teal,
                _ => {
                    return None;
                },
            };
            let next = GameMove(0, stepped, pattern);
            self.current = next;
            Some(next)
        } else {
            let next = GameMove(factory + 1, tile, pattern);
            self.current = next;
            Some(next)
        }
    }
}

} // verus!
