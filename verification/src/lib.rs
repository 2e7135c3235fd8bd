//! A rules and search engine for the tile-drafting board game Azul.
//!
//! The library models the game state (bag, box top, factories, market and
//! per-player boards), validates and applies moves, scores completed pattern
//! lines by wall adjacency, replenishes the factories from the bag, and counts
//! the number of distinct legal continuations from a position with a memoized
//! depth-first search over canonicalized states.

use vstd::prelude::*;

pub mod bag;
pub mod board;
pub mod canon;
pub mod game;
pub mod moves;
pub mod rng;
pub mod search;
pub mod state;
pub mod tiles;
pub mod vecs;

verus! {

/// Everything that can go wrong while building a game, applying a move,
/// refilling the factories or scoring a round.
///
/// The legality errors (`IllegalColor` through `LineFull`) are recoverable:
/// a rejected move leaves the state unchanged and the caller simply tries the
/// next candidate. `InvalidWallLookup` signals that scoring and move legality
/// have become inconsistent (a wall lookup for the Start marker, or a tile
/// headed for an already-filled wall cell) and is not meant to be retried.
#[derive(Debug, Clone, Copy, PartialEq, Eq, Structural)]
pub enum Error {
    /// A game can only be created for 2, 3 or 4 players.
    InvalidPlayerCount,
    /// `fill` was called while some factory still held tiles.
    AlreadyFull,
    /// A move named the Start marker as the color to draw.
    IllegalColor,
    /// A move drew from the market while it held nothing at all.
    EmptyMarket,
    /// The chosen source holds no tile of the chosen color.
    TileNotAvailable,
    /// The factory index lies beyond the factories of this game.
    OutOfBounds,
    /// The destination pattern line already holds a different color.
    ColorMismatch,
    /// The destination pattern line has no room left.
    LineFull,
    /// The destination is neither the floor nor a pattern line.
    InvalidDestination,
    /// A wall placement was impossible: the color was the Start marker or the
    /// target cell was already filled.
    InvalidWallLookup,
}

} // verus!
