//! Tiles: the five colors and the Start marker.

use vstd::prelude::*;

verus! {

/// A single tile: one of the five colors, or the Start marker that sits in the
/// market until the first player draws from it.
#[derive(Debug, Clone, Copy, PartialEq, Eq, Structural)]
pub enum Tile {
    Start,
    Blue,
    Yellow,
    Red,
    Black,
    Teal,
}

impl Tile {
    /// The rank of a color on the wall: Blue 0, Yellow 1, Red 2, Black 3,
    /// Teal 4. The Start marker has no rank and is mapped outside 0..5.
    pub open spec fn color_rank(self) -> int {
        match self {
            Tile::Blue => 0,
            Tile::Yellow => 1,
            Tile::Red => 2,
            Tile::Black => 3,
            Tile::Teal => 4,
            Tile::Start => 5,
        }
    }

    /// The rank used to order tiles in canonical (sorted) collections:
    /// Start first, then the colors in wall order.
    pub open spec fn sort_rank(self) -> int {
        match self {
            Tile::Start => 0,
            Tile::Blue => 1,
            Tile::Yellow => 2,
            Tile::Red => 3,
            Tile::Black => 4,
            Tile::Teal => 5,
        }
    }

    /// Executable counterpart of [`Tile::sort_rank`].
    pub fn rank(self) -> (r: u8)
        ensures
            r as int == self.sort_rank(),
    {
        match self {
            Tile::Start => 0,
            Tile::Blue => 1,
            Tile::Yellow => 2,
            Tile::Red => 3,
            Tile::Black => 4,
            Tile::Teal => 5,
        }
    }

    /// Walks the colors in rank order; used to enumerate candidate moves.
    pub fn into_iter(self) -> (it: TileIter)
        ensures
            it.current == self,
    {
        TileIter { current: self }
    }
}

/// The first color in rank order is the default tile.
impl Default for Tile {
    fn default() -> (r: Tile)
        ensures
            r == Tile::Blue,
    {
        Tile::Blue
    }
}

/// The color of a given wall rank; the inverse of [`Tile::color_rank`] on the
/// five colors.
pub open spec fn color_of_rank(i: int) -> Tile {
    if i == 0 {
        Tile::Blue
    } else if i == 1 {
        Tile::Yellow
    } else if i == 2 {
        Tile::Red
    } else if i == 3 {
        Tile::Black
    } else {
        Tile::Teal
    }
}

/// Executable counterpart of [`color_of_rank`].
pub fn color_of_rank_exec(i: usize) -> (r: Tile)
    requires
        i < 5,
    ensures
        r == color_of_rank(i as int),
        r != Tile::Start,
        r.color_rank() == i,
{
    if i == 0 {
        Tile::Blue
    } else if i == 1 {
        Tile::Yellow
    } else if i == 2 {
        Tile::Red
    } else if i == 3 {
        Tile::Black
    } else {
        Tile::Teal
    }
}

/// The canonical order on tiles: Start before the colors, colors in wall order.
pub open spec fn tile_le(a: Tile, b: Tile) -> bool {
    a.sort_rank() <= b.sort_rank()
}

/// [`tile_le`] as an ordering relation value.
pub open spec fn tile_leq() -> spec_fn(Tile, Tile) -> bool {
    |a: Tile, b: Tile| tile_le(a, b)
}

/// Distinct tiles have distinct sort ranks, so `tile_le` orders tiles totally.
pub proof fn lemma_tile_le_total()
    ensures
        vstd::relations::total_ordering(tile_leq()),
{
}

/// Executable comparison deciding [`tile_le`].
pub fn tile_le_exec(a: Tile, b: Tile) -> (r: bool)
    ensures
        r == tile_le(a, b),
{
    a.rank() <= b.rank()
}

/// Steps through the five colors, Blue to Teal, skipping the Start marker.
pub struct TileIter {
    pub current: Tile,
}

impl TileIter {
    /// The color after the current one in rank order, or `None` once the
    /// iterator stands on Teal or on the Start marker.
    pub fn next(&mut self) -> (r: Option<Tile>)
        ensures
            match r {
                Some(t) => {
                    &&& old(self).current.sort_rank() >= 1
                    &&& old(self).current.sort_rank() < 5
                    &&& t.sort_rank() == old(self).current.sort_rank() + 1
                    &&& final(self).current == t
                },
                None => {
                    &&& (old(self).current == Tile::Teal || old(self).current == Tile::Start)
                    &&& *final(self) == *old(self)
                },
            },
    {
        match self.current {
            Tile::Blue => {
                let next = Tile::Yellow;
                self.current = next;
                Some(next)
            },
            Tile::Yellow => {
                let next = Tile::Red;
                self.current = next;
                Some(next)
            },
            Tile::Red => {
                let next = Tile::Black;
                self.current = next;
                Some(next)
            },
            Tile::Black => {
                let next = Tile::Teal;
                self.current = next;
                Some(next)
            },
            _ => None,
        }
    }
}

} // verus!
