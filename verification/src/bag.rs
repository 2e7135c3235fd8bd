//! The bag of undrawn tiles and the box top of discarded tiles, both kept as
//! per-color counts. The Start marker never enters either reservoir.

use vstd::prelude::*;

use crate::tiles::Tile;

verus! {

/// Per-color counts of a tile reservoir.
#[derive(Debug, Clone, Copy, PartialEq, Eq, Structural)]
pub struct Bag {
    pub blue: u8,
    pub yellow: u8,
    pub red: u8,
    pub black: u8,
    pub teal: u8,
}

/// The mathematical shape of a reservoir: one unbounded count per color.
#[verifier::ext_equal]
pub ghost struct BagV {
    pub blue: int,
    pub yellow: int,
    pub red: int,
    pub black: int,
    pub teal: int,
}

impl View for Bag {
    type V = BagV;

    open spec fn view(&self) -> BagV {
        BagV {
            blue: self.blue as int,
            yellow: self.yellow as int,
            red: self.red as int,
            black: self.black as int,
            teal: self.teal as int,
        }
    }
}

impl BagV {
    /// All counts are machine-representable tile counts.
    pub open spec fn wf(self) -> bool {
        &&& 0 <= self.blue <= u8::MAX
        &&& 0 <= self.yellow <= u8::MAX
        &&& 0 <= self.red <= u8::MAX
        &&& 0 <= self.black <= u8::MAX
        &&& 0 <= self.teal <= u8::MAX
    }

    /// The number of tiles in the reservoir.
    pub open spec fn total(self) -> int {
        self.blue + self.yellow + self.red + self.black + self.teal
    }

    /// The count kept for one color; the Start marker never has a count.
    pub open spec fn count_of(self, color: Tile) -> int {
        match color {
            Tile::Blue => self.blue,
            Tile::Yellow => self.yellow,
            Tile::Red => self.red,
            Tile::Black => self.black,
            Tile::Teal => self.teal,
            Tile::Start => 0,
        }
    }

    /// The reservoir with `n` more tiles of `color`.
    pub open spec fn with_added(self, color: Tile, n: int) -> BagV {
        match color {
            Tile::Blue => BagV { blue: self.blue + n, ..self },
            Tile::Yellow => BagV { yellow: self.yellow + n, ..self },
            Tile::Red => BagV { red: self.red + n, ..self },
            Tile::Black => BagV { black: self.black + n, ..self },
            Tile::Teal => BagV { teal: self.teal + n, ..self },
            Tile::Start => self,
        }
    }

    /// An empty reservoir.
    pub open spec fn zero() -> BagV {
        BagV { blue: 0, yellow: 0, red: 0, black: 0, teal: 0 }
    }

    /// A fresh bag: twenty tiles of each color.
    pub open spec fn fresh() -> BagV {
        BagV { blue: 20, yellow: 20, red: 20, black: 20, teal: 20 }
    }
}

impl Bag {
    /// An empty reservoir.
    pub fn empty() -> (r: Bag)
        ensures
            r@ == BagV::zero(),
    {
        Bag { blue: 0, yellow: 0, red: 0, black: 0, teal: 0 }
    }

    /// The number of tiles left, as a machine integer.
    pub fn len(&self) -> (r: u8)
        requires
            self@.total() <= u8::MAX,
        ensures
            r as int == self@.total(),
    {
        self.blue + self.yellow + self.red + self.black + self.teal
    }

    /// Whether no tile is left.
    pub fn is_empty(&self) -> (r: bool)
        requires
            self@.total() <= u8::MAX,
        ensures
            r == (self@.total() == 0),
    {
        self.len() == 0
    }

    /// The counts in color-rank order, the shape used for state digests and
    /// for the weighted draw.
    pub fn hash(&self) -> (r: [u8; 5])
        ensures
            forall|i: int|
                0 <= i < 5 ==> r[i] as int == self@.count_of(crate::tiles::color_of_rank(i)),
    {
        [self.blue, self.yellow, self.red, self.black, self.teal]
    }

    /// Removes one tile of `color`.
    pub fn take_one(&mut self, color: Tile)
        requires
            color != Tile::Start,
            old(self)@.count_of(color) > 0,
        ensures
            final(self)@ == old(self)@.with_added(color, -1),
            final(self)@.total() == old(self)@.total() - 1,
    {
        match color {
            Tile::Blue => self.blue = self.blue - 1,
            Tile::Yellow => self.yellow = self.yellow - 1,
            Tile::Red => self.red = self.red - 1,
            Tile::Black => self.black = self.black - 1,
            Tile::Teal => self.teal = self.teal - 1,
            Tile::Start => (),
        }
        assert(self@ =~= old(self)@.with_added(color, -1));
    }

    /// Adds `n` tiles of `color`.
    pub fn add(&mut self, color: Tile, n: u8)
        requires
            color != Tile::Start,
            old(self)@.count_of(color) + n <= u8::MAX,
        ensures
            final(self)@ == old(self)@.with_added(color, n as int),
            final(self)@.total() == old(self)@.total() + n,
    {
        match color {
            Tile::Blue => self.blue = self.blue + n,
            Tile::Yellow => self.yellow = self.yellow + n,
            Tile::Red => self.red = self.red + n,
            Tile::Black => self.black = self.black + n,
            Tile::Teal => self.teal = self.teal + n,
            Tile::Start => (),
        }
        assert(self@ =~= old(self)@.with_added(color, n as int));
    }
}

/// A fresh bag holds twenty tiles of each color.
impl Default for Bag {
    fn default() -> (r: Bag)
        ensures
            r@ == BagV::fresh(),
            r@.total() == 100,
    {
        Bag { blue: 20, yellow: 20, red: 20, black: 20, teal: 20 }
    }
}

} // verus!
