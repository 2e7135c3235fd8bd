//! The game state and its transitions: creation, refilling, moves, scoring.

use vstd::prelude::*;
use vstd::pervasive::VecAdditionalExecFns;

use crate::bag::Bag;
use crate::bag::BagV;
use crate::board::Board;
use crate::board::BoardV;
use crate::board::count_true;
use crate::board::lemma_count_true_nonneg;
use crate::board::lemma_rows_total_nonneg;
use crate::board::rows_total;
use crate::board::wf_line;
use crate::moves::GameMove;
use crate::tiles::Tile;
use crate::vecs::colored_len;
use crate::vecs::count_tiles;
use crate::vecs::count_eq;
use crate::vecs::lemma_colored_len;
use crate::vecs::lemma_count_eq_multiset;
use crate::Error;

verus! {

/// How many factories a game has: two players share five, three players seven,
/// four players nine. Any other player count is rejected.
pub fn get_n_factories(players: u8) -> (r: Result<u8, Error>)
    ensures
        match r {
            Ok(n) => 2 <= players <= 4 && n == 2 * players + 1,
            Err(e) => e == Error::InvalidPlayerCount && !(2 <= players <= 4),
        },
{
    match players {
        2 => Ok(5),
        3 => Ok(7),
        4 => Ok(9),
        _ => Err(Error::InvalidPlayerCount),
    }
}

/// A full game position.
#[derive(Debug)]
pub struct State {
    /// Whose turn it is, an index into `boards`.
    pub player: u8,
    /// Discarded tiles waiting to be reshuffled into the bag.
    pub box_top: Bag,
    /// Undrawn tiles.
    pub bag: Bag,
    /// The shared pool; may hold the Start marker.
    pub market: Vec<Tile>,
    /// The draw displays, each holding up to four colored tiles.
    pub factories: Vec<Vec<Tile>>,
    /// One board per player.
    pub boards: Vec<Board>,
}

/// The mathematical shape of a game position.
#[verifier::ext_equal]
pub ghost struct StateV {
    pub player: int,
    pub box_top: BagV,
    pub bag: BagV,
    pub market: Seq<Tile>,
    pub factories: Seq<Seq<Tile>>,
    pub boards: Seq<BoardV>,
}

impl View for State {
    type V = StateV;

    open spec fn view(&self) -> StateV {
        StateV {
            player: self.player as int,
            box_top: self.box_top@,
            bag: self.bag@,
            market: self.market@,
            factories: self.factories@.map_values(|f: Vec<Tile>| f@),
            boards: self.boards@.map_values(|b: Board| b@),
        }
    }
}

/// A well-formed factory: at most four tiles, never the Start marker.
pub open spec fn wf_factory(f: Seq<Tile>) -> bool {
    &&& f.len() <= 4
    &&& !f.contains(Tile::Start)
}

/// The tiles consumed by a list of boards, counted once each.
pub open spec fn boards_total(bs: Seq<BoardV>) -> int
    decreases bs.len(),
{
    if bs.len() == 0 {
        0
    } else {
        boards_total(bs.drop_last()) + bs.last().tile_total()
    }
}

impl StateV {
    /// The game's global invariant. Structure: a player count of 2 to 4 with
    /// the active player among them, `2 * players + 1` factories of at most
    /// four colored tiles, at most one Start marker in the market, and
    /// well-formed boards. Conservation: exactly 100 colored tiles exist
    /// across bag, box top, market, factories and boards.
    pub open spec fn wf(self) -> bool {
        &&& 2 <= self.boards.len() <= 4
        &&& 0 <= self.player < self.boards.len()
        &&& self.factories.len() == 2 * self.boards.len() + 1
        &&& forall|f: int| 0 <= f < self.factories.len() ==> wf_factory(#[trigger] self.factories[f])
        &&& count_eq(self.market, Tile::Start) <= 1
        &&& forall|b: int| 0 <= b < self.boards.len() ==> (#[trigger] self.boards[b]).wf()
        &&& self.bag.wf()
        &&& self.box_top.wf()
        &&& self.tile_total() == 100
    }

    /// Every colored tile in the system, counted once: bag, box top, market,
    /// factories and boards.
    pub open spec fn tile_total(self) -> int {
        self.bag.total() + self.box_top.total() + colored_len(self.market) + rows_total(
            self.factories,
        ) + boards_total(self.boards)
    }

    /// The tiles still on the table this round, Start marker included. Every
    /// legal move takes at least one of them, so this is the measure the
    /// search recurses on.
    pub open spec fn supply(self) -> int {
        self.market.len() + rows_total(self.factories)
    }

    /// Whether the round is over: every factory and the market are empty.
    pub open spec fn round_over(self) -> bool {
        &&& self.market.len() == 0
        &&& forall|f: int| 0 <= f < self.factories.len() ==> (#[trigger] self.factories[f]).len() == 0
    }
}

/// The position every game starts from: player 0 to move, a fresh bag, an
/// empty box top, the Start marker alone in the market, `2 * players + 1`
/// empty factories and one fresh board per player.
pub open spec fn fresh_state(players: int) -> StateV {
    StateV {
        player: 0,
        box_top: BagV::zero(),
        bag: BagV::fresh(),
        market: seq![Tile::Start],
        factories: Seq::new((2 * players + 1) as nat, |i: int| Seq::<Tile>::empty()),
        boards: Seq::new(players as nat, |i: int| fresh_board()),
    }
}

/// A board with nothing on it.
pub open spec fn fresh_board() -> BoardV {
    BoardV {
        score: 0,
        wall: Seq::new(25, |i: int| false),
        floor: Seq::<Tile>::empty(),
        patterns: Seq::new(5, |k: int| Seq::<Tile>::empty()),
    }
}

/// Board totals are non-negative.
pub proof fn lemma_boards_total_nonneg(bs: Seq<BoardV>)
    ensures
        boards_total(bs) >= 0,
    decreases bs.len(),
{
    if bs.len() > 0 {
        lemma_boards_total_nonneg(bs.drop_last());
        lemma_board_total_nonneg(bs.last());
    }
}

/// A single board's total is non-negative.
pub proof fn lemma_board_total_nonneg(b: BoardV)
    ensures
        b.tile_total() >= 0,
{
    lemma_count_true_nonneg(b.wall);
    lemma_rows_total_nonneg(b.patterns);
}

/// Replacing one board adjusts the list total by the difference.
pub proof fn lemma_boards_total_update(bs: Seq<BoardV>, j: int, b: BoardV)
    requires
        0 <= j < bs.len(),
    ensures
        boards_total(bs.update(j, b)) == boards_total(bs) - bs[j].tile_total() + b.tile_total(),
    decreases bs.len(),
{
    if j == bs.len() - 1 {
        assert(bs.update(j, b).drop_last() =~= bs.drop_last());
        assert(bs.update(j, b).last() == b);
    } else {
        lemma_boards_total_update(bs.drop_last(), j, b);
        assert(bs.update(j, b).drop_last() =~= bs.drop_last().update(j, b));
        assert(bs.update(j, b).last() == bs.last());
    }
}

impl State {
    /// Structural and conservation well-formedness, stated of the view.
    pub open spec fn wf(&self) -> bool {
        self@.wf()
    }

    /// A fresh game for 2, 3 or 4 players.
    pub fn new(players: u8) -> (r: Result<State, Error>)
        ensures
            match r {
                Ok(s) => {
                    &&& 2 <= players <= 4
                    &&& s@ == fresh_state(players as int)
                    &&& s@.wf()
                },
                Err(e) => e == Error::InvalidPlayerCount && !(2 <= players <= 4),
            },
    {
        let n_factories = get_n_factories(players)?;
        let mut factories: Vec<Vec<Tile>> = Vec::new();
        let mut i: u8 = 0;
        while i < n_factories
            invariant
                i <= n_factories,
                factories@.len() == i as int,
                forall|j: int| 0 <= j < i ==> (#[trigger] factories@[j])@ == Seq::<Tile>::empty(),
            decreases n_factories - i,
        {
            factories.push(Vec::new());
            i = i + 1;
        }

        let mut boards: Vec<Board> = Vec::new();
        let mut i: u8 = 0;
        while i < players
            invariant
                i <= players,
                boards@.len() == i as int,
                forall|j: int| 0 <= j < i ==> (#[trigger] boards@[j])@ == fresh_board(),
            decreases players - i,
        {
            let b = Board::default();
            proof {
                assert(b@ =~~= fresh_board());
            }
            boards.push(b);
            i = i + 1;
        }

        let mut market: Vec<Tile> = Vec::new();
        market.push(Tile::Start);

        let game = State {
            player: 0,
            box_top: Bag::empty(),
            bag: Bag::default(),
            market,
            factories,
            boards,
        };
        proof {
            assert(game@ =~~= fresh_state(players as int));
            lemma_fresh_state_wf(players as int);
        }
        Ok(game)
    }

    /// A state digest: the active player and the two reservoirs' counts, in a
    /// fixed order, eleven bytes in all.
    pub fn hash(&self) -> (r: Vec<u8>)
        ensures
            r@.len() == 11,
            r@[0] == self.player,
            forall|i: int|
                0 <= i < 5 ==> r@[1 + i] as int == self@.box_top.count_of(
                    crate::tiles::color_of_rank(i),
                ),
            forall|i: int|
                0 <= i < 5 ==> r@[6 + i] as int == self@.bag.count_of(
                    crate::tiles::color_of_rank(i),
                ),
    {
        let mut r: Vec<u8> = Vec::new();
        r.push(self.player);
        let box_counts = self.box_top.hash();
        let bag_counts = self.bag.hash();
        r.push(box_counts[0]);
        r.push(box_counts[1]);
        r.push(box_counts[2]);
        r.push(box_counts[3]);
        r.push(box_counts[4]);
        r.push(bag_counts[0]);
        r.push(bag_counts[1]);
        r.push(bag_counts[2]);
        r.push(bag_counts[3]);
        r.push(bag_counts[4]);
        r
    }

    /// Whether the round is over: every factory and the market are empty.
    pub fn round_over(&self) -> (r: bool)
        ensures
            r == self@.round_over(),
    {
        if self.market.len() != 0 {
            return false;
        }
        let mut i: usize = 0;
        while i < self.factories.len()
            invariant
                i <= self.factories@.len(),
                forall|f: int| 0 <= f < i ==> (#[trigger] self@.factories[f]).len() == 0,
            decreases self.factories@.len() - i,
        {
            if self.factories[i].len() != 0 {
                proof {
                    assert(self@.factories[i as int] == self.factories@[i as int]@);
                }
                return false;
            }
            i = i + 1;
        }
        true
    }
}

/// The fresh state is well-formed and holds exactly the 100 tiles of the game.
pub proof fn lemma_fresh_state_wf(players: int)
    requires
        2 <= players <= 4,
    ensures
        fresh_state(players).wf(),
        fresh_state(players).tile_total() == 100,
        fresh_state(players).supply() == 1,
{
    let s = fresh_state(players);
    reveal_with_fuel(Seq::filter, 3);
    assert(s.market.drop_last() =~= Seq::<Tile>::empty());
    assert(s.market.last() == Tile::Start);
    assert(Seq::<Tile>::empty().filter(crate::vecs::nonstart_pred()) =~= Seq::<Tile>::empty());
    assert(colored_len(s.market) == 0);
    lemma_rows_total_all_empty(s.factories);
    lemma_boards_total_fresh(s.boards);
    assert(count_eq(s.market, Tile::Start) <= 1) by {
        lemma_count_eq_multiset(s.market, Tile::Start);
        lemma_colored_len(s.market);
    }
}

/// A list of empty rows carries no tile.
pub proof fn lemma_rows_total_all_empty(ps: Seq<Seq<Tile>>)
    requires
        forall|i: int| 0 <= i < ps.len() ==> (#[trigger] ps[i]).len() == 0,
    ensures
        rows_total(ps) == 0,
    decreases ps.len(),
{
    if ps.len() > 0 {
        lemma_rows_total_all_empty(ps.drop_last());
    }
}

/// A list of fresh boards carries no tile.
pub proof fn lemma_boards_total_fresh(bs: Seq<BoardV>)
    requires
        forall|i: int| 0 <= i < bs.len() ==> #[trigger] bs[i] == fresh_board(),
    ensures
        boards_total(bs) == 0,
    decreases bs.len(),
{
    if bs.len() > 0 {
        lemma_boards_total_fresh(bs.drop_last());
        lemma_fresh_board_total();
    }
}

/// A fresh board has consumed no tile.
pub proof fn lemma_fresh_board_total()
    ensures
        fresh_board().tile_total() == 0,
        fresh_board().wf(),
{
    let b = fresh_board();
    reveal(Seq::filter);
    lemma_count_true_all_false(b.wall);
    lemma_rows_total_all_empty(b.patterns);
}

/// A wall of empty cells counts no tile.
proof fn lemma_count_true_all_false(w: Seq<bool>)
    requires
        forall|i: int| 0 <= i < w.len() ==> !w[i],
    ensures
        count_true(w) == 0,
    decreases w.len(),
{
    if w.len() > 0 {
        lemma_count_true_all_false(w.drop_last());
    }
}

/// A state in canonical form: market sorted, every factory sorted and the
/// factory list sorted, every floor sorted. Factories are interchangeable and
/// tile collections carry no meaningful order, so this representative stands
/// for every state that differs only by such ordering.
pub open spec fn canon_state(s: StateV) -> StateV {
    StateV {
        market: crate::canon::canon_tiles(s.market),
        factories: crate::canon::canon_rows(s.factories),
        boards: s.boards.map_values(
            |b: BoardV| BoardV { floor: crate::canon::canon_tiles(b.floor), ..b },
        ),
        ..s
    }
}

/// Row totals only depend on row lengths, which sorting each row keeps.
proof fn lemma_rows_total_map_canon(ff: Seq<Seq<Tile>>)
    ensures
        rows_total(ff.map_values(|s: Seq<Tile>| crate::canon::canon_tiles(s))) == rows_total(ff),
    decreases ff.len(),
{
    let mapped = ff.map_values(|s: Seq<Tile>| crate::canon::canon_tiles(s));
    if ff.len() > 0 {
        lemma_rows_total_map_canon(ff.drop_last());
        assert(mapped.drop_last() =~= ff.drop_last().map_values(
            |s: Seq<Tile>| crate::canon::canon_tiles(s),
        ));
        crate::canon::lemma_canon_tiles_ensures(ff.last());
        crate::vecs::lemma_perm_counts(crate::canon::canon_tiles(ff.last()), ff.last());
        assert(mapped.last() == crate::canon::canon_tiles(ff.last()));
    } else {
        assert(mapped =~= Seq::<Seq<Tile>>::empty());
    }
}

/// Sorting floors keeps each board's consumed-tile total.
proof fn lemma_boards_total_map_floor(bs: Seq<BoardV>)
    ensures
        boards_total(
            bs.map_values(|b: BoardV| BoardV { floor: crate::canon::canon_tiles(b.floor), ..b }),
        ) == boards_total(bs),
    decreases bs.len(),
{
    let f = |b: BoardV| BoardV { floor: crate::canon::canon_tiles(b.floor), ..b };
    let mapped = bs.map_values(f);
    if bs.len() > 0 {
        lemma_boards_total_map_floor(bs.drop_last());
        assert(mapped.drop_last() =~= bs.drop_last().map_values(f));
        crate::canon::lemma_canon_tiles_ensures(bs.last().floor);
        crate::vecs::lemma_perm_counts(crate::canon::canon_tiles(bs.last().floor), bs.last().floor);
        assert(mapped.last() == f(bs.last()));
        assert(mapped.last().tile_total() == bs.last().tile_total());
    } else {
        assert(mapped =~= Seq::<BoardV>::empty());
    }
}

/// Canonicalization renames nothing: it keeps well-formedness, the global tile
/// count, the table supply, the active player and the reservoirs.
pub proof fn lemma_canon_state_preserves(s: StateV)
    requires
        s.wf(),
    ensures
        canon_state(s).wf(),
        canon_state(s).tile_total() == s.tile_total(),
        canon_state(s).supply() == s.supply(),
        canon_state(s).player == s.player,
        canon_state(s).bag == s.bag,
        canon_state(s).box_top == s.box_top,
        canon_state(s).boards.len() == s.boards.len(),
        canon_state(s).factories.len() == s.factories.len(),
{
    broadcast use vstd::seq_lib::group_to_multiset_ensures;

    let c = canon_state(s);
    let mapped = s.factories.map_values(|t: Seq<Tile>| crate::canon::canon_tiles(t));

    // Market: a permutation.
    crate::canon::lemma_canon_tiles_ensures(s.market);
    crate::vecs::lemma_perm_counts(c.market, s.market);

    // Factories: a permutation of per-factory permutations.
    crate::canon::lemma_canon_rows_ensures(s.factories);
    crate::board::lemma_rows_total_perm(c.factories, mapped);
    lemma_rows_total_map_canon(s.factories);
    assert forall|f: int| 0 <= f < c.factories.len() implies wf_factory(
        #[trigger] c.factories[f],
    ) by {
        let x = c.factories[f];
        assert(c.factories.contains(x));
        assert(c.factories.to_multiset().count(x) > 0);
        assert(mapped.to_multiset().count(x) > 0);
        assert(mapped.contains(x));
        let j = choose|j: int| 0 <= j < mapped.len() && mapped[j] == x;
        assert(x == crate::canon::canon_tiles(s.factories[j]));
        crate::canon::lemma_canon_tiles_ensures(s.factories[j]);
        crate::vecs::lemma_perm_counts(x, s.factories[j]);
        assert(wf_factory(s.factories[j]));
    }

    // Boards: floors are permuted, everything else stays.
    lemma_boards_total_map_floor(s.boards);
    assert forall|b: int| 0 <= b < c.boards.len() implies (#[trigger] c.boards[b]).wf() by {
        assert(c.boards[b].patterns == s.boards[b].patterns);
        assert(c.boards[b].wall == s.boards[b].wall);
        assert(c.boards[b].score == s.boards[b].score);
    }
}

impl State {
    /// Rewrites the state into its canonical form: sorts the market, each
    /// factory, the factory list and each floor. The position it describes is
    /// unchanged.
    pub fn canonicalize(&mut self)
        requires
            old(self).wf(),
        ensures
            final(self)@ == canon_state(old(self)@),
            final(self).wf(),
            final(self)@.tile_total() == old(self)@.tile_total(),
            final(self)@.supply() == old(self)@.supply(),
    {
        let ghost pre = old(self)@;
        crate::canon::sort_tiles(&mut self.market);
        crate::canon::sort_rows(&mut self.factories);
        proof {
            assert(crate::canon::views_of(self.factories@) =~= self@.factories);
            assert(crate::canon::views_of(old(self).factories@) =~= pre.factories);
        }
        let mut i: usize = 0;
        while i < self.boards.len()
            invariant
                i <= self.boards@.len(),
                self.boards@.len() == pre.boards.len(),
                self.market@ == crate::canon::canon_tiles(pre.market),
                crate::canon::views_of(self.factories@) == crate::canon::canon_rows(pre.factories),
                self.player as int == pre.player,
                self.bag@ == pre.bag,
                self.box_top@ == pre.box_top,
                forall|j: int|
                    0 <= j < i ==> (#[trigger] self.boards@[j])@ == (BoardV {
                        floor: crate::canon::canon_tiles(pre.boards[j].floor),
                        ..pre.boards[j]
                    }),
                forall|j: int|
                    i <= j < pre.boards.len() ==> (#[trigger] self.boards@[j])@ == pre.boards[j],
            decreases self.boards@.len() - i,
        {
            let mut b = self.boards[i].clone();
            proof {
                assert(self.boards@[i as int]@ == pre.boards[i as int]);
            }
            crate::canon::sort_tiles(&mut b.floor);
            proof {
                assert(b@ =~= (BoardV {
                    floor: crate::canon::canon_tiles(pre.boards[i as int].floor),
                    ..pre.boards[i as int]
                }));
            }
            self.boards.set(i, b);
            i = i + 1;
        }
        proof {
            let c = canon_state(pre);
            assert forall|j: int| 0 <= j < pre.boards.len() implies self@.boards[j]
                == c.boards[j] by {
                assert(self@.boards[j] == self.boards@[j]@);
            }
            assert(self@.boards =~= c.boards);
            assert(self@.factories =~= crate::canon::views_of(self.factories@));
            assert(self@ =~= c);
            lemma_canon_state_preserves(pre);
        }
    }
}

impl State {
    /// Refills the factories from the bag: four tiles per factory, each drawn
    /// with probability proportional to its color's remaining bag count. When
    /// the bag runs dry it is restocked from the box top once; when both are
    /// empty the refill stops early and the last factories stay short. Fails
    /// with `AlreadyFull` when some factory still holds tiles, leaving the
    /// state unchanged.
    #[verifier::loop_isolation(false)]
    pub fn fill(&mut self, rng: rand::rngs::StdRng) -> (r: Result<(), Error>)
        requires
            old(self).wf(),
        ensures
            final(self).wf(),
            match r {
                Ok(()) => {
                    let avail = old(self)@.bag.total() + old(self)@.box_top.total();
                    let n = old(self)@.factories.len() as int;
                    &&& forall|j: int|
                        0 <= j < n ==> (#[trigger] old(self)@.factories[j]).len() == 0
                    &&& final(self)@.market == old(self)@.market
                    &&& final(self)@.boards == old(self)@.boards
                    &&& final(self)@.player == old(self)@.player
                    &&& final(self)@.factories.len() == n
                    &&& rows_total(final(self)@.factories) == if avail <= 4 * n {
                        avail
                    } else {
                        4 * n
                    }
                    &&& final(self)@.bag.total() + final(self)@.box_top.total() == avail
                        - rows_total(final(self)@.factories)
                    &&& final(self)@.box_top.total() <= old(self)@.box_top.total()
                },
                Err(e) => {
                    &&& e == Error::AlreadyFull
                    &&& *final(self) == *old(self)
                    &&& exists|j: int|
                        0 <= j < old(self)@.factories.len() && (#[trigger] old(
                            self,
                        )@.factories[j]).len() != 0
                },
            },
    {
        let mut rng = rng;
        let ghost pre = old(self)@;
        let n = self.factories.len();

        let mut i: usize = 0;
        while i < n
            invariant
                i <= n,
                n == self.factories@.len(),
                *self == *old(self),
                self.wf(),
                forall|j: int| 0 <= j < i ==> (#[trigger] self@.factories[j]).len() == 0,
            decreases n - i,
        {
            if self.factories[i].len() != 0 {
                proof {
                    assert(self@.factories[i as int] == self.factories@[i as int]@);
                }
                return Err(Error::AlreadyFull);
            }
            proof {
                assert(self@.factories[i as int] == self.factories@[i as int]@);
            }
            i = i + 1;
        }

        let ghost avail = pre.bag.total() + pre.box_top.total();
        proof {
            lemma_rows_total_all_empty(self@.factories);
            crate::board::lemma_rows_total_nonneg(self@.factories);
        }

        let mut f: usize = 0;
        while f < n
            invariant
                f <= n,
                n == self.factories@.len(),
                self.wf(),
                self.market@ == pre.market,
                self@.boards == pre.boards,
                self.player as int == pre.player,
                forall|j: int| f <= j < n ==> (#[trigger] self@.factories[j]).len() == 0,
                self@.bag.total() + self@.box_top.total() + rows_total(self@.factories) == avail,
                self@.box_top.total() <= pre.box_top.total(),
                rows_total(self@.factories) == 4 * f,
                forall|j: int| 0 <= j < n ==> (#[trigger] old(self)@.factories[j]).len() == 0,
            decreases n - f,
        {
            while self.factories[f].len() < 4
                invariant
                    f < n,
                    n == self.factories@.len(),
                    self.wf(),
                    self.market@ == pre.market,
                    self@.boards == pre.boards,
                    self.player as int == pre.player,
                    forall|j: int| f < j < n ==> (#[trigger] self@.factories[j]).len() == 0,
                    self@.bag.total() + self@.box_top.total() + rows_total(self@.factories)
                        == avail,
                    self@.box_top.total() <= pre.box_top.total(),
                    rows_total(self@.factories) == 4 * f + self@.factories[f as int].len(),
                    forall|j: int| 0 <= j < n ==> (#[trigger] old(self)@.factories[j]).len() == 0,
                decreases 4 - self@.factories[f as int].len(),
            {
                proof {
                    crate::vecs::lemma_colored_len(self.market@);
                    crate::board::lemma_rows_total_nonneg(self@.factories);
                    lemma_boards_total_nonneg(self@.boards);
                    assert(self@.bag.total() <= 100 && self@.box_top.total() <= 100);
                }
                if self.bag.is_empty() && !self.box_top.is_empty() {
                    self.bag = self.box_top;
                    self.box_top = Bag::empty();
                }
                if self.bag.is_empty() {
                    // Bag and box top are exhausted: the remaining slots stay
                    // empty and the refill ends here.
                    proof {
                        crate::board::lemma_rows_total_nonneg(self@.factories);
                        assert(rows_total(self@.factories) <= 4 * (n as int)) by {
                            assert(self@.bag.total() + self@.box_top.total() == 0);
                        }
                    }
                    return Ok(());
                }
                let weights = self.bag.hash();
                proof {
                    assert(self@.bag.total() > 0);
                    assert(exists|w: int| 0 <= w < 5 && weights[w] > 0) by {
                        if weights[0] == 0 && weights[1] == 0 && weights[2] == 0 && weights[3]
                            == 0 && weights[4] == 0 {
                            assert(self@.bag.total() == 0);
                        }
                    }
                }
                let idx = crate::rng::draw_weighted(&mut rng, &weights);
                let color = crate::tiles::color_of_rank_exec(idx);
                self.bag.take_one(color);
                let ghost before = self@.factories;
                let mut fac = crate::vecs::copy_tiles(&self.factories[f]);
                fac.push(color);
                self.factories.set(f, fac);
                proof {
                    assert(self@.factories =~= before.update(f as int, before[f as int].push(color)));
                    crate::board::lemma_rows_total_update(
                        before,
                        f as int,
                        before[f as int].push(color),
                    );
                    assert(!self@.factories[f as int].contains(Tile::Start)) by {
                        assert(forall|x: int|
                            0 <= x < before[f as int].len() ==> before[f as int][x] != Tile::Start);
                    }
                }
            }
            f = f + 1;
        }
        proof {
            assert(rows_total(self@.factories) == 4 * (n as int));
            assert(avail >= 4 * (n as int));
        }
        Ok(())
    }
}

/// The floor penalty table: 0, 1, 2, 4, 6, 8, 11 for zero to six floor
/// tiles, 14 from seven on.
pub open spec fn floor_penalty(n: int) -> int {
    if n <= 0 {
        0
    } else if n == 1 {
        1
    } else if n == 2 {
        2
    } else if n == 3 {
        4
    } else if n == 4 {
        6
    } else if n == 5 {
        8
    } else if n == 6 {
        11
    } else {
        14
    }
}

/// A reservoir with the colored tiles of `s` added to it.
pub open spec fn bag_plus_counts(x: BagV, s: Seq<Tile>) -> BagV {
    BagV {
        blue: x.blue + count_eq(s, Tile::Blue),
        yellow: x.yellow + count_eq(s, Tile::Yellow),
        red: x.red + count_eq(s, Tile::Red),
        black: x.black + count_eq(s, Tile::Black),
        teal: x.teal + count_eq(s, Tile::Teal),
    }
}

/// The five color counts add up to the colored length.
pub proof fn lemma_color_counts_sum(s: Seq<Tile>)
    ensures
        count_eq(s, Tile::Blue) + count_eq(s, Tile::Yellow) + count_eq(s, Tile::Red) + count_eq(
            s,
            Tile::Black,
        ) + count_eq(s, Tile::Teal) == colored_len(s),
    decreases s.len(),
{
    reveal(Seq::filter);
    if s.len() > 0 {
        lemma_color_counts_sum(s.drop_last());
        assert(s =~= s.drop_last().push(s.last()));
        crate::vecs::lemma_filter_push(s.drop_last(), crate::vecs::eq_pred(Tile::Blue), s.last());
        crate::vecs::lemma_filter_push(s.drop_last(), crate::vecs::eq_pred(Tile::Yellow), s.last());
        crate::vecs::lemma_filter_push(s.drop_last(), crate::vecs::eq_pred(Tile::Red), s.last());
        crate::vecs::lemma_filter_push(s.drop_last(), crate::vecs::eq_pred(Tile::Black), s.last());
        crate::vecs::lemma_filter_push(s.drop_last(), crate::vecs::eq_pred(Tile::Teal), s.last());
        crate::vecs::lemma_filter_push(s.drop_last(), crate::vecs::nonstart_pred(), s.last());
    }
}

/// Scores pattern line `row` of `b` if it is full: one representative tile
/// moves to the wall (failing fatally on a Start tile or an occupied cell),
/// the adjacency score is added (clamped to the score's machine range), the
/// remaining `row` tiles return to the box top, and the line is cleared.
/// A line that is not full is left alone.
pub open spec fn score_row(b: BoardV, x: BagV, row: int) -> Result<(BoardV, BagV), Error> {
    let line = b.patterns[row];
    if line.len() == row + 1 {
        let color = line[0];
        if color == Tile::Start {
            Err(Error::InvalidWallLookup)
        } else {
            let col = crate::board::wall_index_spec(color, row);
            if crate::board::wall_at(b.wall, row, col) {
                Err(Error::InvalidWallLookup)
            } else {
                let wall1 = b.wall.update(row * 5 + col, true);
                let gained = crate::board::connected_spec(wall1, row, col);
                let score1 = if b.score + gained > u8::MAX {
                    u8::MAX as int
                } else {
                    b.score + gained
                };
                Ok(
                    (
                        BoardV {
                            score: score1,
                            wall: wall1,
                            patterns: b.patterns.update(row, Seq::<Tile>::empty()),
                            ..b
                        },
                        x.with_added(color, row),
                    ),
                )
            }
        }
    } else {
        Ok((b, x))
    }
}

/// Scores the pattern lines of `b` from `row` upward.
pub open spec fn score_rows_from(b: BoardV, x: BagV, row: int) -> Result<(BoardV, BagV), Error>
    decreases 5 - row,
{
    if row >= 5 || row < 0 {
        Ok((b, x))
    } else {
        match score_row(b, x, row) {
            Err(e) => Err(e),
            Ok((b1, x1)) => score_rows_from(b1, x1, row + 1),
        }
    }
}

/// After the lines are scored, the floor penalty is subtracted (the score is
/// clamped at zero) and the floor is cleared, its colored tiles going to the
/// box top; a Start marker on the floor leaves the board, to reappear in the
/// market when the next round is set up.
pub open spec fn finish_board(b: BoardV, x: BagV) -> (BoardV, BagV) {
    let penalty = floor_penalty(b.floor.len() as int);
    let score1 = if b.score - penalty < 0 {
        0
    } else {
        b.score - penalty
    };
    (BoardV { score: score1, floor: Seq::<Tile>::empty(), ..b }, bag_plus_counts(x, b.floor))
}

/// Scores one whole board: every full line, then the floor.
pub open spec fn score_board_spec(b: BoardV, x: BagV) -> Result<(BoardV, BagV), Error> {
    match score_rows_from(b, x, 0) {
        Err(e) => Err(e),
        Ok((b1, x1)) => Ok(finish_board(b1, x1)),
    }
}

/// Scores the boards from `idx` upward, threading the box top through.
pub open spec fn score_boards_from(bs: Seq<BoardV>, x: BagV, idx: int) -> Result<
    (Seq<BoardV>, BagV),
    Error,
>
    decreases bs.len() - idx,
{
    if idx >= bs.len() || idx < 0 {
        Ok((bs, x))
    } else {
        match score_board_spec(bs[idx], x) {
            Err(e) => Err(e),
            Ok((b1, x1)) => score_boards_from(bs.update(idx, b1), x1, idx + 1),
        }
    }
}

/// The round transition's scoring step: every board is scored in player
/// order, full lines feed the wall, floors are penalized and cleared.
pub open spec fn score_spec(s: StateV) -> Result<StateV, Error> {
    match score_boards_from(s.boards, s.box_top, 0) {
        Err(e) => Err(e),
        Ok((bs, x)) => Ok(StateV { boards: bs, box_top: x, ..s }),
    }
}

/// Scores one board against a box top, without touching the rest of the game.
/// Returns the scored board and the grown box top, or the fatal error.
#[verifier::loop_isolation(false)]
fn score_one_board(board: &Board, box_top: Bag) -> (r: Result<(Board, Bag), Error>)
    requires
        board.wf(),
        box_top@.total() + board@.tile_total() <= 100,
    ensures
        match r {
            Ok((b1, x1)) => {
                &&& score_board_spec(board@, box_top@) == Ok::<(BoardV, BagV), Error>((b1@, x1@))
                &&& b1.wf()
                &&& x1@.total() + b1@.tile_total() == box_top@.total() + board@.tile_total()
            },
            Err(e) => score_board_spec(board@, box_top@) == Err::<(BoardV, BagV), Error>(e),
        },
{
    proof {
        lemma_board_total_nonneg(board@);
        crate::board::lemma_count_true_nonneg(board@.wall);
        crate::board::lemma_rows_total_nonneg(board@.patterns);
        crate::vecs::lemma_colored_len(board@.floor);
    }
    let mut b = board.clone();
    let mut x = box_top;
    let mut row: usize = 0;
    while row < 5
        invariant
            row <= 5,
            b.wf(),
            x@.total() + b@.tile_total() == box_top@.total() + board@.tile_total(),
            b@.floor == board@.floor,
            score_rows_from(board@, box_top@, 0) == score_rows_from(b@, x@, row as int),
        decreases 5 - row,
    {
        proof {
            crate::board::lemma_count_true_nonneg(b@.wall);
            crate::board::lemma_rows_total_nonneg(b@.patterns);
            crate::vecs::lemma_colored_len(b@.floor);
        }
        let line_len = b.patterns[row].len();
        if line_len == row + 1 {
            let color = b.patterns[row][0];
            proof {
                assert(b@.patterns[row as int] == b.patterns@[row as int]@);
            }
            let col = match Board::wall_index(color, row) {
                Ok(col) => col,
                Err(e) => {
                    return Err(e);
                },
            };
            let cell = row * 5 + col;
            if b.wall[cell] {
                return Err(Error::InvalidWallLookup);
            }
            let ghost b_before = b@;
            let ghost x_before = x@;
            b.wall.set(cell, true);
            proof {
                crate::board::lemma_count_true_update(b_before.wall, cell as int);
            }
            let gained = b.connected((row, col));
            b.score = if b.score > 255 - gained {
                255
            } else {
                b.score + gained
            };
            proof {
                assert(x@.count_of(color) <= x@.total());
            }
            x.add(color, row as u8);
            let empty_line: Vec<Tile> = Vec::new();
            let ghost patterns_before = b@.patterns;
            b.patterns.set(row, empty_line);
            proof {
                crate::board::lemma_rows_total_update(
                    patterns_before,
                    row as int,
                    Seq::<Tile>::empty(),
                );
                assert(b@.patterns =~= patterns_before.update(row as int, Seq::<Tile>::empty()));
                let expect = score_row(b_before, x_before, row as int);
                assert(expect is Ok);
                assert(b@ =~= expect->Ok_0.0);
                assert(x@ =~= expect->Ok_0.1);
            }
        } else {
            proof {
                assert(score_row(b@, x@, row as int) == Ok::<(BoardV, BagV), Error>((b@, x@)));
            }
        }
        row = row + 1;
    }

    // Floor penalty and clearing.
    let flen = b.floor.len();
    let penalty: u8 = if flen == 0 {
        0
    } else if flen == 1 {
        1
    } else if flen == 2 {
        2
    } else if flen == 3 {
        4
    } else if flen == 4 {
        6
    } else if flen == 5 {
        8
    } else if flen == 6 {
        11
    } else {
        14
    };
    let ghost b_after_rows = b@;
    let ghost x_after_rows = x@;
    b.score = if b.score < penalty {
        0
    } else {
        b.score - penalty
    };
    proof {
        lemma_color_counts_sum(b@.floor);
        crate::vecs::lemma_colored_len(b@.floor);
        crate::board::lemma_count_true_nonneg(b@.wall);
        crate::board::lemma_rows_total_nonneg(b@.patterns);
        assert forall|t: Tile| count_eq(b@.floor, t) >= 0 by {
            crate::vecs::lemma_count_eq_multiset(b@.floor, t);
        }
    }
    let blue = count_tiles(&b.floor, Tile::Blue);
    let yellow = count_tiles(&b.floor, Tile::Yellow);
    let red = count_tiles(&b.floor, Tile::Red);
    let black = count_tiles(&b.floor, Tile::Black);
    let teal = count_tiles(&b.floor, Tile::Teal);
    x.add(Tile::Blue, blue as u8);
    x.add(Tile::Yellow, yellow as u8);
    x.add(Tile::Red, red as u8);
    x.add(Tile::Black, black as u8);
    x.add(Tile::Teal, teal as u8);
    b.floor.clear();
    proof {
        let expect = finish_board(b_after_rows, x_after_rows);
        assert(b@ =~= expect.0);
        assert(x@ =~= expect.1);
    }
    Ok((b, x))
}

/// Scoring the rows of one well-formed board keeps it well-formed and never
/// clears a wall cell: cells only go from empty to filled.
proof fn lemma_score_rows_wall_monotonic(b: BoardV, x: BagV, row: int)
    requires
        b.wf(),
        score_rows_from(b, x, row) is Ok,
    ensures
        ({
            let b1 = score_rows_from(b, x, row)->Ok_0.0;
            &&& b1.wf()
            &&& b1.wall.len() == b.wall.len()
            &&& forall|i: int| 0 <= i < b.wall.len() && b.wall[i] ==> b1.wall[i]
        }),
    decreases 5 - row,
{
    if row >= 5 || row < 0 {
    } else {
        let step = score_row(b, x, row);
        let b2 = step->Ok_0.0;
        let x2 = step->Ok_0.1;
        assert(b2.wf() && b2.wall.len() == b.wall.len()) by {
            if b.patterns[row].len() == row + 1 {
                let color = b.patterns[row][0];
                let col = crate::board::wall_index_spec(color, row);
                assert(0 <= col < 5);
                assert(wf_line(Seq::<Tile>::empty(), row));
                crate::board::lemma_connected_spec_at_least_two(
                    b.wall.update(row * 5 + col, true),
                    row,
                    col,
                );
            }
        }
        assert(forall|i: int| 0 <= i < b.wall.len() && b.wall[i] ==> b2.wall[i]);
        lemma_score_rows_wall_monotonic(b2, x2, row + 1);
        let b1 = score_rows_from(b, x, row)->Ok_0.0;
        assert forall|i: int| 0 <= i < b.wall.len() && b.wall[i] implies b1.wall[i] by {
            assert(b2.wall[i]);
        }
    }
}

/// Scoring a list of well-formed boards never clears a wall cell on any of
/// them.
proof fn lemma_score_boards_wall_monotonic(bs: Seq<BoardV>, x: BagV, idx: int)
    requires
        forall|b: int| 0 <= b < bs.len() ==> (#[trigger] bs[b]).wf(),
        score_boards_from(bs, x, idx) is Ok,
    ensures
        ({
            let bs1 = score_boards_from(bs, x, idx)->Ok_0.0;
            &&& bs1.len() == bs.len()
            &&& forall|b: int, i: int|
                0 <= b < bs.len() && 0 <= i < bs[b].wall.len() && bs[b].wall[i]
                    ==> #[trigger] bs1[b].wall[i]
        }),
    decreases bs.len() - idx,
{
    if idx >= bs.len() || idx < 0 {
    } else {
        let step = score_board_spec(bs[idx], x);
        let b1 = step->Ok_0.0;
        let x1 = step->Ok_0.1;
        lemma_score_rows_wall_monotonic(bs[idx], x, 0);
        let rows = score_rows_from(bs[idx], x, 0)->Ok_0.0;
        assert(b1.wf() && b1.wall == rows.wall) by {
            assert(b1 == finish_board(rows, score_rows_from(bs[idx], x, 0)->Ok_0.1).0);
        }
        assert(forall|b: int|
            0 <= b < bs.len() ==> (#[trigger] bs.update(idx, b1)[b]).wf());
        lemma_score_boards_wall_monotonic(bs.update(idx, b1), x1, idx + 1);
        let bs1 = score_boards_from(bs, x, idx)->Ok_0.0;
        assert forall|b: int, i: int|
            0 <= b < bs.len() && 0 <= i < bs[b].wall.len() && bs[b].wall[i]
                implies #[trigger] bs1[b].wall[i] by {
            assert(bs.update(idx, b1)[b].wall[i]);
        }
    }
}

/// The wall is monotonic: a round's scoring can fill a cell but never reset
/// one, and applying a move does not touch the wall at all. A cell therefore
/// goes from empty to filled at most once over a game's life.
pub proof fn lemma_wall_monotonic(s: StateV)
    requires
        s.wf(),
        score_spec(s) is Ok,
    ensures
        ({
            let s1 = score_spec(s)->Ok_0;
            &&& s1.boards.len() == s.boards.len()
            &&& forall|b: int, i: int|
                0 <= b < s.boards.len() && 0 <= i < s.boards[b].wall.len() && s.boards[b].wall[i]
                    ==> #[trigger] s1.boards[b].wall[i]
        }),
{
    lemma_score_boards_wall_monotonic(s.boards, s.box_top, 0);
}

/// Applying a move moves tiles between the table and the staging areas but
/// never onto or off the wall.
pub proof fn lemma_do_move_keeps_walls(s: StateV, m: GameMove)
    requires
        0 <= s.player < s.boards.len(),
        do_move_spec(s, m) is Ok,
    ensures
        ({
            let s1 = do_move_spec(s, m)->Ok_0;
            &&& s1.boards.len() == s.boards.len()
            &&& forall|b: int|
                0 <= b < s.boards.len() ==> (#[trigger] s1.boards[b]).wall == s.boards[b].wall
        }),
{
}

impl State {
    /// Scores every board in player order: full pattern lines feed the wall
    /// and the box top, floors are penalized and cleared. On a fatal
    /// `InvalidWallLookup` the state is left unchanged.
    #[verifier::loop_isolation(false)]
    pub fn score(&mut self) -> (r: Result<(), Error>)
        requires
            old(self).wf(),
        ensures
            match r {
                Ok(()) => {
                    &&& score_spec(old(self)@) == Ok::<StateV, Error>(final(self)@)
                    &&& final(self).wf()
                },
                Err(e) => {
                    &&& *final(self) == *old(self)
                    &&& score_spec(old(self)@) == Err::<StateV, Error>(e)
                },
            },
    {
        let ghost pre = self@;
        proof {
            crate::vecs::lemma_colored_len(pre.market);
            crate::board::lemma_rows_total_nonneg(pre.factories);
        }
        let mut new_boards: Vec<Board> = Vec::new();
        let mut x = self.box_top;
        let mut i: usize = 0;
        proof {
            assert(assembled(new_boards@, pre.boards, 0) =~= pre.boards);
        }
        while i < self.boards.len()
            invariant
                i <= self.boards@.len(),
                new_boards@.len() == i as int,
                forall|j: int| 0 <= j < i ==> (#[trigger] new_boards@[j])@.wf(),
                x@.total() + boards_total(assembled(new_boards@, pre.boards, i as int)) == pre
                    .box_top.total() + boards_total(pre.boards),
                score_boards_from(pre.boards, pre.box_top, 0) == score_boards_from(
                    assembled(new_boards@, pre.boards, i as int),
                    x@,
                    i as int,
                ),
            decreases self.boards@.len() - i,
        {
            let ghost mid = assembled(new_boards@, pre.boards, i as int);
            proof {
                assert(mid[i as int] == pre.boards[i as int]);
                assert(self.boards@[i as int]@ == pre.boards[i as int]);
                assert(mid.len() == pre.boards.len());
                lemma_boards_total_nonneg(new_boards@.map_values(|b: Board| b@));
                lemma_boards_total_nonneg(pre.boards.skip(i as int + 1));
                lemma_board_total_nonneg(pre.boards[i as int]);
                lemma_boards_total_split(mid, i as int);
                assert(mid.take(i as int) =~= new_boards@.map_values(|b: Board| b@));
                assert(mid.skip(i as int + 1) =~= pre.boards.skip(i as int + 1));
                assert(pre.box_top.total() + boards_total(pre.boards) <= 100);
                assert(x@.total() + pre.boards[i as int].tile_total() <= 100);
            }
            match score_one_board(&self.boards[i], x) {
                Err(e) => {
                    return Err(e);
                },
                Ok((b1, x1)) => {
                    proof {
                        assert(mid.update(i as int, b1@) =~= assembled(
                            new_boards@.push(b1),
                            pre.boards,
                            i as int + 1,
                        ));
                        lemma_boards_total_update(mid, i as int, b1@);
                    }
                    new_boards.push(b1);
                    x = x1;
                },
            }
            i = i + 1;
        }
        proof {
            assert(assembled(new_boards@, pre.boards, pre.boards.len() as int) =~= new_boards@
                .map_values(|b: Board| b@));
        }
        self.boards = new_boards;
        self.box_top = x;
        proof {
            let expect = score_spec(pre);
            assert(expect is Ok);
            assert(self@ =~= expect->Ok_0);
        }
        Ok(())
    }
}

/// The board list midway through scoring: the first `i` boards already
/// scored, the rest as they were.
pub open spec fn assembled(done: Seq<Board>, orig: Seq<BoardV>, i: int) -> Seq<BoardV> {
    done.map_values(|b: Board| b@) + orig.skip(i)
}

/// A board-list total splits at any index.
pub proof fn lemma_boards_total_split(bs: Seq<BoardV>, i: int)
    requires
        0 <= i < bs.len(),
    ensures
        boards_total(bs) == boards_total(bs.take(i)) + bs[i].tile_total() + boards_total(
            bs.skip(i + 1),
        ),
    decreases bs.len(),
{
    if i == bs.len() - 1 {
        assert(bs.take(i) =~= bs.drop_last());
        assert(bs.skip(i + 1) =~= Seq::<BoardV>::empty());
    } else {
        lemma_boards_total_split(bs.drop_last(), i);
        assert(bs.drop_last().take(i) =~= bs.take(i));
        assert(bs.drop_last().skip(i + 1) =~= bs.skip(i + 1).drop_last());
        assert(bs.skip(i + 1).len() > 0);
        assert(bs.skip(i + 1).last() == bs.last());
    }
}

/// The first failing legality check for `m` on `s`, or `None` when the move
/// is legal. The checks run in a fixed order: the color must not be the Start
/// marker; a market source must be non-empty and hold the color; a factory
/// source must exist and hold the color; the destination must be the floor or
/// a pattern line that matches the color and has room.
pub open spec fn move_error(s: StateV, m: GameMove) -> Option<Error> {
    let src = m.0 as int;
    let color = m.1;
    let dest = m.2 as int;
    if color == Tile::Start {
        Some(Error::IllegalColor)
    } else if src == 0 && s.market.len() == 0 {
        Some(Error::EmptyMarket)
    } else if src == 0 && !s.market.contains(color) {
        Some(Error::TileNotAvailable)
    } else if src > s.factories.len() {
        Some(Error::OutOfBounds)
    } else if src >= 1 && !s.factories[src - 1].contains(color) {
        Some(Error::TileNotAvailable)
    } else if dest > 5 {
        Some(Error::InvalidDestination)
    } else if dest >= 1 && s.boards[s.player].patterns[dest - 1].len() > 0
        && s.boards[s.player].patterns[dest - 1][0] != color {
        Some(Error::ColorMismatch)
    } else if dest >= 1 && s.boards[s.player].patterns[dest - 1].len() >= dest {
        Some(Error::LineFull)
    } else {
        None
    }
}

/// The effect of a legal move `m` on `s`: all tiles of the chosen color leave
/// the source; a factory source spills its remaining tiles into the market; a
/// Start marker in a drawn-from market moves to the mover's floor; the drawn
/// tiles fill the destination line up to its capacity, the surplus (or, for
/// the floor destination, all of them) landing on the floor; the turn passes
/// round-robin.
pub open spec fn apply_effect(s: StateV, m: GameMove) -> StateV {
    let src = m.0 as int;
    let color = m.1;
    let dest = m.2 as int;
    let source = if src == 0 {
        s.market
    } else {
        s.factories[src - 1]
    };
    let picked = count_eq(source, color);
    let has_start = src == 0 && s.market.contains(Tile::Start);
    let market1 = if src == 0 {
        crate::vecs::without(s.market, color)
    } else {
        s.market + crate::vecs::without(s.factories[src - 1], color)
    };
    let factories1 = if src == 0 {
        s.factories
    } else {
        s.factories.update(src - 1, Seq::<Tile>::empty())
    };
    let board = s.boards[s.player];
    let start_extra: Seq<Tile> = if has_start {
        seq![Tile::Start]
    } else {
        Seq::<Tile>::empty()
    };
    let board1 = if dest == 0 {
        BoardV {
            floor: board.floor + start_extra + crate::vecs::repeat_tile(color, picked as nat),
            ..board
        }
    } else {
        let line = board.patterns[dest - 1];
        let room = dest - line.len();
        let take = if picked <= room {
            picked
        } else {
            room
        };
        BoardV {
            patterns: board.patterns.update(
                dest - 1,
                line + crate::vecs::repeat_tile(color, take as nat),
            ),
            floor: board.floor + start_extra + crate::vecs::repeat_tile(
                color,
                (picked - take) as nat,
            ),
            ..board
        }
    };
    StateV {
        player: (s.player + 1) % (s.boards.len() as int),
        market: market1,
        factories: factories1,
        boards: s.boards.update(s.player, board1),
        ..s
    }
}

/// What a move does: its first failing legality check, or the successor
/// state.
pub open spec fn do_move_spec(s: StateV, m: GameMove) -> Result<StateV, Error> {
    match move_error(s, m) {
        Some(e) => Err(e),
        None => Ok(apply_effect(s, m)),
    }
}

/// Counting distributes over concatenation.
pub proof fn lemma_count_concat(a: Seq<Tile>, b: Seq<Tile>)
    ensures
        forall|t: Tile| #[trigger] count_eq(a + b, t) == count_eq(a, t) + count_eq(b, t),
        colored_len(a + b) == colored_len(a) + colored_len(b),
        forall|t: Tile| (a + b).contains(t) == (a.contains(t) || b.contains(t)),
{
    broadcast use vstd::seq_lib::group_to_multiset_ensures;

    vstd::seq_lib::lemma_multiset_commutative(a, b);
    assert forall|t: Tile| #[trigger] count_eq(a + b, t) == count_eq(a, t) + count_eq(b, t) by {
        lemma_count_eq_multiset(a, t);
        lemma_count_eq_multiset(b, t);
        lemma_count_eq_multiset(a + b, t);
    }
    assert forall|t: Tile| (a + b).contains(t) == (a.contains(t) || b.contains(t)) by {
        lemma_count_eq_multiset(a, t);
        lemma_count_eq_multiset(b, t);
        lemma_count_eq_multiset(a + b, t);
    }
    lemma_colored_len(a);
    lemma_colored_len(b);
    lemma_colored_len(a + b);
}

/// The counts of a run of `n` tiles of one color.
pub proof fn lemma_repeat_counts(t: Tile, n: nat)
    ensures
        crate::vecs::repeat_tile(t, n).len() == n,
        count_eq(crate::vecs::repeat_tile(t, n), t) == n,
        forall|u: Tile| u != t ==> #[trigger] count_eq(crate::vecs::repeat_tile(t, n), u) == 0,
        colored_len(crate::vecs::repeat_tile(t, n)) == if t == Tile::Start {
            0int
        } else {
            n as int
        },
    decreases n,
{
    reveal(Seq::filter);
    let r = crate::vecs::repeat_tile(t, n);
    if n == 0 {
        assert forall|u: Tile| u != t implies #[trigger] count_eq(r, u) == 0 by {
            assert(r.filter(crate::vecs::eq_pred(u)) =~= Seq::<Tile>::empty());
        }
        assert(r.filter(crate::vecs::nonstart_pred()) =~= Seq::<Tile>::empty());
        assert(r.filter(crate::vecs::eq_pred(t)) =~= Seq::<Tile>::empty());
    } else {
        lemma_repeat_counts(t, (n - 1) as nat);
        let prev = crate::vecs::repeat_tile(t, (n - 1) as nat);
        assert(r =~= prev.push(t));
        crate::vecs::lemma_filter_push(prev, crate::vecs::eq_pred(t), t);
        crate::vecs::lemma_filter_push(prev, crate::vecs::nonstart_pred(), t);
        assert forall|u: Tile| u != t implies #[trigger] count_eq(r, u) == 0 by {
            assert(count_eq(prev, u) == 0);
            crate::vecs::lemma_filter_push(prev, crate::vecs::eq_pred(u), t);
            assert(prev.push(t).filter(crate::vecs::eq_pred(u)) == prev.filter(
                crate::vecs::eq_pred(u),
            ));
            assert(r == prev.push(t));
        }
    }
}

/// A legal move keeps every colored tile on the table or on a board — the
/// global count of 100 never changes — and consumes at least one tile of the
/// round's supply. Well-formedness survives.
pub proof fn lemma_do_move_effect(s: StateV, m: GameMove)
    requires
        s.wf(),
        move_error(s, m) is None,
    ensures
        apply_effect(s, m).wf(),
        apply_effect(s, m).tile_total() == s.tile_total(),
        apply_effect(s, m).supply() < s.supply(),
        apply_effect(s, m).boards.len() == s.boards.len(),
{
    broadcast use vstd::seq_lib::group_to_multiset_ensures;

    let src = m.0 as int;
    let color = m.1;
    let dest = m.2 as int;
    let a = apply_effect(s, m);
    let source = if src == 0 {
        s.market
    } else {
        s.factories[src - 1]
    };
    let picked = count_eq(source, color);
    let has_start = src == 0 && s.market.contains(Tile::Start);
    let board = s.boards[s.player];
    let start_extra: Seq<Tile> = if has_start {
        seq![Tile::Start]
    } else {
        Seq::<Tile>::empty()
    };

    // The chosen color is present, so at least one tile is drawn.
    lemma_count_eq_multiset(source, color);
    assert(picked >= 1);

    // Counts of the pieces.
    lemma_colored_len(s.market);
    crate::vecs::lemma_without_len(s.market, color);
    crate::vecs::lemma_without_len(source, color);
    lemma_colored_len(source);
    lemma_count_eq_multiset(source, Tile::Start);
    assert(start_extra.len() == if has_start { 1int } else { 0int });
    assert(count_eq(start_extra, Tile::Start) == start_extra.len() && colored_len(start_extra)
        == 0) by {
        reveal_with_fuel(Seq::filter, 3);
        if has_start {
            assert(start_extra.drop_last() =~= Seq::<Tile>::empty());
        } else {
            assert(start_extra.filter(crate::vecs::eq_pred(Tile::Start)) =~= Seq::<Tile>::empty());
            assert(start_extra.filter(crate::vecs::nonstart_pred()) =~= Seq::<Tile>::empty());
        }
        lemma_colored_len(start_extra);
    }

    // The new market.
    if src == 0 {
        assert(colored_len(a.market) == colored_len(s.market) - picked);
        assert(count_eq(a.market, Tile::Start) == 0);
        assert(a.market.len() == s.market.len() - picked - count_eq(s.market, Tile::Start)) by {
            lemma_colored_len(a.market);
            crate::vecs::lemma_without_len(s.market, color);
        }
        assert(a.market.len() <= s.market.len() - picked);
    } else {
        lemma_count_concat(s.market, crate::vecs::without(source, color));
        assert(count_eq(source, Tile::Start) == 0);
        lemma_colored_len(source);
        assert(colored_len(source) == source.len());
        assert(colored_len(a.market) == colored_len(s.market) + source.len() - picked);
        assert(count_eq(a.market, Tile::Start) == count_eq(s.market, Tile::Start));
        assert(a.market.len() == s.market.len() + crate::vecs::without(source, color).len());
    }

    // The new factories.
    if src == 0 {
        assert(rows_total(a.factories) == rows_total(s.factories));
    } else {
        crate::board::lemma_rows_total_update(s.factories, src - 1, Seq::<Tile>::empty());
        assert(rows_total(a.factories) == rows_total(s.factories) - source.len());
        assert forall|f: int| 0 <= f < a.factories.len() implies wf_factory(
            #[trigger] a.factories[f],
        ) by {
            if f != src - 1 {
                assert(a.factories[f] == s.factories[f]);
            }
        }
    }

    // The mover's board.
    let b1 = a.boards[s.player];
    let take = if dest == 0 {
        0int
    } else {
        let line = board.patterns[dest - 1];
        let room = dest - line.len();
        if picked <= room {
            picked
        } else {
            room
        }
    };
    let spill = picked - take;
    lemma_count_concat(board.floor + start_extra, crate::vecs::repeat_tile(color, spill as nat));
    lemma_count_concat(board.floor, start_extra);
    lemma_repeat_counts(color, spill as nat);
    assert(b1.floor == board.floor + start_extra + crate::vecs::repeat_tile(color, spill as nat));
    assert(colored_len(b1.floor) == colored_len(board.floor) + spill);
    if dest == 0 {
        assert(b1.patterns == board.patterns);
        assert(b1.tile_total() == board.tile_total() + picked);
    } else {
        let line = board.patterns[dest - 1];
        let line1 = line + crate::vecs::repeat_tile(color, take as nat);
        lemma_repeat_counts(color, take as nat);
        crate::board::lemma_rows_total_update(board.patterns, dest - 1, line1);
        assert(line1.len() == line.len() + take);
        assert(rows_total(b1.patterns) == rows_total(board.patterns) + take);
        assert(b1.tile_total() == board.tile_total() + take + spill);
        // The refilled line is still a well-formed monochrome line.
        assert(wf_line(line1, dest - 1)) by {
            assert(forall|i: int| 0 <= i < line.len() ==> line1[i] == line[i]);
            assert(forall|i: int|
                line.len() <= i < line1.len() ==> line1[i] == crate::vecs::repeat_tile(
                    color,
                    take as nat,
                )[i - line.len()]);
            if line.len() > 0 {
                assert(line1[0] == line[0]);
            }
        }
        assert forall|k: int| 0 <= k < 5 implies wf_line(#[trigger] b1.patterns[k], k) by {
            if k != dest - 1 {
                assert(b1.patterns[k] == board.patterns[k]);
            }
        }
    }
    assert(b1.wf());
    lemma_boards_total_update(s.boards, s.player, b1);
    assert(boards_total(a.boards) == boards_total(s.boards) + picked);

    // Conservation and supply.
    assert(a.tile_total() == s.tile_total());
    if src == 0 {
        assert(a.supply() <= s.supply() - picked);
    } else {
        crate::vecs::lemma_without_len(source, color);
        assert(a.supply() == s.supply() - picked);
    }

    // Remaining well-formedness clauses.
    assert forall|b: int| 0 <= b < a.boards.len() implies (#[trigger] a.boards[b]).wf() by {
        if b != s.player {
            assert(a.boards[b] == s.boards[b]);
        }
    }
}

impl State {
    /// Validates and applies a move. On success all tiles of the chosen color
    /// leave the source (a factory's leftovers spilling into the market, the
    /// market's Start marker landing on the mover's floor), the destination
    /// line fills up to capacity with the surplus going to the floor, and the
    /// turn passes to the next player. On any legality error the state is
    /// unchanged.
    pub fn do_move(&mut self, game_move: GameMove) -> (r: Result<(), Error>)
        requires
            old(self).wf(),
        ensures
            final(self).wf(),
            match r {
                Ok(()) => {
                    &&& do_move_spec(old(self)@, game_move) == Ok::<StateV, Error>(final(self)@)
                    &&& final(self)@.tile_total() == old(self)@.tile_total()
                    &&& final(self)@.supply() < old(self)@.supply()
                },
                Err(e) => {
                    &&& *final(self) == *old(self)
                    &&& do_move_spec(old(self)@, game_move) == Err::<StateV, Error>(e)
                },
            },
    {
        let ghost pre = self@;
        let src = game_move.0;
        let color = game_move.1;
        let dest = game_move.2;
        let p = self.player as usize;

        if matches!(color, Tile::Start) {
            return Err(Error::IllegalColor);
        }
        if src == 0 {
            if self.market.len() == 0 {
                return Err(Error::EmptyMarket);
            }
            if !crate::vecs::contains_tile(&self.market, color) {
                return Err(Error::TileNotAvailable);
            }
        } else {
            if src > self.factories.len() {
                return Err(Error::OutOfBounds);
            }
            proof {
                assert(pre.factories[src - 1] == self.factories@[src - 1]@);
            }
            if !crate::vecs::contains_tile(&self.factories[src - 1], color) {
                return Err(Error::TileNotAvailable);
            }
        }
        if dest > 5 {
            return Err(Error::InvalidDestination);
        }
        if dest >= 1 {
            proof {
                assert(pre.boards[p as int] == self.boards@[p as int]@);
                assert(pre.boards[p as int].patterns[dest - 1] == self.boards@[p as int].patterns@[
                    dest - 1]@);
            }
            let line = &self.boards[p].patterns[dest - 1];
            if line.len() > 0 && line[0] != color {
                return Err(Error::ColorMismatch);
            }
            if line.len() >= dest {
                return Err(Error::LineFull);
            }
        }
        proof {
            assert(move_error(pre, game_move) is None);
        }

        // Take the chosen tiles out of the source.
        let picked: usize;
        let has_start: bool;
        if src == 0 {
            picked = count_tiles(&self.market, color);
            has_start = crate::vecs::contains_tile(&self.market, Tile::Start);
            crate::vecs::retain_without(&mut self.market, color);
        } else {
            proof {
                assert(!self.factories@[src - 1]@.contains(Tile::Start));
            }
            picked = count_tiles(&self.factories[src - 1], color);
            has_start = false;
            let leftover = crate::vecs::copy_tiles(&self.factories[src - 1]);
            crate::vecs::append_without(&mut self.market, &leftover, color);
            let empty_factory: Vec<Tile> = Vec::new();
            self.factories.set(src - 1, empty_factory);
        }

        // Hand them to the mover's board.
        let mut board = self.boards[p].clone();
        if has_start {
            board.floor.push(Tile::Start);
        }
        if dest == 0 {
            crate::vecs::push_repeat(&mut board.floor, color, picked);
        } else {
            let line_len = board.patterns[dest - 1].len();
            let room = dest - line_len;
            let take = if picked <= room {
                picked
            } else {
                room
            };
            let mut line = crate::vecs::copy_tiles(&board.patterns[dest - 1]);
            crate::vecs::push_repeat(&mut line, color, take);
            board.patterns.set(dest - 1, line);
            crate::vecs::push_repeat(&mut board.floor, color, picked - take);
        }
        self.boards.set(p, board);
        self.player = ((p + 1) % self.boards.len()) as u8;

        proof {
            let a = apply_effect(pre, game_move);
            assert(self@.boards =~= a.boards) by {
                assert(self@.boards[p as int] =~= a.boards[p as int]);
                assert(forall|j: int|
                    0 <= j < pre.boards.len() && j != p as int ==> self@.boards[j] == a.boards[j]);
            }
            assert(self@ =~= a);
            lemma_do_move_effect(pre, game_move);
        }
        Ok(())
    }
}

impl State {
    /// The round transition, taken when every factory and the market are
    /// empty: scores every board, puts the Start marker back as the whole
    /// market, and refills the factories from the bag. Fails only if scoring
    /// fails fatally, in which case the state is unchanged.
    pub fn next_round(&mut self, rng: rand::rngs::StdRng) -> (r: Result<(), Error>)
        requires
            old(self).wf(),
            old(self)@.round_over(),
        ensures
            final(self).wf(),
            match r {
                Ok(()) => {
                    let scored = score_spec(old(self)@)->Ok_0;
                    let avail = scored.bag.total() + scored.box_top.total();
                    let n = old(self)@.factories.len() as int;
                    &&& score_spec(old(self)@) is Ok
                    &&& final(self)@.boards == scored.boards
                    &&& final(self)@.player == old(self)@.player
                    &&& final(self)@.market == seq![Tile::Start]
                    &&& final(self)@.factories.len() == n
                    &&& rows_total(final(self)@.factories) == if avail <= 4 * n {
                        avail
                    } else {
                        4 * n
                    }
                    &&& final(self)@.bag.total() + final(self)@.box_top.total() == avail
                        - rows_total(final(self)@.factories)
                },
                Err(e) => {
                    &&& *final(self) == *old(self)
                    &&& score_spec(old(self)@) == Err::<StateV, Error>(e)
                },
            },
    {
        let ghost pre = self@;
        match self.score() {
            Ok(()) => (),
            Err(e) => {
                return Err(e);
            },
        }
        let ghost scored = self@;
        self.market.clear();
        self.market.push(Tile::Start);
        proof {
            assert(self@.market =~= seq![Tile::Start]);
            reveal_with_fuel(Seq::filter, 3);
            assert(self@.market.drop_last() =~= Seq::<Tile>::empty());
            assert(colored_len(self@.market) == 0 && count_eq(self@.market, Tile::Start) == 1);
            assert(colored_len(scored.market) == 0) by {
                reveal_with_fuel(Seq::filter, 2);
                assert(scored.market =~= Seq::<Tile>::empty());
            }
            assert(self@ =~= (StateV { market: seq![Tile::Start], ..scored }));
            assert(self@.tile_total() == scored.tile_total());
            assert(self.wf());
        }
        let ghost reset = self@;
        match self.fill(rng) {
            Ok(()) => Ok(()),
            Err(e) => {
                proof {
                    assert(forall|j: int|
                        0 <= j < reset.factories.len() ==> (#[trigger] reset.factories[j]).len()
                            == 0);
                    assert(false);
                }
                Err(e)
            },
        }
    }
}

impl Clone for State {
    /// A deep copy with the same view.
    fn clone(&self) -> (r: State)
        ensures
            r@ == self@,
    {
        let mut boards: Vec<Board> = Vec::new();
        let mut i: usize = 0;
        while i < self.boards.len()
            invariant
                i <= self.boards@.len(),
                boards@.len() == i as int,
                forall|j: int| 0 <= j < i ==> (#[trigger] boards@[j])@ == self.boards@[j]@,
            decreases self.boards@.len() - i,
        {
            boards.push(self.boards[i].clone());
            i = i + 1;
        }
        let r = State {
            player: self.player,
            box_top: self.box_top,
            bag: self.bag,
            market: crate::vecs::copy_tiles(&self.market),
            factories: crate::vecs::copy_tile_rows(&self.factories),
            boards,
        };
        proof {
            assert(r@.factories =~= self@.factories);
            assert(r@.boards =~= self@.boards);
            assert(r@ =~= self@);
        }
        r
    }
}

} // verus!
