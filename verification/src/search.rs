//! The search engine: counts the distinct legal continuations of a position.
//!
//! A continuation is a maximal sequence of legal moves; a state with no legal
//! move is a leaf and counts one. States are canonicalized before counting, so
//! positions that differ only in tile or factory order share one count and one
//! memo entry.

use vstd::prelude::*;

use crate::moves::GameMove;
use crate::state::State;
use crate::state::StateV;
use crate::state::apply_effect;
use crate::state::canon_state;
use crate::state::do_move_spec;
use crate::state::move_error;
use crate::state::lemma_do_move_effect;
use crate::state::lemma_canon_state_preserves;
use crate::tiles::Tile;
use crate::Error;
use crate::tiles::color_of_rank;

verus! {

/// How many candidate moves a state offers: market and factories as sources,
/// five colors, floor and five lines as destinations.
pub open spec fn n_moves(s: StateV) -> int {
    (s.factories.len() + 1) as int * 30
}

/// The candidate move with index `i` in the fixed enumeration order: source
/// ascending, then color, then destination.
pub open spec fn move_at(i: int) -> GameMove {
    GameMove((i / 30) as usize, color_of_rank((i % 30) / 6), (i % 6) as usize)
}

/// Whether any candidate move is legal on `s`.
pub open spec fn any_legal(s: StateV) -> bool {
    exists|i: int| 0 <= i < n_moves(s) && move_error(s, #[trigger] move_at(i)) is None
}

/// The number of distinct legal continuations of `s`: the position is
/// canonicalized, then every legal move is tried and the counts of the
/// successors add up; a position with no legal move counts one.
pub open spec fn count_spec(s: StateV) -> nat
    decreases s.supply(), n_moves(s) + 2,
        when s.wf()
        via count_spec_decreases
{
    count_canon(canon_state(s))
}

/// The continuation count of an already canonical state.
pub open spec fn count_canon(c: StateV) -> nat
    decreases c.supply(), n_moves(c) + 1,
        when c.wf()
        via count_canon_decreases
{
    if any_legal(c) {
        count_from(c, 0)
    } else {
        1
    }
}

/// The continuation counts summed over the candidate moves from index `i` on.
pub open spec fn count_from(c: StateV, i: int) -> nat
    decreases c.supply(), n_moves(c) - i,
        when c.wf() && 0 <= i
        via count_from_decreases
{
    if i >= n_moves(c) {
        0
    } else {
        match do_move_spec(c, move_at(i)) {
            Ok(s2) => count_spec(s2) + count_from(c, i + 1),
            Err(_) => count_from(c, i + 1),
        }
    }
}

#[via_fn]
proof fn count_spec_decreases(s: StateV) {
    lemma_canon_state_preserves(s);
    crate::board::lemma_rows_total_nonneg(s.factories);
}

#[via_fn]
proof fn count_canon_decreases(c: StateV) {
    crate::board::lemma_rows_total_nonneg(c.factories);
}

#[via_fn]
proof fn count_from_decreases(c: StateV, i: int) {
    crate::board::lemma_rows_total_nonneg(c.factories);
    if i < n_moves(c) && move_error(c, move_at(i)) is None {
        lemma_do_move_effect(c, move_at(i));
        crate::board::lemma_rows_total_nonneg(apply_effect(c, move_at(i)).factories);
    }
}

/// The candidate move with index `i`.
fn move_at_exec(i: usize) -> (m: GameMove)
    requires
        i < 400,
    ensures
        m == move_at(i as int),
{
    let rank = (i % 30) / 6;
    GameMove(i / 30, crate::tiles::color_of_rank_exec(rank), i % 6)
}

/// The memoization cache: canonical states with their continuation counts.
/// The cache is bounded; once full, new entries replace the oldest one.
/// Eviction costs recomputation only, never correctness.
struct Memo {
    entries: Vec<(State, u128)>,
    cap: usize,
}

impl Memo {
    /// Every cached value is the continuation count of its canonical key.
    closed spec fn inv(self) -> bool {
        forall|i: int|
            0 <= i < self.entries@.len() ==> (#[trigger] self.entries@[i]).0@.wf() && self.entries@[
                i].1 as nat == count_canon(self.entries@[i].0@)
    }

    /// An empty cache that will hold at most `cap` entries.
    fn new(cap: usize) -> (r: Memo)
        ensures
            r.inv(),
    {
        Memo { entries: Vec::new(), cap }
    }

    /// The cached count of the canonical state `c`, if present.
    fn lookup(&self, c: &State) -> (r: Option<u128>)
        requires
            self.inv(),
        ensures
            match r {
                Some(v) => v as nat == count_canon(c@),
                None => true,
            },
    {
        let mut i: usize = 0;
        while i < self.entries.len()
            invariant
                self.inv(),
                i <= self.entries@.len(),
            decreases self.entries@.len() - i,
        {
            if states_equal(&self.entries[i].0, c) {
                return Some(self.entries[i].1);
            }
            i = i + 1;
        }
        None
    }

    /// Caches the count of the canonical state `c`, evicting the oldest entry
    /// when the cache is full.
    fn insert(&mut self, c: State, v: u128)
        requires
            old(self).inv(),
            c@.wf(),
            v as nat == count_canon(c@),
        ensures
            final(self).inv(),
    {
        if self.entries.len() < self.cap {
            self.entries.push((c, v));
        } else if self.cap > 0 {
            let _ = self.entries.remove(0);
            self.entries.push((c, v));
        }
    }
}

/// Whether two tile vectors hold the same tiles in the same order.
fn tiles_equal(a: &Vec<Tile>, b: &Vec<Tile>) -> (r: bool)
    ensures
        r == (a@ == b@),
{
    if a.len() != b.len() {
        return false;
    }
    let mut i: usize = 0;
    while i < a.len()
        invariant
            i <= a@.len(),
            a@.len() == b@.len(),
            forall|j: int| 0 <= j < i ==> a@[j] == b@[j],
        decreases a@.len() - i,
    {
        if a[i] != b[i] {
            return false;
        }
        i = i + 1;
    }
    proof {
        assert(a@ =~= b@);
    }
    true
}

/// Whether two boolean vectors agree.
fn bools_equal(a: &Vec<bool>, b: &Vec<bool>) -> (r: bool)
    ensures
        r == (a@ == b@),
{
    if a.len() != b.len() {
        return false;
    }
    let mut i: usize = 0;
    while i < a.len()
        invariant
            i <= a@.len(),
            a@.len() == b@.len(),
            forall|j: int| 0 <= j < i ==> a@[j] == b@[j],
        decreases a@.len() - i,
    {
        if a[i] != b[i] {
            return false;
        }
        i = i + 1;
    }
    proof {
        assert(a@ =~= b@);
    }
    true
}

/// Whether two lists of tile rows agree, row by row.
fn rows_equal(a: &Vec<Vec<Tile>>, b: &Vec<Vec<Tile>>) -> (r: bool)
    ensures
        r == (crate::canon::views_of(a@) == crate::canon::views_of(b@)),
{
    if a.len() != b.len() {
        proof {
            assert(crate::canon::views_of(a@).len() != crate::canon::views_of(b@).len());
        }
        return false;
    }
    let mut i: usize = 0;
    while i < a.len()
        invariant
            i <= a@.len(),
            a@.len() == b@.len(),
            forall|j: int| 0 <= j < i ==> a@[j]@ == b@[j]@,
        decreases a@.len() - i,
    {
        if !tiles_equal(&a[i], &b[i]) {
            proof {
                assert(crate::canon::views_of(a@)[i as int] != crate::canon::views_of(b@)[i as int]);
            }
            return false;
        }
        i = i + 1;
    }
    proof {
        assert(crate::canon::views_of(a@) =~= crate::canon::views_of(b@));
    }
    true
}

/// Whether two boards describe the same position.
fn boards_equal(a: &crate::board::Board, b: &crate::board::Board) -> (r: bool)
    ensures
        r == (a@ == b@),
{
    let r = a.score == b.score && bools_equal(&a.wall, &b.wall) && tiles_equal(&a.floor, &b.floor)
        && rows_equal(&a.patterns, &b.patterns);
    proof {
        if r {
            assert(a@.patterns =~= crate::canon::views_of(a.patterns@));
            assert(b@.patterns =~= crate::canon::views_of(b.patterns@));
            assert(a@ =~= b@);
        } else {
            assert(a@ != b@) by {
                if a@.patterns == b@.patterns {
                    assert(crate::canon::views_of(a.patterns@) =~= a@.patterns);
                    assert(crate::canon::views_of(b.patterns@) =~= b@.patterns);
                }
            }
        }
    }
    r
}

/// Whether two reservoirs hold the same counts.
fn bags_equal(a: &crate::bag::Bag, b: &crate::bag::Bag) -> (r: bool)
    ensures
        r == (a@ == b@),
{
    let r = a.blue == b.blue && a.yellow == b.yellow && a.red == b.red && a.black == b.black
        && a.teal == b.teal;
    proof {
        if r {
            assert(a@ =~= b@);
        }
    }
    r
}

/// Whether two states describe the same position.
fn states_equal(a: &State, b: &State) -> (r: bool)
    ensures
        r == (a@ == b@),
{
    if a.player != b.player {
        return false;
    }
    if !(bags_equal(&a.bag, &b.bag) && bags_equal(&a.box_top, &b.box_top)) {
        return false;
    }
    if !(tiles_equal(&a.market, &b.market) && rows_equal(&a.factories, &b.factories)) {
        proof {
            assert(a@.factories =~= crate::canon::views_of(a.factories@));
            assert(b@.factories =~= crate::canon::views_of(b.factories@));
        }
        return false;
    }
    if a.boards.len() != b.boards.len() {
        proof {
            assert(a@.boards.len() == a.boards@.len());
            assert(b@.boards.len() == b.boards@.len());
        }
        return false;
    }
    let mut i: usize = 0;
    while i < a.boards.len()
        invariant
            i <= a.boards@.len(),
            a.boards@.len() == b.boards@.len(),
            a.player == b.player,
            a.bag == b.bag,
            a.box_top == b.box_top,
            a.market@ == b.market@,
            crate::canon::views_of(a.factories@) == crate::canon::views_of(b.factories@),
            forall|j: int| 0 <= j < i ==> a.boards@[j]@ == b.boards@[j]@,
        decreases a.boards@.len() - i,
    {
        if !boards_equal(&a.boards[i], &b.boards[i]) {
            proof {
                assert(a@.boards[i as int] != b@.boards[i as int]);
            }
            return false;
        }
        i = i + 1;
    }
    proof {
        assert(a@.boards =~= b@.boards);
        assert(a@.factories =~= crate::canon::views_of(a.factories@));
        assert(b@.factories =~= crate::canon::views_of(b.factories@));
        assert(a@ =~= b@);
    }
    true
}

/// Counts the continuations of `s`, memoizing on canonical states. Returns
/// `None` exactly when the count does not fit the result type.
fn count_rec(s: &State, memo: &mut Memo) -> (r: Option<u128>)
    requires
        s@.wf(),
        old(memo).inv(),
    ensures
        final(memo).inv(),
        match r {
            Some(v) => v as nat == count_spec(s@),
            None => count_spec(s@) > u128::MAX,
        },
    decreases s@.supply(),
{
    proof {
        lemma_canon_state_preserves(s@);
    }
    let mut c = s.clone();
    c.canonicalize();
    proof {
        assert(c@ == canon_state(s@));
        assert(count_spec(s@) == count_canon(c@));
    }

    if let Some(v) = memo.lookup(&c) {
        return Some(v);
    }

    let total_moves = (c.factories.len() + 1) * 30;
    proof {
        assert(c@.factories.len() <= 9);
        assert(total_moves == n_moves(c@));
    }
    let mut acc: u128 = 0;
    let mut overflowed = false;
    let mut all_failed = true;
    let mut i: usize = 0;
    while i < total_moves
        invariant
            s@.wf(),
            c@.wf(),
            c@ == canon_state(s@),
            c@.supply() == s@.supply(),
            memo.inv(),
            i <= total_moves,
            total_moves == n_moves(c@),
            total_moves <= 400,
            all_failed == (forall|j: int|
                0 <= j < i ==> move_error(c@, #[trigger] move_at(j)) is Some),
            !overflowed ==> count_from(c@, 0) == acc + count_from(c@, i as int),
            overflowed ==> count_from(c@, 0) > u128::MAX,
        decreases total_moves - i,
    {
        let m = move_at_exec(i);
        let mut s2 = c.clone();
        let step = s2.do_move(m);
        match step {
            Err(_) => {},
            Ok(()) => {
                all_failed = false;
                proof {
                    assert(do_move_spec(c@, move_at(i as int)) == Ok::<StateV, Error>(s2@));
                    lemma_count_from_nonneg(c@, i as int);
                    crate::board::lemma_rows_total_nonneg(s2@.factories);
                    assert(s2@.supply() < s@.supply());
                }
                if !overflowed {
                    match count_rec(&s2, memo) {
                        None => {
                            proof {
                                assert(count_from(c@, i as int) >= count_spec(s2@));
                            }
                            overflowed = true;
                        },
                        Some(v) => {
                            if acc > u128::MAX - v {
                                proof {
                                    assert(count_from(c@, i as int) >= count_spec(s2@));
                                }
                                overflowed = true;
                            } else {
                                acc = acc + v;
                            }
                        },
                    }
                }
            },
        }
        i = i + 1;
    }

    if all_failed {
        proof {
            assert(!any_legal(c@));
            assert(count_canon(c@) == 1);
        }
        memo.insert(c, 1);
        return Some(1);
    }
    proof {
        assert(any_legal(c@));
    }
    if overflowed {
        return None;
    }
    proof {
        assert(count_from(c@, total_moves as int) == 0);
        assert(count_canon(c@) == acc as nat);
    }
    memo.insert(c, acc);
    Some(acc)
}

/// Partial sums of continuation counts are non-negative and dominated by the
/// full sum from any earlier index.
proof fn lemma_count_from_nonneg(c: StateV, i: int)
    requires
        c.wf(),
        0 <= i < n_moves(c),
        move_error(c, move_at(i)) is None,
    ensures
        count_from(c, i) >= count_spec(apply_effect(c, move_at(i))),
{
    lemma_do_move_effect(c, move_at(i));
    assert(count_from(c, i) == count_spec(apply_effect(c, move_at(i))) + count_from(c, i + 1));
}

/// The index of the first legal candidate move of `c` at or after `i`.
pub open spec fn first_legal_from(c: StateV, i: int) -> Option<int>
    decreases n_moves(c) - i,
        when 0 <= i
{
    if i >= n_moves(c) {
        None
    } else if move_error(c, move_at(i)) is None {
        Some(i)
    } else {
        first_legal_from(c, i + 1)
    }
}

/// An upper bound on the continuation count, traded for speed: instead of
/// branching over every legal first move, only the first one in enumeration
/// order is applied and the successor's exact count is multiplied by 120, the
/// number of candidate first moves. This over-counts — the result is never
/// below the exact count and usually well above it — and is an optional
/// shortcut, never the default. A position with no legal move still counts
/// one. Returns `None` exactly when the bound does not fit the result type.
pub fn count_options_approx(state: &State, memo_cap: usize) -> (r: Option<u128>)
    requires
        state@.wf(),
    ensures
        ({
            let c = canon_state(state@);
            match r {
                Some(v) => match first_legal_from(c, 0) {
                    None => v == 1,
                    Some(i) => v as nat == 120 * count_spec(apply_effect(c, move_at(i))),
                },
                None => first_legal_from(c, 0) matches Some(i) && 120 * count_spec(
                    apply_effect(c, move_at(i)),
                ) > u128::MAX,
            }
        }),
{
    proof {
        lemma_canon_state_preserves(state@);
    }
    let mut c = state.clone();
    c.canonicalize();
    let total_moves = (c.factories.len() + 1) * 30;
    proof {
        assert(c@.factories.len() <= 9);
        assert(total_moves == n_moves(c@));
    }
    let mut i: usize = 0;
    while i < total_moves
        invariant
            state@.wf(),
            c@.wf(),
            c@ == canon_state(state@),
            i <= total_moves,
            total_moves == n_moves(c@),
            total_moves <= 400,
            first_legal_from(c@, 0) == first_legal_from(c@, i as int),
        decreases total_moves - i,
    {
        let m = move_at_exec(i);
        let mut s2 = c.clone();
        match s2.do_move(m) {
            Err(_) => {},
            Ok(()) => {
                proof {
                    assert(first_legal_from(c@, i as int) == Some(i as int));
                    assert(do_move_spec(c@, move_at(i as int)) == Ok::<StateV, Error>(s2@));
                }
                let mut memo = Memo::new(memo_cap);
                let sub = count_rec(&s2, &mut memo);
                match sub {
                    None => {
                        proof {
                            assert(120 * count_spec(s2@) >= count_spec(s2@))
                                by (nonlinear_arith);
                        }
                        return None;
                    },
                    Some(v) => {
                        if v > u128::MAX / 120 {
                            proof {
                                assert(v > u128::MAX / 120 ==> 120 * (v as nat)
                                    > u128::MAX) by (nonlinear_arith);
                            }
                            return None;
                        }
                        proof {
                            assert(v <= u128::MAX / 120 ==> 120 * (v as nat) <= u128::MAX)
                                by (nonlinear_arith);
                        }
                        return Some(120 * v);
                    },
                }
            },
        }
        i = i + 1;
    }
    proof {
        assert(first_legal_from(c@, total_moves as int) is None);
    }
    Some(1)
}

/// Canonicalization is exactly what the count is blind to: two positions
/// with the same canonical form — the same factory multisets, market multiset
/// and floors, in any order — have the same number of continuations.
pub proof fn lemma_count_collapses_symmetry(a: StateV, b: StateV)
    requires
        a.wf(),
        b.wf(),
        canon_state(a) == canon_state(b),
    ensures
        count_spec(a) == count_spec(b),
{
}

/// The exact number of distinct legal continuations of `state`, explored
/// depth-first with a memoization cache of at most `memo_cap` canonical
/// states. Returns `None` exactly when the count exceeds the result type.
pub fn count_options(state: &State, memo_cap: usize) -> (r: Option<u128>)
    requires
        state@.wf(),
    ensures
        match r {
            Some(v) => v as nat == count_spec(state@),
            None => count_spec(state@) > u128::MAX,
        },
{
    let mut memo = Memo::new(memo_cap);
    count_rec(state, &mut memo)
}

} // verus!
