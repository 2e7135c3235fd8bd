//! Small verified helpers on the tile vectors the game is made of.

use vstd::prelude::*;

use crate::tiles::Tile;

verus! {

/// Holds of every tile but the Start marker.
pub open spec fn nonstart_pred() -> spec_fn(Tile) -> bool {
    |x: Tile| x != Tile::Start
}

/// Holds of the tiles equal to `t`.
pub open spec fn eq_pred(t: Tile) -> spec_fn(Tile) -> bool {
    |x: Tile| x == t
}

/// Holds of the tiles that are neither the Start marker nor `t`.
pub open spec fn keep_pred(t: Tile) -> spec_fn(Tile) -> bool {
    |x: Tile| x != Tile::Start && x != t
}

/// How many entries of `s` equal `t`.
pub open spec fn count_eq(s: Seq<Tile>, t: Tile) -> int {
    s.filter(eq_pred(t)).len() as int
}

/// The entries of `s` that are neither the Start marker nor `t`; what is left
/// of a source after a move takes `t` from it.
pub open spec fn without(s: Seq<Tile>, t: Tile) -> Seq<Tile> {
    s.filter(keep_pred(t))
}

/// Filtering commutes with appending one element.
pub proof fn lemma_filter_push(s: Seq<Tile>, pred: spec_fn(Tile) -> bool, x: Tile)
    ensures
        s.push(x).filter(pred) == if pred(x) {
            s.filter(pred).push(x)
        } else {
            s.filter(pred)
        },
{
    reveal(Seq::filter);
    assert(s.push(x).drop_last() =~= s);
    assert(s.push(x).last() == x);
}

/// An exact copy of a tile vector.
pub fn copy_tiles(v: &Vec<Tile>) -> (r: Vec<Tile>)
    ensures
        r@ == v@,
{
    let mut r: Vec<Tile> = Vec::new();
    let mut i: usize = 0;
    while i < v.len()
        invariant
            i <= v.len(),
            r@ == v@.subrange(0, i as int),
        decreases v.len() - i,
    {
        r.push(v[i]);
        assert(v@.subrange(0, i + 1 as int) =~= v@.subrange(0, i as int).push(v@[i as int]));
        i = i + 1;
    }
    assert(v@.subrange(0, v@.len() as int) =~= v@);
    r
}

/// An exact copy of a boolean vector.
pub fn copy_bools(v: &Vec<bool>) -> (r: Vec<bool>)
    ensures
        r@ == v@,
{
    let mut r: Vec<bool> = Vec::new();
    let mut i: usize = 0;
    while i < v.len()
        invariant
            i <= v.len(),
            r@ == v@.subrange(0, i as int),
        decreases v.len() - i,
    {
        r.push(v[i]);
        assert(v@.subrange(0, i + 1 as int) =~= v@.subrange(0, i as int).push(v@[i as int]));
        i = i + 1;
    }
    assert(v@.subrange(0, v@.len() as int) =~= v@);
    r
}

/// An exact copy of a vector of tile vectors.
pub fn copy_tile_rows(v: &Vec<Vec<Tile>>) -> (r: Vec<Vec<Tile>>)
    ensures
        r@.len() == v@.len(),
        forall|i: int| 0 <= i < v@.len() ==> r@[i]@ == v@[i]@,
{
    let mut r: Vec<Vec<Tile>> = Vec::new();
    let mut i: usize = 0;
    while i < v.len()
        invariant
            i <= v.len(),
            r@.len() == i,
            forall|j: int| 0 <= j < i ==> r@[j]@ == v@[j]@,
        decreases v.len() - i,
    {
        r.push(copy_tiles(&v[i]));
        i = i + 1;
    }
    r
}

/// Whether `v` holds a tile equal to `t`.
pub fn contains_tile(v: &Vec<Tile>, t: Tile) -> (r: bool)
    ensures
        r == v@.contains(t),
{
    let mut i: usize = 0;
    while i < v.len()
        invariant
            i <= v.len(),
            forall|j: int| 0 <= j < i ==> v@[j] != t,
        decreases v.len() - i,
    {
        if v[i] == t {
            return true;
        }
        i = i + 1;
    }
    false
}

/// Counts the tiles of `v` equal to `t`.
pub fn count_tiles(v: &Vec<Tile>, t: Tile) -> (r: usize)
    ensures
        r as int == count_eq(v@, t),
        r <= v@.len(),
{
    proof {
        broadcast use vstd::seq_lib::group_seq_properties;
    }
    let mut r: usize = 0;
    let mut i: usize = 0;
    proof {
        assert(v@.subrange(0, 0) =~= Seq::<Tile>::empty());
        reveal(Seq::filter);
    }
    while i < v.len()
        invariant
            i <= v.len(),
            r as int == count_eq(v@.subrange(0, i as int), t),
            r <= i,
        decreases v.len() - i,
    {
        proof {
            lemma_filter_push(v@.subrange(0, i as int), eq_pred(t), v@[i as int]);
            assert(v@.subrange(0, i + 1 as int) =~= v@.subrange(0, i as int).push(v@[i as int]));
        }
        if v[i] == t {
            r = r + 1;
        }
        i = i + 1;
    }
    assert(v@.subrange(0, v@.len() as int) =~= v@);
    r
}

/// `n` copies of tile `t`.
pub open spec fn repeat_tile(t: Tile, n: nat) -> Seq<Tile> {
    Seq::new(n, |i: int| t)
}

/// Appends `n` copies of `t` to `v`.
pub fn push_repeat(v: &mut Vec<Tile>, t: Tile, n: usize)
    ensures
        final(v)@ == old(v)@ + repeat_tile(t, n as nat),
{
    let mut i: usize = 0;
    while i < n
        invariant
            i <= n,
            v@ == old(v)@ + repeat_tile(t, i as nat),
        decreases n - i,
    {
        assert(old(v)@ + repeat_tile(t, i as nat) =~= v@);
        v.push(t);
        assert(old(v)@ + repeat_tile(t, (i + 1) as nat) =~= (old(v)@ + repeat_tile(t, i as nat)).push(t));
        i = i + 1;
    }
    assert(old(v)@ + repeat_tile(t, 0) =~= old(v)@);
}

/// Replaces `v` with the entries that are neither the Start marker nor `t`.
pub fn retain_without(v: &mut Vec<Tile>, t: Tile)
    ensures
        final(v)@ == without(old(v)@, t),
{
    proof {
        reveal(Seq::filter);
    }
    let mut r: Vec<Tile> = Vec::new();
    let mut i: usize = 0;
    proof {
        assert(old(v)@.subrange(0, 0) =~= Seq::<Tile>::empty());
    }
    while i < v.len()
        invariant
            i <= v.len(),
            v@ == old(v)@,
            r@ == without(old(v)@.subrange(0, i as int), t),
        decreases v.len() - i,
    {
        proof {
            lemma_filter_push(v@.subrange(0, i as int), keep_pred(t), v@[i as int]);
            assert(v@.subrange(0, i + 1 as int) =~= v@.subrange(0, i as int).push(v@[i as int]));
        }
        let x = v[i];
        if x != Tile::Start && x != t {
            r.push(x);
        }
        i = i + 1;
    }
    assert(old(v)@.subrange(0, old(v)@.len() as int) =~= old(v)@);
    *v = r;
}

/// Appends to `market` the tiles of `from` that are not of color `t`, the way
/// a factory's leftover tiles spill into the market.
pub fn append_without(market: &mut Vec<Tile>, from: &Vec<Tile>, t: Tile)
    requires
        !from@.contains(Tile::Start),
    ensures
        final(market)@ == old(market)@ + without(from@, t),
{
    proof {
        reveal(Seq::filter);
        assert(from@.subrange(0, 0) =~= Seq::<Tile>::empty());
    }
    let mut i: usize = 0;
    while i < from.len()
        invariant
            i <= from.len(),
            !from@.contains(Tile::Start),
            market@ == old(market)@ + without(from@.subrange(0, i as int), t),
        decreases from.len() - i,
    {
        proof {
            lemma_filter_push(from@.subrange(0, i as int), keep_pred(t), from@[i as int]);
            assert(from@.subrange(0, i + 1 as int) =~= from@.subrange(0, i as int).push(
                from@[i as int],
            ));
            assert(from@[i as int] != Tile::Start);
        }
        let x = from[i];
        if x != t {
            market.push(x);
        }
        i = i + 1;
    }
    assert(from@.subrange(0, from@.len() as int) =~= from@);
}

/// The tiles of `s` other than the Start marker, counted.
pub open spec fn colored_len(s: Seq<Tile>) -> int {
    s.filter(nonstart_pred()).len() as int
}

/// `count_eq` agrees with the multiset count, so it is blind to order.
pub proof fn lemma_count_eq_multiset(s: Seq<Tile>, t: Tile)
    ensures
        count_eq(s, t) == s.to_multiset().count(t),
        count_eq(s, t) >= 0,
        (count_eq(s, t) > 0) == s.contains(t),
    decreases s.len(),
{
    broadcast use vstd::seq_lib::group_to_multiset_ensures;

    reveal(Seq::filter);
    if s.len() == 0 {
        assert(!s.contains(t));
    } else {
        lemma_count_eq_multiset(s.drop_last(), t);
        lemma_filter_push(s.drop_last(), eq_pred(t), s.last());
        assert(s =~= s.drop_last().push(s.last()));
        assert(s.drop_last().push(s.last()).to_multiset() =~= s.drop_last().to_multiset().insert(
            s.last(),
        ));
        if s.to_multiset().count(t) > 0 {
            assert(s.contains(t));
        }
        if s.contains(t) {
            assert(s.to_multiset().count(t) > 0);
        }
    }
}

/// The colored tiles are all tiles but the Start markers.
pub proof fn lemma_colored_len(s: Seq<Tile>)
    ensures
        colored_len(s) == s.len() - count_eq(s, Tile::Start),
        0 <= colored_len(s) <= s.len(),
    decreases s.len(),
{
    reveal(Seq::filter);
    if s.len() == 0 {
    } else {
        lemma_colored_len(s.drop_last());
        assert(s =~= s.drop_last().push(s.last()));
        lemma_filter_push(s.drop_last(), nonstart_pred(), s.last());
        lemma_filter_push(s.drop_last(), eq_pred(Tile::Start), s.last());
    }
}

/// Taking every tile of color `t` out of `s` removes exactly the `t`-count of
/// colored tiles and nothing else.
pub proof fn lemma_without_len(s: Seq<Tile>, t: Tile)
    requires
        t != Tile::Start,
    ensures
        without(s, t).len() == colored_len(s) - count_eq(s, t),
        count_eq(s, t) <= colored_len(s),
        colored_len(without(s, t)) == without(s, t).len(),
        count_eq(without(s, t), Tile::Start) == 0,
        !without(s, t).contains(Tile::Start),
        !without(s, t).contains(t),
    decreases s.len(),
{
    broadcast use vstd::seq_lib::group_filter_ensures;

    reveal(Seq::filter);
    lemma_colored_len(without(s, t));
    lemma_count_eq_multiset(without(s, t), Tile::Start);
    lemma_count_eq_multiset(without(s, t), t);
    if s.len() == 0 {
    } else {
        lemma_without_len(s.drop_last(), t);
        assert(s =~= s.drop_last().push(s.last()));
        lemma_filter_push(s.drop_last(), nonstart_pred(), s.last());
        lemma_filter_push(s.drop_last(), eq_pred(t), s.last());
        lemma_filter_push(s.drop_last(), keep_pred(t), s.last());
        lemma_colored_len(s.drop_last());
        lemma_colored_len(s);
    }
}

/// Sequences with equal multisets have equal lengths, color counts and
/// colored-tile counts.
pub proof fn lemma_perm_counts(a: Seq<Tile>, b: Seq<Tile>)
    requires
        a.to_multiset() == b.to_multiset(),
    ensures
        a.len() == b.len(),
        forall|t: Tile| #[trigger] count_eq(a, t) == count_eq(b, t),
        colored_len(a) == colored_len(b),
        forall|t: Tile| a.contains(t) == b.contains(t),
{
    broadcast use vstd::seq_lib::group_to_multiset_ensures;

    assert forall|t: Tile| #[trigger] count_eq(a, t) == count_eq(b, t) by {
        lemma_count_eq_multiset(a, t);
        lemma_count_eq_multiset(b, t);
    }
    assert forall|t: Tile| a.contains(t) == b.contains(t) by {
        lemma_count_eq_multiset(a, t);
        lemma_count_eq_multiset(b, t);
    }
    assert(a.len() == a.to_multiset().len());
    assert(b.len() == b.to_multiset().len());
    lemma_colored_len(a);
    lemma_colored_len(b);
    assert(count_eq(a, Tile::Start) == count_eq(b, Tile::Start));
}

} // verus!
