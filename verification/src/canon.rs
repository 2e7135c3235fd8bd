//! Canonical ordering of tile collections.
//!
//! Factories are interchangeable and tile collections carry no meaningful
//! order, so states that differ only by ordering describe the same position.
//! Sorting every factory, the factory list, the market and the floors maps all
//! of them onto one canonical representative, which is what the search engine
//! memoizes on.

use vstd::prelude::*;
use vstd::multiset::Multiset;
use vstd::relations::sorted_by;
use vstd::relations::total_ordering;
use vstd::seq_lib::lemma_sorted_unique;
use vstd::pervasive::VecAdditionalExecFns;

use crate::tiles::Tile;
use crate::tiles::tile_le;
use crate::tiles::tile_le_exec;
use crate::tiles::tile_leq;
use crate::tiles::lemma_tile_le_total;
use crate::vecs::copy_tiles;

verus! {

/// Tile sequences ordered first by leading tile rank, then by the rest;
/// the empty sequence comes first.
pub open spec fn seq_lex_le(a: Seq<Tile>, b: Seq<Tile>) -> bool
    decreases a.len(),
{
    if a.len() == 0 {
        true
    } else if b.len() == 0 {
        false
    } else if a[0].sort_rank() < b[0].sort_rank() {
        true
    } else if b[0].sort_rank() < a[0].sort_rank() {
        false
    } else {
        seq_lex_le(a.drop_first(), b.drop_first())
    }
}

/// [`seq_lex_le`] as an ordering relation value.
pub open spec fn lex_leq() -> spec_fn(Seq<Tile>, Seq<Tile>) -> bool {
    |a: Seq<Tile>, b: Seq<Tile>| seq_lex_le(a, b)
}

/// A tile sequence in canonical order.
pub open spec fn canon_tiles(s: Seq<Tile>) -> Seq<Tile> {
    s.sort_by(tile_leq())
}

/// A list of tile sequences in canonical order: each sequence sorted, then the
/// list sorted lexicographically.
pub open spec fn canon_rows(ff: Seq<Seq<Tile>>) -> Seq<Seq<Tile>> {
    ff.map_values(|s: Seq<Tile>| canon_tiles(s)).sort_by(lex_leq())
}

proof fn lemma_rank_inj(x: Tile, y: Tile)
    requires
        x.sort_rank() == y.sort_rank(),
    ensures
        x == y,
{
}

proof fn lemma_lex_refl(a: Seq<Tile>)
    ensures
        seq_lex_le(a, a),
    decreases a.len(),
{
    if a.len() > 0 {
        lemma_lex_refl(a.drop_first());
    }
}

proof fn lemma_lex_antisym(a: Seq<Tile>, b: Seq<Tile>)
    requires
        seq_lex_le(a, b),
        seq_lex_le(b, a),
    ensures
        a == b,
    decreases a.len(),
{
    if a.len() == 0 {
        assert(b.len() == 0);
        assert(a =~= b);
    } else {
        assert(b.len() > 0);
        lemma_lex_antisym(a.drop_first(), b.drop_first());
        lemma_rank_inj(a[0], b[0]);
        assert(a.drop_first().len() == a.len() - 1);
        assert(b.drop_first().len() == b.len() - 1);
        assert(a.len() == b.len());
        assert forall|i: int| 0 <= i < a.len() implies a[i] == b[i] by {
            if i > 0 {
                assert(a[i] == a.drop_first()[i - 1]);
                assert(b[i] == b.drop_first()[i - 1]);
            }
        }
        assert(a =~= b);
    }
}

proof fn lemma_lex_trans(a: Seq<Tile>, b: Seq<Tile>, c: Seq<Tile>)
    requires
        seq_lex_le(a, b),
        seq_lex_le(b, c),
    ensures
        seq_lex_le(a, c),
    decreases a.len(),
{
    if a.len() > 0 && b.len() > 0 && c.len() > 0 {
        if a[0].sort_rank() == b[0].sort_rank() && b[0].sort_rank() == c[0].sort_rank() {
            lemma_lex_trans(a.drop_first(), b.drop_first(), c.drop_first());
        }
    }
}

proof fn lemma_lex_connected(a: Seq<Tile>, b: Seq<Tile>)
    ensures
        seq_lex_le(a, b) || seq_lex_le(b, a),
    decreases a.len(),
{
    if a.len() > 0 && b.len() > 0 && a[0].sort_rank() == b[0].sort_rank() {
        lemma_lex_connected(a.drop_first(), b.drop_first());
    }
}

/// The lexicographic order on tile sequences is total.
pub proof fn lemma_lex_le_total()
    ensures
        total_ordering(lex_leq()),
{
    assert forall|a: Seq<Tile>| #[trigger] lex_leq()(a, a) by {
        lemma_lex_refl(a);
    }
    assert forall|a: Seq<Tile>, b: Seq<Tile>|
        #[trigger] lex_leq()(a, b) && #[trigger] lex_leq()(b, a) implies a == b by {
        lemma_lex_antisym(a, b);
    }
    assert forall|a: Seq<Tile>, b: Seq<Tile>, c: Seq<Tile>|
        #[trigger] lex_leq()(a, b) && #[trigger] lex_leq()(b, c) implies lex_leq()(a, c) by {
        lemma_lex_trans(a, b, c);
    }
    assert forall|a: Seq<Tile>, b: Seq<Tile>| #[trigger] lex_leq()(a, b) || #[trigger] lex_leq()(
        b,
        a,
    ) by {
        lemma_lex_connected(a, b);
    }
}

/// Sorting keeps the multiset of tiles, and therefore the length.
pub proof fn lemma_canon_tiles_ensures(s: Seq<Tile>)
    ensures
        canon_tiles(s).to_multiset() == s.to_multiset(),
        sorted_by(canon_tiles(s), tile_leq()),
        canon_tiles(s).len() == s.len(),
{
    broadcast use vstd::seq_lib::group_to_multiset_ensures;

    lemma_tile_le_total();
    s.lemma_sort_by_ensures(tile_leq());
    assert(canon_tiles(s).len() == canon_tiles(s).to_multiset().len());
    assert(s.len() == s.to_multiset().len());
}

/// Sorting the row list keeps its multiset of rows, and therefore its length.
pub proof fn lemma_canon_rows_ensures(ff: Seq<Seq<Tile>>)
    ensures
        canon_rows(ff).to_multiset() == ff.map_values(
            |s: Seq<Tile>| canon_tiles(s),
        ).to_multiset(),
        sorted_by(canon_rows(ff), lex_leq()),
        canon_rows(ff).len() == ff.len(),
{
    broadcast use vstd::seq_lib::group_to_multiset_ensures;

    lemma_lex_le_total();
    let mapped = ff.map_values(|s: Seq<Tile>| canon_tiles(s));
    mapped.lemma_sort_by_ensures(lex_leq());
    assert(canon_rows(ff).len() == canon_rows(ff).to_multiset().len());
    assert(mapped.len() == mapped.to_multiset().len());
}

/// Decides [`seq_lex_le`] on two tile vectors.
pub fn lex_le_exec(a: &Vec<Tile>, b: &Vec<Tile>) -> (r: bool)
    ensures
        r == seq_lex_le(a@, b@),
{
    let mut i: usize = 0;
    proof {
        assert(a@.skip(0) =~= a@);
        assert(b@.skip(0) =~= b@);
    }
    while i < a.len() && i < b.len()
        invariant
            i <= a@.len(),
            i <= b@.len(),
            seq_lex_le(a@, b@) == seq_lex_le(a@.skip(i as int), b@.skip(i as int)),
        decreases a@.len() - i,
    {
        let ra = a[i].rank();
        let rb = b[i].rank();
        proof {
            assert(a@.skip(i as int)[0] == a@[i as int]);
            assert(b@.skip(i as int)[0] == b@[i as int]);
            assert(a@.skip(i as int).drop_first() =~= a@.skip(i + 1));
            assert(b@.skip(i as int).drop_first() =~= b@.skip(i + 1));
        }
        if ra < rb {
            return true;
        }
        if rb < ra {
            return false;
        }
        i = i + 1;
    }
    if i == a.len() {
        assert(a@.skip(i as int).len() == 0);
        true
    } else {
        assert(b@.skip(i as int).len() == 0);
        assert(a@.skip(i as int).len() > 0);
        false
    }
}

/// Sorts a tile vector into canonical order.
pub fn sort_tiles(v: &mut Vec<Tile>)
    ensures
        final(v)@ == canon_tiles(old(v)@),
{
    proof {
        broadcast use vstd::seq_lib::group_to_multiset_ensures;

        lemma_tile_le_total();
    }
    let ghost orig = old(v)@;
    let mut out: Vec<Tile> = Vec::new();
    proof {
        assert(out@.to_multiset().add(v@.to_multiset()) =~= orig.to_multiset());
    }
    while v.len() > 0
        invariant
            out@.to_multiset().add(v@.to_multiset()) == orig.to_multiset(),
            sorted_by(out@, tile_leq()),
            forall|x: int, y: int|
                0 <= x < out@.len() && 0 <= y < v@.len() ==> tile_le(
                    #[trigger] out@[x],
                    #[trigger] v@[y],
                ),
        decreases v.len(),
    {
        let mut mi: usize = 0;
        let mut k: usize = 1;
        while k < v.len()
            invariant
                mi < v@.len(),
                k <= v@.len(),
                forall|j: int| 0 <= j < k ==> tile_le(v@[mi as int], #[trigger] v@[j]),
            decreases v@.len() - k,
        {
            if !tile_le_exec(v[mi], v[k]) {
                mi = k;
            }
            k = k + 1;
        }
        let t = v.remove(mi);
        out.push(t);
        proof {
            broadcast use vstd::seq_lib::group_to_multiset_ensures;

            assert(out@.to_multiset().add(v@.to_multiset()) =~= orig.to_multiset());
        }
    }
    proof {
        broadcast use vstd::seq_lib::group_to_multiset_ensures;

        assert(v@.to_multiset() =~= Multiset::<Tile>::empty());
        assert(out@.to_multiset().add(Multiset::<Tile>::empty()) =~= out@.to_multiset());
        lemma_canon_tiles_ensures(orig);
        lemma_sorted_unique(out@, canon_tiles(orig), tile_leq());
    }
    *v = out;
}

/// The element views of a vector of tile vectors.
pub open spec fn views_of(s: Seq<Vec<Tile>>) -> Seq<Seq<Tile>> {
    s.map_values(|x: Vec<Tile>| x@)
}

/// Sorts each row of `v` into canonical tile order, then sorts the row list
/// lexicographically: afterwards the rows read as `canon_rows` of the input.
pub fn sort_rows(v: &mut Vec<Vec<Tile>>)
    ensures
        views_of(final(v)@) == canon_rows(views_of(old(v)@)),
{
    proof {
        broadcast use vstd::seq_lib::group_to_multiset_ensures;

        lemma_lex_le_total();
    }
    // First bring each row into canonical order.
    let ghost orig = views_of(old(v)@);
    let mut i: usize = 0;
    while i < v.len()
        invariant
            i <= v@.len(),
            v@.len() == orig.len(),
            forall|j: int| 0 <= j < i ==> #[trigger] v@[j]@ == canon_tiles(orig[j]),
            forall|j: int| i <= j < orig.len() ==> #[trigger] v@[j]@ == orig[j],
        decreases v@.len() - i,
    {
        let mut row = copy_tiles(&v[i]);
        sort_tiles(&mut row);
        v.set(i, row);
        i = i + 1;
    }
    let ghost mapped = orig.map_values(|s: Seq<Tile>| canon_tiles(s));
    proof {
        assert(views_of(v@) =~= mapped);
    }

    // Then sort the row list itself.
    let ghost start = views_of(v@);
    let mut out: Vec<Vec<Tile>> = Vec::new();
    proof {
        assert(views_of(out@).to_multiset().add(views_of(v@).to_multiset())
            =~= start.to_multiset());
    }
    while v.len() > 0
        invariant
            views_of(out@).to_multiset().add(views_of(v@).to_multiset()) == start.to_multiset(),
            sorted_by(views_of(out@), lex_leq()),
            forall|x: int, y: int|
                0 <= x < out@.len() && 0 <= y < v@.len() ==> seq_lex_le(
                    #[trigger] views_of(out@)[x],
                    #[trigger] views_of(v@)[y],
                ),
        decreases v.len(),
    {
        let mut mi: usize = 0;
        let mut k: usize = 1;
        proof {
            lemma_lex_refl(v@[0]@);
        }
        while k < v.len()
            invariant
                mi < v@.len(),
                k <= v@.len(),
                forall|j: int|
                    0 <= j < k ==> seq_lex_le(views_of(v@)[mi as int], #[trigger] views_of(v@)[j]),
            decreases v@.len() - k,
        {
            proof {
                lemma_lex_connected(v@[mi as int]@, v@[k as int]@);
            }
            if !lex_le_exec(&v[mi], &v[k]) {
                proof {
                    assert forall|j: int| 0 <= j < k + 1 implies seq_lex_le(
                        views_of(v@)[k as int],
                        #[trigger] views_of(v@)[j],
                    ) by {
                        if j < k {
                            assert(views_of(v@)[j] == v@[j]@);
                            assert(seq_lex_le(views_of(v@)[mi as int], views_of(v@)[j]));
                            assert(seq_lex_le(v@[k as int]@, v@[mi as int]@));
                            lemma_lex_trans(v@[k as int]@, v@[mi as int]@, v@[j]@);
                        } else {
                            lemma_lex_refl(v@[k as int]@);
                        }
                    }
                }
                mi = k;
            } else {
                proof {
                    lemma_lex_refl(v@[k as int]@);
                }
            }
            k = k + 1;
        }
        let ghost before = views_of(v@);
        let ghost out_before = views_of(out@);
        let row = v.remove(mi);
        out.push(row);
        proof {
            broadcast use vstd::seq_lib::group_to_multiset_ensures;
            broadcast use vstd::multiset::group_multiset_axioms;

            assert(views_of(v@) =~= before.remove(mi as int));
            assert(views_of(out@) =~= out_before.push(row@));
            assert(views_of(out@).to_multiset() =~= out_before.to_multiset().insert(row@));
            assert(views_of(v@).to_multiset() =~= before.to_multiset().remove(row@));
            assert(before.contains(row@));
            assert(before.to_multiset().count(row@) >= 1);
            assert(views_of(out@).to_multiset().add(views_of(v@).to_multiset())
                =~= start.to_multiset());
        }
    }
    proof {
        broadcast use vstd::seq_lib::group_to_multiset_ensures;

        assert(views_of(v@) =~= Seq::<Seq<Tile>>::empty());
        assert(views_of(v@).to_multiset() =~= Multiset::<Seq<Tile>>::empty());
        assert(views_of(out@).to_multiset().add(Multiset::<Seq<Tile>>::empty()) =~= views_of(
            out@,
        ).to_multiset());
        lemma_canon_rows_ensures(orig);
        mapped.lemma_sort_by_ensures(lex_leq());
        lemma_sorted_unique(views_of(out@), canon_rows(orig), lex_leq());
    }
    *v = out;
}

} // verus!
