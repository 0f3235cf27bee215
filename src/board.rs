//! The puzzle grid: construction from text, constraint propagation and
//! backtracking search.

use vstd::prelude::*;
use crate::cells::{cell_at, cells_from_rows, cells_of, same_cells, set_cell, Cells};
use crate::rules::{
    bump, determined, digits_of, has_open_cell, in_unit, largest_settled, lemma_largest_unique,
    lemma_skip_absent, propagated, search_from, search_model, is_solution, lex_le, keeps_settled, keeps_solutions, lemma_row_cell, lemma_single_of,
    lemma_unit_cell, lemma_weight, settled, subgrid, unit_cell, unit_col, unit_row, unsolvable,
    unsettleable, weight, within, Grid,
};
use crate::tile::{canonical, digits, lemma_tile, mask_set, Tile};

verus! {

/// The digit of a determined set.
pub open spec fn single_value(s: Set<int>) -> int {
    s.choose()
}

/// The digits of the determined sets among `ts`, in order.
pub open spec fn singles(ts: Seq<Tile>) -> Seq<u16>
    decreases ts.len(),
{
    if ts.len() == 0 {
        seq![]
    } else {
        let rest = singles(ts.drop_last());
        if ts.last()@.len() == 1 {
            rest.push(single_value(ts.last()@) as u16)
        } else {
            rest
        }
    }
}

/// The digits that a sequence holds.
pub open spec fn value_set(vs: Seq<u16>) -> Set<int> {
    Set::new(|v: int| exists|i: int| 0 <= i < vs.len() && vs[i] as int == v)
}

proof fn lemma_single(s: Set<int>, v: int)
    requires
        s == set![v],
    ensures
        single_value(s) == v,
{
    assert(s.contains(v));
}

/// A digit is among the singles of `ts` exactly when some determined set of
/// `ts` holds it.
proof fn lemma_singles(ts: Seq<Tile>)
    ensures
        forall|i: int| 0 <= i < singles(ts).len() ==> 1 <= #[trigger] singles(ts)[i] <= 9,
        forall|v: int|
            #[trigger] value_set(singles(ts)).contains(v) <==> exists|k: int|
                0 <= k < ts.len() && #[trigger] ts[k]@ == set![v],
    decreases ts.len(),
{
    if ts.len() > 0 {
        let init = ts.drop_last();
        lemma_singles(init);
        let t = ts.last();
        lemma_tile(t);
        if t@.len() == 1 {
            let w = single_value(t@);
            lemma_single_of(t@);
            assert(t@.contains(w));
        }
        assert forall|v: int|
            #[trigger] value_set(singles(ts)).contains(v) <==> exists|k: int|
                0 <= k < ts.len() && #[trigger] ts[k]@ == set![v] by {
            if value_set(singles(ts)).contains(v) {
                let i = choose|i: int|
                    0 <= i < singles(ts).len() && singles(ts)[i] as int == v;
                if i < singles(init).len() {
                    assert(value_set(singles(init)).contains(v));
                    let k = choose|k: int| 0 <= k < init.len() && #[trigger] init[k]@ == set![v];
                    assert(ts[k] == init[k]);
                } else {
                    assert(ts[ts.len() - 1]@ == set![v]);
                }
            }
            if exists|k: int| 0 <= k < ts.len() && #[trigger] ts[k]@ == set![v] {
                let k = choose|k: int| 0 <= k < ts.len() && #[trigger] ts[k]@ == set![v];
                if k < init.len() {
                    assert(init[k]@ == set![v]);
                    assert(value_set(singles(init)).contains(v));
                    let i = choose|i: int|
                        0 <= i < singles(init).len() && singles(init)[i] as int == v;
                    assert(singles(ts)[i] == singles(init)[i]);
                } else {
                    assert(set![v].len() == 1);
                    lemma_single(t@, v);
                    assert(singles(ts)[singles(ts).len() - 1] as int == v);
                }
            }
        }
    }
}

/// Row and column of the `k`-th cell of unit `u`.
fn unit_pos(u: usize, k: usize) -> (r: (usize, usize))
    requires
        in_unit(u as int, k as int),
    ensures
        r.0 == unit_row(u as int, k as int),
        r.1 == unit_col(u as int, k as int),
        r.0 < 9,
        r.1 < 9,
{
    proof {
        lemma_unit_cell(u as int, k as int);
    }
    if u < 9 {
        (u, k)
    } else if u < 18 {
        (k, u - 9)
    } else {
        (((u - 18) / 3) * 3 + k / 3, ((u - 18) % 3) * 3 + k % 3)
    }
}

/// The digits of the determined sets among `tiles`, in order.
pub fn values_from_slice(tiles: &Vec<Tile>) -> (r: Vec<u16>)
    ensures
        r@ == singles(tiles@),
{
    let mut r: Vec<u16> = Vec::new();
    let mut i: usize = 0;
    while i < tiles.len()
        invariant
            i <= tiles@.len(),
            r@ == singles(tiles@.take(i as int)),
        decreases tiles@.len() - i,
    {
        assert(tiles@.take(i as int + 1).drop_last() =~= tiles@.take(i as int));
        if tiles[i].len() == 1 {
            let v = tiles[i].get_single_value();
            proof {
                lemma_single(tiles@[i as int]@, v as int);
            }
            r.push(v);
        }
        i = i + 1;
    }
    assert(tiles@.take(i as int) =~= tiles@);
    r
}

/// Whether two determined sets among `tiles` hold the same digit.
fn clashes(tiles: &Vec<Tile>) -> (r: bool)
    ensures
        r <==> exists|k1: int, k2: int|
            0 <= k1 < tiles@.len() && 0 <= k2 < tiles@.len() && k1 != k2 && (#[trigger] tiles@[k1])@.len()
                == 1 && tiles@[k1]@ == (#[trigger] tiles@[k2])@,
{
    let n = tiles.len();
    let mut i: usize = 0;
    while i < n
        invariant
            n == tiles@.len(),
            i <= n,
            forall|k1: int, k2: int|
                0 <= k1 < i && 0 <= k2 < n && k1 != k2 && (#[trigger] tiles@[k1])@.len() == 1
                    ==> tiles@[k1]@ != (#[trigger] tiles@[k2])@,
        decreases n - i,
    {
        if tiles[i].len() == 1 {
            let v = tiles[i].get_single_value();
            let mut j: usize = 0;
            while j < n
                invariant
                    n == tiles@.len(),
                    i < n,
                    j <= n,
                    tiles@[i as int]@ == set![v as int],
                    forall|k2: int| 0 <= k2 < j && k2 != i ==> (#[trigger] tiles@[k2])@ != set![v as int],
                decreases n - j,
            {
                if j != i && tiles[j].len() == 1 {
                    let w = tiles[j].get_single_value();
                    if w == v {
                        return true;
                    }
                    assert(set![w as int].contains(w as int));
                } else {
                    assert(set![v as int].len() == 1);
                }
                j = j + 1;
            }
        }
        i = i + 1;
    }
    false
}

/// What an undetermined set keeps once the digits `values` are taken out; a
/// determined set is left as it is.
pub open spec fn pruned(t: Set<int>, values: Seq<u16>) -> Set<int> {
    if t.len() == 1 {
        t
    } else {
        t.difference(value_set(values))
    }
}

/// Whether taking the digits `values` out of the undetermined set `t` empties it.
pub open spec fn emptied(t: Set<int>, values: Seq<u16>) -> bool {
    t.len() != 1 && values.len() > 0 && pruned(t, values).len() == 0
}

/// Takes the digits `values` out of every set among `tiles` that is not
/// determined, in order; stops with an error at the first set that this
/// empties, leaving that set empty and the sets after it as they were.
pub fn remove_invalid_values(tiles: &mut Vec<Tile>, values: &Vec<u16>) -> (r: Result<(), ()>)
    requires
        forall|i: int| 0 <= i < values@.len() ==> 1 <= #[trigger] values@[i] <= 9,
    ensures
        final(tiles)@.len() == old(tiles)@.len(),
        forall|k: int|
            0 <= k < old(tiles)@.len() ==> (#[trigger] final(tiles)@[k])@.subset_of(old(tiles)@[k]@),
        forall|k: int|
            0 <= k < old(tiles)@.len() && canonical(old(tiles)@[k].mask()) ==> canonical(
                (#[trigger] final(tiles)@[k]).mask(),
            ),
        r is Ok <==> forall|k: int|
            0 <= k < old(tiles)@.len() ==> !#[trigger] emptied(old(tiles)@[k]@, values@),
        r is Ok ==> forall|k: int|
            0 <= k < old(tiles)@.len() ==> (#[trigger] final(tiles)@[k])@ == pruned(
                old(tiles)@[k]@,
                values@,
            ),
        r is Err ==> exists|j: int|
            0 <= j < old(tiles)@.len() && #[trigger] emptied(old(tiles)@[j]@, values@) && (forall|
                i: int,
            | 0 <= i < j ==> !emptied(old(tiles)@[i]@, values@) && (#[trigger] final(tiles)@[i])@
                == pruned(old(tiles)@[i]@, values@)) && final(tiles)@[j]@ == Set::<int>::empty() && (
            forall|i: int| j < i < old(tiles)@.len() ==> #[trigger] final(tiles)@[i] == old(tiles)@[i]),
{
    let ghost start = tiles@;
    let n = tiles.len();
    let mut k: usize = 0;
    while k < n
        invariant
            start == old(tiles)@,
            n == start.len(),
            tiles@.len() == n,
            forall|i: int| 0 <= i < n ==> (#[trigger] tiles@[i])@.subset_of(start[i]@),
            k <= n,
            forall|i: int| 0 <= i < values@.len() ==> 1 <= #[trigger] values@[i] <= 9,
            forall|i: int| k <= i < n ==> #[trigger] tiles@[i] == start[i],
            forall|i: int| 0 <= i < k ==> (#[trigger] tiles@[i])@ == pruned(start[i]@, values@),
            forall|i: int| 0 <= i < k ==> !#[trigger] emptied(start[i]@, values@),
            forall|i: int|
                0 <= i < n && canonical(start[i].mask()) ==> canonical((#[trigger] tiles@[i]).mask()),
        decreases n - k,
    {
        proof {
            lemma_tile(start[k as int]);
        }
        if tiles[k].len() != 1 {
            let mut t = tiles[k];
            let mut j: usize = 0;
            while j < values.len()
                invariant
                    j <= values@.len(),
                    forall|i: int| 0 <= i < values@.len() ==> 1 <= #[trigger] values@[i] <= 9,
                    forall|w: int|
                        #[trigger] t@.contains(w) <==> start[k as int]@.contains(w) && forall|i: int|
                            0 <= i < j ==> values@[i] as int != w,
                    canonical(start[k as int].mask()) ==> canonical(t.mask()),
                decreases values@.len() - j,
            {
                t.remove(values[j]);
                j = j + 1;
            }
            assert(t@ =~= pruned(start[k as int]@, values@));
            if values.len() > 0 && t.len() == 0 {
                assert(emptied(start[k as int]@, values@));
                tiles.set(k, t);
                return Err(());
            }
            tiles.set(k, t);
        } else {
            assert(pruned(start[k as int]@, values@) == start[k as int]@);
        }
        k = k + 1;
    }
    Ok(())
}

/// The candidate sets that the masks of `m` stand for.
spec fn grid_of(m: Cells) -> Grid {
    Seq::new(81, |i: int| mask_set(cells_of(m)[i]))
}

/// The matrix holds 81 masks with no bit outside 1 to 9.
spec fn cells_wf(m: Cells) -> bool {
    &&& cells_of(m).len() == 81
    &&& forall|i: int| 0 <= i < 81 ==> canonical(#[trigger] cells_of(m)[i])
}

/// Applying the rule to unit `u` of `b` gave `a`: no cell of the unit is empty
/// in `a`, and none holds the digit of another cell of the unit that is
/// determined in `b`.
pub open spec fn unit_settled_from(b: Grid, a: Grid, u: int) -> bool {
    &&& forall|k: int| 0 <= k < 9 ==> (#[trigger] a[unit_cell(u, k)]).len() > 0
    &&& forall|k1: int, k2: int, v: int|
        0 <= k1 < 9 && 0 <= k2 < 9 && k1 != k2 && #[trigger] b[unit_cell(u, k1)] == set![v]
            ==> !#[trigger] a[unit_cell(u, k2)].contains(v)
}

/// Within unit `u`, no cell is empty and no cell holds the digit of another,
/// determined, cell.
pub open spec fn unit_settled(g: Grid, u: int) -> bool {
    unit_settled_from(g, g, u)
}

proof fn lemma_tile_cell(m: Cells, i: int)
    requires
        0 <= i < 81,
    ensures
        grid_of(m)[i].finite(),
        grid_of(m)[i].subset_of(digits()),
{
    crate::tile::lemma_mask_set(cells_of(m)[i]);
}

proof fn lemma_sub_single(s: Set<int>, v: int)
    requires
        s.subset_of(set![v]),
        s.len() > 0,
    ensures
        s == set![v],
{
    if !s.contains(v) {
        assert(s =~= Set::<int>::empty());
    }
    assert(s =~= set![v]);
}

/// Applies the rule to unit `u`: every cell that is not determined loses the
/// digits of the determined cells of the unit. Fails when two determined cells
/// of the unit share a digit or a cell is left empty.
fn eliminate_unit(data: &mut Cells, u: usize) -> (r: Result<(), ()>)
    requires
        cells_wf(*old(data)),
        u < 27,
    ensures
        cells_wf(*final(data)),
        subgrid(grid_of(*final(data)), grid_of(*old(data))),
        forall|i: int|
            0 <= i < 81 && (forall|k: int| 0 <= k < 9 ==> i != unit_cell(u as int, k)) ==> grid_of(
                *final(data),
            )[i] == grid_of(*old(data))[i],
        keeps_solutions(grid_of(*old(data)), grid_of(*final(data))),
        keeps_settled(grid_of(*old(data)), grid_of(*final(data))),
        r is Err ==> unsolvable(grid_of(*old(data))),
        r is Err ==> unsettleable(grid_of(*old(data))),
        r is Ok ==> unit_settled_from(grid_of(*old(data)), grid_of(*final(data)), u as int),
        unit_settled(grid_of(*old(data)), u as int) ==> r is Ok && grid_of(*final(data)) == grid_of(
            *old(data),
        ),
{
    let ghost b = grid_of(*data);
    let ghost orig = cells_of(*data);
    let ghost uu = u as int;
    let mut tiles: Vec<Tile> = Vec::new();
    let mut k: usize = 0;
    while k < 9
        invariant
            k <= 9,
            u < 27,
            uu == u,
            *data == *old(data),
            orig == cells_of(*data),
            b == grid_of(*data),
            cells_wf(*data),
            tiles@.len() == k,
            forall|j: int| 0 <= j < k ==> (#[trigger] tiles@[j])@ == b[unit_cell(uu, j)],
            forall|j: int| 0 <= j < k ==> (#[trigger] tiles@[j]).mask() == orig[unit_cell(uu, j)],
        decreases 9 - k,
    {
        let (row, col) = unit_pos(u, k);
        proof {
            lemma_unit_cell(uu, k as int);
        }
        tiles.push(Tile::from_mask(cell_at(data, row, col)));
        k = k + 1;
    }
    let values = values_from_slice(&tiles);
    proof {
        lemma_singles(tiles@);
        assert forall|j: int| 0 <= j < 9 implies (#[trigger] b[unit_cell(uu, j)]).finite() by {
            lemma_tile(tiles@[j]);
        }
    }
    if clashes(&tiles) {
        proof {
            let (k1, k2) = choose|k1: int, k2: int|
                0 <= k1 < 9 && 0 <= k2 < 9 && k1 != k2 && (#[trigger] tiles@[k1])@.len() == 1
                    && tiles@[k1]@ == (#[trigger] tiles@[k2])@;
            lemma_unit_cell(uu, k1);
            lemma_unit_cell(uu, k2);
            lemma_single_of(tiles@[k1]@);
            let v = single_value(tiles@[k1]@);
            assert(b[unit_cell(uu, k1)] == set![v]);
            assert(b[unit_cell(uu, k2)].contains(v));
            assert forall|s: Seq<int>| is_solution(s) implies !#[trigger] within(s, b) by {
                if within(s, b) {
                    assert(b[unit_cell(uu, k1)].contains(s[unit_cell(uu, k1)]));
                    assert(b[unit_cell(uu, k2)].contains(s[unit_cell(uu, k2)]));
                    assert(s[unit_cell(uu, k1)] != s[unit_cell(uu, k2)]);
                }
            }
            assert forall|h: Grid| #[trigger] subgrid(h, b) implies !settled(h) by {
                if settled(h) {
                    crate::rules::lemma_repeated_clue(b, h, uu, k1, k2, v);
                }
            }
        }
        return Err(());
    }
    let ghost before = tiles@;
    let pruned_ok = remove_invalid_values(&mut tiles, &values);
    // A digit of a determined cell of the unit is no solution's digit in any other cell of it.
    proof {
        assert forall|s: Seq<int>, j: int|
            is_solution(s) && within(s, b) && 0 <= j < 9 && b[unit_cell(uu, j)].len() != 1
                implies !value_set(values@).contains(#[trigger] s[unit_cell(uu, j)]) by {
            let w = s[unit_cell(uu, j)];
            if value_set(values@).contains(w) {
                let j2 = choose|j2: int| 0 <= j2 < 9 && #[trigger] before[j2]@ == set![w];
                lemma_unit_cell(uu, j);
                lemma_unit_cell(uu, j2);
                assert(b[unit_cell(uu, j2)].contains(s[unit_cell(uu, j2)]));
                assert(set![w].len() == 1);
                assert(s[unit_cell(uu, j)] != s[unit_cell(uu, j2)]);
            }
        }
    }
    proof {
        assert forall|h: Grid, j: int|
            settled(h) && subgrid(h, b) && 0 <= j < 9 && b[unit_cell(uu, j)].len() != 1
                implies (#[trigger] h[unit_cell(uu, j)]).subset_of(pruned(before[j]@, values@)) by {
            lemma_unit_cell(uu, j);
            assert forall|w: int| #[trigger] h[unit_cell(uu, j)].contains(w) implies !value_set(
                values@,
            ).contains(w) by {
                if value_set(values@).contains(w) {
                    let j2 = choose|j2: int| 0 <= j2 < 9 && #[trigger] before[j2]@ == set![w];
                    lemma_unit_cell(uu, j2);
                    assert(set![w].len() == 1);
                    assert(h[unit_cell(uu, j2)].subset_of(b[unit_cell(uu, j2)]));
                    assert(h[unit_cell(uu, j2)].len() > 0);
                    lemma_sub_single(h[unit_cell(uu, j2)], w);
                    assert(in_unit(uu, j2) && in_unit(uu, j));
                }
            }
            assert(h[unit_cell(uu, j)].subset_of(b[unit_cell(uu, j)]));
        }
        if unit_settled(b, uu) {
            assert forall|j: int| 0 <= j < 9 implies #[trigger] pruned(before[j]@, values@)
                == b[unit_cell(uu, j)] by {
                if b[unit_cell(uu, j)].len() != 1 {
                    assert forall|w: int| #[trigger] b[unit_cell(uu, j)].contains(w)
                        implies !value_set(values@).contains(w) by {
                        if value_set(values@).contains(w) {
                            let j2 = choose|j2: int| 0 <= j2 < 9 && #[trigger] before[j2]@ == set![w];
                            assert(set![w].len() == 1);
                            assert(b[unit_cell(uu, j2)] == set![w]);
                        }
                    }
                    assert(pruned(before[j]@, values@) =~= b[unit_cell(uu, j)]);
                }
            }
        }
    }
    let mut e: usize = 0;
    while e < 9 && tiles[e].len() != 0
        invariant
            e <= 9,
            tiles@.len() == 9,
            forall|j: int| 0 <= j < e ==> (#[trigger] tiles@[j])@.len() != 0,
        decreases 9 - e,
    {
        e = e + 1;
    }
    if pruned_ok.is_err() || e < 9 {
        proof {
            let j = if pruned_ok.is_err() {
                let j = choose|j: int| 0 <= j < 9 && #[trigger] emptied(before[j]@, values@);
                j
            } else {
                assert(tiles@[e as int]@ == pruned(before[e as int]@, values@));
                e as int
            };
            assert(!(pruned(before[j]@, values@).len() > 0));
            lemma_unit_cell(uu, j);
            assert forall|s: Seq<int>| is_solution(s) implies !#[trigger] within(s, b) by {
                if within(s, b) {
                    let w = s[unit_cell(uu, j)];
                    assert(b[unit_cell(uu, j)].contains(w));
                    lemma_tile(before[j]);
                    assert(pruned(before[j]@, values@).contains(w));
                    assert(pruned(before[j]@, values@).subset_of(before[j]@));
                    vstd::set_lib::lemma_len_subset(pruned(before[j]@, values@), before[j]@);
                }
            }
            assert forall|h: Grid| #[trigger] subgrid(h, b) implies !settled(h) by {
                if settled(h) {
                    lemma_tile(before[j]);
                    assert(h[unit_cell(uu, j)].len() > 0);
                    if b[unit_cell(uu, j)].len() != 1 {
                        assert(h[unit_cell(uu, j)].subset_of(pruned(before[j]@, values@)));
                        assert(pruned(before[j]@, values@) =~= Set::<int>::empty());
                        assert(h[unit_cell(uu, j)] =~= Set::<int>::empty());
                    }
                }
            }
        }
        return Err(());
    }
    assert forall|j: int| 0 <= j < 9 implies (#[trigger] pruned(before[j]@, values@)).len() > 0 by {
        assert(tiles@[j]@ == pruned(before[j]@, values@));
        assert(tiles@[j]@.len() != 0);
    }
    let mut k: usize = 0;
    while k < 9
        invariant
            k <= 9,
            u < 27,
            uu == u,
            orig == cells_of(*old(data)),
            b == grid_of(*old(data)),
            cells_wf(*data),
            tiles@.len() == 9,
            forall|j: int| 0 <= j < 9 ==> canonical((#[trigger] tiles@[j]).mask()),
            forall|j: int| 0 <= j < k ==> cells_of(*data)[unit_cell(uu, j)] == (#[trigger] tiles@[j]).mask(),
            forall|i: int|
                0 <= i < 81 && (forall|j: int| 0 <= j < k ==> i != #[trigger] unit_cell(uu, j)) ==> cells_of(
                    *data,
                )[i] == orig[i],
        decreases 9 - k,
    {
        let (row, col) = unit_pos(u, k);
        proof {
            lemma_unit_cell(uu, k as int);
        }
        let m = tiles[k].to_mask();
        set_cell(data, row, col, m);
        k = k + 1;
    }
    proof {
        let a = grid_of(*data);
        assert forall|j: int| 0 <= j < 9 implies #[trigger] a[unit_cell(uu, j)] == pruned(
            b[unit_cell(uu, j)],
            values@,
        ) by {
            lemma_unit_cell(uu, j);
            lemma_tile(tiles@[j]);
        }
        assert forall|i: int|
            0 <= i < 81 && (forall|j: int| 0 <= j < 9 ==> i != unit_cell(uu, j)) implies a[i]
            == b[i] by {}
        assert forall|s: Seq<int>| is_solution(s) && #[trigger] within(s, b) implies within(s, a) by {
            assert forall|i: int| 0 <= i < 81 implies #[trigger] a[i].contains(s[i]) by {
                if exists|j: int| 0 <= j < 9 && i == unit_cell(uu, j) {
                    let j = choose|j: int| 0 <= j < 9 && i == unit_cell(uu, j);
                    assert(b[unit_cell(uu, j)].contains(s[unit_cell(uu, j)]));
                    if b[unit_cell(uu, j)].len() != 1 {
                        assert(!value_set(values@).contains(s[unit_cell(uu, j)]));
                    }
                }
            }
        }
        assert forall|h: Grid| settled(h) && #[trigger] subgrid(h, b) implies subgrid(h, a) by {
            assert forall|i: int| 0 <= i < 81 implies #[trigger] h[i].subset_of(a[i]) by {
                assert(h[i].subset_of(b[i]));
                if exists|j: int| 0 <= j < 9 && i == unit_cell(uu, j) {
                    let j = choose|j: int| 0 <= j < 9 && i == unit_cell(uu, j);
                    if b[unit_cell(uu, j)].len() != 1 {
                        assert(h[unit_cell(uu, j)].subset_of(pruned(before[j]@, values@)));
                    }
                }
            }
        }
        assert forall|k1: int, k2: int, v: int|
            0 <= k1 < 9 && 0 <= k2 < 9 && k1 != k2 && #[trigger] b[unit_cell(uu, k1)] == set![v]
                implies !#[trigger] a[unit_cell(uu, k2)].contains(v) by {
            assert(set![v].len() == 1);
            assert(before[k1]@ == set![v]);
            assert(value_set(values@).contains(v));
            if b[unit_cell(uu, k2)].len() == 1 && b[unit_cell(uu, k2)].contains(v) {
                lemma_single_of(b[unit_cell(uu, k2)]);
                assert(before[k1]@.len() == 1 && before[k1]@ == before[k2]@);
            }
        }
        assert forall|k: int| 0 <= k < 9 implies (#[trigger] a[unit_cell(uu, k)]).len() > 0 by {
            assert(pruned(before[k]@, values@).len() > 0);
        }
        if unit_settled(b, uu) {
            assert forall|i: int| 0 <= i < 81 implies #[trigger] a[i] == b[i] by {
                if exists|j: int| 0 <= j < 9 && i == unit_cell(uu, j) {
                    let j = choose|j: int| 0 <= j < 9 && i == unit_cell(uu, j);
                    assert(pruned(before[j]@, values@) == b[unit_cell(uu, j)]);
                }
            }
            assert(a =~= b);
        }
    }
    Ok(())
}

/// A pass over all units took `b` to `a`: no cell of `a` is empty, and no cell
/// of `a` holds the digit of another cell of a shared unit that is determined
/// in `b`.
pub open spec fn pass_settled(b: Grid, a: Grid) -> bool {
    forall|u: int| 0 <= u < 27 ==> #[trigger] unit_settled_from(b, a, u)
}

/// One pass of the rule over the rows, then the columns, then the boxes.
fn apply_pass(data: &mut Cells) -> (r: Result<(), ()>)
    requires
        cells_wf(*old(data)),
    ensures
        cells_wf(*final(data)),
        subgrid(grid_of(*final(data)), grid_of(*old(data))),
        keeps_solutions(grid_of(*old(data)), grid_of(*final(data))),
        keeps_settled(grid_of(*old(data)), grid_of(*final(data))),
        r is Err ==> unsolvable(grid_of(*old(data))),
        r is Err ==> unsettleable(grid_of(*old(data))),
        r is Ok ==> pass_settled(grid_of(*old(data)), grid_of(*final(data))),
        settled(grid_of(*old(data))) ==> r is Ok && grid_of(*final(data)) == grid_of(*old(data)),
{
    let ghost b = grid_of(*data);
    let mut u: usize = 0;
    while u < 27
        invariant
            u <= 27,
            b == grid_of(*old(data)),
            cells_wf(*data),
            subgrid(grid_of(*data), b),
            keeps_solutions(b, grid_of(*data)),
            keeps_settled(b, grid_of(*data)),
            forall|w: int| 0 <= w < u ==> #[trigger] unit_settled_from(b, grid_of(*data), w),
            settled(b) ==> grid_of(*data) == b,
        decreases 27 - u,
    {
        let ghost cur_cells = *data;
        let ghost cur = grid_of(*data);
        let res = eliminate_unit(data, u);
        let ghost a = grid_of(*data);
        assert forall|i: int| 0 <= i < 81 implies #[trigger] a[i].subset_of(b[i]) by {
            assert(a[i].subset_of(cur[i]));
            assert(cur[i].subset_of(b[i]));
        }
        if res.is_err() {
            return Err(());
        }
        proof {
            assert forall|w: int| 0 <= w < u + 1 implies #[trigger] unit_settled_from(b, a, w) by {
                assert forall|k: int| 0 <= k < 9 implies (#[trigger] a[unit_cell(w, k)]).len() > 0 by {
                    lemma_unit_cell(w, k);
                    if exists|j: int| 0 <= j < 9 && unit_cell(w, k) == unit_cell(u as int, j) {
                        let j = choose|j: int| 0 <= j < 9 && unit_cell(w, k) == unit_cell(u as int, j);
                        assert(a[unit_cell(u as int, j)].len() > 0);
                    } else {
                        assert(unit_settled_from(b, cur, w));
                        assert(cur[unit_cell(w, k)].len() > 0);
                    }
                }
                assert forall|k1: int, k2: int, v: int|
                    0 <= k1 < 9 && 0 <= k2 < 9 && k1 != k2 && #[trigger] b[unit_cell(w, k1)] == set![v]
                        implies !#[trigger] a[unit_cell(w, k2)].contains(v) by {
                    lemma_unit_cell(w, k1);
                    lemma_unit_cell(w, k2);
                    if w < u {
                        assert(unit_settled_from(b, cur, w));
                        assert(!cur[unit_cell(w, k2)].contains(v));
                        assert(a[unit_cell(w, k2)].subset_of(cur[unit_cell(w, k2)]));
                    } else {
                        assert(cur[unit_cell(w, k1)].subset_of(b[unit_cell(w, k1)]));
                        lemma_tile_cell(cur_cells, unit_cell(w, k1));
                        assert(a[unit_cell(w, k1)].subset_of(cur[unit_cell(w, k1)]));
                        assert(a[unit_cell(w, k1)].len() > 0);
                        vstd::set_lib::lemma_len_subset(a[unit_cell(w, k1)], cur[unit_cell(w, k1)]);
                        lemma_sub_single(cur[unit_cell(w, k1)], v);
                    }
                }
            }
            if settled(b) {
                assert forall|k1: int, k2: int, v: int|
                    0 <= k1 < 9 && 0 <= k2 < 9 && k1 != k2 && #[trigger] cur[unit_cell(u as int, k1)]
                        == set![v] implies !#[trigger] cur[unit_cell(u as int, k2)].contains(v) by {
                    assert(in_unit(u as int, k1) && in_unit(u as int, k2));
                }
                assert forall|k: int| 0 <= k < 9 implies (#[trigger] cur[unit_cell(u as int, k)]).len() > 0 by {
                    lemma_unit_cell(u as int, k);
                }
                assert(unit_settled(cur, u as int));
            }
        }
        u = u + 1;
    }
    Ok(())
}

/// Repeats passes of the rule until one leaves the grid as it was.
fn do_apply_constraints(data: &mut Cells) -> (r: Result<(), ()>)
    requires
        cells_wf(*old(data)),
    ensures
        cells_wf(*final(data)),
        subgrid(grid_of(*final(data)), grid_of(*old(data))),
        keeps_solutions(grid_of(*old(data)), grid_of(*final(data))),
        keeps_settled(grid_of(*old(data)), grid_of(*final(data))),
        r is Err ==> unsolvable(grid_of(*old(data))),
        r is Err ==> unsettleable(grid_of(*old(data))),
        r is Ok ==> settled(grid_of(*final(data))),
        settled(grid_of(*old(data))) ==> r is Ok && grid_of(*final(data)) == grid_of(*old(data)),
{
    let ghost start = grid_of(*data);
    loop
        invariant
            start == grid_of(*old(data)),
            cells_wf(*data),
            subgrid(grid_of(*data), start),
            keeps_solutions(start, grid_of(*data)),
            keeps_settled(start, grid_of(*data)),
            settled(start) ==> grid_of(*data) == start,
        decreases weight(grid_of(*data), 81),
    {
        let previous = *data;
        let ghost b = grid_of(previous);
        let res = apply_pass(data);
        let ghost a = grid_of(*data);
        assert forall|i: int| 0 <= i < 81 implies #[trigger] a[i].subset_of(start[i]) by {
            assert(a[i].subset_of(b[i]));
            assert(b[i].subset_of(start[i]));
        }
        if res.is_err() {
            return Err(());
        }
        if same_cells(data, &previous) {
            proof {
                assert(a =~= b);
                assert forall|i: int| 0 <= i < 81 implies #[trigger] a[i].len() > 0 by {
                    lemma_row_cell(i);
                    assert(unit_settled_from(b, a, i / 9));
                    assert(a[unit_cell(i / 9, i % 9)].len() > 0);
                }
                assert forall|u: int, k1: int, k2: int, v: int|
                    in_unit(u, k1) && in_unit(u, k2) && k1 != k2 && #[trigger] a[unit_cell(u, k1)]
                        == set![v] implies !#[trigger] a[unit_cell(u, k2)].contains(v) by {
                    assert(unit_settled_from(b, a, u));
                }
            }
            return Ok(());
        }
        proof {
            assert(cells_wf(previous));
            assert(!(cells_of(*data) =~= cells_of(previous)));
            let i = choose|i: int| 0 <= i < 81 && cells_of(*data)[i] != cells_of(previous)[i];
            assert(canonical(cells_of(*data)[i]));
            assert(canonical(cells_of(previous)[i]));
            if a[i] == b[i] {
                assert(mask_set(cells_of(*data)[i]) == mask_set(cells_of(previous)[i]));
                crate::tile::lemma_mask_eq(cells_of(*data)[i], cells_of(previous)[i]);
            }
            assert forall|j: int| 0 <= j < 81 implies #[trigger] b[j].finite() by {
                lemma_tile_cell(previous, j);
            }
            lemma_weight(a, b, 81);
        }
    }
}

/// Whether `s` is a puzzle: 81 characters, each `.` or a digit 1 to 9.
pub open spec fn valid_text(s: Seq<char>) -> bool {
    &&& s.len() == 81
    &&& forall|i: int| 0 <= i < 81 ==> #[trigger] s[i] == '.' || '1' <= s[i] <= '9'
}

/// The candidates of a cell given as the character `c`: all digits for `.`,
/// else the digit itself.
pub open spec fn cell_of_char(c: char) -> Set<int> {
    if c == '.' {
        digits()
    } else {
        set![c as int - '0' as int]
    }
}

/// A 9×9 grid of candidate sets, row after row.
#[derive(Clone, Copy, Debug)]
pub struct Board {
    data: Cells,
}

impl View for Board {
    type V = Grid;

    closed spec fn view(&self) -> Grid {
        grid_of(self.data)
    }
}

impl Board {
    /// The grid holds 81 cells.
    pub closed spec fn wf(&self) -> bool {
        cells_wf(self.data)
    }

    /// Reads a puzzle: 81 characters, row after row, `.` for an open cell and
    /// a digit 1 to 9 for a given one.
    pub fn new_from_string(data: String) -> (r: Result<Board, ()>)
        ensures
            r is Ok <==> valid_text(data@),
            r matches Ok(b) ==> b.wf() && forall|i: int|
                0 <= i < 81 ==> (#[trigger] b@[i]) == cell_of_char(data@[i]),
    {
        let s = data.as_str();
        if !s.is_ascii() {
            proof {
                if valid_text(data@) {
                    assert forall|i: int| 0 <= i < s@.len() implies '\0' <= #[trigger] s@[i] <= '\u{7f}' by {}
                }
            }
            return Err(());
        }
        let bytes = s.as_bytes();
        proof {
            vstd::string::is_ascii_spec_bytes(s);
        }
        if bytes.len() != 81 {
            return Err(());
        }
        let mut raw: Vec<u16> = Vec::new();
        let mut i: usize = 0;
        while i < 81
            invariant
                i <= 81,
                bytes@.len() == 81,
                s@ == data@,
                s@.len() == 81,
                bytes@ == Seq::new(s@.len(), |j: int| s@[j] as u8),
                forall|j: int| 0 <= j < s@.len() ==> '\0' <= #[trigger] s@[j] <= '\u{7f}',
                raw@.len() == i,
                forall|j: int| 0 <= j < i ==> #[trigger] s@[j] == '.' || '1' <= s@[j] <= '9',
                forall|j: int| 0 <= j < i ==> canonical(#[trigger] raw@[j]),
                forall|j: int| 0 <= j < i ==> mask_set(#[trigger] raw@[j]) == cell_of_char(s@[j]),
            decreases 81 - i,
        {
            let c = bytes[i];
            let ghost ch = s@[i as int];
            if c == 46u8 {
                assert(ch == '.');
                let t = Tile::new_full_set();
                raw.push(t.to_mask());
            } else if 49u8 <= c && c <= 57u8 {
                assert('1' <= ch <= '9');
                let mut t = Tile::new();
                t.insert((c - 48u8) as u16);
                assert(t@ =~= set![ch as int - '0' as int]);
                raw.push(t.to_mask());
            } else {
                assert(!(ch == '.' || '1' <= ch <= '9'));
                return Err(());
            }
            i = i + 1;
        }
        let cells = cells_from_rows(&raw);
        let b = Board { data: cells };
        assert forall|j: int| 0 <= j < 81 implies (#[trigger] b@[j]) == cell_of_char(data@[j]) by {}
        Ok(b)
    }

    /// Applies the rule to every row, column and box until nothing changes.
    /// On success the grid is the largest settled grid within the one it
    /// started from; it fails exactly when no settled grid lies within that
    /// one, and then the grid has no solution.
    pub fn apply_constraints(&mut self) -> (r: Result<(), ()>)
        requires
            old(self).wf(),
        ensures
            final(self).wf(),
            subgrid(final(self)@, old(self)@),
            keeps_solutions(old(self)@, final(self)@),
            keeps_settled(old(self)@, final(self)@),
            r is Err ==> unsolvable(old(self)@),
            r is Err ==> unsettleable(old(self)@),
            r is Ok ==> settled(final(self)@),
            settled(old(self)@) ==> r is Ok && final(self)@ == old(self)@,
            forall|i: int| 0 <= i < 81 ==> (#[trigger] final(self)@[i]).len() <= old(self)@[i].len(),
    {
        let ghost before = self@;
        let r = do_apply_constraints(&mut self.data);
        proof {
            assert forall|i: int| 0 <= i < 81 implies #[trigger] self@[i].len() <= before[i].len() by {
                lemma_tile_cell(self.data, i);
                crate::tile::lemma_mask_set(cells_of(old(self).data)[i]);
                vstd::set_lib::lemma_len_subset(self@[i], before[i]);
            }
        }
        r
    }

    /// The candidates of the cell at `row`, `col`.
    pub fn cell(&self, row: usize, col: usize) -> (r: Tile)
        requires
            self.wf(),
            row < 9,
            col < 9,
        ensures
            r@ == self@[row * 9 + col],
            canonical(r.mask()),
    {
        Tile::from_mask(cell_at(&self.data, row, col))
    }

    /// Every cell of a grid holds a finite set of digits.
    pub proof fn lemma_cells(&self)
        ensures
            self@.len() == 81,
            forall|i: int| 0 <= i < 81 ==> (#[trigger] self@[i]).finite() && self@[i].subset_of(digits()),
    {
        assert forall|i: int| 0 <= i < 81 implies (#[trigger] self@[i]).finite() && self@[i].subset_of(
            digits(),
        ) by {
            lemma_tile_cell(self.data, i);
        }
    }

    /// Searches from the grid as given: the open cells are visited in order
    /// and their candidates tried in ascending order, each trial followed by
    /// propagation, backing up one decision at a time when a trial leads
    /// nowhere; a grid with no open cell is accepted only if it obeys the
    /// rules. Fails exactly when the grid has no solution.
    pub fn solve(self) -> (r: Result<Solution, ()>)
        requires
            self.wf(),
        ensures
            r matches Ok(sol) ==> sol.board.wf() && determined(sol.board@) && settled(sol.board@)
                && subgrid(sol.board@, self@) && sol.rejected_attempts <= sol.values_tried,
            r is Err ==> unsolvable(self@),
            r matches Ok(sol) ==> (sol.values_tried > 0 <==> has_open_cell(self@)),
            settled(self@) && determined(self@) ==> (r matches Ok(sol) && sol.board@ == self@
                && sol.values_tried == 0 && sol.rejected_attempts == 0),
            r matches Ok(sol) ==> forall|s: Seq<int>|
                is_solution(s) && #[trigger] within(s, self@) ==> lex_le(digits_of(sol.board@), s),
            r matches Ok(sol) ==> search_model(self@) == (
                Some(sol.board@),
                sol.values_tried,
                sol.rejected_attempts,
            ),
            r is Err ==> search_model(self@).0 is None,
    {
        let data = self.data;
        let mut tried: u64 = 0;
        let mut rejected: u64 = 0;
        proof {
            if determined(self@) {
                assert(!has_open_cell(self@));
            }
        }
        let res = search(data, &mut tried, &mut rejected);
        proof {
            let f = (weight(self@, 81) + 1) as nat;
            assert(search_from(self@, f, 0, 1, false, 0, 0) == (opt_grid(res), tried, rejected));
        }
        match res {
            Some(m) => {
                let board = Board { data: m };
                Ok(Solution { board, values_tried: tried, rejected_attempts: rejected })
            },
            None => Err(()),
        }
    }
}

/// A solved grid, with the number of values tried on the way and the number of
/// those that propagation rejected at once. Both counts stop at `u64::MAX`.
pub struct Solution {
    pub board: Board,
    pub values_tried: u64,
    pub rejected_attempts: u64,
}

/// The grid that a search outcome holds, if any.
spec fn opt_grid(r: Option<Cells>) -> Option<Grid> {
    match r {
        Some(m) => Some(grid_of(m)),
        None => None,
    }
}

/// The digit after the last one tried, once `k` candidates of `vals` are done.
spec fn next_digit(vals: Seq<u16>, k: int) -> int {
    if k == 0 {
        1
    } else {
        vals[k - 1] as int + 1
    }
}

/// The first solution found from the first open cell `i` of `g`, trying its
/// candidates `vals` in ascending order, comes first among the solutions
/// within `g` in row-major order.
proof fn lemma_least(g: Grid, tg: Grid, fg: Grid, mg: Grid, vals: Seq<u16>, i: int, k: int, skip: int)
    requires
        0 <= skip <= i < 81,
        0 <= k < vals.len(),
        forall|j: int| 0 <= j < 81 ==> #[trigger] g[j].finite(),
        forall|j: int| skip <= j < i ==> (#[trigger] g[j]).len() <= 1,
        skip > 0 ==> unsolvable(g),
        forall|a: int, b: int| 0 <= a < b < vals.len() ==> vals[a] < vals[b],
        forall|v: int| g[i].contains(v) ==> exists|j: int| 0 <= j < vals.len() && vals[j] == v,
        forall|s: Seq<int>, j: int|
            is_solution(s) && #[trigger] within(s, g) && 0 <= j < k ==> s[i] != #[trigger] vals[j] as int,
        tg[i] == set![vals[k] as int],
        forall|j: int| 0 <= j < 81 && j != i ==> tg[j] == g[j],
        subgrid(fg, tg),
        keeps_solutions(tg, fg),
        subgrid(mg, g),
        subgrid(mg, fg),
        determined(mg),
        settled(mg),
        forall|j: int| 0 <= j < 81 ==> (#[trigger] mg[j]).finite() && mg[j].subset_of(digits()),
        forall|s: Seq<int>|
            is_solution(s) && #[trigger] within(s, fg) ==> lex_le(digits_of(mg), s),
    ensures
        forall|s: Seq<int>| is_solution(s) && #[trigger] within(s, g) ==> lex_le(digits_of(mg), s),
{
    let dm = digits_of(mg);
    crate::rules::lemma_solved_grid(mg, g);
    assert forall|j: int| 0 <= j < 81 implies #[trigger] mg[j] == set![dm[j]] by {
        lemma_single_of(mg[j]);
    }
    if skip > 0 {
        assert(within(dm, g));
    }
    let v = vals[k] as int;
    assert(mg[i].subset_of(fg[i]));
    assert(fg[i].subset_of(tg[i]));
    assert(mg[i].contains(dm[i]));
    assert(dm[i] == v);
    assert forall|s: Seq<int>| is_solution(s) && #[trigger] within(s, g) implies lex_le(dm, s) by {
        assert forall|j: int| 0 <= j < i implies dm[j] == s[j] by {
            assert(g[j].contains(s[j]));
            if g[j].len() == 0 {
                assert(g[j] =~= Set::<int>::empty());
            }
            lemma_single_of(g[j]);
            assert(mg[j].subset_of(g[j]));
            assert(mg[j].contains(dm[j]));
        }
        assert(g[i].contains(s[i]));
        let j = choose|j: int| 0 <= j < vals.len() && vals[j] == s[i];
        if j < k {
            assert(s[i] != vals[j] as int);
        }
        if s[i] == v {
            assert forall|x: int| 0 <= x < 81 implies #[trigger] tg[x].contains(s[x]) by {
                if x != i {
                    assert(g[x].contains(s[x]));
                }
            }
            assert(within(s, tg));
            assert(within(s, fg));
        } else {
            assert(j > k);
            assert(vals[k] < vals[j]);
            assert(dm[i] < s[i]);
        }
    }
}

/// Depth-first search from a grid. The first open cell is found and
/// its candidates are tried in ascending order: each trial fixes the cell,
/// propagates, and on success searches the result. When every candidate of
/// the cell has failed, the grid has no solution; the search still moves on to
/// the next open cell, and gives the grid up once no open cell is left. A grid
/// with no open cell is returned when it obeys the rules.
fn search(data: Cells, tried: &mut u64, rejected: &mut u64) -> (r: Option<Cells>)
    requires
        cells_wf(data),
        *old(rejected) <= *old(tried),
    ensures
        *final(rejected) <= *final(tried),
        *old(tried) <= *final(tried),
        r matches Some(m) ==> cells_wf(m) && determined(grid_of(m)) && settled(grid_of(m))
            && subgrid(grid_of(m), grid_of(data)),
        r is None ==> unsolvable(grid_of(data)),
        !has_open_cell(grid_of(data)) ==> *final(tried) == *old(tried) && *final(rejected)
            == *old(rejected) && (r is Some <==> settled(grid_of(data))) && (r is Some ==> r
            == Some(data)),
        has_open_cell(grid_of(data)) ==> *final(tried) > 0,
        forall|f: nat|
            f > weight(grid_of(data), 81) ==> #[trigger] search_from(
                grid_of(data),
                f,
                0,
                1,
                false,
                *old(tried),
                *old(rejected),
            ) == (opt_grid(r), *final(tried), *final(rejected)),
        r matches Some(m) ==> forall|s: Seq<int>|
            is_solution(s) && #[trigger] within(s, grid_of(data)) ==> lex_le(
                digits_of(grid_of(m)),
                s,
            ),
    decreases weight(grid_of(data), 81),
{
    let ghost g = grid_of(data);
    let ghost t0 = *tried;
    let ghost r0 = *rejected;
    proof {
        assert forall|j: int| 0 <= j < 81 implies #[trigger] g[j].finite() by {
            lemma_tile_cell(data, j);
        }
    }
    let mut skip: usize = 0;
    loop
        invariant
            t0 == *old(tried),
            r0 == *old(rejected),
            forall|f: nat|
                f > weight(g, 81) ==> #[trigger] search_from(g, f, 0, 1, false, t0, r0)
                    == search_from(g, f, skip as int, 1, skip > 0, *tried, *rejected),
            g == grid_of(data),
            cells_wf(data),
            forall|j: int| 0 <= j < 81 ==> #[trigger] g[j].finite(),
            skip <= 81,
            *rejected <= *tried,
            *old(tried) <= *tried,
            skip > 0 ==> unsolvable(g) && *tried > 0 && g[skip - 1].len() > 1,
            skip == 0 ==> *tried == *old(tried) && *rejected == *old(rejected),
        decreases 81 - skip,
    {
        let mut idx: usize = skip;
        let mut open_cell = Tile::new();
        while idx < 81
            invariant
                skip <= idx <= 81,
                cells_wf(data),
                g == grid_of(data),
                forall|j: int| skip <= j < idx ==> (#[trigger] g[j]).len() <= 1,
                forall|f: nat|
                    f > weight(g, 81) ==> #[trigger] search_from(g, f, 0, 1, false, t0, r0)
                        == search_from(g, f, idx as int, 1, skip > 0, *tried, *rejected),
            ensures
                idx < 81 ==> open_cell@ == g[idx as int] && g[idx as int].len() > 1,
            decreases 81 - idx,
        {
            let t = Tile::from_mask(cell_at(&data, idx / 9, idx % 9));
            if t.len() > 1 {
                open_cell = t;
                break;
            }
            assert forall|f: nat| f > weight(g, 81) implies #[trigger] search_from(
                g,
                f,
                0,
                1,
                false,
                t0,
                r0,
            ) == search_from(g, f, idx as int + 1, 1, skip > 0, *tried, *rejected) by {
                assert(search_from(g, f, idx as int, 1, skip > 0, *tried, *rejected) == search_from(
                    g,
                    f,
                    idx as int + 1,
                    1,
                    skip > 0,
                    *tried,
                    *rejected,
                ));
            }
            idx = idx + 1;
        }
        if idx == 81 {
            if skip == 0 {
                // Every cell holds at most one digit: the grid is a solution
                // exactly when propagation finds nothing wrong with it.
                let mut check = data;
                if do_apply_constraints(&mut check).is_err() {
                    assert(subgrid(g, g));
                    assert(!settled(g));
                    return None;
                }
                proof {
                    let fg = grid_of(check);
                    assert forall|j: int| 0 <= j < 81 implies #[trigger] fg[j] == g[j] by {
                        assert(fg[j].subset_of(g[j]));
                        assert(fg[j].len() > 0);
                        vstd::set_lib::lemma_len_subset(fg[j], g[j]);
                        vstd::set_lib::lemma_subset_equality(fg[j], g[j]);
                    }
                    assert(fg =~= g);
                }
                assert forall|j: int| 0 <= j < 81 implies #[trigger] g[j].len() == 1 by {
                    assert(g[j].len() > 0);
                }
                assert forall|s: Seq<int>| is_solution(s) && #[trigger] within(s, g) implies lex_le(
                    digits_of(g),
                    s,
                ) by {
                    assert forall|j: int| 0 <= j < 81 implies digits_of(g)[j] == s[j] by {
                        lemma_single_of(g[j]);
                        assert(g[j].contains(s[j]));
                    }
                }
                return Some(data);
            }
            assert(g[skip - 1].len() > 1);
            return None;
        }
        let vals = open_cell.values();
        let ghost i = idx as int;
        proof {
            lemma_tile_cell(data, i);
            vstd::set_lib::lemma_int_range(1, 10);
            assert(digits() =~= vstd::set_lib::set_int_range(1, 10));
            vstd::set_lib::lemma_len_subset(g[i], digits());
        }
        let mut k: usize = 0;
        while k < vals.len()
            invariant
                k <= vals@.len(),
                i == idx,
                0 <= i < 81,
                skip <= i,
                forall|j: int| skip <= j < i ==> (#[trigger] g[j]).len() <= 1,
                skip > 0 ==> unsolvable(g),
                forall|a: int, b: int| 0 <= a < b < vals@.len() ==> vals@[a] < vals@[b],
                g == grid_of(data),
                cells_wf(data),
                forall|j: int| 0 <= j < 81 ==> #[trigger] g[j].finite(),
                g[i].len() > 1,
                g[i].subset_of(digits()),
                forall|j: int| 0 <= j < vals@.len() ==> #[trigger] g[i].contains(vals@[j] as int),
                forall|v: int| g[i].contains(v) ==> exists|j: int| 0 <= j < vals@.len() && vals@[j] == v,
                *rejected <= *tried,
                *old(tried) <= *tried,
                k > 0 ==> *tried > 0,
                skip > 0 ==> *tried > 0,
                skip == 0 && k == 0 ==> *tried == *old(tried) && *rejected == *old(rejected),
                t0 == *old(tried),
                r0 == *old(rejected),
                vals@.len() <= 9,
                forall|f: nat|
                    f > weight(g, 81) ==> #[trigger] search_from(g, f, 0, 1, false, t0, r0)
                        == search_from(g, f, i, next_digit(vals@, k as int), skip > 0, *tried, *rejected),
                forall|s: Seq<int>, j: int|
                    is_solution(s) && #[trigger] within(s, g) && 0 <= j < k ==> s[i] != #[trigger] vals@[j] as int,
            decreases vals@.len() - k,
        {
            let v = vals[k];
            assert(g[i].contains(vals@[k as int] as int));
            let ghost t_before = *tried;
            let ghost r_before = *rejected;
            let ghost dead = skip > 0;
            proof {
                let nd = next_digit(vals@, k as int);
                assert forall|x: int| nd <= x < v as int implies !#[trigger] g[i].contains(x) by {
                    if g[i].contains(x) {
                        let j = choose|j: int| 0 <= j < vals@.len() && vals@[j] == x;
                        if j < k {
                            assert(vals@[j] <= vals@[k - 1]);
                        } else if j > k {
                            assert(vals@[k as int] < vals@[j]);
                        }
                    }
                }
                if k > 0 {
                    assert(vals@[k - 1] < vals@[k as int]);
                }
                assert forall|f: nat| f > weight(g, 81) implies #[trigger] search_from(
                    g,
                    f,
                    0,
                    1,
                    false,
                    t0,
                    r0,
                ) == search_from(g, f, i, v as int, dead, t_before, r_before) by {
                    lemma_skip_absent(g, f, i, nd, v as int, dead, t_before, r_before);
                }
            }
            *tried = tried.saturating_add(1);
            let mut trial = data;
            let mut t = Tile::new();
            t.insert(v);
            set_cell(&mut trial, idx / 9, idx % 9, t.to_mask());
            let ghost tg = grid_of(trial);
            proof {
                assert(tg[i] == set![v as int]);
                assert forall|j: int| 0 <= j < 81 implies canonical(#[trigger] cells_of(trial)[j]) by {
                    if j != i {
                        assert(cells_of(trial)[j] == cells_of(data)[j]);
                    }
                }
            }
            proof {
                assert(tg =~= g.update(i, set![v as int]));
            }
            match do_apply_constraints(&mut trial) {
                Err(()) => {
                    *rejected = rejected.saturating_add(1);
                    proof {
                        assert forall|h: Grid| !#[trigger] largest_settled(h, tg) by {
                            if largest_settled(h, tg) {
                                assert(subgrid(h, tg));
                            }
                        }
                        assert(propagated(tg) is None);
                        assert forall|f: nat| f > weight(g, 81) implies #[trigger] search_from(
                            g,
                            f,
                            0,
                            1,
                            false,
                            t0,
                            r0,
                        ) == search_from(g, f, i, v as int + 1, dead, *tried, *rejected) by {
                            assert(search_from(g, f, i, v as int, dead, t_before, r_before)
                                == search_from(g, f, i, v as int + 1, dead, *tried, *rejected));
                        }
                    }
                },
                Ok(()) => {
                    let ghost fg = grid_of(trial);
                    proof {
                        assert(largest_settled(fg, tg));
                        let h = choose|h: Grid| largest_settled(h, tg);
                        lemma_largest_unique(h, fg, tg);
                        assert(propagated(tg) == Some(fg));
                        assert forall|j: int| 0 <= j < 81 implies #[trigger] fg[j].subset_of(g[j]) by {
                            assert(fg[j].subset_of(tg[j]));
                            if j != i {
                                assert(tg[j] == g[j]);
                            }
                        }
                        assert(fg[i] != g[i]) by {
                            if fg[i] == g[i] {
                                vstd::set_lib::lemma_len_subset(fg[i], set![v as int]);
                            }
                        }
                        lemma_weight(fg, g, 81);
                    }
                    match search(trial, tried, rejected) {
                        Some(m) => {
                            let ghost mg = grid_of(m);
                            assert forall|j: int| 0 <= j < 81 implies #[trigger] mg[j].subset_of(g[j]) by {
                                assert(mg[j].subset_of(fg[j]));
                                assert(fg[j].subset_of(g[j]));
                            }
                            proof {
                                assert forall|j: int| 0 <= j < 81 implies (#[trigger] mg[j]).finite()
                                    && mg[j].subset_of(digits()) by {
                                    lemma_tile_cell(m, j);
                                }
                                lemma_least(g, tg, fg, mg, vals@, i, k as int, skip as int);
                                assert forall|f: nat| f > weight(g, 81) implies #[trigger] search_from(
                                    g,
                                    f,
                                    0,
                                    1,
                                    false,
                                    t0,
                                    r0,
                                ) == (opt_grid(Some(m)), *tried, *rejected) by {
                                    assert(search_from(fg, (f - 1) as nat, 0, 1, false, bump(t_before), r_before)
                                        == (opt_grid(Some(m)), *tried, *rejected));
                                }
                            }
                            return Some(m);
                        },
                        None => {
                            proof {
                                assert forall|f: nat| f > weight(g, 81) implies #[trigger] search_from(
                                    g,
                                    f,
                                    0,
                                    1,
                                    false,
                                    t0,
                                    r0,
                                ) == search_from(g, f, i, v as int + 1, dead, *tried, *rejected) by {
                                    assert(search_from(fg, (f - 1) as nat, 0, 1, false, bump(t_before), r_before)
                                        == (None::<Grid>, *tried, *rejected));
                                }
                            }
                        },
                    }
                },
            }
            proof {
                assert forall|s: Seq<int>, j: int|
                    is_solution(s) && #[trigger] within(s, g) && 0 <= j < k + 1 implies s[i]
                    != #[trigger] vals@[j] as int by {
                    if j == k && s[i] == v as int {
                        assert forall|x: int| 0 <= x < 81 implies #[trigger] tg[x].contains(s[x]) by {
                            if x != i {
                                assert(tg[x] == g[x]);
                                assert(g[x].contains(s[x]));
                            }
                        }
                        assert(within(s, tg));
                    }
                }
            }
            k = k + 1;
        }
        proof {
            assert forall|s: Seq<int>| is_solution(s) implies !#[trigger] within(s, g) by {
                if within(s, g) {
                    assert(g[i].contains(s[i]));
                    let j = choose|j: int| 0 <= j < vals@.len() && vals@[j] == s[i];
                }
            }
        }
        proof {
            let n = vals@.len() as int;
            let nd = next_digit(vals@, n);
            assert(vals@[n - 1] <= 9) by {
                assert(g[i].contains(vals@[n - 1] as int));
            }
            assert forall|x: int| nd <= x < 10 implies !#[trigger] g[i].contains(x) by {
                if g[i].contains(x) {
                    let j = choose|j: int| 0 <= j < vals@.len() && vals@[j] == x;
                    if j < n - 1 {
                        assert(vals@[j] < vals@[n - 1]);
                    }
                }
            }
            assert forall|f: nat| f > weight(g, 81) implies #[trigger] search_from(
                g,
                f,
                0,
                1,
                false,
                t0,
                r0,
            ) == search_from(g, f, i + 1, 1, true, *tried, *rejected) by {
                lemma_skip_absent(g, f, i, nd, 10, skip > 0, *tried, *rejected);
                assert(search_from(g, f, i, 10, skip > 0, *tried, *rejected) == search_from(
                    g,
                    f,
                    i + 1,
                    1,
                    true,
                    *tried,
                    *rejected,
                ));
            }
        }
        skip = idx + 1;
    }
}

} // verus!
