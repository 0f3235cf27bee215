//! The rules of the game, stated over grids of candidate sets: the units,
//! what a solution is, and when a grid is settled.

use vstd::prelude::*;
use crate::tile::digits;

verus! {

/// A grid: the candidate sets of the 81 cells, row after row.
pub type Grid = Seq<Set<int>>;

/// Row of the `k`-th cell of unit `u`; units 0 to 8 are the rows, 9 to 17 the
/// columns and 18 to 26 the 3×3 boxes.
pub open spec fn unit_row(u: int, k: int) -> int {
    if u < 9 {
        u
    } else if u < 18 {
        k
    } else {
        ((u - 18) / 3) * 3 + k / 3
    }
}

/// Column of the `k`-th cell of unit `u`.
pub open spec fn unit_col(u: int, k: int) -> int {
    if u < 9 {
        k
    } else if u < 18 {
        u - 9
    } else {
        ((u - 18) % 3) * 3 + k % 3
    }
}

/// Index, row-major, of the `k`-th cell of unit `u`.
pub open spec fn unit_cell(u: int, k: int) -> int {
    unit_row(u, k) * 9 + unit_col(u, k)
}

/// Whether `u` names a unit and `k` a position in it.
pub open spec fn in_unit(u: int, k: int) -> bool {
    0 <= u < 27 && 0 <= k < 9
}

/// A complete assignment of digits that obeys the rules: within every row,
/// column and box the digits differ.
pub open spec fn is_solution(s: Seq<int>) -> bool {
    &&& s.len() == 81
    &&& forall|i: int| 0 <= i < 81 ==> 1 <= #[trigger] s[i] <= 9
    &&& forall|u: int, k1: int, k2: int|
        in_unit(u, k1) && in_unit(u, k2) && k1 != k2 ==> #[trigger] s[unit_cell(u, k1)]
            != #[trigger] s[unit_cell(u, k2)]
}

/// Every cell's digit in `s` is among the cell's candidates in `g`.
pub open spec fn within(s: Seq<int>, g: Grid) -> bool {
    forall|i: int| 0 <= i < 81 ==> #[trigger] g[i].contains(s[i])
}

/// Each cell of `a` holds no candidate that the same cell of `b` lacks.
pub open spec fn subgrid(a: Grid, b: Grid) -> bool {
    forall|i: int| 0 <= i < 81 ==> #[trigger] a[i].subset_of(b[i])
}

/// Every solution within `a` lies within `b`.
pub open spec fn keeps_solutions(a: Grid, b: Grid) -> bool {
    forall|s: Seq<int>| is_solution(s) && #[trigger] within(s, a) ==> within(s, b)
}

/// No solution lies within `g`.
pub open spec fn unsolvable(g: Grid) -> bool {
    forall|s: Seq<int>| is_solution(s) ==> !#[trigger] within(s, g)
}

/// Every settled grid within `a` lies within `b`.
pub open spec fn keeps_settled(a: Grid, b: Grid) -> bool {
    forall|h: Grid| settled(h) && #[trigger] subgrid(h, a) ==> subgrid(h, b)
}

/// No settled grid lies within `g`.
pub open spec fn unsettleable(g: Grid) -> bool {
    forall|h: Grid| #[trigger] subgrid(h, g) ==> !settled(h)
}

/// No cell is empty, and no cell holds the digit of a determined cell of a unit
/// that it shares.
pub open spec fn settled(g: Grid) -> bool {
    &&& forall|i: int| 0 <= i < 81 ==> #[trigger] g[i].len() > 0
    &&& forall|u: int, k1: int, k2: int, v: int|
        in_unit(u, k1) && in_unit(u, k2) && k1 != k2 && #[trigger] g[unit_cell(u, k1)] == set![v]
            ==> !#[trigger] g[unit_cell(u, k2)].contains(v)
}

/// Some cell holds more than one candidate.
pub open spec fn has_open_cell(g: Grid) -> bool {
    exists|i: int| 0 <= i < 81 && #[trigger] g[i].len() > 1
}

/// Every cell is determined.
pub open spec fn determined(g: Grid) -> bool {
    forall|i: int| 0 <= i < 81 ==> #[trigger] g[i].len() == 1
}

/// The digits of a determined grid, row after row.
pub open spec fn digits_of(g: Grid) -> Seq<int> {
    Seq::new(81, |i: int| g[i].choose())
}

/// `a` equals `b` or comes before it, comparing the 81 cells in row-major order.
pub open spec fn lex_le(a: Seq<int>, b: Seq<int>) -> bool {
    (forall|i: int| 0 <= i < 81 ==> a[i] == b[i]) || exists|i: int|
        0 <= i < 81 && #[trigger] a[i] < b[i] && forall|j: int| 0 <= j < i ==> a[j] == b[j]
}

/// The sum of the sizes of the first `n` candidate sets.
pub open spec fn weight(g: Grid, n: int) -> nat
    decreases n,
{
    if n <= 0 {
        0
    } else {
        weight(g, n - 1) + g[n - 1].len()
    }
}

pub proof fn lemma_unit_cell(u: int, k: int)
    requires
        in_unit(u, k),
    ensures
        0 <= unit_row(u, k) < 9,
        0 <= unit_col(u, k) < 9,
        0 <= unit_cell(u, k) < 81,
        forall|k2: int| 0 <= k2 < 9 && k2 != k ==> unit_cell(u, k) != #[trigger] unit_cell(u, k2),
{
    assert forall|k2: int| 0 <= k2 < 9 && k2 != k implies unit_cell(u, k) != #[trigger] unit_cell(
        u,
        k2,
    ) by {
        if u >= 18 {
            assert(k / 3 != k2 / 3 || k % 3 != k2 % 3);
        }
    }
}

/// Shrinking the candidate sets of a grid lowers its weight, strictly where
/// one of them shrinks.
pub proof fn lemma_weight(a: Grid, b: Grid, n: int)
    requires
        0 <= n <= 81,
        subgrid(a, b),
        forall|i: int| 0 <= i < 81 ==> #[trigger] b[i].finite(),
    ensures
        weight(a, n) <= weight(b, n),
        (exists|i: int| 0 <= i < n && a[i] != b[i]) ==> weight(a, n) < weight(b, n),
    decreases n,
{
    if n > 0 {
        lemma_weight(a, b, n - 1);
        let i = n - 1;
        assert(a[i].subset_of(b[i]));
        vstd::set_lib::lemma_len_subset(a[i], b[i]);
        if a[i] != b[i] && a[i].len() == b[i].len() {
            vstd::set_lib::lemma_subset_equality(a[i], b[i]);
            assert(a[i] =~= b[i]);
        }
        if exists|j: int| 0 <= j < n && a[j] != b[j] {
            if !(exists|j: int| 0 <= j < n - 1 && a[j] != b[j]) {
                assert(a[i] != b[i]);
            }
        }
    }
}

/// Cell `i` is the `i % 9`-th cell of row `i / 9`.
pub proof fn lemma_row_cell(i: int)
    requires
        0 <= i < 81,
    ensures
        in_unit(i / 9, i % 9),
        unit_cell(i / 9, i % 9) == i,
{
}

/// Some cell of unit `u` is determined to the digit `d`.
pub open spec fn unit_holds(g: Grid, u: int, d: int) -> bool {
    exists|k: int| 0 <= k < 9 && #[trigger] g[unit_cell(u, k)] == set![d]
}

/// In a settled grid, two determined cells of one unit hold different digits.
pub proof fn lemma_settled_distinct(g: Grid, u: int, k1: int, k2: int, v1: int, v2: int)
    requires
        settled(g),
        in_unit(u, k1),
        in_unit(u, k2),
        k1 != k2,
        g[unit_cell(u, k1)] == set![v1],
        g[unit_cell(u, k2)] == set![v2],
    ensures
        v1 != v2,
{
    assert(g[unit_cell(u, k2)].contains(v2));
}

/// A finite set of size one holds just the member that `choose` picks.
pub proof fn lemma_single_of(s: Set<int>)
    requires
        s.finite(),
        s.len() == 1,
    ensures
        s == set![s.choose()],
{
    let w = s.choose();
    assert(s.contains(w));
    assert(s.remove(w).len() == 0);
    assert(s.remove(w) =~= Set::<int>::empty());
    assert(s =~= set![w]);
}

/// A determined, settled grid: every unit holds each digit 1 to 9 exactly
/// once, its digits form a solution within every grid it came from, and every
/// cell that was determined in such a grid keeps its digit.
pub proof fn lemma_solved_grid(g: Grid, given: Grid)
    requires
        forall|i: int| 0 <= i < 81 ==> (#[trigger] g[i]).finite() && g[i].subset_of(digits()),
        determined(g),
        settled(g),
        subgrid(g, given),
    ensures
        forall|u: int, d: int| 0 <= u < 27 && 1 <= d <= 9 ==> #[trigger] unit_holds(g, u, d),
        forall|u: int, k1: int, k2: int|
            in_unit(u, k1) && in_unit(u, k2) && k1 != k2 ==> #[trigger] g[unit_cell(u, k1)]
                != #[trigger] g[unit_cell(u, k2)],
        is_solution(Seq::new(81, |i: int| g[i].choose())),
        within(Seq::new(81, |i: int| g[i].choose()), given),
        forall|i: int|
            0 <= i < 81 && given[i].finite() && given[i].len() == 1 ==> #[trigger] g[i] == given[i],
{
    let s = Seq::new(81, |i: int| g[i].choose());
    assert forall|i: int| 0 <= i < 81 implies #[trigger] g[i] == set![s[i]] by {
        lemma_single_of(g[i]);
    }
    assert forall|i: int| 0 <= i < 81 implies 1 <= #[trigger] s[i] <= 9 by {
        assert(g[i].contains(s[i]));
    }
    assert forall|i: int| 0 <= i < 81 implies #[trigger] given[i].contains(s[i]) by {
        assert(g[i].contains(s[i]));
        assert(g[i].subset_of(given[i]));
    }
    assert forall|u: int, k1: int, k2: int|
        in_unit(u, k1) && in_unit(u, k2) && k1 != k2 implies #[trigger] s[unit_cell(u, k1)]
        != #[trigger] s[unit_cell(u, k2)] by {
        lemma_unit_cell(u, k1);
        lemma_unit_cell(u, k2);
        lemma_settled_distinct(g, u, k1, k2, s[unit_cell(u, k1)], s[unit_cell(u, k2)]);
    }
    assert forall|u: int, k1: int, k2: int|
        in_unit(u, k1) && in_unit(u, k2) && k1 != k2 implies #[trigger] g[unit_cell(u, k1)]
        != #[trigger] g[unit_cell(u, k2)] by {
        lemma_unit_cell(u, k1);
        lemma_unit_cell(u, k2);
        assert(s[unit_cell(u, k1)] != s[unit_cell(u, k2)]);
        assert(g[unit_cell(u, k1)].contains(s[unit_cell(u, k1)]));
    }
    assert forall|u: int, d: int| 0 <= u < 27 && 1 <= d <= 9 implies #[trigger] unit_holds(g, u, d) by {
        let vals = Seq::new(9, |k: int| s[unit_cell(u, k)]);
        assert forall|a: int, b: int| 0 <= a < 9 && 0 <= b < 9 && a != b implies vals[a]
            != vals[b] by {
            assert(in_unit(u, a) && in_unit(u, b));
            assert(s[unit_cell(u, a)] != s[unit_cell(u, b)]);
        }
        assert(vals.no_duplicates());
        vals.unique_seq_to_set();
        assert forall|x: int| vals.to_set().contains(x) implies #[trigger] digits().contains(x) by {
            let k = choose|k: int| 0 <= k < 9 && vals[k] == x;
            lemma_unit_cell(u, k);
        }
        vstd::set_lib::lemma_int_range(1, 10);
        assert(digits() =~= vstd::set_lib::set_int_range(1, 10));
        vstd::set_lib::lemma_subset_equality(vals.to_set(), digits());
        assert(vals.to_set().contains(d));
        let k = choose|k: int| 0 <= k < 9 && vals[k] == d;
        lemma_unit_cell(u, k);
        assert(g[unit_cell(u, k)] == set![d]);
    }
    assert forall|i: int|
        0 <= i < 81 && given[i].finite() && given[i].len() == 1 implies #[trigger] g[i]
        == given[i] by {
        assert(g[i].subset_of(given[i]));
        vstd::set_lib::lemma_subset_equality(g[i], given[i]);
    }
}

/// A grid whose cells are all open is settled but not determined: propagation
/// leaves it as it is, and a search of it has to try values.
pub proof fn lemma_open_grid(g: Grid)
    requires
        forall|i: int| 0 <= i < 81 ==> #[trigger] g[i] == digits(),
    ensures
        settled(g),
        !determined(g),
{
    vstd::set_lib::lemma_int_range(1, 10);
    assert(digits() =~= vstd::set_lib::set_int_range(1, 10));
    assert forall|u: int, k1: int, k2: int, v: int|
        in_unit(u, k1) && in_unit(u, k2) && k1 != k2 && #[trigger] g[unit_cell(u, k1)] == set![v]
            implies !#[trigger] g[unit_cell(u, k2)].contains(v) by {
        lemma_unit_cell(u, k1);
        assert(digits().contains(1) && digits().contains(2));
    }
    assert(g[0].len() == 9);
}

/// Two determined cells of one unit with the same digit cannot be settled
/// away: no grid within such a grid is settled, so propagation fails on it.
pub proof fn lemma_repeated_clue(given: Grid, g: Grid, u: int, k1: int, k2: int, v: int)
    requires
        in_unit(u, k1),
        in_unit(u, k2),
        k1 != k2,
        given[unit_cell(u, k1)] == set![v],
        given[unit_cell(u, k2)] == set![v],
        subgrid(g, given),
    ensures
        !settled(g),
{
    lemma_unit_cell(u, k1);
    lemma_unit_cell(u, k2);
    if settled(g) {
        assert(g[unit_cell(u, k1)].subset_of(set![v]));
        assert(g[unit_cell(u, k2)].subset_of(set![v]));
        assert(g[unit_cell(u, k1)].len() > 0);
        assert(g[unit_cell(u, k2)].len() > 0);
        if !g[unit_cell(u, k1)].contains(v) {
            assert(g[unit_cell(u, k1)] =~= Set::<int>::empty());
        }
        assert(g[unit_cell(u, k1)] =~= set![v]);
        if !g[unit_cell(u, k2)].contains(v) {
            assert(g[unit_cell(u, k2)] =~= Set::<int>::empty());
        }
    }
}

/// The digit that a fixed solution puts in cell `i`: in row `r`, column `c`,
/// the digit `(3 * (r % 3) + r / 3 + c) % 9 + 1`.
pub open spec fn pattern_digit(i: int) -> int {
    (3 * ((i / 9) % 3) + (i / 9) / 3 + i % 9) % 9 + 1
}

spec fn row_shift(r: int) -> int {
    3 * (r % 3) + r / 3
}

proof fn lemma_row_shift(r: int)
    requires
        0 <= r < 9,
    ensures
        0 <= row_shift(r) < 9,
        forall|r2: int| 0 <= r2 < 9 && row_shift(r2) == row_shift(r) ==> r2 == r,
{
    assert forall|r2: int| 0 <= r2 < 9 && row_shift(r2) == row_shift(r) implies r2 == r by {
        assert(r == 0 || r == 1 || r == 2 || r == 3 || r == 4 || r == 5 || r == 6 || r == 7 || r == 8);
        assert(r2 == 0 || r2 == 1 || r2 == 2 || r2 == 3 || r2 == 4 || r2 == 5 || r2 == 6 || r2 == 7
            || r2 == 8);
    }
}

proof fn lemma_pattern_cell(r: int, c: int)
    requires
        0 <= r < 9,
        0 <= c < 9,
    ensures
        pattern_digit(r * 9 + c) == (row_shift(r) + c) % 9 + 1,
{
    assert((r * 9 + c) / 9 == r && (r * 9 + c) % 9 == c);
}

proof fn lemma_mod9(a: int)
    requires
        0 <= a < 18,
    ensures
        a % 9 == if a >= 9 {
            a - 9
        } else {
            a
        },
{
}

proof fn lemma_pattern_differs(r1: int, c1: int, r2: int, c2: int)
    requires
        0 <= r1 < 9,
        0 <= c1 < 9,
        0 <= r2 < 9,
        0 <= c2 < 9,
        r1 == r2 && c1 != c2 || c1 == c2 && r1 != r2 || (r1 / 3 == r2 / 3 && c1 / 3 == c2 / 3 && (
        r1 != r2 || c1 != c2)),
    ensures
        pattern_digit(r1 * 9 + c1) != pattern_digit(r2 * 9 + c2),
{
    lemma_pattern_cell(r1, c1);
    lemma_pattern_cell(r2, c2);
    lemma_row_shift(r1);
    lemma_row_shift(r2);
    lemma_mod9(row_shift(r1) + c1);
    lemma_mod9(row_shift(r2) + c2);
}

proof fn lemma_pattern_unit(u: int, k1: int, k2: int)
    requires
        in_unit(u, k1),
        in_unit(u, k2),
        k1 != k2,
    ensures
        pattern_digit(unit_cell(u, k1)) != pattern_digit(unit_cell(u, k2)),
{
    lemma_unit_cell(u, k1);
    lemma_unit_cell(u, k2);
    let r1 = unit_row(u, k1);
    let c1 = unit_col(u, k1);
    let r2 = unit_row(u, k2);
    let c2 = unit_col(u, k2);
    if u >= 18 {
        assert(r1 / 3 == (u - 18) / 3 && r2 / 3 == (u - 18) / 3);
        assert(c1 / 3 == (u - 18) % 3 && c2 / 3 == (u - 18) % 3);
        assert(r1 % 3 == k1 / 3 && r2 % 3 == k2 / 3);
        assert(c1 % 3 == k1 % 3 && c2 % 3 == k2 % 3);
        assert(k1 / 3 != k2 / 3 || k1 % 3 != k2 % 3);
    }
    lemma_pattern_differs(r1, c1, r2, c2);
}

/// A grid whose cells are all open has a solution.
pub proof fn lemma_open_grid_solvable(g: Grid)
    requires
        forall|i: int| 0 <= i < 81 ==> #[trigger] g[i] == digits(),
    ensures
        !unsolvable(g),
        is_solution(Seq::new(81, |i: int| pattern_digit(i))),
        within(Seq::new(81, |i: int| pattern_digit(i)), g),
{
    let s = Seq::new(81, |i: int| pattern_digit(i));
    assert forall|u: int, k1: int, k2: int|
        in_unit(u, k1) && in_unit(u, k2) && k1 != k2 implies #[trigger] s[unit_cell(u, k1)]
        != #[trigger] s[unit_cell(u, k2)] by {
        lemma_unit_cell(u, k1);
        lemma_unit_cell(u, k2);
        lemma_pattern_unit(u, k1, k2);
    }
    assert(is_solution(s));
    assert(within(s, g));
}

/// `h` is the largest settled grid within `g`: 81 cells, settled, within `g`,
/// and holding every settled grid within `g`.
pub open spec fn largest_settled(h: Grid, g: Grid) -> bool {
    h.len() == 81 && settled(h) && subgrid(h, g) && keeps_settled(g, h)
}

/// What propagation makes of `g`: its largest settled grid, if there is one.
pub open spec fn propagated(g: Grid) -> Option<Grid> {
    if exists|h: Grid| largest_settled(h, g) {
        Some(choose|h: Grid| largest_settled(h, g))
    } else {
        None
    }
}

/// A count raised by one, stopping at the largest `u64`.
pub open spec fn bump(x: u64) -> u64 {
    if x < u64::MAX {
        (x + 1) as u64
    } else {
        x
    }
}

/// The search, stated step by step: the outcome and the two counts (values
/// tried, values rejected by propagation) when the search of `g` is at cell
/// `pos`, about to consider digit `d` there, with the counts at `t` and `r`.
/// `dead` records that some cell had all its candidates fail; `f` bounds the
/// depth of nested trials.
pub open spec fn search_from(
    g: Grid,
    f: nat,
    pos: int,
    d: int,
    dead: bool,
    t: u64,
    r: u64,
) -> (Option<Grid>, u64, u64)
    decreases f, 81 - pos, 10 - d,
{
    if f == 0 || pos < 0 || d < 1 {
        (None, t, r)
    } else if pos >= 81 {
        if !dead && settled(g) {
            (Some(g), t, r)
        } else {
            (None, t, r)
        }
    } else if g[pos].len() <= 1 {
        search_from(g, f, pos + 1, 1, dead, t, r)
    } else if d > 9 {
        search_from(g, f, pos + 1, 1, true, t, r)
    } else if !g[pos].contains(d) {
        search_from(g, f, pos, d + 1, dead, t, r)
    } else {
        match propagated(g.update(pos, set![d])) {
            None => search_from(g, f, pos, d + 1, dead, bump(t), bump(r)),
            Some(c) => {
                let (res, t2, r2) = search_from(c, (f - 1) as nat, 0, 1, false, bump(t), r);
                if res is Some {
                    (res, t2, r2)
                } else {
                    search_from(g, f, pos, d + 1, dead, t2, r2)
                }
            },
        }
    }
}

/// The outcome and the counts of a whole search of `g`.
pub open spec fn search_model(g: Grid) -> (Option<Grid>, u64, u64) {
    search_from(g, weight(g, 81) + 1, 0, 1, false, 0, 0)
}

/// Two largest settled grids within one grid are equal.
pub proof fn lemma_largest_unique(h1: Grid, h2: Grid, g: Grid)
    requires
        largest_settled(h1, g),
        largest_settled(h2, g),
    ensures
        h1 == h2,
{
    assert(subgrid(h1, g));
    assert(subgrid(h2, g));
    assert(subgrid(h1, h2));
    assert(subgrid(h2, h1));
    assert forall|i: int| 0 <= i < 81 implies #[trigger] h1[i] == h2[i] by {
        assert(h1[i].subset_of(h2[i]));
        assert(h2[i].subset_of(h1[i]));
        assert(h1[i] =~= h2[i]);
    }
    assert(h1 =~= h2);
}

/// Digits that cell `pos` lacks are passed over.
pub proof fn lemma_skip_absent(
    g: Grid,
    f: nat,
    pos: int,
    d: int,
    e: int,
    dead: bool,
    t: u64,
    r: u64,
)
    requires
        f > 0,
        0 <= pos < 81,
        g[pos].len() > 1,
        1 <= d <= e <= 10,
        forall|x: int| d <= x < e ==> !#[trigger] g[pos].contains(x),
    ensures
        search_from(g, f, pos, d, dead, t, r) == search_from(g, f, pos, e, dead, t, r),
    decreases e - d,
{
    if d < e {
        lemma_skip_absent(g, f, pos, d + 1, e, dead, t, r);
    }
}

} // verus!
