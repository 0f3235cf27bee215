//! The candidate set of one cell: a subset of the digits 1 to 9, packed into
//! the bits 1 to 9 of a `u16`.

use vstd::prelude::*;
use vstd::set_lib::{lemma_int_range, lemma_len_subset, set_int_range};

verus! {

/// The values a cell may hold.
pub open spec fn digits() -> Set<int> {
    Set::new(|v: int| 1 <= v <= 9)
}

/// Whether the bit of digit `v` is set in the mask `m`.
pub open spec fn has_bit(m: u16, v: int) -> bool {
    1 <= v <= 9 && (m >> (v as u16)) & 1u16 == 1u16
}

/// The digits that the mask `m` holds.
pub open spec fn mask_set(m: u16) -> Set<int> {
    Set::new(|v: int| has_bit(m, v))
}

/// A mask with no bit set outside 1 to 9.
pub open spec fn canonical(m: u16) -> bool {
    m & 0xfc01u16 == 0
}

/// Whether `v` is the least member of `s`.
pub open spec fn is_least(s: Set<int>, v: int) -> bool {
    s.contains(v) && forall|w: int| s.contains(w) ==> v <= w
}

proof fn lemma_bit_set(m: u16, v: u16, w: u16)
    requires
        1 <= v <= 9,
        1 <= w <= 9,
    ensures
        ((m | (1u16 << v)) >> w) & 1u16 == 1u16 <==> (w == v || (m >> w) & 1u16 == 1u16),
        ((m & !(1u16 << v)) >> w) & 1u16 == 1u16 <==> (w != v && (m >> w) & 1u16 == 1u16),
        canonical(m) ==> canonical(m | (1u16 << v)) && canonical(m & !(1u16 << v)),
{
    assert(((m | (1u16 << v)) >> w) & 1u16 == 1u16 <==> (w == v || (m >> w) & 1u16 == 1u16))
        by (bit_vector)
        requires
            1 <= v <= 9,
            1 <= w <= 9,
    ;
    assert(((m & !(1u16 << v)) >> w) & 1u16 == 1u16 <==> (w != v && (m >> w) & 1u16 == 1u16))
        by (bit_vector)
        requires
            1 <= v <= 9,
            1 <= w <= 9,
    ;
    assert(m & 0xfc01u16 == 0 ==> (m | (1u16 << v)) & 0xfc01u16 == 0 && (m & !(1u16 << v))
        & 0xfc01u16 == 0) by (bit_vector)
        requires
            1 <= v <= 9,
    ;
}

/// Two masks without stray bits that stand for the same set are equal.
pub proof fn lemma_mask_eq(a: u16, b: u16)
    requires
        canonical(a),
        canonical(b),
        mask_set(a) == mask_set(b),
    ensures
        a == b,
{
    assert forall|v: u16| 1 <= v <= 9 implies (a >> v) & 1u16 == (b >> v) & 1u16 by {
        assert(mask_set(a).contains(v as int) == mask_set(b).contains(v as int));
        assert(mask_set(a).contains(v as int) == has_bit(a, v as int));
        assert(mask_set(b).contains(v as int) == has_bit(b, v as int));
        assert(((v as int) as u16) == v);
        assert((a >> v) & 1u16 == 1u16 || (a >> v) & 1u16 == 0u16) by (bit_vector);
        assert((b >> v) & 1u16 == 1u16 || (b >> v) & 1u16 == 0u16) by (bit_vector);
    }
    let e1 = (a >> 1u16) & 1u16 == (b >> 1u16) & 1u16;
    let e2 = (a >> 2u16) & 1u16 == (b >> 2u16) & 1u16;
    let e3 = (a >> 3u16) & 1u16 == (b >> 3u16) & 1u16;
    let e4 = (a >> 4u16) & 1u16 == (b >> 4u16) & 1u16;
    let e5 = (a >> 5u16) & 1u16 == (b >> 5u16) & 1u16;
    let e6 = (a >> 6u16) & 1u16 == (b >> 6u16) & 1u16;
    let e7 = (a >> 7u16) & 1u16 == (b >> 7u16) & 1u16;
    let e8 = (a >> 8u16) & 1u16 == (b >> 8u16) & 1u16;
    let e9 = (a >> 9u16) & 1u16 == (b >> 9u16) & 1u16;
    assert(e1 && e2 && e3 && e4 && e5 && e6 && e7 && e8 && e9);
    assert(a == b) by (bit_vector)
        requires
            a & 0xfc01u16 == 0,
            b & 0xfc01u16 == 0,
            (a >> 1u16) & 1u16 == (b >> 1u16) & 1u16,
            (a >> 2u16) & 1u16 == (b >> 2u16) & 1u16,
            (a >> 3u16) & 1u16 == (b >> 3u16) & 1u16,
            (a >> 4u16) & 1u16 == (b >> 4u16) & 1u16,
            (a >> 5u16) & 1u16 == (b >> 5u16) & 1u16,
            (a >> 6u16) & 1u16 == (b >> 6u16) & 1u16,
            (a >> 7u16) & 1u16 == (b >> 7u16) & 1u16,
            (a >> 8u16) & 1u16 == (b >> 8u16) & 1u16,
            (a >> 9u16) & 1u16 == (b >> 9u16) & 1u16,
    ;
}

/// Every mask stands for a finite set of digits.
pub proof fn lemma_mask_set(m: u16)
    ensures
        mask_set(m).subset_of(digits()),
        mask_set(m).finite(),
        mask_set(m).len() <= 9,
{
    lemma_int_range(1, 10);
    assert(digits() =~= set_int_range(1, 10));
    lemma_len_subset(mask_set(m), digits());
}

/// Every set of candidates is a finite set of digits.
pub proof fn lemma_tile(t: Tile)
    ensures
        t@.finite(),
        t@.subset_of(digits()),
        t@.len() <= 9,
        t@ == mask_set(t.mask()),
{
    lemma_mask_set(t.data);
}

/// Two sets built by this type's operations are equal exactly when they have
/// the same members.
pub proof fn lemma_eq_iff_members(a: Tile, b: Tile)
    requires
        canonical(a.mask()),
        canonical(b.mask()),
    ensures
        (a == b) <==> a@ == b@,
{
    if a@ == b@ {
        lemma_mask_eq(a.data, b.data);
    }
}

/// The set of the digits that a cell may still hold.
#[derive(Clone, Copy, PartialEq, Eq, Structural, Debug)]
pub struct Tile {
    data: u16,
}

impl View for Tile {
    type V = Set<int>;

    closed spec fn view(&self) -> Set<int> {
        mask_set(self.data)
    }
}

impl Tile {
    /// The mask that represents the set.
    pub closed spec fn mask(&self) -> u16 {
        self.data
    }

    /// The empty set.
    pub fn new() -> (r: Tile)
        ensures
            r@ == Set::<int>::empty(),
            canonical(r.mask()),
    {
        let r = Tile { data: 0 };
        assert(0u16 & 0xfc01u16 == 0) by (bit_vector);
        assert forall|v: int| !#[trigger] has_bit(0u16, v) by {
            if 1 <= v <= 9 {
                let w = v as u16;
                assert((0u16 >> w) & 1u16 == 0u16) by (bit_vector);
            }
        }
        assert(r@ =~= Set::<int>::empty());
        r
    }

    /// The set of all digits 1 to 9.
    pub fn new_full_set() -> (r: Tile)
        ensures
            r@ == digits(),
            canonical(r.mask()),
    {
        let r = Tile { data: 0b0000001111111110 };
        assert forall|v: int| #[trigger] has_bit(0x3feu16, v) <==> 1 <= v <= 9 by {
            if 1 <= v <= 9 {
                let w = v as u16;
                assert(1 <= w <= 9 ==> (0x3feu16 >> w) & 1u16 == 1u16) by (bit_vector);
            }
        }
        assert(0x3feu16 & 0xfc01u16 == 0) by (bit_vector);
        assert(r@ =~= digits());
        r
    }

    /// The set that the mask `m` holds.
    pub(crate) fn from_mask(m: u16) -> (r: Tile)
        ensures
            r@ == mask_set(m),
            r.mask() == m,
    {
        Tile { data: m }
    }

    /// The mask that holds this set.
    pub(crate) fn to_mask(&self) -> (r: u16)
        ensures
            r == self.mask(),
            mask_set(r) == self@,
    {
        self.data
    }

    /// Adds `value` to the set.
    pub fn insert(&mut self, value: u16)
        requires
            1 <= value <= 9,
        ensures
            final(self)@ == old(self)@.insert(value as int),
            canonical(old(self).mask()) ==> canonical(final(self).mask()),
    {
        let ghost m = self.data;
        self.data = self.data | (1u16 << value);
        assert forall|w: int| #[trigger] has_bit(self.data, w) <==> (w == value || has_bit(m, w)) by {
            if 1 <= w <= 9 {
                lemma_bit_set(m, value, w as u16);
            }
        }
        proof {
            lemma_bit_set(m, value, 1);
        }
        assert(self@ =~= mask_set(m).insert(value as int));
    }

    /// Takes `value` out of the set.
    pub fn remove(&mut self, value: u16)
        requires
            1 <= value <= 9,
        ensures
            final(self)@ == old(self)@.remove(value as int),
            canonical(old(self).mask()) ==> canonical(final(self).mask()),
    {
        let ghost m = self.data;
        self.data = self.data & !(1u16 << value);
        assert forall|w: int| #[trigger] has_bit(self.data, w) <==> (w != value && has_bit(m, w)) by {
            if 1 <= w <= 9 {
                lemma_bit_set(m, value, w as u16);
            }
        }
        proof {
            lemma_bit_set(m, value, 1);
        }
        assert(self@ =~= mask_set(m).remove(value as int));
    }

    /// Whether `value` is in the set.
    pub fn contains(&self, value: u16) -> (r: bool)
        requires
            1 <= value <= 9,
        ensures
            r == self@.contains(value as int),
    {
        (self.data >> value) & 1u16 == 1u16
    }

    /// The number of members, 0 to 9.
    pub fn len(&self) -> (r: u32)
        ensures
            r == self@.len(),
            self@.finite(),
            self@.subset_of(digits()),
    {
        let mut n: u32 = 0;
        let mut i: u16 = 1;
        assert(Set::new(|v: int| has_bit(self.data, v) && v < 1) =~= Set::<int>::empty());
        while i <= 9
            invariant
                1 <= i <= 10,
                n < i,
                Set::new(|v: int| has_bit(self.data, v) && v < i).finite(),
                n == Set::new(|v: int| has_bit(self.data, v) && v < i).len(),
            decreases 10 - i,
        {
            let ghost before = Set::new(|v: int| has_bit(self.data, v) && v < i);
            let ghost after = Set::new(|v: int| has_bit(self.data, v) && v < i + 1);
            if (self.data >> i) & 1u16 == 1u16 {
                assert(after =~= before.insert(i as int));
                n = n + 1;
            } else {
                assert(after =~= before);
            }
            i = i + 1;
        }
        assert(Set::new(|v: int| has_bit(self.data, v) && v < 10) =~= self@);
        proof {
            lemma_mask_set(self.data);
        }
        n
    }

    /// The least member, if there is one.
    fn lowest(&self) -> (r: Option<u16>)
        ensures
            r is None <==> self@ == Set::<int>::empty(),
            r matches Some(v) ==> 1 <= v <= 9 && is_least(self@, v as int),
    {
        let mut i: u16 = 1;
        while i <= 9
            invariant
                1 <= i <= 10,
                forall|w: int| w < i ==> !#[trigger] self@.contains(w),
            decreases 10 - i,
        {
            if (self.data >> i) & 1u16 == 1u16 {
                assert(has_bit(self.data, i as int));
                assert(self@.contains(i as int));
                return Some(i);
            }
            i = i + 1;
        }
        assert(self@ =~= Set::<int>::empty());
        None
    }

    /// The one member of a set that holds exactly one.
    pub fn get_single_value(&self) -> (r: u16)
        requires
            self@.len() == 1,
        ensures
            self@ == set![r as int],
            1 <= r <= 9,
    {
        proof {
            lemma_mask_set(self.data);
        }
        match self.lowest() {
            Some(v) => {
                assert(self@.remove(v as int).len() == 0);
                assert(self@.remove(v as int) =~= Set::<int>::empty());
                assert(self@ =~= set![v as int]);
                v
            },
            None => {
                assert(self@.len() == 0);
                0
            },
        }
    }

    /// A walk over the members in ascending order; the set itself is left as it is.
    pub fn iter(&self) -> (r: TileIter)
        ensures
            r@ == self@,
    {
        TileIter { tile: *self }
    }

    /// The members in ascending order.
    pub fn values(&self) -> (r: Vec<u16>)
        ensures
            forall|i: int, j: int| 0 <= i < j < r@.len() ==> r@[i] < r@[j],
            forall|i: int| 0 <= i < r@.len() ==> self@.contains(#[trigger] r@[i] as int),
            forall|v: int| self@.contains(v) ==> exists|i: int| 0 <= i < r@.len() && r@[i] == v,
            r@.len() == self@.len(),
    {
        proof {
            lemma_mask_set(self.data);
        }
        let mut it = self.iter();
        let mut r: Vec<u16> = Vec::new();
        loop
            invariant
                it@.finite(),
                it@.subset_of(self@),
                forall|i: int, j: int| 0 <= i < j < r@.len() ==> r@[i] < r@[j],
                forall|i: int| 0 <= i < r@.len() ==> self@.contains(#[trigger] r@[i] as int),
                forall|i: int| 0 <= i < r@.len() ==> !it@.contains(#[trigger] r@[i] as int),
                forall|i: int, w: int|
                    0 <= i < r@.len() && #[trigger] it@.contains(w) ==> #[trigger] r@[i] < w,
                forall|v: int|
                    self@.contains(v) ==> it@.contains(v) || exists|i: int|
                        0 <= i < r@.len() && r@[i] == v,
                r@.len() + it@.len() == self@.len(),
            ensures
                it@ == Set::<int>::empty(),
            decreases it@.len(),
        {
            match it.next() {
                None => {
                    break;
                },
                Some(v) => {
                    let ghost prev = r@;
                    r.push(v);
                    assert forall|w: int| self@.contains(w) implies it@.contains(w) || exists|i: int|
                        0 <= i < r@.len() && r@[i] == w by {
                        if w == v {
                            assert(r@[prev.len() as int] == w);
                        } else if !it@.contains(w) {
                            let i = choose|i: int| 0 <= i < prev.len() && prev[i] == w;
                            assert(r@[i] == w);
                        }
                    }
                },
            }
        }
        r
    }
}

/// The members of a set, lowest first.
pub struct TileIter {
    tile: Tile,
}

impl View for TileIter {
    type V = Set<int>;

    closed spec fn view(&self) -> Set<int> {
        self.tile@
    }
}

impl TileIter {
    /// Hands out the least member not yet handed out.
    pub fn next(&mut self) -> (r: Option<u16>)
        ensures
            r is None <==> old(self)@ == Set::<int>::empty(),
            r is None ==> final(self)@ == old(self)@,
            r matches Some(v) ==> 1 <= v <= 9 && is_least(old(self)@, v as int) && final(self)@
                == old(self)@.remove(v as int),
    {
        match self.tile.lowest() {
            None => None,
            Some(v) => {
                self.tile.remove(v);
                Some(v)
            },
        }
    }
}

} // verus!
