use vstd::prelude::*;

verus! {

/// The set of the eight compass directions (N, S, E, W, NE, NW, SE, SW) in
/// which a cell asserts that a neighbor is present.
///
/// Direction `i` occupies bit `i` of `bits`; the index order is the same one
/// that `TileRequirements` uses for its tri-state slots: N, S, E, W, NE, NW,
/// SE, SW.
#[derive(Clone, Copy, PartialEq, Eq, Structural, Hash, Debug)]
pub struct Orientation {
    pub bits: u8,
}

/// Horizontal step of direction `i`: east is `+1`, west is `-1`.
pub open spec fn dir_dx(i: int) -> int {
    if i == 2 || i == 4 || i == 6 {
        1
    } else if i == 3 || i == 5 || i == 7 {
        -1
    } else {
        0
    }
}

/// Vertical step of direction `i`: north is `+1`, south is `-1`.
pub open spec fn dir_dy(i: int) -> int {
    if i == 0 || i == 4 || i == 5 {
        1
    } else if i == 1 || i == 6 || i == 7 {
        -1
    } else {
        0
    }
}

impl Orientation {
    /// Whether the direction with index `i` is in the set.
    pub open spec fn has(self, i: int) -> bool {
        (self.bits >> (i as u8)) & 1u8 == 1u8
    }

    /// The empty set: no neighbor asserted present.
    pub fn none() -> (r: Orientation)
        ensures
            r.bits == 0,
            forall|i: int| 0 <= i < 8 ==> !r.has(i),
    {
        proof {
            assert forall|i: int| 0 <= i < 8 implies !(Orientation { bits: 0u8 }).has(i) by {
                let s = i as u8;
                assert((0u8 >> s) & 1u8 != 1u8) by (bit_vector);
            }
        }
        Orientation { bits: 0 }
    }

    /// The full set: all eight neighbors asserted present.
    pub fn all() -> (r: Orientation)
        ensures
            r.bits == 0xff,
            forall|i: int| 0 <= i < 8 ==> r.has(i),
    {
        proof {
            assert forall|i: int| 0 <= i < 8 implies (Orientation { bits: 0xffu8 }).has(i) by {
                let s = i as u8;
                assert(s < 8 ==> (0xffu8 >> s) & 1u8 == 1u8) by (bit_vector);
            }
        }
        Orientation { bits: 0xff }
    }

    /// The singleton set holding only the direction with index `i`.
    pub fn from_index(i: usize) -> (r: Orientation)
        requires
            i < 8,
        ensures
            forall|j: int| 0 <= j < 8 ==> (r.has(j) <==> j == i),
    {
        let bits: u8 = 1u8 << (i as u8);
        proof {
            let s = i as u8;
            assert forall|j: int| 0 <= j < 8 implies ((Orientation { bits: 1u8 << s }).has(j)
                <==> j == s) by {
                let t = j as u8;
                assert(s < 8 && t < 8 ==> ((((1u8 << s) >> t) & 1u8 == 1u8) <==> s == t))
                    by (bit_vector);
            }
        }
        Orientation { bits }
    }

    pub fn n() -> (r: Orientation)
        ensures
            forall|j: int| 0 <= j < 8 ==> (r.has(j) <==> j == 0),
    {
        Orientation::from_index(0)
    }

    pub fn s() -> (r: Orientation)
        ensures
            forall|j: int| 0 <= j < 8 ==> (r.has(j) <==> j == 1),
    {
        Orientation::from_index(1)
    }

    pub fn e() -> (r: Orientation)
        ensures
            forall|j: int| 0 <= j < 8 ==> (r.has(j) <==> j == 2),
    {
        Orientation::from_index(2)
    }

    pub fn w() -> (r: Orientation)
        ensures
            forall|j: int| 0 <= j < 8 ==> (r.has(j) <==> j == 3),
    {
        Orientation::from_index(3)
    }

    pub fn ne() -> (r: Orientation)
        ensures
            forall|j: int| 0 <= j < 8 ==> (r.has(j) <==> j == 4),
    {
        Orientation::from_index(4)
    }

    pub fn nw() -> (r: Orientation)
        ensures
            forall|j: int| 0 <= j < 8 ==> (r.has(j) <==> j == 5),
    {
        Orientation::from_index(5)
    }

    pub fn se() -> (r: Orientation)
        ensures
            forall|j: int| 0 <= j < 8 ==> (r.has(j) <==> j == 6),
    {
        Orientation::from_index(6)
    }

    pub fn sw() -> (r: Orientation)
        ensures
            forall|j: int| 0 <= j < 8 ==> (r.has(j) <==> j == 7),
    {
        Orientation::from_index(7)
    }

    /// Set union of two orientations.
    pub fn union(self, other: Orientation) -> (r: Orientation)
        ensures
            forall|i: int| 0 <= i < 8 ==> (r.has(i) <==> self.has(i) || other.has(i)),
    {
        let bits: u8 = self.bits | other.bits;
        proof {
            let a = self.bits;
            let b = other.bits;
            assert forall|i: int| 0 <= i < 8 implies ((Orientation { bits: a | b }).has(i)
                <==> self.has(i) || other.has(i)) by {
                let s = i as u8;
                assert((((a | b) >> s) & 1u8 == 1u8) <==> ((a >> s) & 1u8 == 1u8 || (b >> s) & 1u8
                    == 1u8)) by (bit_vector);
            }
        }
        Orientation { bits }
    }

    /// Set difference: the directions of `self` that are not in `other`.
    pub fn difference(self, other: Orientation) -> (r: Orientation)
        ensures
            forall|i: int| 0 <= i < 8 ==> (r.has(i) <==> self.has(i) && !other.has(i)),
    {
        let bits: u8 = self.bits & !other.bits;
        proof {
            let a = self.bits;
            let b = other.bits;
            assert forall|i: int| 0 <= i < 8 implies ((Orientation { bits: a & !b }).has(i)
                <==> self.has(i) && !other.has(i)) by {
                let s = i as u8;
                assert((((a & !b) >> s) & 1u8 == 1u8) <==> ((a >> s) & 1u8 == 1u8 && !((b >> s)
                    & 1u8 == 1u8))) by (bit_vector);
            }
        }
        Orientation { bits }
    }

    /// Set complement: all directions not in `self`.
    pub fn complement(self) -> (r: Orientation)
        ensures
            forall|i: int| 0 <= i < 8 ==> (r.has(i) <==> !self.has(i)),
    {
        let bits: u8 = !self.bits;
        proof {
            let a = self.bits;
            assert forall|i: int| 0 <= i < 8 implies ((Orientation { bits: !a }).has(i)
                <==> !self.has(i)) by {
                let s = i as u8;
                assert(s < 8 ==> ((((!a) >> s) & 1u8 == 1u8) <==> !((a >> s) & 1u8 == 1u8)))
                    by (bit_vector);
            }
        }
        Orientation { bits }
    }

    /// Direct membership test for the direction with index `i`.
    pub fn has_index(self, i: usize) -> (r: bool)
        requires
            i < 8,
        ensures
            r == self.has(i as int),
    {
        (self.bits >> (i as u8)) & 1u8 == 1u8
    }

    /// Containment test: every direction of `other` is also in `self`.
    pub fn contains(self, other: Orientation) -> (r: bool)
        ensures
            r <==> (forall|i: int| 0 <= i < 8 ==> (other.has(i) ==> self.has(i))),
    {
        let a = self.bits;
        let b = other.bits;
        let r = a & b == b;
        proof {
            assert((a & b == b) <==> ((b >> 0) & 1u8 == 1u8 ==> (a >> 0) & 1u8 == 1u8) && ((b >> 1)
                & 1u8 == 1u8 ==> (a >> 1) & 1u8 == 1u8) && ((b >> 2) & 1u8 == 1u8 ==> (a >> 2) & 1u8
                == 1u8) && ((b >> 3) & 1u8 == 1u8 ==> (a >> 3) & 1u8 == 1u8) && ((b >> 4) & 1u8
                == 1u8 ==> (a >> 4) & 1u8 == 1u8) && ((b >> 5) & 1u8 == 1u8 ==> (a >> 5) & 1u8
                == 1u8) && ((b >> 6) & 1u8 == 1u8 ==> (a >> 6) & 1u8 == 1u8) && ((b >> 7) & 1u8
                == 1u8 ==> (a >> 7) & 1u8 == 1u8)) by (bit_vector);
            if r {
                assert forall|i: int| 0 <= i < 8 && other.has(i) implies self.has(i) by {
                    assert(i == 0 || i == 1 || i == 2 || i == 3 || i == 4 || i == 5 || i == 6 || i
                        == 7);
                }
            } else {
                if !((b >> 0) & 1u8 == 1u8 ==> (a >> 0) & 1u8 == 1u8) {
                    assert(other.has(0) && !self.has(0));
                } else if !((b >> 1) & 1u8 == 1u8 ==> (a >> 1) & 1u8 == 1u8) {
                    assert(other.has(1) && !self.has(1));
                } else if !((b >> 2) & 1u8 == 1u8 ==> (a >> 2) & 1u8 == 1u8) {
                    assert(other.has(2) && !self.has(2));
                } else if !((b >> 3) & 1u8 == 1u8 ==> (a >> 3) & 1u8 == 1u8) {
                    assert(other.has(3) && !self.has(3));
                } else if !((b >> 4) & 1u8 == 1u8 ==> (a >> 4) & 1u8 == 1u8) {
                    assert(other.has(4) && !self.has(4));
                } else if !((b >> 5) & 1u8 == 1u8 ==> (a >> 5) & 1u8 == 1u8) {
                    assert(other.has(5) && !self.has(5));
                } else if !((b >> 6) & 1u8 == 1u8 ==> (a >> 6) & 1u8 == 1u8) {
                    assert(other.has(6) && !self.has(6));
                } else {
                    assert(other.has(7) && !self.has(7));
                }
            }
        }
        r
    }

    /// Maps one of the eight unit offsets to its direction; any other offset,
    /// `(0, 0)` included, is no direction.
    pub fn orient(off_x: isize, off_y: isize) -> (r: Option<Orientation>)
        ensures
            (exists|i: int|
                0 <= i < 8 && dir_dx(i) == off_x as int && dir_dy(i) == off_y as int) ==> (r
                matches Some(d) && forall|j: int|
                0 <= j < 8 ==> (d.has(j) <==> dir_dx(j) == off_x as int && dir_dy(j)
                    == off_y as int)),
            (forall|i: int|
                0 <= i < 8 ==> !(dir_dx(i) == off_x as int && dir_dy(i) == off_y as int)) ==> r
                is None,
    {
        if off_x == 1 && off_y == 0 {
            proof {
                assert(dir_dx(2) == 1 && dir_dy(2) == 0);
            }
            Some(Orientation::e())
        } else if off_x == -1 && off_y == 0 {
            proof {
                assert(dir_dx(3) == -1 && dir_dy(3) == 0);
            }
            Some(Orientation::w())
        } else if off_x == 0 && off_y == 1 {
            proof {
                assert(dir_dx(0) == 0 && dir_dy(0) == 1);
            }
            Some(Orientation::n())
        } else if off_x == 0 && off_y == -1 {
            proof {
                assert(dir_dx(1) == 0 && dir_dy(1) == -1);
            }
            Some(Orientation::s())
        } else if off_x == 1 && off_y == 1 {
            proof {
                assert(dir_dx(4) == 1 && dir_dy(4) == 1);
            }
            Some(Orientation::ne())
        } else if off_x == -1 && off_y == 1 {
            proof {
                assert(dir_dx(5) == -1 && dir_dy(5) == 1);
            }
            Some(Orientation::nw())
        } else if off_x == 1 && off_y == -1 {
            proof {
                assert(dir_dx(6) == 1 && dir_dy(6) == -1);
            }
            Some(Orientation::se())
        } else if off_x == -1 && off_y == -1 {
            proof {
                assert(dir_dx(7) == -1 && dir_dy(7) == -1);
            }
            Some(Orientation::sw())
        } else {
            proof {
                assert forall|i: int|
                    0 <= i < 8 implies !(dir_dx(i) == off_x as int && dir_dy(i)
                    == off_y as int) by {
                    assert(i == 0 || i == 1 || i == 2 || i == 3 || i == 4 || i == 5 || i == 6 || i
                        == 7);
                }
            }
            None
        }
    }
}

/// `o` with the direction of index `j` added.
pub open spec fn spec_with_dir(o: Orientation, j: int) -> Orientation {
    Orientation { bits: o.bits | (1u8 << (j as u8)) }
}

/// `o` with the direction of index `j` removed.
pub open spec fn spec_without_dir(o: Orientation, j: int) -> Orientation {
    Orientation { bits: o.bits & !(1u8 << (j as u8)) }
}

pub proof fn lemma_with_dir(o: Orientation, j: int)
    requires
        0 <= j < 8,
    ensures
        forall|i: int| 0 <= i < 8 ==> (#[trigger] spec_with_dir(o, j).has(i) <==> o.has(i) || i == j),
{
    let a = o.bits;
    let s = j as u8;
    assert forall|i: int| 0 <= i < 8 implies (#[trigger] spec_with_dir(o, j).has(i) <==> o.has(i) || i
        == j) by {
        let t = i as u8;
        assert(t as int == i && s as int == j);
        assert(s < 8 && t < 8 ==> ((((a | (1u8 << s)) >> t) & 1u8 == 1u8) <==> ((a >> t) & 1u8
            == 1u8 || t == s))) by (bit_vector);
    }
}

pub proof fn lemma_without_dir(o: Orientation, j: int)
    requires
        0 <= j < 8,
    ensures
        forall|i: int| 0 <= i < 8 ==> (#[trigger] spec_without_dir(o, j).has(i) <==> o.has(i) && i != j),
{
    let a = o.bits;
    let s = j as u8;
    assert forall|i: int| 0 <= i < 8 implies (#[trigger] spec_without_dir(o, j).has(i) <==> o.has(i) && i
        != j) by {
        let t = i as u8;
        assert(t as int == i && s as int == j);
        assert(s < 8 && t < 8 ==> ((((a & !(1u8 << s)) >> t) & 1u8 == 1u8) <==> ((a >> t) & 1u8
            == 1u8 && t != s))) by (bit_vector);
    }
}

/// Two orientations that agree on all eight directions are the same set.
pub proof fn lemma_orientation_ext(a: Orientation, b: Orientation)
    requires
        forall|i: int| 0 <= i < 8 ==> (a.has(i) <==> b.has(i)),
    ensures
        a == b,
{
    let x = a.bits;
    let y = b.bits;
    assert(a.has(0) <==> b.has(0));
    assert(a.has(1) <==> b.has(1));
    assert(a.has(2) <==> b.has(2));
    assert(a.has(3) <==> b.has(3));
    assert(a.has(4) <==> b.has(4));
    assert(a.has(5) <==> b.has(5));
    assert(a.has(6) <==> b.has(6));
    assert(a.has(7) <==> b.has(7));
    assert((((x >> 0) & 1u8 == 1u8) <==> ((y >> 0) & 1u8 == 1u8)) && (((x >> 1) & 1u8 == 1u8)
        <==> ((y >> 1) & 1u8 == 1u8)) && (((x >> 2) & 1u8 == 1u8) <==> ((y >> 2) & 1u8 == 1u8)) && ((
    (x >> 3) & 1u8 == 1u8) <==> ((y >> 3) & 1u8 == 1u8)) && (((x >> 4) & 1u8 == 1u8) <==> ((y >> 4)
        & 1u8 == 1u8)) && (((x >> 5) & 1u8 == 1u8) <==> ((y >> 5) & 1u8 == 1u8)) && (((x >> 6) & 1u8
        == 1u8) <==> ((y >> 6) & 1u8 == 1u8)) && (((x >> 7) & 1u8 == 1u8) <==> ((y >> 7) & 1u8
        == 1u8)) ==> x == y) by (bit_vector);
}

} // verus!
