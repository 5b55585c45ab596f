use vstd::prelude::*;

use crate::orientation::lemma_orientation_ext;
use crate::orientation::lemma_with_dir;
use crate::orientation::lemma_without_dir;
use crate::orientation::spec_with_dir;
use crate::orientation::spec_without_dir;
use crate::orientation::Orientation;

verus! {

/// Two to the power `k`.
pub open spec fn pow2(k: nat) -> nat
    decreases k,
{
    if k == 0 {
        1
    } else {
        2 * pow2((k - 1) as nat)
    }
}

/// An authored, possibly partial pattern over the eight neighbor directions.
///
/// Slot `i` talks about the direction with index `i` (N, S, E, W, NE, NW, SE,
/// SW — the same order `Orientation` uses): `Some(true)` requires the
/// neighbor present, `Some(false)` requires it absent, and `None` is a
/// wildcard that matches either state.
#[derive(Clone, Copy, Debug, PartialEq)]
#[verifier::ext_equal]
pub struct TileRequirements {
    pub dirs: [Option<bool>; 8],
}

impl Default for TileRequirements {
    /// The all-wildcard pattern, which matches every orientation.
    fn default() -> (r: TileRequirements)
        ensures
            forall|i: int| 0 <= i < 8 ==> r.dirs@[i] is None,
    {
        TileRequirements { dirs: [None, None, None, None, None, None, None, None] }
    }
}

impl TileRequirements {
    /// Whether a concrete orientation satisfies this pattern: every direction
    /// it pins down agrees, and wildcard slots are free.
    pub open spec fn matches(self, o: Orientation) -> bool {
        forall|i: int|
            0 <= i < 8 ==> match #[trigger] self.dirs@[i] {
                Some(b) => o.has(i) == b,
                None => true,
            }
    }

    /// The number of wildcard slots among the first `i` directions.
    pub open spec fn wildcards_below(self, i: int) -> nat
        decreases i,
    {
        if i <= 0 {
            0
        } else {
            self.wildcards_below(i - 1) + (if self.dirs@[i - 1] is None {
                1nat
            } else {
                0nat
            })
        }
    }

    /// The number of wildcard slots of the pattern.
    pub open spec fn wildcard_count(self) -> nat {
        self.wildcards_below(8)
    }

    /// An intermediate state of wildcard expansion: the slots below `m` are
    /// satisfied the way `matches` asks, and every slot from `m` up still sits
    /// at its base value (present exactly when the slot is `Some(true)`).
    pub open spec fn partial_matches(self, o: Orientation, m: int) -> bool {
        (forall|i: int|
            0 <= i < m ==> match #[trigger] self.dirs@[i] {
                Some(b) => o.has(i) == b,
                None => true,
            }) && (forall|i: int| m <= i < 8 ==> (#[trigger] o.has(i) <==> self.dirs@[i] == Some(
            true,
        )))
    }

    /// The fully concrete pattern observed from an orientation: every
    /// direction it contains becomes `Some(true)`, every other `Some(false)`.
    pub fn from_orientation(o: Orientation) -> (r: TileRequirements)
        ensures
            forall|i: int| 0 <= i < 8 ==> r.dirs@[i] == Some(o.has(i)),
    {
        TileRequirements {
            dirs: [
                Some(o.has_index(0)),
                Some(o.has_index(1)),
                Some(o.has_index(2)),
                Some(o.has_index(3)),
                Some(o.has_index(4)),
                Some(o.has_index(5)),
                Some(o.has_index(6)),
                Some(o.has_index(7)),
            ],
        }
    }

    /// The orientation holding exactly the directions this pattern requires
    /// present.
    pub fn to_orientation(&self) -> (r: Orientation)
        ensures
            forall|i: int| 0 <= i < 8 ==> (r.has(i) <==> self.dirs@[i] == Some(true)),
    {
        let mut o = Orientation::none();
        let mut i: usize = 0;
        while i < 8
            invariant
                i <= 8,
                forall|j: int| 0 <= j < i ==> (o.has(j) <==> self.dirs@[j] == Some(true)),
                forall|j: int| i <= j < 8 ==> !o.has(j),
            decreases 8 - i,
        {
            if let Some(true) = self.dirs[i] {
                o = o.union(Orientation::from_index(i));
            }
            i += 1;
        }
        o
    }

    /// The full wildcard expansion of the pattern: every concrete orientation
    /// the pattern matches, each exactly once. A pattern with `k` wildcard
    /// slots expands to exactly `2^k` distinct orientations.
    ///
    /// The expansion works the way the rule index is built: starting from the
    /// base orientation, every wildcard slot doubles the working set, once
    /// with the direction forced present and once forced absent.
    pub fn concrete_orientations(&self) -> (r: Vec<Orientation>)
        ensures
            forall|o: Orientation| #[trigger] r@.contains(o) <==> self.matches(o),
            r@.len() == pow2(self.wildcard_count()),
            forall|p: int, q: int| 0 <= p < q < r@.len() ==> r@[p] != r@[q],
    {
        let base = self.to_orientation();
        let mut work: Vec<Orientation> = Vec::new();
        work.push(base);
        proof {
            assert(self.wildcards_below(0) == 0);
            assert(work@.len() == pow2(0));
            assert forall|o: Orientation| #[trigger] work@.contains(o) <==> self.partial_matches(
                o,
                0,
            ) by {
                if work@.contains(o) {
                    assert(o == work@[0]);
                }
                if self.partial_matches(o, 0) {
                    lemma_orientation_ext(o, base);
                    assert(work@[0] == o);
                }
            }
        }
        let mut j: usize = 0;
        while j < 8
            invariant
                j <= 8,
                work@.len() == pow2(self.wildcards_below(j as int)),
                forall|o: Orientation| #[trigger] work@.contains(o) <==> self.partial_matches(
                    o,
                    j as int,
                ),
                forall|p: int, q: int| 0 <= p < q < work@.len() ==> work@[p] != work@[q],
            decreases 8 - j,
        {
            let ghost jj = j as int;
            if self.dirs[j].is_none() {
                let mut nw: Vec<Orientation> = Vec::new();
                let n = work.len();
                let mut t: usize = 0;
                while t < n
                    invariant
                        t <= n,
                        j < 8,
                        self.dirs@[j as int] is None,
                        n == work@.len(),
                        nw@.len() == 2 * t,
                        forall|s: int|
                            0 <= s < t ==> nw@[2 * s] == spec_with_dir(
                                #[trigger] work@[s],
                                j as int,
                            ) && nw@[2 * s + 1] == work@[s],
                    decreases n - t,
                {
                    let v = work[t];
                    let v1 = v.union(Orientation::from_index(j));
                    proof {
                        lemma_with_dir(v, j as int);
                        lemma_orientation_ext(v1, spec_with_dir(v, j as int));
                    }
                    nw.push(v1);
                    nw.push(v);
                    t += 1;
                }
                proof {
                    // every element of `work` still has direction `j` absent
                    assert forall|s: int| 0 <= s < work@.len() implies !(#[trigger] work@[s]).has(
                        jj,
                    ) by {
                        assert(work@.contains(work@[s]));
                    }
                    // the doubled set holds exactly the orientations that agree
                    // with the pattern one slot further
                    assert forall|o: Orientation| #[trigger] nw@.contains(o)
                        <==> self.partial_matches(o, jj + 1) by {
                        if nw@.contains(o) {
                            let idx = choose|idx: int|
                                0 <= idx < nw@.len() && nw@[idx] == o;
                            vstd::arithmetic::div_mod::lemma_fundamental_div_mod(idx, 2);
                            let s = idx / 2;
                            assert(work@.contains(work@[s]));
                            lemma_with_dir(work@[s], jj);
                            if idx % 2 == 0 {
                                assert(o == spec_with_dir(work@[s], jj));
                                assert(self.partial_matches(o, jj + 1));
                            } else {
                                assert(o == work@[s]);
                                assert(self.partial_matches(o, jj + 1));
                            }
                        }
                        if self.partial_matches(o, jj + 1) {
                            if o.has(jj) {
                                let o2 = spec_without_dir(o, jj);
                                lemma_without_dir(o, jj);
                                assert(self.partial_matches(o2, jj));
                                assert(work@.contains(o2));
                                let s = choose|s: int|
                                    0 <= s < work@.len() && work@[s] == o2;
                                lemma_with_dir(o2, jj);
                                lemma_orientation_ext(spec_with_dir(o2, jj), o);
                                assert(nw@[2 * s] == o);
                                assert(nw@.contains(o));
                            } else {
                                assert(self.partial_matches(o, jj));
                                assert(work@.contains(o));
                                let s = choose|s: int|
                                    0 <= s < work@.len() && work@[s] == o;
                                assert(nw@[2 * s + 1] == o);
                                assert(nw@.contains(o));
                            }
                        }
                    }
                    // distinctness survives the doubling: the two copies differ
                    // at direction `j`, and distinct sources stay distinct
                    assert forall|p: int, q: int|
                        0 <= p < q < nw@.len() implies nw@[p] != nw@[q] by {
                        vstd::arithmetic::div_mod::lemma_fundamental_div_mod(p, 2);
                        vstd::arithmetic::div_mod::lemma_fundamental_div_mod(q, 2);
                        let sp = p / 2;
                        let sq = q / 2;
                        assert(work@.contains(work@[sp]));
                        assert(work@.contains(work@[sq]));
                        lemma_with_dir(work@[sp], jj);
                        lemma_with_dir(work@[sq], jj);
                        if p % 2 == 0 && q % 2 == 0 {
                            if nw@[p] == nw@[q] {
                                assert(!work@[sp].has(jj));
                                assert(!work@[sq].has(jj));
                                assert forall|i: int|
                                    0 <= i < 8 implies (work@[sp].has(i)
                                    <==> work@[sq].has(i)) by {
                                    assert(spec_with_dir(work@[sp], jj).has(i)
                                        <==> spec_with_dir(work@[sq], jj).has(i));
                                }
                                lemma_orientation_ext(work@[sp], work@[sq]);
                            }
                        } else if p % 2 == 0 || q % 2 == 0 {
                            assert(nw@[p] != nw@[q]);
                        } else {
                            assert(sp < sq);
                        }
                    }
                    // one more wildcard processed doubles the expected count
                    assert(self.wildcards_below(jj + 1) == self.wildcards_below(jj) + 1);
                    assert(pow2(self.wildcards_below(jj + 1)) == 2 * pow2(self.wildcards_below(jj)));
                }
                work = nw;
            } else {
                proof {
                    assert forall|o: Orientation| self.partial_matches(o, jj)
                        <==> self.partial_matches(o, jj + 1) by {
                        if self.partial_matches(o, jj) {
                            assert(o.has(jj) <==> self.dirs@[jj] == Some(true));
                            assert(self.partial_matches(o, jj + 1));
                        }
                        if self.partial_matches(o, jj + 1) {
                            match self.dirs@[jj] {
                                Some(b) => {
                                    assert(o.has(jj) == b);
                                },
                                None => {},
                            }
                            assert(self.partial_matches(o, jj));
                        }
                    }
                    assert(self.wildcards_below(jj + 1) == self.wildcards_below(jj));
                }
            }
            j += 1;
        }
        proof {
            assert forall|o: Orientation| #[trigger] work@.contains(o) <==> self.matches(o) by {
                if work@.contains(o) {
                    assert(self.partial_matches(o, 8));
                    assert(self.matches(o));
                }
                if self.matches(o) {
                    assert(self.partial_matches(o, 8));
                }
            }
        }
        work
    }

    pub fn n(&self) -> (r: &Option<bool>)
        ensures
            r == self.dirs@[0],
    {
        &self.dirs[0]
    }

    pub fn s(&self) -> (r: &Option<bool>)
        ensures
            r == self.dirs@[1],
    {
        &self.dirs[1]
    }

    pub fn e(&self) -> (r: &Option<bool>)
        ensures
            r == self.dirs@[2],
    {
        &self.dirs[2]
    }

    pub fn w(&self) -> (r: &Option<bool>)
        ensures
            r == self.dirs@[3],
    {
        &self.dirs[3]
    }

    pub fn ne(&self) -> (r: &Option<bool>)
        ensures
            r == self.dirs@[4],
    {
        &self.dirs[4]
    }

    pub fn nw(&self) -> (r: &Option<bool>)
        ensures
            r == self.dirs@[5],
    {
        &self.dirs[5]
    }

    pub fn se(&self) -> (r: &Option<bool>)
        ensures
            r == self.dirs@[6],
    {
        &self.dirs[6]
    }

    pub fn sw(&self) -> (r: &Option<bool>)
        ensures
            r == self.dirs@[7],
    {
        &self.dirs[7]
    }

    pub fn n_mut(&mut self) -> (r: &mut Option<bool>)
        ensures
            *r == old(self).dirs@[0],
            final(self).dirs@ == old(self).dirs@.update(0, *final(r)),
    {
        &mut self.dirs[0]
    }

    pub fn s_mut(&mut self) -> (r: &mut Option<bool>)
        ensures
            *r == old(self).dirs@[1],
            final(self).dirs@ == old(self).dirs@.update(1, *final(r)),
    {
        &mut self.dirs[1]
    }

    pub fn e_mut(&mut self) -> (r: &mut Option<bool>)
        ensures
            *r == old(self).dirs@[2],
            final(self).dirs@ == old(self).dirs@.update(2, *final(r)),
    {
        &mut self.dirs[2]
    }

    pub fn w_mut(&mut self) -> (r: &mut Option<bool>)
        ensures
            *r == old(self).dirs@[3],
            final(self).dirs@ == old(self).dirs@.update(3, *final(r)),
    {
        &mut self.dirs[3]
    }

    pub fn ne_mut(&mut self) -> (r: &mut Option<bool>)
        ensures
            *r == old(self).dirs@[4],
            final(self).dirs@ == old(self).dirs@.update(4, *final(r)),
    {
        &mut self.dirs[4]
    }

    pub fn nw_mut(&mut self) -> (r: &mut Option<bool>)
        ensures
            *r == old(self).dirs@[5],
            final(self).dirs@ == old(self).dirs@.update(5, *final(r)),
    {
        &mut self.dirs[5]
    }

    pub fn se_mut(&mut self) -> (r: &mut Option<bool>)
        ensures
            *r == old(self).dirs@[6],
            final(self).dirs@ == old(self).dirs@.update(6, *final(r)),
    {
        &mut self.dirs[6]
    }

    pub fn sw_mut(&mut self) -> (r: &mut Option<bool>)
        ensures
            *r == old(self).dirs@[7],
            final(self).dirs@ == old(self).dirs@.update(7, *final(r)),
    {
        &mut self.dirs[7]
    }
}

/// The slot index a direction token selects, or `-1` when the token is not
/// exactly one of the eight directions.
pub open spec fn dir_index(o: Orientation) -> int {
    if o.bits == 1 {
        0
    } else if o.bits == 2 {
        1
    } else if o.bits == 4 {
        2
    } else if o.bits == 8 {
        3
    } else if o.bits == 16 {
        4
    } else if o.bits == 32 {
        5
    } else if o.bits == 64 {
        6
    } else if o.bits == 128 {
        7
    } else {
        -1
    }
}

impl TileRequirements {
    /// The tri-state slot for one concrete direction; no slot when the token
    /// is not exactly one direction.
    pub fn get_requirement(&self, o: Orientation) -> (r: Option<&Option<bool>>)
        ensures
            dir_index(o) >= 0 ==> (r matches Some(v) && v == self.dirs@[dir_index(o)]),
            dir_index(o) < 0 ==> r is None,
    {
        if o.bits == 1 {
            Some(self.n())
        } else if o.bits == 2 {
            Some(self.s())
        } else if o.bits == 4 {
            Some(self.e())
        } else if o.bits == 8 {
            Some(self.w())
        } else if o.bits == 16 {
            Some(self.ne())
        } else if o.bits == 32 {
            Some(self.nw())
        } else if o.bits == 64 {
            Some(self.se())
        } else if o.bits == 128 {
            Some(self.sw())
        } else {
            None
        }
    }

    /// Mutable access to the tri-state slot for one concrete direction; an
    /// error when the token is not exactly one direction.
    pub fn get_requirement_mut(&mut self, o: Orientation) -> (r: Result<&mut Option<bool>, ()>)
        ensures
            dir_index(o) >= 0 ==> (r matches Ok(v) && *v == old(self).dirs@[dir_index(o)]
                && final(self).dirs@ == old(self).dirs@.update(dir_index(o), *final(v))),
            dir_index(o) < 0 ==> (r is Err && *final(self) == *old(self)),
    {
        if o.bits == 1 {
            Ok(self.n_mut())
        } else if o.bits == 2 {
            Ok(self.s_mut())
        } else if o.bits == 4 {
            Ok(self.e_mut())
        } else if o.bits == 8 {
            Ok(self.w_mut())
        } else if o.bits == 16 {
            Ok(self.ne_mut())
        } else if o.bits == 32 {
            Ok(self.nw_mut())
        } else if o.bits == 64 {
            Ok(self.se_mut())
        } else if o.bits == 128 {
            Ok(self.sw_mut())
        } else {
            Err(())
        }
    }
}

} // verus!
