//! Vector clocks: the causal contexts carried by map operations.
//!
//! A clock maps actors to counters; absent actors count zero.  A write is
//! superseded exactly by writes whose clocks strictly dominate its own, and
//! two writes with incomparable clocks are concurrent.

use vstd::prelude::*;

verus! {

/// One component of a vector clock.
#[derive(Clone, Copy, PartialEq, Eq, Structural, Debug)]
pub struct ClockEntry {
    pub actor: u64,
    pub n: u64,
}

/// A vector clock, stored sparsely with strictly ascending actors.
#[derive(Debug)]
pub struct VClock {
    pub entries: Vec<ClockEntry>,
}

/// Witnesses actor `a` at index `i`.
pub open spec fn clock_has_at(s: Seq<ClockEntry>, a: u64, i: int) -> bool {
    0 <= i < s.len() && s[i].actor == a
}

impl View for VClock {
    type V = Map<u64, u64>;

    open spec fn view(&self) -> Map<u64, u64> {
        Map::new(
            |a: u64| exists|i: int| clock_has_at(self.entries@, a, i),
            |a: u64| self.entries@[choose|i: int| clock_has_at(self.entries@, a, i)].n,
        )
    }
}

/// The count a clock assigns to an actor; absent actors count zero.
pub open spec fn vc_get(m: Map<u64, u64>, a: u64) -> u64 {
    if m.contains_key(a) {
        m[a]
    } else {
        0
    }
}

/// Pointwise order on clocks.
pub open spec fn vc_le(m1: Map<u64, u64>, m2: Map<u64, u64>) -> bool {
    forall|a: u64| #![trigger vc_get(m1, a)] vc_get(m1, a) <= vc_get(m2, a)
}

/// Strict domination: at or below everywhere, and not the same everywhere.
pub open spec fn vc_lt(m1: Map<u64, u64>, m2: Map<u64, u64>) -> bool {
    vc_le(m1, m2) && !vc_le(m2, m1)
}

pub proof fn lemma_vc_le_trans(m1: Map<u64, u64>, m2: Map<u64, u64>, m3: Map<u64, u64>)
    requires
        vc_le(m1, m2),
        vc_le(m2, m3),
    ensures
        vc_le(m1, m3),
{
    assert forall|a: u64| #![trigger vc_get(m1, a)] vc_get(m1, a) <= vc_get(m3, a) by {
        assert(vc_get(m1, a) <= vc_get(m2, a));
        assert(vc_get(m2, a) <= vc_get(m3, a));
    }
}

pub proof fn lemma_vc_lt_trans(m1: Map<u64, u64>, m2: Map<u64, u64>, m3: Map<u64, u64>)
    requires
        vc_lt(m1, m2),
        vc_lt(m2, m3),
    ensures
        vc_lt(m1, m3),
{
    lemma_vc_le_trans(m1, m2, m3);
    if vc_le(m3, m1) {
        lemma_vc_le_trans(m3, m1, m2);
    }
}

impl VClock {
    /// Well-formed: actors strictly ascending, hence unique.
    pub open spec fn wf(&self) -> bool {
        forall|i: int, j: int|
            #![trigger self.entries@[i].actor, self.entries@[j].actor]
            0 <= i < j < self.entries@.len() ==> self.entries@[i].actor < self.entries@[j].actor
    }

    /// The empty clock.
    pub fn new() -> (r: VClock)
        ensures
            r.wf(),
            forall|a: u64| vc_get(r@, a) == 0,
    {
        let r = VClock { entries: Vec::new() };
        proof {
            assert forall|a: u64| vc_get(r@, a) == 0 by {
                if r@.contains_key(a) {
                    let i = choose|i: int| clock_has_at(r.entries@, a, i);
                    assert(clock_has_at(r.entries@, a, i));
                }
            }
        }
        r
    }

    /// A clock stores what its view says, entry by entry.
    pub proof fn lemma_at(&self, i: int)
        requires
            self.wf(),
            0 <= i < self.entries@.len(),
        ensures
            self@.contains_key(self.entries@[i].actor),
            vc_get(self@, self.entries@[i].actor) == self.entries@[i].n,
    {
        let a = self.entries@[i].actor;
        assert(clock_has_at(self.entries@, a, i));
        let w = choose|j: int| clock_has_at(self.entries@, a, j);
        assert(clock_has_at(self.entries@, a, w));
        if w != i {
            assert(self.entries@[w].actor == self.entries@[i].actor);
            if w < i {
                assert(self.entries@[w].actor < self.entries@[i].actor);
            } else {
                assert(self.entries@[i].actor < self.entries@[w].actor);
            }
        }
    }

    /// The count this clock assigns to `actor`.
    pub fn get(&self, actor: u64) -> (r: u64)
        requires
            self.wf(),
        ensures
            r == vc_get(self@, actor),
    {
        let mut i: usize = 0;
        while i < self.entries.len()
            invariant
                self.wf(),
                i <= self.entries@.len(),
                forall|j: int| 0 <= j < i ==> (#[trigger] self.entries@[j]).actor != actor,
            decreases self.entries@.len() - i,
        {
            if self.entries[i].actor == actor {
                proof {
                    self.lemma_at(i as int);
                }
                return self.entries[i].n;
            }
            i = i + 1;
        }
        proof {
            if self@.contains_key(actor) {
                let j = choose|j: int| clock_has_at(self.entries@, actor, j);
                assert(clock_has_at(self.entries@, actor, j));
            }
        }
        0
    }

    /// An exact copy of this clock.
    pub fn dup(&self) -> (r: VClock)
        ensures
            r@ == self@,
            r.entries@ == self.entries@,
    {
        let mut entries: Vec<ClockEntry> = Vec::new();
        let mut i: usize = 0;
        while i < self.entries.len()
            invariant
                i <= self.entries@.len(),
                entries@ =~= self.entries@.take(i as int),
            decreases self.entries@.len() - i,
        {
            entries.push(self.entries[i]);
            i = i + 1;
        }
        proof {
            assert(entries@ =~= self.entries@);
        }
        VClock { entries }
    }

    /// Whether this clock is pointwise at or below `other`.
    pub fn le(&self, other: &VClock) -> (r: bool)
        requires
            self.wf(),
            other.wf(),
        ensures
            r == vc_le(self@, other@),
    {
        let mut i: usize = 0;
        while i < self.entries.len()
            invariant
                self.wf(),
                other.wf(),
                i <= self.entries@.len(),
                forall|j: int|
                    0 <= j < i ==> (#[trigger] self.entries@[j]).n <= vc_get(
                        other@,
                        self.entries@[j].actor,
                    ),
            decreases self.entries@.len() - i,
        {
            let e = self.entries[i];
            let o = other.get(e.actor);
            if e.n > o {
                proof {
                    self.lemma_at(i as int);
                    assert(vc_get(self@, e.actor) > vc_get(other@, e.actor));
                }
                return false;
            }
            i = i + 1;
        }
        proof {
            assert forall|a: u64| #![trigger vc_get(self@, a)] vc_get(self@, a) <= vc_get(
                other@,
                a,
            ) by {
                if self@.contains_key(a) {
                    let j = choose|j: int| clock_has_at(self.entries@, a, j);
                    assert(clock_has_at(self.entries@, a, j));
                    self.lemma_at(j);
                }
            }
        }
        true
    }

    /// Whether this clock is strictly dominated by `other`.
    pub fn lt(&self, other: &VClock) -> (r: bool)
        requires
            self.wf(),
            other.wf(),
        ensures
            r == vc_lt(self@, other@),
    {
        self.le(other) && !other.le(self)
    }

    /// Raises the count of `actor` to at least `n`.
    pub fn raise(&mut self, actor: u64, n: u64)
        requires
            old(self).wf(),
        ensures
            final(self).wf(),
            forall|a: u64|
                #![trigger vc_get(final(self)@, a)]
                vc_get(final(self)@, a) == (if a == actor {
                    (if vc_get(old(self)@, a) >= n {
                        vc_get(old(self)@, a)
                    } else {
                        n
                    })
                } else {
                    vc_get(old(self)@, a)
                }),
    {
        let ghost s = self.entries@;
        let mut i: usize = 0;
        while i < self.entries.len() && self.entries[i].actor < actor
            invariant
                self.wf(),
                self.entries@ == s,
                i <= s.len(),
                forall|j: int| 0 <= j < i ==> (#[trigger] s[j]).actor < actor,
            decreases s.len() - i,
        {
            i = i + 1;
        }
        if i < self.entries.len() && self.entries[i].actor == actor {
            proof {
                self.lemma_at(i as int);
            }
            if self.entries[i].n < n {
                self.entries[i] = ClockEntry { actor, n };
                proof {
                    let s2 = self.entries@;
                    assert(s2 == s.update(i as int, ClockEntry { actor, n }));
                    assert forall|p: int, q: int|
                        #![trigger s2[p].actor, s2[q].actor]
                        0 <= p < q < s2.len() implies s2[p].actor < s2[q].actor by {
                        assert(s[p].actor < s[q].actor);
                    }
                    assert forall|a: u64|
                        #![trigger vc_get(self@, a)]
                        vc_get(self@, a) == (if a == actor {
                            n
                        } else {
                            vc_get(old(self)@, a)
                        }) by {
                        if a == actor {
                            self.lemma_at(i as int);
                        } else {
                            if self@.contains_key(a) {
                                let j = choose|j: int| clock_has_at(s2, a, j);
                                assert(clock_has_at(s2, a, j));
                                assert(s[j].actor == a);
                                self.lemma_at(j);
                                assert(clock_has_at(s, a, j));
                                old(self).lemma_at(j);
                            }
                            if old(self)@.contains_key(a) {
                                let j = choose|j: int| clock_has_at(s, a, j);
                                assert(clock_has_at(s, a, j));
                                assert(s2[j].actor == a);
                                assert(clock_has_at(s2, a, j));
                                self.lemma_at(j);
                            }
                        }
                    }
                }
            }
            return ;
        }
        // `actor` is absent; insert it at position `i`
        proof {
            assert forall|j: int| 0 <= j < s.len() implies (#[trigger] s[j]).actor != actor by {
                if i as int <= j {
                    if j > i as int {
                        assert(s[i as int].actor < s[j].actor);
                    }
                }
            }
            if old(self)@.contains_key(actor) {
                let j = choose|j: int| clock_has_at(s, actor, j);
                assert(clock_has_at(s, actor, j));
            }
        }
        self.entries.insert(i, ClockEntry { actor, n });
        proof {
            let s2 = self.entries@;
            assert(s2 =~= s.take(i as int) + seq![ClockEntry { actor, n }] + s.skip(i as int));
            assert forall|p: int, q: int|
                #![trigger s2[p].actor, s2[q].actor]
                0 <= p < q < s2.len() implies s2[p].actor < s2[q].actor by {
                let p2: int = if p < i as int {
                    p
                } else {
                    p - 1
                };
                let q2: int = if q < i as int {
                    q
                } else {
                    q - 1
                };
                if p == i as int {
                    assert(s2[q] == s[q2]);
                    assert((i as int) < s.len() ==> s[i as int].actor > actor);
                    if q2 > i as int {
                        assert(s[i as int].actor < s[q2].actor);
                    }
                } else if q == i as int {
                    assert(s2[p] == s[p2]);
                } else {
                    assert(s2[p] == s[p2] && s2[q] == s[q2]);
                    if p2 == i as int && q2 > i as int {
                        assert(s[i as int].actor < s[q2].actor);
                    }
                }
            }
            assert forall|a: u64|
                #![trigger vc_get(self@, a)]
                vc_get(self@, a) == (if a == actor {
                    (if vc_get(old(self)@, a) >= n {
                        vc_get(old(self)@, a)
                    } else {
                        n
                    })
                } else {
                    vc_get(old(self)@, a)
                }) by {
                if a == actor {
                    assert(clock_has_at(s2, a, i as int));
                    self.lemma_at(i as int);
                } else {
                    if self@.contains_key(a) {
                        let j = choose|j: int| clock_has_at(s2, a, j);
                        assert(clock_has_at(s2, a, j));
                        self.lemma_at(j);
                        let j2: int = if j < i as int {
                            j
                        } else {
                            j - 1
                        };
                        assert(s[j2] == s2[j]);
                        assert(clock_has_at(s, a, j2));
                        old(self).lemma_at(j2);
                    }
                    if old(self)@.contains_key(a) {
                        let j = choose|j: int| clock_has_at(s, a, j);
                        assert(clock_has_at(s, a, j));
                        let j2: int = if j < i as int {
                            j
                        } else {
                            j + 1
                        };
                        assert(s2[j2] == s[j]);
                        assert(clock_has_at(s2, a, j2));
                        self.lemma_at(j2);
                    }
                }
            }
        }
    }

    /// Joins `other` into this clock: the result counts, for every actor,
    /// the larger of the two counts.
    pub fn join(&mut self, other: &VClock)
        requires
            old(self).wf(),
            other.wf(),
        ensures
            final(self).wf(),
            forall|a: u64|
                #![trigger vc_get(final(self)@, a)]
                vc_get(final(self)@, a) == (if vc_get(old(self)@, a) >= vc_get(other@, a) {
                    vc_get(old(self)@, a)
                } else {
                    vc_get(other@, a)
                }),
    {
        let ghost m0 = old(self)@;
        let mut i: usize = 0;
        while i < other.entries.len()
            invariant
                self.wf(),
                other.wf(),
                i <= other.entries@.len(),
                forall|a: u64|
                    #![trigger vc_get(self@, a)]
                    vc_get(self@, a) == (if (exists|j: int|
                        0 <= j < i && (#[trigger] other.entries@[j]).actor == a) && vc_get(
                        other@,
                        a,
                    ) > vc_get(m0, a) {
                        vc_get(other@, a)
                    } else {
                        vc_get(m0, a)
                    }),
            decreases other.entries@.len() - i,
        {
            let e = other.entries[i];
            proof {
                other.lemma_at(i as int);
            }
            self.raise(e.actor, e.n);
            proof {
                assert forall|a: u64|
                    #![trigger vc_get(self@, a)]
                    vc_get(self@, a) == (if (exists|j: int|
                        0 <= j < i + 1 && (#[trigger] other.entries@[j]).actor == a) && vc_get(
                        other@,
                        a,
                    ) > vc_get(m0, a) {
                        vc_get(other@, a)
                    } else {
                        vc_get(m0, a)
                    }) by {
                    if a == e.actor {
                        assert(other.entries@[i as int].actor == a);
                    } else {
                        if exists|j: int|
                            0 <= j < i + 1 && (#[trigger] other.entries@[j]).actor == a {
                            let j = choose|j: int|
                                0 <= j < i + 1 && (#[trigger] other.entries@[j]).actor == a;
                            assert(j < i + 1 && other.entries@[j].actor == a);
                            assert(j != i as int);
                        }
                    }
                }
            }
            i = i + 1;
        }
        proof {
            assert forall|a: u64|
                #![trigger vc_get(self@, a)]
                vc_get(self@, a) == (if vc_get(m0, a) >= vc_get(other@, a) {
                    vc_get(m0, a)
                } else {
                    vc_get(other@, a)
                }) by {
                if other@.contains_key(a) {
                    let j = choose|j: int| clock_has_at(other.entries@, a, j);
                    assert(clock_has_at(other.entries@, a, j));
                    other.lemma_at(j);
                    assert(0 <= j < other.entries@.len() && other.entries@[j].actor == a);
                } else {
                    assert(vc_get(other@, a) == 0);
                    if exists|j: int|
                        0 <= j < other.entries@.len() && (#[trigger] other.entries@[j]).actor
                            == a {
                        let j = choose|j: int|
                            0 <= j < other.entries@.len() && (#[trigger] other.entries@[j]).actor
                                == a;
                        assert(clock_has_at(other.entries@, a, j));
                    }
                }
            }
        }
    }
}

} // verus!
