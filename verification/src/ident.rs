//! Element identities for the replicated sequence.
//!
//! Every inserted element receives an identity: a non-empty path of branches,
//! each branch holding a position digit, the inserting actor and that actor's
//! logical counter.  Identities are compared lexicographically, a proper
//! prefix sorting before its extensions.  The order is total, and between any
//! two identities (or beyond all of them) a fresh identity can be allocated,
//! so an insertion anywhere in the sequence always has a home that every
//! replica agrees on.

use vstd::prelude::*;

verus! {

/// One level of an identity path, ordered by digit, then actor, then counter.
#[derive(Clone, Copy, PartialEq, Eq, Structural, Debug)]
pub struct Branch {
    pub digit: u64,
    pub actor: u64,
    pub ctr: u64,
}

/// Strict order on branches: lexicographic on (digit, actor, ctr).
pub open spec fn branch_lt(a: Branch, b: Branch) -> bool {
    ||| a.digit < b.digit
    ||| (a.digit == b.digit && a.actor < b.actor)
    ||| (a.digit == b.digit && a.actor == b.actor && a.ctr < b.ctr)
}

/// Strict lexicographic order on branch paths; a proper prefix sorts before
/// its extensions, and the empty path before every non-empty one.
pub open spec fn id_lt(a: Seq<Branch>, b: Seq<Branch>) -> bool
    decreases a.len(),
{
    if b.len() == 0 {
        false
    } else if a.len() == 0 {
        true
    } else if branch_lt(a[0], b[0]) {
        true
    } else if a[0] == b[0] {
        id_lt(a.drop_first(), b.drop_first())
    } else {
        false
    }
}

/// A well-formed identity: non-empty, with a final branch whose digit leaves
/// room for later insertions below it and whose counter leaves room for the
/// owning replica to allocate further identities.
pub open spec fn id_wf(a: Seq<Branch>) -> bool {
    &&& a.len() >= 1
    &&& a.last().digit >= 1
    &&& a.last().ctr < u64::MAX
}

pub proof fn lemma_id_lt_irrefl(a: Seq<Branch>)
    ensures
        !id_lt(a, a),
    decreases a.len(),
{
    if a.len() > 0 {
        lemma_id_lt_irrefl(a.drop_first());
    }
}

pub proof fn lemma_id_lt_trans(a: Seq<Branch>, b: Seq<Branch>, c: Seq<Branch>)
    requires
        id_lt(a, b),
        id_lt(b, c),
    ensures
        id_lt(a, c),
    decreases a.len(),
{
    if a.len() > 0 && b.len() > 0 && c.len() > 0 {
        if a[0] == b[0] && b[0] == c[0] {
            lemma_id_lt_trans(a.drop_first(), b.drop_first(), c.drop_first());
        }
    }
}

/// The order is connex: two paths are ordered one way or the other, or equal.
pub proof fn lemma_id_lt_connex(a: Seq<Branch>, b: Seq<Branch>)
    ensures
        id_lt(a, b) || id_lt(b, a) || a == b,
    decreases a.len(),
{
    if a.len() == 0 && b.len() == 0 {
        assert(a =~= b);
    } else if a.len() > 0 && b.len() > 0 {
        if a[0] == b[0] {
            lemma_id_lt_connex(a.drop_first(), b.drop_first());
            if a.drop_first() == b.drop_first() {
                assert(a.len() == b.len());
                assert forall|i: int| 0 <= i < a.len() implies a[i] == b[i] by {
                    if i >= 1 {
                        assert(a[i] == a.drop_first()[i - 1]);
                        assert(b[i] == b.drop_first()[i - 1]);
                    }
                }
                assert(a =~= b);
            }
        }
    }
}

pub proof fn lemma_id_lt_asym(a: Seq<Branch>, b: Seq<Branch>)
    requires
        id_lt(a, b),
    ensures
        !id_lt(b, a),
{
    if id_lt(b, a) {
        lemma_id_lt_trans(a, b, a);
        lemma_id_lt_irrefl(a);
    }
}

/// A path sorts before any proper extension of itself.
pub proof fn lemma_id_lt_extension(a: Seq<Branch>, b: Seq<Branch>)
    requires
        b.len() > 0,
    ensures
        id_lt(a, a + b),
    decreases a.len(),
{
    if a.len() == 0 {
        assert(a + b =~= b);
    } else {
        lemma_id_lt_extension(a.drop_first(), b);
        assert((a + b).drop_first() =~= a.drop_first() + b);
        assert((a + b)[0] == a[0]);
    }
}

/// Comparing two paths that agree on their first `i` branches reduces to
/// comparing the remainders.
pub proof fn lemma_id_lt_common_prefix(a: Seq<Branch>, b: Seq<Branch>, i: int)
    requires
        0 <= i <= a.len(),
        i <= b.len(),
        forall|j: int| 0 <= j < i ==> a[j] == b[j],
    ensures
        id_lt(a, b) <==> id_lt(a.skip(i), b.skip(i)),
    decreases i,
{
    if i > 0 {
        assert(a.len() > 0 && b.len() > 0);
        assert(a[0] == b[0]);
        lemma_id_lt_irrefl(seq![a[0]]);
        assert(!branch_lt(a[0], b[0])) by {
            if branch_lt(a[0], a[0]) {
                assert(id_lt(seq![a[0]], seq![a[0]]));
            }
        }
        lemma_id_lt_common_prefix(a.drop_first(), b.drop_first(), i - 1);
        assert(a.skip(i) =~= a.drop_first().skip(i - 1));
        assert(b.skip(i) =~= b.drop_first().skip(i - 1));
    } else {
        assert(a.skip(0) =~= a);
        assert(b.skip(0) =~= b);
    }
}

/// Prepending the same branch to both paths preserves their order.
pub proof fn lemma_id_lt_cons(h: Branch, a: Seq<Branch>, b: Seq<Branch>)
    ensures
        id_lt(seq![h] + a, seq![h] + b) <==> id_lt(a, b),
{
    assert((seq![h] + a).drop_first() =~= a);
    assert((seq![h] + b).drop_first() =~= b);
    assert(!branch_lt(h, h));
    assert((seq![h] + a)[0] == h);
    assert((seq![h] + b)[0] == h);
}

/// A path headed by a smaller branch sorts before one headed by a larger,
/// whatever follows.
pub proof fn lemma_id_lt_head(a: Seq<Branch>, b: Seq<Branch>)
    requires
        a.len() > 0,
        b.len() > 0,
        branch_lt(a[0], b[0]),
    ensures
        id_lt(a, b),
{
}

/// Strictly ordered sequences of identities holding the same members are
/// equal: the total order leaves no freedom in how a set of identities is
/// arranged, which is what makes every replica show them in the same order.
pub proof fn lemma_sorted_ids_canonical(a: Seq<Seq<Branch>>, b: Seq<Seq<Branch>>)
    requires
        forall|i: int, j: int| #![trigger a[i], a[j]] 0 <= i < j < a.len() ==> id_lt(a[i], a[j]),
        forall|i: int, j: int| #![trigger b[i], b[j]] 0 <= i < j < b.len() ==> id_lt(b[i], b[j]),
        forall|x: Seq<Branch>| a.contains(x) <==> b.contains(x),
    ensures
        a == b,
    decreases a.len(),
{
    if a.len() == 0 {
        if b.len() > 0 {
            assert(b.contains(b[0]));
            assert(a.contains(b[0]));
        }
        assert(a =~= b);
    } else if b.len() == 0 {
        assert(a.contains(a[0]));
        assert(b.contains(a[0]));
    } else {
        assert(a.contains(a[0]));
        assert(b.contains(b[0]));
        let j = choose|j: int| 0 <= j < b.len() && b[j] == a[0];
        let i = choose|i: int| 0 <= i < a.len() && a[i] == b[0];
        if i != 0 {
            assert(id_lt(a[0], a[i]));
            if j != 0 {
                assert(id_lt(b[0], b[j]));
                lemma_id_lt_trans(a[0], a[i], b[j]);
                lemma_id_lt_irrefl(a[0]);
            } else {
                lemma_id_lt_irrefl(a[0]);
            }
        } else {
            if j != 0 {
                assert(id_lt(b[0], b[j]));
                lemma_id_lt_irrefl(b[0]);
            }
        }
        assert(a[0] == b[0]);
        let ta = a.drop_first();
        let tb = b.drop_first();
        assert forall|x: Seq<Branch>| ta.contains(x) implies tb.contains(x) by {
            let k = choose|k: int| 0 <= k < ta.len() && ta[k] == x;
            assert(a[k + 1] == x);
            assert(id_lt(a[0], x));
            assert(a.contains(x));
            assert(b.contains(x));
            let l = choose|l: int| 0 <= l < b.len() && b[l] == x;
            if l == 0 {
                lemma_id_lt_irrefl(x);
            }
            assert(tb[l - 1] == x);
        }
        assert forall|x: Seq<Branch>| tb.contains(x) implies ta.contains(x) by {
            let k = choose|k: int| 0 <= k < tb.len() && tb[k] == x;
            assert(b[k + 1] == x);
            assert(id_lt(b[0], x));
            assert(b.contains(x));
            assert(a.contains(x));
            let l = choose|l: int| 0 <= l < a.len() && a[l] == x;
            if l == 0 {
                lemma_id_lt_irrefl(x);
            }
            assert(ta[l - 1] == x);
        }
        assert forall|i2: int, j2: int|
            #![trigger ta[i2], ta[j2]]
            0 <= i2 < j2 < ta.len() implies id_lt(ta[i2], ta[j2]) by {
            assert(ta[i2] == a[i2 + 1] && ta[j2] == a[j2 + 1]);
        }
        assert forall|i2: int, j2: int|
            #![trigger tb[i2], tb[j2]]
            0 <= i2 < j2 < tb.len() implies id_lt(tb[i2], tb[j2]) by {
            assert(tb[i2] == b[i2 + 1] && tb[j2] == b[j2 + 1]);
        }
        lemma_sorted_ids_canonical(ta, tb);
        assert(a.len() == b.len());
        assert forall|k: int| 0 <= k < a.len() implies a[k] == b[k] by {
            if k >= 1 {
                assert(a[k] == ta[k - 1]);
                assert(b[k] == tb[k - 1]);
            }
        }
        assert(a =~= b);
    }
}

/// An element identity: a non-empty path of branches.
#[derive(Debug)]
pub struct ElemId {
    pub path: Vec<Branch>,
}

impl View for ElemId {
    type V = Seq<Branch>;

    open spec fn view(&self) -> Seq<Branch> {
        self.path@
    }
}

impl ElemId {
    /// An exact copy of this identity.
    pub fn dup(&self) -> (r: ElemId)
        ensures
            r@ == self@,
    {
        let mut path: Vec<Branch> = Vec::new();
        let mut i: usize = 0;
        while i < self.path.len()
            invariant
                i <= self.path.len(),
                path@ =~= self.path@.take(i as int),
            decreases self.path.len() - i,
        {
            path.push(self.path[i]);
            i = i + 1;
        }
        assert(path@ =~= self.path@);
        ElemId { path }
    }
}

/// Three-way comparison result for identities.
pub enum IdOrder {
    Before,
    Same,
    After,
}

/// Compares two identities in the total order `id_lt`.
pub fn id_cmp(a: &ElemId, b: &ElemId) -> (r: IdOrder)
    ensures
        r matches IdOrder::Before ==> id_lt(a@, b@),
        r matches IdOrder::Same ==> a@ == b@,
        r matches IdOrder::After ==> id_lt(b@, a@),
{
    let mut i: usize = 0;
    loop
        invariant
            i <= a.path.len(),
            i <= b.path.len(),
            forall|j: int| 0 <= j < i ==> a.path@[j] == b.path@[j],
        decreases a.path.len() - i,
    {
        proof {
            lemma_id_lt_common_prefix(a@, b@, i as int);
            lemma_id_lt_common_prefix(b@, a@, i as int);
        }
        if i >= a.path.len() || i >= b.path.len() {
            if a.path.len() < b.path.len() {
                assert(a@.skip(i as int).len() == 0 && b@.skip(i as int).len() > 0);
                return IdOrder::Before;
            } else if b.path.len() < a.path.len() {
                assert(b@.skip(i as int).len() == 0 && a@.skip(i as int).len() > 0);
                return IdOrder::After;
            } else {
                assert(a@ =~= b@);
                return IdOrder::Same;
            }
        }
        let x = a.path[i];
        let y = b.path[i];
        if x.digit < y.digit || (x.digit == y.digit && x.actor < y.actor) || (x.digit == y.digit
            && x.actor == y.actor && x.ctr < y.ctr) {
            assert(branch_lt(a@.skip(i as int)[0], b@.skip(i as int)[0]));
            proof {
                lemma_id_lt_head(a@.skip(i as int), b@.skip(i as int));
            }
            return IdOrder::Before;
        }
        if y.digit < x.digit || (y.digit == x.digit && y.actor < x.actor) || (y.digit == x.digit
            && y.actor == x.actor && y.ctr < x.ctr) {
            assert(branch_lt(b@.skip(i as int)[0], a@.skip(i as int)[0]));
            proof {
                lemma_id_lt_head(b@.skip(i as int), a@.skip(i as int));
            }
            return IdOrder::After;
        }
        assert(x == y);
        i = i + 1;
    }
}

/// Digit given to a branch opened in fresh space, leaving room on both sides.
pub const MID_DIGIT: u64 = 0x8000000000000000;

/// Allocates a fresh path strictly between the two bounding suffixes
/// (`None` standing for the infinite bound on that side).
fn alloc_rec(lo: Option<&[Branch]>, hi: Option<&[Branch]>, actor: u64, ctr: u64) -> (r: Vec<
    Branch,
>)
    requires
        lo is Some ==> lo->Some_0@.len() >= 1,
        hi is Some ==> hi->Some_0@.len() >= 1 && hi->Some_0@.last().digit >= 1,
        lo is Some && hi is Some ==> id_lt(lo->Some_0@, hi->Some_0@),
    ensures
        r@.len() >= 1,
        r@.last().digit >= 1,
        r@.last().actor == actor,
        r@.last().ctr == ctr,
        lo is Some ==> id_lt(lo->Some_0@, r@),
        hi is Some ==> id_lt(r@, hi->Some_0@),
    decreases (match lo {
        Some(l) => l@.len(),
        None => 0,
    }) + (match hi {
        Some(h) => h@.len(),
        None => 0,
    }),
{
    match (lo, hi) {
        (None, None) => {
            let mut r: Vec<Branch> = Vec::new();
            r.push(Branch { digit: MID_DIGIT, actor, ctr });
            r
        },
        (Some(p), None) => {
            let h = *vstd::slice::slice_index_get(p, 0);
            if h.digit < u64::MAX {
                let mut r: Vec<Branch> = Vec::new();
                r.push(Branch { digit: h.digit + 1, actor, ctr });
                proof {
                    lemma_id_lt_head(p@, r@);
                }
                r
            } else {
                let rest: Option<&[Branch]> = if p.len() > 1 {
                    Some(vstd::slice::slice_subrange(p, 1, p.len()))
                } else {
                    None
                };
                let mut r = alloc_rec(rest, None, actor, ctr);
                let ghost rs = r@;
                r.insert(0, h);
                proof {
                    assert(r@ =~= seq![h] + rs);
                    assert(p@ =~= seq![h] + p@.drop_first());
                    if p.len() > 1 {
                        assert(rest->Some_0@ =~= p@.drop_first());
                        lemma_id_lt_cons(h, p@.drop_first(), rs);
                    } else {
                        assert(p@ =~= seq![h]);
                        lemma_id_lt_extension(seq![h], rs);
                    }
                }
                r
            }
        },
        (None, Some(q)) => {
            let h = *vstd::slice::slice_index_get(q, 0);
            if h.digit >= 2 {
                let mut r: Vec<Branch> = Vec::new();
                r.push(Branch { digit: h.digit - 1, actor, ctr });
                proof {
                    lemma_id_lt_head(r@, q@);
                }
                r
            } else if h.digit == 1 {
                let mut r: Vec<Branch> = Vec::new();
                r.push(Branch { digit: 0, actor, ctr });
                r.push(Branch { digit: MID_DIGIT, actor, ctr });
                proof {
                    lemma_id_lt_head(r@, q@);
                }
                r
            } else {
                proof {
                    assert(q@.len() > 1);
                }
                let rest: Option<&[Branch]> = Some(vstd::slice::slice_subrange(q, 1, q.len()));
                let mut r = alloc_rec(None, rest, actor, ctr);
                let ghost rs = r@;
                r.insert(0, h);
                proof {
                    assert(r@ =~= seq![h] + rs);
                    assert(q@ =~= seq![h] + q@.drop_first());
                    assert(rest->Some_0@ =~= q@.drop_first());
                    lemma_id_lt_cons(h, rs, q@.drop_first());
                }
                r
            }
        },
        (Some(p), Some(q)) => {
            let a0 = *vstd::slice::slice_index_get(p, 0);
            let b0 = *vstd::slice::slice_index_get(q, 0);
            if a0 == b0 {
                proof {
                    assert(id_lt(p@.drop_first(), q@.drop_first()));
                    if q@.len() == 1 {
                        assert(q@.drop_first().len() == 0);
                        assert(false);
                    }
                }
                let rest_p: Option<&[Branch]> = if p.len() > 1 {
                    Some(vstd::slice::slice_subrange(p, 1, p.len()))
                } else {
                    None
                };
                let rest_q: Option<&[Branch]> = Some(vstd::slice::slice_subrange(q, 1, q.len()));
                proof {
                    if p.len() > 1 {
                        assert(p@.drop_first().len() >= 1);
                    }
                    assert(q@.drop_first().last() == q@.last());
                }
                let mut r = alloc_rec(rest_p, rest_q, actor, ctr);
                let ghost rs = r@;
                r.insert(0, a0);
                proof {
                    assert(r@ =~= seq![a0] + rs);
                    assert(p@ =~= seq![a0] + p@.drop_first());
                    assert(q@ =~= seq![a0] + q@.drop_first());
                    if p.len() > 1 {
                        assert(rest_p->Some_0@ =~= p@.drop_first());
                        lemma_id_lt_cons(a0, p@.drop_first(), rs);
                    } else {
                        assert(p@ =~= seq![a0]);
                        lemma_id_lt_extension(seq![a0], rs);
                    }
                    lemma_id_lt_cons(a0, rs, q@.drop_first());
                }
                r
            } else {
                assert(branch_lt(a0, b0));
                if a0.digit < b0.digit && b0.digit - a0.digit >= 2 {
                    let mut r: Vec<Branch> = Vec::new();
                    r.push(Branch { digit: a0.digit + 1, actor, ctr });
                    proof {
                        lemma_id_lt_head(p@, r@);
                        lemma_id_lt_head(r@, q@);
                    }
                    r
                } else {
                    let rest_p: Option<&[Branch]> = if p.len() > 1 {
                        Some(vstd::slice::slice_subrange(p, 1, p.len()))
                    } else {
                        None
                    };
                    let mut r = alloc_rec(rest_p, None, actor, ctr);
                    let ghost rs = r@;
                    r.insert(0, a0);
                    proof {
                        assert(r@ =~= seq![a0] + rs);
                        assert(p@ =~= seq![a0] + p@.drop_first());
                        if p.len() > 1 {
                            assert(rest_p->Some_0@ =~= p@.drop_first());
                            lemma_id_lt_cons(a0, p@.drop_first(), rs);
                        } else {
                            assert(p@ =~= seq![a0]);
                            lemma_id_lt_extension(seq![a0], rs);
                        }
                        lemma_id_lt_head(r@, q@);
                    }
                    r
                }
            }
        },
    }
}

/// Allocates a fresh identity strictly between `lo` and `hi` (`None` standing
/// for the corresponding end of the sequence), stamped with the allocating
/// actor and its logical counter.
pub fn alloc_between(lo: Option<&ElemId>, hi: Option<&ElemId>, actor: u64, ctr: u64) -> (r:
    ElemId)
    requires
        lo is Some ==> lo->Some_0@.len() >= 1,
        hi is Some ==> id_wf(hi->Some_0@),
        lo is Some && hi is Some ==> id_lt(lo->Some_0@, hi->Some_0@),
        ctr < u64::MAX,
    ensures
        id_wf(r@),
        r@.last().actor == actor,
        r@.last().ctr == ctr,
        lo is Some ==> id_lt(lo->Some_0@, r@),
        hi is Some ==> id_lt(r@, hi->Some_0@),
{
    let lo_s: Option<&[Branch]> = match lo {
        Some(l) => Some(l.path.as_slice()),
        None => None,
    };
    let hi_s: Option<&[Branch]> = match hi {
        Some(h) => Some(h.path.as_slice()),
        None => None,
    };
    let path = alloc_rec(lo_s, hi_s, actor, ctr);
    ElemId { path }
}

} // verus!
