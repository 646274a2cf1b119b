//! The replicated map.
//!
//! A `SyncedMap` binds keys to multi-value registers.  Every write carries
//! the causal context its writer had observed for that key; a write discards
//! exactly the register entries its context strictly dominates, so causally
//! later writes supersede earlier ones while concurrent writes all survive
//! until some write observes them all.  Reads return the surviving value
//! whose writer stamp is least — a rule that is total and the same on every
//! replica.

use vstd::assert_sets_equal;
use vstd::map::*;
use vstd::prelude::*;

use crate::SyncError;
use crate::taped::Taped;
use crate::values::{MapKey, MapVal};
use crate::vclock::{VClock, vc_get, vc_le, vc_lt, lemma_vc_le_trans, lemma_vc_lt_trans};

verus! {

/// One surviving write in a register.
pub struct RegEntry<V> {
    /// The writing actor.
    pub actor: u64,
    /// The writer's counter for this key at the time of the write.
    pub n: u64,
    /// The causal context of the write, its own stamp included.
    pub clock: VClock,
    /// The written value.
    pub val: V,
}

/// An operation of the replicated map: one context-qualified write.
pub struct MapOp<K, V> {
    pub key: K,
    pub actor: u64,
    pub n: u64,
    pub clock: VClock,
    pub val: V,
}

/// The denotation of a register entry.
pub struct RegView<VV> {
    pub actor: u64,
    pub n: u64,
    pub clock: Map<u64, u64>,
    pub val: VV,
}

/// The denotation of a map operation.
pub struct MapOpView<KV, VV> {
    pub key: KV,
    pub entry: RegView<VV>,
}

impl<V: MapVal> View for RegEntry<V> {
    type V = RegView<V::V>;

    open spec fn view(&self) -> RegView<V::V> {
        RegView { actor: self.actor, n: self.n, clock: self.clock@, val: self.val@ }
    }
}

impl<K: MapKey, V: MapVal> View for MapOp<K, V> {
    type V = MapOpView<K::V, V::V>;

    open spec fn view(&self) -> MapOpView<K::V, V::V> {
        MapOpView {
            key: self.key@,
            entry: RegView { actor: self.actor, n: self.n, clock: self.clock@, val: self.val@ },
        }
    }
}

/// Internal consistency of a map operation: its context is canonical and
/// counts the writer's own stamp.
pub open spec fn map_op_ok<K: MapKey, V: MapVal>(op: MapOp<K, V>) -> bool {
    &&& op.clock.wf()
    &&& vc_get(op.clock@, op.actor) == op.n
    &&& op.n >= 1
}

/// The mathematical state of a map replica: a register per written key.
#[verifier::ext_equal]
#[verifier::reject_recursive_types(KV)]
#[verifier::reject_recursive_types(VV)]
pub struct MapModel<KV, VV> {
    pub regs: Map<KV, Set<RegView<VV>>>,
}

impl<KV, VV> MapModel<KV, VV> {
    /// The state holding nothing.
    pub open spec fn empty() -> MapModel<KV, VV> {
        MapModel { regs: Map::empty() }
    }
}

/// Whether the register already holds the operation's writer stamp.
pub open spec fn reg_dup<VV>(reg: Set<RegView<VV>>, e: RegView<VV>) -> bool {
    exists|f: RegView<VV>| #[trigger] reg.contains(f) && f.actor == e.actor && f.n == e.n
}

/// Whether some surviving write strictly dominates the operation.
pub open spec fn reg_dominated<VV>(reg: Set<RegView<VV>>, e: RegView<VV>) -> bool {
    exists|f: RegView<VV>| #[trigger] reg.contains(f) && vc_lt(e.clock, f.clock)
}

/// The writes the operation does not strictly dominate.
pub open spec fn reg_survivors<VV>(reg: Set<RegView<VV>>, e: RegView<VV>) -> Set<RegView<VV>> {
    reg.filter(|f: RegView<VV>| !vc_lt(f.clock, e.clock))
}

/// The effect of one write on a register: a write already seen (same writer
/// stamp) changes nothing; otherwise the write discards the entries it
/// strictly dominates and joins the survivors unless it is itself strictly
/// dominated.
pub open spec fn reg_step<VV>(reg: Set<RegView<VV>>, e: RegView<VV>) -> Set<RegView<VV>> {
    if reg_dup(reg, e) {
        reg
    } else if reg_dominated(reg, e) {
        reg_survivors(reg, e)
    } else {
        reg_survivors(reg, e).insert(e)
    }
}

/// The register a model holds for a key; empty when the key was never
/// written.
pub open spec fn reg_of<KV, VV>(m: MapModel<KV, VV>, k: KV) -> Set<RegView<VV>> {
    if m.regs.contains_key(k) {
        m.regs[k]
    } else {
        Set::empty()
    }
}

/// The effect of one operation on the map model.
pub open spec fn map_step<KV, VV>(m: MapModel<KV, VV>, op: MapOpView<KV, VV>) -> MapModel<KV, VV> {
    MapModel { regs: m.regs.insert(op.key, reg_step(reg_of(m, op.key), op.entry)) }
}

/// Order on writer stamps: by actor, then by counter.
pub open spec fn dot_le<VV>(e: RegView<VV>, f: RegView<VV>) -> bool {
    e.actor < f.actor || (e.actor == f.actor && e.n <= f.n)
}

/// The write a read returns: the surviving entry with the least writer
/// stamp.  The rule is total, so every replica holding the same register
/// reads the same value.
pub open spec fn is_min_dot<VV>(reg: Set<RegView<VV>>, e: RegView<VV>) -> bool {
    reg.contains(e) && forall|f: RegView<VV>| #[trigger] reg.contains(f) ==> dot_le(e, f)
}

/// No two register entries share a writer stamp.
pub open spec fn reg_dots_distinct<VV>(reg: Set<RegView<VV>>) -> bool {
    forall|f: RegView<VV>, g: RegView<VV>|
        #![trigger reg.contains(f), reg.contains(g)]
        reg.contains(f) && reg.contains(g) && f.actor == g.actor && f.n == g.n ==> f == g
}

/// Reads are deterministic: a register without repeated writer stamps has
/// at most one least entry, so any two replicas holding the same register
/// return the same value.
pub proof fn lemma_min_dot_unique<VV>(reg: Set<RegView<VV>>, e1: RegView<VV>, e2: RegView<VV>)
    requires
        reg_dots_distinct(reg),
        is_min_dot(reg, e1),
        is_min_dot(reg, e2),
    ensures
        e1 == e2,
{
    assert(dot_le(e1, e2) && dot_le(e2, e1));
}

/// One stored binding: a key and its register, ordered by writer stamp.
pub struct MapSlot<K, V> {
    pub key: K,
    pub reg: Vec<RegEntry<V>>,
}

/// Witnesses entry denotation `ev` at index `i`.
pub open spec fn reg_has_at<V: MapVal>(s: Seq<RegEntry<V>>, ev: RegView<V::V>, i: int) -> bool {
    0 <= i < s.len() && s[i]@ == ev
}

/// The register a stored entry sequence denotes.
pub open spec fn reg_view<V: MapVal>(s: Seq<RegEntry<V>>) -> Set<RegView<V::V>> {
    Set::new(|ev: RegView<V::V>| exists|i: int| reg_has_at(s, ev, i))
}

/// Structural well-formedness of a stored register: non-empty, every
/// context canonical and counting its own stamp, no two entries sharing a
/// writer stamp, and no entry strictly dominating another.
pub open spec fn reg_wf<V: MapVal>(s: Seq<RegEntry<V>>) -> bool {
    &&& s.len() >= 1
    &&& forall|i: int|
        0 <= i < s.len() ==> (#[trigger] s[i]).clock.wf() && vc_get(s[i].clock@, s[i].actor)
            == s[i].n && s[i].n >= 1
    &&& forall|i: int, j: int|
        #![trigger s[i], s[j]]
        0 <= i < s.len() && 0 <= j < s.len() && i != j ==> !(s[i].actor == s[j].actor && s[i].n
            == s[j].n) && !vc_lt(s[i].clock@, s[j].clock@)
}

/// Witnesses key denotation `kv` at slot `i`.
pub open spec fn slot_has_at<K: MapKey, V: MapVal>(s: Seq<MapSlot<K, V>>, kv: K::V, i: int) -> bool {
    0 <= i < s.len() && s[i].key@ == kv
}

/// The keys are pairwise distinct in denotation.
pub open spec fn keys_distinct<K: MapKey, V: MapVal>(s: Seq<MapSlot<K, V>>) -> bool {
    forall|i: int, j: int|
        #![trigger s[i].key@, s[j].key@]
        0 <= i < s.len() && 0 <= j < s.len() && i != j ==> s[i].key@ != s[j].key@
}

/// The model a stored slot sequence denotes.
pub open spec fn slots_model<K: MapKey, V: MapVal>(s: Seq<MapSlot<K, V>>) -> MapModel<
    K::V,
    V::V,
> {
    MapModel {
        regs: Map::new(
            |kv: K::V| exists|i: int| slot_has_at(s, kv, i),
            |kv: K::V| reg_view(s[choose|i: int| slot_has_at(s, kv, i)].reg@),
        ),
    }
}

/// A stored slot is reflected in the model.
pub proof fn lemma_slots_at<K: MapKey, V: MapVal>(s: Seq<MapSlot<K, V>>, kv: K::V, k: int)
    requires
        keys_distinct(s),
        slot_has_at(s, kv, k),
    ensures
        slots_model(s).regs.contains_key(kv),
        slots_model(s).regs[kv] == reg_view(s[k].reg@),
{
    let w = choose|i: int| slot_has_at(s, kv, i);
    assert(slot_has_at(s, kv, w));
    assert(w == k);
}

/// A key no slot holds is absent from the model.
pub proof fn lemma_slots_absent<K: MapKey, V: MapVal>(s: Seq<MapSlot<K, V>>, kv: K::V)
    requires
        forall|i: int| !slot_has_at(s, kv, i),
    ensures
        !slots_model(s).regs.contains_key(kv),
{
}

/// The empty store denotes the empty model.
pub proof fn lemma_slots_empty<K: MapKey, V: MapVal>()
    ensures
        slots_model(Seq::<MapSlot<K, V>>::empty()) == MapModel::<K::V, V::V>::empty(),
{
    let s = Seq::<MapSlot<K, V>>::empty();
    let m1 = slots_model(s).regs;
    let m2 = Map::<K::V, Set<RegView<V::V>>>::empty();
    assert_maps_equal!(m1, m2, kv => {
        if m1.contains_key(kv) {
            let i = choose|i: int| slot_has_at(s, kv, i);
            assert(slot_has_at(s, kv, i));
        }
    });
}

/// Replacing one slot's register rebinds exactly its key in the model.
pub proof fn lemma_slots_set<K: MapKey, V: MapVal>(s: Seq<MapSlot<K, V>>, k: int, slot2: MapSlot<
    K,
    V,
>)
    requires
        keys_distinct(s),
        0 <= k < s.len(),
        slot2.key@ == s[k].key@,
    ensures
        keys_distinct(s.update(k, slot2)),
        slots_model(s.update(k, slot2)) == (MapModel {
            regs: slots_model(s).regs.insert(slot2.key@, reg_view(slot2.reg@)),
        }),
{
    let s2 = s.update(k, slot2);
    assert forall|i: int| 0 <= i < s.len() && i != k implies s2[i] == s[i] by {}
    assert(keys_distinct(s2)) by {
        assert forall|i: int, j: int|
            #![trigger s2[i].key@, s2[j].key@]
            0 <= i < s2.len() && 0 <= j < s2.len() && i != j implies s2[i].key@ != s2[j].key@ by {
            assert(s[i].key@ != s[j].key@);
        }
    }
    let m1 = slots_model(s2).regs;
    let m2 = slots_model(s).regs.insert(slot2.key@, reg_view(slot2.reg@));
    assert_maps_equal!(m1, m2, kv => {
        if m1.contains_key(kv) {
            let i = choose|i: int| slot_has_at(s2, kv, i);
            assert(slot_has_at(s2, kv, i));
            lemma_slots_at(s2, kv, i);
            if i == k {
                assert(kv == slot2.key@);
            } else {
                assert(slot_has_at(s, kv, i));
                lemma_slots_at(s, kv, i);
                assert(kv != slot2.key@);
            }
        }
        if m2.contains_key(kv) {
            if kv == slot2.key@ {
                assert(slot_has_at(s2, kv, k));
                lemma_slots_at(s2, kv, k);
            } else {
                assert(slots_model(s).regs.contains_key(kv));
                let i = choose|i: int| slot_has_at(s, kv, i);
                assert(slot_has_at(s, kv, i));
                assert(i != k);
                assert(slot_has_at(s2, kv, i));
                lemma_slots_at(s, kv, i);
                lemma_slots_at(s2, kv, i);
            }
        }
    });
}

/// Appending a slot with a fresh key binds exactly that key in the model.
pub proof fn lemma_slots_push<K: MapKey, V: MapVal>(s: Seq<MapSlot<K, V>>, slot: MapSlot<K, V>)
    requires
        keys_distinct(s),
        forall|i: int| 0 <= i < s.len() ==> (#[trigger] s[i]).key@ != slot.key@,
    ensures
        keys_distinct(s.push(slot)),
        !slots_model(s).regs.contains_key(slot.key@),
        slots_model(s.push(slot)) == (MapModel {
            regs: slots_model(s).regs.insert(slot.key@, reg_view(slot.reg@)),
        }),
{
    let s2 = s.push(slot);
    assert forall|i: int| 0 <= i < s.len() implies s2[i] == s[i] by {}
    assert(s2[s.len() as int] == slot);
    assert(keys_distinct(s2)) by {
        assert forall|i: int, j: int|
            #![trigger s2[i].key@, s2[j].key@]
            0 <= i < s2.len() && 0 <= j < s2.len() && i != j implies s2[i].key@ != s2[j].key@ by {
            if i < s.len() && j < s.len() {
                assert(s[i].key@ != s[j].key@);
            }
        }
    }
    assert forall|i: int| !slot_has_at(s, slot.key@, i) by {}
    lemma_slots_absent(s, slot.key@);
    let m1 = slots_model(s2).regs;
    let m2 = slots_model(s).regs.insert(slot.key@, reg_view(slot.reg@));
    assert_maps_equal!(m1, m2, kv => {
        if m1.contains_key(kv) {
            let i = choose|i: int| slot_has_at(s2, kv, i);
            assert(slot_has_at(s2, kv, i));
            lemma_slots_at(s2, kv, i);
            if i == s.len() as int {
                assert(kv == slot.key@);
            } else {
                assert(slot_has_at(s, kv, i));
                lemma_slots_at(s, kv, i);
                assert(kv != slot.key@);
            }
        }
        if m2.contains_key(kv) {
            if kv == slot.key@ {
                assert(slot_has_at(s2, kv, s.len() as int));
                lemma_slots_at(s2, kv, s.len() as int);
            } else {
                assert(slots_model(s).regs.contains_key(kv));
                let i = choose|i: int| slot_has_at(s, kv, i);
                assert(slot_has_at(s, kv, i));
                assert(slot_has_at(s2, kv, i));
                lemma_slots_at(s, kv, i);
                lemma_slots_at(s2, kv, i);
            }
        }
    });
}

/// No two entries of a well-formed register share a writer stamp.
pub proof fn lemma_reg_distinct<V: MapVal>(s: Seq<RegEntry<V>>)
    requires
        reg_wf(s),
    ensures
        reg_dots_distinct(reg_view(s)),
{
    assert forall|f: RegView<V::V>, g: RegView<V::V>|
        #![trigger reg_view(s).contains(f), reg_view(s).contains(g)]
        reg_view(s).contains(f) && reg_view(s).contains(g) && f.actor == g.actor && f.n
            == g.n implies f == g by {
        let i = choose|i: int| reg_has_at(s, f, i);
        let j = choose|j: int| reg_has_at(s, g, j);
        assert(reg_has_at(s, f, i));
        assert(reg_has_at(s, g, j));
        if i != j {
            assert(!(s[i]@.actor == s[j]@.actor && s[i]@.n == s[j]@.n));
        }
    }
}

/// The values a read of key `k` may hand out: the register's least-stamped
/// survivor, or the default when the key is absent.
pub open spec fn read_ok<KV, VV>(m: MapModel<KV, VV>, k: KV, dflt: VV, vv: VV) -> bool {
    if m.regs.contains_key(k) {
        exists|e: RegView<VV>| #[trigger] is_min_dot(m.regs[k], e) && e.val == vv
    } else {
        vv == dflt
    }
}

/// Finds the index of the entry with the least writer stamp.
#[verifier::loop_isolation(false)]
fn reg_min_index<V: MapVal>(reg: &Vec<RegEntry<V>>) -> (b: usize)
    requires
        reg@.len() >= 1,
    ensures
        b < reg@.len(),
        forall|j: int| 0 <= j < reg@.len() ==> dot_le(reg@[b as int]@, (#[trigger] reg@[j])@),
{
    let mut best: usize = 0;
    let mut i: usize = 1;
    while i < reg.len()
        invariant
            best < i,
            1 <= i <= reg@.len(),
            forall|j: int| 0 <= j < i ==> dot_le(reg@[best as int]@, (#[trigger] reg@[j])@),
        decreases reg@.len() - i,
    {
        let better = reg[i].actor < reg[best].actor || (reg[i].actor == reg[best].actor
            && reg[i].n < reg[best].n);
        if better {
            best = i;
        }
        i = i + 1;
    }
    best
}

/// The denotations of the first `i` entries that write `c` does not
/// strictly dominate.
pub open spec fn surv_set<V: MapVal>(s: Seq<RegEntry<V>>, i: int, c: Map<u64, u64>) -> Set<
    RegView<V::V>,
> {
    Set::new(
        |x: RegView<V::V>|
            exists|j: int| 0 <= j < i && #[trigger] s[j]@ == x && !vc_lt(x.clock, c),
    )
}

/// Appending an entry adds its denotation to the register's denotation.
pub proof fn lemma_reg_view_push<V: MapVal>(s: Seq<RegEntry<V>>, e: RegEntry<V>)
    ensures
        reg_view(s.push(e)) == reg_view(s).insert(e@),
{
    let s2 = s.push(e);
    let a = reg_view(s2);
    let b = reg_view(s).insert(e@);
    assert_sets_equal!(a, b, x => {
        if a.contains(x) {
            let i = choose|i: int| reg_has_at(s2, x, i);
            assert(reg_has_at(s2, x, i));
            if i < s.len() {
                assert(reg_has_at(s, x, i));
            }
        }
        if b.contains(x) {
            if x == e@ {
                assert(reg_has_at(s2, x, s.len() as int));
            } else {
                let i = choose|i: int| reg_has_at(s, x, i);
                assert(reg_has_at(s, x, i));
                assert(reg_has_at(s2, x, i));
            }
        }
    });
}

/// Taking one more entry into account extends the survivor set accordingly.
pub proof fn lemma_surv_set_step<V: MapVal>(s: Seq<RegEntry<V>>, i: int, c: Map<u64, u64>)
    requires
        0 <= i < s.len(),
    ensures
        !vc_lt(s[i]@.clock, c) ==> surv_set(s, i + 1, c) == surv_set(s, i, c).insert(s[i]@),
        vc_lt(s[i]@.clock, c) ==> surv_set(s, i + 1, c) == surv_set(s, i, c),
{
    if !vc_lt(s[i]@.clock, c) {
        let a = surv_set(s, i + 1, c);
        let b = surv_set(s, i, c).insert(s[i]@);
        assert_sets_equal!(a, b, x => {
            if a.contains(x) {
                let j = choose|j: int| 0 <= j < i + 1 && #[trigger] s[j]@ == x && !vc_lt(x.clock, c);
                assert(0 <= j < i + 1 && s[j]@ == x);
            }
            if b.contains(x) {
                if x == s[i]@ {
                    assert(0 <= i < i + 1 && s[i]@ == x && !vc_lt(x.clock, c));
                } else {
                    let j = choose|j: int| 0 <= j < i && #[trigger] s[j]@ == x && !vc_lt(x.clock, c);
                    assert(0 <= j < i + 1 && s[j]@ == x && !vc_lt(x.clock, c));
                }
            }
        });
    } else {
        let a = surv_set(s, i + 1, c);
        let b = surv_set(s, i, c);
        assert_sets_equal!(a, b, x => {
            if a.contains(x) {
                let j = choose|j: int| 0 <= j < i + 1 && #[trigger] s[j]@ == x && !vc_lt(x.clock, c);
                assert(0 <= j < i + 1 && s[j]@ == x && !vc_lt(x.clock, c));
                assert(j != i);
            }
            if b.contains(x) {
                let j = choose|j: int| 0 <= j < i && #[trigger] s[j]@ == x && !vc_lt(x.clock, c);
                assert(0 <= j < i + 1 && s[j]@ == x && !vc_lt(x.clock, c));
            }
        });
    }
}

/// The full survivor set is the register's denotation filtered by the
/// write's context.
pub proof fn lemma_surv_set_full<V: MapVal>(s: Seq<RegEntry<V>>, c: Map<u64, u64>, e: RegView<
    V::V,
>)
    requires
        e.clock == c,
    ensures
        surv_set(s, s.len() as int, c) == reg_survivors(reg_view(s), e),
{
    let a = surv_set(s, s.len() as int, c);
    let b = reg_survivors(reg_view(s), e);
    assert_sets_equal!(a, b, x => {
        if a.contains(x) {
            let j = choose|j: int| 0 <= j < s.len() && #[trigger] s[j]@ == x && !vc_lt(x.clock, c);
            assert(0 <= j < s.len() && s[j]@ == x);
            assert(reg_has_at(s, x, j));
            assert(reg_view(s).contains(x));
        }
        if b.contains(x) {
            assert(reg_view(s).contains(x));
            assert(!vc_lt(x.clock, c));
            let j = choose|j: int| reg_has_at(s, x, j);
            assert(reg_has_at(s, x, j));
            assert(0 <= j < s.len() && s[j]@ == x && !vc_lt(x.clock, c));
        }
    });
}

/// A replicated key/value table whose writes carry causal contexts.
///
/// Replicas fork from one another; each fork takes a distinct actor
/// identifier.  Local writes are applied immediately and recorded on the
/// tape; tapes are exchanged and replayed, and replicas that have seen the
/// same set of writes hold the same registers.
pub struct SyncedMap<K: MapKey, V: MapVal> {
    slots: Vec<MapSlot<K, V>>,
    actor: u64,
    tape: Vec<MapOp<K, V>>,
}

impl<K: MapKey, V: MapVal> SyncedMap<K, V> {
    /// Structural well-formedness: distinct keys, each bound to a
    /// well-formed, non-empty register.
    pub closed spec fn wf(&self) -> bool {
        &&& keys_distinct(self.slots@)
        &&& forall|i: int| 0 <= i < self.slots@.len() ==> reg_wf((#[trigger] self.slots@[i]).reg@)
    }

    /// The mathematical state of this replica.
    pub closed spec fn model(&self) -> MapModel<K::V, V::V> {
        slots_model(self.slots@)
    }

    /// The operations generated locally since the last extraction.
    pub closed spec fn pending(&self) -> Seq<MapOp<K, V>> {
        self.tape@
    }

    /// This replica's actor identifier.
    pub closed spec fn actor_id(&self) -> u64 {
        self.actor
    }

    /// A fresh, empty replica with actor identifier `0`.
    pub fn new() -> (r: SyncedMap<K, V>)
        ensures
            r.wf(),
            r.model() == MapModel::<K::V, V::V>::empty(),
            r.pending() == Seq::<MapOp<K, V>>::empty(),
            r.actor_id() == 0,
    {
        let r = SyncedMap { slots: Vec::new(), actor: 0, tape: Vec::new() };
        proof {
            lemma_slots_empty::<K, V>();
        }
        r
    }

    /// Finds the slot holding `key`, if any.
    fn find_key(&self, key: &K) -> (r: (usize, bool))
        ensures
            r.1 ==> r.0 < self.slots@.len() && self.slots@[r.0 as int].key@ == key@,
            !r.1 ==> forall|i: int|
                0 <= i < self.slots@.len() ==> (#[trigger] self.slots@[i]).key@ != key@,
    {
        let mut i: usize = 0;
        while i < self.slots.len()
            invariant
                i <= self.slots@.len(),
                forall|j: int| 0 <= j < i ==> (#[trigger] self.slots@[j]).key@ != key@,
            decreases self.slots@.len() - i,
        {
            if self.slots[i].key.key_eq(key) {
                return (i, true);
            }
            i = i + 1;
        }
        (i, false)
    }

    /// Reads one surviving value for `key`: the one with the least writer
    /// stamp, or nothing when the key was never written.
    pub fn get(&self, key: &K) -> (r: Option<V>)
        requires
            self.wf(),
        ensures
            r is Some <==> self.model().regs.contains_key(key@),
            r is Some ==> exists|e: RegView<V::V>|
                #[trigger] is_min_dot(self.model().regs[key@], e) && r->Some_0@ == e.val,
    {
        let (k, found) = self.find_key(key);
        if !found {
            proof {
                lemma_slots_absent(self.slots@, key@);
            }
            return None;
        }
        proof {
            lemma_slots_at(self.slots@, key@, k as int);
        }
        let b = reg_min_index(&self.slots[k].reg);
        let v = self.slots[k].reg[b].val.dup();
        proof {
            let s = self.slots@[k as int].reg@;
            let e = s[b as int]@;
            assert(reg_has_at(s, e, b as int));
            assert forall|f: RegView<V::V>| #[trigger] reg_view(s).contains(f) implies dot_le(
                e,
                f,
            ) by {
                let i = choose|i: int| reg_has_at(s, f, i);
                assert(reg_has_at(s, f, i));
            }
            assert(is_min_dot(self.model().regs[key@], e) && v@ == e.val);
        }
        Some(v)
    }

    /// Merges one remote write into local state.
    #[verifier::loop_isolation(false)]
    #[verifier::rlimit(60)]
    fn apply_one(&mut self, op: &MapOp<K, V>)
        requires
            old(self).wf(),
            map_op_ok(*op),
        ensures
            final(self).wf(),
            final(self).actor_id() == old(self).actor_id(),
            final(self).pending() == old(self).pending(),
            final(self).model() == map_step(old(self).model(), op@),
    {
        let ghost s0 = self.slots@;
        let ghost m0 = slots_model(s0);
        let ghost ev = op@.entry;
        let (k, found) = self.find_key(&op.key);
        if !found {
            let e = RegEntry {
                actor: op.actor,
                n: op.n,
                clock: op.clock.dup(),
                val: op.val.dup(),
            };
            let mut nr: Vec<RegEntry<V>> = Vec::new();
            nr.push(e);
            let key_c = op.key.dup();
            self.slots.push(MapSlot { key: key_c, reg: nr });
            proof {
                assert forall|i: int| !slot_has_at(s0, op.key@, i) by {}
                lemma_slots_absent(s0, op.key@);
                let slot2 = self.slots@.last();
                assert(self.slots@ == s0.push(slot2));
                lemma_slots_push(s0, slot2);
                let rv = reg_view(slot2.reg@);
                assert(slot2.reg@[0]@ == ev);
                assert_sets_equal!(rv, Set::empty().insert(ev), x => {
                    if rv.contains(x) {
                        let i = choose|i: int| reg_has_at(slot2.reg@, x, i);
                        assert(reg_has_at(slot2.reg@, x, i));
                    }
                    if x == ev {
                        assert(reg_has_at(slot2.reg@, ev, 0));
                    }
                });
                let reg0v = reg_of(m0, op.key@);
                assert(reg0v =~= Set::<RegView<V::V>>::empty());
                assert(!reg_dup(reg0v, ev)) by {
                    if reg_dup(reg0v, ev) {
                        let fv = choose|fv: RegView<V::V>|
                            #[trigger] reg0v.contains(fv) && fv.actor == ev.actor && fv.n == ev.n;
                        assert(reg0v.contains(fv));
                    }
                }
                assert(!reg_dominated(reg0v, ev)) by {
                    if reg_dominated(reg0v, ev) {
                        let fv = choose|fv: RegView<V::V>|
                            #[trigger] reg0v.contains(fv) && vc_lt(ev.clock, fv.clock);
                        assert(reg0v.contains(fv));
                    }
                }
                assert_sets_equal!(reg_survivors(reg0v, ev), Set::<RegView<V::V>>::empty(), x => {
                    if reg_survivors(reg0v, ev).contains(x) {
                        assert(reg0v.contains(x));
                    }
                });
                assert(reg_step(reg0v, ev) == Set::empty().insert(ev));
                assert(self.model() == map_step(m0, op@));
                assert(reg_wf(slot2.reg@));
                assert forall|i: int|
                    0 <= i < self.slots@.len() implies reg_wf(
                    (#[trigger] self.slots@[i]).reg@,
                ) by {
                    if i < s0.len() {
                        assert(self.slots@[i] == s0[i]);
                    }
                }
            }
            return ;
        }
        proof {
            lemma_slots_at(s0, op.key@, k as int);
        }
        let ghost reg0 = s0[k as int].reg@;
        let ghost reg0v = reg_view(reg0);

        // first pass: is the write already present, or strictly dominated?
        let mut dup = false;
        let mut dom = false;
        let mut i: usize = 0;
        while i < self.slots[k].reg.len()
            invariant
                i <= reg0.len(),
                dup == (exists|i2: int|
                    0 <= i2 < i && (#[trigger] reg0[i2])@.actor == ev.actor && reg0[i2]@.n
                        == ev.n),
                dom == (exists|i2: int|
                    0 <= i2 < i && vc_lt(ev.clock, (#[trigger] reg0[i2])@.clock)),
            decreases reg0.len() - i,
        {
            let same_dot = self.slots[k].reg[i].actor == op.actor && self.slots[k].reg[i].n
                == op.n;
            let ghost dup0 = dup;
            let ghost dom0 = dom;
            if same_dot {
                dup = true;
            }
            let below = op.clock.lt(&self.slots[k].reg[i].clock);
            if below {
                dom = true;
            }
            proof {
                if dup {
                    if same_dot {
                        assert(reg0[i as int]@.actor == ev.actor && reg0[i as int]@.n == ev.n);
                    } else {
                        let w = choose|i2: int|
                            0 <= i2 < i && (#[trigger] reg0[i2])@.actor == ev.actor && reg0[i2]@.n
                                == ev.n;
                        assert(0 <= w < i + 1 && reg0[w]@.actor == ev.actor && reg0[w]@.n
                            == ev.n);
                    }
                } else {
                    assert forall|i2: int|
                        0 <= i2 < i + 1 implies !((#[trigger] reg0[i2])@.actor == ev.actor
                        && reg0[i2]@.n == ev.n) by {}
                }
                if dom {
                    if below {
                        assert(vc_lt(ev.clock, reg0[i as int]@.clock));
                    } else {
                        let w = choose|i2: int|
                            0 <= i2 < i && vc_lt(ev.clock, (#[trigger] reg0[i2])@.clock);
                        assert(0 <= w < i + 1 && vc_lt(ev.clock, reg0[w]@.clock));
                    }
                } else {
                    assert forall|i2: int|
                        0 <= i2 < i + 1 implies !vc_lt(ev.clock, (#[trigger] reg0[i2])@.clock) by {}
                }
            }
            i = i + 1;
        }
        proof {
            assert(dup == reg_dup(reg0v, ev)) by {
                if dup {
                    let i2 = choose|i2: int|
                        0 <= i2 < reg0.len() && (#[trigger] reg0[i2])@.actor == ev.actor
                            && reg0[i2]@.n == ev.n;
                    assert(reg_has_at(reg0, reg0[i2]@, i2));
                    assert(reg0v.contains(reg0[i2]@));
                }
                if reg_dup(reg0v, ev) {
                    let fv = choose|fv: RegView<V::V>|
                        #[trigger] reg0v.contains(fv) && fv.actor == ev.actor && fv.n == ev.n;
                    let i2 = choose|i2: int| reg_has_at(reg0, fv, i2);
                    assert(reg_has_at(reg0, fv, i2));
                }
            }
            assert(dom == reg_dominated(reg0v, ev)) by {
                if dom {
                    let i2 = choose|i2: int|
                        0 <= i2 < reg0.len() && vc_lt(ev.clock, (#[trigger] reg0[i2])@.clock);
                    assert(reg_has_at(reg0, reg0[i2]@, i2));
                    assert(reg0v.contains(reg0[i2]@));
                }
                if reg_dominated(reg0v, ev) {
                    let fv = choose|fv: RegView<V::V>|
                        #[trigger] reg0v.contains(fv) && vc_lt(ev.clock, fv.clock);
                    let i2 = choose|i2: int| reg_has_at(reg0, fv, i2);
                    assert(reg_has_at(reg0, fv, i2));
                }
            }
        }
        if dup {
            proof {
                assert(reg_step(reg0v, ev) == reg0v);
                let mm = map_step(m0, op@);
                assert_maps_equal!(mm.regs, m0.regs, kv => {});
                assert(self.model() == map_step(m0, op@));
            }
            return ;
        }

        // second pass: keep the survivors, then add the write unless it is
        // itself superseded
        let mut nr: Vec<RegEntry<V>> = Vec::new();
        let mut i: usize = 0;
        while i < self.slots[k].reg.len()
            invariant
                i <= reg0.len(),
                reg_view(nr@) == surv_set(reg0, i as int, ev.clock),
                forall|p: int|
                    0 <= p < nr@.len() ==> (#[trigger] nr@[p]).clock.wf() && vc_get(
                        nr@[p].clock@,
                        nr@[p].actor,
                    ) == nr@[p].n && nr@[p].n >= 1,
                forall|p: int, q: int|
                    #![trigger nr@[p], nr@[q]]
                    0 <= p < nr@.len() && 0 <= q < nr@.len() && p != q ==> !(nr@[p].actor
                        == nr@[q].actor && nr@[p].n == nr@[q].n) && !vc_lt(
                        nr@[p].clock@,
                        nr@[q].clock@,
                    ),
                forall|p: int|
                    0 <= p < nr@.len() ==> exists|i2: int|
                        0 <= i2 < reg0.len() && #[trigger] nr@[p]@ == reg0[i2]@,
            decreases reg0.len() - i,
        {
            let ghost nr0 = nr@;
            let keep = !self.slots[k].reg[i].clock.lt(&op.clock);
            proof {
                lemma_surv_set_step(reg0, i as int, ev.clock);
            }
            if keep {
                let src = &self.slots[k].reg[i];
                let e2 = RegEntry {
                    actor: src.actor,
                    n: src.n,
                    clock: src.clock.dup(),
                    val: src.val.dup(),
                };
                proof {
                    assert(e2@ == reg0[i as int]@);
                    assert forall|p: int|
                        0 <= p < nr0.len() implies !(nr0[p].actor == e2.actor && nr0[p].n == e2.n)
                        && !vc_lt(nr0[p].clock@, e2.clock@) && !vc_lt(e2.clock@, nr0[p].clock@) by {
                        let i2 = choose|i2: int|
                            0 <= i2 < reg0.len() && #[trigger] nr0[p]@ == reg0[i2]@;
                        assert(0 <= i2 < reg0.len() && nr0[p]@ == reg0[i2]@);
                        if i2 != i as int {
                            assert(!(reg0[i2].actor == reg0[i as int].actor && reg0[i2].n
                                == reg0[i as int].n));
                            assert(!vc_lt(reg0[i2]@.clock, reg0[i as int]@.clock));
                            assert(!vc_lt(reg0[i as int]@.clock, reg0[i2]@.clock));
                        } else {
                            // the same entry cannot already be kept: its
                            // denotation would stand twice in the survivor set
                            assert(reg_view(nr0).contains(nr0[p]@)) by {
                                assert(reg_has_at(nr0, nr0[p]@, p));
                            }
                            assert(surv_set(reg0, i as int, ev.clock).contains(nr0[p]@));
                            let j = choose|j: int|
                                0 <= j < i && #[trigger] reg0[j]@ == nr0[p]@ && !vc_lt(
                                    nr0[p]@.clock,
                                    ev.clock,
                                );
                            assert(0 <= j < i && reg0[j]@ == reg0[i as int]@);
                            assert(!(reg0[j].actor == reg0[i as int].actor && reg0[j].n
                                == reg0[i as int].n));
                            assert(false);
                        }
                    }
                }
                nr.push(e2);
                proof {
                    lemma_reg_view_push(nr0, e2);
                    assert(reg_view(nr@) == surv_set(reg0, i as int, ev.clock).insert(
                        reg0[i as int]@,
                    ));
                    assert forall|p: int|
                        0 <= p < nr@.len() implies exists|i2: int|
                        0 <= i2 < reg0.len() && #[trigger] nr@[p]@ == reg0[i2]@ by {
                        if p == nr0.len() {
                            assert(nr@[p]@ == reg0[i as int]@);
                        } else {
                            assert(nr@[p] == nr0[p]);
                            let i2 = choose|i2: int|
                                0 <= i2 < reg0.len() && #[trigger] nr0[p]@ == reg0[i2]@;
                            assert(0 <= i2 < reg0.len() && nr@[p]@ == reg0[i2]@);
                        }
                    }
                }
            } else {
                proof {
                    assert(vc_lt(reg0[i as int]@.clock, ev.clock));
                }
            }
            i = i + 1;
        }
        let ghost kept = nr@;
        proof {
            assert(surv_set(reg0, reg0.len() as int, ev.clock) == reg_survivors(reg0v, ev)) by {
                lemma_surv_set_full(reg0, ev.clock, ev);
            }
            assert(reg_view(kept) == reg_survivors(reg0v, ev));
        }
        if !dom {
            let e = RegEntry {
                actor: op.actor,
                n: op.n,
                clock: op.clock.dup(),
                val: op.val.dup(),
            };
            proof {
                assert(e@ == ev);
                assert forall|p: int|
                    0 <= p < kept.len() implies !(kept[p].actor == e.actor && kept[p].n == e.n)
                    && !vc_lt(kept[p].clock@, e.clock@) && !vc_lt(e.clock@, kept[p].clock@) by {
                    assert(reg_view(kept).contains(kept[p]@)) by {
                        assert(reg_has_at(kept, kept[p]@, p));
                    }
                    assert(reg0v.contains(kept[p]@));
                    assert(!vc_lt(kept[p]@.clock, ev.clock));
                }
            }
            nr.push(e);
            proof {
                lemma_reg_view_push(kept, e);
            }
        }
        proof {
            // the register cannot come out empty
            if dom {
                let i2 = choose|i2: int|
                    0 <= i2 < reg0.len() && vc_lt(ev.clock, (#[trigger] reg0[i2])@.clock);
                assert(!vc_lt(reg0[i2]@.clock, ev.clock));
                assert(reg_has_at(reg0, reg0[i2]@, i2));
                assert(reg0v.contains(reg0[i2]@));
                assert(reg_view(kept).contains(reg0[i2]@));
                let p = choose|p: int| reg_has_at(kept, reg0[i2]@, p);
                assert(reg_has_at(kept, reg0[i2]@, p));
            }
            assert(nr@.len() >= 1);
        }
        self.slots[k].reg = nr;
        proof {
            let slot2 = self.slots@[k as int];
            assert(self.slots@ == s0.update(k as int, slot2));
            lemma_slots_set(s0, k as int, slot2);
            if dom {
                assert(reg_view(slot2.reg@) == reg_survivors(reg0v, ev));
                assert(reg_view(slot2.reg@) == reg_step(reg0v, ev));
            } else {
                assert(reg_view(slot2.reg@) == reg_survivors(reg0v, ev).insert(ev));
                assert(reg_view(slot2.reg@) == reg_step(reg0v, ev));
            }
            assert(self.model() == map_step(m0, op@));
            assert(reg_wf(slot2.reg@));
            assert forall|i2: int|
                0 <= i2 < self.slots@.len() implies reg_wf(
                (#[trigger] self.slots@[i2]).reg@,
            ) by {
                if i2 != k as int {
                    assert(self.slots@[i2] == s0[i2]);
                }
            }
        }
    }

    /// Writes `key`: reads the current value (the default when the key was
    /// never written), applies `f` to it, and commits the result as a write
    /// qualified by the causal context observed for the key, applied locally
    /// and recorded on the tape.  The write strictly dominates every
    /// surviving entry, so a subsequent local read returns it.
    #[verifier::loop_isolation(false)]
    pub fn update<F: FnOnce(V) -> V>(&mut self, key: K, f: F)
        requires
            old(self).wf(),
            forall|v: V|
                read_ok(old(self).model(), key@, V::default_view(), v@) ==> call_requires(
                    f,
                    (v,),
                ),
            forall|e: RegView<V::V>|
                old(self).model().regs.contains_key(key@) && #[trigger] old(
                    self,
                ).model().regs[key@].contains(e) ==> vc_get(e.clock, old(self).actor_id())
                    < u64::MAX,
        ensures
            final(self).wf(),
            final(self).actor_id() == old(self).actor_id(),
            final(self).pending().len() == old(self).pending().len() + 1,
            final(self).pending().take(old(self).pending().len() as int) == old(self).pending(),
            ({
                let op = final(self).pending().last();
                &&& op.key@ == key@
                &&& map_op_ok(op)
                &&& op.actor == old(self).actor_id()
                &&& exists|v: V|
                    #[trigger] read_ok(old(self).model(), key@, V::default_view(), v@)
                        && call_ensures(f, (v,), op.val)
                &&& final(self).model() == map_step(old(self).model(), op@)
                &&& final(self).model().regs[key@] == Set::empty().insert(op@.entry)
            }),
    {
        let ghost s0 = self.slots@;
        let ghost m0 = slots_model(s0);
        let (k, found) = self.find_key(&key);
        let ghost mut b0: int = 0;
        let cur: V = if found {
            proof {
                lemma_slots_at(s0, key@, k as int);
            }
            let b = reg_min_index(&self.slots[k].reg);
            proof {
                b0 = b as int;
            }
            self.slots[k].reg[b].val.dup()
        } else {
            proof {
                lemma_slots_absent(s0, key@);
            }
            V::val_default()
        };
        proof {
            if found {
                let s = s0[k as int].reg@;
                let e = s[b0]@;
                assert(reg_has_at(s, e, b0));
                assert forall|f: RegView<V::V>| #[trigger] reg_view(s).contains(f) implies dot_le(
                    e,
                    f,
                ) by {
                    let i = choose|i: int| reg_has_at(s, f, i);
                    assert(reg_has_at(s, f, i));
                }
                assert(is_min_dot(m0.regs[key@], e) && e.val == cur@);
            }
            assert(read_ok(m0, key@, V::default_view(), cur@));
        }
        let ghost vread = cur;
        let w = f(cur);

        // join the observed contexts, then stamp the write
        let mut ck = VClock::new();
        if found {
            let ghost reg0 = s0[k as int].reg@;
            let mut j: usize = 0;
            while j < self.slots[k].reg.len()
                invariant
                    j <= reg0.len(),
                    ck.wf(),
                    vc_get(ck@, self.actor) < u64::MAX,
                    forall|i2: int|
                        0 <= i2 < j ==> vc_le((#[trigger] reg0[i2])@.clock, ck@),
                decreases reg0.len() - j,
            {
                proof {
                    assert(reg_has_at(reg0, reg0[j as int]@, j as int));
                    lemma_slots_at(s0, key@, k as int);
                    assert(old(self).model() == m0);
                    assert(old(self).model().regs.contains_key(key@));
                    assert(old(self).model().regs[key@].contains(reg0[j as int]@));
                    assert(vc_get(reg0[j as int]@.clock, self.actor) < u64::MAX);
                }
                ck.join(&self.slots[k].reg[j].clock);
                proof {
                    assert forall|i2: int|
                        0 <= i2 < j + 1 implies vc_le((#[trigger] reg0[i2])@.clock, ck@) by {
                        assert forall|a: u64|
                            #![trigger vc_get(reg0[i2]@.clock, a)]
                            vc_get(reg0[i2]@.clock, a) <= vc_get(ck@, a) by {}
                    }
                }
                j = j + 1;
            }
        }
        let cnt = ck.get(self.actor);
        let n_new = cnt + 1;
        ck.raise(self.actor, n_new);
        proof {
            assert(vc_get(ck@, self.actor) == n_new);
        }

        let entry = RegEntry { actor: self.actor, n: n_new, clock: ck.dup(), val: w.dup() };
        let ghost ev = entry@;
        let mut nr: Vec<RegEntry<V>> = Vec::new();
        nr.push(entry);
        proof {
            // the new register denotes the singleton of the write
            let rv = reg_view(nr@);
            assert_sets_equal!(rv, Set::empty().insert(ev), x => {
                if rv.contains(x) {
                    let i = choose|i: int| reg_has_at(nr@, x, i);
                    assert(reg_has_at(nr@, x, i));
                }
                if x == ev {
                    assert(reg_has_at(nr@, ev, 0));
                }
            });
        }
        if found {
            self.slots[k].reg = nr;
        } else {
            let key_c = key.dup();
            self.slots.push(MapSlot { key: key_c, reg: nr });
        }
        self.tape.push(MapOp { key, actor: self.actor, n: n_new, clock: ck, val: w });
        proof {
            let op = self.tape@.last();
            assert(self.tape@.take(old(self).tape@.len() as int) =~= old(self).tape@);
            assert(op@.entry == ev);
            assert(read_ok(m0, key@, V::default_view(), vread@) && call_ensures(
                f,
                (vread,),
                op.val,
            ));

            let reg0v = reg_of(m0, key@);
            // survivors of the write: none
            assert forall|fv: RegView<V::V>| #[trigger] reg0v.contains(fv) implies vc_lt(
                fv.clock,
                ev.clock,
            ) by {
                let reg0 = s0[k as int].reg@;
                let i = choose|i: int| reg_has_at(reg0, fv, i);
                assert(reg_has_at(reg0, fv, i));
                assert(vc_le(fv.clock, ev.clock)) by {
                    assert forall|a: u64|
                        #![trigger vc_get(fv.clock, a)]
                        vc_get(fv.clock, a) <= vc_get(ev.clock, a) by {
                        assert(vc_le(reg0[i]@.clock, ck@));
                        assert(vc_get(fv.clock, a) <= vc_get(ck@, a));
                    }
                }
                assert(vc_get(fv.clock, self.actor) <= cnt);
                assert(!vc_le(ev.clock, fv.clock)) by {
                    assert(vc_get(ev.clock, self.actor) == n_new);
                }
            }
            assert(!reg_dup(reg0v, ev)) by {
                if reg_dup(reg0v, ev) {
                    let fv = choose|fv: RegView<V::V>|
                        #[trigger] reg0v.contains(fv) && fv.actor == ev.actor && fv.n == ev.n;
                    let reg0 = s0[k as int].reg@;
                    let i = choose|i: int| reg_has_at(reg0, fv, i);
                    assert(reg_has_at(reg0, fv, i));
                    assert(fv.n == vc_get(fv.clock, fv.actor));
                    assert(vc_get(fv.clock, self.actor) <= cnt);
                }
            }
            assert(!reg_dominated(reg0v, ev)) by {
                if reg_dominated(reg0v, ev) {
                    let fv = choose|fv: RegView<V::V>|
                        #[trigger] reg0v.contains(fv) && vc_lt(ev.clock, fv.clock);
                    assert(vc_lt(fv.clock, ev.clock));
                }
            }
            let surv = reg_survivors(reg0v, ev);
            assert_sets_equal!(surv, Set::<RegView<V::V>>::empty(), x => {
                if surv.contains(x) {
                    assert(reg0v.contains(x));
                    assert(vc_lt(x.clock, ev.clock));
                }
            });
            assert(reg_step(reg0v, ev) == Set::empty().insert(ev));

            // the model takes the new register at the written key
            if found {
                let slot2 = self.slots@[k as int];
                assert(self.slots@ == s0.update(k as int, slot2));
                lemma_slots_set(s0, k as int, slot2);
            } else {
                let slot2 = self.slots@.last();
                assert(self.slots@ == s0.push(slot2));
                lemma_slots_push(s0, slot2);
            }
            assert(self.model() == map_step(m0, op@));
            assert(self.model().regs[key@] == Set::empty().insert(op@.entry));

            // well-formedness of the new register
            let nreg = (if found {
                self.slots@[k as int]
            } else {
                self.slots@.last()
            }).reg@;
            assert(nreg.len() == 1);
            assert(nreg[0]@ == ev);
            assert(reg_wf(nreg));
            assert forall|i: int|
                0 <= i < self.slots@.len() implies reg_wf(
                (#[trigger] self.slots@[i]).reg@,
            ) by {
                if found {
                    if i != k as int {
                        assert(self.slots@[i] == s0[i]);
                    }
                } else {
                    if i < s0.len() {
                        assert(self.slots@[i] == s0[i]);
                    }
                }
            }
        }
    }
}

/// The model after applying each operation of `ops`, in order, to `m`.
pub open spec fn map_fold<K: MapKey, V: MapVal>(
    m: MapModel<K::V, V::V>,
    ops: Seq<MapOp<K, V>>,
) -> MapModel<K::V, V::V>
    decreases ops.len(),
{
    if ops.len() == 0 {
        m
    } else {
        map_fold(map_step(m, ops[0]@), ops.drop_first())
    }
}

/// Folding one more operation at the end applies it to the folded model.
pub proof fn lemma_map_fold_push<K: MapKey, V: MapVal>(
    m: MapModel<K::V, V::V>,
    ops: Seq<MapOp<K, V>>,
    op: MapOp<K, V>,
)
    ensures
        map_fold(m, ops.push(op)) == map_step(map_fold(m, ops), op@),
    decreases ops.len(),
{
    let s = ops.push(op);
    if ops.len() == 0 {
        assert(s.drop_first() =~= Seq::<MapOp<K, V>>::empty());
        assert(s[0] == op);
        assert(map_fold(m, s) == map_fold(map_step(m, op@), s.drop_first()));
    } else {
        assert(s.drop_first() =~= ops.drop_first().push(op));
        assert(s[0] == ops[0]);
        assert(map_fold(m, s) == map_fold(map_step(m, ops[0]@), s.drop_first()));
        lemma_map_fold_push(map_step(m, ops[0]@), ops.drop_first(), op);
    }
}

/// Checks the internal consistency of a map operation.
#[verifier::loop_isolation(false)]
fn map_op_check<K: MapKey, V: MapVal>(op: &MapOp<K, V>) -> (r: bool)
    ensures
        r == map_op_ok(*op),
{
    if op.n == 0 {
        return false;
    }
    let mut i: usize = 1;
    while i < op.clock.entries.len()
        invariant
            1 <= i,
            op.clock.entries@.len() > 0 ==> i <= op.clock.entries@.len(),
            forall|p: int, q: int|
                #![trigger op.clock.entries@[p].actor, op.clock.entries@[q].actor]
                0 <= p < q < i ==> op.clock.entries@[p].actor < op.clock.entries@[q].actor,
        decreases op.clock.entries@.len() - i,
    {
        if op.clock.entries[i - 1].actor >= op.clock.entries[i].actor {
            return false;
        }
        proof {
            assert forall|p: int, q: int|
                #![trigger op.clock.entries@[p].actor, op.clock.entries@[q].actor]
                0 <= p < q < i + 1 implies op.clock.entries@[p].actor
                < op.clock.entries@[q].actor by {
                if q == i as int && p < i - 1 {
                    assert(op.clock.entries@[p].actor < op.clock.entries@[i - 1].actor);
                }
            }
        }
        i = i + 1;
    }
    proof {
        assert(op.clock.wf());
    }
    let own = op.clock.get(op.actor);
    own == op.n
}

impl<K: MapKey, V: MapVal> Taped for SyncedMap<K, V> {
    type Operation = MapOp<K, V>;

    type Model = MapModel<K::V, V::V>;

    open spec fn inv(&self) -> bool {
        self.wf()
    }

    open spec fn model(&self) -> MapModel<K::V, V::V> {
        SyncedMap::model(self)
    }

    open spec fn pending(&self) -> Seq<MapOp<K, V>> {
        SyncedMap::pending(self)
    }

    open spec fn op_ok(op: MapOp<K, V>) -> bool {
        map_op_ok(op)
    }

    open spec fn step(m: MapModel<K::V, V::V>, op: MapOp<K, V>) -> MapModel<K::V, V::V> {
        map_step(m, op@)
    }

    open spec fn fold(m: MapModel<K::V, V::V>, ops: Seq<MapOp<K, V>>) -> MapModel<K::V, V::V> {
        map_fold(m, ops)
    }

    proof fn fold_unfolds(m: MapModel<K::V, V::V>, ops: Seq<MapOp<K, V>>) {
    }

    fn replay(&mut self, tape: Vec<MapOp<K, V>>) -> (r: Result<(), SyncError>) {
        let mut i: usize = 0;
        while i < tape.len()
            invariant
                i <= tape@.len(),
                *self == *old(self),
                old(self).wf(),
                forall|j: int| 0 <= j < i ==> map_op_ok(#[trigger] tape@[j]),
            decreases tape@.len() - i,
        {
            if !map_op_check(&tape[i]) {
                proof {
                    assert(!(forall|j: int|
                        0 <= j < tape@.len() ==> #[trigger] Self::op_ok(tape@[j]))) by {
                        assert(!Self::op_ok(tape@[i as int]));
                    }
                }
                return Err(SyncError::MalformedOperation);
            }
            i = i + 1;
        }
        let ghost m0 = SyncedMap::model(self);
        let mut i: usize = 0;
        while i < tape.len()
            invariant
                i <= tape@.len(),
                self.wf(),
                forall|j: int| 0 <= j < tape@.len() ==> map_op_ok(#[trigger] tape@[j]),
                self.actor_id() == old(self).actor_id(),
                SyncedMap::pending(self) == SyncedMap::pending(old(self)),
                SyncedMap::model(self) == map_fold(m0, tape@.take(i as int)),
                m0 == SyncedMap::model(old(self)),
            decreases tape@.len() - i,
        {
            self.apply_one(&tape[i]);
            proof {
                lemma_map_fold_push(m0, tape@.take(i as int), tape@[i as int]);
                assert(tape@.take(i as int + 1) =~= tape@.take(i as int).push(tape@[i as int]));
            }
            i = i + 1;
        }
        proof {
            assert(tape@.take(tape@.len() as int) =~= tape@);
        }
        Ok(())
    }

    fn tape(&mut self) -> (r: Vec<MapOp<K, V>>) {
        let mut out: Vec<MapOp<K, V>> = Vec::new();
        core::mem::swap(&mut self.tape, &mut out);
        out
    }
}

impl<K: MapKey, V: MapVal> SyncedMap<K, V> {
    /// Forks this replica: the copy carries the same state under the next
    /// actor identifier, with an empty tape.
    #[verifier::loop_isolation(false)]
    pub fn fork(&self) -> (r: SyncedMap<K, V>)
        requires
            self.wf(),
            self.actor_id() < u64::MAX,
        ensures
            r.wf(),
            r.model() == self.model(),
            r.actor_id() == self.actor_id() + 1,
            r.pending() == Seq::<MapOp<K, V>>::empty(),
    {
        let mut slots: Vec<MapSlot<K, V>> = Vec::new();
        let mut i: usize = 0;
        while i < self.slots.len()
            invariant
                i <= self.slots@.len(),
                slots@.len() == i,
                forall|j: int|
                    0 <= j < i ==> (#[trigger] slots@[j]).key@ == self.slots@[j].key@
                        && reg_view(slots@[j].reg@) == reg_view(self.slots@[j].reg@) && reg_wf(
                        slots@[j].reg@,
                    ),
            decreases self.slots@.len() - i,
        {
            let mut reg: Vec<RegEntry<V>> = Vec::new();
            let mut j: usize = 0;
            while j < self.slots[i].reg.len()
                invariant
                    i < self.slots@.len(),
                    j <= self.slots@[i as int].reg@.len(),
                    reg@.len() == j,
                    forall|p: int|
                        0 <= p < j ==> (#[trigger] reg@[p])@ == self.slots@[i as int].reg@[p]@
                            && reg@[p].clock.wf(),
                decreases self.slots@[i as int].reg@.len() - j,
            {
                let src = &self.slots[i].reg[j];
                reg.push(
                    RegEntry {
                        actor: src.actor,
                        n: src.n,
                        clock: src.clock.dup(),
                        val: src.val.dup(),
                    },
                );
                j = j + 1;
            }
            let ghost orig = self.slots@[i as int].reg@;
            proof {
                let a = reg_view(reg@);
                let b = reg_view(orig);
                assert_sets_equal!(a, b, x => {
                    if a.contains(x) {
                        let p = choose|p: int| reg_has_at(reg@, x, p);
                        assert(reg_has_at(reg@, x, p));
                        assert(reg_has_at(orig, x, p));
                    }
                    if b.contains(x) {
                        let p = choose|p: int| reg_has_at(orig, x, p);
                        assert(reg_has_at(orig, x, p));
                        assert(reg_has_at(reg@, x, p));
                    }
                });
                assert(reg_wf(reg@)) by {
                    assert forall|p: int|
                        0 <= p < reg@.len() implies (#[trigger] reg@[p]).clock.wf() && vc_get(
                        reg@[p].clock@,
                        reg@[p].actor,
                    ) == reg@[p].n && reg@[p].n >= 1 by {
                        assert(reg@[p]@ == orig[p]@);
                    }
                    assert forall|p: int, q: int|
                        #![trigger reg@[p], reg@[q]]
                        0 <= p < reg@.len() && 0 <= q < reg@.len() && p != q implies !(
                        reg@[p].actor == reg@[q].actor && reg@[p].n == reg@[q].n) && !vc_lt(
                            reg@[p].clock@,
                            reg@[q].clock@,
                        ) by {
                        assert(reg@[p]@ == orig[p]@ && reg@[q]@ == orig[q]@);
                    }
                }
            }
            let key_c = self.slots[i].key.dup();
            slots.push(MapSlot { key: key_c, reg });
            i = i + 1;
        }
        let r = SyncedMap { slots, actor: self.actor + 1, tape: Vec::new() };
        proof {
            assert(keys_distinct(r.slots@)) by {
                assert forall|a: int, b: int|
                    #![trigger r.slots@[a].key@, r.slots@[b].key@]
                    0 <= a < r.slots@.len() && 0 <= b < r.slots@.len() && a != b implies r.slots@[a].key@
                    != r.slots@[b].key@ by {
                    assert(self.slots@[a].key@ != self.slots@[b].key@);
                }
            }
            let m1 = slots_model(r.slots@).regs;
            let m2 = slots_model(self.slots@).regs;
            assert_maps_equal!(m1, m2, kv => {
                if m1.contains_key(kv) {
                    let a = choose|a: int| slot_has_at(r.slots@, kv, a);
                    assert(slot_has_at(r.slots@, kv, a));
                    assert(slot_has_at(self.slots@, kv, a));
                    lemma_slots_at(r.slots@, kv, a);
                    lemma_slots_at(self.slots@, kv, a);
                }
                if m2.contains_key(kv) {
                    let a = choose|a: int| slot_has_at(self.slots@, kv, a);
                    assert(slot_has_at(self.slots@, kv, a));
                    assert(slot_has_at(r.slots@, kv, a));
                }
            });
        }
        r
    }
}

/// Every register of a well-formed replica is free of repeated writer
/// stamps, so its least-stamped entry is unique.
pub proof fn lemma_map_registers_distinct<K: MapKey, V: MapVal>(m: &SyncedMap<K, V>, kv: K::V)
    requires
        m.wf(),
        m.model().regs.contains_key(kv),
    ensures
        reg_dots_distinct(m.model().regs[kv]),
{
    let i = choose|i: int| slot_has_at(m.slots@, kv, i);
    assert(slot_has_at(m.slots@, kv, i));
    lemma_slots_at(m.slots@, kv, i);
    lemma_reg_distinct(m.slots@[i].reg@);
}

/// Replicas holding the same model read every key the same way: the read
/// rule picks the unique least-stamped survivor, whatever order the stores
/// were assembled in.
pub proof fn lemma_map_reads_converge<K: MapKey, V: MapVal>(
    a: &SyncedMap<K, V>,
    b: &SyncedMap<K, V>,
    kv: K::V,
    e1: RegView<V::V>,
    e2: RegView<V::V>,
)
    requires
        a.wf(),
        b.wf(),
        a.model() == b.model(),
        a.model().regs.contains_key(kv),
        is_min_dot(a.model().regs[kv], e1),
        is_min_dot(b.model().regs[kv], e2),
    ensures
        e1 == e2,
{
    lemma_map_registers_distinct(a, kv);
    lemma_min_dot_unique(a.model().regs[kv], e1, e2);
}

/// Applying the same map operation twice leaves the same model as applying
/// it once.
pub proof fn lemma_map_apply_idempotent<KV, VV>(m: MapModel<KV, VV>, op: MapOpView<KV, VV>)
    ensures
        map_step(map_step(m, op), op) == map_step(m, op),
{
    let e = op.entry;
    let reg0 = reg_of(m, op.key);
    let reg1 = reg_step(reg0, e);
    let m1 = map_step(m, op);
    assert(reg_of(m1, op.key) == reg1);
    if reg_dup(reg0, e) {
        assert(reg1 == reg0);
    } else if reg_dominated(reg0, e) {
        let f = choose|f: RegView<VV>| #[trigger] reg0.contains(f) && vc_lt(e.clock, f.clock);
        assert(reg0.contains(f) && vc_lt(e.clock, f.clock));
        assert(!vc_lt(f.clock, e.clock));
        assert(reg1.contains(f));
        assert(reg_dominated(reg1, e));
        assert(!reg_dup(reg1, e)) by {
            if reg_dup(reg1, e) {
                let g = choose|g: RegView<VV>|
                    #[trigger] reg1.contains(g) && g.actor == e.actor && g.n == e.n;
                assert(reg1.contains(g));
                assert(reg0.contains(g));
            }
        }
        assert(reg_step(reg1, e) =~= reg1) by {
            assert forall|x: RegView<VV>| #[trigger] reg_survivors(reg1, e).contains(
                x,
            ) <==> reg1.contains(x) by {
                if reg1.contains(x) {
                    assert(reg0.contains(x) && !vc_lt(x.clock, e.clock));
                }
            }
        }
    } else {
        assert(reg1.contains(e));
        assert(reg_dup(reg1, e));
    }
    assert(reg_step(reg1, e) == reg1);
    let m2 = map_step(m1, op);
    assert(m2.regs =~= m1.regs);
    assert(m2 =~= m1);
}

/// Two map operations cannot be mistaken for one another: distinct writer
/// stamps against each other and against the state, and concurrent contexts
/// unless they are the same operation.  Operations generated concurrently by
/// correct replicas satisfy this.
pub open spec fn map_ops_compat<KV, VV>(
    m: MapModel<KV, VV>,
    op1: MapOpView<KV, VV>,
    op2: MapOpView<KV, VV>,
) -> bool {
    op1.key == op2.key ==> {
        let e1 = op1.entry;
        let e2 = op2.entry;
        let reg0 = reg_of(m, op1.key);
        &&& (e1 == e2 || (!(e1.actor == e2.actor && e1.n == e2.n) && !vc_lt(e1.clock, e2.clock)
            && !vc_lt(e2.clock, e1.clock)))
        &&& forall|f: RegView<VV>|
            #[trigger] reg0.contains(f) && f.actor == e1.actor && f.n == e1.n ==> f == e1
        &&& forall|f: RegView<VV>|
            #[trigger] reg0.contains(f) && f.actor == e2.actor && f.n == e2.n ==> f == e2
    }
}

/// Map operations that cannot be mistaken for one another commute: either
/// order of application yields the same model.
#[verifier::rlimit(60)]
pub proof fn lemma_map_apply_commutes<KV, VV>(
    m: MapModel<KV, VV>,
    op1: MapOpView<KV, VV>,
    op2: MapOpView<KV, VV>,
)
    requires
        map_ops_compat(m, op1, op2),
    ensures
        map_step(map_step(m, op1), op2) == map_step(map_step(m, op2), op1),
{
    let ma = map_step(map_step(m, op1), op2);
    let mb = map_step(map_step(m, op2), op1);
    if op1.key != op2.key {
        assert(reg_of(map_step(m, op1), op2.key) == reg_of(m, op2.key));
        assert(reg_of(map_step(m, op2), op1.key) == reg_of(m, op1.key));
        assert(ma.regs =~= mb.regs);
        assert(ma =~= mb);
        return ;
    }
    let e1 = op1.entry;
    let e2 = op2.entry;
    let reg0 = reg_of(m, op1.key);
    if e1 == e2 {
        assert(ma == mb);
        return ;
    }
    // concurrent distinct writes on one key
    let reg1 = reg_step(reg0, e1);
    let reg2 = reg_step(reg0, e2);
    assert(reg_of(map_step(m, op1), op2.key) == reg1);
    assert(reg_of(map_step(m, op2), op1.key) == reg2);
    let ra = reg_step(reg1, e2);
    let rb = reg_step(reg2, e1);
    let dup1 = reg_dup(reg0, e1);
    let dom1 = reg_dominated(reg0, e1);
    let dup2 = reg_dup(reg0, e2);
    let dom2 = reg_dominated(reg0, e2);

    // a duplicate stamp in the register pins the operation itself
    assert(dup1 ==> reg0.contains(e1)) by {
        if dup1 {
            let g = choose|g: RegView<VV>|
                #[trigger] reg0.contains(g) && g.actor == e1.actor && g.n == e1.n;
            assert(g == e1);
        }
    }
    assert(dup2 ==> reg0.contains(e2)) by {
        if dup2 {
            let g = choose|g: RegView<VV>|
                #[trigger] reg0.contains(g) && g.actor == e2.actor && g.n == e2.n;
            assert(g == e2);
        }
    }

    // what each first application leaves, membership by case
    assert forall|x: RegView<VV>| #[trigger] reg1.contains(x) <==> (if dup1 {
        reg0.contains(x)
    } else if dom1 {
        reg0.contains(x) && !vc_lt(x.clock, e1.clock)
    } else {
        (reg0.contains(x) && !vc_lt(x.clock, e1.clock)) || x == e1
    }) by {}
    assert forall|x: RegView<VV>| #[trigger] reg2.contains(x) <==> (if dup2 {
        reg0.contains(x)
    } else if dom2 {
        reg0.contains(x) && !vc_lt(x.clock, e2.clock)
    } else {
        (reg0.contains(x) && !vc_lt(x.clock, e2.clock)) || x == e2
    }) by {}

    // the flags transfer across the first application
    assert(reg_dup(reg1, e2) == dup2) by {
        if reg_dup(reg1, e2) {
            let g = choose|g: RegView<VV>|
                #[trigger] reg1.contains(g) && g.actor == e2.actor && g.n == e2.n;
            assert(reg1.contains(g));
            assert(g != e1);
            assert(reg0.contains(g));
        }
        if dup2 {
            assert(reg0.contains(e2));
            assert(!vc_lt(e2.clock, e1.clock));
            assert(reg1.contains(e2));
        }
    }
    assert(reg_dup(reg2, e1) == dup1) by {
        if reg_dup(reg2, e1) {
            let g = choose|g: RegView<VV>|
                #[trigger] reg2.contains(g) && g.actor == e1.actor && g.n == e1.n;
            assert(reg2.contains(g));
            assert(g != e2);
            assert(reg0.contains(g));
        }
        if dup1 {
            assert(reg0.contains(e1));
            assert(!vc_lt(e1.clock, e2.clock));
            assert(reg2.contains(e1));
        }
    }
    assert(reg_dominated(reg1, e2) == dom2) by {
        if reg_dominated(reg1, e2) {
            let g = choose|g: RegView<VV>| #[trigger] reg1.contains(g) && vc_lt(e2.clock, g.clock);
            assert(reg1.contains(g));
            assert(g != e1);
            assert(reg0.contains(g));
        }
        if dom2 {
            let g = choose|g: RegView<VV>| #[trigger] reg0.contains(g) && vc_lt(e2.clock, g.clock);
            assert(reg0.contains(g) && vc_lt(e2.clock, g.clock));
            assert(!vc_lt(g.clock, e1.clock)) by {
                if vc_lt(g.clock, e1.clock) {
                    lemma_vc_lt_trans(e2.clock, g.clock, e1.clock);
                }
            }
            assert(reg1.contains(g));
        }
    }
    assert(reg_dominated(reg2, e1) == dom1) by {
        if reg_dominated(reg2, e1) {
            let g = choose|g: RegView<VV>| #[trigger] reg2.contains(g) && vc_lt(e1.clock, g.clock);
            assert(reg2.contains(g));
            assert(g != e2);
            assert(reg0.contains(g));
        }
        if dom1 {
            let g = choose|g: RegView<VV>| #[trigger] reg0.contains(g) && vc_lt(e1.clock, g.clock);
            assert(reg0.contains(g) && vc_lt(e1.clock, g.clock));
            assert(!vc_lt(g.clock, e2.clock)) by {
                if vc_lt(g.clock, e2.clock) {
                    lemma_vc_lt_trans(e1.clock, g.clock, e2.clock);
                }
            }
            assert(reg2.contains(g));
        }
    }

    // membership of the final registers, in terms of the first steps
    assert forall|x: RegView<VV>| #[trigger] ra.contains(x) <==> (if reg_dup(reg1, e2) {
        reg1.contains(x)
    } else if reg_dominated(reg1, e2) {
        reg1.contains(x) && !vc_lt(x.clock, e2.clock)
    } else {
        (reg1.contains(x) && !vc_lt(x.clock, e2.clock)) || x == e2
    }) by {}
    assert forall|x: RegView<VV>| #[trigger] rb.contains(x) <==> (if reg_dup(reg2, e1) {
        reg2.contains(x)
    } else if reg_dominated(reg2, e1) {
        reg2.contains(x) && !vc_lt(x.clock, e1.clock)
    } else {
        (reg2.contains(x) && !vc_lt(x.clock, e1.clock)) || x == e1
    }) by {}

    // both orders leave the same register
    assert_sets_equal!(ra, rb, x => {
        assert(ra.contains(x) <==> rb.contains(x)) by {
            assert(!vc_lt(e1.clock, e2.clock) && !vc_lt(e2.clock, e1.clock));
        }
    });
    assert(ma.regs =~= mb.regs);
    assert(ma =~= mb);
}

/// The register after applying each write of `es`, in order.
pub open spec fn reg_fold<VV>(reg: Set<RegView<VV>>, es: Seq<RegView<VV>>) -> Set<RegView<VV>>
    decreases es.len(),
{
    if es.len() == 0 {
        reg
    } else {
        reg_fold(reg_step(reg, es[0]), es.drop_first())
    }
}

/// No entry of the register strictly dominates another.
pub open spec fn reg_antichain<VV>(reg: Set<RegView<VV>>) -> bool {
    forall|f: RegView<VV>, g: RegView<VV>|
        #![trigger reg.contains(f), reg.contains(g)]
        reg.contains(f) && reg.contains(g) ==> !vc_lt(f.clock, g.clock)
}

/// Writer stamps pin entries across the register and the batch: correct
/// replicas stamp each write uniquely, so a repeated stamp is a repeated
/// delivery of the same write.
pub open spec fn reg_batch_compat<VV>(reg: Set<RegView<VV>>, es: Seq<RegView<VV>>) -> bool {
    &&& forall|i: int, j: int|
        #![trigger es[i], es[j]]
        0 <= i < es.len() && 0 <= j < es.len() && es[i].actor == es[j].actor && es[i].n == es[j].n
            ==> es[i] == es[j]
    &&& forall|i: int, g: RegView<VV>|
        0 <= i < es.len() && #[trigger] reg.contains(g) && g.actor == (#[trigger] es[i]).actor
            && g.n == es[i].n ==> g == es[i]
}

/// Whether anything in the register or the batch strictly dominates `f`.
pub open spec fn reg_superseded<VV>(
    reg: Set<RegView<VV>>,
    es: Seq<RegView<VV>>,
    f: RegView<VV>,
) -> bool {
    ||| exists|g: RegView<VV>| #[trigger] reg.contains(g) && vc_lt(f.clock, g.clock)
    ||| exists|i: int| 0 <= i < es.len() && vc_lt(f.clock, (#[trigger] es[i]).clock)
}

/// One write keeps the register an antichain.
pub proof fn lemma_reg_step_antichain<VV>(reg: Set<RegView<VV>>, e: RegView<VV>)
    requires
        reg_antichain(reg),
    ensures
        reg_antichain(reg_step(reg, e)),
{
    let r2 = reg_step(reg, e);
    assert forall|f: RegView<VV>, g: RegView<VV>|
        #![trigger r2.contains(f), r2.contains(g)]
        r2.contains(f) && r2.contains(g) implies !vc_lt(f.clock, g.clock) by {
        if !reg_dup(reg, e) {
            if f == e && g != e {
                assert(reg.contains(g));
                assert(!reg_dominated(reg, e));
            } else if f != e && g == e {
                assert(reg_survivors(reg, e).contains(f));
            } else if f != e && g != e {
                assert(reg.contains(f) && reg.contains(g));
            } else {
                // f == g, and a clock never strictly dominates itself
                assert(!vc_lt(f.clock, g.clock));
            }
        }
    }
}

/// A dominator lost to a write is replaced by one the write leaves behind.
proof fn lemma_reg_dominator_replaced<VV>(
    reg: Set<RegView<VV>>,
    e0: RegView<VV>,
    x: RegView<VV>,
    g: RegView<VV>,
)
    requires
        reg_dup(reg, e0) ==> reg.contains(e0),
        reg.contains(g) || g == e0,
        vc_lt(x.clock, g.clock),
    ensures
        exists|h: RegView<VV>| #[trigger] reg_step(reg, e0).contains(h) && vc_lt(
            x.clock,
            h.clock,
        ),
{
    let reg1 = reg_step(reg, e0);
    if reg1.contains(g) {
    } else if reg.contains(g) {
        // g was discarded, so the write dominates it
        assert(!reg_dup(reg, e0));
        assert(vc_lt(g.clock, e0.clock));
        lemma_vc_lt_trans(x.clock, g.clock, e0.clock);
        if reg_dominated(reg, e0) {
            let h = choose|h: RegView<VV>| #[trigger] reg.contains(h) && vc_lt(e0.clock, h.clock);
            assert(reg.contains(h));
            assert(!vc_lt(h.clock, e0.clock));
            assert(reg_survivors(reg, e0).contains(h));
            lemma_vc_lt_trans(x.clock, e0.clock, h.clock);
            assert(reg1.contains(h) && vc_lt(x.clock, h.clock));
        } else {
            assert(reg1.contains(e0) && vc_lt(x.clock, e0.clock));
        }
    } else {
        assert(g == e0);
        if reg_dup(reg, e0) {
            assert(reg1.contains(e0));
            assert(reg1.contains(e0) && vc_lt(x.clock, e0.clock));
        } else if reg_dominated(reg, e0) {
            let h = choose|h: RegView<VV>| #[trigger] reg.contains(h) && vc_lt(e0.clock, h.clock);
            assert(reg.contains(h));
            assert(!vc_lt(h.clock, e0.clock));
            assert(reg_survivors(reg, e0).contains(h));
            lemma_vc_lt_trans(x.clock, e0.clock, h.clock);
            assert(reg1.contains(h) && vc_lt(x.clock, h.clock));
        } else {
            assert(reg1.contains(e0) && vc_lt(x.clock, e0.clock));
        }
    }
}

/// What a fold of compatible writes leaves in a register, entry by entry:
/// an entry survives exactly when it was there or was written, and nothing
/// seen strictly dominates it.  The outcome depends only on the set of
/// writes, not on their order or multiplicity.
#[verifier::rlimit(60)]
pub proof fn lemma_reg_fold_char<VV>(reg: Set<RegView<VV>>, es: Seq<RegView<VV>>)
    requires
        reg_antichain(reg),
        reg_batch_compat(reg, es),
    ensures
        forall|f: RegView<VV>|
            #[trigger] reg_fold(reg, es).contains(f) <==> ((reg.contains(f) || exists|i: int|
                0 <= i < es.len() && es[i] == f) && !reg_superseded(reg, es, f)),
    decreases es.len(),
{
    if es.len() == 0 {
        assert forall|f: RegView<VV>| #[trigger] reg_fold(reg, es).contains(f) <==> ((
        reg.contains(f) || exists|i: int| 0 <= i < es.len() && es[i] == f) && !reg_superseded(
            reg,
            es,
            f,
        )) by {
            if reg.contains(f) {
                if reg_superseded(reg, es, f) {
                    if exists|g: RegView<VV>| #[trigger] reg.contains(g) && vc_lt(
                        f.clock,
                        g.clock,
                    ) {
                        let g = choose|g: RegView<VV>|
                            #[trigger] reg.contains(g) && vc_lt(f.clock, g.clock);
                        assert(reg.contains(g));
                        assert(false);
                    }
                }
            }
        }
        return ;
    }
    let e0 = es[0];
    let rest = es.drop_first();
    let reg1 = reg_step(reg, e0);
    lemma_reg_step_antichain(reg, e0);
    assert forall|i: int| 0 <= i < rest.len() implies #[trigger] rest[i] == es[i + 1] by {}
    assert(reg_batch_compat(reg1, rest)) by {
        assert forall|i: int, g: RegView<VV>|
            0 <= i < rest.len() && #[trigger] reg1.contains(g) && g.actor == (
            #[trigger] rest[i]).actor && g.n == rest[i].n implies g == rest[i] by {
            if g == e0 {
                assert(es[0].actor == es[i + 1].actor && es[0].n == es[i + 1].n);
                assert(es[0] == es[i + 1]);
            } else {
                assert(reg.contains(g));
            }
        }
    }
    lemma_reg_fold_char(reg1, rest);
    assert(reg_fold(reg, es) == reg_fold(reg1, rest));

    // where the first write went, if anywhere
    assert(reg_dup(reg, e0) ==> reg.contains(e0) && reg1.contains(e0)) by {
        if reg_dup(reg, e0) {
            let g = choose|g: RegView<VV>|
                #[trigger] reg.contains(g) && g.actor == e0.actor && g.n == e0.n;
            assert(g == e0);
        }
    }
    assert forall|f: RegView<VV>| #[trigger] reg_fold(reg, es).contains(f) <==> ((reg.contains(f)
        || exists|i: int| 0 <= i < es.len() && es[i] == f) && !reg_superseded(reg, es, f)) by {
        // supersession before and after the first write agree
        assert(reg_superseded(reg1, rest, f) == reg_superseded(reg, es, f)) by {
            if reg_superseded(reg1, rest, f) {
                if exists|g: RegView<VV>| #[trigger] reg1.contains(g) && vc_lt(f.clock, g.clock) {
                    let g = choose|g: RegView<VV>|
                        #[trigger] reg1.contains(g) && vc_lt(f.clock, g.clock);
                    assert(reg1.contains(g));
                    if g == e0 {
                        assert(0 <= 0 < es.len() && vc_lt(f.clock, es[0].clock));
                    } else {
                        assert(reg.contains(g));
                    }
                } else {
                    let i = choose|i: int|
                        0 <= i < rest.len() && vc_lt(f.clock, (#[trigger] rest[i]).clock);
                    assert(0 <= i + 1 < es.len() && vc_lt(f.clock, es[i + 1].clock));
                }
            }
            if reg_superseded(reg, es, f) {
                if exists|g: RegView<VV>| #[trigger] reg.contains(g) && vc_lt(f.clock, g.clock) {
                    let g = choose|g: RegView<VV>|
                        #[trigger] reg.contains(g) && vc_lt(f.clock, g.clock);
                    lemma_reg_dominator_replaced(reg, e0, f, g);
                    assert(reg_superseded(reg1, rest, f));
                } else {
                    let i = choose|i: int|
                        0 <= i < es.len() && vc_lt(f.clock, (#[trigger] es[i]).clock);
                    if i == 0 {
                        lemma_reg_dominator_replaced(reg, e0, f, e0);
                        assert(reg_superseded(reg1, rest, f));
                    } else {
                        assert(0 <= i - 1 < rest.len() && vc_lt(f.clock, rest[i - 1].clock));
                        assert(reg_superseded(reg1, rest, f));
                    }
                }
            }
        }
        // membership before and after the first write agrees, absent
        // supersession
        if !reg_superseded(reg, es, f) {
            if reg1.contains(f) {
                assert(reg.contains(f) || f == e0);
                if f == e0 {
                    assert(es[0] == f);
                }
            }
            if reg.contains(f) {
                assert(!vc_lt(f.clock, e0.clock)) by {
                    if vc_lt(f.clock, e0.clock) {
                        assert(0 <= 0 < es.len() && vc_lt(f.clock, es[0].clock));
                    }
                }
                assert(reg1.contains(f)) by {
                    if !reg_dup(reg, e0) {
                        assert(reg_survivors(reg, e0).contains(f));
                    }
                }
            }
            if exists|i: int| 0 <= i < es.len() && es[i] == f {
                let i = choose|i: int| 0 <= i < es.len() && es[i] == f;
                if i == 0 {
                    assert(f == e0);
                    assert(reg1.contains(e0)) by {
                        assert(!reg_dominated(reg, e0)) by {
                            if reg_dominated(reg, e0) {
                                let h = choose|h: RegView<VV>|
                                    #[trigger] reg.contains(h) && vc_lt(e0.clock, h.clock);
                                assert(reg.contains(h) && vc_lt(f.clock, h.clock));
                            }
                        }
                    }
                } else {
                    assert(rest[i - 1] == f);
                    assert(exists|j: int| 0 <= j < rest.len() && rest[j] == f);
                }
            }
        }
    }
}

/// Convergence of one key's register: folding batches that hold the same
/// set of writes, in whatever order and however often repeated, leaves the
/// same register.
pub proof fn lemma_reg_convergence<VV>(
    reg: Set<RegView<VV>>,
    es1: Seq<RegView<VV>>,
    es2: Seq<RegView<VV>>,
)
    requires
        reg_antichain(reg),
        reg_batch_compat(reg, es1),
        forall|x: RegView<VV>| es1.contains(x) <==> es2.contains(x),
    ensures
        reg_fold(reg, es1) == reg_fold(reg, es2),
{
    assert(reg_batch_compat(reg, es2)) by {
        assert forall|i: int, j: int|
            #![trigger es2[i], es2[j]]
            0 <= i < es2.len() && 0 <= j < es2.len() && es2[i].actor == es2[j].actor && es2[i].n
                == es2[j].n implies es2[i] == es2[j] by {
            assert(es2.contains(es2[i]) && es2.contains(es2[j]));
            assert(es1.contains(es2[i]) && es1.contains(es2[j]));
            let a = choose|a: int| 0 <= a < es1.len() && es1[a] == es2[i];
            let b = choose|b: int| 0 <= b < es1.len() && es1[b] == es2[j];
            assert(es1[a] == es1[b]);
        }
        assert forall|i: int, g: RegView<VV>|
            0 <= i < es2.len() && #[trigger] reg.contains(g) && g.actor == (
            #[trigger] es2[i]).actor && g.n == es2[i].n implies g == es2[i] by {
            assert(es2.contains(es2[i]));
            assert(es1.contains(es2[i]));
            let a = choose|a: int| 0 <= a < es1.len() && es1[a] == es2[i];
            assert(g == es1[a]);
        }
    }
    lemma_reg_fold_char(reg, es1);
    lemma_reg_fold_char(reg, es2);
    let r1 = reg_fold(reg, es1);
    let r2 = reg_fold(reg, es2);
    assert_sets_equal!(r1, r2, f => {
        assert((exists|i: int| 0 <= i < es1.len() && es1[i] == f) <==> (exists|i: int|
            0 <= i < es2.len() && es2[i] == f)) by {
            if exists|i: int| 0 <= i < es1.len() && es1[i] == f {
                let i = choose|i: int| 0 <= i < es1.len() && es1[i] == f;
                assert(es1.contains(f));
                assert(es2.contains(f));
                let j = choose|j: int| 0 <= j < es2.len() && es2[j] == f;
                assert(0 <= j < es2.len() && es2[j] == f);
            }
            if exists|i: int| 0 <= i < es2.len() && es2[i] == f {
                let i = choose|i: int| 0 <= i < es2.len() && es2[i] == f;
                assert(es2.contains(f));
                assert(es1.contains(f));
                let j = choose|j: int| 0 <= j < es1.len() && es1[j] == f;
                assert(0 <= j < es1.len() && es1[j] == f);
            }
        }
        assert(reg_superseded(reg, es1, f) == reg_superseded(reg, es2, f)) by {
            if reg_superseded(reg, es1, f) && !reg_superseded(reg, es2, f) {
                if exists|i: int|
                    0 <= i < es1.len() && vc_lt(f.clock, (#[trigger] es1[i]).clock) {
                    let i = choose|i: int|
                        0 <= i < es1.len() && vc_lt(f.clock, (#[trigger] es1[i]).clock);
                    assert(es1.contains(es1[i]));
                    assert(es2.contains(es1[i]));
                    let j = choose|j: int| 0 <= j < es2.len() && es2[j] == es1[i];
                    assert(0 <= j < es2.len() && vc_lt(f.clock, es2[j].clock));
                }
            }
            if reg_superseded(reg, es2, f) && !reg_superseded(reg, es1, f) {
                if exists|i: int|
                    0 <= i < es2.len() && vc_lt(f.clock, (#[trigger] es2[i]).clock) {
                    let i = choose|i: int|
                        0 <= i < es2.len() && vc_lt(f.clock, (#[trigger] es2[i]).clock);
                    assert(es2.contains(es2[i]));
                    assert(es1.contains(es2[i]));
                    let j = choose|j: int| 0 <= j < es1.len() && es1[j] == es2[i];
                    assert(0 <= j < es1.len() && vc_lt(f.clock, es1[j].clock));
                }
            }
        }
    });
}

} // verus!
