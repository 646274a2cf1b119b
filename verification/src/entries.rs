//! The stored form of the replicated sequence and its mathematical model.
//!
//! A sequence replica stores its elements in one vector, ordered by element
//! identity.  An entry carries the identity, the value (absent while only a
//! deletion for a not-yet-seen insertion has arrived), and a tombstone flag;
//! a deleted element is marked, never removed.  The model of such a vector
//! is an unordered pair: a map from identity to value and the set of
//! tombstoned identities.  Both operations of the sequence act on the model
//! as plain map and set insertions, which is what makes them idempotent and,
//! when concurrent, commutative.

use vstd::assert_sets_equal;
use vstd::map::*;
use vstd::prelude::*;

use crate::ident::{Branch, ElemId, id_wf, id_lt, lemma_id_lt_irrefl};
use crate::values::Value;

verus! {

/// One stored element of a sequence replica.
pub struct Entry<T> {
    /// The element's identity; unique within the vector.
    pub id: ElemId,
    /// The value, or `None` while only a deletion has been seen.
    pub val: Option<T>,
    /// Whether the element is tombstoned.
    pub dead: bool,
}

/// An operation of the replicated sequence.
pub enum ListOp<T> {
    /// Places `value` at the position `id` denotes.
    Insert { id: ElemId, value: T },
    /// Tombstones the element `id` denotes.
    Delete { id: ElemId },
}

/// The denotation of a sequence operation.
pub enum ListOpView<TV> {
    Insert { id: Seq<Branch>, value: TV },
    Delete { id: Seq<Branch> },
}

impl<T: Value> View for ListOp<T> {
    type V = ListOpView<T::V>;

    open spec fn view(&self) -> ListOpView<T::V> {
        match self {
            ListOp::Insert { id, value } => ListOpView::Insert { id: id@, value: value@ },
            ListOp::Delete { id } => ListOpView::Delete { id: id@ },
        }
    }
}

/// The identity a sequence operation refers to.
pub open spec fn op_id<TV>(op: ListOpView<TV>) -> Seq<Branch> {
    match op {
        ListOpView::Insert { id, value } => id,
        ListOpView::Delete { id } => id,
    }
}

/// Whether an operation carries an insertion.
pub open spec fn op_is_insert<TV>(op: ListOpView<TV>) -> bool {
    op is Insert
}

/// The value an insertion carries.
pub open spec fn op_value<TV>(op: ListOpView<TV>) -> TV
    recommends
        op is Insert,
{
    match op {
        ListOpView::Insert { id, value } => value,
        ListOpView::Delete { id } => arbitrary(),
    }
}

/// Internal consistency of a sequence operation: its identity must be a
/// well-formed path.
pub open spec fn list_op_ok<TV>(op: ListOpView<TV>) -> bool {
    id_wf(op_id(op))
}

/// The mathematical state of a sequence replica: the values inserted so
/// far, by identity, and the identities tombstoned so far.
#[verifier::ext_equal]
pub struct ListModel<TV> {
    pub elems: Map<Seq<Branch>, TV>,
    pub tombs: Set<Seq<Branch>>,
}

impl<TV> ListModel<TV> {
    /// The state holding nothing.
    pub open spec fn empty() -> ListModel<TV> {
        ListModel { elems: Map::empty(), tombs: Set::empty() }
    }
}

/// The effect of one operation on the model: an insertion records its value
/// under its identity unless that identity is already bound, a deletion adds
/// its identity to the tombstone set.  Both are no-ops when repeated.
pub open spec fn list_step<TV>(m: ListModel<TV>, op: ListOpView<TV>) -> ListModel<TV> {
    match op {
        ListOpView::Insert { id, value } => {
            if m.elems.contains_key(id) {
                m
            } else {
                ListModel { elems: m.elems.insert(id, value), tombs: m.tombs }
            }
        },
        ListOpView::Delete { id } => ListModel { elems: m.elems, tombs: m.tombs.insert(id) },
    }
}

/// Whether a stored entry contributes to the visible sequence.
pub open spec fn is_live<T>(e: Entry<T>) -> bool {
    e.val is Some && !e.dead
}

/// The values of the live entries, in storage order.
pub open spec fn live_vals<T: Value>(s: Seq<Entry<T>>) -> Seq<T::V>
    decreases s.len(),
{
    if s.len() == 0 {
        Seq::empty()
    } else {
        (if is_live(s[0]) {
            seq![s[0].val->0@]
        } else {
            Seq::empty()
        }) + live_vals(s.drop_first())
    }
}

/// The identities of the live entries, in storage order.
pub open spec fn live_ids<T: Value>(s: Seq<Entry<T>>) -> Seq<Seq<Branch>>
    decreases s.len(),
{
    if s.len() == 0 {
        Seq::empty()
    } else {
        (if is_live(s[0]) {
            seq![s[0].id@]
        } else {
            Seq::empty()
        }) + live_ids(s.drop_first())
    }
}

pub proof fn lemma_live_add<T: Value>(a: Seq<Entry<T>>, b: Seq<Entry<T>>)
    ensures
        live_vals(a + b) == live_vals(a) + live_vals(b),
        live_ids(a + b) == live_ids(a) + live_ids(b),
    decreases a.len(),
{
    if a.len() == 0 {
        assert(a + b =~= b);
        assert(live_vals(a) + live_vals(b) =~= live_vals(b));
        assert(live_ids(a) + live_ids(b) =~= live_ids(b));
    } else {
        assert((a + b).drop_first() =~= a.drop_first() + b);
        assert((a + b)[0] == a[0]);
        lemma_live_add(a.drop_first(), b);
        assert(live_vals(a + b) =~= live_vals(a) + live_vals(b));
        assert(live_ids(a + b) =~= live_ids(a) + live_ids(b));
    }
}

/// The live projections of a one-entry sequence.
pub proof fn lemma_live_single<T: Value>(e: Entry<T>)
    ensures
        is_live(e) ==> live_vals(seq![e]) == seq![e.val->0@] && live_ids(seq![e]) == seq![e.id@],
        !is_live(e) ==> live_vals(seq![e]) == Seq::<T::V>::empty() && live_ids(seq![e])
            == Seq::<Seq<Branch>>::empty(),
{
    reveal_with_fuel(live_vals, 2);
    reveal_with_fuel(live_ids, 2);
    assert(seq![e].drop_first() =~= Seq::<Entry<T>>::empty());
    assert(seq![e].len() == 1);
    assert(seq![e][0] == e);
    if is_live(e) {
        assert(live_vals(seq![e]) =~= seq![e.val->0@]);
        assert(live_ids(seq![e]) =~= seq![e.id@]);
    } else {
        assert(live_vals(seq![e]) =~= Seq::<T::V>::empty());
        assert(live_ids(seq![e]) =~= Seq::<Seq<Branch>>::empty());
    }
}

/// Splitting a sequence splits its live projections.
pub proof fn lemma_live_split<T: Value>(s: Seq<Entry<T>>, i: int)
    requires
        0 <= i <= s.len(),
    ensures
        live_vals(s) == live_vals(s.take(i)) + live_vals(s.skip(i)),
        live_ids(s) == live_ids(s.take(i)) + live_ids(s.skip(i)),
{
    assert(s =~= s.take(i) + s.skip(i));
    lemma_live_add(s.take(i), s.skip(i));
}

/// One more entry extends the live projections of a prefix accordingly.
pub proof fn lemma_live_take_step<T: Value>(s: Seq<Entry<T>>, i: int)
    requires
        0 <= i < s.len(),
    ensures
        is_live(s[i]) ==> live_vals(s.take(i + 1)) == live_vals(s.take(i)).push(s[i].val->0@)
            && live_ids(s.take(i + 1)) == live_ids(s.take(i)).push(s[i].id@),
        !is_live(s[i]) ==> live_vals(s.take(i + 1)) == live_vals(s.take(i)) && live_ids(s.take(i
            + 1)) == live_ids(s.take(i)),
{
    assert(s.take(i + 1) =~= s.take(i) + seq![s[i]]);
    lemma_live_add(s.take(i), seq![s[i]]);
    lemma_live_single(s[i]);
    if is_live(s[i]) {
        assert(live_vals(s.take(i)) + seq![s[i].val->0@] =~= live_vals(s.take(i)).push(
            s[i].val->0@,
        ));
        assert(live_ids(s.take(i)) + seq![s[i].id@] =~= live_ids(s.take(i)).push(s[i].id@));
    } else {
        assert(live_vals(s.take(i)) + Seq::<T::V>::empty() =~= live_vals(s.take(i)));
        assert(live_ids(s.take(i)) + Seq::<Seq<Branch>>::empty() =~= live_ids(s.take(i)));
    }
}

/// Live counts of nested prefixes grow with the prefix.
pub proof fn lemma_live_count_mono<T: Value>(s: Seq<Entry<T>>, a: int, b: int)
    requires
        0 <= a <= b <= s.len(),
    ensures
        live_vals(s.take(a)).len() <= live_vals(s.take(b)).len(),
    decreases b - a,
{
    if a < b {
        lemma_live_take_step(s, b - 1);
        lemma_live_count_mono(s, a, b - 1);
    }
}

/// Between two prefixes of equal live count every entry is dead.
pub proof fn lemma_live_count_flat<T: Value>(s: Seq<Entry<T>>, a: int, b: int, j: int)
    requires
        0 <= a <= j < b <= s.len(),
        live_vals(s.take(a)).len() == live_vals(s.take(b)).len(),
    ensures
        !is_live(s[j]),
{
    if is_live(s[j]) {
        lemma_live_take_step(s, j);
        lemma_live_count_mono(s, a, j);
        lemma_live_count_mono(s, j + 1, b);
    }
}

/// The live projections always have the same length.
pub proof fn lemma_live_lens<T: Value>(s: Seq<Entry<T>>)
    ensures
        live_vals(s).len() == live_ids(s).len(),
    decreases s.len(),
{
    if s.len() > 0 {
        lemma_live_lens(s.drop_first());
    }
}

/// An empty store denotes the empty model.
pub proof fn lemma_model_empty<T: Value>()
    ensures
        entries_model(Seq::<Entry<T>>::empty()) == ListModel::<T::V>::empty(),
        live_vals(Seq::<Entry<T>>::empty()) == Seq::<T::V>::empty(),
        live_ids(Seq::<Entry<T>>::empty()) == Seq::<Seq<Branch>>::empty(),
{
    let s = Seq::<Entry<T>>::empty();
    let m1 = entries_elems(s);
    let m2 = Map::<Seq<Branch>, T::V>::empty();
    assert_maps_equal!(m1, m2, x => {
        if m1.contains_key(x) {
            let i = choose|i: int| has_val_at(s, x, i);
            assert(has_val_at(s, x, i));
        }
    });
    let t1 = entries_tombs(s);
    let t2 = Set::<Seq<Branch>>::empty();
    assert_sets_equal!(t1, t2, x => {
        if t1.contains(x) {
            let i = choose|i: int| has_tomb_at(s, x, i);
            assert(has_tomb_at(s, x, i));
        }
    });
}

/// A live entry stands in the visible sequence at the index given by the
/// live count of the prefix before it.
pub proof fn lemma_live_at<T: Value>(s: Seq<Entry<T>>, k: int)
    requires
        0 <= k < s.len(),
        is_live(s[k]),
    ensures
        live_vals(s.take(k)).len() < live_vals(s).len(),
        live_vals(s)[live_vals(s.take(k)).len() as int] == s[k].val->0@,
        live_ids(s)[live_vals(s.take(k)).len() as int] == s[k].id@,
        live_ids(s.take(k)).len() == live_vals(s.take(k)).len(),
{
    lemma_live_split(s, k);
    lemma_live_lens(s.take(k));
    let rest = s.skip(k);
    assert(rest[0] == s[k]);
    assert(rest.drop_first() =~= s.skip(k + 1));
    assert(live_vals(rest) == seq![s[k].val->0@] + live_vals(s.skip(k + 1)));
    assert(live_ids(rest) == seq![s[k].id@] + live_ids(s.skip(k + 1)));
    let n = live_vals(s.take(k)).len() as int;
    assert(live_vals(s)[n] == live_vals(rest)[0]);
    assert(live_ids(s)[n] == live_ids(rest)[0]);
}

/// Inserting a live entry at storage position `pos`, before which `idx` live
/// entries stand, inserts its value at visible position `idx`.
pub proof fn lemma_live_insert<T: Value>(s: Seq<Entry<T>>, pos: int, e: Entry<T>, idx: int)
    requires
        0 <= pos <= s.len(),
        is_live(e),
        live_vals(s.take(pos)).len() == idx,
    ensures
        live_vals(s.insert(pos, e)) == live_vals(s).insert(idx, e.val->0@),
        live_ids(s.insert(pos, e)) == live_ids(s).insert(idx, e.id@),
{
    let s2 = s.insert(pos, e);
    assert(s2 =~= s.take(pos) + seq![e] + s.skip(pos));
    lemma_live_add(s.take(pos) + seq![e], s.skip(pos));
    lemma_live_add(s.take(pos), seq![e]);
    lemma_live_single(e);
    lemma_live_split(s, pos);
    lemma_live_lens(s.take(pos));
    assert(live_vals(s2) =~= live_vals(s).insert(idx, e.val->0@));
    assert(live_ids(s2) =~= live_ids(s).insert(idx, e.id@));
}

/// Tombstoning the live entry at storage position `k`, before which `idx`
/// live entries stand, removes its value from visible position `idx`.
pub proof fn lemma_live_remove<T: Value>(s: Seq<Entry<T>>, k: int, e2: Entry<T>, idx: int)
    requires
        0 <= k < s.len(),
        is_live(s[k]),
        e2.id@ == s[k].id@,
        e2.val == s[k].val,
        e2.dead,
        live_vals(s.take(k)).len() == idx,
    ensures
        live_vals(s.update(k, e2)) == live_vals(s).remove(idx),
        live_ids(s.update(k, e2)) == live_ids(s).remove(idx),
{
    let s2 = s.update(k, e2);
    assert(s2 =~= s.take(k) + seq![e2] + s.skip(k + 1));
    assert(s =~= s.take(k) + seq![s[k]] + s.skip(k + 1));
    lemma_live_add(s.take(k) + seq![e2], s.skip(k + 1));
    lemma_live_add(s.take(k), seq![e2]);
    lemma_live_add(s.take(k) + seq![s[k]], s.skip(k + 1));
    lemma_live_add(s.take(k), seq![s[k]]);
    lemma_live_single(e2);
    lemma_live_single(s[k]);
    lemma_live_lens(s.take(k));
    assert(live_vals(s2) =~= live_vals(s).remove(idx));
    assert(live_ids(s2) =~= live_ids(s).remove(idx));
}

/// Inserting an entry between its strict neighbours keeps the store sorted.
pub proof fn lemma_sorted_insert<T: Value>(s: Seq<Entry<T>>, pos: int, e: Entry<T>)
    requires
        entries_sorted(s),
        0 <= pos <= s.len(),
        forall|j: int| 0 <= j < pos ==> id_lt((#[trigger] s[j]).id@, e.id@),
        forall|j: int| pos <= j < s.len() ==> id_lt(e.id@, (#[trigger] s[j]).id@),
    ensures
        entries_sorted(s.insert(pos, e)),
{
    let s2 = s.insert(pos, e);
    assert(s2 =~= s.take(pos) + seq![e] + s.skip(pos));
    assert forall|i: int, j: int|
        #![trigger s2[i].id@, s2[j].id@]
        0 <= i < j < s2.len() implies id_lt(s2[i].id@, s2[j].id@) by {
        let a: int = if i < pos {
            i
        } else {
            i - 1
        };
        let b: int = if j < pos {
            j
        } else {
            j - 1
        };
        if i == pos {
            assert(s2[j] == s[b]);
        } else if j == pos {
            assert(s2[i] == s[a]);
        } else {
            assert(s2[i] == s[a]);
            assert(s2[j] == s[b]);
        }
    }
}

/// Pointwise correspondence of two stores: same identities, same liveness,
/// and value denotations equal where present.
pub open spec fn entries_similar<T: Value>(s1: Seq<Entry<T>>, s2: Seq<Entry<T>>) -> bool {
    &&& s1.len() == s2.len()
    &&& forall|i: int|
        0 <= i < s1.len() ==> (#[trigger] s2[i]).id@ == s1[i].id@ && s2[i].dead == s1[i].dead && (
        s2[i].val is Some <==> s1[i].val is Some) && (s1[i].val is Some ==> s2[i].val->0@
            == s1[i].val->0@)
}

/// Corresponding stores have the same visible projections.
pub proof fn lemma_live_congr<T: Value>(s1: Seq<Entry<T>>, s2: Seq<Entry<T>>)
    requires
        entries_similar(s1, s2),
    ensures
        live_vals(s2) == live_vals(s1),
        live_ids(s2) == live_ids(s1),
    decreases s1.len(),
{
    if s1.len() > 0 {
        assert forall|i: int|
            0 <= i < s1.drop_first().len() implies (#[trigger] s2.drop_first()[i]).id@
            == s1.drop_first()[i].id@ && s2.drop_first()[i].dead == s1.drop_first()[i].dead && (
        s2.drop_first()[i].val is Some <==> s1.drop_first()[i].val is Some) && (
        s1.drop_first()[i].val is Some ==> s2.drop_first()[i].val->0@
            == s1.drop_first()[i].val->0@) by {
            assert(s1.drop_first()[i] == s1[i + 1]);
            assert(s2.drop_first()[i] == s2[i + 1]);
        }
        lemma_live_congr(s1.drop_first(), s2.drop_first());
        assert(is_live(s2[0]) == is_live(s1[0]));
        assert(live_vals(s2) =~= live_vals(s1));
        assert(live_ids(s2) =~= live_ids(s1));
    }
}

/// Corresponding stores with distinct identities denote the same model.
pub proof fn lemma_model_congr<T: Value>(s1: Seq<Entry<T>>, s2: Seq<Entry<T>>)
    requires
        entries_similar(s1, s2),
        ids_distinct(s1),
    ensures
        entries_model(s2) == entries_model(s1),
        entries_sorted(s1) ==> entries_sorted(s2),
        entries_formed(s1) ==> entries_formed(s2),
{
    assert(ids_distinct(s2)) by {
        assert forall|i: int, j: int|
            #![trigger s2[i].id@, s2[j].id@]
            0 <= i < s2.len() && 0 <= j < s2.len() && i != j implies s2[i].id@ != s2[j].id@ by {
            assert(s1[i].id@ != s1[j].id@);
        }
    }
    let m1 = entries_elems(s2);
    let m2 = entries_elems(s1);
    assert_maps_equal!(m1, m2, x => {
        if m1.contains_key(x) {
            let i = choose|i: int| has_val_at(s2, x, i);
            assert(has_val_at(s2, x, i));
            assert(has_val_at(s1, x, i));
            lemma_elems_val(s2, x, i);
            lemma_elems_val(s1, x, i);
        }
        if m2.contains_key(x) {
            let i = choose|i: int| has_val_at(s1, x, i);
            assert(has_val_at(s1, x, i));
            assert(has_val_at(s2, x, i));
        }
    });
    let t1 = entries_tombs(s2);
    let t2 = entries_tombs(s1);
    assert_sets_equal!(t1, t2, x => {
        if t1.contains(x) {
            let i = choose|i: int| has_tomb_at(s2, x, i);
            assert(has_tomb_at(s2, x, i));
            assert(has_tomb_at(s1, x, i));
        }
        if t2.contains(x) {
            let i = choose|i: int| has_tomb_at(s1, x, i);
            assert(has_tomb_at(s1, x, i));
            assert(has_tomb_at(s2, x, i));
        }
    });
    if entries_sorted(s1) {
        assert forall|i: int, j: int|
            #![trigger s2[i].id@, s2[j].id@]
            0 <= i < j < s2.len() implies id_lt(s2[i].id@, s2[j].id@) by {
            assert(id_lt(s1[i].id@, s1[j].id@));
        }
    }
    if entries_formed(s1) {
        assert forall|i: int|
            0 <= i < s2.len() implies id_wf((#[trigger] s2[i]).id@) && (s2[i].val is Some
            || s2[i].dead) by {
            assert(id_wf(s1[i].id@));
        }
    }
}

/// The entries are strictly ordered by identity.
pub open spec fn entries_sorted<T: Value>(s: Seq<Entry<T>>) -> bool {
    forall|i: int, j: int|
        #![trigger s[i].id@, s[j].id@]
        0 <= i < j < s.len() ==> id_lt(s[i].id@, s[j].id@)
}

/// Every entry holds a well-formed identity and is a value, a tombstone, or
/// both.
pub open spec fn entries_formed<T: Value>(s: Seq<Entry<T>>) -> bool {
    forall|i: int|
        0 <= i < s.len() ==> id_wf((#[trigger] s[i]).id@) && (s[i].val is Some || s[i].dead)
}

/// Structural well-formedness of the stored sequence.
pub open spec fn entries_wf<T: Value>(s: Seq<Entry<T>>) -> bool {
    entries_sorted(s) && entries_formed(s)
}

/// The identities are pairwise distinct.
pub open spec fn ids_distinct<T: Value>(s: Seq<Entry<T>>) -> bool {
    forall|i: int, j: int|
        #![trigger s[i].id@, s[j].id@]
        0 <= i < s.len() && 0 <= j < s.len() && i != j ==> s[i].id@ != s[j].id@
}

pub proof fn lemma_sorted_distinct<T: Value>(s: Seq<Entry<T>>)
    requires
        entries_sorted(s),
    ensures
        ids_distinct(s),
{
    assert forall|i: int, j: int|
        #![trigger s[i].id@, s[j].id@]
        0 <= i < s.len() && 0 <= j < s.len() && i != j implies s[i].id@ != s[j].id@ by {
        if s[i].id@ == s[j].id@ {
            lemma_id_lt_irrefl(s[i].id@);
        }
    }
}

/// Witnesses an inserted value at index `i`.
pub open spec fn has_val_at<T: Value>(s: Seq<Entry<T>>, id: Seq<Branch>, i: int) -> bool {
    0 <= i < s.len() && s[i].id@ == id && s[i].val is Some
}

/// Witnesses a tombstone at index `i`.
pub open spec fn has_tomb_at<T: Value>(s: Seq<Entry<T>>, id: Seq<Branch>, i: int) -> bool {
    0 <= i < s.len() && s[i].id@ == id && s[i].dead
}

/// The value map a stored sequence denotes.
pub open spec fn entries_elems<T: Value>(s: Seq<Entry<T>>) -> Map<Seq<Branch>, T::V> {
    Map::new(
        |id: Seq<Branch>| exists|i: int| has_val_at(s, id, i),
        |id: Seq<Branch>| s[choose|i: int| has_val_at(s, id, i)].val->0@,
    )
}

/// The tombstone set a stored sequence denotes.
pub open spec fn entries_tombs<T: Value>(s: Seq<Entry<T>>) -> Set<Seq<Branch>> {
    Set::new(|id: Seq<Branch>| exists|i: int| has_tomb_at(s, id, i))
}

/// The model a stored sequence denotes.
pub open spec fn entries_model<T: Value>(s: Seq<Entry<T>>) -> ListModel<T::V> {
    ListModel { elems: entries_elems(s), tombs: entries_tombs(s) }
}

/// An entry holding a value is reflected in the value map.
pub proof fn lemma_elems_val<T: Value>(s: Seq<Entry<T>>, id: Seq<Branch>, k: int)
    requires
        ids_distinct(s),
        has_val_at(s, id, k),
    ensures
        entries_elems(s).contains_key(id),
        entries_elems(s)[id] == s[k].val->0@,
{
    let w = choose|i: int| has_val_at(s, id, i);
    assert(has_val_at(s, id, w));
    assert(w == k);
}

/// An identity no entry binds to a value is absent from the value map.
pub proof fn lemma_elems_absent<T: Value>(s: Seq<Entry<T>>, id: Seq<Branch>)
    requires
        forall|i: int| !has_val_at(s, id, i),
    ensures
        !entries_elems(s).contains_key(id),
{
}

/// Inserting an entry with an identity not yet stored adds exactly that
/// entry's contributions to the model.
pub proof fn lemma_model_insert<T: Value>(s: Seq<Entry<T>>, k: int, e: Entry<T>)
    requires
        0 <= k <= s.len(),
        ids_distinct(s),
        forall|i: int| 0 <= i < s.len() ==> (#[trigger] s[i]).id@ != e.id@,
    ensures
        e.val is Some ==> entries_elems(s.insert(k, e)) == entries_elems(s).insert(
            e.id@,
            e.val->0@,
        ),
        e.val is None ==> entries_elems(s.insert(k, e)) == entries_elems(s),
        e.dead ==> entries_tombs(s.insert(k, e)) == entries_tombs(s).insert(e.id@),
        !e.dead ==> entries_tombs(s.insert(k, e)) == entries_tombs(s),
{
    let s2 = s.insert(k, e);
    assert(s2 =~= s.take(k) + seq![e] + s.skip(k));
    assert forall|i: int| 0 <= i < k implies s2[i] == s[i] by {}
    assert(s2[k] == e);
    assert forall|i: int| k < i < s2.len() implies s2[i] == s[i - 1] by {}

    assert forall|x: Seq<Branch>, i: int| has_val_at(s2, x, i) implies (if i == k {
        x == e.id@ && e.val is Some
    } else {
        has_val_at(s, x, (if i < k { i } else { i - 1 }))
    }) by {}
    assert forall|x: Seq<Branch>, i: int| has_tomb_at(s2, x, i) implies (if i == k {
        x == e.id@ && e.dead
    } else {
        has_tomb_at(s, x, (if i < k { i } else { i - 1 }))
    }) by {}
    assert forall|x: Seq<Branch>, i: int| has_val_at(s, x, i) implies has_val_at(
        s2,
        x,
        (if i < k { i } else { i + 1 }),
    ) by {}
    assert forall|x: Seq<Branch>, i: int| has_tomb_at(s, x, i) implies has_tomb_at(
        s2,
        x,
        (if i < k { i } else { i + 1 }),
    ) by {}
    assert(ids_distinct(s2)) by {
        assert forall|i: int, j: int|
            #![trigger s2[i].id@, s2[j].id@]
            0 <= i < s2.len() && 0 <= j < s2.len() && i != j implies s2[i].id@ != s2[j].id@ by {}
    }

    if e.val is Some {
        let m1 = entries_elems(s2);
        let m2 = entries_elems(s).insert(e.id@, e.val->0@);
        assert forall|x: Seq<Branch>| m1.contains_key(x) implies m2.contains_key(x) && m1[x]
            == m2[x] by {
            let i = choose|i: int| has_val_at(s2, x, i);
            assert(has_val_at(s2, x, i));
            lemma_elems_val(s2, x, i);
            if i == k {
                assert(m1[x] == e.val->0@);
            } else {
                let j: int = if i < k { i } else { i - 1 };
                assert(has_val_at(s, x, j));
                lemma_elems_val(s, x, j);
                assert(x != e.id@);
            }
        }
        assert forall|x: Seq<Branch>| m2.contains_key(x) implies m1.contains_key(x) by {
            if x == e.id@ {
                assert(has_val_at(s2, x, k));
            } else {
                let i = choose|i: int| has_val_at(s, x, i);
                assert(has_val_at(s, x, i));
                assert(has_val_at(s2, x, (if i < k { i } else { i + 1 })));
            }
        }
        assert(m1 =~= m2);
    } else {
        let m1 = entries_elems(s2);
        let m2 = entries_elems(s);
        assert forall|x: Seq<Branch>| m1.contains_key(x) implies m2.contains_key(x) && m1[x]
            == m2[x] by {
            let i = choose|i: int| has_val_at(s2, x, i);
            assert(has_val_at(s2, x, i));
            lemma_elems_val(s2, x, i);
            assert(i != k);
            let j: int = if i < k { i } else { i - 1 };
            assert(has_val_at(s, x, j));
            lemma_elems_val(s, x, j);
        }
        assert forall|x: Seq<Branch>| m2.contains_key(x) implies m1.contains_key(x) by {
            let i = choose|i: int| has_val_at(s, x, i);
            assert(has_val_at(s, x, i));
            assert(has_val_at(s2, x, (if i < k { i } else { i + 1 })));
        }
        assert(m1 =~= m2);
    }

    if e.dead {
        let t1 = entries_tombs(s2);
        let t2 = entries_tombs(s).insert(e.id@);
        assert forall|x: Seq<Branch>| t1.contains(x) implies t2.contains(x) by {
            let i = choose|i: int| has_tomb_at(s2, x, i);
            assert(has_tomb_at(s2, x, i));
            if i != k {
                let j: int = if i < k { i } else { i - 1 };
                assert(has_tomb_at(s, x, j));
            }
        }
        assert forall|x: Seq<Branch>| t2.contains(x) implies t1.contains(x) by {
            if x == e.id@ {
                assert(has_tomb_at(s2, x, k));
            } else {
                let i = choose|i: int| has_tomb_at(s, x, i);
                assert(has_tomb_at(s, x, i));
                assert(has_tomb_at(s2, x, (if i < k { i } else { i + 1 })));
            }
        }
        assert(t1 =~= t2);
    } else {
        let t1 = entries_tombs(s2);
        let t2 = entries_tombs(s);
        assert forall|x: Seq<Branch>| t1.contains(x) implies t2.contains(x) by {
            let i = choose|i: int| has_tomb_at(s2, x, i);
            assert(has_tomb_at(s2, x, i));
            assert(i != k);
            let j: int = if i < k { i } else { i - 1 };
            assert(has_tomb_at(s, x, j));
        }
        assert forall|x: Seq<Branch>| t2.contains(x) implies t1.contains(x) by {
            let i = choose|i: int| has_tomb_at(s, x, i);
            assert(has_tomb_at(s, x, i));
            assert(has_tomb_at(s2, x, (if i < k { i } else { i + 1 })));
        }
        assert(t1 =~= t2);
    }
}

/// Filling the value of an entry that held none binds its identity in the
/// value map and leaves the tombstones alone.
pub proof fn lemma_model_fill<T: Value>(s: Seq<Entry<T>>, k: int, e2: Entry<T>)
    requires
        0 <= k < s.len(),
        ids_distinct(s),
        s[k].val is None,
        e2.id@ == s[k].id@,
        e2.val is Some,
        e2.dead == s[k].dead,
    ensures
        entries_elems(s.update(k, e2)) == entries_elems(s).insert(e2.id@, e2.val->0@),
        entries_tombs(s.update(k, e2)) == entries_tombs(s),
        !entries_elems(s).contains_key(e2.id@),
{
    let s2 = s.update(k, e2);
    assert forall|i: int| 0 <= i < s.len() && i != k implies s2[i] == s[i] by {}
    assert(ids_distinct(s2)) by {
        assert forall|i: int, j: int|
            #![trigger s2[i].id@, s2[j].id@]
            0 <= i < s2.len() && 0 <= j < s2.len() && i != j implies s2[i].id@ != s2[j].id@ by {
            assert(s[i].id@ != s[j].id@);
        }
    }
    assert forall|i: int| !has_val_at(s, e2.id@, i) by {
        if has_val_at(s, e2.id@, i) {
            assert(s[i].id@ == s[k].id@);
            assert(i == k);
        }
    }
    lemma_elems_absent(s, e2.id@);

    let m1 = entries_elems(s2);
    let m2 = entries_elems(s).insert(e2.id@, e2.val->0@);
    assert_maps_equal!(m1, m2, x => {
        if m1.contains_key(x) {
            let i = choose|i: int| has_val_at(s2, x, i);
            assert(has_val_at(s2, x, i));
            lemma_elems_val(s2, x, i);
            if i == k {
                assert(x == e2.id@);
                assert(s2[k] == e2);
                assert(m1[x] == e2.val->0@);
                assert(m2[x] == e2.val->0@);
            } else {
                assert(has_val_at(s, x, i));
                lemma_elems_val(s, x, i);
                assert(x != e2.id@);
                assert(m2[x] == entries_elems(s)[x]);
            }
        }
        if m2.contains_key(x) {
            if x == e2.id@ {
                assert(has_val_at(s2, x, k));
                lemma_elems_val(s2, x, k);
            } else {
                assert(entries_elems(s).contains_key(x));
                let i = choose|i: int| has_val_at(s, x, i);
                assert(has_val_at(s, x, i));
                assert(i != k);
                assert(has_val_at(s2, x, i));
                lemma_elems_val(s2, x, i);
            }
        }
    });

    let t1 = entries_tombs(s2);
    let t2 = entries_tombs(s);
    assert_sets_equal!(t1, t2, x => {
        if t1.contains(x) {
            let i = choose|i: int| has_tomb_at(s2, x, i);
            assert(has_tomb_at(s2, x, i));
            assert(has_tomb_at(s, x, i));
        }
        if t2.contains(x) {
            let i = choose|i: int| has_tomb_at(s, x, i);
            assert(has_tomb_at(s, x, i));
            assert(has_tomb_at(s2, x, i));
        }
    });
}

/// Tombstoning an entry adds its identity to the tombstone set and leaves
/// the value map alone.
pub proof fn lemma_model_kill<T: Value>(s: Seq<Entry<T>>, k: int, e2: Entry<T>)
    requires
        0 <= k < s.len(),
        ids_distinct(s),
        e2.id@ == s[k].id@,
        e2.val == s[k].val,
        e2.dead,
    ensures
        entries_elems(s.update(k, e2)) == entries_elems(s),
        entries_tombs(s.update(k, e2)) == entries_tombs(s).insert(e2.id@),
{
    let s2 = s.update(k, e2);
    assert forall|i: int| 0 <= i < s.len() && i != k implies s2[i] == s[i] by {}
    assert(ids_distinct(s2)) by {
        assert forall|i: int, j: int|
            #![trigger s2[i].id@, s2[j].id@]
            0 <= i < s2.len() && 0 <= j < s2.len() && i != j implies s2[i].id@ != s2[j].id@ by {
            assert(s[i].id@ != s[j].id@);
        }
    }

    let m1 = entries_elems(s2);
    let m2 = entries_elems(s);
    assert_maps_equal!(m1, m2, x => {
        if m1.contains_key(x) {
            let i = choose|i: int| has_val_at(s2, x, i);
            assert(has_val_at(s2, x, i));
            lemma_elems_val(s2, x, i);
            if i == k {
                assert(s2[k] == e2);
                assert(has_val_at(s, x, k));
                lemma_elems_val(s, x, k);
                assert(m1[x] == e2.val->0@);
                assert(m2[x] == s[k].val->0@);
            } else {
                assert(has_val_at(s, x, i));
                lemma_elems_val(s, x, i);
            }
        }
        if m2.contains_key(x) {
            let i = choose|i: int| has_val_at(s, x, i);
            assert(has_val_at(s, x, i));
            if i == k {
                assert(has_val_at(s2, x, k));
                lemma_elems_val(s2, x, k);
            } else {
                assert(has_val_at(s2, x, i));
                lemma_elems_val(s2, x, i);
            }
        }
    });

    let t1 = entries_tombs(s2);
    let t2 = entries_tombs(s).insert(e2.id@);
    assert_sets_equal!(t1, t2, x => {
        if t1.contains(x) {
            let i = choose|i: int| has_tomb_at(s2, x, i);
            assert(has_tomb_at(s2, x, i));
            if i != k {
                assert(has_tomb_at(s, x, i));
            }
        }
        if t2.contains(x) {
            if x == e2.id@ {
                assert(has_tomb_at(s2, x, k));
            } else {
                let i = choose|i: int| has_tomb_at(s, x, i);
                assert(has_tomb_at(s, x, i));
                assert(i != k);
                assert(has_tomb_at(s2, x, i));
            }
        }
    });
}

} // verus!
