//! The mathematical model of the store: maps from key character sequences to
//! record values, the staged-operation log, and the expiration bookkeeping
//! that the reclamation pass maintains over both.

use vstd::prelude::*;

verus! {

/// The value of one stored record: its payload characters and, if the record
/// carries a time-to-live, its absolute expiry instant in milliseconds.
pub struct ValueView {
    pub data: Seq<char>,
    pub expiry: Option<int>,
}

/// One staged writer-side operation, in the order the writer applied it.
pub enum OpView {
    Add(Seq<char>, ValueView),
    Remove(Seq<char>),
}

/// The effect of one staged operation on the logical map. A removal of an
/// absent key is tolerated as a no-op.
pub open spec fn apply_op(m: Map<Seq<char>, ValueView>, op: OpView) -> Map<Seq<char>, ValueView> {
    match op {
        OpView::Add(k, v) => m.insert(k, v),
        OpView::Remove(k) => m.remove(k),
    }
}

/// The map that results from applying a whole operation log, oldest first.
pub open spec fn apply_ops(m: Map<Seq<char>, ValueView>, ops: Seq<OpView>) -> Map<
    Seq<char>,
    ValueView,
>
    decreases ops.len(),
{
    if ops.len() == 0 {
        m
    } else {
        apply_op(apply_ops(m, ops.drop_last()), ops.last())
    }
}

/// Whether a record is due for eviction at instant `now`: it carries an
/// expiry at or before `now`. A record without a time-to-live never expires.
pub open spec fn expired(v: ValueView, now: int) -> bool {
    match v.expiry {
        Some(e) => e <= now,
        None => false,
    }
}

/// The records of `m` that survive an eviction sweep at instant `now`.
pub open spec fn live_after(m: Map<Seq<char>, ValueView>, now: int) -> Map<Seq<char>, ValueView> {
    Map::new(|k: Seq<char>| m.dom().contains(k) && !expired(m[k], now), |k: Seq<char>| m[k])
}

/// The expiration-index contents that exactly mirror `m`: each key holding a
/// time-to-live, mapped to its expiry instant.
pub open spec fn ttl_map(m: Map<Seq<char>, ValueView>) -> Map<Seq<char>, int> {
    Map::new(
        |k: Seq<char>| m.dom().contains(k) && m[k].expiry is Some,
        |k: Seq<char>| m[k].expiry->0,
    )
}

/// Every `Add` in the log is for a key absent from the map it lands on.
/// The store's insert check maintains this for the whole staged log.
pub open spec fn adds_fresh(m: Map<Seq<char>, ValueView>, ops: Seq<OpView>) -> bool {
    forall|i: int|
        0 <= i < ops.len() && (#[trigger] ops[i]) is Add ==> !apply_ops(
            m,
            ops.take(i),
        ).dom().contains(ops[i]->Add_0)
}

/// Applying one more operation of the log extends the applied prefix.
pub proof fn lemma_apply_ops_take_step(m: Map<Seq<char>, ValueView>, ops: Seq<OpView>, i: int)
    requires
        0 <= i < ops.len(),
    ensures
        apply_ops(m, ops.take(i + 1)) == apply_op(apply_ops(m, ops.take(i)), ops[i]),
{
    assert(ops.take(i + 1).drop_last() =~= ops.take(i));
    assert(ops.take(i + 1).last() == ops[i]);
}

/// The whole log is its own full prefix.
pub proof fn lemma_apply_ops_take_all(m: Map<Seq<char>, ValueView>, ops: Seq<OpView>)
    ensures
        apply_ops(m, ops.take(ops.len() as int)) == apply_ops(m, ops),
{
    assert(ops.take(ops.len() as int) =~= ops);
}

/// The expiration image of a map only mentions keys of the map.
pub proof fn lemma_ttl_map_dom(m: Map<Seq<char>, ValueView>)
    ensures
        ttl_map(m).dom() <= m.dom(),
{
    assert forall|k: Seq<char>| ttl_map(m).dom().contains(k) implies m.dom().contains(k) by {}
}

/// Removing a key from the map removes it from the expiration image.
pub proof fn lemma_ttl_map_remove(m: Map<Seq<char>, ValueView>, k: Seq<char>)
    ensures
        ttl_map(m.remove(k)) == ttl_map(m).remove(k),
{
    assert(ttl_map(m.remove(k)) =~= ttl_map(m).remove(k));
}

/// Adding a fresh key extends the expiration image exactly when the new
/// record carries a time-to-live.
pub proof fn lemma_ttl_map_insert_fresh(m: Map<Seq<char>, ValueView>, k: Seq<char>, v: ValueView)
    requires
        !m.dom().contains(k),
    ensures
        v.expiry is Some ==> ttl_map(m.insert(k, v)) == ttl_map(m).insert(k, v.expiry->0),
        v.expiry is None ==> ttl_map(m.insert(k, v)) == ttl_map(m),
{
    if v.expiry is Some {
        assert(ttl_map(m.insert(k, v)) =~= ttl_map(m).insert(k, v.expiry->0));
    } else {
        assert(ttl_map(m.insert(k, v)) =~= ttl_map(m));
    }
}

/// A log keeps the domain of its result inside the starting domain plus its
/// own added keys, so a finite map stays finite under any log.
pub proof fn lemma_apply_ops_finite(m: Map<Seq<char>, ValueView>, ops: Seq<OpView>)
    requires
        m.dom().finite(),
    ensures
        apply_ops(m, ops).dom().finite(),
    decreases ops.len(),
{
    if ops.len() > 0 {
        lemma_apply_ops_finite(m, ops.drop_last());
    }
}

/// Inserting a fresh key with no time-to-live and then publishing it
/// through a reclamation at any instant leaves the key readable with
/// exactly the inserted payload.
pub proof fn law_insert_then_get(
    m: Map<Seq<char>, ValueView>,
    k: Seq<char>,
    d: Seq<char>,
    now: int,
)
    requires
        !m.dom().contains(k),
    ensures
        live_after(m.insert(k, ValueView { data: d, expiry: None }), now).contains_pair(
            k,
            ValueView { data: d, expiry: None },
        ),
{
}

/// A key whose removal is staged before a reclamation is absent from what
/// that reclamation publishes, whatever had been inserted for it before.
pub proof fn law_delete_then_get(m: Map<Seq<char>, ValueView>, k: Seq<char>, now: int)
    ensures
        !live_after(m.remove(k), now).dom().contains(k),
{
}

/// A record inserted at `now0` with time-to-live `t` is evicted by every
/// reclamation that runs once its expiry `now0 + t` has been reached.
pub proof fn law_ttl_expiry(
    m: Map<Seq<char>, ValueView>,
    k: Seq<char>,
    d: Seq<char>,
    now0: int,
    t: int,
    now: int,
)
    requires
        now0 + t <= now,
    ensures
        !live_after(m.insert(k, ValueView { data: d, expiry: Some(now0 + t) }), now).dom().contains(
            k,
        ),
{
}

/// A record without a time-to-live survives every reclamation unchanged,
/// however late the reclamation runs.
pub proof fn law_no_ttl_persists(m: Map<Seq<char>, ValueView>, k: Seq<char>, now: int)
    requires
        m.dom().contains(k),
        m[k].expiry is None,
    ensures
        live_after(m, now).contains_pair(k, m[k]),
{
}

} // verus!
