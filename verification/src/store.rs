//! The store itself: a logical key-value map exposed through two surfaces.
//! A writer stages insertions and deletions in an operation log; readers see
//! only the published entries. The reclamation pass (`reclaim`) drains the
//! log into the expiration index, evicts the keys whose expiry has passed,
//! and publishes the accumulated operations in order.

use crate::model::{
    adds_fresh, apply_op, apply_ops, expired, lemma_apply_ops_finite, lemma_apply_ops_take_all,
    lemma_apply_ops_take_step, lemma_ttl_map_dom, lemma_ttl_map_insert_fresh, lemma_ttl_map_remove,
    live_after, ttl_map, OpView, ValueView,
};
use crate::ttl_index::{
    dpq_contains, dpq_entries, dpq_new, dpq_peek_min, dpq_push, dpq_remove, TtlQueue,
};
use vstd::prelude::*;

verus! {

/// A key names at most one live record at a time.
pub type KeyType = String;

/// The two expected failures of the store: a lookup-dependent operation on a
/// key with no live record, and an insertion over a key that already holds
/// one.
#[derive(Debug, PartialEq, Eq, Structural)]
pub enum ModelError {
    NotFound,
    AlreadyPresent,
}

impl ModelError {
    /// A short description of the error, for the surrounding service layer.
    pub fn message(&self) -> (r: &'static str)
        ensures
            *self is NotFound ==> r@ == "Key Not Found"@,
            *self is AlreadyPresent ==> r@ == "Key is not present in the data set"@,
    {
        match self {
            ModelError::NotFound => "Key Not Found",
            ModelError::AlreadyPresent => "Key is not present in the data set",
        }
    }
}

/// One stored record: the serialized payload and, if the record was given a
/// time-to-live, the absolute instant (milliseconds) at which it expires.
/// A record is never mutated in place; replacement is delete-then-insert.
pub struct StoredValue {
    pub data: String,
    pub ttl: Option<i64>,
}

impl View for StoredValue {
    type V = ValueView;

    open spec fn view(&self) -> ValueView {
        ValueView {
            data: self.data@,
            expiry: match self.ttl {
                Some(e) => Some(e as int),
                None => None,
            },
        }
    }
}

impl Clone for StoredValue {
    fn clone(&self) -> (r: Self)
        ensures
            r@ == self@,
    {
        StoredValue { data: self.data.clone(), ttl: self.ttl }
    }
}

/// One entry of the writer-side operation log.
pub enum Op {
    Add(KeyType, StoredValue),
    Remove(KeyType),
}

impl View for Op {
    type V = OpView;

    open spec fn view(&self) -> OpView {
        match self {
            Op::Add(k, v) => OpView::Add(k@, v@),
            Op::Remove(k) => OpView::Remove(k@),
        }
    }
}

/// The logical map held by a sequence of entries, later entries winning.
/// Under `keys_unique` no two entries share a key, so order is immaterial.
pub open spec fn map_of(entries: Seq<(KeyType, StoredValue)>) -> Map<Seq<char>, ValueView>
    decreases entries.len(),
{
    if entries.len() == 0 {
        Map::empty()
    } else {
        map_of(entries.drop_last()).insert(entries.last().0@, entries.last().1@)
    }
}

/// No two entries carry the same key.
pub open spec fn keys_unique(entries: Seq<(KeyType, StoredValue)>) -> bool {
    forall|i: int, j: int|
        0 <= i < j < entries.len() ==> (#[trigger] entries[i]).0@ != (#[trigger] entries[j]).0@
}

/// The domain of `map_of` is finite and is exactly the keys of the entries.
pub proof fn lemma_map_of_dom(entries: Seq<(KeyType, StoredValue)>)
    ensures
        map_of(entries).dom().finite(),
        forall|k: Seq<char>|
            #[trigger] map_of(entries).dom().contains(k) ==> exists|i: int|
                0 <= i < entries.len() && (#[trigger] entries[i]).0@ == k,
        forall|i: int|
            0 <= i < entries.len() ==> map_of(entries).dom().contains((#[trigger] entries[i]).0@),
    decreases entries.len(),
{
    if entries.len() > 0 {
        lemma_map_of_dom(entries.drop_last());
        assert forall|k: Seq<char>| #[trigger] map_of(entries).dom().contains(k) implies exists|
            i: int,
        | 0 <= i < entries.len() && (#[trigger] entries[i]).0@ == k by {
            if k == entries.last().0@ {
                assert(entries[entries.len() - 1].0@ == k);
            } else {
                let i = choose|i: int|
                    0 <= i < entries.drop_last().len() && (#[trigger] entries.drop_last()[i]).0@
                        == k;
                assert(entries[i].0@ == k);
            }
        }
        assert forall|i: int| 0 <= i < entries.len() implies map_of(entries).dom().contains(
            (#[trigger] entries[i]).0@,
        ) by {
            if i < entries.len() - 1 {
                assert(entries.drop_last()[i] == entries[i]);
            }
        }
    }
}

/// Under unique keys, each entry is the one the map holds for its key.
pub proof fn lemma_map_of_index(entries: Seq<(KeyType, StoredValue)>, i: int)
    requires
        keys_unique(entries),
        0 <= i < entries.len(),
    ensures
        map_of(entries).dom().contains(entries[i].0@),
        map_of(entries)[entries[i].0@] == entries[i].1@,
    decreases entries.len(),
{
    if i < entries.len() - 1 {
        lemma_map_of_index(entries.drop_last(), i);
        assert(entries.drop_last()[i] == entries[i]);
        assert(entries[i].0@ != entries.last().0@);
    }
}

/// Removing the entry at `i` removes exactly its key from the map.
pub proof fn lemma_map_of_remove(entries: Seq<(KeyType, StoredValue)>, i: int)
    requires
        keys_unique(entries),
        0 <= i < entries.len(),
    ensures
        keys_unique(entries.remove(i)),
        map_of(entries.remove(i)) == map_of(entries).remove(entries[i].0@),
    decreases entries.len(),
{
    assert forall|a: int, b: int| 0 <= a < b < entries.remove(i).len() implies (#[trigger] entries
        .remove(i)[a]).0@ != (#[trigger] entries.remove(i)[b]).0@ by {
        let a0 = if a < i { a } else { a + 1 };
        let b0 = if b < i { b } else { b + 1 };
        assert(entries.remove(i)[a] == entries[a0]);
        assert(entries.remove(i)[b] == entries[b0]);
    }
    if i == entries.len() - 1 {
        lemma_map_of_dom(entries.drop_last());
        assert(entries.remove(i) =~= entries.drop_last());
        assert forall|k: Seq<char>| #[trigger] map_of(entries.drop_last()).dom().contains(
            k,
        ) implies k != entries[i].0@ by {
            let j = choose|j: int|
                0 <= j < entries.drop_last().len() && (#[trigger] entries.drop_last()[j]).0@ == k;
            assert(entries[j] == entries.drop_last()[j]);
        }
        assert(map_of(entries.remove(i)) =~= map_of(entries).remove(entries[i].0@));
    } else {
        lemma_map_of_remove(entries.drop_last(), i);
        assert(entries.remove(i).drop_last() =~= entries.drop_last().remove(i));
        assert(entries.remove(i).last() == entries.last());
        assert(entries.drop_last()[i] == entries[i]);
        assert(entries[i].0@ != entries.last().0@);
        assert(map_of(entries.remove(i)) =~= map_of(entries).remove(entries[i].0@));
    }
}

/// Find the entry holding `key`, if one does.
fn find_entry(entries: &Vec<(KeyType, StoredValue)>, key: &KeyType) -> (r: Option<usize>)
    ensures
        match r {
            Some(i) => i < entries@.len() && entries@[i as int].0@ == key@,
            None => !map_of(entries@).dom().contains(key@),
        },
{
    let n = entries.len();
    let mut i: usize = 0;
    while i < n
        invariant
            n == entries@.len(),
            i <= n,
            forall|j: int| 0 <= j < i ==> (#[trigger] entries@[j]).0@ != key@,
        decreases n - i,
    {
        if entries[i].0 == *key {
            return Some(i);
        }
        i = i + 1;
    }
    proof {
        lemma_map_of_dom(entries@);
    }
    None
}

/// Remove the entry holding `key`, if one does; the map loses exactly that
/// key. Removal of an absent key is a no-op.
fn remove_entry(entries: &mut Vec<(KeyType, StoredValue)>, key: &KeyType)
    requires
        keys_unique(old(entries)@),
    ensures
        keys_unique(final(entries)@),
        map_of(final(entries)@) == map_of(old(entries)@).remove(key@),
{
    match find_entry(entries, key) {
        Some(i) => {
            proof {
                lemma_map_of_remove(entries@, i as int);
            }
            entries.remove(i);
        },
        None => {
            proof {
                assert(map_of(entries@).remove(key@) =~= map_of(entries@));
            }
        },
    }
}

/// The store: the published entries readers see, the staged operation log
/// the writer has applied since the last publication, and the expiration
/// index the reclamation pass keeps consistent with the published entries.
pub struct Store {
    published: Vec<(KeyType, StoredValue)>,
    pending: Vec<Op>,
    ttl_queue: TtlQueue,
}

impl Store {
    /// The reader-visible map.
    pub closed spec fn published_map(self) -> Map<Seq<char>, ValueView> {
        map_of(self.published@)
    }

    /// The staged operation log, oldest first.
    pub closed spec fn ops(self) -> Seq<OpView> {
        self.pending@.map_values(|o: Op| o@)
    }

    /// The writer's logical map: the published map with the staged log
    /// applied. A key is live exactly when it is in this map.
    pub open spec fn staged_map(self) -> Map<Seq<char>, ValueView> {
        apply_ops(self.published_map(), self.ops())
    }

    /// Well-formedness: published keys are unique, the expiration index
    /// mirrors exactly the published records that carry a time-to-live, and
    /// every staged addition is for a key absent at its point in the log.
    pub closed spec fn wf(self) -> bool {
        &&& keys_unique(self.published@)
        &&& self.index_entries() == ttl_map(self.published_map())
        &&& adds_fresh(self.published_map(), self.ops())
    }

    /// What the expiration index tracks.
    pub closed spec fn index_entries(self) -> Map<Seq<char>, int> {
        dpq_entries(self.ttl_queue)
    }

    /// A fresh store: nothing published, nothing staged, nothing indexed.
    pub fn init() -> (s: Store)
        ensures
            s.wf(),
            s.published_map() == Map::<Seq<char>, ValueView>::empty(),
            s.staged_map() == Map::<Seq<char>, ValueView>::empty(),
            s.ops() == Seq::<OpView>::empty(),
    {
        let s = Store { published: Vec::new(), pending: Vec::new(), ttl_queue: dpq_new() };
        proof {
            assert(s.ops() =~= Seq::<OpView>::empty());
            assert(s.published_map() =~= Map::<Seq<char>, ValueView>::empty());
            assert(ttl_map(s.published_map()) =~= Map::<Seq<char>, int>::empty());
        }
        s
    }

    /// Whether `key` holds a live record in the writer's logical map.
    fn staged_contains(&self, key: &KeyType) -> (r: bool)
        ensures
            r == self.staged_map().dom().contains(key@),
    {
        let ghost m0 = self.published_map();
        let ghost ops = self.ops();
        let mut i = self.pending.len();
        proof {
            lemma_apply_ops_take_all(m0, ops);
        }
        while i > 0
            invariant
                i <= self.pending@.len(),
                ops == self.ops(),
                m0 == self.published_map(),
                self.staged_map().dom().contains(key@) == apply_ops(
                    m0,
                    ops.take(i as int),
                ).dom().contains(key@),
            decreases i,
        {
            i = i - 1;
            proof {
                lemma_apply_ops_take_step(m0, ops, i as int);
            }
            match &self.pending[i] {
                Op::Add(k, _) => {
                    if *k == *key {
                        return true;
                    }
                },
                Op::Remove(k) => {
                    if *k == *key {
                        return false;
                    }
                },
            }
        }
        let r = find_entry(&self.published, key);
        proof {
            assert(ops.take(0) =~= Seq::<OpView>::empty());
            lemma_map_of_dom(self.published@);
            if r is Some {
                let j = r->0 as int;
                assert(self.published@[j].0@ == key@);
            }
        }
        r.is_some()
    }

    /// Stage a new record for `key`. The record's expiry is `now + t`
    /// milliseconds when a time-to-live `t` is given, and absent otherwise.
    /// Fails with `AlreadyPresent`, staging nothing, exactly when `key`
    /// already holds a live record. The published map, and so every
    /// concurrent read, is unchanged either way; the record becomes visible
    /// only when a later `reclaim` publishes it.
    pub fn insert(&mut self, key: KeyType, value: String, ttl: Option<i64>, now: i64) -> (r: Result<
        (),
        ModelError,
    >)
        requires
            old(self).wf(),
            ttl matches Some(t) ==> i64::MIN <= now + t <= i64::MAX,
        ensures
            final(self).wf(),
            final(self).published_map() == old(self).published_map(),
            final(self).index_entries() == old(self).index_entries(),
            match r {
                Ok(()) => {
                    &&& !old(self).staged_map().dom().contains(key@)
                    &&& final(self).staged_map() == old(self).staged_map().insert(
                        key@,
                        ValueView { data: value@, expiry: spec_expiry(ttl, now) },
                    )
                    &&& final(self).ops() == old(self).ops().push(
                        OpView::Add(key@, ValueView { data: value@, expiry: spec_expiry(ttl, now) }),
                    )
                },
                Err(e) => {
                    &&& e is AlreadyPresent
                    &&& old(self).staged_map().dom().contains(key@)
                    &&& *final(self) == *old(self)
                },
            },
    {
        if self.staged_contains(&key) {
            return Err(ModelError::AlreadyPresent);
        }
        let expiry = match ttl {
            Some(t) => Some(now + t),
            None => None,
        };
        let ghost pre = *self;
        let op = Op::Add(key, StoredValue { data: value, ttl: expiry });
        let ghost opv = op@;
        self.pending.push(op);
        proof {
            assert(self.pending@.last()@ == opv);
            lemma_ops_push(pre, *self);
            lemma_adds_fresh_push(pre.published_map(), pre.ops(), opv);
        }
        Ok(())
    }

    /// Stage the removal of `key`'s live record. Fails with `NotFound`,
    /// staging nothing, exactly when `key` holds none. As with `insert`, the
    /// published map is unchanged until the next `reclaim`.
    pub fn delete(&mut self, key: KeyType) -> (r: Result<(), ModelError>)
        requires
            old(self).wf(),
        ensures
            final(self).wf(),
            final(self).published_map() == old(self).published_map(),
            final(self).index_entries() == old(self).index_entries(),
            match r {
                Ok(()) => {
                    &&& old(self).staged_map().dom().contains(key@)
                    &&& final(self).staged_map() == old(self).staged_map().remove(key@)
                    &&& final(self).ops() == old(self).ops().push(OpView::Remove(key@))
                },
                Err(e) => {
                    &&& e is NotFound
                    &&& !old(self).staged_map().dom().contains(key@)
                    &&& *final(self) == *old(self)
                },
            },
    {
        if !self.staged_contains(&key) {
            return Err(ModelError::NotFound);
        }
        let ghost pre = *self;
        let op = Op::Remove(key);
        let ghost opv = op@;
        self.pending.push(op);
        proof {
            assert(self.pending@.last()@ == opv);
            lemma_ops_push(pre, *self);
            lemma_adds_fresh_push(pre.published_map(), pre.ops(), opv);
        }
        Ok(())
    }

    /// Read `key` from the published map: the payload of its published
    /// record, or nothing when no record is published for it. Staged
    /// operations are invisible here until a `reclaim` publishes them.
    pub fn get(&self, key: &KeyType) -> (r: Result<Option<String>, ModelError>)
        requires
            self.wf(),
        ensures
            match r {
                Ok(Some(s)) => self.published_map().dom().contains(key@) && s@
                    == self.published_map()[key@].data,
                Ok(None) => !self.published_map().dom().contains(key@),
                Err(_) => false,
            },
    {
        match find_entry(&self.published, key) {
            Some(i) => {
                proof {
                    lemma_map_of_index(self.published@, i as int);
                }
                Ok(Some(self.published[i].1.data.clone()))
            },
            None => Ok(None),
        }
    }

    /// One reclamation cycle at instant `now`, the only place the
    /// expiration index is read or written. It drains the staged log into
    /// the index in order, evicts every key whose expiry is at or before
    /// `now`, and publishes the accumulated operations, so that afterwards
    /// the readers see exactly the staged records that had not expired.
    pub fn reclaim(&mut self, now: i64)
        requires
            old(self).wf(),
        ensures
            final(self).wf(),
            final(self).ops() == Seq::<OpView>::empty(),
            final(self).published_map() == live_after(old(self).staged_map(), now as int),
            final(self).staged_map() == final(self).published_map(),
    {
        let ghost m0 = self.published_map();
        let ghost pub0 = self.published@;
        let ghost ops0 = self.ops();
        let ghost staged0 = self.staged_map();

        // Drain: replay the staged log, oldest first, against the index.
        let n = self.pending.len();
        let mut idx: usize = 0;
        proof {
            assert(ops0.take(0) =~= Seq::<OpView>::empty());
        }
        while idx < n
            invariant
                idx <= n,
                n == self.pending@.len(),
                self.published@ == pub0,
                m0 == self.published_map(),
                ops0 == self.ops(),
                keys_unique(pub0),
                adds_fresh(m0, ops0),
                dpq_entries(self.ttl_queue) == ttl_map(apply_ops(m0, ops0.take(idx as int))),
            decreases n - idx,
        {
            let ghost cur = apply_ops(m0, ops0.take(idx as int));
            proof {
                lemma_apply_ops_take_step(m0, ops0, idx as int);
            }
            match &self.pending[idx] {
                Op::Add(k, v) => {
                    proof {
                        assert(ops0[idx as int] == OpView::Add(k@, v@));
                        assert(!cur.dom().contains(k@));
                        lemma_ttl_map_insert_fresh(cur, k@, v@);
                    }
                    if let Some(e) = v.ttl {
                        let kc = k.clone();
                        dpq_push(&mut self.ttl_queue, kc, e);
                    }
                },
                Op::Remove(k) => {
                    proof {
                        lemma_ttl_map_remove(cur, k@);
                    }
                    if dpq_contains(&self.ttl_queue, k) {
                        dpq_remove(&mut self.ttl_queue, k);
                    } else {
                        proof {
                            assert(dpq_entries(self.ttl_queue).remove(k@) =~= dpq_entries(
                                self.ttl_queue,
                            ));
                        }
                    }
                },
            }
            idx = idx + 1;
        }
        proof {
            lemma_apply_ops_take_all(m0, ops0);
            lemma_map_of_dom(pub0);
            lemma_apply_ops_finite(m0, ops0);
        }

        // Sweep: evict, through staged removals, every key whose tracked
        // expiry is at or before `now`.
        loop
            invariant
                self.published@ == pub0,
                m0 == self.published_map(),
                keys_unique(pub0),
                adds_fresh(m0, self.ops()),
                dpq_entries(self.ttl_queue) == ttl_map(apply_ops(m0, self.ops())),
                apply_ops(m0, self.ops()).dom().finite(),
                forall|k: Seq<char>| #[trigger] apply_ops(m0, self.ops()).dom().contains(k)
                    ==> staged0.dom().contains(k) && apply_ops(m0, self.ops())[k] == staged0[k],
                forall|k: Seq<char>|
                    staged0.dom().contains(k) && !expired(#[trigger] staged0[k], now as int)
                        ==> apply_ops(m0, self.ops()).dom().contains(k),
            ensures
                self.published@ == pub0,
                m0 == self.published_map(),
                adds_fresh(m0, self.ops()),
                dpq_entries(self.ttl_queue) == ttl_map(apply_ops(m0, self.ops())),
                apply_ops(m0, self.ops()) == live_after(staged0, now as int),
            decreases dpq_entries(self.ttl_queue).dom().len(),
        {
            let ghost cur = apply_ops(m0, self.ops());
            proof {
                lemma_ttl_map_dom(cur);
                vstd::set_lib::lemma_len_subset(ttl_map(cur).dom(), cur.dom());
            }
            let next = dpq_peek_min(&self.ttl_queue);
            match next {
                None => {
                    proof {
                        assert forall|k2: Seq<char>| #[trigger] cur.dom().contains(k2) && expired(
                            cur[k2],
                            now as int,
                        ) implies false by {
                            assert(ttl_map(cur).dom().contains(k2));
                        }
                        assert(cur =~= live_after(staged0, now as int));
                    }
                    break ;
                },
                Some((k, e)) => {
                    if e > now {
                        proof {
                            assert forall|k2: Seq<char>| #[trigger] cur.dom().contains(k2)
                                && expired(cur[k2], now as int) implies false by {
                                assert(ttl_map(cur).dom().contains(k2));
                                assert(ttl_map(cur)[k2] <= now as int);
                            }
                            assert(cur =~= live_after(staged0, now as int));
                        }
                        break ;
                    }
                    proof {
                        assert(ttl_map(cur).contains_pair(k@, e as int));
                        assert(cur.dom().contains(k@));
                        assert(expired(cur[k@], now as int));
                    }
                    let ghost pre = *self;
                    self.pending.push(Op::Remove(k.clone()));
                    proof {
                        assert(self.pending@.last()@ == OpView::Remove(k@));
                        lemma_ops_push(pre, *self);
                        lemma_adds_fresh_push(m0, pre.ops(), OpView::Remove(k@));
                        lemma_ttl_map_remove(cur, k@);
                    }
                    dpq_remove(&mut self.ttl_queue, &k);
                    proof {
                        assert(apply_ops(m0, self.ops()) == cur.remove(k@));
                        assert forall|k2: Seq<char>|
                            staged0.dom().contains(k2) && !expired(
                                #[trigger] staged0[k2],
                                now as int,
                            ) implies cur.remove(k@).dom().contains(k2) by {
                            assert(cur.dom().contains(k2));
                            assert(k2 != k@);
                        }
                    }
                },
            }
        }

        // Publish: apply the whole log, in order, to the reader-visible
        // entries, then clear it.
        let ghost ops1 = self.ops();
        let ghost live1 = apply_ops(m0, ops1);
        let ghost entries1 = dpq_entries(self.ttl_queue);
        let m = self.pending.len();
        let mut j: usize = 0;
        proof {
            assert(ops1.take(0) =~= Seq::<OpView>::empty());
        }
        while j < m
            invariant
                j <= m,
                m == self.pending@.len(),
                ops1 == self.ops(),
                dpq_entries(self.ttl_queue) == entries1,
                keys_unique(self.published@),
                adds_fresh(m0, ops1),
                map_of(self.published@) == apply_ops(m0, ops1.take(j as int)),
            decreases m - j,
        {
            let ghost curp = map_of(self.published@);
            proof {
                lemma_apply_ops_take_step(m0, ops1, j as int);
            }
            match &self.pending[j] {
                Op::Add(k, v) => {
                    proof {
                        assert(ops1[j as int] == OpView::Add(k@, v@));
                        assert(!curp.dom().contains(k@));
                        lemma_map_of_dom(self.published@);
                    }
                    let ghost pubpre = self.published@;
                    let kc = k.clone();
                    let vc = v.clone();
                    self.published.push((kc, vc));
                    proof {
                        assert(self.published@.drop_last() =~= pubpre);
                        assert forall|a: int, b: int|
                            0 <= a < b < self.published@.len() implies (#[trigger] self
                            .published@[a]).0@ != (#[trigger] self.published@[b]).0@ by {
                            if b == self.published@.len() - 1 {
                                assert(map_of(pubpre).dom().contains(pubpre[a].0@));
                            }
                        }
                    }
                },
                Op::Remove(k) => {
                    remove_entry(&mut self.published, k);
                },
            }
            j = j + 1;
        }
        self.pending = Vec::new();
        proof {
            lemma_apply_ops_take_all(m0, ops1);
            assert(self.ops() =~= Seq::<OpView>::empty());
            assert(self.published_map() == live1);
            assert(self.staged_map() == self.published_map());
            assert(ttl_map(self.published_map()) == dpq_entries(self.ttl_queue));
        }
    }

    /// One reclamation cycle at the instant the ambient clock reads now.
    /// The clock's value is outside the store's control, so the published
    /// state is pinned only up to the instant the cycle ran at.
    pub fn reclaim_now(&mut self)
        requires
            old(self).wf(),
        ensures
            final(self).wf(),
            final(self).ops() == Seq::<OpView>::empty(),
            final(self).staged_map() == final(self).published_map(),
            exists|now: i64|
                final(self).published_map() == #[trigger] live_after(
                    old(self).staged_map(),
                    now as int,
                ),
    {
        let now = crate::clock::now_millis();
        self.reclaim(now);
        proof {
            assert(self.published_map() == live_after(old(self).staged_map(), now as int));
        }
    }
}

/// The store's standing consistency invariant, visible by name: in a
/// well-formed store the expiration index tracks exactly the published
/// records that carry a time-to-live, each under its expiry instant.
pub proof fn lemma_index_mirrors_published(s: Store)
    requires
        s.wf(),
    ensures
        s.index_entries() == ttl_map(s.published_map()),
{
}

/// The record's expiry as `insert` computes it from a time-to-live.
pub open spec fn spec_expiry(ttl: Option<i64>, now: i64) -> Option<int> {
    match ttl {
        Some(t) => Some(now + t),
        None => None,
    }
}

/// Pushing one operation onto the log extends the op view and applies the
/// operation to the staged map.
proof fn lemma_ops_push(pre: Store, post: Store)
    requires
        pre.pending@.len() + 1 == post.pending@.len(),
        post.pending@ == pre.pending@.push(post.pending@.last()),
        post.published == pre.published,
    ensures
        post.ops() == pre.ops().push(post.pending@.last()@),
        post.staged_map() == apply_op(pre.staged_map(), post.pending@.last()@),
{
    assert(post.ops() =~= pre.ops().push(post.pending@.last()@));
    assert(post.ops().drop_last() =~= pre.ops());
}

/// Appending an operation keeps every earlier addition fresh; an appended
/// addition is itself fresh when its key is absent from the staged map.
proof fn lemma_adds_fresh_push(m: Map<Seq<char>, ValueView>, ops: Seq<OpView>, opv: OpView)
    requires
        adds_fresh(m, ops),
        opv is Add ==> !apply_ops(m, ops).dom().contains(opv->Add_0),
    ensures
        adds_fresh(m, ops.push(opv)),
{
    let ops2 = ops.push(opv);
    assert forall|i: int| 0 <= i < ops2.len() && (#[trigger] ops2[i]) is Add implies !apply_ops(
        m,
        ops2.take(i),
    ).dom().contains(ops2[i]->Add_0) by {
        assert(ops2.take(i) =~= ops.take(i));
        if i < ops.len() {
            assert(ops2[i] == ops[i]);
        } else {
            assert(ops.take(i) =~= ops);
        }
    }
}

} // verus!
