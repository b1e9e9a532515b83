//! The store facade: the verified bookkeeping core of the chunk store.
//!
//! The store accepts opaque byte keys and byte values.  Its abstract state
//! (`StoreView`) is the map from each accepted, not yet deleted key to the
//! value last accepted for it, together with the space accounting and the set
//! of keys whose background write is still in flight.
//!
//! Durability is decoupled from acceptance.  `put` returns once the
//! bookkeeping is updated and records a pending write; the runner around the
//! library carries the bytes to disk on a worker and reports completion
//! through `clean_up_threads`.  Before a `put` or `delete` touches a key, any
//! pending write for that same key is reaped — waited for, in the runner —
//! so at most one write per key is ever in flight, and a caller only ever
//! blocks on its own key.
//!
//! A read is never synchronized against writes of other keys; for the read
//! key itself the store resolves the read/write race deliberately: `get`
//! returns the value last accepted for the key, which is what a reader sees
//! once the pending write for that key has been waited out.

use vstd::prelude::*;

use crate::error::Error;
use crate::naming::key_fits;
use crate::naming::key_has_name;
use crate::space::SpaceAccountant;

verus! {

/// One accepted chunk: its key, the bytes last accepted for it, and whether
/// the background write of those bytes has completed.
struct ChunkRecord {
    key: Vec<u8>,
    value: Vec<u8>,
    completed: bool,
}

/// The abstract state of a `ChunkStore`.
#[verifier::ext_equal]
pub struct StoreView {
    /// The capacity ceiling, in bytes.
    pub max: int,
    /// The bytes in use: the total size of the accepted values.
    pub used: int,
    /// The contents: each accepted, not yet deleted key, mapped to the value
    /// last accepted for it.
    pub data: Map<Seq<u8>, Seq<u8>>,
    /// The keys whose last accepted write is still in flight.
    pub pending: Set<Seq<u8>>,
}

/// The views of a sequence of byte vectors.
pub open spec fn seq_views(s: Seq<Vec<u8>>) -> Seq<Seq<u8>> {
    s.map_values(|k: Vec<u8>| k@)
}

/// The total size in bytes of the values of a finite contents map.
pub open spec fn map_bytes(d: Map<Seq<u8>, Seq<u8>>) -> int
    recommends
        d.dom().finite(),
    decreases d.dom().len(),
{
    if d.dom().finite() && !d.dom().is_empty() {
        let k = d.dom().choose();
        d[k].len() + map_bytes(d.remove(k))
    } else {
        0
    }
}

/// Whether a `put` of `value` under `key` is accepted: the key must be small
/// enough to be named, and the value's bytes must fit under the ceiling
/// before anything is debited for a chunk being replaced.
pub open spec fn put_accepted(s: StoreView, key: Seq<u8>, value: Seq<u8>) -> bool {
    key_has_name(key) && s.used + value.len() <= s.max
}

/// The actual stored size of the chunk under `key`: zero if there is none.
pub open spec fn stored_size(s: StoreView, key: Seq<u8>) -> int {
    if s.data.contains_key(key) {
        s.data[key].len() as int
    } else {
        0
    }
}

/// The state after an accepted `put`: the value is the one now stored under
/// the key, the size of any chunk it replaced is debited and the new value's
/// size credited, and the key's write is in flight.
pub open spec fn put_outcome(s: StoreView, key: Seq<u8>, value: Seq<u8>) -> StoreView {
    StoreView {
        used: s.used - stored_size(s, key) + value.len(),
        data: s.data.insert(key, value),
        pending: s.pending.insert(key),
        max: s.max,
    }
}

/// The state after the pending write for `key`, if one was in flight, has
/// been reaped: contents and accounting are untouched.
pub open spec fn reap_outcome(s: StoreView, key: Seq<u8>) -> StoreView {
    StoreView { pending: s.pending.remove(key), ..s }
}

/// The state after a `delete` of `key`: the chunk is gone and its actual
/// size is debited; deleting an absent key changes nothing.
pub open spec fn delete_outcome(s: StoreView, key: Seq<u8>) -> StoreView {
    StoreView {
        used: s.used - stored_size(s, key),
        data: s.data.remove(key),
        pending: s.pending.remove(key),
        max: s.max,
    }
}

/// No two records hold the same key.
spec fn unique_keys(s: Seq<ChunkRecord>) -> bool {
    forall|i: int, j: int| 0 <= i < j < s.len() ==> s[i].key@ != s[j].key@
}

/// The contents map that a sequence of records represents.
spec fn recs_data(s: Seq<ChunkRecord>) -> Map<Seq<u8>, Seq<u8>>
    decreases s.len(),
{
    if s.len() == 0 {
        Map::empty()
    } else {
        recs_data(s.drop_last()).insert(s.last().key@, s.last().value@)
    }
}

/// The keys of a sequence of records.
spec fn rec_keys(s: Seq<ChunkRecord>) -> Seq<Seq<u8>> {
    s.map_values(|c: ChunkRecord| c.key@)
}

/// The keys of the records whose background write is still in flight.
spec fn recs_pending(s: Seq<ChunkRecord>) -> Set<Seq<u8>>
    decreases s.len(),
{
    if s.len() == 0 {
        Set::empty()
    } else if s.last().completed {
        recs_pending(s.drop_last())
    } else {
        recs_pending(s.drop_last()).insert(s.last().key@)
    }
}

proof fn lemma_unique_drop_last(s: Seq<ChunkRecord>)
    requires
        unique_keys(s),
        s.len() > 0,
    ensures
        unique_keys(s.drop_last()),
{
    assert forall|i: int, j: int| 0 <= i < j < s.drop_last().len() implies s.drop_last()[i].key@
        != s.drop_last()[j].key@ by {
        assert(s.drop_last()[i] == s[i]);
        assert(s.drop_last()[j] == s[j]);
    }
}

proof fn lemma_recs_data_finite(s: Seq<ChunkRecord>)
    ensures
        recs_data(s).dom().finite(),
    decreases s.len(),
{
    if s.len() > 0 {
        lemma_recs_data_finite(s.drop_last());
    }
}

proof fn lemma_recs_data_contains(s: Seq<ChunkRecord>, k: Seq<u8>)
    ensures
        recs_data(s).contains_key(k) <==> exists|i: int| 0 <= i < s.len() && s[i].key@ == k,
    decreases s.len(),
{
    if s.len() > 0 {
        lemma_recs_data_contains(s.drop_last(), k);
        if s.last().key@ == k {
            assert(s[s.len() - 1].key@ == k);
        } else if recs_data(s.drop_last()).contains_key(k) {
            let i = choose|i: int| 0 <= i < s.drop_last().len() && s.drop_last()[i].key@ == k;
            assert(s[i].key@ == k);
        } else {
            assert forall|i: int| 0 <= i < s.len() implies s[i].key@ != k by {
                if i < s.len() - 1 {
                    assert(s.drop_last()[i] == s[i]);
                }
            }
        }
    }
}

proof fn lemma_recs_data_value(s: Seq<ChunkRecord>, i: int)
    requires
        unique_keys(s),
        0 <= i < s.len(),
    ensures
        recs_data(s).contains_key(s[i].key@),
        recs_data(s)[s[i].key@] == s[i].value@,
    decreases s.len(),
{
    if i < s.len() - 1 {
        lemma_unique_drop_last(s);
        assert(s.drop_last()[i] == s[i]);
        lemma_recs_data_value(s.drop_last(), i);
        assert(s[i].key@ != s[s.len() - 1].key@);
    }
}

proof fn lemma_recs_data_push(s: Seq<ChunkRecord>, r: ChunkRecord)
    ensures
        recs_data(s.push(r)) == recs_data(s).insert(r.key@, r.value@),
{
    assert(s.push(r).drop_last() =~= s);
    assert(s.push(r).last() == r);
}

proof fn lemma_recs_pending_push(s: Seq<ChunkRecord>, r: ChunkRecord)
    requires
        !r.completed,
    ensures
        recs_pending(s.push(r)) == recs_pending(s).insert(r.key@),
{
    assert(s.push(r).drop_last() =~= s);
    assert(s.push(r).last() == r);
}

proof fn lemma_recs_data_update(s: Seq<ChunkRecord>, i: int, r: ChunkRecord)
    requires
        unique_keys(s),
        0 <= i < s.len(),
        r.key@ == s[i].key@,
    ensures
        recs_data(s.update(i, r)) == recs_data(s).insert(r.key@, r.value@),
    decreases s.len(),
{
    let t = s.update(i, r);
    if i == s.len() - 1 {
        assert(t.drop_last() =~= s.drop_last());
        assert(recs_data(s.drop_last()).insert(s.last().key@, s.last().value@).insert(
            r.key@,
            r.value@,
        ) =~= recs_data(s.drop_last()).insert(r.key@, r.value@));
    } else {
        lemma_unique_drop_last(s);
        assert(t.drop_last() =~= s.drop_last().update(i, r));
        assert(s.drop_last()[i] == s[i]);
        lemma_recs_data_update(s.drop_last(), i, r);
        assert(t.last() == s.last());
        assert(r.key@ != s.last().key@);
        assert(recs_data(s.drop_last()).insert(r.key@, r.value@).insert(
            s.last().key@,
            s.last().value@,
        ) =~= recs_data(s.drop_last()).insert(s.last().key@, s.last().value@).insert(
            r.key@,
            r.value@,
        ));
    }
}

proof fn lemma_recs_pending_update(s: Seq<ChunkRecord>, i: int, r: ChunkRecord)
    requires
        unique_keys(s),
        0 <= i < s.len(),
        r.key@ == s[i].key@,
    ensures
        recs_pending(s.update(i, r)) == if r.completed {
            recs_pending(s).remove(r.key@)
        } else {
            recs_pending(s).insert(r.key@)
        },
    decreases s.len(),
{
    let t = s.update(i, r);
    if i == s.len() - 1 {
        assert(t.drop_last() =~= s.drop_last());
        lemma_unique_drop_last(s);
        lemma_recs_pending_not_contained(s.drop_last(), r.key@);
        if r.completed {
            if s.last().completed {
                assert(recs_pending(s.drop_last()) =~= recs_pending(s.drop_last()).remove(r.key@));
            } else {
                assert(recs_pending(s.drop_last()).insert(r.key@).remove(r.key@)
                    =~= recs_pending(s.drop_last()));
            }
        } else {
            if s.last().completed {
            } else {
            }
        }
    } else {
        lemma_unique_drop_last(s);
        assert(t.drop_last() =~= s.drop_last().update(i, r));
        assert(s.drop_last()[i] == s[i]);
        lemma_recs_pending_update(s.drop_last(), i, r);
        assert(t.last() == s.last());
        assert(r.key@ != s.last().key@);
        if r.completed {
            if s.last().completed {
            } else {
                assert(recs_pending(s.drop_last()).remove(r.key@).insert(s.last().key@)
                    =~= recs_pending(s.drop_last()).insert(s.last().key@).remove(r.key@));
            }
        } else {
            if s.last().completed {
            } else {
                assert(recs_pending(s.drop_last()).insert(r.key@).insert(s.last().key@)
                    =~= recs_pending(s.drop_last()).insert(s.last().key@).insert(r.key@));
            }
        }
    }
}

/// A key held by no record is in neither the contents nor the pending set.
proof fn lemma_recs_pending_not_contained(s: Seq<ChunkRecord>, k: Seq<u8>)
    requires
        forall|i: int| 0 <= i < s.len() ==> s[i].key@ != k,
    ensures
        !recs_pending(s).contains(k),
    decreases s.len(),
{
    if s.len() > 0 {
        assert forall|i: int| 0 <= i < s.drop_last().len() implies s.drop_last()[i].key@ != k by {
            assert(s.drop_last()[i] == s[i]);
        }
        lemma_recs_pending_not_contained(s.drop_last(), k);
        assert(s[s.len() - 1].key@ != k);
    }
}

proof fn lemma_recs_data_remove(s: Seq<ChunkRecord>, i: int)
    requires
        unique_keys(s),
        0 <= i < s.len(),
    ensures
        recs_data(s.remove(i)) == recs_data(s).remove(s[i].key@),
    decreases s.len(),
{
    let k = s[i].key@;
    if i == s.len() - 1 {
        assert(s.remove(i) =~= s.drop_last());
        lemma_recs_data_contains(s.drop_last(), k);
        assert forall|j: int| 0 <= j < s.drop_last().len() implies s.drop_last()[j].key@ != k by {
            assert(s.drop_last()[j] == s[j]);
        }
        assert(!recs_data(s.drop_last()).contains_key(k));
        assert(recs_data(s.drop_last()).insert(k, s.last().value@).remove(k) =~= recs_data(
            s.drop_last(),
        ));
    } else {
        lemma_unique_drop_last(s);
        assert(s.remove(i).drop_last() =~= s.drop_last().remove(i));
        assert(s.remove(i).last() == s.last());
        assert(s.drop_last()[i] == s[i]);
        lemma_recs_data_remove(s.drop_last(), i);
        assert(k != s.last().key@);
        assert(recs_data(s.drop_last()).insert(s.last().key@, s.last().value@).remove(k)
            =~= recs_data(s.drop_last()).remove(k).insert(s.last().key@, s.last().value@));
    }
}

proof fn lemma_recs_pending_remove(s: Seq<ChunkRecord>, i: int)
    requires
        unique_keys(s),
        0 <= i < s.len(),
    ensures
        recs_pending(s.remove(i)) == recs_pending(s).remove(s[i].key@),
    decreases s.len(),
{
    let k = s[i].key@;
    if i == s.len() - 1 {
        assert(s.remove(i) =~= s.drop_last());
        assert forall|j: int| 0 <= j < s.drop_last().len() implies s.drop_last()[j].key@ != k by {
            assert(s.drop_last()[j] == s[j]);
        }
        lemma_recs_pending_not_contained(s.drop_last(), k);
        if s.last().completed {
            assert(recs_pending(s.drop_last()).remove(k) =~= recs_pending(s.drop_last()));
        } else {
            assert(recs_pending(s.drop_last()).insert(k).remove(k) =~= recs_pending(
                s.drop_last(),
            ));
        }
    } else {
        lemma_unique_drop_last(s);
        assert(s.remove(i).drop_last() =~= s.drop_last().remove(i));
        assert(s.remove(i).last() == s.last());
        assert(s.drop_last()[i] == s[i]);
        lemma_recs_pending_remove(s.drop_last(), i);
        assert(k != s.last().key@);
        if s.last().completed {
        } else {
            assert(recs_pending(s.drop_last()).remove(k).insert(s.last().key@) =~= recs_pending(
                s.drop_last(),
            ).insert(s.last().key@).remove(k));
        }
    }
}

/// The total size of a map is never negative.
proof fn lemma_map_bytes_nonneg(d: Map<Seq<u8>, Seq<u8>>)
    requires
        d.dom().finite(),
    ensures
        map_bytes(d) >= 0,
    decreases d.dom().len(),
{
    if !d.dom().is_empty() {
        let k = d.dom().choose();
        lemma_map_bytes_nonneg(d.remove(k));
    }
}

/// Removing a chunk takes exactly its size out of the total.
proof fn lemma_map_bytes_remove(d: Map<Seq<u8>, Seq<u8>>, k: Seq<u8>)
    requires
        d.dom().finite(),
        d.contains_key(k),
    ensures
        map_bytes(d) == map_bytes(d.remove(k)) + d[k].len(),
    decreases d.dom().len(),
{
    let k0 = d.dom().choose();
    assert(!d.dom().is_empty());
    if k0 == k {
    } else {
        lemma_map_bytes_remove(d.remove(k0), k);
        lemma_map_bytes_remove(d.remove(k), k0);
        assert(d.remove(k0).remove(k) =~= d.remove(k).remove(k0));
    }
}

/// Adding a fresh chunk adds exactly its size to the total.
proof fn lemma_map_bytes_insert(d: Map<Seq<u8>, Seq<u8>>, k: Seq<u8>, v: Seq<u8>)
    requires
        d.dom().finite(),
        !d.contains_key(k),
    ensures
        map_bytes(d.insert(k, v)) == map_bytes(d) + v.len(),
{
    lemma_map_bytes_remove(d.insert(k, v), k);
    assert(d.insert(k, v).remove(k) =~= d);
}

/// Replacing a chunk swaps its old size for the new one in the total.
proof fn lemma_map_bytes_overwrite(d: Map<Seq<u8>, Seq<u8>>, k: Seq<u8>, v: Seq<u8>)
    requires
        d.dom().finite(),
        d.contains_key(k),
    ensures
        map_bytes(d.insert(k, v)) == map_bytes(d) - d[k].len() + v.len(),
{
    lemma_map_bytes_remove(d.insert(k, v), k);
    lemma_map_bytes_remove(d, k);
    assert(d.insert(k, v).remove(k) =~= d.remove(k));
}

/// A disk-backed, quota-bounded, content-addressed key/value store: the
/// verified bookkeeping core that the runner mirrors onto a root directory.
pub struct ChunkStore {
    space: SpaceAccountant,
    chunks: Vec<ChunkRecord>,
}

impl View for ChunkStore {
    type V = StoreView;

    closed spec fn view(&self) -> StoreView {
        StoreView {
            max: self.space@.max,
            used: self.space@.used,
            data: recs_data(self.chunks@),
            pending: recs_pending(self.chunks@),
        }
    }
}

/// A copy of a byte vector.
pub(crate) fn copy_bytes(v: &Vec<u8>) -> (r: Vec<u8>)
    ensures
        r@ == v@,
{
    let mut r: Vec<u8> = Vec::new();
    let mut i: usize = 0;
    while i < v.len()
        invariant
            i <= v@.len(),
            r@ == v@.subrange(0, i as int),
        decreases v@.len() - i,
    {
        r.push(v[i]);
        assert(r@ =~= v@.subrange(0, i + 1));
        i = i + 1;
    }
    assert(r@ =~= v@);
    r
}

/// Whether two byte vectors hold the same bytes.
pub(crate) fn bytes_equal(a: &Vec<u8>, b: &Vec<u8>) -> (r: bool)
    ensures
        r == (a@ == b@),
{
    if a.len() != b.len() {
        return false;
    }
    let mut i: usize = 0;
    while i < a.len()
        invariant
            a@.len() == b@.len(),
            i <= a@.len(),
            forall|j: int| 0 <= j < i ==> a@[j] == b@[j],
        decreases a@.len() - i,
    {
        if a[i] != b[i] {
            return false;
        }
        i = i + 1;
    }
    assert(a@ =~= b@);
    true
}

impl ChunkStore {
    /// All record keys are distinct and nameable, and the used space is
    /// exactly the total size of the accepted values.
    #[verifier::type_invariant]
    spec fn store_inv(self) -> bool {
        &&& unique_keys(self.chunks@)
        &&& forall|i: int|
            0 <= i < self.chunks@.len() ==> key_has_name(#[trigger] self.chunks@[i].key@)
        &&& self.space@.used == map_bytes(recs_data(self.chunks@))
        &&& self.space@.used <= self.space@.max
    }

    /// A fresh store that will accept at most `max_space` bytes.  The runner
    /// binds it to a root directory, whose lock it holds for the store's
    /// whole life.
    pub fn new(max_space: u64) -> (s: ChunkStore)
        ensures
            s@.max == max_space,
            s@.used == 0,
            s@.data == Map::<Seq<u8>, Seq<u8>>::empty(),
            s@.pending == Set::<Seq<u8>>::empty(),
    {
        let s = ChunkStore { space: SpaceAccountant::new(max_space), chunks: Vec::new() };
        proof {
            assert(s.chunks@.len() == 0);
        }
        s
    }

    /// Take the store apart for mutation, leaving an empty shell behind; the
    /// caller reassembles it by assigning a fresh `ChunkStore` to `*self`.
    fn dismantle(&mut self) -> (parts: (SpaceAccountant, Vec<ChunkRecord>))
        ensures
            parts.0 == old(self).space,
            parts.1 == old(self).chunks,
    {
        let mut shell = ChunkStore { space: SpaceAccountant::new(0), chunks: Vec::new() };
        proof {
            assert(shell.chunks@.len() == 0);
        }
        core::mem::swap(&mut shell, self);
        let ChunkStore { space, chunks } = shell;
        (space, chunks)
    }

    /// The index of the record holding `key`, if any.
    fn find_index(&self, key: &Vec<u8>) -> (r: Option<usize>)
        ensures
            match r {
                Some(i) => i < self.chunks@.len() && self.chunks@[i as int].key@ == key@,
                None => forall|i: int| 0 <= i < self.chunks@.len() ==> self.chunks@[i].key@ != key@,
            },
    {
        let mut i: usize = 0;
        while i < self.chunks.len()
            invariant
                i <= self.chunks@.len(),
                forall|j: int| 0 <= j < i ==> self.chunks@[j].key@ != key@,
            decreases self.chunks@.len() - i,
        {
            if bytes_equal(&self.chunks[i].key, key) {
                return Some(i);
            }
            i = i + 1;
        }
        None
    }

    /// The maximum amount of storage space available to this store.
    pub fn max_space(&self) -> (r: u64)
        ensures
            r == self@.max,
    {
        self.space.max_space()
    }

    /// The amount of storage space already used by this store.
    ///
    /// Law: however the store was built, the used space never exceeds the
    /// ceiling, and it always equals the total size of the accepted
    /// contents.  Once every pending write has been reaped the contents are
    /// exactly the chunk files on disk, so the used space is then the total
    /// on-disk size.
    pub fn used_space(&self) -> (r: u64)
        ensures
            r == self@.used,
            self@.used <= self@.max,
            self@.used == map_bytes(self@.data),
    {
        proof {
            use_type_invariant(&*self);
        }
        self.space.used_space()
    }

    /// Whether a chunk is stored under `key`.  Never fails: a key that no
    /// chunk can be stored under simply is not present.
    pub fn has(&self, key: &Vec<u8>) -> (r: bool)
        ensures
            r == self@.data.contains_key(key@),
    {
        proof {
            lemma_recs_data_contains(self.chunks@, key@);
        }
        match self.find_index(key) {
            Some(_) => true,
            None => false,
        }
    }

    /// The chunk stored under `key`: the value last accepted for it.  Fails
    /// with `NotFound` when no chunk is stored under the key, and with
    /// `Serialisation` when the key is too long to be named.
    ///
    /// A read is not synchronized against writes for other keys; for the read
    /// key itself, the store deliberately returns the last accepted value
    /// even while its background write is in flight — what a reader sees
    /// once that one write has been waited out.
    pub fn get(&self, key: &Vec<u8>) -> (r: Result<Vec<u8>, Error>)
        ensures
            match r {
                Ok(v) => self@.data.contains_key(key@) && v@ == self@.data[key@],
                Err(Error::NotFound) => key_has_name(key@) && !self@.data.contains_key(key@),
                Err(Error::Serialisation) => !key_has_name(key@),
                Err(_) => false,
            },
    {
        proof {
            use_type_invariant(&*self);
            lemma_recs_data_contains(self.chunks@, key@);
        }
        if !key_fits(key) {
            return Err(Error::Serialisation);
        }
        match self.find_index(key) {
            Some(i) => {
                proof {
                    lemma_recs_data_value(self.chunks@, i as int);
                }
                Ok(copy_bytes(&self.chunks[i].value))
            },
            None => Err(Error::NotFound),
        }
    }

    /// Every key currently holding a chunk: exactly the keys accepted and
    /// not since deleted, each once, in no promised order.  Never fails.
    pub fn keys(&self) -> (r: Vec<Vec<u8>>)
        ensures
            seq_views(r@).to_set() == self@.data.dom(),
            seq_views(r@).no_duplicates(),
    {
        proof {
            use_type_invariant(&*self);
        }
        let mut r: Vec<Vec<u8>> = Vec::new();
        let mut i: usize = 0;
        while i < self.chunks.len()
            invariant
                i <= self.chunks@.len(),
                seq_views(r@) =~= rec_keys(self.chunks@.subrange(0, i as int)),
            decreases self.chunks@.len() - i,
        {
            let ghost r_prev = r@;
            let kcopy = copy_bytes(&self.chunks[i].key);
            let ghost gk = kcopy;
            r.push(kcopy);
            proof {
                let before = rec_keys(self.chunks@.subrange(0, i as int));
                let after = rec_keys(self.chunks@.subrange(0, i + 1));
                assert(r@ == r_prev.push(gk));
                assert(seq_views(r_prev).len() == r_prev.len());
                assert(before.len() == i);
                assert(after.len() == i + 1);
                assert forall|j: int| 0 <= j < r@.len() implies seq_views(r@)[j] == after[j] by {
                    assert(after[j] == self.chunks@.subrange(0, i + 1)[j].key@);
                    assert(self.chunks@.subrange(0, i + 1)[j] == self.chunks@[j]);
                    if j < i {
                        assert(r@[j] == r_prev[j]);
                        assert(seq_views(r_prev)[j] == before[j]);
                        assert(before[j] == self.chunks@.subrange(0, i as int)[j].key@);
                        assert(self.chunks@.subrange(0, i as int)[j] == self.chunks@[j]);
                    } else {
                        assert(r@[j] == gk);
                        assert(gk@ == self.chunks@[i as int].key@);
                    }
                }
                assert(seq_views(r@) =~= after);
            }
            i = i + 1;
        }
        proof {
            let views = seq_views(r@);
            assert(self.chunks@.subrange(0, self.chunks@.len() as int) =~= self.chunks@);
            assert(views =~= rec_keys(self.chunks@));
            assert forall|k: Seq<u8>| #[trigger] views.to_set().contains(k) implies
                self@.data.contains_key(k) by {
                let j = choose|j: int| 0 <= j < views.len() && views[j] == k;
                lemma_recs_data_contains(self.chunks@, k);
                assert(self.chunks@[j].key@ == k);
            }
            assert forall|k: Seq<u8>| #[trigger] self@.data.contains_key(k) implies
                views.to_set().contains(k) by {
                lemma_recs_data_contains(self.chunks@, k);
                let j = choose|j: int| 0 <= j < self.chunks@.len() && self.chunks@[j].key@ == k;
                assert(views[j] == k);
            }
            assert(views.to_set() =~= self@.data.dom());
            assert forall|a: int, b: int| 0 <= a < b < views.len() implies views[a] != views[b] by {
                assert(views[a] == self.chunks@[a].key@);
                assert(views[b] == self.chunks@[b].key@);
            }
        }
        r
    }

    /// Reap the pending write for `key`, if one is in flight: in the runner,
    /// wait for that one worker to finish; workers for other keys are only
    /// ever collected once already done, so nothing else blocks.  Contents
    /// and accounting are untouched.  Fails only with `Serialisation`, when
    /// the key is too long to be named.
    pub fn clean_up_threads(&mut self, key: &Vec<u8>) -> (r: Result<(), Error>)
        ensures
            match r {
                Ok(()) => key_has_name(key@) && final(self)@ == reap_outcome(old(self)@, key@),
                Err(e) => e == Error::Serialisation && !key_has_name(key@) && final(self)@
                    == old(self)@,
            },
    {
        proof {
            use_type_invariant(&*self);
        }
        if !key_fits(key) {
            return Err(Error::Serialisation);
        }
        let ghost s0 = self.chunks@;
        match self.find_index(key) {
            Some(i) => {
                if !self.chunks[i].completed {
                    let (space, mut chunks) = self.dismantle();
                    let rec = &mut chunks[i];
                    rec.completed = true;
                    proof {
                        let r1 = ChunkRecord {
                            completed: true,
                            ..s0[i as int]
                        };
                        assert(chunks@ =~= s0.update(i as int, r1));
                        lemma_recs_data_update(s0, i as int, r1);
                        lemma_recs_pending_update(s0, i as int, r1);
                        lemma_recs_data_value(s0, i as int);
                        assert(recs_data(chunks@) =~= recs_data(s0));
                        assert forall|a: int, b: int|
                            0 <= a < b < chunks@.len() implies chunks@[a].key@
                            != chunks@[b].key@ by {
                            if a != i as int {
                                assert(chunks@[a] == s0[a]);
                            }
                            if b != i as int {
                                assert(chunks@[b] == s0[b]);
                            }
                        }
                        assert forall|j: int| 0 <= j < chunks@.len() implies key_has_name(
                            #[trigger] chunks@[j].key@,
                        ) by {
                            if j != i as int {
                                assert(chunks@[j] == s0[j]);
                            }
                        }
                    }
                    *self = ChunkStore { space, chunks };
                    proof {
                        assert(self@ =~= reap_outcome(old(self)@, key@));
                    }
                } else {
                    proof {
                        assert forall|j: int| 0 <= j < s0.len() && !(#[trigger] s0[j].completed)
                            implies s0[j].key@ != key@ by {
                            if j != i as int {
                                assert(s0[j].key@ != s0[i as int].key@);
                            }
                        }
                        lemma_recs_pending_only(s0, key@);
                        assert(self@ =~= reap_outcome(old(self)@, key@));
                    }
                }
            },
            None => {
                proof {
                    lemma_recs_pending_not_contained(s0, key@);
                    assert(recs_pending(s0).remove(key@) =~= recs_pending(s0));
                    assert(self@ =~= reap_outcome(old(self)@, key@));
                }
            },
        }
        Ok(())
    }

    /// Store `value` as the chunk under `key`, overwriting any chunk already
    /// there.
    ///
    /// The pending write for the key, if any, is reaped first.  The value is
    /// then checked against the ceiling — strictly before any mutation, and
    /// before the chunk being replaced is debited — and rejected with
    /// `NotEnoughSpace` if it does not fit; a key too long to be named is
    /// rejected with `Serialisation` before anything else.  On acceptance
    /// the replaced chunk's actual size is debited, the new value's size is
    /// credited, the value is recorded, and its write is in flight; `Ok`
    /// means the value is queued for durable storage, not yet durable.
    pub fn put(&mut self, key: &Vec<u8>, value: &Vec<u8>) -> (r: Result<(), Error>)
        ensures
            match r {
                Ok(()) => put_accepted(old(self)@, key@, value@) && final(self)@ == put_outcome(
                    old(self)@,
                    key@,
                    value@,
                ),
                Err(Error::Serialisation) => !key_has_name(key@) && final(self)@ == old(self)@,
                Err(Error::NotEnoughSpace) => key_has_name(key@) && old(self)@.used
                    + value@.len() > old(self)@.max && final(self)@ == reap_outcome(
                    old(self)@,
                    key@,
                ),
                Err(_) => false,
            },
    {
        // Reap-before-mutate: wait out the pending write for this one key.
        match self.clean_up_threads(key) {
            Err(e) => {
                return Err(e);
            },
            Ok(()) => {},
        }
        proof {
            use_type_invariant(&*self);
        }
        let ghost s1 = self.chunks@;
        let ghost v1 = self@;
        let vlen = value.len() as u64;
        match self.space.check(vlen) {
            Err(e) => {
                return Err(e);
            },
            Ok(()) => {},
        }
        match self.find_index(key) {
            Some(i) => {
                let old_size = self.chunks[i].value.len() as u64;
                proof {
                    lemma_recs_data_value(s1, i as int);
                    lemma_recs_data_finite(s1);
                    lemma_map_bytes_remove(recs_data(s1), key@);
                    lemma_map_bytes_nonneg(recs_data(s1).remove(key@));
                }
                let new_value = copy_bytes(value);
                let (mut space, mut chunks) = self.dismantle();
                space.debit(old_size);
                space.credit(vlen);
                let rec = &mut chunks[i];
                rec.value = new_value;
                rec.completed = false;
                proof {
                    let r1 = ChunkRecord {
                        value: chunks@[i as int].value,
                        completed: false,
                        ..s1[i as int]
                    };
                    assert(chunks@ =~= s1.update(i as int, r1));
                    lemma_recs_data_update(s1, i as int, r1);
                    lemma_recs_pending_update(s1, i as int, r1);
                    lemma_map_bytes_overwrite(recs_data(s1), key@, value@);
                    assert forall|a: int, b: int|
                        0 <= a < b < chunks@.len() implies chunks@[a].key@
                        != chunks@[b].key@ by {
                        if a != i as int {
                            assert(chunks@[a] == s1[a]);
                        }
                        if b != i as int {
                            assert(chunks@[b] == s1[b]);
                        }
                    }
                    assert forall|j: int| 0 <= j < chunks@.len() implies key_has_name(
                        #[trigger] chunks@[j].key@,
                    ) by {
                        if j != i as int {
                            assert(chunks@[j] == s1[j]);
                        }
                    }
                    assert(vlen == value@.len());
                    assert(recs_data(chunks@) =~= recs_data(s1).insert(key@, value@));
                    assert(space@.used == map_bytes(recs_data(chunks@)));
                }
                *self = ChunkStore { space, chunks };
                proof {
                    assert(self@ =~= put_outcome(v1, key@, value@));
                    assert(put_outcome(v1, key@, value@) =~= put_outcome(old(self)@, key@, value@));
                }
                Ok(())
            },
            None => {
                proof {
                    lemma_recs_data_contains(s1, key@);
                    lemma_recs_data_finite(s1);
                }
                let rec = ChunkRecord {
                    key: copy_bytes(key),
                    value: copy_bytes(value),
                    completed: false,
                };
                let ghost grec = rec;
                let (mut space, mut chunks) = self.dismantle();
                space.credit(vlen);
                chunks.push(rec);
                proof {
                    assert(chunks@ =~= s1.push(grec));
                    lemma_recs_data_push(s1, grec);
                    lemma_recs_pending_push(s1, grec);
                    lemma_map_bytes_insert(recs_data(s1), key@, value@);
                    assert forall|a: int, b: int|
                        0 <= a < b < chunks@.len() implies chunks@[a].key@
                        != chunks@[b].key@ by {
                        if b < chunks@.len() - 1 {
                            assert(chunks@[a] == s1[a]);
                            assert(chunks@[b] == s1[b]);
                        } else {
                            assert(chunks@[a] == s1[a]);
                        }
                    }
                    assert(vlen == value@.len());
                    assert(recs_data(chunks@) =~= recs_data(s1).insert(key@, value@));
                    assert(space@.used == map_bytes(recs_data(chunks@)));
                }
                *self = ChunkStore { space, chunks };
                proof {
                    assert(self@ =~= put_outcome(v1, key@, value@));
                    assert(put_outcome(v1, key@, value@) =~= put_outcome(old(self)@, key@, value@));
                }
                Ok(())
            },
        }
    }

    /// Delete the chunk stored under `key`, debiting its actual size; the
    /// pending write for the key, if any, is reaped first.  Deleting an
    /// absent key is a no-op success.  Fails only with `Serialisation`, when
    /// the key is too long to be named.
    pub fn delete(&mut self, key: &Vec<u8>) -> (r: Result<(), Error>)
        ensures
            match r {
                Ok(()) => key_has_name(key@) && final(self)@ == delete_outcome(old(self)@, key@),
                Err(e) => e == Error::Serialisation && !key_has_name(key@) && final(self)@
                    == old(self)@,
            },
    {
        proof {
            use_type_invariant(&*self);
        }
        if !key_fits(key) {
            return Err(Error::Serialisation);
        }
        let ghost s0 = self.chunks@;
        match self.find_index(key) {
            Some(i) => {
                let old_size = self.chunks[i].value.len() as u64;
                proof {
                    lemma_recs_data_value(s0, i as int);
                    lemma_recs_data_finite(s0);
                    lemma_map_bytes_remove(recs_data(s0), key@);
                    lemma_map_bytes_nonneg(recs_data(s0).remove(key@));
                }
                let (mut space, mut chunks) = self.dismantle();
                space.debit(old_size);
                let _ = chunks.remove(i);
                proof {
                    assert(chunks@ =~= s0.remove(i as int));
                    lemma_recs_data_remove(s0, i as int);
                    lemma_recs_pending_remove(s0, i as int);
                    assert forall|a: int, b: int|
                        0 <= a < b < chunks@.len() implies chunks@[a].key@
                        != chunks@[b].key@ by {
                        let a0 = if a < i as int { a } else { a + 1 };
                        let b0 = if b < i as int { b } else { b + 1 };
                        assert(chunks@[a] == s0[a0]);
                        assert(chunks@[b] == s0[b0]);
                    }
                    assert forall|j: int| 0 <= j < chunks@.len() implies key_has_name(
                        #[trigger] chunks@[j].key@,
                    ) by {
                        let j0 = if j < i as int { j } else { j + 1 };
                        assert(chunks@[j] == s0[j0]);
                    }
                    assert(recs_data(chunks@) =~= recs_data(s0).remove(key@));
                    assert(space@.used == map_bytes(recs_data(chunks@)));
                }
                *self = ChunkStore { space, chunks };
                proof {
                    assert(self@ =~= delete_outcome(old(self)@, key@));
                }
                Ok(())
            },
            None => {
                proof {
                    lemma_recs_data_contains(s0, key@);
                    lemma_recs_pending_not_contained(s0, key@);
                    assert(recs_data(s0).remove(key@) =~= recs_data(s0));
                    assert(recs_pending(s0).remove(key@) =~= recs_pending(s0));
                    assert(self@ =~= delete_outcome(old(self)@, key@));
                }
                Ok(())
            },
        }
    }
}

/// Law: an accepted `put(k, v)` stores exactly `v` under `k` — a `get(k)`
/// that follows returns it, whether or not the background write has been
/// reaped in between, since reaping never changes the contents.
pub proof fn lemma_put_then_get(s: StoreView, k: Seq<u8>, v: Seq<u8>)
    ensures
        put_outcome(s, k, v).data.contains_key(k),
        put_outcome(s, k, v).data[k] == v,
        reap_outcome(put_outcome(s, k, v), k).data == put_outcome(s, k, v).data,
{
}

/// Law: for a key that can be named, a `put` is rejected exactly when the
/// value's size is larger than the space remaining under the ceiling, and a
/// rejection leaves the contents and the accounting unchanged — reaping the
/// key's pending write is the only thing that has happened.
pub proof fn lemma_put_rejection(s: StoreView, k: Seq<u8>, v: Seq<u8>)
    requires
        key_has_name(k),
    ensures
        !put_accepted(s, k, v) <==> v.len() > s.max - s.used,
        reap_outcome(s, k).data == s.data,
        reap_outcome(s, k).used == s.used,
        reap_outcome(s, k).max == s.max,
{
}

/// Law: after a `delete` of `k` no chunk is stored under `k` — a `has(k)`
/// that follows answers false — and deleting an absent key changes nothing.
pub proof fn lemma_delete_then_absent(s: StoreView, k: Seq<u8>)
    ensures
        !delete_outcome(s, k).data.contains_key(k),
        !s.data.contains_key(k) ==> delete_outcome(s, k).data == s.data && delete_outcome(
            s,
            k,
        ).used == s.used,
{
    if !s.data.contains_key(k) {
        assert(s.data.remove(k) =~= s.data);
    }
}

/// Law: overwriting accounts only the value that stays.  After `put(k, a)`
/// and then `put(k, b)` on a store with no chunk under `k`, the used space
/// has grown by `b`'s size alone, not by `a + b`; in general a second `put`
/// replaces the stored size of its key in the account.
pub proof fn lemma_overwrite_accounting(s: StoreView, k: Seq<u8>, a: Seq<u8>, b: Seq<u8>)
    ensures
        put_outcome(put_outcome(s, k, a), k, b).used == s.used - stored_size(s, k) + b.len(),
        !s.data.contains_key(k) ==> put_outcome(put_outcome(s, k, a), k, b).used == s.used
            + b.len(),
{
    assert(put_outcome(s, k, a).data[k] == a);
}

/// A key held only by completed records is not pending.
proof fn lemma_recs_pending_only(s: Seq<ChunkRecord>, k: Seq<u8>)
    requires
        forall|j: int| 0 <= j < s.len() && !(#[trigger] s[j].completed) ==> s[j].key@ != k,
    ensures
        !recs_pending(s).contains(k),
        recs_pending(s).remove(k) =~= recs_pending(s),
    decreases s.len(),
{
    if s.len() > 0 {
        assert forall|j: int|
            0 <= j < s.drop_last().len() && !(#[trigger] s.drop_last()[j].completed) implies
            s.drop_last()[j].key@ != k by {
            assert(s.drop_last()[j] == s[j]);
        }
        lemma_recs_pending_only(s.drop_last(), k);
        assert(s[s.len() - 1] == s.last());
    }
}

} // verus!
