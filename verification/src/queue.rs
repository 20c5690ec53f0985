//! A queue of sparse identifier sets, bucketed by epoch. Keys are quantized
//! upwards, modulo some offset, to bound how many buckets there can be.

use crate::bitfield::{bits, compacted, cut_out, from_ids, holds_nothing, is_void, joined, no_ids};
use crate::error::{chain, fatal_from_message, fatal_with_context, ExecutionError};
use crate::quant::{ChainEpoch, QuantSpec};
use crate::store::{
    ascending, part_of, saved_root, shaped, store_batch_delete, store_failure, store_flush, store_get, store_keys,
    store_keys_until, store_load, store_new, store_set, stored, BucketStore,
};
use cid::Cid;
use fvm_ipld_bitfield::BitField;
use fvm_ipld_blockstore::MemoryBlockstore;
use std::collections::HashMap;
use vstd::prelude::*;
use vstd::std_specs::iter::IteratorSpec;
use vstd::string::StringExecFns;

verus! {

/// The identifiers under `key`, none where the key is not set.
pub open spec fn bucket_at(c: Map<u64, Set<u64>>, key: u64) -> Set<u64> {
    if c.dom().contains(key) {
        c[key]
    } else {
        Set::empty()
    }
}

/// The buckets after `ids` were added under `key`: adding nothing changes
/// nothing, anything else is united with what the key held.
pub open spec fn after_add(c: Map<u64, Set<u64>>, key: u64, ids: Set<u64>) -> Map<u64, Set<u64>> {
    if is_void(ids) {
        c
    } else {
        c.insert(key, bucket_at(c, key).union(ids))
    }
}

/// The buckets after `mask` was cut out of each: every bucket is compacted,
/// and a bucket that nothing is left of is gone.
pub open spec fn after_cut(c: Map<u64, Set<u64>>, mask: Set<u64>) -> Map<u64, Set<u64>> {
    Map::new(
        |k: u64| c.dom().contains(k) && !is_void(compacted(c[k], mask)),
        |k: u64| compacted(c[k], mask),
    )
}

/// Whether some bucket's key is at or below `until`.
pub open spec fn any_due(c: Map<u64, Set<u64>>, until: int) -> bool {
    exists|k: u64| c.dom().contains(k) && k <= until
}

/// The identifiers of all buckets whose key is at or below `until`.
pub open spec fn due_ids(c: Map<u64, Set<u64>>, until: int) -> Set<u64> {
    Set::new(|id: u64| exists|k: u64| c.dom().contains(k) && k <= until && c[k].contains(id))
}

/// The buckets whose key is above `until`.
pub open spec fn not_due(c: Map<u64, Set<u64>>, until: int) -> Map<u64, Set<u64>> {
    Map::new(|k: u64| c.dom().contains(k) && k > until, |k: u64| c[k])
}

/// No bucket is empty.
pub open spec fn none_empty(c: Map<u64, Set<u64>>) -> bool {
    forall|k: u64| c.dom().contains(k) ==> !is_void(#[trigger] c[k])
}

/// Every key is a bucket key of `quant`.
pub open spec fn all_quantized(c: Map<u64, Set<u64>>, quant: QuantSpec) -> bool {
    forall|k: u64| #[trigger] c.dom().contains(k) ==> quant.is_quantized(k as int)
}

/// The identifiers that the entries add under `key`: those of every entry
/// whose epoch quantizes to it.
pub open spec fn added_under(
    entries: Seq<(ChainEpoch, Vec<u64>)>,
    quant: QuantSpec,
    key: int,
) -> Set<u64> {
    Set::new(
        |id: u64|
            exists|i: int|
                0 <= i < entries.len() && quant.spec_quantize_up(entries[i].0 as int) == key && (
                #[trigger] entries[i]).1@.contains(id),
    )
}

/// The buckets after all entries were added: each bucket is united with
/// what the entries add under its key. The order of the entries plays no
/// part in it.
pub open spec fn after_add_many(
    c: Map<u64, Set<u64>>,
    entries: Seq<(ChainEpoch, Vec<u64>)>,
    quant: QuantSpec,
) -> Map<u64, Set<u64>> {
    Map::new(
        |k: u64| c.dom().contains(k) || !is_void(added_under(entries, quant, k as int)),
        |k: u64| bucket_at(c, k).union(added_under(entries, quant, k as int)),
    )
}

/// Every entry that adds anything has a key that the structure can hold
/// and identifiers that a bit field can hold.
pub open spec fn addable(entries: Seq<(ChainEpoch, Vec<u64>)>, quant: QuantSpec) -> bool {
    forall|i: int|
        0 <= i < entries.len() && (#[trigger] entries[i]).1@.len() > 0 ==> 0
            <= quant.spec_quantize_up(entries[i].0 as int) <= i64::MAX && !entries[i].1@.contains(
            u64::MAX,
        )
}

/// `entries` lists the mapping: each of its epochs stands in the list with
/// its identifiers, and the list holds nothing else.
pub open spec fn lists(m: Map<ChainEpoch, Vec<u64>>, entries: Seq<(ChainEpoch, Vec<u64>)>) -> bool {
    &&& forall|k: ChainEpoch|
        m.contains_key(k) ==> exists|j: int|
            0 <= j < entries.len() && entries[j].0 == k && entries[j].1@ == m[k]@
    &&& forall|j: int|
        0 <= j < entries.len() ==> m.contains_key(#[trigger] entries[j].0) && entries[j].1@
            == m[entries[j].0]@
}

/// The identifiers that the mapping adds under `key`: those of every epoch
/// that quantizes to it.
pub open spec fn added_by(m: Map<ChainEpoch, Vec<u64>>, quant: QuantSpec, key: int) -> Set<u64> {
    Set::new(
        |id: u64|
            exists|e: ChainEpoch|
                m.contains_key(e) && quant.spec_quantize_up(e as int) == key && m[e]@.contains(
                    id,
                ),
    )
}

/// The buckets after the whole mapping was added: each bucket is united
/// with what the mapping adds under its key.
pub open spec fn after_add_mapping(
    c: Map<u64, Set<u64>>,
    m: Map<ChainEpoch, Vec<u64>>,
    quant: QuantSpec,
) -> Map<u64, Set<u64>> {
    Map::new(
        |k: u64| c.dom().contains(k) || !is_void(added_by(m, quant, k as int)),
        |k: u64| bucket_at(c, k).union(added_by(m, quant, k as int)),
    )
}

/// Every epoch that adds anything has a key that the structure can hold
/// and identifiers that a bit field can hold.
pub open spec fn mapping_addable(m: Map<ChainEpoch, Vec<u64>>, quant: QuantSpec) -> bool {
    forall|e: ChainEpoch|
        m.contains_key(e) && m[e]@.len() > 0 ==> 0 <= quant.spec_quantize_up(e as int)
            <= i64::MAX && !m[e]@.contains(u64::MAX)
}

/// No epoch of the mapping holds an identifier.
pub open spec fn mapping_adds_nothing(m: Map<ChainEpoch, Vec<u64>>) -> bool {
    forall|e: ChainEpoch| m.contains_key(e) ==> m[e]@.len() == 0
}

/// A list of a mapping adds what the mapping adds.
pub proof fn lemma_list_adds_as_mapping(
    c: Map<u64, Set<u64>>,
    m: Map<ChainEpoch, Vec<u64>>,
    entries: Seq<(ChainEpoch, Vec<u64>)>,
    quant: QuantSpec,
)
    requires
        lists(m, entries),
    ensures
        after_add_many(c, entries, quant) == after_add_mapping(c, m, quant),
        addable(entries, quant) == mapping_addable(m, quant),
        adds_nothing(entries) == mapping_adds_nothing(m),
{
    assert forall|k: int| added_under(entries, quant, k) =~= added_by(m, quant, k) by {
        assert forall|id: u64|
            added_under(entries, quant, k).contains(id) == added_by(m, quant, k).contains(id) by {
            if added_under(entries, quant, k).contains(id) {
                let i = choose|i: int|
                    0 <= i < entries.len() && quant.spec_quantize_up(entries[i].0 as int) == k && (
                    #[trigger] entries[i]).1@.contains(id);
                assert(m.contains_key(entries[i].0) && entries[i].1@ == m[entries[i].0]@);
            }
            if added_by(m, quant, k).contains(id) {
                let e = choose|e: ChainEpoch|
                    m.contains_key(e) && quant.spec_quantize_up(e as int) == k && m[e]@.contains(
                        id,
                    );
                let j = choose|j: int|
                    0 <= j < entries.len() && entries[j].0 == e && entries[j].1@ == m[e]@;
                assert(entries[j].1@.contains(id));
            }
        }
    }
    assert(after_add_many(c, entries, quant) =~= after_add_mapping(c, m, quant)) by {
        assert forall|k: u64|
            added_under(entries, quant, k as int) == added_by(m, quant, k as int) by {}
    }
    if addable(entries, quant) {
        assert forall|e: ChainEpoch| m.contains_key(e) && m[e]@.len() > 0 implies 0
            <= quant.spec_quantize_up(e as int) <= i64::MAX && !m[e]@.contains(u64::MAX) by {
            let j = choose|j: int|
                0 <= j < entries.len() && entries[j].0 == e && entries[j].1@ == m[e]@;
            assert(entries[j].1@.len() > 0);
        }
    }
    if mapping_addable(m, quant) {
        assert forall|i: int| 0 <= i < entries.len() && (#[trigger] entries[i]).1@.len() > 0 implies 0
            <= quant.spec_quantize_up(entries[i].0 as int) <= i64::MAX && !entries[i].1@.contains(
            u64::MAX,
        ) by {
            assert(m.contains_key(entries[i].0) && entries[i].1@ == m[entries[i].0]@);
        }
    }
    if adds_nothing(entries) {
        assert forall|e: ChainEpoch| m.contains_key(e) implies m[e]@.len() == 0 by {
            let j = choose|j: int|
                0 <= j < entries.len() && entries[j].0 == e && entries[j].1@ == m[e]@;
            assert(entries[j].1@.len() == 0);
        }
    }
    if mapping_adds_nothing(m) {
        assert forall|i: int| 0 <= i < entries.len() implies (#[trigger] entries[i]).1@.len()
            == 0 by {
            assert(m.contains_key(entries[i].0) && entries[i].1@ == m[entries[i].0]@);
        }
    }
}

/// The entries of the mapping, in the order in which it hands them out.
fn listed(values: &HashMap<ChainEpoch, Vec<u64>>) -> (out: Vec<(ChainEpoch, Vec<u64>)>)
    ensures
        lists(values@, out@),
{
    broadcast use vstd::std_specs::hash::axiom_spec_hash_map_iter;

    let mut out: Vec<(ChainEpoch, Vec<u64>)> = Vec::new();
    let ghost all = vstd::std_specs::hash::spec_hash_map_iter(values).remaining();
    for kv in it: values.iter()
        invariant
            out@.len() == it.index(),
            it.seq() == all,
            forall|j: int|
                0 <= j < out@.len() ==> (#[trigger] out@[j]).0 == *all[j].0 && out@[j].1@ == (
                *all[j].1)@,
    {
        let (k, v) = kv;
        let ids = v.clone();
        assert(ids@ =~= v@);
        out.push((*k, ids));
    }
    proof {
        assert forall|k: ChainEpoch| values@.contains_key(k) implies exists|j: int|
            0 <= j < out@.len() && out@[j].0 == k && out@[j].1@ == values@[k]@ by {
            assert(all.contains((&k, &values@[k])));
            let j = choose|j: int| 0 <= j < all.len() && all[j] == (&k, &values@[k]);
            assert(out@[j].0 == k);
        }
    }
    out
}

/// No entry holds an identifier, so there is nothing to add.
pub open spec fn adds_nothing(entries: Seq<(ChainEpoch, Vec<u64>)>) -> bool {
    forall|i: int| 0 <= i < entries.len() ==> (#[trigger] entries[i]).1@.len() == 0
}

/// The identifiers of all the sets that are listed under `key`.
pub open spec fn gathered(keys: Seq<u64>, sets: Seq<BitField>, key: u64) -> Set<u64> {
    Set::new(
        |id: u64|
            exists|j: int| 0 <= j < keys.len() && keys[j] == key && bits(#[trigger] sets[j]).contains(id),
    )
}

/// Ascending order in which a key may come more than once.
pub open spec fn sorted(keys: Seq<u64>) -> bool {
    forall|i: int, j: int| 0 <= i <= j < keys.len() ==> keys[i] <= keys[j]
}

/// Whether `key` is among the first `n` of `order`.
pub open spec fn seen(order: Seq<u64>, n: int, key: u64) -> bool {
    exists|t: int| 0 <= t < n && #[trigger] order[t] == key
}

/// `slice::sort_unstable` on keys: the same keys, each as often as before,
/// in ascending order.
#[verifier::external_body]
fn sort_keys(keys: &mut Vec<u64>)
    ensures
        sorted(final(keys)@),
        final(keys)@.to_multiset() == old(keys)@.to_multiset(),
{
    keys.sort_unstable()
}

/// The union of the sets listed under `key`.
fn union_under(keys: &Vec<u64>, sets: &Vec<BitField>, key: u64) -> (r: BitField)
    requires
        keys@.len() == sets@.len(),
    ensures
        bits(r) == gathered(keys@, sets@, key),
{
    let mut merged = no_ids();
    let mut j: usize = 0;
    while j < keys.len()
        invariant
            j <= keys.len(),
            keys@.len() == sets@.len(),
            forall|id: u64|
                bits(merged).contains(id) <==> (exists|a: int|
                    0 <= a < j && keys@[a] == key && bits(#[trigger] sets@[a]).contains(id)),
        decreases keys.len() - j,
    {
        let ghost had = bits(merged);
        if keys[j] == key {
            merged = joined(&merged, &sets[j]);
        }
        assert forall|id: u64|
            bits(merged).contains(id) <==> (exists|a: int|
                0 <= a < j + 1 && keys@[a] == key && bits(#[trigger] sets@[a]).contains(id)) by {
            if bits(merged).contains(id) {
                if had.contains(id) {
                    let a = choose|a: int|
                        0 <= a < j && keys@[a] == key && bits(#[trigger] sets@[a]).contains(id);
                    assert(0 <= a < j + 1 && keys@[a] == key && bits(sets@[a]).contains(id));
                } else {
                    assert(keys@[j as int] == key && bits(sets@[j as int]).contains(id));
                }
            }
            if exists|a: int|
                0 <= a < j + 1 && keys@[a] == key && bits(#[trigger] sets@[a]).contains(id) {
                let a = choose|a: int|
                    0 <= a < j + 1 && keys@[a] == key && bits(#[trigger] sets@[a]).contains(id);
                if a < j {
                    assert(had.contains(id));
                }
            }
        }
        j += 1;
    }
    assert(bits(merged) =~= gathered(keys@, sets@, key));
    merged
}

/// A failure of the persistent structure is fatal, whatever it is; success
/// passes through. `context` says what was being done.
pub fn storage_outcome<T>(r: Result<T, fvm_ipld_amt::Error>, context: String) -> (out: Result<
    T,
    ExecutionError,
>)
    ensures
        r matches Ok(v) ==> out == Ok::<T, ExecutionError>(v),
        r is Err ==> (out matches Err(ExecutionError::Fatal(c)) && chain(c).len() > 0 && chain(
            c,
        )[0] == context@),
{
    match r {
        Ok(v) => Ok(v),
        Err(e) => Err(ExecutionError::Fatal(fatal_with_context(store_failure(e), context))),
    }
}

/// Whether a bucket with this key is due at `until`.
pub fn is_due(key: u64, until: ChainEpoch) -> (b: bool)
    ensures
        b == (key as int <= until as int),
{
    until >= 0 && key <= until as u64
}

/// One step of a walk over all the keys: the key is kept.
pub(crate) fn keep_key(kept: &mut Vec<u64>, key: u64)
    ensures
        final(kept)@ == old(kept)@.push(key),
{
    kept.push(key);
}

/// One step of a walk over the keys in ascending order: a key that is due
/// at `until` is kept and the walk goes on, any other key ends the walk.
pub(crate) fn keep_due(kept: &mut Vec<u64>, key: u64, until: ChainEpoch) -> (go_on: bool)
    ensures
        go_on == (key as int <= until as int),
        go_on ==> final(kept)@ == old(kept)@.push(key),
        !go_on ==> final(kept)@ == old(kept)@,
{
    let due = is_due(key, until);
    if due {
        kept.push(key);
    }
    due
}

/// `text` is what `epoch` is displayed as.
pub open spec fn shows(epoch: u64, text: Seq<char>) -> bool {
    exists|t: String| t@ == text && vstd::string::to_string_from_display_ensures::<u64>(&epoch, t)
}

/// `text` says that the bucket under `epoch` could not be looked up or set.
pub open spec fn names_epoch(text: Seq<char>, epoch: u64) -> bool {
    exists|shown: Seq<char>|
        shows(epoch, shown) && (text == "failed to lookup queue epoch "@ + shown || text
            == "failed to set queue epoch "@ + shown)
}

/// `what` followed by the epoch as it is displayed.
fn about_epoch(what: &str, epoch: u64) -> (s: String)
    ensures
        exists|text: Seq<char>| shows(epoch, text) && s@ == what@ + text,
{
    let shown = epoch.to_string();
    let s = String::from_str(what).concat(shown.as_str());
    assert(shows(epoch, shown@) && s@ == what@ + shown@);
    s
}

/// A queue of identifier sets over a persistent structure, bucketed by
/// quantized epoch.
pub struct BitFieldQueue<'db> {
    pub amt: BucketStore<'db>,
    quant: QuantSpec,
}

impl<'db> BitFieldQueue<'db> {
    /// The buckets of the queue.
    pub closed spec fn buckets(&self) -> Map<u64, Set<u64>> {
        stored(self.amt)
    }

    /// The quantization rule of the queue.
    pub closed spec fn spec_quant(&self) -> QuantSpec {
        self.quant
    }

    /// The queue's rule is usable.
    pub open spec fn wf(&self) -> bool {
        self.spec_quant().wf()
    }

    /// Whether the bucket key for `raw` is a key that the structure can hold.
    pub open spec fn has_key_for(&self, raw: int) -> bool {
        0 <= self.spec_quant().spec_quantize_up(raw) <= i64::MAX
    }

    /// The bucket key for `raw`.
    pub open spec fn key_for(&self, raw: int) -> u64 {
        self.spec_quant().spec_quantize_up(raw) as u64
    }

    /// The persistent structure under the queue.
    pub closed spec fn store(&self) -> BucketStore<'db> {
        self.amt
    }

    /// The persistent structure is built as the crate that keeps it builds
    /// one. A queue that was started empty is, and stays so through every
    /// call that succeeds; of a queue that was loaded the caller has to know.
    pub closed spec fn well_shaped(&self) -> bool {
        shaped(self.amt)
    }

    /// The call left the queue as it was: the structure under it, and with
    /// it the buckets and the root identifier, and the rule.
    pub open spec fn same_as(&self, before: &Self) -> bool {
        &&& self.store() == before.store()
        &&& self.buckets() == before.buckets()
        &&& self.root_id() == before.root_id()
        &&& self.well_shaped() == before.well_shaped()
        &&& self.spec_quant() == before.spec_quant()
    }

    /// The identifier under which the queue, as it stands, is saved.
    pub closed spec fn root_id(&self) -> Cid {
        saved_root(self.amt)
    }

    /// The queue's quantization rule.
    pub fn quant(&self) -> (q: QuantSpec)
        ensures
            q == self.spec_quant(),
    {
        self.quant
    }

    /// Loads the queue whose root `store` keeps under `root`. Whether the
    /// structure under that root is well built is for the caller to know:
    /// it is where the root was saved by a queue of this library.
    pub fn new(store: &'db MemoryBlockstore, root: &Cid, quant: QuantSpec) -> (r: Result<
        BitFieldQueue<'db>,
        fvm_ipld_amt::Error,
    >)
        requires
            quant.wf(),
        ensures
            r matches Ok(q) ==> q.spec_quant() == quant && q.wf(),
            r matches Ok(q) ==> q.root_id() == *root,
    {
        Self::from_loaded(store_load(store, root), quant)
    }

    /// The queue over a trie that was loaded, or the failure to load it.
    pub fn from_loaded(loaded: Result<BucketStore<'db>, fvm_ipld_amt::Error>, quant: QuantSpec) -> (r:
        Result<BitFieldQueue<'db>, fvm_ipld_amt::Error>)
        requires
            quant.wf(),
        ensures
            loaded matches Ok(amt) ==> (r matches Ok(q) && q.store() == amt && q.spec_quant()
                == quant && q.wf() && q.buckets() == stored(amt) && q.root_id() == saved_root(
                amt,
            ) && q.well_shaped() == shaped(amt)),
            loaded matches Err(e) ==> r == Err::<BitFieldQueue<'db>, fvm_ipld_amt::Error>(e),
    {
        match loaded {
            Ok(amt) => Ok(BitFieldQueue { amt, quant }),
            Err(e) => Err(e),
        }
    }

    /// A queue without buckets, which will keep its nodes in `store`.
    pub fn empty(store: &'db MemoryBlockstore, quant: QuantSpec) -> (q: BitFieldQueue<'db>)
        requires
            quant.wf(),
        ensures
            q.buckets() == Map::<u64, Set<u64>>::empty(),
            q.spec_quant() == quant,
            q.wf(),
            q.well_shaped(),
    {
        let q = BitFieldQueue { amt: store_new(store), quant };
        assert(q.buckets() =~= Map::<u64, Set<u64>>::empty());
        q
    }

    /// Persists the queue and gives the identifier of its root: the one
    /// that goes with the queue as it stands. The buckets stay as they are,
    /// and the queue keeps the identifier until it is changed.
    pub fn root(&mut self) -> (r: Result<Cid, ExecutionError>)
        requires
            old(self).well_shaped(),
        ensures
            final(self).spec_quant() == old(self).spec_quant(),
            r is Ok ==> final(self).buckets() == old(self).buckets(),
            r is Ok ==> final(self).well_shaped(),
            r matches Ok(c) ==> c == old(self).root_id() && final(self).root_id() == c,
            r matches Err(e) ==> e is Fatal,
    {
        storage_outcome(store_flush(&mut self.amt), String::from_str("failed to flush queue"))
    }

    /// The keys of the buckets, in ascending order.
    pub fn epochs(&self) -> (r: Result<Vec<u64>, ExecutionError>)
        requires
            self.well_shaped(),
        ensures
            r matches Ok(keys) ==> ascending(keys@) && (forall|k: u64|
                keys@.contains(k) <==> self.buckets().dom().contains(k)),
            r matches Err(e) ==> e is Fatal,
    {
        storage_outcome(store_keys(&self.amt), String::from_str("failed to walk queue"))
    }

    /// The bucket under the quantized epoch `epoch`, if there is one.
    pub fn bucket(&self, epoch: u64) -> (r: Result<Option<BitField>, ExecutionError>)
        requires
            self.well_shaped(),
        ensures
            r matches Ok(v) ==> (v is Some <==> self.buckets().dom().contains(epoch)),
            r matches Ok(Some(b)) ==> bits(b) == self.buckets()[epoch],
            r matches Err(e) ==> e is Fatal,
    {
        storage_outcome(
            store_get(&self.amt, epoch),
            about_epoch("failed to lookup queue epoch ", epoch),
        )
    }

    /// Adds values to the queue entry for an epoch.
    pub fn add_to_queue(&mut self, raw_epoch: ChainEpoch, values: &BitField) -> (r: Result<
        (),
        ExecutionError,
    >)
        requires
            old(self).wf(),
            old(self).well_shaped(),
        ensures
            final(self).spec_quant() == old(self).spec_quant(),
            r is Ok ==> final(self).well_shaped(),
            r matches Err(e) ==> e is Fatal,
            is_void(bits(*values)) ==> r is Ok,
            r is Err ==> final(self).buckets() == old(self).buckets(),
            !is_void(bits(*values)) && !old(self).has_key_for(raw_epoch as int) ==> r is Err,
            is_void(bits(*values)) || !old(self).has_key_for(raw_epoch as int) ==> final(self).same_as(old(self)),
            r matches Err(ExecutionError::Fatal(c)) ==> (old(self).has_key_for(raw_epoch as int)
                ==> chain(c).len() > 0 && names_epoch(
                chain(c)[0],
                old(self).key_for(raw_epoch as int),
            )),
            r is Ok ==> final(self).buckets() == after_add(
                old(self).buckets(),
                old(self).key_for(raw_epoch as int),
                bits(*values),
            ),
            none_empty(old(self).buckets()) ==> none_empty(final(self).buckets()),
            r is Ok && all_quantized(old(self).buckets(), old(self).spec_quant()) ==> all_quantized(
                final(self).buckets(),
                old(self).spec_quant(),
            ),
    {
        proof {
            self.spec_quant().lemma_quantize_up_bounds(raw_epoch as int);
            lemma_add_keeps_invariants(
                self.buckets(),
                self.key_for(raw_epoch as int),
                bits(*values),
                self.spec_quant(),
            );
        }
        if holds_nothing(values) {
            return Ok(());
        }
        let epoch: u64 = match self.quant.checked_quantize_up(raw_epoch) {
            Some(k) => {
                if k < 0 {
                    return Err(
                        ExecutionError::Fatal(
                            fatal_from_message(String::from_str("queue epoch is negative")),
                        ),
                    );
                }
                k as u64
            },
            None => {
                return Err(
                    ExecutionError::Fatal(
                        fatal_from_message(String::from_str("queue epoch is out of range")),
                    ),
                );
            },
        };
        self.add_at(epoch, values)
    }

    /// Unites `values` into the bucket under the quantized epoch `epoch`.
    fn add_at(&mut self, epoch: u64, values: &BitField) -> (r: Result<(), ExecutionError>)
        requires
            !is_void(bits(*values)),
            old(self).well_shaped(),
        ensures
            final(self).spec_quant() == old(self).spec_quant(),
            r is Ok ==> final(self).well_shaped(),
            r is Err ==> final(self).buckets() == old(self).buckets(),
            r matches Err(ExecutionError::Fatal(c)) ==> chain(c).len() > 0 && names_epoch(
                chain(c)[0],
                epoch,
            ),
            r matches Err(e) ==> e is Fatal,
            r is Ok ==> final(self).buckets() == after_add(
                old(self).buckets(),
                epoch,
                bits(*values),
            ),
    {
        let found = match storage_outcome(
            store_get(&self.amt, epoch),
            about_epoch("failed to lookup queue epoch ", epoch),
        ) {
            Ok(found) => found,
            Err(e) => {
                return Err(e);
            },
        };
        let bitfield = match found {
            Some(b) => b,
            None => no_ids(),
        };
        assert(bits(bitfield) =~= bucket_at(old(self).buckets(), epoch));
        let merged = joined(&bitfield, values);
        storage_outcome(
            store_set(&mut self.amt, epoch, merged),
            about_epoch("failed to set queue epoch ", epoch),
        )
    }

    /// Adds the listed identifiers to the queue entry for an epoch.
    pub fn add_to_queue_values(&mut self, epoch: ChainEpoch, values: &[u64]) -> (r: Result<
        (),
        ExecutionError,
    >)
        requires
            old(self).wf(),
            old(self).well_shaped(),
        ensures
            final(self).spec_quant() == old(self).spec_quant(),
            r is Ok ==> final(self).well_shaped(),
            r matches Err(e) ==> e is Fatal,
            values@.len() == 0 ==> r is Ok,
            r is Err ==> final(self).buckets() == old(self).buckets(),
            values@.contains(u64::MAX) ==> r is Err,
            values@.len() > 0 && !old(self).has_key_for(epoch as int) ==> r is Err,
            values@.len() == 0 || values@.contains(u64::MAX) || !old(self).has_key_for(
                epoch as int,
            ) ==> final(self).same_as(old(self)),
            r matches Err(ExecutionError::Fatal(c)) ==> (!values@.contains(u64::MAX) && old(self).has_key_for(
                epoch as int,
            ) ==> chain(c).len() > 0 && names_epoch(
                chain(c)[0],
                old(self).key_for(epoch as int),
            )),
            r is Ok ==> final(self).buckets() == after_add(
                old(self).buckets(),
                old(self).key_for(epoch as int),
                values@.to_set(),
            ),
            none_empty(old(self).buckets()) ==> none_empty(final(self).buckets()),
            r is Ok && all_quantized(old(self).buckets(), old(self).spec_quant()) ==> all_quantized(
                final(self).buckets(),
                old(self).spec_quant(),
            ),
    {
        if values.len() == 0 {
            assert(is_void(values@.to_set()));
            Ok(())
        } else {
            assert(values@.to_set().contains(values@[0]));
            match from_ids(values) {
                Some(ids) => self.add_to_queue(epoch, &ids),
                None => Err(
                    ExecutionError::Fatal(
                        fatal_from_message(String::from_str("identifier is out of range")),
                    ),
                ),
            }
        }
    }

    /// Cuts the elements from the bits in the given bitfield out of the queue,
    /// shifting other bits down and removing any newly empty entries.
    pub fn cut(&mut self, to_cut: &BitField) -> (r: Result<(), ExecutionError>)
        requires
            old(self).well_shaped(),
        ensures
            final(self).spec_quant() == old(self).spec_quant(),
            r is Ok ==> final(self).well_shaped(),
            r matches Err(e) ==> e is Fatal,
            r is Ok ==> final(self).buckets() == after_cut(old(self).buckets(), bits(*to_cut)),
            r is Ok ==> none_empty(final(self).buckets()),
            none_empty(old(self).buckets()) ==> none_empty(final(self).buckets()),
            r is Ok && all_quantized(old(self).buckets(), old(self).spec_quant()) ==> all_quantized(
                final(self).buckets(),
                old(self).spec_quant(),
            ),
    {
        proof {
            lemma_cut_keeps_invariants(self.buckets(), bits(*to_cut), self.spec_quant());
        }
        let ghost before = self.buckets();
        let ghost mask = bits(*to_cut);
        let keys = match storage_outcome(
            store_keys(&self.amt),
            String::from_str("failed to cut from bitfield queue"),
        ) {
            Ok(keys) => keys,
            Err(e) => {
                return Err(e);
            },
        };
        let mut epochs_to_remove: Vec<u64> = Vec::new();
        let mut i: usize = 0;
        while i < keys.len()
            invariant
                i <= keys.len(),
                self.spec_quant() == old(self).spec_quant(),
                self.well_shaped(),
                before == old(self).buckets(),
                none_empty(before) ==> none_empty(self.buckets()),
                mask == bits(*to_cut),
                ascending(keys@),
                forall|k: u64| keys@.contains(k) <==> before.dom().contains(k),
                self.buckets().dom() == before.dom(),
                forall|j: int|
                    0 <= j < i ==> #[trigger] self.buckets()[keys@[j]] == (if is_void(
                        compacted(before[keys@[j]], mask),
                    ) {
                        before[keys@[j]]
                    } else {
                        compacted(before[keys@[j]], mask)
                    }),
                forall|j: int|
                    i <= j < keys.len() ==> #[trigger] self.buckets()[keys@[j]]
                        == before[keys@[j]],
                forall|k: u64|
                    epochs_to_remove@.contains(k) <==> (exists|j: int|
                        0 <= j < i && keys@[j] == k && is_void(compacted(before[k], mask))),
            decreases keys.len() - i,
        {
            let epoch = keys[i];
            assert(keys@.contains(epoch));
            let found = match storage_outcome(
                store_get(&self.amt, epoch),
                about_epoch("failed to cut from queue epoch ", epoch),
            ) {
                Ok(found) => found,
                Err(e) => {
                    return Err(e);
                },
            };
            let ghost removed_before = epochs_to_remove@;
            match found {
                Some(bitfield) => {
                    let bf = cut_out(&bitfield, to_cut);
                    if holds_nothing(&bf) {
                        epochs_to_remove.push(epoch);
                        assert(epochs_to_remove@[epochs_to_remove@.len() - 1] == epoch);
                        assert forall|k: u64|
                            epochs_to_remove@.contains(k) <==> (exists|j: int|
                                0 <= j < i + 1 && keys@[j] == k && is_void(
                                    compacted(before[k], mask),
                                )) by {
                            if epochs_to_remove@.contains(k) {
                                let at = choose|at: int|
                                    0 <= at < epochs_to_remove@.len() && epochs_to_remove@[at]
                                        == k;
                                if at < removed_before.len() {
                                    assert(removed_before[at] == k);
                                    assert(removed_before.contains(k));
                                } else {
                                    assert(keys@[i as int] == k);
                                }
                            }
                            if exists|j: int|
                                0 <= j < i + 1 && keys@[j] == k && is_void(
                                    compacted(before[k], mask),
                                ) {
                                let j = choose|j: int|
                                    0 <= j < i + 1 && keys@[j] == k && is_void(
                                        compacted(before[k], mask),
                                    );
                                if j < i {
                                    assert(removed_before.contains(k));
                                    let at = choose|at: int|
                                        0 <= at < removed_before.len() && removed_before[at]
                                            == k;
                                    assert(epochs_to_remove@[at] == k);
                                } else {
                                    assert(k == epoch);
                                }
                            }
                        }
                    } else {
                        match storage_outcome(
                            store_set(&mut self.amt, epoch, bf),
                            about_epoch("failed to cut from queue epoch ", epoch),
                        ) {
                            Ok(_) => {},
                            Err(e) => {
                                return Err(e);
                            },
                        }
                        assert(self.buckets().dom() =~= before.dom());
                        assert forall|k: u64|
                            epochs_to_remove@.contains(k) <==> (exists|j: int|
                                0 <= j < i + 1 && keys@[j] == k && is_void(
                                    compacted(before[k], mask),
                                )) by {
                            if exists|j: int|
                                0 <= j < i + 1 && keys@[j] == k && is_void(
                                    compacted(before[k], mask),
                                ) {
                                let j = choose|j: int|
                                    0 <= j < i + 1 && keys@[j] == k && is_void(
                                        compacted(before[k], mask),
                                    );
                                assert(j < i);
                            }
                        }
                    }
                },
                None => {
                    assert(false);
                },
            }
            i += 1;
        }
        let ghost walked = self.buckets();
        let ghost doomed = epochs_to_remove@;
        let r = storage_outcome(
            store_batch_delete(&mut self.amt, epochs_to_remove, true),
            String::from_str("failed to remove empty epochs from bitfield queue"),
        );
        proof {
            if r is Err && none_empty(before) {
                lemma_part_keeps_filled(self.buckets(), walked);
            }
            if r is Ok {
                let after = after_cut(before, mask);
                assert forall|k: u64| self.buckets().dom().contains(k) == after.dom().contains(
                    k,
                ) by {
                    if before.dom().contains(k) {
                        assert(keys@.contains(k));
                        let j = choose|j: int| 0 <= j < keys@.len() && keys@[j] == k;
                        assert(walked[keys@[j]] == walked[k]);
                        if is_void(compacted(before[k], mask)) {
                            assert(doomed.contains(k));
                        }
                    }
                }
                assert forall|k: u64| self.buckets().dom().contains(k) implies self.buckets()[k]
                    == after[k] by {
                    assert(keys@.contains(k));
                    let j = choose|j: int| 0 <= j < keys@.len() && keys@[j] == k;
                    assert(walked[keys@[j]] == walked[k]);
                }
                assert(self.buckets() =~= after);
            }
        }
        match r {
            Ok(_) => Ok(()),
            Err(e) => Err(e),
        }
    }

    /// Removes and returns all values with keys less than or equal to until.
    /// Modified return value indicates whether this structure has been changed by the call.
    pub fn pop_until(&mut self, until: ChainEpoch) -> (r: Result<(BitField, bool), ExecutionError>)
        requires
            old(self).well_shaped(),
        ensures
            final(self).spec_quant() == old(self).spec_quant(),
            r is Ok ==> final(self).well_shaped(),
            r is Ok && !any_due(old(self).buckets(), until as int) ==> final(self).same_as(
                old(self),
            ),
            r matches Err(e) ==> e is Fatal,
            r matches Ok(out) ==> {
                &&& out.1 == any_due(old(self).buckets(), until as int)
                &&& bits(out.0) == due_ids(old(self).buckets(), until as int)
                &&& final(self).buckets() == not_due(old(self).buckets(), until as int)
            },
            none_empty(old(self).buckets()) ==> none_empty(final(self).buckets()),
            r is Ok && all_quantized(old(self).buckets(), old(self).spec_quant()) ==> all_quantized(
                final(self).buckets(),
                old(self).spec_quant(),
            ),
    {
        proof {
            lemma_pop_keeps_invariants(self.buckets(), until as int, self.spec_quant());
        }
        let ghost before = self.buckets();
        let keys = match storage_outcome(
            store_keys_until(&self.amt, until),
            String::from_str("failed to walk bitfield queue"),
        ) {
            Ok(keys) => keys,
            Err(e) => {
                return Err(e);
            },
        };
        let mut popped_values = no_ids();
        let mut i: usize = 0;
        while i < keys.len()
            invariant
                i <= keys.len(),
                *self == *old(self),
                self.well_shaped(),
                before == self.buckets(),
                forall|k: u64|
                    keys@.contains(k) <==> (before.dom().contains(k) && k <= until),
                forall|id: u64|
                    bits(popped_values).contains(id) <==> (exists|j: int|
                        0 <= j < i && before[keys@[j]].contains(id)),
            decreases keys.len() - i,
        {
            let epoch = keys[i];
            assert(keys@.contains(epoch));
            let found = match storage_outcome(
                store_get(&self.amt, epoch),
                about_epoch("failed to lookup queue epoch ", epoch),
            ) {
                Ok(found) => found,
                Err(e) => {
                    return Err(e);
                },
            };
            let ghost values_before = bits(popped_values);
            match found {
                Some(bitfield) => {
                    popped_values = joined(&popped_values, &bitfield);
                },
                None => {
                    assert(false);
                },
            }
            assert forall|id: u64|
                bits(popped_values).contains(id) <==> (exists|j: int|
                    0 <= j < i + 1 && before[keys@[j]].contains(id)) by {
                if bits(popped_values).contains(id) {
                    if values_before.contains(id) {
                        let j = choose|j: int| 0 <= j < i && before[keys@[j]].contains(id);
                        assert(0 <= j < i + 1 && before[keys@[j]].contains(id));
                    } else {
                        assert(before[keys@[i as int]].contains(id));
                    }
                }
                if exists|j: int| 0 <= j < i + 1 && before[keys@[j]].contains(id) {
                    let j = choose|j: int| 0 <= j < i + 1 && before[keys@[j]].contains(id);
                    if j < i {
                        assert(values_before.contains(id));
                    }
                }
            }
            i += 1;
        }
        proof {
            assert forall|id: u64|
                bits(popped_values).contains(id) == due_ids(before, until as int).contains(
                    id,
                ) by {
                if bits(popped_values).contains(id) {
                    let j = choose|j: int| 0 <= j < i && before[keys@[j]].contains(id);
                    assert(keys@.contains(keys@[j]));
                }
                if due_ids(before, until as int).contains(id) {
                    let k = choose|k: u64|
                        before.dom().contains(k) && k <= until && before[k].contains(id);
                    assert(keys@.contains(k));
                    let j = choose|j: int| 0 <= j < keys@.len() && keys@[j] == k;
                    assert(before[keys@[j]].contains(id));
                }
            }
            assert(bits(popped_values) =~= due_ids(before, until as int));
            if any_due(before, until as int) {
                let k = choose|k: u64| before.dom().contains(k) && k <= until;
                assert(keys@.contains(k));
            }
            if keys@.len() > 0 {
                assert(keys@.contains(keys@[0]));
            }
        }
        if keys.len() == 0 {
            // Nothing expired.
            let nothing = no_ids();
            proof {
                assert(bits(nothing) =~= due_ids(before, until as int));
                assert(self.buckets() =~= not_due(before, until as int));
            }
            return Ok((nothing, false));
        }
        let ghost taken = keys@;
        let r = storage_outcome(
            store_batch_delete(&mut self.amt, keys, true),
            String::from_str("failed to remove popped epochs from bitfield queue"),
        );
        proof {
            if r is Err && none_empty(before) {
                lemma_part_keeps_filled(self.buckets(), before);
            }
            if r is Ok {
                assert(self.buckets() =~= not_due(before, until as int));
            }
        }
        match r {
            Ok(_) => Ok((popped_values, true)),
            Err(e) => Err(e),
        }
    }

    /// Adds the identifiers of every epoch of the mapping to the queue entry
    /// for that epoch. In whatever order the mapping hands its entries out,
    /// the buckets are updated in ascending key order.
    pub fn add_many_to_queue_values(&mut self, values: &HashMap<ChainEpoch, Vec<u64>>) -> (r: Result<
        (),
        ExecutionError,
    >)
        requires
            old(self).wf(),
            old(self).well_shaped(),
        ensures
            final(self).spec_quant() == old(self).spec_quant(),
            r is Ok ==> final(self).well_shaped(),
            r matches Err(e) ==> e is Fatal,
            mapping_adds_nothing(values@) ==> r is Ok,
            !mapping_addable(values@, old(self).spec_quant()) ==> r is Err,
            mapping_adds_nothing(values@) || !mapping_addable(values@, old(self).spec_quant())
                ==> final(self).same_as(old(self)),
            r matches Err(ExecutionError::Fatal(c)) ==> (mapping_addable(
                values@,
                old(self).spec_quant(),
            ) ==> chain(c).len() > 0 && exists|k: u64| names_epoch(chain(c)[0], k)),
            r is Ok ==> final(self).buckets() == after_add_mapping(
                old(self).buckets(),
                values@,
                old(self).spec_quant(),
            ),
            none_empty(old(self).buckets()) ==> none_empty(final(self).buckets()),
            r is Ok && all_quantized(old(self).buckets(), old(self).spec_quant()) ==> all_quantized(
                final(self).buckets(),
                old(self).spec_quant(),
            ),
    {
        let entries = listed(values);
        proof {
            lemma_list_adds_as_mapping(self.buckets(), values@, entries@, self.spec_quant());
        }
        self.add_entries_to_queue(&entries)
    }

    /// Adds the identifiers of every entry to the queue entry for its epoch.
    /// The entries are quantized first, entries that fall under one key are
    /// merged, and the buckets are updated in ascending key order, so the
    /// order of the entries plays no part in what is stored.
    pub fn add_entries_to_queue(&mut self, values: &Vec<(ChainEpoch, Vec<u64>)>) -> (r: Result<
        (),
        ExecutionError,
    >)
        requires
            old(self).wf(),
            old(self).well_shaped(),
        ensures
            final(self).spec_quant() == old(self).spec_quant(),
            r is Ok ==> final(self).well_shaped(),
            r matches Err(e) ==> e is Fatal,
            adds_nothing(values@) ==> r is Ok,
            r matches Err(ExecutionError::Fatal(c)) ==> (addable(values@, old(self).spec_quant())
                ==> chain(c).len() > 0 && exists|k: u64| names_epoch(chain(c)[0], k)),
            !addable(values@, old(self).spec_quant()) ==> r is Err,
            adds_nothing(values@) || !addable(values@, old(self).spec_quant()) ==> final(self).same_as(old(self)),
            r is Ok ==> final(self).buckets() == after_add_many(
                old(self).buckets(),
                values@,
                old(self).spec_quant(),
            ),
            none_empty(old(self).buckets()) ==> none_empty(final(self).buckets()),
            r is Ok && all_quantized(old(self).buckets(), old(self).spec_quant()) ==> all_quantized(
                final(self).buckets(),
                old(self).spec_quant(),
            ),
    {
        proof {
            lemma_add_many_keeps_invariants(self.buckets(), values@, self.spec_quant());
        }
        let ghost before = self.buckets();
        let ghost quant = self.spec_quant();
        // Pre-quantize to reduce the number of updates.
        let mut keys: Vec<u64> = Vec::new();
        let mut order: Vec<u64> = Vec::new();
        let mut sets: Vec<BitField> = Vec::new();
        let ghost mut src: Seq<int> = Seq::empty();
        let mut i: usize = 0;
        while i < values.len()
            invariant
                i <= values.len(),
                *self == *old(self),
                quant == self.spec_quant(),
                quant.wf(),
                keys@.len() == sets@.len(),
                keys@.len() == src.len(),
                order@ == keys@,
                forall|j: int|
                    0 <= j < src.len() ==> {
                        &&& 0 <= #[trigger] src[j] < i
                        &&& values@[src[j]].1@.len() > 0
                        &&& keys@[j] == quant.spec_quantize_up(values@[src[j]].0 as int)
                        &&& bits(sets@[j]) == values@[src[j]].1@.to_set()
                    },
                forall|e: int|
                    0 <= e < i && (#[trigger] values@[e]).1@.len() > 0 ==> {
                        &&& 0 <= quant.spec_quantize_up(values@[e].0 as int) <= i64::MAX
                        &&& !values@[e].1@.contains(u64::MAX)
                        &&& exists|j: int| 0 <= j < src.len() && src[j] == e
                    },
            decreases values.len() - i,
        {
            let entry = &values[i];
            if entry.1.len() > 0 {
                let key: u64 = match self.quant.checked_quantize_up(entry.0) {
                    Some(k) => {
                        if k < 0 {
                            return Err(
                                ExecutionError::Fatal(
                                    fatal_from_message(String::from_str("queue epoch is negative")),
                                ),
                            );
                        }
                        k as u64
                    },
                    None => {
                        return Err(
                            ExecutionError::Fatal(
                                fatal_from_message(
                                    String::from_str("queue epoch is out of range"),
                                ),
                            ),
                        );
                    },
                };
                let ids = match from_ids(entry.1.as_slice()) {
                    Some(ids) => ids,
                    None => {
                        return Err(
                            ExecutionError::Fatal(
                                fatal_from_message(
                                    String::from_str("identifier is out of range"),
                                ),
                            ),
                        );
                    },
                };
                let ghost src_before = src;
                keys.push(key);
                order.push(key);
                sets.push(ids);
                proof {
                    src = src.push(i as int);
                    assert forall|e: int|
                        0 <= e < i + 1 && (#[trigger] values@[e]).1@.len() > 0 implies exists|
                        j: int,
                    | 0 <= j < src.len() && src[j] == e by {
                        if e < i {
                            let j = choose|j: int| 0 <= j < src_before.len() && src_before[j] == e;
                            assert(src[j] == e);
                        } else {
                            assert(src[src.len() - 1] == e);
                        }
                    }
                }
            }
            i += 1;
        }
        proof {
            assert(addable(values@, quant));
        }
        proof {
            if adds_nothing(values@) && src.len() > 0 {
                assert(values@[src[0]].1@.len() > 0);
            }
        }
        // Update each epoch in order to be deterministic.
        sort_keys(&mut order);
        proof {
            keys@.to_multiset_ensures();
            order@.to_multiset_ensures();
            assert forall|k: u64| order@.contains(k) <==> keys@.contains(k) by {
                assert(order@.to_multiset().count(k) == keys@.to_multiset().count(k));
            }
            // what was gathered under a key is what the entries add under it
            assert forall|k: u64| gathered(keys@, sets@, k) =~= added_under(values@, quant, k as int) by {
                assert forall|id: u64|
                    gathered(keys@, sets@, k).contains(id) == added_under(
                        values@,
                        quant,
                        k as int,
                    ).contains(id) by {
                    if gathered(keys@, sets@, k).contains(id) {
                        let j = choose|j: int|
                            0 <= j < keys@.len() && keys@[j] == k && bits(
                                #[trigger] sets@[j],
                            ).contains(id);
                        let e = src[j];
                        assert(values@[e].1@.to_set().contains(id));
                        assert(values@[e].1@.contains(id));
                    }
                    if added_under(values@, quant, k as int).contains(id) {
                        let e = choose|e: int|
                            0 <= e < values@.len() && quant.spec_quantize_up(values@[e].0 as int)
                                == k as int && (#[trigger] values@[e]).1@.contains(id);
                        let j = choose|j: int| 0 <= j < src.len() && src[j] == e;
                        assert(values@[e].1@.to_set().contains(id));
                        assert(keys@[j] == k && bits(sets@[j]).contains(id));
                    }
                }
            }
            // a key is listed exactly when the entries add something under it
            assert forall|k: u64| keys@.contains(k) <==> !is_void(
                added_under(values@, quant, k as int),
            ) by {
                if keys@.contains(k) {
                    let j = choose|j: int| 0 <= j < keys@.len() && keys@[j] == k;
                    let e = src[j];
                    let id = values@[e].1@[0];
                    assert(values@[e].1@.contains(id));
                    assert(added_under(values@, quant, k as int).contains(id));
                }
                if !is_void(added_under(values@, quant, k as int)) {
                    let id = choose|id: u64| added_under(values@, quant, k as int).contains(id);
                    let e = choose|e: int|
                        0 <= e < values@.len() && quant.spec_quantize_up(values@[e].0 as int)
                            == k as int && (#[trigger] values@[e]).1@.contains(id);
                    let j = choose|j: int| 0 <= j < src.len() && src[j] == e;
                    assert(keys@[j] == k);
                }
            }
        }
        let mut t: usize = 0;
        while t < order.len()
            invariant
                t <= order.len(),
                quant == self.spec_quant(),
                quant == old(self).spec_quant(),
                keys@.len() == sets@.len(),
                sorted(order@),
                addable(values@, quant),
                self.well_shaped(),
                before == old(self).buckets(),
                none_empty(before) ==> none_empty(self.buckets()),
                adds_nothing(values@) ==> order@.len() == 0,
                t == 0 ==> *self == *old(self),
                forall|k: u64| order@.contains(k) <==> keys@.contains(k),
                forall|k: u64|
                    keys@.contains(k) <==> !is_void(added_under(values@, quant, k as int)),
                forall|k: u64|
                    #[trigger] gathered(keys@, sets@, k) == added_under(values@, quant, k as int),
                self.buckets() == Map::new(
                    |k: u64| before.dom().contains(k) || seen(order@, t as int, k),
                    |k: u64|
                        if seen(order@, t as int, k) {
                            bucket_at(before, k).union(added_under(values@, quant, k as int))
                        } else {
                            before[k]
                        },
                ),
            decreases order.len() - t,
        {
            let key = order[t];
            let ghost now = self.buckets();
            if t == 0 || order[t - 1] != key {
                proof {
                    // the key was not updated before
                    if seen(order@, t as int, key) {
                        let a = choose|a: int| 0 <= a < t && #[trigger] order@[a] == key;
                        assert(order@[a] <= order@[t - 1] && order@[t - 1] <= order@[t as int]);
                    }
                    assert(order@.contains(key));
                    assert(gathered(keys@, sets@, key) == added_under(values@, quant, key as int));
                }
                let merged = union_under(&keys, &sets, key);
                proof {
                    lemma_add_keeps_invariants(now, key, bits(merged), quant);
                }
                match self.add_at(key, &merged) {
                    Ok(_) => {},
                    Err(e) => {
                        return Err(e);
                    },
                }
                proof {
                    assert(bucket_at(now, key) =~= bucket_at(before, key));
                    assert forall|k: u64| seen(order@, t as int + 1, k) == (seen(
                        order@,
                        t as int,
                        k,
                    ) || k == key) by {
                        if seen(order@, t as int + 1, k) {
                            let a = choose|a: int| 0 <= a < t + 1 && #[trigger] order@[a] == k;
                            if a < t {
                                assert(seen(order@, t as int, k));
                            }
                        }
                        if seen(order@, t as int, k) {
                            let a = choose|a: int| 0 <= a < t && #[trigger] order@[a] == k;
                            assert(0 <= a < t + 1 && order@[a] == k);
                        }
                        if k == key {
                            assert(order@[t as int] == k);
                        }
                    }
                    assert(self.buckets() =~= Map::new(
                        |k: u64| before.dom().contains(k) || seen(order@, t as int + 1, k),
                        |k: u64|
                            if seen(order@, t as int + 1, k) {
                                bucket_at(before, k).union(added_under(values@, quant, k as int))
                            } else {
                                before[k]
                            },
                    ));
                }
            } else {
                proof {
                    assert forall|k: u64| seen(order@, t as int + 1, k) == seen(
                        order@,
                        t as int,
                        k,
                    ) by {
                        if seen(order@, t as int + 1, k) {
                            let a = choose|a: int| 0 <= a < t + 1 && #[trigger] order@[a] == k;
                            if a == t {
                                assert(order@[t - 1] == k);
                            }
                            assert(seen(order@, t as int, k));
                        }
                        if seen(order@, t as int, k) {
                            let a = choose|a: int| 0 <= a < t && #[trigger] order@[a] == k;
                            assert(0 <= a < t + 1 && order@[a] == k);
                        }
                    }
                    assert(self.buckets() =~= Map::new(
                        |k: u64| before.dom().contains(k) || seen(order@, t as int + 1, k),
                        |k: u64|
                            if seen(order@, t as int + 1, k) {
                                bucket_at(before, k).union(added_under(values@, quant, k as int))
                            } else {
                                before[k]
                            },
                    ));
                }
            }
            t += 1;
        }
        proof {
            assert forall|k: u64| seen(order@, order@.len() as int, k) == order@.contains(k) by {
                if order@.contains(k) {
                    let a = choose|a: int| 0 <= a < order@.len() && order@[a] == k;
                    assert(order@[a] == k);
                }
            }
            let after = after_add_many(before, values@, quant);
            let n = order@.len() as int;
            assert forall|k: u64| self.buckets().dom().contains(k) == after.dom().contains(
                k,
            ) by {
                assert(seen(order@, n, k) == order@.contains(k));
                assert(order@.contains(k) == keys@.contains(k));
                assert(keys@.contains(k) == !is_void(added_under(values@, quant, k as int)));
            }
            assert forall|k: u64| self.buckets().dom().contains(k) implies self.buckets()[k]
                == after[k] by {
                assert(before.dom().contains(k) || seen(order@, n, k));
                assert(after.dom().contains(k));
                assert(after[k] == bucket_at(before, k).union(
                    added_under(values@, quant, k as int),
                ));
                if !seen(order@, n, k) {
                    assert(!order@.contains(k));
                    assert(!keys@.contains(k));
                    assert(is_void(added_under(values@, quant, k as int)));
                    assert(bucket_at(before, k).union(added_under(values@, quant, k as int))
                        =~= before[k]);
                }
            }
            assert(self.buckets() =~= after);
        }
        Ok(())
    }
}

/// Adding a mapping goes by what the mapping holds: two mappings with the
/// same epochs and, under each, the same identifiers give the same buckets,
/// however each was filled.
pub proof fn lemma_add_mapping_goes_by_contents(
    c: Map<u64, Set<u64>>,
    a: Map<ChainEpoch, Vec<u64>>,
    b: Map<ChainEpoch, Vec<u64>>,
    quant: QuantSpec,
)
    requires
        forall|e: ChainEpoch| a.contains_key(e) == b.contains_key(e),
        forall|e: ChainEpoch| a.contains_key(e) ==> a[e]@ == b[e]@,
    ensures
        after_add_mapping(c, a, quant) == after_add_mapping(c, b, quant),
        mapping_addable(a, quant) == mapping_addable(b, quant),
{
    assert forall|k: int| added_by(a, quant, k) =~= added_by(b, quant, k) by {
        assert forall|id: u64| added_by(a, quant, k).contains(id) == added_by(
            b,
            quant,
            k,
        ).contains(id) by {
            if added_by(a, quant, k).contains(id) {
                let e = choose|e: ChainEpoch|
                    a.contains_key(e) && quant.spec_quantize_up(e as int) == k && a[e]@.contains(
                        id,
                    );
                assert(b.contains_key(e) && b[e]@.contains(id));
            }
            if added_by(b, quant, k).contains(id) {
                let e = choose|e: ChainEpoch|
                    b.contains_key(e) && quant.spec_quantize_up(e as int) == k && b[e]@.contains(
                        id,
                    );
                assert(a.contains_key(e) && a[e]@.contains(id));
            }
        }
    }
    assert(after_add_mapping(c, a, quant) =~= after_add_mapping(c, b, quant)) by {
        assert forall|k: u64| added_by(a, quant, k as int) == added_by(b, quant, k as int) by {}
    }
    if mapping_addable(a, quant) {
        assert forall|e: ChainEpoch| b.contains_key(e) && b[e]@.len() > 0 implies 0
            <= quant.spec_quantize_up(e as int) <= i64::MAX && !b[e]@.contains(u64::MAX) by {
            assert(a.contains_key(e) && a[e]@ == b[e]@);
        }
    }
    if mapping_addable(b, quant) {
        assert forall|e: ChainEpoch| a.contains_key(e) && a[e]@.len() > 0 implies 0
            <= quant.spec_quantize_up(e as int) <= i64::MAX && !a[e]@.contains(u64::MAX) by {
            assert(b.contains_key(e) && a[e]@ == b[e]@);
        }
    }
}

/// A part of a queue without empty buckets has no empty bucket.
pub proof fn lemma_part_keeps_filled(a: Map<u64, Set<u64>>, b: Map<u64, Set<u64>>)
    requires
        part_of(a, b),
        none_empty(b),
    ensures
        none_empty(a),
{
    assert forall|k: u64| a.dom().contains(k) implies !is_void(#[trigger] a[k]) by {
        assert(b.dom().contains(k) && a[k] == b[k]);
    }
}

/// Two lists of entries say the same when each entry of one stands, with
/// the same epoch and the same identifiers in the same order, somewhere in
/// the other.
pub open spec fn same_entries(
    a: Seq<(ChainEpoch, Vec<u64>)>,
    b: Seq<(ChainEpoch, Vec<u64>)>,
) -> bool {
    &&& forall|i: int|
        0 <= i < a.len() ==> exists|j: int|
            0 <= j < b.len() && (#[trigger] b[j]).0 == a[i].0 && b[j].1@ == (#[trigger] a[i]).1@
    &&& forall|j: int|
        0 <= j < b.len() ==> exists|i: int|
            0 <= i < a.len() && (#[trigger] a[i]).0 == b[j].0 && a[i].1@ == (#[trigger] b[j]).1@
}

/// What one list of entries adds under a key, another list that holds each
/// of its entries adds too.
proof fn lemma_added_under_grows(
    a: Seq<(ChainEpoch, Vec<u64>)>,
    b: Seq<(ChainEpoch, Vec<u64>)>,
    quant: QuantSpec,
    key: int,
    id: u64,
)
    requires
        forall|i: int|
            0 <= i < a.len() ==> exists|j: int|
                0 <= j < b.len() && (#[trigger] b[j]).0 == a[i].0 && b[j].1@ == (
                #[trigger] a[i]).1@,
        added_under(a, quant, key).contains(id),
    ensures
        added_under(b, quant, key).contains(id),
{
    let i = choose|i: int|
        0 <= i < a.len() && quant.spec_quantize_up(a[i].0 as int) == key && (#[trigger] a[i]).1@.contains(
            id,
        );
    let j = choose|j: int|
        0 <= j < b.len() && (#[trigger] b[j]).0 == a[i].0 && b[j].1@ == (#[trigger] a[i]).1@;
    assert(b[j].1@.contains(id));
}

/// Adding many entries gives the same buckets in whatever order the
/// entries are listed.
pub proof fn lemma_add_many_ignores_order(
    c: Map<u64, Set<u64>>,
    a: Seq<(ChainEpoch, Vec<u64>)>,
    b: Seq<(ChainEpoch, Vec<u64>)>,
    quant: QuantSpec,
)
    requires
        same_entries(a, b),
    ensures
        after_add_many(c, a, quant) == after_add_many(c, b, quant),
        addable(a, quant) == addable(b, quant),
{
    assert forall|k: int| added_under(a, quant, k) =~= added_under(b, quant, k) by {
        assert forall|id: u64|
            added_under(a, quant, k).contains(id) == added_under(b, quant, k).contains(id) by {
            if added_under(a, quant, k).contains(id) {
                lemma_added_under_grows(a, b, quant, k, id);
            }
            if added_under(b, quant, k).contains(id) {
                lemma_added_under_grows(b, a, quant, k, id);
            }
        }
    }
    assert forall|k: u64|
        after_add_many(c, a, quant).dom().contains(k) == after_add_many(
            c,
            b,
            quant,
        ).dom().contains(k) by {
        assert(added_under(a, quant, k as int) == added_under(b, quant, k as int));
    }
    assert forall|k: u64| after_add_many(c, a, quant).dom().contains(k) implies after_add_many(
        c,
        a,
        quant,
    )[k] == after_add_many(c, b, quant)[k] by {
        assert(added_under(a, quant, k as int) == added_under(b, quant, k as int));
    }
    assert(after_add_many(c, a, quant) =~= after_add_many(c, b, quant));
    if addable(a, quant) {
        assert forall|j: int| 0 <= j < b.len() && (#[trigger] b[j]).1@.len() > 0 implies 0
            <= quant.spec_quantize_up(b[j].0 as int) <= i64::MAX && !b[j].1@.contains(
            u64::MAX,
        ) by {
            let i = choose|i: int|
                0 <= i < a.len() && (#[trigger] a[i]).0 == b[j].0 && a[i].1@ == (
                #[trigger] b[j]).1@;
            assert(a[i].1@.len() > 0);
        }
    }
    if addable(b, quant) {
        assert forall|i: int| 0 <= i < a.len() && (#[trigger] a[i]).1@.len() > 0 implies 0
            <= quant.spec_quantize_up(a[i].0 as int) <= i64::MAX && !a[i].1@.contains(
            u64::MAX,
        ) by {
            let j = choose|j: int|
                0 <= j < b.len() && (#[trigger] b[j]).0 == a[i].0 && b[j].1@ == (
                #[trigger] a[i]).1@;
            assert(b[j].1@.len() > 0);
        }
    }
}

/// Adding to a queue without empty buckets leaves none empty, and keeps
/// every key quantized when the key added under is.
pub proof fn lemma_add_keeps_invariants(
    c: Map<u64, Set<u64>>,
    key: u64,
    ids: Set<u64>,
    quant: QuantSpec,
)
    ensures
        none_empty(c) ==> none_empty(after_add(c, key, ids)),
        all_quantized(c, quant) && quant.is_quantized(key as int) ==> all_quantized(
            after_add(c, key, ids),
            quant,
        ),
{
    if !is_void(ids) {
        let id = choose|id: u64| ids.contains(id);
        assert(bucket_at(c, key).union(ids).contains(id));
    }
}

/// Adding many entries to a queue without empty buckets leaves none empty,
/// and every key stays quantized.
pub proof fn lemma_add_many_keeps_invariants(
    c: Map<u64, Set<u64>>,
    entries: Seq<(ChainEpoch, Vec<u64>)>,
    quant: QuantSpec,
)
    requires
        quant.wf(),
    ensures
        none_empty(c) ==> none_empty(after_add_many(c, entries, quant)),
        all_quantized(c, quant) ==> all_quantized(after_add_many(c, entries, quant), quant),
{
    let after = after_add_many(c, entries, quant);
    if none_empty(c) {
        assert forall|k: u64| after.dom().contains(k) implies !is_void(#[trigger] after[k]) by {
            if c.dom().contains(k) {
                assert(!is_void(c[k]));
                let id = choose|id: u64| c[k].contains(id);
                assert(after[k].contains(id));
            } else {
                let id = choose|id: u64| added_under(entries, quant, k as int).contains(id);
                assert(after[k].contains(id));
            }
        }
    }
    if all_quantized(c, quant) {
        assert forall|k: u64| #[trigger] after.dom().contains(k) implies quant.is_quantized(
            k as int,
        ) by {
            if !c.dom().contains(k) {
                let id = choose|id: u64| added_under(entries, quant, k as int).contains(id);
                let i = choose|i: int|
                    0 <= i < entries.len() && quant.spec_quantize_up(entries[i].0 as int)
                        == k as int && (#[trigger] entries[i]).1@.contains(id);
                quant.lemma_quantize_up_bounds(entries[i].0 as int);
            } else {
                assert(c.dom().contains(k));
            }
        }
    }
}

/// After a cut no bucket is empty, whatever the queue held, and every key
/// that is left was a key before.
pub proof fn lemma_cut_keeps_invariants(c: Map<u64, Set<u64>>, mask: Set<u64>, quant: QuantSpec)
    ensures
        none_empty(after_cut(c, mask)),
        after_cut(c, mask).dom().subset_of(c.dom()),
        all_quantized(c, quant) ==> all_quantized(after_cut(c, mask), quant),
{
    if all_quantized(c, quant) {
        assert forall|k: u64| #[trigger] after_cut(c, mask).dom().contains(k) implies quant.is_quantized(
            k as int,
        ) by {
            assert(c.dom().contains(k));
        }
    }
}

/// Popping takes whole buckets: what is left are the buckets above the
/// bound as they were, so none of them is empty if none was, and every key
/// that is left was a key before.
pub proof fn lemma_pop_keeps_invariants(c: Map<u64, Set<u64>>, until: int, quant: QuantSpec)
    ensures
        none_empty(c) ==> none_empty(not_due(c, until)),
        all_quantized(c, quant) ==> all_quantized(not_due(c, until), quant),
        !any_due(c, until) ==> not_due(c, until) == c && is_void(due_ids(c, until)),
        forall|k: u64| not_due(c, until).dom().contains(k) ==> k > until,
{
    if none_empty(c) {
        assert forall|k: u64| not_due(c, until).dom().contains(k) implies !is_void(
            #[trigger] not_due(c, until)[k],
        ) by {
            assert(!is_void(c[k]));
        }
    }
    if all_quantized(c, quant) {
        assert forall|k: u64| #[trigger] not_due(c, until).dom().contains(k) implies quant.is_quantized(
            k as int,
        ) by {
            assert(c.dom().contains(k));
        }
    }
    if !any_due(c, until) {
        assert(not_due(c, until) =~= c);
    }
}

} // verus!
