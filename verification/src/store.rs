//! The persistent indexed structure under the queue: the array mapped trie
//! of `fvm_ipld_amt` over an in-memory block store, seen by the verifier as a
//! map from bucket keys to sets of identifiers.

use crate::bitfield::bits;
use crate::quant::ChainEpoch;
use crate::queue::{keep_due, keep_key};
use cid::Cid;
use fvm_ipld_amt::Amt;
use fvm_ipld_bitfield::BitField;
use fvm_ipld_blockstore::MemoryBlockstore;
use vstd::prelude::*;

verus! {

/// Content identifier of a persisted root.
#[verifier::external_type_specification]
#[verifier::external_body]
pub struct ExContentId<const S: usize>(cid::CidGeneric<S>);

/// The block store that the trie's nodes are kept in.
#[verifier::external_type_specification]
#[verifier::external_body]
pub struct ExMemoryBlockstore(MemoryBlockstore);

/// The failure of a trie operation.
#[verifier::external_type_specification]
#[verifier::external_body]
pub struct ExStoreError(fvm_ipld_amt::Error);

/// The trie with its block store. The trie's type has a parameter that the
/// crate keeps private, so it is held here behind an opaque struct.
#[verifier::external_body]
pub struct BucketStore<'db> {
    amt: Amt<BitField, &'db MemoryBlockstore>,
}

/// The buckets that the trie holds: for each key that is set, the
/// identifiers of its bit field.
pub uninterp spec fn stored(s: BucketStore) -> Map<u64, Set<u64>>;

/// The identifier that flushing the trie gives: the one the trie remembers
/// from being loaded or flushed, where it was not changed since, whatever
/// the block under it hashes to; otherwise that of its serialised root node.
pub uninterp spec fn saved_root(s: BucketStore) -> Cid;

/// The trie is built as the crate builds one: its nodes are leaves at
/// height 0 and links above, and its count is the number of values it
/// holds. A root that was written by other hands may decode and still not
/// be so; on such a trie the crate's methods may panic.
pub uninterp spec fn shaped(s: BucketStore) -> bool;

/// Every bucket of `a` is a bucket of `b`, with the same identifiers.
pub open spec fn part_of(a: Map<u64, Set<u64>>, b: Map<u64, Set<u64>>) -> bool {
    forall|k: u64| #[trigger] a.dom().contains(k) ==> b.dom().contains(k) && a[k] == b[k]
}

/// Strictly ascending order.
pub open spec fn ascending(keys: Seq<u64>) -> bool {
    forall|i: int, j: int| 0 <= i < j < keys.len() ==> keys[i] < keys[j]
}

/// `Amt::new`: a trie without entries.
#[verifier::external_body]
pub(crate) fn store_new<'db>(blocks: &'db MemoryBlockstore) -> (made: BucketStore<'db>)
    ensures
        stored(made).dom() == Set::<u64>::empty(),
        shaped(made),
{
    BucketStore { amt: Amt::new(blocks) }
}

/// `Amt::load`: the trie whose root the block store keeps under `root`.
/// Whether it is there, what it holds and whether it is well built depends
/// on the block store, and nothing is claimed of these; a trie that was
/// loaded remembers `root` as the identifier it is saved under.
#[verifier::external_body]
pub(crate) fn store_load<'db>(blocks: &'db MemoryBlockstore, root: &Cid) -> (r: Result<
    BucketStore<'db>,
    fvm_ipld_amt::Error,
>)
    ensures
        r matches Ok(s) ==> saved_root(s) == *root,
{
    Ok(BucketStore { amt: Amt::load(root, blocks)? })
}

/// `Amt::get`, with the value copied out: when it succeeds, the bit field
/// under `key`, if the key is set.
#[verifier::external_body]
pub(crate) fn store_get(s: &BucketStore, key: u64) -> (r: Result<
    Option<BitField>,
    fvm_ipld_amt::Error,
>)
    requires
        shaped(*s),
    ensures
        r matches Ok(v) ==> (v is Some <==> stored(*s).dom().contains(key)),
        r matches Ok(Some(b)) ==> bits(b) == stored(*s)[key],
{
    Ok(s.amt.get(key)?.cloned())
}

/// `Amt::set` on a well-built trie: when it succeeds, the trie is still well
/// built, `key` holds `value` and every other key holds what it held. It
/// fails only on the way down to the key's place, before a value is
/// written, so after a failure every key holds what it held.
#[verifier::external_body]
pub(crate) fn store_set(s: &mut BucketStore, key: u64, value: BitField) -> (r: Result<
    (),
    fvm_ipld_amt::Error,
>)
    requires
        shaped(*old(s)),
    ensures
        r is Ok ==> stored(*final(s)) == stored(*old(s)).insert(key, bits(value)),
        r is Ok ==> shaped(*final(s)),
        r is Err ==> stored(*final(s)) == stored(*old(s)),
{
    s.amt.set(key, value)
}

/// `Amt::batch_delete` on a well-built trie: when it succeeds, the trie is
/// still well built, the listed keys are unset, every
/// other key holds what it held, and the result tells whether any listed
/// key was set. With `strict` it fails unless every listed key was set. It
/// deletes key by key, so after a failure some keys may be unset, and every
/// key that is still set holds what it held.
#[verifier::external_body]
pub(crate) fn store_batch_delete(s: &mut BucketStore, keys: Vec<u64>, strict: bool) -> (r: Result<
    bool,
    fvm_ipld_amt::Error,
>)
    requires
        shaped(*old(s)),
    ensures
        r is Ok ==> stored(*final(s)) == stored(*old(s)).remove_keys(keys@.to_set()),
        r is Ok ==> shaped(*final(s)),
        r is Err ==> part_of(stored(*final(s)), stored(*old(s))),
        r matches Ok(modified) ==> (modified <==> exists|k: u64|
            keys@.contains(k) && stored(*old(s)).dom().contains(k)),
        r is Ok && strict ==> forall|k: u64|
            keys@.contains(k) ==> stored(*old(s)).dom().contains(k),
{
    s.amt.batch_delete(keys, strict)
}

/// `Amt::for_each`, with `keep_key` called at each key: when it succeeds,
/// the keys that are set, in ascending order.
#[verifier::external_body]
pub(crate) fn store_keys(s: &BucketStore) -> (r: Result<Vec<u64>, fvm_ipld_amt::Error>)
    requires
        shaped(*s),
    ensures
        r matches Ok(keys) ==> ascending(keys@) && (forall|k: u64|
            keys@.contains(k) <==> stored(*s).dom().contains(k)),
{
    let mut keys = Vec::new();
    s.amt.for_each(|key, _| {
        keep_key(&mut keys, key);
        Ok(())
    })?;
    Ok(keys)
}

/// `Amt::for_each_while`, with `keep_due` deciding at each key: the walk
/// visits the keys that are set in ascending order and ends at the first
/// key at which `keep_due` says so, which is the first key above `until`.
/// When it succeeds, the result holds the keys at or below `until`, in
/// ascending order.
#[verifier::external_body]
pub(crate) fn store_keys_until(s: &BucketStore, until: ChainEpoch) -> (r: Result<
    Vec<u64>,
    fvm_ipld_amt::Error,
>)
    requires
        shaped(*s),
    ensures
        r matches Ok(keys) ==> ascending(keys@) && (forall|k: u64|
            keys@.contains(k) <==> (stored(*s).dom().contains(k) && k <= until)),
{
    let mut keys = Vec::new();
    s.amt.for_each_while(|key, _| Ok(keep_due(&mut keys, key, until)))?;
    Ok(keys)
}

/// `Amt::flush`: writes the trie's nodes to the block store and gives the
/// root's content identifier. When it succeeds, the result is the
/// identifier that goes with the trie, the trie keeps it, and the buckets
/// stay as they are.
#[verifier::external_body]
pub(crate) fn store_flush(s: &mut BucketStore) -> (r: Result<Cid, fvm_ipld_amt::Error>)
    requires
        shaped(*old(s)),
    ensures
        r is Ok ==> stored(*final(s)) == stored(*old(s)),
        r is Ok ==> shaped(*final(s)),
        r matches Ok(c) ==> c == saved_root(*old(s)),
        r matches Ok(c) ==> saved_root(*final(s)) == c,
{
    s.amt.flush()
}

/// `anyhow::Error::new` on a trie failure: the failure as the host's error.
/// Nothing is claimed of the result.
#[verifier::external_body]
pub(crate) fn store_failure(e: fvm_ipld_amt::Error) -> (r: anyhow::Error) {
    anyhow::Error::new(e)
}

} // verus!
