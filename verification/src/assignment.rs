//! Assignments: insertion-ordered maps from e-classes to e-nodes.
//!
//! The map itself is `indexmap`'s. What it holds is modelled as the sequence
//! of its key-value pairs in insertion order; this module states what each
//! map operation used by the crate does to that sequence, and proves the
//! facts about such sequences that the rest of the crate relies on.

use fxhash::{FxBuildHasher, FxHasher};
use indexmap::IndexMap;
use std::hash::BuildHasherDefault;
use vstd::prelude::*;

verus! {

/// Identifier of an e-class.
pub type ClassId = usize;

/// Identifier of an e-node.
pub type NodeId = usize;

/// An assignment is a mapping from class ids to node ids.
///
/// Assignments can be partial or complete.
pub type Assignment = IndexMap<ClassId, NodeId, FxBuildHasher>;

/// `fxhash::FxHasher`, the hasher of the maps and sets of this crate. Opaque:
/// nothing is claimed of it.
#[verifier::external_type_specification]
#[verifier::external_body]
pub struct ExFxHasher(FxHasher);

/// `std::hash::BuildHasherDefault`, which makes hashers by `Default`. Opaque:
/// nothing is claimed of it.
#[verifier::external_type_specification]
#[verifier::external_body]
#[verifier::reject_recursive_types(H)]
pub struct ExBuildHasherDefault<H>(BuildHasherDefault<H>);

/// `indexmap::IndexMap`, a hash map that keeps its entries in insertion
/// order. Opaque: what a map holds is named by [`assignment_entries`] and by
/// [`watch_buckets`](crate::deps::watch_buckets).
#[verifier::external_type_specification]
#[verifier::external_body]
#[verifier::reject_recursive_types(K)]
#[verifier::reject_recursive_types(V)]
#[verifier::reject_recursive_types(S)]
pub struct ExIndexMap<K, V, S>(IndexMap<K, V, S>);

/// The key-value pairs of an assignment, in the order in which the map
/// iterates over them.
pub uninterp spec fn assignment_entries(a: Assignment) -> Seq<(ClassId, NodeId)>;

/// Position `i` of `s` holds the key `k`.
pub open spec fn key_at(s: Seq<(ClassId, NodeId)>, i: int, k: ClassId) -> bool {
    0 <= i < s.len() && s[i].0 == k
}

/// Some entry of `s` has the key `k`.
pub open spec fn has_key(s: Seq<(ClassId, NodeId)>, k: ClassId) -> bool {
    exists|i: int| key_at(s, i, k)
}

/// `s` maps `k` to `v`.
pub open spec fn has_entry(s: Seq<(ClassId, NodeId)>, k: ClassId, v: NodeId) -> bool {
    s.contains((k, v))
}

/// No key occurs twice in `s`.
pub open spec fn unique_keys(s: Seq<(ClassId, NodeId)>) -> bool {
    forall|i: int, j: int| 0 <= i < j < s.len() ==> (#[trigger] s[i]).0 != (#[trigger] s[j]).0
}

/// The value that `s` gives to `k`, if it gives one.
pub open spec fn value_of(s: Seq<(ClassId, NodeId)>, k: ClassId) -> Option<NodeId> {
    if has_key(s, k) {
        Some(s[choose|i: int| key_at(s, i, k)].1)
    } else {
        None
    }
}

/// `s` with `k` mapped to `v`: in the place where `s` has `k`, or else as a
/// new last entry.
pub open spec fn with_entry(s: Seq<(ClassId, NodeId)>, k: ClassId, v: NodeId) -> Seq<
    (ClassId, NodeId),
> {
    if has_key(s, k) {
        s.update(choose|i: int| key_at(s, i, k), (k, v))
    } else {
        s.push((k, v))
    }
}

/// The first `len` entries of `s`, or all of `s` if it has no more.
pub open spec fn truncated(s: Seq<(ClassId, NodeId)>, len: nat) -> Seq<(ClassId, NodeId)> {
    if len <= s.len() {
        s.take(len as int)
    } else {
        s
    }
}

/// The entry at position `index` of `s`, if `s` is that long.
pub open spec fn entry_at(s: Seq<(ClassId, NodeId)>, index: nat) -> Option<(ClassId, NodeId)> {
    if index < s.len() {
        Some(s[index as int])
    } else {
        None
    }
}

/// Every entry of `a` is an entry of `b`.
pub open spec fn entries_within(a: Seq<(ClassId, NodeId)>, b: Seq<(ClassId, NodeId)>) -> bool {
    forall|i: int| 0 <= i < a.len() ==> b.contains(#[trigger] a[i])
}

/// An empty assignment. Calls `IndexMap::default`, which builds a map
/// without entries.
#[verifier::external_body]
pub(crate) fn assignment_new() -> (a: Assignment)
    ensures
        assignment_entries(a) == Seq::<(ClassId, NodeId)>::empty(),
{
    IndexMap::default()
}

/// Calls `IndexMap::len`: the number of key-value pairs in the map.
#[verifier::external_body]
pub(crate) fn assignment_len(a: &Assignment) -> (n: usize)
    ensures
        n == assignment_entries(*a).len(),
{
    a.len()
}

/// Calls `IndexMap::contains_key`: whether an entry with this key exists.
#[verifier::external_body]
pub(crate) fn assignment_contains_key(a: &Assignment, class: ClassId) -> (found: bool)
    ensures
        found == has_key(assignment_entries(*a), class),
{
    a.contains_key(&class)
}

/// Calls `IndexMap::insert`. For a key that the map lacks, the pair is
/// placed last in order and `None` comes back. For a key that it holds, the
/// entry keeps its place, takes the new value, and the old value comes back.
/// The map counts its pairs in a `usize`, so it never holds more than that.
#[verifier::external_body]
pub(crate) fn assignment_insert(a: &mut Assignment, class: ClassId, node: NodeId) -> (prev:
    Option<NodeId>)
    ensures
        prev == value_of(assignment_entries(*old(a)), class),
        assignment_entries(*final(a)) == with_entry(assignment_entries(*old(a)), class, node),
        assignment_entries(*final(a)).len() <= usize::MAX,
{
    a.insert(class, node)
}

/// Calls `IndexMap::truncate`: keeps the first `len` pairs and drops the
/// rest; no effect when the map is not longer than `len`.
#[verifier::external_body]
pub(crate) fn assignment_truncate(a: &mut Assignment, len: usize)
    ensures
        assignment_entries(*final(a)) == truncated(assignment_entries(*old(a)), len as nat),
{
    a.truncate(len)
}

/// Calls `IndexMap::get_index`: the pair at a position in the order, or
/// `None` for a position past the end.
#[verifier::external_body]
pub(crate) fn assignment_get_index(a: &Assignment, index: usize) -> (pair:
    Option<(ClassId, NodeId)>)
    ensures
        pair == entry_at(assignment_entries(*a), index as nat),
{
    match a.get_index(index) {
        Some((class, node)) => Some((*class, *node)),
        None => None,
    }
}

/// Calls `IndexMap::clone`: a map with the same pairs in the same order.
#[verifier::external_body]
pub(crate) fn assignment_clone(a: &Assignment) -> (copy: Assignment)
    ensures
        assignment_entries(copy) == assignment_entries(*a),
{
    a.clone()
}

/// The keys of a sequence with one more entry are the keys of the sequence
/// and the key of the entry.
pub proof fn lemma_has_key_push(s: Seq<(ClassId, NodeId)>, e: (ClassId, NodeId), k: ClassId)
    ensures
        has_key(s.push(e), k) <==> (has_key(s, k) || e.0 == k),
{
    let t = s.push(e);
    if has_key(s, k) {
        let i = choose|i: int| key_at(s, i, k);
        assert(key_at(t, i, k));
    }
    if e.0 == k {
        assert(key_at(t, s.len() as int, k));
    }
    if has_key(t, k) {
        let i = choose|i: int| key_at(t, i, k);
        if i < s.len() {
            assert(key_at(s, i, k));
        }
    }
}

/// A key of a prefix is a key of the whole.
pub proof fn lemma_has_key_prefix(
    s: Seq<(ClassId, NodeId)>,
    t: Seq<(ClassId, NodeId)>,
    k: ClassId,
)
    requires
        s.is_prefix_of(t),
        has_key(s, k),
    ensures
        has_key(t, k),
{
    let i = choose|i: int| key_at(s, i, k);
    assert(key_at(t, i, k));
}

/// An entry's key is a key.
pub proof fn lemma_entry_has_key(s: Seq<(ClassId, NodeId)>, k: ClassId, v: NodeId)
    requires
        has_entry(s, k, v),
    ensures
        has_key(s, k),
{
    let i = choose|i: int| 0 <= i < s.len() && s[i] == (k, v);
    assert(key_at(s, i, k));
}

/// With unique keys, a key has one value.
pub proof fn lemma_entry_unique(s: Seq<(ClassId, NodeId)>, k: ClassId, v: NodeId, w: NodeId)
    requires
        unique_keys(s),
        has_entry(s, k, v),
        has_entry(s, k, w),
    ensures
        v == w,
{
    let i = choose|i: int| 0 <= i < s.len() && s[i] == (k, v);
    let j = choose|j: int| 0 <= j < s.len() && s[j] == (k, w);
    if i < j {
        assert(s[i].0 != s[j].0);
    } else if j < i {
        assert(s[j].0 != s[i].0);
    }
}

/// Appending an entry under a new key keeps the keys unique.
pub proof fn lemma_unique_keys_push(s: Seq<(ClassId, NodeId)>, e: (ClassId, NodeId))
    requires
        unique_keys(s),
        !has_key(s, e.0),
    ensures
        unique_keys(s.push(e)),
{
    let t = s.push(e);
    assert forall|i: int, j: int| 0 <= i < j < t.len() implies (#[trigger] t[i]).0 != (
    #[trigger] t[j]).0 by {
        if j == s.len() {
            if t[i].0 == e.0 {
                assert(key_at(s, i, e.0));
            }
        } else {
            assert(s[i].0 != s[j].0);
        }
    }
}

/// The keys of a sequence, as a sequence.
pub open spec fn keys_of(s: Seq<(ClassId, NodeId)>) -> Seq<ClassId> {
    s.map_values(|e: (ClassId, NodeId)| e.0)
}

/// A sequence with unique keys whose keys all occur in another is no longer
/// than the other.
pub proof fn lemma_keys_within_len(a: Seq<(ClassId, NodeId)>, b: Seq<(ClassId, NodeId)>)
    requires
        unique_keys(a),
        forall|i: int| 0 <= i < a.len() ==> has_key(b, (#[trigger] a[i]).0),
    ensures
        a.len() <= b.len(),
{
    let ka = keys_of(a);
    let kb = keys_of(b);
    assert(ka.no_duplicates()) by {
        assert forall|i: int, j: int| 0 <= i < ka.len() && 0 <= j < ka.len() && i != j implies ka[i]
            != ka[j] by {
            if i < j {
                assert(a[i].0 != a[j].0);
            } else {
                assert(a[j].0 != a[i].0);
            }
        }
    }
    ka.unique_seq_to_set();
    kb.lemma_cardinality_of_set();
    assert(ka.to_set().subset_of(kb.to_set())) by {
        assert forall|k: ClassId| ka.to_set().contains(k) implies kb.to_set().contains(k) by {
            let i = choose|i: int| 0 <= i < ka.len() && ka[i] == k;
            assert(has_key(b, a[i].0));
            let j = choose|j: int| key_at(b, j, k);
            assert(kb[j] == k);
        }
    }
    vstd::set_lib::lemma_len_subset(ka.to_set(), kb.to_set());
}

} // verus!
