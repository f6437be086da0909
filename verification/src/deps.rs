//! The dependency index: which provisional choices wait for which class.

use crate::assignment::{
    assignment_contains_key, assignment_entries, assignment_insert, entries_within, has_entry,
    has_key, key_at, lemma_has_key_prefix, lemma_has_key_push, lemma_keys_within_len,
    lemma_entry_has_key, lemma_entry_unique, lemma_unique_keys_push, unique_keys, Assignment,
    ClassId, NodeId,
};
use crate::cascade::{file, settle, settle_each, track, unassigned_in, Watcher};
use crate::egraph::GraphModel;
use crate::extraction::{resolved, stuck, well_ordered};
use indexmap::IndexMap;
use smallvec::SmallVec;
use vstd::prelude::*;

verus! {

/// The classes that a pending node still waits for. Holds a
/// `smallvec::SmallVec` with room for two classes inline.
#[verifier::external_body]
pub struct DepList {
    inner: SmallVec<[ClassId; 2]>,
}

/// The classes in a dependency list, in order.
pub uninterp spec fn dep_items(d: DepList) -> Seq<ClassId>;

/// A provisional choice of `node` for `class`, not yet committed because some
/// child class of `node` is not.
pub struct PendingNode {
    pub node: NodeId,
    pub class: ClassId,
    pub deps: DepList,
}

/// The pending nodes that watch one class. Holds a `smallvec::SmallVec` with
/// room for one node inline.
#[verifier::external_body]
#[derive(Default)]
pub struct Bucket {
    inner: SmallVec<[PendingNode; 1]>,
}

/// For each watched class, the pending nodes filed under it, in the order in
/// which they were filed.
pub uninterp spec fn watch_buckets(index: IndexMap<ClassId, Bucket>) -> Map<
    ClassId,
    Seq<PendingNode>,
>;

/// The index without any bucket.
pub open spec fn no_buckets() -> Map<ClassId, Seq<PendingNode>> {
    Map::empty()
}

/// What filing `rec` under `watch` makes of the buckets.
pub open spec fn filed(
    b: Map<ClassId, Seq<PendingNode>>,
    watch: ClassId,
    rec: PendingNode,
) -> Map<ClassId, Seq<PendingNode>> {
    b.insert(
        watch,
        if b.contains_key(watch) {
            b[watch].push(rec)
        } else {
            seq![rec]
        },
    )
}

/// Calls `SmallVec::new`: a list without items.
#[verifier::external_body]
fn dep_list_new() -> (d: DepList)
    ensures
        dep_items(d) == Seq::<ClassId>::empty(),
{
    DepList { inner: SmallVec::new() }
}

/// Calls `SmallVec::push`: appends one item.
#[verifier::external_body]
fn dep_list_push(d: &mut DepList, class: ClassId)
    ensures
        dep_items(*final(d)) == dep_items(*old(d)).push(class),
{
    d.inner.push(class)
}

/// Whether `class` has no committed node in `assign`.
pub fn is_unassigned(assign: &Assignment, class: ClassId) -> (open: bool)
    ensures
        open == !has_key(assignment_entries(*assign), class),
{
    !assignment_contains_key(assign, class)
}

/// Calls `SmallVec::retain`, which keeps, in order, the items for which the
/// closure answers `true`; here, the classes without a committed node.
#[verifier::external_body]
fn dep_list_retain_unassigned(d: &mut DepList, assign: &Assignment)
    ensures
        dep_items(*final(d)) == dep_items(*old(d)).filter(unassigned_in(assignment_entries(*assign))),
{
    d.inner.retain(|dep| is_unassigned(assign, *dep))
}

/// The first class of a list, if it has one.
pub open spec fn first_of(items: Seq<ClassId>) -> Option<ClassId> {
    if items.len() > 0 {
        Some(items[0])
    } else {
        None
    }
}

/// Calls `first` on the slice that a `SmallVec` derefs to: the first item,
/// or `None` for an empty list.
#[verifier::external_body]
fn dep_list_first(d: &DepList) -> (head: Option<ClassId>)
    ensures
        head == first_of(dep_items(*d)),
{
    d.inner.first().copied()
}

/// Calls `IndexMap::default`: an index without buckets.
#[verifier::external_body]
fn watch_index_new() -> (index: IndexMap<ClassId, Bucket>)
    ensures
        watch_buckets(index) == no_buckets(),
{
    IndexMap::default()
}

/// Calls `IndexMap::clear`: removes every bucket.
#[verifier::external_body]
fn watch_index_clear(index: &mut IndexMap<ClassId, Bucket>)
    ensures
        watch_buckets(*final(index)) == no_buckets(),
{
    index.clear()
}

/// Calls `IndexMap::swap_remove`, which removes the bucket of `class` and
/// hands it out, or hands out `None` where there is none; the bucket's nodes
/// come out as a `Vec` (`SmallVec::into_vec`), in their order.
#[verifier::external_body]
fn watch_index_take(index: &mut IndexMap<ClassId, Bucket>, class: ClassId) -> (taken:
    Option<Vec<PendingNode>>)
    ensures
        watch_buckets(*final(index)) == watch_buckets(*old(index)).remove(class),
        taken is Some <==> watch_buckets(*old(index)).contains_key(class),
        taken is Some ==> taken->Some_0@ == watch_buckets(*old(index))[class],
{
    match index.swap_remove(&class) {
        Some(bucket) => Some(bucket.inner.into_vec()),
        None => None,
    }
}

/// Calls `IndexMap::entry` and `Entry::or_default` to reach the bucket of
/// `watch`, creating an empty one where there is none, and `SmallVec::push`
/// to append `pending` to it.
#[verifier::external_body]
fn watch_index_file(index: &mut IndexMap<ClassId, Bucket>, watch: ClassId, pending: PendingNode)
    ensures
        watch_buckets(*final(index)) == filed(watch_buckets(*old(index)), watch, pending),
{
    index.entry(watch).or_default().inner.push(pending)
}

/// The dependency index of an extraction state.
pub struct Deps {
    data: IndexMap<ClassId, Bucket>,
}

/// The watcher that a pending node stands for.
pub open spec fn watcher_of(r: PendingNode) -> Watcher {
    Watcher { node: r.node, class: r.class, deps: dep_items(r.deps) }
}

/// The watchers that the pending nodes of a bucket stand for.
pub open spec fn watchers_in(bucket: Seq<PendingNode>) -> Seq<Watcher> {
    bucket.map_values(|r: PendingNode| watcher_of(r))
}

/// The watchers that the pending nodes of an index stand for.
pub open spec fn watchers_of(b: Map<ClassId, Seq<PendingNode>>) -> Map<ClassId, Seq<Watcher>> {
    Map::new(|w: ClassId| b.contains_key(w), |w: ClassId| watchers_in(b[w]))
}

/// Taking a bucket out of the index takes its watchers out.
proof fn lemma_watchers_taken(b: Map<ClassId, Seq<PendingNode>>, class: ClassId)
    ensures
        watchers_of(b.remove(class)) == watchers_of(b).remove(class),
{
    assert(watchers_of(b.remove(class)) =~= watchers_of(b).remove(class));
}

/// Filing a pending node files its watcher.
proof fn lemma_watchers_filed(b: Map<ClassId, Seq<PendingNode>>, watch: ClassId, rec: PendingNode)
    ensures
        watchers_of(filed(b, watch, rec)) == file(watchers_of(b), watch, watcher_of(rec)),
{
    let left = watchers_of(filed(b, watch, rec));
    let right = file(watchers_of(b), watch, watcher_of(rec));
    assert forall|w: ClassId| left.contains_key(w) implies #[trigger] left[w] == right[w] by {
        if w == watch {
            if b.contains_key(watch) {
                assert(watchers_in(b[watch].push(rec)) =~= watchers_in(b[watch]).push(
                    watcher_of(rec),
                ));
            } else {
                assert(watchers_in(seq![rec]) =~= seq![watcher_of(rec)]);
            }
        }
    }
    assert(left =~= right);
}

/// `w` has a bucket and `i` is a position in it.
pub open spec fn is_slot(b: Map<ClassId, Seq<PendingNode>>, w: ClassId, i: int) -> bool {
    b.contains_key(w) && 0 <= i < b[w].len()
}

/// Some bucket holds a pending node for `class`.
pub open spec fn is_filed(b: Map<ClassId, Seq<PendingNode>>, class: ClassId) -> bool {
    exists|w: ClassId, i: int| #[trigger] is_slot(b, w, i) && b[w][i].class == class
}

/// `deps` lists child classes only, and lists every child class that has no
/// entry in `assign`.
pub open spec fn deps_cover(
    deps: Seq<ClassId>,
    children: Seq<ClassId>,
    assign: Seq<(ClassId, NodeId)>,
) -> bool {
    &&& forall|k: int| 0 <= k < deps.len() ==> children.contains(#[trigger] deps[k])
    &&& forall|k: int|
        0 <= k < children.len() && !has_key(assign, #[trigger] children[k]) ==> deps.contains(
            children[k],
        )
}

/// `r` stands for a provisional entry that is not committed, and its
/// dependency list is up to date enough to tell when it can be.
pub open spec fn record_ok(
    r: PendingNode,
    assign: Seq<(ClassId, NodeId)>,
    prov: Seq<(ClassId, NodeId)>,
    g: GraphModel,
) -> bool {
    &&& has_entry(prov, r.class, r.node)
    &&& !has_key(assign, r.class)
    &&& deps_cover(dep_items(r.deps), (g.children)(r.node), assign)
}

/// The pending node at a slot is sound, waits for the class it is filed
/// under, and is not one of the classes in `open`.
pub open spec fn slot_ok(
    b: Map<ClassId, Seq<PendingNode>>,
    w: ClassId,
    i: int,
    assign: Seq<(ClassId, NodeId)>,
    prov: Seq<(ClassId, NodeId)>,
    g: GraphModel,
    open: Set<ClassId>,
) -> bool {
    &&& record_ok(b[w][i], assign, prov, g)
    &&& dep_items(b[w][i].deps).contains(w)
    &&& !open.contains(b[w][i].class)
}

/// The invariant of the index while commits are in progress.
///
/// Every provisional entry that is not committed is filed under exactly one
/// class, a child class of its node, unless its class is in `open` (it is
/// being handled by a caller). No watched class is committed, except
/// `settling`, whose bucket is about to be taken.
pub open spec fn index_ok(
    b: Map<ClassId, Seq<PendingNode>>,
    assign: Seq<(ClassId, NodeId)>,
    prov: Seq<(ClassId, NodeId)>,
    g: GraphModel,
    open: Set<ClassId>,
    settling: Option<ClassId>,
) -> bool {
    &&& forall|w: ClassId, i: int| #[trigger]
        is_slot(b, w, i) ==> slot_ok(b, w, i, assign, prov, g, open)
    &&& forall|w: ClassId| #[trigger]
        b.contains_key(w) && has_key(assign, w) ==> settling == Some(w)
    &&& forall|w1: ClassId, i1: int, w2: ClassId, i2: int|
        #[trigger] is_slot(b, w1, i1) && #[trigger] is_slot(b, w2, i2) && b[w1][i1].class
            == b[w2][i2].class ==> w1 == w2 && i1 == i2
    &&& forall|j: int|
        0 <= j < prov.len() && !has_key(assign, (#[trigger] prov[j]).0) && !open.contains(
            prov[j].0,
        ) ==> is_filed(b, prov[j].0)
}

/// The committed entries are entries of the provisional assignment, each
/// committed after all child classes of its node.
pub open spec fn commits_ok(
    assign: Seq<(ClassId, NodeId)>,
    prov: Seq<(ClassId, NodeId)>,
    g: GraphModel,
) -> bool {
    &&& unique_keys(assign)
    &&& unique_keys(prov)
    &&& entries_within(assign, prov)
    &&& well_ordered(assign, g)
}

/// The classes of the pending nodes of `recs` from position `from` on.
pub open spec fn in_flight(recs: Seq<PendingNode>, from: int) -> Set<ClassId> {
    Set::new(|c: ClassId| exists|j: int| from <= j < recs.len() && (#[trigger] recs[j]).class == c)
}

/// The classes of `open` and those of `recs` from position `from` on.
pub open spec fn open_with(open: Set<ClassId>, recs: Seq<PendingNode>, from: int) -> Set<ClassId> {
    open.union(in_flight(recs, from))
}

/// The pending nodes of `recs` from position `from` on are sound, are for
/// different classes, and none of their classes is in `open`.
pub open spec fn flight_ok(
    recs: Seq<PendingNode>,
    from: int,
    assign: Seq<(ClassId, NodeId)>,
    prov: Seq<(ClassId, NodeId)>,
    g: GraphModel,
    open: Set<ClassId>,
) -> bool {
    &&& forall|j: int|
        from <= j < recs.len() ==> record_ok(#[trigger] recs[j], assign, prov, g)
            && !open.contains(recs[j].class)
    &&& forall|j1: int, j2: int|
        from <= j1 < j2 < recs.len() ==> (#[trigger] recs[j1]).class != (#[trigger] recs[j2]).class
}

/// No class of `open` is committed.
pub open spec fn none_committed(open: Set<ClassId>, assign: Seq<(ClassId, NodeId)>) -> bool {
    forall|c: ClassId| #[trigger] open.contains(c) ==> !has_key(assign, c)
}

/// A dependency list that is up to date stays so while the assignment grows.
proof fn lemma_deps_cover_grows(
    deps: Seq<ClassId>,
    children: Seq<ClassId>,
    a: Seq<(ClassId, NodeId)>,
    a2: Seq<(ClassId, NodeId)>,
)
    requires
        deps_cover(deps, children, a),
        a.is_prefix_of(a2),
    ensures
        deps_cover(deps, children, a2),
{
    assert forall|k: int|
        0 <= k < children.len() && !has_key(a2, #[trigger] children[k]) implies deps.contains(
        children[k],
    ) by {
        if has_key(a, children[k]) {
            lemma_has_key_prefix(a, a2, children[k]);
        }
    }
}

/// Taking the bucket of the settling class out of the index leaves a sound
/// index, with the bucket's nodes in flight.
proof fn lemma_take_bucket(
    b: Map<ClassId, Seq<PendingNode>>,
    a: Seq<(ClassId, NodeId)>,
    p: Seq<(ClassId, NodeId)>,
    g: GraphModel,
    open: Set<ClassId>,
    class: ClassId,
)
    requires
        index_ok(b, a, p, g, open, Some(class)),
        b.contains_key(class),
    ensures
        index_ok(b.remove(class), a, p, g, open_with(open, b[class], 0), None),
        flight_ok(b[class], 0, a, p, g, open),
{
    let recs = b[class];
    let b2 = b.remove(class);
    let open2 = open_with(open, recs, 0);
    assert forall|j: int| 0 <= j < recs.len() implies record_ok(#[trigger] recs[j], a, p, g)
        && !open.contains(recs[j].class) by {
        assert(is_slot(b, class, j));
        assert(slot_ok(b, class, j, a, p, g, open));
    }
    assert forall|j1: int, j2: int| 0 <= j1 < j2 < recs.len() implies (#[trigger] recs[j1]).class
        != (#[trigger] recs[j2]).class by {
        assert(is_slot(b, class, j1));
        assert(is_slot(b, class, j2));
    }
    assert forall|w: ClassId, i: int| #[trigger] is_slot(b2, w, i) implies slot_ok(
        b2,
        w,
        i,
        a,
        p,
        g,
        open2,
    ) by {
        assert(is_slot(b, w, i));
        assert(slot_ok(b, w, i, a, p, g, open));
        if in_flight(recs, 0).contains(b[w][i].class) {
            let j = choose|j: int| 0 <= j < recs.len() && (#[trigger] recs[j]).class == b[w][i].class;
            assert(is_slot(b, class, j));
        }
    }
    assert forall|w: ClassId| #[trigger] b2.contains_key(w) && has_key(a, w) implies None::<
        ClassId,
    > == Some(w) by {
        assert(b.contains_key(w));
    }
    assert forall|w1: ClassId, i1: int, w2: ClassId, i2: int|
        #[trigger] is_slot(b2, w1, i1) && #[trigger] is_slot(b2, w2, i2) && b2[w1][i1].class
            == b2[w2][i2].class implies w1 == w2 && i1 == i2 by {
        assert(is_slot(b, w1, i1));
        assert(is_slot(b, w2, i2));
    }
    assert forall|j: int|
        0 <= j < p.len() && !has_key(a, (#[trigger] p[j]).0) && !open2.contains(
            p[j].0,
        ) implies is_filed(b2, p[j].0) by {
        assert(is_filed(b, p[j].0));
        let (w, i) = choose|w: ClassId, i: int| #[trigger] is_slot(b, w, i) && b[w][i].class == p[j].0;
        if w == class {
            assert(recs[i].class == p[j].0);
            assert(in_flight(recs, 0).contains(p[j].0));
        }
        assert(is_slot(b2, w, i));
    }
}

/// Where the settling class has no bucket, nothing is settling.
proof fn lemma_nothing_to_take(
    b: Map<ClassId, Seq<PendingNode>>,
    a: Seq<(ClassId, NodeId)>,
    p: Seq<(ClassId, NodeId)>,
    g: GraphModel,
    open: Set<ClassId>,
    class: ClassId,
)
    requires
        index_ok(b, a, p, g, open, Some(class)),
        !b.contains_key(class),
    ensures
        index_ok(b, a, p, g, open, None),
{
}

/// Filing a sound pending node, whose class is the one open class that is
/// dropped from `open_before`, under an uncommitted class that it waits for
/// keeps the index sound.
proof fn lemma_file(
    b: Map<ClassId, Seq<PendingNode>>,
    a: Seq<(ClassId, NodeId)>,
    p: Seq<(ClassId, NodeId)>,
    g: GraphModel,
    open_before: Set<ClassId>,
    open_after: Set<ClassId>,
    watch: ClassId,
    rec: PendingNode,
)
    requires
        index_ok(b, a, p, g, open_before, None),
        record_ok(rec, a, p, g),
        dep_items(rec.deps).contains(watch),
        !has_key(a, watch),
        open_before.contains(rec.class),
        !open_after.contains(rec.class),
        forall|c: ClassId| c != rec.class ==> (open_after.contains(c) <==> open_before.contains(c)),
    ensures
        index_ok(filed(b, watch, rec), a, p, g, open_after, None),
{
    let b2 = filed(b, watch, rec);
    let at = if b.contains_key(watch) { b[watch].len() as int } else { 0 };
    assert(is_slot(b2, watch, at));
    assert(b2[watch][at] == rec);
    assert forall|w: ClassId, i: int| #[trigger] is_slot(b2, w, i) implies (if w == watch && i
        == at {
        b2[w][i] == rec
    } else {
        is_slot(b, w, i) && b2[w][i] == b[w][i]
    }) by {}
    assert forall|w: ClassId, i: int| #[trigger] is_slot(b2, w, i) implies slot_ok(
        b2,
        w,
        i,
        a,
        p,
        g,
        open_after,
    ) by {
        if !(w == watch && i == at) {
            assert(is_slot(b, w, i));
            assert(slot_ok(b, w, i, a, p, g, open_before));
        }
    }
    assert forall|w: ClassId| #[trigger] b2.contains_key(w) && has_key(a, w) implies None::<
        ClassId,
    > == Some(w) by {
        if w != watch {
            assert(b.contains_key(w));
        }
    }
    assert forall|w1: ClassId, i1: int, w2: ClassId, i2: int|
        #[trigger] is_slot(b2, w1, i1) && #[trigger] is_slot(b2, w2, i2) && b2[w1][i1].class
            == b2[w2][i2].class implies w1 == w2 && i1 == i2 by {
        if !(w1 == watch && i1 == at) {
            assert(is_slot(b, w1, i1));
            assert(slot_ok(b, w1, i1, a, p, g, open_before));
        }
        if !(w2 == watch && i2 == at) {
            assert(is_slot(b, w2, i2));
            assert(slot_ok(b, w2, i2, a, p, g, open_before));
        }
    }
    assert forall|j: int|
        0 <= j < p.len() && !has_key(a, (#[trigger] p[j]).0) && !open_after.contains(
            p[j].0,
        ) implies is_filed(b2, p[j].0) by {
        if p[j].0 == rec.class {
            assert(is_slot(b2, watch, at) && b2[watch][at].class == p[j].0);
        } else {
            assert(is_filed(b, p[j].0));
            let (w, i) = choose|w: ClassId, i: int| #[trigger]
                is_slot(b, w, i) && b[w][i].class == p[j].0;
            assert(is_slot(b2, w, i) && b2[w][i].class == p[j].0);
        }
    }
}

/// Dropping the committed classes from a dependency list keeps it up to
/// date; if nothing is left, every child class is committed, and otherwise
/// the first class left is an uncommitted one.
proof fn lemma_retain(deps: Seq<ClassId>, children: Seq<ClassId>, a: Seq<(ClassId, NodeId)>)
    requires
        deps_cover(deps, children, a),
    ensures
        deps_cover(deps.filter(unassigned_in(a)), children, a),
        deps.filter(unassigned_in(a)).len() == 0 ==> resolved(a, children),
        deps.filter(unassigned_in(a)).len() > 0 ==> !has_key(a, deps.filter(unassigned_in(a))[0])
            && deps.filter(unassigned_in(a)).contains(deps.filter(unassigned_in(a))[0]),
{
    let pred = unassigned_in(a);
    let kept = deps.filter(pred);
    assert forall|k: int| 0 <= k < kept.len() implies children.contains(#[trigger] kept[k]) by {
        assert(kept.contains(kept[k]));
        deps.lemma_filter_contains_rev(pred, kept[k]);
        let m = choose|m: int| 0 <= m < deps.len() && deps[m] == kept[k];
        assert(children.contains(deps[m]));
    }
    assert forall|k: int|
        0 <= k < children.len() && !has_key(a, #[trigger] children[k]) implies kept.contains(
        children[k],
    ) by {
        assert(deps.contains(children[k]));
        let m = choose|m: int| 0 <= m < deps.len() && deps[m] == children[k];
        assert(pred(deps[m]));
        deps.lemma_filter_contains(pred, m);
    }
    if kept.len() == 0 {
        assert forall|k: int| 0 <= k < children.len() implies has_key(
            a,
            #[trigger] children[k],
        ) by {
            if !has_key(a, children[k]) {
                assert(kept.contains(children[k]));
            }
        }
    } else {
        deps.lemma_filter_pred(pred, 0);
        assert(pred(kept[0]));
        assert(kept.contains(kept[0]));
    }
}

/// The pending nodes in flight stay sound while the assignment grows by
/// classes other than theirs.
proof fn lemma_flight_grows(
    recs: Seq<PendingNode>,
    from: int,
    a: Seq<(ClassId, NodeId)>,
    a2: Seq<(ClassId, NodeId)>,
    p: Seq<(ClassId, NodeId)>,
    g: GraphModel,
    open: Set<ClassId>,
)
    requires
        0 <= from,
        flight_ok(recs, from, a, p, g, open),
        a.is_prefix_of(a2),
        none_committed(in_flight(recs, from), a2),
    ensures
        flight_ok(recs, from, a2, p, g, open),
{
    assert forall|j: int| from <= j < recs.len() implies record_ok(#[trigger] recs[j], a2, p, g)
        && !open.contains(recs[j].class) by {
        assert(record_ok(recs[j], a, p, g));
        assert(in_flight(recs, from).contains(recs[j].class));
        lemma_deps_cover_grows(dep_items(recs[j].deps), (g.children)(recs[j].node), a, a2);
    }
}

/// Committing a provisional entry whose node has all its child classes
/// committed keeps the committed entries well ordered, and leaves a sound
/// index in which the entry's class is settling.
proof fn lemma_commit(
    b: Map<ClassId, Seq<PendingNode>>,
    a: Seq<(ClassId, NodeId)>,
    p: Seq<(ClassId, NodeId)>,
    g: GraphModel,
    open_before: Set<ClassId>,
    open_after: Set<ClassId>,
    class: ClassId,
    node: NodeId,
)
    requires
        index_ok(b, a, p, g, open_before, None),
        commits_ok(a, p, g),
        has_entry(p, class, node),
        !has_key(a, class),
        resolved(a, (g.children)(node)),
        open_before.contains(class),
        !open_after.contains(class),
        forall|c: ClassId| c != class ==> (open_after.contains(c) <==> open_before.contains(c)),
    ensures
        commits_ok(a.push((class, node)), p, g),
        index_ok(b, a.push((class, node)), p, g, open_after, Some(class)),
{
    let a2 = a.push((class, node));
    lemma_unique_keys_push(a, (class, node));
    assert(entries_within(a2, p)) by {
        assert forall|i: int| 0 <= i < a2.len() implies p.contains(#[trigger] a2[i]) by {
            if i < a.len() {
                assert(a2[i] == a[i]);
            }
        }
    }
    assert(well_ordered(a2, g)) by {
        assert forall|i: int| 0 <= i < a2.len() implies resolved(
            #[trigger] a2.take(i),
            (g.children)(a2[i].1),
        ) by {
            if i < a.len() {
                assert(a2.take(i) =~= a.take(i));
                assert(a2[i] == a[i]);
            } else {
                assert(a2.take(i) =~= a);
            }
        }
    }
    assert forall|w: ClassId, i: int| #[trigger] is_slot(b, w, i) implies slot_ok(
        b,
        w,
        i,
        a2,
        p,
        g,
        open_after,
    ) by {
        assert(slot_ok(b, w, i, a, p, g, open_before));
        lemma_has_key_push(a, (class, node), b[w][i].class);
        lemma_deps_cover_grows(dep_items(b[w][i].deps), (g.children)(b[w][i].node), a, a2);
    }
    assert forall|w: ClassId| #[trigger] b.contains_key(w) && has_key(a2, w) implies Some(class)
        == Some(w) by {
        lemma_has_key_push(a, (class, node), w);
    }
    assert forall|j: int|
        0 <= j < p.len() && !has_key(a2, (#[trigger] p[j]).0) && !open_after.contains(
            p[j].0,
        ) implies is_filed(b, p[j].0) by {
        lemma_has_key_push(a, (class, node), p[j].0);
    }
}

/// An index that is sound for one set of open classes is sound for any set
/// with the same classes.
pub proof fn lemma_same_open(
    b: Map<ClassId, Seq<PendingNode>>,
    a: Seq<(ClassId, NodeId)>,
    p: Seq<(ClassId, NodeId)>,
    g: GraphModel,
    open: Set<ClassId>,
    open2: Set<ClassId>,
    settling: Option<ClassId>,
)
    requires
        index_ok(b, a, p, g, open, settling),
        forall|c: ClassId| open.contains(c) <==> open2.contains(c),
    ensures
        index_ok(b, a, p, g, open2, settling),
{
    assert(open =~= open2);
}

impl View for Deps {
    type V = Map<ClassId, Seq<Watcher>>;

    closed spec fn view(&self) -> Map<ClassId, Seq<Watcher>> {
        watchers_of(watch_buckets(self.data))
    }
}

impl Deps {
    /// The buckets of the index.
    pub closed spec fn buckets(&self) -> Map<ClassId, Seq<PendingNode>> {
        watch_buckets(self.data)
    }

    /// Forget every pending node.
    pub fn clear(&mut self)
        ensures
            final(self).buckets() == no_buckets(),
            final(self)@ == Map::<ClassId, Seq<Watcher>>::empty(),
    {
        watch_index_clear(&mut self.data);
        assert(self@ =~= Map::<ClassId, Seq<Watcher>>::empty());
    }

    /// `class` has just been committed: revisit the pending nodes that watch
    /// it. A node that still waits for another class is filed under that
    /// class; a node that waits for nothing more is committed, and the
    /// pending nodes that watch its class are revisited in turn.
    ///
    /// Returns the number of entries committed.
    pub(crate) fn resolve_dep(
        &mut self,
        class: ClassId,
        assign: &mut Assignment,
        Ghost(prov): Ghost<Seq<(ClassId, NodeId)>>,
        Ghost(g): Ghost<GraphModel>,
        Ghost(open): Ghost<Set<ClassId>>,
    ) -> (assigned: usize)
        requires
            commits_ok(assignment_entries(*old(assign)), prov, g),
            index_ok(old(self).buckets(), assignment_entries(*old(assign)), prov, g, open, Some(class)),
            none_committed(open, assignment_entries(*old(assign))),
            prov.len() <= usize::MAX,
        ensures
            commits_ok(assignment_entries(*final(assign)), prov, g),
            index_ok(final(self).buckets(), assignment_entries(*final(assign)), prov, g, open, None),
            none_committed(open, assignment_entries(*final(assign))),
            assignment_entries(*old(assign)).is_prefix_of(assignment_entries(*final(assign))),
            assignment_entries(*final(assign)).len() == assignment_entries(*old(assign)).len()
                + assigned,
            forall|fuel: nat|
                fuel >= prov.len() - assignment_entries(*old(assign)).len() ==> #[trigger] settle(
                    old(self)@,
                    assignment_entries(*old(assign)),
                    class,
                    fuel,
                ) == (final(self)@, assignment_entries(*final(assign))),
        decreases prov.len() - assignment_entries(*old(assign)).len(),
    {
        let ghost start = assignment_entries(*assign);
        let ghost b0 = self.buckets();
        let ghost index0 = self@;
        let mut assigned: usize = 0;
        let pending = match watch_index_take(&mut self.data, class) {
            Some(pending) => pending,
            None => {
                proof {
                    assert(self.buckets() =~= b0);
                    lemma_nothing_to_take(b0, start, prov, g, open, class);
                }
                return assigned;
            },
        };
        let ghost recs = pending@;
        let ghost waiting = watchers_in(recs);
        proof {
            lemma_take_bucket(b0, start, prov, g, open, class);
            lemma_watchers_taken(b0, class);
            assert(index0[class] == waiting);
        }
        let ghost mut seen: nat = 0;
        for rec in it: pending
            invariant
                it.seq() == recs,
                seen == it.index(),
                waiting == watchers_in(recs),
                index0 == old(self)@,
                forall|fuel: nat|
                    fuel >= prov.len() - start.len() ==> #[trigger] settle_each(
                        self@,
                        assignment_entries(*assign),
                        waiting,
                        seen,
                        fuel,
                    ) == settle(index0, start, class, fuel),
                start == assignment_entries(*old(assign)),
                prov.len() <= usize::MAX,
                commits_ok(assignment_entries(*assign), prov, g),
                index_ok(
                    self.buckets(),
                    assignment_entries(*assign),
                    prov,
                    g,
                    open_with(open, recs, it.index() as int),
                    None,
                ),
                flight_ok(recs, it.index() as int, assignment_entries(*assign), prov, g, open),
                none_committed(open, assignment_entries(*assign)),
                start.is_prefix_of(assignment_entries(*assign)),
                assignment_entries(*assign).len() == start.len() + assigned,
        {
            let ghost idx = it.index() as int;
            let ghost a = assignment_entries(*assign);
            let ghost b = self.buckets();
            let ghost open_before = open_with(open, recs, idx);
            let ghost open_after = open_with(open, recs, idx + 1);
            let mut rec = rec;
            proof {
                assert(rec == recs[idx]);
                assert(record_ok(recs[idx], a, prov, g));
                lemma_retain(dep_items(rec.deps), (g.children)(rec.node), a);
                assert(in_flight(recs, idx).contains(rec.class));
                assert(!in_flight(recs, idx + 1).contains(rec.class)) by {
                    if in_flight(recs, idx + 1).contains(rec.class) {
                        let j = choose|j: int|
                            idx + 1 <= j < recs.len() && (#[trigger] recs[j]).class == rec.class;
                        assert(recs[idx].class != recs[j].class);
                    }
                }
                assert forall|c: ClassId| c != rec.class implies (open_after.contains(c)
                    <==> open_before.contains(c)) by {
                    if in_flight(recs, idx).contains(c) {
                        let j = choose|j: int|
                            idx <= j < recs.len() && (#[trigger] recs[j]).class == c;
                        assert(idx + 1 <= j);
                    }
                    if in_flight(recs, idx + 1).contains(c) {
                        let j = choose|j: int|
                            idx + 1 <= j < recs.len() && (#[trigger] recs[j]).class == c;
                        assert(idx <= j);
                    }
                }
            }
            let ghost index = self@;
            let ghost watcher = watcher_of(rec);
            proof {
                assert(waiting[idx] == watcher);
                lemma_keys_bound(a, prov);
            }
            dep_list_retain_unassigned(&mut rec.deps, assign);
            match dep_list_first(&rec.deps) {
                Some(first) => {
                    // Start watching another unresolved dependency.
                    proof {
                        lemma_file(b, a, prov, g, open_before, open_after, first, rec);
                        lemma_watchers_filed(b, first, rec);
                        assert forall|fuel: nat| fuel >= prov.len() - start.len() implies settle_each(
                            file(index, first, watcher_of(rec)),
                            a,
                            waiting,
                            (idx + 1) as nat,
                            fuel,
                        ) == settle(index0, start, class, fuel) by {
                            assert(settle_each(index, a, waiting, idx as nat, fuel) == settle(
                                index0,
                                start,
                                class,
                                fuel,
                            ));
                        }
                    }
                    watch_index_file(&mut self.data, first, rec);
                },
                None => {
                    // This was the last pending dependency for this node, so
                    // we can safely assign it.
                    proof {
                        lemma_commit(b, a, prov, g, open_before, open_after, rec.class, rec.node);
                        lemma_keys_bound(a.push((rec.class, rec.node)), prov);
                    }
                    assignment_insert(assign, rec.class, rec.node);
                    let ghost a1 = assignment_entries(*assign);
                    proof {
                        assert forall|c: ClassId| #[trigger] open_after.contains(c) implies !has_key(
                            a1,
                            c,
                        ) by {
                            lemma_has_key_push(a, (rec.class, rec.node), c);
                            if in_flight(recs, idx + 1).contains(c) {
                                let j = choose|j: int|
                                    idx + 1 <= j < recs.len() && (#[trigger] recs[j]).class == c;
                                assert(record_ok(recs[j], a, prov, g));
                            }
                        }
                    }
                    let more = self.resolve_dep(
                        rec.class,
                        assign,
                        Ghost(prov),
                        Ghost(g),
                        Ghost(open_after),
                    );
                    proof {
                        let a2 = assignment_entries(*assign);
                        assert forall|fuel: nat| fuel >= prov.len() - start.len() implies settle_each(
                            self@,
                            a2,
                            waiting,
                            (idx + 1) as nat,
                            fuel,
                        ) == settle(index0, start, class, fuel) by {
                            assert(settle_each(index, a, waiting, idx as nat, fuel) == settle(
                                index0,
                                start,
                                class,
                                fuel,
                            ));
                            assert(fuel > 0);
                            assert(settle(index, a1, rec.class, (fuel - 1) as nat) == (self@, a2));
                        }
                        assert(a.is_prefix_of(a1));
                        assert(flight_ok(recs, idx + 1, a, prov, g, open));
                        assert forall|c: ClassId| #[trigger]
                            in_flight(recs, idx + 1).contains(c) implies !has_key(a2, c) by {
                            assert(open_after.contains(c));
                        }
                        lemma_flight_grows(recs, idx + 1, a, a2, prov, g, open);
                        assert forall|c: ClassId| #[trigger] open.contains(c) implies !has_key(
                            a2,
                            c,
                        ) by {
                            assert(open_after.contains(c));
                        }
                        lemma_keys_bound(a2, prov);
                    }
                    assigned = assigned + more + 1;
                },
            }
            proof {
                seen = seen + 1;
            }
        }
        proof {
            lemma_same_open(
                self.buckets(),
                assignment_entries(*assign),
                prov,
                g,
                open_with(open, recs, recs.len() as int),
                open,
                None,
            );
            assert forall|fuel: nat| fuel >= prov.len() - start.len() implies #[trigger] settle(
                index0,
                start,
                class,
                fuel,
            ) == (self@, assignment_entries(*assign)) by {
                assert(settle_each(self@, assignment_entries(*assign), waiting, seen, fuel)
                    == settle(index0, start, class, fuel));
            }
        }
        assigned
    }

    /// Register the provisional choice of `node` for `class`, whose child
    /// classes are `children`. If every child class is committed, the choice
    /// is committed at once, and so is every pending node that this sets
    /// free; otherwise it is filed under the first child class that is not.
    ///
    /// Returns the number of entries committed.
    pub(crate) fn track_pending_assignment(
        &mut self,
        node: NodeId,
        class: ClassId,
        assign: &mut Assignment,
        children: &[ClassId],
        Ghost(prov): Ghost<Seq<(ClassId, NodeId)>>,
        Ghost(g): Ghost<GraphModel>,
        Ghost(open): Ghost<Set<ClassId>>,
    ) -> (assigned: usize)
        requires
            children@ == (g.children)(node),
            commits_ok(assignment_entries(*old(assign)), prov, g),
            index_ok(
                old(self).buckets(),
                assignment_entries(*old(assign)),
                prov,
                g,
                open.insert(class),
                None,
            ),
            has_entry(prov, class, node),
            !has_key(assignment_entries(*old(assign)), class),
            !open.contains(class),
            none_committed(open, assignment_entries(*old(assign))),
            prov.len() <= usize::MAX,
        ensures
            commits_ok(assignment_entries(*final(assign)), prov, g),
            index_ok(final(self).buckets(), assignment_entries(*final(assign)), prov, g, open, None),
            none_committed(open, assignment_entries(*final(assign))),
            assignment_entries(*old(assign)).is_prefix_of(assignment_entries(*final(assign))),
            assignment_entries(*final(assign)).len() == assignment_entries(*old(assign)).len()
                + assigned,
            assigned > 0 <==> resolved(assignment_entries(*old(assign)), children@),
            assigned > 0 ==> assignment_entries(*final(assign))[assignment_entries(
                *old(assign),
            ).len() as int] == (class, node),
            forall|fuel: nat|
                fuel >= prov.len() - assignment_entries(*old(assign)).len() ==> #[trigger] track(
                    old(self)@,
                    assignment_entries(*old(assign)),
                    class,
                    node,
                    children@,
                    fuel,
                ) == (final(self)@, assignment_entries(*final(assign))),
    {
        let ghost a = assignment_entries(*assign);
        let ghost b = self.buckets();
        let ghost kids = children@;
        let mut deps = dep_list_new();
        let mut k: usize = 0;
        while k < children.len()
            invariant
                k <= children.len(),
                kids == children@,
                a == assignment_entries(*assign),
                dep_items(deps) == kids.take(k as int).filter(unassigned_in(a)),
            decreases children.len() - k,
        {
            let child = children[k];
            proof {
                kids.take(k as int).lemma_filter_push(child, unassigned_in(a));
                assert(kids.take(k as int).push(child) =~= kids.take(k + 1));
            }
            if is_unassigned(assign, child) {
                dep_list_push(&mut deps, child);
            }
            k += 1;
        }
        proof {
            assert(kids.take(k as int) =~= kids);
            assert(deps_cover(kids, kids, a)) by {
                assert forall|m: int| 0 <= m < kids.len() implies kids.contains(
                    #[trigger] kids[m],
                ) by {}
            }
            lemma_retain(kids, kids, a);
        }
        match dep_list_first(&deps) {
            None => {
                // No pending dependencies! Make the final assignment to the
                // node and update any other provisional assignments that
                // depend on it.
                proof {
                    lemma_commit(b, a, prov, g, open.insert(class), open, class, node);
                    lemma_keys_bound(a.push((class, node)), prov);
                    assert forall|c: ClassId| #[trigger] open.contains(c) implies !has_key(
                        a.push((class, node)),
                        c,
                    ) by {
                        lemma_has_key_push(a, (class, node), c);
                    }
                }
                assignment_insert(assign, class, node);
                let ghost inserted = assignment_entries(*assign);
                let more = self.resolve_dep(class, assign, Ghost(prov), Ghost(g), Ghost(open));
                proof {
                    lemma_keys_bound(assignment_entries(*assign), prov);
                    assert(inserted[a.len() as int] == (class, node));
                    assert(assignment_entries(*assign)[a.len() as int] == inserted[a.len() as int]);
                }
                more + 1
            },
            Some(dep) => {
                let pending = PendingNode { node, class, deps };
                proof {
                    let kept = kids.filter(unassigned_in(a));
                    assert(record_ok(pending, a, prov, g));
                    lemma_file(b, a, prov, g, open.insert(class), open, dep, pending);
                    lemma_watchers_filed(b, dep, pending);
                    assert(!resolved(a, kids)) by {
                        assert(kept.contains(kept[0]));
                        kids.lemma_filter_contains_rev(unassigned_in(a), kept[0]);
                        let m = choose|m: int| 0 <= m < kids.len() && kids[m] == kept[0];
                        assert(!has_key(a, kids[m]));
                    }
                }
                watch_index_file(&mut self.data, dep, pending);
                0
            },
        }
    }
}

impl Default for Deps {
    /// An index without pending nodes.
    fn default() -> (deps: Self)
        ensures
            deps.buckets() == no_buckets(),
            deps@ == Map::<ClassId, Seq<Watcher>>::empty(),
    {
        let deps = Deps { data: watch_index_new() };
        assert(deps@ =~= Map::<ClassId, Seq<Watcher>>::empty());
        deps
    }
}

/// Committed entries are provisional entries with different classes, so
/// there are no more of them than provisional entries.
pub proof fn lemma_keys_bound(a: Seq<(ClassId, NodeId)>, p: Seq<(ClassId, NodeId)>)
    requires
        unique_keys(a),
        entries_within(a, p),
    ensures
        a.len() <= p.len(),
{
    assert forall|i: int| 0 <= i < a.len() implies has_key(p, (#[trigger] a[i]).0) by {
        assert(p.contains(a[i]));
        lemma_entry_has_key(p, a[i].0, a[i].1);
    }
    lemma_keys_within_len(a, p);
}

/// Dispatching a class: a new provisional entry, not yet filed, leaves the
/// index sound with the new class open.
pub proof fn lemma_dispatch(
    b: Map<ClassId, Seq<PendingNode>>,
    a: Seq<(ClassId, NodeId)>,
    p: Seq<(ClassId, NodeId)>,
    g: GraphModel,
    class: ClassId,
    node: NodeId,
)
    requires
        index_ok(b, a, p, g, Set::empty(), None),
        commits_ok(a, p, g),
        !has_key(p, class),
    ensures
        index_ok(b, a, p.push((class, node)), g, Set::empty().insert(class), None),
        commits_ok(a, p.push((class, node)), g),
        has_entry(p.push((class, node)), class, node),
        !has_key(a, class),
{
    let wider = p.push((class, node));
    let open2 = Set::<ClassId>::empty().insert(class);
    lemma_unique_keys_push(p, (class, node));
    assert(wider[p.len() as int] == (class, node));
    assert forall|x: (ClassId, NodeId)| p.contains(x) implies wider.contains(x) by {
        let i = choose|i: int| 0 <= i < p.len() && p[i] == x;
        assert(wider[i] == x);
    }
    assert(entries_within(a, wider)) by {
        assert forall|i: int| 0 <= i < a.len() implies wider.contains(#[trigger] a[i]) by {
            assert(p.contains(a[i]));
        }
    }
    if has_key(a, class) {
        let i = choose|i: int| key_at(a, i, class);
        assert(p.contains(a[i]));
        lemma_entry_has_key(p, a[i].0, a[i].1);
    }
    assert forall|w: ClassId, i: int| #[trigger] is_slot(b, w, i) implies slot_ok(
        b,
        w,
        i,
        a,
        wider,
        g,
        open2,
    ) by {
        assert(slot_ok(b, w, i, a, p, g, Set::empty()));
        lemma_entry_has_key(p, b[w][i].class, b[w][i].node);
    }
    assert forall|j: int|
        0 <= j < wider.len() && !has_key(a, (#[trigger] wider[j]).0) && !open2.contains(
            wider[j].0,
        ) implies is_filed(b, wider[j].0) by {
        if j < p.len() {
            assert(wider[j] == p[j]);
        }
    }
}

/// Under a sound index with no class open, no provisional entry that is not
/// committed could be.
pub proof fn lemma_index_stuck(
    b: Map<ClassId, Seq<PendingNode>>,
    a: Seq<(ClassId, NodeId)>,
    p: Seq<(ClassId, NodeId)>,
    g: GraphModel,
)
    requires
        index_ok(b, a, p, g, Set::empty(), None),
        unique_keys(p),
    ensures
        stuck(a, p, g),
{
    assert forall|i: int| 0 <= i < p.len() && !has_key(a, (#[trigger] p[i]).0) implies !resolved(
        a,
        (g.children)(p[i].1),
    ) by {
        assert(is_filed(b, p[i].0));
        let (w, k) = choose|w: ClassId, k: int| #[trigger]
            is_slot(b, w, k) && b[w][k].class == p[i].0;
        let r = b[w][k];
        assert(slot_ok(b, w, k, a, p, g, Set::empty()));
        assert(p.contains(p[i]));
        lemma_entry_unique(p, p[i].0, r.node, p[i].1);
        let deps = dep_items(r.deps);
        let m = choose|m: int| 0 <= m < deps.len() && deps[m] == w;
        assert((g.children)(r.node).contains(deps[m]));
        let kids = (g.children)(r.node);
        let n = choose|n: int| 0 <= n < kids.len() && kids[n] == w;
        assert(b.contains_key(w));
        assert(!has_key(a, kids[n]));
    }
}

/// Where a node has a child class that is not committed, choosing it files
/// it and commits nothing, whatever the fuel.
pub proof fn lemma_track_waits(
    index: Map<ClassId, Seq<Watcher>>,
    assign: Seq<(ClassId, NodeId)>,
    class: ClassId,
    node: NodeId,
    children: Seq<ClassId>,
    fuel: nat,
)
    requires
        !resolved(assign, children),
    ensures
        track(index, assign, class, node, children, fuel) == track(
            index,
            assign,
            class,
            node,
            children,
            0,
        ),
        track(index, assign, class, node, children, fuel).1 == assign,
{
    assert(deps_cover(children, children, assign)) by {
        assert forall|m: int| 0 <= m < children.len() implies children.contains(
            #[trigger] children[m],
        ) by {}
    }
    lemma_retain(children, children, assign);
}

} // verus!
