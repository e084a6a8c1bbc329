//! The entity store: the runtime object graph.
//!
//! Entities are slots in an arena addressed by generation-checked handles.
//! Each live entity owns a set of typed component records (at most one per
//! type name) and may have a parent, forming a forest. Slot indices are
//! never reused and a child's index is always greater than its parent's, so
//! the parent/child graph is acyclic by construction and subtree traversals
//! terminate by a simple index measure. Destroying an entity recursively
//! invalidates every handle into its subtree.

use vstd::prelude::*;

use crate::payload::Payload;
use crate::registry::bytes_eq;

verus! {

/// A generation-checked handle to an entity: the slot index and the
/// generation the slot carried when the entity was spawned. Slot indices
/// are never reused, so a handle stays unambiguous forever and turns
/// invalid the moment its subtree is destroyed.
#[derive(Clone, Copy, PartialEq, Eq, Structural, Debug)]
pub struct EntityId {
    pub index: usize,
    pub generation: u64,
}

/// Mathematical model of one component record.
#[verifier::ext_equal]
pub struct CompModel {
    pub name: Seq<u8>,
    pub payload: Payload,
}

/// Mathematical model of one arena slot.
#[verifier::ext_equal]
pub struct SlotModel {
    pub live: bool,
    pub generation: u64,
    pub parent: Option<usize>,
    pub children: Seq<usize>,
    pub comps: Seq<CompModel>,
}

struct Slot {
    live: bool,
    generation: u64,
    parent: Option<usize>,
    children: Vec<usize>,
    components: Vec<(Vec<u8>, Payload)>,
}

/// The runtime object graph.
pub struct EntityStore {
    slots: Vec<Slot>,
}

spec fn comp_model(c: (Vec<u8>, Payload)) -> CompModel {
    CompModel { name: c.0@, payload: c.1 }
}

spec fn slot_model(s: Slot) -> SlotModel {
    SlotModel {
        live: s.live,
        generation: s.generation,
        parent: s.parent,
        children: s.children@,
        comps: s.components@.map_values(|c: (Vec<u8>, Payload)| comp_model(c)),
    }
}

/// Whether a handle refers to a live entity of the store model.
pub open spec fn valid_id(s: Seq<SlotModel>, e: EntityId) -> bool {
    &&& e.index < s.len()
    &&& s[e.index as int].live
    &&& s[e.index as int].generation == e.generation
}

/// A component set holds a record of the given type name.
pub open spec fn has_comp(cs: Seq<CompModel>, name: Seq<u8>) -> bool {
    exists|j: int| 0 <= j < cs.len() && (#[trigger] cs[j]).name == name
}

/// The index of the record of the given type name (meaningful when
/// `has_comp` holds and names are unique).
pub open spec fn comp_index_of(cs: Seq<CompModel>, name: Seq<u8>) -> int {
    choose|j: int| 0 <= j < cs.len() && (#[trigger] cs[j]).name == name
}

/// The payload of the record of the given type name.
pub open spec fn comp_value(cs: Seq<CompModel>, name: Seq<u8>) -> Payload {
    cs[comp_index_of(cs, name)].payload
}

/// Well-formedness of one slot within the store model.
pub open spec fn store_slot_wf(s: Seq<SlotModel>, i: int) -> bool {
    s[i].live ==> {
        &&& (forall|k: int|
            0 <= k < s[i].children.len() ==> {
                let c = (#[trigger] s[i].children[k]) as int;
                &&& i < c < s.len()
                &&& s[c].live
                &&& s[c].parent == Some((i as usize))
            })
        &&& (forall|k1: int, k2: int|
            0 <= k1 < k2 < s[i].children.len() ==> #[trigger] s[i].children[k1]
                != #[trigger] s[i].children[k2])
        &&& (s[i].parent is Some ==> {
            let p = s[i].parent->0 as int;
            &&& 0 <= p < i
            &&& s[p].live
            &&& s[p].children.contains((i as usize))
        })
        &&& (forall|j1: int, j2: int|
            0 <= j1 < j2 < s[i].comps.len() ==> (#[trigger] s[i].comps[j1]).name != (
            #[trigger] s[i].comps[j2]).name)
    }
}

/// Well-formedness of the whole store model: parent and child links agree,
/// children have larger indices than their parent, child lists have no
/// duplicates, and component type names are unique within an entity.
pub open spec fn store_wf(s: Seq<SlotModel>) -> bool {
    forall|i: int| 0 <= i < s.len() ==> #[trigger] store_slot_wf(s, i)
}

/// Whether slot `i` lies in the subtree rooted at slot `r`, following live
/// parent links (a parent's index is always below its child's, so the walk
/// terminates).
pub open spec fn in_subtree(s: Seq<SlotModel>, i: int, r: int) -> bool
    decreases i,
{
    if i == r {
        true
    } else if 0 <= i < s.len() && s[i].live && s[i].parent is Some && 0 <= (s[i].parent->0 as int)
        < i {
        in_subtree(s, s[i].parent->0 as int, r)
    } else {
        false
    }
}

/// The store model after recursively destroying the subtree rooted at `r`:
/// every slot of the subtree is dead, and `r` is gone from its parent's
/// child list; everything else is untouched.
pub open spec fn despawn_model(s: Seq<SlotModel>, r: int) -> Seq<SlotModel> {
    Seq::new(
        s.len(),
        |i: int|
            {
                let base = if 0 <= r < s.len() && s[r].parent == Some(i as usize) {
                    SlotModel { children: s[i].children.remove_value((r as usize)), ..s[i] }
                } else {
                    s[i]
                };
                if in_subtree(s, i, r) {
                    SlotModel { live: false, ..base }
                } else {
                    base
                }
            },
    )
}

/// No slot below `r` lies in `r`'s subtree: parent links only descend.
pub proof fn lemma_in_subtree_low(s: Seq<SlotModel>, j: int, r: int)
    requires
        j < r,
    ensures
        !in_subtree(s, j, r),
    decreases j,
{
    if 0 <= j < s.len() && s[j].live && s[j].parent is Some && 0 <= (s[j].parent->0 as int) < j {
        lemma_in_subtree_low(s, s[j].parent->0 as int, r);
    }
}

/// The parent of `r` is not in `r`'s subtree.
pub proof fn lemma_parent_not_in_subtree(s: Seq<SlotModel>, r: int)
    requires
        store_wf(s),
        0 <= r < s.len(),
        s[r].live,
    ensures
        s[r].parent is Some ==> !in_subtree(s, s[r].parent->0 as int, r),
{
    if s[r].parent is Some {
        assert(store_slot_wf(s, r));
        lemma_in_subtree_low(s, s[r].parent->0 as int, r);
    }
}

/// Destruction invalidates handles exactly for the subtree: after
/// despawning `r`, a handle is valid precisely when it was valid before and
/// did not point into `r`'s subtree.
pub proof fn lemma_despawn_invalidates(s: Seq<SlotModel>, r: int, e: EntityId)
    requires
        0 <= r < s.len(),
    ensures
        valid_id(despawn_model(s, r), e) == (valid_id(s, e) && !in_subtree(
            s,
            e.index as int,
            r,
        )),
{
    let dm = despawn_model(s, r);
    if e.index < s.len() {
        assert(dm[e.index as int].live == (s[e.index as int].live && !in_subtree(
            s,
            e.index as int,
            r,
        )));
        assert(dm[e.index as int].generation == s[e.index as int].generation);
    }
}

/// Pairwise distinctness of a child list.
pub open spec fn distinct_seq(s: Seq<usize>) -> bool {
    forall|k1: int, k2: int| 0 <= k1 < k2 < s.len() ==> #[trigger] s[k1] != #[trigger] s[k2]
}

/// Removing a value from a duplicate-free list: what remains are exactly the
/// other values, still duplicate-free.
proof fn lemma_remove_value_props(ch: Seq<usize>, x: usize)
    requires
        ch.contains(x),
        distinct_seq(ch),
    ensures
        ch.remove_value(x).len() == ch.len() - 1,
        forall|t: int|
            0 <= t < ch.remove_value(x).len() ==> ch.contains(#[trigger] ch.remove_value(x)[t])
                && ch.remove_value(x)[t] != x,
        forall|v: usize| ch.contains(v) && v != x ==> ch.remove_value(x).contains(v),
        distinct_seq(ch.remove_value(x)),
{
    ch.index_of_first_ensures(x);
    let fi = ch.index_of_first(x)->0;
    ch.remove_ensures(fi);
    let rm = ch.remove_value(x);
    assert(rm == ch.remove(fi));
    assert forall|t: int| 0 <= t < rm.len() implies ch.contains(#[trigger] rm[t]) && rm[t]
        != x by {
        if t < fi {
            assert(rm[t] == ch[t]);
            assert(ch[t] != x);
        } else {
            assert(rm[t] == ch[t + 1]);
            assert(ch[t + 1] != x) by {
                assert(ch[fi] == x);
            }
        }
    }
    assert forall|v: usize| ch.contains(v) && v != x implies rm.contains(v) by {
        let u = choose|u: int| 0 <= u < ch.len() && ch[u] == v;
        if u < fi {
            assert(rm[u] == v);
        } else if u == fi {
            assert(false);
        } else {
            assert(rm[u - 1] == v);
        }
    }
    assert forall|k1: int, k2: int| 0 <= k1 < k2 < rm.len() implies #[trigger] rm[k1]
        != #[trigger] rm[k2] by {
        if k1 < fi {
            assert(rm[k1] == ch[k1]);
        } else {
            assert(rm[k1] == ch[k1 + 1]);
        }
        if k2 < fi {
            assert(rm[k2] == ch[k2]);
        } else {
            assert(rm[k2] == ch[k2 + 1]);
        }
    }
}

/// Destroying a subtree preserves store well-formedness.
proof fn lemma_despawn_wf(pre: Seq<SlotModel>, dm: Seq<SlotModel>, r: int)
    requires
        store_wf(pre),
        pre.len() <= usize::MAX,
        0 <= r < pre.len(),
        pre[r].live,
        dm == despawn_model(pre, r),
    ensures
        store_wf(dm),
{
    assert(store_slot_wf(pre, r));
    assert forall|i: int| 0 <= i < dm.len() implies #[trigger] store_slot_wf(dm, i) by {
        assert(store_slot_wf(pre, i));
        if dm[i].live {
            assert(pre[i].live && !in_subtree(pre, i, r));
            assert(i != r);
            let is_p = pre[r].parent == Some(i as usize);
            let ch = dm[i].children;
            if is_p {
                assert(pre[i].children.contains((r as usize)));
                assert(distinct_seq(pre[i].children)) by {
                    assert(store_slot_wf(pre, i));
                }
                lemma_remove_value_props(pre[i].children, (r as usize));
                assert(ch == pre[i].children.remove_value((r as usize)));
            } else {
                assert(ch == pre[i].children);
            }
            assert forall|t: int| 0 <= t < ch.len() implies ({
                let c = (#[trigger] ch[t]) as int;
                &&& i < c < dm.len()
                &&& dm[c].live
                &&& dm[c].parent == Some((i as usize))
            }) by {
                let cv = ch[t];
                let c = cv as int;
                assert(pre[i].children.contains(cv) && cv != r) by {
                    if is_p {
                    } else {
                        assert(pre[i].children[t] == cv);
                        if cv == r {
                            assert(pre[r].parent == Some((i as usize)));
                        }
                    }
                }
                let u = choose|u: int|
                    0 <= u < pre[i].children.len() && pre[i].children[u] == cv;
                assert(i < c < pre.len() && pre[c].live && pre[c].parent == Some(
                    (i as usize),
                ));
                assert(!in_subtree(pre, c, r)) by {
                    if in_subtree(pre, c, r) {
                        assert(in_subtree(pre, i, r));
                    }
                }
                assert(dm[c].live && dm[c].parent == Some((i as usize)));
            }
            assert forall|k1: int, k2: int| 0 <= k1 < k2 < ch.len() implies #[trigger] ch[k1]
                != #[trigger] ch[k2] by {
                if is_p {
                    lemma_remove_value_props(pre[i].children, (r as usize));
                    assert(distinct_seq(ch));
                } else {
                    assert(pre[i].children[k1] != pre[i].children[k2]);
                }
            }
            if dm[i].parent is Some {
                let pp = dm[i].parent->0 as int;
                assert(pre[i].parent == dm[i].parent);
                assert(0 <= pp < i && pre[pp].live && pre[pp].children.contains((i as usize)));
                assert(!in_subtree(pre, pp, r)) by {
                    if in_subtree(pre, pp, r) {
                        assert(in_subtree(pre, i, r));
                    }
                }
                assert(dm[pp].live);
                if pre[r].parent == Some((pp as usize)) {
                    assert(store_slot_wf(pre, pp));
                    assert(distinct_seq(pre[pp].children));
                    assert(pre[pp].children.contains((r as usize)));
                    lemma_remove_value_props(pre[pp].children, (r as usize));
                    assert(dm[pp].children == pre[pp].children.remove_value((r as usize)));
                    assert(dm[pp].children.contains((i as usize)));
                } else {
                    assert(dm[pp].children == pre[pp].children);
                }
            }
            assert(dm[i].comps == pre[i].comps);
            assert(store_slot_wf(dm, i));
        }
    }
}

impl View for EntityStore {
    type V = Seq<SlotModel>;

    closed spec fn view(&self) -> Seq<SlotModel> {
        self.slots@.map_values(|s: Slot| slot_model(s))
    }
}

impl EntityStore {
    /// The store's structural invariant, maintained by every operation.
    pub open spec fn wf(&self) -> bool {
        store_wf(self@)
    }

    /// An empty store.
    pub fn new() -> (r: EntityStore)
        ensures
            r.wf(),
            r@ == Seq::<SlotModel>::empty(),
    {
        let r = EntityStore { slots: Vec::new() };
        proof {
            assert(r@ =~~= Seq::<SlotModel>::empty());
        }
        r
    }

    /// Number of slots ever allocated (live or not).
    pub fn n_slots(&self) -> (r: usize)
        ensures
            r == self@.len(),
    {
        self.slots.len()
    }

    /// Whether a handle refers to a live entity.
    pub fn is_valid(&self, e: EntityId) -> (r: bool)
        ensures
            r == valid_id(self@, e),
    {
        e.index < self.slots.len() && self.slots[e.index].live && self.slots[e.index].generation
            == e.generation
    }

    /// Spawns a fresh root entity with no components.
    pub fn spawn(&mut self) -> (r: EntityId)
        requires
            old(self).wf(),
        ensures
            final(self).wf(),
            r.index == old(self)@.len(),
            r.generation == old(self)@.len() as u64,
            valid_id(final(self)@, r),
            final(self)@ == old(self)@.push(
                SlotModel {
                    live: true,
                    generation: r.generation,
                    parent: None,
                    children: Seq::empty(),
                    comps: Seq::empty(),
                },
            ),
    {
        let index: usize = self.slots.len();
        let generation: u64 = index as u64;
        self.slots.push(
            Slot {
                live: true,
                generation,
                parent: None,
                children: Vec::new(),
                components: Vec::new(),
            },
        );
        let ghost m = SlotModel {
            live: true,
            generation,
            parent: None,
            children: Seq::empty(),
            comps: Seq::empty(),
        };
        proof {
            assert(self@ =~~= old(self)@.push(m));
            assert forall|i: int| 0 <= i < self@.len() implies #[trigger] store_slot_wf(
                self@,
                i,
            ) by {
                if i < old(self)@.len() {
                    assert(store_slot_wf(old(self)@, i));
                    assert(self@[i] == old(self)@[i]);
                    assert(forall|j: int|
                        0 <= j < old(self)@.len() ==> #[trigger] self@[j] == old(self)@[j]);
                }
            }
        }
        EntityId { index, generation }
    }

    /// Spawns a fresh entity as the last child of `parent`.
    pub fn spawn_child(&mut self, parent: EntityId) -> (r: EntityId)
        requires
            old(self).wf(),
            valid_id(old(self)@, parent),
        ensures
            final(self).wf(),
            r.index == old(self)@.len(),
            r.generation == old(self)@.len() as u64,
            valid_id(final(self)@, r),
            valid_id(final(self)@, parent),
            final(self)@ == old(self)@.update(
                parent.index as int,
                SlotModel {
                    children: old(self)@[parent.index as int].children.push(
                        (old(self)@.len() as usize),
                    ),
                    ..old(self)@[parent.index as int]
                },
            ).push(
                SlotModel {
                    live: true,
                    generation: r.generation,
                    parent: Some((parent.index as usize)),
                    children: Seq::empty(),
                    comps: Seq::empty(),
                },
            ),
    {
        let index: usize = self.slots.len();
        let generation: u64 = index as u64;
        self.slots.push(
            Slot {
                live: true,
                generation,
                parent: Some(parent.index),
                children: Vec::new(),
                components: Vec::new(),
            },
        );
        let p: usize = parent.index;
        let slot = &mut self.slots[p];
        slot.children.push(index);
        let ghost now = self@;
        proof {
            let pre = old(self)@;
            let upd = SlotModel {
                children: pre[p as int].children.push(index),
                ..pre[p as int]
            };
            let m = SlotModel {
                live: true,
                generation,
                parent: Some(p),
                children: Seq::empty(),
                comps: Seq::empty(),
            };
            assert(now =~~= pre.update(p as int, upd).push(m));
            assert(now[index as int] == m);
            assert(forall|j: int|
                0 <= j < pre.len() ==> (#[trigger] now[j]).live == pre[j].live && now[j].parent
                    == pre[j].parent && now[j].comps == pre[j].comps);
            assert(forall|j: int|
                0 <= j < pre.len() && j != p ==> (#[trigger] now[j]).children
                    == pre[j].children);
            assert(now[p as int].children == pre[p as int].children.push(index));
            assert(store_slot_wf(pre, p as int));
            assert forall|i: int| 0 <= i < now.len() implies #[trigger] store_slot_wf(
                now,
                i,
            ) by {
                if i == index {
                    assert(now[p as int].children.contains(index)) by {
                        assert(now[p as int].children.last() == index);
                    }
                    assert(store_slot_wf(now, i));
                } else {
                    assert(store_slot_wf(pre, i));
                    if now[i].live {
                        let ch = now[i].children;
                        assert forall|k: int| 0 <= k < ch.len() implies ({
                            let c = (#[trigger] ch[k]) as int;
                            &&& i < c < now.len()
                            &&& now[c].live
                            &&& now[c].parent == Some((i as usize))
                        }) by {
                            if i == p && k == ch.len() - 1 {
                                assert(ch[k] == index);
                            } else {
                                if i == p {
                                    assert(ch[k] == pre[p as int].children[k]);
                                } else {
                                    assert(ch == pre[i].children);
                                }
                                let c = ch[k] as int;
                                assert(i < c < pre.len());
                                assert(now[c].live == pre[c].live && now[c].parent
                                    == pre[c].parent);
                            }
                        }
                        assert forall|k1: int, k2: int|
                            0 <= k1 < k2 < ch.len() implies #[trigger] ch[k1] != #[trigger] ch[k2]
                            by {
                            if i == p {
                                assert(ch[k1] == pre[p as int].children[k1]);
                                assert((ch[k1] as int) < pre.len());
                                if k2 == ch.len() - 1 {
                                    assert(ch[k2] == index);
                                } else {
                                    assert(ch[k2] == pre[p as int].children[k2]);
                                }
                            } else {
                                assert(ch == pre[i].children);
                            }
                        }
                        if now[i].parent is Some {
                            let pp = now[i].parent->0 as int;
                            assert(pre[pp].children.contains((i as usize)));
                            if pp == p {
                                let k = choose|kk: int|
                                    0 <= kk < pre[pp].children.len() && pre[pp].children[kk] == (
                                    i as usize);
                                assert(now[pp].children[k] == (i as usize));
                                assert(now[pp].children.contains((i as usize)));
                            } else {
                                assert(now[pp].children == pre[pp].children);
                            }
                        }
                        assert(store_slot_wf(now, i));
                    }
                }
            }
        }
        EntityId { index, generation }
    }

    /// Whether the slot at `i` is live.
    pub fn live_at(&self, i: usize) -> (r: bool)
        requires
            i < self@.len(),
        ensures
            r == self@[i as int].live,
    {
        self.slots[i].live
    }

    /// The generation recorded in slot `i`.
    pub fn generation_at(&self, i: usize) -> (r: u64)
        requires
            i < self@.len(),
        ensures
            r == self@[i as int].generation,
    {
        self.slots[i].generation
    }

    /// The parent slot index recorded in slot `i`.
    pub fn parent_at(&self, i: usize) -> (r: Option<usize>)
        requires
            i < self@.len(),
        ensures
            r == self@[i as int].parent,
    {
        self.slots[i].parent
    }

    /// Number of children of slot `i`.
    pub fn child_count(&self, i: usize) -> (r: usize)
        requires
            i < self@.len(),
        ensures
            r == self@[i as int].children.len(),
    {
        self.slots[i].children.len()
    }

    /// The `k`-th child of slot `i`, in insertion order.
    pub fn child_at(&self, i: usize, k: usize) -> (r: usize)
        requires
            i < self@.len(),
            k < self@[i as int].children.len(),
        ensures
            r == self@[i as int].children[k as int],
    {
        self.slots[i].children[k]
    }

    /// Number of component records attached to slot `i`.
    pub fn comp_count(&self, i: usize) -> (r: usize)
        requires
            i < self@.len(),
        ensures
            r == self@[i as int].comps.len(),
    {
        self.slots[i].components.len()
    }

    /// The type name of the `j`-th component record of slot `i`.
    pub fn comp_name_at(&self, i: usize, j: usize) -> (r: &Vec<u8>)
        requires
            i < self@.len(),
            j < self@[i as int].comps.len(),
        ensures
            r@ == self@[i as int].comps[j as int].name,
    {
        &self.slots[i].components[j].0
    }

    /// The payload of the `j`-th component record of slot `i`.
    pub fn comp_payload_at(&self, i: usize, j: usize) -> (r: Payload)
        requires
            i < self@.len(),
            j < self@[i as int].comps.len(),
        ensures
            r == self@[i as int].comps[j as int].payload,
    {
        self.slots[i].components[j].1
    }

    /// Destroys `e` and its whole subtree: every handle into the subtree
    /// becomes invalid, and `e` is removed from its parent's child list.
    pub fn despawn_recursive(&mut self, e: EntityId)
        requires
            old(self).wf(),
            valid_id(old(self)@, e),
        ensures
            final(self).wf(),
            final(self)@ == despawn_model(old(self)@, e.index as int),
    {
        let n: usize = self.slots.len();
        let ei: usize = e.index;
        let ghost pre = self@;
        // First pass: mark the subtree of `e`, walking parent links (a
        // child's index is always greater than its parent's, so the mark of
        // every parent is already known).
        let mut marks: Vec<bool> = Vec::new();
        let mut i: usize = 0;
        while i < n
            invariant
                0 <= i <= n,
                n == pre.len(),
                self@ == pre,
                pre == old(self)@,
                store_wf(pre),
                ei == e.index,
                valid_id(pre, e),
                marks@.len() == i,
                forall|t: int| 0 <= t < i ==> marks@[t] == in_subtree(pre, t, ei as int),
            decreases n - i,
        {
            let m: bool;
            if i == ei {
                m = true;
            } else if self.slots[i].live {
                match self.slots[i].parent {
                    Some(p) => {
                        if p < i {
                            m = marks[p];
                        } else {
                            m = false;
                        }
                    },
                    None => {
                        m = false;
                    },
                }
            } else {
                m = false;
            }
            proof {
                assert(pre[i as int].live == self.slots@[i as int].live);
                assert(pre[i as int].parent == self.slots@[i as int].parent);
                assert(m == in_subtree(pre, i as int, ei as int));
            }
            marks.push(m);
            i = i + 1;
        }
        // Second pass: unlink `e` from its parent's child list.
        let parent_opt: Option<usize> = self.slots[ei].parent;
        match parent_opt {
            None => {},
            Some(p) => {
                proof {
                    assert(store_slot_wf(pre, ei as int));
                    assert(pre[p as int].children.contains(ei));
                }
                let cn: usize = self.slots[p].children.len();
                let mut k: usize = 0;
                while k < cn && self.slots[p].children[k] != ei
                    invariant
                        0 <= k <= cn,
                        self@ == pre,
                        ei == e.index,
                        p < pre.len(),
                        cn == pre[p as int].children.len(),
                        cn == self.slots@[p as int].children.len(),
                        forall|t: int| 0 <= t < k ==> pre[p as int].children[t] != ei,
                    decreases cn - k,
                {
                    k = k + 1;
                }
                proof {
                    if k >= cn {
                        let t = choose|t: int|
                            0 <= t < pre[p as int].children.len()
                                && pre[p as int].children[t] == ei;
                        assert(false);
                    }
                    assert(pre[p as int].children[k as int] == ei);
                    pre[p as int].children.index_of_first_ensures(ei);
                    let fi = pre[p as int].children.index_of_first(ei)->0;
                    assert(fi <= k) by {
                        if fi > k {
                            assert(pre[p as int].children[k as int] != ei);
                        }
                    }
                    assert(fi >= k);
                    assert(pre[p as int].children.remove_value(ei) == pre[
                        p as int
                    ].children.remove(k as int));
                }
                let slot = &mut self.slots[p];
                slot.children.remove(k);
            },
        }
        let ghost mid = self@;
        proof {
            if parent_opt is Some {
                let p = parent_opt->0;
                assert(mid =~~= pre.update(
                    p as int,
                    SlotModel {
                        children: pre[p as int].children.remove_value(ei),
                        ..pre[p as int]
                    },
                ));
            } else {
                assert(mid =~~= pre);
            }
        }
        // Third pass: kill every marked slot.
        let mut t: usize = 0;
        while t < n
            invariant
                0 <= t <= n,
                n == pre.len(),
                n == mid.len(),
                self@.len() == n,
                marks@.len() == n,
                ei == e.index,
                forall|u: int|
                    0 <= u < n ==> (#[trigger] self@[u]) == (if u < t && marks@[u] {
                        SlotModel { live: false, ..mid[u] }
                    } else {
                        mid[u]
                    }),
            decreases n - t,
        {
            let ghost cur = self@;
            if marks[t] {
                let slot = &mut self.slots[t];
                slot.live = false;
                proof {
                    assert(cur[t as int] == mid[t as int]);
                    assert(self@ =~~= cur.update(
                        t as int,
                        SlotModel { live: false, ..mid[t as int] },
                    ));
                }
            }
            t = t + 1;
        }
        proof {
            let dm = despawn_model(pre, ei as int);
            lemma_parent_not_in_subtree(pre, ei as int);
            assert(self@ =~~= dm);
            lemma_despawn_wf(pre, dm, ei as int);
        }
    }

    /// Attaches a component record to `e`, replacing any record of the same
    /// type name: an entity owns at most one record per type.
    pub fn insert_component(&mut self, e: EntityId, name: Vec<u8>, payload: Payload)
        requires
            old(self).wf(),
            valid_id(old(self)@, e),
        ensures
            final(self).wf(),
            valid_id(final(self)@, e),
            final(self)@ == old(self)@.update(
                e.index as int,
                SlotModel {
                    comps: ({
                        let cs = old(self)@[e.index as int].comps;
                        if has_comp(cs, name@) {
                            cs.update(
                                comp_index_of(cs, name@),
                                CompModel { name: name@, payload },
                            )
                        } else {
                            cs.push(CompModel { name: name@, payload })
                        }
                    }),
                    ..old(self)@[e.index as int]
                },
            ),
    {
        let idx: usize = e.index;
        let ghost pre = self@;
        let ghost cs = pre[idx as int].comps;
        let n: usize = self.slots[idx].components.len();
        let mut j: usize = 0;
        proof {
            assert(store_slot_wf(pre, idx as int));
        }
        let ghost uniq = forall|t1: int, t2: int|
            0 <= t1 < t2 < cs.len() ==> (#[trigger] cs[t1]).name != (#[trigger] cs[t2]).name;
        proof {
            assert(uniq) by {
                assert forall|t1: int, t2: int| 0 <= t1 < t2 < cs.len() implies (
                #[trigger] cs[t1]).name != (#[trigger] cs[t2]).name by {
                    assert((pre[idx as int].comps[t1]).name != (
                    pre[idx as int].comps[t2]).name);
                }
            }
        }
        while j < n
            invariant
                0 <= j <= n,
                idx == e.index,
                idx < self@.len(),
                self@ == pre,
                pre == old(self)@,
                valid_id(pre, e),
                store_wf(pre),
                uniq == (forall|t1: int, t2: int|
                    0 <= t1 < t2 < cs.len() ==> (#[trigger] cs[t1]).name != (
                    #[trigger] cs[t2]).name),
                uniq,
                n == pre[idx as int].comps.len(),
                n == self.slots@[idx as int].components.len(),
                cs == pre[idx as int].comps,
                forall|t: int| 0 <= t < j ==> (#[trigger] cs[t]).name != name@,
            decreases n - j,
        {
            let hit: bool = bytes_eq(
                self.slots[idx].components[j].0.as_slice(),
                name.as_slice(),
            );
            proof {
                assert(cs[j as int] == comp_model(self.slots@[idx as int].components@[j as int]));
            }
            if hit {
                let slot = &mut self.slots[idx];
                slot.components[j] = (name, payload);
                proof {
                    let nm = CompModel { name: name@, payload };
                    lemma_comp_index_unique(cs, name@, j as int);
                    let upd = SlotModel { comps: cs.update(j as int, nm), ..pre[idx as int] };
                    assert(self@ =~~= pre.update(idx as int, upd));
                    assert(forall|t: int|
                        0 <= t < cs.len() ==> (#[trigger] cs.update(j as int, nm)[t]).name
                            == cs[t].name);
                    lemma_comps_change_keeps_wf(pre, self@, idx as int);
                }
                return ;
            }
            j = j + 1;
        }
        let slot = &mut self.slots[idx];
        slot.components.push((name, payload));
        proof {
            let nm = CompModel { name: name@, payload };
            assert(!has_comp(cs, nm.name)) by {
                if has_comp(cs, nm.name) {
                    let t = choose|t: int| 0 <= t < cs.len() && (#[trigger] cs[t]).name == nm.name;
                    assert(cs[t].name != name@);
                }
            }
            let upd = SlotModel { comps: cs.push(nm), ..pre[idx as int] };
            assert(self@ =~~= pre.update(idx as int, upd));
            let nc = cs.push(nm);
            assert forall|j1: int, j2: int| 0 <= j1 < j2 < nc.len() implies (
            #[trigger] nc[j1]).name != (#[trigger] nc[j2]).name by {
                assert(nc[j1] == cs[j1]);
                if j2 == nc.len() - 1 {
                    assert(nc[j2] == nm);
                    assert(cs[j1].name != name@);
                } else {
                    assert(nc[j2] == cs[j2]);
                }
            }
            lemma_comps_change_keeps_wf(pre, self@, idx as int);
        }
    }

    /// The payload of the component of the given type attached to `e`, if
    /// one is attached.
    pub fn get_component(&self, e: EntityId, name: &[u8]) -> (r: Option<Payload>)
        requires
            self.wf(),
            valid_id(self@, e),
        ensures
            ({
                let cs = self@[e.index as int].comps;
                match r {
                    Some(p) => has_comp(cs, name@) && p == comp_value(cs, name@),
                    None => !has_comp(cs, name@),
                }
            }),
    {
        let idx: usize = e.index;
        let ghost cs = self@[idx as int].comps;
        let n: usize = self.slots[idx].components.len();
        let mut j: usize = 0;
        while j < n
            invariant
                0 <= j <= n,
                idx == e.index,
                idx < self@.len(),
                self.wf(),
                valid_id(self@, e),
                cs == self@[idx as int].comps,
                n == cs.len(),
                n == self.slots@[idx as int].components.len(),
                forall|t: int| 0 <= t < j ==> (#[trigger] cs[t]).name != name@,
            decreases n - j,
        {
            proof {
                assert(cs[j as int] == comp_model(self.slots@[idx as int].components@[j as int]));
            }
            if bytes_eq(self.slots[idx].components[j].0.as_slice(), name) {
                let p: Payload = self.slots[idx].components[j].1;
                proof {
                    assert forall|t1: int, t2: int| 0 <= t1 < t2 < cs.len() implies (
                    #[trigger] cs[t1]).name != (#[trigger] cs[t2]).name by {
                        assert(store_slot_wf(self@, idx as int));
                        assert((self@[idx as int].comps[t1]).name != (
                        self@[idx as int].comps[t2]).name);
                    }
                    lemma_comp_index_unique(cs, name@, j as int);
                }
                return Some(p);
            }
            j = j + 1;
        }
        proof {
            if has_comp(cs, name@) {
                let jj = comp_index_of(cs, name@);
                assert(0 <= jj < cs.len() && cs[jj].name == name@);
            }
        }
        None
    }

    /// Whether a component of the given type is attached to `e`.
    pub fn has_component(&self, e: EntityId, name: &[u8]) -> (r: bool)
        requires
            self.wf(),
            valid_id(self@, e),
        ensures
            r == has_comp(self@[e.index as int].comps, name@),
    {
        self.get_component(e, name).is_some()
    }

    /// The handle of `e`'s parent, if it has one.
    pub fn parent_of(&self, e: EntityId) -> (r: Option<EntityId>)
        requires
            self.wf(),
            valid_id(self@, e),
        ensures
            match r {
                Some(pid) => self@[e.index as int].parent == Some(pid.index) && valid_id(
                    self@,
                    pid,
                ),
                None => self@[e.index as int].parent is None,
            },
    {
        proof {
            assert(store_slot_wf(self@, e.index as int));
        }
        match self.slots[e.index].parent {
            None => None,
            Some(p) => Some(EntityId { index: p, generation: self.slots[p].generation }),
        }
    }

    /// Handles of `e`'s children, in insertion order.
    pub fn child_ids(&self, e: EntityId) -> (r: Vec<EntityId>)
        requires
            self.wf(),
            valid_id(self@, e),
        ensures
            ({
                let ch = self@[e.index as int].children;
                &&& r@.len() == ch.len()
                &&& forall|k: int|
                    0 <= k < ch.len() ==> (#[trigger] r@[k]).index == ch[k] && valid_id(
                        self@,
                        r@[k],
                    )
            }),
    {
        let idx: usize = e.index;
        let ghost ch = self@[idx as int].children;
        let n: usize = self.slots[idx].children.len();
        let mut r: Vec<EntityId> = Vec::new();
        let mut k: usize = 0;
        while k < n
            invariant
                0 <= k <= n,
                idx == e.index,
                idx < self@.len(),
                self.wf(),
                self@[idx as int].live,
                ch == self@[idx as int].children,
                n == ch.len(),
                n == self.slots@[idx as int].children.len(),
                r@.len() == k,
                forall|t: int|
                    0 <= t < k ==> (#[trigger] r@[t]).index == ch[t] && valid_id(self@, r@[t]),
            decreases n - k,
        {
            let c: usize = self.slots[idx].children[k];
            proof {
                assert(store_slot_wf(self@, idx as int));
                assert(ch[k as int] == c);
            }
            r.push(EntityId { index: c, generation: self.slots[c].generation });
            k = k + 1;
        }
        r
    }
}

/// With unique component names, the record found by scanning is the record
/// the specification functions denote.
proof fn lemma_comp_index_unique(cs: Seq<CompModel>, name: Seq<u8>, j: int)
    requires
        0 <= j < cs.len(),
        cs[j].name == name,
        forall|t1: int, t2: int|
            0 <= t1 < t2 < cs.len() ==> (#[trigger] cs[t1]).name != (#[trigger] cs[t2]).name,
    ensures
        has_comp(cs, name),
        comp_index_of(cs, name) == j,
        comp_value(cs, name) == cs[j].payload,
{
    assert(has_comp(cs, name)) by {
        assert(cs[j].name == name);
    }
    let jj = comp_index_of(cs, name);
    assert(0 <= jj < cs.len() && cs[jj].name == name);
    if jj < j {
        assert(cs[jj].name != cs[j].name);
    }
    if j < jj {
        assert(cs[j].name != cs[jj].name);
    }
}

/// A change that only rewrites one live slot's component list, keeping names
/// unique, preserves store well-formedness.
proof fn lemma_comps_change_keeps_wf(pre: Seq<SlotModel>, now: Seq<SlotModel>, t: int)
    requires
        store_wf(pre),
        0 <= t < pre.len(),
        now.len() == pre.len(),
        forall|j: int|
            0 <= j < pre.len() ==> (#[trigger] now[j]).live == pre[j].live && now[j].parent
                == pre[j].parent && now[j].children == pre[j].children,
        forall|j: int| 0 <= j < pre.len() && j != t ==> (#[trigger] now[j]).comps == pre[j].comps,
        forall|j1: int, j2: int|
            0 <= j1 < j2 < now[t].comps.len() ==> (#[trigger] now[t].comps[j1]).name != (
            #[trigger] now[t].comps[j2]).name,
    ensures
        store_wf(now),
{
    assert forall|i: int| 0 <= i < now.len() implies #[trigger] store_slot_wf(now, i) by {
        assert(store_slot_wf(pre, i));
        if now[i].live {
            let ch = now[i].children;
            assert(ch == pre[i].children);
            assert forall|k: int| 0 <= k < ch.len() implies ({
                let c = (#[trigger] ch[k]) as int;
                &&& i < c < now.len()
                &&& now[c].live
                &&& now[c].parent == Some((i as usize))
            }) by {
                assert(ch[k] == pre[i].children[k]);
                let c = ch[k] as int;
                assert(i < c < pre.len());
            }
            if now[i].parent is Some {
                let pp = now[i].parent->0 as int;
                assert(pre[pp].children.contains((i as usize)));
                assert(now[pp].children == pre[pp].children);
            }
            assert(store_slot_wf(now, i));
        }
    }
}

} // verus!
