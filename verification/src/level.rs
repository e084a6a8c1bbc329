//! Level persistence: locating the level root, saving its subtree and
//! materializing a level from persisted bytes.
//!
//! The level root is the entity tagged with the `Level` marker; its whole
//! subtree is the unit of save and load. A save extracts the root's
//! descendants through the level-content registry and renders them; a load
//! parses persisted bytes, spawns a fresh root tagged `Level` and
//! instantiates the records beneath it. Reading and writing the actual file
//! is the surrounding runtime's concern.

use vstd::prelude::*;

use crate::errors::SceneError;
use crate::format::{parse, parse_model, render, render_model};
use crate::instantiate::{inst_model, instantiate, snap_decodable};
use crate::names::{level_name, level_name_vec};
use crate::payload::{Payload, PayloadKind};
use crate::registry::TypeRegistry;
use crate::snapshot::{
    extract, extract_model, filter_known, kids_ok, resolve_types, skipped_vm, unknown_in_snap,
    EntryModel, SkippedComponent,
};
use crate::store::{has_comp, valid_id, CompModel, EntityId, EntityStore, SlotModel};

verus! {

/// The marker component of a level root: its subtree is what a save
/// persists and a load rebuilds.
#[derive(Clone, Copy, PartialEq, Eq, Structural, Debug)]
pub struct Level;

impl Level {
    /// The stable type name under which the marker is attached.
    pub fn name(&self) -> (r: Vec<u8>)
        ensures
            r@ == level_name(),
    {
        level_name_vec()
    }
}

/// Whether slot `i` is live and tagged as a level root.
pub open spec fn is_level_root(s: Seq<SlotModel>, i: int) -> bool {
    0 <= i < s.len() && s[i].live && has_comp(s[i].comps, level_name())
}

/// The handle of the first live entity tagged `Level`, if any. During
/// gameplay at most one level root exists; this returns the one with the
/// lowest slot index.
pub fn find_level_root(store: &EntityStore) -> (r: Option<EntityId>)
    requires
        store.wf(),
    ensures
        match r {
            Some(e) => valid_id(store@, e) && is_level_root(store@, e.index as int) && forall|
                t: int,
            | 0 <= t < e.index ==> !is_level_root(store@, t),
            None => forall|t: int| 0 <= t < store@.len() ==> !is_level_root(store@, t),
        },
{
    let marker = level_name_vec();
    let n: usize = store.n_slots();
    let mut i: usize = 0;
    while i < n
        invariant
            0 <= i <= n,
            store.wf(),
            n == store@.len(),
            marker@ == level_name(),
            forall|t: int| 0 <= t < i ==> !is_level_root(store@, t),
        decreases n - i,
    {
        if store.live_at(i) {
            let e = EntityId { index: i, generation: store.generation_at(i) };
            if store.has_component(e, marker.as_slice()) {
                return Some(e);
            }
        }
        i = i + 1;
    }
    None
}

/// Exactly one live entity is tagged as a level root: the state in which a
/// save is unambiguous.
pub open spec fn unique_level_root(s: Seq<SlotModel>) -> bool {
    &&& exists|t: int| #[trigger] is_level_root(s, t)
    &&& forall|t1: int, t2: int|
        #[trigger] is_level_root(s, t1) && #[trigger] is_level_root(s, t2) ==> t1 == t2
}

/// Persists the current level: extracts the level root's descendants under
/// the given registry and renders them to the persisted text form. Returns
/// `None` unless exactly one level root exists (with none there is nothing
/// to save; with several the save is ambiguous and refused), and a
/// `SerializationError` when a registered component of the subtree does not
/// have its registered shape; in either case nothing is persisted.
pub fn save_level(store: &EntityStore, registry: &TypeRegistry) -> (r: Option<
    Result<Vec<u8>, SceneError>,
>)
    requires
        store.wf(),
        registry.wf(),
    ensures
        match r {
            None => !unique_level_root(store@),
            Some(Ok(bytes)) => unique_level_root(store@) && exists|root: int|
                {
                    &&& #[trigger] is_level_root(store@, root)
                    &&& kids_ok(store@, root, 0, registry@)
                    &&& bytes@ == render_model(extract_model(store@, root, registry@))
                },
            Some(Err(e)) => e == SceneError::SerializationError && unique_level_root(store@)
                && exists|root: int|
                #[trigger] is_level_root(store@, root) && !kids_ok(store@, root, 0, registry@),
        },
{
    let root = match find_level_root(store) {
        None => {
            proof {
                if unique_level_root(store@) {
                    let t = choose|t: int| #[trigger] is_level_root(store@, t);
                    assert(!is_level_root(store@, t));
                }
            }
            return None;
        },
        Some(root) => root,
    };
    // Refuse an ambiguous save: the level root must be the only one.
    let marker = level_name_vec();
    let n: usize = store.n_slots();
    let mut i: usize = root.index + 1;
    while i < n
        invariant
            root.index < i <= n,
            store.wf(),
            n == store@.len(),
            marker@ == level_name(),
            valid_id(store@, root),
            is_level_root(store@, root.index as int),
            forall|t: int| root.index < t < i ==> !is_level_root(store@, t),
        decreases n - i,
    {
        if store.live_at(i) {
            let e = EntityId { index: i, generation: store.generation_at(i) };
            if store.has_component(e, marker.as_slice()) {
                proof {
                    assert(is_level_root(store@, i as int));
                    assert(!unique_level_root(store@)) by {
                        if unique_level_root(store@) {
                            assert(is_level_root(store@, root.index as int));
                        }
                    }
                }
                return None;
            }
        }
        i = i + 1;
    }
    proof {
        assert(unique_level_root(store@)) by {
            assert forall|t1: int, t2: int|
                #[trigger] is_level_root(store@, t1) && #[trigger] is_level_root(
                    store@,
                    t2,
                ) implies t1 == t2 by {
                assert(t1 == root.index && t2 == root.index);
            }
        }
    }
    match extract(store, root, registry) {
        Ok(snap) => {
            let bytes = render(&snap);
            proof {
                assert(is_level_root(store@, root.index as int));
            }
            Some(Ok(bytes))
        },
        Err(e) => {
            proof {
                assert(is_level_root(store@, root.index as int));
            }
            Some(Err(e))
        },
    }
}

/// The store model after a level load: a fresh root tagged `Level`, with
/// the snapshot's records instantiated beneath it.
pub open spec fn load_model(
    s: Seq<SlotModel>,
    entries: Seq<EntryModel>,
    reg: Map<Seq<u8>, PayloadKind>,
) -> Seq<SlotModel> {
    let rooted = s.push(
        SlotModel {
            live: true,
            generation: s.len() as u64,
            parent: None,
            children: Seq::empty(),
            comps: seq![CompModel { name: level_name(), payload: Payload::Marker }],
        },
    );
    inst_model(rooted, s.len() as int, s.len() as int + 1, entries, reg)
}

/// Materializes a level from persisted bytes: parses them, resolves the
/// type references against the registry under the caller's policy, spawns a
/// fresh root entity tagged `Level` and instantiates the records beneath
/// it. With `skip_unknown`, components of unregistered types are dropped
/// and returned as the skipped references; without it, the first unknown
/// reference aborts the load.
///
/// Fails with `CorruptFormat` on structurally invalid bytes, with
/// `UnknownTypeReference` under the abort policy, and with
/// `InstantiationError` when a record's component cannot be reconstructed
/// under the registry (or when the store cannot hold the new subtree);
/// a failed instantiation is not rolled back — the caller owns cleanup.
pub fn load_level(
    store: &mut EntityStore,
    bytes: &[u8],
    registry: &TypeRegistry,
    skip_unknown: bool,
) -> (r: Result<(EntityId, Vec<EntityId>, Vec<SkippedComponent>), SceneError>)
    requires
        old(store).wf(),
        registry.wf(),
    ensures
        final(store).wf(),
        match r {
            Ok((root, ids, skipped)) => {
                let entries = filter_known(parse_model(bytes@)->0, registry@);
                &&& parse_model(bytes@) is Some
                &&& snap_decodable(entries, registry@)
                &&& skipped_vm(skipped@) == unknown_in_snap(parse_model(bytes@)->0, registry@)
                &&& (!skip_unknown ==> skipped@.len() == 0 && entries == parse_model(bytes@)->0)
                &&& root.index == old(store)@.len()
                &&& valid_id(final(store)@, root)
                &&& is_level_root(final(store)@, root.index as int)
                &&& final(store)@ == load_model(old(store)@, entries, registry@)
                &&& ids@.len() == entries.len()
                &&& forall|j: int|
                    0 <= j < ids@.len() ==> (#[trigger] ids@[j]).index == old(store)@.len() + 1
                        + j && valid_id(final(store)@, ids@[j])
            },
            Err(e) => {
                let pm = parse_model(bytes@);
                &&& (e == SceneError::CorruptFormat <==> pm is None)
                &&& (e == SceneError::UnknownTypeReference <==> pm is Some && !skip_unknown
                    && unknown_in_snap(pm->0, registry@).len() > 0)
                &&& (e == SceneError::InstantiationError <==> pm is Some && (skip_unknown
                    || unknown_in_snap(pm->0, registry@).len() == 0) && (old(store)@.len()
                    + filter_known(pm->0, registry@).len() + 1 > usize::MAX
                    || !snap_decodable(filter_known(pm->0, registry@), registry@)))
                &&& (e == SceneError::CorruptFormat || e == SceneError::UnknownTypeReference
                    || e == SceneError::InstantiationError)
                &&& (e != SceneError::InstantiationError ==> final(store)@ == old(store)@)
            },
        },
{
    let ghost pm = parse_model(bytes@);
    let parsed = match parse(bytes) {
        Ok(snap) => snap,
        Err(e) => {
            return Err(e);
        },
    };
    proof {
        assert(pm == Some(parsed@));
    }
    let (snap, skipped) = match resolve_types(parsed, registry, skip_unknown) {
        Ok(resolved) => resolved,
        Err(e) => {
            return Err(e);
        },
    };
    proof {
        assert(snap@ == filter_known(pm->0, registry@));
        assert(skip_unknown || unknown_in_snap(pm->0, registry@).len() == 0);
    }
    let n_new: usize = snap.entries.len();
    let n_have: usize = store.n_slots();
    if n_new > usize::MAX - 1 || n_have > usize::MAX - 1 - n_new {
        // The arena cannot hold the root and the records.
        proof {
            assert(old(store)@.len() + filter_known(pm->0, registry@).len() + 1 > usize::MAX);
        }
        return Err(SceneError::InstantiationError);
    }
    let ghost s0 = store@;
    let root = store.spawn();
    store.insert_component(root, level_name_vec(), Payload::Marker);
    let ghost rooted = store@;
    proof {
        assert(rooted =~~= s0.push(
            SlotModel {
                live: true,
                generation: s0.len() as u64,
                parent: None,
                children: Seq::empty(),
                comps: seq![CompModel { name: level_name(), payload: Payload::Marker }],
            },
        )) by {
            let pushed = s0.push(
                SlotModel {
                    live: true,
                    generation: s0.len() as u64,
                    parent: None,
                    children: Seq::empty(),
                    comps: Seq::empty(),
                },
            );
            assert(!has_comp(pushed[root.index as int].comps, level_name()));
            assert(pushed[root.index as int].comps.push(
                CompModel { name: level_name(), payload: Payload::Marker },
            ) =~= seq![CompModel { name: level_name(), payload: Payload::Marker }]);
        }
    }
    match instantiate(store, &snap, root, registry) {
        Ok(ids) => {
            proof {
                assert(final(store)@ == inst_model(
                    rooted,
                    root.index as int,
                    rooted.len() as int,
                    snap@,
                    registry@,
                )) by {
                    assert(store@ == inst_model(
                        rooted,
                        root.index as int,
                        rooted.len() as int,
                        snap@,
                        registry@,
                    ));
                }
                assert(is_level_root(store@, root.index as int)) by {
                    assert forall|t: int|
                        0 <= t < snap@.len() && (#[trigger] snap@[t]).parent is Some implies 0
                            <= rooted.len() + (snap@[t].parent->0 as int) < rooted.len()
                            + t by {
                        assert(crate::snapshot::entry_wf(snap@[t], t));
                    }
                    lemma_inst_keeps_low(
                        rooted,
                        root.index as int,
                        rooted.len() as int,
                        snap@,
                        registry@,
                        root.index as int,
                    );
                    assert(has_comp(rooted[root.index as int].comps, level_name())) by {
                        assert(rooted[root.index as int].comps[0].name == level_name());
                    }
                }
            }
            Ok((root, ids, skipped))
        },
        Err(e) => Err(e),
    }
}

/// Instantiation only appends slots and adds children: the liveness and
/// components of the slots already present are untouched.
pub proof fn lemma_inst_keeps_low(
    s: Seq<SlotModel>,
    r: int,
    base: int,
    entries: Seq<EntryModel>,
    reg: Map<Seq<u8>, PayloadKind>,
    i: int,
)
    requires
        0 <= i < s.len(),
        0 <= r < s.len(),
        forall|t: int|
            0 <= t < entries.len() && (#[trigger] entries[t]).parent is Some ==> 0 <= base + (
            entries[t].parent->0 as int) < s.len() + t,
    ensures
        ({
            let s2 = inst_model(s, r, base, entries, reg);
            &&& s2.len() == s.len() + entries.len()
            &&& i < s2.len()
            &&& s2[i].live == s[i].live
            &&& s2[i].comps == s[i].comps
            &&& s2[i].generation == s[i].generation
            &&& s2[i].parent == s[i].parent
        }),
    decreases entries.len(),
{
    if entries.len() > 0 {
        let e0 = entries[0];
        let p: int = match e0.parent {
            None => r,
            Some(j) => base + j,
        };
        assert(entries[0].parent is Some ==> 0 <= base + (entries[0].parent->0 as int) < s.len());
        assert(0 <= p < s.len());
        let s1 = spawn_with_view(s, p, reg, e0);
        assert(s1.len() == s.len() + 1);
        assert(forall|t: int|
            0 <= t < entries.skip(1).len() && (#[trigger] entries.skip(1)[t]).parent is Some
                ==> 0 <= base + (entries.skip(1)[t].parent->0 as int) < s1.len() + t) by {
            assert(forall|t: int|
                0 <= t < entries.skip(1).len() ==> #[trigger] entries.skip(1)[t] == entries[
                t + 1]);
        }
        assert(s1[i].live == s[i].live && s1[i].comps == s[i].comps && s1[i].generation
            == s[i].generation && s1[i].parent == s[i].parent) by {
            if i != p {
                assert(s1[i] == s[i]);
            } else {
                assert(s1[i] == SlotModel {
                    children: s[p].children.push((s.len() as usize)),
                    ..s[p]
                });
            }
        }
        lemma_inst_keeps_low(s1, r, base, entries.skip(1), reg, i);
        assert(inst_model(s, r, base, entries, reg) == inst_model(
            s1,
            r,
            base,
            entries.skip(1),
            reg,
        ));
    }
}

/// The first fold step of `inst_model`, named for the proof above.
pub open spec fn spawn_with_view(
    s: Seq<SlotModel>,
    p: int,
    reg: Map<Seq<u8>, PayloadKind>,
    e0: EntryModel,
) -> Seq<SlotModel> {
    crate::instantiate::spawn_with(s, p, crate::instantiate::fold_comps(e0.comps, reg))
}

/// A parent walk that holds in the current store held in an earlier one
/// whose live slots kept their liveness and parent links.
proof fn lemma_in_subtree_back(cur: Seq<SlotModel>, orig: Seq<SlotModel>, j: int, r: int)
    requires
        cur.len() == orig.len(),
        forall|m: int|
            0 <= m < cur.len() && (#[trigger] cur[m]).live ==> orig[m].live && cur[m].parent
                == orig[m].parent,
        crate::store::in_subtree(cur, j, r),
    ensures
        crate::store::in_subtree(orig, j, r),
    decreases j,
{
    if j != r {
        lemma_in_subtree_back(cur, orig, cur[j].parent->0 as int, r);
    }
}

/// Every ancestor (taken in the earlier store) of a slot still live now is
/// itself still live: live slots kept their parent links, and a live slot's
/// parent is live.
proof fn lemma_ancestor_live(cur: Seq<SlotModel>, orig: Seq<SlotModel>, j: int, t: int)
    requires
        crate::store::store_wf(cur),
        cur.len() == orig.len(),
        forall|m: int|
            0 <= m < cur.len() && (#[trigger] cur[m]).live ==> orig[m].live && cur[m].parent
                == orig[m].parent,
        crate::store::in_subtree(orig, j, t),
        0 <= j < cur.len(),
        cur[j].live,
    ensures
        0 <= t < cur.len(),
        cur[t].live,
    decreases j,
{
    if j != t {
        let p = orig[j].parent->0 as int;
        assert(cur[j].parent == orig[j].parent);
        assert(crate::store::store_slot_wf(cur, j));
        assert(cur[p].live);
        lemma_ancestor_live(cur, orig, p, t);
    }
}

/// Tears down the current level content: recursively destroys the subtree
/// of every entity tagged `Level`, invalidating every handle into those
/// subtrees; entities outside them are untouched. A no-op when no level
/// root exists.
pub fn clean_up_level(store: &mut EntityStore)
    requires
        old(store).wf(),
    ensures
        final(store).wf(),
        final(store)@.len() == old(store)@.len(),
        // No level root is left.
        forall|t: int| 0 <= t < final(store)@.len() ==> !is_level_root(final(store)@, t),
        // Every slot inside some level root's subtree is destroyed.
        forall|j: int, t: int|
            #[trigger] is_level_root(old(store)@, t) && crate::store::in_subtree(
                old(store)@,
                j,
                t,
            ) && 0 <= j < old(store)@.len() ==> !(#[trigger] final(store)@[j]).live,
        // Every slot outside them keeps its liveness; components, parent
        // link and generation are kept everywhere.
        forall|j: int|
            0 <= j < old(store)@.len() ==> {
                &&& (#[trigger] final(store)@[j]).comps == old(store)@[j].comps
                &&& final(store)@[j].parent == old(store)@[j].parent
                &&& final(store)@[j].generation == old(store)@[j].generation
            },
        forall|j: int|
            0 <= j < old(store)@.len() && !(exists|t: int|
                #[trigger] is_level_root(old(store)@, t) && crate::store::in_subtree(
                    old(store)@,
                    j,
                    t,
                )) ==> (#[trigger] final(store)@[j]).live == old(store)@[j].live,
{
    let ghost orig = store@;
    let ghost mut bound: int = 0;
    loop
        invariant
            store.wf(),
            orig == old(store)@,
            store@.len() == orig.len(),
            0 <= bound <= orig.len(),
            forall|t: int| 0 <= t < bound ==> !is_level_root(store@, t),
            forall|m: int|
                0 <= m < orig.len() ==> (#[trigger] store@[m]).comps == orig[m].comps
                    && store@[m].parent == orig[m].parent && store@[m].generation
                    == orig[m].generation,
            forall|m: int| 0 <= m < orig.len() && (#[trigger] store@[m]).live ==> orig[m].live,
            forall|j: int|
                0 <= j < orig.len() && orig[j].live && !(#[trigger] store@[j]).live ==> exists|
                    t: int,
                |
                    #[trigger] is_level_root(orig, t) && crate::store::in_subtree(orig, j, t),
        ensures
            store.wf(),
            orig == old(store)@,
            store@.len() == orig.len(),
            forall|t: int| 0 <= t < store@.len() ==> !is_level_root(store@, t),
            forall|m: int|
                0 <= m < orig.len() ==> (#[trigger] store@[m]).comps == orig[m].comps
                    && store@[m].parent == orig[m].parent && store@[m].generation
                    == orig[m].generation,
            forall|m: int| 0 <= m < orig.len() && (#[trigger] store@[m]).live ==> orig[m].live,
            forall|j: int|
                0 <= j < orig.len() && orig[j].live && !(#[trigger] store@[j]).live ==> exists|
                    t: int,
                |
                    #[trigger] is_level_root(orig, t) && crate::store::in_subtree(orig, j, t),
        decreases orig.len() - bound,
    {
        match find_level_root(store) {
            None => {
                break ;
            },
            Some(root) => {
                let ghost pre = store@;
                let ri = root.index;
                store.despawn_recursive(root);
                proof {
                    let now = store@;
                    assert(now == crate::store::despawn_model(pre, ri as int));
                    assert(is_level_root(orig, ri as int)) by {
                        assert(pre[ri as int].comps == orig[ri as int].comps);
                        assert(orig[ri as int].live);
                    }
                    // Only subtree slots of this root change, and only their
                    // liveness.
                    assert forall|j: int|
                        0 <= j < orig.len() && orig[j].live && !(#[trigger] now[j]).live implies
                        exists|t: int|
                            #[trigger] is_level_root(orig, t) && crate::store::in_subtree(
                                orig,
                                j,
                                t,
                            ) by {
                        if pre[j].live {
                            assert(crate::store::in_subtree(pre, j, ri as int));
                            lemma_in_subtree_back(pre, orig, j, ri as int);
                            assert(is_level_root(orig, ri as int) && crate::store::in_subtree(
                                orig,
                                j,
                                ri as int,
                            ));
                        }
                    }
                    // Everything at or below the old lower bound, and the
                    // despawned root itself, is level-root free now.
                    assert forall|t: int| 0 <= t < ri + 1 implies !is_level_root(now, t) by {
                        if is_level_root(now, t) {
                            assert(now[t].live);
                            assert(pre[t].live && now[t].comps == pre[t].comps);
                            assert(is_level_root(pre, t));
                            if t == ri {
                                assert(crate::store::in_subtree(pre, t, ri as int));
                            }
                        }
                    }
                    assert(bound <= ri) by {
                        if ri < bound {
                            assert(!is_level_root(pre, ri as int));
                        }
                    }
                    bound = ri + 1;
                }
            },
        }
    }
    proof {
        let fin = store@;
        assert forall|j: int, t: int|
            #[trigger] is_level_root(orig, t) && crate::store::in_subtree(orig, j, t) && 0 <= j
                < orig.len() implies !(#[trigger] fin[j]).live by {
            if fin[j].live {
                lemma_ancestor_live(fin, orig, j, t);
                assert(fin[t].live);
                assert(fin[t].comps == orig[t].comps);
                assert(is_level_root(fin, t));
            }
        }
        assert forall|j: int|
            0 <= j < orig.len() && !(exists|t: int|
                #[trigger] is_level_root(orig, t) && crate::store::in_subtree(
                    orig,
                    j,
                    t,
                )) implies (#[trigger] fin[j]).live == orig[j].live by {
            if orig[j].live && !fin[j].live {
                assert(exists|t: int|
                    #[trigger] is_level_root(orig, t) && crate::store::in_subtree(orig, j, t));
            }
        }
    }
}

} // verus!
