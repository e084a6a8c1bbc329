//! Instantiating a snapshot: spawning a fresh subtree from the records.
//!
//! Each record spawns a fresh entity under the given parent (or under the
//! record its parent reference names), and each of its serialized components
//! is reconstructed through the registry's reader and attached. Entities are
//! created in record order, so the `j`-th record becomes the `j`-th new
//! slot. A reader failure aborts with `InstantiationError`; what was already
//! instantiated is left in place, the caller owns cleanup.

use vstd::prelude::*;

use crate::errors::SceneError;
use crate::payload::{dec_payload, Payload, PayloadKind};
use crate::registry::TypeRegistry;
use crate::snapshot::{entry_wf, snapshot_wf, CompDataModel, EntryModel, Snapshot};
use crate::store::{
    comp_index_of, has_comp, valid_id, CompModel, EntityId, EntityStore, SlotModel,
};

verus! {

/// What attaching a component record does to a component list: replace the
/// record of the same name, or append.
pub open spec fn comps_upsert(cs: Seq<CompModel>, name: Seq<u8>, p: Payload) -> Seq<CompModel> {
    if has_comp(cs, name) {
        cs.update(comp_index_of(cs, name), CompModel { name, payload: p })
    } else {
        cs.push(CompModel { name, payload: p })
    }
}

/// The component list a record reconstructs to: each serialized component
/// decoded under its registered shape and attached in order.
pub open spec fn fold_comps(cs: Seq<CompDataModel>, reg: Map<Seq<u8>, PayloadKind>) -> Seq<
    CompModel,
>
    decreases cs.len(),
{
    if cs.len() == 0 {
        Seq::empty()
    } else {
        comps_upsert(
            fold_comps(cs.drop_last(), reg),
            cs.last().name,
            dec_payload(reg[cs.last().name], cs.last().data)->0,
        )
    }
}

/// Every serialized component of the list can be reconstructed: its type is
/// registered and its bytes decode under the registered shape.
pub open spec fn comps_decodable(cs: Seq<CompDataModel>, reg: Map<Seq<u8>, PayloadKind>) -> bool {
    forall|j: int|
        0 <= j < cs.len() ==> reg.contains_key((#[trigger] cs[j]).name) && dec_payload(
            reg[cs[j].name],
            cs[j].data,
        ) is Some
}

/// Every record of the snapshot can be reconstructed under the registry.
pub open spec fn snap_decodable(s: Seq<EntryModel>, reg: Map<Seq<u8>, PayloadKind>) -> bool {
    forall|i: int| 0 <= i < s.len() ==> comps_decodable((#[trigger] s[i]).comps, reg)
}

/// The store model after spawning a fresh child of `p` carrying `comps`.
pub open spec fn spawn_with(s: Seq<SlotModel>, p: int, comps: Seq<CompModel>) -> Seq<SlotModel> {
    s.update(
        p,
        SlotModel { children: s[p].children.push((s.len() as usize)), ..s[p] },
    ).push(
        SlotModel {
            live: true,
            generation: s.len() as u64,
            parent: Some((p as usize)),
            children: Seq::empty(),
            comps,
        },
    )
}

/// The store model after instantiating the records in order under root `r`;
/// `base` is the slot index the first record receives.
pub open spec fn inst_model(
    s: Seq<SlotModel>,
    r: int,
    base: int,
    entries: Seq<EntryModel>,
    reg: Map<Seq<u8>, PayloadKind>,
) -> Seq<SlotModel>
    decreases entries.len(),
{
    if entries.len() == 0 {
        s
    } else {
        let e0 = entries[0];
        let p: int = match e0.parent {
            None => r,
            Some(j) => base + j,
        };
        inst_model(spawn_with(s, p, fold_comps(e0.comps, reg)), r, base, entries.skip(1), reg)
    }
}

/// Peeling the last record off the instantiation fold.
pub proof fn lemma_inst_model_snoc(
    s: Seq<SlotModel>,
    r: int,
    base: int,
    entries: Seq<EntryModel>,
    x: EntryModel,
    reg: Map<Seq<u8>, PayloadKind>,
)
    ensures
        inst_model(s, r, base, entries.push(x), reg) == spawn_with(
            inst_model(s, r, base, entries, reg),
            match x.parent {
                None => r,
                Some(j) => base + j,
            },
            fold_comps(x.comps, reg),
        ),
    decreases entries.len(),
{
    if entries.len() == 0 {
        assert(entries.push(x)[0] == x);
        assert(entries.push(x).skip(1) =~= Seq::<EntryModel>::empty());
        let p: int = match x.parent {
            None => r,
            Some(j) => base + j,
        };
        assert(inst_model(s, r, base, entries.push(x), reg) == inst_model(
            spawn_with(s, p, fold_comps(x.comps, reg)),
            r,
            base,
            entries.push(x).skip(1),
            reg,
        ));
        assert(inst_model(spawn_with(s, p, fold_comps(x.comps, reg)), r, base, Seq::<EntryModel>::empty(), reg)
            == spawn_with(s, p, fold_comps(x.comps, reg)));
        assert(inst_model(s, r, base, entries, reg) == s);
    } else {
        assert(entries.push(x)[0] == entries[0]);
        assert(entries.push(x).skip(1) =~= entries.skip(1).push(x));
        let e0 = entries[0];
        let p: int = match e0.parent {
            None => r,
            Some(j) => base + j,
        };
        lemma_inst_model_snoc(spawn_with(s, p, fold_comps(e0.comps, reg)), r, base, entries.skip(1), x, reg);
    }
}

/// Spawns the snapshot's records as a fresh subtree under `parent`,
/// reconstructing and attaching each serialized component through the
/// registry. Succeeds exactly when every component decodes under its
/// registered shape.
pub fn instantiate(
    store: &mut EntityStore,
    snap: &Snapshot,
    parent: EntityId,
    registry: &TypeRegistry,
) -> (r: Result<Vec<EntityId>, SceneError>)
    requires
        old(store).wf(),
        valid_id(old(store)@, parent),
        registry.wf(),
        snapshot_wf(snap@),
        old(store)@.len() + snap@.len() <= usize::MAX,
    ensures
        final(store).wf(),
        valid_id(final(store)@, parent),
        match r {
            Ok(ids) => {
                &&& snap_decodable(snap@, registry@)
                &&& final(store)@ == inst_model(
                    old(store)@,
                    parent.index as int,
                    old(store)@.len() as int,
                    snap@,
                    registry@,
                )
                &&& ids@.len() == snap@.len()
                &&& forall|j: int|
                    0 <= j < ids@.len() ==> (#[trigger] ids@[j]).index == old(store)@.len() + j
                        && valid_id(final(store)@, ids@[j])
            },
            Err(e) => e == SceneError::InstantiationError && !snap_decodable(snap@, registry@),
        },
{
    let ghost s0 = store@;
    let ghost reg = registry@;
    let base: usize = store.n_slots();
    let mut ids: Vec<EntityId> = Vec::new();
    let n: usize = snap.entries.len();
    let mut k: usize = 0;
    while k < n
        invariant
            0 <= k <= n,
            store.wf(),
            registry.wf(),
            reg == registry@,
            snapshot_wf(snap@),
            n == snap@.len(),
            n == snap.entries@.len(),
            base == s0.len(),
            base + n <= usize::MAX,
            store@.len() == base + k,
            valid_id(store@, parent),
            store@ == inst_model(s0, parent.index as int, base as int, snap@.take(k as int), reg),
            forall|i: int| 0 <= i < k ==> comps_decodable((#[trigger] snap@[i]).comps, reg),
            ids@.len() == k,
            forall|j: int|
                0 <= j < k ==> (#[trigger] ids@[j]).index == base + j && valid_id(
                    store@,
                    ids@[j],
                ),
        decreases n - k,
    {
        let ghost em: EntryModel = snap@[k as int];
        proof {
            assert(entry_wf(em, k as int));
        }
        let pid: EntityId = match snap.entries[k].parent {
            None => parent,
            Some(j) => {
                proof {
                    assert(em.parent == Some(j));
                    assert((j as int) < k);
                }
                ids[j]
            },
        };
        let ghost pre_k = store@;
        let nid = store.spawn_child(pid);
        ids.push(nid);
        let ghost pidx = pid.index as int;
        proof {
            assert(store@ =~~= spawn_with(pre_k, pidx, Seq::<CompModel>::empty()));
            assert(em.comps.take(0) =~= Seq::<CompDataModel>::empty());
        }
        let m: usize = snap.entries[k].components.len();
        let mut t: usize = 0;
        while t < m
            invariant
                0 <= t <= m,
                store.wf(),
                registry.wf(),
                reg == registry@,
                snapshot_wf(snap@),
                0 <= k < n,
                n == snap@.len(),
                n == snap.entries@.len(),
                em == snap@[k as int],
                m == snap.entries@[k as int].components@.len(),
                m == em.comps.len(),
                base == s0.len(),
                base + n <= usize::MAX,
                pre_k.len() == base + k,
                0 <= pidx < pre_k.len(),
                nid.index == base + k,
                nid.generation == (base + k) as u64,
                store@ == spawn_with(pre_k, pidx, fold_comps(em.comps.take(t as int), reg)),
                valid_id(pre_k, parent),
                parent.index < pre_k.len(),
                forall|j2: int| 0 <= j2 < t ==> reg.contains_key(
                    (#[trigger] em.comps[j2]).name,
                ) && dec_payload(reg[em.comps[j2].name], em.comps[j2].data) is Some,
            decreases m - t,
        {
            let ghost cm: CompDataModel = em.comps[t as int];
            let name_v = vstd::slice::slice_to_vec(
                snap.entries[k].components[t].name.as_slice(),
            );
            proof {
                assert(cm == snap.entries@[k as int].components@[t as int]@);
                assert(name_v@ == cm.name);
                assert(valid_id(store@, nid)) by {
                    assert(store@[nid.index as int] == spawn_with(
                        pre_k,
                        pidx,
                        fold_comps(em.comps.take(t as int), reg),
                    )[nid.index as int]);
                }
            }
            match registry.read(
                snap.entries[k].components[t].name.as_slice(),
                snap.entries[k].components[t].data.as_slice(),
            ) {
                Ok(p) => {
                    let ghost pre_t = store@;
                    store.insert_component(nid, name_v, p);
                    proof {
                        let fc = fold_comps(em.comps.take(t as int), reg);
                        assert(pre_t[nid.index as int].comps == fc);
                        assert(em.comps.take(t + 1).drop_last() =~= em.comps.take(t as int));
                        assert(em.comps.take(t + 1).last() == cm);
                        assert(dec_payload(reg[cm.name], cm.data) == Some(p));
                        assert(fold_comps(em.comps.take(t + 1), reg) == comps_upsert(
                            fc,
                            cm.name,
                            p,
                        ));
                        assert(store@ =~~= spawn_with(
                            pre_k,
                            pidx,
                            fold_comps(em.comps.take(t + 1), reg),
                        ));
                    }
                },
                Err(_) => {
                    proof {
                        assert(!comps_decodable(em.comps, reg)) by {
                            assert(!(reg.contains_key(cm.name) && dec_payload(
                                reg[cm.name],
                                cm.data,
                            ) is Some));
                        }
                        assert(!snap_decodable(snap@, reg)) by {
                            assert(!comps_decodable(snap@[k as int].comps, reg));
                        }
                    }
                    proof {
                        assert(valid_id(store@, parent)) by {
                            if parent.index as int != pidx {
                                assert(store@[parent.index as int] == pre_k[
                                    parent.index as int
                                ]);
                            }
                        }
                    }
                    return Err(SceneError::InstantiationError);
                },
            }
            t = t + 1;
        }
        proof {
            assert(em.comps.take(m as int) =~= em.comps);
            assert(snap@.take(k + 1) =~= snap@.take(k as int).push(em));
            lemma_inst_model_snoc(s0, parent.index as int, base as int, snap@.take(k as int), em, reg);
            assert(pidx == match em.parent {
                None => parent.index as int,
                Some(j) => base + j,
            }) by {
                if em.parent is Some {
                    let j = em.parent->0;
                    assert(ids@[j as int].index == base + j);
                }
            }
            assert(store@ == inst_model(s0, parent.index as int, base as int, snap@.take(k + 1), reg));
            assert(comps_decodable(em.comps, reg));
            assert(valid_id(store@, parent)) by {
                assert(parent.index < pre_k.len());
                assert(store@[parent.index as int].live == pre_k[parent.index as int].live
                    || parent.index == pidx);
            }
            assert forall|j: int| 0 <= j < k + 1 implies (#[trigger] ids@[j]).index == base + j
                && valid_id(store@, ids@[j]) by {
                if j < k {
                    assert(ids@[j].index == base + j);
                    assert(valid_id(pre_k, ids@[j]));
                    assert(ids@[j].index < pre_k.len());
                } else {
                    assert(ids@[j] == nid);
                }
            }
        }
        k = k + 1;
    }
    proof {
        assert(snap@.take(n as int) =~= snap@);
    }
    Ok(ids)
}

} // verus!
