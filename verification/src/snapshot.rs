//! The scene snapshot: the in-memory intermediate between a live subtree and
//! its persisted text form.
//!
//! A snapshot is an ordered sequence of entity records in depth-first,
//! child-insertion order. Each record refers to its parent by position in
//! the sequence (or to the extraction root) and carries the serialized
//! payloads of those of its components whose types the registry in use
//! knows; entities with no serializable component still appear, so the
//! structure of the subtree is preserved. The extraction root itself is not
//! part of the snapshot.

use vstd::prelude::*;

use crate::errors::SceneError;
use crate::payload::{enc_payload, kind_of, Payload, PayloadKind};
use crate::registry::{is_wf_name, TypeRegistry};
use crate::store::{valid_id, CompModel, EntityId, EntityStore, SlotModel};

verus! {

/// One serialized component: a type name and the payload's serialized form.
pub struct ComponentData {
    pub name: Vec<u8>,
    pub data: Vec<u8>,
}

/// Model of one serialized component.
#[verifier::ext_equal]
pub struct CompDataModel {
    pub name: Seq<u8>,
    pub data: Seq<u8>,
}

/// One entity record of a snapshot.
pub struct SnapshotEntry {
    /// Position of the parent record in the snapshot, or `None` when the
    /// entity was a direct child of the extraction root.
    pub parent: Option<usize>,
    pub components: Vec<ComponentData>,
}

/// Model of one entity record.
#[verifier::ext_equal]
pub struct EntryModel {
    pub parent: Option<usize>,
    pub comps: Seq<CompDataModel>,
}

/// An extracted scene: entity records in depth-first order.
pub struct Snapshot {
    pub entries: Vec<SnapshotEntry>,
}

impl View for ComponentData {
    type V = CompDataModel;

    open spec fn view(&self) -> CompDataModel {
        CompDataModel { name: self.name@, data: self.data@ }
    }
}

impl View for SnapshotEntry {
    type V = EntryModel;

    open spec fn view(&self) -> EntryModel {
        EntryModel {
            parent: self.parent,
            comps: self.components@.map_values(|c: ComponentData| c@),
        }
    }
}

impl View for Snapshot {
    type V = Seq<EntryModel>;

    open spec fn view(&self) -> Seq<EntryModel> {
        self.entries@.map_values(|e: SnapshotEntry| e@)
    }
}

/// Well-formedness of one snapshot record at position `i`: the parent comes
/// earlier in the sequence, type names are well-formed tokens and unique
/// within the record.
pub open spec fn entry_wf(e: EntryModel, i: int) -> bool {
    &&& (e.parent is Some ==> (e.parent->0 as int) < i)
    &&& (forall|j: int| 0 <= j < e.comps.len() ==> is_wf_name((#[trigger] e.comps[j]).name))
    &&& (forall|j: int| 0 <= j < e.comps.len() ==> (#[trigger] e.comps[j]).data.len() <= u64::MAX)
}

/// Well-formedness of a snapshot.
pub open spec fn snapshot_wf(s: Seq<EntryModel>) -> bool {
    forall|i: int| 0 <= i < s.len() ==> #[trigger] entry_wf(s[i], i)
}

/// No record carries two components of the same type name. Extraction
/// guarantees this (an entity owns at most one record per type); a parsed
/// file need not.
pub open spec fn snap_unique_names(s: Seq<EntryModel>) -> bool {
    forall|i: int, j1: int, j2: int|
        0 <= i < s.len() && 0 <= j1 < j2 < (#[trigger] s[i]).comps.len() ==> (
        #[trigger] s[i].comps[j1]).name != (#[trigger] s[i].comps[j2]).name
}

/// Whether record `p` is `j` itself or an ancestor of `j` within the
/// snapshot's parent references.
pub open spec fn snap_ancestor(s: Seq<EntryModel>, j: int, p: int) -> bool
    decreases j,
{
    if j == p {
        true
    } else if 0 <= j < s.len() && s[j].parent is Some && 0 <= (s[j].parent->0 as int) < j {
        snap_ancestor(s, s[j].parent->0 as int, p)
    } else {
        false
    }
}

/// The records are in depth-first preorder: each record's parent is the
/// previous record or one of its ancestors (or the root).
pub open spec fn dfs_ordered(s: Seq<EntryModel>) -> bool {
    forall|i: int|
        0 < i < s.len() && (#[trigger] s[i]).parent is Some ==> snap_ancestor(
            s,
            i - 1,
            s[i].parent->0 as int,
        )
}

/// The serialized records of a component list under a registry: components
/// of unregistered types are left out, the rest keep their order and are
/// serialized to their canonical form.
pub open spec fn comps_model(cs: Seq<CompModel>, reg: Map<Seq<u8>, PayloadKind>) -> Seq<
    CompDataModel,
>
    decreases cs.len(),
{
    if cs.len() == 0 {
        Seq::empty()
    } else {
        comps_model(cs.drop_last(), reg) + (if reg.contains_key(cs.last().name) {
            seq![CompDataModel { name: cs.last().name, data: enc_payload(cs.last().payload) }]
        } else {
            Seq::empty()
        })
    }
}

/// Every registered component of the list has the registered shape, so its
/// writer succeeds.
pub open spec fn comps_ok(cs: Seq<CompModel>, reg: Map<Seq<u8>, PayloadKind>) -> bool {
    forall|j: int|
        0 <= j < cs.len() && reg.contains_key((#[trigger] cs[j]).name) ==> reg[cs[j].name]
            == kind_of(cs[j].payload)
}

/// One node of the flattened subtree: the slot index it came from and the
/// snapshot record it produces.
#[verifier::ext_equal]
pub struct FlatNode {
    pub id: usize,
    pub parent: Option<usize>,
    pub comps: Seq<CompDataModel>,
}

pub open spec fn entry_of(n: FlatNode) -> EntryModel {
    EntryModel { parent: n.parent, comps: n.comps }
}

/// The flattened records of the subtree rooted at slot `e`, which will
/// occupy positions `pos`, `pos + 1`, ... of the snapshot; `par` is the
/// position of `e`'s parent record.
pub open spec fn flat_from(
    s: Seq<SlotModel>,
    e: int,
    par: Option<usize>,
    pos: int,
    reg: Map<Seq<u8>, PayloadKind>,
) -> Seq<FlatNode>
    decreases s.len() - e, 1int, 0int,
{
    if 0 <= e < s.len() && s[e].live {
        seq![FlatNode { id: (e as usize), parent: par, comps: comps_model(s[e].comps, reg) }]
            + flat_kids(s, e, 0, Some((pos as usize)), pos + 1, reg)
    } else {
        Seq::empty()
    }
}

/// The flattened records of the subtrees of `e`'s children from the `k`-th
/// on, starting at snapshot position `pos`, with parent position `par`.
pub open spec fn flat_kids(
    s: Seq<SlotModel>,
    e: int,
    k: int,
    par: Option<usize>,
    pos: int,
    reg: Map<Seq<u8>, PayloadKind>,
) -> Seq<FlatNode>
    decreases s.len() - e, 0int, s[e].children.len() - k,
{
    if 0 <= e < s.len() && 0 <= k < s[e].children.len() {
        let c = s[e].children[k] as int;
        if e < c < s.len() {
            let sub = flat_from(s, c, par, pos, reg);
            sub + flat_kids(s, e, k + 1, par, pos + sub.len(), reg)
        } else {
            flat_kids(s, e, k + 1, par, pos, reg)
        }
    } else {
        Seq::empty()
    }
}

/// What `extract` produces for root `e`: the flattened records of the
/// descendants of `e`, the root itself excluded.
pub open spec fn extract_model(s: Seq<SlotModel>, e: int, reg: Map<Seq<u8>, PayloadKind>) -> Seq<
    EntryModel,
> {
    flat_kids(s, e, 0, None, 0, reg).map_values(|n: FlatNode| entry_of(n))
}

/// Every registered component in the subtree of `e` has its registered
/// shape.
pub open spec fn subtree_ok(s: Seq<SlotModel>, e: int, reg: Map<Seq<u8>, PayloadKind>) -> bool
    decreases s.len() - e, 1int, 0int,
{
    if 0 <= e < s.len() && s[e].live {
        comps_ok(s[e].comps, reg) && kids_ok(s, e, 0, reg)
    } else {
        true
    }
}

/// Shape agreement for the subtrees of `e`'s children from the `k`-th on.
pub open spec fn kids_ok(s: Seq<SlotModel>, e: int, k: int, reg: Map<Seq<u8>, PayloadKind>) -> bool
    decreases s.len() - e, 0int, s[e].children.len() - k,
{
    if 0 <= e < s.len() && 0 <= k < s[e].children.len() {
        let c = s[e].children[k] as int;
        (if e < c < s.len() {
            subtree_ok(s, c, reg)
        } else {
            true
        }) && kids_ok(s, e, k + 1, reg)
    } else {
        true
    }
}

/// The deep model of a record vector.
pub open spec fn entries_vm(v: Seq<SnapshotEntry>) -> Seq<EntryModel> {
    v.map_values(|e: SnapshotEntry| e@)
}

/// Serializes the components of slot `idx` under the registry, skipping
/// unregistered types; fails if a registered component does not have its
/// registered shape.
fn extract_comps(store: &EntityStore, idx: usize, registry: &TypeRegistry) -> (r: Result<
    Vec<ComponentData>,
    SceneError,
>)
    requires
        store.wf(),
        registry.wf(),
        idx < store@.len(),
    ensures
        match r {
            Ok(v) => comps_ok(store@[idx as int].comps, registry@) && entries_cm(v@)
                == comps_model(store@[idx as int].comps, registry@),
            Err(e) => e == SceneError::SerializationError && !comps_ok(
                store@[idx as int].comps,
                registry@,
            ),
        },
{
    let ghost cs = store@[idx as int].comps;
    let n: usize = store.comp_count(idx);
    let mut out: Vec<ComponentData> = Vec::new();
    let mut j: usize = 0;
    while j < n
        invariant
            0 <= j <= n,
            store.wf(),
            registry.wf(),
            idx < store@.len(),
            cs == store@[idx as int].comps,
            n == cs.len(),
            comps_ok(cs.take(j as int), registry@),
            entries_cm(out@) == comps_model(cs.take(j as int), registry@),
        decreases n - j,
    {
        let name = store.comp_name_at(idx, j);
        let payload = store.comp_payload_at(idx, j);
        let ghost pre_out = out@;
        match registry.write(name.as_slice(), &payload) {
            Ok(bytes) => {
                let copied = vstd::slice::slice_to_vec(name.as_slice());
                out.push(ComponentData { name: copied, data: bytes });
                proof {
                    assert(cs.take(j + 1).drop_last() =~= cs.take(j as int));
                    assert(cs.take(j + 1).last() == cs[j as int]);
                    assert(entries_cm(out@) =~= comps_model(cs.take(j + 1), registry@)) by {
                        assert(entries_cm(out@) =~= entries_cm(pre_out).push(
                            CompDataModel {
                                name: cs[j as int].name,
                                data: enc_payload(cs[j as int].payload),
                            },
                        ));
                    }
                    assert(comps_ok(cs.take(j + 1), registry@)) by {
                        assert(forall|t: int|
                            0 <= t < j ==> #[trigger] cs.take(j + 1)[t] == cs.take(j as int)[t]);
                        assert(cs.take(j + 1)[j as int] == cs[j as int]);
                    }
                }
            },
            Err(e) => {
                if matches!(e, SceneError::SerializationError) {
                    proof {
                        assert(!comps_ok(cs, registry@)) by {
                            assert(registry@.contains_key(cs[j as int].name) && registry@[cs[
                                j as int
                            ].name] != kind_of(cs[j as int].payload));
                        }
                    }
                    return Err(SceneError::SerializationError);
                }
                // Unregistered: the component is deliberately skipped.
                proof {
                    assert(cs.take(j + 1).drop_last() =~= cs.take(j as int));
                    assert(cs.take(j + 1).last() == cs[j as int]);
                    assert(entries_cm(out@) =~= comps_model(cs.take(j + 1), registry@));
                    assert(comps_ok(cs.take(j + 1), registry@)) by {
                        assert(forall|t: int|
                            0 <= t < j ==> #[trigger] cs.take(j + 1)[t] == cs.take(j as int)[t]);
                        assert(cs.take(j + 1)[j as int] == cs[j as int]);
                    }
                }
            },
        }
        j = j + 1;
    }
    proof {
        assert(cs.take(n as int) =~= cs);
    }
    Ok(out)
}

/// The deep model of a component vector.
pub open spec fn entries_cm(v: Seq<ComponentData>) -> Seq<CompDataModel> {
    v.map_values(|c: ComponentData| c@)
}

/// Flattens the subtree of the live slot `e` onto the end of `out`; the
/// record of `e` itself lands at position `out.len()` with parent reference
/// `par`.
fn extract_subtree(
    store: &EntityStore,
    e: usize,
    par: Option<usize>,
    registry: &TypeRegistry,
    out: &mut Vec<SnapshotEntry>,
) -> (r: Result<(), SceneError>)
    requires
        store.wf(),
        registry.wf(),
        e < store@.len(),
        store@[e as int].live,
    ensures
        match r {
            Ok(_) => subtree_ok(store@, e as int, registry@) && entries_vm(final(out)@)
                == entries_vm(old(out)@) + flat_from(
                store@,
                e as int,
                par,
                old(out)@.len() as int,
                registry@,
            ).map_values(|n: FlatNode| entry_of(n)),
            Err(err) => err == SceneError::SerializationError && !subtree_ok(
                store@,
                e as int,
                registry@,
            ),
        },
    decreases store@.len() - e, 1int,
{
    let pos: usize = out.len();
    let comps = match extract_comps(store, e, registry) {
        Ok(v) => v,
        Err(err) => {
            return Err(err);
        },
    };
    out.push(SnapshotEntry { parent: par, components: comps });
    let ghost after_self = entries_vm(out@);
    proof {
        assert(after_self =~= entries_vm(old(out)@).push(
            EntryModel { parent: par, comps: comps_model(store@[e as int].comps, registry@) },
        ));
    }
    match extract_children(store, e, Some(pos), registry, out) {
        Ok(_) => {
            proof {
                let s = store@;
                let reg = registry@;
                let whole = flat_from(s, e as int, par, pos as int, reg);
                assert(whole == seq![
                    FlatNode {
                        id: e,
                        parent: par,
                        comps: comps_model(s[e as int].comps, reg),
                    },
                ] + flat_kids(s, e as int, 0, Some(pos), pos + 1, reg));
                assert(entries_vm(out@) =~= entries_vm(old(out)@) + whole.map_values(
                    |n: FlatNode| entry_of(n),
                ));
            }
            Ok(())
        },
        Err(err) => Err(err),
    }
}

/// Flattens the subtrees of the children of the live slot `e`, from the
/// first on, onto the end of `out`, with parent reference `par`.
fn extract_children(
    store: &EntityStore,
    e: usize,
    par: Option<usize>,
    registry: &TypeRegistry,
    out: &mut Vec<SnapshotEntry>,
) -> (r: Result<(), SceneError>)
    requires
        store.wf(),
        registry.wf(),
        e < store@.len(),
        store@[e as int].live,
    ensures
        match r {
            Ok(_) => kids_ok(store@, e as int, 0, registry@) && entries_vm(final(out)@)
                == entries_vm(old(out)@) + flat_kids(
                store@,
                e as int,
                0,
                par,
                old(out)@.len() as int,
                registry@,
            ).map_values(|n: FlatNode| entry_of(n)),
            Err(err) => err == SceneError::SerializationError && !kids_ok(
                store@,
                e as int,
                0,
                registry@,
            ),
        },
    decreases store@.len() - e, 0int,
{
    let s_ghost: Ghost<Seq<SlotModel>> = Ghost(store@);
    let ghost s = s_ghost@;
    let ghost reg = registry@;
    let ghost base = old(out)@;
    let n: usize = store.child_count(e);
    let mut k: usize = 0;
    while k < n
        invariant
            0 <= k <= n,
            store.wf(),
            registry.wf(),
            e < store@.len(),
            store@[e as int].live,
            s == store@,
            reg == registry@,
            n == s[e as int].children.len(),
            entries_vm(base) + flat_kids(s, e as int, 0, par, base.len() as int, reg).map_values(
                |x: FlatNode| entry_of(x),
            ) == entries_vm(out@) + flat_kids(
                s,
                e as int,
                k as int,
                par,
                out@.len() as int,
                reg,
            ).map_values(|x: FlatNode| entry_of(x)),
            kids_ok(s, e as int, 0, reg) == kids_ok(s, e as int, k as int, reg),
        decreases n - k,
    {
        let c: usize = store.child_at(e, k);
        proof {
            assert(crate::store::store_slot_wf(s, e as int));
            assert((e as int) < (c as int) < s.len() && s[c as int].live);
        }
        let ghost len_before = out@.len() as int;
        let ghost sub = flat_from(s, c as int, par, len_before, reg);
        match extract_subtree(store, c, par, registry, out) {
            Ok(_) => {
                proof {
                    assert(flat_kids(s, e as int, k as int, par, len_before, reg) == sub
                        + flat_kids(s, e as int, k + 1, par, len_before + sub.len(), reg));
                    assert(out@.len() as int == len_before + sub.len()) by {
                        assert(entries_vm(out@).len() == out@.len());
                        assert(sub.map_values(|x: FlatNode| entry_of(x)).len() == sub.len());
                    }
                    assert(entries_vm(base) + flat_kids(
                        s,
                        e as int,
                        0,
                        par,
                        base.len() as int,
                        reg,
                    ).map_values(|x: FlatNode| entry_of(x)) =~= entries_vm(out@) + flat_kids(
                        s,
                        e as int,
                        k + 1,
                        par,
                        out@.len() as int,
                        reg,
                    ).map_values(|x: FlatNode| entry_of(x)));
                }
            },
            Err(err) => {
                proof {
                    assert(!kids_ok(s, e as int, k as int, reg));
                }
                return Err(err);
            },
        }
        k = k + 1;
    }
    proof {
        assert(flat_kids(s, e as int, n as int, par, out@.len() as int, reg) == Seq::<
            FlatNode,
        >::empty());
        assert(entries_vm(out@) =~= entries_vm(base) + flat_kids(
            s,
            e as int,
            0,
            par,
            base.len() as int,
            reg,
        ).map_values(|x: FlatNode| entry_of(x)));
    }
    Ok(())
}

/// A serialized payload is short.
pub proof fn lemma_enc_payload_len(p: Payload)
    ensures
        enc_payload(p).len() <= 146,
{
    match p {
        Payload::Marker => {},
        Payload::BoxDims { x, y, z } => {
            lemma_enc_i64_len(x as int);
            lemma_enc_i64_len(y as int);
            lemma_enc_i64_len(z as int);
        },
        Payload::Transform { tx, ty, tz, rx, ry, rz, rw } => {
            lemma_enc_i64_len(tx as int);
            lemma_enc_i64_len(ty as int);
            lemma_enc_i64_len(tz as int);
            lemma_enc_i64_len(rx as int);
            lemma_enc_i64_len(ry as int);
            lemma_enc_i64_len(rz as int);
            lemma_enc_i64_len(rw as int);
        },
    }
}

proof fn lemma_enc_i64_len(v: int)
    ensures
        crate::digits::enc_i64(v).len() == 20,
{
    crate::digits::lemma_enc_nat_len(crate::digits::abs_val(v), 19);
}

/// The serialized component records of a component list: every record's type
/// is in the registry, its name is a well-formed token taken from the list,
/// its data is the canonical (short) serialized payload, and — when the
/// list's names are unique — the records' names are unique too.
pub proof fn lemma_comps_model_wf(cs: Seq<CompModel>, reg: Map<Seq<u8>, PayloadKind>)
    ensures
        ({
            let km = comps_model(cs, reg);
            &&& forall|j: int|
                0 <= j < km.len() ==> reg.contains_key((#[trigger] km[j]).name)
                    && km[j].data.len() <= 146 && exists|u: int|
                    0 <= u < cs.len() && (#[trigger] km[j]).name == cs[u].name
            &&& ((forall|u1: int, u2: int|
                0 <= u1 < u2 < cs.len() ==> (#[trigger] cs[u1]).name != (
                #[trigger] cs[u2]).name) ==> (forall|j1: int, j2: int|
                0 <= j1 < j2 < km.len() ==> (#[trigger] km[j1]).name != (
                #[trigger] km[j2]).name))
        }),
    decreases cs.len(),
{
    let km = comps_model(cs, reg);
    if cs.len() == 0 {
    } else {
        lemma_comps_model_wf(cs.drop_last(), reg);
        let kmp = comps_model(cs.drop_last(), reg);
        lemma_enc_payload_len(cs.last().payload);
        assert forall|j: int| 0 <= j < km.len() implies reg.contains_key(
            (#[trigger] km[j]).name,
        ) && km[j].data.len() <= 146 && exists|u: int|
            0 <= u < cs.len() && (#[trigger] km[j]).name == cs[u].name by {
            if j < kmp.len() {
                assert(km[j] == kmp[j]);
                let u = choose|u: int|
                    0 <= u < cs.drop_last().len() && (#[trigger] kmp[j]).name == cs.drop_last(
                    )[u].name;
                assert(cs.drop_last()[u] == cs[u]);
                assert(km[j].name == cs[u].name);
            } else {
                assert(reg.contains_key(cs.last().name));
                assert(km[j].name == cs[cs.len() - 1].name);
            }
        }
        if forall|u1: int, u2: int|
            0 <= u1 < u2 < cs.len() ==> (#[trigger] cs[u1]).name != (#[trigger] cs[u2]).name {
            assert(forall|u1: int, u2: int|
                0 <= u1 < u2 < cs.drop_last().len() ==> (#[trigger] cs.drop_last()[u1]).name
                    != (#[trigger] cs.drop_last()[u2]).name) by {
                assert(forall|u: int|
                    0 <= u < cs.drop_last().len() ==> #[trigger] cs.drop_last()[u] == cs[u]);
            }
            assert forall|j1: int, j2: int| 0 <= j1 < j2 < km.len() implies (
            #[trigger] km[j1]).name != (#[trigger] km[j2]).name by {
                if j2 < kmp.len() {
                    assert(km[j1] == kmp[j1] && km[j2] == kmp[j2]);
                } else {
                    assert(km[j1] == kmp[j1]);
                    assert(km[j2].name == cs[cs.len() - 1].name);
                    let u = choose|u: int|
                        0 <= u < cs.drop_last().len() && (#[trigger] kmp[j1]).name
                            == cs.drop_last()[u].name;
                    assert(cs.drop_last()[u] == cs[u]);
                    assert(cs[u].name != cs[cs.len() - 1].name);
                }
            }
        }
    }
}

/// Records flattened from a well-formed store are well formed: parents come
/// earlier, names are registered well-formed tokens, unique per record.
proof fn lemma_flat_from_wf(
    s: Seq<SlotModel>,
    e: int,
    par: Option<usize>,
    pos: int,
    reg: Map<Seq<u8>, PayloadKind>,
)
    requires
        crate::store::store_wf(s),
        forall|n: Seq<u8>| reg.contains_key(n) ==> is_wf_name(n),
        par is Some ==> (par->0 as int) < pos,
        0 <= pos,
    ensures
        ({
            let f = flat_from(s, e, par, pos, reg);
            forall|t: int|
                0 <= t < f.len() ==> entry_wf(entry_of(#[trigger] f[t]), pos + t) && (forall|
                    j1: int,
                    j2: int,
                |
                    0 <= j1 < j2 < f[t].comps.len() ==> (#[trigger] f[t].comps[j1]).name != (
                    #[trigger] f[t].comps[j2]).name)
        }),
    decreases s.len() - e, 1int, 0int,
{
    if 0 <= e < s.len() && s[e].live {
        assert(crate::store::store_slot_wf(s, e));
        lemma_comps_model_wf(s[e].comps, reg);
        lemma_flat_kids_wf(s, e, 0, Some((pos as usize)), pos + 1, reg);
        let f = flat_from(s, e, par, pos, reg);
        let fk = flat_kids(s, e, 0, Some((pos as usize)), pos + 1, reg);
        assert forall|t: int| 0 <= t < f.len() implies entry_wf(
            entry_of(#[trigger] f[t]),
            pos + t,
        ) && (forall|j1: int, j2: int|
            0 <= j1 < j2 < f[t].comps.len() ==> (#[trigger] f[t].comps[j1]).name != (
            #[trigger] f[t].comps[j2]).name) by {
            if t == 0 {
                assert(f[0].comps == comps_model(s[e].comps, reg));
                assert forall|j: int| 0 <= j < f[0].comps.len() implies is_wf_name(
                    (#[trigger] f[0].comps[j]).name,
                ) && f[0].comps[j].data.len() <= u64::MAX by {
                    assert(reg.contains_key(f[0].comps[j].name));
                }
            } else {
                assert(f[t] == fk[t - 1]);
                assert(entry_wf(entry_of(fk[t - 1]), pos + 1 + (t - 1)));
            }
        }
    }
}

/// Same, for the flattened subtrees of the children from the `k`-th on.
proof fn lemma_flat_kids_wf(
    s: Seq<SlotModel>,
    e: int,
    k: int,
    par: Option<usize>,
    pos: int,
    reg: Map<Seq<u8>, PayloadKind>,
)
    requires
        crate::store::store_wf(s),
        forall|n: Seq<u8>| reg.contains_key(n) ==> is_wf_name(n),
        par is Some ==> (par->0 as int) < pos,
        0 <= pos,
    ensures
        ({
            let f = flat_kids(s, e, k, par, pos, reg);
            forall|t: int|
                0 <= t < f.len() ==> entry_wf(entry_of(#[trigger] f[t]), pos + t) && (forall|
                    j1: int,
                    j2: int,
                |
                    0 <= j1 < j2 < f[t].comps.len() ==> (#[trigger] f[t].comps[j1]).name != (
                    #[trigger] f[t].comps[j2]).name)
        }),
    decreases s.len() - e, 0int, s[e].children.len() - k,
{
    if 0 <= e < s.len() && 0 <= k < s[e].children.len() {
        let c = s[e].children[k] as int;
        if e < c < s.len() {
            let sub = flat_from(s, c, par, pos, reg);
            lemma_flat_from_wf(s, c, par, pos, reg);
            lemma_flat_kids_wf(s, e, k + 1, par, pos + sub.len(), reg);
            let f = flat_kids(s, e, k, par, pos, reg);
            let fk = flat_kids(s, e, k + 1, par, pos + sub.len(), reg);
            assert forall|t: int| 0 <= t < f.len() implies entry_wf(
                entry_of(#[trigger] f[t]),
                pos + t,
            ) && (forall|j1: int, j2: int|
                0 <= j1 < j2 < f[t].comps.len() ==> (#[trigger] f[t].comps[j1]).name != (
                #[trigger] f[t].comps[j2]).name) by {
                if t < sub.len() {
                    assert(f[t] == sub[t]);
                    assert(entry_wf(entry_of(sub[t]), pos + t));
                } else {
                    assert(f[t] == fk[t - sub.len()]);
                    assert(entry_wf(entry_of(fk[t - sub.len()]), pos + sub.len() + (t
                        - sub.len())));
                }
            }
        } else {
            lemma_flat_kids_wf(s, e, k + 1, par, pos, reg);
        }
    }
}

/// What extraction produces is a well-formed snapshot whose records carry
/// only registered, uniquely named components: in particular, a component
/// whose type is absent from the registry in use is omitted from every
/// record.
pub proof fn lemma_extract_wf(s: Seq<SlotModel>, e: int, reg: Map<Seq<u8>, PayloadKind>)
    requires
        crate::store::store_wf(s),
        forall|n: Seq<u8>| reg.contains_key(n) ==> is_wf_name(n),
    ensures
        snapshot_wf(extract_model(s, e, reg)),
        snap_unique_names(extract_model(s, e, reg)),
        forall|i: int, j: int|
            0 <= i < extract_model(s, e, reg).len() && 0 <= j < extract_model(
                s,
                e,
                reg,
            )[i].comps.len() ==> reg.contains_key(
                (#[trigger] extract_model(s, e, reg)[i].comps[j]).name,
            ),
{
    let f = flat_kids(s, e, 0, None, 0, reg);
    let x = extract_model(s, e, reg);
    lemma_flat_kids_wf(s, e, 0, None, 0, reg);
    assert forall|i: int| 0 <= i < x.len() implies #[trigger] entry_wf(x[i], i) by {
        assert(x[i] == entry_of(f[i]));
        assert(entry_wf(entry_of(f[i]), 0 + i));
    }
    assert forall|i: int, j1: int, j2: int|
        0 <= i < x.len() && 0 <= j1 < j2 < (#[trigger] x[i]).comps.len() implies (
    #[trigger] x[i].comps[j1]).name != (#[trigger] x[i].comps[j2]).name by {
        assert(x[i] == entry_of(f[i]));
        assert(f[i].comps[j1] == x[i].comps[j1] && f[i].comps[j2] == x[i].comps[j2]);
    }
    assert forall|i: int, j: int|
        0 <= i < extract_model(s, e, reg).len() && 0 <= j < extract_model(
            s,
            e,
            reg,
        )[i].comps.len() implies reg.contains_key(
        (#[trigger] extract_model(s, e, reg)[i].comps[j]).name,
    ) by {
        assert(x[i] == entry_of(f[i]));
        lemma_flat_kids_registered(s, e, 0, None, 0, reg, i, j);
    }
}

/// Type filtering: a component type absent from the registry in use is
/// omitted from every record of the extraction, even where the entity
/// carries other includable components.
pub proof fn lemma_type_filtering(
    s: Seq<SlotModel>,
    e: int,
    reg: Map<Seq<u8>, PayloadKind>,
    name: Seq<u8>,
)
    requires
        crate::store::store_wf(s),
        forall|n: Seq<u8>| reg.contains_key(n) ==> is_wf_name(n),
        !reg.contains_key(name),
    ensures
        forall|i: int, j: int|
            0 <= i < extract_model(s, e, reg).len() && 0 <= j < extract_model(
                s,
                e,
                reg,
            )[i].comps.len() ==> (#[trigger] extract_model(s, e, reg)[i].comps[j]).name != name,
{
    lemma_extract_wf(s, e, reg);
}

/// Every component of a flattened record has a registered type.
proof fn lemma_flat_kids_registered(
    s: Seq<SlotModel>,
    e: int,
    k: int,
    par: Option<usize>,
    pos: int,
    reg: Map<Seq<u8>, PayloadKind>,
    t: int,
    j: int,
)
    requires
        0 <= t < flat_kids(s, e, k, par, pos, reg).len(),
        0 <= j < flat_kids(s, e, k, par, pos, reg)[t].comps.len(),
    ensures
        reg.contains_key(flat_kids(s, e, k, par, pos, reg)[t].comps[j].name),
    decreases s.len() - e, 0int, s[e].children.len() - k,
{
    let f = flat_kids(s, e, k, par, pos, reg);
    if 0 <= e < s.len() && 0 <= k < s[e].children.len() {
        let c = s[e].children[k] as int;
        if e < c < s.len() {
            let sub = flat_from(s, c, par, pos, reg);
            if t < sub.len() {
                lemma_flat_from_registered(s, c, par, pos, reg, t, j);
            } else {
                lemma_flat_kids_registered(s, e, k + 1, par, pos + sub.len(), reg, t
                    - sub.len(), j);
            }
        } else {
            lemma_flat_kids_registered(s, e, k + 1, par, pos, reg, t, j);
        }
    }
}

proof fn lemma_flat_from_registered(
    s: Seq<SlotModel>,
    e: int,
    par: Option<usize>,
    pos: int,
    reg: Map<Seq<u8>, PayloadKind>,
    t: int,
    j: int,
)
    requires
        0 <= t < flat_from(s, e, par, pos, reg).len(),
        0 <= j < flat_from(s, e, par, pos, reg)[t].comps.len(),
    ensures
        reg.contains_key(flat_from(s, e, par, pos, reg)[t].comps[j].name),
    decreases s.len() - e, 1int, 0int,
{
    let f = flat_from(s, e, par, pos, reg);
    if 0 <= e < s.len() && s[e].live {
        if t == 0 {
            lemma_comps_model_wf(s[e].comps, reg);
        } else {
            lemma_flat_kids_registered(s, e, 0, Some((pos as usize)), pos + 1, reg, t - 1, j);
        }
    }
}

/// A component reference that was dropped while resolving a parsed snapshot
/// against a registry: the record's position and the unknown type name.
pub struct SkippedComponent {
    pub entry: usize,
    pub name: Vec<u8>,
}

/// Model of a skipped component reference.
#[verifier::ext_equal]
pub struct SkippedModel {
    pub entry: usize,
    pub name: Seq<u8>,
}

impl View for SkippedComponent {
    type V = SkippedModel;

    open spec fn view(&self) -> SkippedModel {
        SkippedModel { entry: self.entry, name: self.name@ }
    }
}

/// The components of a record whose types the registry knows, in order.
pub open spec fn known_comps(cs: Seq<CompDataModel>, reg: Map<Seq<u8>, PayloadKind>) -> Seq<
    CompDataModel,
>
    decreases cs.len(),
{
    if cs.len() == 0 {
        Seq::empty()
    } else {
        known_comps(cs.drop_last(), reg) + (if reg.contains_key(cs.last().name) {
            seq![cs.last()]
        } else {
            Seq::empty()
        })
    }
}

/// The unknown type references of record `idx`, in order.
pub open spec fn unknown_in_entry(
    idx: usize,
    cs: Seq<CompDataModel>,
    reg: Map<Seq<u8>, PayloadKind>,
) -> Seq<SkippedModel>
    decreases cs.len(),
{
    if cs.len() == 0 {
        Seq::empty()
    } else {
        unknown_in_entry(idx, cs.drop_last(), reg) + (if reg.contains_key(cs.last().name) {
            Seq::empty()
        } else {
            seq![SkippedModel { entry: idx, name: cs.last().name }]
        })
    }
}

/// All unknown type references of a snapshot, in record order.
pub open spec fn unknown_in_snap(s: Seq<EntryModel>, reg: Map<Seq<u8>, PayloadKind>) -> Seq<
    SkippedModel,
>
    decreases s.len(),
{
    if s.len() == 0 {
        Seq::empty()
    } else {
        unknown_in_snap(s.drop_last(), reg) + unknown_in_entry(
            (s.len() - 1) as usize,
            s.last().comps,
            reg,
        )
    }
}

/// The snapshot with every unknown component reference dropped.
pub open spec fn filter_known(s: Seq<EntryModel>, reg: Map<Seq<u8>, PayloadKind>) -> Seq<
    EntryModel,
> {
    Seq::new(
        s.len(),
        |i: int| EntryModel { parent: s[i].parent, comps: known_comps(s[i].comps, reg) },
    )
}

/// The deep model of a skipped-reference vector.
pub open spec fn skipped_vm(v: Seq<SkippedComponent>) -> Seq<SkippedModel> {
    v.map_values(|x: SkippedComponent| x@)
}

/// Resolves a parsed snapshot against the registry in use. Type names
/// absent from the registry are either surfaced one by one while their
/// components are dropped (`skip_unknown`), or abort the load with
/// `UnknownTypeReference`; the policy is the caller's.
pub fn resolve_types(snap: Snapshot, registry: &TypeRegistry, skip_unknown: bool) -> (r: Result<
    (Snapshot, Vec<SkippedComponent>),
    SceneError,
>)
    requires
        registry.wf(),
        snapshot_wf(snap@),
    ensures
        match r {
            Ok((resolved, skipped)) => {
                &&& resolved@ == filter_known(snap@, registry@)
                &&& skipped_vm(skipped@) == unknown_in_snap(snap@, registry@)
                &&& snapshot_wf(resolved@)
                &&& (!skip_unknown ==> skipped@.len() == 0 && unknown_in_snap(snap@, registry@)
                    == Seq::<SkippedModel>::empty() && resolved@ == snap@)
            },
            Err(e) => {
                &&& e == SceneError::UnknownTypeReference
                &&& !skip_unknown
                &&& unknown_in_snap(snap@, registry@).len() > 0
            },
        },
{
    let ghost reg = registry@;
    let n: usize = snap.entries.len();
    let mut out: Vec<SnapshotEntry> = Vec::new();
    let mut skipped: Vec<SkippedComponent> = Vec::new();
    let mut i: usize = 0;
    proof {
        assert(unknown_in_snap(snap@.take(0), reg) =~= Seq::<SkippedModel>::empty());
        assert(skipped_vm(skipped@) =~= Seq::<SkippedModel>::empty());
        assert(entries_vm(out@) =~= filter_known(snap@.take(0), reg));
    }
    while i < n
        invariant
            0 <= i <= n,
            registry.wf(),
            reg == registry@,
            snapshot_wf(snap@),
            n == snap@.len(),
            n == snap.entries@.len(),
            entries_vm(out@) == filter_known(snap@.take(i as int), reg),
            out@.len() == i,
            skipped_vm(skipped@) == unknown_in_snap(snap@.take(i as int), reg),
            !skip_unknown ==> skipped@.len() == 0,
        decreases n - i,
    {
        let ghost em = snap@[i as int];
        let m: usize = snap.entries[i].components.len();
        let mut comps: Vec<ComponentData> = Vec::new();
        let mut j: usize = 0;
        proof {
            assert(entries_cm(comps@) =~= known_comps(em.comps.take(0), reg));
            assert(unknown_in_entry(i, em.comps.take(0), reg) =~= Seq::<SkippedModel>::empty());
        }
        let ghost skipped_at_entry = skipped_vm(skipped@);
        while j < m
            invariant
                0 <= j <= m,
                0 <= i < n,
                registry.wf(),
                reg == registry@,
                snapshot_wf(snap@),
                n == snap@.len(),
                n == snap.entries@.len(),
                em == snap@[i as int],
                m == snap.entries@[i as int].components@.len(),
                m == em.comps.len(),
                entries_cm(comps@) == known_comps(em.comps.take(j as int), reg),
                skipped_vm(skipped@) == skipped_at_entry + unknown_in_entry(
                    i,
                    em.comps.take(j as int),
                    reg,
                ),
                !skip_unknown ==> skipped@.len() == 0 && skipped_at_entry
                    == Seq::<SkippedModel>::empty(),
            decreases m - j,
        {
            let ghost cm = em.comps[j as int];
            let ghost cs_pre = entries_cm(comps@);
            let ghost sk_pre = skipped_vm(skipped@);
            let known = registry.has(snap.entries[i].components[j].name.as_slice());
            proof {
                assert(cm == snap.entries@[i as int].components@[j as int]@);
                assert(em.comps.take(j + 1).drop_last() =~= em.comps.take(j as int));
                assert(em.comps.take(j + 1).last() == cm);
            }
            if known {
                let name = vstd::slice::slice_to_vec(
                    snap.entries[i].components[j].name.as_slice(),
                );
                let data = vstd::slice::slice_to_vec(
                    snap.entries[i].components[j].data.as_slice(),
                );
                comps.push(ComponentData { name, data });
                proof {
                    assert(entries_cm(comps@) =~= cs_pre.push(cm));
                    assert(entries_cm(comps@) =~= known_comps(em.comps.take(j + 1), reg));
                    assert(skipped_vm(skipped@) =~= skipped_at_entry + unknown_in_entry(
                        i,
                        em.comps.take(j + 1),
                        reg,
                    ));
                }
            } else {
                if !skip_unknown {
                    proof {
                        assert(unknown_in_snap(snap@, reg).len() > 0) by {
                            lemma_unknown_nonempty(snap@, reg, i as int, j as int);
                        }
                    }
                    return Err(SceneError::UnknownTypeReference);
                }
                let name = vstd::slice::slice_to_vec(
                    snap.entries[i].components[j].name.as_slice(),
                );
                skipped.push(SkippedComponent { entry: i, name });
                proof {
                    assert(skipped_vm(skipped@) =~= sk_pre.push(
                        SkippedModel { entry: i, name: cm.name },
                    ));
                    assert(unknown_in_entry(i, em.comps.take(j + 1), reg) == unknown_in_entry(
                        i,
                        em.comps.take(j as int),
                        reg,
                    ) + seq![SkippedModel { entry: i, name: cm.name }]);
                    assert(skipped_vm(skipped@) =~= skipped_at_entry + unknown_in_entry(
                        i,
                        em.comps.take(j + 1),
                        reg,
                    ));
                    assert(entries_cm(comps@) =~= known_comps(em.comps.take(j + 1), reg));
                }
            }
            j = j + 1;
        }
        out.push(SnapshotEntry { parent: snap.entries[i].parent, components: comps });
        proof {
            assert(em.comps.take(m as int) =~= em.comps);
            assert(entries_vm(out@) =~= filter_known(snap@.take(i as int), reg).push(
                EntryModel { parent: em.parent, comps: known_comps(em.comps, reg) },
            ));
            assert(entries_vm(out@) =~= filter_known(snap@.take(i + 1), reg)) by {
                assert(forall|t: int|
                    0 <= t < i ==> filter_known(snap@.take(i + 1), reg)[t] == #[trigger] filter_known(
                        snap@.take(i as int),
                        reg,
                    )[t]);
                assert(filter_known(snap@.take(i + 1), reg)[i as int] == EntryModel {
                    parent: em.parent,
                    comps: known_comps(em.comps, reg),
                });
            }
            assert(snap@.take(i + 1).drop_last() =~= snap@.take(i as int));
            assert(snap@.take(i + 1).last() == em);
            assert(skipped_vm(skipped@) =~= unknown_in_snap(snap@.take(i + 1), reg));
        }
        i = i + 1;
    }
    proof {
        assert(snap@.take(n as int) =~= snap@);
        let f = filter_known(snap@, reg);
        assert forall|t: int| 0 <= t < f.len() implies #[trigger] entry_wf(f[t], t) by {
            assert(entry_wf(snap@[t], t));
            lemma_known_comps_sub(snap@[t].comps, reg);
        }
        if !skip_unknown {
            assert(unknown_in_snap(snap@, reg).len() == 0);
            lemma_filter_known_id(snap@, reg);
        }
    }
    Ok((Snapshot { entries: out }, skipped))
}

/// Helper fact: an unknown reference at a specific position makes the
/// snapshot's unknown list non-empty.
proof fn lemma_unknown_nonempty(
    s: Seq<EntryModel>,
    reg: Map<Seq<u8>, PayloadKind>,
    i: int,
    j: int,
)
    requires
        0 <= i < s.len(),
        0 <= j < s[i].comps.len(),
        !reg.contains_key(s[i].comps[j].name),
    ensures
        unknown_in_snap(s, reg).len() > 0,
    decreases s.len(),
{
    if i == s.len() - 1 {
        lemma_unknown_entry_nonempty(
            (s.len() - 1) as usize,
            s.last().comps,
            reg,
            j,
        );
    } else {
        assert(s.drop_last()[i] == s[i]);
        lemma_unknown_nonempty(s.drop_last(), reg, i, j);
    }
}

proof fn lemma_unknown_entry_nonempty(
    idx: usize,
    cs: Seq<CompDataModel>,
    reg: Map<Seq<u8>, PayloadKind>,
    j: int,
)
    requires
        0 <= j < cs.len(),
        !reg.contains_key(cs[j].name),
    ensures
        unknown_in_entry(idx, cs, reg).len() > 0,
    decreases cs.len(),
{
    if j == cs.len() - 1 {
    } else {
        assert(cs.drop_last()[j] == cs[j]);
        lemma_unknown_entry_nonempty(idx, cs.drop_last(), reg, j);
    }
}

/// The known components of a record are a subset of its components, with
/// names and bounds preserved.
proof fn lemma_known_comps_sub(cs: Seq<CompDataModel>, reg: Map<Seq<u8>, PayloadKind>)
    ensures
        forall|t: int|
            0 <= t < known_comps(cs, reg).len() ==> exists|u: int|
                0 <= u < cs.len() && #[trigger] known_comps(cs, reg)[t] == cs[u],
    decreases cs.len(),
{
    if cs.len() > 0 {
        lemma_known_comps_sub(cs.drop_last(), reg);
        assert forall|t: int| 0 <= t < known_comps(cs, reg).len() implies exists|u: int|
            0 <= u < cs.len() && #[trigger] known_comps(cs, reg)[t] == cs[u] by {
            let kc = known_comps(cs, reg);
            let kcp = known_comps(cs.drop_last(), reg);
            if t < kcp.len() {
                assert(kc[t] == kcp[t]);
                let u = choose|u: int|
                    0 <= u < cs.drop_last().len() && #[trigger] kcp[t] == cs.drop_last()[u];
                assert(cs.drop_last()[u] == cs[u]);
                assert(kc[t] == cs[u]);
            } else {
                assert(kc[t] == cs.last());
                assert(kc[t] == cs[cs.len() - 1]);
            }
        }
    }
}

/// With no unknown references in a record, filtering keeps every component.
proof fn lemma_known_comps_all(idx: usize, cs: Seq<CompDataModel>, reg: Map<Seq<u8>, PayloadKind>)
    requires
        unknown_in_entry(idx, cs, reg).len() == 0,
    ensures
        known_comps(cs, reg) == cs,
    decreases cs.len(),
{
    if cs.len() > 0 {
        lemma_known_comps_all(idx, cs.drop_last(), reg);
        assert(reg.contains_key(cs.last().name));
        assert(known_comps(cs, reg) =~= cs);
    }
}

/// A snapshot with no unknown references is left whole by filtering.
pub proof fn lemma_filter_known_id(s: Seq<EntryModel>, reg: Map<Seq<u8>, PayloadKind>)
    requires
        unknown_in_snap(s, reg).len() == 0,
    ensures
        filter_known(s, reg) == s,
    decreases s.len(),
{
    if s.len() > 0 {
        lemma_filter_known_id(s.drop_last(), reg);
        lemma_known_comps_all((s.len() - 1) as usize, s.last().comps, reg);
        assert forall|t: int| 0 <= t < s.len() implies #[trigger] filter_known(s, reg)[t]
            == s[t] by {
            if t < s.len() - 1 {
                assert(filter_known(s.drop_last(), reg)[t] == s.drop_last()[t]);
                assert(s.drop_last()[t] == s[t]);
                assert(known_comps(s.drop_last()[t].comps, reg) == s.drop_last()[t].comps);
            } else {
                assert(known_comps(s[t].comps, reg) == s[t].comps);
            }
        }
        assert(filter_known(s, reg) =~= s);
    } else {
        assert(filter_known(s, reg) =~= s);
    }
}

/// Builds a snapshot of the descendants of `root`: depth-first, in child
/// insertion order, the root itself excluded; components whose type is not
/// in `registry` are omitted, entities with no includable component still
/// appear. Fails with `SerializationError` exactly when some component of
/// the subtree is registered with a shape other than its payload's.
pub fn extract(store: &EntityStore, root: EntityId, registry: &TypeRegistry) -> (r: Result<
    Snapshot,
    SceneError,
>)
    requires
        store.wf(),
        valid_id(store@, root),
        registry.wf(),
    ensures
        match r {
            Ok(snap) => {
                &&& kids_ok(store@, root.index as int, 0, registry@)
                &&& snap@ == extract_model(store@, root.index as int, registry@)
            },
            Err(e) => e == SceneError::SerializationError && !kids_ok(
                store@,
                root.index as int,
                0,
                registry@,
            ),
        },
{
    let mut entries: Vec<SnapshotEntry> = Vec::new();
    match extract_children(store, root.index, None, registry, &mut entries) {
        Ok(_) => {
            let snap = Snapshot { entries };
            proof {
                assert(snap@ =~= extract_model(store@, root.index as int, registry@));
            }
            Ok(snap)
        },
        Err(e) => Err(e),
    }
}

} // verus!
