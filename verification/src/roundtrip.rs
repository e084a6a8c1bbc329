//! The structural round trip: extracting, persisting, parsing and
//! instantiating a subtree reproduces it exactly.
//!
//! The byte-level halves are proved with the format (`parse` after `render`)
//! and the payload codec (decode after encode, and back). This module proves
//! the store-level half: instantiating a depth-first snapshot and
//! re-extracting the new subtree yields the very same snapshot. The three
//! together give the round-trip theorem at the end of the module.

use vstd::prelude::*;

use crate::instantiate::{
    comps_decodable, fold_comps, inst_model, lemma_inst_model_snoc, snap_decodable, spawn_with,
};
use crate::payload::{dec_payload, PayloadKind};
use crate::snapshot::{
    comps_model, dfs_ordered, entry_of, entry_wf, extract_model, flat_from, flat_kids,
    snap_ancestor, snap_unique_names, snapshot_wf, CompDataModel, EntryModel, FlatNode,
};
use crate::store::{store_slot_wf, store_wf, CompModel, SlotModel};

verus! {

/// Indices never increase along a parent walk.
proof fn lemma_in_subtree_le(s: Seq<SlotModel>, i: int, r: int)
    requires
        crate::store::in_subtree(s, i, r),
    ensures
        r <= i,
    decreases i,
{
    if i != r {
        lemma_in_subtree_le(s, s[i].parent->0 as int, r);
    }
}

/// A parent walk that reaches a child keeps walking to its parent.
proof fn lemma_in_subtree_step_up(s: Seq<SlotModel>, q: int, c: int, e: int)
    requires
        store_wf(s),
        s.len() <= usize::MAX,
        crate::store::in_subtree(s, q, c),
        0 <= c < s.len(),
        s[c].live,
        s[c].parent == Some((e as usize)),
        0 <= e < c,
        s[e].live,
    ensures
        crate::store::in_subtree(s, q, e),
    decreases q,
{
    if q == e {
    } else if q == c {
        assert(s[c].parent->0 as int == e);
        assert(crate::store::in_subtree(s, e, e));
    } else {
        lemma_in_subtree_step_up(s, s[q].parent->0 as int, c, e);
    }
}

/// Subtrees of two distinct children of one entity are disjoint.
proof fn lemma_children_subtrees_disjoint(s: Seq<SlotModel>, q: int, c1: int, c2: int, e: int)
    requires
        store_wf(s),
        s.len() <= usize::MAX,
        0 <= e < s.len(),
        0 <= c1 < s.len(),
        0 <= c2 < s.len(),
        c1 != c2,
        s[c1].live,
        s[c2].live,
        s[c1].parent == Some((e as usize)),
        s[c2].parent == Some((e as usize)),
        e < c1,
        e < c2,
        crate::store::in_subtree(s, q, c1),
    ensures
        !crate::store::in_subtree(s, q, c2),
    decreases q,
{
    if crate::store::in_subtree(s, q, c2) {
        if q == c1 {
            // The walk from c1 reaches e and then only smaller indices, so it
            // cannot reach c2.
            assert(s[c1].parent->0 as int == e);
            assert(crate::store::in_subtree(s, e, c2));
            lemma_in_subtree_le(s, e, c2);
        } else if q == c2 {
            assert(s[c2].parent->0 as int == e);
            assert(crate::store::in_subtree(s, e, c1));
            lemma_in_subtree_le(s, e, c1);
        } else {
            lemma_children_subtrees_disjoint(s, s[q].parent->0 as int, c1, c2, e);
        }
    }
}

/// Whether `q` lies on the rightmost spine of `e`'s subtree: `e` itself, or
/// on the rightmost spine of `e`'s last child.
pub open spec fn on_spine(s: Seq<SlotModel>, e: int, q: int) -> bool
    decreases s.len() - e,
{
    if e == q {
        true
    } else if 0 <= e < s.len() && s[e].children.len() > 0 && e < (s[e].children.last() as int)
        < s.len() {
        on_spine(s, s[e].children.last() as int, q)
    } else {
        false
    }
}

/// A spine node lies in the subtree.
proof fn lemma_spine_in_subtree(s: Seq<SlotModel>, e: int, q: int)
    requires
        store_wf(s),
        s.len() <= usize::MAX,
        0 <= e < s.len(),
        s[e].live,
        on_spine(s, e, q),
    ensures
        crate::store::in_subtree(s, q, e),
        0 <= q < s.len(),
        s[q].live,
    decreases s.len() - e,
{
    if e == q {
    } else {
        let lc = s[e].children.last() as int;
        assert(store_slot_wf(s, e));
        assert(s[e].children[s[e].children.len() - 1] == s[e].children.last());
        lemma_spine_in_subtree(s, lc, q);
        lemma_in_subtree_step_up(s, q, lc, e);
    }
}

/// Attaching records one by one keeps type names unique.
proof fn lemma_fold_comps_unique(cs: Seq<CompDataModel>, reg: Map<Seq<u8>, PayloadKind>)
    ensures
        forall|j1: int, j2: int|
            0 <= j1 < j2 < fold_comps(cs, reg).len() ==> (#[trigger] fold_comps(cs, reg)[j1]).name
                != (#[trigger] fold_comps(cs, reg)[j2]).name,
    decreases cs.len(),
{
    if cs.len() > 0 {
        lemma_fold_comps_unique(cs.drop_last(), reg);
        let prev = fold_comps(cs.drop_last(), reg);
        let nm = cs.last().name;
        let p = dec_payload(reg[nm], cs.last().data)->0;
        let now = fold_comps(cs, reg);
        if crate::store::has_comp(prev, nm) {
            let jj = crate::store::comp_index_of(prev, nm);
            assert(0 <= jj < prev.len() && prev[jj].name == nm);
            assert(now == prev.update(jj, CompModel { name: nm, payload: p }));
            assert forall|j1: int, j2: int| 0 <= j1 < j2 < now.len() implies (
            #[trigger] now[j1]).name != (#[trigger] now[j2]).name by {
                assert(now[j1].name == prev[j1].name);
                assert(now[j2].name == prev[j2].name);
            }
        } else {
            assert(now == prev.push(CompModel { name: nm, payload: p }));
            assert forall|j1: int, j2: int| 0 <= j1 < j2 < now.len() implies (
            #[trigger] now[j1]).name != (#[trigger] now[j2]).name by {
                assert(now[j1] == prev[j1]);
                if j2 == now.len() - 1 {
                    assert(now[j2].name == nm);
                    if prev[j1].name == nm {
                        assert(crate::store::has_comp(prev, nm));
                    }
                } else {
                    assert(now[j2] == prev[j2]);
                }
            }
        }
    }
}

/// Spawning a fresh child of a live slot preserves store well-formedness.
proof fn lemma_spawn_with_wf(s: Seq<SlotModel>, p: int, comps: Seq<CompModel>)
    requires
        store_wf(s),
        s.len() < usize::MAX,
        0 <= p < s.len(),
        s[p].live,
        forall|j1: int, j2: int|
            0 <= j1 < j2 < comps.len() ==> (#[trigger] comps[j1]).name != (
            #[trigger] comps[j2]).name,
    ensures
        store_wf(spawn_with(s, p, comps)),
        spawn_with(s, p, comps).len() == s.len() + 1,
{
    let n = s.len() as int;
    let now = spawn_with(s, p, comps);
    assert(now.len() == s.len() + 1);
    assert(now[n] == SlotModel {
        live: true,
        generation: s.len() as u64,
        parent: Some((p as usize)),
        children: Seq::empty(),
        comps,
    });
    assert(now[p] == SlotModel {
        children: s[p].children.push((s.len() as usize)),
        ..s[p]
    });
    assert(forall|j: int| 0 <= j < n && j != p ==> #[trigger] now[j] == s[j]);
    assert(forall|j: int|
        0 <= j < n ==> (#[trigger] now[j]).live == s[j].live && now[j].parent == s[j].parent
            && now[j].comps == s[j].comps);
    assert(store_slot_wf(s, p));
    assert forall|i: int| 0 <= i < now.len() implies #[trigger] store_slot_wf(now, i) by {
        if i == n {
            assert(now[p].children.contains((n as usize))) by {
                assert(now[p].children.last() == (n as usize));
            }
            assert(store_slot_wf(now, i));
        } else {
            assert(store_slot_wf(s, i));
            if now[i].live {
                let ch = now[i].children;
                assert forall|k: int| 0 <= k < ch.len() implies ({
                    let c = (#[trigger] ch[k]) as int;
                    &&& i < c < now.len()
                    &&& now[c].live
                    &&& now[c].parent == Some((i as usize))
                }) by {
                    if i == p && k == ch.len() - 1 {
                        assert(ch[k] == (n as usize));
                    } else {
                        if i == p {
                            assert(ch[k] == s[p].children[k]);
                        } else {
                            assert(ch == s[i].children);
                        }
                        let c = ch[k] as int;
                        assert(i < c < s.len());
                        assert(now[c].live == s[c].live && now[c].parent == s[c].parent);
                    }
                }
                assert forall|k1: int, k2: int| 0 <= k1 < k2 < ch.len() implies #[trigger] ch[k1]
                    != #[trigger] ch[k2] by {
                    if i == p {
                        assert(ch[k1] == s[p].children[k1]);
                        assert((ch[k1] as int) < s.len());
                        if k2 == ch.len() - 1 {
                            assert(ch[k2] == (n as usize));
                        } else {
                            assert(ch[k2] == s[p].children[k2]);
                        }
                    } else {
                        assert(ch == s[i].children);
                    }
                }
                if now[i].parent is Some {
                    let pp = now[i].parent->0 as int;
                    assert(s[pp].children.contains((i as usize)));
                    if pp == p {
                        let k = choose|kk: int|
                            0 <= kk < s[pp].children.len() && s[pp].children[kk] == (i as usize);
                        assert(now[pp].children[k] == (i as usize));
                        assert(now[pp].children.contains((i as usize)));
                    } else {
                        assert(now[pp].children == s[pp].children);
                    }
                }
                assert(store_slot_wf(now, i));
            }
        }
    }
}

/// Flattening is untouched by changes outside the subtree: a store that
/// agrees on everything but slot `q`'s child list and a fresh slot beyond
/// the old length flattens the subtree of `e` identically when `q` is not
/// in it.
proof fn lemma_flat_frame_from(
    s: Seq<SlotModel>,
    s2: Seq<SlotModel>,
    q: int,
    e: int,
    par: Option<usize>,
    pos: int,
    reg: Map<Seq<u8>, PayloadKind>,
)
    requires
        store_wf(s),
        s.len() <= usize::MAX,
        s2.len() == s.len() + 1,
        forall|j: int| 0 <= j < s.len() && j != q ==> #[trigger] s2[j] == s[j],
        0 <= q < s.len(),
        s2[q].live == s[q].live,
        s2[q].parent == s[q].parent,
        s2[q].comps == s[q].comps,
        0 <= e < s.len(),
        s[e].live,
        !crate::store::in_subtree(s, q, e),
    ensures
        flat_from(s2, e, par, pos, reg) == flat_from(s, e, par, pos, reg),
    decreases s.len() - e, 1int,
{
    assert(q != e);
    assert(s2[e] == s[e]);
    lemma_flat_frame_kids(s, s2, q, e, 0, Some((pos as usize)), pos + 1, reg);
}

proof fn lemma_flat_frame_kids(
    s: Seq<SlotModel>,
    s2: Seq<SlotModel>,
    q: int,
    e: int,
    k: int,
    par: Option<usize>,
    pos: int,
    reg: Map<Seq<u8>, PayloadKind>,
)
    requires
        store_wf(s),
        s.len() <= usize::MAX,
        s2.len() == s.len() + 1,
        forall|j: int| 0 <= j < s.len() && j != q ==> #[trigger] s2[j] == s[j],
        0 <= q < s.len(),
        s2[q].live == s[q].live,
        s2[q].parent == s[q].parent,
        s2[q].comps == s[q].comps,
        0 <= e < s.len(),
        s[e].live,
        q != e,
        !crate::store::in_subtree(s, q, e),
    ensures
        flat_kids(s2, e, k, par, pos, reg) == flat_kids(s, e, k, par, pos, reg),
    decreases s.len() - e, 0int, s[e].children.len() - k,
{
    assert(s2[e] == s[e]);
    assert(store_slot_wf(s, e));
    if 0 <= k < s[e].children.len() {
        let c = s[e].children[k] as int;
        assert(s[e].children[k] == s2[e].children[k]);
        if e < c < s.len() {
            assert(s[c].live && s[c].parent == Some((e as usize)));
            assert(!crate::store::in_subtree(s, q, c)) by {
                if crate::store::in_subtree(s, q, c) {
                    lemma_in_subtree_step_up(s, q, c, e);
                }
            }
            lemma_flat_frame_from(s, s2, q, c, par, pos, reg);
            let sub = flat_from(s, c, par, pos, reg);
            lemma_flat_frame_kids(s, s2, q, e, k + 1, par, pos + sub.len(), reg);
        } else {
            lemma_flat_frame_kids(s, s2, q, e, k + 1, par, pos, reg);
        }
    }
}

/// The flat form of a freshly spawned, childless slot is its single node.
proof fn lemma_flat_new_leaf(
    s: Seq<SlotModel>,
    s2: Seq<SlotModel>,
    q: int,
    comps: Seq<CompModel>,
    par: Option<usize>,
    pos: int,
    reg: Map<Seq<u8>, PayloadKind>,
)
    requires
        s.len() < usize::MAX,
        0 <= q < s.len(),
        s2 == spawn_with(s, q, comps),
    ensures
        flat_from(s2, s.len() as int, par, pos, reg) == seq![
            FlatNode {
                id: (s.len() as usize),
                parent: par,
                comps: comps_model(comps, reg),
            },
        ],
{
    let n = s.len() as int;
    assert(s2[n].children.len() == 0);
    assert(flat_kids(s2, n, 0, Some((pos as usize)), pos + 1, reg) == Seq::<FlatNode>::empty());
    assert(flat_from(s2, n, par, pos, reg) =~= seq![
        FlatNode { id: (s.len() as usize), parent: par, comps: comps_model(comps, reg) },
    ]);
}

/// Appending a child to `q` adds exactly one node, at the very end of `q`'s
/// flattened child list.
proof fn lemma_append_kids_at_q(
    s: Seq<SlotModel>,
    s2: Seq<SlotModel>,
    q: int,
    comps: Seq<CompModel>,
    k: int,
    pp: Option<usize>,
    pos: int,
    reg: Map<Seq<u8>, PayloadKind>,
)
    requires
        store_wf(s),
        s.len() < usize::MAX,
        s2 == spawn_with(s, q, comps),
        0 <= q < s.len(),
        s[q].live,
        0 <= k <= s[q].children.len(),
    ensures
        flat_kids(s2, q, k, pp, pos, reg) == flat_kids(s, q, k, pp, pos, reg) + seq![
            FlatNode {
                id: (s.len() as usize),
                parent: pp,
                comps: comps_model(comps, reg),
            },
        ],
    decreases s.len() - q, 0int, s[q].children.len() - k + 1,
{
    let n = s.len() as int;
    let node = FlatNode { id: (s.len() as usize), parent: pp, comps: comps_model(comps, reg) };
    assert(s2[q].children == s[q].children.push((s.len() as usize)));
    assert(store_slot_wf(s, q));
    if k == s[q].children.len() {
        // Only the fresh child remains.
        assert(s2[q].children[k] == (s.len() as usize));
        assert(flat_kids(s, q, k, pp, pos, reg) == Seq::<FlatNode>::empty());
        lemma_flat_new_leaf(s, s2, q, comps, pp, pos, reg);
        assert(flat_kids(s2, q, k + 1, pp, pos + 1, reg) == Seq::<FlatNode>::empty());
        assert(flat_kids(s2, q, k, pp, pos, reg) =~= Seq::<FlatNode>::empty() + seq![node]);
        assert(flat_kids(s2, q, k, pp, pos, reg) =~= flat_kids(s, q, k, pp, pos, reg) + seq![
            node,
        ]);
    } else {
        let c = s[q].children[k] as int;
        assert(s2[q].children[k] == s[q].children[k]);
        assert(q < c < s.len() && s[c].live);
        assert(!crate::store::in_subtree(s, q, c)) by {
            if crate::store::in_subtree(s, q, c) {
                lemma_in_subtree_le(s, q, c);
            }
        }
        lemma_flat_frame_from(s, s2, q, c, pp, pos, reg);
        let sub = flat_from(s, c, pp, pos, reg);
        lemma_append_kids_at_q(s, s2, q, comps, k + 1, pp, pos + sub.len(), reg);
        assert(flat_kids(s2, q, k, pp, pos, reg) =~= flat_kids(s, q, k, pp, pos, reg) + seq![
            node,
        ]);
    }
}

/// Appending a child to a node on the rightmost spine of `e` extends `e`'s
/// flat form by exactly one node at the end, whose parent reference is the
/// position of the spine node.
proof fn lemma_flat_append_from(
    s: Seq<SlotModel>,
    s2: Seq<SlotModel>,
    q: int,
    comps: Seq<CompModel>,
    e: int,
    par: Option<usize>,
    pos: int,
    reg: Map<Seq<u8>, PayloadKind>,
)
    requires
        store_wf(s),
        s.len() < usize::MAX,
        s2 == spawn_with(s, q, comps),
        0 <= q < s.len(),
        s[q].live,
        0 <= e < s.len(),
        s[e].live,
        on_spine(s, e, q),
        0 <= pos,
        pos + flat_from(s, e, par, pos, reg).len() <= usize::MAX,
    ensures
        exists|t: int|
            {
                &&& 0 <= t < flat_from(s, e, par, pos, reg).len()
                &&& (#[trigger] flat_from(s, e, par, pos, reg)[t]).id == (q as usize)
                &&& flat_from(s2, e, par, pos, reg) == flat_from(s, e, par, pos, reg) + seq![
                    FlatNode {
                        id: (s.len() as usize),
                        parent: Some(((pos + t) as usize)),
                        comps: comps_model(comps, reg),
                    },
                ]
            },
    decreases s.len() - e, 1int, 0int,
{
    let f = flat_from(s, e, par, pos, reg);
    let f2 = flat_from(s2, e, par, pos, reg);
    assert(f == seq![
        FlatNode { id: (e as usize), parent: par, comps: comps_model(s[e].comps, reg) },
    ] + flat_kids(s, e, 0, Some((pos as usize)), pos + 1, reg));
    if e == q {
        lemma_append_kids_at_q(s, s2, q, comps, 0, Some((pos as usize)), pos + 1, reg);
        let node = FlatNode {
            id: (s.len() as usize),
            parent: Some((pos as usize)),
            comps: comps_model(comps, reg),
        };
        assert(s2[e].live == s[e].live && s2[e].comps == s[e].comps);
        assert(f2 =~= f + seq![node]);
        assert(f[0].id == (q as usize));
        assert(0 <= 0 < f.len() && f[0].id == (q as usize) && f2 == f + seq![
            FlatNode {
                id: (s.len() as usize),
                parent: Some(((pos + 0) as usize)),
                comps: comps_model(comps, reg),
            },
        ]);
    } else {
        assert(s[e].children.len() > 0 && e < (s[e].children.last() as int) < s.len());
        assert(s2[e] == s[e]);
        lemma_append_kids_spine(s, s2, q, comps, e, 0, Some((pos as usize)), pos + 1, reg);
        let fk = flat_kids(s, e, 0, Some((pos as usize)), pos + 1, reg);
        let tk = choose|t: int|
            {
                &&& 0 <= t < fk.len()
                &&& (#[trigger] fk[t]).id == (q as usize)
                &&& flat_kids(s2, e, 0, Some((pos as usize)), pos + 1, reg) == fk + seq![
                    FlatNode {
                        id: (s.len() as usize),
                        parent: Some(((pos + 1 + t) as usize)),
                        comps: comps_model(comps, reg),
                    },
                ]
            };
        assert(f[1 + tk].id == (q as usize));
        assert(f2 =~= f + seq![
            FlatNode {
                id: (s.len() as usize),
                parent: Some(((pos + (1 + tk)) as usize)),
                comps: comps_model(comps, reg),
            },
        ]);
        assert(0 <= 1 + tk < f.len() && f[1 + tk].id == (q as usize));
    }
}

/// The same, for the flattened subtrees of the children of `e` from the
/// `k`-th on, when the spine runs through `e`'s last child.
proof fn lemma_append_kids_spine(
    s: Seq<SlotModel>,
    s2: Seq<SlotModel>,
    q: int,
    comps: Seq<CompModel>,
    e: int,
    k: int,
    pp: Option<usize>,
    pos: int,
    reg: Map<Seq<u8>, PayloadKind>,
)
    requires
        store_wf(s),
        s.len() < usize::MAX,
        s2 == spawn_with(s, q, comps),
        0 <= q < s.len(),
        s[q].live,
        0 <= e < s.len(),
        s[e].live,
        e != q,
        s[e].children.len() > 0,
        e < (s[e].children.last() as int) < s.len(),
        on_spine(s, s[e].children.last() as int, q),
        0 <= k < s[e].children.len(),
        0 <= pos,
        pos + flat_kids(s, e, k, pp, pos, reg).len() <= usize::MAX,
    ensures
        exists|t: int|
            {
                &&& 0 <= t < flat_kids(s, e, k, pp, pos, reg).len()
                &&& (#[trigger] flat_kids(s, e, k, pp, pos, reg)[t]).id == (q as usize)
                &&& flat_kids(s2, e, k, pp, pos, reg) == flat_kids(s, e, k, pp, pos, reg)
                    + seq![
                    FlatNode {
                        id: (s.len() as usize),
                        parent: Some(((pos + t) as usize)),
                        comps: comps_model(comps, reg),
                    },
                ]
            },
    decreases s.len() - e, 0int, s[e].children.len() - k,
{
    let lc = s[e].children.last() as int;
    let c = s[e].children[k] as int;
    assert(store_slot_wf(s, e));
    assert(s[e].children[s[e].children.len() - 1] == s[e].children.last());
    assert(s2[e] == s[e]);
    assert(e < c < s.len() && s[c].live && s[c].parent == Some((e as usize)));
    assert(s[lc].live && s[lc].parent == Some((e as usize)));
    lemma_spine_in_subtree(s, lc, q);
    let fk = flat_kids(s, e, k, pp, pos, reg);
    if k == s[e].children.len() - 1 {
        // The last child: the spine runs through it.
        assert(c == lc);
        let sub = flat_from(s, lc, pp, pos, reg);
        assert(fk == sub + flat_kids(s, e, k + 1, pp, pos + sub.len(), reg));
        assert(flat_kids(s, e, k + 1, pp, pos + sub.len(), reg) == Seq::<FlatNode>::empty());
        assert(fk =~= sub);
        lemma_flat_append_from(s, s2, q, comps, lc, pp, pos, reg);
        let t = choose|t: int|
            {
                &&& 0 <= t < sub.len()
                &&& (#[trigger] sub[t]).id == (q as usize)
                &&& flat_from(s2, lc, pp, pos, reg) == sub + seq![
                    FlatNode {
                        id: (s.len() as usize),
                        parent: Some(((pos + t) as usize)),
                        comps: comps_model(comps, reg),
                    },
                ]
            };
        assert(flat_kids(s2, e, k + 1, pp, pos + sub.len() + 1, reg) == Seq::<
            FlatNode,
        >::empty());
        assert(flat_kids(s2, e, k, pp, pos, reg) =~= fk + seq![
            FlatNode {
                id: (s.len() as usize),
                parent: Some(((pos + t) as usize)),
                comps: comps_model(comps, reg),
            },
        ]);
        assert(fk[t].id == (q as usize));
    } else {
        // An earlier sibling: its subtree does not contain q.
        assert(c != lc) by {
            assert(s[e].children[k] != s[e].children[s[e].children.len() - 1]);
        }
        assert(!crate::store::in_subtree(s, q, c)) by {
            lemma_children_subtrees_disjoint(s, q, lc, c, e);
        }
        lemma_flat_frame_from(s, s2, q, c, pp, pos, reg);
        let sub = flat_from(s, c, pp, pos, reg);
        assert(fk == sub + flat_kids(s, e, k + 1, pp, pos + sub.len(), reg));
        lemma_append_kids_spine(s, s2, q, comps, e, k + 1, pp, pos + sub.len(), reg);
        let fk1 = flat_kids(s, e, k + 1, pp, pos + sub.len(), reg);
        let t1 = choose|t: int|
            {
                &&& 0 <= t < fk1.len()
                &&& (#[trigger] fk1[t]).id == (q as usize)
                &&& flat_kids(s2, e, k + 1, pp, pos + sub.len(), reg) == fk1 + seq![
                    FlatNode {
                        id: (s.len() as usize),
                        parent: Some(((pos + sub.len() + t) as usize)),
                        comps: comps_model(comps, reg),
                    },
                ]
            };
        let t = sub.len() + t1;
        assert(fk[t].id == (q as usize));
        assert(flat_kids(s2, e, k, pp, pos, reg) =~= fk + seq![
            FlatNode {
                id: (s.len() as usize),
                parent: Some(((pos + t) as usize)),
                comps: comps_model(comps, reg),
            },
        ]);
    }
}

/// Re-serializing the reconstructed components of a record gives back
/// exactly the record's serialized components: readers are strict, so
/// encode after decode is the identity.
proof fn lemma_fold_reencode(cs: Seq<CompDataModel>, reg: Map<Seq<u8>, PayloadKind>)
    requires
        comps_decodable(cs, reg),
        forall|j1: int, j2: int|
            0 <= j1 < j2 < cs.len() ==> (#[trigger] cs[j1]).name != (#[trigger] cs[j2]).name,
    ensures
        fold_comps(cs, reg).len() == cs.len(),
        forall|j: int| 0 <= j < cs.len() ==> (#[trigger] fold_comps(cs, reg)[j]).name == cs[j].name,
        comps_model(fold_comps(cs, reg), reg) == cs,
    decreases cs.len(),
{
    if cs.len() > 0 {
        let front = cs.drop_last();
        assert(comps_decodable(front, reg)) by {
            assert(forall|j: int| 0 <= j < front.len() ==> #[trigger] front[j] == cs[j]);
        }
        assert(forall|j1: int, j2: int|
            0 <= j1 < j2 < front.len() ==> (#[trigger] front[j1]).name != (
            #[trigger] front[j2]).name) by {
            assert(forall|j: int| 0 <= j < front.len() ==> #[trigger] front[j] == cs[j]);
        }
        lemma_fold_reencode(front, reg);
        let prev = fold_comps(front, reg);
        let nm = cs.last().name;
        assert(cs[cs.len() - 1] == cs.last());
        assert(comps_decodable(cs, reg) && 0 <= cs.len() - 1 < cs.len());
        assert(reg.contains_key(nm) && dec_payload(reg[nm], cs.last().data) is Some);
        let p = dec_payload(reg[nm], cs.last().data)->0;
        assert(!crate::store::has_comp(prev, nm)) by {
            if crate::store::has_comp(prev, nm) {
                let jj = choose|j: int|
                    0 <= j < prev.len() && (#[trigger] prev[j]).name == nm;
                assert(prev[jj].name == cs[jj].name);
                assert(cs[jj].name != cs.last().name);
            }
        }
        let now = fold_comps(cs, reg);
        assert(now == prev.push(CompModel { name: nm, payload: p }));
        assert(forall|j: int|
            0 <= j < cs.len() ==> (#[trigger] now[j]).name == cs[j].name) by {
            assert(forall|j: int| 0 <= j < prev.len() ==> #[trigger] now[j] == prev[j]);
        }
        crate::payload::lemma_enc_dec_payload(reg[nm], cs.last().data, p);
        assert(now.drop_last() =~= prev);
        assert(now.last() == CompModel { name: nm, payload: p });
        assert(comps_model(now, reg) == comps_model(prev, reg) + seq![
            CompDataModel {
                name: nm,
                data: crate::payload::enc_payload(p),
            },
        ]);
        assert(comps_model(now, reg) =~= cs);
    } else {
        assert(comps_model(fold_comps(cs, reg), reg) =~= cs);
    }
}

/// A snapshot ancestor has a position no greater than its descendant's.
proof fn lemma_snap_ancestor_le(s: Seq<EntryModel>, j: int, p: int)
    requires
        snap_ancestor(s, j, p),
    ensures
        p <= j,
    decreases j,
{
    if j != p {
        lemma_snap_ancestor_le(s, s[j].parent->0 as int, p);
    }
}

/// The ancestor walk only looks at records up to its start, so it is the
/// same in any prefix that contains them.
proof fn lemma_snap_ancestor_prefix(s: Seq<EntryModel>, m: int, j: int, p: int)
    requires
        0 <= j < m <= s.len(),
        snapshot_wf(s),
    ensures
        snap_ancestor(s.take(m), j, p) == snap_ancestor(s, j, p),
    decreases j,
{
    if j != p {
        assert(s.take(m)[j] == s[j]);
        if 0 <= j && s[j].parent is Some && 0 <= (s[j].parent->0 as int) < j {
            lemma_snap_ancestor_prefix(s, m, s[j].parent->0 as int, p);
        }
    }
}

/// Ancestry is transitive.
proof fn lemma_snap_ancestor_trans(s: Seq<EntryModel>, j: int, p: int, t: int)
    requires
        snap_ancestor(s, j, p),
        snap_ancestor(s, p, t),
    ensures
        snap_ancestor(s, j, t),
    decreases j,
{
    if j != p {
        lemma_snap_ancestor_trans(s, s[j].parent->0 as int, p, t);
    }
}

/// Spine positions only grow downward.
proof fn lemma_on_spine_le(s: Seq<SlotModel>, e: int, q: int)
    requires
        on_spine(s, e, q),
    ensures
        e <= q,
    decreases s.len() - e,
{
    if e != q {
        lemma_on_spine_le(s, s[e].children.last() as int, q);
    }
}

/// Two nodes of one rightmost spine are comparable: the one with the lower
/// index carries the other on its own spine.
proof fn lemma_on_spine_linear(s: Seq<SlotModel>, e: int, a: int, b: int)
    requires
        on_spine(s, e, a),
        on_spine(s, e, b),
        a <= b,
    ensures
        on_spine(s, a, b),
    decreases s.len() - e,
{
    if e == a {
    } else {
        lemma_on_spine_le(s, e, a);
        let lc = s[e].children.last() as int;
        assert(e < lc);
        if e == b {
            lemma_on_spine_le(s, lc, a);
        } else {
            lemma_on_spine_linear(s, lc, a, b);
        }
    }
}

/// After appending a fresh child to a spine node `q`, the spine of `e` runs
/// through the old spine down to `q` and ends at the fresh node.
proof fn lemma_spine_after_append(
    s: Seq<SlotModel>,
    s2: Seq<SlotModel>,
    q: int,
    comps: Seq<CompModel>,
    e: int,
)
    requires
        store_wf(s),
        s.len() < usize::MAX,
        s2 == spawn_with(s, q, comps),
        0 <= q < s.len(),
        s[q].live,
        0 <= e < s.len(),
        s[e].live,
        on_spine(s, e, q),
    ensures
        on_spine(s2, e, s.len() as int),
        forall|x: int| on_spine(s, e, x) && #[trigger] on_spine(s, x, q) ==> on_spine(s2, e, x),
    decreases s.len() - e,
{
    let n = s.len() as int;
    if e == q {
        assert(s2[q].children == s[q].children.push((s.len() as usize)));
        assert(s2[q].children.last() == (s.len() as usize));
        assert(s2[n].children.len() == 0);
        assert(on_spine(s2, n, n));
        assert(on_spine(s2, e, n));
        assert forall|x: int| on_spine(s, e, x) && #[trigger] on_spine(s, x, q) implies on_spine(
            s2,
            e,
            x,
        ) by {
            lemma_on_spine_le(s, e, x);
            lemma_on_spine_le(s, x, q);
            assert(x == e);
        }
    } else {
        let lc = s[e].children.last() as int;
        assert(store_slot_wf(s, e));
        assert(s[e].children[s[e].children.len() - 1] == s[e].children.last());
        assert(s[lc].live);
        lemma_spine_after_append(s, s2, q, comps, lc);
        assert(e != q && q != n);
        assert(s2[e] == s[e]) by {
            lemma_on_spine_le(s, e, q);
        }
        assert(on_spine(s2, e, n));
        assert forall|x: int| on_spine(s, e, x) && #[trigger] on_spine(s, x, q) implies on_spine(
            s2,
            e,
            x,
        ) by {
            if x == e {
                assert(on_spine(s2, e, e));
            } else {
                assert(on_spine(s, lc, x));
                assert(on_spine(s2, lc, x));
            }
        }
    }
}

/// Instantiating a depth-first snapshot under a childless live root and
/// re-flattening the root's subtree yields exactly the snapshot's records.
proof fn lemma_inst_flat(
    s: Seq<SlotModel>,
    r: int,
    entries: Seq<EntryModel>,
    reg: Map<Seq<u8>, PayloadKind>,
)
    requires
        store_wf(s),
        s.len() + entries.len() <= usize::MAX,
        0 <= r < s.len(),
        s[r].live,
        s[r].children.len() == 0,
        snapshot_wf(entries),
        snap_unique_names(entries),
        dfs_ordered(entries),
        snap_decodable(entries, reg),
    ensures
        ({
            let s2 = inst_model(s, r, s.len() as int, entries, reg);
            &&& store_wf(s2)
            &&& s2.len() == s.len() + entries.len()
            &&& (forall|j: int| 0 <= j < s.len() ==> (#[trigger] s2[j]).live == s[j].live)
            &&& (forall|t: int| 0 <= t < entries.len() ==> (#[trigger] s2[s.len() + t]).live)
            &&& flat_kids(s2, r, 0, None, 0, reg) == Seq::new(
                entries.len(),
                |t: int|
                    FlatNode {
                        id: ((s.len() + t) as usize),
                        parent: entries[t].parent,
                        comps: entries[t].comps,
                    },
            )
            &&& (forall|t: int|
                0 <= t < entries.len() && #[trigger] snap_ancestor(
                    entries,
                    entries.len() - 1,
                    t,
                ) ==> on_spine(s2, r, s.len() + t))
        }),
    decreases entries.len(),
{
    let base = s.len() as int;
    let s2 = inst_model(s, r, base, entries, reg);
    if entries.len() == 0 {
        assert(s2 == s);
        assert(flat_kids(s2, r, 0, None, 0, reg) == Seq::<FlatNode>::empty());
        assert(flat_kids(s2, r, 0, None, 0, reg) =~= Seq::new(
            entries.len(),
            |t: int|
                FlatNode {
                    id: ((s.len() + t) as usize),
                    parent: entries[t].parent,
                    comps: entries[t].comps,
                },
        ));
    } else {
        let front = entries.drop_last();
        let x = entries.last();
        let m = front.len() as int;
        assert(entries =~= front.push(x));
        assert(entries[m] == x);
        // The prefix keeps every hypothesis.
        assert(front =~= entries.take(m));
        assert(snapshot_wf(front)) by {
            assert forall|i: int| 0 <= i < front.len() implies #[trigger] entry_wf(
                front[i],
                i,
            ) by {
                assert(front[i] == entries[i]);
                assert(entry_wf(entries[i], i));
            }
        }
        assert(snap_unique_names(front)) by {
            assert(forall|i: int| 0 <= i < front.len() ==> #[trigger] front[i] == entries[i]);
        }
        assert(snap_decodable(front, reg)) by {
            assert(forall|i: int| 0 <= i < front.len() ==> #[trigger] front[i] == entries[i]);
        }
        assert(dfs_ordered(front)) by {
            assert forall|i: int|
                0 < i < front.len() && (#[trigger] front[i]).parent is Some implies snap_ancestor(
                front,
                i - 1,
                front[i].parent->0 as int,
            ) by {
                assert(front[i] == entries[i]);
                assert(snap_ancestor(entries, i - 1, entries[i].parent->0 as int));
                lemma_snap_ancestor_prefix(entries, m, i - 1, entries[i].parent->0 as int);
            }
        }
        lemma_inst_flat(s, r, front, reg);
        let s1 = inst_model(s, r, base, front, reg);
        let comps = fold_comps(x.comps, reg);
        let q: int = match x.parent {
            None => r,
            Some(j) => base + j,
        };
        lemma_inst_model_snoc(s, r, base, front, x, reg);
        assert(s2 == spawn_with(s1, q, comps));
        // The attach point is live and on the rightmost spine of the root.
        assert(entry_wf(x, m));
        assert(0 <= q < s1.len() && s1[q].live && on_spine(s1, r, q)) by {
            match x.parent {
                None => {
                    assert(s1[r].live);
                },
                Some(j) => {
                    assert((j as int) < m);
                    assert(s1[base + j].live);
                    assert(snap_ancestor(front, m - 1, (j as int))) by {
                        assert((entries[m]).parent is Some);
                        assert(snap_ancestor(entries, m - 1, entries[m].parent->0 as int));
                        lemma_snap_ancestor_prefix(entries, m, m - 1, (j as int));
                    }
                    lemma_snap_ancestor_le(front, m - 1, (j as int));
                    assert(on_spine(s1, r, base + j));
                },
            }
        }
        assert(forall|j1: int, j2: int|
            0 <= j1 < j2 < comps.len() ==> (#[trigger] comps[j1]).name != (
            #[trigger] comps[j2]).name) by {
            lemma_fold_comps_unique(x.comps, reg);
        }
        lemma_spawn_with_wf(s1, q, comps);
        // Re-encoding the attached records restores the snapshot's bytes.
        assert(comps_model(comps, reg) == x.comps) by {
            assert(comps_decodable(x.comps, reg));
            assert(forall|j1: int, j2: int|
                0 <= j1 < j2 < x.comps.len() ==> (#[trigger] x.comps[j1]).name != (
                #[trigger] x.comps[j2]).name) by {
                assert(entries[m].comps == x.comps);
            }
            lemma_fold_reencode(x.comps, reg);
        }
        let fk1 = flat_kids(s1, r, 0, None, 0, reg);
        let goal = Seq::new(
            entries.len(),
            |t: int|
                FlatNode {
                    id: ((s.len() + t) as usize),
                    parent: entries[t].parent,
                    comps: entries[t].comps,
                },
        );
        let n = s1.len() as int;
        assert(n == base + m);
        match x.parent {
            None => {
                lemma_append_kids_at_q(s1, s2, r, comps, 0, None, 0, reg);
                assert(flat_kids(s2, r, 0, None, 0, reg) =~= goal) by {
                    assert(forall|t: int|
                        0 <= t < m ==> #[trigger] fk1[t] == FlatNode {
                            id: ((s.len() + t) as usize),
                            parent: front[t].parent,
                            comps: front[t].comps,
                        });
                    assert(forall|t: int| 0 <= t < m ==> #[trigger] front[t] == entries[t]);
                }
            },
            Some(pj) => {
                assert(q != r) by {
                    assert(base + pj >= base > r);
                }
                assert(s1[r].children.len() > 0 && r < (s1[r].children.last() as int)
                    < s1.len() && on_spine(s1, s1[r].children.last() as int, q)) by {
                    assert(on_spine(s1, r, q));
                }
                assert(fk1.len() == m);
                lemma_append_kids_spine(s1, s2, q, comps, r, 0, None, 0, reg);
                let t0 = choose|t: int|
                    {
                        &&& 0 <= t < fk1.len()
                        &&& (#[trigger] fk1[t]).id == (q as usize)
                        &&& flat_kids(s2, r, 0, None, 0, reg) == fk1 + seq![
                            FlatNode {
                                id: (s1.len() as usize),
                                parent: Some(((0 + t) as usize)),
                                comps: comps_model(comps, reg),
                            },
                        ]
                    };
                assert(fk1[t0].id == ((s.len() + t0) as usize));
                assert(((s.len() + t0) as usize) == (q as usize));
                assert(base + t0 == q) by {
                    assert(s.len() + t0 <= usize::MAX);
                    assert(0 <= q <= usize::MAX);
                }
                assert(t0 == pj);
                assert(flat_kids(s2, r, 0, None, 0, reg) =~= goal) by {
                    assert(forall|t: int|
                        0 <= t < m ==> #[trigger] fk1[t] == FlatNode {
                            id: ((s.len() + t) as usize),
                            parent: front[t].parent,
                            comps: front[t].comps,
                        });
                    assert(forall|t: int| 0 <= t < m ==> #[trigger] front[t] == entries[t]);
                    assert(x.parent == Some(((t0 as usize)) as usize));
                }
            },
        }
        // The new spine: the old spine down to the attach point, then the
        // fresh node.
        lemma_spine_after_append(s1, s2, q, comps, r);
        assert forall|t: int|
            0 <= t < entries.len() && #[trigger] snap_ancestor(
                entries,
                entries.len() - 1,
                t,
            ) implies on_spine(s2, r, s.len() + t) by {
            if t == m {
            } else {
                assert(snap_ancestor(entries, m, t) && t != m);
                assert(entries[m].parent is Some);
                let pj = entries[m].parent->0 as int;
                assert(snap_ancestor(entries, pj, t));
                assert(q == base + pj);
                assert(snap_ancestor(front, pj, t)) by {
                    lemma_snap_ancestor_prefix(entries, m, pj, t);
                }
                assert(snap_ancestor(front, m - 1, pj)) by {
                    assert(snap_ancestor(entries, m - 1, pj));
                    lemma_snap_ancestor_prefix(entries, m, m - 1, pj);
                }
                lemma_snap_ancestor_trans(front, m - 1, pj, t);
                assert(on_spine(s1, r, base + t));
                lemma_snap_ancestor_le(front, pj, t);
                lemma_on_spine_linear(s1, r, base + t, q);
                assert(on_spine(s2, r, base + t));
            }
        }
    }
}

/// Instantiating a snapshot under a fresh childless root and extracting the
/// root's subtree again yields exactly the snapshot: the store-level half of
/// the round trip.
pub proof fn lemma_instantiate_extract(
    s: Seq<SlotModel>,
    r: int,
    entries: Seq<EntryModel>,
    reg: Map<Seq<u8>, PayloadKind>,
)
    requires
        store_wf(s),
        s.len() + entries.len() <= usize::MAX,
        0 <= r < s.len(),
        s[r].live,
        s[r].children.len() == 0,
        snapshot_wf(entries),
        snap_unique_names(entries),
        dfs_ordered(entries),
        snap_decodable(entries, reg),
    ensures
        store_wf(inst_model(s, r, s.len() as int, entries, reg)),
        extract_model(inst_model(s, r, s.len() as int, entries, reg), r, reg) == entries,
{
    lemma_inst_flat(s, r, entries, reg);
    let s2 = inst_model(s, r, s.len() as int, entries, reg);
    let f = flat_kids(s2, r, 0, None, 0, reg);
    assert(extract_model(s2, r, reg) =~~= entries) by {
        assert(forall|t: int|
            0 <= t < entries.len() ==> #[trigger] extract_model(s2, r, reg)[t] == entry_of(
                f[t],
            ));
    }
}

/// Internal preorder of a flattened subtree: within the block produced for
/// `e`, every record's parent reference is an ancestor of (or equal to) the
/// previous record, relative to the whole snapshot `w`.
proof fn lemma_dfs_from(
    s: Seq<SlotModel>,
    e: int,
    par: Option<usize>,
    pos: int,
    reg: Map<Seq<u8>, PayloadKind>,
    w: Seq<EntryModel>,
)
    requires
        w.len() <= usize::MAX,
        0 <= pos,
        pos + flat_from(s, e, par, pos, reg).len() <= w.len(),
        forall|t: int|
            0 <= t < flat_from(s, e, par, pos, reg).len() ==> w[pos + t] == entry_of(
                #[trigger] flat_from(s, e, par, pos, reg)[t],
            ),
        par is Some ==> 0 <= (par->0 as int) && snap_ancestor(w, pos - 1, par->0 as int),
    ensures
        forall|i: int|
            pos <= i < pos + flat_from(s, e, par, pos, reg).len() && (#[trigger] w[i]).parent
                is Some ==> snap_ancestor(w, i - 1, w[i].parent->0 as int),
        flat_from(s, e, par, pos, reg).len() > 0 ==> snap_ancestor(
            w,
            pos + flat_from(s, e, par, pos, reg).len() - 1,
            pos,
        ),
    decreases s.len() - e, 1int, 0int,
{
    let f = flat_from(s, e, par, pos, reg);
    if 0 <= e < s.len() && s[e].live {
        let fk = flat_kids(s, e, 0, Some((pos as usize)), pos + 1, reg);
        assert(f == seq![
            FlatNode { id: (e as usize), parent: par, comps: comps_model(s[e].comps, reg) },
        ] + fk);
        assert(w[pos] == entry_of(f[0]));
        assert(w[pos].parent == par);
        assert(forall|t: int| 0 <= t < fk.len() ==> w[pos + 1 + t] == entry_of(#[trigger] fk[t]))
            by {
            assert(forall|t: int| 0 <= t < fk.len() ==> #[trigger] fk[t] == f[1 + t]);
        }
        assert(snap_ancestor(w, pos + 1 - 1, pos));
        lemma_dfs_kids(s, e, 0, Some((pos as usize)), pos + 1, reg, w);
        assert forall|i: int|
            pos <= i < pos + f.len() && (#[trigger] w[i]).parent is Some implies snap_ancestor(
            w,
            i - 1,
            w[i].parent->0 as int,
        ) by {
            if i == pos {
                assert(w[i].parent == par);
            }
        }
        if fk.len() == 0 {
            assert(f.len() == 1);
            assert(snap_ancestor(w, pos, pos));
        }
    }
}

/// The same, for the flattened child subtrees from the `k`-th on.
proof fn lemma_dfs_kids(
    s: Seq<SlotModel>,
    e: int,
    k: int,
    par: Option<usize>,
    pos: int,
    reg: Map<Seq<u8>, PayloadKind>,
    w: Seq<EntryModel>,
)
    requires
        w.len() <= usize::MAX,
        0 <= pos,
        pos + flat_kids(s, e, k, par, pos, reg).len() <= w.len(),
        forall|t: int|
            0 <= t < flat_kids(s, e, k, par, pos, reg).len() ==> w[pos + t] == entry_of(
                #[trigger] flat_kids(s, e, k, par, pos, reg)[t],
            ),
        par is Some ==> 0 <= (par->0 as int) && snap_ancestor(w, pos - 1, par->0 as int),
    ensures
        forall|i: int|
            pos <= i < pos + flat_kids(s, e, k, par, pos, reg).len() && (#[trigger] w[i]).parent
                is Some ==> snap_ancestor(w, i - 1, w[i].parent->0 as int),
        flat_kids(s, e, k, par, pos, reg).len() > 0 && par is Some ==> snap_ancestor(
            w,
            pos + flat_kids(s, e, k, par, pos, reg).len() - 1,
            par->0 as int,
        ),
    decreases s.len() - e, 0int, s[e].children.len() - k,
{
    let fk = flat_kids(s, e, k, par, pos, reg);
    if 0 <= e < s.len() && 0 <= k < s[e].children.len() {
        let c = s[e].children[k] as int;
        if e < c < s.len() {
            let sub = flat_from(s, c, par, pos, reg);
            let rest = flat_kids(s, e, k + 1, par, pos + sub.len(), reg);
            assert(fk == sub + rest);
            assert(forall|t: int|
                0 <= t < sub.len() ==> w[pos + t] == entry_of(#[trigger] sub[t])) by {
                assert(forall|t: int| 0 <= t < sub.len() ==> #[trigger] sub[t] == fk[t]);
            }
            lemma_dfs_from(s, c, par, pos, reg, w);
            assert(forall|t: int|
                0 <= t < rest.len() ==> w[pos + sub.len() + t] == entry_of(#[trigger] rest[t]))
                by {
                assert(forall|t: int|
                    0 <= t < rest.len() ==> #[trigger] rest[t] == fk[sub.len() + t]);
            }
            if par is Some && sub.len() > 0 {
                // The sub-block ends on the spine of `c`; one more parent
                // step reaches `par`.
                let p = par->0 as int;
                assert(snap_ancestor(w, pos + sub.len() - 1, pos));
                assert(w[pos + 0] == entry_of(fk[0]));
                assert(fk[0] == sub[0]);
                assert(sub[0].parent == par);
                assert(snap_ancestor(w, pos, p)) by {
                    assert(w[pos].parent == par);
                    lemma_snap_ancestor_le(w, pos - 1, p);
                    assert(p < pos);
                    assert(0 <= pos < w.len());
                    assert(snap_ancestor(w, p, p));
                    assert(w[pos].parent->0 as int == p);
                }
                lemma_snap_ancestor_trans(w, pos + sub.len() - 1, pos, p);
            }
            lemma_dfs_kids(s, e, k + 1, par, pos + sub.len(), reg, w);
            if fk.len() > 0 && par is Some {
                if rest.len() > 0 {
                } else {
                    assert(fk.len() == sub.len());
                }
            }
        } else {
            lemma_dfs_kids(s, e, k + 1, par, pos, reg, w);
        }
    }
}

/// What extraction produces is in depth-first preorder.
pub proof fn lemma_extract_dfs(s: Seq<SlotModel>, e: int, reg: Map<Seq<u8>, PayloadKind>)
    requires
        extract_model(s, e, reg).len() <= usize::MAX,
    ensures
        dfs_ordered(extract_model(s, e, reg)),
{
    let w = extract_model(s, e, reg);
    let fk = flat_kids(s, e, 0, None, 0, reg);
    assert(forall|t: int| 0 <= t < fk.len() ==> w[0 + t] == entry_of(#[trigger] fk[t]));
    lemma_dfs_kids(s, e, 0, None, 0, reg, w);
}

/// Every record extracted under a shape-respecting registry can be
/// reconstructed again: its types are registered and its serialized
/// payloads decode under the registered shapes.
proof fn lemma_flat_from_decodable(
    s: Seq<SlotModel>,
    e: int,
    par: Option<usize>,
    pos: int,
    reg: Map<Seq<u8>, PayloadKind>,
    t: int,
)
    requires
        crate::snapshot::subtree_ok(s, e, reg),
        0 <= t < flat_from(s, e, par, pos, reg).len(),
    ensures
        comps_decodable(flat_from(s, e, par, pos, reg)[t].comps, reg),
    decreases s.len() - e, 1int, 0int,
{
    let f = flat_from(s, e, par, pos, reg);
    if 0 <= e < s.len() && s[e].live {
        if t == 0 {
            lemma_comps_model_decodable(s[e].comps, reg);
        } else {
            lemma_flat_kids_decodable(s, e, 0, Some((pos as usize)), pos + 1, reg, t - 1);
        }
    }
}

proof fn lemma_flat_kids_decodable(
    s: Seq<SlotModel>,
    e: int,
    k: int,
    par: Option<usize>,
    pos: int,
    reg: Map<Seq<u8>, PayloadKind>,
    t: int,
)
    requires
        crate::snapshot::kids_ok(s, e, k, reg),
        0 <= t < flat_kids(s, e, k, par, pos, reg).len(),
    ensures
        comps_decodable(flat_kids(s, e, k, par, pos, reg)[t].comps, reg),
    decreases s.len() - e, 0int, s[e].children.len() - k,
{
    if 0 <= e < s.len() && 0 <= k < s[e].children.len() {
        let c = s[e].children[k] as int;
        if e < c < s.len() {
            let sub = flat_from(s, c, par, pos, reg);
            if t < sub.len() {
                lemma_flat_from_decodable(s, c, par, pos, reg, t);
            } else {
                lemma_flat_kids_decodable(s, e, k + 1, par, pos + sub.len(), reg, t - sub.len());
            }
        } else {
            lemma_flat_kids_decodable(s, e, k + 1, par, pos, reg, t);
        }
    }
}

/// The serialized records of shape-respecting components all decode.
proof fn lemma_comps_model_decodable(cs: Seq<CompModel>, reg: Map<Seq<u8>, PayloadKind>)
    requires
        crate::snapshot::comps_ok(cs, reg),
    ensures
        comps_decodable(comps_model(cs, reg), reg),
    decreases cs.len(),
{
    if cs.len() > 0 {
        assert(crate::snapshot::comps_ok(cs.drop_last(), reg)) by {
            assert(forall|j: int|
                0 <= j < cs.drop_last().len() ==> #[trigger] cs.drop_last()[j] == cs[j]);
        }
        lemma_comps_model_decodable(cs.drop_last(), reg);
        let km = comps_model(cs, reg);
        let kmp = comps_model(cs.drop_last(), reg);
        assert forall|j: int| 0 <= j < km.len() implies reg.contains_key(
            (#[trigger] km[j]).name,
        ) && dec_payload(reg[km[j].name], km[j].data) is Some by {
            if j < kmp.len() {
                assert(km[j] == kmp[j]);
            } else {
                let last = cs.last();
                assert(cs[cs.len() - 1] == last);
                assert(reg.contains_key(last.name));
                assert(reg[last.name] == crate::payload::kind_of(last.payload));
                crate::payload::lemma_dec_enc_payload(last.payload);
                assert(km[j] == CompDataModel {
                    name: last.name,
                    data: crate::payload::enc_payload(last.payload),
                });
            }
        }
    }
}

/// The snapshot of a shape-respecting subtree decodes record by record.
pub proof fn lemma_extract_decodable(s: Seq<SlotModel>, e: int, reg: Map<Seq<u8>, PayloadKind>)
    requires
        crate::snapshot::kids_ok(s, e, 0, reg),
    ensures
        snap_decodable(extract_model(s, e, reg), reg),
{
    let w = extract_model(s, e, reg);
    let fk = flat_kids(s, e, 0, None, 0, reg);
    assert forall|i: int| 0 <= i < w.len() implies comps_decodable(
        (#[trigger] w[i]).comps,
        reg,
    ) by {
        assert(w[i] == entry_of(fk[i]));
        lemma_flat_kids_decodable(s, e, 0, None, 0, reg, i);
    }
}

/// Round-trip structural equality: for a subtree whose registered components
/// have their registered shapes, extracting, rendering, parsing and
/// instantiating under a fresh childless parent produces a subtree whose
/// extraction is exactly the original snapshot — the same record count, the
/// same parent/child structure and the same component payloads.
pub proof fn theorem_snapshot_round_trip(
    s: Seq<SlotModel>,
    root: int,
    s2: Seq<SlotModel>,
    parent: int,
    reg: Map<Seq<u8>, PayloadKind>,
)
    requires
        store_wf(s),
        0 <= root < s.len(),
        s[root].live,
        crate::snapshot::kids_ok(s, root, 0, reg),
        forall|n: Seq<u8>| reg.contains_key(n) ==> crate::registry::is_wf_name(n),
        store_wf(s2),
        0 <= parent < s2.len(),
        s2[parent].live,
        s2[parent].children.len() == 0,
        s2.len() + extract_model(s, root, reg).len() <= usize::MAX,
    ensures
        ({
            let snap = extract_model(s, root, reg);
            let rebuilt = inst_model(s2, parent, s2.len() as int, snap, reg);
            &&& crate::format::parse_model(crate::format::render_model(snap)) == Some(snap)
            &&& store_wf(rebuilt)
            &&& extract_model(rebuilt, parent, reg) == snap
        }),
{
    let snap = extract_model(s, root, reg);
    crate::snapshot::lemma_extract_wf(s, root, reg);
    crate::format::lemma_parse_render(snap);
    lemma_extract_dfs(s, root, reg);
    lemma_extract_decodable(s, root, reg);
    lemma_instantiate_extract(s2, parent, snap, reg);
}

} // verus!
