//! The persisted scene text: rendering a snapshot to bytes and parsing it
//! back.
//!
//! The form is line oriented and self describing. A scene begins with a
//! `scene` header line. Each entity record is one `e` line giving the
//! parent: the letter `r` for a child of the extraction root, or the
//! parent record's position as a fixed-width decimal field. Each component
//! of the record follows on a `c` line: the type name token, the payload
//! length as a fixed-width decimal field, the payload bytes themselves and
//! a final newline. Parsing is strict — it accepts exactly what rendering
//! produces — which makes the two inverse to one another.

use vstd::prelude::*;

use crate::digits::{
    all_digit_bytes, dec_nat, enc_nat, encode_u64, lemma_dec_nat_bounds, lemma_enc_nat_props,
    lemma_pow10_vals, read_digits, U64_WIDTH,
};
use crate::errors::SceneError;
use crate::registry::{is_name_byte, is_wf_name};
use crate::snapshot::{entries_vm, entry_wf, snapshot_wf, CompDataModel, ComponentData, EntryModel,
    Snapshot, SnapshotEntry};

verus! {

/// Newline byte.
pub const NL: u8 = 10;

/// Space byte.
pub const SP: u8 = 32;

/// The byte starting a component line: `c`.
pub const COMP_TAG: u8 = 99;

/// The byte starting an entity record line: `e`.
pub const ENTRY_TAG: u8 = 101;

/// The byte marking a child of the extraction root: `r`.
pub const ROOT_TAG: u8 = 114;

/// The `scene` header line.
pub open spec fn header() -> Seq<u8> {
    seq![115u8, 99u8, 101u8, 110u8, 101u8, 10u8]
}

/// The parent field of an entity record line.
pub open spec fn render_parent(p: Option<usize>) -> Seq<u8> {
    match p {
        None => seq![ROOT_TAG],
        Some(i) => enc_nat(i as nat, U64_WIDTH as nat),
    }
}

/// One component line.
pub open spec fn render_comp(c: CompDataModel) -> Seq<u8> {
    seq![COMP_TAG, SP] + c.name + seq![SP] + enc_nat(c.data.len(), U64_WIDTH as nat) + seq![SP]
        + c.data + seq![NL]
}

/// The component lines of one record.
pub open spec fn render_comps(cs: Seq<CompDataModel>) -> Seq<u8>
    decreases cs.len(),
{
    if cs.len() == 0 {
        Seq::empty()
    } else {
        render_comp(cs[0]) + render_comps(cs.skip(1))
    }
}

/// One entity record: its `e` line and its component lines.
pub open spec fn render_entry(e: EntryModel) -> Seq<u8> {
    seq![ENTRY_TAG, SP] + render_parent(e.parent) + seq![NL] + render_comps(e.comps)
}

/// All entity records in order.
pub open spec fn render_entries(s: Seq<EntryModel>) -> Seq<u8>
    decreases s.len(),
{
    if s.len() == 0 {
        Seq::empty()
    } else {
        render_entry(s[0]) + render_entries(s.skip(1))
    }
}

/// The full persisted form of a snapshot.
pub open spec fn render_model(s: Seq<EntryModel>) -> Seq<u8> {
    header() + render_entries(s)
}

/// End of the name token starting at `i`: the first position at or after
/// `i` holding a byte that cannot be part of a name.
pub open spec fn name_end(b: Seq<u8>, i: int) -> int
    decreases b.len() - i,
{
    if 0 <= i < b.len() && is_name_byte(b[i]) {
        name_end(b, i + 1)
    } else {
        i
    }
}

/// Strict parse of the records from position `i` on, with the records
/// finished so far in `acc`: the inverse of `render_entries`.
pub open spec fn parse_entries(b: Seq<u8>, i: int, acc: Seq<EntryModel>) -> Option<
    Seq<EntryModel>,
>
    decreases b.len() - i, 0int,
{
    if i < 0 || i > b.len() {
        None
    } else if i == b.len() {
        Some(acc)
    } else if b[i] == ENTRY_TAG {
        if i + 2 <= b.len() && b[i + 1] == SP {
            if i + 2 < b.len() && b[i + 2] == ROOT_TAG {
                if i + 3 < b.len() && b[i + 3] == NL {
                    parse_comps(b, i + 4, acc, None, Seq::empty())
                } else {
                    None
                }
            } else if i + 2 + U64_WIDTH < b.len() && all_digit_bytes(
                b.subrange(i + 2, i + 2 + U64_WIDTH),
            ) && b[i + 2 + U64_WIDTH] == NL {
                let v = dec_nat(b.subrange(i + 2, i + 2 + U64_WIDTH));
                if 0 <= v < acc.len() {
                    parse_comps(b, i + 3 + U64_WIDTH, acc, Some((v as usize)), Seq::empty())
                } else {
                    None
                }
            } else {
                None
            }
        } else {
            None
        }
    } else {
        None
    }
}

/// Strict parse of the component lines of the record under construction:
/// the record closes at the next `e` line or at the end of the input.
pub open spec fn parse_comps(
    b: Seq<u8>,
    i: int,
    acc: Seq<EntryModel>,
    parent: Option<usize>,
    comps: Seq<CompDataModel>,
) -> Option<Seq<EntryModel>>
    decreases b.len() - i, 1int,
{
    if i < 0 || i > b.len() {
        None
    } else if i == b.len() {
        Some(acc.push(EntryModel { parent, comps }))
    } else if b[i] == ENTRY_TAG {
        parse_entries(b, i, acc.push(EntryModel { parent, comps }))
    } else if b[i] == COMP_TAG {
        if i + 2 <= b.len() && b[i + 1] == SP {
            let ne = name_end(b, i + 2);
            if ne > i + 2 && ne < b.len() && b[ne] == SP {
                if ne + 1 + U64_WIDTH < b.len() && all_digit_bytes(
                    b.subrange(ne + 1, ne + 1 + U64_WIDTH),
                ) && b[ne + 1 + U64_WIDTH] == SP {
                    let dlen = dec_nat(b.subrange(ne + 1, ne + 1 + U64_WIDTH));
                    if 0 <= dlen <= u64::MAX && ne + 2 + U64_WIDTH + dlen < b.len() && b[ne + 2
                        + U64_WIDTH + dlen] == NL {
                        let name = b.subrange(i + 2, ne);
                        let data = b.subrange(ne + 2 + U64_WIDTH, ne + 2 + U64_WIDTH + dlen);
                        parse_comps(
                            b,
                            ne + 3 + U64_WIDTH + dlen,
                            acc,
                            parent,
                            comps.push(CompDataModel { name, data }),
                        )
                    } else {
                        None
                    }
                } else {
                    None
                }
            } else {
                None
            }
        } else {
            None
        }
    } else {
        None
    }
}

/// Strict parse of a whole persisted scene: the inverse of `render_model`.
pub open spec fn parse_model(b: Seq<u8>) -> Option<Seq<EntryModel>> {
    if b.len() >= 6 && b.subrange(0, 6) == header() {
        parse_entries(b, 6, Seq::empty())
    } else {
        None
    }
}

/// Subrange of a concatenation that stays within the first part.
proof fn lemma_cat_sub_left(a: Seq<u8>, c: Seq<u8>, lo: int, hi: int)
    requires
        0 <= lo <= hi <= a.len(),
    ensures
        (a + c).subrange(lo, hi) == a.subrange(lo, hi),
{
    assert((a + c).subrange(lo, hi) =~= a.subrange(lo, hi));
}

/// Subrange of a concatenation that lies within the second part.
proof fn lemma_cat_sub_right(a: Seq<u8>, c: Seq<u8>, lo: int, hi: int)
    requires
        a.len() <= lo <= hi <= a.len() + c.len(),
    ensures
        (a + c).subrange(lo, hi) == c.subrange(lo - a.len(), hi - a.len()),
{
    assert((a + c).subrange(lo, hi) =~= c.subrange(lo - a.len(), hi - a.len()));
}

/// A subrange of a tail of `s` is a subrange of `s`.
proof fn lemma_sub_sub(s: Seq<u8>, i: int, lo: int, hi: int)
    requires
        0 <= i,
        0 <= lo <= hi,
        i + hi <= s.len(),
    ensures
        s.subrange(i, s.len() as int).subrange(lo, hi) == s.subrange(i + lo, i + hi),
{
    assert(s.subrange(i, s.len() as int).subrange(lo, hi) =~= s.subrange(i + lo, i + hi));
}

/// Pins the end of a name token: a run of name bytes ending at a non-name
/// byte.
proof fn lemma_name_end_value(b: Seq<u8>, i: int, e: int)
    requires
        0 <= i <= e < b.len(),
        forall|t: int| i <= t < e ==> is_name_byte(#[trigger] b[t]),
        !is_name_byte(b[e]),
    ensures
        name_end(b, i) == e,
    decreases e - i,
{
    if i < e {
        assert(is_name_byte(b[i]));
        lemma_name_end_value(b, i + 1, e);
    }
}

/// Parsing right after rendering the remaining component lines of the
/// current record, followed by the renderings of the remaining records,
/// yields the records already finished, the current record, and the rest.
proof fn lemma_comps_rt(
    b: Seq<u8>,
    i: int,
    acc: Seq<EntryModel>,
    parent: Option<usize>,
    done: Seq<CompDataModel>,
    cs: Seq<CompDataModel>,
    rest: Seq<EntryModel>,
)
    requires
        0 <= i <= b.len(),
        b.subrange(i, b.len() as int) == render_comps(cs) + render_entries(rest),
        forall|t: int| 0 <= t < cs.len() ==> is_wf_name((#[trigger] cs[t]).name),
        forall|t: int| 0 <= t < cs.len() ==> (#[trigger] cs[t]).data.len() <= u64::MAX,
        forall|t: int| 0 <= t < rest.len() ==> entry_wf(#[trigger] rest[t], acc.len() + 1 + t),
    ensures
        parse_comps(b, i, acc, parent, done) == Some(
            acc.push(EntryModel { parent, comps: done + cs }) + rest,
        ),
    decreases rest.len(), 1int, cs.len(),
{
    let tail = b.subrange(i, b.len() as int);
    if cs.len() == 0 {
        assert(tail =~= render_entries(rest));
        if rest.len() == 0 {
            assert(tail.len() == 0);
            assert(i == b.len());
            assert(done + cs =~= done);
            assert(acc.push(EntryModel { parent, comps: done }) + rest =~= acc.push(
                EntryModel { parent, comps: done + cs },
            ));
        } else {
            assert(render_entries(rest) == render_entry(rest[0]) + render_entries(rest.skip(1)));
            assert(b[i] == ENTRY_TAG) by {
                assert(tail[0] == render_entry(rest[0])[0]);
                assert(render_entry(rest[0])[0] == ENTRY_TAG);
            }
            assert(i < b.len());
            let em = EntryModel { parent, comps: done };
            assert(parse_comps(b, i, acc, parent, done) == parse_entries(b, i, acc.push(em)));
            assert(forall|t: int|
                0 <= t < rest.len() ==> entry_wf(#[trigger] rest[t], acc.push(em).len() + t));
            lemma_entries_rt(b, i, acc.push(em), rest);
            assert(done + cs =~= done);
            assert(acc.push(EntryModel { parent, comps: done + cs }) == acc.push(em));
        }
    } else {
        let c0 = cs[0];
        let nm = c0.name;
        let dt = c0.data;
        let nl = nm.len() as int;
        let dl = dt.len() as int;
        assert(is_wf_name(nm) && dt.len() <= u64::MAX) by {
            assert(is_wf_name((cs[0]).name));
            assert((cs[0]).data.len() <= u64::MAX);
        }
        let encl = enc_nat(dl as nat, U64_WIDTH as nat);
        lemma_pow10_vals();
        lemma_enc_nat_props(dl as nat, U64_WIDTH as nat);
        assert(encl.len() == U64_WIDTH);
        let rc = render_comp(c0);
        assert(rc == seq![COMP_TAG, SP] + nm + seq![SP] + encl + seq![SP] + dt + seq![NL]);
        let after = render_comps(cs.skip(1)) + render_entries(rest);
        assert(render_comps(cs) == rc + render_comps(cs.skip(1)));
        assert(tail =~= rc + after);
        assert(rc.len() == 25 + nl + dl);
        assert(0 < nl);
        // Decompose the component line into its pieces.
        let pa = seq![COMP_TAG, SP];
        let pb = pa + nm;
        let pc = pb + seq![SP];
        let pd = pc + encl;
        let pe = pd + seq![SP];
        let pf = pe + dt;
        assert(rc == pf + seq![NL]);
        // Byte layout of the component line.
        assert(b[i] == COMP_TAG) by {
            assert(tail[0] == rc[0]);
        }
        assert(b[i + 1] == SP) by {
            assert(tail[1] == rc[1]);
        }
        let ne = i + 2 + nl;
        assert(b.subrange(i + 2, ne) == nm) by {
            lemma_sub_sub(b, i, 2, 2 + nl);
            lemma_cat_sub_left(rc, after, 2, 2 + nl);
            lemma_cat_sub_left(pf, seq![NL], 2, 2 + nl);
            lemma_cat_sub_left(pe, dt, 2, 2 + nl);
            lemma_cat_sub_left(pd, seq![SP], 2, 2 + nl);
            lemma_cat_sub_left(pc, encl, 2, 2 + nl);
            lemma_cat_sub_left(pb, seq![SP], 2, 2 + nl);
            lemma_cat_sub_right(pa, nm, 2, 2 + nl);
            assert(nm.subrange(0, nl) =~= nm);
            assert(tail =~= b.subrange(i, b.len() as int));
        }
        assert(b[i + 2 + nl] == SP) by {
            assert(tail[2 + nl] == rc[2 + nl]);
        }
        assert(name_end(b, i + 2) == ne) by {
            assert forall|t: int| i + 2 <= t < ne implies is_name_byte(#[trigger] b[t]) by {
                assert(b[t] == b.subrange(i + 2, ne)[t - (i + 2)]);
                assert(nm[t - (i + 2)] == b[t]);
            }
            assert(!is_name_byte(b[ne]));
            lemma_name_end_value(b, i + 2, ne);
        }
        assert(b.subrange(ne + 1, ne + 1 + U64_WIDTH) == encl) by {
            lemma_sub_sub(b, i, 3 + nl, 3 + nl + U64_WIDTH);
            lemma_cat_sub_left(rc, after, 3 + nl, 3 + nl + U64_WIDTH);
            lemma_cat_sub_left(pf, seq![NL], 3 + nl, 3 + nl + U64_WIDTH);
            lemma_cat_sub_left(pe, dt, 3 + nl, 3 + nl + U64_WIDTH);
            lemma_cat_sub_left(pd, seq![SP], 3 + nl, 3 + nl + U64_WIDTH);
            lemma_cat_sub_right(pc, encl, 3 + nl, 3 + nl + U64_WIDTH);
            assert(encl.subrange(0, U64_WIDTH as int) =~= encl);
            assert(tail =~= b.subrange(i, b.len() as int));
        }
        assert(all_digit_bytes(b.subrange(ne + 1, ne + 1 + U64_WIDTH)));
        assert(dec_nat(b.subrange(ne + 1, ne + 1 + U64_WIDTH)) == dl);
        assert(b[ne + 1 + U64_WIDTH] == SP) by {
            assert(tail[23 + nl] == rc[23 + nl]);
        }
        assert(b.subrange(ne + 2 + U64_WIDTH, ne + 2 + U64_WIDTH + dl) == dt) by {
            lemma_sub_sub(b, i, 24 + nl, 24 + nl + dl);
            lemma_cat_sub_left(rc, after, 24 + nl, 24 + nl + dl);
            lemma_cat_sub_left(pf, seq![NL], 24 + nl, 24 + nl + dl);
            lemma_cat_sub_right(pe, dt, 24 + nl, 24 + nl + dl);
            assert(dt.subrange(0, dl) =~= dt);
            assert(tail =~= b.subrange(i, b.len() as int));
        }
        assert(b[ne + 2 + U64_WIDTH + dl] == NL) by {
            assert(tail[24 + nl + dl] == rc[24 + nl + dl]);
        }
        let i2 = ne + 3 + U64_WIDTH + dl;
        assert(i2 == i + rc.len());
        assert(b.subrange(i2, b.len() as int) == after) by {
            lemma_sub_sub(b, i, rc.len() as int, (b.len() - i) as int);
            lemma_cat_sub_right(rc, after, rc.len() as int, (rc.len() + after.len()) as int);
            assert(after.subrange(0, after.len() as int) =~= after);
            assert(tail =~= b.subrange(i, b.len() as int));
            assert(tail.len() == rc.len() + after.len());
        }
        assert(forall|t: int| 0 <= t < cs.skip(1).len() ==> is_wf_name(
            (#[trigger] cs.skip(1)[t]).name,
        ) && cs.skip(1)[t].data.len() <= u64::MAX) by {
            assert(forall|t: int|
                0 <= t < cs.skip(1).len() ==> #[trigger] cs.skip(1)[t] == cs[t + 1]);
        }
        lemma_comps_rt(b, i2, acc, parent, done.push(c0), cs.skip(1), rest);
        assert(parse_comps(b, i, acc, parent, done) == parse_comps(
            b,
            i2,
            acc,
            parent,
            done.push(CompDataModel { name: b.subrange(i + 2, ne), data: b.subrange(
                ne + 2 + U64_WIDTH, ne + 2 + U64_WIDTH + dl,
            ) }),
        )) by {
            assert(b.subrange(i + 2, ne) =~= nm);
            assert(b.subrange(ne + 2 + U64_WIDTH, ne + 2 + U64_WIDTH + dl) == dt);
            assert(0 <= dl <= u64::MAX);
        }
        assert(done.push(c0) + cs.skip(1) =~= done + cs);
    }
}

/// Parsing right after rendering the remaining records yields the finished
/// records followed by the remaining ones.
proof fn lemma_entries_rt(b: Seq<u8>, i: int, acc: Seq<EntryModel>, rest: Seq<EntryModel>)
    requires
        0 <= i <= b.len(),
        b.subrange(i, b.len() as int) == render_entries(rest),
        forall|t: int| 0 <= t < rest.len() ==> entry_wf(#[trigger] rest[t], acc.len() + t),
    ensures
        parse_entries(b, i, acc) == Some(acc + rest),
    decreases rest.len(), 0int, 0int,
{
    let tail = b.subrange(i, b.len() as int);
    if rest.len() == 0 {
        assert(tail.len() == 0);
        assert(i == b.len());
        assert(acc + rest =~= acc);
    } else {
        let e0 = rest[0];
        let re = render_entry(e0);
        let after = render_comps(e0.comps) + render_entries(rest.skip(1));
        assert(render_entries(rest) == re + render_entries(rest.skip(1)));
        let pline = seq![ENTRY_TAG, SP] + render_parent(e0.parent) + seq![NL];
        assert(re =~= pline + render_comps(e0.comps));
        assert(tail =~= pline + after);
        assert(entry_wf(rest[0], acc.len() as int + 0));
        assert(entry_wf(e0, acc.len() as int));
        assert(b[i] == ENTRY_TAG) by {
            assert(tail[0] == pline[0]);
        }
        assert(b[i + 1] == SP) by {
            assert(tail[1] == pline[1]);
        }
        let ghost comps_wf = forall|t: int|
            0 <= t < e0.comps.len() ==> is_wf_name((#[trigger] e0.comps[t]).name)
                && e0.comps[t].data.len() <= u64::MAX;
        assert(comps_wf);
        let ghost rest_wf = forall|t: int|
            0 <= t < rest.skip(1).len() ==> entry_wf(
                #[trigger] rest.skip(1)[t],
                acc.len() + 1 + t,
            );
        assert(rest_wf) by {
            assert(forall|t: int|
                0 <= t < rest.skip(1).len() ==> #[trigger] rest.skip(1)[t] == rest[t + 1]);
        }
        match e0.parent {
            None => {
                assert(b[i + 2] == ROOT_TAG) by {
                    assert(tail[2] == pline[2]);
                }
                assert(b[i + 3] == NL) by {
                    assert(tail[3] == pline[3]);
                }
                assert(b.subrange(i + 4, b.len() as int) == after) by {
                    lemma_sub_sub(b, i, 4, (b.len() - i) as int);
                    lemma_cat_sub_right(pline, after, 4, (pline.len() + after.len()) as int);
                    assert(after.subrange(0, after.len() as int) =~= after);
                    assert(tail =~= b.subrange(i, b.len() as int));
                    assert(tail.len() == pline.len() + after.len());
                }
                lemma_comps_rt(b, i + 4, acc, None, Seq::empty(), e0.comps, rest.skip(1));
                assert(Seq::<CompDataModel>::empty() + e0.comps =~= e0.comps);
                assert(acc.push(e0) + rest.skip(1) =~= acc + rest);
            },
            Some(p) => {
                let encp = enc_nat(p as nat, U64_WIDTH as nat);
                lemma_pow10_vals();
                lemma_enc_nat_props(p as nat, U64_WIDTH as nat);
                assert(b.subrange(i + 2, i + 2 + U64_WIDTH) == encp) by {
                    let qa = seq![ENTRY_TAG, SP];
                    let qb = qa + encp;
                    assert(pline =~= qb + seq![NL]);
                    lemma_sub_sub(b, i, 2, 2 + U64_WIDTH);
                    lemma_cat_sub_left(pline, after, 2, 2 + U64_WIDTH);
                    lemma_cat_sub_left(qb, seq![NL], 2, 2 + U64_WIDTH);
                    lemma_cat_sub_right(qa, encp, 2, 2 + U64_WIDTH);
                    assert(encp.subrange(0, U64_WIDTH as int) =~= encp);
                    assert(tail =~= b.subrange(i, b.len() as int));
                }
                assert(all_digit_bytes(b.subrange(i + 2, i + 2 + U64_WIDTH)));
                assert(dec_nat(b.subrange(i + 2, i + 2 + U64_WIDTH)) == p);
                assert(b[i + 2 + U64_WIDTH] == NL) by {
                    assert(tail[2 + U64_WIDTH] == pline[2 + U64_WIDTH]);
                }
                assert(!(b[i + 2] == ROOT_TAG)) by {
                    assert(b[i + 2] == encp[0]);
                    assert(crate::digits::is_digit_byte(encp[0]));
                }
                assert((p as int) < acc.len());
                assert(b.subrange(i + 3 + U64_WIDTH, b.len() as int) == after) by {
                    lemma_sub_sub(b, i, 3 + U64_WIDTH, (b.len() - i) as int);
                    lemma_cat_sub_right(
                        pline,
                        after,
                        3 + U64_WIDTH,
                        (pline.len() + after.len()) as int,
                    );
                    assert(after.subrange(0, after.len() as int) =~= after);
                    assert(tail =~= b.subrange(i, b.len() as int));
                    assert(tail.len() == pline.len() + after.len());
                }
                lemma_comps_rt(
                    b,
                    i + 3 + U64_WIDTH,
                    acc,
                    Some(p),
                    Seq::empty(),
                    e0.comps,
                    rest.skip(1),
                );
                assert(Seq::<CompDataModel>::empty() + e0.comps =~= e0.comps);
                assert(acc.push(e0) + rest.skip(1) =~= acc + rest);
            },
        }
    }
}

/// Parsing what rendering produced gives the snapshot back: the persisted
/// text form is lossless.
pub proof fn lemma_parse_render(s: Seq<EntryModel>)
    requires
        snapshot_wf(s),
    ensures
        parse_model(render_model(s)) == Some(s),
{
    let b = render_model(s);
    assert(b.subrange(0, 6) =~= header());
    assert(b.len() >= 6);
    assert(b.subrange(6, b.len() as int) =~= render_entries(s));
    assert(forall|t: int| 0 <= t < s.len() ==> #[trigger] entry_wf(s[t], 0 + t));
    lemma_entries_rt(b, 6, Seq::empty(), s);
    assert(Seq::<EntryModel>::empty() + s =~= s);
}

/// Appends a byte string.
fn push_all(out: &mut Vec<u8>, bytes: &[u8])
    ensures
        final(out)@ == old(out)@ + bytes@,
{
    let n: usize = bytes.len();
    let mut i: usize = 0;
    while i < n
        invariant
            0 <= i <= n,
            n == bytes@.len(),
            out@ == old(out)@ + bytes@.take(i as int),
        decreases n - i,
    {
        out.push(bytes[i]);
        proof {
            assert(out@ =~= old(out)@ + bytes@.take(i + 1));
        }
        i = i + 1;
    }
    proof {
        assert(out@ =~= old(out)@ + bytes@);
    }
}

proof fn lemma_render_comps_snoc(s: Seq<CompDataModel>, x: CompDataModel)
    ensures
        render_comps(s.push(x)) == render_comps(s) + render_comp(x),
    decreases s.len(),
{
    if s.len() == 0 {
        assert(s.push(x)[0] == x);
        assert(s.push(x).skip(1) =~= Seq::<CompDataModel>::empty());
        assert(render_comps(s.push(x)) == render_comp(x) + render_comps(
            Seq::<CompDataModel>::empty(),
        ));
        assert(render_comps(s.push(x)) =~= render_comps(s) + render_comp(x));
    } else {
        assert(s.push(x)[0] == s[0]);
        assert(s.push(x).skip(1) =~= s.skip(1).push(x));
        assert(render_comps(s.push(x)) == render_comp(s[0]) + render_comps(s.skip(1).push(x)));
        lemma_render_comps_snoc(s.skip(1), x);
        assert(render_comps(s) == render_comp(s[0]) + render_comps(s.skip(1)));
        assert(render_comps(s.push(x)) =~= render_comps(s) + render_comp(x));
    }
}

proof fn lemma_render_entries_snoc(s: Seq<EntryModel>, x: EntryModel)
    ensures
        render_entries(s.push(x)) == render_entries(s) + render_entry(x),
    decreases s.len(),
{
    if s.len() == 0 {
        assert(s.push(x)[0] == x);
        assert(s.push(x).skip(1) =~= Seq::<EntryModel>::empty());
        assert(render_entries(s.push(x)) == render_entry(x) + render_entries(
            Seq::<EntryModel>::empty(),
        ));
        assert(render_entries(s.push(x)) =~= render_entries(s) + render_entry(x));
    } else {
        assert(s.push(x)[0] == s[0]);
        assert(s.push(x).skip(1) =~= s.skip(1).push(x));
        assert(render_entries(s.push(x)) == render_entry(s[0]) + render_entries(
            s.skip(1).push(x),
        ));
        lemma_render_entries_snoc(s.skip(1), x);
        assert(render_entries(s) == render_entry(s[0]) + render_entries(s.skip(1)));
        assert(render_entries(s.push(x)) =~= render_entries(s) + render_entry(x));
    }
}

/// Renders a snapshot to its persisted text form. The component payloads
/// were already serialized by the registry's writers at extraction time, so
/// rendering itself always succeeds.
pub fn render(snap: &Snapshot) -> (r: Vec<u8>)
    ensures
        r@ == render_model(snap@),
{
    let mut out: Vec<u8> = Vec::new();
    out.push(115);
    out.push(99);
    out.push(101);
    out.push(110);
    out.push(101);
    out.push(NL);
    proof {
        assert(out@ =~= header());
        assert(snap@.take(0) =~= Seq::<EntryModel>::empty());
        assert(out@ =~= header() + render_entries(snap@.take(0)));
    }
    let n: usize = snap.entries.len();
    let mut i: usize = 0;
    while i < n
        invariant
            0 <= i <= n,
            n == snap.entries@.len(),
            out@ == header() + render_entries(snap@.take(i as int)),
        decreases n - i,
    {
        let ghost em: EntryModel = snap@[i as int];
        let ghost line_start = out@;
        out.push(ENTRY_TAG);
        out.push(SP);
        match snap.entries[i].parent {
            None => {
                out.push(ROOT_TAG);
            },
            Some(p) => {
                encode_u64(p as u64, &mut out);
            },
        }
        out.push(NL);
        proof {
            assert(out@ =~= line_start + (seq![ENTRY_TAG, SP] + render_parent(em.parent)
                + seq![NL]));
            assert(em.comps.take(0) =~= Seq::<CompDataModel>::empty());
            assert(out@ =~= line_start + (seq![ENTRY_TAG, SP] + render_parent(em.parent)
                + seq![NL]) + render_comps(em.comps.take(0)));
        }
        let m: usize = snap.entries[i].components.len();
        let mut j: usize = 0;
        while j < m
            invariant
                0 <= j <= m,
                0 <= i < n,
                n == snap.entries@.len(),
                m == snap.entries@[i as int].components@.len(),
                em == snap@[i as int],
                m == em.comps.len(),
                out@ == line_start + (seq![ENTRY_TAG, SP] + render_parent(em.parent) + seq![NL])
                    + render_comps(em.comps.take(j as int)),
            decreases m - j,
        {
            let ghost comp_start = out@;
            let ghost cm: CompDataModel = em.comps[j as int];
            out.push(COMP_TAG);
            out.push(SP);
            push_all(&mut out, snap.entries[i].components[j].name.as_slice());
            out.push(SP);
            let dlen: usize = snap.entries[i].components[j].data.len();
            encode_u64(dlen as u64, &mut out);
            out.push(SP);
            push_all(&mut out, snap.entries[i].components[j].data.as_slice());
            out.push(NL);
            proof {
                assert(cm == snap.entries@[i as int].components@[j as int]@);
                assert(out@ =~= comp_start + render_comp(cm));
                assert(em.comps.take(j + 1) =~= em.comps.take(j as int).push(cm));
                lemma_render_comps_snoc(em.comps.take(j as int), cm);
                assert(out@ =~= line_start + (seq![ENTRY_TAG, SP] + render_parent(em.parent)
                    + seq![NL]) + render_comps(em.comps.take(j + 1)));
            }
            j = j + 1;
        }
        proof {
            assert(em.comps.take(m as int) =~= em.comps);
            assert(out@ =~= line_start + render_entry(em));
            assert(snap@.take(i + 1) =~= snap@.take(i as int).push(em));
            lemma_render_entries_snoc(snap@.take(i as int), em);
            assert(out@ =~= header() + render_entries(snap@.take(i + 1)));
        }
        i = i + 1;
    }
    proof {
        assert(snap@.take(n as int) =~= snap@);
    }
    out
}

/// The name token is delimited by its first non-name byte.
proof fn lemma_name_end_bytes(b: Seq<u8>, i: int)
    requires
        0 <= i <= b.len(),
    ensures
        i <= name_end(b, i) <= b.len(),
        forall|t: int| i <= t < name_end(b, i) ==> is_name_byte(#[trigger] b[t]),
        name_end(b, i) < b.len() ==> !is_name_byte(b[name_end(b, i)]),
    decreases b.len() - i,
{
    if 0 <= i < b.len() && is_name_byte(b[i]) {
        lemma_name_end_bytes(b, i + 1);
    }
}

/// Strictly parses a persisted scene. Fails with `CorruptFormat` exactly on
/// input that `render` cannot have produced.
pub fn parse(bytes: &[u8]) -> (r: Result<Snapshot, SceneError>)
    ensures
        match r {
            Ok(snap) => parse_model(bytes@) == Some(snap@) && snapshot_wf(snap@),
            Err(e) => e == SceneError::CorruptFormat && parse_model(bytes@) is None,
        },
{
    let b_len: usize = bytes.len();
    if b_len < 6 || bytes[0] != 115 || bytes[1] != 99 || bytes[2] != 101 || bytes[3] != 110
        || bytes[4] != 101 || bytes[5] != NL {
        proof {
            if bytes@.len() >= 6 && bytes@.subrange(0, 6) == header() {
                assert(bytes@[0] == 115 && bytes@[1] == 99 && bytes@[2] == 101 && bytes@[3] == 110
                    && bytes@[4] == 101 && bytes@[5] == NL) by {
                    assert(forall|t: int|
                        0 <= t < 6 ==> #[trigger] bytes@.subrange(0, 6)[t] == bytes@[t]);
                    assert(header()[0] == 115 && header()[1] == 99 && header()[2] == 101
                        && header()[3] == 110 && header()[4] == 101 && header()[5] == NL);
                }
            }
        }
        return Err(SceneError::CorruptFormat);
    }
    proof {
        assert(bytes@.subrange(0, 6) =~= header());
    }
    let mut entries: Vec<SnapshotEntry> = Vec::new();
    proof {
        assert(entries_vm(entries@) =~= Seq::<EntryModel>::empty());
    }
    let mut i: usize = 6;
    while i < b_len
        invariant
            6 <= i <= b_len,
            b_len == bytes@.len(),
            parse_model(bytes@) == parse_entries(bytes@, i as int, entries_vm(entries@)),
            entries_vm(entries@).len() == entries@.len(),
            snapshot_wf(entries_vm(entries@)),
        decreases b_len - i,
    {
        let ghost b = bytes@;
        let ghost acc0 = entries_vm(entries@);
        let entry_count: usize = entries.len();
        let e_start: usize = i;
        if bytes[e_start] != ENTRY_TAG {
            return Err(SceneError::CorruptFormat);
        }
        if b_len - e_start < 2 || bytes[e_start + 1] != SP {
            return Err(SceneError::CorruptFormat);
        }
        let parent: Option<usize>;
        if b_len - e_start > 2 && bytes[e_start + 2] == ROOT_TAG {
            if !(b_len - e_start > 3 && bytes[e_start + 3] == NL) {
                return Err(SceneError::CorruptFormat);
            }
            parent = None;
            i = e_start + 4;
        } else {
            if !(b_len - e_start > 2 + U64_WIDTH) {
                return Err(SceneError::CorruptFormat);
            }
            let v = match read_digits(bytes, e_start + 2, U64_WIDTH) {
                Some(v) => v,
                None => {
                    proof {
                        if all_digit_bytes(b.subrange(e_start + 2, e_start + 2 + U64_WIDTH)) {
                            lemma_dec_nat_bounds(
                                b.subrange(e_start + 2, e_start + 2 + U64_WIDTH),
                            );
                            assert(acc0.len() == entry_count);
                        }
                    }
                    return Err(SceneError::CorruptFormat);
                },
            };
            if bytes[e_start + 2 + U64_WIDTH] != NL {
                return Err(SceneError::CorruptFormat);
            }
            if !(v < entry_count as u64) {
                return Err(SceneError::CorruptFormat);
            }
            parent = Some(v as usize);
            i = e_start + 3 + U64_WIDTH;
        }
        proof {
            assert(parse_entries(b, e_start as int, acc0) == parse_comps(
                b,
                i as int,
                acc0,
                parent,
                Seq::<CompDataModel>::empty(),
            ));
        }
        let mut comps: Vec<ComponentData> = Vec::new();
        proof {
            assert(crate::snapshot::entries_cm(comps@) =~= Seq::<CompDataModel>::empty());
        }
        while i < b_len && bytes[i] == COMP_TAG
            invariant
                6 <= i <= b_len,
                e_start < i,
                b_len == bytes@.len(),
                b == bytes@,
                acc0 == entries_vm(entries@),
                entries_vm(entries@).len() == entries@.len(),
                snapshot_wf(entries_vm(entries@)),
                parse_model(b) == parse_comps(
                    b,
                    i as int,
                    acc0,
                    parent,
                    crate::snapshot::entries_cm(comps@),
                ),
                parent is Some ==> (parent->0 as int) < acc0.len(),
                forall|t: int|
                    0 <= t < comps@.len() ==> is_wf_name(
                        (#[trigger] crate::snapshot::entries_cm(comps@)[t]).name,
                    ) && crate::snapshot::entries_cm(comps@)[t].data.len() <= u64::MAX,
            decreases b_len - i,
        {
            let ghost cm0 = crate::snapshot::entries_cm(comps@);
            let c_start: usize = i;
            if b_len - c_start < 2 || bytes[c_start + 1] != SP {
                return Err(SceneError::CorruptFormat);
            }
            // Scan the name token.
            let mut ne: usize = c_start + 2;
            while ne < b_len && crate::registry::name_byte_ok(bytes[ne])
                invariant
                    c_start + 2 <= ne <= b_len,
                    b_len == bytes@.len(),
                    b == bytes@,
                    name_end(b, c_start + 2) == name_end(b, ne as int),
                decreases b_len - ne,
            {
                ne = ne + 1;
            }
            proof {
                assert(name_end(b, ne as int) == ne);
            }
            if !(ne > c_start + 2 && ne < b_len && bytes[ne] == SP) {
                return Err(SceneError::CorruptFormat);
            }
            if !(b_len - ne > 1 + U64_WIDTH) {
                return Err(SceneError::CorruptFormat);
            }
            let dlen64 = match read_digits(bytes, ne + 1, U64_WIDTH) {
                Some(v) => v,
                None => {
                    proof {
                        if all_digit_bytes(b.subrange(ne + 1, ne + 1 + U64_WIDTH)) {
                            lemma_dec_nat_bounds(b.subrange(ne + 1, ne + 1 + U64_WIDTH));
                        }
                    }
                    return Err(SceneError::CorruptFormat);
                },
            };
            if bytes[ne + 1 + U64_WIDTH] != SP {
                return Err(SceneError::CorruptFormat);
            }
            let data_start: usize = ne + 2 + U64_WIDTH;
            let room: usize = b_len - data_start;
            if !(dlen64 < room as u64) {
                return Err(SceneError::CorruptFormat);
            }
            let dlen: usize = dlen64 as usize;
            if bytes[data_start + dlen] != NL {
                return Err(SceneError::CorruptFormat);
            }
            let name_slice = vstd::slice::slice_subrange(bytes, c_start + 2, ne);
            let data_slice = vstd::slice::slice_subrange(bytes, data_start, data_start + dlen);
            let name = vstd::slice::slice_to_vec(name_slice);
            let data = vstd::slice::slice_to_vec(data_slice);
            proof {
                lemma_name_end_bytes(b, c_start + 2);
                assert(is_wf_name(name@));
            }
            comps.push(ComponentData { name, data });
            i = data_start + dlen + 1;
            proof {
                assert(crate::snapshot::entries_cm(comps@) =~= cm0.push(
                    CompDataModel {
                        name: b.subrange(c_start + 2, ne as int),
                        data: b.subrange(data_start as int, data_start + dlen),
                    },
                ));
                assert(parse_comps(b, c_start as int, acc0, parent, cm0) == parse_comps(
                    b,
                    i as int,
                    acc0,
                    parent,
                    crate::snapshot::entries_cm(comps@),
                ));
            }
        }
        // The record is closed by the next `e` line or the end of the input.
        if i < b_len && bytes[i] != ENTRY_TAG {
            return Err(SceneError::CorruptFormat);
        }
        let ghost em = EntryModel { parent, comps: crate::snapshot::entries_cm(comps@) };
        entries.push(SnapshotEntry { parent, components: comps });
        proof {
            assert(entries_vm(entries@) =~= acc0.push(em));
            assert(entry_wf(em, acc0.len() as int));
            assert forall|t: int| 0 <= t < entries_vm(entries@).len() implies #[trigger] entry_wf(
                entries_vm(entries@)[t],
                t,
            ) by {
                if t < acc0.len() {
                    assert(entries_vm(entries@)[t] == acc0[t]);
                    assert(entry_wf(acc0[t], t));
                }
            }
        }
    }
    let snap = Snapshot { entries };
    Ok(snap)
}

} // verus!
