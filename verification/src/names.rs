//! The stable type names of the component types this subsystem handles,
//! and the level-content registry built from them.
//!
//! A save deliberately registers only the types that make up level content,
//! so engine-internal components attached to the same entities are filtered
//! out of snapshots.

use vstd::prelude::*;

use crate::payload::PayloadKind;
use crate::registry::{is_wf_name, register_map, TypeRegistry};

verus! {

/// Type name of the level root marker: `Level`.
pub open spec fn level_name() -> Seq<u8> {
    seq![76u8, 101u8, 118u8, 101u8, 108u8]
}

pub proof fn lemma_level_name_wf()
    ensures
        is_wf_name(level_name()),
{
    let s = level_name();
    assert forall|i: int| 0 <= i < s.len() implies
        crate::registry::is_name_byte(s[i]) by {
        if i == 0 { assert(s[i] == 76); }
        if i == 1 { assert(s[i] == 101); }
        if i == 2 { assert(s[i] == 118); }
        if i == 3 { assert(s[i] == 101); }
        if i == 4 { assert(s[i] == 108); }
    }
}

/// `Level` as a byte string.
pub fn level_name_vec() -> (r: Vec<u8>)
    ensures
        r@ == level_name(),
{
    let mut v: Vec<u8> = Vec::new();
    v.push(76u8);
    v.push(101u8);
    v.push(118u8);
    v.push(101u8);
    v.push(108u8);
    proof {
        assert(v@ =~= level_name());
    }
    v
}

/// Type name of the ball marker: `GolfBall`.
pub open spec fn golf_ball_name() -> Seq<u8> {
    seq![71u8, 111u8, 108u8, 102u8, 66u8, 97u8, 108u8, 108u8]
}

pub proof fn lemma_golf_ball_name_wf()
    ensures
        is_wf_name(golf_ball_name()),
{
    let s = golf_ball_name();
    assert forall|i: int| 0 <= i < s.len() implies
        crate::registry::is_name_byte(s[i]) by {
        if i == 0 { assert(s[i] == 71); }
        if i == 1 { assert(s[i] == 111); }
        if i == 2 { assert(s[i] == 108); }
        if i == 3 { assert(s[i] == 102); }
        if i == 4 { assert(s[i] == 66); }
        if i == 5 { assert(s[i] == 97); }
        if i == 6 { assert(s[i] == 108); }
        if i == 7 { assert(s[i] == 108); }
    }
}

/// `GolfBall` as a byte string.
pub fn golf_ball_name_vec() -> (r: Vec<u8>)
    ensures
        r@ == golf_ball_name(),
{
    let mut v: Vec<u8> = Vec::new();
    v.push(71u8);
    v.push(111u8);
    v.push(108u8);
    v.push(102u8);
    v.push(66u8);
    v.push(97u8);
    v.push(108u8);
    v.push(108u8);
    proof {
        assert(v@ =~= golf_ball_name());
    }
    v
}

/// Type name of the launcher marker: `Launcher`.
pub open spec fn launcher_name() -> Seq<u8> {
    seq![76u8, 97u8, 117u8, 110u8, 99u8, 104u8, 101u8, 114u8]
}

pub proof fn lemma_launcher_name_wf()
    ensures
        is_wf_name(launcher_name()),
{
    let s = launcher_name();
    assert forall|i: int| 0 <= i < s.len() implies
        crate::registry::is_name_byte(s[i]) by {
        if i == 0 { assert(s[i] == 76); }
        if i == 1 { assert(s[i] == 97); }
        if i == 2 { assert(s[i] == 117); }
        if i == 3 { assert(s[i] == 110); }
        if i == 4 { assert(s[i] == 99); }
        if i == 5 { assert(s[i] == 104); }
        if i == 6 { assert(s[i] == 101); }
        if i == 7 { assert(s[i] == 114); }
    }
}

/// `Launcher` as a byte string.
pub fn launcher_name_vec() -> (r: Vec<u8>)
    ensures
        r@ == launcher_name(),
{
    let mut v: Vec<u8> = Vec::new();
    v.push(76u8);
    v.push(97u8);
    v.push(117u8);
    v.push(110u8);
    v.push(99u8);
    v.push(104u8);
    v.push(101u8);
    v.push(114u8);
    proof {
        assert(v@ =~= launcher_name());
    }
    v
}

/// Type name of the goal sensor marker: `Goal`.
pub open spec fn goal_name() -> Seq<u8> {
    seq![71u8, 111u8, 97u8, 108u8]
}

pub proof fn lemma_goal_name_wf()
    ensures
        is_wf_name(goal_name()),
{
    let s = goal_name();
    assert forall|i: int| 0 <= i < s.len() implies
        crate::registry::is_name_byte(s[i]) by {
        if i == 0 { assert(s[i] == 71); }
        if i == 1 { assert(s[i] == 111); }
        if i == 2 { assert(s[i] == 97); }
        if i == 3 { assert(s[i] == 108); }
    }
}

/// `Goal` as a byte string.
pub fn goal_name_vec() -> (r: Vec<u8>)
    ensures
        r@ == goal_name(),
{
    let mut v: Vec<u8> = Vec::new();
    v.push(71u8);
    v.push(111u8);
    v.push(97u8);
    v.push(108u8);
    proof {
        assert(v@ =~= goal_name());
    }
    v
}

/// Type name of box dimensions of a wall: `Box`.
pub open spec fn box_dims_name() -> Seq<u8> {
    seq![66u8, 111u8, 120u8]
}

pub proof fn lemma_box_dims_name_wf()
    ensures
        is_wf_name(box_dims_name()),
{
    let s = box_dims_name();
    assert forall|i: int| 0 <= i < s.len() implies
        crate::registry::is_name_byte(s[i]) by {
        if i == 0 { assert(s[i] == 66); }
        if i == 1 { assert(s[i] == 111); }
        if i == 2 { assert(s[i] == 120); }
    }
}

/// `Box` as a byte string.
pub fn box_dims_name_vec() -> (r: Vec<u8>)
    ensures
        r@ == box_dims_name(),
{
    let mut v: Vec<u8> = Vec::new();
    v.push(66u8);
    v.push(111u8);
    v.push(120u8);
    proof {
        assert(v@ =~= box_dims_name());
    }
    v
}

/// Type name of the plain wall marker: `PlainWall`.
pub open spec fn plain_wall_name() -> Seq<u8> {
    seq![80u8, 108u8, 97u8, 105u8, 110u8, 87u8, 97u8, 108u8, 108u8]
}

pub proof fn lemma_plain_wall_name_wf()
    ensures
        is_wf_name(plain_wall_name()),
{
    let s = plain_wall_name();
    assert forall|i: int| 0 <= i < s.len() implies
        crate::registry::is_name_byte(s[i]) by {
        if i == 0 { assert(s[i] == 80); }
        if i == 1 { assert(s[i] == 108); }
        if i == 2 { assert(s[i] == 97); }
        if i == 3 { assert(s[i] == 105); }
        if i == 4 { assert(s[i] == 110); }
        if i == 5 { assert(s[i] == 87); }
        if i == 6 { assert(s[i] == 97); }
        if i == 7 { assert(s[i] == 108); }
        if i == 8 { assert(s[i] == 108); }
    }
}

/// `PlainWall` as a byte string.
pub fn plain_wall_name_vec() -> (r: Vec<u8>)
    ensures
        r@ == plain_wall_name(),
{
    let mut v: Vec<u8> = Vec::new();
    v.push(80u8);
    v.push(108u8);
    v.push(97u8);
    v.push(105u8);
    v.push(110u8);
    v.push(87u8);
    v.push(97u8);
    v.push(108u8);
    v.push(108u8);
    proof {
        assert(v@ =~= plain_wall_name());
    }
    v
}

/// Type name of the bouncing wall marker: `BounceWall`.
pub open spec fn bounce_wall_name() -> Seq<u8> {
    seq![66u8, 111u8, 117u8, 110u8, 99u8, 101u8, 87u8, 97u8, 108u8, 108u8]
}

pub proof fn lemma_bounce_wall_name_wf()
    ensures
        is_wf_name(bounce_wall_name()),
{
    let s = bounce_wall_name();
    assert forall|i: int| 0 <= i < s.len() implies
        crate::registry::is_name_byte(s[i]) by {
        if i == 0 { assert(s[i] == 66); }
        if i == 1 { assert(s[i] == 111); }
        if i == 2 { assert(s[i] == 117); }
        if i == 3 { assert(s[i] == 110); }
        if i == 4 { assert(s[i] == 99); }
        if i == 5 { assert(s[i] == 101); }
        if i == 6 { assert(s[i] == 87); }
        if i == 7 { assert(s[i] == 97); }
        if i == 8 { assert(s[i] == 108); }
        if i == 9 { assert(s[i] == 108); }
    }
}

/// `BounceWall` as a byte string.
pub fn bounce_wall_name_vec() -> (r: Vec<u8>)
    ensures
        r@ == bounce_wall_name(),
{
    let mut v: Vec<u8> = Vec::new();
    v.push(66u8);
    v.push(111u8);
    v.push(117u8);
    v.push(110u8);
    v.push(99u8);
    v.push(101u8);
    v.push(87u8);
    v.push(97u8);
    v.push(108u8);
    v.push(108u8);
    proof {
        assert(v@ =~= bounce_wall_name());
    }
    v
}

/// Type name of the low-gravity wall marker: `LowGravWall`.
pub open spec fn low_grav_wall_name() -> Seq<u8> {
    seq![76u8, 111u8, 119u8, 71u8, 114u8, 97u8, 118u8, 87u8, 97u8, 108u8, 108u8]
}

pub proof fn lemma_low_grav_wall_name_wf()
    ensures
        is_wf_name(low_grav_wall_name()),
{
    let s = low_grav_wall_name();
    assert forall|i: int| 0 <= i < s.len() implies
        crate::registry::is_name_byte(s[i]) by {
        if i == 0 { assert(s[i] == 76); }
        if i == 1 { assert(s[i] == 111); }
        if i == 2 { assert(s[i] == 119); }
        if i == 3 { assert(s[i] == 71); }
        if i == 4 { assert(s[i] == 114); }
        if i == 5 { assert(s[i] == 97); }
        if i == 6 { assert(s[i] == 118); }
        if i == 7 { assert(s[i] == 87); }
        if i == 8 { assert(s[i] == 97); }
        if i == 9 { assert(s[i] == 108); }
        if i == 10 { assert(s[i] == 108); }
    }
}

/// `LowGravWall` as a byte string.
pub fn low_grav_wall_name_vec() -> (r: Vec<u8>)
    ensures
        r@ == low_grav_wall_name(),
{
    let mut v: Vec<u8> = Vec::new();
    v.push(76u8);
    v.push(111u8);
    v.push(119u8);
    v.push(71u8);
    v.push(114u8);
    v.push(97u8);
    v.push(118u8);
    v.push(87u8);
    v.push(97u8);
    v.push(108u8);
    v.push(108u8);
    proof {
        assert(v@ =~= low_grav_wall_name());
    }
    v
}

/// Type name of a spatial transform: `Transform`.
pub open spec fn transform_name() -> Seq<u8> {
    seq![84u8, 114u8, 97u8, 110u8, 115u8, 102u8, 111u8, 114u8, 109u8]
}

pub proof fn lemma_transform_name_wf()
    ensures
        is_wf_name(transform_name()),
{
    let s = transform_name();
    assert forall|i: int| 0 <= i < s.len() implies
        crate::registry::is_name_byte(s[i]) by {
        if i == 0 { assert(s[i] == 84); }
        if i == 1 { assert(s[i] == 114); }
        if i == 2 { assert(s[i] == 97); }
        if i == 3 { assert(s[i] == 110); }
        if i == 4 { assert(s[i] == 115); }
        if i == 5 { assert(s[i] == 102); }
        if i == 6 { assert(s[i] == 111); }
        if i == 7 { assert(s[i] == 114); }
        if i == 8 { assert(s[i] == 109); }
    }
}

/// `Transform` as a byte string.
pub fn transform_name_vec() -> (r: Vec<u8>)
    ensures
        r@ == transform_name(),
{
    let mut v: Vec<u8> = Vec::new();
    v.push(84u8);
    v.push(114u8);
    v.push(97u8);
    v.push(110u8);
    v.push(115u8);
    v.push(102u8);
    v.push(111u8);
    v.push(114u8);
    v.push(109u8);
    proof {
        assert(v@ =~= transform_name());
    }
    v
}

/// The closed allow-list of component types that make up level content,
/// as a map from type name to payload shape.
pub open spec fn level_content_map() -> Map<Seq<u8>, PayloadKind> {
    Map::<Seq<u8>, PayloadKind>::empty().insert(
        golf_ball_name(),
        PayloadKind::Marker,
    ).insert(
        launcher_name(),
        PayloadKind::Marker,
    ).insert(
        goal_name(),
        PayloadKind::Marker,
    ).insert(
        box_dims_name(),
        PayloadKind::BoxDims,
    ).insert(
        plain_wall_name(),
        PayloadKind::Marker,
    ).insert(
        bounce_wall_name(),
        PayloadKind::Marker,
    ).insert(
        low_grav_wall_name(),
        PayloadKind::Marker,
    ).insert(
        transform_name(),
        PayloadKind::Transform,
    )
}

/// Builds the registry used for level saves and loads: exactly the level
/// content types, nothing engine-internal.
pub fn level_content_registry() -> (r: TypeRegistry)
    ensures
        r.wf(),
        r@ == level_content_map(),
{
    proof {
        lemma_golf_ball_name_wf();
        lemma_launcher_name_wf();
        lemma_goal_name_wf();
        lemma_box_dims_name_wf();
        lemma_plain_wall_name_wf();
        lemma_bounce_wall_name_wf();
        lemma_low_grav_wall_name_wf();
        lemma_transform_name_wf();
    }
    let mut r = TypeRegistry::new();
    r.register(golf_ball_name_vec(), PayloadKind::Marker);
    r.register(launcher_name_vec(), PayloadKind::Marker);
    r.register(goal_name_vec(), PayloadKind::Marker);
    r.register(box_dims_name_vec(), PayloadKind::BoxDims);
    r.register(plain_wall_name_vec(), PayloadKind::Marker);
    r.register(bounce_wall_name_vec(), PayloadKind::Marker);
    r.register(low_grav_wall_name_vec(), PayloadKind::Marker);
    r.register(transform_name_vec(), PayloadKind::Transform);
    proof {
        assert(r@ =~= level_content_map());
    }
    r
}

} // verus!
