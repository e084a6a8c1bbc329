//! The type registry: the catalog of component types the snapshot engine may
//! serialize and reconstruct.
//!
//! An entry maps a stable type name to the payload shape its values carry.
//! Registration is idempotent: registering a name that is already present
//! changes nothing. A registry is viewed as a map from names to shapes, and
//! every contract of the snapshot engine is stated over that map.

use vstd::prelude::*;

use crate::errors::SceneError;
use crate::payload::{
    dec_payload, decode_payload, enc_payload, encode_payload, kind_of, Payload, PayloadKind,
};

verus! {

/// Bytes allowed in a type name: ASCII letters, digits and underscore.
pub open spec fn is_name_byte(b: u8) -> bool {
    (48 <= b <= 57) || (65 <= b <= 90) || (97 <= b <= 122) || b == 95
}

/// A well-formed type name: non-empty and made of name bytes only, so a name
/// is a single token in the persisted text.
pub open spec fn is_wf_name(s: Seq<u8>) -> bool {
    0 < s.len() && forall|i: int| 0 <= i < s.len() ==> is_name_byte(#[trigger] s[i])
}

/// Whether a byte may be part of a type name.
pub fn name_byte_ok(b: u8) -> (r: bool)
    ensures
        r == is_name_byte(b),
{
    (48 <= b && b <= 57) || (65 <= b && b <= 90) || (97 <= b && b <= 122) || b == 95
}

/// Compares two byte strings.
pub(crate) fn bytes_eq(a: &[u8], b: &[u8]) -> (r: bool)
    ensures
        r <==> a@ == b@,
{
    if a.len() != b.len() {
        return false;
    }
    let n: usize = a.len();
    let mut i: usize = 0;
    while i < n
        invariant
            0 <= i <= n,
            n == a@.len() == b@.len(),
            forall|j: int| 0 <= j < i ==> a@[j] == b@[j],
        decreases n - i,
    {
        if a[i] != b[i] {
            return false;
        }
        i = i + 1;
    }
    proof {
        assert(a@ =~= b@);
    }
    true
}

/// The map a sequence of registry entries denotes.
pub open spec fn entries_map(s: Seq<(Vec<u8>, PayloadKind)>) -> Map<Seq<u8>, PayloadKind>
    decreases s.len(),
{
    if s.len() == 0 {
        Map::empty()
    } else {
        entries_map(s.drop_last()).insert(s.last().0@, s.last().1)
    }
}

/// What registration does to the registry's map: a no-op when the name is
/// already present, whatever shape the late registration names.
pub open spec fn register_map(
    m: Map<Seq<u8>, PayloadKind>,
    name: Seq<u8>,
    kind: PayloadKind,
) -> Map<Seq<u8>, PayloadKind> {
    if m.contains_key(name) {
        m
    } else {
        m.insert(name, kind)
    }
}

/// Registering a name leaves the registry unchanged whenever the name is
/// already present: in particular, registering the same type twice (even
/// with a different shape the second time) equals registering it once.
pub proof fn lemma_register_idempotent(
    m: Map<Seq<u8>, PayloadKind>,
    name: Seq<u8>,
    k1: PayloadKind,
    k2: PayloadKind,
)
    ensures
        register_map(register_map(m, name, k1), name, k2) == register_map(m, name, k1),
{
    let m1 = register_map(m, name, k1);
    assert(m1.contains_key(name));
}

/// The catalog of serializable component types: a closed allow-list from
/// stable type name to payload shape. A save may use a restricted registry
/// rather than the process-wide one, deliberately leaving engine-internal
/// component types out of snapshots.
pub struct TypeRegistry {
    entries: Vec<(Vec<u8>, PayloadKind)>,
}

proof fn lemma_entries_map_index(s: Seq<(Vec<u8>, PayloadKind)>, i: int)
    requires
        0 <= i < s.len(),
        forall|j1: int, j2: int|
            0 <= j1 < j2 < s.len() ==> (#[trigger] s[j1]).0@ != (#[trigger] s[j2]).0@,
    ensures
        entries_map(s).contains_key(s[i].0@),
        entries_map(s)[s[i].0@] == s[i].1,
    decreases s.len(),
{
    if i == s.len() - 1 {
    } else {
        assert(s.drop_last()[i] == s[i]);
        lemma_entries_map_index(s.drop_last(), i);
        assert(s[i].0@ != s.last().0@);
    }
}

proof fn lemma_entries_map_domain(s: Seq<(Vec<u8>, PayloadKind)>, n: Seq<u8>)
    requires
        entries_map(s).contains_key(n),
    ensures
        exists|i: int| 0 <= i < s.len() && (#[trigger] s[i]).0@ == n,
    decreases s.len(),
{
    if s.len() > 0 {
        if s.last().0@ == n {
            assert(s[s.len() - 1].0@ == n);
        } else {
            lemma_entries_map_domain(s.drop_last(), n);
            let i = choose|i: int|
                0 <= i < s.drop_last().len() && (#[trigger] s.drop_last()[i]).0@ == n;
            assert(s[i].0@ == n);
        }
    }
}

impl TypeRegistry {
    /// The name-to-shape map this registry denotes.
    pub closed spec fn view(self) -> Map<Seq<u8>, PayloadKind> {
        entries_map(self.entries@)
    }

    /// Internal well-formedness: names are distinct, well formed tokens.
    pub closed spec fn wf(self) -> bool {
        &&& forall|j1: int, j2: int|
            0 <= j1 < j2 < self.entries@.len() ==> (#[trigger] self.entries@[j1]).0@ != (
            #[trigger] self.entries@[j2]).0@
        &&& forall|j: int|
            0 <= j < self.entries@.len() ==> is_wf_name((#[trigger] self.entries@[j]).0@)
    }

    /// Every name in a well-formed registry's map is a well-formed token.
    pub proof fn lemma_wf_names(self, n: Seq<u8>)
        requires
            self.wf(),
            self.view().contains_key(n),
        ensures
            is_wf_name(n),
    {
        lemma_entries_map_domain(self.entries@, n);
    }

    /// An empty registry.
    pub fn new() -> (r: TypeRegistry)
        ensures
            r.wf(),
            r@ == Map::<Seq<u8>, PayloadKind>::empty(),
    {
        TypeRegistry { entries: Vec::new() }
    }

    /// Looks a name up, returning the registered shape.
    pub fn lookup(&self, name: &[u8]) -> (r: Option<PayloadKind>)
        requires
            self.wf(),
        ensures
            match r {
                Some(k) => self@.contains_key(name@) && self@[name@] == k,
                None => !self@.contains_key(name@),
            },
    {
        let n: usize = self.entries.len();
        let mut i: usize = 0;
        while i < n
            invariant
                0 <= i <= n,
                n == self.entries@.len(),
                self.wf(),
                forall|j: int| 0 <= j < i ==> (#[trigger] self.entries@[j]).0@ != name@,
            decreases n - i,
        {
            if bytes_eq(self.entries[i].0.as_slice(), name) {
                proof {
                    lemma_entries_map_index(self.entries@, i as int);
                }
                return Some(self.entries[i].1);
            }
            i = i + 1;
        }
        proof {
            if self@.contains_key(name@) {
                lemma_entries_map_domain(self.entries@, name@);
            }
        }
        None
    }

    /// Whether a name is registered.
    pub fn has(&self, name: &[u8]) -> (r: bool)
        requires
            self.wf(),
        ensures
            r == self@.contains_key(name@),
    {
        self.lookup(name).is_some()
    }

    /// Adds an entry for `name` unless one is already present.
    pub fn register(&mut self, name: Vec<u8>, kind: PayloadKind)
        requires
            old(self).wf(),
            is_wf_name(name@),
        ensures
            final(self).wf(),
            final(self)@ == register_map(old(self)@, name@, kind),
    {
        if self.lookup(name.as_slice()).is_none() {
            let ghost pre = self.entries@;
            proof {
                if entries_map(pre).contains_key(name@) {
                    lemma_entries_map_domain(pre, name@);
                }
                assert(forall|j: int| 0 <= j < pre.len() ==> (#[trigger] pre[j]).0@ != name@)
                    by {
                    if exists|j: int| 0 <= j < pre.len() && (#[trigger] pre[j]).0@ == name@ {
                        let j = choose|j: int|
                            0 <= j < pre.len() && (#[trigger] pre[j]).0@ == name@;
                        lemma_entries_map_index(pre, j);
                    }
                }
            }
            self.entries.push((name, kind));
            proof {
                assert(self.entries@.drop_last() =~= pre);
            }
        }
    }

    /// Serializes a payload under a registered type name.
    ///
    /// Fails with `UnregisteredType` when the name is absent, and with
    /// `SerializationError` when the value's shape is not the registered one.
    pub fn write(&self, name: &[u8], payload: &Payload) -> (r: Result<Vec<u8>, SceneError>)
        requires
            self.wf(),
        ensures
            match r {
                Ok(bytes) => self@.contains_key(name@) && self@[name@] == kind_of(*payload)
                    && bytes@ == enc_payload(*payload),
                Err(e) => {
                    &&& (e == SceneError::UnregisteredType <==> !self@.contains_key(name@))
                    &&& (e == SceneError::SerializationError <==> self@.contains_key(name@)
                        && self@[name@] != kind_of(*payload))
                    &&& (e == SceneError::UnregisteredType || e == SceneError::SerializationError)
                },
            },
    {
        match self.lookup(name) {
            None => Err(SceneError::UnregisteredType),
            Some(k) => {
                let actual = payload_kind(payload);
                if actual == k {
                    Ok(encode_payload(payload))
                } else {
                    Err(SceneError::SerializationError)
                }
            },
        }
    }

    /// Reconstructs a payload from its serialized form under a registered
    /// type name.
    ///
    /// Fails with `UnregisteredType` when the name is absent, and with
    /// `MalformedPayload` when the bytes are not the canonical serialized
    /// form of a value of the registered shape.
    pub fn read(&self, name: &[u8], bytes: &[u8]) -> (r: Result<Payload, SceneError>)
        requires
            self.wf(),
        ensures
            match r {
                Ok(p) => self@.contains_key(name@) && dec_payload(self@[name@], bytes@) == Some(p),
                Err(e) => {
                    &&& (e == SceneError::UnregisteredType <==> !self@.contains_key(name@))
                    &&& (e == SceneError::MalformedPayload <==> self@.contains_key(name@)
                        && dec_payload(self@[name@], bytes@) is None)
                    &&& (e == SceneError::UnregisteredType || e == SceneError::MalformedPayload)
                },
            },
    {
        match self.lookup(name) {
            None => Err(SceneError::UnregisteredType),
            Some(k) => match decode_payload(k, bytes) {
                None => Err(SceneError::MalformedPayload),
                Some(p) => Ok(p),
            },
        }
    }
}

/// The shape of a payload value.
pub fn payload_kind(p: &Payload) -> (k: PayloadKind)
    ensures
        k == kind_of(*p),
{
    match p {
        Payload::Marker => PayloadKind::Marker,
        Payload::BoxDims { .. } => PayloadKind::BoxDims,
        Payload::Transform { .. } => PayloadKind::Transform,
    }
}

} // verus!
