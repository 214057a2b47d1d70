//! Descriptions of typed collections.

use crate::api::names::{self, schema_bucket};
use crate::bytes::{self, append, push_u32_be, same};
use crate::typed::CodecError;
use std::marker::PhantomData;
use vstd::prelude::*;
use vstd::string::StrSliceExecFns;

verus! {

/// Controls how a typed collection is opened in a write transaction.
#[derive(Clone, Copy, Debug, PartialEq, Eq, Structural)]
pub enum OpenPolicy {
    /// The collection must already exist.
    Existing,
    /// The collection must not already exist.
    Create,
    /// Open the collection or create it when absent.
    CreateOrOpen,
}

impl Default for OpenPolicy {
    fn default() -> (r: Self)
        ensures
            r == OpenPolicy::CreateOrOpen,
    {
        OpenPolicy::CreateOrOpen
    }
}

/// A cheap, reusable description of a typed collection.
///
/// Definitions contain no transaction state and are intended to be shared
/// across an application.
#[derive(Debug)]
pub struct CollectionDef<K, V, C> {
    pub name: &'static str,
    /// The buckets that the collection lies in, from the root on.
    pub parents: &'static [&'static str],
    pub schema_id: &'static str,
    pub schema_version: u32,
    pub policy: OpenPolicy,
    pub codec: C,
    pub marker: PhantomData<(K, V)>,
}

impl<K, V, C: Copy> Clone for CollectionDef<K, V, C> {
    fn clone(&self) -> (r: Self)
        ensures
            r == *self,
    {
        CollectionDef {
            name: self.name,
            parents: self.parents,
            schema_id: self.schema_id,
            schema_version: self.schema_version,
            policy: self.policy,
            codec: self.codec,
            marker: PhantomData,
        }
    }
}

impl<K, V, C: Copy> Copy for CollectionDef<K, V, C> {

}

/// The bytes of a name.
pub open spec fn name_bytes(name: Seq<char>) -> Seq<u8> {
    vstd::utf8::encode_utf8(name)
}

/// The names of buckets in a row.
pub open spec fn names_bytes(parts: Seq<&'static str>) -> Seq<Seq<u8>> {
    parts.map_values(|part: &'static str| name_bytes(part@))
}

impl<K, V, C> CollectionDef<K, V, C> {
    /// Where the collection lies.
    pub open spec fn path(&self) -> Seq<Seq<u8>> {
        names_bytes(self.parents@).push(name_bytes(self.name@))
    }

    /// Whether the description can be used.
    pub open spec fn valid(&self) -> bool {
        &&& name_bytes(self.name@).len() > 0
        &&& name_bytes(self.name@) != names::schema_name()
        &&& forall|i: int|
            0 <= i < self.parents@.len() ==> name_bytes((#[trigger] self.parents@[i])@).len() > 0
        &&& name_bytes(self.schema_id@).len() > 0
        &&& self.schema_version != 0
    }

    /// The schema as it is stored.
    pub open spec fn schema_stored(&self) -> Seq<u8> {
        bytes::be_of(self.schema_version as nat, 4) + name_bytes(self.schema_id@)
    }

    /// Defines a root collection. Its initial schema identity is its name and
    /// its initial schema version is one.
    pub fn new(name: &'static str, codec: C) -> (r: Self)
        ensures
            r.name == name,
            r.parents@.len() == 0,
            r.schema_id == name,
            r.schema_version == 1,
            r.policy == OpenPolicy::CreateOrOpen,
            r.codec == codec,
    {
        CollectionDef {
            name,
            parents: &[],
            schema_id: name,
            schema_version: 1,
            policy: OpenPolicy::CreateOrOpen,
            codec,
            marker: PhantomData,
        }
    }

    /// Sets the stable codec/schema identity and version stored in the file.
    pub fn schema(self, id: &'static str, version: u32) -> (r: Self)
        ensures
            r == (CollectionDef { schema_id: id, schema_version: version, ..self }),
    {
        CollectionDef { schema_id: id, schema_version: version, ..self }
    }

    /// Sets how the collection is opened in a write transaction.
    pub fn open_policy(self, policy: OpenPolicy) -> (r: Self)
        ensures
            r == (CollectionDef { policy, ..self }),
    {
        CollectionDef { policy, ..self }
    }

    /// The collection's name.
    pub fn name(&self) -> (r: &'static str)
        ensures
            r == self.name,
    {
        self.name
    }

    /// The schema's identity.
    pub fn schema_id(&self) -> (r: &'static str)
        ensures
            r == self.schema_id,
    {
        self.schema_id
    }

    /// The schema's version.
    pub fn schema_version(&self) -> (r: u32)
        ensures
            r == self.schema_version,
    {
        self.schema_version
    }

    /// How the collection is opened in a write transaction.
    pub fn policy(&self) -> (r: OpenPolicy)
        ensures
            r == self.policy,
    {
        self.policy
    }
}

/// Refuses a description that cannot be used.
pub fn validate_definition<K, V, C>(definition: &CollectionDef<K, V, C>) -> (r: Result<
    (),
    CodecError,
>)
    ensures
        match r {
            Ok(_) => definition.valid(),
            Err(e) => !definition.valid() && e is InvalidDefinition,
        },
{
    let name: Vec<u8> = definition.name.as_bytes_vec();
    if name.len() == 0 || same(&name, &schema_bucket()) {
        return Err(CodecError::InvalidDefinition);
    }
    let mut i: usize = 0;
    while i < definition.parents.len()
        invariant
            i <= definition.parents@.len(),
            forall|j: int|
                0 <= j < i ==> name_bytes((#[trigger] definition.parents@[j])@).len() > 0,
        decreases definition.parents@.len() - i,
    {
        let part: &'static str = definition.parents[i];
        if part.as_bytes_vec().len() == 0 {
            return Err(CodecError::InvalidDefinition);
        }
        i = i + 1;
    }
    if definition.schema_id.as_bytes_vec().len() == 0 || definition.schema_version == 0 {
        return Err(CodecError::InvalidDefinition);
    }
    Ok(())
}

/// The schema of a collection as it is stored.
pub fn schema_bytes<K, V, C>(definition: &CollectionDef<K, V, C>) -> (r: Vec<u8>)
    ensures
        r@ == definition.schema_stored(),
{
    let mut out: Vec<u8> = Vec::new();
    push_u32_be(&mut out, definition.schema_version);
    append(&mut out, &definition.schema_id.as_bytes_vec());
    assert(out@ =~= definition.schema_stored());
    out
}

/// A name with its length before it.
pub open spec fn measured(part: Seq<u8>) -> Seq<u8> {
    bytes::be_of(part.len() % 0x1_0000_0000, 4) + part
}

/// The key under which the schema of a collection at a path is stored.
pub open spec fn schema_key_of(path: Seq<Seq<u8>>) -> Seq<u8>
    decreases path.len(),
{
    if path.len() == 0 {
        Seq::empty()
    } else {
        schema_key_of(path.drop_last()) + measured(path.last())
    }
}

fn push_measured(out: &mut Vec<u8>, part: &Vec<u8>)
    ensures
        final(out)@ == old(out)@ + measured(part@),
{
    let ghost was = out@;
    push_u32_be(out, (part.len() as u64 % 0x1_0000_0000) as u32);
    append(out, part);
    assert(out@ =~= was + measured(part@));
}

/// Where a collection lies.
pub fn path_of<K, V, C>(definition: &CollectionDef<K, V, C>) -> (r: Vec<Vec<u8>>)
    ensures
        crate::api::changes::path_view(r@) == definition.path(),
{
    let ghost parts = names_bytes(definition.parents@);
    let mut out: Vec<Vec<u8>> = Vec::new();
    let mut i: usize = 0;
    assert(crate::api::changes::path_view(out@) =~= parts.take(0));
    while i < definition.parents.len()
        invariant
            i <= definition.parents@.len(),
            parts == names_bytes(definition.parents@),
            crate::api::changes::path_view(out@) == parts.take(i as int),
        decreases definition.parents@.len() - i,
    {
        let ghost was = crate::api::changes::path_view(out@);
        let part: &'static str = definition.parents[i];
        let name: Vec<u8> = part.as_bytes_vec();
        let ghost given = name@;
        out.push(name);
        proof {
            assert(crate::api::changes::path_view(out@) =~= was.push(given));
            assert(parts.take(i + 1) =~= was.push(given));
        }
        i = i + 1;
    }
    let ghost was = crate::api::changes::path_view(out@);
    let name: Vec<u8> = definition.name.as_bytes_vec();
    let ghost given = name@;
    out.push(name);
    proof {
        assert(parts.take(i as int) =~= parts);
        assert(crate::api::changes::path_view(out@) =~= was.push(given));
    }
    out
}

/// The key under which a collection's schema is stored.
pub fn schema_key<K, V, C>(definition: &CollectionDef<K, V, C>) -> (r: Vec<u8>)
    ensures
        r@ == schema_key_of(definition.path()),
{
    let path: Vec<Vec<u8>> = path_of(definition);
    let ghost parts = crate::api::changes::path_view(path@);
    let mut out: Vec<u8> = Vec::new();
    let mut i: usize = 0;
    assert(out@ =~= schema_key_of(parts.take(0)));
    while i < path.len()
        invariant
            i <= path@.len(),
            parts == crate::api::changes::path_view(path@),
            out@ == schema_key_of(parts.take(i as int)),
        decreases path@.len() - i,
    {
        proof {
            assert(parts.take(i + 1).drop_last() =~= parts.take(i as int));
            assert(parts.take(i + 1).last() == path@[i as int]@);
        }
        push_measured(&mut out, &path[i]);
        i = i + 1;
    }
    assert(parts.take(i as int) =~= parts);
    out
}

/// Whether every name is short enough for its length to be stored.
pub open spec fn names_fit(path: Seq<Seq<u8>>) -> bool {
    forall|i: int| 0 <= i < path.len() ==> (#[trigger] path[i]).len() < 0x1_0000_0000
}

proof fn lemma_schema_key_front(path: Seq<Seq<u8>>)
    requires
        path.len() > 0,
    ensures
        schema_key_of(path) == measured(path[0]) + schema_key_of(path.drop_first()),
    decreases path.len(),
{
    if path.len() == 1 {
        assert(path.drop_last() =~= Seq::<Seq<u8>>::empty());
        assert(path.drop_first() =~= Seq::<Seq<u8>>::empty());
        assert(schema_key_of(path.drop_last()) + measured(path[0]) =~= measured(path[0])
            + schema_key_of(path.drop_first()));
    } else {
        lemma_schema_key_front(path.drop_last());
        assert(path.drop_last().drop_first() =~= path.drop_first().drop_last());
        assert(path.drop_first().last() == path.last());
        assert(schema_key_of(path) =~= measured(path[0]) + schema_key_of(path.drop_first()));
    }
}

/// Collections at different places have their schemas under different keys.
#[verifier::rlimit(30)]
#[verifier::spinoff_prover]
pub proof fn law_schema_keys_are_apart(a: Seq<Seq<u8>>, b: Seq<Seq<u8>>)
    requires
        names_fit(a),
        names_fit(b),
        schema_key_of(a) == schema_key_of(b),
    ensures
        a == b,
    decreases a.len(),
{
    let key = schema_key_of(a);
    if a.len() == 0 || b.len() == 0 {
        if a.len() > 0 {
            lemma_schema_key_front(a);
            bytes::lemma_be_of_len(a[0].len() % 0x1_0000_0000, 4);
        }
        if b.len() > 0 {
            lemma_schema_key_front(b);
            bytes::lemma_be_of_len(b[0].len() % 0x1_0000_0000, 4);
        }
        assert(a =~= b);
    } else {
        lemma_schema_key_front(a);
        lemma_schema_key_front(b);
        let n = a[0].len();
        let m = b[0].len();
        bytes::lemma_pow256_widths();
        bytes::lemma_be_of_len(n, 4);
        bytes::lemma_be_of_len(m, 4);
        bytes::lemma_be_round_trip(n, 4);
        bytes::lemma_be_round_trip(m, 4);
        assert(key.take(4) =~= bytes::be_of(n, 4));
        assert(key.take(4) =~= bytes::be_of(m, 4));
        assert(key.subrange(4, 4 + n as int) =~= a[0]);
        assert(key.subrange(4, 4 + m as int) =~= b[0]);
        assert(key.skip(4 + n as int) =~= schema_key_of(a.drop_first()));
        assert(key.skip(4 + m as int) =~= schema_key_of(b.drop_first()));
        assert forall|i: int| 0 <= i < a.drop_first().len() implies (#[trigger] a.drop_first()[i]).len()
            < 0x1_0000_0000 by {
            assert(a.drop_first()[i] == a[i + 1]);
        }
        assert forall|i: int| 0 <= i < b.drop_first().len() implies (#[trigger] b.drop_first()[i]).len()
            < 0x1_0000_0000 by {
            assert(b.drop_first()[i] == b[i + 1]);
        }
        law_schema_keys_are_apart(a.drop_first(), b.drop_first());
        assert(a =~= seq![a[0]] + a.drop_first());
        assert(b =~= seq![b[0]] + b.drop_first());
    }
}

} // verus!
