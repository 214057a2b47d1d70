//! Opening typed collections in a transaction.

use crate::api::bucket::{self, create_at, ensure_at, path_below, Bucket, Space};
use crate::api::changes::{self, ChangeTracker};
use crate::api::names::{self, schema_bucket};
use crate::api::tree::{self, Node, Tree};
use crate::api::tx::Tx;
use crate::application::collection::ReadCollection;
use crate::application::definition::{
    self, path_of, schema_bytes, schema_key, validate_definition, CollectionDef, OpenPolicy,
};
use crate::application::writing::WriteCollection;
use crate::bytes::same;
use crate::error::Error;
use crate::typed::{CodecError, KeyCodec, ValueCodec};
use std::marker::PhantomData;
use vstd::prelude::*;

verus! {

/// The bucket at a path.
pub open spec fn at_path(t: Tree, path: Seq<Seq<u8>>) -> Result<Tree, Error>
    decreases path.len(),
{
    if path.len() == 0 {
        Ok(t)
    } else {
        match tree::child_of(t, path[0]) {
            Ok(child) => at_path(child, path.drop_first()),
            Err(e) => Err(e),
        }
    }
}

/// A bucket in which the one at a path is replaced.
pub open spec fn with_at(t: Tree, path: Seq<Seq<u8>>, sub: Tree) -> Tree
    decreases path.len(),
{
    if path.len() == 0 {
        sub
    } else {
        tree::with_child(
            t,
            path[0],
            with_at(tree::child_of(t, path[0])->Ok_0, path.drop_first(), sub),
        )
    }
}

/// Making the buckets of a path, as far as they are not there; with `fresh`,
/// the last of them must not be there.
pub open spec fn laid(s: Space, at: Seq<Seq<u8>>, rest: Seq<Seq<u8>>, fresh: bool) -> (
    Result<(), Error>,
    Space,
)
    decreases rest.len(),
{
    if rest.len() == 0 {
        (Ok(()), s)
    } else {
        let (made, s) = if fresh && rest.len() == 1 {
            bucket::create(s, at, rest[0])
        } else {
            bucket::ensure(s, at, rest[0])
        };
        match made {
            Err(e) => (Err(e), s),
            Ok(_) => {
                let child = Space { tree: tree::child_of(s.tree, rest[0])->Ok_0, log: s.log };
                let (r, child) = laid(child, at.push(rest[0]), rest.drop_first(), fresh);
                (
                    r,
                    Space { tree: tree::with_child(s.tree, rest[0], child.tree), log: child.log },
                )
            },
        }
    }
}

/// What is wrong with the schema of a collection, if anything is.
pub open spec fn schema_verdict<K, V, C>(schemas: Tree, def: CollectionDef<K, V, C>) -> Result<
    (),
    CodecError,
> {
    match tree::value_of(schemas, definition::schema_key_of(def.path())) {
        None => Err(CodecError::SchemaMissing { collection: def.name }),
        Some(stored) => if stored == def.schema_stored() {
            Ok(())
        } else {
            Err(
                CodecError::SchemaMismatch {
                    collection: def.name,
                    expected_id: def.schema_id,
                    expected_version: def.schema_version,
                },
            )
        },
    }
}

/// Making the bucket of a collection, or finding it, as its definition asks.
pub open spec fn placed<K, V, C>(s: Space, writable: bool, def: CollectionDef<K, V, C>) -> (
    Result<(), Error>,
    Space,
) {
    match def.policy {
        OpenPolicy::Existing => match at_path(s.tree, def.path()) {
            Ok(_) => (Ok(()), s),
            Err(e) => (Err(e), s),
        },
        OpenPolicy::Create => if writable {
            laid(s, Seq::empty(), def.path(), true)
        } else {
            (Err(Error::ReadOnlyTx), s)
        },
        OpenPolicy::CreateOrOpen => if writable {
            laid(s, Seq::empty(), def.path(), false)
        } else {
            (Err(Error::ReadOnlyTx), s)
        },
    }
}

/// Checking the schema of a collection, or storing that of a new one.
pub open spec fn enrolled<K, V, C>(s: Space, def: CollectionDef<K, V, C>, existed: bool) -> (
    Result<(), CodecError>,
    Space,
) {
    match bucket::ensure(s, Seq::empty(), names::schema_name()) {
        (Err(e), s) => (Err(CodecError::Storage(e)), s),
        (Ok(_), s) => {
            let schemas = tree::child_of(s.tree, names::schema_name())->Ok_0;
            if existed {
                (schema_verdict(schemas, def), s)
            } else {
                let (stored, after) = bucket::put(
                    Space { tree: schemas, log: s.log },
                    seq![names::schema_name()],
                    definition::schema_key_of(def.path()),
                    def.schema_stored(),
                );
                (
                    match stored {
                        Ok(_) => Ok(()),
                        Err(e) => Err(CodecError::Storage(e)),
                    },
                    Space {
                        tree: tree::with_child(s.tree, names::schema_name(), after.tree),
                        log: after.log,
                    },
                )
            }
        },
    }
}

/// Opening a collection to write to it.
pub open spec fn opened<K, V, C>(s: Space, writable: bool, def: CollectionDef<K, V, C>) -> (
    Result<(), CodecError>,
    Space,
) {
    if !def.valid() {
        (Err(CodecError::InvalidDefinition), s)
    } else {
        match placed(s, writable, def) {
            (Err(e), after) => (Err(CodecError::Storage(e)), after),
            (Ok(_), after) => if !writable {
                (Err(CodecError::Storage(Error::ReadOnlyTx)), after)
            } else {
                enrolled(after, def, at_path(s.tree, def.path()) is Ok)
            },
        }
    }
}

/// Buckets that were made are there.
proof fn lemma_laid(s: Space, at: Seq<Seq<u8>>, rest: Seq<Seq<u8>>, fresh: bool)
    requires
        laid(s, at, rest, fresh).0 is Ok,
    ensures
        at_path(laid(s, at, rest, fresh).1.tree, rest) is Ok,
    decreases rest.len(),
{
    if rest.len() > 0 {
        let s1 = if fresh && rest.len() == 1 {
            bucket::create(s, at, rest[0]).1
        } else {
            bucket::ensure(s, at, rest[0]).1
        };
        let child = Space { tree: tree::child_of(s1.tree, rest[0])->Ok_0, log: s1.log };
        lemma_laid(child, at.push(rest[0]), rest.drop_first(), fresh);
    }
}

/// Buckets stay where they are when a schema is stored.
proof fn lemma_enrolled<K, V, C>(s: Space, def: CollectionDef<K, V, C>, existed: bool)
    requires
        at_path(s.tree, def.path()) is Ok,
        enrolled(s, def, existed).0 is Ok,
    ensures
        at_path(enrolled(s, def, existed).1.tree, def.path()) is Ok,
{
    let path = def.path();
    let s1 = bucket::ensure(s, Seq::empty(), names::schema_name()).1;
    let schemas = tree::child_of(s1.tree, names::schema_name())->Ok_0;
    let rest = path.drop_first();
    assert(tree::child_of(s1.tree, path[0]) == tree::child_of(s.tree, path[0]));
    assert(at_path(s1.tree, path) == at_path(s.tree, path));
    if !existed {
        let after = enrolled(s, def, existed).1;
        if path[0] == names::schema_name() {
            let child = tree::child_of(after.tree, path[0])->Ok_0;
            assert(at_path(s1.tree, path) == at_path(schemas, rest));
            assert(at_path(after.tree, path) == at_path(child, rest));
            if rest.len() > 0 {
                assert(tree::child_of(schemas, rest[0]) is Ok);
                assert(tree::child_of(child, rest[0]) == tree::child_of(schemas, rest[0]));
                assert(at_path(child, rest) == at_path(schemas, rest));
            }
        } else {
            assert(tree::child_of(after.tree, path[0]) == tree::child_of(s1.tree, path[0]));
            assert(at_path(after.tree, path) == at_path(s1.tree, path));
        }
    }
}

/// The bucket at a path, from the `i`th part on.
pub fn find_below<'a>(node: &'a Node, path: &Vec<Vec<u8>>, i: usize) -> (r: Result<&'a Node, Error>)
    requires
        node.wf(),
        i <= path@.len(),
    ensures
        match r {
            Ok(found) => found.wf() && at_path(
                node@,
                changes::path_view(path@).skip(i as int),
            ) == Ok::<Tree, Error>(found@),
            Err(e) => at_path(node@, changes::path_view(path@).skip(i as int)) == Err::<
                Tree,
                Error,
            >(e),
        },
    decreases path@.len() - i,
{
    let ghost rest = changes::path_view(path@).skip(i as int);
    if i == path.len() {
        return Ok(node);
    }
    assert(rest.drop_first() =~= changes::path_view(path@).skip(i + 1));
    assert(rest[0] == path@[i as int]@);
    match node.child(&path[i]) {
        Ok(child) => find_below(child, path, i + 1),
        Err(e) => Err(e),
    }
}

/// The bucket at a path, from the `i`th part on, to be changed.
pub fn find_below_mut<'a>(node: &'a mut Node, path: &Vec<Vec<u8>>, i: usize) -> (r: Result<
    &'a mut Node,
    Error,
>)
    requires
        old(node).wf(),
        i <= path@.len(),
    ensures
        match r {
            Ok(found) => found.wf() && at_path(
                old(node)@,
                changes::path_view(path@).skip(i as int),
            ) == Ok::<Tree, Error>(found@) && (final(found).wf() ==> final(node).wf() && final(
                node
            )@ == with_at(
                old(node)@,
                changes::path_view(path@).skip(i as int),
                final(found)@,
            )),
            Err(e) => at_path(old(node)@, changes::path_view(path@).skip(i as int)) == Err::<
                Tree,
                Error,
            >(e) && final(node).wf() && final(node)@ == old(node)@,
        },
    decreases path@.len() - i,
{
    let ghost rest = changes::path_view(path@).skip(i as int);
    let ghost t = node@;
    if i == path.len() {
        return Ok(node);
    }
    proof {
        assert(rest.drop_first() =~= changes::path_view(path@).skip(i + 1));
        assert(rest[0] == path@[i as int]@);
        if tree::child_of(t, rest[0]) is Ok {
            assert(tree::with_child(t, rest[0], tree::child_of(t, rest[0])->Ok_0).items
                =~= t.items);
        }
    }
    match node.child_mut(&path[i]) {
        Ok(child) => find_below_mut(child, path, i + 1),
        Err(e) => Err(e),
    }
}

/// Makes the buckets of a path, from the `i`th part on.
fn lay(
    node: &mut Node,
    log: &mut ChangeTracker,
    at: Vec<Vec<u8>>,
    path: &Vec<Vec<u8>>,
    i: usize,
    fresh: bool,
) -> (r: Result<(), Error>)
    requires
        old(node).wf(),
        old(log).wf(),
        i <= path@.len(),
    ensures
        final(node).wf(),
        final(log).wf(),
        (r, bucket::space(*final(node), *final(log))) == laid(
            bucket::space(*old(node), *old(log)),
            changes::path_view(at@),
            changes::path_view(path@).skip(i as int),
            fresh,
        ),
    decreases path@.len() - i,
{
    let ghost rest = changes::path_view(path@).skip(i as int);
    if i == path.len() {
        return Ok(());
    }
    proof {
        assert(rest.drop_first() =~= changes::path_view(path@).skip(i + 1));
        assert(rest[0] == path@[i as int]@);
    }
    let made: Result<(), Error> = if fresh && i == path.len() - 1 {
        create_at(node, log, &at, &path[i])
    } else {
        ensure_at(node, log, &at, &path[i])
    };
    match made {
        Err(e) => return Err(e),
        Ok(_) => {},
    }
    let below: Vec<Vec<u8>> = path_below(&at, &path[i]);
    match node.child_mut(&path[i]) {
        Ok(child) => lay(child, log, below, path, i + 1, fresh),
        Err(e) => Err(e),
    }
}

/// Checks the schema of a collection.
pub fn check_schema<K, V, C>(schemas: &Node, def: &CollectionDef<K, V, C>) -> (r: Result<
    (),
    CodecError,
>)
    requires
        schemas.wf(),
    ensures
        r == schema_verdict(schemas@, *def),
{
    match schemas.get_kv(&schema_key(def)) {
        None => Err(CodecError::SchemaMissing { collection: def.name }),
        Some(stored) => if same(stored, &schema_bytes(def)) {
            Ok(())
        } else {
            Err(
                CodecError::SchemaMismatch {
                    collection: def.name,
                    expected_id: def.schema_id,
                    expected_version: def.schema_version,
                },
            )
        },
    }
}

impl Tx {
    /// Opens a reusable typed collection with read-only capabilities.
    pub fn collection<'a, K, V, C: KeyCodec<K> + ValueCodec<V>>(
        &'a self,
        def: &'a CollectionDef<K, V, C>,
    ) -> (r: Result<ReadCollection<'a, K, V, C>, CodecError>)
        requires
            self.wf(),
        ensures
            match r {
                Ok(c) => {
                    &&& def.valid()
                    &&& at_path(self.root@, def.path()) == Ok::<Tree, Error>(c.node@)
                    &&& tree::child_of(self.root@, names::schema_name()) matches Ok(schemas)
                        && schema_verdict(schemas, *def) == Ok::<(), CodecError>(())
                    &&& c.wf()
                    &&& *c.codec == def.codec
                },
                Err(e) => if !def.valid() {
                    e is InvalidDefinition
                } else {
                    match at_path(self.root@, def.path()) {
                        Err(f) => e == CodecError::Storage(f),
                        Ok(_) => match tree::child_of(self.root@, names::schema_name()) {
                            Err(f) => e == CodecError::Storage(f),
                            Ok(schemas) => schema_verdict(schemas, *def) == Err::<(), CodecError>(
                                e,
                            ),
                        },
                    }
                },
            },
    {
        match validate_definition(def) {
            Ok(_) => {},
            Err(e) => return Err(e),
        }
        let path: Vec<Vec<u8>> = path_of(def);
        assert(changes::path_view(path@).skip(0) =~= changes::path_view(path@));
        let node: &'a Node = match find_below(&self.root, &path, 0) {
            Ok(node) => node,
            Err(e) => return Err(CodecError::Storage(e)),
        };
        let schemas: &Node = match self.root.child(&schema_bucket()) {
            Ok(schemas) => schemas,
            Err(e) => return Err(CodecError::Storage(e)),
        };
        match check_schema(schemas, def) {
            Ok(_) => {},
            Err(e) => return Err(e),
        }
        Ok(ReadCollection { node, codec: &def.codec, marker: PhantomData })
    }

    /// Makes the bucket of a collection, or finds it.
    fn place<K, V, C>(&mut self, def: &CollectionDef<K, V, C>, path: &Vec<Vec<u8>>) -> (r: Result<
        (),
        Error,
    >)
        requires
            old(self).wf(),
            changes::path_view(path@) == def.path(),
        ensures
            final(self).wf(),
            final(self).id == old(self).id,
            final(self).writable == old(self).writable,
            (r, final(self).space()) == placed(old(self).space(), old(self).writable, *def),
    {
        assert(changes::path_view(path@).skip(0) =~= changes::path_view(path@));
        let at: Vec<Vec<u8>> = Vec::new();
        assert(changes::path_view(at@) =~= Seq::<Seq<u8>>::empty());
        match def.policy {
            OpenPolicy::Existing => match find_below(&self.root, path, 0) {
                Ok(_) => Ok(()),
                Err(e) => Err(e),
            },
            OpenPolicy::Create => {
                if !self.writable {
                    return Err(Error::ReadOnlyTx);
                }
                lay(&mut self.root, &mut self.log, at, path, 0, true)
            },
            OpenPolicy::CreateOrOpen => {
                if !self.writable {
                    return Err(Error::ReadOnlyTx);
                }
                lay(&mut self.root, &mut self.log, at, path, 0, false)
            },
        }
    }

    /// Checks the schema of a collection, or stores that of a new one.
    fn enroll<K, V, C>(&mut self, def: &CollectionDef<K, V, C>, existed: bool) -> (r: Result<
        (),
        CodecError,
    >)
        requires
            old(self).wf(),
            old(self).writable,
        ensures
            final(self).wf(),
            final(self).id == old(self).id,
            final(self).writable == old(self).writable,
            (r, final(self).space()) == enrolled(old(self).space(), *def, existed),
    {
        let at: Vec<Vec<u8>> = Vec::new();
        assert(changes::path_view(at@) =~= Seq::<Seq<u8>>::empty());
        let name: Vec<u8> = schema_bucket();
        match ensure_at(&mut self.root, &mut self.log, &at, &name) {
            Ok(_) => {},
            Err(e) => return Err(CodecError::Storage(e)),
        }
        if existed {
            return match self.root.child(&name) {
                Ok(schemas) => check_schema(schemas, def),
                Err(e) => Err(CodecError::Storage(e)),
            };
        }
        match self.get_bucket(&name) {
            Ok(mut schemas) => match schemas.put(&schema_key(def), schema_bytes(def)) {
                Ok(_) => Ok(()),
                Err(e) => Err(CodecError::Storage(e)),
            },
            Err(e) => Err(CodecError::Storage(e)),
        }
    }

    /// Opens a collection to write to it, and tells where it is.
    pub fn open_collection<K, V, C>(&mut self, def: &CollectionDef<K, V, C>) -> (r: Result<
        Vec<Vec<u8>>,
        CodecError,
    >)
        requires
            old(self).wf(),
        ensures
            final(self).wf(),
            final(self).id == old(self).id,
            final(self).writable == old(self).writable,
            ({
                let (want, after) = opened(old(self).space(), old(self).writable, *def);
                &&& final(self).space() == after
                &&& match r {
                    Ok(path) => {
                        &&& want is Ok
                        &&& old(self).writable
                        &&& changes::path_view(path@) == def.path()
                        &&& at_path(after.tree, def.path()) is Ok
                    },
                    Err(e) => want == Err::<(), CodecError>(e),
                }
            }),
    {
        match validate_definition(def) {
            Ok(_) => {},
            Err(e) => return Err(e),
        }
        let path: Vec<Vec<u8>> = path_of(def);
        assert(changes::path_view(path@).skip(0) =~= changes::path_view(path@));
        let existed: bool = find_below(&self.root, &path, 0).is_ok();
        let ghost start = self.space();
        match self.place(def, &path) {
            Ok(_) => {},
            Err(e) => return Err(CodecError::Storage(e)),
        }
        if !self.writable {
            return Err(CodecError::Storage(Error::ReadOnlyTx));
        }
        let ghost laid_out = self.space();
        match self.enroll(def, existed) {
            Ok(_) => {},
            Err(e) => return Err(e),
        }
        proof {
            match def.policy {
                OpenPolicy::Existing => {},
                OpenPolicy::Create => lemma_laid(start, Seq::empty(), def.path(), true),
                OpenPolicy::CreateOrOpen => lemma_laid(start, Seq::empty(), def.path(), false),
            }
            lemma_enrolled(laid_out, *def, existed);
        }
        Ok(path)
    }

    /// The bucket at a path, as far as it is there.
    pub fn bucket_at(&mut self, path: Vec<Vec<u8>>) -> (r: Result<Bucket<'_>, Error>)
        requires
            old(self).wf(),
        ensures
            match r {
                Ok(b) => {
                    &&& at_path(old(self).root@, changes::path_view(path@)) == Ok::<Tree, Error>(
                        b.space().tree,
                    )
                    &&& b.wf()
                    &&& b.space().log == old(self).log@
                    &&& b.path == path
                    &&& b.writable == old(self).writable
                    &&& final(self).id == old(self).id
                    &&& final(self).writable == old(self).writable
                    &&& final(self).log == *final(b.log)
                    &&& final(b.node).wf() ==> final(self).root.wf() && final(self).root@
                        == with_at(old(self).root@, changes::path_view(path@), final(b.node)@)
                },
                Err(e) => at_path(old(self).root@, changes::path_view(path@)) == Err::<
                    Tree,
                    Error,
                >(e) && final(self).wf() && final(self).space() == old(self).space()
                    && final(self).id == old(self).id && final(self).writable == old(self).writable,
            },
    {
        assert(changes::path_view(path@).skip(0) =~= changes::path_view(path@));
        match find_below_mut(&mut self.root, &path, 0) {
            Ok(node) => Ok(Bucket { node, log: &mut self.log, path, writable: self.writable }),
            Err(e) => Err(e),
        }
    }

    /// Opens a reusable typed collection with write capabilities.
    pub fn collection_mut<'a, K, V, C: KeyCodec<K> + ValueCodec<V>>(
        &'a mut self,
        def: &'a CollectionDef<K, V, C>,
    ) -> (r: Result<WriteCollection<'a, K, V, C>, CodecError>)
        requires
            old(self).wf(),
        ensures
            final(self).id == old(self).id,
            final(self).writable == old(self).writable,
            ({
                let (want, after) = opened(old(self).space(), old(self).writable, *def);
                match r {
                    Ok(c) => {
                        &&& want is Ok
                        &&& at_path(after.tree, def.path()) == Ok::<Tree, Error>(
                            c.raw.space().tree,
                        )
                        &&& c.raw.space().log == after.log
                        &&& c.wf()
                        &&& c.raw.at() == def.path()
                        &&& *c.codec == def.codec
                        &&& final(self).log == *final(c.raw.log)
                        &&& final(c.raw.node).wf() ==> final(self).root.wf() && final(self).root@
                            == with_at(after.tree, def.path(), final(c.raw.node)@)
                    },
                    Err(e) => want == Err::<(), CodecError>(e) && final(self).wf() && final(
                        self
                    ).space() == after,
                }
            }),
    {
        let path: Vec<Vec<u8>> = match self.open_collection(def) {
            Ok(path) => path,
            Err(e) => return Err(e),
        };
        match self.bucket_at(path) {
            Ok(raw) => Ok(WriteCollection { raw, codec: &def.codec, marker: PhantomData }),
            Err(e) => vstd::pervasive::unreached(),
        }
    }
}

} // verus!
