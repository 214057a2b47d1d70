//! What holds of opening typed collections.

use crate::api::bucket::{self, Space};
use crate::api::names;
use crate::api::tree;
use crate::application::batch_laws;
use crate::application::definition::{self, CollectionDef, OpenPolicy};
use crate::application::open;
use crate::bytes;
use crate::error::Error;
use crate::typed::CodecError;
use vstd::prelude::*;

verus! {

/// Making the buckets on a path fails just where a value stands in the way, or
/// where the last is to be new and is there. The bucket at its end is then the
/// one that was there, or an empty one.
pub proof fn law_path_is_made(s: Space, at: Seq<Seq<u8>>, path: Seq<Seq<u8>>, fresh: bool)
    ensures
        open::laid(s, at, path, fresh).0 is Ok <==> tree::unobstructed(s.tree, path) && !(fresh
            && path.len() > 0 && tree::bucket_at(s.tree, path) is Some),
        open::laid(s, at, path, fresh).0 is Ok ==> tree::bucket_at(
            open::laid(s, at, path, fresh).1.tree,
            path,
        ) == Some(
            match tree::bucket_at(s.tree, path) {
                Some(b) => b,
                None => tree::empty_tree(),
            },
        ),
    decreases path.len(),
{
    if path.len() > 0 {
        let (made, mid) = if fresh && path.len() == 1 {
            bucket::create(s, at, path[0])
        } else {
            bucket::ensure(s, at, path[0])
        };
        let rest = path.drop_first();
        if made is Ok {
            let child = Space { tree: tree::child_of(mid.tree, path[0])->Ok_0, log: mid.log };
            law_path_is_made(child, at.push(path[0]), rest, fresh);
            let end = open::laid(child, at.push(path[0]), rest, fresh).1;
            assert(tree::bucket_at(tree::with_child(mid.tree, path[0], end.tree), path)
                == tree::bucket_at(end.tree, rest));
            if !s.tree.items.contains_key(path[0]) {
                assert(child.tree == tree::empty_tree());
                assert(tree::unobstructed(child.tree, rest));
                if rest.len() > 0 {
                    assert(tree::bucket_at(child.tree, rest) is None);
                } else {
                    assert(tree::bucket_at(child.tree, rest) == Some(child.tree));
                }
            } else {
                assert(tree::bucket_at(s.tree, path) == tree::bucket_at(child.tree, rest));
            }
        } else if s.tree.items.contains_key(path[0]) && s.tree.items[path[0]] is Bucket {
            assert(rest =~= Seq::<Seq<u8>>::empty());
            assert(tree::bucket_at(s.tree.items[path[0]]->Bucket_0, rest) is Some);
        }
    }
}

/// Making the buckets on a path leaves every value and every bucket where it
/// was, whether or not it comes to its end.
pub proof fn law_making_a_path_keeps_everything(
    s: Space,
    at: Seq<Seq<u8>>,
    path: Seq<Seq<u8>>,
    fresh: bool,
    p: Seq<Seq<u8>>,
    k: Seq<u8>,
)
    ensures
        tree::value_at(open::laid(s, at, path, fresh).1.tree, p, k) == tree::value_at(s.tree, p, k),
        tree::bucket_at(s.tree, p) is Some ==> tree::bucket_at(
            open::laid(s, at, path, fresh).1.tree,
            p,
        ) is Some,
    decreases path.len(),
{
    if path.len() > 0 {
        let (made, mid) = if fresh && path.len() == 1 {
            bucket::create(s, at, path[0])
        } else {
            bucket::ensure(s, at, path[0])
        };
        let rest = path.drop_first();
        let after = open::laid(s, at, path, fresh).1.tree;
        if made is Ok {
            let child = Space { tree: tree::child_of(mid.tree, path[0])->Ok_0, log: mid.log };
            let end = open::laid(child, at.push(path[0]), rest, fresh).1;
            assert(after == tree::with_child(mid.tree, path[0], end.tree));
            if p.len() == 0 {
                assert(tree::value_of(after, k) == tree::value_of(s.tree, k));
            } else if p[0] == path[0] {
                law_making_a_path_keeps_everything(
                    child,
                    at.push(path[0]),
                    rest,
                    fresh,
                    p.drop_first(),
                    k,
                );
                assert(tree::bucket_at(after, p) == tree::bucket_at(end.tree, p.drop_first()));
                if !s.tree.items.contains_key(path[0]) {
                    assert(child.tree == tree::empty_tree());
                    assert(tree::value_at(child.tree, p.drop_first(), k) is None) by {
                        let q = p.drop_first();
                        assert(q.len() == 0 || tree::bucket_at(child.tree, q) is None);
                    }
                }
            } else {
                assert(tree::bucket_at(after, p) == tree::bucket_at(s.tree, p));
            }
        }
    }
}

/// Where the whole path is there already, making it changes nothing.
proof fn lemma_laid_again(s: Space, at: Seq<Seq<u8>>, path: Seq<Seq<u8>>)
    requires
        tree::bucket_at(s.tree, path) is Some,
    ensures
        open::laid(s, at, path, false) == (Ok::<(), Error>(()), s),
    decreases path.len(),
{
    if path.len() > 0 {
        let child = Space { tree: tree::child_of(s.tree, path[0])->Ok_0, log: s.log };
        lemma_laid_again(child, at.push(path[0]), path.drop_first());
        assert(tree::with_child(s.tree, path[0], child.tree).items =~= s.tree.items);
    }
}

/// What is at the end of a path and what schema is on record once a collection
/// was opened.
proof fn lemma_opened<K, V, C>(s: Space, def: CollectionDef<K, V, C>)
    requires
        open::opened(s, true, def).0 is Ok,
        def.path()[0] != names::schema_name(),
    ensures
        ({
            let after = open::opened(s, true, def).1;
            &&& def.valid()
            &&& tree::bucket_at(after.tree, def.path()) is Some
            &&& open::at_path(after.tree, def.path()) is Ok
            &&& tree::child_of(after.tree, names::schema_name()) is Ok
            &&& tree::value_of(
                tree::child_of(after.tree, names::schema_name())->Ok_0,
                definition::schema_key_of(def.path()),
            ) == Some(def.schema_stored())
        }),
{
    let path = def.path();
    let mid = open::placed(s, true, def).1;
    let after = open::opened(s, true, def).1;
    assert(path.len() > 0);
    batch_laws::lemma_at_path(s.tree, path);
    match def.policy {
        OpenPolicy::Existing => {},
        OpenPolicy::Create => law_path_is_made(s, Seq::empty(), path, true),
        OpenPolicy::CreateOrOpen => law_path_is_made(s, Seq::empty(), path, false),
    }
    assert(tree::bucket_at(mid.tree, path) is Some);
    assert(tree::bucket_at(after.tree, path) == tree::bucket_at(mid.tree, path));
    batch_laws::lemma_at_path(after.tree, path);
}

/// A collection that was opened opens again, by a description with the same
/// path and the same schema, and nothing changes by it; it is not created anew.
pub proof fn law_opened_collection_opens_again<K, V, C>(
    s: Space,
    def: CollectionDef<K, V, C>,
    again: CollectionDef<K, V, C>,
)
    requires
        open::opened(s, true, def).0 is Ok,
        def.path()[0] != names::schema_name(),
        again.path() == def.path(),
        again.schema_id == def.schema_id,
        again.schema_version == def.schema_version,
        again.valid(),
    ensures
        ({
            let after = open::opened(s, true, def).1;
            if again.policy is Create {
                open::opened(after, true, again).0 is Err
            } else {
                open::opened(after, true, again) == (Ok::<(), CodecError>(()), after)
            }
        }),
{
    let after = open::opened(s, true, def).1;
    lemma_opened(s, def);
    match again.policy {
        OpenPolicy::Existing => {},
        OpenPolicy::Create => law_path_is_made(after, Seq::empty(), again.path(), true),
        OpenPolicy::CreateOrOpen => lemma_laid_again(after, Seq::empty(), again.path()),
    }
}

/// A collection does not open by a description with another schema, be it
/// another version or another identity.
pub proof fn law_other_schemas_are_refused<K, V, C>(
    s: Space,
    def: CollectionDef<K, V, C>,
    other: CollectionDef<K, V, C>,
)
    requires
        open::opened(s, true, def).0 is Ok,
        def.path()[0] != names::schema_name(),
        other.path() == def.path(),
        other.valid(),
        !(other.policy is Create),
        other.schema_version != def.schema_version || definition::name_bytes(other.schema_id@)
            != definition::name_bytes(def.schema_id@),
    ensures
        open::opened(open::opened(s, true, def).1, true, other).0 matches Err(
            CodecError::SchemaMismatch { collection, expected_id, expected_version },
        ) && collection == other.name && expected_id == other.schema_id && expected_version
            == other.schema_version,
{
    let after = open::opened(s, true, def).1;
    lemma_opened(s, def);
    match other.policy {
        OpenPolicy::Existing => {},
        OpenPolicy::Create => {},
        OpenPolicy::CreateOrOpen => lemma_laid_again(after, Seq::empty(), other.path()),
    }
    if other.schema_stored() == def.schema_stored() {
        let a = other.schema_stored();
        reveal_with_fuel(bytes::pow256, 5);
        bytes::lemma_be_round_trip(other.schema_version as nat, 4);
        bytes::lemma_be_round_trip(def.schema_version as nat, 4);
        assert(a.take(4) =~= bytes::be_of(other.schema_version as nat, 4));
        assert(a.take(4) =~= bytes::be_of(def.schema_version as nat, 4));
        assert(a.skip(4) =~= definition::name_bytes(other.schema_id@));
        assert(a.skip(4) =~= definition::name_bytes(def.schema_id@));
    }
}

} // verus!
