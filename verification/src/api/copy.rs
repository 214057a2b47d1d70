//! Copying a bucket with all that is in it.

use crate::api::tree::{self, Item, Leaf, Node};
use crate::assoc;
use crate::bytes::owned;
use crate::error::Error;
use vstd::prelude::*;

verus! {

/// Copies a bucket into an empty one: pairs, nested buckets and counters.
pub fn copy_bucket(source: &Node, target: &mut Node)
    requires
        source.wf(),
        old(target).wf(),
        old(target)@ == tree::empty_tree(),
    ensures
        final(target).wf(),
        final(target)@ == source@,
    decreases source@,
{
    let ghost s = tree::items_listed(source.leaves());
    let mut i: usize = 0;
    proof {
        source.lemma_leaves();
        crate::bytemap::lemma_ascending_distinct(s);
        assert(s.take(0) =~= Seq::<(Seq<u8>, Item)>::empty());
        assert(target@.items =~= assoc::assoc(s.take(0)));
    }
    while i < source.len()
        invariant
            source.wf(),
            target.wf(),
            s == tree::items_listed(source.leaves()),
            assoc::distinct(s),
            i <= s.len(),
            target@.items == assoc::assoc(s.take(i as int)),
        decreases s.len() - i,
    {
        let ghost was = target@;
        let key: &Vec<u8> = source.key_at(i);
        let leaf: &Leaf = source.leaf_at(i);
        proof {
            source.lemma_leaves();
            leaf.lemma_item();
            assert(s[i as int] == (key@, leaf.item()));
            assert(s.take(i + 1).drop_last() =~= s.take(i as int));
            assert(!was.items.contains_key(key@)) by {
                assoc::lemma_assoc_has(s.take(i as int), key@);
                if assoc::has_key(s.take(i as int), key@) {
                    let f = s.take(i as int);
                    let j = choose|j: int| 0 <= j < f.len() && (#[trigger] f[j]).0 == key@;
                    assert(s[j].0 != s[i as int].0);
                }
            }
            assert(source@.items.contains_key(key@));
        }
        match leaf {
            Leaf::Kv(value) => {
                let _before: Result<Option<Vec<u8>>, Error> = target.put(key, owned(value));
            },
            Leaf::Bucket(child) => {
                let _made: Result<(), Error> = target.create_bucket(key);
                let ghost made = target@;
                proof {
                    assert(child@ == source@.items[key@]->Bucket_0);
                    assert(decreases_to!(source@ => source@.items[key@]->Bucket_0));
                }
                match target.child_mut(key) {
                    Ok(place) => copy_bucket(&**child, place),
                    Err(_) => {},
                }
                assert(target@.items =~= was.items.insert(key@, leaf.item()));
            },
        }
        i = i + 1;
    }
    target.set_next_int(source.next_int());
    proof {
        source.lemma_leaves();
        assert(s.take(i as int) =~= s);
    }
}

/// A bucket of its own with the same contents.
pub fn copied(source: &Node) -> (r: Node)
    requires
        source.wf(),
    ensures
        r.wf(),
        r@ == source@,
{
    let mut target: Node = Node::new();
    copy_bucket(source, &mut target);
    target
}

} // verus!
