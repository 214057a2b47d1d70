//! Bucket paths: the names from the top down, each behind its length.

use crate::bytes::{self, append, push_u32_le, starts_with, u32_le_at};
use crate::error::Error;
use vstd::prelude::*;
use vstd::slice::slice_subrange;

verus! {

/// The path of the bucket `name` in the bucket at `parent`.
pub open spec fn child_of(parent: Seq<u8>, name: Seq<u8>) -> Seq<u8> {
    parent + bytes::le_of(name.len(), 4) + name
}

/// Where the last name of a path begins that is read on from `cursor`;
/// `previous` is where the name before began.
pub open spec fn last_start(path: Seq<u8>, cursor: int, previous: int) -> Option<int>
    decreases path.len() - cursor,
{
    if cursor >= path.len() {
        Some(previous)
    } else {
        let next = cursor + 4 + bytes::le_at(path, cursor, 4);
        if cursor + 4 > path.len() || next > path.len() {
            None
        } else {
            last_start(path, next, cursor)
        }
    }
}

/// The path of the bucket that holds the one at `path`; a path at the top is
/// its own, and what is no path has none.
pub open spec fn parent_of(path: Seq<u8>) -> Option<Seq<u8>> {
    match last_start(path, 0, 0) {
        None => None,
        Some(p) => Some(path.take(p)),
    }
}

/// The last name of a path.
pub open spec fn name_of(path: Seq<u8>) -> Option<Seq<u8>> {
    match last_start(path, 0, 0) {
        None => None,
        Some(p) => if path.len() == 0 {
            None
        } else {
            Some(path.subrange(p + 4, path.len() as int))
        },
    }
}

/// Whether `path` is a list of names.
pub open spec fn is_path(path: Seq<u8>) -> bool {
    last_start(path, 0, 0) is Some
}

/// The path of a top-level bucket.
pub fn root_path(name: &[u8]) -> (r: Result<Vec<u8>, Error>)
    ensures
        match r {
            Ok(path) => name@.len() <= u32::MAX && path@ == child_of(Seq::empty(), name@),
            Err(e) => name@.len() > u32::MAX && e == Error::TooLarge,
        },
{
    let top: Vec<u8> = Vec::new();
    child_path(&top, name)
}

/// The path of a bucket in another.
pub fn child_path(parent: &[u8], name: &[u8]) -> (r: Result<Vec<u8>, Error>)
    ensures
        match r {
            Ok(path) => name@.len() <= u32::MAX && path@ == child_of(parent@, name@),
            Err(e) => name@.len() > u32::MAX && e == Error::TooLarge,
        },
{
    if name.len() as u64 > u32::MAX as u64 {
        return Err(Error::TooLarge);
    }
    let mut path: Vec<u8> = Vec::new();
    append(&mut path, parent);
    push_u32_le(&mut path, name.len() as u32);
    append(&mut path, name);
    assert(path@ =~= child_of(parent@, name@));
    Ok(path)
}

/// Where the last name of a path begins.
fn find_last(path: &[u8]) -> (r: Option<usize>)
    ensures
        match (r, last_start(path@, 0, 0)) {
            (Some(p), Some(q)) => p == q,
            (None, None) => true,
            _ => false,
        },
        r is Some && path@.len() > 0 ==> r->0 + 4 <= path@.len(),
        r is Some && path@.len() == 0 ==> r->0 == 0,
{
    let len: usize = path.len();
    let mut cursor: usize = 0;
    let mut previous: usize = 0;
    while cursor < path.len()
        invariant
            previous <= cursor <= len == path@.len(),
            cursor > 0 ==> previous + 4 <= len,
            last_start(path@, cursor as int, previous as int) == last_start(path@, 0, 0),
            cursor == 0 ==> previous == 0,
        decreases len - cursor,
    {
        previous = cursor;
        if len - cursor < 4 {
            return None;
        }
        let name_len: usize = u32_le_at(path, cursor) as usize;
        let start: usize = cursor + 4;
        if name_len > len - start {
            return None;
        }
        cursor = start + name_len;
    }
    Some(previous)
}

/// The last name of a path.
pub fn path_name(path: &[u8]) -> (r: Option<&[u8]>)
    ensures
        match (r, name_of(path@)) {
            (Some(name), Some(spec_name)) => name@ == spec_name,
            (None, None) => true,
            _ => false,
        },
{
    match find_last(path) {
        None => None,
        Some(p) => {
            if path.len() == 0 {
                None
            } else {
                Some(slice_subrange(path, p + 4, path.len()))
            }
        },
    }
}

/// The path of the bucket that holds the one at `path`.
pub fn parent_path(path: &[u8]) -> (r: Option<&[u8]>)
    ensures
        match (r, parent_of(path@)) {
            (Some(parent), Some(spec_parent)) => parent@ == spec_parent,
            (None, None) => true,
            _ => false,
        },
{
    match find_last(path) {
        None => None,
        Some(p) => Some(slice_subrange(path, 0, p)),
    }
}

/// The name of the bucket at `path`, where it stands directly in the one at
/// `parent`.
pub fn direct_child_name<'a>(path: &'a [u8], parent: &[u8]) -> (r: Option<&'a [u8]>)
    ensures
        match r {
            Some(name) => name@.len() <= u32::MAX && path@ == child_of(parent@, name@),
            None => forall|name: Seq<u8>|
                name.len() <= u32::MAX ==> path@ != #[trigger] child_of(parent@, name),
        },
{
    proof {
        bytes::lemma_pow256_widths();
        assert forall|name: Seq<u8>| path@ == #[trigger] child_of(parent@, name) && name.len()
            <= u32::MAX implies parent@.is_prefix_of(path@) && path@.len() == parent@.len() + 4
            + bytes::le_at(path@, parent@.len() as int, 4) by {
            bytes::lemma_le_of_len(name.len(), 4);
            let at = parent@.len() as int;
            assert(path@.subrange(at, at + 4) =~= bytes::le_of(name.len(), 4));
            bytes::lemma_le_field(path@, at, name.len(), 4);
            assert(parent@ =~= path@.take(at));
        }
    }
    if !starts_with(path, parent) {
        return None;
    }
    let at: usize = parent.len();
    let end: usize = path.len();
    if end - at < 4 {
        return None;
    }
    let len: usize = u32_le_at(path, at) as usize;
    if end - at - 4 != len {
        return None;
    }
    proof {
        let name = path@.subrange(at + 4, end as int);
        let field = path@.subrange(at as int, at + 4);
        bytes::lemma_le_inverse(field);
        assert(path@ =~= parent@ + field + name);
    }
    Some(slice_subrange(path, at + 4, end))
}

/// Reading on behind a name.
proof fn lemma_last_start_step(path: Seq<u8>, extra: Seq<u8>, cursor: int, previous: int)
    requires
        0 <= cursor <= path.len(),
        last_start(path, cursor, previous) is Some,
    ensures
        last_start(path + extra, cursor, previous) == last_start(
            path + extra,
            path.len() as int,
            last_start(path, cursor, previous)->0,
        ),
    decreases path.len() - cursor,
{
    if cursor < path.len() {
        assert((path + extra).subrange(cursor, cursor + 4) =~= path.subrange(cursor, cursor + 4));
        let next = cursor + 4 + bytes::le_at(path, cursor, 4);
        lemma_last_start_step(path, extra, next, cursor);
    }
}

/// A bucket's path leads back to its parent and to its name.
pub proof fn law_child_path_parts(parent: Seq<u8>, name: Seq<u8>)
    requires
        is_path(parent),
        name.len() <= u32::MAX,
    ensures
        is_path(child_of(parent, name)),
        parent_of(child_of(parent, name)) == Some(parent),
        name_of(child_of(parent, name)) == Some(name),
{
    bytes::lemma_pow256_widths();
    bytes::lemma_le_of_len(name.len(), 4);
    let extra = bytes::le_of(name.len(), 4) + name;
    let path = child_of(parent, name);
    assert(path =~= parent + extra);
    lemma_last_start_step(parent, extra, 0, 0);
    let at = parent.len() as int;
    let before = last_start(parent, 0, 0)->0;
    assert(path.subrange(at, at + 4) =~= bytes::le_of(name.len(), 4));
    bytes::lemma_le_field(path, at, name.len(), 4);
    assert(last_start(path, path.len() as int, at) == Some(at));
    assert(last_start(path, at, before) == Some(at));
    assert(path.take(at) =~= parent);
    assert(path.subrange(at + 4, path.len() as int) =~= name);
}

/// Different buckets have different paths.
pub proof fn law_child_path_injective(
    parent: Seq<u8>,
    name: Seq<u8>,
    other_parent: Seq<u8>,
    other_name: Seq<u8>,
)
    requires
        is_path(parent),
        is_path(other_parent),
        name.len() <= u32::MAX,
        other_name.len() <= u32::MAX,
        child_of(parent, name) == child_of(other_parent, other_name),
    ensures
        parent == other_parent,
        name == other_name,
{
    law_child_path_parts(parent, name);
    law_child_path_parts(other_parent, other_name);
}

/// The names of a path, from the top down.
pub open spec fn names_of(path: Seq<u8>) -> Seq<Seq<u8>>
    decreases path.len(),
{
    let end = 4 + bytes::le_at(path, 0, 4);
    if path.len() < 4 || end > path.len() {
        Seq::empty()
    } else {
        seq![path.subrange(4, end as int)] + names_of(path.skip(end as int))
    }
}

proof fn lemma_last_start_shift(path: Seq<u8>, at: int, previous: int, other: int)
    requires
        0 <= at <= path.len(),
    ensures
        last_start(path, at, previous) is Some <==> last_start(path.skip(at), 0, other) is Some,
    decreases path.len() - at,
{
    if at < path.len() {
        let rest = path.skip(at);
        if at + 4 <= path.len() {
            assert(rest.subrange(0, 4) =~= path.subrange(at, at + 4));
            let n = bytes::le_at(path, at, 4);
            let next = at + 4 + n;
            if next <= path.len() {
                lemma_last_start_shift(path, next, at, 0);
                lemma_last_start_shift(rest, 4 + n as int, 0, 0);
                assert(rest.skip(4 + n as int) =~= path.skip(next));
            }
        }
    }
}

/// One path begins with another exactly where its names do: what is below a
/// bucket is what has the bucket's path as a prefix.
#[verifier::rlimit(30)]
#[verifier::spinoff_prover]
pub proof fn law_prefix_is_descendant(path: Seq<u8>, other: Seq<u8>)
    requires
        is_path(path),
        is_path(other),
    ensures
        path.is_prefix_of(other) <==> names_of(path).is_prefix_of(names_of(other)),
    decreases path.len(),
{
    if path.len() == 0 {
        assert(names_of(path) =~= Seq::<Seq<u8>>::empty());
        assert(path.is_prefix_of(other));
    } else {
        let n = bytes::le_at(path, 0, 4) as int;
        let end = 4 + n;
        let rest = path.skip(end);
        let name = path.subrange(4, end);
        lemma_last_start_shift(path, end, 0, 0);
        assert(is_path(rest));
        bytes::lemma_le_inverse(path.subrange(0, 4));
        if other.len() == 0 {
            assert(names_of(other) =~= Seq::<Seq<u8>>::empty());
            assert(names_of(path).len() > 0);
        } else {
            let m = bytes::le_at(other, 0, 4) as int;
            let other_end = 4 + m;
            let other_rest = other.skip(other_end);
            let other_name = other.subrange(4, other_end);
            lemma_last_start_shift(other, other_end, 0, 0);
            assert(is_path(other_rest));
            bytes::lemma_le_inverse(other.subrange(0, 4));
            law_prefix_is_descendant(rest, other_rest);
            let x = names_of(path);
            let y = names_of(other);
            assert(x[0] == name && y[0] == other_name);
            assert(x.skip(1) =~= names_of(rest));
            assert(y.skip(1) =~= names_of(other_rest));
            if path.is_prefix_of(other) {
                assert(other.subrange(0, 4) =~= path.subrange(0, 4));
                assert(n == m);
                assert(other_name =~= name) by {
                    assert(other.take(path.len() as int) == path);
                }
                assert(rest =~= other_rest.take(rest.len() as int)) by {
                    assert(other.take(path.len() as int) == path);
                }
                assert(rest.is_prefix_of(other_rest));
                assert(x =~= y.take(x.len() as int)) by {
                    assert(names_of(other_rest).take(x.len() - 1) == names_of(rest));
                    assert forall|i: int| 0 <= i < x.len() implies x[i] == y[i] by {
                        if i > 0 {
                            assert(names_of(rest)[i - 1] == names_of(other_rest)[i - 1]);
                        }
                    }
                }
            }
            if x.is_prefix_of(y) {
                assert(x[0] == y[0]) by {
                    assert(y.take(x.len() as int)[0] == x[0]);
                }
                assert(n == m);
                assert(path.subrange(0, 4) == other.subrange(0, 4)) by {
                    assert(bytes::le_of(n as nat, 4) == path.subrange(0, 4));
                    assert(bytes::le_of(m as nat, 4) == other.subrange(0, 4));
                }
                assert(names_of(rest) =~= names_of(other_rest).take(names_of(rest).len() as int))
                    by {
                    assert forall|i: int| 0 <= i < names_of(rest).len() implies names_of(rest)[i]
                        == names_of(other_rest)[i] by {
                        assert(y.take(x.len() as int)[i + 1] == x[i + 1]);
                    }
                }
                assert(rest.is_prefix_of(other_rest));
                assert(path =~= path.subrange(0, 4) + name + rest);
                assert(other =~= other.subrange(0, 4) + other_name + other_rest);
                assert(path =~= other.take(path.len() as int));
            }
        }
    }
}

} // verus!
