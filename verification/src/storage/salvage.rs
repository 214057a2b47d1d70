//! Reading buckets from their pages, and saving what is readable of them.

use crate::api::changes::{self, owned_path};
use crate::api::tree::{self, Node, Tree};
use crate::bytes::owned;
use crate::data::{Data, DataView};
use crate::error::{self, Error, Fault};
use crate::storage::cursor::{
    self, search_leaf, PageCursor, PageCursorView, Pages, SearchPath, Source,
};
use crate::storage::meta::BucketMeta;
use crate::storage::page::{self, Page, NODE_BUCKET};
use crate::storage::verification::{VerifyIssue, VerifyReport};
use vstd::prelude::*;
use vstd::string::StringExecFns;

verus! {

/// A record that could not be saved, and why.
#[derive(Clone, Debug, PartialEq, Eq)]
pub struct SkippedRecord {
    pub bucket_path: Vec<Vec<u8>>,
    pub key: Option<Vec<u8>>,
    pub reason: String,
}

/// What was saved of a database, and what was not.
#[derive(Clone, Debug, PartialEq, Eq)]
pub struct SalvageManifest {
    pub copied_buckets: u64,
    pub copied_records: u64,
    pub skipped_pages: Vec<u64>,
    pub skipped_records: Vec<SkippedRecord>,
}

/// A skipped record by what it says.
pub struct SkippedView {
    pub bucket_path: Seq<Seq<u8>>,
    pub key: Option<Seq<u8>>,
    pub reason: Seq<char>,
}

/// A manifest by what it says.
pub struct ManifestView {
    pub copied_buckets: u64,
    pub copied_records: u64,
    pub skipped_pages: Seq<u64>,
    pub skipped_records: Seq<SkippedView>,
}

impl View for SkippedRecord {
    type V = SkippedView;

    open spec fn view(&self) -> SkippedView {
        SkippedView {
            bucket_path: changes::path_view(self.bucket_path@),
            key: tree::seen(self.key),
            reason: self.reason@,
        }
    }
}

/// What skipped records say.
pub open spec fn skipped_view(records: Seq<SkippedRecord>) -> Seq<SkippedView> {
    records.map_values(|r: SkippedRecord| r@)
}

impl View for SalvageManifest {
    type V = ManifestView;

    open spec fn view(&self) -> ManifestView {
        ManifestView {
            copied_buckets: self.copied_buckets,
            copied_records: self.copied_records,
            skipped_pages: self.skipped_pages@,
            skipped_records: skipped_view(self.skipped_records@),
        }
    }
}

impl Default for SalvageManifest {
    fn default() -> (r: Self)
        ensures
            r.copied_buckets == 0,
            r.copied_records == 0,
            r.skipped_pages@.len() == 0,
            r.skipped_records@.len() == 0,
    {
        SalvageManifest {
            copied_buckets: 0,
            copied_records: 0,
            skipped_pages: Vec::new(),
            skipped_records: Vec::new(),
        }
    }
}

/// A manifest with one more skipped record.
pub open spec fn with_skipped(
    m: ManifestView,
    path: Seq<Seq<u8>>,
    key: Option<Seq<u8>>,
    reason: Seq<char>,
) -> ManifestView {
    ManifestView {
        skipped_records: m.skipped_records.push(SkippedView { bucket_path: path, key, reason }),
        ..m
    }
}

/// What is said of a bucket whose pages cannot be followed any further.
pub open spec fn untraversable() -> Seq<char> {
    "panic while traversing damaged bucket"@
}

/// The record of a nested bucket, or why there is none.
pub open spec fn bucket_in(src: Source, root: u64, name: Seq<u8>) -> Result<BucketMeta, Error> {
    match cursor::searched(src, Seq::empty(), root, name) {
        (Err(e), _) => Err(e),
        (Ok(false), _) => Err(Error::BucketMissing),
        (Ok(true), way) => {
            let b = cursor::node_of(src, way.last().id)->Ok_0;
            let i = way.last().index as int;
            let value = page::leaf_value(b, i);
            if page::leaf_at(b, i).node_type != NODE_BUCKET {
                Err(Error::IncompatibleValue)
            } else if value.len() < 16 {
                Err(Error::InvalidDB(Fault::Text("bucket record is shorter than sixteen bytes")))
            } else {
                Ok(BucketMeta::of(value))
            }
        },
    }
}

proof fn lemma_exact(src: Source, stack: Seq<SearchPath>, id: u64, key: Seq<u8>)
    requires
        cursor::searched(src, stack, id, key).0 == Ok::<bool, Error>(true),
    ensures
        ({
            let last = cursor::searched(src, stack, id, key).1.last();
            let b = cursor::node_of(src, last.id)->Ok_0;
            &&& cursor::node_of(src, last.id) is Ok
            &&& cursor::is_leaf(b)
            &&& cursor::count_of(b) <= usize::MAX ==> last.index < cursor::count_of(b)
        }),
    decreases src.buf.len() - stack.len(),
{
    let b = cursor::node_of(src, id)->Ok_0;
    let (index, exact) = cursor::index_of(b, key);
    if !cursor::is_leaf(b) {
        lemma_exact(
            src,
            stack.push(SearchPath { index: index as usize, id }),
            cursor::child_at(b, index),
            key,
        );
    } else {
        lemma_smaller_in_bound(b, key, cursor::count_of(b));
    }
}

proof fn lemma_smaller_in_bound(b: Seq<u8>, key: Seq<u8>, n: int)
    requires
        n >= 0,
    ensures
        0 <= cursor::smaller_in(b, key, n) <= n,
    decreases n,
{
    if n > 0 {
        lemma_smaller_in_bound(b, key, n - 1);
    }
}

/// Finds the record of a nested bucket.
pub fn find_bucket(pages: &Pages<'_>, root: u64, name: &[u8]) -> (r: Result<BucketMeta, Error>)
    ensures
        r == bucket_in(pages@, root, name@),
{
    let last: SearchPath = match search_leaf(pages, name, root) {
        Ok((true, last)) => last,
        Ok((false, _)) => return Err(Error::BucketMissing),
        Err(e) => return Err(e),
    };
    proof {
        lemma_exact(pages@, Seq::empty(), root, name@);
    }
    let p: Page<'_> = match pages.node(last.id) {
        Ok(p) => p,
        Err(e) => return Err(e),
    };
    if p.leaf(last.index).node_type != NODE_BUCKET {
        return Err(Error::IncompatibleValue);
    }
    let value: &[u8] = p.leaf_value(last.index);
    if value.len() < 16 {
        return Err(
            Error::InvalidDB(Fault::Text("bucket record is shorter than sixteen bytes")),
        );
    }
    Ok(BucketMeta::from_bytes(value))
}

/// What has been saved so far.
pub struct Saved {
    pub tree: Tree,
    pub manifest: ManifestView,
}

/// A cursor that was not placed yet.
pub open spec fn unplaced() -> PageCursorView {
    PageCursorView { stack: Seq::empty(), next_called: false, previous_called: false }
}

/// Saving a bucket from where a cursor is on: pairs are stored, nested buckets
/// are made and saved in turn, and what cannot be read is noted. The root,
/// which has no path, holds buckets only. No bucket of a file has more than
/// `steps` entries, and none lies deeper than `depth`.
pub open spec fn saved(
    src: Source,
    root: u64,
    c: PageCursorView,
    s: Saved,
    path: Seq<Seq<u8>>,
    depth: nat,
    steps: nat,
) -> (Result<(), Error>, Saved)
    decreases depth, steps,
{
    let stuck = Saved { manifest: with_skipped(s.manifest, path, None, untraversable()), ..s };
    if steps == 0 {
        (Ok(()), stuck)
    } else {
        let left = (steps - 1) as nat;
        match cursor::moved_on(src, root, c) {
            (Err(_), _) => (Ok(()), stuck),
            (Ok(None), _) => (Ok(()), s),
            (Ok(Some(DataView::KeyValue(key, value))), at) => if path.len() == 0 {
                saved(src, root, at, s, path, depth, left)
            } else {
                match tree::put(s.tree, key, value) {
                    Err(e) => (Err(e), s),
                    Ok((_, t)) => saved(
                        src,
                        root,
                        at,
                        Saved {
                            tree: t,
                            manifest: ManifestView {
                                copied_records: tree::bumped(s.manifest.copied_records),
                                ..s.manifest
                            },
                        },
                        path,
                        depth,
                        left,
                    ),
                }
            },
            (Ok(Some(DataView::Bucket(name))), at) => match bucket_in(src, root, name) {
                Err(e) => saved(
                    src,
                    root,
                    at,
                    Saved {
                        manifest: with_skipped(
                            s.manifest,
                            path,
                            Some(name),
                            error::message_of(e),
                        ),
                        ..s
                    },
                    path,
                    depth,
                    left,
                ),
                Ok(found) => if depth == 0 {
                    (Ok(()), stuck)
                } else {
                    match tree::create_bucket(s.tree, name) {
                        Err(e) => (Err(e), s),
                        Ok(made) => {
                            let counted = ManifestView {
                                copied_buckets: tree::bumped(s.manifest.copied_buckets),
                                ..s.manifest
                            };
                            let (r, sub) = saved(
                                src,
                                found.root_page,
                                unplaced(),
                                Saved { tree: tree::empty_tree(), manifest: counted },
                                path.push(name),
                                (depth - 1) as nat,
                                src.buf.len(),
                            );
                            let below = Tree {
                                next_int: if r is Ok {
                                    found.next_int
                                } else {
                                    sub.tree.next_int
                                },
                                ..sub.tree
                            };
                            let after = Saved {
                                tree: tree::with_child(made, name, below),
                                manifest: sub.manifest,
                            };
                            match r {
                                Err(e) => (Err(e), after),
                                Ok(_) => saved(src, root, at, after, path, depth, left),
                            }
                        },
                    }
                },
            },
        }
    }
}

impl SalvageManifest {
    fn skip(&mut self, path: &Vec<Vec<u8>>, key: Option<Vec<u8>>, reason: String)
        ensures
            final(self)@ == with_skipped(
                old(self)@,
                changes::path_view(path@),
                tree::seen(key),
                reason@,
            ),
    {
        let ghost was = skipped_view(self.skipped_records@);
        let record: SkippedRecord = SkippedRecord { bucket_path: owned_path(path), key, reason };
        let ghost new = record@;
        self.skipped_records.push(record);
        assert(skipped_view(self.skipped_records@) =~= was.push(new));
    }
}

fn one_more(n: u64) -> (r: u64)
    ensures
        r == tree::bumped(n),
{
    if n == u64::MAX {
        n
    } else {
        n + 1
    }
}

/// Saves a bucket: what is readable of it goes to `target`.
pub fn salvage_bucket(
    pages: &Pages<'_>,
    root: u64,
    target: &mut Node,
    path: &mut Vec<Vec<u8>>,
    manifest: &mut SalvageManifest,
    depth: usize,
) -> (r: Result<(), Error>)
    requires
        old(target).wf(),
    ensures
        final(target).wf(),
        r is Ok ==> final(path)@ == old(path)@,
        ({
            let (want, after) = saved(
                pages@,
                root,
                unplaced(),
                Saved { tree: old(target)@, manifest: old(manifest)@ },
                changes::path_view(old(path)@),
                depth as nat,
                pages@.buf.len(),
            );
            &&& r == want
            &&& final(target)@ == after.tree
            &&& final(manifest)@ == after.manifest
        }),
    decreases depth,
{
    let ghost src = pages@;
    let ghost at = changes::path_view(path@);
    let ghost start = Saved { tree: target@, manifest: manifest@ };
    let ghost whole = saved(src, root, unplaced(), start, at, depth as nat, src.buf.len());
    let ghost given = path@;
    let mut steps: usize = pages.data.len();
    let mut way: PageCursor<'_> = PageCursor::new(*pages, root);
    loop
        invariant
            target.wf(),
            way.pages@ == src,
            way.root == root,
            src == pages@,
            steps <= src.buf.len(),
            path@ == given,
            given == old(path)@,
            at == changes::path_view(path@),
            start == (Saved { tree: old(target)@, manifest: old(manifest)@ }),
            whole == saved(
                src,
                root,
                unplaced(),
                start,
                at,
                depth as nat,
                src.buf.len(),
            ),
            whole == saved(
                src,
                root,
                way@,
                Saved { tree: target@, manifest: manifest@ },
                at,
                depth as nat,
                steps as nat,
            ),
        decreases steps,
    {
        if steps == 0 {
            manifest.skip(
                path,
                None,
                String::from_str("panic while traversing damaged bucket"),
            );
            return Ok(());
        }
        steps = steps - 1;
        let data: Data<'_> = match way.next() {
            Err(_) => {
                manifest.skip(
                    path,
                    None,
                    String::from_str("panic while traversing damaged bucket"),
                );
                return Ok(());
            },
            Ok(None) => return Ok(()),
            Ok(Some(data)) => data,
        };
        match data {
            Data::KeyValue(pair) => {
                if path.len() > 0 {
                    match target.put(pair.key(), owned(pair.value())) {
                        Ok(_) => {},
                        Err(e) => return Err(e),
                    }
                    manifest.copied_records = one_more(manifest.copied_records);
                }
            },
            Data::Bucket(name) => {
                match find_bucket(pages, root, name.name()) {
                    Err(e) => {
                        manifest.skip(path, Some(owned(name.name())), e.message());
                    },
                    Ok(found) => {
                        if depth == 0 {
                            manifest.skip(
                                path,
                                None,
                                String::from_str("panic while traversing damaged bucket"),
                            );
                            return Ok(());
                        }
                        match target.create_bucket(name.name()) {
                            Ok(_) => {},
                            Err(e) => return Err(e),
                        }
                        manifest.copied_buckets = one_more(manifest.copied_buckets);
                        let ghost made = target@;
                        let mut below: Node = Node::new();
                        path.push(owned(name.name()));
                        proof {
                            assert(changes::path_view(path@) =~= at.push(name@));
                        }
                        let done: Result<(), Error> = salvage_bucket(
                            pages,
                            found.root_page,
                            &mut below,
                            path,
                            manifest,
                            depth - 1,
                        );
                        if done.is_ok() {
                            below.set_next_int(found.next_int);
                        }
                        let ghost filled = below@;
                        match target.child_mut(name.name()) {
                            Ok(place) => {
                                std::mem::swap(place, &mut below);
                            },
                            Err(e) => return Err(e),
                        }
                        assert(target@ == tree::with_child(made, name@, filled));
                        match done {
                            Ok(_) => {},
                            Err(e) => return Err(e),
                        }
                        let _name: Option<Vec<u8>> = path.pop();
                        assert(path@ =~= given);
                    },
                }
            },
        }
    }
}

/// The pages that verification found something wrong with.
pub open spec fn pages_of(issues: Seq<VerifyIssue>) -> Seq<u64>
    decreases issues.len(),
{
    if issues.len() == 0 {
        Seq::empty()
    } else {
        match issues.last().page_id {
            Some(id) => pages_of(issues.drop_last()).push(id),
            None => pages_of(issues.drop_last()),
        }
    }
}

/// Saves what is readable of a database into a new root, and tells what was
/// not. `report` is what its verification said, if it could be told.
pub fn salvage(pages: &Pages<'_>, root: u64, report: Option<&VerifyReport>) -> (r: Result<
    (Node, SalvageManifest),
    Error,
>)
    ensures
        ({
            let (want, after) = saved(
                pages@,
                root,
                unplaced(),
                Saved {
                    tree: tree::empty_tree(),
                    manifest: ManifestView {
                        copied_buckets: 0,
                        copied_records: 0,
                        skipped_pages: match report {
                            Some(report) => pages_of(report.issues@),
                            None => Seq::empty(),
                        },
                        skipped_records: Seq::empty(),
                    },
                },
                Seq::empty(),
                pages@.buf.len(),
                pages@.buf.len(),
            );
            match r {
                Ok((saved, manifest)) => want is Ok && saved.wf() && saved@ == after.tree
                    && manifest@ == after.manifest,
                Err(e) => want == Err::<(), Error>(e),
            }
        }),
{
    let mut skipped: Vec<u64> = Vec::new();
    match report {
        Some(report) => {
            let mut i: usize = 0;
            assert(skipped@ =~= pages_of(report.issues@.take(0)));
            while i < report.issues.len()
                invariant
                    i <= report.issues@.len(),
                    skipped@ == pages_of(report.issues@.take(i as int)),
                decreases report.issues@.len() - i,
            {
                let ghost was = skipped@;
                proof {
                    assert(report.issues@.take(i + 1).drop_last() =~= report.issues@.take(
                        i as int,
                    ));
                    assert(report.issues@.take(i + 1).last() == report.issues@[i as int]);
                }
                match report.issues[i].page_id {
                    Some(id) => skipped.push(id),
                    None => {},
                }
                i = i + 1;
            }
            assert(report.issues@.take(i as int) =~= report.issues@);
        },
        None => {
            assert(skipped@ =~= Seq::<u64>::empty());
        },
    }
    let mut manifest: SalvageManifest = SalvageManifest {
        copied_buckets: 0,
        copied_records: 0,
        skipped_pages: skipped,
        skipped_records: Vec::new(),
    };
    assert(manifest@.skipped_records =~= Seq::<SkippedView>::empty());
    let mut target: Node = Node::new();
    let mut path: Vec<Vec<u8>> = Vec::new();
    assert(changes::path_view(path@) =~= Seq::<Seq<u8>>::empty());
    match salvage_bucket(
        pages,
        root,
        &mut target,
        &mut path,
        &mut manifest,
        pages.data.len(),
    ) {
        Ok(_) => Ok((target, manifest)),
        Err(e) => Err(e),
    }
}

} // verus!
