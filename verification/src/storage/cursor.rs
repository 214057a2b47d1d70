//! Moving over the pages of a bucket.
//!
//! A cursor keeps the way that it took: for each page from the root down to a
//! leaf, which element it followed.

use crate::bytes::{self, less, same};
use crate::data::{BucketName, Data, DataView, KVPair};
use crate::error::{Error, Fault};
use crate::storage::page::{
    self, Page, PageHeader, NODE_BUCKET, TYPE_BRANCH, TYPE_LEAF,
};
use vstd::prelude::*;

verus! {

/// The pages of a file by what they hold.
pub struct Source {
    pub buf: Seq<u8>,
    pub pagesize: u64,
    pub version: u32,
}

/// The pages of a file.
#[derive(Clone, Copy)]
pub struct Pages<'a> {
    pub data: &'a [u8],
    pub pagesize: u64,
    pub version: u32,
}

impl<'a> View for Pages<'a> {
    type V = Source;

    open spec fn view(&self) -> Source {
        Source { buf: self.data@, pagesize: self.pagesize, version: self.version }
    }
}

/// The block of a branch or a leaf.
#[verifier::opaque]
pub open spec fn node_of(src: Source, id: u64) -> Result<Seq<u8>, Error> {
    match page::block_of(src.buf, id, src.pagesize, src.version) {
        Err(e) => Err(e),
        Ok(b) => if is_branch(b) || is_leaf(b) {
            Ok(b)
        } else {
            Err(
                Error::InvalidDB(
                    Fault::Two(
                        "Invalid page type ",
                        page::header_of(b).page_type as u64,
                        " for page ",
                        id,
                        "",
                    ),
                ),
            )
        },
    }
}

/// Whether a block is a leaf.
pub open spec fn is_leaf(b: Seq<u8>) -> bool {
    page::header_of(b).page_type == TYPE_LEAF
}

/// Whether a block is a branch.
pub open spec fn is_branch(b: Seq<u8>) -> bool {
    page::header_of(b).page_type == TYPE_BRANCH
}

/// How many elements a block has.
pub open spec fn count_of(b: Seq<u8>) -> int {
    page::header_of(b).count as int
}

/// The page that element `i` of a branch leads to; there is none beyond the
/// last.
pub open spec fn child_at(b: Seq<u8>, i: int) -> u64 {
    if i < count_of(b) {
        page::branch_at(b, i).page
    } else {
        0
    }
}

/// Element `i` of a leaf as data.
pub open spec fn data_at(b: Seq<u8>, i: int) -> DataView {
    if page::leaf_at(b, i).node_type == NODE_BUCKET {
        DataView::Bucket(page::leaf_key(b, i))
    } else {
        DataView::KeyValue(page::leaf_key(b, i), page::leaf_value(b, i))
    }
}

/// The key of element `i` of a block.
pub open spec fn key_at(b: Seq<u8>, i: int) -> Seq<u8> {
    if is_leaf(b) {
        page::leaf_key(b, i)
    } else {
        page::branch_key(b, i)
    }
}

/// Keeps track of the path taken to search a page.
#[derive(Clone, Copy, Debug, PartialEq, Eq, Structural)]
pub struct SearchPath {
    pub index: usize,
    pub id: u64,
}

/// What is said of pages that lead to one another without end.
pub open spec fn too_deep() -> Error {
    Error::InvalidDB(Fault::Text("page tree is deeper than its file"))
}

/// How a way down ended.
pub enum Descent {
    /// At an element of a leaf.
    Leaf,
    /// At a page without elements, which is not part of the way.
    Empty,
    Fault(Error),
}

/// The way down to the first element below the end of a way.
pub open spec fn first_below(src: Source, stack: Seq<SearchPath>) -> (
    Option<Error>,
    Seq<SearchPath>,
)
    decreases src.buf.len() - stack.len(),
{
    if stack.len() == 0 {
        (None, stack)
    } else {
        match node_of(src, stack.last().id) {
            Err(e) => (Some(e), stack),
            Ok(b) => if is_leaf(b) || count_of(b) == 0 {
                (None, stack)
            } else if stack.len() >= src.buf.len() {
                (Some(too_deep()), stack)
            } else {
                first_below(
                    src,
                    stack.push(
                        SearchPath { index: 0, id: child_at(b, stack.last().index as int) },
                    ),
                )
            },
        }
    }
}

/// The way down to the last element of a page.
pub open spec fn last_below(src: Source, stack: Seq<SearchPath>, id: u64) -> (
    Descent,
    Seq<SearchPath>,
)
    decreases src.buf.len() - stack.len(),
{
    match node_of(src, id) {
        Err(e) => (Descent::Fault(e), stack),
        Ok(b) => if count_of(b) == 0 {
            (Descent::Empty, stack)
        } else {
            let index = (count_of(b) - 1) as usize;
            let way = stack.push(SearchPath { index, id });
            if is_leaf(b) {
                (Descent::Leaf, way)
            } else if stack.len() >= src.buf.len() {
                (Descent::Fault(too_deep()), way)
            } else {
                last_below(src, way, child_at(b, index as int))
            }
        },
    }
}

/// How a step ended.
pub enum Moved {
    Yes,
    /// There is nothing in that direction.
    No,
    Fault(Error),
}

/// A way with another element at its end.
pub open spec fn redirected(stack: Seq<SearchPath>, index: int) -> Seq<SearchPath> {
    stack.drop_last().push(SearchPath { index: index as usize, id: stack.last().id })
}

/// The way to the element before the one at the end of a way.
pub open spec fn stepped_back(src: Source, stack: Seq<SearchPath>) -> (Moved, Seq<SearchPath>)
    decreases stack.len(),
{
    if stack.len() == 0 {
        (Moved::No, stack)
    } else if stack.last().index == 0 {
        stepped_back(src, stack.drop_last())
    } else {
        let way = redirected(stack, stack.last().index - 1);
        match node_of(src, stack.last().id) {
            Err(e) => (Moved::Fault(e), way),
            Ok(b) => if is_leaf(b) {
                (Moved::Yes, way)
            } else {
                match last_below(src, way, child_at(b, stack.last().index - 1)) {
                    (Descent::Leaf, way) => (Moved::Yes, way),
                    (Descent::Empty, way) => (Moved::No, way),
                    (Descent::Fault(e), way) => (Moved::Fault(e), way),
                }
            },
        }
    }
}

/// The way to the element after the one at the end of a way. Past the last
/// one, what is left is the way's first page.
pub open spec fn stepped_on(src: Source, stack: Seq<SearchPath>) -> (Moved, Seq<SearchPath>)
    decreases stack.len(),
{
    if stack.len() == 0 {
        (Moved::No, stack)
    } else {
        match node_of(src, stack.last().id) {
            Err(e) => (Moved::Fault(e), stack),
            Ok(b) => if stack.last().index + 1 >= count_of(b) {
                if stack.len() == 1 {
                    (Moved::No, stack)
                } else {
                    stepped_on(src, stack.drop_last())
                }
            } else {
                match first_below(src, redirected(stack, stack.last().index + 1)) {
                    (None, way) => (Moved::Yes, way),
                    (Some(e), way) => (Moved::Fault(e), way),
                }
            },
        }
    }
}

/// How many of the first elements of a block have a smaller key.
pub open spec fn smaller_in(b: Seq<u8>, key: Seq<u8>, n: int) -> int
    decreases n,
{
    if n <= 0 {
        0
    } else {
        let before = smaller_in(b, key, n - 1);
        if before == n - 1 && bytes::lex_lt(key_at(b, n - 1), key) {
            n
        } else {
            before
        }
    }
}

/// Where a key is in a block, and whether it is there: the element with that
/// key, or the one just before.
pub open spec fn index_of(b: Seq<u8>, key: Seq<u8>) -> (int, bool) {
    let i = smaller_in(b, key, count_of(b));
    if i < count_of(b) && key_at(b, i) == key {
        (i, true)
    } else if i > 0 {
        (i - 1, false)
    } else {
        (0, false)
    }
}

/// The way to a key from a page on, and whether the key is there.
pub open spec fn searched(src: Source, stack: Seq<SearchPath>, id: u64, key: Seq<u8>) -> (
    Result<bool, Error>,
    Seq<SearchPath>,
)
    decreases src.buf.len() - stack.len(),
{
    match node_of(src, id) {
        Err(e) => (Err(e), stack),
        Ok(b) => {
            let (index, exact) = index_of(b, key);
            let way = stack.push(SearchPath { index: index as usize, id });
            let next = child_at(b, index);
            if is_leaf(b) {
                (Ok(exact), way)
            } else if next == 0 {
                (Ok(false), way)
            } else if stack.len() >= src.buf.len() {
                (Err(too_deep()), way)
            } else {
                searched(src, way, next, key)
            }
        },
    }
}

/// The entry at the end of a way.
pub open spec fn entry_at(src: Source, stack: Seq<SearchPath>) -> Result<Option<DataView>, Error> {
    if stack.len() == 0 {
        Ok(None)
    } else {
        match node_of(src, stack.last().id) {
            Err(e) => Err(e),
            Ok(b) => if is_leaf(b) && stack.last().index < count_of(b) {
                Ok(Some(data_at(b, stack.last().index as int)))
            } else {
                Ok(None)
            },
        }
    }
}

/// Where a cursor is, and whether it has moved on or back since it was placed
/// there.
pub struct PageCursorView {
    pub stack: Seq<SearchPath>,
    pub next_called: bool,
    pub previous_called: bool,
}

/// Moving a cursor back.
pub open spec fn moved_back(src: Source, root: u64, c: PageCursorView) -> (
    Result<Option<DataView>, Error>,
    PageCursorView,
) {
    if c.stack.len() == 0 {
        match last_below(src, Seq::empty(), root) {
            (Descent::Fault(e), stack) => (
                Err(e),
                PageCursorView { stack, next_called: false, previous_called: false },
            ),
            (_, stack) => (
                entry_at(src, stack),
                PageCursorView { stack, next_called: false, previous_called: true },
            ),
        }
    } else if c.previous_called {
        match stepped_back(src, c.stack) {
            (Moved::Fault(e), stack) => (Err(e), PageCursorView { stack, ..c }),
            (Moved::No, stack) => (Ok(None), PageCursorView { stack, ..c }),
            (Moved::Yes, stack) => (
                entry_at(src, stack),
                PageCursorView { stack, next_called: false, previous_called: true },
            ),
        }
    } else {
        (
            entry_at(src, c.stack),
            PageCursorView { stack: c.stack, next_called: false, previous_called: true },
        )
    }
}

/// Moving a cursor on.
pub open spec fn moved_on(src: Source, root: u64, c: PageCursorView) -> (
    Result<Option<DataView>, Error>,
    PageCursorView,
) {
    let c = PageCursorView { previous_called: false, ..c };
    if c.stack.len() == 0 {
        match first_below(src, seq![SearchPath { index: 0, id: root }]) {
            (Some(e), stack) => (Err(e), PageCursorView { stack, ..c }),
            (None, stack) => (
                entry_at(src, stack),
                PageCursorView { stack, next_called: true, ..c },
            ),
        }
    } else if c.next_called {
        match stepped_on(src, c.stack) {
            (Moved::Fault(e), stack) => (Err(e), PageCursorView { stack, ..c }),
            (Moved::No, stack) => (Ok(None), PageCursorView { stack, ..c }),
            (Moved::Yes, stack) => (
                entry_at(src, stack),
                PageCursorView { stack, next_called: true, ..c },
            ),
        }
    } else {
        (entry_at(src, c.stack), PageCursorView { next_called: true, ..c })
    }
}

impl<'a> Pages<'a> {
    /// The pages of a file.
    pub fn new(data: &'a [u8], pagesize: u64, version: u32) -> (r: Self)
        ensures
            r@ == (Source { buf: data@, pagesize, version }),
    {
        Pages { data, pagesize, version }
    }

    /// The block at a page, where it is a valid one.
    pub fn page(&self, id: u64) -> (r: Result<Page<'a>, Error>)
        ensures
            match (r, page::block_of(self@.buf, id, self@.pagesize, self@.version)) {
                (Ok(p), Ok(b)) => p.block() == b && p.wf(),
                (Err(e), Err(f)) => e == f,
                _ => false,
            },
    {
        Page::validate_version(self.data, id, self.pagesize, self.version)
    }

    /// The block of a branch or a leaf.
    pub fn node(&self, id: u64) -> (r: Result<Page<'a>, Error>)
        ensures
            match (r, node_of(self@, id)) {
                (Ok(p), Ok(b)) => p.block() == b && p.wf() && count_of(b) <= usize::MAX && (is_leaf(b)
                    || is_branch(b)),
                (Err(e), Err(f)) => e == f,
                _ => false,
            },
    {
        proof {
            reveal(node_of);
        }
        let p: Page<'a> = match self.page(id) {
            Ok(p) => p,
            Err(e) => return Err(e),
        };
        let header: PageHeader = p.header();
        if header.page_type != TYPE_BRANCH && header.page_type != TYPE_LEAF {
            return Err(
                Error::InvalidDB(
                    Fault::Two(
                        "Invalid page type ",
                        header.page_type as u64,
                        " for page ",
                        id,
                        "",
                    ),
                ),
            );
        }
        proof {
            p.lemma_count_fits();
        }
        Ok(p)
    }
}

/// The page that element `i` of a branch leads to.
fn child(p: &Page<'_>, i: usize) -> (r: u64)
    requires
        p.wf(),
        is_branch(p.block()),
    ensures
        r == child_at(p.block(), i as int),
{
    if (i as u64) < p.header().count {
        p.branch(i).page
    } else {
        0
    }
}

/// The key of element `i` of a block.
fn key_in<'a>(p: &Page<'a>, i: usize) -> (r: &'a [u8])
    requires
        p.wf(),
        is_branch(p.block()) || is_leaf(p.block()),
        i < count_of(p.block()),
    ensures
        r@ == key_at(p.block(), i as int),
{
    if p.header().page_type == TYPE_LEAF {
        p.leaf_key(i)
    } else {
        p.branch_key(i)
    }
}

/// Element `i` of a leaf as data.
fn entry<'a>(p: &Page<'a>, i: usize) -> (r: Data<'a>)
    requires
        p.wf(),
        is_leaf(p.block()),
        i < count_of(p.block()),
    ensures
        r@ == data_at(p.block(), i as int),
{
    if p.leaf(i).node_type == NODE_BUCKET {
        Data::Bucket(BucketName::new(p.leaf_key(i)))
    } else {
        Data::KeyValue(KVPair::new(p.leaf_key(i), p.leaf_value(i)))
    }
}

proof fn lemma_smaller_in(b: Seq<u8>, key: Seq<u8>, i: int, n: int)
    requires
        0 <= i <= n,
        smaller_in(b, key, i) == i,
        i < n ==> !bytes::lex_lt(key_at(b, i), key),
    ensures
        smaller_in(b, key, n) == i,
    decreases n,
{
    if i < n {
        if n > i + 1 {
            lemma_smaller_in(b, key, i, n - 1);
        }
    }
}

/// Finds where a key is in a block.
fn index(p: &Page<'_>, key: &[u8]) -> (r: (usize, bool))
    requires
        p.wf(),
        is_branch(p.block()) || is_leaf(p.block()),
        count_of(p.block()) <= usize::MAX,
    ensures
        (r.0 as int, r.1) == index_of(p.block(), key@),
{
    let n: usize = p.header().count as usize;
    let mut i: usize = 0;
    while i < n && less(key_in(p, i), key)
        invariant
            p.wf(),
            is_branch(p.block()) || is_leaf(p.block()),
            n == count_of(p.block()),
            i <= n,
            smaller_in(p.block(), key@, i as int) == i,
        decreases n - i,
    {
        i = i + 1;
    }
    proof {
        lemma_smaller_in(p.block(), key@, i as int, n as int);
    }
    if i < n && same(key_in(p, i), key) {
        (i, true)
    } else if i > 0 {
        (i - 1, false)
    } else {
        (0, false)
    }
}

/// Searches the pages from `root` on for a key: the way to it, and whether it
/// is there.
pub fn search(pages: &Pages<'_>, key: &[u8], root: u64) -> (r: Result<
    (bool, Vec<SearchPath>),
    Error,
>)
    ensures
        ({
            let (want, way) = searched(pages@, Seq::empty(), root, key@);
            match r {
                Ok((exact, stack)) => want == Ok::<bool, Error>(exact) && stack@ == way,
                Err(e) => want == Err::<bool, Error>(e),
            }
        }),
{
    let mut stack: Vec<SearchPath> = Vec::new();
    let mut id: u64 = root;
    let ghost want = searched(pages@, Seq::empty(), root, key@);
    assert(stack@ =~= Seq::<SearchPath>::empty());
    loop
        invariant
            stack@.len() <= pages@.buf.len(),
            want == searched(pages@, Seq::empty(), root, key@),
            want == searched(pages@, stack@, id, key@),
        decreases pages@.buf.len() - stack@.len(),
    {
        let p: Page<'_> = match pages.node(id) {
            Ok(p) => p,
            Err(e) => return Err(e),
        };
        let (at, exact) = index(&p, key);
        let deep: bool = stack.len() >= pages.data.len();
        stack.push(SearchPath { index: at, id });
        if p.header().page_type == TYPE_LEAF {
            return Ok((exact, stack));
        }
        let next: u64 = child(&p, at);
        if next == 0 {
            return Ok((false, stack));
        }
        if deep {
            return Err(Error::InvalidDB(Fault::Text("page tree is deeper than its file")));
        }
        id = next;
    }
}

/// Searches the pages from `root` on for a key: the last page of the way to
/// it, and whether it is there.
pub fn search_leaf(pages: &Pages<'_>, key: &[u8], root: u64) -> (r: Result<
    (bool, SearchPath),
    Error,
>)
    ensures
        ({
            let (want, way) = searched(pages@, Seq::empty(), root, key@);
            match r {
                Ok((exact, last)) => want == Ok::<bool, Error>(exact) && way.len() > 0
                    && way.last() == last,
                Err(e) => want == Err::<bool, Error>(e),
            }
        }),
{
    let mut id: u64 = root;
    let ghost want = searched(pages@, Seq::empty(), root, key@);
    let ghost mut stack: Seq<SearchPath> = Seq::empty();
    let mut depth: usize = 0;
    loop
        invariant
            depth == stack.len(),
            depth <= pages@.buf.len(),
            want == searched(pages@, Seq::empty(), root, key@),
            want == searched(pages@, stack, id, key@),
        decreases pages@.buf.len() - depth,
    {
        let p: Page<'_> = match pages.node(id) {
            Ok(p) => p,
            Err(e) => return Err(e),
        };
        let (at, exact) = index(&p, key);
        let last: SearchPath = SearchPath { index: at, id };
        if p.header().page_type == TYPE_LEAF {
            return Ok((exact, last));
        }
        let next: u64 = child(&p, at);
        if next == 0 {
            return Ok((false, last));
        }
        if depth >= pages.data.len() {
            return Err(Error::InvalidDB(Fault::Text("page tree is deeper than its file")));
        }
        proof {
            stack = stack.push(last);
        }
        depth = depth + 1;
        id = next;
    }
}

/// A cursor over the pages of a bucket.
pub struct PageCursor<'a> {
    pub pages: Pages<'a>,
    pub root: u64,
    pub stack: Vec<SearchPath>,
    pub next_called: bool,
    pub previous_called: bool,
}

impl<'a> View for PageCursor<'a> {
    type V = PageCursorView;

    open spec fn view(&self) -> PageCursorView {
        PageCursorView {
            stack: self.stack@,
            next_called: self.next_called,
            previous_called: self.previous_called,
        }
    }
}

impl<'a> PageCursor<'a> {
    /// A cursor over the pages from `root` on, not placed yet.
    pub fn new(pages: Pages<'a>, root: u64) -> (r: Self)
        ensures
            r.pages == pages,
            r.root == root,
            r@ == (PageCursorView {
                stack: Seq::empty(),
                next_called: false,
                previous_called: false,
            }),
    {
        let stack: Vec<SearchPath> = Vec::new();
        assert(stack@ =~= Seq::<SearchPath>::empty());
        PageCursor { pages, root, stack, next_called: false, previous_called: false }
    }

    /// Moves the cursor to the given key. If the key does not exist, the
    /// cursor stops "just before" where the key would be.
    ///
    /// Returns whether or not the key exists.
    pub fn seek(&mut self, key: &[u8]) -> (r: Result<bool, Error>)
        ensures
            final(self).pages == old(self).pages,
            final(self).root == old(self).root,
            ({
                let (want, way) = searched(old(self).pages@, Seq::empty(), old(self).root, key@);
                &&& r == want
                &&& final(self)@ == (PageCursorView {
                    stack: if want is Ok {
                        way
                    } else {
                        old(self)@.stack
                    },
                    next_called: false,
                    previous_called: false,
                })
            }),
    {
        self.next_called = false;
        self.previous_called = false;
        match search(&self.pages, key, self.root) {
            Ok((exists, stack)) => {
                self.stack = stack;
                Ok(exists)
            },
            Err(e) => Err(e),
        }
    }

    /// Returns the data at the cursor's current position.
    pub fn current(&self) -> (r: Result<Option<Data<'a>>, Error>)
        ensures
            match (r, entry_at(self.pages@, self@.stack)) {
                (Ok(Some(data)), Ok(want)) => want == Some(data@),
                (Ok(None), Ok(want)) => want is None,
                (Err(e), Err(f)) => e == f,
                _ => false,
            },
    {
        if self.stack.len() == 0 {
            return Ok(None);
        }
        let last: SearchPath = self.stack[self.stack.len() - 1];
        assert(last == self.stack@.last());
        match self.pages.node(last.id) {
            Err(e) => Err(e),
            Ok(p) => if p.header().page_type == TYPE_LEAF && (last.index as u64)
                < p.header().count {
                Ok(Some(entry(&p, last.index)))
            } else {
                Ok(None)
            },
        }
    }

    /// Goes down to the first element below the end of the way.
    fn seek_first(&mut self) -> (r: Result<(), Error>)
        requires
            old(self).stack@.len() > 0,
        ensures
            final(self).pages == old(self).pages,
            final(self).root == old(self).root,
            final(self).next_called == old(self).next_called,
            final(self).previous_called == old(self).previous_called,
            ({
                let (want, way) = first_below(old(self).pages@, old(self).stack@);
                &&& final(self).stack@ == way
                &&& match r {
                    Ok(_) => want is None,
                    Err(e) => want == Some(e),
                }
            }),
    {
        let ghost want = first_below(self.pages@, self.stack@);
        loop
            invariant
                self.stack@.len() > 0,
                self.pages == old(self).pages,
                self.root == old(self).root,
                self.next_called == old(self).next_called,
                self.previous_called == old(self).previous_called,
                want == first_below(old(self).pages@, old(self).stack@),
                want == first_below(self.pages@, self.stack@),
            decreases
                    if self.pages@.buf.len() >= self.stack@.len() {
                        self.pages@.buf.len() - self.stack@.len()
                    } else {
                        0
                    },
        {
            let last: SearchPath = self.stack[self.stack.len() - 1];
            assert(last == self.stack@.last());
            let p: Page<'a> = match self.pages.node(last.id) {
                Ok(p) => p,
                Err(e) => return Err(e),
            };
            if p.header().page_type == TYPE_LEAF || p.header().count == 0 {
                return Ok(());
            }
            if self.stack.len() >= self.pages.data.len() {
                return Err(Error::InvalidDB(Fault::Text("page tree is deeper than its file")));
            }
            self.stack.push(SearchPath { index: 0, id: child(&p, last.index) });
        }
    }

    /// Goes down to the last element of a page; says whether there was one.
    fn descend_last(&mut self, id: u64) -> (r: Result<bool, Error>)
        ensures
            final(self).pages == old(self).pages,
            final(self).root == old(self).root,
            final(self).next_called == old(self).next_called,
            final(self).previous_called == old(self).previous_called,
            ({
                let (want, way) = last_below(old(self).pages@, old(self).stack@, id);
                &&& final(self).stack@ == way
                &&& match r {
                    Ok(true) => want is Leaf,
                    Ok(false) => want is Empty,
                    Err(e) => want == Descent::Fault(e),
                }
            }),
    {
        let mut at: u64 = id;
        let ghost want = last_below(self.pages@, self.stack@, id);
        loop
            invariant
                self.pages == old(self).pages,
                self.root == old(self).root,
                self.next_called == old(self).next_called,
                self.previous_called == old(self).previous_called,
                want == last_below(old(self).pages@, old(self).stack@, id),
                want == last_below(self.pages@, self.stack@, at),
            decreases
                    if self.pages@.buf.len() >= self.stack@.len() {
                        self.pages@.buf.len() - self.stack@.len()
                    } else {
                        0
                    },
        {
            let p: Page<'a> = match self.pages.node(at) {
                Ok(p) => p,
                Err(e) => return Err(e),
            };
            if p.header().count == 0 {
                return Ok(false);
            }
            let index: usize = (p.header().count - 1) as usize;
            let deep: bool = self.stack.len() >= self.pages.data.len();
            self.stack.push(SearchPath { index, id: at });
            if p.header().page_type == TYPE_LEAF {
                return Ok(true);
            }
            if deep {
                return Err(Error::InvalidDB(Fault::Text("page tree is deeper than its file")));
            }
            at = child(&p, index);
        }
    }

    /// Positions the cursor at the greatest key.
    pub fn seek_last(&mut self) -> (r: Result<(), Error>)
        ensures
            final(self).pages == old(self).pages,
            final(self).root == old(self).root,
            ({
                let (want, way) = last_below(old(self).pages@, Seq::empty(), old(self).root);
                &&& final(self)@ == (PageCursorView {
                    stack: way,
                    next_called: false,
                    previous_called: false,
                })
                &&& match r {
                    Ok(_) => want !is Fault,
                    Err(e) => want == Descent::Fault(e),
                }
            }),
    {
        self.stack.clear();
        self.next_called = false;
        self.previous_called = false;
        assert(self.stack@ =~= Seq::<SearchPath>::empty());
        match self.descend_last(self.root) {
            Ok(_) => Ok(()),
            Err(e) => Err(e),
        }
    }

    /// Goes to the element before; says whether there was one.
    fn step_back(&mut self) -> (r: Result<bool, Error>)
        ensures
            final(self).pages == old(self).pages,
            final(self).root == old(self).root,
            final(self).next_called == old(self).next_called,
            final(self).previous_called == old(self).previous_called,
            ({
                let (want, way) = stepped_back(old(self).pages@, old(self).stack@);
                &&& final(self).stack@ == way
                &&& match r {
                    Ok(true) => want is Yes,
                    Ok(false) => want is No,
                    Err(e) => want == Moved::Fault(e),
                }
            }),
    {
        let ghost want = stepped_back(self.pages@, self.stack@);
        while self.stack.len() > 0
            invariant
                self.pages == old(self).pages,
                self.root == old(self).root,
                self.next_called == old(self).next_called,
                self.previous_called == old(self).previous_called,
                want == stepped_back(old(self).pages@, old(self).stack@),
                want == stepped_back(self.pages@, self.stack@),
            decreases self.stack@.len(),
        {
            let ghost was = self.stack@;
            let last: SearchPath = self.stack[self.stack.len() - 1];
            let _popped: Option<SearchPath> = self.stack.pop();
            assert(self.stack@ =~= was.drop_last());
            if last.index > 0 {
                self.stack.push(SearchPath { index: last.index - 1, id: last.id });
                assert(self.stack@ =~= redirected(was, last.index - 1));
                let p: Page<'a> = match self.pages.node(last.id) {
                    Ok(p) => p,
                    Err(e) => return Err(e),
                };
                if p.header().page_type == TYPE_LEAF {
                    return Ok(true);
                }
                return self.descend_last(child(&p, last.index - 1));
            }
        }
        Ok(false)
    }

    /// Returns the current item and then traverses toward smaller keys.
    pub fn previous(&mut self) -> (r: Result<Option<Data<'a>>, Error>)
        ensures
            final(self).pages == old(self).pages,
            final(self).root == old(self).root,
            ({
                let (want, after) = moved_back(old(self).pages@, old(self).root, old(self)@);
                &&& final(self)@ == after
                &&& match (r, want) {
                    (Ok(Some(data)), Ok(w)) => w == Some(data@),
                    (Ok(None), Ok(w)) => w is None,
                    (Err(e), Err(f)) => e == f,
                    _ => false,
                }
            }),
    {
        if self.stack.len() == 0 {
            match self.seek_last() {
                Ok(_) => {},
                Err(e) => return Err(e),
            }
        } else if self.previous_called {
            match self.step_back() {
                Ok(true) => {},
                Ok(false) => return Ok(None),
                Err(e) => return Err(e),
            }
        }
        self.previous_called = true;
        self.next_called = false;
        self.current()
    }

    /// Goes to the element after; says whether there was one.
    fn step_on(&mut self) -> (r: Result<bool, Error>)
        requires
            old(self).stack@.len() > 0,
        ensures
            final(self).pages == old(self).pages,
            final(self).root == old(self).root,
            final(self).next_called == old(self).next_called,
            final(self).previous_called == old(self).previous_called,
            ({
                let (want, way) = stepped_on(old(self).pages@, old(self).stack@);
                &&& final(self).stack@ == way
                &&& match r {
                    Ok(true) => want is Yes,
                    Ok(false) => want is No,
                    Err(e) => want == Moved::Fault(e),
                }
            }),
    {
        let ghost want = stepped_on(self.pages@, self.stack@);
        loop
            invariant
                self.stack@.len() > 0,
                self.pages == old(self).pages,
                self.root == old(self).root,
                self.next_called == old(self).next_called,
                self.previous_called == old(self).previous_called,
                want == stepped_on(old(self).pages@, old(self).stack@),
                want == stepped_on(self.pages@, self.stack@),
            decreases self.stack@.len(),
        {
            let ghost was = self.stack@;
            let last: SearchPath = self.stack[self.stack.len() - 1];
            assert(last == was.last());
            let p: Page<'a> = match self.pages.node(last.id) {
                Ok(p) => p,
                Err(e) => return Err(e),
            };
            let count: u64 = p.header().count;
            if count == 0 || last.index as u64 >= count - 1 {
                if self.stack.len() == 1 {
                    return Ok(false);
                }
                let _popped: Option<SearchPath> = self.stack.pop();
                assert(self.stack@ =~= was.drop_last());
            } else {
                let _popped: Option<SearchPath> = self.stack.pop();
                self.stack.push(SearchPath { index: last.index + 1, id: last.id });
                assert(self.stack@ =~= redirected(was, last.index + 1));
                return match self.seek_first() {
                    Ok(_) => Ok(true),
                    Err(e) => Err(e),
                };
            }
        }
    }

    /// Returns the next item, toward larger keys; the first is the one that
    /// the cursor was placed at.
    pub fn next(&mut self) -> (r: Result<Option<Data<'a>>, Error>)
        ensures
            final(self).pages == old(self).pages,
            final(self).root == old(self).root,
            ({
                let (want, after) = moved_on(old(self).pages@, old(self).root, old(self)@);
                &&& final(self)@ == after
                &&& match (r, want) {
                    (Ok(Some(data)), Ok(w)) => w == Some(data@),
                    (Ok(None), Ok(w)) => w is None,
                    (Err(e), Err(f)) => e == f,
                    _ => false,
                }
            }),
    {
        self.previous_called = false;
        if self.stack.len() == 0 {
            self.stack.push(SearchPath { index: 0, id: self.root });
            assert(self.stack@ =~= seq![SearchPath { index: 0, id: self.root }]);
            match self.seek_first() {
                Ok(_) => {},
                Err(e) => return Err(e),
            }
        } else if self.next_called {
            match self.step_on() {
                Ok(true) => {},
                Ok(false) => return Ok(None),
                Err(e) => return Err(e),
            }
        }
        self.next_called = true;
        self.current()
    }
}

} // verus!
