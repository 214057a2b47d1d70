//! What a transaction changed, and who is told.

use crate::api::names::{self, is_unreported};
use crate::bytes::{self, less, owned, same, starts_with};
use vstd::prelude::*;

verus! {

/// How many changes a transaction tells of at most.
pub const MAX_CHANGES: usize = 4096;

/// How many bytes the paths and keys of a transaction's changes have at most.
pub const MAX_CHANGE_BYTES: usize = 4_194_304;

/// What was done to a key.
#[derive(Clone, Copy, Debug, PartialEq, Eq, Structural)]
pub enum ChangeOperation {
    Put,
    Delete,
    BucketCreate,
    BucketDelete,
    Expire,
}

/// A change to a key of a bucket.
#[derive(Clone, Debug, PartialEq, Eq)]
pub struct Change {
    pub bucket_path: Vec<Vec<u8>>,
    pub key: Vec<u8>,
    pub operation: ChangeOperation,
}

/// The changes of a transaction.
#[derive(Clone, Debug, PartialEq, Eq)]
pub struct ChangeSet {
    pub transaction_id: u64,
    pub changes: Vec<Change>,
    /// True when the transaction exceeded the fixed change-memory budget.
    pub truncated: bool,
}

/// A change, by what it says.
#[verifier::ext_equal]
pub struct ChangeView {
    pub path: Seq<Seq<u8>>,
    pub key: Seq<u8>,
    pub operation: ChangeOperation,
}

/// The changes of a transaction, by what they say.
#[verifier::ext_equal]
pub struct ChangeSetView {
    pub transaction_id: u64,
    pub changes: Seq<ChangeView>,
    pub truncated: bool,
}

/// What a path says.
pub open spec fn path_view(path: Seq<Vec<u8>>) -> Seq<Seq<u8>> {
    path.map_values(|part: Vec<u8>| part@)
}

/// What a list of changes says.
pub open spec fn changes_view(changes: Seq<Change>) -> Seq<ChangeView> {
    changes.map_values(|c: Change| c@)
}

impl View for Change {
    type V = ChangeView;

    open spec fn view(&self) -> ChangeView {
        ChangeView {
            path: path_view(self.bucket_path@),
            key: self.key@,
            operation: self.operation,
        }
    }
}

impl View for ChangeSet {
    type V = ChangeSetView;

    open spec fn view(&self) -> ChangeSetView {
        ChangeSetView {
            transaction_id: self.transaction_id,
            changes: changes_view(self.changes@),
            truncated: self.truncated,
        }
    }
}

/// A path of one's own.
pub fn owned_path(path: &Vec<Vec<u8>>) -> (r: Vec<Vec<u8>>)
    ensures
        path_view(r@) == path_view(path@),
{
    let mut out: Vec<Vec<u8>> = Vec::new();
    let mut i: usize = 0;
    while i < path.len()
        invariant
            i <= path@.len(),
            path_view(out@) == path_view(path@).take(i as int),
        decreases path@.len() - i,
    {
        let ghost was = path_view(out@);
        out.push(owned(&path[i]));
        assert(path_view(out@) =~= was.push(path@[i as int]@));
        assert(path_view(out@) =~= path_view(path@).take(i + 1));
        i = i + 1;
    }
    assert(path_view(path@).take(i as int) =~= path_view(path@));
    out
}

/// Whether two paths say the same.
pub fn same_path(a: &Vec<Vec<u8>>, b: &Vec<Vec<u8>>) -> (r: bool)
    ensures
        r == (path_view(a@) == path_view(b@)),
{
    if a.len() != b.len() {
        assert(path_view(a@).len() != path_view(b@).len());
        return false;
    }
    let mut i: usize = 0;
    while i < a.len()
        invariant
            a@.len() == b@.len(),
            i <= a@.len(),
            forall|j: int| 0 <= j < i ==> (#[trigger] a@[j])@ == b@[j]@,
        decreases a@.len() - i,
    {
        if !same(&a[i], &b[i]) {
            assert(path_view(a@)[i as int] != path_view(b@)[i as int]);
            return false;
        }
        i = i + 1;
    }
    assert(path_view(a@) =~= path_view(b@));
    true
}

/// A change of one's own.
pub fn owned_change(change: &Change) -> (r: Change)
    ensures
        r@ == change@,
{
    Change {
        bucket_path: owned_path(&change.bucket_path),
        key: owned(&change.key),
        operation: change.operation,
    }
}

/// Which changes a watcher asks for, by what was asked.
#[verifier::ext_equal]
pub struct FilterView {
    pub path: Option<Seq<Seq<u8>>>,
    pub prefix: Option<Seq<u8>>,
    pub range: Option<(Seq<u8>, Seq<u8>)>,
    pub operations: Seq<ChangeOperation>,
}

/// A filter that nothing was asked of.
pub open spec fn any_change() -> FilterView {
    FilterView { path: None, prefix: None, range: None, operations: Seq::empty() }
}

/// Whether a change is asked for.
pub open spec fn asks_for(f: FilterView, c: ChangeView) -> bool {
    &&& f.path matches Some(path) ==> path == c.path
    &&& f.prefix matches Some(prefix) ==> prefix.is_prefix_of(c.key)
    &&& f.range matches Some((start, end)) ==> bytes::lex_le(start, c.key) && bytes::lex_lt(
        c.key,
        end,
    )
    &&& f.operations.len() == 0 || f.operations.contains(c.operation)
}

/// The changes that are asked for, in order.
pub open spec fn selected(f: FilterView, changes: Seq<ChangeView>) -> Seq<ChangeView> {
    changes.filter(|c: ChangeView| asks_for(f, c))
}

/// Best-effort process-local watch selection.
#[derive(Clone, Debug)]
pub struct WatchFilter {
    bucket_path: Option<Vec<Vec<u8>>>,
    key_prefix: Option<Vec<u8>>,
    key_range: Option<(Vec<u8>, Vec<u8>)>,
    operations: Vec<ChangeOperation>,
}

impl View for WatchFilter {
    type V = FilterView;

    closed spec fn view(&self) -> FilterView {
        FilterView {
            path: match self.bucket_path {
                Some(path) => Some(path_view(path@)),
                None => None,
            },
            prefix: match self.key_prefix {
                Some(prefix) => Some(prefix@),
                None => None,
            },
            range: match self.key_range {
                Some((start, end)) => Some((start@, end@)),
                None => None,
            },
            operations: self.operations@,
        }
    }
}

impl Default for WatchFilter {
    fn default() -> (r: Self)
        ensures
            r@ == any_change(),
    {
        WatchFilter::new()
    }
}

impl WatchFilter {
    /// A filter that asks for every change.
    pub fn new() -> (r: Self)
        ensures
            r@ == any_change(),
    {
        let r: WatchFilter = WatchFilter {
            bucket_path: None,
            key_prefix: None,
            key_range: None,
            operations: Vec::new(),
        };
        assert(r@ =~= any_change());
        r
    }

    /// Creates a filter whose subscription begins with commits after subscribe.
    pub fn from_now() -> (r: Self)
        ensures
            r@ == any_change(),
    {
        WatchFilter::new()
    }

    /// Asks for changes in one root bucket.
    pub fn collection(self, name: &[u8]) -> (r: Self)
        ensures
            r@ == (FilterView { path: Some(seq![name@]), ..self@ }),
    {
        let mut path: Vec<Vec<u8>> = Vec::new();
        path.push(owned(name));
        assert(path_view(path@) =~= seq![name@]);
        WatchFilter { bucket_path: Some(path), ..self }
    }

    /// Asks for changes in one bucket.
    pub fn bucket_path(self, path: Vec<Vec<u8>>) -> (r: Self)
        ensures
            r@ == (FilterView { path: Some(path_view(path@)), ..self@ }),
    {
        WatchFilter { bucket_path: Some(path), ..self }
    }

    /// Asks for changes to keys that begin with `prefix`.
    pub fn prefix(self, prefix: &[u8]) -> (r: Self)
        ensures
            r@ == (FilterView { prefix: Some(prefix@), ..self@ }),
    {
        WatchFilter { key_prefix: Some(owned(prefix)), ..self }
    }

    /// Asks for changes to keys from `start_inclusive` on and before
    /// `end_exclusive`.
    pub fn range(self, start_inclusive: &[u8], end_exclusive: &[u8]) -> (r: Self)
        ensures
            r@ == (FilterView { range: Some((start_inclusive@, end_exclusive@)), ..self@ }),
    {
        WatchFilter { key_range: Some((owned(start_inclusive), owned(end_exclusive))), ..self }
    }

    /// Asks for changes by these operations; by any, if there are none.
    pub fn operations(self, operations: Vec<ChangeOperation>) -> (r: Self)
        ensures
            r@ == (FilterView { operations: operations@, ..self@ }),
    {
        WatchFilter { operations, ..self }
    }

    fn asks_for_operation(&self, operation: ChangeOperation) -> (r: bool)
        ensures
            r == (self@.operations.len() == 0 || self@.operations.contains(operation)),
    {
        if self.operations.len() == 0 {
            return true;
        }
        let mut i: usize = 0;
        while i < self.operations.len()
            invariant
                i <= self.operations@.len(),
                forall|j: int| 0 <= j < i ==> (#[trigger] self.operations@[j]) != operation,
            decreases self.operations@.len() - i,
        {
            if self.operations[i] == operation {
                assert(self.operations@[i as int] == operation);
                return true;
            }
            i = i + 1;
        }
        false
    }

    /// Whether a change is asked for.
    pub fn matches(&self, change: &Change) -> (r: bool)
        ensures
            r == asks_for(self@, change@),
    {
        let here: bool = match &self.bucket_path {
            Some(path) => same_path(path, &change.bucket_path),
            None => true,
        };
        let begins: bool = match &self.key_prefix {
            Some(prefix) => starts_with(&change.key, prefix),
            None => true,
        };
        let within: bool = match &self.key_range {
            Some((start, end)) => {
                proof {
                    bytes::lemma_lex_total(start@, change.key@);
                    bytes::lemma_lex_irreflexive(start@);
                    if bytes::lex_lt(start@, change.key@) && bytes::lex_lt(change.key@, start@) {
                        bytes::lemma_lex_transitive(start@, change.key@, start@);
                    }
                }
                !less(&change.key, start) && less(&change.key, end)
            },
            None => true,
        };
        here && begins && within && self.asks_for_operation(change.operation)
    }
}

/// The changes that a filter asks for.
pub fn select(filter: &WatchFilter, changes: &Vec<Change>) -> (r: Vec<Change>)
    ensures
        changes_view(r@) == selected(filter@, changes_view(changes@)),
{
    let ghost all = changes_view(changes@);
    let ghost wanted = |c: ChangeView| asks_for(filter@, c);
    let mut out: Vec<Change> = Vec::new();
    let mut i: usize = 0;
    proof {
        assert(all.take(0) =~= Seq::<ChangeView>::empty());
        reveal(Seq::filter);
        assert(changes_view(out@) =~= all.take(0).filter(wanted));
    }
    while i < changes.len()
        invariant
            i <= changes@.len(),
            all == changes_view(changes@),
            wanted == (|c: ChangeView| asks_for(filter@, c)),
            changes_view(out@) == all.take(i as int).filter(wanted),
        decreases changes@.len() - i,
    {
        let ghost was = changes_view(out@);
        proof {
            reveal(Seq::filter);
            assert(all.take(i + 1).drop_last() =~= all.take(i as int));
            assert(all.take(i + 1).last() == changes@[i as int]@);
        }
        if filter.matches(&changes[i]) {
            let change: Change = owned_change(&changes[i]);
            let ghost view = change@;
            out.push(change);
            assert(changes_view(out@) =~= was.push(view));
        }
        i = i + 1;
    }
    assert(all.take(i as int) =~= all);
    out
}

/// What a transaction has told so far, by what it said.
#[verifier::ext_equal]
pub struct TrackerView {
    pub enabled: bool,
    pub bytes: nat,
    pub changes: Seq<ChangeView>,
    pub truncated: bool,
}

/// How many bytes a path has.
pub open spec fn path_bytes(path: Seq<Seq<u8>>) -> nat
    decreases path.len(),
{
    if path.len() == 0 {
        0
    } else {
        path_bytes(path.drop_last()) + path.last().len()
    }
}

/// Whether a change is kept out of change sets.
pub open spec fn untold(path: Seq<Seq<u8>>, key: Seq<u8>) -> bool {
    names::unreported(key) || exists|i: int|
        0 <= i < path.len() && names::unreported(#[trigger] path[i])
}

/// A tracker with a change recorded: one that is kept out, or beyond the
/// budget, leaves no more than a mark.
pub open spec fn recorded(t: TrackerView, change: ChangeView) -> TrackerView {
    let bytes = path_bytes(change.path) + change.key.len();
    if !t.enabled || untold(change.path, change.key) {
        t
    } else if t.changes.len() == MAX_CHANGES || t.bytes + bytes > MAX_CHANGE_BYTES {
        TrackerView { truncated: true, ..t }
    } else {
        TrackerView { bytes: t.bytes + bytes, changes: t.changes.push(change), ..t }
    }
}

/// Notes what a transaction changes.
#[derive(Debug)]
pub struct ChangeTracker {
    enabled: bool,
    bytes: usize,
    changes: Vec<Change>,
    truncated: bool,
}

impl View for ChangeTracker {
    type V = TrackerView;

    closed spec fn view(&self) -> TrackerView {
        TrackerView {
            enabled: self.enabled,
            bytes: self.bytes as nat,
            changes: changes_view(self.changes@),
            truncated: self.truncated,
        }
    }
}

/// The number of bytes of a path, or one that is over the budget if it is.
fn count_bytes(path: &Vec<Vec<u8>>) -> (r: usize)
    ensures
        if path_bytes(path_view(path@)) <= MAX_CHANGE_BYTES {
            r == path_bytes(path_view(path@))
        } else {
            r > MAX_CHANGE_BYTES
        },
{
    let ghost all = path_view(path@);
    let mut total: usize = 0;
    let mut i: usize = 0;
    assert(all.take(0) =~= Seq::<Seq<u8>>::empty());
    while i < path.len()
        invariant
            i <= path@.len(),
            all == path_view(path@),
            total == path_bytes(all.take(i as int)) <= MAX_CHANGE_BYTES,
        decreases path@.len() - i,
    {
        proof {
            assert(all.take(i + 1).drop_last() =~= all.take(i as int));
            assert(all.take(i + 1).last() == path@[i as int]@);
            lemma_path_bytes_grow(all, i + 1);
        }
        let more: usize = path[i].len();
        if more > MAX_CHANGE_BYTES - total {
            return MAX_CHANGE_BYTES + 1;
        }
        total = total + more;
        i = i + 1;
    }
    assert(all.take(i as int) =~= all);
    total
}

proof fn lemma_path_bytes_grow(path: Seq<Seq<u8>>, i: int)
    requires
        0 <= i <= path.len(),
    ensures
        path_bytes(path.take(i)) <= path_bytes(path),
    decreases path.len(),
{
    if i < path.len() {
        lemma_path_bytes_grow(path.drop_last(), i);
        assert(path.drop_last().take(i) =~= path.take(i));
    } else {
        assert(path.take(i) =~= path);
    }
}

fn any_unreported(path: &Vec<Vec<u8>>) -> (r: bool)
    ensures
        r == exists|i: int|
            0 <= i < path@.len() && names::unreported(#[trigger] path_view(path@)[i]),
{
    let mut i: usize = 0;
    while i < path.len()
        invariant
            i <= path@.len(),
            forall|j: int| 0 <= j < i ==> !names::unreported(#[trigger] path_view(path@)[j]),
        decreases path@.len() - i,
    {
        if is_unreported(&path[i]) {
            assert(names::unreported(path_view(path@)[i as int]));
            return true;
        }
        i = i + 1;
    }
    false
}

impl ChangeTracker {
    /// Whether the tracker is within its budget.
    pub open spec fn wf(&self) -> bool {
        self@.bytes <= MAX_CHANGE_BYTES && self@.changes.len() <= MAX_CHANGES
    }

    /// A tracker that has noted nothing; one that is not enabled never does.
    pub fn new(enabled: bool) -> (r: Self)
        ensures
            r.wf(),
            r@ == (TrackerView { enabled, bytes: 0, changes: Seq::empty(), truncated: false }),
    {
        let r: ChangeTracker = ChangeTracker {
            enabled,
            bytes: 0,
            changes: Vec::new(),
            truncated: false,
        };
        assert(changes_view(r.changes@) =~= Seq::<ChangeView>::empty());
        r
    }

    /// Notes a change.
    pub fn record(&mut self, path: &Vec<Vec<u8>>, key: &[u8], operation: ChangeOperation)
        requires
            old(self).wf(),
        ensures
            final(self).wf(),
            final(self)@ == recorded(
                old(self)@,
                ChangeView { path: path_view(path@), key: key@, operation },
            ),
    {
        if !self.enabled || is_unreported(key) || any_unreported(path) {
            return;
        }
        let path_len: usize = count_bytes(path);
        let key_len: usize = key.len();
        if self.changes.len() == MAX_CHANGES || path_len > MAX_CHANGE_BYTES || key_len
            > MAX_CHANGE_BYTES - path_len || path_len + key_len > MAX_CHANGE_BYTES - self.bytes {
            self.truncated = true;
            return;
        }
        let ghost was = changes_view(self.changes@);
        self.bytes = self.bytes + (path_len + key_len);
        let change: Change = Change {
            bucket_path: owned_path(path),
            key: owned(key),
            operation,
        };
        let ghost view = change@;
        self.changes.push(change);
        assert(changes_view(self.changes@) =~= was.push(view));
    }

    /// The change set of the transaction; its changes are handed over.
    pub fn finish(&mut self, transaction_id: u64) -> (r: ChangeSet)
        requires
            old(self).wf(),
        ensures
            final(self).wf(),
            r@ == (ChangeSetView {
                transaction_id,
                changes: old(self)@.changes,
                truncated: old(self)@.truncated,
            }),
            final(self)@ == (TrackerView { changes: Seq::empty(), ..old(self)@ }),
    {
        let mut changes: Vec<Change> = Vec::new();
        std::mem::swap(&mut changes, &mut self.changes);
        assert(changes_view(self.changes@) =~= Seq::<ChangeView>::empty());
        ChangeSet { transaction_id, changes, truncated: self.truncated }
    }

    /// The change set of the transaction so far.
    pub fn snapshot(&self, transaction_id: u64) -> (r: ChangeSet)
        ensures
            r@ == (ChangeSetView {
                transaction_id,
                changes: self@.changes,
                truncated: self@.truncated,
            }),
    {
        let ghost all = changes_view(self.changes@);
        let mut changes: Vec<Change> = Vec::new();
        let mut i: usize = 0;
        assert(changes_view(changes@) =~= all.take(0));
        while i < self.changes.len()
            invariant
                i <= self.changes@.len(),
                all == changes_view(self.changes@),
                changes_view(changes@) == all.take(i as int),
            decreases self.changes@.len() - i,
        {
            let ghost was = changes_view(changes@);
            let change: Change = owned_change(&self.changes[i]);
            let ghost view = change@;
            changes.push(change);
            assert(changes_view(changes@) =~= was.push(view));
            assert(changes_view(changes@) =~= all.take(i + 1));
            i = i + 1;
        }
        assert(all.take(i as int) =~= all);
        ChangeSet { transaction_id, changes, truncated: self.truncated }
    }
}

/// Whatever a transaction does, what it tells of stays within the budget.
pub proof fn law_changes_stay_in_budget(t: TrackerView, change: ChangeView)
    requires
        t.bytes <= MAX_CHANGE_BYTES,
        t.changes.len() <= MAX_CHANGES,
    ensures
        recorded(t, change).bytes <= MAX_CHANGE_BYTES,
        recorded(t, change).changes.len() <= MAX_CHANGES,
{
}

/// A change that is not kept out is either told, or the set is marked as cut.
pub proof fn law_no_change_is_lost_silently(t: TrackerView, change: ChangeView)
    requires
        t.enabled,
        !untold(change.path, change.key),
    ensures
        recorded(t, change).truncated || recorded(t, change).changes == t.changes.push(change),
{
}

/// Why nothing more comes from a subscription.
#[derive(Clone, Copy, Debug, PartialEq, Eq, Structural)]
pub enum WatchError {
    Empty,
    Overflow,
    Disconnected,
}

/// Why there is no change set to be had.
#[derive(Clone, Copy, Debug, PartialEq, Eq, Structural)]
pub enum TryRecvError {
    Empty,
    Disconnected,
}

/// The sender is gone, and everything it sent has been taken.
#[derive(Clone, Copy, Debug, PartialEq, Eq, Structural)]
pub struct RecvError;

/// What a list of change sets says.
pub open spec fn sets_view(sets: Seq<ChangeSet>) -> Seq<ChangeSetView> {
    sets.map_values(|s: ChangeSet| s@)
}

/// A watcher's bounded queue of change sets.
pub struct WatchSubscription {
    queue: Vec<ChangeSet>,
    capacity: usize,
    filter: WatchFilter,
    terminal: Option<WatchError>,
    connected: bool,
    listening: bool,
}

/// A watcher's queue, by what is in it.
#[verifier::ext_equal]
pub struct SubscriptionView {
    pub queue: Seq<ChangeSetView>,
    pub capacity: usize,
    pub filter: FilterView,
    pub terminal: Option<WatchError>,
    /// Whether more can come.
    pub connected: bool,
    /// Whether anyone takes it.
    pub listening: bool,
}

impl View for WatchSubscription {
    type V = SubscriptionView;

    closed spec fn view(&self) -> SubscriptionView {
        SubscriptionView {
            queue: sets_view(self.queue@),
            capacity: self.capacity,
            filter: self.filter@,
            terminal: self.terminal,
            connected: self.connected,
            listening: self.listening,
        }
    }
}

/// What a watcher is told of a change set.
pub open spec fn told_of(s: SubscriptionView, set: ChangeSetView) -> ChangeSetView {
    ChangeSetView { changes: selected(s.filter, set.changes), ..set }
}

/// Whether a watcher is told of a change set at all.
pub open spec fn concerns(s: SubscriptionView, set: ChangeSetView) -> bool {
    selected(s.filter, set.changes).len() > 0 || set.truncated
}

/// A watcher's queue after a change set was published.
pub open spec fn offered(s: SubscriptionView, set: ChangeSetView) -> SubscriptionView {
    if !concerns(s, set) {
        s
    } else if !s.listening {
        SubscriptionView { terminal: Some(WatchError::Disconnected), connected: false, ..s }
    } else if s.queue.len() >= s.capacity {
        SubscriptionView { terminal: Some(WatchError::Overflow), connected: false, ..s }
    } else {
        SubscriptionView { queue: s.queue.push(told_of(s, set)), ..s }
    }
}

/// Why nothing more comes.
pub open spec fn ended(s: SubscriptionView) -> WatchError {
    match s.terminal {
        Some(reason) => reason,
        None => WatchError::Disconnected,
    }
}

/// A watcher's queue without the oldest change set.
pub open spec fn taken(s: SubscriptionView) -> SubscriptionView {
    SubscriptionView { queue: s.queue.drop_first(), ..s }
}

impl WatchSubscription {
    /// A watcher whose queue holds `capacity` change sets, and one at least.
    pub fn new(capacity: usize, filter: WatchFilter) -> (r: Self)
        ensures
            r@ == (SubscriptionView {
                queue: Seq::empty(),
                capacity: if capacity == 0 {
                    1
                } else {
                    capacity
                },
                filter: filter@,
                terminal: None,
                connected: true,
                listening: true,
            }),
    {
        let r: WatchSubscription = WatchSubscription {
            queue: Vec::new(),
            capacity: if capacity == 0 {
                1
            } else {
                capacity
            },
            filter,
            terminal: None,
            connected: true,
            listening: true,
        };
        assert(sets_view(r.queue@) =~= Seq::<ChangeSetView>::empty());
        r
    }

    /// Hands a change set to the watcher; says whether it stays subscribed.
    ///
    /// A watcher that is behind by its whole queue is cut off, and never waited
    /// for.
    pub fn offer(&mut self, set: &ChangeSet) -> (r: bool)
        requires
            old(self)@.connected,
        ensures
            final(self)@ == offered(old(self)@, set@),
            r == final(self)@.connected,
    {
        let changes: Vec<Change> = select(&self.filter, &set.changes);
        assert(changes_view(changes@).len() == changes@.len());
        if changes.len() == 0 && !set.truncated {
            return true;
        }
        if !self.listening {
            self.terminal = Some(WatchError::Disconnected);
            self.connected = false;
            return false;
        }
        if self.queue.len() >= self.capacity {
            self.terminal = Some(WatchError::Overflow);
            self.connected = false;
            return false;
        }
        let ghost was = sets_view(self.queue@);
        let told: ChangeSet = ChangeSet {
            transaction_id: set.transaction_id,
            changes,
            truncated: set.truncated,
        };
        let ghost view = told@;
        self.queue.push(told);
        assert(sets_view(self.queue@) =~= was.push(view));
        true
    }

    /// Notes that the database is gone.
    pub fn disconnect(&mut self)
        ensures
            final(self)@ == (SubscriptionView { connected: false, ..old(self)@ }),
    {
        self.connected = false;
    }

    /// Notes that nobody listens any more.
    pub fn hang_up(&mut self)
        ensures
            final(self)@ == (SubscriptionView { listening: false, ..old(self)@ }),
    {
        self.listening = false;
    }

    /// Takes the oldest change set, if there is one.
    pub fn try_recv(&mut self) -> (r: Result<ChangeSet, TryRecvError>)
        ensures
            match r {
                Ok(set) => old(self)@.queue.len() > 0 && set@ == old(self)@.queue[0]
                    && final(self)@ == taken(old(self)@),
                Err(e) => old(self)@.queue.len() == 0 && final(self)@ == old(self)@ && e == (if old(
                    self,
                )@.connected {
                    TryRecvError::Empty
                } else {
                    TryRecvError::Disconnected
                }),
            },
    {
        let ghost was = sets_view(self.queue@);
        if self.queue.len() > 0 {
            let set: ChangeSet = self.queue.remove(0);
            assert(sets_view(self.queue@) =~= was.drop_first());
            Ok(set)
        } else if self.connected {
            Err(TryRecvError::Empty)
        } else {
            Err(TryRecvError::Disconnected)
        }
    }

    /// Takes the oldest change set. Until there is one, or the sender is gone,
    /// there is nothing to be had: the caller waits before.
    pub fn recv(&mut self) -> (r: Result<ChangeSet, RecvError>)
        requires
            old(self)@.queue.len() > 0 || !old(self)@.connected,
        ensures
            match r {
                Ok(set) => old(self)@.queue.len() > 0 && set@ == old(self)@.queue[0]
                    && final(self)@ == taken(old(self)@),
                Err(_) => old(self)@.queue.len() == 0 && final(self)@ == old(self)@,
            },
    {
        match self.try_recv() {
            Ok(set) => Ok(set),
            Err(_) => Err(RecvError),
        }
    }

    /// Takes the oldest change set, or tells why nothing more comes.
    pub fn recv_event(&mut self) -> (r: Result<ChangeSet, WatchError>)
        requires
            old(self)@.queue.len() > 0 || !old(self)@.connected,
        ensures
            match r {
                Ok(set) => old(self)@.queue.len() > 0 && set@ == old(self)@.queue[0]
                    && final(self)@ == taken(old(self)@),
                Err(e) => old(self)@.queue.len() == 0 && final(self)@ == old(self)@ && e == ended(
                    old(self)@,
                ),
            },
    {
        match self.recv() {
            Ok(set) => Ok(set),
            Err(_) => Err(self.terminal_error()),
        }
    }

    /// Takes the oldest change set, or tells why there is none.
    pub fn try_recv_event(&mut self) -> (r: Result<ChangeSet, WatchError>)
        ensures
            match r {
                Ok(set) => old(self)@.queue.len() > 0 && set@ == old(self)@.queue[0]
                    && final(self)@ == taken(old(self)@),
                Err(e) => old(self)@.queue.len() == 0 && final(self)@ == old(self)@ && e == (if old(
                    self,
                )@.connected {
                    WatchError::Empty
                } else {
                    ended(old(self)@)
                }),
            },
    {
        match self.try_recv() {
            Ok(set) => Ok(set),
            Err(TryRecvError::Empty) => Err(WatchError::Empty),
            Err(TryRecvError::Disconnected) => Err(self.terminal_error()),
        }
    }

    fn terminal_error(&self) -> (r: WatchError)
        ensures
            r == ended(self@),
    {
        match self.terminal {
            Some(reason) => reason,
            None => WatchError::Disconnected,
        }
    }
}

/// A watcher that stays subscribed was told of the change set if it concerned
/// it, behind all that came before; one that is cut off keeps what it has, and
/// learns why.
pub proof fn law_watchers_are_told_or_cut_off(s: SubscriptionView, set: ChangeSetView)
    requires
        s.connected,
    ensures
        offered(s, set).connected ==> offered(s, set).queue == (if concerns(s, set) {
            s.queue.push(told_of(s, set))
        } else {
            s.queue
        }),
        !offered(s, set).connected ==> offered(s, set).queue == s.queue && offered(
            s,
            set,
        ).terminal is Some,
        s.queue.len() <= s.capacity ==> offered(s, set).queue.len() <= s.capacity,
{
}

} // verus!
