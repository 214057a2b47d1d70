//! The transactions that readers of this process have open.

use vstd::prelude::*;

verus! {

broadcast use vstd::multiset::group_multiset_axioms;

/// The transactions that readers have open, oldest first.
#[derive(Debug)]
pub struct OpenReaders {
    ids: Vec<u64>,
}

/// Whether no number is smaller than the one before.
pub open spec fn rising(s: Seq<u64>) -> bool {
    forall|i: int, j: int| 0 <= i < j < s.len() ==> (#[trigger] s[i]) <= (#[trigger] s[j])
}

impl View for OpenReaders {
    type V = Seq<u64>;

    closed spec fn view(&self) -> Seq<u64> {
        self.ids@
    }
}

impl OpenReaders {
    /// Whether the transactions are listed oldest first.
    pub open spec fn wf(&self) -> bool {
        rising(self@)
    }

    /// No reader.
    pub fn new() -> (r: Self)
        ensures
            r.wf(),
            r@ == Seq::<u64>::empty(),
    {
        OpenReaders { ids: Vec::new() }
    }

    /// How many readers there are.
    pub fn count(&self) -> (r: u64)
        ensures
            r == self@.len(),
    {
        self.ids.len() as u64
    }

    /// The transaction of the reader that has the oldest one open.
    pub fn oldest(&self) -> (r: Option<u64>)
        requires
            self.wf(),
        ensures
            match r {
                Some(id) => self@.contains(id) && (forall|other: u64| #[trigger]
                    self@.contains(other) ==> id <= other),
                None => self@.len() == 0,
            },
    {
        if self.ids.len() == 0 {
            None
        } else {
            let id: u64 = self.ids[0];
            assert(self@[0] == id);
            Some(id)
        }
    }

    /// Where `id` belongs: everything before is smaller, nothing from there on
    /// is.
    fn position(&self, id: u64) -> (r: usize)
        requires
            self.wf(),
        ensures
            r <= self@.len(),
            forall|j: int| 0 <= j < r ==> (#[trigger] self@[j]) < id,
            forall|j: int| r <= j < self@.len() ==> (#[trigger] self@[j]) >= id,
    {
        let mut low: usize = 0;
        let mut high: usize = self.ids.len();
        while low < high
            invariant
                self.wf(),
                low <= high <= self@.len(),
                forall|j: int| 0 <= j < low ==> (#[trigger] self@[j]) < id,
                forall|j: int| high <= j < self@.len() ==> (#[trigger] self@[j]) >= id,
            decreases high - low,
        {
            let mid: usize = low + (high - low) / 2;
            if self.ids[mid] < id {
                assert forall|j: int| 0 <= j < mid + 1 implies (#[trigger] self@[j]) < id by {
                    if j < mid {
                        assert(self@[j] <= self@[mid as int]);
                    }
                }
                low = mid + 1;
            } else {
                assert forall|j: int| mid <= j < self@.len() implies (#[trigger] self@[j])
                    >= id by {
                    if j > mid {
                        assert(self@[mid as int] <= self@[j]);
                    }
                }
                high = mid;
            }
        }
        low
    }

    /// Notes a reader of transaction `id`.
    pub fn open(&mut self, id: u64)
        requires
            old(self).wf(),
        ensures
            final(self).wf(),
            final(self)@.to_multiset() == old(self)@.to_multiset().insert(id),
    {
        let at: usize = self.position(id);
        let ghost was = self@;
        self.ids.insert(at, id);
        proof {
            assert(self@ =~= was.insert(at as int, id));
            was.insert_ensures(at as int, id);
            lemma_insert_counts(was, at as int, id);
            assert forall|i: int, j: int| 0 <= i < j < self@.len() implies (#[trigger] self@[i])
                <= (#[trigger] self@[j]) by {
                let x = if i < at {
                    i
                } else {
                    i - 1
                };
                let y = if j < at {
                    j
                } else {
                    j - 1
                };
                if i != at {
                    assert(self@[i] == was[x]);
                }
                if j != at {
                    assert(self@[j] == was[y]);
                }
                if i != at && j != at {
                    assert(was[x] <= was[y]);
                }
            }
        }
    }

    /// Forgets one reader of transaction `id`, if there is one.
    pub fn close(&mut self, id: u64)
        requires
            old(self).wf(),
        ensures
            final(self).wf(),
            final(self)@.to_multiset() == old(self)@.to_multiset().remove(id),
    {
        let at: usize = self.position(id);
        let ghost was = self@;
        if at < self.ids.len() && self.ids[at] == id {
            let _gone: u64 = self.ids.remove(at);
            proof {
                assert(self@ =~= was.remove(at as int));
                vstd::seq_lib::to_multiset_remove(was, at as int);
                assert forall|i: int, j: int| 0 <= i < j < self@.len() implies (#[trigger] self@[i])
                    <= (#[trigger] self@[j]) by {
                    let x = if i < at {
                        i
                    } else {
                        i + 1
                    };
                    let y = if j < at {
                        j
                    } else {
                        j + 1
                    };
                    assert(self@[i] == was[x]);
                    assert(self@[j] == was[y]);
                }
            }
        } else {
            proof {
                assert(!was.contains(id)) by {
                    if was.contains(id) {
                        let j = choose|j: int| 0 <= j < was.len() && was[j] == id;
                        if j > at {
                            assert(was[at as int] <= was[j]);
                        }
                    }
                }
                was.to_multiset_ensures();
                assert(was.to_multiset().count(id) == 0);
                assert(was.to_multiset().remove(id) =~= was.to_multiset());
            }
        }
    }
}

proof fn lemma_insert_counts(s: Seq<u64>, at: int, id: u64)
    requires
        0 <= at <= s.len(),
    ensures
        s.insert(at, id).to_multiset() == s.to_multiset().insert(id),
{
    let t = s.insert(at, id);
    vstd::seq_lib::to_multiset_remove(t, at);
    assert(t.remove(at) =~= s);
    t.to_multiset_ensures();
    assert(t[at] == id);
    assert(t.contains(id));
    assert(t.to_multiset().count(id) > 0);
    assert(t.to_multiset() =~= t.to_multiset().remove(id).insert(id));
}

/// A reader that is opened and closed again leaves the others as they were.
pub proof fn law_reader_leaves_no_trace(before: Seq<u64>, opened: Seq<u64>, closed: Seq<u64>, id: u64)
    requires
        opened.to_multiset() == before.to_multiset().insert(id),
        closed.to_multiset() == opened.to_multiset().remove(id),
    ensures
        closed.to_multiset() == before.to_multiset(),
{
    assert(closed.to_multiset() =~= before.to_multiset());
}

} // verus!
