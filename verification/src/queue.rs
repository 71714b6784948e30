//! A queue of tasks that hands them out by ascending key, and among equal
//! keys in the order in which they were pushed.

use crate::heap::{
    heap_contents, heap_is_empty, heap_new, heap_peek, heap_pop, heap_push, heap_tickets, Heap,
    Ticket,
};
use crate::process::{Process, ProcessView};
use std::collections::HashMap;
use vstd::prelude::*;

verus! {

broadcast use vstd::std_specs::hash::group_hash_axioms;

/// A queued task as the contracts speak of it: the task, the key it is
/// ordered by, and the number of the push that brought it into its queue.
pub struct QueueEntry {
    pub process: ProcessView,
    pub key: u32,
    pub seq: u64,
}

/// A task taken from a queue, with its key and its sequence number.
#[derive(Debug)]
pub struct Queued {
    pub process: Process,
    pub key: u32,
    pub seq: u64,
}

impl View for Queued {
    type V = QueueEntry;

    open spec fn view(&self) -> QueueEntry {
        QueueEntry { process: self.process@, key: self.key, seq: self.seq }
    }
}

/// The views of a sequence of queued tasks.
pub open spec fn entries_of(v: Seq<Queued>) -> Seq<QueueEntry> {
    v.map_values(|q: Queued| q@)
}

/// `a` leaves a queue before `b`: its key is less, or the keys are equal and
/// it was pushed first.
pub open spec fn precedes(a: QueueEntry, b: QueueEntry) -> bool {
    a.key < b.key || (a.key == b.key && a.seq < b.seq)
}

/// Each entry precedes all that follow it.
pub open spec fn in_pop_order(s: Seq<QueueEntry>) -> bool {
    forall|i: int, j: int| 0 <= i < j < s.len() ==> precedes(#[trigger] s[i], #[trigger] s[j])
}

/// How many entries of `s` have a key of at most `key`.
pub open spec fn rank(s: Seq<QueueEntry>, key: u32) -> int
    decreases s.len(),
{
    if s.len() == 0 {
        0
    } else {
        rank(s.drop_last(), key) + if s.last().key <= key {
            1int
        } else {
            0int
        }
    }
}

/// The rank is a place in the sequence, or the one after its last.
pub proof fn lemma_rank_bounds(s: Seq<QueueEntry>, key: u32)
    ensures
        0 <= rank(s, key) <= s.len(),
    decreases s.len(),
{
    if s.len() > 0 {
        lemma_rank_bounds(s.drop_last(), key);
    }
}

/// In a sequence in pop order, the entries with a key of at most `key` are
/// the first `rank(s, key)`.
pub proof fn lemma_rank(s: Seq<QueueEntry>, key: u32)
    requires
        in_pop_order(s),
    ensures
        0 <= rank(s, key) <= s.len(),
        forall|i: int| 0 <= i < rank(s, key) ==> (#[trigger] s[i]).key <= key,
        forall|i: int| rank(s, key) <= i < s.len() ==> (#[trigger] s[i]).key > key,
    decreases s.len(),
{
    if s.len() > 0 {
        let t = s.drop_last();
        assert forall|i: int, j: int| 0 <= i < j < t.len() implies precedes(
            #[trigger] t[i],
            #[trigger] t[j],
        ) by {
            assert(t[i] == s[i] && t[j] == s[j]);
        }
        lemma_rank(t, key);
        let n = s.len() - 1;
        if s.last().key <= key {
            assert forall|i: int| 0 <= i < n implies (#[trigger] s[i]).key <= key by {
                assert(precedes(s[i], s[n]));
            }
            if rank(t, key) < t.len() {
                let i = rank(t, key);
                assert(t[i] == s[i]);
                assert(precedes(s[i], s[n]));
            }
            assert(rank(t, key) == t.len());
        } else {
            assert forall|i: int| rank(s, key) <= i < s.len() implies (#[trigger] s[i]).key
                > key by {
                if i < n {
                    assert(t[i] == s[i]);
                }
            }
            assert forall|i: int| 0 <= i < rank(s, key) implies (#[trigger] s[i]).key <= key by {
                assert(t[i] == s[i]);
            }
        }
    }
}

/// Inserting an entry at its rank keeps the pop order, where the entry was
/// pushed after all that the sequence holds.
pub proof fn lemma_insert_in_order(s: Seq<QueueEntry>, e: QueueEntry)
    requires
        in_pop_order(s),
        forall|i: int| 0 <= i < s.len() ==> (#[trigger] s[i]).seq < e.seq,
    ensures
        0 <= rank(s, e.key) <= s.len(),
        in_pop_order(s.insert(rank(s, e.key), e)),
{
    lemma_rank(s, e.key);
    let k = rank(s, e.key);
    let grown = s.insert(k, e);
    assert forall|i: int, j: int| 0 <= i < j < grown.len() implies precedes(
        #[trigger] grown[i],
        #[trigger] grown[j],
    ) by {
        let a = if i < k {
            i
        } else {
            i - 1
        };
        let b = if j < k {
            j
        } else {
            j - 1
        };
        if i != k && j != k {
            assert(grown[i] == s[a] && grown[j] == s[b]);
            assert(precedes(s[a], s[b]));
        } else if i == k {
            assert(grown[j] == s[b]);
            assert(s[b].key > e.key);
        } else {
            assert(grown[i] == s[a]);
            assert(s[a].key <= e.key);
            assert(s[a].seq < e.seq);
        }
    }
}

/// Every entry has computation left.
pub open spec fn have_work(s: Seq<QueueEntry>) -> bool {
    forall|i: int| 0 <= i < s.len() ==> (#[trigger] s[i]).process.computation >= 1
}

/// Inserting an entry with computation left among entries that all have
/// some leaves none without.
pub proof fn lemma_insert_has_work(s: Seq<QueueEntry>, k: int, e: QueueEntry)
    requires
        have_work(s),
        0 <= k <= s.len(),
        e.process.computation >= 1,
    ensures
        have_work(s.insert(k, e)),
{
    let grown = s.insert(k, e);
    assert forall|i: int| 0 <= i < grown.len() implies (#[trigger] grown[i]).process.computation
        >= 1 by {
        if i < k {
            assert(grown[i] == s[i]);
        } else if i > k {
            assert(grown[i] == s[i - 1]);
        }
    }
}

/// Taking the first entry away leaves none without computation where none
/// was.
pub proof fn lemma_rest_has_work(s: Seq<QueueEntry>)
    requires
        have_work(s),
        s.len() > 0,
    ensures
        have_work(s.drop_first()),
{
    let rest = s.drop_first();
    assert forall|i: int| 0 <= i < rest.len() implies (#[trigger] rest[i]).process.computation
        >= 1 by {
        assert(rest[i] == s[i + 1]);
    }
}

/// Replacing the first entry by one with computation left leaves none
/// without where none was.
pub proof fn lemma_first_replaced_has_work(s: Seq<QueueEntry>, e: QueueEntry)
    requires
        have_work(s),
        s.len() > 0,
        e.process.computation >= 1,
    ensures
        have_work(s.update(0, e)),
{
    let changed = s.update(0, e);
    assert forall|i: int| 0 <= i < changed.len() implies (
    #[trigger] changed[i]).process.computation >= 1 by {
        if i > 0 {
            assert(changed[i] == s[i]);
        }
    }
}

/// Two sequences without repetition that hold the same entries hold them
/// equally often.
pub proof fn lemma_same_entries(a: Seq<QueueEntry>, b: Seq<QueueEntry>)
    requires
        a.no_duplicates(),
        b.no_duplicates(),
        forall|i: int| 0 <= i < a.len() ==> b.contains(#[trigger] a[i]),
        forall|i: int| 0 <= i < b.len() ==> a.contains(#[trigger] b[i]),
    ensures
        a.to_multiset() == b.to_multiset(),
{
    broadcast use vstd::seq_lib::group_to_multiset_ensures;

    a.lemma_multiset_has_no_duplicates();
    b.lemma_multiset_has_no_duplicates();
    assert forall|x: QueueEntry| a.to_multiset().count(x) == b.to_multiset().count(x) by {
        if a.contains(x) {
            let i = choose|i: int| 0 <= i < a.len() && a[i] == x;
            assert(b.contains(a[i]));
            assert(a.to_multiset().contains(x));
            assert(b.to_multiset().contains(x));
        } else if b.contains(x) {
            let i = choose|i: int| 0 <= i < b.len() && b[i] == x;
            assert(a.contains(b[i]));
        } else {
            assert(a.to_multiset().count(x) == 0);
            assert(b.to_multiset().count(x) == 0);
        }
    }
    assert(a.to_multiset() =~= b.to_multiset());
}

/// A queue of tasks. Its view is the sequence of its entries in the order in
/// which `pop` hands them out.
pub struct ProcessQueue {
    heap: Heap,
    slots: HashMap<u64, Process>,
    next: u64,
    order: Ghost<Seq<QueueEntry>>,
}

impl View for ProcessQueue {
    type V = Seq<QueueEntry>;

    closed spec fn view(&self) -> Seq<QueueEntry> {
        self.order@
    }
}

impl ProcessQueue {
    /// The number of pushes made so far; the next push gets it as its
    /// sequence number.
    pub closed spec fn pushed(&self) -> nat {
        self.next as nat
    }

    /// The handle of `e` is queued under the pair of `e`, and stands for its task.
    spec fn holds(&self, e: QueueEntry) -> bool {
        &&& heap_contents(self.heap).contains_key(e.seq)
        &&& heap_contents(self.heap)[e.seq] == (e.key, e.seq)
        &&& self.slots@.contains_key(e.seq)
        &&& self.slots@[e.seq]@ == e.process
    }

    /// The queue's parts agree with its view.
    pub closed spec fn wf(&self) -> bool {
        &&& in_pop_order(self.order@)
        &&& forall|i: int| 0 <= i < self.order@.len() ==> (#[trigger] self.order@[i]).seq < self.next
        &&& forall|i: int| 0 <= i < self.order@.len() ==> self.holds(#[trigger] self.order@[i])
        &&& forall|h: u64| #[trigger]
            heap_contents(self.heap).contains_key(h) ==> exists|i: int|
                0 <= i < self.order@.len() && (#[trigger] self.order@[i]).seq == h
        &&& self.slots@.dom() =~= heap_contents(self.heap).dom()
        &&& self.slots@.len() == self.order@.len()
    }

    /// What a well-formed queue promises of its view: it is in pop order, and
    /// every sequence number in it is that of a push already made.
    pub proof fn lemma_view_ordered(&self)
        requires
            self.wf(),
        ensures
            in_pop_order(self@),
            forall|i: int| 0 <= i < self@.len() ==> (#[trigger] self@[i]).seq < self.pushed(),
            forall|i: int, j: int|
                0 <= i < j < self@.len() ==> (#[trigger] self@[i]).key <= (#[trigger] self@[j]).key,
            self@.no_duplicates(),
            forall|i: int, j: int|
                0 <= i < self@.len() && 0 <= j < self@.len() && i != j ==> (#[trigger] self@[i]).seq
                    != (#[trigger] self@[j]).seq,
    {
        assert forall|i: int, j: int|
            0 <= i < self@.len() && 0 <= j < self@.len() && i != j implies (#[trigger] self@[i]).seq
            != (#[trigger] self@[j]).seq by {
            self.lemma_distinct(i, j);
        }
        assert forall|i: int, j: int| 0 <= i < j < self@.len() implies (#[trigger] self@[i]).key
            <= (#[trigger] self@[j]).key by {
            assert(precedes(self@[i], self@[j]));
        }
        assert forall|i: int, j: int| 0 <= i < self@.len() && 0 <= j < self@.len() && i
            != j implies self@[i] != self@[j] by {
            if i < j {
                assert(precedes(self@[i], self@[j]));
            } else {
                assert(precedes(self@[j], self@[i]));
            }
        }
    }

    /// An empty queue.
    pub fn new() -> (q: ProcessQueue)
        ensures
            q.wf(),
            q@ == Seq::<QueueEntry>::empty(),
            q.pushed() == 0,
    {
        let q = ProcessQueue {
            heap: heap_new(),
            slots: HashMap::new(),
            next: 0,
            order: Ghost(Seq::empty()),
        };
        assert(q.slots@.dom() =~= heap_contents(q.heap).dom());
        q
    }

    /// Whether the queue holds no task.
    pub fn is_empty(&self) -> (b: bool)
        requires
            self.wf(),
        ensures
            b == (self@.len() == 0),
    {
        let b = heap_is_empty(&self.heap);
        proof {
            if self.order@.len() > 0 {
                assert(self.holds(self.order@[0]));
            } else {
                assert(heap_contents(self.heap).dom() =~= Set::<u64>::empty());
            }
        }
        b
    }

    /// A ticket that nothing in the heap outranks is that of the first entry.
    proof fn lemma_top_is_first(&self, t: Ticket)
        requires
            self.wf(),
            crate::heap::is_top(heap_contents(self.heap), t),
        ensures
            self.order@.len() > 0,
            t.handle == self.order@[0].seq,
            t.seq == self.order@[0].seq,
            t.key == self.order@[0].key,
    {
        let heap = heap_contents(self.heap);
        let i = choose|i: int| 0 <= i < self.order@.len() && (#[trigger] self.order@[i]).seq == t.handle;
        assert(self.holds(self.order@[i]));
        assert(self.holds(self.order@[0]));
        if i > 0 {
            assert(precedes(self.order@[0], self.order@[i]));
            assert(heap.contains_key(self.order@[0].seq));
            assert(crate::heap::outranks(heap[self.order@[0].seq], (t.key, t.seq)));
        }
    }

    /// The sequence numbers of a well-formed queue differ from one another.
    proof fn lemma_distinct(&self, i: int, j: int)
        requires
            self.wf(),
            0 <= i < self.order@.len(),
            0 <= j < self.order@.len(),
            i != j,
        ensures
            self.order@[i].seq != self.order@[j].seq,
    {
        assert(self.holds(self.order@[i]));
        assert(self.holds(self.order@[j]));
        if i < j {
            assert(precedes(self.order@[i], self.order@[j]));
        } else {
            assert(precedes(self.order@[j], self.order@[i]));
        }
    }

    /// Adds a task under `key`. It will leave the queue after the tasks whose
    /// key is at most `key`, and before the others.
    pub fn push(&mut self, process: Process, key: u32)
        requires
            old(self).wf(),
            old(self).pushed() < u64::MAX,
        ensures
            final(self).wf(),
            final(self).pushed() == old(self).pushed() + 1,
            final(self)@ == old(self)@.insert(
                rank(old(self)@, key),
                (QueueEntry { process: process@, key: key, seq: old(self).pushed() as u64 }),
            ),
    {
        let seq: u64 = self.next;
        let ghost entry = QueueEntry { process: process@, key: key, seq: seq };
        let ghost before = self.order@;
        let ghost k = rank(before, key);
        proof {
            lemma_insert_in_order(before, entry);
            if heap_contents(self.heap).contains_key(seq) {
                let i = choose|i: int| 0 <= i < before.len() && (#[trigger] before[i]).seq == seq;
                assert(before[i].seq < self.next);
            }
            assert(!self.slots@.contains_key(seq));
        }
        heap_push(&mut self.heap, Ticket { handle: seq, key: key, seq: seq });
        self.slots.insert(seq, process);
        self.next = seq + 1;
        self.order = Ghost(before.insert(k, entry));
        proof {
            let after = self.order@;
            assert(after.len() == before.len() + 1);
            assert(after[k] == entry);
            assert forall|i: int| 0 <= i < after.len() implies self.holds(#[trigger] after[i])
                && after[i].seq < self.next by {
                if i < k {
                    assert(after[i] == before[i]);
                    assert(old(self).holds(before[i]));
                } else if i > k {
                    assert(after[i] == before[i - 1]);
                    assert(old(self).holds(before[i - 1]));
                }
            }
            assert forall|h: u64| #[trigger]
                heap_contents(self.heap).contains_key(h) implies exists|i: int|
                0 <= i < after.len() && (#[trigger] after[i]).seq == h by {
                if h == seq {
                    assert(after[k].seq == h);
                } else {
                    assert(heap_contents(old(self).heap).contains_key(h));
                    let i = choose|i: int| 0 <= i < before.len() && (#[trigger] before[i]).seq == h;
                    if i < k {
                        assert(after[i] == before[i]);
                    } else {
                        assert(after[i + 1] == before[i]);
                    }
                }
            }
            assert(self.slots@.dom() =~= heap_contents(self.heap).dom());
        }
    }

    /// Puts back an entry that was taken from the front of the queue: it
    /// becomes the first entry again and keeps its sequence number.
    pub fn put_back(&mut self, entry: Queued)
        requires
            old(self).wf(),
            entry.seq < old(self).pushed(),
            forall|i: int|
                0 <= i < old(self)@.len() ==> precedes(entry@, #[trigger] old(self)@[i])
                    && old(self)@[i].seq != entry.seq,
        ensures
            final(self).wf(),
            final(self).pushed() == old(self).pushed(),
            final(self)@ == old(self)@.insert(0, entry@),
    {
        let ghost before = self.order@;
        let ghost e = entry@;
        proof {
            if heap_contents(self.heap).contains_key(entry.seq) {
                let i = choose|i: int|
                    0 <= i < before.len() && (#[trigger] before[i]).seq == entry.seq;
                assert(precedes(e, old(self)@[i]) && old(self)@[i].seq != entry.seq);
            }
            assert(!self.slots@.contains_key(entry.seq));
        }
        heap_push(&mut self.heap, Ticket { handle: entry.seq, key: entry.key, seq: entry.seq });
        self.slots.insert(entry.seq, entry.process);
        self.order = Ghost(before.insert(0, e));
        proof {
            let after = self.order@;
            assert(after[0] == e);
            assert forall|i: int| 0 <= i < after.len() implies self.holds(#[trigger] after[i])
                && after[i].seq < self.next by {
                if i > 0 {
                    assert(after[i] == before[i - 1]);
                    assert(old(self).holds(before[i - 1]));
                }
            }
            assert forall|i: int, j: int| 0 <= i < j < after.len() implies precedes(
                #[trigger] after[i],
                #[trigger] after[j],
            ) by {
                assert(after[j] == before[j - 1]);
                if i > 0 {
                    assert(after[i] == before[i - 1]);
                    assert(precedes(before[i - 1], before[j - 1]));
                } else {
                    assert(precedes(e, old(self)@[j - 1]));
                }
            }
            assert forall|h: u64| #[trigger]
                heap_contents(self.heap).contains_key(h) implies exists|i: int|
                0 <= i < after.len() && (#[trigger] after[i]).seq == h by {
                if h == e.seq {
                    assert(after[0].seq == h);
                } else {
                    assert(heap_contents(old(self).heap).contains_key(h));
                    let i = choose|i: int| 0 <= i < before.len() && (#[trigger] before[i]).seq == h;
                    assert(after[i + 1] == before[i]);
                }
            }
            assert(self.slots@.dom() =~= heap_contents(self.heap).dom());
        }
    }

    /// Takes out the first entry; `None` when the queue is empty.
    pub fn pop(&mut self) -> (r: Option<Queued>)
        requires
            old(self).wf(),
        ensures
            final(self).wf(),
            final(self).pushed() == old(self).pushed(),
            match r {
                Some(e) => old(self)@.len() > 0 && e@ == old(self)@[0] && final(self)@ == old(
                    self,
                )@.drop_first(),
                None => old(self)@.len() == 0 && final(self)@ == old(self)@,
            },
    {
        let ghost before = self.order@;
        proof {
            if before.len() > 0 {
                assert(self.holds(before[0]));
            }
        }
        match heap_pop(&mut self.heap) {
            None => {
                proof {
                    assert(before.len() == 0);
                }
                None
            },
            Some(t) => {
                proof {
                    old(self).lemma_top_is_first(t);
                    assert(old(self).holds(before[0]));
                }
                let taken = self.slots.remove(&t.handle);
                self.order = Ghost(before.drop_first());
                proof {
                    let after = self.order@;
                    assert forall|i: int| 0 <= i < after.len() implies self.holds(
                        #[trigger] after[i],
                    ) && after[i].seq < self.next by {
                        assert(after[i] == before[i + 1]);
                        assert(old(self).holds(before[i + 1]));
                        old(self).lemma_distinct(0, i + 1);
                    }
                    assert forall|i: int, j: int| 0 <= i < j < after.len() implies precedes(
                        #[trigger] after[i],
                        #[trigger] after[j],
                    ) by {
                        assert(after[i] == before[i + 1] && after[j] == before[j + 1]);
                        assert(precedes(before[i + 1], before[j + 1]));
                    }
                    assert forall|h: u64| #[trigger]
                        heap_contents(self.heap).contains_key(h) implies exists|i: int|
                        0 <= i < after.len() && (#[trigger] after[i]).seq == h by {
                        assert(heap_contents(old(self).heap).contains_key(h));
                        let i = choose|i: int|
                            0 <= i < before.len() && (#[trigger] before[i]).seq == h;
                        assert(i > 0);
                        assert(after[i - 1] == before[i]);
                    }
                    assert(self.slots@.dom() =~= heap_contents(self.heap).dom());
                }
                match taken {
                    Some(process) => Some(Queued { process: process, key: t.key, seq: t.seq }),
                    // Never taken: every handle of the heap has its task.
                    None => None,
                }
            },
        }
    }

    /// The task of the first entry; `None` when the queue is empty.
    pub fn peek(&self) -> (r: Option<&Process>)
        requires
            self.wf(),
        ensures
            match r {
                Some(p) => self@.len() > 0 && p@ == self@[0].process,
                None => self@.len() == 0,
            },
    {
        match heap_peek(&self.heap) {
            None => {
                proof {
                    if self.order@.len() > 0 {
                        assert(self.holds(self.order@[0]));
                    }
                }
                None
            },
            Some(t) => {
                proof {
                    self.lemma_top_is_first(t);
                    assert(self.holds(self.order@[0]));
                }
                self.slots.get(&t.handle)
            },
        }
    }

    /// The key of the first entry; `None` when the queue is empty.
    pub fn peek_key(&self) -> (r: Option<u32>)
        requires
            self.wf(),
        ensures
            match r {
                Some(k) => self@.len() > 0 && k == self@[0].key,
                None => self@.len() == 0,
            },
    {
        match heap_peek(&self.heap) {
            None => {
                proof {
                    if self.order@.len() > 0 {
                        assert(self.holds(self.order@[0]));
                    }
                }
                None
            },
            Some(t) => {
                proof {
                    self.lemma_top_is_first(t);
                }
                Some(t.key)
            },
        }
    }

    /// Copies of all entries, each once, in an order that is not stated.
    pub fn snapshot(&self) -> (v: Vec<Queued>)
        requires
            self.wf(),
        ensures
            v@.len() == self@.len(),
            entries_of(v@).to_multiset() == self@.to_multiset(),
    {
        let tickets = heap_tickets(&self.heap);
        let mut v: Vec<Queued> = Vec::new();
        let mut i: usize = 0;
        while i < tickets.len()
            invariant
                self.wf(),
                0 <= i <= tickets@.len(),
                v@.len() == i,
                forall|j: int|
                    0 <= j < tickets@.len() ==> heap_contents(self.heap).contains_key(
                        (#[trigger] tickets@[j]).handle,
                    ) && heap_contents(self.heap)[tickets@[j].handle] == (
                        tickets@[j].key,
                        tickets@[j].seq,
                    ),
                forall|j: int|
                    0 <= j < i ==> (#[trigger] v@[j])@ == (QueueEntry {
                        process: self.slots@[tickets@[j].handle]@,
                        key: tickets@[j].key,
                        seq: tickets@[j].seq,
                    }),
            decreases tickets@.len() - i,
        {
            let t = tickets[i];
            assert(self.slots@.dom().contains(t.handle));
            match self.slots.get(&t.handle) {
                Some(p) => {
                    v.push(Queued { process: p.clone(), key: t.key, seq: t.seq });
                },
                // Never taken: every handle of the heap has its task.
                None => {},
            }
            i += 1;
        }
        proof {
            let a = entries_of(v@);
            let b = self.order@;
            let heap = heap_contents(self.heap);
            assert forall|j: int| 0 <= j < a.len() implies b.contains(#[trigger] a[j]) && a[j].seq
                == tickets@[j].handle by {
                let h = tickets@[j].handle;
                assert(heap.contains_key(h));
                let k = choose|k: int| 0 <= k < b.len() && (#[trigger] b[k]).seq == h;
                assert(self.holds(b[k]));
                assert(a[j] == v@[j]@);
                assert(a[j] == b[k]);
            }
            assert forall|k: int| 0 <= k < b.len() implies a.contains(#[trigger] b[k]) by {
                assert(self.holds(b[k]));
                let j = choose|j: int| 0 <= j < tickets@.len() && (#[trigger] tickets@[j]).handle == b[k].seq;
                assert(a[j] == v@[j]@);
                assert(a[j] == b[k]);
            }
            assert forall|x: int, y: int| 0 <= x < a.len() && 0 <= y < a.len() && x
                != y implies a[x] != a[y] by {
                if x < y {
                    assert(tickets@[x].handle != tickets@[y].handle);
                } else {
                    assert(tickets@[y].handle != tickets@[x].handle);
                }
            }
            self.lemma_view_ordered();
            lemma_same_entries(a, b);
            b.to_multiset_ensures();
            a.to_multiset_ensures();
        }
        v
    }

    /// Whether every task in the queue has computation left.
    pub fn all_have_work(&self) -> (b: bool)
        requires
            self.wf(),
        ensures
            b == have_work(self@),
    {
        let entries = self.snapshot();
        let ghost listed = entries_of(entries@);
        let mut i: usize = 0;
        while i < entries.len()
            invariant
                0 <= i <= entries@.len(),
                listed == entries_of(entries@),
                listed.to_multiset() == self@.to_multiset(),
                forall|j: int| 0 <= j < i ==> (#[trigger] listed[j]).process.computation >= 1,
            decreases entries@.len() - i,
        {
            if entries[i].process.computation == 0 {
                proof {
                    let e = listed[i as int];
                    assert(listed.contains(e));
                    vstd::seq_lib::to_multiset_contains(listed, e);
                    vstd::seq_lib::to_multiset_contains(self@, e);
                    let k = choose|k: int| 0 <= k < self@.len() && self@[k] == e;
                    assert(self@[k].process.computation == 0);
                }
                return false;
            }
            i += 1;
        }
        proof {
            assert forall|k: int| 0 <= k < self@.len() implies (
            #[trigger] self@[k]).process.computation >= 1 by {
                let e = self@[k];
                assert(self@.contains(e));
                vstd::seq_lib::to_multiset_contains(self@, e);
                vstd::seq_lib::to_multiset_contains(listed, e);
                let j = choose|j: int| 0 <= j < listed.len() && listed[j] == e;
                assert(listed[j].process.computation >= 1);
            }
        }
        true
    }

    /// The number of pushes made so far.
    pub fn pushes(&self) -> (n: u64)
        ensures
            n == self.pushed(),
    {
        self.next
    }

    /// The number of tasks in the queue.
    pub fn len(&self) -> (n: usize)
        requires
            self.wf(),
        ensures
            n == self@.len(),
    {
        self.slots.len()
    }
}

} // verus!
