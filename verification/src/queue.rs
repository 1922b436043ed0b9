//! A priority queue that hands out the entry of least key first, and among
//! entries of equal key the one that was put in first.

use crate::keyed::Keyed;
use vstd::prelude::*;

verus! {

/// Whether the keys never fall from one entry to the next.
pub open spec fn sorted_by_key<T>(q: Seq<Keyed<u64, T>>) -> bool {
    forall|i: int, j: int| 0 <= i <= j < q.len() ==> q[i].key <= q[j].key
}

/// The place at which an entry with the given key goes into a queue: behind
/// the last entry whose key is not greater.
pub open spec fn insert_pos<T>(q: Seq<Keyed<u64, T>>, key: u64) -> int
    decreases q.len(),
{
    if q.len() == 0 {
        0
    } else if q.last().key <= key {
        q.len() as int
    } else {
        insert_pos(q.drop_last(), key)
    }
}

/// The queue with one more entry, put behind the entries of lesser or equal
/// key and before those of greater key.
pub open spec fn enqueue<T>(q: Seq<Keyed<u64, T>>, entry: Keyed<u64, T>) -> Seq<Keyed<u64, T>> {
    q.insert(insert_pos(q, entry.key), entry)
}

/// Where a new entry goes: no entry before that place has a greater key,
/// every entry from that place on has one.
pub proof fn lemma_insert_pos<T>(q: Seq<Keyed<u64, T>>, key: u64)
    ensures
        0 <= insert_pos(q, key) <= q.len(),
        forall|i: int| insert_pos(q, key) <= i < q.len() ==> q[i].key > key,
        sorted_by_key(q) ==> forall|i: int| 0 <= i < insert_pos(q, key) ==> q[i].key <= key,
    decreases q.len(),
{
    let pos = insert_pos(q, key);
    if q.len() > 0 && q.last().key > key {
        let shorter = q.drop_last();
        lemma_insert_pos(shorter, key);
        assert forall|i: int| pos <= i < q.len() implies q[i].key > key by {
            if i < shorter.len() {
                assert(q[i] == shorter[i]);
            }
        }
        if sorted_by_key(q) {
            assert forall|i: int, j: int| 0 <= i <= j < shorter.len() implies shorter[i].key
                <= shorter[j].key by {
                assert(q[i].key <= q[j].key);
            }
            assert forall|i: int| 0 <= i < pos implies q[i].key <= key by {
                assert(q[i] == shorter[i]);
            }
        }
    } else if q.len() > 0 {
        if sorted_by_key(q) {
            assert forall|i: int| 0 <= i < pos implies q[i].key <= key by {
                assert(q[i].key <= q[q.len() - 1].key);
            }
        }
    }
}

/// Putting an entry into a sorted queue leaves the queue sorted and one
/// entry longer.
pub proof fn lemma_enqueue_sorted<T>(q: Seq<Keyed<u64, T>>, entry: Keyed<u64, T>)
    requires
        sorted_by_key(q),
    ensures
        sorted_by_key(enqueue(q, entry)),
        enqueue(q, entry).len() == q.len() + 1,
{
    lemma_insert_pos(q, entry.key);
}

/// A queue of entries ranked by a `u64` key, least key first. Entries of
/// equal key leave in the order in which they came.
pub struct MinQueue<T> {
    items: Vec<Keyed<u64, T>>,
}

impl<T> View for MinQueue<T> {
    type V = Seq<Keyed<u64, T>>;

    /// The entries in the order in which they will leave.
    closed spec fn view(&self) -> Seq<Keyed<u64, T>> {
        self.items@
    }
}

impl<T> MinQueue<T> {
    /// Whether the entries are in the order of their keys.
    pub open spec fn wf(&self) -> bool {
        sorted_by_key(self@)
    }

    /// A queue without entries.
    pub fn new() -> (queue: MinQueue<T>)
        ensures
            queue.wf(),
            queue@ == Seq::<Keyed<u64, T>>::empty(),
    {
        MinQueue { items: Vec::new() }
    }

    /// The number of entries.
    pub fn len(&self) -> (n: usize)
        ensures
            n == self@.len(),
    {
        self.items.len()
    }

    /// Puts an entry in, behind the entries whose key is not greater.
    pub fn push(&mut self, key: u64, value: T)
        requires
            old(self).wf(),
        ensures
            final(self).wf(),
            final(self)@ == enqueue(old(self)@, Keyed { key, value }),
    {
        let ghost q = self.items@;
        let mut i: usize = self.items.len();
        assert(q.take(q.len() as int) =~= q);
        while i > 0 && self.items[i - 1].key > key
            invariant
                self.items@ == q,
                i <= q.len(),
                insert_pos(q, key) == insert_pos(q.take(i as int), key),
            decreases i,
        {
            assert(q.take(i as int).drop_last() =~= q.take(i - 1));
            i -= 1;
        }
        proof {
            lemma_enqueue_sorted(q, Keyed { key, value });
        }
        self.items.insert(i, Keyed { key, value });
    }

    /// Takes the entry of least key out, the one that came first among
    /// several such. Returns `None` where the queue is empty.
    pub fn pop(&mut self) -> (entry: Option<Keyed<u64, T>>)
        requires
            old(self).wf(),
        ensures
            final(self).wf(),
            match entry {
                Some(e) => {
                    &&& old(self)@.len() > 0
                    &&& e == old(self)@[0]
                    &&& final(self)@ == old(self)@.drop_first()
                },
                None => old(self)@.len() == 0 && final(self)@ == old(self)@,
            },
    {
        if self.items.len() == 0 {
            None
        } else {
            let e = self.items.remove(0);
            assert(self.items@ =~= old(self)@.drop_first());
            Some(e)
        }
    }
}

} // verus!
