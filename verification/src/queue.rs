use vstd::multiset::Multiset;
use vstd::prelude::*;

verus! {

broadcast use {vstd::seq_lib::group_to_multiset_ensures, vstd::multiset::group_multiset_axioms};

/// A queued vertex: the cost it was queued with, then its index.
pub type Entry = (i128, usize);

/// A min-priority queue of vertices, ordered by cost alone.
///
/// The entries lie in a binary heap. Entries of equal cost leave in no stated order.
#[derive(Debug)]
pub struct CostQueue {
    entries: Vec<Entry>,
}

/// Whether no entry of `s` costs less than the entry half-way towards the front of it, at
/// `(i - 1) / 2`: the order of a binary min-heap.
spec fn heap_ordered(s: Seq<Entry>) -> bool {
    forall|i: int| 0 < i < s.len() ==> s[(i - 1) / 2].0 <= (#[trigger] s[i]).0
}

/// Whether the costs in `s` never fall from one entry to the next.
pub open spec fn ascending(s: Seq<Entry>) -> bool {
    forall|i: int, j: int| 0 <= i <= j < s.len() ==> s[i].0 <= s[j].0
}

/// `s` is heap-ordered but for the entry at `k`, which may cost less than the one above it.
spec fn ordered_above(s: Seq<Entry>, k: int) -> bool {
    &&& forall|i: int| 0 < i < s.len() && i != k ==> s[(i - 1) / 2].0 <= (#[trigger] s[i]).0
    &&& forall|i: int|
        0 < i < s.len() && (i - 1) / 2 == k && k > 0 ==> s[(k - 1) / 2].0 <= (#[trigger] s[i]).0
}

/// `s` is heap-ordered but for the entry at `k`, which may cost more than those below it.
spec fn ordered_below(s: Seq<Entry>, k: int) -> bool {
    &&& forall|i: int|
        0 < i < s.len() && (i - 1) / 2 != k ==> s[(i - 1) / 2].0 <= (#[trigger] s[i]).0
    &&& forall|i: int|
        0 < i < s.len() && (i - 1) / 2 == k && k > 0 ==> s[(k - 1) / 2].0 <= (#[trigger] s[i]).0
}

/// `s` with the entries at `i` and `j` exchanged.
spec fn exchanged(s: Seq<Entry>, i: int, j: int) -> Seq<Entry> {
    s.update(i, s[j]).update(j, s[i])
}

/// Replacing one entry takes the old one out of the multiset and puts the new one in.
proof fn lemma_update_multiset(s: Seq<Entry>, i: int, e: Entry)
    requires
        0 <= i < s.len(),
    ensures
        s.update(i, e).to_multiset() =~= s.to_multiset().remove(s[i]).insert(e),
{
    let t = s.update(i, e);
    assert(t.remove(i) =~= s.remove(i));
    assert(t.remove(i).to_multiset() =~= t.to_multiset().remove(t[i]));
    assert(s.remove(i).to_multiset() =~= s.to_multiset().remove(s[i]));
    assert(t.contains(e)) by {
        assert(t[i] == e);
    }
    assert(s.contains(s[i]));
    assert(t.to_multiset().count(e) > 0);
    assert(s.to_multiset().count(s[i]) > 0);
}

/// Exchanging two entries keeps the multiset.
proof fn lemma_exchange_multiset(s: Seq<Entry>, i: int, j: int)
    requires
        0 <= i < s.len(),
        0 <= j < s.len(),
    ensures
        exchanged(s, i, j).to_multiset() =~= s.to_multiset(),
{
    lemma_update_multiset(s, i, s[j]);
    lemma_update_multiset(s.update(i, s[j]), j, s[i]);
    assert(s.contains(s[i]));
    assert(s.contains(s[j]));
    assert(s.to_multiset().count(s[i]) > 0);
    assert(s.to_multiset().count(s[j]) > 0);
}

/// In a heap-ordered sequence no entry costs less than the first.
proof fn lemma_first_is_least(s: Seq<Entry>, i: int)
    requires
        heap_ordered(s),
        0 <= i < s.len(),
    ensures
        s[0].0 <= s[i].0,
    decreases i,
{
    if i > 0 {
        lemma_first_is_least(s, (i - 1) / 2);
    }
}

impl View for CostQueue {
    type V = Multiset<Entry>;

    /// The entries in the queue, without their places in the heap.
    closed spec fn view(&self) -> Multiset<Entry> {
        self.entries@.to_multiset()
    }
}

/// Exchanges the entries at `i` and `j`.
fn exchange(entries: &mut Vec<Entry>, i: usize, j: usize)
    requires
        i < old(entries)@.len(),
        j < old(entries)@.len(),
    ensures
        final(entries)@ == exchanged(old(entries)@, i as int, j as int),
        final(entries)@.to_multiset() == old(entries)@.to_multiset(),
{
    proof {
        lemma_exchange_multiset(entries@, i as int, j as int);
    }
    let a = entries[i];
    let b = entries[j];
    entries[i] = b;
    entries[j] = a;
}

impl CostQueue {
    /// The invariant of the queue: its entries are heap-ordered.
    #[verifier::type_invariant]
    pub closed spec fn wf(&self) -> bool {
        heap_ordered(self.entries@)
    }

    /// An empty queue with room for `capacity` entries. The room is set aside to spare later
    /// allocations and is no part of what the queue holds: whatever `capacity` is, the queue
    /// is empty.
    pub fn with_capacity(capacity: usize) -> (q: Self)
        ensures
            q@ == Multiset::<Entry>::empty(),
    {
        let entries: Vec<Entry> = Vec::with_capacity(capacity);
        assert(entries@ =~= Seq::<Entry>::empty());
        CostQueue { entries }
    }

    /// The number of entries.
    pub fn len(&self) -> (n: usize)
        ensures
            n == self@.len(),
    {
        self.entries.len()
    }

    /// Puts the vertex `idx` into the queue with cost `cost`.
    pub fn push(&mut self, cost: i128, idx: usize)
        ensures
            final(self)@ == old(self)@.insert((cost, idx)),
    {
        proof {
            use_type_invariant(&*self);
        }
        let mut entries: Vec<Entry> = Vec::new();
        core::mem::swap(&mut entries, &mut self.entries);
        entries.push((cost, idx));
        let mut k: usize = entries.len() - 1;
        while k > 0
            invariant
                k < entries@.len(),
                ordered_above(entries@, k as int),
                entries@.to_multiset() == old(self)@.insert((cost, idx)),
            ensures
                heap_ordered(entries@),
                entries@.to_multiset() == old(self)@.insert((cost, idx)),
            decreases k,
        {
            let p: usize = (k - 1) / 2;
            if entries[p].0 <= entries[k].0 {
                break ;
            }
            exchange(&mut entries, p, k);
            k = p;
        }
        self.entries = entries;
    }

    /// Takes an entry of least cost out of the queue, if it holds any.
    pub fn pop(&mut self) -> (least: Option<Entry>)
        ensures
            match least {
                None => old(self)@.len() == 0 && final(self)@ == old(self)@,
                Some(e) => {
                    &&& old(self)@.count(e) > 0
                    &&& final(self)@ == old(self)@.remove(e)
                    &&& forall|x: Entry| old(self)@.count(x) > 0 ==> e.0 <= x.0
                },
            },
    {
        proof {
            use_type_invariant(&*self);
        }
        let n: usize = self.entries.len();
        if n == 0 {
            return None;
        }
        let mut entries: Vec<Entry> = Vec::new();
        core::mem::swap(&mut entries, &mut self.entries);
        proof {
            let s = entries@;
            assert forall|x: Entry| s.to_multiset().count(x) > 0 implies s[0].0 <= x.0 by {
                assert(s.contains(x));
                let i = choose|i: int| 0 <= i < s.len() && s[i] == x;
                lemma_first_is_least(s, i);
            }
            assert(s.contains(s[0]));
        }
        let ghost before = entries@;
        let ghost first = entries@[0];
        exchange(&mut entries, 0, n - 1);
        let least = entries.pop().unwrap();
        proof {
            let s = exchanged(before, 0, n - 1);
            assert(entries@ =~= s.remove(n - 1));
            assert(least == first);
        }
        let len: usize = n - 1;
        let mut k: usize = 0;
        while k < len / 2
            invariant
                len == entries@.len(),
                ordered_below(entries@, k as int),
                entries@.to_multiset() == old(self)@.remove(first),
            ensures
                heap_ordered(entries@),
                entries@.to_multiset() == old(self)@.remove(first),
            decreases len - k,
        {
            let left: usize = 2 * k + 1;
            let right: usize = left + 1;
            let mut m: usize = left;
            if right < len && entries[right].0 < entries[left].0 {
                m = right;
            }
            if entries[k].0 <= entries[m].0 {
                break ;
            }
            exchange(&mut entries, k, m);
            k = m;
        }
        self.entries = entries;
        Some(least)
    }

    /// Empties the queue into a list that runs from the least cost to the greatest.
    pub fn into_sorted_vec(self) -> (sorted: Vec<Entry>)
        ensures
            sorted@.to_multiset() == self@,
            ascending(sorted@),
    {
        let mut queue = self;
        let mut sorted: Vec<Entry> = Vec::with_capacity(queue.len());
        assert(sorted@ =~= Seq::<Entry>::empty());
        loop
            invariant
                sorted@.to_multiset().add(queue@) == self@,
                ascending(sorted@),
                forall|i: int, x: Entry|
                    0 <= i < sorted@.len() && queue@.count(x) > 0 ==> sorted@[i].0 <= x.0,
            ensures
                sorted@.to_multiset() == self@,
                ascending(sorted@),
            decreases queue@.len(),
        {
            let ghost before = queue@;
            match queue.pop() {
                None => {
                    assert(sorted@.to_multiset().add(queue@) =~= sorted@.to_multiset());
                    break ;
                },
                Some(e) => {
                    let ghost prefix = sorted@;
                    sorted.push(e);
                    proof {
                        assert(sorted@.to_multiset() =~= prefix.to_multiset().insert(e));
                        assert(sorted@.to_multiset().add(queue@) =~= prefix.to_multiset().add(
                            before,
                        ));
                    }
                },
            }
        }
        sorted
    }
}

} // verus!
