//! A minimum-first priority queue of search entries.

use vstd::multiset::Multiset;
use vstd::prelude::*;

verus! {

/// A pending arrival at `node`, with the totals accumulated on the way.
/// Entries are ordered by `key`, then `node`, then `cost`, then `resource`.
#[derive(Clone, Copy, Debug)]
pub struct Entry {
    pub key: u64,
    pub node: usize,
    pub cost: u64,
    pub resource: u64,
}

/// `a` comes no later than `b` in the queue's order.
pub open spec fn precedes(a: Entry, b: Entry) -> bool {
    if a.key != b.key {
        a.key < b.key
    } else if a.node != b.node {
        a.node < b.node
    } else if a.cost != b.cost {
        a.cost < b.cost
    } else {
        a.resource <= b.resource
    }
}

/// Decides `precedes`.
pub fn comes_first(a: &Entry, b: &Entry) -> (r: bool)
    ensures
        r == precedes(*a, *b),
{
    if a.key != b.key {
        a.key < b.key
    } else if a.node != b.node {
        a.node < b.node
    } else if a.cost != b.cost {
        a.cost < b.cost
    } else {
        a.resource <= b.resource
    }
}

/// The order is total: of two entries one comes no later than the other.
proof fn lemma_precedes_total(a: Entry, b: Entry)
    ensures
        precedes(a, b) || precedes(b, a),
{
}

/// The order is transitive.
proof fn lemma_precedes_transitive(a: Entry, b: Entry, c: Entry)
    requires
        precedes(a, b),
        precedes(b, c),
    ensures
        precedes(a, c),
{
}

/// Every item but the first comes no earlier than the item halfway before
/// it: the items are laid out as a binary heap.
spec fn heaped(items: Seq<Entry>) -> bool {
    forall|i: int| 1 <= i < items.len() ==> precedes(items[(i - 1) / 2], #[trigger] items[i])
}

/// `items` is a heap but perhaps at `hole`: the item there may come earlier
/// than the item halfway before it, while the items that `hole` is halfway
/// before still come no earlier than the item halfway before `hole`.
spec fn heaped_but_up(items: Seq<Entry>, hole: int) -> bool {
    &&& forall|i: int|
        1 <= i < items.len() && i != hole ==> precedes(items[(i - 1) / 2], #[trigger] items[i])
    &&& forall|i: int|
        1 <= i < items.len() && (i - 1) / 2 == hole && hole >= 1 ==> precedes(
            items[(hole - 1) / 2],
            #[trigger] items[i],
        )
}

/// `items` is a heap but perhaps below `hole`: the items that `hole` is
/// halfway before may come earlier than the item there, while they still
/// come no earlier than the item halfway before `hole`.
spec fn heaped_but_down(items: Seq<Entry>, hole: int) -> bool {
    &&& forall|i: int|
        1 <= i < items.len() && (i - 1) / 2 != hole ==> precedes(
            items[(i - 1) / 2],
            #[trigger] items[i],
        )
    &&& forall|i: int|
        1 <= i < items.len() && (i - 1) / 2 == hole && hole >= 1 ==> precedes(
            items[(hole - 1) / 2],
            #[trigger] items[i],
        )
}

/// In a heap the first item comes no later than any other.
proof fn lemma_heap_first(items: Seq<Entry>, i: int)
    requires
        heaped(items),
        0 <= i < items.len(),
    ensures
        precedes(items[0], items[i]),
    decreases i,
{
    if i > 0 {
        lemma_heap_first(items, (i - 1) / 2);
        assert(precedes(items[(i - 1) / 2], items[i]));
    }
}

/// Exchanges two items.
fn exchange(items: &mut Vec<Entry>, i: usize, j: usize)
    requires
        i < old(items).len(),
        j < old(items).len(),
    ensures
        final(items)@ == old(items)@.update(i as int, old(items)@[j as int]).update(
            j as int,
            old(items)@[i as int],
        ),
        final(items)@.to_multiset() =~= old(items)@.to_multiset(),
{
    proof {
        broadcast use vstd::seq_lib::group_to_multiset_ensures;

        let s = old(items)@;
        vstd::seq_lib::to_multiset_update(s, i as int, s[j as int]);
        vstd::seq_lib::to_multiset_update(s.update(i as int, s[j as int]), j as int, s[i as int]);
        assert(s.contains(s[i as int]));
        assert(s.contains(s[j as int]));
    }
    let a = items[i];
    let b = items[j];
    items[i] = b;
    items[j] = a;
}

/// Lets the last item of `items` rise to its place.
fn sift_up(items: &mut Vec<Entry>)
    requires
        old(items).len() > 0,
        heaped(old(items)@.drop_last()),
    ensures
        heaped(final(items)@),
        final(items)@.to_multiset() =~= old(items)@.to_multiset(),
{
    let mut i: usize = items.len() - 1;
    proof {
        let s = items@;
        assert forall|j: int| 1 <= j < s.len() && j != i implies precedes(
            s[(j - 1) / 2],
            #[trigger] s[j],
        ) by {
            assert(s.drop_last()[j] == s[j]);
        }
    }
    while i > 0
        invariant
            i < items.len(),
            items.len() == old(items).len(),
            heaped_but_up(items@, i as int),
            items@.to_multiset() =~= old(items)@.to_multiset(),
        ensures
            heaped(items@),
        decreases i,
    {
        let p = (i - 1) / 2;
        if comes_first(&items[p], &items[i]) {
            break ;
        }
        let ghost before = items@;
        exchange(items, p, i);
        proof {
            let after = items@;
            lemma_precedes_total(before[p as int], before[i as int]);
            assert forall|j: int| 1 <= j < after.len() && j != p implies precedes(
                after[(j - 1) / 2],
                #[trigger] after[j],
            ) by {
                if j == i {
                } else if (j - 1) / 2 == i {
                    assert(precedes(before[p as int], before[j]));
                } else if (j - 1) / 2 == p {
                    assert(precedes(before[p as int], before[j]));
                    lemma_precedes_transitive(before[i as int], before[p as int], before[j]);
                } else {
                    assert(precedes(before[(j - 1) / 2], before[j]));
                }
            }
            assert forall|j: int|
                1 <= j < after.len() && (j - 1) / 2 == p && p >= 1 implies precedes(
                after[(p - 1) / 2],
                #[trigger] after[j],
            ) by {
                assert(precedes(before[(p - 1) / 2], before[p as int]));
                if j == i {
                } else {
                    assert(precedes(before[p as int], before[j]));
                    lemma_precedes_transitive(
                        before[(p - 1) / 2],
                        before[p as int],
                        before[j],
                    );
                }
            }
        }
        i = p;
    }
}

/// Lets the first item of `items` sink to its place.
fn sift_down(items: &mut Vec<Entry>)
    requires
        heaped_but_down(old(items)@, 0),
    ensures
        heaped(final(items)@),
        final(items)@.to_multiset() =~= old(items)@.to_multiset(),
{
    let n = items.len();
    let mut i: usize = 0;
    loop
        invariant
            n == items.len(),
            i < n || n == 0,
            heaped_but_down(items@, i as int),
            items@.to_multiset() =~= old(items)@.to_multiset(),
        ensures
            heaped(items@),
        decreases n - i,
    {
        if i >= n / 2 {
            proof {
                assert forall|j: int| 1 <= j < items@.len() implies precedes(
                    items@[(j - 1) / 2],
                    #[trigger] items@[j],
                ) by {
                    assert((j - 1) / 2 != i);
                }
            }
            break ;
        }
        let left = 2 * i + 1;
        let right = left + 1;
        let mut least = left;
        if right < n && !comes_first(&items[left], &items[right]) {
            least = right;
        }
        proof {
            if right < n {
                lemma_precedes_total(items@[left as int], items@[right as int]);
            }
        }
        if comes_first(&items[i], &items[least]) {
            proof {
                assert forall|j: int| 1 <= j < items@.len() implies precedes(
                    items@[(j - 1) / 2],
                    #[trigger] items@[j],
                ) by {
                    if (j - 1) / 2 == i {
                        assert(j == left || j == right);
                        if j != least {
                            lemma_precedes_transitive(
                                items@[i as int],
                                items@[least as int],
                                items@[j],
                            );
                        }
                    }
                }
            }
            break ;
        }
        let ghost before = items@;
        exchange(items, i, least);
        proof {
            let after = items@;
            lemma_precedes_total(before[i as int], before[least as int]);
            assert forall|j: int|
                1 <= j < after.len() && (j - 1) / 2 != least implies precedes(
                after[(j - 1) / 2],
                #[trigger] after[j],
            ) by {
                if j == least {
                } else if (j - 1) / 2 == i {
                    assert(j == left || j == right);
                } else if j == i {
                    assert(precedes(before[(i - 1) / 2], before[least as int]));
                } else {
                    assert(precedes(before[(j - 1) / 2], before[j]));
                }
            }
            assert forall|j: int|
                1 <= j < after.len() && (j - 1) / 2 == least && least >= 1 implies precedes(
                after[(least - 1) / 2],
                #[trigger] after[j],
            ) by {
                assert(precedes(before[least as int], before[j]));
            }
        }
        i = least;
    }
}

/// A bag of entries that hands them back smallest first, kept as a binary
/// heap.
pub struct MinQueue {
    items: Vec<Entry>,
}

impl MinQueue {
    /// The entries are laid out as a heap. Every queue made by `new` and
    /// changed by `push` and `pop` alone is.
    pub closed spec fn well_formed(&self) -> bool {
        heaped(self.items@)
    }

    /// The entries held, as a bag.
    pub closed spec fn view(&self) -> Multiset<Entry> {
        self.items@.to_multiset()
    }

    /// An empty queue.
    pub fn new() -> (q: MinQueue)
        ensures
            q.well_formed(),
            q@ =~= Multiset::empty(),
    {
        let q = MinQueue { items: Vec::new() };
        proof {
            broadcast use vstd::seq_lib::group_to_multiset_ensures;

            assert(q.items@.to_multiset().len() == 0);
            assert forall|x: Entry| q.items@.to_multiset().count(x) == 0 by {
                if q.items@.to_multiset().count(x) > 0 {
                    assert(q.items@.contains(x));
                }
            }
        }
        q
    }

    /// How many entries are held.
    pub fn len(&self) -> (n: usize)
        ensures
            n == self@.len(),
    {
        proof {
            broadcast use vstd::seq_lib::group_to_multiset_ensures;

        }
        self.items.len()
    }

    /// Adds `entry`.
    pub fn push(&mut self, entry: Entry)
        requires
            old(self).well_formed(),
        ensures
            final(self).well_formed(),
            final(self)@ =~= old(self)@.insert(entry),
    {
        proof {
            broadcast use vstd::seq_lib::group_to_multiset_ensures;

        }
        let ghost before = self.items@;
        self.items.push(entry);
        proof {
            assert(self.items@.drop_last() =~= before);
        }
        sift_up(&mut self.items);
    }

    /// Takes out an entry that precedes every other one, if there is any.
    pub fn pop(&mut self) -> (r: Option<Entry>)
        requires
            old(self).well_formed(),
        ensures
            final(self).well_formed(),
            match r {
                None => old(self)@.len() == 0 && final(self)@ =~= old(self)@,
                Some(x) => {
                    &&& old(self)@.count(x) > 0
                    &&& final(self)@ =~= old(self)@.remove(x)
                    &&& forall|y: Entry| old(self)@.count(y) > 0 ==> precedes(x, y)
                },
            },
    {
        proof {
            broadcast use vstd::seq_lib::group_to_multiset_ensures;

        }
        let n = self.items.len();
        if n == 0 {
            return None;
        }
        let ghost before = self.items@;
        let x = self.items[0];
        proof {
            assert(before.contains(x));
            assert forall|y: Entry| before.to_multiset().count(y) > 0 implies precedes(x, y) by {
                assert(before.contains(y));
                let i = choose|i: int| 0 <= i < before.len() && before[i] == y;
                lemma_heap_first(before, i);
            }
        }
        exchange(&mut self.items, 0, n - 1);
        let ghost swapped = self.items@;
        let _ = self.items.pop();
        proof {
            let rest = self.items@;
            assert(rest =~= swapped.remove(n - 1));
            assert(swapped[n - 1] == x);
            assert forall|j: int|
                1 <= j < rest.len() && (j - 1) / 2 != 0 implies precedes(
                rest[(j - 1) / 2],
                #[trigger] rest[j],
            ) by {
                assert(precedes(before[(j - 1) / 2], before[j]));
            }
        }
        sift_down(&mut self.items);
        Some(x)
    }
}

} // verus!
