//! The queue of a merge: the current entry of each table, the smallest key
//! first, and of several entries with that key the one of the newest table.
//!
//! It is a binary heap. The item at place `i` has its parent at `(i - 1) / 2`, and
//! no item comes before its parent; the first item is therefore the least.

use crate::order;
use crate::order::KeyOrder;
use vstd::prelude::*;

verus! {

/// An entry of the table with this rank. The newest table has the rank 0.
pub struct HeapItem {
    pub key: Vec<u8>,
    pub value: Option<Vec<u8>>,
    pub rank: usize,
}

/// The current entry of every table, by rank.
pub type Heads = Seq<Option<(Vec<u8>, Option<Vec<u8>>)>>;

/// `a` comes before `b`: it has the smaller key, or the same key and the smaller
/// rank.
pub open spec fn precedes(a: HeapItem, b: HeapItem) -> bool {
    order::key_lt(a.key@, b.key@) || (a.key@ == b.key@ && a.rank < b.rank)
}

/// The place of the parent.
pub open spec fn parent(i: int) -> int {
    (i - 1) / 2
}

/// No item but perhaps that at `hole` comes before its parent, and neither do the
/// items below that one come before its parent.
spec fn ordered_above(items: Seq<HeapItem>, hole: int) -> bool {
    &&& forall|i: int|
        0 < i < items.len() && i != hole ==> !precedes(
            #[trigger] items[i],
            items[parent(i)],
        )
    &&& forall|i: int|
        0 < i < items.len() && parent(i) == hole && hole > 0 ==> !precedes(
            #[trigger] items[i],
            items[parent(hole)],
        )
}

/// No item but perhaps those below `hole` comes before its parent, and these do
/// not come before the parent of `hole`.
spec fn ordered_below(items: Seq<HeapItem>, hole: int) -> bool {
    &&& forall|i: int|
        0 < i < items.len() && parent(i) != hole ==> !precedes(
            #[trigger] items[i],
            items[parent(i)],
        )
    &&& forall|i: int|
        0 < i < items.len() && parent(i) == hole && hole > 0 ==> !precedes(
            #[trigger] items[i],
            items[parent(hole)],
        )
}

/// No item comes before its parent.
spec fn ordered(items: Seq<HeapItem>) -> bool {
    forall|i: int| 0 < i < items.len() ==> !precedes(#[trigger] items[i], items[parent(i)])
}

/// The items are the current entries, each once.
pub open spec fn are_heads(items: Seq<HeapItem>, heads: Heads) -> bool {
    &&& forall|i: int|
        0 <= i < items.len() ==> {
            &&& (#[trigger] items[i]).rank < heads.len()
            &&& heads[items[i].rank as int] == Some((items[i].key, items[i].value))
        }
    &&& forall|i: int, j: int|
        0 <= i < j < items.len() ==> (#[trigger] items[i]).rank != (#[trigger] items[j]).rank
    &&& forall|s: int|
        0 <= s < heads.len() && (#[trigger] heads[s]) is Some ==> exists|i: int|
            0 <= i < items.len() && (#[trigger] items[i]).rank == s
}

/// The order of items is a strict total order on key and rank: of two items at
/// most one comes before the other, neither does exactly where key and rank
/// agree, and what comes before the second of two comes before the third that the
/// second comes before. The smaller key comes first, and among equal keys the
/// smaller rank. The value plays no part.
pub proof fn lemma_precedes_is_total_order(a: HeapItem, b: HeapItem, c: HeapItem)
    ensures
        !(precedes(a, b) && precedes(b, a)),
        (!precedes(a, b) && !precedes(b, a)) <==> (a.key@ == b.key@ && a.rank == b.rank),
        precedes(a, b) && precedes(b, c) ==> precedes(a, c),
        a.key@ == b.key@ ==> precedes(a, b) == (a.rank < b.rank),
        a.key@ != b.key@ ==> precedes(a, b) == order::key_lt(a.key@, b.key@),
        a.key@ == b.key@ && a.rank == b.rank ==> precedes(a, c) == precedes(b, c) && precedes(c, a)
            == precedes(c, b),
{
    order::lemma_key_lt_total(a.key@, b.key@);
    order::lemma_key_lt_irreflexive(a.key@);
    if precedes(a, b) {
        lemma_precedes_asymmetric(a, b);
    }
    if precedes(b, a) {
        lemma_precedes_asymmetric(b, a);
    }
    if order::key_lt(a.key@, b.key@) && order::key_lt(b.key@, c.key@) {
        order::lemma_key_lt_transitive(a.key@, b.key@, c.key@);
    }
}

/// An item that does not come before a second one, which does not come before a
/// third one, does not come before the third one.
proof fn lemma_not_before(a: HeapItem, b: HeapItem, c: HeapItem)
    requires
        !precedes(c, b),
        !precedes(b, a),
    ensures
        !precedes(c, a),
{
    let (x, y, z) = (a.key@, b.key@, c.key@);
    order::lemma_key_lt_total(y, x);
    order::lemma_key_lt_total(z, y);
    order::lemma_key_lt_irreflexive(x);
    if order::key_lt(x, y) && order::key_lt(y, z) {
        order::lemma_key_lt_transitive(x, y, z);
    }
    if order::key_lt(x, z) {
        order::lemma_key_lt_asymmetric(x, z);
    }
}

/// Of two items at most one comes before the other.
proof fn lemma_precedes_asymmetric(a: HeapItem, b: HeapItem)
    requires
        precedes(a, b),
    ensures
        !precedes(b, a),
{
    order::lemma_key_lt_irreflexive(a.key@);
    if order::key_lt(a.key@, b.key@) {
        order::lemma_key_lt_asymmetric(a.key@, b.key@);
    }
}

/// No item comes before the first one.
proof fn lemma_first_is_least(items: Seq<HeapItem>, i: int)
    requires
        ordered(items),
        0 <= i < items.len(),
    ensures
        !precedes(items[i], items[0]),
    decreases i,
{
    if i == 0 {
        order::lemma_key_lt_irreflexive(items[0].key@);
    } else {
        lemma_first_is_least(items, parent(i));
        assert(!precedes(items[i], items[parent(i)]));
        lemma_not_before(items[0], items[parent(i)], items[i]);
    }
}

/// The items with those at two places exchanged.
spec fn exchanged(items: Seq<HeapItem>, i: int, j: int) -> Seq<HeapItem> {
    items.update(i, items[j]).update(j, items[i])
}

/// Exchanging two items leaves the same items.
proof fn lemma_exchanged(items: Seq<HeapItem>, i: int, j: int, heads: Heads)
    requires
        0 <= i < items.len(),
        0 <= j < items.len(),
        i != j,
        are_heads(items, heads),
    ensures
        are_heads(exchanged(items, i, j), heads),
{
    let n = exchanged(items, i, j);
    assert forall|s: int| 0 <= s < heads.len() && (#[trigger] heads[s]) is Some implies exists|
        p: int,
    | 0 <= p < n.len() && (#[trigger] n[p]).rank == s by {
        let p = choose|p: int| 0 <= p < items.len() && (#[trigger] items[p]).rank == s;
        let q = if p == i {
            j
        } else if p == j {
            i
        } else {
            p
        };
        assert(n[q].rank == s);
    }
    assert forall|a: int, b: int| 0 <= a < b < n.len() implies (#[trigger] n[a]).rank != (
    #[trigger] n[b]).rank by {
        let x = if a == i {
            j
        } else if a == j {
            i
        } else {
            a
        };
        let y = if b == i {
            j
        } else if b == j {
            i
        } else {
            b
        };
        assert(n[a] == items[x] && n[b] == items[y]);
        if x < y {
            assert(items[x].rank != items[y].rank);
        } else {
            assert(items[y].rank != items[x].rank);
        }
    }
}

/// Exchanging an item with its parent, which it comes before.
proof fn lemma_moved_up(items: Seq<HeapItem>, at: int)
    requires
        0 < at < items.len(),
        ordered_above(items, at),
        precedes(items[at], items[parent(at)]),
    ensures
        ordered_above(exchanged(items, at, parent(at)), parent(at)),
{
    let p = parent(at);
    let n = exchanged(items, at, p);
    let x = items[at];
    let y = items[p];
    lemma_precedes_asymmetric(x, y);
    assert forall|i: int| 0 < i < n.len() && i != p implies !precedes(
        #[trigger] n[i],
        n[parent(i)],
    ) by {
        if i != at {
            assert(n[i] == items[i]);
            assert(!precedes(items[i], items[parent(i)]));
            if parent(i) == p {
                lemma_not_before(x, y, items[i]);
            }
        }
    }
    assert forall|i: int| 0 < i < n.len() && parent(i) == p && p > 0 implies !precedes(
        #[trigger] n[i],
        n[parent(p)],
    ) by {
        assert(!precedes(items[p], items[parent(p)]));
        if i != at {
            assert(n[i] == items[i]);
            assert(!precedes(items[i], items[parent(i)]));
            lemma_not_before(items[parent(p)], y, items[i]);
        }
    }
}

/// Exchanging an item with the one below it that comes first.
proof fn lemma_moved_down(items: Seq<HeapItem>, at: int, c: int)
    requires
        0 <= at,
        0 < c < items.len(),
        parent(c) == at,
        ordered_below(items, at),
        precedes(items[c], items[at]),
        forall|i: int|
            0 < i < items.len() && parent(i) == at ==> !precedes(#[trigger] items[i], items[c]),
    ensures
        ordered_below(exchanged(items, at, c), c),
{
    let n = exchanged(items, at, c);
    let z = items[c];
    lemma_precedes_asymmetric(z, items[at]);
    assert forall|i: int| 0 < i < n.len() && parent(i) != c implies !precedes(
        #[trigger] n[i],
        n[parent(i)],
    ) by {
        if i == at {
            assert(!precedes(items[c], items[parent(at)]));
        } else if i != c {
            assert(n[i] == items[i]);
            if parent(i) == at {
                assert(!precedes(items[i], items[c]));
            } else {
                assert(!precedes(items[i], items[parent(i)]));
            }
        }
    }
    assert forall|i: int| 0 < i < n.len() && parent(i) == c && c > 0 implies !precedes(
        #[trigger] n[i],
        n[parent(c)],
    ) by {
        assert(n[i] == items[i]);
        assert(!precedes(items[i], items[parent(i)]));
    }
}

/// Whether `a` comes before `b`.
pub fn check_precedes(a: &HeapItem, b: &HeapItem) -> (r: bool)
    ensures
        r == precedes(*a, *b),
{
    match order::compare_keys(a.key.as_slice(), b.key.as_slice()) {
        KeyOrder::Before => true,
        KeyOrder::Same => {
            proof {
                order::lemma_key_lt_irreflexive(a.key@);
            }
            a.rank < b.rank
        },
        KeyOrder::After => {
            proof {
                order::lemma_key_lt_asymmetric(b.key@, a.key@);
            }
            false
        },
    }
}

/// Exchanges the items at two places.
fn exchange(items: &mut Vec<HeapItem>, i: usize, j: usize)
    requires
        i < old(items)@.len(),
        j < old(items)@.len(),
        i != j,
    ensures
        final(items)@ == exchanged(old(items)@, i as int, j as int),
{
    let mut held = HeapItem { key: Vec::new(), value: None, rank: 0 };
    std::mem::swap(&mut items[i], &mut held);
    std::mem::swap(&mut items[j], &mut held);
    std::mem::swap(&mut items[i], &mut held);
    assert(items@ =~= exchanged(old(items)@, i as int, j as int));
}

/// The queue.
pub struct MergeQueue {
    items: Vec<HeapItem>,
}

impl MergeQueue {
    /// The items, in no particular order.
    pub closed spec fn items(self) -> Seq<HeapItem> {
        self.items@
    }

    /// No item comes before its parent.
    pub closed spec fn wf(self) -> bool {
        ordered(self.items@)
    }

    /// The queue holds the current entries.
    pub open spec fn holds(self, heads: Heads) -> bool {
        are_heads(self.items(), heads)
    }

    /// An empty queue.
    pub fn new() -> (q: Self)
        ensures
            q.wf(),
            q.items().len() == 0,
    {
        MergeQueue { items: Vec::new() }
    }

    /// Adds the current entry of a table.
    pub(crate) fn push(&mut self, item: HeapItem, Ghost(heads): Ghost<Heads>)
        requires
            old(self).wf(),
            old(self).holds(heads),
            item.rank < heads.len(),
            heads[item.rank as int] is None,
        ensures
            final(self).wf(),
            final(self).holds(heads.update(item.rank as int, Some((item.key, item.value)))),
    {
        let ghost before = self.items@;
        let ghost after = heads.update(item.rank as int, Some((item.key, item.value)));
        let mut at: usize = self.items.len();
        self.items.push(item);
        proof {
            let n = self.items@;
            assert forall|i: int| 0 <= i < before.len() implies (#[trigger] before[i]).rank
                != item.rank by {
                assert(heads[before[i].rank as int] is Some);
            }
            assert forall|i: int| 0 <= i < n.len() implies (#[trigger] n[i]).rank < after.len()
                && after[n[i].rank as int] == Some((n[i].key, n[i].value)) by {
                if i < before.len() {
                    assert(before[i].rank != item.rank);
                }
            }
            assert forall|i: int, j: int| 0 <= i < j < n.len() implies (#[trigger] n[i]).rank != (
            #[trigger] n[j]).rank by {
                assert(before[i].rank != item.rank);
                if j < before.len() {
                    assert(before[i].rank != before[j].rank);
                }
            }
            assert forall|s: int| 0 <= s < after.len() && (#[trigger] after[s]) is Some implies exists|
                i: int,
            | 0 <= i < n.len() && (#[trigger] n[i]).rank == s by {
                if s == item.rank {
                    assert(n[before.len() as int].rank == s);
                } else {
                    assert(heads[s] is Some);
                    let i = choose|i: int| 0 <= i < before.len() && (#[trigger] before[i]).rank == s;
                    assert(n[i].rank == s);
                }
            }
            assert forall|i: int| 0 < i < n.len() && i != at implies !precedes(
                #[trigger] n[i],
                n[parent(i)],
            ) by {
                assert(!precedes(before[i], before[parent(i)]));
            }
        }
        let mut done: bool = false;
        while at > 0 && !done
            invariant
                at < self.items@.len(),
                are_heads(self.items@, after),
                ordered_above(self.items@, at as int),
                done ==> ordered(self.items@),
            decreases (if done { 0int } else { 1int }), at,
        {
            let up: usize = (at - 1) / 2;
            if check_precedes(&self.items[at], &self.items[up]) {
                proof {
                    lemma_moved_up(self.items@, at as int);
                    lemma_exchanged(self.items@, at as int, up as int, after);
                }
                exchange(&mut self.items, at, up);
                at = up;
            } else {
                done = true;
            }
        }
    }

    /// Takes out the item that comes first. `None` says that there is none.
    pub(crate) fn pop(&mut self, Ghost(heads): Ghost<Heads>) -> (r: Option<HeapItem>)
        requires
            old(self).wf(),
            old(self).holds(heads),
        ensures
            final(self).wf(),
            match r {
                None => {
                    &&& final(self).holds(heads)
                    &&& forall|s: int| 0 <= s < heads.len() ==> (#[trigger] heads[s]) is None
                },
                Some(item) => {
                    &&& item.rank < heads.len()
                    &&& heads[item.rank as int] == Some((item.key, item.value))
                    &&& final(self).holds(heads.update(item.rank as int, None))
                    &&& forall|s: int|
                        0 <= s < heads.len() && (#[trigger] heads[s]) is Some ==> !precedes(
                            (HeapItem {
                                key: heads[s].unwrap().0,
                                value: heads[s].unwrap().1,
                                rank: s as usize,
                            }),
                            item,
                        )
                },
            },
    {
        if self.items.len() == 0 {
            return None;
        }
        let ghost before = self.items@;
        let item = self.items.swap_remove(0);
        let ghost after = heads.update(item.rank as int, None);
        proof {
            lemma_popped_order(before, self.items@);
            lemma_popped_heads(before, self.items@, heads);
            assert forall|s: int|
                0 <= s < heads.len() && (#[trigger] heads[s]) is Some implies !precedes(
                (HeapItem {
                    key: heads[s].unwrap().0,
                    value: heads[s].unwrap().1,
                    rank: s as usize,
                }),
                item,
            ) by {
                let i = choose|i: int| 0 <= i < before.len() && (#[trigger] before[i]).rank == s;
                lemma_first_is_least(before, i);
            }
        }
        self.sink(Ghost(after));
        Some(item)
    }

    /// Moves the first item down to where it belongs.
    fn sink(&mut self, Ghost(heads): Ghost<Heads>)
        requires
            ordered_below(old(self).items@, 0),
            are_heads(old(self).items@, heads),
        ensures
            final(self).wf(),
            final(self).holds(heads),
    {
        let n: usize = self.items.len();
        let mut at: usize = 0;
        let mut done: bool = false;
        while !done
            invariant
                n == self.items@.len(),
                at < n || (at == 0 && n == 0),
                are_heads(self.items@, heads),
                ordered_below(self.items@, at as int),
                done ==> ordered(self.items@),
            decreases (if done { 0int } else { 1int }), n - at,
        {
            let ghost items = self.items@;
            if n == 0 || at > (n - 1) / 2 || 2 * at + 1 >= n {
                proof {
                    assert forall|i: int| 0 < i < n implies !precedes(
                        #[trigger] items[i],
                        items[parent(i)],
                    ) by {
                        assert(parent(i) != at);
                    }
                }
                done = true;
            } else {
                let left: usize = 2 * at + 1;
                let right: usize = left + 1;
                let c: usize = if right < n && check_precedes(
                    &self.items[right],
                    &self.items[left],
                ) {
                    right
                } else {
                    left
                };
                proof {
                    assert forall|i: int| 0 < i < n && parent(i) == at implies !precedes(
                        #[trigger] items[i],
                        items[c as int],
                    ) by {
                        assert(i == left || i == right);
                        order::lemma_key_lt_irreflexive(items[i].key@);
                        if c == right && i == left {
                            lemma_precedes_asymmetric(items[right as int], items[left as int]);
                        }
                    }
                }
                if check_precedes(&self.items[c], &self.items[at]) {
                    proof {
                        lemma_moved_down(items, at as int, c as int);
                        lemma_exchanged(items, at as int, c as int, heads);
                    }
                    exchange(&mut self.items, at, c);
                    at = c;
                } else {
                    proof {
                        assert forall|i: int| 0 < i < n implies !precedes(
                            #[trigger] items[i],
                            items[parent(i)],
                        ) by {
                            if parent(i) == at {
                                lemma_not_before(items[at as int], items[c as int], items[i]);
                            }
                        }
                    }
                    done = true;
                }
            }
        }
    }
}

/// The items without the first one, in the place of which the last one is: only
/// those below it can be out of order.
proof fn lemma_popped_order(before: Seq<HeapItem>, after: Seq<HeapItem>)
    requires
        before.len() > 0,
        ordered(before),
        after == before.update(0, before.last()).drop_last(),
    ensures
        ordered_below(after, 0),
{
    assert forall|i: int| 0 < i < after.len() && parent(i) != 0 implies !precedes(
        #[trigger] after[i],
        after[parent(i)],
    ) by {
        assert(!precedes(before[i], before[parent(i)]));
    }
}

/// The items without the first one are the other current entries.
proof fn lemma_popped_heads(before: Seq<HeapItem>, after: Seq<HeapItem>, heads: Heads)
    requires
        before.len() > 0,
        are_heads(before, heads),
        after == before.update(0, before.last()).drop_last(),
    ensures
        are_heads(after, heads.update(before[0].rank as int, None)),
{
    let l = before.len() - 1;
    let left = heads.update(before[0].rank as int, None);
    assert forall|i: int| 0 <= i < after.len() implies {
        &&& (#[trigger] after[i]).rank < left.len()
        &&& left[after[i].rank as int] == Some((after[i].key, after[i].value))
    } by {
        if i == 0 {
            assert(after[i] == before[l]);
            assert(before[0].rank != before[l].rank);
        } else {
            assert(after[i] == before[i]);
            assert(before[0].rank != before[i].rank);
        }
    }
    assert forall|i: int, j: int| 0 <= i < j < after.len() implies (#[trigger] after[i]).rank != (
    #[trigger] after[j]).rank by {
        assert(after[j] == before[j]);
        if i == 0 {
            assert(before[j].rank != before[l].rank);
        } else {
            assert(before[i].rank != before[j].rank);
        }
    }
    assert forall|s: int| 0 <= s < left.len() && (#[trigger] left[s]) is Some implies exists|i: int|
        0 <= i < after.len() && (#[trigger] after[i]).rank == s by {
        assert(heads[s] is Some);
        let i = choose|i: int| 0 <= i < before.len() && (#[trigger] before[i]).rank == s;
        let j = if i == l {
            0
        } else {
            i
        };
        assert(after[j].rank == s);
    }
}

} // verus!
