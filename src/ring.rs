//! A circular list stored as an arena of nodes linked by index.
use vstd::prelude::*;

verus! {

/// One slot of the arena: a value and the indices of its ring neighbours.
#[derive(Debug)]
pub struct Node<T> {
    pub value: T,
    pub next: usize,
    pub prev: usize,
}

/// A cyclic sequence of values. Either empty, or its nodes form exactly one
/// cycle through `next` (and back through `prev`) that starts at the head.
pub struct CircularList<T> {
    nodes: Vec<Node<T>>,
    head: usize,
    /// Node index at each ring position, starting from the head.
    order: Ghost<Seq<int>>,
}

/// `o` lists every node of `nodes` exactly once, and `next` / `prev` link
/// consecutive positions of `o`, the last back to the first.
pub open spec fn ring_links<T>(nodes: Seq<Node<T>>, o: Seq<int>) -> bool {
    let n = nodes.len();
    &&& o.len() == n
    &&& forall|k: int| 0 <= k < n ==> 0 <= #[trigger] o[k] < n
    &&& forall|a: int, b: int| 0 <= a < b < n ==> #[trigger] o[a] != #[trigger] o[b]
    &&& forall|k: int| 0 <= k < n - 1 ==> (#[trigger] nodes[o[k]]).next == o[k + 1]
    &&& n > 0 ==> nodes[o[n - 1]].next == o[0]
    &&& forall|k: int| 0 < k < n ==> (#[trigger] nodes[o[k]]).prev == o[k - 1]
    &&& n > 0 ==> nodes[o[0]].prev == o[n - 1]
}

/// The values of the nodes that `o` lists, in that order.
pub open spec fn values_along<T>(nodes: Seq<Node<T>>, o: Seq<int>) -> Seq<T> {
    Seq::new(o.len(), |k: int| nodes[o[k]].value)
}

proof fn lemma_values_after_insert<T>(before: Seq<Node<T>>, after: Seq<Node<T>>, o: Seq<int>, index: int, value: T)
    requires
        o.len() == before.len(),
        forall|k: int| 0 <= k < o.len() ==> 0 <= #[trigger] o[k] < o.len(),
        forall|a: int, b: int| 0 <= a < b < o.len() ==> #[trigger] o[a] != #[trigger] o[b],
        0 <= index <= before.len(),
        after.len() == before.len() + 1,
        after[before.len() as int].value == value,
        forall|i: int| 0 <= i < before.len() ==> #[trigger] after[i].value == before[i].value,
    ensures
        values_along(after, o.insert(index, before.len() as int)) == values_along(before, o).insert(index, value),
{
    let n = before.len() as int;
    lemma_insert_positions(o, index, n);
    let o2 = o.insert(index, n);
    assert forall|k: int| 0 <= k < n + 1 implies #[trigger] values_along(after, o2)[k] == values_along(
        before,
        o,
    ).insert(index, value)[k] by {
        assert(o2[k] == inserted_at(o, index, n, k));
        if k < index {
            assert(after[o[k]].value == before[o[k]].value);
        } else if k > index {
            assert(after[o[k - 1]].value == before[o[k - 1]].value);
        }
    }
    assert(values_along(after, o2) =~= values_along(before, o).insert(index, value));
}

pub open spec fn inserted_at(o: Seq<int>, index: int, n: int, k: int) -> int {
    if k < index {
        o[k]
    } else if k == index {
        n
    } else {
        o[k - 1]
    }
}

proof fn lemma_insert_positions(o: Seq<int>, index: int, n: int)
    requires
        o.len() == n,
        0 <= index <= n,
        forall|k: int| 0 <= k < n ==> 0 <= #[trigger] o[k] < n,
        forall|a: int, b: int| 0 <= a < b < n ==> #[trigger] o[a] != #[trigger] o[b],
    ensures
        o.insert(index, n).len() == n + 1,
        forall|k: int| 0 <= k <= n ==> #[trigger] o.insert(index, n)[k] == inserted_at(o, index, n, k),
        forall|k: int| 0 <= k <= n ==> 0 <= #[trigger] o.insert(index, n)[k] <= n,
        forall|a: int, b: int|
            0 <= a < b <= n ==> #[trigger] o.insert(index, n)[a] != #[trigger] o.insert(index, n)[b],
{
    let o2 = o.insert(index, n);
    assert forall|k: int| 0 <= k <= n implies #[trigger] o2[k] == inserted_at(o, index, n, k) by {}
    assert forall|a: int, b: int| 0 <= a < b <= n implies #[trigger] o2[a] != #[trigger] o2[b] by {
        assert(o2[a] == inserted_at(o, index, n, a));
        assert(o2[b] == inserted_at(o, index, n, b));
        if a < index && b > index {
            assert(o[a] != o[b - 1]);
        } else if a > index {
            assert(o[a - 1] != o[b - 1]);
        }
    }
}

/// Splicing a new node `n` between `prev` and `cur` at ring position `index`
/// keeps the links consistent.
proof fn lemma_splice<T>(
    before: Seq<Node<T>>,
    after: Seq<Node<T>>,
    o: Seq<int>,
    index: int,
    cur: int,
    prev: int,
)
    requires
        ring_links(before, o),
        before.len() > 0,
        0 <= index <= before.len(),
        cur == o[if index == before.len() { 0 } else { index }],
        prev == o[if index == 0 || index == before.len() { before.len() - 1 } else { index - 1 }],
        after.len() == before.len() + 1,
        after[before.len() as int].next == cur,
        after[before.len() as int].prev == prev,
        after[prev].next == before.len(),
        after[cur].prev == before.len(),
        forall|i: int| 0 <= i < before.len() && i != prev ==> #[trigger] after[i].next == before[i].next,
        forall|i: int| 0 <= i < before.len() && i != cur ==> #[trigger] after[i].prev == before[i].prev,
    ensures
        ring_links(after, o.insert(index, before.len() as int)),
{
    let n = before.len() as int;
    let o2 = o.insert(index, n);
    let m = n + 1;
    lemma_insert_positions(o, index, n);
    lemma_splice_next(before, after, o, index, cur, prev);
    lemma_splice_prev(before, after, o, index, cur, prev);
}

proof fn lemma_splice_next<T>(
    before: Seq<Node<T>>,
    after: Seq<Node<T>>,
    o: Seq<int>,
    index: int,
    cur: int,
    prev: int,
)
    requires
        ring_links(before, o),
        before.len() > 0,
        0 <= index <= before.len(),
        cur == o[if index == before.len() { 0 } else { index }],
        prev == o[if index == 0 || index == before.len() { before.len() - 1 } else { index - 1 }],
        after.len() == before.len() + 1,
        after[before.len() as int].next == cur,
        after[prev].next == before.len(),
        forall|i: int| 0 <= i < before.len() && i != prev ==> #[trigger] after[i].next == before[i].next,
        forall|k: int|
            0 <= k <= before.len() ==> #[trigger] o.insert(index, before.len() as int)[k]
                == inserted_at(o, index, before.len() as int, k),
    ensures
        forall|k: int|
            0 <= k < before.len() ==> (#[trigger] after[o.insert(index, before.len() as int)[k]]).next
                == o.insert(index, before.len() as int)[k + 1],
        after[o.insert(index, before.len() as int)[before.len() as int]].next == o.insert(
            index,
            before.len() as int,
        )[0],
{
    let n = before.len() as int;
    let o2 = o.insert(index, n);
    assert forall|k: int| 0 <= k < n implies (#[trigger] after[o2[k]]).next == o2[k + 1] by {
        assert(o2[k] == inserted_at(o, index, n, k));
        assert(o2[k + 1] == inserted_at(o, index, n, k + 1));
        if k < index - 1 {
            assert(o[k] != prev);
            assert(before[o[k]].next == o[k + 1]);
        } else if k == index - 1 {
        } else if k == index {
        } else {
            assert(o[k - 1] != prev);
            assert(before[o[k - 1]].next == o[k]);
        }
    }
    assert(o2[n] == inserted_at(o, index, n, n));
    assert(o2[0] == inserted_at(o, index, n, 0));
    if index < n && index > 0 {
        assert(o[n - 1] != prev);
    }
}

proof fn lemma_splice_prev<T>(
    before: Seq<Node<T>>,
    after: Seq<Node<T>>,
    o: Seq<int>,
    index: int,
    cur: int,
    prev: int,
)
    requires
        ring_links(before, o),
        before.len() > 0,
        0 <= index <= before.len(),
        cur == o[if index == before.len() { 0 } else { index }],
        prev == o[if index == 0 || index == before.len() { before.len() - 1 } else { index - 1 }],
        after.len() == before.len() + 1,
        after[before.len() as int].prev == prev,
        after[cur].prev == before.len(),
        forall|i: int| 0 <= i < before.len() && i != cur ==> #[trigger] after[i].prev == before[i].prev,
        forall|k: int|
            0 <= k <= before.len() ==> #[trigger] o.insert(index, before.len() as int)[k]
                == inserted_at(o, index, before.len() as int, k),
    ensures
        forall|k: int|
            0 < k <= before.len() ==> (#[trigger] after[o.insert(index, before.len() as int)[k]]).prev
                == o.insert(index, before.len() as int)[k - 1],
        after[o.insert(index, before.len() as int)[0]].prev == o.insert(
            index,
            before.len() as int,
        )[before.len() as int],
{
    let n = before.len() as int;
    let o2 = o.insert(index, n);
    assert forall|k: int| 0 < k <= n implies (#[trigger] after[o2[k]]).prev == o2[k - 1] by {
        assert(o2[k] == inserted_at(o, index, n, k));
        assert(o2[k - 1] == inserted_at(o, index, n, k - 1));
        if k < index {
            assert(o[k] != cur);
            assert(before[o[k]].prev == o[k - 1]);
        } else if k == index {
        } else if k == index + 1 {
        } else {
            assert(o[k - 1] != cur);
            assert(before[o[k - 1]].prev == o[k - 2]);
        }
    }
    assert(o2[n] == inserted_at(o, index, n, n));
    assert(o2[0] == inserted_at(o, index, n, 0));
    if index > 0 && index < n {
        assert(o[0] != cur);
    }
}

impl<T> CircularList<T> {
    pub closed spec fn head_index(&self) -> int {
        self.head as int
    }

    pub closed spec fn next_of(&self, i: int) -> int {
        self.nodes@[i].next as int
    }

    pub closed spec fn prev_of(&self, i: int) -> int {
        self.nodes@[i].prev as int
    }

    pub closed spec fn value_at(&self, i: int) -> T {
        self.nodes@[i].value
    }

    /// The node reached from `start` after `steps` moves along `next`.
    pub open spec fn follow_next(&self, start: int, steps: nat) -> int
        decreases steps,
    {
        if steps == 0 {
            start
        } else {
            self.follow_next(self.next_of(start), (steps - 1) as nat)
        }
    }

    /// The values in ring order, starting at the head.
    pub closed spec fn view(&self) -> Seq<T> {
        values_along(self.nodes@, self.order@)
    }

    /// Well-formed: `order` lists every node once, the head is position 0,
    /// and `next` / `prev` link consecutive positions, the last back to the first.
    pub closed spec fn wf(&self) -> bool {
        &&& ring_links(self.nodes@, self.order@)
        &&& self.nodes@.len() > 0 ==> self.head == self.order@[0]
    }

    proof fn lemma_follow(&self, j: int, k: nat)
        requires
            self.wf(),
            0 <= j < self.nodes@.len(),
            j + k <= self.nodes@.len(),
            self.nodes@.len() > 0,
        ensures
            j + k < self.nodes@.len() ==> self.follow_next(self.order@[j], k) == self.order@[j + k],
            j + k == self.nodes@.len() ==> self.follow_next(self.order@[j], k) == self.order@[0],
        decreases k,
    {
        let n = self.nodes@.len() as int;
        if k > 0 {
            if j == n - 1 {
                assert(self.next_of(self.order@[j]) == self.order@[0]);
                assert(k == 1);
                assert(self.follow_next(self.order@[0], 0) == self.order@[0]);
            } else {
                assert(self.next_of(self.order@[j]) == self.order@[j + 1]);
                self.lemma_follow(j + 1, (k - 1) as nat);
            }
        }
    }

    /// Cycle law: from the head, `len` moves along `next` come back to the
    /// head and no positive number of moves below `len` does, so the nodes
    /// form one cycle of `len` nodes; the node `k < len` moves away holds the
    /// `k`-th value, and one move along `prev` reaches the node `len - 1`
    /// moves away.
    pub proof fn lemma_cycle(&self)
        requires
            self.wf(),
            self.view().len() > 0,
        ensures
            self.follow_next(self.head_index(), self.view().len()) == self.head_index(),
            self.prev_of(self.head_index()) == self.follow_next(
                self.head_index(),
                (self.view().len() - 1) as nat,
            ),
            forall|k: nat|
                0 < k < self.view().len() ==> #[trigger] self.follow_next(self.head_index(), k)
                    != self.head_index(),
            forall|k: nat|
                k < self.view().len() ==> self.value_at(#[trigger] self.follow_next(self.head_index(), k))
                    == self.view()[k as int],
    {
        let n = self.nodes@.len();
        self.lemma_follow(0, n);
        self.lemma_follow(0, (n - 1) as nat);
        assert forall|k: nat| 0 < k < self.view().len() implies #[trigger] self.follow_next(
            self.head_index(),
            k,
        ) != self.head_index() by {
            self.lemma_follow(0, k);
            assert(self.order@[0] != self.order@[k as int]);
        }
        assert forall|k: nat| k < self.view().len() implies self.value_at(
            #[trigger] self.follow_next(self.head_index(), k),
        ) == self.view()[k as int] by {
            self.lemma_follow(0, k);
        }
    }

    pub fn new() -> (r: CircularList<T>)
        ensures
            r.wf(),
            r.view() == Seq::<T>::empty(),
    {
        let r = CircularList { nodes: Vec::new(), head: 0, order: Ghost(Seq::empty()) };
        assert(r.view() =~= Seq::<T>::empty());
        r
    }

    pub fn len(&self) -> (r: usize)
        requires
            self.wf(),
        ensures
            r == self.view().len(),
    {
        self.nodes.len()
    }

    pub fn is_empty(&self) -> (r: bool)
        requires
            self.wf(),
        ensures
            r == (self.view().len() == 0),
    {
        self.nodes.len() == 0
    }

    /// Inserts `value` so that it becomes the element at position `index`
    /// (counted from the head); index 0 makes it the new head, index `len`
    /// places it last, just before the head.
        pub fn insert(&mut self, value: T, index: usize)
        requires
            old(self).wf(),
            index <= old(self).view().len(),
        ensures
            final(self).wf(),
            final(self).view() == old(self).view().insert(index as int, value),
    {
        let n = self.nodes.len();
        let ghost o = self.order@;
        let ghost v0 = self.view();
        if n == 0 {
            self.nodes.push(Node { value, next: 0, prev: 0 });
            self.head = 0;
            let ghost single: Seq<int> = seq![0int];
            self.order = Ghost(single);
            assert(self.view() =~= v0.insert(index as int, value));
            return;
        }
        let pos: usize = if index == n { 0 } else { index };
        let cur = self.node_at(pos);
        let prev = self.nodes[cur].prev;
        proof {
            if pos > 0 {
                assert(self.nodes@[o[pos as int]].prev == o[pos - 1]);
            }
        }
        let ghost before = self.nodes@;
        let ghost v = value;
        self.nodes.push(Node { value, next: cur, prev });
        self.set_next(prev, n);
        self.set_prev(cur, n);
        assert(forall|i: int| 0 <= i < n ==> #[trigger] self.nodes@[i].value == before[i].value);
        assert(self.nodes@[n as int].value == v);
        proof {
            lemma_splice(before, self.nodes@, o, index as int, cur as int, prev as int);
        }
        if index == 0 {
            self.head = n;
        }
        let ghost o_new = o.insert(index as int, n as int);
        self.order = Ghost(o_new);
        proof {
            lemma_values_after_insert(before, self.nodes@, o, index as int, v);
        }
    }

    /// Node index at ring position `pos`, found by walking from the head.
    fn node_at(&self, pos: usize) -> (r: usize)
        requires
            self.wf(),
            pos < self.nodes@.len(),
        ensures
            r == self.order@[pos as int],
    {
        let mut cur = self.head;
        let mut i: usize = 0;
        while i < pos
            invariant
                self.wf(),
                i <= pos < self.nodes@.len(),
                cur == self.order@[i as int],
            decreases pos - i,
        {
            cur = self.nodes[cur].next;
            i = i + 1;
        }
        cur
    }

    fn set_next(&mut self, i: usize, next: usize)
        requires
            i < old(self).nodes@.len(),
        ensures
            final(self).head == old(self).head,
            final(self).order == old(self).order,
            final(self).nodes@.len() == old(self).nodes@.len(),
            final(self).nodes@[i as int].next == next,
            final(self).nodes@[i as int].prev == old(self).nodes@[i as int].prev,
            final(self).nodes@[i as int].value == old(self).nodes@[i as int].value,
            forall|j: int| 0 <= j < old(self).nodes@.len() && j != i ==> #[trigger] final(self).nodes@[j] == old(self).nodes@[j],
    {
        self.nodes[i].next = next;
    }

    fn set_prev(&mut self, i: usize, prev: usize)
        requires
            i < old(self).nodes@.len(),
        ensures
            final(self).head == old(self).head,
            final(self).order == old(self).order,
            final(self).nodes@.len() == old(self).nodes@.len(),
            final(self).nodes@[i as int].prev == prev,
            final(self).nodes@[i as int].next == old(self).nodes@[i as int].next,
            final(self).nodes@[i as int].value == old(self).nodes@[i as int].value,
            forall|j: int| 0 <= j < old(self).nodes@.len() && j != i ==> #[trigger] final(self).nodes@[j] == old(self).nodes@[j],
    {
        self.nodes[i].prev = prev;
    }

    /// Appends `value` at the tail, just before the head.
    pub fn push(&mut self, value: T)
        requires
            old(self).wf(),
        ensures
            final(self).wf(),
            final(self).view() == old(self).view().push(value),
    {
        let n = self.nodes.len();
        self.insert(value, n);
        assert(old(self).view().insert(n as int, value) =~= old(self).view().push(value));
    }

    /// A traversal of one revolution, starting at the head.
    pub fn iter(&self) -> (r: CircularListIterator<'_, T>)
        requires
            self.wf(),
        ensures
            r.valid(),
            r.list() == self,
            r.position() == 0,
    {
        CircularListIterator { list: self, current: self.head, visited: 0 }
    }
}

impl<T> Default for CircularList<T> {
    fn default() -> (r: CircularList<T>)
        ensures
            r.wf(),
            r.view() == Seq::<T>::empty(),
    {
        CircularList::new()
    }
}

/// Walks a list once around, yielding copies of the values in ring order.
pub struct CircularListIterator<'a, T> {
    list: &'a CircularList<T>,
    current: usize,
    visited: usize,
}

impl<'a, T> CircularListIterator<'a, T> {
    pub closed spec fn list(&self) -> &'a CircularList<T> {
        self.list
    }

    /// How many values have been yielded.
    pub closed spec fn position(&self) -> nat {
        self.visited as nat
    }

    pub closed spec fn valid(&self) -> bool {
        &&& self.list.wf()
        &&& self.visited <= self.list.nodes@.len()
        &&& self.visited < self.list.nodes@.len() ==> self.current == self.list.order@[self.visited as int]
    }

}

impl<'a, T: Clone> CircularListIterator<'a, T> {
    /// The next value of the revolution, or `None` once every value has been
    /// yielded.
    pub fn next(&mut self) -> (r: Option<T>)
        requires
            old(self).valid(),
        ensures
            final(self).valid(),
            final(self).list() == old(self).list(),
            old(self).position() < old(self).list().view().len() ==> {
                &&& r is Some
                &&& cloned(old(self).list().view()[old(self).position() as int], r->Some_0)
                &&& final(self).position() == old(self).position() + 1
            },
            old(self).position() >= old(self).list().view().len() ==> {
                &&& r is None
                &&& final(self).position() == old(self).position()
            },
    {
        if self.visited >= self.list.nodes.len() {
            return None;
        }
        let node = &self.list.nodes[self.current];
        let value = node.value.clone();
        let ghost k = self.visited as int;
        let ghost n = self.list.nodes@.len() as int;
        self.current = node.next;
        self.visited = self.visited + 1;
        proof {
            if k + 1 < n {
                assert(self.list.nodes@[self.list.order@[k]].next == self.list.order@[k + 1]);
            }
        }
        Some(value)
    }
}

} // verus!
