use vstd::prelude::*;
use crate::structure::error::ListError;
use crate::structure::model::{
    head_deleted, head_inserted, inserted_at, lemma_insert_at_ends, tail_deleted, tail_inserted,
};
use crate::structure::render::{displays, join_texts, lemma_render_small, renders_as};

verus! {

/// One element of the list: its value and the slot of the element after it.
struct Node<T> {
    val: T,
    nxt: Option<usize>,
}

impl<T> Node<T> {
    fn new(val: T) -> (node: Self)
        ensures
            node.val == val,
            node.nxt is None,
    {
        Self { val, nxt: None }
    }
}

/// A singly linked list. Its nodes live in the slots of an arena and name
/// each other by slot number; a slot that holds no node waits in `free`.
pub struct LinkedList<T> {
    length: usize,
    head: Option<usize>,
    tail: Option<usize>,
    slots: Vec<Option<Node<T>>>,
    free: Vec<usize>,
    order: Ghost<Seq<usize>>,
}

/// The slot at position `i` of `order`, or nothing outside it.
spec fn slot_at(order: Seq<usize>, i: int) -> Option<usize> {
    if 0 <= i < order.len() {
        Some(order[i])
    } else {
        None
    }
}

/// `order` names distinct occupied slots, and each node's link leads to the
/// next slot of `order`, the last node's to nothing.
spec fn linked<T>(slots: Seq<Option<Node<T>>>, order: Seq<usize>) -> bool {
    &&& forall|i: int| 0 <= i < order.len() ==> (#[trigger] order[i]) < slots.len()
    &&& forall|i: int|
        0 <= i < order.len() ==> {
            &&& (#[trigger] slots[order[i] as int]) is Some
            &&& slots[order[i] as int].unwrap().nxt == slot_at(order, i + 1)
        }
    &&& forall|i: int, j: int| 0 <= i < j < order.len() ==> order[i] != order[j]
}

/// `free` names distinct empty slots.
spec fn vacant<T>(slots: Seq<Option<Node<T>>>, free: Seq<usize>) -> bool {
    &&& forall|i: int|
        0 <= i < free.len() ==> (#[trigger] free[i]) < slots.len() && slots[free[i] as int] is None
    &&& forall|i: int, j: int| 0 <= i < j < free.len() ==> free[i] != free[j]
}

/// The values held in the slots of `order`, in that order.
spec fn values<T>(slots: Seq<Option<Node<T>>>, order: Seq<usize>) -> Seq<T> {
    Seq::new(order.len(), |i: int| slots[order[i] as int].unwrap().val)
}

/// Linking a node from an unused slot in at position `k` keeps the chain
/// linked and inserts its value at position `k`.
proof fn lemma_splice_in<T>(
    slots: Seq<Option<Node<T>>>,
    order: Seq<usize>,
    after: Seq<Option<Node<T>>>,
    k: int,
    idx: usize,
)
    requires
        linked(slots, order),
        0 <= k <= order.len(),
        slots.len() <= after.len(),
        idx < after.len(),
        idx < slots.len() ==> slots[idx as int] is None,
        after[idx as int] is Some,
        after[idx as int].unwrap().nxt == slot_at(order, k),
        forall|i: int|
            0 <= i < order.len() && i != k - 1 ==> #[trigger] after[order[i] as int]
                == slots[order[i] as int],
        k > 0 ==> {
            &&& after[order[k - 1] as int] is Some
            &&& after[order[k - 1] as int].unwrap().val == slots[order[k - 1] as int].unwrap().val
            &&& after[order[k - 1] as int].unwrap().nxt == Some(idx)
        },
    ensures
        linked(after, order.insert(k, idx)),
        values(after, order.insert(k, idx)) == values(slots, order).insert(
            k,
            after[idx as int].unwrap().val,
        ),
{
    let grown = order.insert(k, idx);
    assert forall|i: int| 0 <= i < grown.len() implies #[trigger] grown[i] == (if i < k {
        order[i]
    } else if i == k {
        idx
    } else {
        order[i - 1]
    }) by {}
    assert forall|i: int| 0 <= i < order.len() implies #[trigger] order[i] != idx by {
        assert(slots[order[i] as int] is Some);
    }
    assert forall|i: int| 0 <= i < grown.len() implies {
        &&& (#[trigger] after[grown[i] as int]) is Some
        &&& after[grown[i] as int].unwrap().nxt == slot_at(grown, i + 1)
    } by {
        let behind = i + 1;
        if behind < grown.len() {
            assert(grown[behind] == (if behind < k {
                order[behind]
            } else if behind == k {
                idx
            } else {
                order[behind - 1]
            }));
        }
        if i < k {
            assert(slots[order[i] as int] is Some);
        } else if i > k {
            assert(slots[order[i - 1] as int] is Some);
        }
    }
    assert(linked(after, grown));
    let left = values(after, grown);
    let right = values(slots, order).insert(k, after[idx as int].unwrap().val);
    assert forall|i: int| 0 <= i < left.len() implies left[i] == right[i] by {
        if i < k {
            assert(after[order[i] as int].unwrap().val == slots[order[i] as int].unwrap().val);
        } else if i > k {
            assert(after[order[i - 1] as int].unwrap().val == slots[order[i - 1] as int].unwrap().val);
        }
    }
    assert(left =~= right);
}

/// Unlinking the node at position `k` keeps the rest of the chain linked and
/// removes its value.
proof fn lemma_splice_out<T>(
    slots: Seq<Option<Node<T>>>,
    order: Seq<usize>,
    after: Seq<Option<Node<T>>>,
    k: int,
)
    requires
        linked(slots, order),
        0 <= k < order.len(),
        after.len() == slots.len(),
        forall|i: int|
            0 <= i < order.len() && i != k - 1 && i != k ==> #[trigger] after[order[i] as int]
                == slots[order[i] as int],
        k > 0 ==> {
            &&& after[order[k - 1] as int] is Some
            &&& after[order[k - 1] as int].unwrap().val == slots[order[k - 1] as int].unwrap().val
            &&& after[order[k - 1] as int].unwrap().nxt == slot_at(order, k + 1)
        },
    ensures
        linked(after, order.remove(k)),
        values(after, order.remove(k)) == values(slots, order).remove(k),
{
    let shrunk = order.remove(k);
    assert forall|i: int| 0 <= i < shrunk.len() implies #[trigger] shrunk[i] == (if i < k {
        order[i]
    } else {
        order[i + 1]
    }) by {}
    assert forall|i: int| 0 <= i < shrunk.len() implies {
        &&& (#[trigger] after[shrunk[i] as int]) is Some
        &&& after[shrunk[i] as int].unwrap().nxt == slot_at(shrunk, i + 1)
    } by {
        let behind = i + 1;
        if behind < shrunk.len() {
            assert(shrunk[behind] == (if behind < k {
                order[behind]
            } else {
                order[behind + 1]
            }));
        }
        if i < k {
            assert(slots[order[i] as int] is Some);
        } else {
            assert(slots[order[i + 1] as int] is Some);
        }
    }
    assert(linked(after, shrunk));
    let left = values(after, shrunk);
    let right = values(slots, order).remove(k);
    assert forall|i: int| 0 <= i < left.len() implies left[i] == right[i] by {
        if i < k {
            assert(after[order[i] as int].unwrap().val == slots[order[i] as int].unwrap().val);
        } else {
            assert(after[order[i + 1] as int].unwrap().val == slots[order[i + 1] as int].unwrap().val);
        }
    }
    assert(left =~= right);
}

/// Puts `node` into an unused slot, a freed one before a new one, and
/// returns the slot's number.
fn occupy<T>(slots: &mut Vec<Option<Node<T>>>, free: &mut Vec<usize>, node: Node<T>) -> (idx: usize)
    requires
        vacant(old(slots)@, old(free)@),
    ensures
        vacant(final(slots)@, final(free)@),
        old(slots)@.len() <= final(slots)@.len() <= usize::MAX,
        idx < final(slots)@.len(),
        idx < old(slots)@.len() ==> old(slots)@[idx as int] is None,
        final(slots)@[idx as int] == Some(node),
        final(slots)@.len() - final(free)@.len() == old(slots)@.len() - old(free)@.len() + 1,
        forall|j: int| 0 <= j < old(slots)@.len() && j != idx ==> final(slots)@[j] == old(slots)@[j],
{
    let idx = match free.pop() {
        Some(i) => {
            slots[i] = Some(node);
            i
        },
        None => {
            slots.push(Some(node));
            slots.len() - 1
        },
    };
    assert(slots.len() == slots@.len());
    idx
}

/// Empties slot `idx`, hands it to `free` and returns the node it held.
fn vacate<T>(slots: &mut Vec<Option<Node<T>>>, free: &mut Vec<usize>, idx: usize) -> (node: Node<T>)
    requires
        vacant(old(slots)@, old(free)@),
        idx < old(slots)@.len(),
        old(slots)@[idx as int] is Some,
    ensures
        vacant(final(slots)@, final(free)@),
        Some(node) == old(slots)@[idx as int],
        final(slots)@ == old(slots)@.update(idx as int, None),
        final(free)@ == old(free)@.push(idx),
{
    let node = slots[idx].take().unwrap();
    free.push(idx);
    node
}

/// Redirects the link of the node in slot `idx`.
fn set_next<T>(slots: &mut Vec<Option<Node<T>>>, idx: usize, nxt: Option<usize>)
    requires
        idx < old(slots)@.len(),
        old(slots)@[idx as int] is Some,
    ensures
        final(slots)@ == old(slots)@.update(
            idx as int,
            Some(Node { val: old(slots)@[idx as int].unwrap().val, nxt }),
        ),
{
    if let Some(node) = &mut slots[idx] {
        node.nxt = nxt;
    }
}

/// The link of the node in slot `idx`.
fn next_of<T>(slots: &Vec<Option<Node<T>>>, idx: usize) -> (nxt: Option<usize>)
    requires
        idx < slots@.len(),
        slots@[idx as int] is Some,
    ensures
        nxt == slots@[idx as int].unwrap().nxt,
{
    slots[idx].as_ref().unwrap().nxt
}

impl<T> LinkedList<T> {
    /// The list's elements from head to tail.
    pub closed spec fn view(&self) -> Seq<T> {
        values(self.slots@, self.order@)
    }

    /// The list's invariant: `length` counts the chain that leads from
    /// `head` through each node's link to `tail`, where it ends; the list is
    /// empty exactly when it has neither head nor tail; and every slot of the
    /// arena either holds one node of the chain or is free.
    pub closed spec fn wf(&self) -> bool {
        &&& linked(self.slots@, self.order@)
        &&& vacant(self.slots@, self.free@)
        &&& self.order@.len() + self.free@.len() == self.slots@.len()
        &&& self.length == self.order@.len()
        &&& self.head == slot_at(self.order@, 0)
        &&& self.tail == slot_at(self.order@, self.order@.len() - 1)
    }

    /// An empty list.
    pub fn new() -> (list: Self)
        ensures
            list.wf(),
            list@ == Seq::<T>::empty(),
    {
        let list = Self {
            length: 0,
            head: None,
            tail: None,
            slots: Vec::new(),
            free: Vec::new(),
            order: Ghost(Seq::empty()),
        };
        assert(list@ =~= Seq::<T>::empty());
        list
    }

    /// The number of elements.
    pub fn len(&self) -> (n: usize)
        requires
            self.wf(),
        ensures
            n == self@.len(),
    {
        self.length
    }

    /// Puts `obj` before all other elements.
    pub fn insert_at_head(&mut self, obj: T)
        requires
            old(self).wf(),
        ensures
            final(self).wf(),
            final(self)@ == head_inserted(old(self)@, obj),
    {
        let mut node = Node::new(obj);
        node.nxt = self.head;
        let idx = occupy(&mut self.slots, &mut self.free, node);
        if self.head.is_none() {
            self.tail = Some(idx);
        }
        self.head = Some(idx);
        self.length += 1;
        proof {
            lemma_splice_in(old(self).slots@, old(self).order@, self.slots@, 0, idx);
            self.order@ = old(self).order@.insert(0, idx);
            assert(old(self)@.insert(0, obj) =~= seq![obj] + old(self)@);
        }
    }

    /// Puts `obj` after all other elements.
    pub fn insert_at_tail(&mut self, obj: T)
        requires
            old(self).wf(),
        ensures
            final(self).wf(),
            final(self)@ == tail_inserted(old(self)@, obj),
    {
        let idx = occupy(&mut self.slots, &mut self.free, Node::new(obj));
        match self.tail {
            None => {
                self.head = Some(idx);
            },
            Some(tail_idx) => {
                set_next(&mut self.slots, tail_idx, Some(idx));
            },
        }
        self.tail = Some(idx);
        self.length += 1;
        proof {
            let n = old(self).order@.len() as int;
            lemma_splice_in(old(self).slots@, old(self).order@, self.slots@, n, idx);
            self.order@ = old(self).order@.insert(n, idx);
            assert(old(self)@.insert(n, obj) =~= old(self)@.push(obj));
        }
    }

    /// Puts `obj` at position `idx`, counted from zero, before the element
    /// that stood there; a position beyond the end is refused.
    pub fn insert_at_ith(&mut self, obj: T, idx: usize) -> (res: Result<(), ListError>)
        requires
            old(self).wf(),
        ensures
            final(self).wf(),
            idx <= old(self)@.len() ==> res is Ok && final(self)@ == inserted_at(
                old(self)@,
                idx as int,
                obj,
            ),
            idx > old(self)@.len() ==> res == Err::<(), ListError>(ListError::OutOfRange)
                && *final(self) == *old(self),
    {
        if idx > self.length {
            return Err(ListError::OutOfRange);
        }
        if idx == 0 || self.head.is_none() {
            self.insert_at_head(obj);
            proof {
                lemma_insert_at_ends(old(self)@, obj);
            }
            return Ok(());
        }
        if idx == self.length {
            self.insert_at_tail(obj);
            proof {
                lemma_insert_at_ends(old(self)@, obj);
            }
            return Ok(());
        }
        let mut cur = self.head.unwrap();
        let mut i: usize = 0;
        while i < idx - 1
            invariant
                self.wf(),
                0 < idx < self.length,
                i <= idx - 1,
                cur == self.order@[i as int],
            decreases idx - i,
        {
            cur = next_of(&self.slots, cur).unwrap();
            i += 1;
        }
        let mut node = Node::new(obj);
        node.nxt = next_of(&self.slots, cur);
        let new_idx = occupy(&mut self.slots, &mut self.free, node);
        set_next(&mut self.slots, cur, Some(new_idx));
        self.length += 1;
        proof {
            lemma_splice_in(old(self).slots@, old(self).order@, self.slots@, idx as int, new_idx);
            self.order@ = old(self).order@.insert(idx as int, new_idx);
        }
        Ok(())
    }

    /// Removes the first element; an empty list is refused.
    pub fn delete_head(&mut self) -> (res: Result<(), ListError>)
        requires
            old(self).wf(),
        ensures
            final(self).wf(),
            old(self)@.len() > 0 ==> res is Ok && final(self)@ == head_deleted(old(self)@),
            old(self)@.len() == 0 ==> res == Err::<(), ListError>(ListError::EmptyList)
                && *final(self) == *old(self),
    {
        match self.head {
            None => Err(ListError::EmptyList),
            Some(head_idx) => {
                let node = vacate(&mut self.slots, &mut self.free, head_idx);
                if node.nxt.is_none() {
                    self.tail = None;
                }
                self.head = node.nxt;
                self.length -= 1;
                proof {
                    lemma_splice_out(old(self).slots@, old(self).order@, self.slots@, 0);
                    self.order@ = old(self).order@.remove(0);
                    assert(old(self)@.remove(0) =~= old(self)@.drop_first());
                }
                Ok(())
            },
        }
    }

    /// Removes the last element, which is found by walking from the head;
    /// an empty list is refused.
    pub fn delete_tail(&mut self) -> (res: Result<(), ListError>)
        requires
            old(self).wf(),
        ensures
            final(self).wf(),
            old(self)@.len() > 0 ==> res is Ok && final(self)@ == tail_deleted(old(self)@),
            old(self)@.len() == 0 ==> res == Err::<(), ListError>(ListError::EmptyList)
                && *final(self) == *old(self),
    {
        match self.head {
            None => Err(ListError::EmptyList),
            Some(head_idx) => {
                let ghost last = self.order@.len() - 1;
                if next_of(&self.slots, head_idx).is_none() {
                    vacate(&mut self.slots, &mut self.free, head_idx);
                    self.head = None;
                    self.tail = None;
                } else {
                    let mut cur = head_idx;
                    let mut i: usize = 0;
                    while i < self.length - 2
                        invariant
                            self.wf(),
                            2 <= self.length,
                            i <= self.length - 2,
                            cur == self.order@[i as int],
                        decreases self.length - i,
                    {
                        cur = next_of(&self.slots, cur).unwrap();
                        i += 1;
                    }
                    let old_tail = next_of(&self.slots, cur).unwrap();
                    vacate(&mut self.slots, &mut self.free, old_tail);
                    set_next(&mut self.slots, cur, None);
                    self.tail = Some(cur);
                }
                self.length -= 1;
                proof {
                    lemma_splice_out(old(self).slots@, old(self).order@, self.slots@, last);
                    self.order@ = old(self).order@.remove(last);
                    assert(old(self)@.remove(last) =~= old(self)@.drop_last());
                }
                Ok(())
            },
        }
    }
}

/// The values met on the way from `cur` along the links, until the chain
/// ends or `fuel` nodes have been passed.
spec fn forward<T>(slots: Seq<Option<Node<T>>>, cur: Option<usize>, fuel: nat) -> Seq<T>
    decreases fuel,
{
    if fuel > 0 && cur is Some && cur.unwrap() < slots.len() && slots[cur.unwrap() as int] is Some {
        let node = slots[cur.unwrap() as int].unwrap();
        seq![node.val] + forward(slots, node.nxt, (fuel - 1) as nat)
    } else {
        Seq::empty()
    }
}

/// In a linked chain the walk from position `i` meets the values from `i`
/// on and then ends, whatever fuel is left.
proof fn lemma_forward<T>(slots: Seq<Option<Node<T>>>, order: Seq<usize>, i: int, fuel: nat)
    requires
        linked(slots, order),
        0 <= i <= order.len(),
        fuel >= order.len() - i,
    ensures
        forward(slots, slot_at(order, i), fuel) == values(slots, order).subrange(
            i,
            order.len() as int,
        ),
    decreases order.len() - i,
{
    let rest = values(slots, order).subrange(i, order.len() as int);
    if i < order.len() {
        let node = slots[order[i] as int].unwrap();
        lemma_forward(slots, order, i + 1, (fuel - 1) as nat);
        assert(rest =~= seq![node.val] + values(slots, order).subrange(
            i + 1,
            order.len() as int,
        ));
    } else {
        assert(rest =~= Seq::<T>::empty());
    }
}

impl<T> LinkedList<T> {
    /// The values met by following the links from the head, until the chain
    /// ends or `fuel` nodes have been passed.
    pub closed spec fn traversal(&self, fuel: nat) -> Seq<T> {
        forward(self.slots@, self.head, fuel)
    }

    /// Following the links from the head meets exactly the list's elements,
    /// in order, and then the chain ends: the length counts what can be
    /// reached.
    pub proof fn lemma_traversal(&self, fuel: nat)
        requires
            self.wf(),
            fuel >= self@.len(),
        ensures
            self.traversal(fuel) == self@,
            self.traversal(fuel).len() == self@.len(),
    {
        lemma_forward(self.slots@, self.order@, 0, fuel);
        assert(self@.subrange(0, self.order@.len() as int) =~= self@);
    }
}

impl<T: std::fmt::Display> LinkedList<T> {
    /// The elements' string forms from head to tail, joined by `" -> "`;
    /// the empty string for an empty list.
    pub fn render(&self) -> (out: String)
        requires
            self.wf(),
        ensures
            renders_as(self@, out@),
            self@.len() == 0 ==> out@ == Seq::<char>::empty(),
    {
        let mut texts: Vec<String> = Vec::new();
        let mut cur = self.head;
        let ghost mut i: int = 0;
        while cur.is_some()
            invariant
                self.wf(),
                0 <= i <= self.order@.len(),
                cur == slot_at(self.order@, i),
                displays(self@.take(i), texts@),
            decreases self.order@.len() - i,
        {
            let idx = cur.unwrap();
            let ghost before = texts@;
            let node = self.slots[idx].as_ref().unwrap();
            texts.push(node.val.to_string());
            cur = node.nxt;
            proof {
                assert(self@.take(i + 1)[i] == self@[i]);
                assert forall|j: int| 0 <= j < i + 1 implies vstd::string::to_string_from_display_ensures::<T>(
                    &self@.take(i + 1)[j], #[trigger] texts@[j]) by {
                    if j < i {
                        assert(texts@[j] == before[j]);
                        assert(self@.take(i + 1)[j] == self@.take(i)[j]);
                    }
                }
                i = i + 1;
            }
        }
        proof {
            assert(self@.take(i) =~= self@);
        }
        let out = join_texts(&texts);
        proof {
            if self@.len() == 0 {
                lemma_render_small(self@, out@);
            }
        }
        out
    }
}

} // verus!
