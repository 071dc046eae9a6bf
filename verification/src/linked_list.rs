use vstd::prelude::*;

verus! {

/// The links of one node: the positions of its neighbours in the node arena.
#[derive(Clone, Copy)]
struct Link {
    prev: Option<usize>,
    next: Option<usize>,
}

/// A doubly linked list.
///
/// Nodes live in an arena: `values[i]` is the value of node `i` and `links[i]`
/// its links. `head` and `tail` name the first and the last node.
pub struct LinkedList<T> {
    values: std::vec::Vec<T>,
    links: std::vec::Vec<Link>,
    head: Option<usize>,
    tail: Option<usize>,
    len: usize,
}

/// The node before node `i`, if any.
spec fn prev_of(i: int) -> Option<usize> {
    if i == 0 { None } else { Some((i - 1) as usize) }
}

/// The node after node `i` in a list of `n` nodes, if any.
spec fn next_of(i: int, n: int) -> Option<usize> {
    if i + 1 == n { None } else { Some((i + 1) as usize) }
}

/// The first node of a list of `n` nodes, if any.
spec fn first_of(n: int) -> Option<usize> {
    if n == 0 { None } else { Some(0usize) }
}

/// The last node of a list of `n` nodes, if any.
spec fn last_of(n: int) -> Option<usize> {
    if n == 0 { None } else { Some((n - 1) as usize) }
}

impl<T> View for LinkedList<T> {
    type V = Seq<T>;

    /// The values from head to tail.
    closed spec fn view(&self) -> Seq<T> {
        self.values@
    }
}

impl<T> LinkedList<T> {
    /// Every node is linked to its neighbours, and `head`, `tail` and `len`
    /// agree with the nodes.
    pub closed spec fn wf(&self) -> bool {
        &&& self.values@.len() == self.len
        &&& self.links@.len() == self.len
        &&& self.head == first_of(self.len as int)
        &&& self.tail == last_of(self.len as int)
        &&& forall|i: int|
            0 <= i < self.len ==> {
                &&& (#[trigger] self.links@[i]).prev == prev_of(i)
                &&& self.links@[i].next == next_of(i, self.len as int)
            }
    }

    /// An empty list.
    pub fn new() -> (l: Self)
        ensures
            l.wf(),
            l@ == Seq::<T>::empty(),
    {
        LinkedList {
            values: std::vec::Vec::new(),
            links: std::vec::Vec::new(),
            head: None,
            tail: None,
            len: 0,
        }
    }

    /// Appends `value` after the tail.
    pub fn push_back(&mut self, value: T)
        requires
            old(self).wf(),
            old(self)@.len() < usize::MAX,
        ensures
            final(self).wf(),
            final(self)@ == old(self)@.push(value),
    {
        let new_node = self.values.len();
        self.values.push(value);
        self.links.push(Link { prev: self.tail, next: None });
        self.push_back_node(new_node);
    }

    /// Appends `value` after the tail and hands back a mutable reference to it.
    pub fn push_back_mut(&mut self, value: T) -> (r: &mut T)
        requires
            old(self).wf(),
            old(self)@.len() < usize::MAX,
        ensures
            *r == value,
            final(self).wf(),
            final(self)@ == old(self)@.push(*final(r)),
    {
        let new_node = self.values.len();
        self.values.push(value);
        self.links.push(Link { prev: self.tail, next: None });
        self.push_back_node(new_node);
        &mut self.values[new_node]
    }

    /// Links the node just stored at position `new_node` in after the tail.
    fn push_back_node(&mut self, new_node: usize)
        requires
            old(self).len < usize::MAX,
            new_node == old(self).len,
            old(self).values@.len() == old(self).len + 1,
            old(self).links@.len() == old(self).len + 1,
            old(self).links@[new_node as int] == (Link { prev: old(self).tail, next: None }),
            old(self).head == first_of(old(self).len as int),
            old(self).tail == last_of(old(self).len as int),
            forall|i: int|
                0 <= i < old(self).len ==> {
                    &&& (#[trigger] old(self).links@[i]).prev == prev_of(i)
                    &&& old(self).links@[i].next == next_of(i, old(self).len as int)
                },
        ensures
            final(self).wf(),
            final(self).values@ == old(self).values@,
    {
        match self.tail {
            Some(tail) => {
                let link = self.links[tail];
                self.links.set(tail, Link { prev: link.prev, next: Some(new_node) });
            },
            None => {
                self.head = Some(new_node);
            },
        }
        self.tail = Some(new_node);
        self.len = self.len + 1;
        assert forall|i: int| 0 <= i < self.len implies {
            &&& (#[trigger] self.links@[i]).prev == prev_of(i)
            &&& self.links@[i].next == next_of(i, self.len as int)
        } by {
            if i + 1 < self.len {
                assert(old(self).links@[i].prev == prev_of(i));
            }
        }
    }

    /// Removes the tail and returns its value, or `None` when empty.
    pub fn pop_back(&mut self) -> (r: Option<T>)
        requires
            old(self).wf(),
        ensures
            final(self).wf(),
            old(self)@.len() == 0 ==> r is None && final(self)@ == old(self)@,
            old(self)@.len() > 0 ==> r == Some(old(self)@.last()) && final(self)@
                == old(self)@.drop_last(),
    {
        match self.tail {
            Some(tail) => {
                let link = self.links[tail];
                let value = self.values.pop();
                self.links.pop();
                self.tail = link.prev;
                match link.prev {
                    Some(prev) => {
                        let before = self.links[prev];
                        self.links.set(prev, Link { prev: before.prev, next: None });
                    },
                    None => {
                        self.head = None;
                    },
                }
                self.len = self.len - 1;
                assert forall|i: int| 0 <= i < self.len implies {
                    &&& (#[trigger] self.links@[i]).prev == prev_of(i)
                    &&& self.links@[i].next == next_of(i, self.len as int)
                } by {
                    assert(old(self).links@[i].prev == prev_of(i));
                }
                value
            },
            None => None,
        }
    }

    /// The number of values in the list.
    pub fn len(&self) -> (n: usize)
        requires
            self.wf(),
        ensures
            n == self@.len(),
    {
        self.len
    }
}


/// Popping the tail right after pushing a value gives back that value and
/// leaves the list holding what it held before the push.
pub proof fn law_push_back_then_pop_back<T>(
    before: &LinkedList<T>,
    pushed: &LinkedList<T>,
    popped: &LinkedList<T>,
    value: T,
    result: Option<T>,
)
    requires
        before.wf(),
        pushed@ == before@.push(value),
        pushed@.len() > 0 ==> result == Some(pushed@.last()) && popped@ == pushed@.drop_last(),
    ensures
        result == Some(value),
        popped@ == before@,
        popped@.len() == before@.len(),
{
    assert(before@.push(value).drop_last() =~= before@);
}

/// The values a list holds after a history of operations, starting empty:
/// `Some(v)` pushes `v` at the tail, `None` pops the tail when there is one.
pub open spec fn replay<T>(ops: Seq<Option<T>>) -> Seq<T>
    decreases ops.len(),
{
    if ops.len() == 0 {
        Seq::empty()
    } else {
        let before = replay(ops.drop_last());
        match ops.last() {
            Some(v) => before.push(v),
            None => if before.len() > 0 {
                before.drop_last()
            } else {
                before
            },
        }
    }
}

/// How many pushes a history holds.
pub open spec fn push_count<T>(ops: Seq<Option<T>>) -> nat
    decreases ops.len(),
{
    if ops.len() == 0 {
        0
    } else {
        push_count(ops.drop_last()) + (if ops.last() is Some {
            1nat
        } else {
            0nat
        })
    }
}

/// How many pops of a history found a value to return.
pub open spec fn pop_count<T>(ops: Seq<Option<T>>) -> nat
    decreases ops.len(),
{
    if ops.len() == 0 {
        0
    } else {
        pop_count(ops.drop_last()) + (if ops.last() is None && replay(ops.drop_last()).len() > 0 {
            1nat
        } else {
            0nat
        })
    }
}

/// After any history of pushes and pops from an empty list, the length is
/// the number of pushes less the number of pops that returned a value.
pub proof fn law_len_over_history<T>(ops: Seq<Option<T>>)
    ensures
        replay(ops).len() + pop_count(ops) == push_count(ops),
    decreases ops.len(),
{
    if ops.len() > 0 {
        law_len_over_history(ops.drop_last());
    }
}

/// Whether one call takes a list holding `before` to one holding `after`, as
/// the contracts of `push_back`, `push_back_mut` and `pop_back` say: `Some(v)`
/// is a push that leaves `v` at the tail, `None` a pop that returned `result`.
pub open spec fn list_step<T>(before: Seq<T>, after: Seq<T>, op: Option<T>, result: Option<T>) -> bool {
    match op {
        Some(v) => after == before.push(v),
        None => {
            &&& before.len() == 0 ==> result is None && after == before
            &&& before.len() > 0 ==> result == Some(before.last()) && after == before.drop_last()
        },
    }
}

/// How many pops of a history returned a value, by what they returned.
pub open spec fn returned_count<T>(ops: Seq<Option<T>>, results: Seq<Option<T>>) -> nat
    decreases ops.len(),
{
    if ops.len() == 0 {
        0
    } else {
        returned_count(ops.drop_last(), results.drop_last()) + (if ops.last() is None
            && results[ops.len() - 1] is Some {
            1nat
        } else {
            0nat
        })
    }
}

/// A list built from `new()` by calls of `push_back`, `push_back_mut` and
/// `pop_back`, in any order, holds what the history replays to, and its
/// length is the number of pushes less the number of pops that returned a
/// value: `states[i]` is the list before call `i`, `ops[i]` and `results[i]`
/// what that call pushed or returned.
pub proof fn law_len_over_calls<T>(
    states: Seq<LinkedList<T>>,
    ops: Seq<Option<T>>,
    results: Seq<Option<T>>,
)
    requires
        states.len() == ops.len() + 1,
        results.len() == ops.len(),
        states[0]@ == Seq::<T>::empty(),
        forall|i: int|
            0 <= i < ops.len() ==> #[trigger] list_step(states[i]@, states[i + 1]@, ops[i], results[i]),
    ensures
        states.last()@ == replay(ops),
        states.last()@.len() + returned_count(ops, results) == push_count(ops),
        returned_count(ops, results) == pop_count(ops),
    decreases ops.len(),
{
    if ops.len() > 0 {
        let n = ops.len() - 1;
        let pre_states = states.drop_last();
        let pre_ops = ops.drop_last();
        let pre_results = results.drop_last();
        assert forall|i: int| 0 <= i < pre_ops.len() implies #[trigger] list_step(
            pre_states[i]@,
            pre_states[i + 1]@,
            pre_ops[i],
            pre_results[i],
        ) by {
            assert(list_step(states[i]@, states[i + 1]@, ops[i], results[i]));
        }
        law_len_over_calls(pre_states, pre_ops, pre_results);
        assert(list_step(states[n]@, states[n + 1]@, ops[n], results[n]));
        assert(pre_states.last() == states[n]);
        law_len_over_history(ops);
    }
}

} // verus!
