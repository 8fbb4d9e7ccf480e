//! A singly linked list of boxed nodes.
use vstd::prelude::*;

verus! {

/// A node of the list.
#[derive(Debug)]
pub struct Node<T> {
    /// The value held by this node.
    pub value: T,
    /// The next node, or `None` for the last node.
    pub next: Option<Box<Node<T>>>,
}

impl<T> Node<T> {
    /// The values from this node to the end of the list.
    pub open spec fn values(self) -> Seq<T>
        decreases self,
    {
        seq![self.value] + match self.next {
            None => Seq::empty(),
            Some(b) => (*b).values(),
        }
    }

    /// A node holding `value`, with no next node.
    pub fn new(value: T) -> (r: Self)
        ensures
            r.value == value,
            r.next is None,
            r.values() == seq![value],
    {
        let r = Self { value, next: None };
        assert(r.values() == seq![value]);
        r
    }

    /// Appends `value` after the last node reachable from this one.
    fn push_last(&mut self, value: T)
        ensures
            final(self).values() == old(self).values().push(value),
        decreases old(self).values().len(),
    {
        let ghost old_values = self.values();
        match self.next.take() {
            None => {
                self.next = Some(Box::new(Node::new(value)));
                assert(self.values() == seq![self.value] + seq![value]);
                assert(old_values == seq![self.value]);
            },
            Some(mut b) => {
                assert(old_values == seq![self.value] + b.values());
                (&mut *b).push_last(value);
                self.next = Some(b);
                assert(self.values() == seq![self.value] + b.values());
            },
        }
    }

    /// Removes the last node reachable from this one, which must not be this node, and returns
    /// its value.
    fn pop_last(&mut self) -> (r: T)
        requires
            old(self).next is Some,
        ensures
            old(self).values().len() >= 2,
            r == old(self).values().last(),
            final(self).values() == old(self).values().drop_last(),
        decreases old(self).values().len(),
    {
        let ghost old_values = self.values();
        let mut b = self.next.take().unwrap();
        assert(old_values == seq![self.value] + b.values());
        if b.next.is_none() {
            assert(b.values() == seq![b.value]);
            assert(self.values() == seq![self.value]);
            assert(old_values.drop_last() == seq![self.value]);
            b.value
        } else {
            let r = (&mut *b).pop_last();
            self.next = Some(b);
            assert(self.values() == seq![self.value] + b.values());
            assert(old_values.drop_last() == seq![self.value] + old_values.drop_first().drop_last());
            r
        }
    }
}

/// A singly linked list.
#[derive(Debug)]
pub struct SinglyLinkedList<T> {
    head: Option<Node<T>>,
}

/// `z` is what `f` gives for a clone of `x` and for `y`.
pub open spec fn combines<T: Clone, F: Fn(T, T) -> T>(f: F, x: T, y: T, z: T) -> bool {
    exists|a: T| cloned(x, a) && #[trigger] f.ensures((a, y), z)
}

/// The lists' values, one after the other.
pub open spec fn concat_all<T>(lists: Seq<Seq<T>>) -> Seq<T>
    decreases lists.len(),
{
    if lists.len() == 0 {
        Seq::empty()
    } else {
        concat_all(lists.drop_last()) + lists.last()
    }
}

impl<T> SinglyLinkedList<T> {
    /// The values of the list, from front to back.
    pub closed spec fn view(&self) -> Seq<T> {
        match self.head {
            None => Seq::empty(),
            Some(n) => n.values(),
        }
    }

    /// An empty list.
    pub fn new() -> (r: Self)
        ensures
            r.view() == Seq::<T>::empty(),
    {
        Self { head: None }
    }

    /// Adds `value` at the front of the list.
    pub fn push_front(&mut self, value: T)
        ensures
            final(self).view() == seq![value] + old(self).view(),
    {
        let mut node = Node::new(value);
        if let Some(old_head) = self.head.take() {
            node.next = Some(Box::new(old_head));
        }
        self.head = Some(node);
    }

    /// Adds `value` at the back of the list.
    pub fn push_back(&mut self, value: T)
        ensures
            final(self).view() == old(self).view().push(value),
    {
        match self.head.take() {
            None => {
                self.head = Some(Node::new(value));
            },
            Some(mut n) => {
                n.push_last(value);
                self.head = Some(n);
            },
        }
    }

    /// Removes the front value and returns it, or returns `None` for an empty list.
    pub fn pop_front(&mut self) -> (r: Option<T>)
        ensures
            old(self).view().len() == 0 ==> r is None && final(self).view() == old(self).view(),
            old(self).view().len() > 0 ==> r == Some(old(self).view()[0]) && final(self).view()
                == old(self).view().drop_first(),
    {
        match self.head.take() {
            None => None,
            Some(old_head) => {
                assert(old_head.values().drop_first() == match old_head.next {
                    None => Seq::<T>::empty(),
                    Some(b) => (*b).values(),
                });
                if let Some(next_node) = old_head.next {
                    self.head = Some(*next_node);
                }
                Some(old_head.value)
            },
        }
    }

    /// Removes the back value and returns it, or returns `None` for an empty list.
    pub fn pop_back(&mut self) -> (r: Option<T>)
        ensures
            old(self).view().len() == 0 ==> r is None && final(self).view() == old(self).view(),
            old(self).view().len() > 0 ==> r == Some(old(self).view().last()) && final(self).view()
                == old(self).view().drop_last(),
    {
        match self.head.take() {
            None => None,
            Some(mut n) => {
                if n.next.is_none() {
                    assert(n.values() == seq![n.value]);
                    Some(n.value)
                } else {
                    let r = n.pop_last();
                    self.head = Some(n);
                    Some(r)
                }
            },
        }
    }

    /// A list holding the values of `vec`, in order.
    pub fn from_vec(vec: Vec<T>) -> (r: Self)
        ensures
            r.view() == vec@,
    {
        let mut vec = vec;
        let ghost all = vec@;
        let mut ll = SinglyLinkedList::new();
        while vec.len() > 0
            invariant
                all == vec@ + ll.view(),
            decreases vec.len(),
        {
            let ghost before = vec@;
            let item = vec.pop().unwrap();
            ll.push_front(item);
            assert(before == vec@.push(item));
            assert(all == vec@ + ll.view());
        }
        assert(vec@ + ll.view() == ll.view());
        ll
    }

    /// The values of the list, in order, in a vector.
    pub fn into_vec(self) -> (r: Vec<T>)
        ensures
            r@ == self.view(),
    {
        let mut v: Vec<T> = Vec::new();
        let mut current: Option<Node<T>> = self.head;
        loop
            invariant
                v@ + match current {
                    None => Seq::<T>::empty(),
                    Some(n) => n.values(),
                } == self.view(),
            decreases match current {
                None => 0,
                Some(n) => n.values().len(),
            },
        {
            match current {
                None => {
                    assert(v@ + Seq::<T>::empty() == v@);
                    return v;
                },
                Some(node) => {
                    let ghost rest = node.values();
                    v.push(node.value);
                    current = match node.next {
                        None => None,
                        Some(b) => Some(*b),
                    };
                    assert(v@ + match current {
                        None => Seq::<T>::empty(),
                        Some(n) => n.values(),
                    } == self.view()) by {
                        assert(rest == seq![node.value] + match current {
                            None => Seq::<T>::empty(),
                            Some(n) => n.values(),
                        });
                    }
                },
            }
        }
    }

    /// The number of values in the list.
    pub fn length(&self) -> (r: usize)
        requires
            self.view().len() <= usize::MAX,
        ensures
            r == self.view().len(),
    {
        let mut length: usize = 0;
        let mut current: Option<&Node<T>> = self.head.as_ref();
        loop
            invariant
                length + match current {
                    None => 0,
                    Some(n) => n.values().len(),
                } == self.view().len(),
                self.view().len() <= usize::MAX,
            decreases match current {
                None => 0,
                Some(n) => n.values().len(),
            },
        {
            match current {
                None => {
                    return length;
                },
                Some(node) => {
                    length = length + 1;
                    current = match &node.next {
                        None => None,
                        Some(b) => Some(&**b),
                    };
                },
            }
        }
    }

    /// The list of `f(x)` for each value `x`, in order.
    pub fn map<F: Fn(T) -> T>(self, f: F) -> (r: Self)
        requires
            forall|x: T| #[trigger] f.requires((x,)),
        ensures
            r.view().len() == self.view().len(),
            forall|i: int| 0 <= i < self.view().len() ==> #[trigger] f.ensures((self.view()[i],), r.view()[i]),
    {
        let mut items = self.into_vec();
        let ghost all = items@;
        let mut out = SinglyLinkedList::new();
        while items.len() > 0
            invariant
                forall|x: T| #[trigger] f.requires((x,)),
                all == self.view(),
                items@ == all.take(items@.len() as int),
                out.view().len() + items@.len() == all.len(),
                forall|i: int|
                    0 <= i < out.view().len() ==> #[trigger] f.ensures(
                        (all[items@.len() + i],),
                        out.view()[i],
                    ),
            decreases items.len(),
        {
            let ghost before = out.view();
            let ghost k = items@.len() - 1;
            let item = items.pop().unwrap();
            assert(item == all[k]);
            let y = f(item);
            out.push_front(y);
            assert forall|i: int| 0 <= i < out.view().len() implies #[trigger] f.ensures(
                (all[items@.len() + i],),
                out.view()[i],
            ) by {
                if i > 0 {
                    assert(out.view()[i] == before[i - 1]);
                    assert(f.ensures((all[(k + 1) + (i - 1)],), before[i - 1]));
                    assert(k + 1 + (i - 1) == items@.len() + i);
                } else {
                    assert(out.view()[0] == y);
                }
            }
        }
        assert forall|i: int| 0 <= i < self.view().len() implies #[trigger] f.ensures(
            (self.view()[i],),
            out.view()[i],
        ) by {
            assert(f.ensures((all[items@.len() + i],), out.view()[i]));
            assert(items@.len() + i == i);
        }
        out
    }

    /// The list of `f(x, y)` for each pair of adjacent values `x`, `y`, in order; empty when the
    /// list has fewer than two values. Each `x` is a clone of the value in the list.
    pub fn pair_map<F: Fn(T, T) -> T>(self, f: F) -> (r: Self) where T: Clone
        requires
            forall|x: T, y: T| #[trigger] f.requires((x, y)),
        ensures
            r.view().len() == if self.view().len() < 2 {
                0
            } else {
                self.view().len() - 1
            },
            forall|i: int|
                0 <= i < r.view().len() ==> #[trigger] combines(
                    f,
                    self.view()[i],
                    self.view()[i + 1],
                    r.view()[i],
                ),
    {
        let mut seconds = self.into_vec();
        let ghost all = seconds@;
        let mut firsts = seconds.clone();
        let mut out = SinglyLinkedList::new();
        if firsts.len() < 2 {
            return out;
        }
        firsts.pop();
        assert(seconds@ == all.take(firsts@.len() as int + 1));
        while firsts.len() > 0
            invariant
                forall|x: T, y: T| #[trigger] f.requires((x, y)),
                all == self.view(),
                all.len() >= 2,
                seconds@ == all.take(firsts@.len() as int + 1),
                firsts@.len() + 1 <= all.len(),
                forall|i: int| 0 <= i < firsts@.len() ==> cloned(all[i], #[trigger] firsts@[i]),
                out.view().len() + firsts@.len() + 1 == all.len(),
                forall|i: int|
                    firsts@.len() <= i < all.len() - 1 ==> #[trigger] combines(
                        f,
                        all[i],
                        all[i + 1],
                        out.view()[i - firsts@.len()],
                    ),
            decreases firsts.len(),
        {
            let ghost before = out.view();
            let ghost k = firsts@.len() - 1;
            let x = firsts.pop().unwrap();
            let y = seconds.pop().unwrap();
            assert(cloned(all[k], x));
            assert(y == all[k + 1]);
            let z = f(x, y);
            out.push_front(z);
            assert forall|i: int|
                firsts@.len() <= i < all.len() - 1 implies #[trigger] combines(
                f,
                all[i],
                all[i + 1],
                out.view()[i - firsts@.len()],
            ) by {
                if i == k {
                    assert(out.view()[0] == z);
                    assert(f.ensures((x, all[i + 1]), z));
                } else {
                    assert(out.view()[i - firsts@.len()] == before[i - (k + 1)]);
                    assert(combines(f, all[i], all[i + 1], before[i - (k + 1)]));
                }
            }
        }
        assert forall|i: int| 0 <= i < out.view().len() implies #[trigger] combines(
            f,
            self.view()[i],
            self.view()[i + 1],
            out.view()[i],
        ) by {
            assert(combines(f, all[i], all[i + 1], out.view()[i - firsts@.len()]));
        }
        out
    }
}

impl<T> Default for SinglyLinkedList<T> {
    fn default() -> (r: Self)
        ensures
            r.view() == Seq::<T>::empty(),
    {
        Self::new()
    }
}

impl<T> SinglyLinkedList<SinglyLinkedList<T>> {
    /// The views of the inner lists.
    pub open spec fn inner_views(&self) -> Seq<Seq<T>> {
        self.view().map_values(|l: SinglyLinkedList<T>| l.view())
    }

    /// The values of the inner lists, one list after the other, in one list.
    pub fn flatten(self) -> (r: SinglyLinkedList<T>)
        ensures
            r.view() == concat_all(self.inner_views()),
    {
        let mut lists = self.into_vec();
        let ghost all = lists@.map_values(|l: SinglyLinkedList<T>| l.view());
        assert(all == self.inner_views());
        let mut out = SinglyLinkedList::new();
        assert(all.take(lists@.len() as int) == all);
        assert(concat_all(all) + out.view() == concat_all(all));
        while lists.len() > 0
            invariant
                all == self.inner_views(),
                lists@.len() <= all.len(),
                forall|i: int| 0 <= i < lists@.len() ==> #[trigger] lists@[i].view() == all[i],
                concat_all(all.take(lists@.len() as int)) + out.view() == concat_all(all),
            decreases lists.len(),
        {
            let ghost k = lists@.len() - 1;
            let inner = lists.pop().unwrap();
            assert(inner.view() == all[k]);
            let mut items = inner.into_vec();
            assert(all.take(k + 1).drop_last() == all.take(k));
            assert(concat_all(all.take(k + 1)) == concat_all(all.take(k)) + all[k]);
            let ghost base = out.view();
            while items.len() > 0
                invariant
                    concat_all(all.take(k)) + items@ + out.view() == concat_all(all),
                decreases items.len(),
            {
                let ghost before = items@;
                let ghost ob = out.view();
                let x = items.pop().unwrap();
                out.push_front(x);
                assert(before == items@.push(x));
                assert(concat_all(all.take(k)) + items@ + out.view() == concat_all(all.take(k)) + before
                    + ob);
            }
            assert(concat_all(all.take(k)) + items@ == concat_all(all.take(k)));
        }
        assert(all.take(0) == Seq::<Seq<T>>::empty());
        out
    }
}


/// Pushing a value at either end and popping it at the same end gives the value back and
/// leaves the list as it was; and `into_vec` after `from_vec` gives the vector back.
pub proof fn lemma_push_pop<T>(l: Seq<T>, x: T)
    ensures
        (seq![x] + l).len() > 0,
        (seq![x] + l)[0] == x,
        (seq![x] + l).drop_first() == l,
        l.push(x).last() == x,
        l.push(x).drop_last() == l,
{
    assert((seq![x] + l).drop_first() == l);
}

} // verus!
