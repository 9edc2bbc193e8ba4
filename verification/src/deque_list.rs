//! A doubly-ended list with a cursor, the substrate the free list is
//! threaded through.
//!
//! The list owns its elements and is viewed as the sequence of them, front
//! to back.  A cursor is a position in that sequence: either over an
//! element (a logical index) or at a "ghost" position before the front and
//! after the back, between which `move_next` and `move_prev` wrap.  The
//! cursor holds no borrow of the list; every cursor operation takes the
//! list it walks as an argument, and is meaningful only while the list is
//! not reshaped behind the cursor's back.

use vstd::prelude::*;
use vstd::pervasive::VecAdditionalExecFns;

verus! {

/// One list element together with its (here: implicit) links.
pub struct Node<T> {
    elem: T,
}

impl<T> View for Node<T> {
    type V = T;

    closed spec fn view(&self) -> T {
        self.elem
    }
}

impl<T> Node<T> {
    pub fn new(elem: T) -> (n: Self)
        ensures
            n@ == elem,
    {
        Self { elem }
    }

    pub fn elem(&self) -> (r: &T)
        ensures
            *r == self@,
    {
        &self.elem
    }

    pub fn elem_mut(&mut self) -> (r: &mut T)
        ensures
            *r == old(self)@,
            final(self)@ == *final(r),
    {
        &mut self.elem
    }
}

/// The list itself, viewed as the sequence of its elements.
pub struct LinkedDeque<T> {
    items: Vec<T>,
}

impl<T> View for LinkedDeque<T> {
    type V = Seq<T>;

    closed spec fn view(&self) -> Seq<T> {
        self.items@
    }
}

impl<T> Default for LinkedDeque<T> {
    fn default() -> (r: Self)
        ensures
            r@ == Seq::<T>::empty(),
    {
        Self { items: Vec::new() }
    }
}

impl<T> LinkedDeque<T> {
    pub fn push_front(&mut self, new: Node<T>)
        requires
            old(self)@.len() < usize::MAX,
        ensures
            final(self)@ == old(self)@.insert(0, new@),
    {
        let Node { elem } = new;
        self.items.insert(0, elem);
    }

    pub fn push_back(&mut self, new: Node<T>)
        requires
            old(self)@.len() < usize::MAX,
        ensures
            final(self)@ == old(self)@.push(new@),
    {
        let Node { elem } = new;
        self.items.push(elem);
    }

    pub fn pop_front(&mut self) -> (r: Option<Node<T>>)
        ensures
            old(self)@.len() == 0 ==> r is None && final(self)@ == old(self)@,
            old(self)@.len() > 0 ==> (r matches Some(n)
                && n@ == old(self)@[0]
                && final(self)@ == old(self)@.drop_first()),
    {
        if self.items.len() == 0 {
            None
        } else {
            let elem = self.items.remove(0);
            assert(final(self)@ =~= old(self)@.drop_first());
            Some(Node { elem })
        }
    }

    pub fn pop_back(&mut self) -> (r: Option<Node<T>>)
        ensures
            old(self)@.len() == 0 ==> r is None && final(self)@ == old(self)@,
            old(self)@.len() > 0 ==> (r matches Some(n)
                && n@ == old(self)@.last()
                && final(self)@ == old(self)@.drop_last()),
    {
        match self.items.pop() {
            None => None,
            Some(elem) => Some(Node { elem }),
        }
    }

    /// A cursor starting at the ghost position.
    pub fn cursor_mut(&self) -> (c: CursorMut)
        ensures
            c.index is None,
    {
        CursorMut { index: None }
    }

    pub fn len(&self) -> (r: usize)
        ensures
            r == self@.len(),
    {
        self.items.len()
    }

    pub fn empty(&self) -> (r: bool)
        ensures
            r == (self@.len() == 0),
    {
        self.items.len() == 0
    }
}

/// Where a cursor stands after one step towards the back.
pub open spec fn index_after_next(idx: Option<usize>, len: nat) -> Option<usize> {
    match idx {
        None => if len > 0 { Some(0usize) } else { None },
        Some(i) => if i + 1 < len { Some((i + 1) as usize) } else { None },
    }
}

/// Where a cursor stands after one step towards the front.
pub open spec fn index_after_prev(idx: Option<usize>, len: nat) -> Option<usize> {
    match idx {
        None => if len > 0 { Some((len - 1) as usize) } else { None },
        Some(i) => if i > 0 { Some((i - 1) as usize) } else { None },
    }
}

/// The element a `peek_next` looks at: the next one, wrapping from the
/// back (and from the ghost position) around to the front.
pub open spec fn peek_next_index(idx: Option<usize>, len: nat) -> Option<usize> {
    if len == 0 {
        None
    } else {
        match idx {
            None => Some(0usize),
            Some(i) => if i + 1 < len { Some((i + 1) as usize) } else { Some(0usize) },
        }
    }
}

/// The element a `peek_previous` looks at: the previous one, wrapping from
/// the front (and from the ghost position) around to the back.
pub open spec fn peek_prev_index(idx: Option<usize>, len: nat) -> Option<usize> {
    if len == 0 {
        None
    } else {
        match idx {
            None => Some((len - 1) as usize),
            Some(i) => if i > 0 { Some((i - 1) as usize) } else { Some((len - 1) as usize) },
        }
    }
}

/// A position in a list: `None` is the ghost position, `Some(i)` the
/// element with logical index `i`.
pub struct CursorMut {
    pub index: Option<usize>,
}

impl CursorMut {
    /// The cursor points inside a list of length `len`.
    pub open spec fn valid(self, len: nat) -> bool {
        match self.index {
            None => true,
            Some(i) => i < len,
        }
    }

    pub fn index(&self) -> (r: Option<usize>)
        ensures
            r == self.index,
    {
        self.index
    }

    pub fn move_next<T>(&mut self, list: &LinkedDeque<T>)
        requires
            old(self).valid(list@.len()),
        ensures
            final(self).index == index_after_next(old(self).index, list@.len()),
            final(self).valid(list@.len()),
    {
        self.index = match self.index {
            None => {
                if list.len() > 0 {
                    Some(0)
                } else {
                    None
                }
            },
            Some(i) => {
                let n = list.len();
                if i + 1 < n {
                    Some(i + 1)
                } else {
                    None
                }
            },
        };
    }

    pub fn move_prev<T>(&mut self, list: &LinkedDeque<T>)
        requires
            old(self).valid(list@.len()),
        ensures
            final(self).index == index_after_prev(old(self).index, list@.len()),
            final(self).valid(list@.len()),
    {
        self.index = match self.index {
            None => {
                if list.len() > 0 {
                    Some(list.len() - 1)
                } else {
                    None
                }
            },
            Some(i) => {
                if i > 0 {
                    Some(i - 1)
                } else {
                    None
                }
            },
        };
    }

    /// The element under the cursor, or none at the ghost position.
    pub fn current<'a, T>(&self, list: &'a LinkedDeque<T>) -> (r: Option<&'a T>)
        requires
            self.valid(list@.len()),
        ensures
            self.index is None ==> r is None,
            self.index matches Some(i) ==> (r matches Some(v) && *v == list@[i as int]),
    {
        match self.index {
            None => None,
            Some(i) => Some(&list.items[i]),
        }
    }

    /// Replaces the element under the cursor.
    pub fn set_current<T>(&self, list: &mut LinkedDeque<T>, v: T)
        requires
            self.valid(old(list)@.len()),
            self.index is Some,
        ensures
            final(list)@ == old(list)@.update(self.index->Some_0 as int, v),
    {
        match self.index {
            None => {
                proof { assert(false); }
            },
            Some(i) => {
                list.items.set(i, v);
            },
        }
    }

    pub fn peek_next<'a, T>(&self, list: &'a LinkedDeque<T>) -> (r: Option<&'a T>)
        requires
            self.valid(list@.len()),
        ensures
            peek_next_index(self.index, list@.len()) is None ==> r is None,
            peek_next_index(self.index, list@.len()) matches Some(i)
                ==> (r matches Some(v) && *v == list@[i as int]),
    {
        if list.items.len() == 0 {
            return None;
        }
        match self.index {
            None => Some(&list.items[0]),
            Some(i) => {
                if i + 1 < list.items.len() {
                    Some(&list.items[i + 1])
                } else {
                    Some(&list.items[0])
                }
            },
        }
    }

    pub fn peek_previous<'a, T>(&self, list: &'a LinkedDeque<T>) -> (r: Option<&'a T>)
        requires
            self.valid(list@.len()),
        ensures
            peek_prev_index(self.index, list@.len()) is None ==> r is None,
            peek_prev_index(self.index, list@.len()) matches Some(i)
                ==> (r matches Some(v) && *v == list@[i as int]),
    {
        if list.items.len() == 0 {
            return None;
        }
        match self.index {
            None => Some(&list.items[list.items.len() - 1]),
            Some(i) => {
                if i > 0 {
                    Some(&list.items[i - 1])
                } else {
                    Some(&list.items[list.items.len() - 1])
                }
            },
        }
    }

    /// Detaches everything before the cursor; the list keeps the cursor's
    /// element and what follows it.
    pub fn split_before<T>(&mut self, list: &mut LinkedDeque<T>) -> (r: LinkedDeque<T>)
        requires
            old(self).valid(old(list)@.len()),
        ensures
            match old(self).index {
                Some(i) => {
                    &&& r@ == old(list)@.subrange(0, i as int)
                    &&& final(list)@ == old(list)@.subrange(i as int, old(list)@.len() as int)
                    &&& final(self).index == Some(0usize)
                },
                None => {
                    &&& r@ == old(list)@
                    &&& final(list)@.len() == 0
                    &&& final(self).index is None
                },
            },
    {
        match self.index {
            Some(i) => {
                let tail = list.items.split_off(i);
                let mut head = LinkedDeque { items: tail };
                core::mem::swap(&mut list.items, &mut head.items);
                self.index = Some(0);
                head
            },
            None => {
                let mut out = LinkedDeque { items: Vec::new() };
                core::mem::swap(&mut list.items, &mut out.items);
                out
            },
        }
    }

    /// Detaches everything after the cursor; the list keeps the cursor's
    /// element and what precedes it.
    pub fn split_after<T>(&mut self, list: &mut LinkedDeque<T>) -> (r: LinkedDeque<T>)
        requires
            old(self).valid(old(list)@.len()),
        ensures
            match old(self).index {
                Some(i) => {
                    &&& r@ == old(list)@.subrange(i + 1, old(list)@.len() as int)
                    &&& final(list)@ == old(list)@.subrange(0, i + 1)
                    &&& final(self).index == Some(i)
                },
                None => {
                    &&& r@ == old(list)@
                    &&& final(list)@.len() == 0
                    &&& final(self).index is None
                },
            },
    {
        match self.index {
            Some(i) => {
                let n = list.items.len();
                assert(i < n);
                let tail = list.items.split_off(i + 1);
                LinkedDeque { items: tail }
            },
            None => {
                let mut out = LinkedDeque { items: Vec::new() };
                core::mem::swap(&mut list.items, &mut out.items);
                out
            },
        }
    }

    /// Unlinks the element under the cursor and hands it back; the cursor
    /// advances to what followed it.  At the ghost position nothing is
    /// removed and the cursor steps onto the front.
    pub fn remove<T>(&mut self, list: &mut LinkedDeque<T>) -> (r: Option<Node<T>>)
        requires
            old(self).valid(old(list)@.len()),
        ensures
            match old(self).index {
                None => {
                    &&& r is None
                    &&& final(list)@ == old(list)@
                    &&& final(self).index == index_after_next(None, old(list)@.len())
                },
                Some(i) => {
                    &&& r matches Some(n) && n@ == old(list)@[i as int]
                    &&& final(list)@ == old(list)@.remove(i as int)
                    &&& final(self).index == (if i + 1 < old(list)@.len() {
                        Some(i)
                    } else {
                        None::<usize>
                    })
                },
            },
            final(self).valid(final(list)@.len()),
    {
        match self.index {
            None => {
                if list.items.len() > 0 {
                    self.index = Some(0);
                }
                None
            },
            Some(i) => {
                let elem = list.items.remove(i);
                if i >= list.items.len() {
                    self.index = None;
                }
                Some(Node { elem })
            },
        }
    }

    /// Splices a node in immediately before the cursor's element; at the
    /// ghost position the node becomes the new front and the cursor moves
    /// onto it.
    pub fn insert_before<T>(&mut self, list: &mut LinkedDeque<T>, node: Node<T>)
        requires
            old(self).valid(old(list)@.len()),
            old(list)@.len() < usize::MAX,
        ensures
            match old(self).index {
                Some(i) => {
                    &&& final(list)@ == old(list)@.insert(i as int, node@)
                    &&& final(self).index == Some((i + 1) as usize)
                },
                None => {
                    &&& final(list)@ == old(list)@.insert(0, node@)
                    &&& final(self).index == Some(0usize)
                },
            },
            final(self).valid(final(list)@.len()),
    {
        let Node { elem } = node;
        match self.index {
            Some(i) => {
                list.items.insert(i, elem);
                self.index = Some(i + 1);
            },
            None => {
                list.items.insert(0, elem);
                self.index = Some(0);
            },
        }
    }
}

} // verus!
