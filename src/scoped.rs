//! A list whose cells live in the caller's scopes: each cell borrows the
//! cell that follows it, so no cell is ever allocated or released here.
use vstd::prelude::*;

verus! {

/// A cell holding one element and a borrowed link to the rest of the list.
pub struct List<'a, T> {
    pub data: T,
    pub next: Option<&'a List<'a, T>>,
}

/// The elements of the list that `next` links to, from head to tail.
pub open spec fn rest_view<'a, T>(next: Option<&'a List<'a, T>>) -> Seq<T>
    decreases next,
{
    match next {
        None => Seq::empty(),
        Some(cell) => seq![cell.data] + rest_view(cell.next),
    }
}

impl<'a, T> View for List<'a, T> {
    type V = Seq<T>;

    /// The elements of the list, from this cell to the last one.
    open spec fn view(&self) -> Seq<T> {
        seq![self.data] + rest_view(self.next)
    }
}

impl<'a, T> List<'a, T> {
    /// A cell holding `data` in front of the list that `next` borrows.
    pub fn prepend(next: Option<&'a List<'a, T>>, data: T) -> (r: Self)
        ensures
            r.data == data,
            r.next == next,
            r@ == seq![data] + rest_view(next),
    {
        List { data, next }
    }

    /// A forward traversal of the elements, from this cell on.
    pub fn iter(&'a self) -> (r: Iter<'a, T>)
        ensures
            r@ == self@,
    {
        Iter { next: Some(self) }
    }
}

/// A forward traversal of a borrowed list.
pub struct Iter<'a, T> {
    next: Option<&'a List<'a, T>>,
}

impl<'a, T> View for Iter<'a, T> {
    type V = Seq<T>;

    /// The elements that are still to come, in order.
    closed spec fn view(&self) -> Seq<T> {
        rest_view(self.next)
    }
}

impl<'a, T> Iter<'a, T> {
    /// The next element, or `None` once the traversal is over.
    pub fn next(&mut self) -> (r: Option<&'a T>)
        ensures
            r is None <==> old(self)@.len() == 0,
            r is None ==> final(self)@ == old(self)@,
            r matches Some(elem) ==> *elem == old(self)@[0] && final(self)@ == old(self)@.drop_first(),
    {
        match self.next {
            None => None,
            Some(cell) => {
                self.next = cell.next;
                proof {
                    assert(old(self)@.drop_first() =~= rest_view(cell.next));
                }
                Some(&cell.data)
            },
        }
    }
}

} // verus!
