//! A persistent list: nodes are immutable and shared through reference counts.
use std::rc::Rc;
use vstd::prelude::*;

verus! {

/// A shared, possibly empty, link to the next node of a chain.
type Link<T> = Option<Rc<Node<T>>>;

/// One immutable cell of a chain.
struct Node<T> {
    elem: T,
    next: Link<T>,
}

/// The elements of the chain that starts at `link`, from head to tail.
closed spec fn link_view<T>(link: Link<T>) -> Seq<T>
    decreases link,
{
    match link {
        None => Seq::empty(),
        Some(node) => seq![node.elem] + link_view(node.next),
    }
}

/// A handle on a chain of shared nodes; the empty list holds no node.
pub struct List<T> {
    head: Link<T>,
}

impl<T> View for List<T> {
    type V = Seq<T>;

    /// The elements of the list, from head to tail.
    closed spec fn view(&self) -> Seq<T> {
        link_view(self.head)
    }
}

impl<T> List<T> {
    /// The empty list.
    pub fn new() -> (r: Self)
        ensures
            r@ == Seq::<T>::empty(),
    {
        List { head: None }
    }

    /// A new list whose head is `elem` and whose tail is this list, shared.
    pub fn prepend(&self, elem: T) -> (r: List<T>)
        ensures
            r@ == seq![elem] + self@,
    {
        let next = match &self.head {
            None => None,
            Some(node) => Some(Rc::clone(node)),
        };
        let head = Some(Rc::new(Node { elem, next }));
        List { head }
    }

    /// The head element and the list of the remaining elements, which shares
    /// this list's nodes; `None` exactly when the list is empty.
    pub fn headtail(&self) -> (r: Option<(&T, List<T>)>)
        ensures
            r is None <==> self@.len() == 0,
            r matches Some((elem, tail)) ==> *elem == self@[0] && tail@ == self@.drop_first(),
    {
        match &self.head {
            None => None,
            Some(node) => {
                let next = match &node.next {
                    None => None,
                    Some(rest) => Some(Rc::clone(rest)),
                };
                proof {
                    assert(self@.drop_first() =~= link_view(node.next));
                }
                Some((&node.elem, List { head: next }))
            },
        }
    }

    /// A forward traversal of the elements, from head to tail.
    pub fn iter(&self) -> (r: Iter<'_, T>)
        ensures
            r@ == self@,
    {
        let next = match &self.head {
            None => None,
            Some(node) => Some(&**node),
        };
        Iter { next }
    }
}

/// Relies on `std::rc::Rc::try_unwrap`: it hands back the node when `node` is
/// its only strong reference, and `node` itself otherwise. It returns a
/// `Result` in both cases and does not panic. Teardown runs inside `drop`,
/// which must be shown not to unwind, so the call is made through here.
#[verifier::external_body]
fn try_unwrap_node<T>(node: Rc<Node<T>>) -> (r: Result<Node<T>, Rc<Node<T>>>)
    ensures
        match r {
            Ok(owned) => owned == *node,
            Err(shared) => shared == node,
        },
    opens_invariants none
    no_unwind
{
    Rc::try_unwrap(node)
}

/// Releases the chain that starts at `link` one node at a time, so that a
/// long chain needs no deep call stack: a node is taken apart only while
/// `link` is its last owner, and the walk stops at the first node that is
/// still shared.
fn release<T>(link: Link<T>)
    opens_invariants none
    no_unwind
{
    let mut link = link;
    loop
        decreases link_view(link).len(),
    {
        match link {
            None => break,
            Some(node) => match try_unwrap_node(node) {
                Ok(owned) => {
                    link = owned.next;
                },
                Err(_) => break,
            },
        }
    }
}

impl<T> Drop for List<T> {
    /// Empties this handle and releases the chain it held, without recursion.
    fn drop(&mut self)
        ensures
            final(self)@ == Seq::<T>::empty(),
        opens_invariants none
        no_unwind
    {
        let mut head: Link<T> = None;
        std::mem::swap(&mut head, &mut self.head);
        release(head);
    }
}

/// A forward traversal of a persistent list that borrows its nodes.
pub struct Iter<'a, T> {
    next: Option<&'a Node<T>>,
}

impl<'a, T> View for Iter<'a, T> {
    type V = Seq<T>;

    /// The elements that are still to come, in order.
    closed spec fn view(&self) -> Seq<T> {
        match self.next {
            None => Seq::empty(),
            Some(node) => seq![node.elem] + link_view(node.next),
        }
    }
}

impl<'a, T> Iter<'a, T> {
    /// The next element, or `None` once the traversal is over.
    pub fn next(&mut self) -> (r: Option<&'a T>)
        ensures
            r is None <==> old(self)@.len() == 0,
            r is None ==> final(self)@ == old(self)@,
            r matches Some(elem) ==> *elem == old(self)@[0] && final(self)@ == old(self)@.drop_first(),
    {
        match self.next {
            None => None,
            Some(node) => {
                self.next = match &node.next {
                    None => None,
                    Some(rest) => Some(&**rest),
                };
                proof {
                    assert(old(self)@.drop_first() =~= link_view(node.next));
                }
                Some(&node.elem)
            },
        }
    }
}

/// The elements of the list obtained from a list holding `base` by calling
/// `prepend` with each of `elems`, in the order they stand in `elems`.
pub open spec fn prepended<T>(base: Seq<T>, elems: Seq<T>) -> Seq<T>
    decreases elems.len(),
{
    if elems.len() == 0 {
        base
    } else {
        seq![elems.last()] + prepended(base, elems.drop_last())
    }
}

/// Prepending `e1, ..., en` in that order to a list puts them in front of its
/// elements in reverse order, so the list built from the empty one is
/// traversed as `en, ..., e1`.
pub proof fn lemma_prepended_reverses<T>(base: Seq<T>, elems: Seq<T>)
    ensures
        prepended(base, elems) == elems.reverse() + base,
        prepended(Seq::empty(), elems) == elems.reverse(),
    decreases elems.len(),
{
    if elems.len() == 0 {
        assert(elems.reverse() + base =~= base);
    } else {
        let rest = elems.drop_last();
        lemma_prepended_reverses(base, rest);
        assert(seq![elems.last()] + (rest.reverse() + base) =~= elems.reverse() + base);
    }
    assert(elems.reverse() + Seq::<T>::empty() =~= elems.reverse());
}

/// On a list built by prepending `e1, ..., en` (n at least one), `headtail`
/// returns `en` and a tail that holds what prepending `e1, ..., e(n-1)` gives.
pub proof fn lemma_headtail_of_prepended<T>(base: Seq<T>, elems: Seq<T>)
    requires
        elems.len() >= 1,
    ensures
        prepended(base, elems).len() > 0,
        prepended(base, elems)[0] == elems.last(),
        prepended(base, elems).drop_first() == prepended(base, elems.drop_last()),
{
    assert(prepended(base, elems).drop_first() =~= prepended(base, elems.drop_last()));
}

/// Two lists prepended to the same list both have that list's elements as
/// their tail, whatever was prepended to the other.
pub proof fn lemma_prepends_share_tail<T>(base: Seq<T>, x: T, y: T)
    ensures
        (seq![x] + base).drop_first() == base,
        (seq![y] + base).drop_first() == base,
        (seq![x] + base).drop_first() == (seq![y] + base).drop_first(),
{
    assert((seq![x] + base).drop_first() =~= base);
    assert((seq![y] + base).drop_first() =~= base);
}

/// Calling `headtail` until the list is empty, each time on the tail that the
/// call before returned, gives back the prepended elements in reverse order.
/// By the `ensures` of `headtail`, the call numbered `i` (from zero) on a list
/// built from the empty one by prepending `e1, ..., en` is made on a list
/// whose elements are those of the built list after dropping the first `i`:
/// for `i < n` that list is not empty, its head is `e(n-i)` and its tail
/// holds those after dropping `i + 1`; the call numbered `n` finds it empty.
pub proof fn lemma_headtail_round_trip<T>(elems: Seq<T>)
    ensures
        forall|i: int|
            0 <= i < elems.len() ==> {
                let rest = #[trigger] prepended(Seq::empty(), elems).skip(i);
                &&& rest.len() > 0
                &&& rest[0] == elems[elems.len() - 1 - i]
                &&& rest.drop_first() == prepended(Seq::empty(), elems).skip(i + 1)
            },
        prepended(Seq::empty(), elems).skip(elems.len() as int).len() == 0,
{
    let built = prepended(Seq::empty(), elems);
    lemma_prepended_reverses(Seq::empty(), elems);
    assert forall|i: int| 0 <= i < elems.len() implies {
        let rest = #[trigger] built.skip(i);
        &&& rest.len() > 0
        &&& rest[0] == elems[elems.len() - 1 - i]
        &&& rest.drop_first() == built.skip(i + 1)
    } by {
        assert(built.skip(i).drop_first() =~= built.skip(i + 1));
    }
}

} // verus!
