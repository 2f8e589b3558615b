//! An immutable singly linked list whose derived versions share their tails.
use std::sync::Arc;
use vstd::prelude::*;

verus! {

/// Relies on `Arc::try_unwrap`: it hands back the shared value when the given handle was its
/// only strong reference, and otherwise returns that same handle.
#[verifier::external_body]
fn try_unwrap_arc<U>(shared: Arc<U>) -> (r: Result<U, Arc<U>>)
    ensures
        match r {
            Ok(value) => value == *shared,
            Err(back) => back == shared,
        },
{
    Arc::try_unwrap(shared)
}

/// The sequence `s` with `x` put in front.
pub open spec fn seq_append<T>(s: Seq<T>, x: T) -> Seq<T> {
    seq![x] + s
}

/// The first element of `s`, if any.
pub open spec fn seq_head<T>(s: Seq<T>) -> Option<T> {
    if s.len() == 0 {
        None
    } else {
        Some(s[0])
    }
}

/// Every element of `s` but the first; empty when `s` is empty.
pub open spec fn seq_tail<T>(s: Seq<T>) -> Seq<T> {
    if s.len() == 0 {
        Seq::empty()
    } else {
        s.drop_first()
    }
}

/// One cell of a chain: an element and the rest of the chain it was put in front of.
struct Node<T> {
    elem: T,
    next: Option<Arc<Node<T>>>,
}

/// The elements reachable from a link, first to last.
spec fn link_seq<T>(link: Option<Arc<Node<T>>>) -> Seq<T>
    decreases link,
{
    match link {
        None => Seq::empty(),
        Some(node) => seq![node.elem].add(link_seq(node.next)),
    }
}

/// A persistent list: `append` and `tail` return new handles and leave `self` as it was.
pub struct List<T> {
    head: Option<Arc<Node<T>>>,
}

impl<T> View for List<T> {
    type V = Seq<T>;

    /// The elements of the list, the most recently appended first.
    closed spec fn view(&self) -> Seq<T> {
        link_seq(self.head)
    }
}

impl<T> List<T> {
    /// The empty list.
    pub fn new() -> (r: Self)
        ensures
            r@ == Seq::<T>::empty(),
    {
        List { head: None }
    }

    /// A new list holding `elem` in front of the elements of `self`; `self` is unchanged.
    pub fn append(&self, elem: T) -> (r: List<T>)
        ensures
            r@ == seq_append(self@, elem),
    {
        let next = match &self.head {
            None => None,
            Some(node) => Some(Arc::clone(node)),
        };
        List { head: Some(Arc::new(Node { elem, next })) }
    }

    /// The first element, if any.
    pub fn head(&self) -> (r: Option<&T>)
        ensures
            match r {
                None => seq_head(self@) is None,
                Some(x) => seq_head(self@) == Some(*x),
            },
    {
        match &self.head {
            None => None,
            Some(node) => Some(&node.elem),
        }
    }

    /// A new list holding every element of `self` but the first; empty when `self` is empty.
    pub fn tail(&self) -> (r: List<T>)
        ensures
            r@ == seq_tail(self@),
    {
        match &self.head {
            None => List { head: None },
            Some(node) => {
                let next = match &node.next {
                    None => None,
                    Some(n) => Some(Arc::clone(n)),
                };
                proof {
                    assert(self@.drop_first() =~= link_seq(node.next));
                }
                List { head: next }
            },
        }
    }
}

/// Releases a chain one cell at a time, without recursion, and stops at the first cell that
/// another handle still holds.
fn release_chain<T>(link: Option<Arc<Node<T>>>) {
    let mut cur = link;
    loop
        decreases link_seq(cur).len(),
    {
        match cur {
            None => break,
            Some(shared) => match try_unwrap_arc(shared) {
                Ok(node) => {
                    cur = node.next;
                },
                Err(_) => break,
            },
        }
    }
}

impl<T> Drop for List<T> {
    /// Hands the chain to `release_chain`, so that a long list is not dropped by recursion.
    /// This body is taken on trust: the verifier stops with an internal error on a `drop`
    /// that calls a function. It only moves the head link out and passes it on; the release
    /// loop itself is verified in `release_chain`.
    #[verifier::external_body]
    fn drop(&mut self)
        opens_invariants none
        no_unwind
    {
        release_chain(self.head.take());
    }
}

/// A cursor over the elements of a list, first to last.
pub struct Iter<'a, T> {
    next: Option<&'a Node<T>>,
}

/// The elements from a cell on, or none.
spec fn cell_seq<T>(cell: Option<&Node<T>>) -> Seq<T> {
    match cell {
        None => Seq::empty(),
        Some(node) => seq![node.elem].add(link_seq(node.next)),
    }
}

impl<'a, T> View for Iter<'a, T> {
    type V = Seq<T>;

    /// The elements that are still to come.
    closed spec fn view(&self) -> Seq<T> {
        cell_seq(self.next)
    }
}

impl<T> List<T> {
    /// A cursor that starts at the first element.
    pub fn iter(&self) -> (r: Iter<'_, T>)
        ensures
            r@ == self@,
    {
        match &self.head {
            None => Iter { next: None },
            Some(node) => Iter { next: Some(&**node) },
        }
    }
}

impl<'a, T> Iter<'a, T> {
    /// The next element, or none once every element has been handed out.
    pub fn next(&mut self) -> (r: Option<&'a T>)
        ensures
            match r {
                None => seq_head(old(self)@) is None,
                Some(x) => seq_head(old(self)@) == Some(*x),
            },
            final(self)@ == seq_tail(old(self)@),
    {
        match self.next {
            None => None,
            Some(node) => {
                self.next = match &node.next {
                    None => None,
                    Some(n) => Some(&**n),
                };
                proof {
                    assert(old(self)@.drop_first() =~= link_seq(node.next));
                }
                Some(&node.elem)
            },
        }
    }
}

/// The empty list has no head, and its tail is empty again; so a cursor that has run out
/// keeps yielding nothing.
pub proof fn lemma_empty_has_no_head<T>()
    ensures
        seq_head(Seq::<T>::empty()) is None,
        seq_tail(Seq::<T>::empty()) == Seq::<T>::empty(),
{
}

/// Appending `x` and then taking the tail gives back exactly the list appended to, and the
/// head of the appended list is `x`.
pub proof fn lemma_append_then_tail<T>(s: Seq<T>, x: T)
    ensures
        seq_head(seq_append(s, x)) == Some(x),
        seq_tail(seq_append(s, x)) == s,
{
    assert(seq_append(s, x).drop_first() =~= s);
}

/// Three values appended in order onto the empty list come back newest first through
/// `head` and `tail`, and after three tails nothing is left.
pub proof fn lemma_three_appends<T>(v1: T, v2: T, v3: T)
    ensures
        ({
            let l3 = seq_append(seq_append(seq_append(Seq::<T>::empty(), v1), v2), v3);
            &&& seq_head(l3) == Some(v3)
            &&& seq_head(seq_tail(l3)) == Some(v2)
            &&& seq_head(seq_tail(seq_tail(l3))) == Some(v1)
            &&& seq_head(seq_tail(seq_tail(seq_tail(l3)))) is None
        }),
{
    let l1 = seq_append(Seq::<T>::empty(), v1);
    let l2 = seq_append(l1, v2);
    lemma_append_then_tail(Seq::<T>::empty(), v1);
    lemma_append_then_tail(l1, v2);
    lemma_append_then_tail(l2, v3);
}

/// A list appended to keeps its own contents: after `l2 = l1.append(b)`, `l1` still holds
/// what it held, `l2` holds `b` in front of it, and a list made by appending `a` to the empty
/// list still has head `a`.
pub proof fn lemma_persistence<T>(l1: Seq<T>, a: T, b: T)
    requires
        l1 == seq_append(Seq::<T>::empty(), a),
    ensures
        seq_head(l1) == Some(a),
        seq_head(seq_append(l1, b)) == Some(b),
        seq_tail(seq_append(l1, b)) == l1,
{
    lemma_append_then_tail(Seq::<T>::empty(), a);
    lemma_append_then_tail(l1, b);
}

/// Two lists made by appending different elements onto one tail both see that tail's
/// elements behind their own first element.
pub proof fn lemma_shared_suffix<T>(shared: Seq<T>, x: T, y: T)
    ensures
        seq_tail(seq_append(shared, x)) == seq_tail(seq_append(shared, y)),
        seq_head(seq_tail(seq_append(shared, x))) == seq_head(shared),
        seq_head(seq_tail(seq_append(shared, y))) == seq_head(shared),
{
    lemma_append_then_tail(shared, x);
    lemma_append_then_tail(shared, y);
}

} // verus!
