//! An unbalanced binary search tree mapping keys to values.
use std::cmp::Ordering;
use vstd::prelude::*;
use vstd::std_specs::cmp::OrdSpec;

verus! {

/// `a` orders strictly before `b`.
pub open spec fn key_lt<K: Ord>(a: K, b: K) -> bool {
    a.cmp_spec(&b) == Ordering::Less
}

/// `cmp` on `K` is a strict total order whose `Equal` is equality.
pub open spec fn total_order<K: Ord>() -> bool {
    &&& K::obeys_cmp_spec()
    &&& forall|a: K, b: K| #[trigger] a.cmp_spec(&b) == Ordering::Equal <==> a == b
    &&& forall|a: K, b: K| #[trigger] key_lt(a, b) <==> b.cmp_spec(&a) == Ordering::Greater
    &&& forall|a: K, b: K, c: K| #[trigger] key_lt(a, b) && #[trigger] key_lt(b, c) ==> key_lt(a, c)
}

/// The order of `i64` is such an order, so trees keyed by `i64` meet every `requires` on
/// the key type.
pub proof fn lemma_i64_total_order()
    ensures
        total_order::<i64>(),
{
}

/// A map from keys to values kept as an unbalanced binary search tree.
pub struct BinarySearchTree<K, V> {
    root: Option<Box<Node<K, V>>>,
    length: u64,
}

impl<K, V> View for BinarySearchTree<K, V> {
    type V = Map<K, V>;

    /// The entries of the tree.
    closed spec fn view(&self) -> Map<K, V> {
        link_map(self.root)
    }
}

/// A node of the tree: one entry and the subtrees of smaller and of greater keys.
pub struct Node<K, V> {
    pub key: K,
    pub value: V,
    pub left: Option<Box<Node<K, V>>>,
    pub right: Option<Box<Node<K, V>>>,
}

/// The entries of a subtree, or none for an empty one.
pub open spec fn link_map<K, V>(link: Option<Box<Node<K, V>>>) -> Map<K, V>
    decreases link,
{
    match link {
        None => Map::empty(),
        Some(node) => node.as_map(),
    }
}

/// An empty subtree, or a well-formed node.
pub open spec fn link_well_formed<K: Ord, V>(link: Option<Box<Node<K, V>>>) -> bool
    decreases link,
{
    match link {
        None => true,
        Some(node) => node.well_formed(),
    }
}

impl<K, V> Node<K, V> {
    /// The entries of the subtree rooted here.
    pub open spec fn as_map(self) -> Map<K, V>
        decreases self,
    {
        link_map(self.left).union_prefer_right(link_map(self.right)).insert(self.key, self.value)
    }
}

impl<K: Ord, V> Node<K, V> {
    /// Every key on the left orders before this node's key, every key on the right after it,
    /// and so on down.
    pub open spec fn well_formed(self) -> bool
        decreases self,
    {
        &&& forall|k: K| #[trigger] link_map(self.left).contains_key(k) ==> key_lt(k, self.key)
        &&& forall|k: K| #[trigger] link_map(self.right).contains_key(k) ==> key_lt(self.key, k)
        &&& link_well_formed(self.left)
        &&& link_well_formed(self.right)
    }

    /// A node holding one entry and no subtrees.
    pub fn new(key: K, value: V) -> (r: Box<Node<K, V>>)
        ensures
            r.key == key,
            r.value == value,
            r.left is None,
            r.right is None,
            r.well_formed(),
            r.as_map() == map![key => value],
    {
        let r = Box::new(Node { key: key, value: value, left: None, right: None });
        proof {
            assert(r.as_map() =~= map![key => value]);
        }
        r
    }

    /// The value stored under `key` in this subtree, if any.
    pub fn find(&self, key: K) -> (r: Option<&V>)
        requires
            total_order::<K>(),
            self.well_formed(),
        ensures
            match r {
                None => !self.as_map().contains_key(key),
                Some(v) => self.as_map().contains_key(key) && self.as_map()[key] == *v,
            },
        decreases self,
    {
        match key.cmp(&self.key) {
            Ordering::Less => match &self.left {
                None => {
                    proof {
                        assert(!link_map(self.right).contains_key(key));
                    }
                    None
                },
                Some(n) => {
                    let r = n.find(key);
                    proof {
                        assert(!link_map(self.right).contains_key(key));
                    }
                    r
                },
            },
            Ordering::Equal => Some(&self.value),
            Ordering::Greater => match &self.right {
                None => {
                    proof {
                        assert(!link_map(self.left).contains_key(key));
                    }
                    None
                },
                Some(n) => {
                    let r = n.find(key);
                    proof {
                        assert(!link_map(self.left).contains_key(key));
                    }
                    r
                },
            },
        }
    }
}

/// Puts `key => value` into a possibly empty subtree; true when `key` was not there before.
fn insert_link<K: Ord, V>(link: &mut Option<Box<Node<K, V>>>, key: K, value: V) -> (added: bool)
    requires
        total_order::<K>(),
        link_well_formed(*old(link)),
    ensures
        link_well_formed(*final(link)),
        link_map(*final(link)) == link_map(*old(link)).insert(key, value),
        added == !link_map(*old(link)).contains_key(key),
    decreases *old(link),
{
    match link.take() {
        None => {
            *link = Some(Node::new(key, value));
            proof {
                assert(link_map(*final(link)) =~= Map::<K, V>::empty().insert(key, value));
            }
            true
        },
        Some(mut node) => {
            let added = node.insert_entry(key, value);
            *link = Some(node);
            added
        },
    }
}

impl<K: Ord, V> Node<K, V> {
    /// Puts `key => value` into this subtree; true when `key` was not there before.
    fn insert_entry(&mut self, key: K, value: V) -> (added: bool)
        requires
            total_order::<K>(),
            old(self).well_formed(),
        ensures
            final(self).well_formed(),
            final(self).as_map() == old(self).as_map().insert(key, value),
            added == !old(self).as_map().contains_key(key),
        decreases *old(self),
    {
        let ghost old_map = self.as_map();
        match key.cmp(&self.key) {
            Ordering::Less => {
                let added = insert_link(&mut self.left, key, value);
                proof {
                    assert(!link_map(self.right).contains_key(key));
                    assert(self.as_map() =~= old_map.insert(key, value));
                }
                added
            },
            Ordering::Equal => {
                self.value = value;
                proof {
                    assert(self.as_map() =~= old_map.insert(key, value));
                }
                false
            },
            Ordering::Greater => {
                let added = insert_link(&mut self.right, key, value);
                proof {
                    assert(!link_map(self.left).contains_key(key));
                    assert(self.as_map() =~= old_map.insert(key, value));
                }
                added
            },
        }
    }

    /// Stores `value` under `key` in this subtree: an existing entry for `key` is overwritten,
    /// otherwise a new leaf is hung where the search for `key` ends.
    pub fn insert(&mut self, key: K, value: V)
        requires
            total_order::<K>(),
            old(self).well_formed(),
        ensures
            final(self).well_formed(),
            final(self).as_map() == old(self).as_map().insert(key, value),
    {
        self.insert_entry(key, value);
    }
}

/// Removes the entry with the smallest key from a subtree; returns what is left of the
/// subtree together with that entry.
fn take_min<K: Ord, V>(node: Box<Node<K, V>>) -> (r: (Option<Box<Node<K, V>>>, K, V))
    requires
        total_order::<K>(),
        node.well_formed(),
    ensures
        link_well_formed(r.0),
        node.as_map().contains_key(r.1),
        node.as_map()[r.1] == r.2,
        link_map(r.0) == node.as_map().remove(r.1),
        forall|k: K| #[trigger] link_map(r.0).contains_key(k) ==> key_lt(r.1, k),
    decreases node,
{
    let ghost whole = node.as_map();
    let ghost before = *node;
    let mut node = node;
    match node.left.take() {
        None => {
            let right = node.right.take();
            proof {
                assert(link_map(right) =~= whole.remove(node.key));
            }
            (right, node.key, node.value)
        },
        Some(smaller) => {
            let (rest, k, v) = take_min(smaller);
            node.left = rest;
            proof {
                assert(link_map(before.left).contains_key(k));
                assert(key_lt(k, node.key));
                assert forall|j: K| #[trigger] link_map(node.left).contains_key(j) implies key_lt(
                    j,
                    node.key,
                ) by {
                    assert(link_map(before.left).contains_key(j));
                }
                assert(!link_map(node.right).contains_key(k));
                assert(link_map(Some(node)) =~= whole.remove(k));
            }
            (Some(node), k, v)
        },
    }
}

/// Removes the entry for `key` from a subtree; returns what is left of the subtree and
/// whether an entry was removed.
fn remove_entry<K: Ord, V>(node: Box<Node<K, V>>, key: K) -> (r: (Option<Box<Node<K, V>>>, bool))
    requires
        total_order::<K>(),
        node.well_formed(),
    ensures
        link_well_formed(r.0),
        link_map(r.0) == node.as_map().remove(key),
        r.1 == node.as_map().contains_key(key),
    decreases node,
{
    let ghost whole = node.as_map();
    let ghost before = *node;
    let mut node = node;
    match key.cmp(&node.key) {
        Ordering::Less => {
            let (rest, removed) = remove_link(node.left.take(), key);
            node.left = rest;
            proof {
                assert(!link_map(node.right).contains_key(key));
                assert(link_map(Some(node)) =~= whole.remove(key));
            }
            (Some(node), removed)
        },
        Ordering::Greater => {
            let (rest, removed) = remove_link(node.right.take(), key);
            node.right = rest;
            proof {
                assert(!link_map(node.left).contains_key(key));
                assert(link_map(Some(node)) =~= whole.remove(key));
            }
            (Some(node), removed)
        },
        Ordering::Equal => {
            let left = node.left.take();
            match node.right.take() {
                None => {
                    proof {
                        assert(!link_map(left).contains_key(key));
                        assert(link_map(left) =~= whole.remove(key));
                    }
                    (left, true)
                },
                Some(greater) => {
                    let (rest, k, v) = take_min(greater);
                    node.key = k;
                    node.value = v;
                    node.left = left;
                    node.right = rest;
                    proof {
                        assert(link_map(before.right).contains_key(k));
                        assert(key_lt(key, k));
                        assert forall|j: K| #[trigger] link_map(node.left).contains_key(j) implies key_lt(
                            j,
                            k,
                        ) by {
                            assert(key_lt(j, key));
                        }
                        assert(!link_map(node.left).contains_key(key));
                        assert(link_map(Some(node)) =~= whole.remove(key));
                    }
                    (Some(node), true)
                },
            }
        },
    }
}

/// Removes the entry for `key` from a possibly empty subtree; returns what is left and
/// whether an entry was removed.
fn remove_link<K: Ord, V>(link: Option<Box<Node<K, V>>>, key: K) -> (r: (
    Option<Box<Node<K, V>>>,
    bool,
))
    requires
        total_order::<K>(),
        link_well_formed(link),
    ensures
        link_well_formed(r.0),
        link_map(r.0) == link_map(link).remove(key),
        r.1 == link_map(link).contains_key(key),
    decreases link,
{
    match link {
        None => {
            proof {
                assert(Map::<K, V>::empty().remove(key) =~= Map::<K, V>::empty());
            }
            (None, false)
        },
        Some(node) => remove_entry(node, key),
    }
}

impl<K: Ord, V> Node<K, V> {
    /// Removes the entry for `key` from the subtree rooted at `node` and returns the root of
    /// what is left, which is empty when `node` held `key` alone.
    pub fn delete(node: Box<Node<K, V>>, key: K) -> (r: Option<Box<Node<K, V>>>)
        requires
            total_order::<K>(),
            node.well_formed(),
        ensures
            link_well_formed(r),
            link_map(r) == node.as_map().remove(key),
    {
        remove_entry(node, key).0
    }
}

impl<K: Ord, V> BinarySearchTree<K, V> {
    /// The nodes are ordered and `length` counts the entries.
    pub closed spec fn well_formed(&self) -> bool {
        &&& link_well_formed(self.root)
        &&& link_map(self.root).dom().finite()
        &&& self.length == link_map(self.root).len()
    }

    /// The empty tree.
    pub fn new() -> (r: BinarySearchTree<K, V>)
        ensures
            r.well_formed(),
            r@ == Map::<K, V>::empty(),
    {
        BinarySearchTree { root: None, length: 0 }
    }

    /// The number of entries.
    pub fn len(&self) -> (r: u64)
        requires
            self.well_formed(),
        ensures
            r == self@.len(),
    {
        self.length
    }

    /// The root node, or none when the tree is empty.
    pub fn root(&self) -> (r: Option<&Node<K, V>>)
        requires
            self.well_formed(),
        ensures
            match r {
                None => self@ == Map::<K, V>::empty(),
                Some(node) => node.well_formed() && node.as_map() == self@,
            },
    {
        match &self.root {
            None => None,
            Some(node) => Some(&**node),
        }
    }

    /// The value stored under `key`, if any.
    pub fn find(&self, key: K) -> (r: Option<&V>)
        requires
            total_order::<K>(),
            self.well_formed(),
        ensures
            match r {
                None => !self@.contains_key(key),
                Some(v) => self@.contains_key(key) && self@[key] == *v,
            },
    {
        match &self.root {
            None => None,
            Some(n) => n.find(key),
        }
    }

    /// Stores `value` under `key`, overwriting the value that was there.
    pub fn insert(&mut self, key: K, value: V)
        requires
            total_order::<K>(),
            old(self).well_formed(),
            old(self)@.len() < u64::MAX,
        ensures
            final(self).well_formed(),
            final(self)@ == old(self)@.insert(key, value),
    {
        let added = insert_link(&mut self.root, key, value);
        if added {
            self.length = self.length + 1;
        }
    }

    /// Removes the entry for `key`, if there is one.
    pub fn delete(&mut self, key: K)
        requires
            total_order::<K>(),
            old(self).well_formed(),
        ensures
            final(self).well_formed(),
            final(self)@ == old(self)@.remove(key),
    {
        let root = self.root.take();
        let (rest, removed) = remove_link(root, key);
        self.root = rest;
        if removed {
            self.length = self.length - 1;
        }
    }
}

} // verus!
