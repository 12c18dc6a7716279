//! The tree: nodes owned through `Box` slots, modelled by the in-order
//! sequence of their values.

use crate::order::{
    count_less, le, lemma_order_laws, lemma_place_is_count, lt, obeys_order, place_for, sorted,
};
use core::cmp::Ordering;
use std::collections::VecDeque;
use vstd::prelude::*;
use vstd::std_specs::cmp::OrdSpec;

verus! {

/// One node: a value and the two subtrees below it.
#[derive(Debug)]
pub struct Node<T> {
    pub data: T,
    pub left: Option<Box<Node<T>>>,
    pub right: Option<Box<Node<T>>>,
}

/// The values of a subtree, left subtree first, then the node, then the
/// right subtree.
pub open spec fn in_order<T>(link: Option<Box<Node<T>>>) -> Seq<T>
    decreases link,
{
    match link {
        None => Seq::empty(),
        Some(n) => in_order(n.left) + seq![n.data] + in_order(n.right),
    }
}

/// The search-tree ordering: below each node, every value on the left is
/// less than or equal to it, and every value on the right is greater than or
/// equal to it.
pub open spec fn ordered<T: Ord>(link: Option<Box<Node<T>>>) -> bool
    decreases link,
{
    match link {
        None => true,
        Some(n) => {
            &&& ordered(n.left)
            &&& ordered(n.right)
            &&& forall|x: T| in_order(n.left).contains(x) ==> le(x, n.data)
            &&& forall|x: T| in_order(n.right).contains(x) ==> le(n.data, x)
        },
    }
}

/// A value is in a subtree exactly when it is at its root or in one of its
/// two children.
pub proof fn lemma_contains_split<T>(l: Seq<T>, d: T, r: Seq<T>)
    ensures
        forall|x: T| #[trigger]
            (l + seq![d] + r).contains(x) <==> (l.contains(x) || x == d || r.contains(x)),
{
    let s = l + seq![d] + r;
    assert forall|x: T| #[trigger] s.contains(x) implies (l.contains(x) || x == d || r.contains(x)) by {
        let i = choose|i: int| 0 <= i < s.len() && s[i] == x;
        if i < l.len() {
            assert(l[i] == x);
        } else if i > l.len() {
            assert(r[i - l.len() - 1] == x);
        }
    }
    assert forall|x: T| (l.contains(x) || x == d || r.contains(x)) implies #[trigger] s.contains(x) by {
        if l.contains(x) {
            let i = choose|i: int| 0 <= i < l.len() && l[i] == x;
            assert(s[i] == x);
        } else if x == d {
            assert(s[l.len() as int] == x);
        } else {
            let i = choose|i: int| 0 <= i < r.len() && r[i] == x;
            assert(s[l.len() + 1 + i] == x);
        }
    }
}

/// Putting `v` into a sequence adds `v` and keeps everything else.
pub proof fn lemma_insert_contains<T>(s: Seq<T>, k: int, v: T)
    requires
        0 <= k <= s.len(),
    ensures
        forall|x: T| #[trigger] s.insert(k, v).contains(x) <==> (s.contains(x) || x == v),
{
    let t = s.insert(k, v);
    assert forall|x: T| #[trigger] t.contains(x) implies (s.contains(x) || x == v) by {
        let i = choose|i: int| 0 <= i < t.len() && t[i] == x;
        if i < k {
            assert(s[i] == x);
        } else if i > k {
            assert(s[i - 1] == x);
        }
    }
    assert forall|x: T| (s.contains(x) || x == v) implies #[trigger] t.contains(x) by {
        if x == v {
            assert(t[k] == x);
        } else {
            let i = choose|i: int| 0 <= i < s.len() && s[i] == x;
            if i < k {
                assert(t[i] == x);
            } else {
                assert(t[i + 1] == x);
            }
        }
    }
}

/// Taking one element out of a sequence keeps only values it held.
pub proof fn lemma_remove_contains<T>(s: Seq<T>, i: int)
    requires
        0 <= i < s.len(),
    ensures
        forall|x: T| #[trigger] s.remove(i).contains(x) ==> s.contains(x),
{
    let t = s.remove(i);
    assert forall|x: T| #[trigger] t.contains(x) implies s.contains(x) by {
        let j = choose|j: int| 0 <= j < t.len() && t[j] == x;
        if j < i {
            assert(s[j] == x);
        } else {
            assert(s[j + 1] == x);
        }
    }
}

/// An ordered subtree lists its values in sorted order.
pub proof fn lemma_ordered_sorted<T: Ord + Clone>(link: Option<Box<Node<T>>>)
    requires
        obeys_order::<T>(),
        ordered(link),
    ensures
        sorted(in_order(link)),
    decreases link,
{
    if let Some(n) = link {
        lemma_order_laws::<T>();
        lemma_ordered_sorted(n.left);
        lemma_ordered_sorted(n.right);
        let l = in_order(n.left);
        let r = in_order(n.right);
        let s = in_order(link);
        assert forall|i: int, j: int| 0 <= i < j < s.len() implies le(s[i], s[j]) by {
            if i < l.len() {
                assert(l.contains(s[i]));
            }
            if j > l.len() {
                assert(r.contains(s[j]));
            }
            if i < l.len() && j > l.len() {
                assert(le(s[i], n.data));
                assert(le(n.data, s[j]));
            }
        }
    }
}

/// The values of a well-formed tree come in sorted order, and so does an
/// iterator made from it.
pub proof fn lemma_tree_sorted<T: Ord + Clone>(tree: &Tree<T>)
    requires
        obeys_order::<T>(),
        tree.wf(),
    ensures
        sorted(tree@),
{
    lemma_ordered_sorted(tree.root);
}

impl<T: Ord + Clone> Node<T> {
    /// A node holding `data`, with no children.
    pub fn new(data: T) -> (r: Self)
        ensures
            r.data == data,
            r.left is None,
            r.right is None,
    {
        Node { data, left: None, right: None }
    }
}

/// Error of `Tree::remove`: no node holds a value equal to the one asked for.
#[derive(Debug, Clone, Copy, PartialEq, Eq)]
pub struct NotFoundError;

/// An unbalanced binary search tree that counts its nodes.
#[derive(Debug)]
pub struct Tree<T> {
    root: Option<Box<Node<T>>>,
    size: u32,
}

impl<T: Ord + Clone> View for Tree<T> {
    type V = Seq<T>;

    /// The values of the tree in order.
    closed spec fn view(&self) -> Seq<T> {
        in_order(self.root)
    }
}

impl<T: Ord + Clone> Tree<T> {
    /// The tree is ordered and its count is its number of nodes.
    pub closed spec fn wf(&self) -> bool {
        &&& ordered(self.root)
        &&& self.size == in_order(self.root).len()
    }

    /// The empty tree.
    pub fn new() -> (r: Tree<T>)
        ensures
            r.wf(),
            r@ == Seq::<T>::empty(),
    {
        Tree { root: None, size: 0 }
    }

    /// The number of values in the tree.
    pub fn size(&self) -> (r: u32)
        requires
            self.wf(),
        ensures
            r == self@.len(),
    {
        self.size
    }

    /// Whether a value equal to `data` is in the tree.
    pub fn search(&self, data: T) -> (r: bool)
        requires
            obeys_order::<T>(),
            self.wf(),
        ensures
            r == self@.contains(data),
    {
        match &self.root {
            None => false,
            Some(_) => Self::search_r(&self.root, &data),
        }
    }

    /// Adds `data` to the tree, below the nodes it is compared with: to the
    /// right of a node whose value is less than `data`, else to the left.
    /// Returns the new number of values.
    pub fn insert(&mut self, data: T) -> (r: u32)
        requires
            obeys_order::<T>(),
            old(self).wf(),
            old(self)@.len() < u32::MAX,
        ensures
            final(self).wf(),
            r == final(self)@.len(),
            final(self)@.len() == old(self)@.len() + 1,
            final(self)@ == old(self)@.insert(count_less(old(self)@, data) as int, data),
    {
        let ghost before = self@;
        self.root = Self::insert_r(self.root.take(), data);
        proof {
            let k = choose|k: int| place_for(before, k, data) && self@ == before.insert(k, data);
            lemma_place_is_count(before, k, data);
        }
        self.size = self.size + 1;
        self.size
    }

    /// Returns the subtree `link` with `data` added in a new leaf.
    fn insert_r(link: Option<Box<Node<T>>>, data: T) -> (r: Option<Box<Node<T>>>)
        requires
            obeys_order::<T>(),
            ordered(link),
        ensures
            ordered(r),
            exists|k: int| place_for(in_order(link), k, data) && in_order(r) == in_order(link).insert(k, data),
            link is None ==> r is Some && r.unwrap().data == data && r.unwrap().left is None
                && r.unwrap().right is None,
            link is Some ==> r is Some && r.unwrap().data == link.unwrap().data,
            link is Some && data.cmp_spec(&link.unwrap().data) == Ordering::Greater ==> r.unwrap().left
                == link.unwrap().left,
            link is Some && data.cmp_spec(&link.unwrap().data) != Ordering::Greater ==> r.unwrap().right
                == link.unwrap().right,
        decreases link,
    {
        match link {
            None => {
                let r = Some(Box::new(Node::new(data)));
                assert(in_order(r) =~= in_order(link).insert(0, data));
                r
            },
            Some(node) => {
                proof {
                    lemma_order_laws::<T>();
                }
                let Node { data: d, left, right } = *node;
                let ghost l = in_order(left);
                let ghost rs = in_order(right);
                assert(in_order(link) == l + seq![d] + rs);
                match data.cmp(&d) {
                    Ordering::Greater => {
                        let new_right = Self::insert_r(right, data);
                        let ghost k = choose|k: int| place_for(rs, k, data) && in_order(new_right) == rs.insert(k, data);
                        proof {
                            assert(lt(d, data));
                            assert forall|i: int| 0 <= i < l.len() implies lt(#[trigger] l[i], data) by {
                                assert(l.contains(l[i]));
                                assert(le(l[i], d));
                            }
                            assert(place_for(l + seq![d] + rs, l.len() + 1 + k, data));
                            lemma_insert_contains(rs, k, data);
                            assert(l + seq![d] + rs.insert(k, data) =~= (l + seq![d] + rs).insert(l.len() + 1 + k, data));
                        }
                        Some(Box::new(Node { data: d, left, right: new_right }))
                    },
                    _ => {
                        let new_left = Self::insert_r(left, data);
                        let ghost k = choose|k: int| place_for(l, k, data) && in_order(new_left) == l.insert(k, data);
                        proof {
                            assert(le(data, d));
                            assert forall|i: int| 0 <= i < rs.len() implies le(data, #[trigger] rs[i]) by {
                                assert(rs.contains(rs[i]));
                                assert(le(d, rs[i]));
                            }
                            assert(place_for(l + seq![d] + rs, k, data));
                            lemma_insert_contains(l, k, data);
                            assert(l.insert(k, data) + seq![d] + rs =~= (l + seq![d] + rs).insert(k, data));
                        }
                        Some(Box::new(Node { data: d, left: new_left, right }))
                    },
                }
            },
        }
    }

    /// Removes one node whose value equals `data`, the first met on the way
    /// down, and returns the new number of values. Fails, leaving the tree
    /// as it was, when no value equals `data`.
    pub fn remove(&mut self, data: T) -> (r: Result<u32, NotFoundError>)
        requires
            obeys_order::<T>(),
            old(self).wf(),
        ensures
            final(self).wf(),
            old(self)@.contains(data) ==> {
                &&& r == Ok::<u32, NotFoundError>(final(self)@.len() as u32)
                &&& final(self)@.len() == old(self)@.len() - 1
                &&& exists|i: int|
                    0 <= i < old(self)@.len() && old(self)@[i] == data && final(self)@
                        == old(self)@.remove(i)
            },
            !old(self)@.contains(data) ==> r == Err::<u32, NotFoundError>(NotFoundError) && *final(self)
                == *old(self),
    {
        let (root, found) = Self::remove_r(self.root.take(), &data);
        self.root = root;
        if found {
            self.size = self.size - 1;
            Ok(self.size)
        } else {
            Err(NotFoundError)
        }
    }

    /// Returns the subtree `link` without one node whose value equals
    /// `data`, and whether there was one.
    fn remove_r(link: Option<Box<Node<T>>>, data: &T) -> (r: (Option<Box<Node<T>>>, bool))
        requires
            obeys_order::<T>(),
            ordered(link),
        ensures
            ordered(r.0),
            r.1 == in_order(link).contains(*data),
            r.1 ==> exists|i: int|
                0 <= i < in_order(link).len() && in_order(link)[i] == *data && in_order(r.0)
                    == in_order(link).remove(i),
            !r.1 ==> r.0 == link,
            link is Some && link.unwrap().data == *data && link.unwrap().left is None ==> r.0
                == link.unwrap().right,
            link is Some && link.unwrap().data == *data && link.unwrap().right is None ==> r.0
                == link.unwrap().left,
            link is Some && link.unwrap().data == *data && link.unwrap().left is Some
                && link.unwrap().right is Some ==> {
                &&& r.0 is Some
                &&& r.0.unwrap().data == in_order(link.unwrap().right)[0]
                &&& r.0.unwrap().left == link.unwrap().left
                &&& in_order(r.0.unwrap().right) == in_order(link.unwrap().right).drop_first()
            },
            link is Some && link.unwrap().data != *data ==> {
                &&& r.0 is Some
                &&& r.0.unwrap().data == link.unwrap().data
                &&& lt(*data, link.unwrap().data) ==> r.0.unwrap().right == link.unwrap().right
                &&& !lt(*data, link.unwrap().data) ==> r.0.unwrap().left == link.unwrap().left
            },
        decreases link,
    {
        match link {
            None => {
                assert(in_order(link) =~= Seq::<T>::empty());
                (None, false)
            },
            Some(node) => {
                proof {
                    lemma_order_laws::<T>();
                }
                let Node { data: d, left, right } = *node;
                let ghost l = in_order(left);
                let ghost rs = in_order(right);
                let ghost s = in_order(link);
                assert(s == l + seq![d] + rs);
                proof {
                    lemma_contains_split(l, d, rs);
                }
                match data.cmp(&d) {
                    Ordering::Equal => {
                        assert(s[l.len() as int] == *data);
                        match (left, right) {
                            (None, None) => {
                                assert(in_order(None::<Box<Node<T>>>) =~= s.remove(l.len() as int));
                                (None, true)
                            },
                            (Some(ln), None) => {
                                let r = Some(ln);
                                assert(in_order(r) =~= s.remove(l.len() as int));
                                (r, true)
                            },
                            (None, Some(rn)) => {
                                let r = Some(rn);
                                assert(in_order(r) =~= s.remove(l.len() as int));
                                (r, true)
                            },
                            (Some(ln), Some(rn)) => {
                                let ghost lo = Some(ln);
                                let ghost ro = Some(rn);
                                let (rest, mut succ) = Self::take_min(rn);
                                proof {
                                    lemma_ordered_sorted(ro);
                                    assert(rs[0] == succ.data);
                                    assert forall|x: T| #[trigger] in_order(rest).contains(x) implies le(succ.data, x) && rs.contains(x) by {
                                        let j = choose|j: int| 0 <= j < in_order(rest).len() && in_order(rest)[j] == x;
                                        assert(rs[j + 1] == x);
                                    }
                                    assert(rs.contains(succ.data));
                                    assert(le(d, succ.data));
                                    assert forall|x: T| #[trigger] in_order(lo).contains(x) implies le(x, succ.data) by {
                                        assert(le(x, d));
                                    }
                                }
                                succ.left = Some(ln);
                                succ.right = rest;
                                let r = Some(succ);
                                assert(in_order(r) =~= s.remove(l.len() as int));
                                (r, true)
                            },
                        }
                    },
                    Ordering::Less => {
                        let (new_left, found) = Self::remove_r(left, data);
                        proof {
                            if rs.contains(*data) {
                                assert(le(d, *data));
                            }
                        }
                        let r = Some(Box::new(Node { data: d, left: new_left, right }));
                        proof {
                            if found {
                                let i = choose|i: int| 0 <= i < l.len() && l[i] == *data && in_order(new_left) == l.remove(i);
                                lemma_remove_contains(l, i);
                                assert(in_order(r) =~= s.remove(i));
                                assert(s[i] == *data);
                            }
                        }
                        (r, found)
                    },
                    Ordering::Greater => {
                        let (new_right, found) = Self::remove_r(right, data);
                        proof {
                            if l.contains(*data) {
                                assert(le(*data, d));
                            }
                        }
                        let r = Some(Box::new(Node { data: d, left, right: new_right }));
                        proof {
                            if found {
                                let i = choose|i: int| 0 <= i < rs.len() && rs[i] == *data && in_order(new_right) == rs.remove(i);
                                lemma_remove_contains(rs, i);
                                let k = l.len() + 1 + i;
                                assert(in_order(r) =~= s.remove(k));
                                assert(s[k] == *data);
                            }
                        }
                        (r, found)
                    },
                }
            },
        }
    }

    /// Detaches the leftmost node below `node`, the one with the least
    /// value, and returns what is left of the subtree with that node, whose
    /// right subtree takes its place.
    fn take_min(node: Box<Node<T>>) -> (r: (Option<Box<Node<T>>>, Box<Node<T>>))
        requires
            obeys_order::<T>(),
            ordered(Some(node)),
        ensures
            ordered(r.0),
            in_order(Some(node)) == seq![r.1.data] + in_order(r.0),
            r.1.left is None,
            r.1.right is None,
        decreases node,
    {
        let mut n = *node;
        match n.left.take() {
            None => {
                let rest = n.right.take();
                assert(in_order(node.left) =~= Seq::<T>::empty());
                assert(in_order(Some(node)) =~= seq![n.data] + in_order(rest));
                (rest, Box::new(n))
            },
            Some(ln) => {
                let ghost lo = Some(ln);
                let (rest_left, min) = Self::take_min(ln);
                proof {
                    assert forall|x: T| #[trigger] in_order(rest_left).contains(x) implies in_order(lo).contains(x) by {
                        let j = choose|j: int| 0 <= j < in_order(rest_left).len() && in_order(rest_left)[j] == x;
                        assert(in_order(lo)[j + 1] == x);
                    }
                }
                n.left = rest_left;
                let r = Some(Box::new(n));
                assert(in_order(Some(node)) =~= seq![min.data] + in_order(r));
                (r, min)
            },
        }
    }

    /// A deep copy: new nodes, in the same shape, holding clones of the
    /// values.
    pub fn clone(&self) -> (r: Self)
        requires
            obeys_order::<T>(),
            self.wf(),
        ensures
            r.wf(),
            r@ == self@,
            r == *self,
    {
        let mut root = None;
        let count = Self::copy_r(&self.root, &mut root);
        Tree { root, size: count }
    }

    /// Writes into `dst` a copy of the subtree `src`, and returns the number
    /// of nodes copied.
    fn copy_r(src: &Option<Box<Node<T>>>, dst: &mut Option<Box<Node<T>>>) -> (r: u32)
        requires
            obeys_order::<T>(),
            in_order(*src).len() <= u32::MAX,
        ensures
            src is None ==> *final(dst) == *old(dst),
            src is Some ==> *final(dst) == *src,
            r == in_order(*src).len(),
        decreases *src,
    {
        match src {
            None => 0,
            Some(src_node) => {
                proof {
                    lemma_order_laws::<T>();
                }
                let data = src_node.data.clone();
                assert(cloned(src_node.data, data));
                let mut new_node = Node::new(data);
                let mut number_of_nodes: u32 = Self::copy_r(&src_node.left, &mut new_node.left);
                number_of_nodes = number_of_nodes + Self::copy_r(&src_node.right, &mut new_node.right);
                number_of_nodes = number_of_nodes + 1;
                *dst = Some(Box::new(new_node));
                number_of_nodes
            },
        }
    }

    /// Hands each value, in order, to the sink `out` (a copy of it), and
    /// returns the number of values handed over.
    pub fn display(&self, out: &mut Vec<T>) -> (r: u32)
        requires
            obeys_order::<T>(),
            self.wf(),
        ensures
            final(out)@ == old(out)@ + self@,
            r == self@.len(),
    {
        Self::display_r(&self.root, out)
    }

    /// Hands the values of the subtree `link` to `out`, in order.
    fn display_r(link: &Option<Box<Node<T>>>, out: &mut Vec<T>) -> (r: u32)
        requires
            obeys_order::<T>(),
            in_order(*link).len() <= u32::MAX,
        ensures
            final(out)@ == old(out)@ + in_order(*link),
            r == in_order(*link).len(),
        decreases *link,
    {
        match link {
            None => {
                assert(old(out)@ + in_order(*link) =~= old(out)@);
                0
            },
            Some(n) => {
                proof {
                    lemma_order_laws::<T>();
                }
                let mut total: u32 = Self::display_r(&n.left, out);
                let data = n.data.clone();
                assert(cloned(n.data, data));
                out.push(data);
                total = total + 1;
                total = total + Self::display_r(&n.right, out);
                assert(out@ =~= old(out)@ + in_order(*link));
                total
            },
        }
    }

    /// Turns the tree into an iterator over its values in order.
    pub fn into_iter(self) -> (r: TreeIterator<T>)
        requires
            self.wf(),
        ensures
            r@ == self@,
    {
        let mut iter = TreeIterator::new();
        let ghost root = self.root;
        let count = Self::get_nodes_in_order(self.root, &mut iter);
        assert(count == self.size);
        assert(iter@ =~= in_order(root));
        iter
    }

    /// Moves the values of the subtree `link`, in order, to the back of
    /// `dst`, and returns how many there were.
    fn get_nodes_in_order(link: Option<Box<Node<T>>>, dst: &mut TreeIterator<T>) -> (r: u32)
        requires
            in_order(link).len() <= u32::MAX,
        ensures
            final(dst)@ == old(dst)@ + in_order(link),
            r == in_order(link).len(),
        decreases link,
    {
        match link {
            None => {
                assert(old(dst)@ + in_order(link) =~= old(dst)@);
                0
            },
            Some(node) => {
                let Node { data, left, right } = *node;
                let mut number_of_nodes: u32 = Self::get_nodes_in_order(left, dst);
                dst.nodes.push_back(data);
                number_of_nodes = number_of_nodes + 1;
                number_of_nodes = number_of_nodes + Self::get_nodes_in_order(right, dst);
                assert(final(dst)@ =~= old(dst)@ + in_order(link));
                number_of_nodes
            },
        }
    }

    /// Walks down from `link`: left where the node's value is greater than
    /// `data`, right where it is less.
    fn search_r(link: &Option<Box<Node<T>>>, data: &T) -> (r: bool)
        requires
            obeys_order::<T>(),
            ordered(*link),
        ensures
            r == in_order(*link).contains(*data),
        decreases *link,
    {
        match link {
            None => {
                assert(in_order(*link) =~= Seq::<T>::empty());
                assert(!in_order(*link).contains(*data));
                false
            },
            Some(n) => {
                proof {
                    lemma_order_laws::<T>();
                    lemma_contains_split(in_order(n.left), n.data, in_order(n.right));
                }
                let c = data.cmp(&n.data);
                match c {
                    Ordering::Equal => {
                        let ghost s = in_order(n.left) + seq![n.data] + in_order(n.right);
                        assert(in_order(*link) == s);

                        assert(s[in_order(n.left).len() as int] == n.data);
                        true
                    },
                    Ordering::Less => {
                        proof {
                            if in_order(n.right).contains(*data) {
                                assert(le(n.data, *data));
                            }
                            assert(in_order(*link) == in_order(n.left) + seq![n.data] + in_order(
                                n.right,
                            ));
                        }
                        Self::search_r(&n.left, data)
                    },
                    Ordering::Greater => {
                        proof {
                            if in_order(n.left).contains(*data) {
                                assert(le(*data, n.data));
                            }
                        }
                        Self::search_r(&n.right, data)
                    },
                }
            },
        }
    }
}

/// The values of a tree, in order, handed out front to back, each once.
pub struct TreeIterator<T> {
    nodes: VecDeque<T>,
}

impl<T> View for TreeIterator<T> {
    type V = Seq<T>;

    /// The values still to come, next first.
    closed spec fn view(&self) -> Seq<T> {
        self.nodes@
    }
}

impl<T> TreeIterator<T> {
    /// An iterator with nothing to hand out.
    pub fn new() -> (r: Self)
        ensures
            r@ == Seq::<T>::empty(),
    {
        TreeIterator { nodes: VecDeque::new() }
    }

    /// Hands out the front value and drops it, or `None` once every value
    /// has been handed out.
    pub fn next(&mut self) -> (r: Option<T>)
        ensures
            old(self)@.len() == 0 ==> r is None && final(self)@ == old(self)@,
            old(self)@.len() > 0 ==> r == Some(old(self)@[0]) && final(self)@ == old(self)@.drop_first(),
    {
        let r = self.nodes.pop_front();
        proof {
            if old(self)@.len() > 0 {
                assert(final(self)@ =~= old(self)@.drop_first());
            }
        }
        r
    }
}

} // verus!
