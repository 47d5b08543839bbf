//! A height-balanced (AVL) binary search tree of records, ordered by the
//! ordinal of each record's date.
//!
//! Records with equal dates are allowed; insertion sends a record whose key
//! equals a node's key to that node's right.

use vstd::prelude::*;
use vstd::math::max;
use crate::date::{date_ordinal, date_to_days, sort_key};
use crate::record::{Data, key_of, with_value};

verus! {

/// A node: one record, two optional children, and the height of the subtree
/// that it roots (a leaf has height 1).
#[derive(Debug, PartialEq)]
pub struct Node {
    pub data: Data,
    pub left: Option<Box<Node>>,
    pub right: Option<Box<Node>>,
    pub height: i32,
}

/// The height recorded for a subtree: 0 when it is empty.
pub open spec fn h(t: Option<Box<Node>>) -> int {
    match t {
        Some(n) => n.height as int,
        None => 0,
    }
}

/// The records of a subtree, left to right.
pub open spec fn seq_of(t: Option<Box<Node>>) -> Seq<Data>
    decreases t,
{
    match t {
        Some(n) => seq_of(n.left) + seq![n.data] + seq_of(n.right),
        None => Seq::empty(),
    }
}

/// Whether every node of a subtree records its true height and the heights
/// of its two children differ by at most one.
pub open spec fn balanced(t: Option<Box<Node>>) -> bool
    decreases t,
{
    match t {
        Some(n) => {
            &&& balanced(n.left)
            &&& balanced(n.right)
            &&& n.height as int == 1 + max(h(n.left), h(n.right))
            &&& -1 <= h(n.left) - h(n.right) <= 1
        },
        None => true,
    }
}

/// Whether the keys of `s` never decrease.
pub open spec fn sorted(s: Seq<Data>) -> bool {
    forall|i: int, j: int| 0 <= i <= j < s.len() ==> key_of(s[i]) <= key_of(s[j])
}

/// The difference of the heights of a node's two children.
pub open spec fn bf(n: Node) -> int {
    h(n.left) - h(n.right)
}

proof fn lemma_height_nonneg(t: Option<Box<Node>>)
    requires
        balanced(t),
    ensures
        h(t) >= 0,
        t is Some ==> h(t) >= 1,
    decreases t,
{
    if let Some(n) = t {
        lemma_height_nonneg(n.left);
        lemma_height_nonneg(n.right);
    }
}

/// The height recorded for `node`: 0 when it is empty.
pub fn height(node: &Option<Box<Node>>) -> (r: i32)
    ensures
        r == h(*node),
{
    match node {
        Some(n) => n.height,
        None => 0,
    }
}

/// The height of the left child of `node` minus that of its right child.
pub fn balance_factor(node: &Node) -> (r: i32)
    requires
        h(node.left) >= 0,
        h(node.right) >= 0,
    ensures
        r == bf(*node),
{
    height(&node.left) - height(&node.right)
}

/// Records in `node` one more than the larger height of its children.
pub fn update_height(node: &mut Box<Node>)
    requires
        0 <= h(old(node).left) < i32::MAX,
        0 <= h(old(node).right) < i32::MAX,
    ensures
        final(node).data == old(node).data,
        final(node).left == old(node).left,
        final(node).right == old(node).right,
        final(node).height == 1 + max(h(old(node).left), h(old(node).right)),
{
    let hl = height(&node.left);
    let hr = height(&node.right);
    node.height = if hl >= hr { hl } else { hr } + 1;
}

/// Rotates `node` to the left: its right child becomes the root of the
/// subtree, and `node` takes that child's left subtree as its right one.
/// The heights of the two nodes are recomputed, the lower one first.
pub fn rotate_left(node: Box<Node>) -> (r: Box<Node>)
    requires
        node.right is Some,
        0 <= h(node.left) <= i32::MAX - 2,
        0 <= h(node.right->0.left) <= i32::MAX - 2,
        0 <= h(node.right->0.right) <= i32::MAX - 2,
    ensures
        ({
            let c = node.right->0;
            &&& r.data == c.data
            &&& r.right == c.right
            &&& r.left matches Some(l) && {
                &&& l.data == node.data
                &&& l.left == node.left
                &&& l.right == c.left
                &&& l.height == 1 + max(h(node.left), h(c.left))
            }
            &&& r.height == 1 + max(h(r.left), h(c.right))
        }),
        seq_of(Some(r)) == seq_of(Some(node)),
{
    let ghost old_node = node;
    let mut node = node;
    let mut new_root = node.right.take().unwrap();
    node.right = new_root.left.take();
    update_height(&mut node);
    new_root.left = Some(node);
    update_height(&mut new_root);
    proof {
        let c = old_node.right->0;
        assert(seq_of(Some(new_root)) =~= seq_of(Some(old_node))) by {
            assert(seq_of(new_root.left) == seq_of(old_node.left) + seq![old_node.data] + seq_of(c.left));
            assert(seq_of(old_node.right) == seq_of(c.left) + seq![c.data] + seq_of(c.right));
        }
    }
    new_root
}

/// Rotates `node` to the right: its left child becomes the root of the
/// subtree, and `node` takes that child's right subtree as its left one.
/// The heights of the two nodes are recomputed, the lower one first.
pub fn rotate_right(node: Box<Node>) -> (r: Box<Node>)
    requires
        node.left is Some,
        0 <= h(node.right) <= i32::MAX - 2,
        0 <= h(node.left->0.left) <= i32::MAX - 2,
        0 <= h(node.left->0.right) <= i32::MAX - 2,
    ensures
        ({
            let c = node.left->0;
            &&& r.data == c.data
            &&& r.left == c.left
            &&& r.right matches Some(n) && {
                &&& n.data == node.data
                &&& n.right == node.right
                &&& n.left == c.right
                &&& n.height == 1 + max(h(c.right), h(node.right))
            }
            &&& r.height == 1 + max(h(c.left), h(r.right))
        }),
        seq_of(Some(r)) == seq_of(Some(node)),
{
    let ghost old_node = node;
    let mut node = node;
    let mut new_root = node.left.take().unwrap();
    node.left = new_root.right.take();
    update_height(&mut node);
    new_root.right = Some(node);
    update_height(&mut new_root);
    proof {
        let c = old_node.left->0;
        assert(seq_of(Some(new_root)) =~= seq_of(Some(old_node))) by {
            assert(seq_of(new_root.right) == seq_of(c.right) + seq![old_node.data] + seq_of(old_node.right));
            assert(seq_of(old_node.left) == seq_of(c.left) + seq![c.data] + seq_of(c.right));
        }
    }
    new_root
}

/// Restores the recorded height and the balance of `node`, whose two
/// subtrees are balanced and differ in height by at most two: a left-left
/// or right-right case takes one rotation, a left-right or right-left case
/// two. A node that is already balanced only gets its height recomputed.
pub fn balance(node: Box<Node>) -> (r: Box<Node>)
    requires
        balanced(node.left),
        balanced(node.right),
        -2 <= h(node.left) - h(node.right) <= 2,
        max(h(node.left), h(node.right)) < i32::MAX,
    ensures
        balanced(Some(r)),
        seq_of(Some(r)) == seq_of(Some(node)),
        -1 <= bf(*node) <= 1 ==> r.data == node.data && r.left == node.left && r.right
            == node.right,
        max(h(node.left), h(node.right)) <= r.height <= 1 + max(h(node.left), h(node.right)),
{
    proof {
        lemma_height_nonneg(node.left);
        lemma_height_nonneg(node.right);
    }
    let ghost old_node = node;
    let mut node = node;
    update_height(&mut node);
    if balance_factor(&node) > 1 {
        let ghost l = node.left->0;
        proof {
            lemma_height_nonneg(l.left);
            lemma_height_nonneg(l.right);
        }
        if balance_factor(node.left.as_ref().unwrap()) < 0 {
            let ghost lr = l.right->0;
            proof {
                assert(balanced(l.right));
                assert(balanced(Some(lr)));
                lemma_height_nonneg(lr.left);
                lemma_height_nonneg(lr.right);
            }
            let child = node.left.take().unwrap();
            node.left = Some(rotate_left(child));
            assert(seq_of(Some(node)) =~= seq_of(Some(old_node)));
            let r = rotate_right(node);
            proof {
                assert(balanced(l.left));
                assert(balanced(lr.left));
                assert(balanced(lr.right));
                assert(balanced(r.left));
                assert(balanced(r.right));
            }
            return r;
        }
        let r = rotate_right(node);
        proof {
            assert(balanced(l.left));
            assert(balanced(l.right));
            assert(balanced(r.right));
        }
        return r;
    }
    if balance_factor(&node) < -1 {
        let ghost c = node.right->0;
        proof {
            lemma_height_nonneg(c.left);
            lemma_height_nonneg(c.right);
        }
        if balance_factor(node.right.as_ref().unwrap()) > 0 {
            let ghost cl = c.left->0;
            proof {
                assert(balanced(c.left));
                assert(balanced(Some(cl)));
                lemma_height_nonneg(cl.left);
                lemma_height_nonneg(cl.right);
            }
            let child = node.right.take().unwrap();
            node.right = Some(rotate_right(child));
            assert(seq_of(Some(node)) =~= seq_of(Some(old_node)));
            let r = rotate_left(node);
            proof {
                assert(balanced(c.right));
                assert(balanced(cl.left));
                assert(balanced(cl.right));
                assert(balanced(r.left));
                assert(balanced(r.right));
            }
            return r;
        }
        let r = rotate_left(node);
        proof {
            assert(balanced(c.left));
            assert(balanced(c.right));
            assert(balanced(r.left));
        }
        return r;
    }
    node
}

/// Whether `t` is `s` with `d` inserted at index `i`, after every record
/// whose key is at most that of `d` and before every record whose key is
/// greater.
pub open spec fn inserted_at(s: Seq<Data>, t: Seq<Data>, d: Data, i: int) -> bool {
    &&& 0 <= i <= s.len()
    &&& t == s.insert(i, d)
    &&& forall|j: int| 0 <= j < i ==> key_of(#[trigger] s[j]) <= key_of(d)
    &&& forall|j: int| i <= j < s.len() ==> key_of(d) < key_of(#[trigger] s[j])
}

proof fn lemma_sorted_parts(n: Box<Node>)
    requires
        sorted(seq_of(Some(n))),
    ensures
        sorted(seq_of(n.left)),
        sorted(seq_of(n.right)),
        forall|j: int|
            0 <= j < seq_of(n.left).len() ==> key_of(#[trigger] seq_of(n.left)[j]) <= key_of(
                n.data,
            ),
        forall|j: int|
            0 <= j < seq_of(n.right).len() ==> key_of(n.data) <= key_of(
                #[trigger] seq_of(n.right)[j],
            ),
{
    let s = seq_of(Some(n));
    let l = seq_of(n.left);
    let r = seq_of(n.right);
    assert forall|j: int| 0 <= j < l.len() implies #[trigger] l[j] == s[j] by {}
    assert forall|j: int| 0 <= j < r.len() implies #[trigger] r[j] == s[l.len() + 1 + j] by {}
    assert(s[l.len() as int] == n.data);
}

proof fn lemma_inserted_sorted(s: Seq<Data>, t: Seq<Data>, d: Data, i: int)
    requires
        sorted(s),
        inserted_at(s, t, d, i),
    ensures
        sorted(t),
{
    assert forall|a: int, b: int| 0 <= a <= b < t.len() implies key_of(t[a]) <= key_of(t[b]) by {
        if a < i {
            assert(t[a] == s[a]);
        } else if a > i {
            assert(t[a] == s[a - 1]);
        }
        if b < i {
            assert(t[b] == s[b]);
        } else if b > i {
            assert(t[b] == s[b - 1]);
        }
    }
}

proof fn lemma_insert_left(l: Seq<Data>, m: Data, r: Seq<Data>, l2: Seq<Data>, d: Data, i: int)
    requires
        sorted(l + seq![m] + r),
        key_of(d) < key_of(m),
        inserted_at(l, l2, d, i),
    ensures
        inserted_at(l + seq![m] + r, l2 + seq![m] + r, d, i),
{
    let s = l + seq![m] + r;
    assert(l2 + seq![m] + r =~= s.insert(i, d));
    assert forall|j: int| i <= j < s.len() implies key_of(d) < key_of(#[trigger] s[j]) by {
        if j > l.len() {
            assert(key_of(s[l.len() as int]) <= key_of(s[j]));
        } else if j < l.len() {
            assert(s[j] == l[j]);
        }
    }
    assert forall|j: int| 0 <= j < i implies key_of(#[trigger] s[j]) <= key_of(d) by {
        assert(s[j] == l[j]);
    }
}

proof fn lemma_insert_right(l: Seq<Data>, m: Data, r: Seq<Data>, r2: Seq<Data>, d: Data, i: int)
    requires
        sorted(l + seq![m] + r),
        key_of(m) <= key_of(d),
        inserted_at(r, r2, d, i),
    ensures
        inserted_at(l + seq![m] + r, l + seq![m] + r2, d, l.len() + 1 + i),
{
    let s = l + seq![m] + r;
    let k = l.len() + 1 + i;
    assert(l + seq![m] + r2 =~= s.insert(k, d));
    assert forall|j: int| k <= j < s.len() implies key_of(d) < key_of(#[trigger] s[j]) by {
        assert(s[j] == r[j - l.len() - 1]);
    }
    assert forall|j: int| 0 <= j < k implies key_of(#[trigger] s[j]) <= key_of(d) by {
        if j < l.len() {
            assert(key_of(s[j]) <= key_of(s[l.len() as int]));
        } else if j > l.len() {
            assert(s[j] == r[j - l.len() - 1]);
        }
    }
}

/// Inserts a copy of `data` into the subtree `root`, to the right of every
/// record with an equal key, and rebalances the path back up.
pub fn insert(root: &mut Option<Box<Node>>, data: &Data)
    requires
        balanced(*old(root)),
        sorted(seq_of(*old(root))),
        h(*old(root)) < i32::MAX,
    ensures
        balanced(*final(root)),
        h(*old(root)) <= h(*final(root)) <= h(*old(root)) + 1,
        exists|i: int| inserted_at(seq_of(*old(root)), seq_of(*final(root)), *data, i),
    decreases *old(root),
{
    let ghost s = seq_of(*root);
    match root.take() {
        None => {
            *root = Some(
                Box::new(Node { data: data.duplicate(), left: None, right: None, height: 1 }),
            );
            assert(seq_of(*root) =~= s.insert(0, *data));
            assert(inserted_at(s, seq_of(*root), *data, 0));
        },
        Some(node) => {
            let mut node = node;
            proof {
                lemma_height_nonneg(node.left);
                lemma_height_nonneg(node.right);
                lemma_sorted_parts(node);
            }
            let ghost l = seq_of(node.left);
            let ghost r = seq_of(node.right);
            if sort_key(&data.date) < sort_key(&node.data.date) {
                insert(&mut node.left, data);
                proof {
                    let i = choose|i: int| inserted_at(l, seq_of(node.left), *data, i);
                    lemma_insert_left(l, node.data, r, seq_of(node.left), *data, i);
                    assert(inserted_at(s, seq_of(Some(node)), *data, i));
                }
            } else {
                insert(&mut node.right, data);
                proof {
                    let i = choose|i: int| inserted_at(r, seq_of(node.right), *data, i);
                    lemma_insert_right(l, node.data, r, seq_of(node.right), *data, i);
                    assert(inserted_at(s, seq_of(Some(node)), *data, l.len() + 1 + i));
                }
            }
            *root = Some(balance(node));
        },
    }
}

/// The index in `seq_of(t)` of the record at which a search for key `k`
/// stops: it goes left while `k` is below a node's key, right while above,
/// and stops at the first node whose key is `k`. `-1` when there is none.
pub open spec fn locate(t: Option<Box<Node>>, k: int) -> int
    decreases t,
{
    match t {
        Some(n) => if k < key_of(n.data) {
            locate(n.left, k)
        } else if k > key_of(n.data) {
            let j = locate(n.right, k);
            if j < 0 {
                -1
            } else {
                seq_of(n.left).len() + 1 + j
            }
        } else {
            seq_of(n.left).len() as int
        },
        None => -1,
    }
}

/// What a search reaches is a record with the key sought; in a sorted tree
/// it reaches none exactly when no record has that key.
pub proof fn lemma_locate(t: Option<Box<Node>>, k: int)
    ensures
        -1 <= locate(t, k) < seq_of(t).len(),
        locate(t, k) >= 0 ==> key_of(seq_of(t)[locate(t, k)]) == k,
        sorted(seq_of(t)) ==> (locate(t, k) < 0 <==> forall|i: int|
            0 <= i < seq_of(t).len() ==> key_of(#[trigger] seq_of(t)[i]) != k),
    decreases t,
{
    if let Some(n) = t {
        lemma_locate(n.left, k);
        lemma_locate(n.right, k);
        let s = seq_of(t);
        let l = seq_of(n.left);
        let r = seq_of(n.right);
        assert forall|j: int| 0 <= j < l.len() implies #[trigger] s[j] == l[j] by {}
        assert forall|j: int| 0 <= j < r.len() implies #[trigger] s[l.len() + 1 + j] == r[j] by {}
        assert(s[l.len() as int] == n.data);
        if locate(t, k) >= 0 {
            if k < key_of(n.data) {
                assert(s[locate(t, k)] == l[locate(t, k)]);
            } else if k > key_of(n.data) {
                assert(s[locate(t, k)] == r[locate(n.right, k)]);
            }
            assert(key_of(s[locate(t, k)]) == k);
        }
        if sorted(s) {
            lemma_sorted_parts(n);
            if locate(t, k) < 0 {
                assert forall|i: int| 0 <= i < s.len() implies key_of(#[trigger] s[i]) != k by {
                    if i < l.len() {
                        assert(s[i] == l[i]);
                    } else if i > l.len() {
                        assert(s[i] == r[i - l.len() - 1]);
                    }
                }
            }
        }
    }
}

/// The node at which a search for key `k` stops, if any.
pub fn search_node(root: &Option<Box<Node>>, k: i64) -> (r: Option<&Node>)
    ensures
        r is Some <==> locate(*root, k as int) >= 0,
        r matches Some(n) ==> n.data == seq_of(*root)[locate(*root, k as int)],
    decreases *root,
{
    match root {
        None => None,
        Some(node) => {
            let nk = sort_key(&node.data.date);
            if k < nk {
                proof {
                    lemma_locate(node.left, k as int);
                }
                search_node(&node.left, k)
            } else if k > nk {
                let r = search_node(&node.right, k);
                proof {
                    lemma_locate(node.right, k as int);
                }
                r
            } else {
                Some(&**node)
            }
        },
    }
}

/// Removes the leftmost node of a subtree, rebalancing the path back up,
/// and returns what is left of the subtree with that node's record.
pub fn remove_min(node: Box<Node>) -> (r: (Option<Box<Node>>, Data))
    requires
        balanced(Some(node)),
    ensures
        r.1 == seq_of(Some(node))[0],
        seq_of(r.0) == seq_of(Some(node)).drop_first(),
        balanced(r.0),
        node.height - 1 <= h(r.0) <= node.height,
    decreases node,
{
    proof {
        lemma_height_nonneg(node.left);
        lemma_height_nonneg(node.right);
    }
    let ghost s = seq_of(Some(node));
    let ghost old_node = node;
    let mut node = node;
    match node.left.take() {
        None => {
            let n = *node;
            assert(seq_of(old_node.left) == Seq::<Data>::empty());
            assert(s == seq![n.data] + seq_of(n.right));
            assert(seq_of(n.right) =~= s.drop_first());
            (n.right, n.data)
        },
        Some(left) => {
            let (rest, min) = remove_min(left);
            node.left = rest;
            assert(seq_of(Some(node)) =~= s.drop_first());
            (Some(balance(node)), min)
        },
    }
}

proof fn lemma_remove_left(l: Seq<Data>, m: Data, r: Seq<Data>, i: int)
    requires
        0 <= i < l.len(),
    ensures
        l.remove(i) + seq![m] + r == (l + seq![m] + r).remove(i),
{
    assert(l.remove(i) + seq![m] + r =~= (l + seq![m] + r).remove(i));
}

proof fn lemma_remove_right(l: Seq<Data>, m: Data, r: Seq<Data>, i: int)
    requires
        0 <= i < r.len(),
    ensures
        l + seq![m] + r.remove(i) == (l + seq![m] + r).remove(l.len() + 1 + i),
{
    assert(l + seq![m] + r.remove(i) =~= (l + seq![m] + r).remove(l.len() + 1 + i));
}

/// Removes the root record of a subtree: a root with at most one child
/// gives way to that child; one with two children takes the record of its
/// in-order successor, which leaves the right subtree.
fn remove_root(node: Box<Node>) -> (r: Option<Box<Node>>)
    requires
        balanced(Some(node)),
    ensures
        balanced(r),
        seq_of(r) == seq_of(Some(node)).remove(seq_of(node.left).len() as int),
        node.height - 1 <= h(r) <= node.height,
{
    proof {
        lemma_height_nonneg(node.left);
        lemma_height_nonneg(node.right);
    }
    let ghost s = seq_of(Some(node));
    let ghost l = seq_of(node.left);
    let mut node = node;
    if node.left.is_none() {
        let r = node.right.take();
        assert(seq_of(r) =~= s.remove(0));
        r
    } else if node.right.is_none() {
        assert(seq_of(node.right) == Seq::<Data>::empty());
        let r = node.left.take();
        assert(seq_of(r) =~= s.remove(l.len() as int));
        r
    } else {
        let right = node.right.take().unwrap();
        let (rest, successor) = remove_min(right);
        node.right = rest;
        node.data = successor;
        assert(seq_of(Some(node)) =~= s.remove(l.len() as int));
        Some(balance(node))
    }
}

/// Removes from the subtree `root` the record at which a search for key
/// `k` stops, and rebalances the path back up. When the search stops
/// nowhere the subtree is left as it was.
pub fn delete_node(root: &mut Option<Box<Node>>, k: i64)
    requires
        balanced(*old(root)),
    ensures
        balanced(*final(root)),
        h(*old(root)) - 1 <= h(*final(root)) <= h(*old(root)),
        locate(*old(root), k as int) < 0 ==> *final(root) == *old(root),
        locate(*old(root), k as int) >= 0 ==> seq_of(*final(root)) == seq_of(*old(root)).remove(
            locate(*old(root), k as int),
        ),
    decreases *old(root),
{
    match root.take() {
        None => {},
        Some(node) => {
            proof {
                lemma_height_nonneg(node.left);
                lemma_height_nonneg(node.right);
            }
            let ghost old_node = node;
            let mut node = node;
            let nk = sort_key(&node.data.date);
            if k < nk {
                delete_node(&mut node.left, k);
                proof {
                    lemma_locate(old_node.left, k as int);
                    if locate(old_node.left, k as int) >= 0 {
                        lemma_remove_left(
                            seq_of(old_node.left),
                            node.data,
                            seq_of(node.right),
                            locate(old_node.left, k as int),
                        );
                    } else {
                        assert(node == old_node);
                    }
                }
                *root = Some(balance(node));
            } else if k > nk {
                delete_node(&mut node.right, k);
                proof {
                    lemma_locate(old_node.right, k as int);
                    if locate(old_node.right, k as int) >= 0 {
                        lemma_remove_right(
                            seq_of(node.left),
                            node.data,
                            seq_of(old_node.right),
                            locate(old_node.right, k as int),
                        );
                    } else {
                        assert(node == old_node);
                    }
                }
                *root = Some(balance(node));
            } else {
                *root = remove_root(node);
            }
        },
    }
}

/// Sets to `value` the value of the record at which a search for key `k`
/// stops. Returns whether there was one; the shape of the subtree does not
/// change.
pub fn edit_node(root: &mut Option<Box<Node>>, k: i64, value: u64) -> (found: bool)
    ensures
        found == (locate(*old(root), k as int) >= 0),
        !found ==> *final(root) == *old(root),
        found ==> seq_of(*final(root)) == seq_of(*old(root)).update(
            locate(*old(root), k as int),
            with_value(seq_of(*old(root))[locate(*old(root), k as int)], value),
        ),
        h(*final(root)) == h(*old(root)),
        balanced(*old(root)) ==> balanced(*final(root)),
    decreases *old(root),
{
    match root.take() {
        None => false,
        Some(node) => {
            let ghost old_node = node;
            let ghost s = seq_of(Some(node));
            let ghost l = seq_of(node.left);
            let ghost r = seq_of(node.right);
            let mut node = node;
            let nk = sort_key(&node.data.date);
            let found = if k < nk {
                let found = edit_node(&mut node.left, k, value);
                proof {
                    lemma_locate(old_node.left, k as int);
                    if found {
                        let i = locate(old_node.left, k as int);
                        assert(seq_of(Some(node)) =~= s.update(i, with_value(s[i], value)));
                    } else {
                        assert(node == old_node);
                    }
                }
                found
            } else if k > nk {
                let found = edit_node(&mut node.right, k, value);
                proof {
                    lemma_locate(old_node.right, k as int);
                    if found {
                        let i = locate(old_node.right, k as int);
                        assert(s[l.len() + 1 + i] == r[i]);
                        assert(seq_of(Some(node)) =~= s.update(
                            l.len() + 1 + i,
                            with_value(s[l.len() + 1 + i], value),
                        ));
                    } else {
                        assert(node == old_node);
                    }
                }
                found
            } else {
                node.data.value = value;
                assert(seq_of(Some(node)) =~= s.update(
                    l.len() as int,
                    with_value(s[l.len() as int], value),
                ));
                true
            };
            *root = Some(node);
            found
        },
    }
}

/// Appends copies of the records of the subtree `root` to `out`, left to
/// right.
pub fn inorder(root: &Option<Box<Node>>, out: &mut Vec<Data>)
    ensures
        final(out)@ == old(out)@ + seq_of(*root),
    decreases *root,
{
    if let Some(node) = root {
        let ghost start = out@;
        inorder(&node.left, out);
        out.push(node.data.duplicate());
        inorder(&node.right, out);
        assert(out@ =~= start + seq_of(*root));
    } else {
        assert(out@ =~= out@ + seq_of(*root));
    }
}

/// Why a date could not be acted on.
#[derive(Debug, Clone, Copy, PartialEq, Eq, Structural)]
pub enum TreeError {
    /// The date text is not a `day/month/year` date.
    Decode,
    /// No record has that date.
    NotFound,
}

/// An index of records ordered by the ordinal of their dates.
#[derive(Debug, PartialEq)]
pub struct AvlTree {
    pub root: Option<Box<Node>>,
}

impl View for AvlTree {
    type V = Seq<Data>;

    /// The records of the index, in ascending order of date.
    open spec fn view(&self) -> Seq<Data> {
        seq_of(self.root)
    }
}

impl AvlTree {
    /// Every node records its true height, is balanced, and the records
    /// are in ascending order of date.
    pub open spec fn wf(&self) -> bool {
        balanced(self.root) && sorted(self@)
    }

    /// An empty index.
    pub fn new() -> (t: AvlTree)
        ensures
            t.wf(),
            t@ == Seq::<Data>::empty(),
    {
        AvlTree { root: None }
    }

    /// Inserts a copy of `data` after every record whose date is not later.
    pub fn insert(&mut self, data: &Data)
        requires
            old(self).wf(),
            h(old(self).root) < i32::MAX,
        ensures
            final(self).wf(),
            exists|i: int| inserted_at(old(self)@, final(self)@, *data, i),
            h(old(self).root) <= h(final(self).root) <= h(old(self).root) + 1,
    {
        insert(&mut self.root, data);
        proof {
            let i = choose|i: int| inserted_at(old(self)@, self@, *data, i);
            lemma_inserted_sorted(old(self)@, self@, *data, i);
        }
    }

    /// Copies of the records, in ascending order of date.
    pub fn inorder(&self) -> (r: Vec<Data>)
        ensures
            r@ == self@,
    {
        let mut out: Vec<Data> = Vec::new();
        inorder(&self.root, &mut out);
        assert(out@ =~= self@);
        out
    }

    /// The node at which a search for the date `date_str` stops, if that
    /// date decodes. In a well-formed index it is `None` exactly when no
    /// record has that date's ordinal.
    pub fn search(&self, date_str: &str) -> (r: Option<&Node>)
        ensures
            match date_ordinal(date_str@) {
                None => r is None,
                Some(k) => {
                    &&& (r is Some <==> locate(self.root, k as int) >= 0)
                    &&& (r matches Some(n) ==> n.data == self@[locate(self.root, k as int)])
                    &&& (self.wf() ==> (r is None <==> forall|i: int|
                        0 <= i < self@.len() ==> key_of(#[trigger] self@[i]) != k))
                },
            },
    {
        match date_to_days(date_str) {
            None => None,
            Some(k) => {
                proof {
                    lemma_locate(self.root, k as int);
                }
                search_node(&self.root, k as i64)
            },
        }
    }

    /// Removes the record at which a search for `date_str` stops. A date
    /// that does not decode, or that no record has, leaves the index as
    /// it was.
    pub fn delete(&mut self, date_str: &str)
        requires
            old(self).wf(),
        ensures
            final(self).wf(),
            match date_ordinal(date_str@) {
                None => *final(self) == *old(self),
                Some(k) => {
                    let i = locate(old(self).root, k as int);
                    &&& -1 <= i < old(self)@.len()
                    &&& i < 0 ==> *final(self) == *old(self)
                    &&& i >= 0 ==> final(self)@ == old(self)@.remove(i)
                    &&& i >= 0 ==> key_of(old(self)@[i]) == k
                    &&& i < 0 <==> forall|j: int|
                        0 <= j < old(self)@.len() ==> key_of(#[trigger] old(self)@[j]) != k
                },
            },
    {
        match date_to_days(date_str) {
            None => {},
            Some(k) => {
                delete_node(&mut self.root, k as i64);
                proof {
                    lemma_locate(old(self).root, k as int);
                    let i = locate(old(self).root, k as int);
                    if i >= 0 {
                        lemma_removed_sorted(old(self)@, i);
                    }
                }
            },
        }
    }

    /// Sets to `value` the value of the record at which a search for
    /// `date_str` stops.
    pub fn edit(&mut self, date_str: &str, value: u64) -> (r: Result<(), TreeError>)
        requires
            old(self).wf(),
        ensures
            final(self).wf(),
            match date_ordinal(date_str@) {
                None => r == Err::<(), TreeError>(TreeError::Decode) && *final(self) == *old(self),
                Some(k) => {
                    let i = locate(old(self).root, k as int);
                    &&& -1 <= i < old(self)@.len()
                    &&& i < 0 ==> r == Err::<(), TreeError>(TreeError::NotFound) && *final(self)
                        == *old(self)
                    &&& i >= 0 ==> r == Ok::<(), TreeError>(()) && final(self)@ == old(
                        self,
                    )@.update(i, with_value(old(self)@[i], value))
                    &&& i >= 0 ==> key_of(old(self)@[i]) == k
                    &&& i < 0 <==> forall|j: int|
                        0 <= j < old(self)@.len() ==> key_of(#[trigger] old(self)@[j]) != k
                },
            },
    {
        match date_to_days(date_str) {
            None => Err(TreeError::Decode),
            Some(k) => {
                let found = edit_node(&mut self.root, k as i64, value);
                proof {
                    lemma_locate(old(self).root, k as int);
                    let i = locate(old(self).root, k as int);
                    if found {
                        assert forall|a: int, b: int| 0 <= a <= b < self@.len() implies key_of(
                            self@[a],
                        ) <= key_of(self@[b]) by {
                            assert(key_of(self@[a]) == key_of(old(self)@[a]));
                            assert(key_of(self@[b]) == key_of(old(self)@[b]));
                        }
                    }
                }
                if found {
                    Ok(())
                } else {
                    Err(TreeError::NotFound)
                }
            },
        }
    }
}

proof fn lemma_removed_sorted(s: Seq<Data>, i: int)
    requires
        sorted(s),
        0 <= i < s.len(),
    ensures
        sorted(s.remove(i)),
{
    let t = s.remove(i);
    assert forall|a: int, b: int| 0 <= a <= b < t.len() implies key_of(t[a]) <= key_of(t[b]) by {
        let a2 = if a < i { a } else { a + 1 };
        let b2 = if b < i { b } else { b + 1 };
        assert(t[a] == s[a2]);
        assert(t[b] == s[b2]);
    }
}

} // verus!
