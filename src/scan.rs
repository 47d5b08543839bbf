//! Scans of a whole tree by record value, which the tree is not ordered by.
//! They walk the nodes in pre-order: a node, then its left subtree, then its
//! right subtree.

use vstd::prelude::*;
use crate::record::Data;
use crate::tree::Node;

verus! {

/// The records of a subtree in pre-order.
pub open spec fn preorder(t: Option<Box<Node>>) -> Seq<Data>
    decreases t,
{
    match t {
        Some(n) => seq![n.data] + preorder(n.left) + preorder(n.right),
        None => Seq::empty(),
    }
}

/// Whether `s[i]` has the largest value of `s` and no earlier record has
/// that value.
pub open spec fn first_max_at(s: Seq<Data>, i: int) -> bool {
    &&& 0 <= i < s.len()
    &&& forall|j: int| 0 <= j < s.len() ==> (#[trigger] s[j]).value <= s[i].value
    &&& forall|j: int| 0 <= j < i ==> (#[trigger] s[j]).value < s[i].value
}

/// Whether `s[i]` has the smallest value of `s` and no earlier record has
/// that value.
pub open spec fn first_min_at(s: Seq<Data>, i: int) -> bool {
    &&& 0 <= i < s.len()
    &&& forall|j: int| 0 <= j < s.len() ==> s[i].value <= (#[trigger] s[j]).value
    &&& forall|j: int| 0 <= j < i ==> s[i].value < (#[trigger] s[j]).value
}

/// Whether, among the first `n` records of `s`, `s[i]` has the largest
/// value and no earlier record has that value.
pub open spec fn max_upto(s: Seq<Data>, n: int, i: int) -> bool {
    &&& 0 <= i < n <= s.len()
    &&& forall|j: int| 0 <= j < n ==> (#[trigger] s[j]).value <= s[i].value
    &&& forall|j: int| 0 <= j < i ==> (#[trigger] s[j]).value < s[i].value
}

/// Whether, among the first `n` records of `s`, `s[i]` has the smallest
/// value and no earlier record has that value.
pub open spec fn min_upto(s: Seq<Data>, n: int, i: int) -> bool {
    &&& 0 <= i < n <= s.len()
    &&& forall|j: int| 0 <= j < n ==> s[i].value <= (#[trigger] s[j]).value
    &&& forall|j: int| 0 <= j < i ==> s[i].value < (#[trigger] s[j]).value
}

proof fn lemma_max_extend(s: Seq<Data>, n: int, at: int, p: Seq<Data>, ip: int)
    requires
        max_upto(s, n, at),
        n + p.len() <= s.len(),
        forall|j: int| 0 <= j < p.len() ==> s[n + j] == #[trigger] p[j],
        first_max_at(p, ip),
    ensures
        max_upto(s, n + p.len(), if p[ip].value > s[at].value { n + ip } else { at }),
{
    assert forall|j: int| n <= j < n + p.len() implies #[trigger] s[j] == p[j - n] by {
        assert(s[n + (j - n)] == p[j - n]);
    }
}

proof fn lemma_min_extend(s: Seq<Data>, n: int, at: int, p: Seq<Data>, ip: int)
    requires
        min_upto(s, n, at),
        n + p.len() <= s.len(),
        forall|j: int| 0 <= j < p.len() ==> s[n + j] == #[trigger] p[j],
        first_min_at(p, ip),
    ensures
        min_upto(s, n + p.len(), if p[ip].value < s[at].value { n + ip } else { at }),
{
    assert forall|j: int| n <= j < n + p.len() implies #[trigger] s[j] == p[j - n] by {
        assert(s[n + (j - n)] == p[j - n]);
    }
}

/// The node with the largest value in the subtree `root`; of several with
/// that value, the first in pre-order. `None` for an empty subtree.
pub fn find_max_value_node(root: &Option<Box<Node>>) -> (r: Option<&Node>)
    ensures
        r is None <==> root is None,
        r matches Some(n) ==> exists|i: int|
            first_max_at(preorder(*root), i) && n.data == preorder(*root)[i],
    decreases *root,
{
    match root {
        None => None,
        Some(node) => {
            let ghost s = preorder(*root);
            let ghost pl = preorder(node.left);
            let ghost pr = preorder(node.right);
            let left_max = find_max_value_node(&node.left);
            let right_max = find_max_value_node(&node.right);
            let mut max_node: &Node = &**node;
            let ghost mut at: int = 0;
            assert forall|j: int| 0 <= j < pl.len() implies s[1 + j] == #[trigger] pl[j] by {}
            assert forall|j: int| 0 <= j < pr.len() implies s[1 + pl.len() + j]
                == #[trigger] pr[j] by {}
            assert(max_upto(s, 1, 0) && max_node.data == s[0]);
            if let Some(l_node) = left_max {
                proof {
                    let il = choose|i: int| first_max_at(pl, i) && l_node.data == pl[i];
                    lemma_max_extend(s, 1, at, pl, il);
                    if l_node.data.value > max_node.data.value {
                        at = 1 + il;
                    }
                }
                if l_node.data.value > max_node.data.value {
                    max_node = l_node;
                }
            }
            assert(max_upto(s, 1 + pl.len() as int, at) && max_node.data == s[at]);
            if let Some(r_node) = right_max {
                proof {
                    let ir = choose|i: int| first_max_at(pr, i) && r_node.data == pr[i];
                    lemma_max_extend(s, 1 + pl.len() as int, at, pr, ir);
                    if r_node.data.value > max_node.data.value {
                        at = 1 + pl.len() as int + ir;
                    }
                }
                if r_node.data.value > max_node.data.value {
                    max_node = r_node;
                }
            }
            assert(max_upto(s, s.len() as int, at) && first_max_at(s, at));
            Some(max_node)
        },
    }
}

/// The node with the smallest value in the subtree `root`; of several with
/// that value, the first in pre-order. `None` for an empty subtree.
pub fn find_min_value_node(root: &Option<Box<Node>>) -> (r: Option<&Node>)
    ensures
        r is None <==> root is None,
        r matches Some(n) ==> exists|i: int|
            first_min_at(preorder(*root), i) && n.data == preorder(*root)[i],
    decreases *root,
{
    match root {
        None => None,
        Some(node) => {
            let ghost s = preorder(*root);
            let ghost pl = preorder(node.left);
            let ghost pr = preorder(node.right);
            let left_min = find_min_value_node(&node.left);
            let right_min = find_min_value_node(&node.right);
            let mut min_node: &Node = &**node;
            let ghost mut at: int = 0;
            assert forall|j: int| 0 <= j < pl.len() implies s[1 + j] == #[trigger] pl[j] by {}
            assert forall|j: int| 0 <= j < pr.len() implies s[1 + pl.len() + j]
                == #[trigger] pr[j] by {}
            assert(min_upto(s, 1, 0) && min_node.data == s[0]);
            if let Some(l_node) = left_min {
                proof {
                    let il = choose|i: int| first_min_at(pl, i) && l_node.data == pl[i];
                    lemma_min_extend(s, 1, at, pl, il);
                    if l_node.data.value < min_node.data.value {
                        at = 1 + il;
                    }
                }
                if l_node.data.value < min_node.data.value {
                    min_node = l_node;
                }
            }
            assert(min_upto(s, 1 + pl.len() as int, at) && min_node.data == s[at]);
            if let Some(r_node) = right_min {
                proof {
                    let ir = choose|i: int| first_min_at(pr, i) && r_node.data == pr[i];
                    lemma_min_extend(s, 1 + pl.len() as int, at, pr, ir);
                    if r_node.data.value < min_node.data.value {
                        at = 1 + pl.len() as int + ir;
                    }
                }
                if r_node.data.value < min_node.data.value {
                    min_node = r_node;
                }
            }
            assert(min_upto(s, s.len() as int, at) && first_min_at(s, at));
            Some(min_node)
        },
    }
}

/// The records of a subtree whose value is `value`, in pre-order.
pub open spec fn matching(t: Option<Box<Node>>, value: u64) -> Seq<Data>
    decreases t,
{
    match t {
        Some(n) => (if n.data.value == value {
            seq![n.data]
        } else {
            Seq::empty()
        }) + matching(n.left, value) + matching(n.right, value),
        None => Seq::empty(),
    }
}

/// The records of the nodes in `nodes`.
pub open spec fn records_of(nodes: Seq<&Node>) -> Seq<Data> {
    nodes.map_values(|n: &Node| n.data)
}

/// The first `n` records of `s`, or all of them if there are fewer.
pub open spec fn at_most(s: Seq<Data>, n: int) -> Seq<Data> {
    if s.len() <= n {
        s
    } else {
        s.take(n)
    }
}

/// Appends to `nodes`, in pre-order, every node of the subtree `root`
/// whose value is `value`.
pub fn nodes_with_same_value<'a>(
    root: &'a Option<Box<Node>>,
    value: &u64,
    nodes: &mut Vec<&'a Node>,
)
    ensures
        records_of(final(nodes)@) == records_of(old(nodes)@) + matching(*root, *value),
    decreases *root,
{
    if let Some(node) = root {
        let ghost start = records_of(nodes@);
        if node.data.value == *value {
            nodes.push(&**node);
        }
        assert(records_of(nodes@) =~= start + (if node.data.value == *value {
            seq![node.data]
        } else {
            Seq::empty()
        }));
        nodes_with_same_value(&node.left, value, nodes);
        nodes_with_same_value(&node.right, value, nodes);
        assert(records_of(nodes@) =~= start + matching(*root, *value));
    } else {
        assert(records_of(nodes@) =~= records_of(nodes@) + matching(*root, *value));
    }
}

proof fn lemma_at_most_append(x: Seq<Data>, y: Seq<Data>, n: int)
    requires
        n >= 0,
    ensures
        at_most(at_most(x, n) + y, n) == at_most(x + y, n),
{
    if x.len() > n {
        assert(at_most(at_most(x, n) + y, n) =~= at_most(x + y, n));
    }
}

/// Appends to `nodes`, in pre-order, the nodes of the subtree `root` whose
/// value is `value`, and stops once `nodes` holds `limit` nodes.
pub fn collect_matching<'a>(
    root: &'a Option<Box<Node>>,
    value: u64,
    limit: usize,
    nodes: &mut Vec<&'a Node>,
)
    requires
        old(nodes).len() <= limit,
    ensures
        records_of(final(nodes)@) == at_most(
            records_of(old(nodes)@) + matching(*root, value),
            limit as int,
        ),
        final(nodes).len() <= limit,
    decreases *root,
{
    let ghost start = records_of(nodes@);
    if nodes.len() >= limit {
        assert(records_of(nodes@) =~= at_most(start + matching(*root, value), limit as int));
        return;
    }
    if let Some(node) = root {
        let ghost own = if node.data.value == value {
            seq![node.data]
        } else {
            Seq::empty()
        };
        if node.data.value == value {
            nodes.push(&**node);
        }
        assert(records_of(nodes@) =~= at_most(start + own, limit as int));
        collect_matching(&node.left, value, limit, nodes);
        proof {
            lemma_at_most_append(start + own, matching(node.left, value), limit as int);
        }
        collect_matching(&node.right, value, limit, nodes);
        proof {
            lemma_at_most_append(
                start + own + matching(node.left, value),
                matching(node.right, value),
                limit as int,
            );
            assert(start + own + matching(node.left, value) + matching(node.right, value)
                =~= start + matching(*root, value));
        }
    } else {
        assert(records_of(nodes@) =~= at_most(start + matching(*root, value), limit as int));
    }
}

} // verus!
