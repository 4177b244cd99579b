//! The nested tree derived from a flat table by splitting keys on `.`.
//!
//! A [`TreeNode`] is either a string leaf or an object holding named
//! children in insertion order. Building walks every table pair in stored
//! order: interior segments materialize objects (replacing any non-object
//! already there), and the final segment is set to the value.

use vstd::prelude::*;

use crate::text::{find_char, str_eq, find_char_in};

verus! {

/// A node of the nested tree: a string leaf, or an object of named children.
#[derive(Debug)]
pub enum TreeNode {
    Leaf(String),
    Object(Vec<(String, TreeNode)>),
}

/// The mathematical value of a [`TreeNode`].
pub enum TreeV {
    Leaf(Seq<char>),
    Object(Seq<(Seq<char>, TreeV)>),
}

/// The view of a node.
pub open spec fn node_view(n: TreeNode) -> TreeV
    decreases n, 0int,
{
    match n {
        TreeNode::Leaf(s) => TreeV::Leaf(s@),
        TreeNode::Object(cs) => TreeV::Object(subtrees_view(cs, 0)),
    }
}

/// The views of the children of an object node, from position `i` on.
pub open spec fn subtrees_view(cs: Vec<(String, TreeNode)>, i: int) -> Seq<(Seq<char>, TreeV)>
    decreases cs, cs.len() - i, via subtrees_view_decreases
{
    if i < 0 || i >= cs.len() {
        Seq::empty()
    } else {
        seq![(cs@[i].0@, node_view(cs@[i].1))] + subtrees_view(cs, i + 1)
    }
}

#[via_fn]
proof fn subtrees_view_decreases(cs: Vec<(String, TreeNode)>, i: int) {
    broadcast use vstd::std_specs::vec::axiom_vec_index_decreases;

    if 0 <= i < cs.len() {
        assert(decreases_to!(cs => cs@[i]));
        assert(decreases_to!(cs@[i] => cs@[i].1));
    }
}

impl View for TreeNode {
    type V = TreeV;

    open spec fn view(&self) -> TreeV {
        node_view(*self)
    }
}

/// The children views, pointwise.
pub proof fn lemma_subtrees_view(cs: Vec<(String, TreeNode)>, i: int)
    requires
        0 <= i <= cs.len(),
    ensures
        subtrees_view(cs, i).len() == cs.len() - i,
        forall|k: int|
            0 <= k < cs.len() - i ==> #[trigger] subtrees_view(cs, i)[k] == (
                cs@[k + i].0@,
                node_view(cs@[k + i].1),
            ),
    decreases cs.len() - i,
{
    if i < cs.len() {
        lemma_subtrees_view(cs, i + 1);
        assert forall|k: int| 0 <= k < cs.len() - i implies #[trigger] subtrees_view(cs, i)[k] == (
            cs@[k + i].0@,
            node_view(cs@[k + i].1),
        ) by {
            if k > 0 {
                assert(subtrees_view(cs, i + 1)[k - 1] == (
                    cs@[k - 1 + (i + 1)].0@,
                    node_view(cs@[k - 1 + (i + 1)].1),
                ));
            }
        }
    }
}

/// The dot-separated segments of a key; a key without any `.` is a single
/// segment, so the result is never empty.
pub open spec fn split_path(s: Seq<char>) -> Seq<Seq<char>>
    decreases s.len(),
{
    let i = find_char(s, '.');
    if 0 <= i < s.len() {
        seq![s.take(i)] + split_path(s.skip(i + 1))
    } else {
        seq![s]
    }
}

/// The first position in a children list holding key `k`, or the list's
/// length when no child does.
pub open spec fn assoc_find(cs: Seq<(Seq<char>, TreeV)>, k: Seq<char>) -> int
    decreases cs.len(),
{
    if cs.len() == 0 {
        0
    } else if cs[0].0 == k {
        0
    } else {
        1 + assoc_find(cs.drop_first(), k)
    }
}

pub proof fn lemma_assoc_find_at(cs: Seq<(Seq<char>, TreeV)>, k: Seq<char>, i: int)
    requires
        0 <= i <= cs.len(),
        forall|j: int| 0 <= j < i ==> cs[j].0 != k,
        i < cs.len() ==> cs[i].0 == k,
    ensures
        assoc_find(cs, k) == i,
    decreases i,
{
    if cs.len() == 0 {
    } else if i == 0 {
    } else {
        lemma_assoc_find_at(cs.drop_first(), k, i - 1);
    }
}

/// Writing one value at a path below an object: interior segments walk or
/// create objects (a non-object in the way is replaced), and the final
/// segment is set to a leaf carrying the value.
pub open spec fn obj_insert(
    cs: Seq<(Seq<char>, TreeV)>,
    path: Seq<Seq<char>>,
    value: Seq<char>,
) -> Seq<(Seq<char>, TreeV)>
    decreases path.len(),
{
    let k = path[0];
    let i = assoc_find(cs, k);
    if path.len() <= 1 {
        if i < cs.len() {
            cs.update(i, (k, TreeV::Leaf(value)))
        } else {
            cs.push((k, TreeV::Leaf(value)))
        }
    } else {
        let child = if i < cs.len() && cs[i].1 is Object {
            cs[i].1->Object_0
        } else {
            Seq::empty()
        };
        let new_child = TreeV::Object(obj_insert(child, path.drop_first(), value));
        if i < cs.len() {
            cs.update(i, (k, new_child))
        } else {
            cs.push((k, new_child))
        }
    }
}

/// The children of the tree built from a list of pairs, first to last.
pub open spec fn build_tree(es: Seq<(Seq<char>, Seq<char>)>) -> Seq<(Seq<char>, TreeV)>
    decreases es.len(),
{
    if es.len() == 0 {
        Seq::empty()
    } else {
        obj_insert(build_tree(es.drop_last()), split_path(es.last().0), es.last().1)
    }
}

/// The tree is a function of the stored pairs alone: two tables holding
/// the same pairs in the same order always build structurally identical
/// trees, whatever happened around them.
pub proof fn lemma_build_tree_deterministic(
    es1: Seq<(Seq<char>, Seq<char>)>,
    es2: Seq<(Seq<char>, Seq<char>)>,
)
    requires
        es1 == es2,
    ensures
        build_tree(es1) == build_tree(es2),
{
}

/// The node at a path below an object, if the path leads to one.
pub open spec fn tree_lookup(cs: Seq<(Seq<char>, TreeV)>, path: Seq<Seq<char>>) -> Option<TreeV>
    decreases path.len(),
{
    if path.len() == 0 {
        None
    } else {
        let i = assoc_find(cs, path[0]);
        if i < cs.len() {
            if path.len() == 1 {
                Some(cs[i].1)
            } else if cs[i].1 is Object {
                tree_lookup(cs[i].1->Object_0, path.drop_first())
            } else {
                None
            }
        } else {
            None
        }
    }
}

/// `p` leads to `q` or is `q`: the keys collide in the tree.
pub open spec fn is_path_prefix(p: Seq<Seq<char>>, q: Seq<Seq<char>>) -> bool
    decreases p.len(),
{
    p.len() <= q.len() && (p.len() == 0 || (p[0] == q[0] && is_path_prefix(
        p.drop_first(),
        q.drop_first(),
    )))
}

/// Two paths collide when one is a prefix of the other (or they are equal).
pub open spec fn paths_collide(p: Seq<Seq<char>>, q: Seq<Seq<char>>) -> bool {
    is_path_prefix(p, q) || is_path_prefix(q, p)
}

proof fn lemma_assoc_find_props(cs: Seq<(Seq<char>, TreeV)>, k: Seq<char>)
    ensures
        0 <= assoc_find(cs, k) <= cs.len(),
        assoc_find(cs, k) < cs.len() ==> cs[assoc_find(cs, k)].0 == k,
        forall|t: int| 0 <= t < assoc_find(cs, k) ==> cs[t].0 != k,
    decreases cs.len(),
{
    if cs.len() > 0 && cs[0].0 != k {
        lemma_assoc_find_props(cs.drop_first(), k);
        assert forall|t: int| 0 <= t < assoc_find(cs, k) implies cs[t].0 != k by {
            if t > 0 {
                assert(cs.drop_first()[t - 1].0 != k);
            }
        }
    }
}

/// A write is read back at its own path: looking the path up after the
/// write finds exactly the leaf carrying the written value.
pub proof fn lemma_obj_insert_sets(cs: Seq<(Seq<char>, TreeV)>, path: Seq<Seq<char>>, v: Seq<char>)
    requires
        path.len() > 0,
    ensures
        tree_lookup(obj_insert(cs, path, v), path) == Some(TreeV::Leaf(v)),
    decreases path.len(),
{
    let k = path[0];
    let i = assoc_find(cs, k);
    let cs2 = obj_insert(cs, path, v);
    lemma_assoc_find_props(cs, k);
    assert forall|t: int| 0 <= t < i implies cs2[t].0 != k by {
        assert(cs[t].0 != k);
    }
    assert(cs2[i].0 == k);
    lemma_assoc_find_at(cs2, k, i);
    if path.len() > 1 {
        let child = if i < cs.len() && cs[i].1 is Object {
            cs[i].1->Object_0
        } else {
            Seq::<(Seq<char>, TreeV)>::empty()
        };
        lemma_obj_insert_sets(child, path.drop_first(), v);
    }
}

/// A write at one path never disturbs what any non-colliding path leads
/// to: leaf assignment is keyed by the full path, not by arrival order, so
/// for non-colliding keys the final tree does not depend on which write
/// came first.
pub proof fn lemma_obj_insert_preserves(
    cs: Seq<(Seq<char>, TreeV)>,
    path: Seq<Seq<char>>,
    v: Seq<char>,
    other: Seq<Seq<char>>,
)
    requires
        path.len() > 0,
        other.len() > 0,
        !paths_collide(path, other),
    ensures
        tree_lookup(obj_insert(cs, path, v), other) == tree_lookup(cs, other),
    decreases path.len(),
{
    let k = path[0];
    let i = assoc_find(cs, k);
    let cs2 = obj_insert(cs, path, v);
    lemma_assoc_find_props(cs, k);
    lemma_assoc_find_props(cs, other[0]);
    let j = assoc_find(cs, other[0]);
    if k != other[0] {
        // the write touches only the entry named `k`
        if j < cs.len() {
            assert(i != j);
            assert forall|t: int| 0 <= t < j implies cs2[t].0 != other[0] by {
                assert(cs[t].0 != other[0]);
            }
            assert(cs2[j] == cs[j]);
            lemma_assoc_find_at(cs2, other[0], j);
        } else {
            assert forall|t: int| 0 <= t < cs2.len() implies cs2[t].0 != other[0] by {
                if t < cs.len() {
                    assert(cs[t].0 != other[0]);
                }
            }
            lemma_assoc_find_at(cs2, other[0], cs2.len() as int);
        }
    } else {
        // same head segment: the two paths part ways further down
        if path.len() == 1 {
            assert(is_path_prefix(path.drop_first(), other.drop_first()));
            assert(is_path_prefix(path, other));
        }
        if other.len() == 1 {
            assert(is_path_prefix(other.drop_first(), path.drop_first()));
            assert(is_path_prefix(other, path));
        }
        assert(path.len() > 1 && other.len() > 1);
        if is_path_prefix(path.drop_first(), other.drop_first()) {
            assert(is_path_prefix(path, other));
        }
        if is_path_prefix(other.drop_first(), path.drop_first()) {
            assert(is_path_prefix(other, path));
        }
        assert(!paths_collide(path.drop_first(), other.drop_first()));
        assert forall|t: int| 0 <= t < i implies cs2[t].0 != k by {
            assert(cs[t].0 != k);
        }
        assert(cs2[i].0 == k);
        lemma_assoc_find_at(cs2, k, i);
        let child = if i < cs.len() && cs[i].1 is Object {
            cs[i].1->Object_0
        } else {
            Seq::<(Seq<char>, TreeV)>::empty()
        };
        lemma_obj_insert_preserves(child, path.drop_first(), v, other.drop_first());
        if i < cs.len() && !(cs[i].1 is Object) {
            assert(tree_lookup(child, other.drop_first()) == None::<TreeV>);
            assert(tree_lookup(cs, other) == None::<TreeV>);
        }
        if i == cs.len() {
            assert(tree_lookup(child, other.drop_first()) == None::<TreeV>);
            assert(tree_lookup(cs, other) == None::<TreeV>);
        }
    }
}

/// In a tree built from pairs whose key paths pairwise do not collide,
/// every key's path leads to the leaf carrying that key's value — whatever
/// position the pair had in the sequence. What a path holds is decided by
/// the path alone, not by arrival order.
pub proof fn lemma_build_tree_paths(es: Seq<(Seq<char>, Seq<char>)>, i: int)
    requires
        0 <= i < es.len(),
        forall|a: int, b: int|
            0 <= a < b < es.len() ==> !paths_collide(
                split_path(es[a].0),
                split_path(es[b].0),
            ),
    ensures
        tree_lookup(build_tree(es), split_path(es[i].0)) == Some(TreeV::Leaf(es[i].1)),
    decreases es.len(),
{
    let head = es.drop_last();
    let last = es.last();
    assert(split_path(last.0).len() >= 1);
    assert(split_path(es[i].0).len() >= 1);
    if i == es.len() - 1 {
        lemma_obj_insert_sets(build_tree(head), split_path(last.0), last.1);
    } else {
        assert forall|a: int, b: int| 0 <= a < b < head.len() implies !paths_collide(
            split_path(#[trigger] head[a].0),
            split_path(#[trigger] head[b].0),
        ) by {
            assert(head[a] == es[a] && head[b] == es[b]);
        }
        assert(head[i] == es[i]);
        lemma_build_tree_paths(head, i);
        assert(!paths_collide(split_path(es[i].0), split_path(last.0)));
        assert(!paths_collide(split_path(last.0), split_path(es[i].0)));
        lemma_obj_insert_preserves(
            build_tree(head),
            split_path(last.0),
            last.1,
            split_path(es[i].0),
        );
    }
}

/// Writes `value` below `cs` at the path formed by the segments of
/// `key[lo..]`.
#[verifier::loop_isolation(false)]
pub(crate) fn insert_into(
    cs: Vec<(String, TreeNode)>,
    key: &str,
    lo: usize,
    value: &str,
) -> (r: Vec<(String, TreeNode)>)
    requires
        lo <= key@.len(),
    ensures
        subtrees_view(r, 0) == obj_insert(
            subtrees_view(cs, 0),
            split_path(key@.subrange(lo as int, key@.len() as int)),
            value@,
        ),
    decreases key@.len() - lo,
{
    let mut cs = cs;
    let n = key.unicode_len();
    let ghost rest = key@.subrange(lo as int, n as int);
    let ghost path = split_path(rest);
    let ghost cv = subtrees_view(cs, 0);
    proof {
        lemma_subtrees_view(cs, 0);
    }
    let e = find_char_in(key, lo, n, '.');
    let seg = key.substring_char(lo, e);
    proof {
        assert(rest =~= key@.subrange(lo as int, n as int));
        assert(find_char(rest, '.') == e - lo);
        assert(seg@ =~= rest.take(e - lo));
        if e < n {
            assert(path == seq![seg@] + split_path(rest.skip(e - lo + 1)));
            assert(rest.skip(e - lo + 1) =~= key@.subrange(e + 1 as int, n as int));
            assert(path.drop_first() =~= split_path(key@.subrange(e + 1 as int, n as int)));
        } else {
            assert(seg@ =~= rest);
            assert(path == seq![seg@]);
        }
        assert(path[0] == seg@);
    }
    // find the child with this segment's name
    let m = cs.len();
    let mut j: usize = 0;
    while j < m && !str_eq(cs[j].0.as_str(), seg)
        invariant
            0 <= j <= m,
            m == cs.len(),
            forall|t: int| 0 <= t < j ==> cv[t].0 != seg@,
        decreases m - j,
    {
        proof {
            assert(cv[j as int].0 == cs@[j as int].0@);
        }
        j = j + 1;
    }
    proof {
        if j < m {
            assert(cv[j as int].0 == cs@[j as int].0@);
            assert(cv[j as int].0 == seg@);
        }
        lemma_assoc_find_at(cv, seg@, j as int);
    }
    if e == n {
        // final segment: set the leaf
        let leaf = TreeNode::Leaf(value.to_owned());
        let ghost before = cs@;
        if j < m {
            let name = seg.to_owned();
            cs.remove(j);
            let ghost mid = cs@;
            cs.insert(j, (name, leaf));
            proof {
                assert forall|t: int| 0 <= t < before.len() && t != j as int implies cs@[t]
                    == before[t] by {
                    if t < j as int {
                        assert(mid[t] == before[t]);
                        assert(cs@[t] == mid[t]);
                    } else {
                        assert(mid[t - 1] == before[t]);
                        assert(cs@[t] == mid[t - 1]);
                    }
                }
                lemma_subtrees_view(cs, 0);
                assert(node_view(cs@[j as int].1) == TreeV::Leaf(value@));
                assert(cs@[j as int].0@ == seg@);
                assert(subtrees_view(cs, 0) =~= cv.update(
                    j as int,
                    (seg@, TreeV::Leaf(value@)),
                ));
            }
        } else {
            let name = seg.to_owned();
            cs.push((name, leaf));
            proof {
                assert(cs@ =~= before.push(cs@[m as int]));
                lemma_subtrees_view(cs, 0);
                assert(node_view(cs@[m as int].1) == TreeV::Leaf(value@));
                assert(subtrees_view(cs, 0) =~= cv.push((seg@, TreeV::Leaf(value@))));
            }
        }
        cs
    } else {
        // interior segment: walk or create an object child
        let ghost child_v = if j < m && cv[j as int].1 is Object {
            cv[j as int].1->Object_0
        } else {
            Seq::<(Seq<char>, TreeV)>::empty()
        };
        let ghost before = cs@;
        if j < m {
            let (name, child) = cs.remove(j);
            let child_cs = match child {
                TreeNode::Object(cc) => cc,
                _ => Vec::new(),
            };
            proof {
                if !(cv[j as int].1 is Object) {
                    assert(subtrees_view(child_cs, 0) =~= child_v);
                } else {
                    assert(cv[j as int].1 == node_view(before[j as int].1));
                    assert(subtrees_view(child_cs, 0) == child_v);
                }
            }
            let new_cs = insert_into(child_cs, key, e + 1, value);
            let node = TreeNode::Object(new_cs);
            let ghost mid = cs@;
            cs.insert(j, (name, node));
            proof {
                assert forall|t: int| 0 <= t < before.len() && t != j as int implies cs@[t]
                    == before[t] by {
                    if t < j as int {
                        assert(mid[t] == before[t]);
                        assert(cs@[t] == mid[t]);
                    } else {
                        assert(mid[t - 1] == before[t]);
                        assert(cs@[t] == mid[t - 1]);
                    }
                }
                lemma_subtrees_view(cs, 0);
                assert(node_view(cs@[j as int].1) == TreeV::Object(
                    obj_insert(child_v, path.drop_first(), value@),
                ));
                assert(cs@[j as int].0@ == seg@);
                assert(subtrees_view(cs, 0) =~= cv.update(
                    j as int,
                    (seg@, TreeV::Object(obj_insert(child_v, path.drop_first(), value@))),
                ));
            }
        } else {
            let name = seg.to_owned();
            let fresh: Vec<(String, TreeNode)> = Vec::new();
            proof {
                assert(subtrees_view(fresh, 0) =~= child_v);
            }
            let new_cs = insert_into(fresh, key, e + 1, value);
            let node = TreeNode::Object(new_cs);
            cs.push((name, node));
            proof {
                assert(cs@ =~= before.push(cs@[m as int]));
                lemma_subtrees_view(cs, 0);
                assert(node_view(node) == TreeV::Object(
                    obj_insert(child_v, path.drop_first(), value@),
                ));
                assert(subtrees_view(cs, 0) =~= cv.push(
                    (seg@, TreeV::Object(obj_insert(child_v, path.drop_first(), value@))),
                ));
            }
        }
        cs
    }
}

} // verus!
