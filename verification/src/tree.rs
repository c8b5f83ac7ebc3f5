//! The virtual tree builder: a depth-bounded listing of one physical root,
//! and the merge that presents the hidden staging tree and the public
//! content tree as one logical tree.
//!
//! On a name collision the public placement always wins: a hidden entry
//! never replaces a public one.  A hidden-only entry surfaces in the merged
//! tree tagged hidden.

use vstd::prelude::*;
use crate::fs::{FsEntryV, MemFs};
use crate::strutil::str_eq;

verus! {

broadcast use vstd::std_specs::vec::axiom_vec_index_decreases, vstd::seq::group_seq_axioms;

/// Kind of a tree node.
#[derive(Clone, Copy, Debug, PartialEq, Eq, Structural)]
pub enum NodeType {
    File,
    Directory,
}

/// One node of the logical content tree: name, kind, discovery provenance
/// (hidden or public), and ordered children.
pub struct FileSystemNode {
    pub name: String,
    pub type_: NodeType,
    pub is_hidden: bool,
    pub children: Vec<FileSystemNode>,
}

/// The mathematical value of a tree node.
pub struct NodeV {
    pub name: Seq<char>,
    pub is_dir: bool,
    pub hidden: bool,
    pub children: Seq<NodeV>,
}

/// The values of a vector of nodes, elementwise.
pub open spec fn nodes_view(v: Vec<FileSystemNode>) -> Seq<NodeV>
    decreases v,
{
    Seq::new(
        v@.len(),
        |i: int|
            if 0 <= i < v@.len() {
                node_view(v@[i])
            } else {
                vstd::pervasive::arbitrary()
            },
    )
}

/// The value of a node, recursively.
pub open spec fn node_view(n: FileSystemNode) -> NodeV
    decreases n,
{
    NodeV {
        name: n.name@,
        is_dir: n.type_ is Directory,
        hidden: n.is_hidden,
        children: nodes_view(n.children),
    }
}

/// Child names are pairwise distinct, recursively.
pub open spec fn node_wf(v: NodeV) -> bool
    decreases v,
{
    &&& forall|i: int, j: int|
        0 <= i < j < v.children.len() ==> (#[trigger] v.children[i]).name != (
        #[trigger] v.children[j]).name
    &&& forall|i: int| 0 <= i < v.children.len() ==> node_wf(#[trigger] v.children[i])
}

/// The position of the child named `name`, or a negative number when no
/// child carries that name.
pub open spec fn find_child(cs: Seq<NodeV>, name: Seq<char>) -> int
    decreases cs.len(),
{
    if cs.len() == 0 {
        -1
    } else if cs[0].name == name {
        0
    } else {
        let r = find_child(cs.drop_first(), name);
        if r < 0 {
            -1
        } else {
            r + 1
        }
    }
}

proof fn lemma_find_child(cs: Seq<NodeV>, name: Seq<char>)
    ensures
        find_child(cs, name) < 0 ==> forall|i: int| 0 <= i < cs.len() ==> (
        #[trigger] cs[i]).name != name,
        find_child(cs, name) >= 0 ==> find_child(cs, name) < cs.len() && cs[find_child(
            cs,
            name,
        )].name == name,
    decreases cs.len(),
{
    if cs.len() > 0 && cs[0].name != name {
        lemma_find_child(cs.drop_first(), name);
        if find_child(cs, name) < 0 {
            assert forall|i: int| 0 <= i < cs.len() implies (#[trigger] cs[i]).name != name by {
                if i > 0 {
                    assert(cs.drop_first()[i - 1] == cs[i]);
                }
            }
        } else {
            assert(cs.drop_first()[find_child(cs.drop_first(), name)] == cs[find_child(cs, name)]);
        }
    }
}

/// Merging one hidden child into a public node.
pub open spec fn merge_one(a: NodeV, c: NodeV) -> NodeV
    decreases c, 0int, 1int,
{
    let i = find_child(a.children, c.name);
    if c.is_dir {
        if i >= 0 {
            NodeV { children: a.children.update(i, merge_node(a.children[i], c)), ..a }
        } else {
            let fresh = NodeV {
                name: c.name,
                is_dir: true,
                hidden: false,
                children: Seq::empty(),
            };
            NodeV { children: a.children.push(merge_node(fresh, c)), ..a }
        }
    } else {
        if i >= 0 {
            a
        } else {
            NodeV { children: a.children.push(c), ..a }
        }
    }
}

/// Merging the hidden children `cs[i..]` into a public node, in order.
pub open spec fn merge_children(a: NodeV, cs: Seq<NodeV>, i: int) -> NodeV
    decreases cs, cs.len() - i, 0int,
{
    if i < 0 || i >= cs.len() {
        a
    } else {
        merge_children(merge_one(a, cs[i]), cs, i + 1)
    }
}

/// Merging a whole hidden node into a public node: every hidden child is
/// merged in order; the public node's own name, kind and flag stay.
pub open spec fn merge_node(a: NodeV, b: NodeV) -> NodeV
    decreases b, 0int, 0int,
{
    merge_children(a, b.children, 0)
}

/// The public placement wins: merging a hidden file whose name is already
/// taken changes nothing at all.
pub proof fn lemma_merge_public_wins(a: NodeV, c: NodeV)
    requires
        !c.is_dir,
        find_child(a.children, c.name) >= 0,
    ensures
        merge_one(a, c) == a,
{
}

/// The child named like `c` already carries everything `c` brings: for a
/// file, any same-named child; for a directory, a same-named child that is
/// itself a merge with `c`.
pub open spec fn absorbed(x: NodeV, c: NodeV) -> bool {
    let i = find_child(x.children, c.name);
    if c.is_dir {
        i >= 0 && exists|y: NodeV| node_wf(y) && x.children[i] == #[trigger] merge_node(y, c)
    } else {
        i >= 0
    }
}

/// Appending a child moves the search result only for its own name.
proof fn lemma_find_child_push(cs: Seq<NodeV>, c: NodeV, name: Seq<char>)
    ensures
        find_child(cs.push(c), name) == if find_child(cs, name) >= 0 {
            find_child(cs, name)
        } else if c.name == name {
            cs.len() as int
        } else {
            -1int
        },
    decreases cs.len(),
{
    let ps = cs.push(c);
    assert(ps.len() == cs.len() + 1);
    if cs.len() == 0 {
        assert(ps[0] == c);
        assert(ps.drop_first() =~= Seq::<NodeV>::empty());
        if c.name == name {
            assert(find_child(ps, name) == 0);
        } else {
            assert(find_child(ps.drop_first(), name) == -1);
            assert(find_child(ps, name) == -1);
        }
    } else {
        assert(ps[0] == cs[0]);
        if cs[0].name == name {
            assert(find_child(ps, name) == 0);
            assert(find_child(cs, name) == 0);
        } else {
            lemma_find_child_push(cs.drop_first(), c, name);
            assert(ps.drop_first() =~= cs.drop_first().push(c));
            assert(find_child(ps.drop_first(), name) == find_child(cs.drop_first().push(c), name));
        }
    }
}

/// Replacing a child with one of the same name leaves every search alone.
proof fn lemma_find_child_update(cs: Seq<NodeV>, i: int, c: NodeV, name: Seq<char>)
    requires
        0 <= i < cs.len(),
        c.name == cs[i].name,
    ensures
        find_child(cs.update(i, c), name) == find_child(cs, name),
    decreases cs.len(),
{
    if i == 0 {
        assert(cs.update(i, c)[0] == c);
        if cs[0].name != name {
            assert(cs.update(0, c).drop_first() =~= cs.drop_first());
        }
    } else {
        assert(cs.update(i, c)[0] == cs[0]);
        if cs[0].name != name {
            lemma_find_child_update(cs.drop_first(), i - 1, c, name);
            assert(cs.update(i, c).drop_first() =~= cs.drop_first().update(i - 1, c));
        }
    }
}

/// After one merge, the merged child is absorbed.
proof fn lemma_merge_one_absorbs(a: NodeV, c: NodeV)
    requires
        node_wf(a),
        node_wf(c),
    ensures
        absorbed(merge_one(a, c), c),
{
    let i = find_child(a.children, c.name);
    lemma_find_child(a.children, c.name);
    let r = merge_one(a, c);
    if c.is_dir {
        if i >= 0 {
            lemma_merge_node_wf(a.children[i], c);
            lemma_find_child_update(a.children, i, merge_node(a.children[i], c), c.name);
            assert(r.children[i] == merge_node(a.children[i], c));
        } else {
            let fresh = NodeV {
                name: c.name,
                is_dir: true,
                hidden: false,
                children: Seq::empty(),
            };
            lemma_merge_node_wf(fresh, c);
            lemma_find_child_push(a.children, merge_node(fresh, c), c.name);
            assert(r.children[a.children.len() as int] == merge_node(fresh, c));
        }
    } else {
        if i >= 0 {
        } else {
            lemma_find_child_push(a.children, c, c.name);
        }
    }
}

/// Merging a child of another name does not shake an absorbed one loose.
proof fn lemma_merge_one_keeps_absorbed(a: NodeV, c2: NodeV, c: NodeV)
    requires
        node_wf(a),
        node_wf(c2),
        absorbed(a, c),
        c2.name != c.name,
    ensures
        absorbed(merge_one(a, c2), c),
{
    let i = find_child(a.children, c.name);
    let i2 = find_child(a.children, c2.name);
    lemma_find_child(a.children, c.name);
    lemma_find_child(a.children, c2.name);
    let r = merge_one(a, c2);
    if c2.is_dir {
        if i2 >= 0 {
            lemma_merge_node_wf(a.children[i2], c2);
            lemma_find_child_update(a.children, i2, merge_node(a.children[i2], c2), c.name);
            assert(i2 != i);
            assert(r.children[i] == a.children[i]);
        } else {
            let fresh = NodeV {
                name: c2.name,
                is_dir: true,
                hidden: false,
                children: Seq::empty(),
            };
            lemma_merge_node_wf(fresh, c2);
            lemma_find_child_push(a.children, merge_node(fresh, c2), c.name);
            assert(r.children[i] == a.children[i]);
        }
    } else {
        if i2 >= 0 {
        } else {
            lemma_find_child_push(a.children, c2, c.name);
            assert(r.children[i] == a.children[i]);
        }
    }
}

/// Merging an absorbed child changes nothing.
proof fn lemma_merge_one_absorbed_identity(a: NodeV, c: NodeV)
    requires
        node_wf(a),
        node_wf(c),
        absorbed(a, c),
    ensures
        merge_one(a, c) == a,
    decreases c, 1int, 1int,
{
    let i = find_child(a.children, c.name);
    lemma_find_child(a.children, c.name);
    if c.is_dir {
        let y = choose|y: NodeV| node_wf(y) && a.children[i] == #[trigger] merge_node(y, c);
        lemma_merge_node_idempotent(y, c);
        assert(merge_node(a.children[i], c) == a.children[i]);
        assert(a.children.update(i, a.children[i]) =~= a.children);
    }
}

/// A first pass absorbs every child it merges, and keeps what was already
/// absorbed under another name.
proof fn lemma_merge_children_absorbs(a: NodeV, cs: Seq<NodeV>, i: int)
    requires
        node_wf(a),
        forall|j: int| 0 <= j < cs.len() ==> node_wf(#[trigger] cs[j]),
        forall|j: int, l: int| 0 <= j < l < cs.len() ==> (#[trigger] cs[j]).name != (
        #[trigger] cs[l]).name,
        0 <= i <= cs.len(),
    ensures
        forall|j: int| i <= j < cs.len() ==> absorbed(merge_children(a, cs, i), #[trigger] cs[j]),
        forall|j: int|
            0 <= j < i && absorbed(a, #[trigger] cs[j]) ==> absorbed(merge_children(a, cs, i), cs[j]),
    decreases cs.len() - i,
{
    if 0 <= i < cs.len() {
        let a2 = merge_one(a, cs[i]);
        lemma_merge_one_wf(a, cs[i]);
        lemma_merge_one_absorbs(a, cs[i]);
        assert forall|j: int| 0 <= j < i && absorbed(a, #[trigger] cs[j]) implies absorbed(
            a2,
            cs[j],
        ) by {
            lemma_merge_one_keeps_absorbed(a, cs[i], cs[j]);
        }
        lemma_merge_children_absorbs(a2, cs, i + 1);
        assert forall|j: int| i <= j < cs.len() implies absorbed(
            merge_children(a, cs, i),
            #[trigger] cs[j],
        ) by {
            if j == i {
                assert(absorbed(a2, cs[i]));
            }
        }
    }
}

/// A pass over children that are all absorbed is the identity.
proof fn lemma_merge_children_absorbed_identity(a: NodeV, cs: Seq<NodeV>, i: int)
    requires
        node_wf(a),
        forall|j: int| 0 <= j < cs.len() ==> node_wf(#[trigger] cs[j]),
        forall|j: int| i <= j < cs.len() ==> absorbed(a, #[trigger] cs[j]),
    ensures
        merge_children(a, cs, i) == a,
    decreases cs, cs.len() - i, 2int,
{
    if 0 <= i < cs.len() {
        lemma_merge_one_absorbed_identity_sized(a, cs, i);
        lemma_merge_children_absorbed_identity(a, cs, i + 1);
    }
}

/// Size-bridging step of the identity pass: the absorbed child sits inside
/// the sequence, so the inner induction measure stays below it.
proof fn lemma_merge_one_absorbed_identity_sized(a: NodeV, cs: Seq<NodeV>, i: int)
    requires
        node_wf(a),
        0 <= i < cs.len(),
        forall|j: int| 0 <= j < cs.len() ==> node_wf(#[trigger] cs[j]),
        absorbed(a, cs[i]),
    ensures
        merge_one(a, cs[i]) == a,
    decreases cs, cs.len() - i, 1int,
{
    lemma_merge_one_absorbed_identity(a, cs[i]);
}

/// Merging the same hidden tree twice is the same as merging it once: the
/// first merge absorbs every hidden entry, so the second changes nothing.
pub proof fn lemma_merge_node_idempotent(a: NodeV, b: NodeV)
    requires
        node_wf(a),
        node_wf(b),
    ensures
        merge_node(merge_node(a, b), b) == merge_node(a, b),
    decreases b, 0int, 0int,
{
    let merged = merge_node(a, b);
    lemma_merge_node_wf(a, b);
    lemma_merge_children_absorbs(a, b.children, 0);
    lemma_merge_children_absorbed_identity(merged, b.children, 0);
}

/// Merging one hidden child keeps the node well formed and leaves its own
/// name, kind and flag alone.
proof fn lemma_merge_one_wf(a: NodeV, c: NodeV)
    requires
        node_wf(a),
        node_wf(c),
    ensures
        node_wf(merge_one(a, c)),
        merge_one(a, c).name == a.name,
        merge_one(a, c).is_dir == a.is_dir,
        merge_one(a, c).hidden == a.hidden,
    decreases c, 0int, 1int,
{
    let i = find_child(a.children, c.name);
    lemma_find_child(a.children, c.name);
    if c.is_dir {
        if i >= 0 {
            lemma_merge_node_wf(a.children[i], c);
            let r = merge_one(a, c);
            assert forall|x: int| 0 <= x < r.children.len() implies node_wf(
                #[trigger] r.children[x],
            ) by {
                if x != i {
                    assert(r.children[x] == a.children[x]);
                }
            }
        } else {
            let fresh = NodeV {
                name: c.name,
                is_dir: true,
                hidden: false,
                children: Seq::empty(),
            };
            lemma_merge_node_wf(fresh, c);
            let r = merge_one(a, c);
            assert forall|x: int| 0 <= x < r.children.len() implies node_wf(
                #[trigger] r.children[x],
            ) by {
                if x < a.children.len() {
                    assert(r.children[x] == a.children[x]);
                }
            }
        }
    } else {
        if i < 0 {
            let r = merge_one(a, c);
            assert forall|x: int| 0 <= x < r.children.len() implies node_wf(
                #[trigger] r.children[x],
            ) by {
                if x < a.children.len() {
                    assert(r.children[x] == a.children[x]);
                }
            }
        }
    }
}

/// Merging a suffix of hidden children keeps the node well formed.
proof fn lemma_merge_children_wf(a: NodeV, cs: Seq<NodeV>, i: int)
    requires
        node_wf(a),
        forall|j: int| 0 <= j < cs.len() ==> node_wf(#[trigger] cs[j]),
    ensures
        node_wf(merge_children(a, cs, i)),
        merge_children(a, cs, i).name == a.name,
        merge_children(a, cs, i).is_dir == a.is_dir,
        merge_children(a, cs, i).hidden == a.hidden,
    decreases cs, cs.len() - i, 0int,
{
    if 0 <= i < cs.len() {
        lemma_merge_one_wf(a, cs[i]);
        lemma_merge_children_wf(merge_one(a, cs[i]), cs, i + 1);
    }
}

/// Merging a whole hidden node keeps the public node well formed.
pub proof fn lemma_merge_node_wf(a: NodeV, b: NodeV)
    requires
        node_wf(a),
        node_wf(b),
    ensures
        node_wf(merge_node(a, b)),
        merge_node(a, b).name == a.name,
        merge_node(a, b).is_dir == a.is_dir,
        merge_node(a, b).hidden == a.hidden,
    decreases b, 0int, 0int,
{
    lemma_merge_children_wf(a, b.children, 0);
}

/// A front-to-back scan finds exactly [`find_child`].
proof fn lemma_find_child_first(cs: Seq<NodeV>, name: Seq<char>, i: int)
    requires
        0 <= i <= cs.len(),
        forall|j: int| 0 <= j < i ==> (#[trigger] cs[j]).name != name,
        i < cs.len() ==> cs[i].name == name,
    ensures
        find_child(cs, name) == if i < cs.len() {
            i
        } else {
            -1int
        },
    decreases i,
{
    if cs.len() > 0 {
        if i == 0 {
        } else {
            assert(cs[0].name != name);
            lemma_find_child_first(cs.drop_first(), name, i - 1);
            assert(forall|j: int|
                0 <= j < cs.drop_first().len() ==> cs.drop_first()[j] == cs[j + 1]);
        }
    }
}

/// Find the position of the child named `name`, scanning front to back.
fn find_child_exec(children: &Vec<FileSystemNode>, name: &str) -> (r: Option<usize>)
    ensures
        match r {
            Some(i) => i < children@.len() && find_child(nodes_view(*children), name@) == i as int,
            None => find_child(nodes_view(*children), name@) < 0,
        },
{
    let n = children.len();
    let mut i: usize = 0;
    while i < n
        invariant
            0 <= i <= n,
            n == children@.len(),
            forall|j: int| 0 <= j < i ==> (#[trigger] nodes_view(*children)[j]).name != name@,
        decreases n - i,
    {
        if str_eq(children[i].name.as_str(), name) {
            proof {
                assert(nodes_view(*children)[i as int].name == name@);
                lemma_find_child_first(nodes_view(*children), name@, i as int);
            }
            return Some(i);
        }
        proof {
            assert(nodes_view(*children)[i as int].name == children@[i as int].name@);
        }
        i += 1;
    }
    proof {
        lemma_find_child_first(nodes_view(*children), name@, n as int);
    }
    None
}

/// Merge a hidden subtree into a public subtree: for each hidden child,
/// directories are merged recursively into the same-named public node
/// (created fresh, unhidden, when absent) and files are inserted only when
/// no same-named entry exists — the public placement always wins.
pub fn merge_tree(public_list: &mut FileSystemNode, hidden_list: FileSystemNode)
    requires
        node_wf(node_view(*old(public_list))),
        node_wf(node_view(hidden_list)),
    ensures
        node_view(*final(public_list)) == merge_node(
            node_view(*old(public_list)),
            node_view(hidden_list),
        ),
        node_wf(node_view(*final(public_list))),
{
    merge_tree_rec(public_list, &hidden_list);
}

/// Recursive worker for [`merge_tree`], taking the hidden subtree by
/// reference.
fn merge_tree_rec(public_list: &mut FileSystemNode, hidden_list: &FileSystemNode)
    requires
        node_wf(node_view(*old(public_list))),
        node_wf(node_view(*hidden_list)),
    ensures
        node_view(*final(public_list)) == merge_node(
            node_view(*old(public_list)),
            node_view(*hidden_list),
        ),
        node_wf(node_view(*final(public_list))),
    decreases node_view(*hidden_list),
{
    let ghost hv = node_view(*hidden_list);
    let ghost apv = node_view(*old(public_list));
    proof {
        lemma_merge_node_wf(apv, hv);
    }
    let n0 = hidden_list.children.len();
    let mut k: usize = 0;
    while k < n0
        invariant
            0 <= k <= n0,
            node_wf(node_view(*public_list)),
            node_wf(hv),
            hv == node_view(*hidden_list),
            n0 == hv.children.len(),
            n0 == hidden_list.children@.len(),
            merge_children(apv, hv.children, 0) == merge_children(
                node_view(*public_list),
                hv.children,
                k as int,
            ),
        decreases n0 - k,
    {
        let hc = &hidden_list.children[k];
        let ghost pre = node_view(*public_list);
        let ghost hcv = node_view(*hc);
        proof {
            assert(hcv == hv.children[k as int]);
            assert(forall|j: int| 0 <= j < hv.children.len() ==> node_wf(#[trigger] hv.children[j]));
            lemma_merge_one_wf(pre, hcv);
            assert(decreases_to!(hv => hv.children));
            assert(decreases_to!(hv.children => hv.children[k as int]));
            assert(decreases_to!(node_view(*hidden_list) => node_view(*hc)));
        }
        let is_dir = match hc.type_ {
            NodeType::Directory => true,
            NodeType::File => false,
        };
        if is_dir {
            match find_child_exec(&public_list.children, hc.name.as_str()) {
                Some(i) => {
                    let mut sub = public_list.children.remove(i);
                    let ghost subv = node_view(sub);
                    proof {
                        assert(subv == pre.children[i as int]);
                    }
                    merge_tree_rec(&mut sub, hc);
                    public_list.children.insert(i, sub);
                    proof {
                        assert(nodes_view(public_list.children) =~= pre.children.update(
                            i as int,
                            merge_node(subv, hcv),
                        ));
                        assert(node_view(*public_list) == merge_one(pre, hcv));
                    }
                },
                None => {
                    let mut sub = FileSystemNode {
                        name: clone_string(&hc.name),
                        type_: NodeType::Directory,
                        is_hidden: false,
                        children: Vec::new(),
                    };
                    let ghost subv = node_view(sub);
                    proof {
                        assert(subv.children =~= Seq::<NodeV>::empty());
                        assert(node_wf(subv));
                    }
                    merge_tree_rec(&mut sub, hc);
                    public_list.children.push(sub);
                    proof {
                        assert(nodes_view(public_list.children) =~= pre.children.push(
                            merge_node(subv, hcv),
                        ));
                        assert(node_view(*public_list) == merge_one(pre, hcv));
                    }
                },
            }
        } else {
            match find_child_exec(&public_list.children, hc.name.as_str()) {
                Some(_) => {
                    proof {
                        assert(node_view(*public_list) == merge_one(pre, hcv));
                    }
                },
                None => {
                    let copy = clone_node(hc);
                    public_list.children.push(copy);
                    proof {
                        assert(nodes_view(public_list.children) =~= pre.children.push(hcv));
                        assert(node_view(*public_list) == merge_one(pre, hcv));
                    }
                },
            }
        }
        k += 1;
    }
    proof {
        assert(merge_children(node_view(*public_list), hv.children, k as int) == node_view(
            *public_list,
        ));
    }
}

/// Deep copy of a tree node.
pub fn clone_node(n: &FileSystemNode) -> (r: FileSystemNode)
    ensures
        node_view(r) == node_view(*n),
    decreases node_view(*n),
{
    let m = n.children.len();
    let mut children: Vec<FileSystemNode> = Vec::new();
    let mut i: usize = 0;
    while i < m
        invariant
            0 <= i <= m,
            m == n.children@.len(),
            children@.len() == i,
            forall|j: int|
                0 <= j < i ==> node_view(#[trigger] children@[j]) == node_view(n.children@[j]),
        decreases m - i,
    {
        proof {
            assert(decreases_to!(node_view(*n) => node_view(*n).children));
            assert(decreases_to!(node_view(*n).children => node_view(*n).children[i as int]));
            assert(node_view(*n).children[i as int] == node_view(n.children@[i as int]));
        }
        let c = clone_node(&n.children[i]);
        children.push(c);
        i += 1;
    }
    let r = FileSystemNode {
        name: clone_string(&n.name),
        type_: match n.type_ {
            NodeType::File => NodeType::File,
            NodeType::Directory => NodeType::Directory,
        },
        is_hidden: n.is_hidden,
        children,
    };
    proof {
        assert(nodes_view(r.children) =~= node_view(*n).children);
    }
    r
}

/// The last path component of `p`; `p` itself when it has no separator.
pub open spec fn base_name(p: Seq<char>) -> Seq<char> {
    if p.len() > 0 && p[crate::fs::last_slash_idx(p)] == '/' {
        p.skip(crate::fs::last_slash_idx(p) + 1)
    } else {
        p
    }
}

/// What it means for node value `v` to be a faithful depth-`depth` listing
/// of directory `p` in filesystem `m`: the right name and provenance flag,
/// and — above depth zero — children that are exactly the entries of `p`,
/// with directories listed recursively.  Child order is the remote host's
/// and is not specified.
pub open spec fn tree_represents(
    m: Map<Seq<char>, FsEntryV>,
    p: Seq<char>,
    depth: nat,
    hidden: bool,
    v: NodeV,
) -> bool
    decreases depth,
{
    &&& v.name == base_name(p)
    &&& v.is_dir
    &&& v.hidden == hidden
    &&& forall|i: int, j: int|
        0 <= i < j < v.children.len() ==> (#[trigger] v.children[i]).name != (
        #[trigger] v.children[j]).name
    &&& if depth == 0 {
        v.children.len() == 0
    } else {
        &&& forall|i: int|
            0 <= i < v.children.len() ==> {
                let c = #[trigger] v.children[i];
                &&& crate::fs::is_child_name(m, p, c.name)
                &&& c.hidden == hidden
                &&& c.is_dir == (m[crate::fs::child_path(p, c.name)] is Dir)
                &&& (c.is_dir ==> tree_represents(
                    m,
                    crate::fs::child_path(p, c.name),
                    (depth - 1) as nat,
                    hidden,
                    c,
                ))
                &&& (!c.is_dir ==> c.children.len() == 0)
            }
        &&& forall|name: Seq<char>|
            crate::fs::is_child_name(m, p, name) ==> exists|i: int|
                0 <= i < v.children.len() && (#[trigger] v.children[i]).name == name
    }
}

/// A child's base name inside its directory is its own name.
proof fn lemma_base_name_child(p: Seq<char>, name: Seq<char>)
    requires
        name.len() > 0,
        forall|l: int| 0 <= l < name.len() ==> name[l] != '/',
    ensures
        base_name(crate::fs::child_path(p, name)) == name,
{
    let cp = crate::fs::child_path(p, name);
    assert(cp[p.len() as int] == '/');
    assert forall|l: int| p.len() < l < cp.len() implies cp[l] != '/' by {
        assert(cp[l] == name[l - p.len() - 1]);
    }
    crate::fs::lemma_last_slash_pub(cp, p.len() as int);
    assert(cp.skip(p.len() as int + 1) =~= name);
}

/// Depth-bounded recursive listing of one physical root.  At depth zero a
/// directory node has no children: the traversal is bounded, not an error.
/// Every node inherits the `hidden` provenance flag of the subtree read.
pub fn get_file_list(fs: &MemFs, path: &str, depth: u64, hidden: bool) -> (r: FileSystemNode)
    requires
        fs.wf(),
    ensures
        tree_represents(fs@, path@, depth as nat, hidden, node_view(r)),
        node_wf(node_view(r)),
    decreases depth,
{
    let j = crate::fs::find_last_slash(path);
    let n = path.unicode_len();
    let name = if n > 0 && path.get_char(j) == '/' {
        crate::strutil::substring(path, j + 1, n)
    } else {
        crate::strutil::substring(path, 0, n)
    };
    proof {
        assert(path@.subrange(0, n as int) =~= path@);
    }
    let mut children: Vec<FileSystemNode> = Vec::new();
    if depth > 0 {
        let listing = fs.list_children(path);
        let m = listing.len();
        let mut i: usize = 0;
        while i < m
            invariant
                0 <= i <= m,
                fs.wf(),
                m == listing@.len(),
                children@.len() == i,
                depth >= 1,
                forall|x: int|
                    0 <= x < m ==> crate::fs::is_child_name(fs@, path@, (#[trigger] listing@[x]).0@)
                        && listing@[x].1 == (fs@[crate::fs::child_path(path@, listing@[x].0@)]
                        is Dir),
                forall|x: int, y: int| 0 <= x < y < m ==> listing@[x].0@ != listing@[y].0@,
                forall|x: int|
                    0 <= x < i ==> node_view(#[trigger] children@[x]).name == listing@[x].0@,
                forall|x: int|
                    0 <= x < i ==> {
                        let c = node_view(#[trigger] children@[x]);
                        &&& crate::fs::is_child_name(fs@, path@, c.name)
                        &&& c.hidden == hidden
                        &&& c.is_dir == (fs@[crate::fs::child_path(path@, c.name)] is Dir)
                        &&& (c.is_dir ==> tree_represents(
                            fs@,
                            crate::fs::child_path(path@, c.name),
                            (depth - 1) as nat,
                            hidden,
                            c,
                        ))
                        &&& (!c.is_dir ==> c.children.len() == 0)
                        &&& node_wf(c)
                    },
            decreases m - i,
        {
            let (cname, isd) = (
                crate::strutil::substring(listing[i].0.as_str(), 0, listing[i].0.as_str().unicode_len()),
                listing[i].1,
            );
            proof {
                assert(cname@ =~= listing@[i as int].0@);
            }
            let node = if isd {
                let cpath = {
                    let a = crate::strutil::concat2(path, "/");
                    proof {
                        reveal_strlit("/");
                        assert(a@ =~= path@.push('/'));
                    }
                    crate::strutil::concat2(a.as_str(), cname.as_str())
                };
                proof {
                    assert(cpath@ == crate::fs::child_path(path@, cname@));
                    lemma_base_name_child(path@, cname@);
                }
                let sub = get_file_list(fs, cpath.as_str(), depth - 1, hidden);
                sub
            } else {
                FileSystemNode {
                    name: cname,
                    type_: NodeType::File,
                    is_hidden: hidden,
                    children: Vec::new(),
                }
            };
            let ghost nodev = node_view(node);
            proof {
                assert(nodev.name == listing@[i as int].0@);
                assert(crate::fs::is_child_name(fs@, path@, nodev.name));
                if isd {
                    assert(nodev.is_dir && nodev.hidden == hidden);
                    assert(fs@[crate::fs::child_path(path@, nodev.name)] is Dir);
                    assert(tree_represents(
                        fs@,
                        crate::fs::child_path(path@, nodev.name),
                        (depth - 1) as nat,
                        hidden,
                        nodev,
                    ));
                } else {
                    assert(nodev.children =~= Seq::<NodeV>::empty());
                    assert(!nodev.is_dir && nodev.hidden == hidden);
                    assert(!(fs@[crate::fs::child_path(path@, nodev.name)] is Dir));
                    assert(node_wf(nodev));
                }
            }
            let ghost pre = children@;
            children.push(node);
            proof {
                assert(children@.len() == i + 1);
                assert(node_view(children@[i as int]) == nodev);
                assert forall|x: int| 0 <= x < i + 1 implies node_view(#[trigger] children@[x]).name
                    == listing@[x].0@ && {
                    let c = node_view(children@[x]);
                    &&& crate::fs::is_child_name(fs@, path@, c.name)
                    &&& c.hidden == hidden
                    &&& c.is_dir == (fs@[crate::fs::child_path(path@, c.name)] is Dir)
                    &&& (c.is_dir ==> tree_represents(
                        fs@,
                        crate::fs::child_path(path@, c.name),
                        (depth - 1) as nat,
                        hidden,
                        c,
                    ))
                    &&& (!c.is_dir ==> c.children.len() == 0)
                    &&& node_wf(c)
                } by {
                    if x < i {
                        assert(children@[x] == pre[x]);
                    } else {
                        assert(node_view(children@[x]) == nodev);
                        assert(listing@[x] == listing@[i as int]);
                    }
                }
            }
            i += 1;
        }
        proof {
            assert forall|name2: Seq<char>| crate::fs::is_child_name(fs@, path@, name2)
                implies exists|x: int|
                0 <= x < nodes_view(children).len() && (#[trigger] nodes_view(children)[x]).name
                    == name2 by {
                let x = choose|x: int|
                    0 <= x < listing@.len() && (#[trigger] listing@[x]).0@ == name2;
                assert(node_view(children@[x]).name == name2);
                assert(nodes_view(children)[x] == node_view(children@[x]));
            }
            assert forall|x: int| 0 <= x < children@.len() implies (#[trigger] nodes_view(
                children,
            )[x]) == node_view(children@[x]) by {}
        }
    }
    let r = FileSystemNode { name, type_: NodeType::Directory, is_hidden: hidden, children };
    proof {
        if depth > 0 {
            assert(node_view(r).children == nodes_view(r.children));
        } else {
            assert(node_view(r).children =~= Seq::<NodeV>::empty());
        }
        if n > 0 && path@[j as int] == '/' {
            assert(node_view(r).name == base_name(path@));
        } else {
            assert(node_view(r).name == base_name(path@));
        }
    }
    r
}

/// Owned copy of a string.
pub fn clone_node_name(s: &String) -> (r: String)
    ensures
        r@ == s@,
{
    String::from_str(s.as_str())
}

/// Owned copy of a string.
fn clone_string(s: &String) -> (r: String)
    ensures
        r@ == s@,
{
    String::from_str(s.as_str())
}

} // verus!
