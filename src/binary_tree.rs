//! A binary tree stored in a vector: each node records its own position and the
//! positions of its children, where position 0 in a link field means "no child".

use vstd::prelude::*;

verus! {

/// A node of the tree: a payload and three structural fields.
#[derive(Debug, Default)]
pub struct BinaryTreeNode<T> {
    /// The payload.
    pub value: T,
    /// The position of this node in its tree.
    pub index: usize,
    /// The position of the left child; 0 means no left child.
    pub left: usize,
    /// The position of the right child; 0 means no right child.
    pub right: usize,
}

impl<T> BinaryTreeNode<T> {
    /// A detached node holding `value`, with every structural field 0.
    pub fn new(value: T) -> (r: Self)
        ensures
            r.value == value,
            r.index == 0,
            r.left == 0,
            r.right == 0,
    {
        BinaryTreeNode { value, index: 0, left: 0, right: 0 }
    }
}

/// The node `child` as it stands once placed at position `pos`: only its index changes.
pub open spec fn placed<T>(child: BinaryTreeNode<T>, pos: usize) -> BinaryTreeNode<T> {
    BinaryTreeNode { value: child.value, index: pos, left: child.left, right: child.right }
}

/// The node `n` with its left (when `is_left`) or right link set to `pos`.
pub open spec fn with_link<T>(n: BinaryTreeNode<T>, is_left: bool, pos: usize) -> BinaryTreeNode<T> {
    if is_left {
        BinaryTreeNode { value: n.value, index: n.index, left: pos, right: n.right }
    } else {
        BinaryTreeNode { value: n.value, index: n.index, left: n.left, right: pos }
    }
}

/// The nodes after `child` is appended with no link to it.
pub open spec fn appended<T>(nodes: Seq<BinaryTreeNode<T>>, child: BinaryTreeNode<T>) -> Seq<
    BinaryTreeNode<T>,
> {
    nodes.push(placed(child, nodes.len() as usize))
}

/// The nodes after `child` is appended and, where `parent` is an existing position,
/// linked as that node's left or right child.
pub open spec fn attached<T>(
    nodes: Seq<BinaryTreeNode<T>>,
    parent: usize,
    is_left: bool,
    child: BinaryTreeNode<T>,
) -> Seq<BinaryTreeNode<T>> {
    let grown = appended(nodes, child);
    if parent < nodes.len() {
        grown.update(parent as int, with_link(grown[parent as int], is_left, nodes.len() as usize))
    } else {
        grown
    }
}

/// A link field that is either absent or names a position after `k` and inside the tree.
pub open spec fn link_ok(link: usize, k: int, len: int) -> bool {
    link == 0 || (k < link && link < len)
}

/// Every node records its own position, and every link points forward to an existing node.
pub open spec fn nodes_well_formed<T>(nodes: Seq<BinaryTreeNode<T>>) -> bool {
    forall|k: int|
        0 <= k < nodes.len() ==> {
            &&& #[trigger] nodes[k].index == k
            &&& link_ok(nodes[k].left, k, nodes.len() as int)
            &&& link_ok(nodes[k].right, k, nodes.len() as int)
        }
}

/// Attaching a node whose links are both absent keeps a well-formed sequence of nodes
/// well formed, whether or not `parent` names a node.
pub proof fn lemma_attached_well_formed<T>(
    nodes: Seq<BinaryTreeNode<T>>,
    parent: usize,
    is_left: bool,
    child: BinaryTreeNode<T>,
)
    requires
        nodes_well_formed(nodes),
        child.left == 0,
        child.right == 0,
        nodes.len() < usize::MAX,
    ensures
        nodes_well_formed(attached(nodes, parent, is_left, child)),
{
    let after = attached(nodes, parent, is_left, child);
    assert forall|k: int| 0 <= k < after.len() implies {
        &&& #[trigger] after[k].index == k
        &&& link_ok(after[k].left, k, after.len() as int)
        &&& link_ok(after[k].right, k, after.len() as int)
    } by {
        if k < nodes.len() {
            assert(nodes[k].index == k);
        }
    }
}

/// The pre-order walk of the subtree at position `i`, entered at depth `depth`: the pair
/// (depth, position) of each node, the node first, then its left subtree, then its right
/// subtree. A link that does not point forward is not followed.
pub open spec fn preorder_from<T>(nodes: Seq<BinaryTreeNode<T>>, i: usize, depth: usize) -> Seq<
    (usize, usize),
>
    decreases nodes.len() - i,
{
    if i < nodes.len() {
        let n = nodes[i as int];
        let below = #[verifier::truncate] ((depth + 1) as usize);
        let left = if n.left != 0 && i < n.left && n.left < nodes.len() {
            preorder_from(nodes, n.left, below)
        } else {
            Seq::empty()
        };
        let right = if n.right != 0 && i < n.right && n.right < nodes.len() {
            preorder_from(nodes, n.right, below)
        } else {
            Seq::empty()
        };
        seq![(depth, i)] + left + right
    } else {
        Seq::empty()
    }
}

/// What is still to be walked for a stack of (depth, position) entries, the last entry
/// on top.
pub open spec fn pending_walk<T>(nodes: Seq<BinaryTreeNode<T>>, stack: Seq<(usize, usize)>) -> Seq<
    (usize, usize),
>
    decreases stack.len(),
{
    if stack.len() == 0 {
        Seq::empty()
    } else {
        let top = stack.last();
        preorder_from(nodes, top.1, top.0) + pending_walk(nodes, stack.drop_last())
    }
}

/// Adding a root to an empty tree puts it at position 0 with its value, and the tree
/// then holds that one node.
pub proof fn lemma_root_of_empty<T>(nodes: Seq<BinaryTreeNode<T>>, root: BinaryTreeNode<T>)
    requires
        nodes.len() == 0,
    ensures
        appended(nodes, root).len() == 1,
        appended(nodes, root)[0].value == root.value,
        appended(nodes, root)[0].index == 0,
{
}

/// Attaching a child under an existing node puts the child at the old length, with its
/// value, and links the parent's left (or right) field to that position.
pub proof fn lemma_attach_under_existing<T>(
    nodes: Seq<BinaryTreeNode<T>>,
    parent: usize,
    is_left: bool,
    child: BinaryTreeNode<T>,
)
    requires
        parent < nodes.len(),
        nodes.len() < usize::MAX,
    ensures
        ({
            let after = attached(nodes, parent, is_left, child);
            let i = nodes.len() as int;
            &&& after.len() == i + 1
            &&& after[i].value == child.value
            &&& is_left ==> after[parent as int].left == i
            &&& !is_left ==> after[parent as int].right == i
        }),
{
}

/// Attaching a child under a position that names no node still appends it, and leaves
/// every node already there, links included, as it was.
pub proof fn lemma_attach_out_of_range<T>(
    nodes: Seq<BinaryTreeNode<T>>,
    parent: usize,
    is_left: bool,
    child: BinaryTreeNode<T>,
)
    requires
        parent >= nodes.len(),
    ensures
        attached(nodes, parent, is_left, child).len() == nodes.len() + 1,
        forall|k: int|
            0 <= k < nodes.len() ==> #[trigger] attached(nodes, parent, is_left, child)[k]
                == nodes[k],
{
}

/// The binary tree: nodes in order of insertion, the root at position 0.
#[derive(Debug)]
pub struct BinaryTree<T> {
    tree: Vec<BinaryTreeNode<T>>,
}

impl<T> View for BinaryTree<T> {
    type V = Seq<BinaryTreeNode<T>>;

    closed spec fn view(&self) -> Seq<BinaryTreeNode<T>> {
        self.tree@
    }
}

impl<T> Default for BinaryTree<T> {
    fn default() -> (r: Self)
        ensures
            r@.len() == 0,
    {
        Self::new()
    }
}

impl<T> BinaryTree<T> {
    /// The links of the tree are in order (see `nodes_well_formed`).
    pub open spec fn well_formed(&self) -> bool {
        nodes_well_formed(self@)
    }

    /// An empty tree.
    pub fn new() -> (r: Self)
        ensures
            r@.len() == 0,
            r.well_formed(),
    {
        BinaryTree { tree: Vec::new() }
    }

    /// A tree made of `nodes` as they are, in that order.
    pub fn from_nodes(nodes: Vec<BinaryTreeNode<T>>) -> (r: Self)
        ensures
            r@ == nodes@,
    {
        BinaryTree { tree: nodes }
    }

    /// The nodes of the tree, in order of position.
    pub fn into_nodes(self) -> (r: Vec<BinaryTreeNode<T>>)
        ensures
            r@ == self@,
    {
        self.tree
    }

    /// Whether the tree holds no node.
    pub fn is_empty(&self) -> (r: bool)
        ensures
            r == (self@.len() == 0),
    {
        self.tree.is_empty()
    }

    /// The number of nodes.
    pub fn len(&self) -> (r: usize)
        ensures
            r == self@.len(),
    {
        self.tree.len()
    }

    /// The position of the root, which is always 0.
    pub fn get_root_index(&self) -> (r: usize)
        ensures
            r == 0,
    {
        0
    }

    /// The node at `index`, or `None` past the end.
    pub fn get_node(&self, index: usize) -> (r: Option<&BinaryTreeNode<T>>)
        ensures
            index < self@.len() ==> r.is_some() && *r.unwrap() == self@[index as int],
            index >= self@.len() ==> r.is_none(),
    {
        if index < self.tree.len() {
            Some(&self.tree[index])
        } else {
            None
        }
    }

    /// The node at `index` for mutation, or `None` past the end; the tree ends up
    /// with whatever the caller leaves in that node.
    pub fn get_node_mut(&mut self, index: usize) -> (r: Option<&mut BinaryTreeNode<T>>)
        ensures
            index < old(self)@.len() ==> r.is_some() && *r.unwrap() == old(self)@[index as int]
                && final(self)@ == old(self)@.update(index as int, *final(r.unwrap())),
            index >= old(self)@.len() ==> r.is_none() && final(self)@ == old(self)@,
    {
        if index < self.tree.len() {
            Some(&mut self.tree[index])
        } else {
            None
        }
    }

    /// The node that a link field names, or `None` for the absent link 0 or a position
    /// past the end.
    fn linked_node(&self, link: usize) -> (r: Option<&BinaryTreeNode<T>>)
        ensures
            link != 0 && link < self@.len() ==> r.is_some() && *r.unwrap() == self@[link as int],
            link == 0 || link >= self@.len() ==> r.is_none(),
    {
        if link == 0 {
            None
        } else {
            self.get_node(link)
        }
    }

    /// The left child of `node`, or `None` where its left link is 0 (or names no node).
    pub fn get_left_child(&self, node: &BinaryTreeNode<T>) -> (r: Option<&BinaryTreeNode<T>>)
        ensures
            node.left != 0 && node.left < self@.len() ==> r.is_some() && *r.unwrap()
                == self@[node.left as int],
            node.left == 0 || node.left >= self@.len() ==> r.is_none(),
            self.well_formed() && self@.contains(*node) ==> (r.is_none() <==> node.left == 0),
    {
        proof {
            if self.well_formed() && self@.contains(*node) {
                let k = choose|k: int| 0 <= k < self@.len() && self@[k] == *node;
                assert(self@[k].index == k);
            }
        }
        self.linked_node(node.left)
    }

    /// The right child of `node`, or `None` where its right link is 0 (or names no node).
    pub fn get_right_child(&self, node: &BinaryTreeNode<T>) -> (r: Option<&BinaryTreeNode<T>>)
        ensures
            node.right != 0 && node.right < self@.len() ==> r.is_some() && *r.unwrap()
                == self@[node.right as int],
            node.right == 0 || node.right >= self@.len() ==> r.is_none(),
            self.well_formed() && self@.contains(*node) ==> (r.is_none() <==> node.right == 0),
    {
        proof {
            if self.well_formed() && self@.contains(*node) {
                let k = choose|k: int| 0 <= k < self@.len() && self@[k] == *node;
                assert(self@[k].index == k);
            }
        }
        self.linked_node(node.right)
    }

    /// Appends `child` at the end, recording that position in its `index` field, and
    /// returns the position. No link to it is made.
    fn push_node(&mut self, child: BinaryTreeNode<T>) -> (r: usize)
        ensures
            r == old(self)@.len(),
            r < usize::MAX,
            final(self)@ == appended(old(self)@, child),
    {
        let pos = self.tree.len();
        let placed_child = BinaryTreeNode {
            value: child.value,
            index: pos,
            left: child.left,
            right: child.right,
        };
        self.tree.push(placed_child);
        proof {
            assert(self.tree@.len() == self.tree.len());
        }
        pos
    }

    /// Appends `child` and, where `parent` names an existing node, makes the new node
    /// that node's left (`is_left`) or right child. Returns the new position.
    fn add_node(&mut self, parent: usize, is_left: bool, child: BinaryTreeNode<T>) -> (r: usize)
        ensures
            r == old(self)@.len(),
            r < usize::MAX,
            final(self)@ == attached(old(self)@, parent, is_left, child),
    {
        let pos = self.push_node(child);
        if parent < pos {
            let n = &mut self.tree[parent];
            if is_left {
                n.left = pos;
            } else {
                n.right = pos;
            }
        }
        pos
    }

    /// Adds `root` at the end of the tree and returns its position: 0 on an empty tree.
    /// On a tree that already has nodes the new node gets no parent.
    pub fn add_root(&mut self, root: BinaryTreeNode<T>) -> (r: usize)
        ensures
            r == old(self)@.len(),
            final(self)@ == appended(old(self)@, root),
            final(self)@.len() == old(self)@.len() + 1,
            final(self)@[r as int].value == root.value,
            old(self).well_formed() && root.left == 0 && root.right == 0 ==> final(self).well_formed(),
    {
        self.push_node(root)
    }

    /// Adds `child` at the end as the left child of the node at `parent`, and returns its
    /// position. Where `parent` names no node, the new node gets no parent.
    pub fn add_left_node(&mut self, parent: usize, child: BinaryTreeNode<T>) -> (r: usize)
        ensures
            r == old(self)@.len(),
            final(self)@ == attached(old(self)@, parent, true, child),
            final(self)@.len() == old(self)@.len() + 1,
            final(self)@[r as int].value == child.value,
            parent < old(self)@.len() ==> final(self)@[parent as int].left == r,
            old(self).well_formed() && child.left == 0 && child.right == 0 ==> final(self).well_formed(),
    {
        let r = self.add_node(parent, true, child);
        proof {
            if old(self).well_formed() && child.left == 0 && child.right == 0 {
                lemma_attached_well_formed(old(self)@, parent, true, child);
            }
        }
        r
    }

    /// Adds `child` at the end as the right child of the node at `parent`, and returns its
    /// position. Where `parent` names no node, the new node gets no parent.
    pub fn add_right_node(&mut self, parent: usize, child: BinaryTreeNode<T>) -> (r: usize)
        ensures
            r == old(self)@.len(),
            final(self)@ == attached(old(self)@, parent, false, child),
            final(self)@.len() == old(self)@.len() + 1,
            final(self)@[r as int].value == child.value,
            parent < old(self)@.len() ==> final(self)@[parent as int].right == r,
            old(self).well_formed() && child.left == 0 && child.right == 0 ==> final(self).well_formed(),
    {
        let r = self.add_node(parent, false, child);
        proof {
            if old(self).well_formed() && child.left == 0 && child.right == 0 {
                lemma_attached_well_formed(old(self)@, parent, false, child);
            }
        }
        r
    }

    /// Whether the tree is well formed: each node records its own position and each
    /// link is 0 or points to a later node of the tree.
    pub fn is_well_formed(&self) -> (r: bool)
        ensures
            r == self.well_formed(),
    {
        let len = self.tree.len();
        let mut k: usize = 0;
        while k < len
            invariant
                len == self@.len(),
                k <= len,
                forall|j: int|
                    0 <= j < k ==> {
                        &&& #[trigger] self@[j].index == j
                        &&& link_ok(self@[j].left, j, len as int)
                        &&& link_ok(self@[j].right, j, len as int)
                    },
            decreases len - k,
        {
            let n = &self.tree[k];
            let left_ok = n.left == 0 || (k < n.left && n.left < len);
            let right_ok = n.right == 0 || (k < n.right && n.right < len);
            if n.index != k || !left_ok || !right_ok {
                proof {
                    if self.well_formed() {
                        assert(self@[k as int].index == k);
                    }
                }
                return false;
            }
            k = k + 1;
            assert forall|j: int| 0 <= j < k implies {
                &&& #[trigger] self@[j].index == j
                &&& link_ok(self@[j].left, j, len as int)
                &&& link_ok(self@[j].right, j, len as int)
            } by {
                if j < k - 1 {
                } else {
                    assert(j == k - 1);
                    assert(self@[j].index == j);
                }
            }
        }
        true
    }

    /// The nodes reachable from the root in pre-order (a node, then its left subtree,
    /// then its right subtree), each as its (depth, position), the root at depth 0.
    /// The walk keeps its own stack, so a deep tree takes no call depth.
    pub fn preorder(&self) -> (r: Vec<(usize, usize)>)
        requires
            self.well_formed(),
        ensures
            r@ == preorder_from(self@, 0, 0),
    {
        let mut out: Vec<(usize, usize)> = Vec::new();
        let mut stack: Vec<(usize, usize)> = Vec::new();
        if 0 < self.tree.len() {
            stack.push((0, 0));
        }
        proof {
            if stack@.len() != 0 {
                assert(stack@.drop_last() =~= Seq::<(usize, usize)>::empty());
                assert(pending_walk(self@, stack@.drop_last()) =~= Seq::empty());
                assert(pending_walk(self@, stack@) =~= preorder_from(self@, 0, 0));
            } else {
                assert(preorder_from(self@, 0, 0) =~= Seq::empty());
            }
            assert(out@ + pending_walk(self@, stack@) =~= preorder_from(self@, 0, 0));
        }
        while stack.len() > 0
            invariant
                self.well_formed(),
                out@ + pending_walk(self@, stack@) == preorder_from(self@, 0, 0),
                forall|j: int|
                    0 <= j < stack@.len() ==> #[trigger] stack@[j].0 <= stack@[j].1 && stack@[j].1
                        < self@.len(),
            decreases pending_walk(self@, stack@).len(),
        {
            let ghost before = stack@;
            let (depth, i) = match stack.pop() {
                Some(entry) => entry,
                None => (0, 0),
            };
            assert(before.last() == (depth, i));
            assert(stack@ == before.drop_last());
            assert(self@[i as int].index == i);
            let n = &self.tree[i];
            out.push((depth, i));
            if n.right != 0 {
                stack.push((depth + 1, n.right));
            }
            if n.left != 0 {
                stack.push((depth + 1, n.left));
            }
            proof {
                let rest = before.drop_last();
                let below = #[verifier::truncate] ((depth + 1) as usize);
                let l = if n.left != 0 {
                    preorder_from(self@, n.left, below)
                } else {
                    Seq::empty()
                };
                let r = if n.right != 0 {
                    preorder_from(self@, n.right, below)
                } else {
                    Seq::empty()
                };
                let mid = if n.right != 0 {
                    rest.push((below, n.right))
                } else {
                    rest
                };
                assert(pending_walk(self@, mid) =~= r + pending_walk(self@, rest)) by {
                    if n.right != 0 {
                        assert(mid.drop_last() =~= rest);
                    }
                }
                assert(pending_walk(self@, stack@) =~= l + pending_walk(self@, mid)) by {
                    if n.left != 0 {
                        assert(stack@.drop_last() =~= mid);
                    } else {
                        assert(stack@ =~= mid);
                    }
                }
                assert(preorder_from(self@, i, depth) =~= seq![(depth, i)] + l + r);
                assert(out@ + pending_walk(self@, stack@) =~= preorder_from(self@, 0, 0));
            }
        }
        proof {
            assert(stack@ =~= Seq::<(usize, usize)>::empty());
            assert(out@ =~= out@ + pending_walk(self@, stack@));
        }
        out
    }
}

} // verus!
