//! A tree stored in a vector: nodes are numbered in the order they were
//! added, the root is node 0, and each node links to its parent, its first
//! and last child, and its siblings.
use vstd::prelude::*;

verus! {

pub type NodeId = usize;

#[derive(Clone)]
pub struct Node<T> {
    pub parent_id: Option<NodeId>,
    pub first_child_id: Option<NodeId>,
    pub last_child_id: Option<NodeId>,
    pub prev_sibling_id: Option<NodeId>,
    pub next_sibling_id: Option<NodeId>,
    /// The depth of the node: 0 for the root.
    pub level: u32,
    /// The position of the node among its parent's children.
    pub index: u32,
    pub data: T,
}

impl<T> Node<T> {
    pub fn data(&self) -> (r: &T)
        ensures
            *r == self.data,
    {
        &self.data
    }

    pub fn level(&self) -> (r: u32)
        ensures
            r == self.level,
    {
        self.level
    }

    pub fn index(&self) -> (r: u32)
        ensures
            r == self.index,
    {
        self.index
    }
}

pub open spec fn root_node<T>(data: T) -> Node<T> {
    Node {
        parent_id: None,
        first_child_id: None,
        last_child_id: None,
        prev_sibling_id: None,
        next_sibling_id: None,
        level: 0,
        index: 0,
        data,
    }
}

pub open spec fn link_ok(l: Option<NodeId>, len: int) -> bool {
    l matches Some(j) ==> j < len
}

/// The nodes after a child with `data` is added under `pid`: the parent's
/// child links and the last child's sibling link point at the new node, which
/// sits one level below its parent and one place after its previous sibling.
pub open spec fn pushed<T>(nodes: Seq<Node<T>>, pid: int, data: T) -> Seq<Node<T>> {
    let nid = nodes.len() as usize;
    let p = nodes[pid];
    let n1 = nodes.update(
        pid,
        Node {
            last_child_id: Some(nid),
            first_child_id: if p.first_child_id is None {
                Some(nid)
            } else {
                p.first_child_id
            },
            ..p
        },
    );
    let prev = p.last_child_id;
    let n2 = match prev {
        Some(s) => n1.update(s as int, Node { next_sibling_id: Some(nid), ..n1[s as int] }),
        None => n1,
    };
    n2.push(
        Node {
            parent_id: Some(pid as usize),
            first_child_id: None,
            last_child_id: None,
            prev_sibling_id: prev,
            next_sibling_id: None,
            level: (p.level + 1) as u32,
            index: match prev {
                Some(s) => (n1[s as int].index + 1) as u32,
                None => 0,
            },
            data,
        },
    )
}

#[derive(Clone)]
pub struct Tree<T> {
    nodes: Vec<Node<T>>,
    root_id: Option<NodeId>,
}

impl<T> Tree<T> {
    /// The nodes, by id.
    pub closed spec fn view(&self) -> Seq<Node<T>> {
        self.nodes@
    }

    /// The root is node 0, every link names a node, and no node's depth or
    /// place among its siblings exceeds its id.
    pub closed spec fn wf(&self) -> bool {
        let nodes = self.nodes@;
        &&& nodes.len() >= 1
        &&& self.root_id == Some(0usize)
        &&& nodes[0].parent_id is None
        &&& forall|i: int|
            0 <= i < nodes.len() ==> {
                let n = #[trigger] nodes[i];
                &&& link_ok(n.parent_id, nodes.len() as int)
                &&& link_ok(n.first_child_id, nodes.len() as int)
                &&& link_ok(n.last_child_id, nodes.len() as int)
                &&& link_ok(n.prev_sibling_id, nodes.len() as int)
                &&& link_ok(n.next_sibling_id, nodes.len() as int)
                &&& n.level <= i
                &&& n.index <= i
                &&& (n.prev_sibling_id matches Some(s) ==> s < i)
            }
    }

    pub fn new(root: T) -> (r: Tree<T>)
        ensures
            r.wf(),
            r@ == seq![root_node(root)],
    {
        let node = Node {
            parent_id: None,
            first_child_id: None,
            last_child_id: None,
            prev_sibling_id: None,
            next_sibling_id: None,
            level: 0,
            index: 0,
            data: root,
        };
        let mut nodes: Vec<Node<T>> = Vec::new();
        nodes.push(node);
        let r = Tree { nodes, root_id: Some(0) };
        assert(r@ =~= seq![root_node(root)]);
        r
    }

    /// Drops every node and starts again from a root holding `root`.
    pub fn clear(&mut self, root: T)
        ensures
            final(self).wf(),
            final(self)@ == seq![root_node(root)],
    {
        self.nodes.clear();
        let node = Node {
            parent_id: None,
            first_child_id: None,
            last_child_id: None,
            prev_sibling_id: None,
            next_sibling_id: None,
            level: 0,
            index: 0,
            data: root,
        };
        self.nodes.push(node);
        self.root_id = Some(0);
        assert(self@ =~= seq![root_node(root)]);
    }

    /// Adds a child holding `data` under `parent_id`, and returns its id;
    /// `None` when there is no such node.
    pub fn push(&mut self, parent_id: NodeId, data: T) -> (r: Option<NodeId>)
        requires
            old(self).wf(),
            old(self)@.len() < u32::MAX,
        ensures
            final(self).wf(),
            r is Some <==> parent_id < old(self)@.len(),
            r matches Some(id) ==> id == old(self)@.len() && final(self)@ == pushed(old(self)@, parent_id as int, data)
                && final(self)@.len() == old(self)@.len() + 1,
            r is None ==> final(self)@ == old(self)@,
    {
        if let Some(mut parent) = self.get_mut(parent_id) {
            Some(parent.push(data))
        } else {
            None
        }
    }

    /// The number of nodes.
    pub fn len(&self) -> (r: usize)
        ensures
            r == self@.len(),
    {
        self.nodes.len()
    }

    /// A walk of the tree in depth-first order, parents before children.
    pub fn dfs_iter(&self) -> (r: Dfs<'_, T>)
        ensures
            r.tree == self,
            r.stack@ == seq![0usize],
    {
        Dfs { tree: self, stack: vec![0] }
    }

    pub fn get(&self, id: NodeId) -> (r: Option<NodeRef<'_, T>>)
        ensures
            r is Some <==> id < self@.len(),
            r matches Some(n) ==> n.id == id && n.tree == self,
    {
        if id < self.nodes.len() {
            Some(NodeRef { tree: self, id })
        } else {
            None
        }
    }

    pub fn root(&self) -> (r: NodeRef<'_, T>)
        requires
            self.wf(),
        ensures
            r.id == 0,
            r.tree == self,
    {
        NodeRef { tree: self, id: 0 }
    }

    pub fn get_mut(&mut self, id: NodeId) -> (r: Option<NodeMut<'_, T>>)
        ensures
            r is Some <==> id < old(self)@.len(),
            r matches Some(n) ==> n.id == id && *n.tree == *old(self) && *final(self) == *final(n.tree),
            r is None ==> *final(self) == *old(self),
    {
        if id < self.nodes.len() {
            Some(NodeMut { tree: self, id })
        } else {
            None
        }
    }
}

/// A node of a tree, to read.
pub struct NodeRef<'a, T> {
    pub tree: &'a Tree<T>,
    pub id: NodeId,
}

/// A node of a tree, to change.
pub struct NodeMut<'a, T> {
    pub tree: &'a mut Tree<T>,
    pub id: NodeId,
}

impl<'a, T> NodeRef<'a, T> {
    /// The node itself.
    pub fn node(&self) -> (r: &Node<T>)
        requires
            self.id < self.tree@.len(),
        ensures
            *r == self.tree@[self.id as int],
    {
        &self.tree.nodes[self.id]
    }

    pub fn parent(&self) -> (r: Option<NodeRef<'a, T>>)
        requires
            self.tree.wf(),
            self.id < self.tree@.len(),
        ensures
            r is Some <==> self.tree@[self.id as int].parent_id is Some,
            r matches Some(p) ==> Some(p.id) == self.tree@[self.id as int].parent_id && p.tree == self.tree
                && p.id < self.tree@.len(),
    {
        match self.tree.nodes[self.id].parent_id {
            Some(pid) => {
                assert(self.tree@[self.id as int] == self.tree.nodes@[self.id as int]);
                Some(NodeRef { tree: self.tree, id: pid })
            },
            None => None,
        }
    }

    /// The node's children, first to last.
    pub fn children(&self) -> (r: ChildrenIter<'a, T>)
        requires
            self.id < self.tree@.len(),
        ensures
            r.tree == self.tree,
            r.next_id == self.tree@[self.id as int].first_child_id,
    {
        ChildrenIter { tree: self.tree, next_id: self.tree.nodes[self.id].first_child_id }
    }
}

impl<'a, T> NodeMut<'a, T> {
    pub fn id(&self) -> (r: NodeId)
        ensures
            r == self.id,
    {
        self.id
    }

    /// The node's data, to change in place.
    pub fn data(&mut self) -> (r: &mut T)
        requires
            old(self).id < old(self).tree@.len(),
        ensures
            *r == old(self).tree@[old(self).id as int].data,
            final(self).id == old(self).id,
            final(self).tree@ == old(self).tree@.update(
                old(self).id as int,
                Node { data: *final(r), ..old(self).tree@[old(self).id as int] },
            ),
            old(self).tree.wf() ==> final(self).tree.wf(),
            *final(final(self).tree) == *final(old(self).tree),
    {
        let id = self.id;
        proof {
            assert forall|i: int| 0 <= i < self.tree.nodes@.len() implies #[trigger] self.tree.nodes@[i] == self.tree@[i] by {}
        }
        &mut self.tree.nodes[id].data
    }

    /// Adds a child holding `data` under this node, and returns its id.
    pub fn push(&mut self, data: T) -> (r: NodeId)
        requires
            old(self).tree.wf(),
            old(self).id < old(self).tree@.len(),
            old(self).tree@.len() < u32::MAX,
        ensures
            r == old(self).tree@.len(),
            final(self).id == old(self).id,
            final(self).tree.wf(),
            final(self).tree@ == pushed(old(self).tree@, old(self).id as int, data),
            *final(final(self).tree) == *final(old(self).tree),
    {
        let ghost old_nodes = self.tree.nodes@;
        let new_id = self.tree.nodes.len();
        let pid = self.id;
        let parent_level = self.tree.nodes[pid].level;
        let prev_sibling_id = self.tree.nodes[pid].last_child_id;
        self.tree.nodes[pid].last_child_id = Some(new_id);
        if self.tree.nodes[pid].first_child_id.is_none() {
            self.tree.nodes[pid].first_child_id = Some(new_id);
        }
        let ghost n1 = self.tree.nodes@;
        let mut index: u32 = 0;
        if let Some(s) = prev_sibling_id {
            self.tree.nodes[s].next_sibling_id = Some(new_id);
            assert(old_nodes[s as int].index <= s);
            index = self.tree.nodes[s].index + 1;
        }
        assert(old_nodes[pid as int].level <= pid);
        let node = Node {
            parent_id: Some(pid),
            first_child_id: None,
            last_child_id: None,
            prev_sibling_id,
            next_sibling_id: None,
            level: parent_level + 1,
            index,
            data,
        };
        self.tree.nodes.push(node);
        proof {
            let nodes = self.tree.nodes@;
            assert(nodes =~= pushed(old_nodes, pid as int, data));
            assert forall|i: int| 0 <= i < nodes.len() implies {
                let n = #[trigger] nodes[i];
                &&& link_ok(n.parent_id, nodes.len() as int)
                &&& link_ok(n.first_child_id, nodes.len() as int)
                &&& link_ok(n.last_child_id, nodes.len() as int)
                &&& link_ok(n.prev_sibling_id, nodes.len() as int)
                &&& link_ok(n.next_sibling_id, nodes.len() as int)
                &&& n.level <= i
                &&& n.index <= i
                &&& (n.prev_sibling_id matches Some(s) ==> s < i)
            } by {
                if i < old_nodes.len() {
                    assert(old_nodes[i] == old(self).tree.nodes@[i]);
                }
            }
        }
        new_id
    }

    /// The node's parent, borrowing the same tree.
    pub fn parent(&mut self) -> (r: Option<NodeMut<'_, T>>)
        requires
            old(self).tree.wf(),
            old(self).id < old(self).tree@.len(),
        ensures
            r is Some <==> old(self).tree@[old(self).id as int].parent_id is Some,
            r matches Some(p) ==> Some(p.id) == old(self).tree@[old(self).id as int].parent_id
                && *p.tree == *old(self).tree && *final(self).tree == *final(p.tree),
            r is None ==> *final(self).tree == *old(self).tree,
            final(self).id == old(self).id,
            *final(final(self).tree) == *final(old(self).tree),
    {
        match self.tree.nodes[self.id].parent_id {
            Some(pid) => {
                assert(old(self).tree@[old(self).id as int] == self.tree.nodes@[self.id as int]);
                Some(NodeMut { tree: &mut *self.tree, id: pid })
            },
            None => None,
        }
    }
}

/// A depth-first walk: the ids still to visit, the next one last.
pub struct Dfs<'a, T> {
    pub tree: &'a Tree<T>,
    pub stack: Vec<NodeId>,
}

/// The siblings from `c` back to the first child, `c` first.
pub open spec fn back_chain<T>(nodes: Seq<Node<T>>, c: Option<NodeId>) -> Seq<NodeId>
    decreases (match c {
        Some(i) => i as int + 1,
        None => 0,
    }),
{
    match c {
        Some(i) => {
            if i < nodes.len() && (nodes[i as int].prev_sibling_id matches Some(s) ==> s < i) {
                seq![i].add(back_chain(nodes, nodes[i as int].prev_sibling_id))
            } else {
                seq![i]
            }
        },
        None => seq![],
    }
}

impl<'a, T> Dfs<'a, T> {
    /// The next node of the walk: the last id on the stack, which is replaced
    /// by the node's children, the first child ending on top.
    pub fn next(&mut self) -> (r: Option<NodeRef<'a, T>>)
        requires
            old(self).tree.wf(),
            forall|i: int| 0 <= i < old(self).stack@.len() ==> #[trigger] old(self).stack@[i] < old(self).tree@.len(),
        ensures
            final(self).tree == old(self).tree,
            r is Some <==> old(self).stack@.len() > 0,
            r matches Some(n) ==> n.tree == old(self).tree && n.id == old(self).stack@.last() && final(self).stack@
                == old(self).stack@.drop_last() + back_chain(
                old(self).tree@,
                old(self).tree@[n.id as int].last_child_id,
            ),
            forall|i: int| 0 <= i < final(self).stack@.len() ==> #[trigger] final(self).stack@[i] < final(self).tree@.len(),
    {
        match self.stack.pop() {
            Some(node_id) => {
                let tree = self.tree;
                let ghost base = self.stack@;
                let mut child_id = tree.nodes[node_id].last_child_id;
                proof {
                    assert(old(self).stack@.last() == node_id);
                    assert(old(self).stack@[old(self).stack@.len() - 1] < tree@.len());
                    assert(tree@[node_id as int] == tree.nodes@[node_id as int]);
                    assert(self.stack@ + back_chain(tree@, child_id) == base + back_chain(
                        tree@,
                        tree@[node_id as int].last_child_id,
                    ));
                }
                while child_id.is_some()
                    invariant
                        tree.wf(),
                        self.tree == tree,
                        link_ok(child_id, tree@.len() as int),
                        node_id < tree@.len(),
                        base == old(self).stack@.drop_last(),
                        self.stack@ + back_chain(tree@, child_id) == base + back_chain(
                            tree@,
                            tree@[node_id as int].last_child_id,
                        ),
                        forall|i: int| 0 <= i < self.stack@.len() ==> #[trigger] self.stack@[i] < tree@.len(),
                    decreases (match child_id {
                        Some(i) => i as int + 1,
                        None => 0,
                    }),
                {
                    let id = child_id.unwrap();
                    let ghost before = self.stack@;
                    self.stack.push(id);
                    child_id = tree.nodes[id].prev_sibling_id;
                    proof {
                        let n = tree.nodes@[id as int];
                        assert(tree@[id as int] == n);
                        assert(back_chain(tree@, Some(id)) == seq![id].add(back_chain(tree@, child_id)));
                        assert(self.stack@ + back_chain(tree@, child_id) =~= before + back_chain(tree@, Some(id)));
                    }
                }
                assert(self.stack@ =~= base + back_chain(tree@, tree@[node_id as int].last_child_id));
                Some(NodeRef { tree, id: node_id })
            },
            None => None,
        }
    }
}

/// The children of a node still to visit, from `next_id` on.
pub struct ChildrenIter<'a, T> {
    pub tree: &'a Tree<T>,
    pub next_id: Option<NodeId>,
}

impl<'a, T> ChildrenIter<'a, T> {
    /// The next child, moving on to its next sibling.
    pub fn next(&mut self) -> (r: Option<NodeRef<'a, T>>)
        requires
            old(self).tree.wf(),
        ensures
            final(self).tree == old(self).tree,
            r is Some <==> (old(self).next_id matches Some(i) && i < old(self).tree@.len()),
            r matches Some(n) ==> Some(n.id) == old(self).next_id && n.tree == old(self).tree
                && final(self).next_id == old(self).tree@[n.id as int].next_sibling_id,
    {
        match self.next_id {
            Some(id) => {
                if id < self.tree.nodes.len() {
                    self.next_id = self.tree.nodes[id].next_sibling_id;
                    Some(NodeRef { tree: self.tree, id })
                } else {
                    None
                }
            },
            None => None,
        }
    }
}

} // verus!
