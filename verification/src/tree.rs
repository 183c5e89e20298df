//! A tree that is walked with a cursor: the nodes live in one growable array
//! and name their parent and children by index, so that the cursor can go down
//! to a child and back up to the parent without recursion.

use vstd::prelude::*;

verus! {

/// One node: its data, the indices of its children in the order in which they
/// were added, and the index of its parent.
#[derive(Debug)]
pub struct Node<T> {
    pub data: T,
    children: Vec<usize>,
    parent: Option<usize>,
}

/// What a node holds.
pub struct NodeView<T> {
    pub data: T,
    /// The indices of the children, oldest first.
    pub children: Seq<usize>,
    /// The index of the parent.
    pub parent: Option<usize>,
}

impl<T> View for Node<T> {
    type V = NodeView<T>;

    closed spec fn view(&self) -> NodeView<T> {
        NodeView { data: self.data, children: self.children@, parent: self.parent }
    }
}

impl<T> Node<T> {
    /// A node without parent or children.
    pub fn new(data: T) -> (node: Node<T>)
        ensures
            node@ == (NodeView { data: data, children: Seq::<usize>::empty(), parent: None }),
    {
        Node::new_with_parent(data, None)
    }

    /// A node without children.
    pub fn new_with_parent(data: T, parent: Option<usize>) -> (node: Node<T>)
        ensures
            node@ == (NodeView { data: data, children: Seq::<usize>::empty(), parent: parent }),
    {
        Node { data: data, children: Vec::new(), parent: parent }
    }

    /// Appends the index of a child.
    pub fn add_child(&mut self, child: usize)
        ensures
            final(self)@ == (NodeView {
                data: old(self)@.data,
                children: old(self)@.children.push(child),
                parent: old(self)@.parent,
            }),
    {
        self.children.push(child);
    }
}

/// A tree of nodes with a cursor, the current node. The root has index 0.
#[derive(Debug)]
pub struct Tree<T> {
    nodes: Vec<Node<T>>,
    root: usize,
    current: usize,
}

/// What a tree holds: its nodes, the root first, and the index of the node
/// that the cursor is on.
pub struct TreeView<T> {
    pub nodes: Seq<NodeView<T>>,
    pub cursor: int,
}

impl<T> View for Tree<T> {
    type V = TreeView<T>;

    closed spec fn view(&self) -> TreeView<T> {
        TreeView {
            nodes: Seq::new(self.nodes@.len(), |node: int| self.nodes@[node]@),
            cursor: self.current as int,
        }
    }
}

impl<T> Tree<T> {
    /// The number of nodes.
    pub open spec fn len(&self) -> int {
        self@.nodes.len() as int
    }

    /// The index of the current node.
    pub open spec fn cursor(&self) -> int {
        self@.cursor
    }

    /// The data of a node.
    pub open spec fn data_of(&self, node: int) -> T {
        self@.nodes[node].data
    }

    /// The children of a node, oldest first.
    pub open spec fn children_of(&self, node: int) -> Seq<usize> {
        self@.nodes[node].children
    }

    /// The parent of a node.
    pub open spec fn parent_of(&self, node: int) -> Option<usize> {
        self@.nodes[node].parent
    }

    /// The shape is that of a tree: the root alone has no parent, a parent
    /// comes before its children, each child names its parent and each node but
    /// the root is a child of its parent, and the cursor is on a node.
    pub closed spec fn wf(&self) -> bool {
        &&& self.nodes@.len() >= 1
        &&& self.root == 0
        &&& self.current < self.nodes@.len()
        &&& self.nodes@[0].parent is None
        &&& forall|node: int|
            1 <= node < self.nodes@.len() ==> ((#[trigger] self.nodes@[node]).parent matches Some(
                parent,
            ) && parent < node && self.nodes@[parent as int].children@.contains(node as usize))
        &&& forall|node: int, i: int|
            0 <= node < self.nodes@.len() && 0 <= i < self.nodes@[node].children@.len() ==> node
                < (#[trigger] self.nodes@[node].children@[i]) < self.nodes@.len()
                && self.nodes@[self.nodes@[node].children@[i] as int].parent == Some(node as usize)
    }

    /// Both trees have the same shape and cursor: only the data may differ.
    pub open spec fn same_shape(&self, other: Tree<T>) -> bool {
        &&& self.len() == other.len()
        &&& self.cursor() == other.cursor()
        &&& forall|node: int|
            0 <= node < self.len() ==> self.children_of(node) == other.children_of(node)
                && self.parent_of(node) == other.parent_of(node)
    }

    /// Both trees hold the same nodes: only the cursor may differ.
    pub open spec fn same_nodes(&self, other: Tree<T>) -> bool {
        &&& self.len() == other.len()
        &&& forall|node: int|
            0 <= node < self.len() ==> self.data_of(node) == other.data_of(node)
                && self.children_of(node) == other.children_of(node) && self.parent_of(node)
                == other.parent_of(node)
    }

    /// In a well-formed tree the cursor is on a node, the root alone has no
    /// parent, a parent comes before its children and lists each of them, and
    /// each child names its parent.
    pub proof fn lemma_wf(&self)
        requires
            self.wf(),
        ensures
            0 <= self.cursor() < self.len() <= usize::MAX,
            self.parent_of(0) is None,
            forall|node: int|
                1 <= node < self.len() ==> (#[trigger] self.parent_of(node) matches Some(parent)
                    && parent < node && self.children_of(parent as int).contains(node as usize)),
            forall|node: int, i: int|
                0 <= node < self.len() && 0 <= i < self.children_of(node).len() ==> node < (
                #[trigger] self.children_of(node)[i]) < self.len() && self.parent_of(
                    self.children_of(node)[i] as int,
                ) == Some(node as usize),
    {
        assert(self.nodes.len() == self.nodes@.len());
        assert forall|node: int| 1 <= node < self.len() implies (
        #[trigger] self.parent_of(node) matches Some(parent) && parent < node && self.children_of(
            parent as int,
        ).contains(node as usize)) by {
            assert(self.nodes@[node].parent is Some);
        }
        assert forall|node: int, i: int|
            0 <= node < self.len() && 0 <= i < self.children_of(node).len() implies node < (
            #[trigger] self.children_of(node)[i]) < self.len() && self.parent_of(
            self.children_of(node)[i] as int,
        ) == Some(node as usize) by {
            assert(self.children_of(node)[i] == self.nodes@[node].children@[i]);
        }
    }

    /// A tree of one node, the root, with the cursor on it.
    pub fn new(data: T) -> (tree: Tree<T>)
        ensures
            tree.wf(),
            tree.len() == 1,
            tree.cursor() == 0,
            tree.data_of(0) == data,
            tree.children_of(0) == Seq::<usize>::empty(),
            tree.parent_of(0) == None::<usize>,
    {
        let mut nodes: Vec<Node<T>> = Vec::new();
        nodes.push(Node::new(data));
        Tree { nodes: nodes, root: 0, current: 0 }
    }

    /// Gives the current node a new last child with the given data. The
    /// cursor stays where it is.
    pub fn add_child(&mut self, data: T)
        requires
            old(self).wf(),
            old(self).len() < usize::MAX,
        ensures
            final(self).wf(),
            final(self).len() == old(self).len() + 1,
            final(self).cursor() == old(self).cursor(),
            final(self).data_of(old(self).len()) == data,
            final(self).children_of(old(self).len()) == Seq::<usize>::empty(),
            final(self).parent_of(old(self).len()) == Some(old(self).cursor() as usize),
            final(self).children_of(old(self).cursor()) == old(self).children_of(
                old(self).cursor(),
            ).push(old(self).len() as usize),
            forall|node: int|
                0 <= node < old(self).len() ==> final(self).data_of(node) == old(self).data_of(
                    node,
                ) && final(self).parent_of(node) == old(self).parent_of(node),
            forall|node: int|
                0 <= node < old(self).len() && node != old(self).cursor()
                    ==> final(self).children_of(node) == old(self).children_of(node),
    {
        let child: usize = self.nodes.len();
        let current: usize = self.current;
        self.nodes.push(Node::new_with_parent(data, Some(current)));
        let ghost pushed = self.nodes@;
        self.nodes[current].add_child(child);
        proof {
            let before = *old(self);
            let after = *self;
            assert(after.nodes@.len() == before.nodes@.len() + 1);
            assert(forall|node: int|
                0 <= node < before.len() && node != current ==> after.nodes@[node]
                    == before.nodes@[node]);
            assert(after.nodes@[child as int] == pushed[child as int]);
            assert forall|node: int| 1 <= node < after.nodes@.len() implies ((
            #[trigger] after.nodes@[node]).parent matches Some(parent) && parent < node
                && after.nodes@[parent as int].children@.contains(node as usize)) by {
                if node < before.len() {
                    assert(before.nodes@[node].parent is Some);
                    let parent = before.nodes@[node].parent->0;
                    let i = choose|i: int|
                        0 <= i < before.nodes@[parent as int].children@.len()
                            && before.nodes@[parent as int].children@[i] == node as usize;
                    assert(after.nodes@[parent as int].children@[i] == node as usize);
                } else {
                    let youngest = before.nodes@[current as int].children@.len() as int;
                    assert(after.nodes@[current as int].children@[youngest] == node as usize);
                }
            }
            assert forall|node: int, i: int|
                0 <= node < after.nodes@.len() && 0 <= i < after.nodes@[node].children@.len() implies node
                < (#[trigger] after.nodes@[node].children@[i]) < after.nodes@.len()
                && after.nodes@[after.nodes@[node].children@[i] as int].parent == Some(
                node as usize,
            ) by {
                if node == current && i == before.nodes@[node].children@.len() {
                } else if node < before.len() {
                    assert(after.nodes@[node].children@[i] == before.nodes@[node].children@[i]);
                }
            }
        }
    }

    /// The data of the current node.
    pub fn data(&self) -> (data: &T)
        requires
            self.wf(),
        ensures
            *data == self.data_of(self.cursor()),
    {
        &self.nodes[self.current].data
    }

    /// The data of the current node, to be changed in place. Nothing else changes.
    pub fn data_mut(&mut self) -> (data: &mut T)
        requires
            old(self).wf(),
        ensures
            *data == old(self).data_of(old(self).cursor()),
            final(self).wf(),
            final(self).same_shape(*old(self)),
            final(self).data_of(old(self).cursor()) == *final(data),
            forall|node: int|
                0 <= node < old(self).len() && node != old(self).cursor()
                    ==> final(self).data_of(node) == old(self).data_of(node),
    {
        &mut self.nodes[self.current].data
    }

    /// How many children the current node has.
    pub fn child_count(&self) -> (count: usize)
        requires
            self.wf(),
        ensures
            count == self.children_of(self.cursor()).len(),
    {
        self.nodes[self.current].children.len()
    }

    /// Whether the current node has no child.
    pub fn has_no_child(&self) -> (none: bool)
        requires
            self.wf(),
        ensures
            none == (self.children_of(self.cursor()).len() == 0),
    {
        self.nodes[self.current].children.len() == 0
    }

    /// Whether the current node has a child.
    pub fn has_children(&self) -> (some: bool)
        requires
            self.wf(),
        ensures
            some == (self.children_of(self.cursor()).len() > 0),
    {
        !self.has_no_child()
    }

    /// Whether the current node has a parent, that is, is not the root.
    pub fn has_parent(&self) -> (some: bool)
        requires
            self.wf(),
        ensures
            some == (self.parent_of(self.cursor()) is Some),
            some == (self.cursor() != 0),
    {
        proof {
            if self.current != 0 {
                assert(self.nodes@[self.current as int].parent is Some);
            }
        }
        self.nodes[self.current].parent.is_some()
    }

    /// Moves the cursor to the `i`-th child of the current node.
    pub fn goto_child(&mut self, i: usize)
        requires
            old(self).wf(),
            i < old(self).children_of(old(self).cursor()).len(),
        ensures
            final(self).wf(),
            final(self).cursor() == old(self).children_of(old(self).cursor())[i as int],
            old(self).cursor() < final(self).cursor() < final(self).len(),
            final(self).same_nodes(*old(self)),
    {
        let child: usize = self.nodes[self.current].children[i];
        proof {
            let node = self.cursor();
            assert(node < self.nodes@[node].children@[i as int] < self.len());
        }
        self.current = child;
    }

    /// Moves the cursor to the youngest child of the current node.
    pub fn goto_last_child(&mut self)
        requires
            old(self).wf(),
            old(self).children_of(old(self).cursor()).len() > 0,
        ensures
            final(self).wf(),
            final(self).cursor() == old(self).children_of(old(self).cursor()).last(),
            old(self).cursor() < final(self).cursor() < final(self).len(),
            final(self).same_nodes(*old(self)),
    {
        let last_child_i: usize = self.nodes[self.current].children.len() - 1;
        self.goto_child(last_child_i);
    }

    /// Moves the cursor to the parent of the current node.
    pub fn goto_parent(&mut self)
        requires
            old(self).wf(),
            old(self).parent_of(old(self).cursor()) is Some,
        ensures
            final(self).wf(),
            Some(final(self).cursor() as usize) == old(self).parent_of(old(self).cursor()),
            0 <= final(self).cursor() < old(self).cursor(),
            final(self).same_nodes(*old(self)),
    {
        match self.nodes[self.current].parent {
            Some(parent) => {
                proof {
                    let node = self.cursor();
                    assert(self.nodes@[node].parent == Some(parent));
                    assert(node != 0);
                }
                self.current = parent;
            },
            None => {},
        }
    }
}

} // verus!
