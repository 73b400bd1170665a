use vstd::prelude::*;

verus! {

/// A node of a code tree. A node with a value is a leaf and stands for that byte
/// value; a node without one is a branch, whose children are its two subtrees.
#[derive(Debug)]
pub struct Node {
    pub left: Option<Box<Node>>,
    pub right: Option<Box<Node>>,
    pub freq: u64,
    pub value: Option<u8>,
}

impl Node {
    /// The byte values that stand at the leaves of this tree.
    pub open spec fn symbols(&self) -> Set<u8>
        decreases self,
    {
        match self.value {
            Some(v) => set![v],
            None => Node::child_symbols(self.left) + Node::child_symbols(self.right),
        }
    }

    /// The byte values at the leaves of a subtree that may be missing.
    pub open spec fn child_symbols(child: Option<Box<Node>>) -> Set<u8>
        decreases child,
    {
        match child {
            Some(node) => node.symbols(),
            None => Set::empty(),
        }
    }

    /// Whether this tree has the shape of a code tree: a leaf has no children, a
    /// branch has two, no byte value stands at two leaves, and the frequency of a
    /// branch is the sum of those of its children.
    pub open spec fn is_proper(&self) -> bool
        decreases self,
    {
        match self.value {
            Some(_) => self.left is None && self.right is None,
            None => {
                &&& self.left matches Some(l)
                &&& self.right matches Some(r)
                &&& l.is_proper()
                &&& r.is_proper()
                &&& l.symbols().disjoint(r.symbols())
                &&& self.freq == l.freq + r.freq
            },
        }
    }

    /// Whether each leaf of this tree holds the frequency that `table` gives to its
    /// byte value.
    pub open spec fn agrees_with(&self, table: Map<u8, u64>) -> bool
        decreases self,
    {
        match self.value {
            Some(v) => table.contains_key(v) && self.freq == table[v],
            None => {
                &&& self.left matches Some(l) ==> l.agrees_with(table)
                &&& self.right matches Some(r) ==> r.agrees_with(table)
            },
        }
    }

    /// A node without children.
    pub fn new_leaf(freq: u64, value: Option<u8>) -> (node: Node)
        ensures
            node == (Node { left: None, right: None, freq, value }),
    {
        Node { left: None, right: None, freq, value }
    }

    /// A branch over two subtrees, with the sum of their frequencies.
    pub fn new_branch(left: Node, right: Node) -> (node: Node)
        requires
            left.freq + right.freq <= u64::MAX,
        ensures
            node == Node::branch(left, right),
    {
        let freq = left.freq + right.freq;
        Node { left: Some(Box::new(left)), right: Some(Box::new(right)), freq, value: None }
    }

    /// The branch over `left` and `right`.
    pub open spec fn branch(left: Node, right: Node) -> Node {
        Node {
            left: Some(Box::new(left)),
            right: Some(Box::new(right)),
            freq: (left.freq + right.freq) as u64,
            value: None,
        }
    }

    /// The leaf for `value` with frequency `freq`.
    pub open spec fn leaf(freq: u64, value: u8) -> Node {
        Node { left: None, right: None, freq, value: Some(value) }
    }
}

} // verus!
