//! The nodes of a stored hash tree, and what is read from it.
use crate::algorithm::Index;
use crate::text;
use vstd::prelude::*;

verus! {

/// Where a node is.
#[derive(Clone, Copy, Debug, PartialEq, Eq)]
pub struct Address {
    /// The place of the node in the list of entries, which starts at 1.
    pub i: Index,
    /// The height of the node, that is its distance to the farthest leaf. A leaf has height 0.
    pub j: u8,
    /// The position of the entry that the node is stored in.
    pub position: u64,
}

impl Address {
    /// The address of `b_{i,j}` in the entry at `position`.
    pub fn new(i: Index, j: u8, position: u64) -> (address: Address)
        ensures
            address == (Address { i, j, position }),
    {
        Address { i, j, position }
    }
}

/// A node with its hash value.
#[derive(Clone, Copy, Debug, PartialEq, Eq)]
pub struct Node {
    pub address: Address,
    pub hash: crate::hash::Hash,
}

/// The meaning of a [`Node`].
pub struct NodeView {
    pub address: Address,
    pub hash: Seq<u8>,
}

impl View for Node {
    type V = NodeView;

    open spec fn view(&self) -> NodeView {
        NodeView { address: self.address, hash: self.hash@ }
    }
}

impl Node {
    /// The node at `address` with the hash value `hash`.
    pub fn new(address: Address, hash: crate::hash::Hash) -> (node: Node)
        ensures
            node == (Node { address, hash }),
    {
        Node { address, hash }
    }

    /// A short text for people to read, such as `Node(3,2@152)0A…`.
    pub fn describe(&self) -> (result: String)
        ensures
            result@ == "Node("@ + text::decimal(self.address.i as nat) + ","@ + text::decimal(
                self.address.j as nat,
            ) + "@"@ + text::decimal(self.address.position as nat) + ")"@ + text::hex_chars(
                self.hash@,
            ),
    {
        let mut result = String::from_str("Node(");
        text::push_decimal(&mut result, self.address.i);
        result.append(",");
        text::push_decimal(&mut result, self.address.j as u64);
        result.append("@");
        text::push_decimal(&mut result, self.address.position);
        result.append(")");
        result.append(self.hash.to_str().as_str());
        result
    }
}

/// An inner node with the addresses of its branches.
#[derive(Clone, Copy, Debug, PartialEq, Eq)]
pub struct INode {
    pub node: Node,
    /// The node in the left branch.
    pub left: Address,
    /// The node in the right branch.
    pub right: Address,
}

/// The meaning of an [`INode`].
pub struct INodeView {
    pub node: NodeView,
    pub left: Address,
    pub right: Address,
}

impl View for INode {
    type V = INodeView;

    open spec fn view(&self) -> INodeView {
        INodeView { node: self.node@, left: self.left, right: self.right }
    }
}

impl INode {
    /// The inner node `node` with these branches.
    pub fn new(node: Node, left: Address, right: Address) -> (inode: INode)
        ensures
            inode == (INode { node, left, right }),
    {
        INode { node, left, right }
    }
}

/// The meanings of inner nodes.
pub open spec fn inode_views(inodes: Seq<INode>) -> Seq<INodeView> {
    inodes.map_values(|inode: INode| inode@)
}

/// The meanings of nodes.
pub open spec fn node_views(nodes: Seq<Node>) -> Seq<NodeView> {
    nodes.map_values(|node: Node| node@)
}

/// A leaf with its value.
#[derive(Debug, PartialEq, Eq)]
pub struct ENode {
    pub node: Node,
    pub payload: Vec<u8>,
}

/// The meaning of an [`ENode`].
pub struct ENodeView {
    pub node: NodeView,
    pub payload: Seq<u8>,
}

impl View for ENode {
    type V = ENodeView;

    open spec fn view(&self) -> ENodeView {
        ENodeView { node: self.node@, payload: self.payload@ }
    }
}

/// A leaf together with the inner nodes that came with it, from the lowest to the highest.
#[derive(Debug, PartialEq, Eq)]
pub struct Entry {
    pub enode: ENode,
    pub inodes: Vec<INode>,
}

/// The meaning of an [`Entry`].
pub struct EntryView {
    pub enode: ENodeView,
    pub inodes: Seq<INodeView>,
}

impl View for Entry {
    type V = EntryView;

    open spec fn view(&self) -> EntryView {
        EntryView { enode: self.enode@, inodes: inode_views(self.inodes@) }
    }
}

/// The root of the tree in its last generation.
#[derive(Debug, PartialEq, Eq)]
pub enum Root<'a> {
    Empty,
    INode(&'a INode),
    ENode(&'a ENode),
}

/// The meaning of a [`Root`].
pub enum RootView {
    Empty,
    INode(INodeView),
    ENode(ENodeView),
}

impl<'a> View for Root<'a> {
    type V = RootView;

    open spec fn view(&self) -> RootView {
        match *self {
            Root::Empty => RootView::Empty,
            Root::INode(inode) => RootView::INode(inode@),
            Root::ENode(enode) => RootView::ENode(enode@),
        }
    }
}

/// The root of the tree in some generation, with the nodes that branch off on the way to it.
#[derive(Debug, PartialEq, Eq)]
pub enum STRoot {
    Empty,
    INode(INode, Vec<Node>),
    ENode(ENode, Vec<Node>),
}

/// The meaning of an [`STRoot`].
pub enum STRootView {
    Empty,
    INode(INodeView, Seq<NodeView>),
    ENode(ENodeView, Seq<NodeView>),
}

impl View for STRoot {
    type V = STRootView;

    open spec fn view(&self) -> STRootView {
        match *self {
            STRoot::Empty => STRootView::Empty,
            STRoot::INode(inode, branches) => STRootView::INode(inode@, node_views(branches@)),
            STRoot::ENode(enode, branches) => STRootView::ENode(enode@, node_views(branches@)),
        }
    }
}

/// A node with its hash value that was read from a hash tree.
#[derive(Clone, Copy, Debug, PartialEq, Eq)]
pub struct NodeHash {
    pub i: Index,
    pub j: u8,
    pub hash: crate::hash::Hash,
}

/// The meaning of a [`NodeHash`].
pub struct NodeHashView {
    pub i: Index,
    pub j: u8,
    pub hash: Seq<u8>,
}

impl View for NodeHash {
    type V = NodeHashView;

    open spec fn view(&self) -> NodeHashView {
        NodeHashView { i: self.i, j: self.j, hash: self.hash@ }
    }
}

impl NodeHash {
    /// A short text for people to read, such as `HashNode(3, 2, "0A…")`.
    pub fn describe(&self) -> (result: String)
        ensures
            result@ == "HashNode("@ + text::decimal(self.i as nat) + ", "@ + text::decimal(
                self.j as nat,
            ) + ", \""@ + text::hex_chars(self.hash@) + "\")"@,
    {
        let mut result = String::from_str("HashNode(");
        text::push_decimal(&mut result, self.i);
        result.append(", ");
        text::push_decimal(&mut result, self.j as u64);
        result.append(", \"");
        result.append(self.hash.to_str().as_str());
        result.append("\")");
        result
    }
}

/// A value that was read from a hash tree.
#[derive(Debug, PartialEq, Eq)]
pub struct Value {
    pub i: Index,
    pub value: Vec<u8>,
}

/// The meaning of a [`Value`].
pub struct ValueView {
    pub i: Index,
    pub value: Seq<u8>,
}

impl View for Value {
    type V = ValueView;

    open spec fn view(&self) -> ValueView {
        ValueView { i: self.i, value: self.value@ }
    }
}

impl Value {
    /// A short text for people to read, such as `Value(3, "0A…")`.
    pub fn describe(&self) -> (result: String)
        ensures
            result@ == "Value("@ + text::decimal(self.i as nat) + ", \""@ + text::hex_chars(
                self.value@,
            ) + "\")"@,
    {
        let mut result = String::from_str("Value(");
        text::push_decimal(&mut result, self.i);
        result.append(", \"");
        result.append(text::hex(self.value.as_slice()).as_str());
        result.append("\")");
        result
    }
}

/// Values from a hash tree together with hash values of its nodes.
#[derive(Debug)]
pub struct DataSet {
    pub values: Vec<Value>,
    pub hashes: Vec<NodeHash>,
}

/// The meaning of a [`DataSet`].
pub struct DataSetView {
    pub values: Seq<ValueView>,
    pub hashes: Seq<NodeHashView>,
}

impl View for DataSet {
    type V = DataSetView;

    open spec fn view(&self) -> DataSetView {
        DataSetView {
            values: self.values@.map_values(|value: Value| value@),
            hashes: self.hashes@.map_values(|hash: NodeHash| hash@),
        }
    }
}

} // verus!
