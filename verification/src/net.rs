//! Interaction nets.
use crate::name::Name;
use vstd::prelude::*;

verus! {

pub type NodeId = u64;

pub type SlotId = u64;

/// A port: a slot of a node. Slot 0 is the main port, slots 1 and 2 are the auxiliary ones.
#[derive(Debug, Clone, Copy, PartialEq, Eq, Structural, Hash)]
pub struct Port(pub NodeId, pub SlotId);

/// A binary combinator, with its label.
#[derive(Debug, Clone, Copy, PartialEq, Eq)]
pub enum CtrKind {
    Con(Option<u16>),
    Tup(Option<u16>),
    Dup(u16),
}

/// What a node is.
#[derive(Debug, PartialEq, Eq)]
pub enum NodeKind {
    /// The root node.
    Rot,
    /// An erasure.
    Era,
    /// A binary combinator.
    Ctr(CtrKind),
    /// A reference to a definition.
    Ref { def_name: Name },
    /// A number.
    Num { val: u32 },
    /// A numeric operation.
    Opr,
    /// A switch on a number.
    Mat,
}

/// A node: what it is, and the ports that its own three ports are linked to.
#[derive(Debug, PartialEq, Eq)]
pub struct Node {
    pub main: Port,
    pub aux1: Port,
    pub aux2: Port,
    pub kind: NodeKind,
}

/// A net: its nodes, by their number.
#[derive(Debug, PartialEq, Eq)]
pub struct INet {
    pub nodes: Vec<Node>,
}

impl Port {
    /// The root port, on the root node.
    pub fn root() -> (port: Port)
        ensures
            port == Port(0, 1),
    {
        Port(0, 1)
    }

    /// The node of the port.
    pub fn node(self) -> (node: NodeId)
        ensures
            node == self.0,
    {
        self.0
    }

    /// The slot of the port.
    pub fn slot(self) -> (slot: SlotId)
        ensures
            slot == self.1,
    {
        self.1
    }

    /// The port as a number.
    pub open spec fn spec_key(self) -> u128 {
        (self.0 * 0x1_0000_0000_0000_0000 + self.1) as u128
    }

    /// The port as a number.
    pub fn key(self) -> (key: u128)
        ensures
            key == self.spec_key(),
    {
        self.0 as u128 * 0x1_0000_0000_0000_0000 + self.1 as u128
    }
}

/// Different ports are different numbers.
pub broadcast proof fn lemma_key_injective(a: Port, b: Port)
    ensures
        #![trigger a.spec_key(), b.spec_key()]
        a.spec_key() == b.spec_key() <==> a == b,
{
}

impl CtrKind {
    /// Whether two combinators are the same, with the same label.
    pub fn same(self, other: CtrKind) -> (res: bool)
        ensures
            res == (self == other),
    {
        match (self, other) {
            (CtrKind::Con(a), CtrKind::Con(b)) => same_label(a, b),
            (CtrKind::Tup(a), CtrKind::Tup(b)) => same_label(a, b),
            (CtrKind::Dup(a), CtrKind::Dup(b)) => a == b,
            _ => false,
        }
    }
}

fn same_label(a: Option<u16>, b: Option<u16>) -> (res: bool)
    ensures
        res == (a == b),
{
    match (a, b) {
        (Some(a), Some(b)) => a == b,
        (None, None) => true,
        _ => false,
    }
}

impl Node {
    /// The port that a slot of the node is linked to.
    pub open spec fn spec_port(self, slot: int) -> Port {
        if slot == 0 {
            self.main
        } else if slot == 1 {
            self.aux1
        } else {
            self.aux2
        }
    }

    /// The port that a slot of the node is linked to.
    pub fn port(&self, slot: SlotId) -> (port: Port)
        requires
            slot <= 2,
        ensures
            port == self.spec_port(slot as int),
    {
        if slot == 0 {
            self.main
        } else if slot == 1 {
            self.aux1
        } else {
            self.aux2
        }
    }
}

impl INet {
    /// The number of nodes.
    pub open spec fn size(self) -> nat {
        self.nodes@.len()
    }

    /// Whether the net has a node.
    pub open spec fn has_node(self, node: NodeId) -> bool {
        node < self.size()
    }

    /// Whether the net has a port.
    pub open spec fn has_port(self, port: Port) -> bool {
        self.has_node(port.0) && port.1 <= 2
    }

    /// What a node is.
    pub open spec fn kind(self, node: NodeId) -> NodeKind {
        self.nodes@[node as int].kind
    }

    /// The port on the other side of the given one.
    pub open spec fn link_of(self, port: Port) -> Port {
        self.nodes@[port.0 as int].spec_port(port.1 as int)
    }

    /// A net of the root node alone.
    pub fn new() -> (net: INet)
        ensures
            net.size() == 1,
            net.kind(0) == NodeKind::Rot,
            net.link_of(Port(0, 0)) == Port(0, 2),
            net.link_of(Port(0, 1)) == Port(0, 1),
            net.link_of(Port(0, 2)) == Port(0, 0),
    {
        let root = Node { main: Port(0, 2), aux1: Port(0, 1), aux2: Port(0, 0), kind: NodeKind::Rot };
        INet { nodes: vec![root] }
    }

    /// Adds a node with its ports disconnected: each is linked to itself.
    pub fn new_node(&mut self, kind: NodeKind) -> (node: NodeId)
        requires
            old(self).size() < u64::MAX,
        ensures
            node == old(self).size(),
            final(self).size() == old(self).size() + 1,
            final(self).kind(node) == kind,
            forall|slot: SlotId|
                slot <= 2 ==> #[trigger] final(self).link_of(Port(node, slot)) == Port(node, slot),
            forall|i: int| 0 <= i < old(self).size() ==> final(self).nodes@[i] == old(self).nodes@[i],
    {
        let node = self.nodes.len() as NodeId;
        self.nodes.push(
            Node { main: Port(node, 0), aux1: Port(node, 1), aux2: Port(node, 2), kind },
        );
        node
    }

    /// Links two ports with each other.
    pub fn link(&mut self, a: Port, b: Port)
        requires
            old(self).has_port(a),
            old(self).has_port(b),
        ensures
            final(self).size() == old(self).size(),
            forall|node: NodeId|
                old(self).has_node(node) ==> #[trigger] final(self).kind(node) == old(self).kind(node),
            forall|port: Port|
                old(self).has_port(port) ==> #[trigger] final(self).link_of(port) == if port == b {
                    a
                } else if port == a {
                    b
                } else {
                    old(self).link_of(port)
                },
    {
        self.set(a, b);
        self.set(b, a);
    }

    /// Makes a port lead to another one.
    fn set(&mut self, src: Port, dst: Port)
        requires
            old(self).has_port(src),
        ensures
            final(self).size() == old(self).size(),
            forall|node: NodeId|
                old(self).has_node(node) ==> #[trigger] final(self).kind(node) == old(self).kind(node),
            forall|port: Port|
                old(self).has_port(port) ==> #[trigger] final(self).link_of(port) == if port == src {
                    dst
                } else {
                    old(self).link_of(port)
                },
    {
        assert(src.0 < self.nodes.len());
        let node = &mut self.nodes[src.node() as usize];
        if src.slot() == 0 {
            node.main = dst;
        } else if src.slot() == 1 {
            node.aux1 = dst;
        } else {
            node.aux2 = dst;
        }
    }

    /// A node of the net.
    pub fn node(&self, node: NodeId) -> (res: &Node)
        requires
            self.has_node(node),
        ensures
            *res == self.nodes@[node as int],
    {
        assert(node < self.nodes.len());
        &self.nodes[node as usize]
    }

    /// The port on the other side of the given one.
    pub fn enter_port(&self, port: Port) -> (res: Port)
        requires
            self.has_port(port),
        ensures
            res == self.link_of(port),
    {
        self.node(port.node()).port(port.slot())
    }
}

} // verus!
