//! Telling tuples from lambdas.
//!
//! A constructor node is a tuple if its first auxiliary port leads to a closed net. That net is
//! explored through main ports, down to the auxiliary ports where the exploration ends: its
//! leaves. It is closed when both ends of every wire that is met are leaves.
use crate::net::{CtrKind, INet, NodeId, NodeKind, Port};
use crate::portset::PortSet;
use vstd::prelude::*;

verus! {

/// The leaves below a port, in the order in which they are met: none are known when they are
/// deeper than `depth`, or when the exploration leaves the net.
pub open spec fn leaves(net: INet, port: Port, depth: nat) -> Option<Seq<Port>>
    decreases depth,
{
    if !net.has_port(port) {
        None
    } else if port.1 != 0 {
        Some(seq![port])
    } else if depth == 0 {
        None
    } else {
        match (
            leaves(net, net.link_of(Port(port.0, 2)), (depth - 1) as nat),
            leaves(net, net.link_of(Port(port.0, 1)), (depth - 1) as nat),
        ) {
            (Some(rgt), Some(lft)) => Some(rgt + lft),
            _ => None,
        }
    }
}

/// The ends of the wires met once, after a leaf was met: the wire of the leaf is added, or
/// taken out if it had been met before.
pub open spec fn meet(net: INet, wires: Set<Port>, leaf: Port) -> Set<Port> {
    let end = net.link_of(leaf);
    if wires.contains(leaf) || wires.contains(end) || leaf == end {
        wires.remove(leaf).remove(end)
    } else {
        wires.insert(leaf).insert(end)
    }
}

/// The ends of the wires met once, after the first `n` leaves were met.
pub open spec fn meet_all(net: INet, ports: Seq<Port>, n: nat) -> Set<Port>
    decreases n,
{
    if 0 < n <= ports.len() {
        meet(net, meet_all(net, ports, (n - 1) as nat), ports[n - 1])
    } else {
        Set::empty()
    }
}

/// Whether a node is a tuple; nothing when the exploration does not end or leaves the net.
pub open spec fn tuple_check(net: INet, node: NodeId) -> Option<bool> {
    let port = net.link_of(Port(node, 1));
    if !(net.kind(node) matches NodeKind::Ctr(CtrKind::Con(_))) {
        Some(false)
    } else if !net.has_node(port.0) {
        None
    } else if net.kind(port.0) is Era {
        Some(false)
    } else if exists|depth: nat| leaves(net, port, depth) is Some {
        let ports = leaves(net, port, choose|depth: nat| leaves(net, port, depth) is Some)->0;
        Some(meet_all(net, ports, ports.len()) == Set::<Port>::empty())
    } else {
        None
    }
}

/// A greater depth gives the same leaves.
pub proof fn lemma_leaves_deeper(net: INet, port: Port, depth: nat, deeper: nat)
    requires
        leaves(net, port, depth) is Some,
        depth <= deeper,
    ensures
        leaves(net, port, deeper) == leaves(net, port, depth),
    decreases depth,
{
    if port.1 == 0 {
        let rgt = net.link_of(Port(port.0, 2));
        let lft = net.link_of(Port(port.0, 1));
        lemma_leaves_deeper(net, rgt, (depth - 1) as nat, (deeper - 1) as nat);
        lemma_leaves_deeper(net, lft, (depth - 1) as nat, (deeper - 1) as nat);
    }
}

/// The leaves below a port do not depend on the depth at which they are found.
pub proof fn lemma_leaves_unique(net: INet, port: Port, a: nat, b: nat)
    requires
        leaves(net, port, a) is Some,
        leaves(net, port, b) is Some,
    ensures
        leaves(net, port, a) == leaves(net, port, b),
{
    if a <= b {
        lemma_leaves_deeper(net, port, a, b);
    } else {
        lemma_leaves_deeper(net, port, b, a);
    }
}

/// The leaves below the ports of a stack, from its top on.
spec fn leaves_of_stack(net: INet, stack: Seq<Port>, depth: nat) -> Seq<Port>
    decreases stack.len(),
{
    if stack.len() == 0 {
        seq![]
    } else {
        leaves(net, stack.last(), depth)->0 + leaves_of_stack(net, stack.drop_last(), depth)
    }
}

/// There is a leaf below each port of a stack.
proof fn lemma_leaves_of_stack(net: INet, stack: Seq<Port>, depth: nat)
    requires
        forall|i: int| 0 <= i < stack.len() ==> leaves(net, #[trigger] stack[i], depth) is Some,
    ensures
        leaves_of_stack(net, stack, depth).len() >= stack.len(),
    decreases stack.len(),
{
    if stack.len() > 0 {
        lemma_leaves_of_stack(net, stack.drop_last(), depth);
        lemma_some_leaf(net, stack.last(), depth);
    }
}

proof fn lemma_some_leaf(net: INet, port: Port, depth: nat)
    requires
        leaves(net, port, depth) is Some,
    ensures
        leaves(net, port, depth)->0.len() > 0,
    decreases depth,
{
    if port.1 == 0 {
        lemma_some_leaf(net, net.link_of(Port(port.0, 2)), (depth - 1) as nat);
    }
}

impl INet {
    /// Returns whether the given node represents a tuple or some other
    /// term (usually a lambda).
    ///
    /// Used heuristic: a con node is a tuple if port 1 is a closed net and not an ERA.
    pub fn is_tup(&self, node: NodeId) -> (res: bool)
        requires
            self.has_node(node),
            tuple_check(*self, node) is Some,
        ensures
            tuple_check(*self, node) == Some(res),
    {
        match &self.node(node).kind {
            NodeKind::Ctr(CtrKind::Con(_)) => {},
            _ => {
                return false;
            },
        }
        let start = self.enter_port(Port(node, 1));
        match &self.node(start.node()).kind {
            NodeKind::Era => {
                return false;
            },
            _ => {},
        }
        let ghost depth = choose|depth: nat| leaves(*self, start, depth) is Some;
        let ghost ports = leaves(*self, start, depth)->0;
        let ghost mut met: nat = 0;
        let mut wires = PortSet::new();
        let mut to_check: Vec<Port> = vec![start];
        proof {
            assert(to_check@ =~= seq![start]);
            assert(to_check@.drop_last() =~= Seq::<Port>::empty());
            assert(leaves_of_stack(*self, to_check@.drop_last(), depth) =~= Seq::<Port>::empty());
            assert(ports.skip(0) =~= leaves_of_stack(*self, to_check@, depth));
        }
        while to_check.len() > 0
            invariant
                met <= ports.len(),
                ports.skip(met as int) == leaves_of_stack(*self, to_check@, depth),
                wires@ == meet_all(*self, ports, met),
                forall|i: int|
                    0 <= i < to_check@.len() ==> leaves(*self, #[trigger] to_check@[i], depth) is Some,
            decreases 2 * leaves_of_stack(*self, to_check@, depth).len() - to_check@.len(),
        {
            let ghost stack = to_check@;
            proof {
                lemma_leaves_of_stack(*self, stack, depth);
            }
            let port = to_check[to_check.len() - 1];
            to_check.pop();
            assert(to_check@ =~= stack.drop_last());
            assert(leaves(*self, port, depth) is Some);
            if port.slot() == 0 {
                let lft = self.enter_port(Port(port.node(), 1));
                let rgt = self.enter_port(Port(port.node(), 2));
                to_check.push(lft);
                to_check.push(rgt);
                proof {
                    lemma_leaves_deeper(*self, rgt, (depth - 1) as nat, depth);
                    lemma_leaves_deeper(*self, lft, (depth - 1) as nat, depth);
                    let below = stack.drop_last();
                    assert(to_check@.drop_last() =~= below.push(lft));
                    assert(below.push(lft).drop_last() =~= below);
                    assert(leaves_of_stack(*self, below.push(lft), depth) == leaves(
                        *self,
                        lft,
                        depth,
                    )->0 + leaves_of_stack(*self, below, depth));
                    assert(leaves_of_stack(*self, to_check@, depth) == leaves(
                        *self,
                        rgt,
                        depth,
                    )->0 + leaves_of_stack(*self, below.push(lft), depth));
                    assert(leaves_of_stack(*self, to_check@, depth) =~= leaves_of_stack(
                        *self,
                        stack,
                        depth,
                    ));
                    lemma_leaves_of_stack(*self, to_check@, depth);
                }
            } else {
                assert(leaves_of_stack(*self, stack, depth) =~= seq![port] + leaves_of_stack(
                    *self,
                    to_check@,
                    depth,
                ));
                assert(ports.skip(met as int)[0] == port);
                assert(ports.skip(met as int).skip(1) =~= ports.skip((met + 1) as int));
                assert(ports.skip(met as int).skip(1) =~= leaves_of_stack(
                    *self,
                    to_check@,
                    depth,
                ));
                let end = self.enter_port(port);
                // Mark as a wire. If already present, mark as visited by removing it.
                let new = wires.insert(port) && wires.insert(end);
                if !new {
                    wires.remove(port);
                    wires.remove(end);
                }
                proof {
                    assert(wires@ =~= meet(*self, meet_all(*self, ports, met), port));
                    met = met + 1;
                    assert(ports.skip(met as int) =~= leaves_of_stack(*self, to_check@, depth));
                    lemma_leaves_of_stack(*self, to_check@, depth);
                }
            }
        }
        assert(met == ports.len());
        // No hanging wires = a combinator = a tuple
        wires.is_empty()
    }
}

/// The nodes that are entered at their main port on the way to the leaves below a port.
spec fn visits(net: INet, port: Port, depth: nat) -> Set<NodeId>
    decreases depth,
{
    if port.1 != 0 || depth == 0 {
        Set::empty()
    } else {
        visits(net, net.link_of(Port(port.0, 2)), (depth - 1) as nat).union(
            visits(net, net.link_of(Port(port.0, 1)), (depth - 1) as nat),
        ).insert(port.0)
    }
}

/// A greater depth visits the same nodes.
proof fn lemma_visits_deeper(net: INet, port: Port, depth: nat, deeper: nat)
    requires
        leaves(net, port, depth) is Some,
        depth <= deeper,
    ensures
        visits(net, port, deeper) == visits(net, port, depth),
    decreases depth,
{
    if port.1 == 0 {
        let rgt = net.link_of(Port(port.0, 2));
        let lft = net.link_of(Port(port.0, 1));
        lemma_visits_deeper(net, rgt, (depth - 1) as nat, (deeper - 1) as nat);
        lemma_visits_deeper(net, lft, (depth - 1) as nat, (deeper - 1) as nat);
    }
}

/// The leaves below a node that is visited are no deeper than those of the whole exploration.
proof fn lemma_visited_depth(net: INet, port: Port, depth: nat, node: NodeId)
    requires
        leaves(net, port, depth) is Some,
        visits(net, port, depth).contains(node),
    ensures
        leaves(net, Port(node, 0), depth) is Some,
        net.has_node(node),
    decreases depth,
{
    if node != port.0 {
        let rgt = net.link_of(Port(port.0, 2));
        let lft = net.link_of(Port(port.0, 1));
        let less = (depth - 1) as nat;
        if visits(net, rgt, less).contains(node) {
            lemma_visited_depth(net, rgt, less, node);
        } else {
            lemma_visited_depth(net, lft, less, node);
        }
        lemma_leaves_deeper(net, Port(node, 0), less, depth);
    }
}

/// A node is not visited again below its own auxiliary ports.
proof fn lemma_no_return(net: INet, node: NodeId, depth: nat)
    requires
        leaves(net, Port(node, 0), depth) is Some,
    ensures
        !visits(net, net.link_of(Port(node, 2)), (depth - 1) as nat).contains(node),
        !visits(net, net.link_of(Port(node, 1)), (depth - 1) as nat).contains(node),
    decreases depth,
{
    let rgt = net.link_of(Port(node, 2));
    let lft = net.link_of(Port(node, 1));
    let less = (depth - 1) as nat;
    if leaves(net, Port(node, 0), less) is Some {
        lemma_no_return(net, node, less);
        lemma_visits_deeper(net, rgt, (less - 1) as nat, less);
        lemma_visits_deeper(net, lft, (less - 1) as nat, less);
    } else {
        if visits(net, rgt, less).contains(node) {
            lemma_visited_depth(net, rgt, less, node);
        }
        if visits(net, lft, less).contains(node) {
            lemma_visited_depth(net, lft, less, node);
        }
    }
}

impl INet {
    /// Whether every link goes both ways.
    pub open spec fn symmetric(self) -> bool {
        forall|port: Port|
            self.has_port(port) ==> {
                &&& self.has_port(#[trigger] self.link_of(port))
                &&& self.link_of(self.link_of(port)) == port
            }
    }
}

/// A visited node, other than the first one, is entered from an auxiliary port of a visited
/// node.
proof fn lemma_visited_from(net: INet, port: Port, depth: nat, node: NodeId)
    requires
        net.symmetric(),
        leaves(net, port, depth) is Some,
        visits(net, port, depth).contains(node),
        node != port.0,
    ensures
        visits(net, port, depth).contains(net.link_of(Port(node, 0)).0),
    decreases depth,
{
    let rgt = net.link_of(Port(port.0, 2));
    let lft = net.link_of(Port(port.0, 1));
    let less = (depth - 1) as nat;
    assert(net.has_port(Port(port.0, 2)));
    assert(net.has_port(Port(port.0, 1)));
    if visits(net, rgt, less).contains(node) {
        if node != rgt.0 {
            lemma_visited_from(net, rgt, less, node);
        }
    } else {
        if node != lft.0 {
            lemma_visited_from(net, lft, less, node);
        }
    }
}

/// Below the port `port` no node is visited that is visited below `lft`, the other port of
/// `node`.
proof fn lemma_visits_disjoint(
    net: INet,
    node: NodeId,
    lft: Port,
    depth_lft: nat,
    port: Port,
    depth: nat,
    visited: NodeId,
)
    requires
        net.symmetric(),
        leaves(net, lft, depth_lft) is Some,
        leaves(net, port, depth) is Some,
        lft == net.link_of(Port(node, 1)),
        net.has_node(node),
        port.1 == 0,
        lft.1 == 0,
        port.0 != lft.0,
        !visits(net, lft, depth_lft).contains(node),
        !visits(net, port, depth).contains(node),
        !visits(net, lft, depth_lft).contains(net.link_of(port).0),
        visits(net, port, depth).contains(visited),
    ensures
        !visits(net, lft, depth_lft).contains(visited),
    decreases depth,
{
    let less = (depth - 1) as nat;
    if visits(net, lft, depth_lft).contains(port.0) {
        lemma_visited_from(net, lft, depth_lft, port.0);
    }
    if visited != port.0 {
        let rgt2 = net.link_of(Port(port.0, 2));
        let lft2 = net.link_of(Port(port.0, 1));
        assert(net.has_port(Port(port.0, 2)));
        assert(net.has_port(Port(port.0, 1)));
        assert(net.has_port(Port(node, 1)));
        assert(net.link_of(rgt2) == Port(port.0, 2));
        assert(net.link_of(lft2) == Port(port.0, 1));
        assert(net.link_of(lft) == Port(node, 1));
        if visits(net, rgt2, less).contains(visited) {
            lemma_visits_disjoint(net, node, lft, depth_lft, rgt2, less, visited);
        } else {
            assert(visits(net, lft2, less).contains(visited));
            lemma_visits_disjoint(net, node, lft, depth_lft, lft2, less, visited);
        }
    }
}

/// A leaf below a main port is linked to an auxiliary port of a visited node.
proof fn lemma_leaf_from(net: INet, port: Port, depth: nat, leaf: Port)
    requires
        net.symmetric(),
        leaves(net, port, depth) is Some,
        leaves(net, port, depth)->0.contains(leaf),
    ensures
        net.has_port(leaf),
        port.1 == 0 ==> visits(net, port, depth).contains(net.link_of(leaf).0),
        port.1 != 0 ==> leaf == port,
    decreases depth,
{
    if port.1 == 0 {
        let rgt = net.link_of(Port(port.0, 2));
        let lft = net.link_of(Port(port.0, 1));
        let less = (depth - 1) as nat;
        assert(net.has_port(Port(port.0, 2)));
        assert(net.has_port(Port(port.0, 1)));
        let in_rgt = leaves(net, rgt, less)->0;
        let in_lft = leaves(net, lft, less)->0;
        let all = leaves(net, port, depth)->0;
        let i = choose|i: int| 0 <= i < all.len() && all[i] == leaf;
        if i < in_rgt.len() {
            assert(in_rgt[i] == leaf);
            lemma_leaf_from(net, rgt, less, leaf);
        } else {
            assert(in_lft[i - in_rgt.len()] == leaf);
            lemma_leaf_from(net, lft, less, leaf);
        }
    }
}

/// No port is met twice.
proof fn lemma_leaves_distinct(net: INet, port: Port, depth: nat)
    requires
        net.symmetric(),
        leaves(net, port, depth) is Some,
    ensures
        leaves(net, port, depth)->0.no_duplicates(),
    decreases depth,
{
    if port.1 == 0 {
        let node = port.0;
        let rgt = net.link_of(Port(node, 2));
        let lft = net.link_of(Port(node, 1));
        let less = (depth - 1) as nat;
        assert(net.has_port(Port(node, 2)));
        assert(net.has_port(Port(node, 1)));
        lemma_leaves_distinct(net, rgt, less);
        lemma_leaves_distinct(net, lft, less);
        lemma_no_return(net, node, depth);
        let in_rgt = leaves(net, rgt, less)->0;
        let in_lft = leaves(net, lft, less)->0;
        assert forall|i: int, j: int|
            0 <= i < in_rgt.len() && 0 <= j < in_lft.len() implies in_rgt[i] != in_lft[j] by {
            if in_rgt[i] == in_lft[j] {
                let leaf = in_rgt[i];
                lemma_leaf_from(net, rgt, less, leaf);
                lemma_leaf_from(net, lft, less, leaf);
                if rgt.1 == 0 && lft.1 == 0 {
                    lemma_visits_disjoint(
                        net,
                        node,
                        lft,
                        less,
                        rgt,
                        less,
                        net.link_of(leaf).0,
                    );
                }
            }
        }
    }
}

/// Where links go both ways and no port is met twice, a wire hangs when one of its ends was
/// met and the other one was not.
proof fn lemma_hanging_wires(net: INet, ports: Seq<Port>, n: nat)
    requires
        net.symmetric(),
        ports.no_duplicates(),
        n <= ports.len(),
        forall|i: int| 0 <= i < ports.len() ==> net.has_port(#[trigger] ports[i]),
    ensures
        forall|port: Port|
            net.has_port(port) ==> (#[trigger] meet_all(net, ports, n).contains(port) <==> (
            ports.take(n as int).contains(port) != ports.take(n as int).contains(
                net.link_of(port),
            ))),
        forall|port: Port| #[trigger]
            meet_all(net, ports, n).contains(port) ==> net.has_port(port),
    decreases n,
{
    if n > 0 {
        let before = (n - 1) as nat;
        let leaf = ports[n - 1];
        let end = net.link_of(leaf);
        lemma_hanging_wires(net, ports, before);
        let met = ports.take(before as int);
        let now = ports.take(n as int);
        assert(now =~= met.push(leaf));
        assert(!met.contains(leaf)) by {
            if met.contains(leaf) {
                let i = choose|i: int| 0 <= i < met.len() && met[i] == leaf;
                assert(ports[i] == ports[n - 1]);
            }
        }
        assert forall|port: Port| #[trigger] now.contains(port) <==> met.contains(port) || port
            == leaf by {
            if met.contains(port) {
                let i = choose|i: int| 0 <= i < met.len() && met[i] == port;
                assert(now[i] == port);
            }
            assert(now[before as int] == leaf);
        }
        assert(net.has_port(leaf));
        assert(net.has_port(end) && net.link_of(end) == leaf);
        assert forall|port: Port| net.has_port(port) implies (#[trigger] meet_all(
            net,
            ports,
            n,
        ).contains(port) <==> (now.contains(port) != now.contains(net.link_of(port)))) by {
            assert(net.link_of(net.link_of(port)) == port);
            assert(meet_all(net, ports, before).contains(port) <==> (met.contains(port)
                != met.contains(net.link_of(port))));
            assert(meet_all(net, ports, before).contains(leaf) <==> (met.contains(leaf)
                != met.contains(end)));
            assert(meet_all(net, ports, before).contains(end) <==> (met.contains(end)
                != met.contains(leaf)));
        }
        assert forall|port: Port| #[trigger]
            meet_all(net, ports, n).contains(port) implies net.has_port(port) by {
            if port != leaf && port != end {
                assert(meet_all(net, ports, before).contains(port));
            }
        }
    } else {
        assert(ports.take(0) =~= Seq::<Port>::empty());
    }
}

/// Whether a sequence of nodes is a way down from a port: the port is the main port of the first
/// node, and each other node is entered at its main port from an auxiliary port of the one before.
pub open spec fn is_descent(net: INet, start: Port, path: Seq<NodeId>) -> bool
    decreases path.len(),
{
    if path.len() == 0 {
        true
    } else if path.len() == 1 {
        net.has_node(path[0]) && Port(path[0], 0) == start
    } else {
        let above = path[path.len() - 2];
        &&& is_descent(net, start, path.drop_last())
        &&& net.has_node(path.last())
        &&& Port(path.last(), 0) == net.link_of(Port(above, 1)) || Port(path.last(), 0)
            == net.link_of(Port(above, 2))
    }
}

/// Whether a way down from a port leads to a node.
pub open spec fn is_reached(net: INet, start: Port, node: NodeId) -> bool {
    exists|path: Seq<NodeId>| #[trigger]
        is_descent(net, start, path) && path.len() > 0 && path.last() == node
}

/// The first nodes of a way down are one too, and each node is entered from the one before.
proof fn lemma_descent_step(net: INet, start: Port, path: Seq<NodeId>, k: int)
    requires
        is_descent(net, start, path),
        0 <= k < path.len(),
    ensures
        net.has_node(path[k]),
        is_descent(net, start, path.take(k + 1)),
        k == 0 ==> Port(path[k], 0) == start,
        k > 0 ==> Port(path[k], 0) == net.link_of(Port(path[k - 1], 1)) || Port(path[k], 0)
            == net.link_of(Port(path[k - 1], 2)),
    decreases path.len(),
{
    if k == path.len() - 1 {
        assert(path.take(k + 1) =~= path);
    } else {
        lemma_descent_step(net, start, path.drop_last(), k);
        assert(path.drop_last().take(k + 1) =~= path.take(k + 1));
    }
}

/// A way down from the first auxiliary port of a node that does not lead back to it meets no node
/// twice: two ways into the same main port come from the same node, and so on up to the start.
proof fn lemma_no_meeting(net: INet, node: NodeId, path: Seq<NodeId>, i: int, j: int)
    requires
        net.symmetric(),
        net.has_node(node),
        is_descent(net, net.link_of(Port(node, 1)), path),
        !is_reached(net, net.link_of(Port(node, 1)), node),
        0 <= i < j < path.len(),
    ensures
        path[i] != path[j],
    decreases i,
{
    if path[i] == path[j] {
        let start = net.link_of(Port(node, 1));
        lemma_descent_step(net, start, path, i);
        lemma_descent_step(net, start, path, j);
        lemma_descent_step(net, start, path, j - 1);
        assert(net.has_port(Port(node, 1)));
        assert(net.has_port(Port(path[j - 1], 1)));
        assert(net.has_port(Port(path[j - 1], 2)));
        let from = net.link_of(Port(path[j], 0));
        assert(from == Port(path[j - 1], 1) || from == Port(path[j - 1], 2));
        if i == 0 {
            assert(from == Port(node, 1));
            assert(path.take(j).last() == node);
        } else {
            lemma_descent_step(net, start, path, i - 1);
            assert(net.has_port(Port(path[i - 1], 1)));
            assert(net.has_port(Port(path[i - 1], 2)));
            assert(from == Port(path[i - 1], 1) || from == Port(path[i - 1], 2));
            lemma_no_meeting(net, node, path, i - 1, j - 1);
        }
    }
}

/// So it has at most as many nodes as the net.
proof fn lemma_descent_is_short(net: INet, node: NodeId, path: Seq<NodeId>)
    requires
        net.symmetric(),
        net.has_node(node),
        is_descent(net, net.link_of(Port(node, 1)), path),
        !is_reached(net, net.link_of(Port(node, 1)), node),
    ensures
        path.len() <= net.size(),
{
    let nodes = path.map_values(|node: NodeId| node as int);
    let all = vstd::set_lib::set_int_range(0, net.size() as int);
    assert forall|i: int, j: int| 0 <= i < j < nodes.len() implies nodes[i] != nodes[j] by {
        lemma_no_meeting(net, node, path, i, j);
    }
    assert(nodes.no_duplicates());
    nodes.unique_seq_to_set();
    vstd::set_lib::lemma_int_range(0, net.size() as int);
    assert forall|n: int| nodes.to_set().contains(n) implies all.contains(n) by {
        let i = choose|i: int| 0 <= i < nodes.len() && nodes[i] == n;
        lemma_descent_step(net, net.link_of(Port(node, 1)), path, i);
    }
    vstd::set_lib::lemma_len_subset(nodes.to_set(), all);
}

/// The leaves below what a way down leads to are found.
proof fn lemma_leaves_found(net: INet, node: NodeId, path: Seq<NodeId>, port: Port, depth: nat)
    requires
        net.symmetric(),
        net.has_node(node),
        net.has_port(port),
        is_descent(net, net.link_of(Port(node, 1)), path),
        !is_reached(net, net.link_of(Port(node, 1)), node),
        path.len() == 0 ==> port == net.link_of(Port(node, 1)),
        path.len() > 0 ==> port == net.link_of(Port(path.last(), 1)) || port == net.link_of(
            Port(path.last(), 2),
        ),
        depth + path.len() > net.size(),
    ensures
        leaves(net, port, depth) is Some,
    decreases depth,
{
    if port.1 == 0 {
        let longer = path.push(port.0);
        assert(longer.drop_last() =~= path);
        assert(is_descent(net, net.link_of(Port(node, 1)), longer));
        lemma_descent_is_short(net, node, longer);
        let rgt = net.link_of(Port(port.0, 2));
        let lft = net.link_of(Port(port.0, 1));
        assert(net.has_port(Port(port.0, 2)));
        assert(net.has_port(Port(port.0, 1)));
        lemma_leaves_found(net, node, longer, rgt, (depth - 1) as nat);
        lemma_leaves_found(net, node, longer, lft, (depth - 1) as nat);
    }
}

/// A node that a way down leads to is visited.
proof fn lemma_reached_is_visited(net: INet, start: Port, path: Seq<NodeId>, depth: nat)
    requires
        leaves(net, start, depth) is Some,
        is_descent(net, start, path),
        path.len() > 0,
    ensures
        visits(net, start, depth).contains(path.last()),
        leaves(net, Port(path.last(), 0), depth) is Some,
    decreases path.len(),
{
    if path.len() > 1 {
        let above = path[path.len() - 2];
        lemma_descent_step(net, start, path, path.len() - 2);
        lemma_reached_is_visited(net, start, path.drop_last(), depth);
        lemma_visits_below(net, start, depth, above, path.last());
        lemma_visited_depth(net, start, depth, path.last());
    }
}

/// What is entered from an auxiliary port of a visited node is visited.
proof fn lemma_visits_below(net: INet, port: Port, depth: nat, above: NodeId, below: NodeId)
    requires
        leaves(net, port, depth) is Some,
        visits(net, port, depth).contains(above),
        Port(below, 0) == net.link_of(Port(above, 1)) || Port(below, 0) == net.link_of(
            Port(above, 2),
        ),
    ensures
        visits(net, port, depth).contains(below),
    decreases depth,
{
    let rgt = net.link_of(Port(port.0, 2));
    let lft = net.link_of(Port(port.0, 1));
    let less = (depth - 1) as nat;
    if above == port.0 {
        if Port(below, 0) == rgt {
            assert(leaves(net, rgt, less) is Some);
            assert(visits(net, rgt, less).contains(below));
        } else {
            assert(leaves(net, lft, less) is Some);
            assert(visits(net, lft, less).contains(below));
        }
    } else if visits(net, rgt, less).contains(above) {
        lemma_visits_below(net, rgt, less, above, below);
    } else {
        lemma_visits_below(net, lft, less, above, below);
    }
}

/// In a net whose links go both ways, the search for the leaves of a constructor whose first
/// auxiliary port is not erased comes to an end just when no way down from that port leads back
/// to the constructor. Then it goes no deeper than there are nodes.
pub proof fn law_search_ends(net: INet, node: NodeId)
    requires
        net.symmetric(),
        net.has_node(node),
        net.kind(node) matches NodeKind::Ctr(CtrKind::Con(_)),
        !(net.kind(net.link_of(Port(node, 1)).0) is Era),
    ensures
        tuple_check(net, node) is Some <==> !is_reached(net, net.link_of(Port(node, 1)), node),
        tuple_check(net, node) is Some <==> leaves(
            net,
            net.link_of(Port(node, 1)),
            net.size() + 1,
        ) is Some,
{
    let start = net.link_of(Port(node, 1));
    assert(net.has_port(Port(node, 1)));
    if is_reached(net, start, node) {
        assert forall|depth: nat| !(#[trigger] leaves(net, start, depth) is Some) by {
            if leaves(net, start, depth) is Some {
                let path = choose|path: Seq<NodeId>| #[trigger]
                    is_descent(net, start, path) && path.len() > 0 && path.last() == node;
                lemma_reached_is_visited(net, start, path, depth);
                lemma_leaves_deeper(net, Port(node, 0), depth, depth + 1);
                lemma_no_return(net, node, depth + 1);
            }
        }
    } else {
        lemma_leaves_found(net, node, seq![], start, net.size() + 1);
    }
}

/// In a net whose links go both ways, a constructor whose first auxiliary port is not erased is
/// a tuple when the net below that port is closed: the other end of every leaf is a leaf too. That
/// is so wherever the search for the leaves comes to an end.
pub proof fn law_tuple_is_closed(net: INet, node: NodeId)
    requires
        net.symmetric(),
        net.has_node(node),
        net.kind(node) matches NodeKind::Ctr(CtrKind::Con(_)),
        !(net.kind(net.link_of(Port(node, 1)).0) is Era),
        !is_reached(net, net.link_of(Port(node, 1)), node),
    ensures
        ({
            let ports = leaves(net, net.link_of(Port(node, 1)), net.size() + 1)->0;
            tuple_check(net, node) == Some(
                forall|i: int|
                    0 <= i < ports.len() ==> ports.contains(net.link_of(#[trigger] ports[i])),
            )
        }),
{
    let start = net.link_of(Port(node, 1));
    let depth = net.size() + 1;
    law_search_ends(net, node);
    let ports = leaves(net, start, depth)->0;
    let chosen = choose|depth: nat| leaves(net, start, depth) is Some;
    lemma_leaves_unique(net, start, depth, chosen);
    lemma_leaves_distinct(net, start, depth);
    assert forall|i: int| 0 <= i < ports.len() implies net.has_port(#[trigger] ports[i]) by {
        lemma_leaf_from(net, start, depth, ports[i]);
    }
    lemma_hanging_wires(net, ports, ports.len());
    assert(ports.take(ports.len() as int) =~= ports);
    let wires = meet_all(net, ports, ports.len());
    let closed = forall|i: int|
        0 <= i < ports.len() ==> ports.contains(net.link_of(#[trigger] ports[i]));
    if wires == Set::<Port>::empty() {
        assert forall|i: int| 0 <= i < ports.len() implies ports.contains(
            net.link_of(#[trigger] ports[i]),
        ) by {
            assert(!wires.contains(ports[i]));
        }
    }
    if closed {
        assert forall|port: Port| !wires.contains(port) by {
            if wires.contains(port) {
                assert(net.has_port(port));
                let end = net.link_of(port);
                if ports.contains(port) {
                    let i = choose|i: int| 0 <= i < ports.len() && ports[i] == port;
                    assert(ports.contains(net.link_of(ports[i])));
                } else {
                    let i = choose|i: int| 0 <= i < ports.len() && ports[i] == end;
                    assert(ports.contains(net.link_of(ports[i])));
                }
            }
        }
        assert(wires =~= Set::<Port>::empty());
    }
}

/// In a net whose links go both ways, no search fails where no constructor is led back to from its
/// own first auxiliary port.
pub proof fn law_every_search_ends(net: INet, node: NodeId)
    requires
        net.symmetric(),
        net.has_node(node),
        !is_reached(net, net.link_of(Port(node, 1)), node),
    ensures
        tuple_check(net, node) is Some,
{
    assert(net.has_port(Port(node, 1)));
    if net.kind(node) matches NodeKind::Ctr(CtrKind::Con(_)) {
        if !(net.kind(net.link_of(Port(node, 1)).0) is Era) {
            law_search_ends(net, node);
        }
    }
}

/// Whether a port is where a way down from a port ends: an auxiliary port, which is either that
/// port itself or linked to an auxiliary port of a node that a way down leads to.
pub open spec fn is_leaf(net: INet, start: Port, leaf: Port) -> bool {
    &&& leaf.1 != 0
    &&& leaf == start || exists|path: Seq<NodeId>|
        {
            &&& #[trigger] is_descent(net, start, path)
            &&& path.len() > 0
            &&& leaf == net.link_of(Port(path.last(), 1)) || leaf == net.link_of(
                Port(path.last(), 2),
            )
        }
}

/// A way down from an auxiliary port of a node is one from its main port, with the node in front.
proof fn lemma_descent_above(net: INet, above: NodeId, start: Port, path: Seq<NodeId>)
    requires
        net.has_node(above),
        is_descent(net, start, path),
        start == net.link_of(Port(above, 1)) || start == net.link_of(Port(above, 2)),
    ensures
        is_descent(net, Port(above, 0), seq![above] + path),
    decreases path.len(),
{
    let longer = seq![above] + path;
    if path.len() == 0 {
        assert(longer =~= seq![above]);
    } else {
        let front = path.drop_last();
        lemma_descent_step(net, start, path, path.len() - 1);
        assert(is_descent(net, start, front)) by {
            if path.len() == 1 {
                assert(front.len() == 0);
            }
        }
        lemma_descent_above(net, above, start, front);
        assert(longer.drop_last() =~= seq![above] + front);
        assert(longer.last() == path.last());
        if path.len() > 1 {
            assert(longer[longer.len() - 2] == path[path.len() - 2]);
        }
    }
}

/// Leaves below an auxiliary port are leaves below the main port.
proof fn lemma_leaf_above(net: INet, above: NodeId, start: Port, leaf: Port)
    requires
        net.has_node(above),
        is_leaf(net, start, leaf),
        start == net.link_of(Port(above, 1)) || start == net.link_of(Port(above, 2)),
    ensures
        is_leaf(net, Port(above, 0), leaf),
{
    if leaf == start {
        let path = seq![above];
        assert(is_descent(net, Port(above, 0), path));
        assert(path.last() == above);
    } else {
        let path = choose|path: Seq<NodeId>|
            {
                &&& #[trigger] is_descent(net, start, path)
                &&& path.len() > 0
                &&& leaf == net.link_of(Port(path.last(), 1)) || leaf == net.link_of(
                    Port(path.last(), 2),
                )
            };
        let longer = seq![above] + path;
        lemma_descent_above(net, above, start, path);
        assert(longer.last() == path.last());
    }
}

/// What ends a way down at a visited node is a leaf.
proof fn lemma_leaf_below(net: INet, port: Port, depth: nat, above: NodeId, leaf: Port)
    requires
        leaves(net, port, depth) is Some,
        visits(net, port, depth).contains(above),
        leaf.1 != 0,
        leaf == net.link_of(Port(above, 1)) || leaf == net.link_of(Port(above, 2)),
    ensures
        leaves(net, port, depth)->0.contains(leaf),
    decreases depth,
{
    let rgt = net.link_of(Port(port.0, 2));
    let lft = net.link_of(Port(port.0, 1));
    let less = (depth - 1) as nat;
    let in_rgt = leaves(net, rgt, less)->0;
    let in_lft = leaves(net, lft, less)->0;
    let all = leaves(net, port, depth)->0;
    assert(all == in_rgt + in_lft);
    if above == port.0 {
        if leaf == rgt {
            assert(in_rgt == seq![leaf]);
            assert(all[0] == leaf);
        } else {
            assert(in_lft == seq![leaf]);
            assert(all[in_rgt.len() as int] == leaf);
        }
    } else if visits(net, rgt, less).contains(above) {
        lemma_leaf_below(net, rgt, less, above, leaf);
        let i = choose|i: int| 0 <= i < in_rgt.len() && in_rgt[i] == leaf;
        assert(all[i] == leaf);
    } else {
        lemma_leaf_below(net, lft, less, above, leaf);
        let i = choose|i: int| 0 <= i < in_lft.len() && in_lft[i] == leaf;
        assert(all[in_rgt.len() + i] == leaf);
    }
}

/// The leaves below a port are where the ways down from it end.
pub proof fn law_leaves_end_the_ways_down(net: INet, start: Port, depth: nat, leaf: Port)
    requires
        leaves(net, start, depth) is Some,
    ensures
        leaves(net, start, depth)->0.contains(leaf) <==> is_leaf(net, start, leaf),
    decreases depth,
{
    let all = leaves(net, start, depth)->0;
    if start.1 != 0 {
        assert(all == seq![start]);
        assert(all[0] == start);
        if is_leaf(net, start, leaf) && leaf != start {
            let path = choose|path: Seq<NodeId>|
                {
                    &&& #[trigger] is_descent(net, start, path)
                    &&& path.len() > 0
                    &&& leaf == net.link_of(Port(path.last(), 1)) || leaf == net.link_of(
                        Port(path.last(), 2),
                    )
                };
            lemma_descent_step(net, start, path, 0);
        }
    } else {
        let rgt = net.link_of(Port(start.0, 2));
        let lft = net.link_of(Port(start.0, 1));
        let less = (depth - 1) as nat;
        let in_rgt = leaves(net, rgt, less)->0;
        let in_lft = leaves(net, lft, less)->0;
        if all.contains(leaf) {
            let i = choose|i: int| 0 <= i < all.len() && all[i] == leaf;
            if i < in_rgt.len() {
                assert(in_rgt[i] == leaf);
                law_leaves_end_the_ways_down(net, rgt, less, leaf);
                lemma_leaf_above(net, start.0, rgt, leaf);
            } else {
                assert(in_lft[i - in_rgt.len()] == leaf);
                law_leaves_end_the_ways_down(net, lft, less, leaf);
                lemma_leaf_above(net, start.0, lft, leaf);
            }
        }
        if is_leaf(net, start, leaf) {
            let path = choose|path: Seq<NodeId>|
                {
                    &&& #[trigger] is_descent(net, start, path)
                    &&& path.len() > 0
                    &&& leaf == net.link_of(Port(path.last(), 1)) || leaf == net.link_of(
                        Port(path.last(), 2),
                    )
                };
            lemma_reached_is_visited(net, start, path, depth);
            lemma_leaf_below(net, start, depth, path.last(), leaf);
        }
    }
}

/// So a constructor whose first auxiliary port is not erased is a tuple just when every wire in
/// which a way down from that port ends has both its ends there.
pub proof fn law_tuple_has_no_hanging_wires(net: INet, node: NodeId)
    requires
        net.symmetric(),
        net.has_node(node),
        net.kind(node) matches NodeKind::Ctr(CtrKind::Con(_)),
        !(net.kind(net.link_of(Port(node, 1)).0) is Era),
        !is_reached(net, net.link_of(Port(node, 1)), node),
    ensures
        ({
            let start = net.link_of(Port(node, 1));
            tuple_check(net, node) == Some(
                forall|leaf: Port| #[trigger]
                    is_leaf(net, start, leaf) ==> is_leaf(net, start, net.link_of(leaf)),
            )
        }),
{
    let start = net.link_of(Port(node, 1));
    let depth = net.size() + 1;
    law_search_ends(net, node);
    law_tuple_is_closed(net, node);
    let ports = leaves(net, start, depth)->0;
    let closed = forall|i: int|
        0 <= i < ports.len() ==> ports.contains(net.link_of(#[trigger] ports[i]));
    if closed {
        assert forall|leaf: Port| #[trigger] is_leaf(net, start, leaf) implies is_leaf(
            net,
            start,
            net.link_of(leaf),
        ) by {
            law_leaves_end_the_ways_down(net, start, depth, leaf);
            law_leaves_end_the_ways_down(net, start, depth, net.link_of(leaf));
            let i = choose|i: int| 0 <= i < ports.len() && ports[i] == leaf;
            assert(ports.contains(net.link_of(ports[i])));
        }
    } else {
        let i = choose|i: int|
            0 <= i < ports.len() && !ports.contains(net.link_of(#[trigger] ports[i]));
        law_leaves_end_the_ways_down(net, start, depth, ports[i]);
        law_leaves_end_the_ways_down(net, start, depth, net.link_of(ports[i]));
        assert(is_leaf(net, start, ports[i]));
    }
}

/// Any other node, and a constructor whose first auxiliary port is erased, is no tuple.
pub proof fn law_other_nodes_are_no_tuples(net: INet, node: NodeId)
    requires
        net.has_node(net.link_of(Port(node, 1)).0),
        (net.kind(node) matches NodeKind::Ctr(CtrKind::Con(_))) ==> net.kind(
            net.link_of(Port(node, 1)).0,
        ) is Era,
    ensures
        tuple_check(net, node) == Some(false),
{
}

} // verus!
