//! Sets of ports.
use crate::net::{lemma_key_injective, Port};
use std::collections::HashSet;
use vstd::prelude::*;

verus! {

/// A set of ports.
pub struct PortSet {
    keys: HashSet<u128>,
}

impl View for PortSet {
    type V = Set<Port>;

    closed spec fn view(&self) -> Set<Port> {
        Set::new(|port: Port| self.keys@.contains(port.spec_key()))
    }
}

impl PortSet {
    /// The empty set.
    pub fn new() -> (set: PortSet)
        ensures
            set@ == Set::<Port>::empty(),
    {
        let set = PortSet { keys: HashSet::new() };
        assert(set@ =~= Set::<Port>::empty());
        set
    }

    /// Adds a port, and says whether it is new.
    pub fn insert(&mut self, port: Port) -> (new: bool)
        ensures
            final(self)@ == old(self)@.insert(port),
            new == !old(self)@.contains(port),
    {
        broadcast use vstd::std_specs::hash::group_hash_axioms;
        broadcast use lemma_key_injective;

        let new = self.keys.insert(port.key());
        assert(self@ =~= old(self)@.insert(port));
        new
    }

    /// Takes a port from the set.
    pub fn remove(&mut self, port: Port)
        ensures
            final(self)@ == old(self)@.remove(port),
    {
        broadcast use vstd::std_specs::hash::group_hash_axioms;
        broadcast use lemma_key_injective;

        let key = port.key();
        self.keys.remove(&key);
        assert(self@ =~= old(self)@.remove(port));
    }

    /// Whether the set has no ports.
    pub fn is_empty(&self) -> (res: bool)
        ensures
            res == (self@ == Set::<Port>::empty()),
    {
        let res = self.keys.is_empty();
        proof {
            if res {
                assert(self@ =~= Set::<Port>::empty());
            } else {
                let key = choose|key: u128| self.keys@.contains(key);
                assert(self.keys@.contains(key)) by {
                    if !self.keys@.contains(key) {
                        assert(self.keys@ =~= Set::<u128>::empty());
                    }
                }
                let port = Port(
                    (key / 0x1_0000_0000_0000_0000) as u64,
                    (key % 0x1_0000_0000_0000_0000) as u64,
                );
                assert(port.spec_key() == key);
                assert(self@.contains(port));
            }
        }
        res
    }
}

} // verus!
