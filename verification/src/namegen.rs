//! Generation of the names of variables.
use crate::name::{law_letters_injective, letters, opt_name, Name};
use crate::net::{lemma_key_injective, INet, NodeKind, Port};
use std::collections::HashMap;
use vstd::prelude::*;

verus! {

/// Gives a number, and so a name, to each port that is a variable.
pub struct NameGen {
    /// The number of each port that has one, by the port as a number.
    pub var_port_to_id: HashMap<u128, u64>,
    /// The next number to give.
    pub id_counter: u64,
}

/// The model of a name generator.
#[verifier::ext_equal]
pub struct Names {
    /// The number of each port that has one.
    pub ids: Map<Port, u64>,
    /// The next number to give.
    pub next: u64,
}

impl View for NameGen {
    type V = Names;

    open spec fn view(&self) -> Names {
        Names {
            ids: Map::new(
                |port: Port| self.var_port_to_id@.contains_key(port.spec_key()),
                |port: Port| self.var_port_to_id@[port.spec_key()],
            ),
            next: self.id_counter,
        }
    }
}

impl Names {
    /// No port has a number yet.
    pub open spec fn empty() -> Names {
        Names { ids: Map::empty(), next: 0 }
    }

    /// Whether there is a number left for the port, in case that it has none yet.
    pub open spec fn can_name(self, port: Port) -> bool {
        self.ids.contains_key(port) || self.next < u64::MAX
    }

    /// The generator once the port has a number.
    pub open spec fn with_port(self, port: Port) -> Names {
        if self.ids.contains_key(port) {
            self
        } else {
            Names { ids: self.ids.insert(port, self.next), next: (self.next + 1) as u64 }
        }
    }

    /// The name of a port that has a number.
    pub open spec fn name_of(self, port: Port) -> Seq<char> {
        letters(self.ids[port] as nat)
    }

    /// The generator once a number was given to no port.
    pub open spec fn after_unique(self) -> Names {
        Names { ids: self.ids, next: (self.next + 1) as u64 }
    }

    /// Whether a number was given, and to no port.
    pub open spec fn is_reserved(self, id: u64) -> bool {
        &&& id < self.next
        &&& forall|port: Port| #[trigger] self.ids.contains_key(port) ==> self.ids[port] != id
    }

    /// Whether the numbers of the ports are different from each other and from those that are
    /// still to be given.
    pub open spec fn consistent(self) -> bool {
        &&& forall|port: Port| #[trigger]
            self.ids.contains_key(port) ==> self.ids[port] < self.next
        &&& forall|a: Port, b: Port|
            #![trigger self.ids.contains_key(a), self.ids.contains_key(b)]
            self.ids.contains_key(a) && self.ids.contains_key(b) && self.ids[a] == self.ids[b]
                ==> a == b
    }
}

impl Default for NameGen {
    fn default() -> (gen: NameGen)
        ensures
            gen@ == Names::empty(),
    {
        NameGen::new()
    }
}

/// Whether the variable at a port is used: a port that is linked to an erasure is not.
pub open spec fn is_used(net: INet, port: Port) -> bool {
    !(net.kind(net.link_of(port).0) is Era)
}

impl NameGen {
    /// No port has a number yet.
    pub fn new() -> (gen: NameGen)
        ensures
            gen@ == Names::empty(),
    {
        let gen = NameGen { var_port_to_id: HashMap::new(), id_counter: 0 };
        assert(gen@ =~= Names::empty());
        gen
    }

    /// Given a port, returns its name, or assigns one if it wasn't named yet.
    pub fn var_name(&mut self, var_port: Port) -> (name: Name)
        requires
            old(self)@.can_name(var_port),
        ensures
            final(self)@ == old(self)@.with_port(var_port),
            name@ == final(self)@.name_of(var_port),
    {
        broadcast use vstd::std_specs::hash::group_hash_axioms;
        broadcast use lemma_key_injective;

        let key = var_port.key();
        let found: Option<u64> = match self.var_port_to_id.get(&key) {
            Some(id) => Some(*id),
            None => None,
        };
        match found {
            Some(id) => Name::from_id(id),
            None => {
                let id = self.id_counter;
                self.id_counter = self.id_counter + 1;
                self.var_port_to_id.insert(key, id);
                assert(self@ =~= old(self)@.with_port(var_port));
                Name::from_id(id)
            },
        }
    }

    /// The name of a variable that is declared: none if the port is linked to an erasure.
    pub fn decl_name(&mut self, net: &INet, var_port: Port) -> (name: Option<Name>)
        requires
            net.has_port(var_port),
            net.has_node(net.link_of(var_port).0),
            is_used(*net, var_port) ==> old(self)@.can_name(var_port),
        ensures
            is_used(*net, var_port) ==> {
                &&& final(self)@ == old(self)@.with_port(var_port)
                &&& opt_name(name) == Some(final(self)@.name_of(var_port))
            },
            !is_used(*net, var_port) ==> final(self)@ == old(self)@ && name is None,
    {
        let var_use = net.enter_port(var_port);
        match &net.node(var_use.node()).kind {
            NodeKind::Era => None,
            _ => Some(self.var_name(var_port)),
        }
    }

    /// A name that belongs to no port.
    pub fn unique(&mut self) -> (name: Name)
        requires
            old(self).id_counter < u64::MAX,
        ensures
            final(self)@ == old(self)@.after_unique(),
            name@ == letters(old(self)@.next as nat),
    {
        let id = self.id_counter;
        self.id_counter = self.id_counter + 1;
        assert(self@ =~= old(self)@.after_unique());
        Name::from_id(id)
    }
}

/// Ports that have a name have different names, and keep them when another port is named.
pub proof fn law_names_are_unique(names: Names, port: Port, a: Port, b: Port)
    requires
        names.consistent(),
        names.can_name(port),
    ensures
        names.with_port(port).consistent(),
        names.with_port(port).ids.contains_key(port),
        names.ids.contains_key(a) ==> {
            &&& names.with_port(port).ids.contains_key(a)
            &&& names.with_port(port).name_of(a) == names.name_of(a)
        },
        names.ids.contains_key(a) && names.ids.contains_key(b) ==> {
            names.name_of(a) == names.name_of(b) <==> a == b
        },
{
    if names.ids.contains_key(a) && names.ids.contains_key(b) {
        law_letters_injective(names.ids[a] as nat, names.ids[b] as nat);
    }
}

/// A name that `unique` makes is the name of no port, and stays so when ports are named and
/// other unique names are made.
pub proof fn law_unique_is_fresh(names: Names, id: u64, port: Port)
    requires
        names.consistent(),
    ensures
        names.next < u64::MAX ==> {
            &&& names.after_unique().consistent()
            &&& names.after_unique().is_reserved(names.next)
        },
        names.is_reserved(id) && names.can_name(port) ==> names.with_port(port).is_reserved(id),
        names.is_reserved(id) && names.next < u64::MAX ==> names.after_unique().is_reserved(id),
        names.is_reserved(id) && names.ids.contains_key(port) ==> names.name_of(port)
            != letters(id as nat),
{
    if names.is_reserved(id) && names.ids.contains_key(port) {
        law_letters_injective(names.ids[port] as nat, id as nat);
    }
}

} // verus!
