//! Labels of combinators, and the tags that they stand for.
use crate::name::Name;
use crate::term::{FanKind, Tag, TagModel};
use std::collections::HashMap;
use vstd::prelude::*;

verus! {

/// The names of the labels of one sort of combinator.
pub struct LabelGenerator {
    label_to_name: HashMap<u16, Name>,
}

/// The names of the labels of each sort of combinator.
pub struct Labels {
    pub con: LabelGenerator,
    pub tup: LabelGenerator,
    pub dup: LabelGenerator,
}

impl View for LabelGenerator {
    type V = Map<u16, Seq<char>>;

    closed spec fn view(&self) -> Map<u16, Seq<char>> {
        self.label_to_name@.map_values(|name: Name| name@)
    }
}

/// The tag that a label stands for: its name where it has one, else its number; the static tag
/// where there is no label.
pub open spec fn tag_of(names: Map<u16, Seq<char>>, label: Option<u16>) -> TagModel {
    match label {
        Some(label) => if names.contains_key(label) {
            TagModel::Named(names[label])
        } else {
            TagModel::Numeric(label)
        },
        None => TagModel::Static,
    }
}

impl LabelGenerator {
    /// No label has a name.
    pub fn new() -> (labels: LabelGenerator)
        ensures
            labels@ == Map::<u16, Seq<char>>::empty(),
    {
        let labels = LabelGenerator { label_to_name: HashMap::new() };
        assert(labels@ =~= Map::<u16, Seq<char>>::empty());
        labels
    }

    /// Gives a label a name.
    pub fn insert(&mut self, label: u16, name: Name)
        ensures
            final(self)@ == old(self)@.insert(label, name@),
    {
        broadcast use vstd::std_specs::hash::group_hash_axioms;

        self.label_to_name.insert(label, name);
        assert(self@ =~= old(self)@.insert(label, name@));
    }

    /// The tag that a label stands for.
    pub fn to_tag(&self, label: Option<u16>) -> (tag: Tag)
        ensures
            tag@ == tag_of(self@, label),
    {
        broadcast use vstd::std_specs::hash::group_hash_axioms;

        match label {
            Some(label) => match self.label_to_name.get(&label) {
                Some(name) => Tag::Named(name.clone()),
                None => Tag::Numeric(label),
            },
            None => Tag::Static,
        }
    }
}

impl Labels {
    /// No label has a name.
    pub fn new() -> (labels: Labels)
        ensures
            labels.con@ == Map::<u16, Seq<char>>::empty(),
            labels.tup@ == Map::<u16, Seq<char>>::empty(),
            labels.dup@ == Map::<u16, Seq<char>>::empty(),
    {
        Labels {
            con: LabelGenerator::new(),
            tup: LabelGenerator::new(),
            dup: LabelGenerator::new(),
        }
    }

    /// The names of the labels of a sort of fan.
    pub open spec fn fan_labels(self, fan: FanKind) -> Map<u16, Seq<char>> {
        match fan {
            FanKind::Tup => self.tup@,
            FanKind::Dup => self.dup@,
        }
    }

    /// The tag that the label of a fan stands for.
    pub fn fan_tag(&self, fan: FanKind, label: Option<u16>) -> (tag: Tag)
        ensures
            tag@ == tag_of(self.fan_labels(fan), label),
    {
        match fan {
            FanKind::Tup => self.tup.to_tag(label),
            FanKind::Dup => self.dup.to_tag(label),
        }
    }
}

} // verus!
