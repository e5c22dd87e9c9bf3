//! A named protocol description: the name of the net, the names of its
//! transitions and the partition that encodes them.

use crate::codegen::{
    joined, place_type_list, place_types, renamed, renamed_of, signatures, signatures_of, source,
    source_of, texts, type_list, type_list_of, with_bodies, with_bodies_of, without_whitespace,
    without_whitespace_of,
};
use crate::decode::decoded;
use crate::partition::{
    contiguous_from_one, is_first_gap, places_of, sorted_places, Partition, PartitionError,
    ValidPartition,
};
use crate::petrinet::{Petrinet, Places};
use vstd::prelude::*;

verus! {

/// What a description is, mathematically.
pub struct NbptModel {
    pub name: Seq<char>,
    pub names: Seq<Seq<char>>,
    pub partition: Seq<usize>,
}

/// A protocol description as it is exchanged. Transition `i` of the net that
/// the partition decodes to goes by `names[i]`; nothing ties the number of
/// names to the number of transitions.
#[derive(Debug)]
pub struct Nbpt {
    name: String,
    names: Vec<String>,
    partition: Partition,
}

impl View for Nbpt {
    type V = NbptModel;

    closed spec fn view(&self) -> NbptModel {
        NbptModel { name: self.name@, names: texts(self.names@), partition: self.partition@ }
    }
}

impl Clone for Nbpt {
    fn clone(&self) -> (copy: Self)
        ensures
            copy@ == self@,
    {
        let names: Vec<String> = self.names.clone();
        proof {
            assert(texts(names@) =~= texts(self.names@));
        }
        Nbpt { name: self.name.clone(), names, partition: self.partition.clone() }
    }
}

impl Nbpt {
    /// The description of the net `name`, whose transitions go by `names`
    /// and are encoded in `partition`.
    pub fn new(name: String, names: Vec<String>, partition: Partition) -> (nbpt: Self)
        ensures
            nbpt@.name == name@,
            nbpt@.names == texts(names@),
            nbpt@.partition == partition@,
    {
        Nbpt { name, names, partition }
    }

    /// The name of the net.
    pub fn name(&self) -> (name: &String)
        ensures
            name@ == self@.name,
    {
        &self.name
    }

    /// The names of the transitions, in the order of the transitions.
    pub fn names(&self) -> (names: &Vec<String>)
        ensures
            texts(names@) == self@.names,
    {
        &self.names
    }

    /// The partition, not yet checked.
    pub fn partition(self) -> (partition: Partition)
        ensures
            partition@ == self@.partition,
    {
        self.partition
    }
}

/// The source text of the interface that `nbpt` describes: the trait goes by
/// the name of the net without its white space, has a type parameter for each
/// place that the partition names and a function for each named transition
/// of the net that the partition decodes to.
pub open spec fn trait_source_of(nbpt: NbptModel) -> Seq<char> {
    let places = places_of(nbpt.partition);
    let types = type_list_of(places);
    let fns = signatures_of(nbpt.names, decoded(nbpt.partition));
    source_of(
        without_whitespace_of(nbpt.name),
        joined(place_types(places), ","@),
        fns,
        types,
        with_bodies_of(renamed_of(fns, types)),
    )
}

/// The source text of the interface that `nbpt` describes, or where the
/// numbering of its partition breaks.
pub fn trait_source(nbpt: Nbpt) -> (result: Result<String, PartitionError>)
    ensures
        match result {
            Ok(text) => contiguous_from_one(nbpt@.partition) && text@ == trait_source_of(nbpt@),
            Err(PartitionError::InvalidPlaceNumbering { missing }) => {
                &&& !contiguous_from_one(nbpt@.partition)
                &&& is_first_gap(nbpt@.partition, missing as int)
            },
        },
{
    let Nbpt { name, names, partition } = nbpt;
    let places: Places = sorted_places(partition.values());
    let net: Petrinet = match ValidPartition::new(partition) {
        Ok(valid) => Petrinet::from(valid),
        Err(e) => { return Err(e); },
    };
    let trait_name: String = without_whitespace(name.as_str());
    let parameters: String = place_type_list(&places, ",");
    let fns: String = signatures(&names, &net);
    let types: Vec<String> = type_list(&places);
    let bodies: String = with_bodies(renamed(fns.as_str(), &types).as_str());
    Ok(source(trait_name.as_str(), parameters.as_str(), fns.as_str(), &types, bodies.as_str()))
}

} // verus!
