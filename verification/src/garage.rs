//! The garage records that the API reports, and their mathematical model.

use vstd::prelude::*;
use crate::grammar;

verus! {

/// Mathematical model of one garage record: the five fields of the payload.
/// The occupancy ratio is kept as the exact decimal literal from the JSON
/// text, so that nothing is lost to a binary float representation.
pub struct GarageModel {
    pub name: Seq<char>,
    pub max_spaces: u16,
    pub spaces_filled: u16,
    pub spaces_left: u16,
    pub percent_full: Seq<char>,
}

/// One parking structure as reported by the API: a name, a capacity, the
/// occupied and free counts, and the occupancy ratio as a decimal literal.
#[derive(Debug)]
pub struct Garage {
    pub name: String,
    pub max_spaces: u16,
    pub spaces_filled: u16,
    pub spaces_left: u16,
    pub percent_full: String,
}

impl View for Garage {
    type V = GarageModel;

    open spec fn view(&self) -> GarageModel {
        GarageModel {
            name: self.name@,
            max_spaces: self.max_spaces,
            spaces_filled: self.spaces_filled,
            spaces_left: self.spaces_left,
            percent_full: self.percent_full@,
        }
    }
}

/// A garage record is well formed when its ratio field holds exactly one
/// JSON number literal.
pub open spec fn wf_garage(g: GarageModel) -> bool {
    grammar::is_number_token(g.percent_full)
}

/// The ordered collection of garage records from one API response.
#[derive(Debug)]
pub struct GarageCollection {
    pub garages: Vec<Garage>,
}

impl View for GarageCollection {
    type V = Seq<GarageModel>;

    open spec fn view(&self) -> Seq<GarageModel> {
        garages_view(self.garages@)
    }
}

/// The models of a sequence of garage records, in order.
pub open spec fn garages_view(gs: Seq<Garage>) -> Seq<GarageModel> {
    gs.map(|i: int, g: Garage| g@)
}

/// A collection is well formed when each record in it is.
pub open spec fn wf_collection(gs: Seq<GarageModel>) -> bool {
    forall|i: int| 0 <= i < gs.len() ==> wf_garage(#[trigger] gs[i])
}

} // verus!
