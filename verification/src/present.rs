//! The presenter: one line of text per garage, in collection order.

use vstd::prelude::*;
use vstd::string::StrSliceExecFns;
use vstd::string::StringExecFns;
use crate::garage::{Garage, GarageModel};
use crate::encode::{push_c, append_u16};
use crate::grammar::enc_u16;

verus! {

/// The line shown for one garage: its name, a tab, and the occupied count
/// over the capacity, joined by the delimiter.
pub open spec fn line_of(g: GarageModel, delim: Seq<char>) -> Seq<char> {
    g.name + seq!['\t'] + enc_u16(g.spaces_filled as nat) + delim + enc_u16(g.max_spaces as nat)
}

/// Formats the line for one garage.
pub fn format_garage_line(g: &Garage, delimiter: &str) -> (r: String)
    ensures
        r@ == line_of(g@, delimiter@),
{
    let mut out = String::from_str(g.name.as_str());
    push_c(&mut out, '\t');
    append_u16(&mut out, g.spaces_filled);
    out.append(delimiter);
    append_u16(&mut out, g.max_spaces);
    proof {
        assert(out@ =~= line_of(g@, delimiter@));
    }
    out
}

/// Formats the lines for all garages: one line per record, in the order
/// the collection holds them.
pub fn format_garages_filled_and_total(garages: &Vec<Garage>, delimiter: &str) -> (r: Vec<String>)
    ensures
        r@.len() == garages@.len(),
        forall|i: int|
            0 <= i < r@.len() ==> (#[trigger] r@[i])@ == line_of(garages@[i]@, delimiter@),
{
    let mut out: Vec<String> = Vec::new();
    let mut i: usize = 0;
    while i < garages.len()
        invariant
            0 <= i <= garages@.len(),
            out@.len() == i,
            forall|k: int|
                0 <= k < i ==> (#[trigger] out@[k])@ == line_of(garages@[k]@, delimiter@),
        decreases garages@.len() - i,
    {
        let line = format_garage_line(&garages[i], delimiter);
        out.push(line);
        i += 1;
    }
    out
}

} // verus!
