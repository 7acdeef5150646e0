//! The vote-record row type shared by the whole crate: one candidate of one
//! party together with that candidate's vote count.

use vstd::prelude::*;
use crate::numeric::format_num;
use crate::numeric::format_num_spec;

verus! {

/// The column a table of vote records can be sorted or displayed by.
#[derive(Copy, Clone, PartialEq, Eq, Hash)]
pub enum PartyResultsColumn {
    Party,
    Name,
    Votes,
}

/// One vote record: a candidate `name` standing for `party` with `votes`
/// votes. The pair (party, name) is unique within one computation.
pub struct PartyResults {
    pub party: String,
    pub name: String,
    pub votes: u32,
}

impl PartyResults {
    /// The text shown for this record in the given column; the vote count
    /// is grouped in thousands.
    pub fn to_column(&self, column: PartyResultsColumn) -> (r: String)
        ensures
            r@ == match column {
                PartyResultsColumn::Party => self.party@,
                PartyResultsColumn::Name => self.name@,
                PartyResultsColumn::Votes => format_num_spec(self.votes as int),
            },
    {
        match column {
            PartyResultsColumn::Party => self.party.clone(),
            PartyResultsColumn::Name => self.name.clone(),
            PartyResultsColumn::Votes => format_num(self.votes),
        }
    }
}

} // verus!
