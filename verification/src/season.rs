//! Season selection: which score table a run reads.

use vstd::prelude::*;

verus! {

/// A season of the event, or all seasons together.
pub enum Season {
    All,
    Season1,
    Season2,
    Season3,
}

impl Season {
    /// The file that holds this season's score table.
    pub fn get_file(&self) -> (r: &'static str)
        ensures
            r@ == match self {
                Season::All => "season_all.csv"@,
                Season::Season1 => "season_1.csv"@,
                Season::Season2 => "season_2.csv"@,
                Season::Season3 => "season_3.csv"@,
            },
    {
        match self {
            Season::All => "season_all.csv",
            Season::Season1 => "season_1.csv",
            Season::Season2 => "season_2.csv",
            Season::Season3 => "season_3.csv",
        }
    }

    /// The season's display label.
    pub fn label(&self) -> (r: &'static str)
        ensures
            r@ == match self {
                Season::All => "All"@,
                Season::Season1 => "1"@,
                Season::Season2 => "2"@,
                Season::Season3 => "3"@,
            },
    {
        match self {
            Season::All => "All",
            Season::Season1 => "1",
            Season::Season2 => "2",
            Season::Season3 => "3",
        }
    }
}

} // verus!
