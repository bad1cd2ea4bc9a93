//! The party of heroes the player brings into battle.
use vstd::prelude::*;

verus! {

/// The two hero slots of the party, each holding a hero's name or empty.
pub struct PartyConfig {
    pub slot_one: Option<String>,
    pub slot_two: Option<String>,
}

impl Default for PartyConfig {
    /// Gandalf in the first slot, the second one empty.
    fn default() -> (c: Self)
        ensures
            c.slot_one matches Some(name) && name@ == "Gandalf"@,
            c.slot_two is None,
    {
        PartyConfig { slot_one: Some(String::from_str("Gandalf")), slot_two: None }
    }
}

} // verus!
