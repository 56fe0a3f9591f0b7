use vstd::prelude::*;

verus! {

/// What the recipe search looks through: the recipes, or the stellar missions.
#[derive(Debug, Clone, Copy, PartialEq, Eq, Structural)]
pub enum SearchDomain {
    Recipes,
    StellarMissions,
}

impl Default for SearchDomain {
    fn default() -> (r: Self)
        ensures
            r == SearchDomain::Recipes,
    {
        SearchDomain::Recipes
    }
}

} // verus!
