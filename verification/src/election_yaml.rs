use vstd::prelude::*;

verus! {

/// An election as the API shows it: no ballot ids.
pub struct ElectionConfig {
    pub id: String,
    pub name: String,
    pub candidates: Vec<String>,
    pub seats: usize,
}

/// An election as its YAML file stores it, with the ids of its valid ballots.
pub struct ElectionConfigFile {
    pub id: String,
    pub name: String,
    pub candidates: Vec<String>,
    pub seats: usize,
    pub ballots: Vec<String>,
}

impl From<ElectionConfigFile> for ElectionConfig {
    fn from(config: ElectionConfigFile) -> (r: Self) {
        ElectionConfig { id: config.id, name: config.name, candidates: config.candidates, seats: config.seats }
    }
}

impl vstd::std_specs::convert::FromSpecImpl<ElectionConfigFile> for ElectionConfig {
    open spec fn obeys_from_spec() -> bool {
        true
    }

    open spec fn from_spec(config: ElectionConfigFile) -> ElectionConfig {
        ElectionConfig { id: config.id, name: config.name, candidates: config.candidates, seats: config.seats }
    }
}

} // verus!
