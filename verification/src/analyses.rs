//! What an analysis needs from the graph layer before it can run.

use vstd::prelude::*;

use crate::graph_broker::graph::PathSegment;
use crate::util::CountType;

pub mod regional_helpers;

verus! {

/// One requirement an analysis places on the graph layer: which quantities
/// to count, which auxiliary tables to build, which graph file to read and
/// which paths to collect.
#[derive(PartialEq, Eq, Debug, Clone, Hash)]
pub enum InputRequirement {
    Node,
    Edge,
    Bp,
    PathLens,
    Hist,
    AbacusByGroup(CountType),
    Graph(String),
    Path(PathSegment),
}

impl InputRequirement {
    /// The counting requirements a count type stands for; counting all
    /// quantities requires each of the three.
    pub fn from_count(count: CountType) -> (res: Vec<InputRequirement>)
        ensures
            count == CountType::Bp ==> res@ =~= seq![InputRequirement::Bp],
            count == CountType::Node ==> res@ =~= seq![InputRequirement::Node],
            count == CountType::Edge ==> res@ =~= seq![InputRequirement::Edge],
            count == CountType::All ==> res@ =~= seq![
                InputRequirement::Bp,
                InputRequirement::Node,
                InputRequirement::Edge,
            ],
    {
        let mut res: Vec<InputRequirement> = Vec::new();
        match count {
            CountType::Bp => {
                res.push(InputRequirement::Bp);
            },
            CountType::Node => {
                res.push(InputRequirement::Node);
            },
            CountType::Edge => {
                res.push(InputRequirement::Edge);
            },
            CountType::All => {
                res.push(InputRequirement::Bp);
                res.push(InputRequirement::Node);
                res.push(InputRequirement::Edge);
            },
        }
        res
    }
}

} // verus!
