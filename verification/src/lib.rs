//! Shortest-path algorithms over weighted directed graphs, each with a verified
//! contract: Dijkstra, Bellman-Ford and Floyd-Warshall behind one interface.

use vstd::prelude::*;

pub mod bellman_ford;
pub mod dijkstra;
pub mod floyd_warshall;
pub mod laws;
pub mod paths;
pub mod queue;

pub use crate::bellman_ford::{BellmanFordAlgorithm, Edge};
pub use crate::dijkstra::DijkstraAlgorithm;
pub use crate::floyd_warshall::FloydWarshallAlgorithm;

verus! {

/// Error type for graph algorithms.
#[derive(Debug, Clone, PartialEq, Eq, Structural)]
pub enum GraphError {
    /// Graph contains a negative weight cycle.
    NegativeWeightCycle,
    /// Graph does not contain a start node.
    MissingStartNode,
}

impl GraphError {
    /// The text that names the error: the variant's own name.
    pub open spec fn label(self) -> Seq<char> {
        match self {
            GraphError::NegativeWeightCycle => "NegativeWeightCycle"@,
            GraphError::MissingStartNode => "MissingStartNode"@,
        }
    }

    /// Render the error as text.
    pub fn to_string(&self) -> (text: String)
        ensures
            text@ == self.label(),
    {
        match self {
            GraphError::NegativeWeightCycle => "NegativeWeightCycle".to_owned(),
            GraphError::MissingStartNode => "MissingStartNode".to_owned(),
        }
    }
}

/// A graph search algorithm: an engine that holds a graph and computes distances on it.
pub trait GraphAlgorithm {
    /// Type of node.
    type Node;

    /// Type of weight.
    type Weight;

    /// The inputs on which `run` is defined for this engine.
    spec fn admits(&self, start: Option<Self::Node>) -> bool;

    /// What `run` returns on an admitted input.
    spec fn computes(&self, start: Option<Self::Node>, outcome: Result<Self::Weight, GraphError>) -> bool;

    /// Run the graph algorithm from `start`, where the engine takes one.
    fn run(&self, start: Option<Self::Node>) -> (outcome: Result<Self::Weight, GraphError>)
        requires
            self.admits(start),
        ensures
            self.computes(start, outcome),
    ;
}

} // verus!
