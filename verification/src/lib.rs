//! Graphs and graph ensembles for scientific simulations, with their
//! topology and the algorithms on it stated and proved.
use vstd::prelude::*;

pub mod seq_util;
pub mod traits;
pub mod graph_spec;
pub mod graph;
pub mod generic_graph;
pub mod edge_list;
pub mod dot;
pub mod search;
pub mod dfs_mut;
pub mod bfs;
pub mod iterators;
pub mod qcore;
pub mod biconnected;
pub mod measures;
pub mod dual_adj;
pub mod dual_graph;
pub mod dual_iterators;
pub mod example_nodes;
pub mod random;
pub mod er_c;
pub mod er_m;
pub mod ba;
pub mod latin_hypercube;
pub mod sampling;
pub mod graph_iterators;
pub mod measurable;
pub mod histogram;
pub mod sw;
pub mod sw_graph;

pub use traits::{AdjContainer, AdjList, GraphErrors, Node};
pub use generic_graph::GenericGraph;
pub use graph::{Graph, NodeContainer};
pub use sw_graph::{SwGraph, SwContainer, SwEdge};
pub use sw::SwChangeState;
pub use example_nodes::{EmptyNode, CountingNode, TestNode};
pub use er_m::{ErEnsembleM, ErStepM};
pub use er_c::ErStepC;
pub use ba::BAensemble;
pub use latin_hypercube::LatinHypercubeSampling2D;
pub use dual_adj::{WhichGraph, DualIndex, AdjTrait, Adj, AdjSingle, AddEdgeError};
pub use dual_graph::{DualGraph, MultiDualGraph, SingleDualGraph, DefaultSDG};
pub use dual_iterators::{DfsDualIndex, DfsDualContained, BfsDualIndex};
pub use iterators::{Dfs, DfsWithIndex, Bfs, BfsMut, BfsFiltered};
pub use dfs_mut::DfsMut;
pub use histogram::{HistErrors, Histogram, HistogramVal, HistogramGeneric, HistogramUsize, HistogramFast};
pub use sampling::{MarkovChain, SimpleSample, HasRng, WithGraph, WangLandauMode};
pub use graph_iterators::GraphIterators;
pub use measurable::MeasurableGraphQuantities;

verus! {

} // verus!
