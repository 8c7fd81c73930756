//! Shapes of the neural-network strategies: the default layer dimensions
//! and the node genes of evolved networks.
use vstd::prelude::*;

verus! {

/// Length of the feature vector: three rays in each of the six directions
/// plus two food hints.
pub const FEATURE_COUNT: usize = 20;

/// Hidden-layer sizes of the default architecture.
pub const HIDDEN_FIRST: usize = 32;

pub const HIDDEN_SECOND: usize = 24;

/// The full layer dimensions of the default architecture: features, the
/// two hidden layers, and one output per direction.
pub fn default_dims() -> (dims: Vec<usize>)
    ensures
        dims@ == seq![FEATURE_COUNT, HIDDEN_FIRST, HIDDEN_SECOND, 6usize],
{
    let mut dims: Vec<usize> = Vec::new();
    dims.push(FEATURE_COUNT);
    dims.push(HIDDEN_FIRST);
    dims.push(HIDDEN_SECOND);
    dims.push(6);
    proof {
        assert(dims@ =~= seq![FEATURE_COUNT, HIDDEN_FIRST, HIDDEN_SECOND, 6usize]);
    }
    dims
}

/// Role of a node in an evolved network.
#[derive(Debug, Clone, Copy, PartialEq, Eq, Structural)]
pub enum NodeKind {
    Input,
    Bias,
    Hidden,
    Output,
}

#[derive(Debug, Clone, Copy, PartialEq, Eq, Structural)]
pub struct NodeGene {
    pub id: u32,
    pub kind: NodeKind,
}

/// Which observation a training environment exposes.
#[derive(Debug, Clone, Copy, PartialEq, Eq, Structural)]
pub enum ObsKind {
    /// The heading-relative sensor features (same as the network input).
    Rays,
    /// A flat board tensor, 3 channels (body, head, food) × height × width,
    /// channel-major then row-major. An alternative for CNN policies.
    Grid,
}

} // verus!
