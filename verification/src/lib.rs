use vstd::prelude::*;

pub mod fixed;
pub mod layer;
pub mod population;
pub mod rocket;
mod rng;

verus! {

/// The terminal errors of a run, as the driver sees them.
#[derive(Clone, Copy, PartialEq, Eq, Structural, Debug)]
pub enum GaError {
    /// A forward pass was handed an input vector whose length disagrees
    /// with the layer's input width.
    ShapeMismatch,
    /// An activation was applied before any forward pass filled the outputs.
    EmptyActivation,
    /// Every agent of a generation scored fitness zero, so the mating pool
    /// is empty and no next generation can be drawn.
    EmptyMatingPool,
}

} // verus!
