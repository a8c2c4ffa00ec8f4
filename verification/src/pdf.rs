use vstd::prelude::*;

verus! {

/// How the densities of a mixture of distributions are combined.
#[derive(Clone, Copy, Debug, PartialEq, Eq, Structural)]
pub enum MixtureMethod {
    /// Every component has the same weight.
    Uniform,
    /// The components are weighted by the power heuristic, which is defined
    /// for two of them.
    PowerHeuristic,
}

impl MixtureMethod {
    /// Whether a mixture of `components` distributions can be combined in
    /// this way.
    pub open spec fn spec_supports(&self, components: usize) -> bool {
        *self == MixtureMethod::Uniform || components <= 2
    }

    /// Whether a mixture of `components` distributions can be combined in
    /// this way: any number uniformly, two at most by the power heuristic.
    pub fn supports(&self, components: usize) -> (ok: bool)
        ensures
            ok == self.spec_supports(components),
    {
        match self {
            MixtureMethod::Uniform => true,
            MixtureMethod::PowerHeuristic => components <= 2,
        }
    }
}

} // verus!
