//! Input samples.

use crate::array::Matrix;
use crate::types::Scalar;
use vstd::prelude::*;

verus! {

/// A source of input samples for expression evaluation.
///
/// This is the authority on how many input variables expressions built from a
/// genome may reference: valid [`VariableId`](crate::types::VariableId)s are
/// `0..input_dim()`. Targets (if any) live outside this trait: the GP core
/// stays objective-agnostic, and a fitness function is free to pull them from
/// wherever it likes.
pub trait Dataset {
    /// The samples, one row each: some, unless an implementation says which.
    open spec fn samples(&self) -> Seq<Seq<Scalar>> {
        arbitrary::<spec_fn(&Self) -> Seq<Seq<Scalar>>>()(self)
    }

    /// The number of input variables: some, unless an implementation says how
    /// many.
    open spec fn n_inputs(&self) -> u16 {
        arbitrary::<spec_fn(&Self) -> u16>()(self)
    }

    /// Maximum input size: the number of input variables (columns) samples
    /// carry. This value is cached by users of the trait **so the call should
    /// be deterministic**.
    fn input_dim(&self) -> (r: u16)
        ensures
            r == self.n_inputs(),
    ;

    /// Number of samples (rows).
    fn len(&self) -> (n: usize)
        ensures
            n == self.samples().len(),
    ;

    /// `true` if this dataset has no samples.
    fn is_empty(&self) -> (r: bool)
        ensures
            r == (self.samples().len() == 0),
    {
        self.len() == 0
    }

    /// The samples, shaped `[len(), input_dim()]`: the layout
    /// [`VectorizedEvalContext::eval_batch`](crate::vectorized::VectorizedEvalContext::eval_batch)
    /// and [`EvalContext::eval_batch`](crate::eval::EvalContext::eval_batch)
    /// expect.
    fn inputs(&self) -> (r: &Matrix)
        ensures
            r@ == self.samples(),
            r.width() == self.n_inputs(),
    ;
}

/// A [`Dataset`] backed by an owned, dense `[samples, input_dim]` array.
pub struct ArrayDataset {
    inputs: Matrix,
}

impl ArrayDataset {
    /// All columns can be addressed.
    #[verifier::type_invariant]
    spec fn inv(&self) -> bool {
        self.inputs.width() <= u16::MAX
    }

    /// Wraps `inputs`, shaped `[samples, input_dim]`, with no more columns
    /// than fit in a `u16`: the width of
    /// [`VariableId`](crate::types::VariableId).
    pub fn new(inputs: Matrix) -> (r: Self)
        requires
            inputs.width() <= u16::MAX,
        ensures
            r.samples() == inputs@,
            r.n_inputs() == inputs.width(),
    {
        Self { inputs }
    }
}

impl Dataset for ArrayDataset {
    closed spec fn samples(&self) -> Seq<Seq<Scalar>> {
        self.inputs@
    }

    closed spec fn n_inputs(&self) -> u16 {
        self.inputs.width() as u16
    }

    fn input_dim(&self) -> (r: u16) {
        proof {
            use_type_invariant(self);
        }
        self.inputs.ncols() as u16
    }

    fn len(&self) -> (n: usize) {
        self.inputs.nrows()
    }

    fn inputs(&self) -> (r: &Matrix) {
        proof {
            use_type_invariant(self);
        }
        &self.inputs
    }
}

} // verus!
