use vstd::prelude::*;

verus! {

/// Errors of the segmentation core.
#[derive(Clone, Copy, PartialEq, Eq, Structural, Debug)]
pub enum NNSplitError {
    /// Invalid options, rejected at construction.
    Config,
    /// Missing or malformed split-sequence metadata, rejected at construction.
    Metadata,
    /// A prediction tensor whose shape does not match the submitted batch.
    Shape,
}

impl NNSplitError {
    /// A human-readable description of the error.
    pub fn describe(&self) -> (r: &'static str)
        ensures
            r@.len() > 0,
    {
        let r = match self {
            NNSplitError::Config => "invalid options",
            NNSplitError::Metadata => "missing or malformed split_sequence metadata",
            NNSplitError::Shape => "prediction tensor shape does not match the batch",
        };
        proof {
            reveal_strlit("invalid options");
            reveal_strlit("missing or malformed split_sequence metadata");
            reveal_strlit("prediction tensor shape does not match the batch");
        }
        r
    }
}

} // verus!
