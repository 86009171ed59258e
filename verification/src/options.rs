use vstd::prelude::*;
use crate::errors::NNSplitError;
use crate::PROB_SCALE;

verus! {

/// Configuration of the splitter. Probabilities and thresholds are fixed-point
/// integers scaled by `PROB_SCALE`.
#[derive(Clone, Copy, PartialEq, Eq, Structural, Debug)]
pub struct NNSplitOptions {
    /// Boundary decision threshold for every predicted level unless the
    /// schema overrides it; scaled by `PROB_SCALE`.
    pub threshold: u32,
    /// Byte stride between successive windows.
    pub stride: usize,
    /// Window length in bytes.
    pub max_length: usize,
    /// Zero bytes prepended and appended to each input.
    pub padding: usize,
    /// Maximum number of windows submitted to the runtime per predict call.
    pub batch_size: usize,
    /// The window length and the padded batch are kept multiples of this.
    pub length_divisor: usize,
}

impl NNSplitOptions {
    /// The options the construction accepts. A stride of zero would never
    /// advance the window, so at least one byte of stride is demanded.
    pub open spec fn valid(self) -> bool {
        &&& self.threshold <= PROB_SCALE
        &&& 1 <= self.stride
        &&& self.stride <= self.max_length
        &&& self.batch_size >= 1
        &&& self.length_divisor >= 1
        &&& self.max_length % self.length_divisor == 0
    }

    /// Validated construction: returns the options exactly as given when they
    /// are valid, and a configuration error otherwise.
    pub fn new(
        threshold: u32,
        stride: usize,
        max_length: usize,
        padding: usize,
        batch_size: usize,
        length_divisor: usize,
    ) -> (r: Result<NNSplitOptions, NNSplitError>)
        ensures
            ({
                let o = NNSplitOptions { threshold, stride, max_length, padding, batch_size, length_divisor };
                if o.valid() {
                    r == Ok::<NNSplitOptions, NNSplitError>(o)
                } else {
                    r == Err::<NNSplitOptions, NNSplitError>(NNSplitError::Config)
                }
            }),
    {
        let o = NNSplitOptions { threshold, stride, max_length, padding, batch_size, length_divisor };
        if threshold <= PROB_SCALE && 1 <= stride && stride <= max_length && batch_size >= 1
            && length_divisor >= 1 && max_length % length_divisor == 0 {
            Ok(o)
        } else {
            Err(NNSplitError::Config)
        }
    }
}

impl NNSplitOptions {
    /// Whether these options are accepted by the constructors.
    pub fn is_valid(&self) -> (r: bool)
        ensures
            r == self.valid(),
    {
        self.threshold <= PROB_SCALE && 1 <= self.stride && self.stride <= self.max_length
            && self.batch_size >= 1 && self.length_divisor >= 1 && self.max_length
            % self.length_divisor == 0
    }
}

impl Default for NNSplitOptions {
    /// The documented defaults: threshold 0.5, stride 50, window length 500,
    /// padding 5, batch size 256, length divisor 1.
    fn default() -> (r: Self)
        ensures
            r == (NNSplitOptions {
                threshold: 500000u32,
                stride: 50usize,
                max_length: 500usize,
                padding: 5usize,
                batch_size: 256usize,
                length_divisor: 1usize,
            }),
            r.valid(),
    {
        NNSplitOptions {
            threshold: 500000,
            stride: 50,
            max_length: 500,
            padding: 5,
            batch_size: 256,
            length_divisor: 1,
        }
    }
}

} // verus!
