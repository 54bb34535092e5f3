//! Byte limits and the decompression provider seams. No decoder is installed:
//! providers validate their bounds and then report that they are unavailable.
use vstd::prelude::*;
use crate::kernel::error::{ErrorCategory, ErrorDetail, KernelError, KernelResult};

verus! {

/// Input, output and expansion ceilings for one decompression.
#[derive(Clone, Copy, Debug, PartialEq, Eq, Structural)]
pub struct CodecLimits {
    pub max_input_bytes: u64,
    pub max_output_bytes: u64,
    pub max_expansion_ratio: u64,
}

impl CodecLimits {
    pub open spec fn spec_valid(self) -> bool {
        self.max_input_bytes != 0 && self.max_output_bytes != 0 && self.max_expansion_ratio != 0
    }

    /// Every ceiling must be non-zero.
    pub fn validate(&self) -> (r: KernelResult<()>)
        ensures
            self.spec_valid() ==> r is Ok,
            !self.spec_valid() ==> (r matches Err(e) && e.category == ErrorCategory::InvalidArgument),
    {
        if self.max_input_bytes == 0 || self.max_output_bytes == 0 || self.max_expansion_ratio == 0 {
            return Err(KernelError::new(ErrorCategory::InvalidArgument, ErrorDetail::NoDetail));
        }
        Ok(())
    }

    /// Whether producing `output_len` bytes from `input_len` bytes breaks the output
    /// ceiling or the expansion ratio.
    pub fn expansion_would_exceed(&self, input_len: u64, output_len: u64) -> (r: bool)
        ensures
            r == (output_len > self.max_output_bytes || output_len > input_len * self.max_expansion_ratio),
    {
        if output_len > self.max_output_bytes {
            return true;
        }
        let a = input_len as u128;
        let b = self.max_expansion_ratio as u128;
        assert(a * b <= u64::MAX as u128 * u64::MAX as u128) by (nonlinear_arith)
            requires
                a <= u64::MAX,
                b <= u64::MAX,
        ;
        let allowed: u128 = a * b;
        (output_len as u128) > allowed
    }
}

/// What a provider without a decoder answers for `input`.
pub open spec fn spec_unavailable_provider(input: Seq<u8>, limits: CodecLimits) -> ErrorCategory {
    if !limits.spec_valid() || input.len() == 0 {
        ErrorCategory::InvalidArgument
    } else if input.len() > limits.max_input_bytes {
        ErrorCategory::CapacityExceeded
    } else {
        ErrorCategory::CapabilityUnavailable
    }
}

fn bounded_unavailable(input: &[u8], limits: &CodecLimits, message: &'static str) -> (r: KernelResult<Vec<u8>>)
    ensures
        r matches Err(e) && e.category == spec_unavailable_provider(input@, *limits),
        r matches Err(e) && (e.category == ErrorCategory::CapacityExceeded ==> e.detail == (ErrorDetail::LimitExceeded {
            limit: limits.max_input_bytes,
            requested: input@.len() as u64,
        })),
{
    limits.validate()?;
    if input.len() == 0 {
        return Err(KernelError::new(ErrorCategory::InvalidArgument, ErrorDetail::NoDetail));
    }
    if input.len() as u64 > limits.max_input_bytes {
        return Err(
            KernelError::new(
                ErrorCategory::CapacityExceeded,
                ErrorDetail::LimitExceeded { limit: limits.max_input_bytes, requested: input.len() as u64 },
            ),
        );
    }
    Err(KernelError::new(ErrorCategory::CapabilityUnavailable, ErrorDetail::StaticMessage(message)))
}

/// Explicitly unavailable LZ4 provider; not a partial LZ4 parser.
pub struct Lz4Adapter;

impl Lz4Adapter {
    pub fn decompress_bounded(input: &[u8], limits: &CodecLimits) -> (r: KernelResult<Vec<u8>>)
        ensures
            r matches Err(e) && e.category == spec_unavailable_provider(input@, *limits),
            r matches Err(e) && (e.category == ErrorCategory::CapacityExceeded ==> e.detail == (ErrorDetail::LimitExceeded {
                limit: limits.max_input_bytes,
                requested: input@.len() as u64,
            })),
    {
        bounded_unavailable(input, limits, "lz4 provider is not installed")
    }
}

/// Explicitly unavailable Zstandard provider.
pub struct ZstdAdapter;

impl ZstdAdapter {
    pub fn decompress_bounded(input: &[u8], limits: &CodecLimits) -> (r: KernelResult<Vec<u8>>)
        ensures
            r matches Err(e) && e.category == spec_unavailable_provider(input@, *limits),
            r matches Err(e) && (e.category == ErrorCategory::CapacityExceeded ==> e.detail == (ErrorDetail::LimitExceeded {
                limit: limits.max_input_bytes,
                requested: input@.len() as u64,
            })),
    {
        bounded_unavailable(input, limits, "zstd provider is not installed")
    }
}

} // verus!
