use lumio_core::codec::{CodecLimits, Lz4Adapter, ZstdAdapter};
use lumio_core::kernel::error::{ErrorCategory, ErrorDetail};

#[test]
fn unavailable_lz4_provider_reports_its_actual_capability() {
    let limits = CodecLimits {
        max_input_bytes: 16,
        max_output_bytes: 32,
        max_expansion_ratio: 2,
    };
    assert_eq!(
        Lz4Adapter::decompress_bounded(&[], &limits)
            .unwrap_err()
            .category(),
        ErrorCategory::InvalidArgument
    );
    assert_eq!(
        Lz4Adapter::decompress_bounded(&[1], &limits)
            .unwrap_err()
            .category(),
        ErrorCategory::CapabilityUnavailable
    );
    assert_eq!(
        Lz4Adapter::decompress_bounded(&[1; 17], &limits)
            .unwrap_err()
            .category(),
        ErrorCategory::CapacityExceeded
    );
}

#[test]
fn expansion_policy_is_enforced_without_inventing_a_frame_size() {
    let limits = CodecLimits {
        max_input_bytes: 16,
        max_output_bytes: 32,
        max_expansion_ratio: 2,
    };
    assert!(limits.expansion_would_exceed(8, 17));
    assert!(!limits.expansion_would_exceed(8, 16));
    assert!(limits.expansion_would_exceed(16, 33));
    assert_eq!(
        ZstdAdapter::decompress_bounded(&[1; 8], &limits)
            .unwrap_err()
            .category(),
        ErrorCategory::CapabilityUnavailable
    );
    assert_eq!(
        ZstdAdapter::decompress_bounded(&[1; 17], &limits)
            .unwrap_err()
            .category(),
        ErrorCategory::CapacityExceeded
    );
}

#[test]
fn zero_limits_are_invalid_arguments() {
    let limits = CodecLimits {
        max_input_bytes: 16,
        max_output_bytes: 0,
        max_expansion_ratio: 2,
    };
    assert_eq!(limits.validate().unwrap_err().category(), ErrorCategory::InvalidArgument);
    assert_eq!(
        ZstdAdapter::decompress_bounded(&[1; 4], &limits)
            .unwrap_err()
            .category(),
        ErrorCategory::InvalidArgument
    );
}

#[test]
fn oversized_input_reports_the_limit_and_the_request() {
    let limits = CodecLimits {
        max_input_bytes: 4,
        max_output_bytes: 8,
        max_expansion_ratio: 2,
    };
    let err = Lz4Adapter::decompress_bounded(&[0; 5], &limits).unwrap_err();
    assert_eq!(*err.detail(), ErrorDetail::LimitExceeded { limit: 4, requested: 5 });
}

#[test]
fn expansion_ratio_product_does_not_overflow() {
    let limits = CodecLimits {
        max_input_bytes: u64::MAX,
        max_output_bytes: u64::MAX,
        max_expansion_ratio: u64::MAX,
    };
    assert!(!limits.expansion_would_exceed(u64::MAX, u64::MAX));
    assert!(limits.expansion_would_exceed(0, 1));
}
